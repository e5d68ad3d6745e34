//! A minimal append-only log of length-prefixed payloads, shared by tools
//! that stream opaque records.  The embedding application appends encoded
//! payloads to the log file; the reader here walks a loaded buffer.

use vstd::prelude::*;

use crate::codec::{decode_bytes, enc_bytes, encode_bytes, parse_bytes};

verus! {

/// The payloads a log buffer yields: length-prefixed byte strings, read
/// until the first byte that does not start a complete payload.
pub open spec fn log_payloads(s: Seq<u8>) -> Seq<Seq<u8>>
    decreases s.len(),
{
    match parse_bytes(s) {
        None => Seq::empty(),
        Some((p, c)) => if 1 <= c <= s.len() {
            seq![p] + log_payloads(s.skip(c))
        } else {
            Seq::empty()
        },
    }
}

/// Appends one payload to a log buffer.
pub fn log_append(out: &mut Vec<u8>, payload: &Vec<u8>)
    ensures
        final(out)@ == old(out)@ + enc_bytes(payload@),
{
    encode_bytes(out, payload);
}

/// A loaded log buffer.
pub struct LogReader {
    buf: Vec<u8>,
}

impl LogReader {
    /// The bytes of the log.
    pub closed spec fn bytes(self) -> Seq<u8> {
        self.buf@
    }

    /// Takes ownership of the bytes of a log file.
    pub fn from_bytes(buf: Vec<u8>) -> (r: LogReader)
        ensures
            r.bytes() == buf@,
    {
        LogReader { buf }
    }

    /// A cursor over the payloads.
    pub fn iter(&self) -> (r: LogIter<'_>)
        ensures
            r.wf(),
            r.remaining() == log_payloads(self.bytes()),
    {
        let r = LogIter { buf: &self.buf, cur: 0 };
        proof {
            assert(self.buf@.skip(0) =~= self.buf@);
        }
        r
    }
}

/// A forward cursor over a log buffer's payloads.
pub struct LogIter<'a> {
    buf: &'a Vec<u8>,
    cur: usize,
}

impl<'a> LogIter<'a> {
    /// The payloads not yet yielded.
    pub closed spec fn remaining(self) -> Seq<Seq<u8>> {
        log_payloads(self.buf@.skip(self.cur as int))
    }

    pub closed spec fn wf(self) -> bool {
        self.cur <= self.buf@.len()
    }

    /// Yields the next payload; nothing at the end of the complete
    /// payloads.
    pub fn next(&mut self) -> (r: Option<Vec<u8>>)
        requires
            old(self).wf(),
        ensures
            final(self).wf(),
            match r {
                None => old(self).remaining().len() == 0 && final(self).remaining() == old(
                    self,
                ).remaining(),
                Some(p) => {
                    &&& old(self).remaining().len() > 0
                    &&& p@ == old(self).remaining()[0]
                    &&& final(self).remaining() == old(self).remaining().skip(1)
                },
            },
    {
        match decode_bytes(self.buf, self.cur) {
            None => None,
            Some((p, end)) => {
                proof {
                    let s = self.buf@.skip(self.cur as int);
                    assert(s.skip(end - self.cur) =~= self.buf@.skip(end as int));
                    assert((seq![p@] + log_payloads(self.buf@.skip(end as int))).skip(1) =~=
                    log_payloads(self.buf@.skip(end as int)));
                }
                self.cur = end;
                Some(p)
            }
        }
    }
}

} // verus!
