//! The fixed binary encoding used by every durable structure.
//!
//! One concrete choice is applied identically in all components: unsigned
//! 64-bit integers are eight bytes little-endian; a byte string is its
//! length followed by its bytes; sum types carry a one-byte tag.  The one
//! exception is the SST index-length tail, which is eight bytes big-endian.
//!
//! Each shape has a specification-level encoder (`enc_*`), a
//! specification-level parser (`parse_*`) returning the value and the number
//! of bytes consumed, executable counterparts proved against them, and three
//! families of lemmas: round trip (`parse` of `enc` plus anything yields the
//! value back), agreement (a parse only depends on the bytes it consumed),
//! and truncation (a parse fails on any strict prefix of what it consumed).
//! The latter two underpin crash recovery: a torn tail of a log can never
//! decode as something else.

use vstd::prelude::*;

use crate::manifest::{ManActionV, ManifestAction};
use crate::memtable::{MemActionV, MemTableAction, UpdateV, ValueUpdate};
use crate::sstable::SstId;

verus! {

/// Little-endian bytes of a 64-bit integer.
#[verifier::opaque]
pub open spec fn enc_u64(n: u64) -> Seq<u8> {
    seq![
        (n & 0xff) as u8,
        ((n >> 8) & 0xff) as u8,
        ((n >> 16) & 0xff) as u8,
        ((n >> 24) & 0xff) as u8,
        ((n >> 32) & 0xff) as u8,
        ((n >> 40) & 0xff) as u8,
        ((n >> 48) & 0xff) as u8,
        ((n >> 56) & 0xff) as u8,
    ]
}

/// Big-endian bytes of a 64-bit integer (the SST index-length tail).
pub open spec fn enc_u64_be(n: u64) -> Seq<u8> {
    enc_u64(n).reverse()
}

/// The 64-bit integer whose little-endian bytes are `b0` through `b7`.
#[verifier::opaque]
pub open spec fn combine_u64(b0: u8, b1: u8, b2: u8, b3: u8, b4: u8, b5: u8, b6: u8, b7: u8) -> u64 {
    (b0 as u64) | ((b1 as u64) << 8) | ((b2 as u64) << 16) | ((b3 as u64) << 24)
        | ((b4 as u64) << 32) | ((b5 as u64) << 40) | ((b6 as u64) << 48) | ((b7 as u64) << 56)
}

/// Parses a little-endian 64-bit integer from the front of `s`.
pub open spec fn parse_u64(s: Seq<u8>) -> Option<(u64, int)> {
    if s.len() >= 8 {
        Some((combine_u64(s[0], s[1], s[2], s[3], s[4], s[5], s[6], s[7]), 8))
    } else {
        None
    }
}

/// A byte string is encoded as its length followed by its bytes.
pub open spec fn enc_bytes(b: Seq<u8>) -> Seq<u8> {
    enc_u64(b.len() as u64) + b
}

/// Parses a length-prefixed byte string from the front of `s`.
pub open spec fn parse_bytes(s: Seq<u8>) -> Option<(Seq<u8>, int)> {
    match parse_u64(s) {
        None => None,
        Some((n, c)) => if s.len() >= c + n {
            Some((s.subrange(c, c + n), c + n))
        } else {
            None
        },
    }
}

pub proof fn lemma_enc_u64_len(n: u64)
    ensures
        enc_u64(n).len() == 8,
{
    reveal(enc_u64);
}

/// Length of an encoded byte string.
pub proof fn lemma_enc_bytes_len(b: Seq<u8>)
    ensures
        enc_bytes(b).len() == 8 + b.len(),
{
    lemma_enc_u64_len(b.len() as u64);
}

pub proof fn lemma_combine_enc_u64(n: u64)
    ensures
        combine_u64(
            (n & 0xff) as u8,
            ((n >> 8) & 0xff) as u8,
            ((n >> 16) & 0xff) as u8,
            ((n >> 24) & 0xff) as u8,
            ((n >> 32) & 0xff) as u8,
            ((n >> 40) & 0xff) as u8,
            ((n >> 48) & 0xff) as u8,
            ((n >> 56) & 0xff) as u8,
        ) == n,
{
    reveal(combine_u64);
    assert((((n & 0xff) as u8) as u64) | ((((n >> 8) & 0xff) as u8) as u64) << 8
        | ((((n >> 16) & 0xff) as u8) as u64) << 16 | ((((n >> 24) & 0xff) as u8) as u64) << 24
        | ((((n >> 32) & 0xff) as u8) as u64) << 32 | ((((n >> 40) & 0xff) as u8) as u64) << 40
        | ((((n >> 48) & 0xff) as u8) as u64) << 48 | ((((n >> 56) & 0xff) as u8) as u64) << 56
        == n) by (bit_vector);
}

/// Round trip: a parse right after an encode yields the integer back,
/// whatever follows it.
pub proof fn lemma_parse_enc_u64(n: u64, rest: Seq<u8>)
    ensures
        parse_u64(enc_u64(n) + rest) == Some((n, 8int)),
{
    reveal(enc_u64);
    let s = enc_u64(n) + rest;
    assert(s[0] == enc_u64(n)[0]);
    assert(s[1] == enc_u64(n)[1]);
    assert(s[2] == enc_u64(n)[2]);
    assert(s[3] == enc_u64(n)[3]);
    assert(s[4] == enc_u64(n)[4]);
    assert(s[5] == enc_u64(n)[5]);
    assert(s[6] == enc_u64(n)[6]);
    assert(s[7] == enc_u64(n)[7]);
    lemma_combine_enc_u64(n);
}

/// A parse of a 64-bit integer depends only on the eight bytes it consumed.
pub proof fn lemma_parse_u64_agree(s1: Seq<u8>, s2: Seq<u8>)
    requires
        parse_u64(s1) is Some,
        s2.len() >= 8,
        s2.take(8) == s1.take(8),
    ensures
        parse_u64(s2) == parse_u64(s1),
{
    assert forall|i: int| 0 <= i < 8 implies s2[i] == s1[i] by {
        assert(s1.take(8)[i] == s1[i]);
        assert(s2.take(8)[i] == s2[i]);
    }
}

/// Round trip for byte strings.
pub proof fn lemma_parse_enc_bytes(b: Seq<u8>, rest: Seq<u8>)
    requires
        b.len() <= u64::MAX,
    ensures
        parse_bytes(enc_bytes(b) + rest) == Some((b, 8 + b.len() as int)),
{
    let s = enc_bytes(b) + rest;
    lemma_enc_u64_len(b.len() as u64);
    assert(s =~= enc_u64(b.len() as u64) + (b + rest));
    lemma_parse_enc_u64(b.len() as u64, b + rest);
    assert(b.len() as u64 as int == b.len() as int);
    assert(s.subrange(8, 8 + b.len() as int) =~= b);
}

/// A parse of a byte string depends only on the bytes it consumed.
pub proof fn lemma_parse_bytes_agree(s1: Seq<u8>, s2: Seq<u8>)
    requires
        parse_bytes(s1) is Some,
        s2.len() >= parse_bytes(s1).unwrap().1,
        s2.take(parse_bytes(s1).unwrap().1) == s1.take(parse_bytes(s1).unwrap().1),
    ensures
        parse_bytes(s2) == parse_bytes(s1),
{
    let c = parse_bytes(s1).unwrap().1;
    assert(s2.take(c).take(8) =~= s2.take(8));
    assert(s1.take(c).take(8) =~= s1.take(8));
    lemma_parse_u64_agree(s1, s2);
    let n = parse_u64(s1).unwrap().0;
    assert(s1.subrange(8, c) =~= s2.subrange(8, c)) by {
        assert forall|i: int| 8 <= i < c implies s1[i] == s2[i] by {
            assert(s1.take(c)[i] == s1[i]);
            assert(s2.take(c)[i] == s2[i]);
        }
    }
}

/// A parse of a byte string fails on any strict prefix of what it consumed.
pub proof fn lemma_parse_bytes_short(s: Seq<u8>, m: int)
    requires
        parse_bytes(s) is Some,
        0 <= m < parse_bytes(s).unwrap().1,
    ensures
        parse_bytes(s.take(m)) is None,
{
    if m >= 8 {
        assert(s.take(m).take(8) =~= s.take(8));
        lemma_parse_u64_agree(s, s.take(m));
    }
}

/// A value update is a one-byte tag, and for a value its bytes.
pub open spec fn enc_update(u: UpdateV) -> Seq<u8> {
    match u {
        UpdateV::Tombstone => seq![0u8],
        UpdateV::Value(v) => seq![1u8] + enc_bytes(v),
    }
}

/// Parses a value update from the front of `s`.
pub open spec fn parse_update(s: Seq<u8>) -> Option<(UpdateV, int)> {
    if s.len() < 1 {
        None
    } else if s[0] == 0 {
        Some((UpdateV::Tombstone, 1))
    } else if s[0] == 1 {
        match parse_bytes(s.skip(1)) {
            None => None,
            Some((v, c)) => Some((UpdateV::Value(v), 1 + c)),
        }
    } else {
        None
    }
}

/// Whether an update is small enough for its length prefix.
pub open spec fn update_fits(u: UpdateV) -> bool {
    match u {
        UpdateV::Tombstone => true,
        UpdateV::Value(v) => v.len() <= u64::MAX,
    }
}

/// Length of an encoded update.
pub proof fn lemma_enc_update_len(u: UpdateV)
    ensures
        enc_update(u).len() == match u {
            UpdateV::Tombstone => 1int,
            UpdateV::Value(v) => 9 + v.len() as int,
        },
{
    match u {
        UpdateV::Tombstone => {}
        UpdateV::Value(v) => {
            lemma_enc_bytes_len(v);
        }
    }
}

/// A record is a key followed by its update.
pub open spec fn enc_record(k: Seq<u8>, u: UpdateV) -> Seq<u8> {
    enc_bytes(k) + enc_update(u)
}

/// Whether a record is small enough for its length prefixes.
pub open spec fn record_fits(k: Seq<u8>, u: UpdateV) -> bool {
    k.len() <= u64::MAX && update_fits(u)
}

/// Parses a record from the front of `s`.
pub open spec fn parse_record(s: Seq<u8>) -> Option<((Seq<u8>, UpdateV), int)> {
    match parse_bytes(s) {
        None => None,
        Some((k, c1)) => match parse_update(s.skip(c1)) {
            None => None,
            Some((u, c2)) => Some(((k, u), c1 + c2)),
        },
    }
}

/// A memtable log record: a one-byte tag, and for an insertion its record.
pub open spec fn enc_mem_action(a: MemActionV) -> Seq<u8> {
    match a {
        MemActionV::Commit => seq![0u8],
        MemActionV::Insert(k, u) => seq![1u8] + enc_record(k, u),
    }
}

/// Whether a memtable log record is small enough for its length prefixes.
pub open spec fn mem_action_fits(a: MemActionV) -> bool {
    match a {
        MemActionV::Commit => true,
        MemActionV::Insert(k, u) => record_fits(k, u),
    }
}

/// Parses a memtable log record from the front of `s`.
pub open spec fn parse_mem_action(s: Seq<u8>) -> Option<(MemActionV, int)> {
    if s.len() < 1 {
        None
    } else if s[0] == 0 {
        Some((MemActionV::Commit, 1))
    } else if s[0] == 1 {
        match parse_record(s.skip(1)) {
            None => None,
            Some(((k, u), c)) => Some((MemActionV::Insert(k, u), 1 + c)),
        }
    } else {
        None
    }
}

/// Every successful parse consumes at least one byte and at most the whole
/// input.
pub proof fn lemma_parse_update_bounds(s: Seq<u8>)
    ensures
        parse_update(s) is Some ==> 1 <= parse_update(s).unwrap().1 <= s.len(),
{
}

pub proof fn lemma_parse_record_bounds(s: Seq<u8>)
    ensures
        parse_record(s) is Some ==> 1 <= parse_record(s).unwrap().1 <= s.len(),
{
    if parse_record(s) is Some {
        let c1 = parse_bytes(s).unwrap().1;
        lemma_parse_update_bounds(s.skip(c1));
    }
}

pub proof fn lemma_parse_mem_action_bounds(s: Seq<u8>)
    ensures
        parse_mem_action(s) is Some ==> 1 <= parse_mem_action(s).unwrap().1 <= s.len(),
{
    if s.len() >= 1 && s[0] == 1 {
        lemma_parse_record_bounds(s.skip(1));
    }
}

/// Round trip for value updates.
#[verifier::spinoff_prover]
#[verifier::rlimit(100)]
pub proof fn lemma_parse_enc_update(u: UpdateV, rest: Seq<u8>)
    requires
        update_fits(u),
    ensures
        parse_update(enc_update(u) + rest) == Some((u, enc_update(u).len() as int)),
{
    let s = enc_update(u) + rest;
    match u {
        UpdateV::Tombstone => {
            assert(s[0] == 0);
        }
        UpdateV::Value(v) => {
            assert(s[0] == 1);
            lemma_enc_bytes_len(v);
            assert(s.skip(1) =~= enc_bytes(v) + rest);
            lemma_parse_enc_bytes(v, rest);
            assert(parse_bytes(s.skip(1)) == Some((v, 8 + v.len() as int)));
            assert(parse_update(s) == Some((UpdateV::Value(v), 1 + 8 + v.len() as int)));
            assert(enc_update(u).len() == 1 + 8 + v.len());
        }
    }
}

/// Round trip for records.
#[verifier::spinoff_prover]
#[verifier::rlimit(100)]
pub proof fn lemma_parse_enc_record(k: Seq<u8>, u: UpdateV, rest: Seq<u8>)
    requires
        record_fits(k, u),
    ensures
        parse_record(enc_record(k, u) + rest) == Some(((k, u), enc_record(k, u).len() as int)),
{
    let s = enc_record(k, u) + rest;
    lemma_enc_bytes_len(k);
    lemma_enc_update_len(u);
    assert(s =~= enc_bytes(k) + (enc_update(u) + rest));
    lemma_parse_enc_bytes(k, enc_update(u) + rest);
    let c1 = 8 + k.len() as int;
    assert(s.skip(c1) =~= enc_update(u) + rest);
    lemma_parse_enc_update(u, rest);
}

/// Round trip for memtable log records.
#[verifier::spinoff_prover]
#[verifier::rlimit(100)]
pub proof fn lemma_parse_enc_mem_action(a: MemActionV, rest: Seq<u8>)
    requires
        mem_action_fits(a),
    ensures
        parse_mem_action(enc_mem_action(a) + rest) == Some(
            (a, enc_mem_action(a).len() as int),
        ),
{
    let s = enc_mem_action(a) + rest;
    match a {
        MemActionV::Commit => {
            assert(s[0] == 0);
        }
        MemActionV::Insert(k, u) => {
            assert(s[0] == 1);
            lemma_enc_bytes_len(k);
            lemma_enc_update_len(u);
            assert(s.skip(1) =~= enc_record(k, u) + rest);
            lemma_parse_enc_record(k, u, rest);
        }
    }
}

/// A parse of a value update depends only on the bytes it consumed.
pub proof fn lemma_parse_update_agree(s1: Seq<u8>, s2: Seq<u8>)
    requires
        parse_update(s1) is Some,
        s2.len() >= parse_update(s1).unwrap().1,
        s2.take(parse_update(s1).unwrap().1) == s1.take(parse_update(s1).unwrap().1),
    ensures
        parse_update(s2) == parse_update(s1),
{
    let c = parse_update(s1).unwrap().1;
    assert(s1[0] == s1.take(c)[0]);
    assert(s2[0] == s2.take(c)[0]);
    if s1[0] == 1 {
        let cb = parse_bytes(s1.skip(1)).unwrap().1;
        assert(s1.skip(1).take(cb) =~= s1.take(c).skip(1));
        assert(s2.skip(1).take(cb) =~= s2.take(c).skip(1));
        lemma_parse_bytes_agree(s1.skip(1), s2.skip(1));
    }
}

/// A parse of a value update fails on any strict prefix of what it consumed.
pub proof fn lemma_parse_update_short(s: Seq<u8>, m: int)
    requires
        parse_update(s) is Some,
        0 <= m < parse_update(s).unwrap().1,
    ensures
        parse_update(s.take(m)) is None,
{
    if m >= 1 {
        assert(s.take(m)[0] == s[0]);
        let cb = parse_bytes(s.skip(1)).unwrap().1;
        assert(s.take(m).skip(1) =~= s.skip(1).take(m - 1));
        lemma_parse_bytes_short(s.skip(1), m - 1);
    }
}

/// A parse of a record depends only on the bytes it consumed.
pub proof fn lemma_parse_record_agree(s1: Seq<u8>, s2: Seq<u8>)
    requires
        parse_record(s1) is Some,
        s2.len() >= parse_record(s1).unwrap().1,
        s2.take(parse_record(s1).unwrap().1) == s1.take(parse_record(s1).unwrap().1),
    ensures
        parse_record(s2) == parse_record(s1),
{
    let c = parse_record(s1).unwrap().1;
    let c1 = parse_bytes(s1).unwrap().1;
    let c2 = parse_update(s1.skip(c1)).unwrap().1;
    lemma_parse_update_bounds(s1.skip(c1));
    assert(s1.take(c1) =~= s1.take(c).take(c1));
    assert(s2.take(c1) =~= s2.take(c).take(c1));
    lemma_parse_bytes_agree(s1, s2);
    assert(s1.skip(c1).take(c2) =~= s1.take(c).skip(c1));
    assert(s2.skip(c1).take(c2) =~= s2.take(c).skip(c1));
    lemma_parse_update_agree(s1.skip(c1), s2.skip(c1));
}

/// A parse of a record fails on any strict prefix of what it consumed.
pub proof fn lemma_parse_record_short(s: Seq<u8>, m: int)
    requires
        parse_record(s) is Some,
        0 <= m < parse_record(s).unwrap().1,
    ensures
        parse_record(s.take(m)) is None,
{
    let c1 = parse_bytes(s).unwrap().1;
    lemma_parse_update_bounds(s.skip(c1));
    if m < c1 {
        lemma_parse_bytes_short(s, m);
    } else {
        assert(s.take(m).take(c1) =~= s.take(c1));
        lemma_parse_bytes_agree(s, s.take(m));
        assert(s.take(m).skip(c1) =~= s.skip(c1).take(m - c1));
        lemma_parse_update_short(s.skip(c1), m - c1);
    }
}

/// A parse of a memtable log record depends only on the bytes it consumed.
pub proof fn lemma_parse_mem_action_agree(s1: Seq<u8>, s2: Seq<u8>)
    requires
        parse_mem_action(s1) is Some,
        s2.len() >= parse_mem_action(s1).unwrap().1,
        s2.take(parse_mem_action(s1).unwrap().1) == s1.take(parse_mem_action(s1).unwrap().1),
    ensures
        parse_mem_action(s2) == parse_mem_action(s1),
{
    let c = parse_mem_action(s1).unwrap().1;
    assert(s1[0] == s1.take(c)[0]);
    assert(s2[0] == s2.take(c)[0]);
    if s1[0] == 1 {
        let cr = parse_record(s1.skip(1)).unwrap().1;
        assert(s1.skip(1).take(cr) =~= s1.take(c).skip(1));
        assert(s2.skip(1).take(cr) =~= s2.take(c).skip(1));
        lemma_parse_record_agree(s1.skip(1), s2.skip(1));
    }
}

/// A parse of a memtable log record fails on any strict prefix of what it
/// consumed.
pub proof fn lemma_parse_mem_action_short(s: Seq<u8>, m: int)
    requires
        parse_mem_action(s) is Some,
        0 <= m < parse_mem_action(s).unwrap().1,
    ensures
        parse_mem_action(s.take(m)) is None,
{
    if m >= 1 {
        assert(s.take(m)[0] == s[0]);
        assert(s.take(m).skip(1) =~= s.skip(1).take(m - 1));
        lemma_parse_record_short(s.skip(1), m - 1);
    }
}

/// Parses a big-endian 64-bit integer from the front of `s`.
pub open spec fn parse_u64_be(s: Seq<u8>) -> Option<(u64, int)> {
    if s.len() >= 8 {
        Some((combine_u64(s[7], s[6], s[5], s[4], s[3], s[2], s[1], s[0]), 8))
    } else {
        None
    }
}

pub proof fn lemma_enc_u64_be_len(n: u64)
    ensures
        enc_u64_be(n).len() == 8,
{
    lemma_enc_u64_len(n);
}

/// Round trip for the big-endian tail encoding.
pub proof fn lemma_parse_enc_u64_be(n: u64, rest: Seq<u8>)
    ensures
        parse_u64_be(enc_u64_be(n) + rest) == Some((n, 8int)),
{
    reveal(enc_u64);
    let s = enc_u64_be(n) + rest;
    assert forall|i: int| 0 <= i < 8 implies s[i] == enc_u64(n)[7 - i] by {
        assert(s[i] == enc_u64(n).reverse()[i]);
    }
    lemma_combine_enc_u64(n);
}

/// Appends the little-endian bytes of `n`.
pub fn encode_u64(out: &mut Vec<u8>, n: u64)
    ensures
        final(out)@ == old(out)@ + enc_u64(n),
{
    out.push((n & 0xff) as u8);
    out.push(((n >> 8) & 0xff) as u8);
    out.push(((n >> 16) & 0xff) as u8);
    out.push(((n >> 24) & 0xff) as u8);
    out.push(((n >> 32) & 0xff) as u8);
    out.push(((n >> 40) & 0xff) as u8);
    out.push(((n >> 48) & 0xff) as u8);
    out.push(((n >> 56) & 0xff) as u8);
    proof {
        reveal(enc_u64);
        assert(out@ =~= old(out)@ + enc_u64(n));
    }
}

/// Appends the big-endian bytes of `n` (the SST index-length tail).
pub fn encode_u64_be(out: &mut Vec<u8>, n: u64)
    ensures
        final(out)@ == old(out)@ + enc_u64_be(n),
{
    out.push(((n >> 56) & 0xff) as u8);
    out.push(((n >> 48) & 0xff) as u8);
    out.push(((n >> 40) & 0xff) as u8);
    out.push(((n >> 32) & 0xff) as u8);
    out.push(((n >> 24) & 0xff) as u8);
    out.push(((n >> 16) & 0xff) as u8);
    out.push(((n >> 8) & 0xff) as u8);
    out.push((n & 0xff) as u8);
    proof {
        reveal(enc_u64);
        assert forall|i: int| 0 <= i < 8 implies enc_u64_be(n)[i] == enc_u64(n)[7 - i] by {
            assert(enc_u64_be(n)[i] == enc_u64(n).reverse()[i]);
        }
        assert(out@ =~= old(out)@ + enc_u64_be(n));
    }
}

/// Appends a length-prefixed byte string.
pub fn encode_bytes(out: &mut Vec<u8>, b: &Vec<u8>)
    ensures
        final(out)@ == old(out)@ + enc_bytes(b@),
{
    encode_u64(out, b.len() as u64);
    let ghost mid = out@;
    let mut i: usize = 0;
    while i < b.len()
        invariant
            0 <= i <= b.len(),
            out@ == mid + b@.take(i as int),
        decreases b.len() - i,
    {
        out.push(b[i]);
        proof {
            assert(mid + b@.take(i + 1) =~= (mid + b@.take(i as int)).push(b@[i as int]));
        }
        i = i + 1;
    }
    proof {
        assert(b@.take(b@.len() as int) =~= b@);
        assert(out@ =~= old(out)@ + enc_bytes(b@));
    }
}

/// Appends an encoded value update.
pub fn encode_update(out: &mut Vec<u8>, u: &ValueUpdate)
    ensures
        final(out)@ == old(out)@ + enc_update(u@),
{
    match u {
        ValueUpdate::Tombstone => {
            out.push(0u8);
            proof {
                assert(out@ =~= old(out)@ + enc_update(u@));
            }
        }
        ValueUpdate::Value(v) => {
            out.push(1u8);
            encode_bytes(out, v);
            proof {
                assert(out@ =~= old(out)@ + enc_update(u@));
            }
        }
    }
}

/// Appends an encoded record.
pub fn encode_record(out: &mut Vec<u8>, k: &Vec<u8>, u: &ValueUpdate)
    ensures
        final(out)@ == old(out)@ + enc_record(k@, u@),
{
    encode_bytes(out, k);
    encode_update(out, u);
    proof {
        assert(out@ =~= old(out)@ + enc_record(k@, u@));
    }
}

/// Appends an encoded memtable log record.
pub fn encode_mem_action(out: &mut Vec<u8>, a: &MemTableAction)
    ensures
        final(out)@ == old(out)@ + enc_mem_action(a@),
{
    match a {
        MemTableAction::Commit => {
            out.push(0u8);
            proof {
                assert(out@ =~= old(out)@ + enc_mem_action(a@));
            }
        }
        MemTableAction::Insert(kv) => {
            out.push(1u8);
            encode_record(out, &kv.0, &kv.1);
            proof {
                assert(out@ =~= old(out)@ + enc_mem_action(a@));
            }
        }
    }
}

/// Copies `count` bytes of `buf` starting at `start` into a fresh vector.
pub fn copy_range(buf: &Vec<u8>, start: usize, count: usize) -> (r: Vec<u8>)
    requires
        start + count <= buf.len(),
    ensures
        r@ == buf@.subrange(start as int, start as int + count as int),
{
    let mut r: Vec<u8> = Vec::new();
    let mut i: usize = 0;
    while i < count
        invariant
            0 <= i <= count,
            start + count <= buf.len(),
            r@ == buf@.subrange(start as int, start as int + i as int),
        decreases count - i,
    {
        r.push(buf[start + i]);
        proof {
            assert(buf@.subrange(start as int, start as int + i + 1) =~= buf@.subrange(
                start as int,
                start as int + i as int,
            ).push(buf@[start as int + i]));
        }
        i = i + 1;
    }
    r
}

/// Decodes a little-endian 64-bit integer at `pos`.
pub fn decode_u64(buf: &Vec<u8>, pos: usize) -> (r: Option<(u64, usize)>)
    requires
        pos <= buf.len(),
    ensures
        match r {
            None => parse_u64(buf@.skip(pos as int)) is None,
            Some((n, end)) => {
                &&& parse_u64(buf@.skip(pos as int)) == Some((n, end - pos))
                &&& pos < end <= buf.len()
            },
        },
{
    if buf.len() - pos < 8 {
        return None;
    }
    let b0 = buf[pos];
    let b1 = buf[pos + 1];
    let b2 = buf[pos + 2];
    let b3 = buf[pos + 3];
    let b4 = buf[pos + 4];
    let b5 = buf[pos + 5];
    let b6 = buf[pos + 6];
    let b7 = buf[pos + 7];
    let n = (b0 as u64) | ((b1 as u64) << 8) | ((b2 as u64) << 16) | ((b3 as u64) << 24)
        | ((b4 as u64) << 32) | ((b5 as u64) << 40) | ((b6 as u64) << 48) | ((b7 as u64) << 56);
    proof {
        reveal(combine_u64);
        let s = buf@.skip(pos as int);
        assert(s[0] == b0 && s[1] == b1 && s[2] == b2 && s[3] == b3 && s[4] == b4 && s[5] == b5
            && s[6] == b6 && s[7] == b7);
        assert(n == combine_u64(s[0], s[1], s[2], s[3], s[4], s[5], s[6], s[7]));
    }
    Some((n, pos + 8))
}

/// Decodes a big-endian 64-bit integer at `pos`.
pub fn decode_u64_be(buf: &Vec<u8>, pos: usize) -> (r: Option<(u64, usize)>)
    requires
        pos <= buf.len(),
    ensures
        match r {
            None => parse_u64_be(buf@.skip(pos as int)) is None,
            Some((n, end)) => {
                &&& parse_u64_be(buf@.skip(pos as int)) == Some((n, end - pos))
                &&& pos < end <= buf.len()
            },
        },
{
    if buf.len() - pos < 8 {
        return None;
    }
    let b7 = buf[pos];
    let b6 = buf[pos + 1];
    let b5 = buf[pos + 2];
    let b4 = buf[pos + 3];
    let b3 = buf[pos + 4];
    let b2 = buf[pos + 5];
    let b1 = buf[pos + 6];
    let b0 = buf[pos + 7];
    let n = (b0 as u64) | ((b1 as u64) << 8) | ((b2 as u64) << 16) | ((b3 as u64) << 24)
        | ((b4 as u64) << 32) | ((b5 as u64) << 40) | ((b6 as u64) << 48) | ((b7 as u64) << 56);
    proof {
        reveal(combine_u64);
        let s = buf@.skip(pos as int);
        assert(s[0] == b7 && s[1] == b6 && s[2] == b5 && s[3] == b4 && s[4] == b3 && s[5] == b2
            && s[6] == b1 && s[7] == b0);
        assert(n == combine_u64(s[7], s[6], s[5], s[4], s[3], s[2], s[1], s[0]));
    }
    Some((n, pos + 8))
}

/// Decodes a length-prefixed byte string at `pos`.
pub fn decode_bytes(buf: &Vec<u8>, pos: usize) -> (r: Option<(Vec<u8>, usize)>)
    requires
        pos <= buf.len(),
    ensures
        match r {
            None => parse_bytes(buf@.skip(pos as int)) is None,
            Some((b, end)) => {
                &&& parse_bytes(buf@.skip(pos as int)) == Some((b@, end - pos))
                &&& pos < end <= buf.len()
            },
        },
{
    match decode_u64(buf, pos) {
        None => None,
        Some((n, p)) => {
            let rem = buf.len() - p;
            if n > rem as u64 {
                proof {
                    let s = buf@.skip(pos as int);
                    assert(s.len() == buf@.len() - pos);
                }
                None
            } else {
                let cnt = n as usize;
                let b = copy_range(buf, p, cnt);
                proof {
                    let s = buf@.skip(pos as int);
                    assert(s.subrange(8, 8 + n as int) =~= buf@.subrange(
                        p as int,
                        p as int + n as int,
                    ));
                }
                Some((b, p + cnt))
            }
        }
    }
}

/// Decodes a value update at `pos`.
pub fn decode_update(buf: &Vec<u8>, pos: usize) -> (r: Option<(ValueUpdate, usize)>)
    requires
        pos <= buf.len(),
    ensures
        match r {
            None => parse_update(buf@.skip(pos as int)) is None,
            Some((u, end)) => {
                &&& parse_update(buf@.skip(pos as int)) == Some((u@, end - pos))
                &&& pos < end <= buf.len()
            },
        },
{
    if pos >= buf.len() {
        return None;
    }
    let tag = buf[pos];
    proof {
        assert(buf@.skip(pos as int)[0] == tag);
    }
    if tag == 0 {
        Some((ValueUpdate::Tombstone, pos + 1))
    } else if tag == 1 {
        match decode_bytes(buf, pos + 1) {
            None => {
                proof {
                    assert(buf@.skip(pos as int).skip(1) =~= buf@.skip(pos + 1));
                }
                None
            }
            Some((v, end)) => {
                proof {
                    assert(buf@.skip(pos as int).skip(1) =~= buf@.skip(pos + 1));
                }
                Some((ValueUpdate::Value(v), end))
            }
        }
    } else {
        None
    }
}

/// Decodes a record at `pos`.
pub fn decode_record(buf: &Vec<u8>, pos: usize) -> (r: Option<((Vec<u8>, ValueUpdate), usize)>)
    requires
        pos <= buf.len(),
    ensures
        match r {
            None => parse_record(buf@.skip(pos as int)) is None,
            Some(((k, u), end)) => {
                &&& parse_record(buf@.skip(pos as int)) == Some(((k@, u@), end - pos))
                &&& pos < end <= buf.len()
            },
        },
{
    match decode_bytes(buf, pos) {
        None => None,
        Some((k, mid)) => {
            proof {
                assert(buf@.skip(pos as int).skip(mid - pos) =~= buf@.skip(mid as int));
            }
            match decode_update(buf, mid) {
                None => None,
                Some((u, end)) => Some(((k, u), end)),
            }
        }
    }
}

/// Decodes a memtable log record at `pos`.
pub fn decode_mem_action(buf: &Vec<u8>, pos: usize) -> (r: Option<(MemTableAction, usize)>)
    requires
        pos <= buf.len(),
    ensures
        match r {
            None => parse_mem_action(buf@.skip(pos as int)) is None,
            Some((a, end)) => {
                &&& parse_mem_action(buf@.skip(pos as int)) == Some((a@, end - pos))
                &&& pos < end <= buf.len()
            },
        },
{
    if pos >= buf.len() {
        return None;
    }
    let tag = buf[pos];
    proof {
        assert(buf@.skip(pos as int)[0] == tag);
    }
    if tag == 0 {
        Some((MemTableAction::Commit, pos + 1))
    } else if tag == 1 {
        match decode_record(buf, pos + 1) {
            None => {
                proof {
                    assert(buf@.skip(pos as int).skip(1) =~= buf@.skip(pos + 1));
                }
                None
            }
            Some(((k, u), end)) => {
                proof {
                    assert(buf@.skip(pos as int).skip(1) =~= buf@.skip(pos + 1));
                }
                Some((MemTableAction::Insert((k, u)), end))
            }
        }
    } else {
        None
    }
}

/// A manifest log record: a one-byte tag and the action's fields.
pub open spec fn enc_man_action(a: ManActionV) -> Seq<u8> {
    match a {
        ManActionV::Commit => seq![0u8],
        ManActionV::Add(id, f, l) => seq![1u8] + enc_u64(id.level) + enc_u64(id.id) + enc_bytes(
            f,
        ) + enc_bytes(l),
        ManActionV::Remove(id) => seq![2u8] + enc_u64(id.level) + enc_u64(id.id),
        ManActionV::NewId(l) => seq![3u8] + enc_u64(l),
        ManActionV::NextCompact(l) => seq![4u8] + enc_u64(l),
    }
}

/// Whether a manifest log record is small enough for its length prefixes.
pub open spec fn man_action_fits(a: ManActionV) -> bool {
    match a {
        ManActionV::Add(id, f, l) => f.len() <= u64::MAX && l.len() <= u64::MAX,
        _ => true,
    }
}

/// Parses a manifest log record from the front of `s`.
pub open spec fn parse_man_action(s: Seq<u8>) -> Option<(ManActionV, int)> {
    if s.len() < 1 {
        None
    } else if s[0] == 0 {
        Some((ManActionV::Commit, 1))
    } else if s[0] == 1 {
        match parse_u64(s.skip(1)) {
            None => None,
            Some((lv, c1)) => match parse_u64(s.skip(1 + c1)) {
                None => None,
                Some((id, c2)) => match parse_bytes(s.skip(1 + c1 + c2)) {
                    None => None,
                    Some((f, c3)) => match parse_bytes(s.skip(1 + c1 + c2 + c3)) {
                        None => None,
                        Some((l, c4)) => Some(
                            (
                                ManActionV::Add(SstId { level: lv, id: id }, f, l),
                                1 + c1 + c2 + c3 + c4,
                            ),
                        ),
                    },
                },
            },
        }
    } else if s[0] == 2 {
        match parse_u64(s.skip(1)) {
            None => None,
            Some((lv, c1)) => match parse_u64(s.skip(1 + c1)) {
                None => None,
                Some((id, c2)) => Some(
                    (ManActionV::Remove(SstId { level: lv, id: id }), 1 + c1 + c2),
                ),
            },
        }
    } else if s[0] == 3 {
        match parse_u64(s.skip(1)) {
            None => None,
            Some((lv, c1)) => Some((ManActionV::NewId(lv), 1 + c1)),
        }
    } else if s[0] == 4 {
        match parse_u64(s.skip(1)) {
            None => None,
            Some((lv, c1)) => Some((ManActionV::NextCompact(lv), 1 + c1)),
        }
    } else {
        None
    }
}

/// Appends an encoded manifest log record.
pub fn encode_man_action(out: &mut Vec<u8>, a: &ManifestAction)
    ensures
        final(out)@ == old(out)@ + enc_man_action(a@),
{
    match a {
        ManifestAction::Commit => {
            out.push(0u8);
            proof {
                assert(out@ =~= old(out)@ + enc_man_action(a@));
            }
        }
        ManifestAction::Add(t) => {
            out.push(1u8);
            encode_u64(out, t.0.level);
            encode_u64(out, t.0.id);
            encode_bytes(out, &t.1);
            encode_bytes(out, &t.2);
            proof {
                assert(out@ =~= old(out)@ + enc_man_action(a@));
            }
        }
        ManifestAction::Remove(t) => {
            out.push(2u8);
            encode_u64(out, t.0.level);
            encode_u64(out, t.0.id);
            proof {
                assert(out@ =~= old(out)@ + enc_man_action(a@));
            }
        }
        ManifestAction::NewId(t) => {
            out.push(3u8);
            encode_u64(out, t.0);
            proof {
                assert(out@ =~= old(out)@ + enc_man_action(a@));
            }
        }
        ManifestAction::NextCompact(t) => {
            out.push(4u8);
            encode_u64(out, t.0);
            proof {
                assert(out@ =~= old(out)@ + enc_man_action(a@));
            }
        }
    }
}

/// Decodes a manifest log record at `pos`.
pub fn decode_man_action(buf: &Vec<u8>, pos: usize) -> (r: Option<(ManifestAction, usize)>)
    requires
        pos <= buf.len(),
    ensures
        match r {
            None => parse_man_action(buf@.skip(pos as int)) is None,
            Some((a, end)) => {
                &&& parse_man_action(buf@.skip(pos as int)) == Some((a@, end - pos))
                &&& pos < end <= buf.len()
            },
        },
{
    if pos >= buf.len() {
        return None;
    }
    let tag = buf[pos];
    proof {
        assert(buf@.skip(pos as int)[0] == tag);
    }
    if tag == 0 {
        Some((ManifestAction::Commit, pos + 1))
    } else if tag == 1 {
        proof {
            assert(buf@.skip(pos as int).skip(1) =~= buf@.skip(pos + 1));
        }
        let (lv, p1) = match decode_u64(buf, pos + 1) {
            None => {
                return None;
            },
            Some(x) => x,
        };
        proof {
            assert(buf@.skip(pos as int).skip(p1 - pos) =~= buf@.skip(p1 as int));
        }
        let (id, p2) = match decode_u64(buf, p1) {
            None => {
                return None;
            },
            Some(x) => x,
        };
        proof {
            assert(buf@.skip(pos as int).skip(p2 - pos) =~= buf@.skip(p2 as int));
        }
        let (f, p3) = match decode_bytes(buf, p2) {
            None => {
                return None;
            },
            Some(x) => x,
        };
        proof {
            assert(buf@.skip(pos as int).skip(p3 - pos) =~= buf@.skip(p3 as int));
        }
        let (l, p4) = match decode_bytes(buf, p3) {
            None => {
                return None;
            },
            Some(x) => x,
        };
        Some((ManifestAction::Add((SstId { level: lv, id }, f, l)), p4))
    } else if tag == 2 {
        proof {
            assert(buf@.skip(pos as int).skip(1) =~= buf@.skip(pos + 1));
        }
        let (lv, p1) = match decode_u64(buf, pos + 1) {
            None => {
                return None;
            },
            Some(x) => x,
        };
        proof {
            assert(buf@.skip(pos as int).skip(p1 - pos) =~= buf@.skip(p1 as int));
        }
        let (id, p2) = match decode_u64(buf, p1) {
            None => {
                return None;
            },
            Some(x) => x,
        };
        Some((ManifestAction::Remove((SstId { level: lv, id },)), p2))
    } else if tag == 3 {
        proof {
            assert(buf@.skip(pos as int).skip(1) =~= buf@.skip(pos + 1));
        }
        match decode_u64(buf, pos + 1) {
            None => None,
            Some((lv, p1)) => Some((ManifestAction::NewId((lv,)), p1)),
        }
    } else if tag == 4 {
        proof {
            assert(buf@.skip(pos as int).skip(1) =~= buf@.skip(pos + 1));
        }
        match decode_u64(buf, pos + 1) {
            None => None,
            Some((lv, p1)) => Some((ManifestAction::NextCompact((lv,)), p1)),
        }
    } else {
        None
    }
}

/// Every successful manifest-record parse consumes at least one byte and
/// at most the whole input.
pub proof fn lemma_parse_man_action_bounds(s: Seq<u8>)
    ensures
        parse_man_action(s) is Some ==> 1 <= parse_man_action(s).unwrap().1 <= s.len(),
{
}

/// Round trip for manifest log records.
#[verifier::rlimit(100)]
#[verifier::spinoff_prover]
pub proof fn lemma_parse_enc_man_action(a: ManActionV, rest: Seq<u8>)
    requires
        man_action_fits(a),
    ensures
        parse_man_action(enc_man_action(a) + rest) == Some(
            (a, enc_man_action(a).len() as int),
        ),
{
    let s = enc_man_action(a) + rest;
    match a {
        ManActionV::Commit => {
            assert(s[0] == 0);
        }
        ManActionV::Add(id, f, l) => {
            assert(s[0] == 1);
            lemma_enc_u64_len(id.level);
            lemma_enc_u64_len(id.id);
            lemma_enc_bytes_len(f);
            lemma_enc_bytes_len(l);
            assert(s.skip(1) =~= enc_u64(id.level) + (enc_u64(id.id) + (enc_bytes(f) + (
            enc_bytes(l) + rest))));
            lemma_parse_enc_u64(id.level, enc_u64(id.id) + (enc_bytes(f) + (enc_bytes(l)
                + rest)));
            assert(s.skip(1).skip(8) =~= enc_u64(id.id) + (enc_bytes(f) + (enc_bytes(l)
                + rest)));
            assert(s.skip(9) =~= s.skip(1).skip(8));
            lemma_parse_enc_u64(id.id, enc_bytes(f) + (enc_bytes(l) + rest));
            assert(s.skip(17) =~= enc_bytes(f) + (enc_bytes(l) + rest));
            lemma_parse_enc_bytes(f, enc_bytes(l) + rest);
            let c3 = 8 + f.len() as int;
            assert(s.skip(17 + c3) =~= enc_bytes(l) + rest);
            lemma_parse_enc_bytes(l, rest);
            let c4 = 8 + l.len() as int;
            assert(enc_man_action(a).len() == 17 + c3 + c4);
        }
        ManActionV::Remove(id) => {
            assert(s[0] == 2);
            lemma_enc_u64_len(id.level);
            lemma_enc_u64_len(id.id);
            assert(s.skip(1) =~= enc_u64(id.level) + (enc_u64(id.id) + rest));
            lemma_parse_enc_u64(id.level, enc_u64(id.id) + rest);
            assert(s.skip(9) =~= enc_u64(id.id) + rest);
            lemma_parse_enc_u64(id.id, rest);
            assert(enc_man_action(a).len() == 17);
        }
        ManActionV::NewId(l) => {
            assert(s[0] == 3);
            lemma_enc_u64_len(l);
            assert(s.skip(1) =~= enc_u64(l) + rest);
            lemma_parse_enc_u64(l, rest);
            assert(enc_man_action(a).len() == 9);
        }
        ManActionV::NextCompact(l) => {
            assert(s[0] == 4);
            lemma_enc_u64_len(l);
            assert(s.skip(1) =~= enc_u64(l) + rest);
            lemma_parse_enc_u64(l, rest);
            assert(enc_man_action(a).len() == 9);
        }
    }
}

/// A parse of a manifest record depends only on the bytes it consumed.
#[verifier::rlimit(100)]
#[verifier::spinoff_prover]
pub proof fn lemma_parse_man_action_agree(s1: Seq<u8>, s2: Seq<u8>)
    requires
        parse_man_action(s1) is Some,
        s2.len() >= parse_man_action(s1).unwrap().1,
        s2.take(parse_man_action(s1).unwrap().1) == s1.take(parse_man_action(s1).unwrap().1),
    ensures
        parse_man_action(s2) == parse_man_action(s1),
{
    let c = parse_man_action(s1).unwrap().1;
    assert(s1[0] == s1.take(c)[0]);
    assert(s2[0] == s2.take(c)[0]);
    assert forall|k: int, n: int|
        0 <= k && 0 <= n && k + n <= c implies #[trigger] s2.skip(k).take(n) =~= s1.skip(
        k,
    ).take(n) by {
        assert forall|i: int| 0 <= i < n implies s2.skip(k)[i] == s1.skip(k)[i] by {
            assert(s1.take(c)[k + i] == s1[k + i]);
            assert(s2.take(c)[k + i] == s2[k + i]);
        }
    }
    if s1[0] == 1 {
        let c1 = parse_u64(s1.skip(1)).unwrap().1;
        assert(s2.skip(1).take(8) =~= s1.skip(1).take(8));
        lemma_parse_u64_agree(s1.skip(1), s2.skip(1));
        let c2 = parse_u64(s1.skip(1 + c1)).unwrap().1;
        assert(s2.skip(1 + c1).take(8) =~= s1.skip(1 + c1).take(8));
        lemma_parse_u64_agree(s1.skip(1 + c1), s2.skip(1 + c1));
        let c3 = parse_bytes(s1.skip(1 + c1 + c2)).unwrap().1;
        assert(s2.skip(1 + c1 + c2).take(c3) =~= s1.skip(1 + c1 + c2).take(c3));
        lemma_parse_bytes_agree(s1.skip(1 + c1 + c2), s2.skip(1 + c1 + c2));
        let c4 = parse_bytes(s1.skip(1 + c1 + c2 + c3)).unwrap().1;
        assert(s2.skip(1 + c1 + c2 + c3).take(c4) =~= s1.skip(1 + c1 + c2 + c3).take(c4));
        lemma_parse_bytes_agree(s1.skip(1 + c1 + c2 + c3), s2.skip(1 + c1 + c2 + c3));
    } else if s1[0] == 2 {
        let c1 = parse_u64(s1.skip(1)).unwrap().1;
        assert(s2.skip(1).take(8) =~= s1.skip(1).take(8));
        lemma_parse_u64_agree(s1.skip(1), s2.skip(1));
        assert(s2.skip(1 + c1).take(8) =~= s1.skip(1 + c1).take(8));
        lemma_parse_u64_agree(s1.skip(1 + c1), s2.skip(1 + c1));
    } else if s1[0] == 3 || s1[0] == 4 {
        assert(s2.skip(1).take(8) =~= s1.skip(1).take(8));
        lemma_parse_u64_agree(s1.skip(1), s2.skip(1));
    }
}

/// A parse of a manifest record fails on any strict prefix of what it
/// consumed.
#[verifier::rlimit(100)]
#[verifier::spinoff_prover]
pub proof fn lemma_parse_man_action_short(s: Seq<u8>, m: int)
    requires
        parse_man_action(s) is Some,
        0 <= m < parse_man_action(s).unwrap().1,
    ensures
        parse_man_action(s.take(m)) is None,
{
    if m == 0 {
        return ;
    }
    let t = s.take(m);
    assert(t[0] == s[0]);
    assert forall|k: int, n: int|
        0 <= k && 0 <= n && k + n <= m implies #[trigger] t.skip(k).take(n) =~= s.skip(k).take(
        n,
    ) by {
        assert forall|i: int| 0 <= i < n implies t.skip(k)[i] == s.skip(k)[i] by {
            assert(t[k + i] == s[k + i]);
        }
    }
    assert forall|k: int| 0 <= k <= m implies #[trigger] t.skip(k) =~= s.skip(k).take(
        m - k,
    ) by {
        assert forall|i: int| 0 <= i < m - k implies t.skip(k)[i] == s.skip(k).take(
            m - k,
        )[i] by {
            assert(t[k + i] == s[k + i]);
        }
    }
    if s[0] == 1 {
        let c1 = parse_u64(s.skip(1)).unwrap().1;
        if m < 1 + c1 {
            assert(t.skip(1).len() < 8);
        } else {
            assert(t.skip(1).take(8) =~= s.skip(1).take(8));
            lemma_parse_u64_agree(s.skip(1), t.skip(1));
            let c2 = parse_u64(s.skip(1 + c1)).unwrap().1;
            if m < 1 + c1 + c2 {
                assert(t.skip(1 + c1).len() < 8);
            } else {
                assert(t.skip(1 + c1).take(8) =~= s.skip(1 + c1).take(8));
                lemma_parse_u64_agree(s.skip(1 + c1), t.skip(1 + c1));
                let c3 = parse_bytes(s.skip(1 + c1 + c2)).unwrap().1;
                if m < 1 + c1 + c2 + c3 {
                    assert(t.skip(1 + c1 + c2) =~= s.skip(1 + c1 + c2).take(m - (1 + c1
                        + c2)));
                    lemma_parse_bytes_short(s.skip(1 + c1 + c2), m - (1 + c1 + c2));
                } else {
                    assert(t.skip(1 + c1 + c2).take(c3) =~= s.skip(1 + c1 + c2).take(c3));
                    lemma_parse_bytes_agree(s.skip(1 + c1 + c2), t.skip(1 + c1 + c2));
                    let c4 = parse_bytes(s.skip(1 + c1 + c2 + c3)).unwrap().1;
                    assert(t.skip(1 + c1 + c2 + c3) =~= s.skip(1 + c1 + c2 + c3).take(m - (1
                        + c1 + c2 + c3)));
                    lemma_parse_bytes_short(s.skip(1 + c1 + c2 + c3), m - (1 + c1 + c2 + c3));
                }
            }
        }
    } else if s[0] == 2 {
        let c1 = parse_u64(s.skip(1)).unwrap().1;
        if m < 1 + c1 {
            assert(t.skip(1).len() < 8);
        } else {
            assert(t.skip(1).take(8) =~= s.skip(1).take(8));
            lemma_parse_u64_agree(s.skip(1), t.skip(1));
            assert(t.skip(1 + c1).len() < 8);
        }
    } else if s[0] == 3 || s[0] == 4 {
        assert(t.skip(1).len() < 8);
    }
}

} // verus!
