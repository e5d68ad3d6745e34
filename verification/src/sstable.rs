//! Sorted string tables: the immutable on-disk format, its loader, its
//! point lookup and iterators, and the compaction merge.
//!
//! An SST file is laid out as `records | sparse_index | index_length`, where
//! `records` is a concatenation of encoded key/update records in strictly
//! ascending key order, `sparse_index` maps a sample of keys (always
//! including the first and the last) to byte offsets into `records`, and
//! the tail is the byte length of `sparse_index` as a big-endian 64-bit
//! integer.  File handling lives with the embedding application: the loader
//! and builder here work on byte buffers.

use vstd::multiset::Multiset;
use vstd::prelude::*;

use crate::codec::{
    decode_record, decode_u64_be, enc_bytes, enc_record, enc_u64, enc_u64_be, encode_bytes,
    encode_record, encode_u64, encode_u64_be, lemma_enc_bytes_len, lemma_enc_update_len,
    lemma_parse_enc_record, lemma_parse_enc_u64, lemma_parse_enc_u64_be, parse_record,
    parse_u64, parse_u64_be, record_fits,
};
use crate::keys::{key_cmp, lemma_lex_asymmetric, lemma_lex_connected, lemma_lex_irreflexive,
    lemma_lex_transitive, lex_le, lex_lt, KeyOrd};
use crate::memtable::{
    entries_contains_key, entries_map, entries_sorted, lemma_entries_map_keys,
    lemma_entries_map_value, UpdateV, ValueUpdate,
};

verus! {

/// How often the builder samples a key into the sparse index.
pub const SPARSE_INDEX_INTERVAL: u64 = 16;

/// The largest records-section size an output SST may have.
pub const SSTABLE_FILE_SIZE: u64 = 0x200000;

/// The identity of an SST: its level and its id within the level.
#[derive(Clone, Copy, Debug, PartialEq, Eq, Structural)]
pub struct SstId {
    pub level: u64,
    pub id: u64,
}

/// Creation order on SST identities: shallower levels first, and within a
/// level younger (higher) ids first.
pub open spec fn sst_id_lt(a: SstId, b: SstId) -> bool {
    a.level < b.level || (a.level == b.level && a.id > b.id)
}

impl SstId {
    /// Whether `self` comes before `other` in creation order.
    pub fn precedes(&self, other: &SstId) -> (r: bool)
        ensures
            r == sst_id_lt(*self, *other),
    {
        self.level < other.level || (self.level == other.level && self.id > other.id)
    }
}

/// The record sequence a byte string parses to: encoded records back to
/// back with no gap and no trailing bytes.
pub open spec fn parse_records(s: Seq<u8>) -> Option<Seq<(Seq<u8>, UpdateV)>>
    decreases s.len(),
{
    if s.len() == 0 {
        Some(Seq::empty())
    } else {
        match parse_record(s) {
            None => None,
            Some(((k, u), c)) => if 1 <= c <= s.len() {
                match parse_records(s.skip(c)) {
                    None => None,
                    Some(rest) => Some(seq![(k, u)] + rest),
                }
            } else {
                None
            },
        }
    }
}

/// The byte offset right after the first `j` records of `s`.
pub open spec fn parse_off(s: Seq<u8>, j: int) -> int
    decreases j,
{
    if j <= 0 {
        0
    } else {
        match parse_record(s) {
            None => 0,
            Some(((k, u), c)) => c + parse_off(s.skip(c), j - 1),
        }
    }
}

/// The concatenation of encoded records.
pub open spec fn enc_entries(recs: Seq<(Seq<u8>, UpdateV)>) -> Seq<u8>
    decreases recs.len(),
{
    if recs.len() == 0 {
        Seq::empty()
    } else {
        enc_record(recs[0].0, recs[0].1) + enc_entries(recs.skip(1))
    }
}

/// Whether every record is small enough for its length prefixes.
pub open spec fn entries_fit(recs: Seq<(Seq<u8>, UpdateV)>) -> bool {
    forall|i: int| 0 <= i < recs.len() ==> record_fits(#[trigger] recs[i].0, recs[i].1)
}

/// An encoded record takes at least one byte.
pub proof fn lemma_enc_record_len(k: Seq<u8>, u: UpdateV)
    ensures
        enc_record(k, u).len() == 8 + k.len() + match u {
            UpdateV::Tombstone => 1int,
            UpdateV::Value(v) => 9 + v.len() as int,
        },
{
    lemma_enc_bytes_len(k);
    lemma_enc_update_len(u);
}

/// Encoding distributes over concatenation of record sequences.
pub proof fn lemma_enc_entries_app(x: Seq<(Seq<u8>, UpdateV)>, y: Seq<(Seq<u8>, UpdateV)>)
    ensures
        enc_entries(x + y) == enc_entries(x) + enc_entries(y),
    decreases x.len(),
{
    if x.len() == 0 {
        assert(x + y =~= y);
        assert(enc_entries(x) + enc_entries(y) =~= enc_entries(y));
    } else {
        assert((x + y).skip(1) =~= x.skip(1) + y);
        assert((x + y)[0] == x[0]);
        lemma_enc_entries_app(x.skip(1), y);
        assert(enc_record(x[0].0, x[0].1) + (enc_entries(x.skip(1)) + enc_entries(y)) =~= (
        enc_record(x[0].0, x[0].1) + enc_entries(x.skip(1))) + enc_entries(y));
    }
}

/// Round trip: the concatenation of encoded records parses back to the
/// records, and the offset after `j` records is the encoded length of the
/// first `j`.
#[verifier::rlimit(100)]
#[verifier::spinoff_prover]
pub proof fn lemma_parse_enc_entries(recs: Seq<(Seq<u8>, UpdateV)>)
    requires
        entries_fit(recs),
    ensures
        parse_records(enc_entries(recs)) == Some(recs),
        forall|j: int|
            0 <= j <= recs.len() ==> parse_off(enc_entries(recs), j) == enc_entries(
                #[trigger] recs.take(j),
            ).len(),
    decreases recs.len(),
{
    if recs.len() == 0 {
        assert(forall|j: int| 0 <= j <= recs.len() ==> recs.take(j) =~= recs);
    } else {
        let k = recs[0].0;
        let u = recs[0].1;
        let e0 = enc_record(k, u);
        let rest = enc_entries(recs.skip(1));
        let s = enc_entries(recs);
        assert(s == e0 + rest);
        assert(record_fits(k, u));
        lemma_parse_enc_record(k, u, rest);
        lemma_enc_record_len(k, u);
        assert(entries_fit(recs.skip(1))) by {
            assert forall|i: int| 0 <= i < recs.skip(1).len() implies record_fits(
                #[trigger] recs.skip(1)[i].0,
                recs.skip(1)[i].1,
            ) by {
                assert(recs.skip(1)[i] == recs[i + 1]);
            }
        }
        lemma_parse_enc_entries(recs.skip(1));
        assert(s.skip(e0.len() as int) =~= rest);
        assert(seq![(k, u)] + recs.skip(1) =~= recs);
        assert forall|j: int| 0 <= j <= recs.len() implies parse_off(s, j) == enc_entries(
            #[trigger] recs.take(j),
        ).len() by {
            if j == 0 {
                assert(recs.take(0) =~= Seq::<(Seq<u8>, UpdateV)>::empty());
            } else {
                assert(parse_off(s, j) == e0.len() + parse_off(rest, j - 1));
                assert(recs.skip(1).take(j - 1) =~= recs.take(j).skip(1));
                assert(recs.take(j)[0] == recs[0]);
                assert(enc_entries(recs.take(j)) == enc_record(k, u) + enc_entries(
                    recs.take(j).skip(1),
                ));
            }
        }
    }
}

/// Parsed record streams: parsing restarted at the offset after `j` records
/// yields the remaining records.
pub proof fn lemma_parse_records_skip(s: Seq<u8>, j: int)
    requires
        parse_records(s) is Some,
        0 <= j <= parse_records(s).unwrap().len(),
    ensures
        ({
            let recs = parse_records(s).unwrap();
            let off = parse_off(s, j);
            &&& 0 <= off <= s.len()
            &&& parse_records(s.skip(off)) == Some(recs.skip(j))
            &&& (j < recs.len() ==> parse_record(s.skip(off)) is Some && parse_record(
                s.skip(off),
            ).unwrap().0 == recs[j] && parse_off(s, j + 1) == off + parse_record(
                s.skip(off),
            ).unwrap().1)
            &&& (j > 0 ==> off > 0)
        }),
    decreases j,
{
    let recs = parse_records(s).unwrap();
    if j == 0 {
        assert(s.skip(0) =~= s);
        assert(recs.skip(0) =~= recs);
        if recs.len() > 0 {
            assert(s.len() > 0);
            let c = parse_record(s).unwrap().1;
            assert(parse_records(s) == Some(
                seq![parse_record(s).unwrap().0] + parse_records(s.skip(c)).unwrap(),
            ));
            assert(recs[0] == parse_record(s).unwrap().0);
            assert(parse_off(s, 1) == c + parse_off(s.skip(c), 0));
        }
    } else {
        assert(s.len() > 0);
        let c = parse_record(s).unwrap().1;
        let rest = parse_records(s.skip(c)).unwrap();
        assert(recs == seq![parse_record(s).unwrap().0] + rest);
        assert(rest =~= recs.skip(1));
        lemma_parse_records_skip(s.skip(c), j - 1);
        let off1 = parse_off(s.skip(c), j - 1);
        assert(parse_off(s, j) == c + off1);
        assert(s.skip(c).skip(off1) =~= s.skip(c + off1));
        assert(recs.skip(1).skip(j - 1) =~= recs.skip(j));
        if j < recs.len() {
            assert(recs.skip(1)[j - 1] == recs[j]);
            assert(parse_off(s, j + 1) == c + parse_off(s.skip(c), j));
        }
    }
}

/// Parsed records of a stream that carries sorted distinct keys.
pub open spec fn recs_of(s: Seq<u8>) -> Seq<(Seq<u8>, UpdateV)> {
    match parse_records(s) {
        Some(recs) => recs,
        None => Seq::empty(),
    }
}

/// An in-memory SST: the records section, the sparse index, and the
/// identity of the table.
pub struct SSTable {
    buf: Vec<u8>,
    index: Vec<(Vec<u8>, u64)>,
    id: SstId,
}

/// The view of a sparse index.
pub open spec fn index_view(index: Seq<(Vec<u8>, u64)>) -> Seq<(Seq<u8>, int)> {
    index.map_values(|e: (Vec<u8>, u64)| (e.0@, e.1 as int))
}

impl SSTable {
    /// The decoded record sequence of the table.
    pub closed spec fn records(self) -> Seq<(Seq<u8>, UpdateV)> {
        recs_of(self.buf@)
    }

    /// The raw bytes of the records section.
    pub closed spec fn records_bytes(self) -> Seq<u8> {
        self.buf@
    }

    /// The mapping the table denotes.
    pub open spec fn model(self) -> Map<Seq<u8>, UpdateV> {
        entries_map(self.records())
    }

    /// The table's identity.
    pub closed spec fn spec_id(self) -> SstId {
        self.id
    }

    /// The sparse index, as key/offset pairs.
    pub closed spec fn index_entries(self) -> Seq<(Seq<u8>, int)> {
        index_view(self.index@)
    }

    /// Well-formedness: the records section parses, the records are
    /// strictly ascending and non-empty, and every index entry names the
    /// key and byte offset of some record, with the first and last record
    /// always present and the index keys strictly ascending.
    pub closed spec fn wf(self) -> bool {
        sst_content_wf(self.buf@, self.index_entries())
    }

    pub fn get_id(&self) -> (r: &SstId)
        ensures
            *r == self.spec_id(),
    {
        &self.id
    }

    /// The first and last keys together with the table's identity.
    pub fn metadata(&self) -> (r: SSTMetadata)
        requires
            self.wf(),
        ensures
            r.level == self.spec_id().level,
            r.id == self.spec_id().id,
            r.first_key@ == self.records()[0].0,
            r.last_key@ == self.records().last().0,
    {
        let first = self.index[0].0.clone();
        let last = self.index[self.index.len() - 1].0.clone();
        proof {
            assert(self.index_entries()[0] == (self.index@[0].0@, self.index@[0].1 as int));
            let li = self.index_entries().len() - 1;
            assert(self.index_entries()[li] == (self.index@[li].0@, self.index@[li].1 as int));
        }
        SSTMetadata {
            level: self.id.level,
            id: self.id.id,
            first_key: first,
            last_key: last,
        }
    }
}

/// The identity and key range of an SST, used for ordering.
pub struct SSTMetadata {
    pub level: u64,
    pub id: u64,
    pub first_key: Vec<u8>,
    pub last_key: Vec<u8>,
}

/// Merge priority on table metadata: level-0 tables youngest first, and
/// deeper tables by level, then first key, then last key.
pub open spec fn meta_lt(
    a: (u64, u64, Seq<u8>, Seq<u8>),
    b: (u64, u64, Seq<u8>, Seq<u8>),
) -> bool {
    if a.0 == 0 && b.0 == 0 {
        a.1 > b.1
    } else if a.0 != b.0 {
        a.0 < b.0
    } else if a.2 != b.2 {
        lex_lt(a.2, b.2)
    } else {
        lex_lt(a.3, b.3)
    }
}

impl SSTMetadata {
    /// The view of the metadata as a plain tuple.
    pub open spec fn view_tuple(self) -> (u64, u64, Seq<u8>, Seq<u8>) {
        (self.level, self.id, self.first_key@, self.last_key@)
    }

    /// Whether `self` has higher merge priority than `other`.
    pub fn precedes(&self, other: &SSTMetadata) -> (r: bool)
        ensures
            r == meta_lt(self.view_tuple(), other.view_tuple()),
    {
        if self.level == 0 && other.level == 0 {
            self.id > other.id
        } else if self.level != other.level {
            self.level < other.level
        } else {
            match key_cmp(&self.first_key, &other.first_key) {
                KeyOrd::Less => true,
                KeyOrd::Greater => false,
                KeyOrd::Equal => match key_cmp(&self.last_key, &other.last_key) {
                    KeyOrd::Less => true,
                    _ => false,
                },
            }
        }
    }
}

/// The view of a vector of owned records.
pub open spec fn entries_vec_view(v: Seq<(Vec<u8>, ValueUpdate)>) -> Seq<(Seq<u8>, UpdateV)> {
    v.map_values(|p: (Vec<u8>, ValueUpdate)| (p.0@, p.1@))
}

/// Every owned record is small enough for its length prefixes.
pub proof fn lemma_entries_vec_fit(v: Seq<(Vec<u8>, ValueUpdate)>)
    ensures
        entries_fit(entries_vec_view(v)),
{
    assert forall|i: int| 0 <= i < entries_vec_view(v).len() implies record_fits(
        #[trigger] entries_vec_view(v)[i].0,
        entries_vec_view(v)[i].1,
    ) by {
        assert(entries_vec_view(v)[i] == (v[i].0@, v[i].1@));
        assert(v[i].0.len() == v[i].0@.len());
        if let ValueUpdate::Value(val) = v[i].1 {
            assert(val.len() == val@.len());
        }
    }
}

/// A chain of adjacent comparisons orders any two positions.
proof fn lemma_lex_chain(s: Seq<(Seq<u8>, UpdateV)>, i: int, j: int)
    requires
        forall|t: int| 0 <= t < s.len() - 1 ==> lex_lt(#[trigger] s[t].0, s[t + 1].0),
        0 <= i < j < s.len(),
    ensures
        lex_lt(s[i].0, s[j].0),
    decreases j - i,
{
    if j == i + 1 {
        assert(lex_lt(s[i].0, s[i + 1].0));
    } else {
        lemma_lex_chain(s, i, j - 1);
        assert(lex_lt(s[j - 1].0, s[j].0));
        lemma_lex_transitive(s[i].0, s[j - 1].0, s[j].0);
    }
}

/// Records whose every adjacent pair ascends are sorted throughout.
pub proof fn lemma_adjacent_sorted(s: Seq<(Seq<u8>, UpdateV)>)
    requires
        forall|t: int| 0 <= t < s.len() - 1 ==> lex_lt(#[trigger] s[t].0, s[t + 1].0),
    ensures
        entries_sorted(s),
{
    assert forall|i: int, j: int| 0 <= i < j < s.len() implies lex_lt(s[i].0, s[j].0) by {
        lemma_lex_chain(s, i, j);
    }
}

impl SSTable {
    /// Builds an in-memory table from records in strictly ascending key
    /// order: the encoded records section and the sparse index, with one
    /// index entry per `SPARSE_INDEX_INTERVAL` records and the first and
    /// last key always present.
    pub fn build(entries: &Vec<(Vec<u8>, ValueUpdate)>, id: SstId) -> (r: SSTable)
        requires
            entries@.len() > 0,
            entries_sorted(entries_vec_view(entries@)),
        ensures
            r.wf(),
            r.records() == entries_vec_view(entries@),
            r.records_bytes() == enc_entries(entries_vec_view(entries@)),
            r.spec_id() == id,
            forall|j: int|
                0 <= j < entries_vec_view(entries@).len() && j % (
                SPARSE_INDEX_INTERVAL as int) == 0 ==> exists|t: int|
                    0 <= t < r.index_entries().len() && #[trigger] r.index_entries()[t] == (
                        (#[trigger] entries_vec_view(entries@)[j]).0,
                        parse_off(r.records_bytes(), j),
                    ),
    {
        let ghost ev = entries_vec_view(entries@);
        proof {
            lemma_entries_vec_fit(entries@);
            lemma_parse_enc_entries(ev);
        }
        let mut buf: Vec<u8> = Vec::new();
        let mut index: Vec<(Vec<u8>, u64)> = Vec::new();
        let ghost mut js: Seq<int> = Seq::empty();
        let mut i: usize = 0;
        let mut last_off: u64 = 0;
        while i < entries.len()
            invariant
                0 <= i <= entries.len(),
                ev == entries_vec_view(entries@),
                entries_fit(ev),
                entries_sorted(ev),
                ev.len() == entries@.len(),
                buf@ == enc_entries(ev.take(i as int)),
                js.len() == index@.len(),
                forall|t: int|
                    0 <= t < js.len() ==> 0 <= #[trigger] js[t] < i && index_view(index@)[t] == (
                        ev[js[t]].0,
                        enc_entries(ev.take(js[t])).len() as int,
                    ),
                forall|t1: int, t2: int| 0 <= t1 < t2 < js.len() ==> js[t1] < js[t2],
                forall|j: int|
                    0 <= j < i && #[trigger] (j % (SPARSE_INDEX_INTERVAL as int)) == 0
                        ==> exists|t: int| 0 <= t < js.len() && #[trigger] js[t] == j,
                i > 0 ==> js.len() > 0 && js[0] == 0,
                i > 0 ==> last_off == enc_entries(ev.take(i - 1)).len(),
                js.len() > 0 ==> js.last() <= i - 1,
            decreases entries.len() - i,
        {
            let sampled = i as u64 % SPARSE_INDEX_INTERVAL == 0;
            proof {
                assert(sampled == ((i as int) % (SPARSE_INDEX_INTERVAL as int) == 0));
            }
            if sampled {
                let ghost prev_js = js;
                let ghost prev_iv = index_view(index@);
                let key = entries[i].0.clone();
                index.push((key, buf.len() as u64));
                proof {
                    js = js.push(i as int);
                    assert(index_view(index@) =~= prev_iv.push((
                        entries@[i as int].0@,
                        buf@.len() as int,
                    )));
                    assert forall|j: int|
                        0 <= j < i + 1 && #[trigger] (j % (SPARSE_INDEX_INTERVAL as int)) == 0
                        implies exists|t: int| 0 <= t < js.len() && #[trigger] js[t] == j by {
                        if j < i {
                            let t = choose|t: int| 0 <= t < prev_js.len() && prev_js[t] == j;
                            assert(js[t] == j);
                        } else {
                            assert(js[js.len() - 1] == j);
                        }
                    }
                }
            } else {
                proof {
                    assert forall|j: int|
                        0 <= j < i + 1 && #[trigger] (j % (SPARSE_INDEX_INTERVAL as int)) == 0
                        implies exists|t: int| 0 <= t < js.len() && #[trigger] js[t] == j by {
                        assert(j != i);
                    }
                }
            }
            last_off = buf.len() as u64;
            let e = &entries[i];
            encode_record(&mut buf, &e.0, &e.1);
            proof {
                assert(ev.take(i + 1) =~= ev.take(i as int) + seq![ev[i as int]]);
                lemma_enc_entries_app(ev.take(i as int), seq![ev[i as int]]);
                assert(seq![ev[i as int]].skip(1) =~= Seq::<(Seq<u8>, UpdateV)>::empty());
                assert(seq![ev[i as int]][0] == ev[i as int]);
                assert(enc_entries(seq![ev[i as int]].skip(1)) == Seq::<u8>::empty());
                assert(enc_entries(seq![ev[i as int]]) == enc_record(
                    ev[i as int].0,
                    ev[i as int].1,
                ) + enc_entries(seq![ev[i as int]].skip(1)));
                assert(enc_entries(seq![ev[i as int]]) =~= enc_record(
                    ev[i as int].0,
                    ev[i as int].1,
                ));
                assert(ev[i as int] == (entries@[i as int].0@, entries@[i as int].1@));
            }
            i = i + 1;
        }
        proof {
            assert(ev.take(ev.len() as int) =~= ev);
        }
        let ghost js_loop = js;
        let n = entries.len();
        let last_idx_key = &index[index.len() - 1].0;
        let need_last = {
            let lk = &entries[n - 1].0;
            match key_cmp(last_idx_key, lk) {
                KeyOrd::Equal => false,
                _ => true,
            }
        };
        proof {
            let t = js.len() - 1;
            assert(index_view(index@)[t] == (ev[js[t]].0, enc_entries(ev.take(js[t])).len() as int));
        }
        if need_last {
            let key = entries[n - 1].0.clone();
            index.push((key, last_off));
            proof {
                js = js.push(n - 1);
            }
        } else {
            proof {
                // The sampled key equals the last key, so it is the last
                // record: sorted distinct keys admit no other position.
                let t = js.len() - 1;
                if js[t] < n - 1 {
                    assert(lex_lt(ev[js[t]].0, ev[n - 1].0));
                    lemma_lex_irreflexive(ev[n - 1].0);
                }
                assert(js[t] == n - 1);
            }
        }
        proof {
            // Sampled positions survive the final last-key entry.
            assert forall|j: int|
                0 <= j < ev.len() && #[trigger] (j % (SPARSE_INDEX_INTERVAL as int)) == 0
                implies exists|t: int| 0 <= t < js.len() && #[trigger] js[t] == j by {
                let t = choose|t: int| 0 <= t < js_loop.len() && #[trigger] js_loop[t] == j;
                assert(js[t] == j);
            }
        }
        let r = SSTable { buf, index, id };
        proof {
            let recs = r.records();
            assert(recs == ev);
            let idx = r.index_entries();
            assert(idx.len() == js.len());
            assert forall|t: int| 0 <= t < idx.len() implies exists|j: int|
                0 <= j < recs.len() && (#[trigger] idx[t]) == (recs[j].0, parse_off(r.buf@, j)) by {
                let j = js[t];
                assert(parse_off(r.buf@, j) == enc_entries(ev.take(j)).len());
                assert(idx[t] == (recs[j].0, parse_off(r.buf@, j)));
            }
            assert(idx[0] == (recs[0].0, 0int)) by {
                assert(js[0] == 0);
                assert(ev.take(0) =~= Seq::<(Seq<u8>, UpdateV)>::empty());
                assert(parse_off(r.buf@, 0) == 0);
            }
            assert(idx.last() == (recs.last().0, parse_off(r.buf@, recs.len() - 1))) by {
                let t = js.len() - 1;
                assert(js[t] == n - 1);
                assert(parse_off(r.buf@, n - 1) == enc_entries(ev.take(n - 1)).len());
            }
            assert forall|t1: int, t2: int| 0 <= t1 < t2 < idx.len() implies lex_lt(
                idx[t1].0,
                idx[t2].0,
            ) by {
                assert(idx[t1].0 == ev[js[t1]].0);
                assert(idx[t2].0 == ev[js[t2]].0);
            }
            assert forall|j: int|
                0 <= j < ev.len() && j % (SPARSE_INDEX_INTERVAL as int) == 0 implies exists|
                t: int,
            |
                0 <= t < idx.len() && #[trigger] idx[t] == (
                    (#[trigger] ev[j]).0,
                    parse_off(r.buf@, j),
                ) by {
                assert(j % (SPARSE_INDEX_INTERVAL as int) == 0);
                let t = choose|t: int| 0 <= t < js.len() && #[trigger] js[t] == j;
                assert(idx[t] == (ev[js[t]].0, enc_entries(ev.take(js[t])).len() as int));
                assert(parse_off(r.buf@, j) == enc_entries(ev.take(j)).len());
            }
        }
        r
    }

    /// The decoded records, in order, as plain pairs.
    pub fn records_vec(&self) -> (r: Vec<(Vec<u8>, ValueUpdate)>)
        requires
            self.wf(),
        ensures
            entries_vec_view(r@) == self.records(),
            r@.len() == self.records().len(),
    {
        let ghost recs = self.records();
        let mut r: Vec<(Vec<u8>, ValueUpdate)> = Vec::new();
        let mut pos: usize = 0;
        let ghost mut j: int = 0;
        proof {
            lemma_parse_records_skip(self.buf@, 0);
        }
        while pos < self.buf.len()
            invariant
                self.wf(),
                recs == self.records(),
                0 <= j <= recs.len(),
                r@.len() == j,
                entries_vec_view(r@) == recs.take(j),
                pos == parse_off(self.buf@, j),
                pos <= self.buf@.len(),
                j == recs.len() <==> pos == self.buf@.len(),
            decreases self.buf@.len() - pos,
        {
            proof {
                lemma_parse_records_skip(self.buf@, j);
                assert(j < recs.len());
            }
            match decode_record(&self.buf, pos) {
                None => {
                    proof {
                        assert(parse_record(self.buf@.skip(pos as int)) is Some);
                        assert(false);
                    }
                }
                Some(((k, u), end)) => {
                    proof {
                        assert(parse_record(self.buf@.skip(pos as int)).unwrap().0 == (k@, u@));
                        assert((k@, u@) == recs[j]);
                    }
                    r.push((k, u));
                    proof {
                        assert(entries_vec_view(r@) =~= recs.take(j + 1));
                        j = j + 1;
                    }
                    pos = end;
                    proof {
                        lemma_parse_records_skip(self.buf@, j);
                        assert(pos == parse_off(self.buf@, j));
                        if j == recs.len() {
                            assert(parse_records(self.buf@.skip(pos as int)) == Some(
                                recs.skip(j),
                            ));
                            assert(recs.skip(j).len() == 0);
                            if pos < self.buf@.len() {
                                assert(self.buf@.skip(pos as int).len() > 0);
                                assert(false);
                            }
                        } else {
                            assert(parse_record(self.buf@.skip(pos as int)) is Some);
                            if pos == self.buf@.len() {
                                assert(self.buf@.skip(pos as int).len() == 0);
                                assert(false);
                            }
                        }
                    }
                }
            }
        }
        proof {
            assert(j == recs.len());
            assert(recs.take(j) =~= recs);
        }
        r
    }
}

/// Record offsets grow strictly with the record position.
pub proof fn lemma_parse_off_mono(s: Seq<u8>, j1: int, j2: int)
    requires
        parse_records(s) is Some,
        0 <= j1 <= j2 <= parse_records(s).unwrap().len(),
    ensures
        parse_off(s, j1) <= parse_off(s, j2),
        j1 < j2 ==> parse_off(s, j1) < parse_off(s, j2),
    decreases j2 - j1,
{
    if j1 < j2 {
        lemma_parse_records_skip(s, j1);
        let off1 = parse_off(s, j1);
        let c = parse_record(s.skip(off1)).unwrap().1;
        crate::codec::lemma_parse_record_bounds(s.skip(off1));
        assert(parse_off(s, j1 + 1) == off1 + c);
        lemma_parse_off_mono(s, j1 + 1, j2);
    }
}

impl SSTable {
    /// Point lookup through the sparse index: locates the index bracket
    /// holding the key, then scans the records of that bracket.
    #[verifier::loop_isolation(false)]
    pub fn get(&self, key: &Vec<u8>) -> (r: Option<ValueUpdate>)
        requires
            self.wf(),
        ensures
            match r {
                None => !self.model().contains_key(key@),
                Some(u) => self.model().contains_key(key@) && self.model()[key@] == u@,
            },
    {
        let ghost recs = self.records();
        let ghost idx = self.index_entries();
        proof {
            lemma_entries_map_keys(recs);
            lemma_entries_map_value(recs);
        }
        // A key below the first indexed key is below every record.
        match key_cmp(key, &self.index[0].0) {
            KeyOrd::Less => {
                proof {
                    assert(idx[0] == (self.index@[0].0@, self.index@[0].1 as int));
                    assert(idx[0].0 == recs[0].0);
                    if entries_contains_key(recs, key@) {
                        let j = choose|j: int| 0 <= j < recs.len() && recs[j].0 == key@;
                        if j > 0 {
                            lemma_lex_asymmetric(key@, recs[0].0);
                        } else {
                            lemma_lex_irreflexive(key@);
                        }
                    }
                }
                return None;
            }
            _ => {}
        }
        proof {
            assert(idx[0] == (self.index@[0].0@, self.index@[0].1 as int));
            assert(lex_le(idx[0].0, key@));
        }
        // Find the last index entry whose key is at most the lookup key.
        let mut i: usize = 0;
        let mut t: usize = 1;
        while t < self.index.len()
            invariant
                self.wf(),
                recs == self.records(),
                idx == self.index_entries(),
                0 <= i < t <= self.index@.len(),
                idx.len() == self.index@.len(),
                lex_le(idx[i as int].0, key@),
                forall|u: int| i < u < t ==> lex_lt(key@, #[trigger] idx[u].0),
            decreases self.index@.len() - t,
        {
            proof {
                assert(idx[t as int] == (self.index@[t as int].0@, self.index@[t as int].1
                    as int));
            }
            match key_cmp(&self.index[t].0, key) {
                KeyOrd::Greater => {
                    proof {
                        assert(lex_lt(key@, idx[t as int].0));
                    }
                }
                _ => {
                    i = t;
                }
            }
            t = t + 1;
        }
        // The byte range of the bracket.
        proof {
            assert(idx[i as int] == (self.index@[i as int].0@, self.index@[i as int].1 as int));
        }
        let ghost j_lo = choose|j: int|
            0 <= j < recs.len() && idx[i as int] == (recs[j].0, parse_off(self.buf@, j));
        proof {
            lemma_parse_records_skip(self.buf@, j_lo);
            lemma_parse_off_mono(self.buf@, j_lo, recs.len() as int);
        }
        let off_lo: usize = self.index[i].1 as usize;
        proof {
            if i + 1 < self.index@.len() {
                assert(idx[i + 1] == (self.index@[i + 1].0@, self.index@[i + 1].1 as int));
            }
        }
        let ghost j_hi: int = if i + 1 < self.index@.len() {
            choose|j: int|
                0 <= j < recs.len() && idx[i + 1] == (recs[j].0, parse_off(self.buf@, j))
        } else {
            recs.len() as int
        };
        proof {
            assert(self.buf.len() == self.buf@.len());
            if i + 1 < self.index@.len() {
                lemma_parse_records_skip(self.buf@, j_hi);
                assert(idx[i + 1].1 == parse_off(self.buf@, j_hi));
                assert(parse_off(self.buf@, j_hi) <= self.buf@.len());
            } else {
                lemma_parse_records_skip(self.buf@, recs.len() as int);
                let e = parse_off(self.buf@, recs.len() as int);
                assert(parse_records(self.buf@.skip(e)) == Some(recs.skip(recs.len() as int)));
                assert(recs.skip(recs.len() as int).len() == 0);
                if e < self.buf@.len() {
                    let se = self.buf@.skip(e);
                    assert(se.len() > 0);
                    assert(parse_records(se) is Some);
                    let rr = parse_records(se).unwrap();
                    assert(rr =~= Seq::<(Seq<u8>, UpdateV)>::empty());
                    assert(match parse_record(se) {
                        None => parse_records(se) is None,
                        Some(((k2, u2), c2)) => true,
                    });
                    if parse_record(se) is Some {
                        let c2 = parse_record(se).unwrap().1;
                        if 1 <= c2 <= se.len() && parse_records(se.skip(c2)) is Some {
                            assert(rr.len() > 0);
                        }
                    }
                    assert(false);
                }
                assert(e == self.buf@.len());
            }
        }
        let off_hi: usize = if i + 1 < self.index.len() {
            self.index[i + 1].1 as usize
        } else {
            self.buf.len()
        };
        proof {
            assert(off_hi == parse_off(self.buf@, j_hi));
            assert(j_lo < j_hi) by {
                if i + 1 < self.index@.len() {
                    assert(lex_lt(idx[i as int].0, idx[i + 1].0));
                    assert(recs[j_lo].0 == idx[i as int].0);
                    assert(recs[j_hi].0 == idx[i + 1].0);
                    if j_hi <= j_lo {
                        if j_hi == j_lo {
                            lemma_lex_irreflexive(recs[j_lo].0);
                        } else {
                            lemma_lex_asymmetric(recs[j_hi].0, recs[j_lo].0);
                        }
                    }
                }
            }
            lemma_parse_off_mono(self.buf@, j_lo, j_hi);
        }
        // Scan the bracket.
        let mut pos: usize = off_lo;
        let ghost mut j: int = j_lo;
        while pos < off_hi
            invariant
                self.wf(),
                recs == self.records(),
                idx == self.index_entries(),
                0 <= j_lo <= j <= j_hi <= recs.len(),
                off_hi == parse_off(self.buf@, j_hi),
                off_hi <= self.buf@.len(),
                pos == parse_off(self.buf@, j),
                forall|jj: int| j_lo <= jj < j ==> #[trigger] recs[jj].0 != key@,
                lex_le(recs[j_lo as int].0, key@),
                i + 1 < idx.len() ==> recs[j_hi].0 == idx[i + 1].0 && lex_lt(key@, idx[i + 1].0),
                idx[i as int].0 == recs[j_lo].0,
                forall|u: int| i < u < idx.len() ==> lex_lt(key@, #[trigger] idx[u].0),
            decreases off_hi - pos,
        {
            proof {
                assert(j < j_hi) by {
                    if j == j_hi {
                        assert(pos == off_hi);
                    }
                }
                lemma_parse_records_skip(self.buf@, j);
                lemma_parse_off_mono(self.buf@, j, j_hi);
            }
            match decode_record(&self.buf, pos) {
                None => {
                    proof {
                        assert(parse_record(self.buf@.skip(pos as int)) is Some);
                        assert(false);
                    }
                    return None;
                }
                Some(((k, u), end)) => {
                    proof {
                        assert((k@, u@) == recs[j]);
                    }
                    match key_cmp(&k, key) {
                        KeyOrd::Equal => {
                            proof {
                                assert(recs[j].0 == key@);
                                assert(entries_contains_key(recs, key@));
                                assert(entries_map(recs)[recs[j].0] == recs[j].1);
                            }
                            return Some(u);
                        }
                        _ => {}
                    }
                    pos = end;
                    proof {
                        j = j + 1;
                        assert(pos == parse_off(self.buf@, j));
                        lemma_parse_off_mono(self.buf@, j, j_hi);
                    }
                }
            }
        }
        proof {
            assert(j == j_hi) by {
                lemma_parse_off_mono(self.buf@, j, j_hi);
                if j < j_hi {
                    assert(parse_off(self.buf@, j) < off_hi);
                }
            }
            // No record in the bracket holds the key; records outside the
            // bracket are ruled out by the index order.
            if entries_contains_key(recs, key@) {
                let jj = choose|jj: int| 0 <= jj < recs.len() && recs[jj].0 == key@;
                if jj < j_lo {
                    assert(lex_lt(recs[jj].0, recs[j_lo].0));
                    lemma_lex_asymmetric(recs[jj].0, recs[j_lo].0);
                    assert(lex_le(recs[j_lo].0, key@));
                    lemma_lex_irreflexive(recs[j_lo].0);
                } else if jj >= j_hi {
                    if i + 1 < idx.len() {
                        if jj > j_hi {
                            assert(lex_lt(recs[j_hi].0, recs[jj].0));
                        }
                        assert(lex_le(recs[j_hi].0, key@)) by {
                            if jj > j_hi {
                                assert(lex_lt(recs[j_hi].0, key@));
                            }
                        }
                        assert(lex_lt(key@, recs[j_hi].0));
                        lemma_lex_asymmetric(key@, recs[j_hi].0);
                        lemma_lex_irreflexive(key@);
                    } else {
                        assert(j_hi == recs.len());
                    }
                }
            }
        }
        None
    }
}

/// One encoded sparse-index entry: the key and its byte offset.
pub open spec fn enc_index_entry(k: Seq<u8>, off: int) -> Seq<u8> {
    enc_bytes(k) + enc_u64(off as u64)
}

/// The concatenation of encoded index entries.
pub open spec fn enc_index_entries(idx: Seq<(Seq<u8>, int)>) -> Seq<u8>
    decreases idx.len(),
{
    if idx.len() == 0 {
        Seq::empty()
    } else {
        enc_index_entry(idx[0].0, idx[0].1) + enc_index_entries(idx.skip(1))
    }
}

/// The encoded sparse index: an entry count followed by the entries.
pub open spec fn enc_index(idx: Seq<(Seq<u8>, int)>) -> Seq<u8> {
    enc_u64(idx.len() as u64) + enc_index_entries(idx)
}

/// Parses `n` index entries from the front of `s`.
pub open spec fn parse_index_entries(s: Seq<u8>, n: int) -> Option<(Seq<(Seq<u8>, int)>, int)>
    decreases n,
{
    if n <= 0 {
        Some((Seq::empty(), 0))
    } else {
        match crate::codec::parse_bytes(s) {
            None => None,
            Some((k, c1)) => match parse_u64(s.skip(c1)) {
                None => None,
                Some((off, c2)) => match parse_index_entries(s.skip(c1 + c2), n - 1) {
                    None => None,
                    Some((rest, c3)) => Some(
                        (seq![(k, off as int)] + rest, c1 + c2 + c3),
                    ),
                },
            },
        }
    }
}

/// Parses a whole sparse index: the count, then exactly that many entries
/// filling the rest of `s`.
pub open spec fn parse_index(s: Seq<u8>) -> Option<Seq<(Seq<u8>, int)>> {
    match parse_u64(s) {
        None => None,
        Some((n, c)) => match parse_index_entries(s.skip(c), n as int) {
            None => None,
            Some((idx, c2)) => if c + c2 == s.len() {
                Some(idx)
            } else {
                None
            },
        },
    }
}

/// Whether every index entry is small enough for its encoding.
pub open spec fn index_fits(idx: Seq<(Seq<u8>, int)>) -> bool {
    &&& idx.len() <= u64::MAX
    &&& forall|i: int|
        0 <= i < idx.len() ==> (#[trigger] idx[i]).0.len() <= u64::MAX && 0 <= idx[i].1
            <= u64::MAX
}

/// Round trip for index entries.
pub proof fn lemma_parse_enc_index_entries(idx: Seq<(Seq<u8>, int)>, rest: Seq<u8>)
    requires
        index_fits(idx),
    ensures
        parse_index_entries(enc_index_entries(idx) + rest, idx.len() as int) == Some(
            (idx, enc_index_entries(idx).len() as int),
        ),
    decreases idx.len(),
{
    if idx.len() == 0 {
        assert(enc_index_entries(idx) + rest =~= rest);
    } else {
        let k = idx[0].0;
        let off = idx[0].1;
        let e0 = enc_index_entry(k, off);
        let er = enc_index_entries(idx.skip(1));
        let s = enc_index_entries(idx) + rest;
        assert(s =~= enc_bytes(k) + (enc_u64(off as u64) + (er + rest)));
        crate::codec::lemma_parse_enc_bytes(k, enc_u64(off as u64) + (er + rest));
        lemma_enc_bytes_len(k);
        let c1 = 8 + k.len() as int;
        assert(s.skip(c1) =~= enc_u64(off as u64) + (er + rest));
        lemma_parse_enc_u64(off as u64, er + rest);
        crate::codec::lemma_enc_u64_len(off as u64);
        assert(s.skip(c1 + 8) =~= er + rest);
        assert(index_fits(idx.skip(1))) by {
            assert forall|i: int| 0 <= i < idx.skip(1).len() implies (#[trigger] idx.skip(1)[i]).0.len()
                <= u64::MAX && 0 <= idx.skip(1)[i].1 <= u64::MAX by {
                assert(idx.skip(1)[i] == idx[i + 1]);
            }
        }
        lemma_parse_enc_index_entries(idx.skip(1), rest);
        assert(off as u64 as int == off);
        assert(seq![(k, off)] + idx.skip(1) =~= idx);
        assert(enc_index_entries(idx).len() == e0.len() + er.len());
    }
}

/// Round trip for the whole index.
pub proof fn lemma_parse_enc_index(idx: Seq<(Seq<u8>, int)>)
    requires
        index_fits(idx),
    ensures
        parse_index(enc_index(idx)) == Some(idx),
{
    let s = enc_index(idx);
    lemma_parse_enc_u64(idx.len() as u64, enc_index_entries(idx));
    crate::codec::lemma_enc_u64_len(idx.len() as u64);
    assert(s.skip(8) =~= enc_index_entries(idx));
    assert(enc_index_entries(idx) + Seq::<u8>::empty() =~= enc_index_entries(idx));
    lemma_parse_enc_index_entries(idx, Seq::empty());
    assert(idx.len() as u64 as int == idx.len() as int);
}

/// Splits an SST file image into its records bytes and its decoded index.
pub open spec fn sst_parse(bytes: Seq<u8>) -> Option<(Seq<u8>, Seq<(Seq<u8>, int)>)> {
    if bytes.len() < 8 {
        None
    } else {
        let l = parse_u64_be(bytes.skip(bytes.len() - 8)).unwrap().0 as int;
        if l + 8 > bytes.len() {
            None
        } else {
            let ib = bytes.subrange(bytes.len() - 8 - l, bytes.len() - 8);
            let rb = bytes.take(bytes.len() - 8 - l);
            match parse_index(ib) {
                None => None,
                Some(idx) => Some((rb, idx)),
            }
        }
    }
}

/// Well-formed SST content: the invariants of `SSTable::wf` over a records
/// byte string and an index.
pub open spec fn sst_content_wf(rb: Seq<u8>, idx: Seq<(Seq<u8>, int)>) -> bool {
    let recs = recs_of(rb);
    &&& parse_records(rb) is Some
    &&& recs.len() > 0
    &&& entries_sorted(recs)
    &&& idx.len() > 0
    &&& forall|i: int|
        0 <= i < idx.len() ==> exists|j: int|
            0 <= j < recs.len() && (#[trigger] idx[i]) == (recs[j].0, parse_off(rb, j))
    &&& idx[0] == (recs[0].0, 0int)
    &&& idx.last() == (recs.last().0, parse_off(rb, recs.len() - 1))
    &&& forall|i1: int, i2: int| 0 <= i1 < i2 < idx.len() ==> lex_lt(idx[i1].0, idx[i2].0)
}

/// A well-formed SST file image: it splits, and its content is well formed.
pub open spec fn sst_bytes_wf(bytes: Seq<u8>) -> bool {
    match sst_parse(bytes) {
        None => false,
        Some((rb, idx)) => sst_content_wf(rb, idx),
    }
}

/// Keys and values parsed out of a bounded byte string are bounded too.
pub proof fn lemma_parse_records_fit(s: Seq<u8>)
    requires
        parse_records(s) is Some,
        s.len() <= u64::MAX,
    ensures
        entries_fit(parse_records(s).unwrap()),
    decreases s.len(),
{
    let recs = parse_records(s).unwrap();
    if s.len() > 0 {
        let c = parse_record(s).unwrap().1;
        let k = parse_record(s).unwrap().0.0;
        let u = parse_record(s).unwrap().0.1;
        assert(record_fits(k, u)) by {
            let c1 = crate::codec::parse_bytes(s).unwrap().1;
            assert(k.len() <= s.len());
            match crate::codec::parse_update(s.skip(c1)) {
                Some((uu, c2)) => {
                    if uu is Value {
                        assert(uu->Value_0.len() <= s.skip(c1).len());
                    }
                }
                None => {}
            }
        }
        lemma_parse_records_fit(s.skip(c));
        assert forall|i: int| 0 <= i < recs.len() implies record_fits(
            #[trigger] recs[i].0,
            recs[i].1,
        ) by {
            if i == 0 {
                assert(recs[0] == (k, u));
            } else {
                assert(recs[i] == parse_records(s.skip(c)).unwrap()[i - 1]);
            }
        }
    }
}

impl SSTable {
    /// The full file image: records, then the encoded sparse index, then
    /// the big-endian byte length of the index.
    pub fn file_image(&self) -> (r: Vec<u8>)
        requires
            self.wf(),
        ensures
            r@ == self.records_bytes() + enc_index(self.index_entries()) + enc_u64_be(
                enc_index(self.index_entries()).len() as u64,
            ),
            sst_parse(r@) == Some((self.records_bytes(), self.index_entries())),
            sst_bytes_wf(r@),
    {
        let ghost idx = self.index_entries();
        let mut r = crate::codec::copy_range(&self.buf, 0, self.buf.len());
        proof {
            assert(r@ =~= self.buf@);
        }
        let mut ib: Vec<u8> = Vec::new();
        encode_u64(&mut ib, self.index.len() as u64);
        let mut t: usize = 0;
        while t < self.index.len()
            invariant
                0 <= t <= self.index@.len(),
                idx == self.index_entries(),
                idx.len() == self.index@.len(),
                ib@ == enc_u64(idx.len() as u64) + enc_index_entries(idx.take(t as int)),
            decreases self.index@.len() - t,
        {
            let e = &self.index[t];
            encode_bytes(&mut ib, &e.0);
            encode_u64(&mut ib, e.1);
            proof {
                assert(idx[t as int] == (self.index@[t as int].0@, self.index@[t as int].1
                    as int));
                let one = seq![idx[t as int]];
                assert(idx.take(t + 1) =~= idx.take(t as int) + one);
                assert(one.skip(1) =~= Seq::<(Seq<u8>, int)>::empty());
                assert(one[0] == idx[t as int]);
                assert(enc_index_entries(one) == enc_index_entry(
                    idx[t as int].0,
                    idx[t as int].1,
                ) + enc_index_entries(one.skip(1)));
                assert(enc_index_entries(one) =~= enc_index_entry(
                    idx[t as int].0,
                    idx[t as int].1,
                ));
                assert(idx[t as int].1 as u64 == self.index@[t as int].1);
                assert(enc_index_entries(idx.take(t as int) + one) =~= enc_index_entries(
                    idx.take(t as int),
                ) + enc_index_entries(one)) by {
                    lemma_enc_index_entries_app(idx.take(t as int), one);
                }
                assert(ib@ =~= enc_u64(idx.len() as u64) + enc_index_entries(idx.take(t + 1)));
            }
            t = t + 1;
        }
        proof {
            assert(idx.take(idx.len() as int) =~= idx);
            assert(ib@ == enc_index(idx));
        }
        let ib_len = ib.len();
        let mut t2: usize = 0;
        while t2 < ib.len()
            invariant
                0 <= t2 <= ib@.len(),
                r@ == self.buf@ + ib@.take(t2 as int),
            decreases ib@.len() - t2,
        {
            r.push(ib[t2]);
            proof {
                assert(self.buf@ + ib@.take(t2 + 1) =~= (self.buf@ + ib@.take(t2 as int)).push(
                    ib@[t2 as int],
                ));
            }
            t2 = t2 + 1;
        }
        proof {
            assert(ib@.take(ib@.len() as int) =~= ib@);
        }
        encode_u64_be(&mut r, ib_len as u64);
        proof {
            assert(r@ =~= self.buf@ + enc_index(idx) + enc_u64_be(enc_index(idx).len() as u64));
            // The image splits back into its parts.
            let bytes = r@;
            crate::codec::lemma_enc_u64_be_len(enc_index(idx).len() as u64);
            assert(bytes.len() == self.buf@.len() + enc_index(idx).len() + 8);
            assert(bytes.skip(bytes.len() - 8) =~= enc_u64_be(enc_index(idx).len() as u64));
            lemma_parse_enc_u64_be(enc_index(idx).len() as u64, Seq::empty());
            assert(enc_u64_be(enc_index(idx).len() as u64) + Seq::<u8>::empty() =~= enc_u64_be(
                enc_index(idx).len() as u64,
            ));
            let l = enc_index(idx).len() as int;
            assert(bytes.subrange(bytes.len() - 8 - l, bytes.len() - 8) =~= enc_index(idx));
            assert(bytes.take(bytes.len() - 8 - l) =~= self.buf@);
            assert(index_fits(idx)) by {
                assert(self.buf.len() == self.buf@.len());
                lemma_parse_records_fit(self.buf@);
                assert forall|i: int| 0 <= i < idx.len() implies (#[trigger] idx[i]).0.len()
                    <= u64::MAX && 0 <= idx[i].1 <= u64::MAX by {
                    let j = choose|j: int|
                        0 <= j < self.records().len() && idx[i] == (
                            self.records()[j].0,
                            parse_off(self.buf@, j),
                        );
                    assert(record_fits(self.records()[j].0, self.records()[j].1));
                    lemma_parse_records_skip(self.buf@, j);
                }
            }
            lemma_parse_enc_index(idx);
        }
        r
    }

    /// Rebuilds a table from a file image, validating every invariant:
    /// the records must parse exactly, ascend strictly, and the index must
    /// name real record boundaries with the first and last key present.
    /// Returns nothing when the image is corrupt in any of these ways.
    pub fn load(bytes: &Vec<u8>, id: SstId) -> (r: Option<SSTable>)
        ensures
            r is Some <==> sst_bytes_wf(bytes@),
            match r {
                Some(t) => {
                    &&& t.wf()
                    &&& t.spec_id() == id
                    &&& sst_parse(bytes@) == Some((t.records_bytes(), t.index_entries()))
                    &&& t.records() == recs_of(sst_parse(bytes@).unwrap().0)
                },
                None => true,
            },
    {
        if bytes.len() < 8 {
            return None;
        }
        let (l64, _) = match decode_u64_be(bytes, bytes.len() - 8) {
            Some(x) => x,
            None => {
                proof {
                    assert(false);
                }
                return None;
            },
        };
        if l64 > (bytes.len() - 8) as u64 {
            return None;
        }
        let l = l64 as usize;
        let rb_len = bytes.len() - 8 - l;
        let ib = crate::codec::copy_range(bytes, rb_len, l);
        let rb = crate::codec::copy_range(bytes, 0, rb_len);
        proof {
            assert(ib@ =~= bytes@.subrange(bytes@.len() - 8 - l, bytes@.len() - 8));
            assert(rb@ =~= bytes@.take(bytes@.len() - 8 - l));
        }
        // Decode the index.
        let index = match Self::decode_index(&ib) {
            Some(x) => x,
            None => {
                return None;
            },
        };
        // Decode and validate the records.
        let recs = match Self::decode_records_checked(&rb) {
            Some(x) => x,
            None => {
                return None;
            },
        };
        let offs = Self::record_offsets(&rb);
        let t = SSTable { buf: rb, index, id };
        if t.validate(&recs, &offs) {
            proof {
                assert(sst_parse(bytes@) == Some((t.buf@, t.index_entries())));
            }
            Some(t)
        } else {
            None
        }
    }
}

/// Encoding index entries distributes over concatenation.
pub proof fn lemma_enc_index_entries_app(x: Seq<(Seq<u8>, int)>, y: Seq<(Seq<u8>, int)>)
    ensures
        enc_index_entries(x + y) == enc_index_entries(x) + enc_index_entries(y),
    decreases x.len(),
{
    if x.len() == 0 {
        assert(x + y =~= y);
        assert(enc_index_entries(x) + enc_index_entries(y) =~= enc_index_entries(y));
    } else {
        assert((x + y).skip(1) =~= x.skip(1) + y);
        assert((x + y)[0] == x[0]);
        lemma_enc_index_entries_app(x.skip(1), y);
        assert(enc_index_entry(x[0].0, x[0].1) + (enc_index_entries(x.skip(1))
            + enc_index_entries(y)) =~= (enc_index_entry(x[0].0, x[0].1) + enc_index_entries(
            x.skip(1),
        )) + enc_index_entries(y));
    }
}

impl SSTable {
    /// Decodes a whole sparse index: the count, then that many entries
    /// filling the buffer exactly.
    #[verifier::rlimit(100)]
    #[verifier::spinoff_prover]
    #[verifier::loop_isolation(false)]
    fn decode_index(ib: &Vec<u8>) -> (r: Option<Vec<(Vec<u8>, u64)>>)
        ensures
            r is Some <==> parse_index(ib@) is Some,
            r is Some ==> index_view(r.unwrap()@) == parse_index(ib@).unwrap(),
    {
        let (n, start) = match crate::codec::decode_u64(ib, 0) {
            Some(x) => x,
            None => {
                proof {
                    assert(ib@.skip(0) =~= ib@);
                }
                return None;
            },
        };
        proof {
            assert(ib@.skip(0) =~= ib@);
        }
        let mut out: Vec<(Vec<u8>, u64)> = Vec::new();
        let mut pos: usize = start;
        let mut t: u64 = 0;
        while t < n
            invariant
                0 <= t <= n,
                start == 8,
                8 <= pos <= ib@.len(),
                parse_u64(ib@) == Some((n, 8int)),
                out@.len() == t,
                match parse_index_entries(ib@.skip(pos as int), n as int - t as int) {
                    None => parse_index_entries(ib@.skip(8), n as int) is None,
                    Some((rest, c)) => parse_index_entries(ib@.skip(8), n as int) == Some(
                        (index_view(out@) + rest, pos - 8 + c),
                    ),
                },
            decreases n - t,
        {
            let ghost pv = index_view(out@);
            let (k, p2) = match crate::codec::decode_bytes(ib, pos) {
                Some(x) => x,
                None => {
                    return None;
                },
            };
            let (off, p3) = match crate::codec::decode_u64(ib, p2) {
                Some(x) => x,
                None => {
                    proof {
                        let c1 = p2 - pos;
                        assert(ib@.skip(pos as int).skip(c1) =~= ib@.skip(p2 as int));
                    }
                    return None;
                },
            };
            proof {
                let c1 = p2 - pos;
                let c2 = p3 - p2;
                assert(ib@.skip(pos as int).skip(c1) =~= ib@.skip(p2 as int));
                assert(ib@.skip(pos as int).skip(c1 + c2) =~= ib@.skip(p3 as int));
            }
            out.push((k, off));
            proof {
                assert(index_view(out@) =~= pv.push((k@, off as int)));
            }
            pos = p3;
            t = t + 1;
            proof {
                match parse_index_entries(ib@.skip(pos as int), n as int - t as int) {
                    None => {}
                    Some((rest, c)) => {
                        assert(pv.push((k@, off as int)) + rest =~= pv + (seq![(k@, off as int)]
                            + rest));
                    }
                }
            }
        }
        if pos == ib.len() {
            proof {
                assert(parse_index_entries(ib@.skip(pos as int), 0int) == Some(
                    (Seq::<(Seq<u8>, int)>::empty(), 0int),
                )) by {
                    assert(n as int - t as int == 0);
                }
                assert(index_view(out@) + Seq::<(Seq<u8>, int)>::empty() =~= index_view(out@));
            }
            Some(out)
        } else {
            proof {
                assert(n as int - t as int == 0);
                assert(parse_index_entries(ib@.skip(pos as int), 0int) == Some(
                    (Seq::<(Seq<u8>, int)>::empty(), 0int),
                ));
            }
            None
        }
    }

    /// Decodes the records section in full; fails exactly when it does not
    /// parse as gapless encoded records.
    #[verifier::rlimit(100)]
    #[verifier::spinoff_prover]
    #[verifier::loop_isolation(false)]
    fn decode_records_checked(rb: &Vec<u8>) -> (r: Option<Vec<(Vec<u8>, ValueUpdate)>>)
        ensures
            r is Some <==> parse_records(rb@) is Some,
            r is Some ==> entries_vec_view(r.unwrap()@) == recs_of(rb@),
    {
        let mut out: Vec<(Vec<u8>, ValueUpdate)> = Vec::new();
        let mut pos: usize = 0;
        proof {
            assert(rb@.skip(0) =~= rb@);
            assert(entries_vec_view(out@) =~= Seq::<(Seq<u8>, UpdateV)>::empty());
        }
        while pos < rb.len()
            invariant
                0 <= pos <= rb@.len(),
                match parse_records(rb@.skip(pos as int)) {
                    None => parse_records(rb@) is None,
                    Some(rest) => parse_records(rb@) == Some(entries_vec_view(out@) + rest),
                },
            decreases rb@.len() - pos,
        {
            let ghost pv = entries_vec_view(out@);
            match decode_record(rb, pos) {
                None => {
                    proof {
                        assert(rb@.skip(pos as int).len() > 0);
                    }
                    return None;
                }
                Some(((k, u), end)) => {
                    proof {
                        assert(rb@.skip(pos as int).skip(end - pos) =~= rb@.skip(end as int));
                    }
                    out.push((k, u));
                    proof {
                        assert(entries_vec_view(out@) =~= pv.push(
                            parse_record(rb@.skip(pos as int)).unwrap().0,
                        ));
                    }
                    let ghost e = (k@, u@);
                    pos = end;
                    proof {
                        match parse_records(rb@.skip(pos as int)) {
                            None => {}
                            Some(rest) => {
                                assert(pv.push(e) + rest =~= pv + (seq![e] + rest));
                            }
                        }
                    }
                }
            }
        }
        proof {
            assert(rb@.skip(pos as int).len() == 0);
            assert(parse_records(rb@.skip(pos as int)) == Some(
                Seq::<(Seq<u8>, UpdateV)>::empty(),
            ));
            assert(entries_vec_view(out@) + Seq::<(Seq<u8>, UpdateV)>::empty() =~=
            entries_vec_view(out@));
        }
        Some(out)
    }
}

/// A chain of adjacent comparisons orders any two index positions.
proof fn lemma_idx_chain(s: Seq<(Seq<u8>, int)>, i: int, j: int)
    requires
        forall|t: int| 0 <= t < s.len() - 1 ==> lex_lt(#[trigger] s[t].0, s[t + 1].0),
        0 <= i < j < s.len(),
    ensures
        lex_lt(s[i].0, s[j].0),
    decreases j - i,
{
    if j == i + 1 {
        assert(lex_lt(s[i].0, s[i + 1].0));
    } else {
        lemma_idx_chain(s, i, j - 1);
        assert(lex_lt(s[j - 1].0, s[j].0));
        lemma_lex_transitive(s[i].0, s[j - 1].0, s[j].0);
    }
}

impl SSTable {
    /// The byte offset of each record in a records section.
    #[verifier::rlimit(100)]
    #[verifier::spinoff_prover]
    #[verifier::loop_isolation(false)]
    fn record_offsets(rb: &Vec<u8>) -> (offs: Vec<u64>)
        requires
            parse_records(rb@) is Some,
        ensures
            offs@.len() == recs_of(rb@).len(),
            forall|j: int| 0 <= j < offs@.len() ==> #[trigger] offs@[j] as int == parse_off(
                rb@,
                j,
            ),
    {
        let ghost recs = recs_of(rb@);
        let mut offs: Vec<u64> = Vec::new();
        let mut pos: usize = 0;
        let ghost mut j: int = 0;
        proof {
            lemma_parse_records_skip(rb@, 0);
        }
        while pos < rb.len()
            invariant
                0 <= j <= recs.len(),
                offs@.len() == j,
                forall|jj: int| 0 <= jj < j ==> #[trigger] offs@[jj] as int == parse_off(
                    rb@,
                    jj,
                ),
                pos == parse_off(rb@, j),
                pos <= rb@.len(),
                j == recs.len() <==> pos == rb@.len(),
            decreases rb@.len() - pos,
        {
            proof {
                lemma_parse_records_skip(rb@, j);
                assert(j < recs.len());
            }
            offs.push(pos as u64);
            match decode_record(rb, pos) {
                None => {
                    proof {
                        assert(parse_record(rb@.skip(pos as int)) is Some);
                        assert(false);
                    }
                }
                Some((_kv, end)) => {
                    proof {
                        j = j + 1;
                    }
                    pos = end;
                    proof {
                        lemma_parse_records_skip(rb@, j);
                        assert(pos == parse_off(rb@, j));
                        if j == recs.len() {
                            assert(parse_records(rb@.skip(pos as int)) == Some(recs.skip(j)));
                            if pos < rb@.len() {
                                assert(rb@.skip(pos as int).len() > 0);
                                assert(parse_records(rb@.skip(pos as int)).unwrap().len() > 0);
                                assert(false);
                            }
                        } else {
                            assert(parse_record(rb@.skip(pos as int)) is Some);
                            if pos == rb@.len() {
                                assert(rb@.skip(pos as int).len() == 0);
                                assert(false);
                            }
                        }
                    }
                }
            }
        }
        proof {
            assert(j == recs.len());
        }
        offs
    }

    /// Checks every content invariant of the table: non-empty strictly
    /// ascending records, and an index naming real record boundaries with
    /// the first and last record present and its keys ascending.
    #[verifier::rlimit(100)]
    #[verifier::spinoff_prover]
    #[verifier::loop_isolation(false)]
    fn validate(&self, recs: &Vec<(Vec<u8>, ValueUpdate)>, offs: &Vec<u64>) -> (r: bool)
        requires
            parse_records(self.buf@) is Some,
            entries_vec_view(recs@) == recs_of(self.buf@),
            offs@.len() == recs_of(self.buf@).len(),
            forall|j: int| 0 <= j < offs@.len() ==> #[trigger] offs@[j] as int == parse_off(
                self.buf@,
                j,
            ),
        ensures
            r == self.wf(),
    {
        let ghost grecs = recs_of(self.buf@);
        let ghost idx = self.index_entries();
        if recs.len() == 0 {
            return false;
        }
        // The records must ascend strictly.
        let mut j: usize = 0;
        while j < recs.len() - 1
            invariant
                0 <= j < recs@.len(),
                forall|t: int| 0 <= t < j ==> lex_lt(#[trigger] grecs[t].0, grecs[t + 1].0),
            decreases recs@.len() - j,
        {
            proof {
                assert(entries_vec_view(recs@)[j as int] == (recs@[j as int].0@, recs@[j
                    as int].1@));
                assert(entries_vec_view(recs@)[j + 1] == (recs@[j + 1].0@, recs@[j + 1].1@));
            }
            match key_cmp(&recs[j].0, &recs[j + 1].0) {
                KeyOrd::Less => {}
                _ => {
                    proof {
                        assert(!lex_lt(grecs[j as int].0, grecs[j + 1].0));
                        assert(!entries_sorted(grecs));
                    }
                    return false;
                }
            }
            j = j + 1;
        }
        proof {
            lemma_adjacent_sorted(grecs);
        }
        // The index must be non-empty and strictly ascending in key.
        if self.index.len() == 0 {
            return false;
        }
        let mut t: usize = 0;
        while t < self.index.len() - 1
            invariant
                0 <= t < self.index@.len(),
                forall|u: int| 0 <= u < t ==> lex_lt(#[trigger] idx[u].0, idx[u + 1].0),
            decreases self.index@.len() - t,
        {
            proof {
                assert(idx[t as int] == (self.index@[t as int].0@, self.index@[t as int].1
                    as int));
                assert(idx[t + 1] == (self.index@[t + 1].0@, self.index@[t + 1].1 as int));
            }
            match key_cmp(&self.index[t].0, &self.index[t + 1].0) {
                KeyOrd::Less => {}
                _ => {
                    proof {
                        assert(!lex_lt(idx[t as int].0, idx[t + 1].0));
                    }
                    return false;
                }
            }
            t = t + 1;
        }
        proof {
            assert forall|i1: int, i2: int| 0 <= i1 < i2 < idx.len() implies lex_lt(
                idx[i1].0,
                idx[i2].0,
            ) by {
                lemma_idx_chain(idx, i1, i2);
            }
        }
        // The first and last index entries must name the first and last
        // records at their true offsets.
        proof {
            assert(idx[0] == (self.index@[0].0@, self.index@[0].1 as int));
            assert(entries_vec_view(recs@)[0] == (recs@[0].0@, recs@[0].1@));
        }
        match key_cmp(&self.index[0].0, &recs[0].0) {
            KeyOrd::Equal => {}
            _ => {
                return false;
            }
        }
        if self.index[0].1 != 0 {
            return false;
        }
        let li = self.index.len() - 1;
        let lr = recs.len() - 1;
        proof {
            assert(idx[li as int] == (self.index@[li as int].0@, self.index@[li as int].1
                as int));
            assert(entries_vec_view(recs@)[lr as int] == (recs@[lr as int].0@, recs@[lr
                as int].1@));
        }
        match key_cmp(&self.index[li].0, &recs[lr].0) {
            KeyOrd::Equal => {}
            _ => {
                return false;
            }
        }
        if self.index[li].1 != offs[lr] {
            return false;
        }
        // Every index entry must name some record boundary.
        let mut i: usize = 0;
        while i < self.index.len()
            invariant
                0 <= i <= self.index@.len(),
                forall|u: int|
                    0 <= u < i ==> exists|jj: int|
                        0 <= jj < grecs.len() && (#[trigger] idx[u]) == (
                            grecs[jj].0,
                            parse_off(self.buf@, jj),
                        ),
            decreases self.index@.len() - i,
        {
            proof {
                assert(idx[i as int] == (self.index@[i as int].0@, self.index@[i as int].1
                    as int));
            }
            let mut found = false;
            let mut jj: usize = 0;
            while jj < recs.len()
                invariant
                    0 <= jj <= recs@.len(),
                    found ==> exists|j2: int|
                        0 <= j2 < grecs.len() && idx[i as int] == (
                            grecs[j2].0,
                            parse_off(self.buf@, j2),
                        ),
                    !found ==> forall|j2: int|
                        0 <= j2 < jj ==> idx[i as int] != (
                            #[trigger] grecs[j2].0,
                            parse_off(self.buf@, j2),
                        ),
                decreases recs@.len() - jj,
            {
                if !found {
                    proof {
                        assert(entries_vec_view(recs@)[jj as int] == (recs@[jj as int].0@, recs@[
                            jj as int].1@));
                    }
                    if offs[jj] == self.index[i].1 {
                        match key_cmp(&recs[jj].0, &self.index[i].0) {
                            KeyOrd::Equal => {
                                found = true;
                                proof {
                                    assert(idx[i as int] == (
                                        grecs[jj as int].0,
                                        parse_off(self.buf@, jj as int),
                                    ));
                                }
                            }
                            _ => {}
                        }
                    }
                }
                jj = jj + 1;
            }
            if !found {
                proof {
                    assert(!self.wf()) by {
                        if self.wf() {
                            let j2 = choose|j2: int|
                                0 <= j2 < grecs.len() && idx[i as int] == (
                                    grecs[j2].0,
                                    parse_off(self.buf@, j2),
                                );
                            assert(idx[i as int] != (grecs[j2].0, parse_off(self.buf@, j2)));
                        }
                    }
                }
                return false;
            }
            i = i + 1;
        }
        proof {
            assert(self.wf());
        }
        true
    }
}

/// The mapping a stack of record sequences denotes: every key of every
/// sequence is present, and an earlier sequence wins over a later one.
pub open spec fn stacked_map(ls: Seq<Seq<(Seq<u8>, UpdateV)>>) -> Map<Seq<u8>, UpdateV>
    decreases ls.len(),
{
    if ls.len() == 0 {
        Map::empty()
    } else {
        stacked_map(ls.skip(1)).union_prefer_right(entries_map(ls[0]))
    }
}

/// The stacked map has exactly the keys of the stacked sequences.
pub proof fn lemma_stacked_keys(ls: Seq<Seq<(Seq<u8>, UpdateV)>>)
    ensures
        forall|k: Seq<u8>|
            #[trigger] stacked_map(ls).contains_key(k) <==> exists|t: int|
                0 <= t < ls.len() && entries_contains_key(#[trigger] ls[t], k),
    decreases ls.len(),
{
    if ls.len() > 0 {
        lemma_stacked_keys(ls.skip(1));
        lemma_entries_map_keys(ls[0]);
        assert forall|k: Seq<u8>| #[trigger] stacked_map(ls).contains_key(k) implies exists|t: int|
            0 <= t < ls.len() && entries_contains_key(#[trigger] ls[t], k) by {
            if entries_map(ls[0]).contains_key(k) {
                assert(entries_contains_key(ls[0], k));
            } else {
                assert(stacked_map(ls.skip(1)).contains_key(k));
                let t = choose|t: int|
                    0 <= t < ls.skip(1).len() && entries_contains_key(ls.skip(1)[t], k);
                assert(ls.skip(1)[t] == ls[t + 1]);
                assert(entries_contains_key(ls[t + 1], k));
            }
        }
        assert forall|k: Seq<u8>| (exists|t: int|
            0 <= t < ls.len() && entries_contains_key(#[trigger] ls[t], k)) implies
            #[trigger] stacked_map(ls).contains_key(k) by {
            let t = choose|t: int| 0 <= t < ls.len() && entries_contains_key(ls[t], k);
            if t == 0 {
                assert(entries_map(ls[0]).contains_key(k));
            } else {
                assert(ls.skip(1)[t - 1] == ls[t]);
                assert(entries_contains_key(ls.skip(1)[t - 1], k));
                assert(stacked_map(ls.skip(1)).contains_key(k));
            }
        }
    }
}

/// The stacked value of a key comes from the earliest sequence holding it.
pub proof fn lemma_stacked_value(ls: Seq<Seq<(Seq<u8>, UpdateV)>>, t: int, k: Seq<u8>)
    requires
        0 <= t < ls.len(),
        entries_contains_key(ls[t], k),
        forall|t2: int| 0 <= t2 < t ==> !entries_contains_key(#[trigger] ls[t2], k),
    ensures
        stacked_map(ls).contains_key(k),
        stacked_map(ls)[k] == entries_map(ls[t])[k],
    decreases t,
{
    lemma_entries_map_keys(ls[0]);
    if t == 0 {
        assert(entries_map(ls[0]).contains_key(k));
    } else {
        assert(!entries_contains_key(ls[0], k));
        assert(!entries_map(ls[0]).contains_key(k));
        assert(ls.skip(1)[t - 1] == ls[t]);
        assert forall|t2: int| 0 <= t2 < t - 1 implies !entries_contains_key(
            #[trigger] ls.skip(1)[t2],
            k,
        ) by {
            assert(ls.skip(1)[t2] == ls[t2 + 1]);
        }
        lemma_stacked_value(ls.skip(1), t - 1, k);
    }
}

/// Appending a strictly larger key keeps a record sequence sorted.
pub proof fn lemma_sorted_push(s: Seq<(Seq<u8>, UpdateV)>, k: Seq<u8>, u: UpdateV)
    requires
        entries_sorted(s),
        s.len() > 0 ==> lex_lt(s.last().0, k),
    ensures
        entries_sorted(s.push((k, u))),
{
    let r = s.push((k, u));
    assert forall|i: int, j: int| 0 <= i < j < r.len() implies lex_lt(r[i].0, r[j].0) by {
        if j == r.len() - 1 {
            assert(r[j] == (k, u));
            if i < s.len() - 1 {
                assert(lex_lt(s[i].0, s.last().0));
                lemma_lex_transitive(s[i].0, s.last().0, k);
            }
        } else {
            assert(r[i] == s[i]);
            assert(r[j] == s[j]);
        }
    }
}

/// The views of a stack of record vectors.
pub open spec fn lists_view(ls: Seq<Vec<(Vec<u8>, ValueUpdate)>>) -> Seq<
    Seq<(Seq<u8>, UpdateV)>,
> {
    ls.map_values(|v: Vec<(Vec<u8>, ValueUpdate)>| entries_vec_view(v@))
}

/// The number of records the merge cursors have not yet consumed.
pub open spec fn remaining_count(ls: Seq<Seq<(Seq<u8>, UpdateV)>>, cur: Seq<usize>) -> int
    decreases ls.len(),
{
    if ls.len() == 0 {
        0
    } else {
        (ls[0].len() - cur[0]) + remaining_count(ls.skip(1), cur.skip(1))
    }
}

/// Advancing one cursor consumes exactly one record.
pub proof fn lemma_remaining_update(ls: Seq<Seq<(Seq<u8>, UpdateV)>>, cur: Seq<usize>, t: int, v: usize)
    requires
        cur.len() == ls.len(),
        0 <= t < ls.len(),
        v == cur[t] + 1,
    ensures
        remaining_count(ls, cur.update(t, v)) == remaining_count(ls, cur) - 1,
    decreases ls.len(),
{
    if t == 0 {
        assert(cur.update(t, v).skip(1) =~= cur.skip(1));
    } else {
        assert(cur.update(t, v).skip(1) =~= cur.skip(1).update(t - 1, v));
        lemma_remaining_update(ls.skip(1), cur.skip(1), t - 1, v);
    }
}

/// The count of unconsumed records is never negative, and zero exactly
/// when every cursor is at its end.
pub proof fn lemma_remaining_nonneg(ls: Seq<Seq<(Seq<u8>, UpdateV)>>, cur: Seq<usize>)
    requires
        cur.len() == ls.len(),
        forall|t: int| 0 <= t < ls.len() ==> #[trigger] cur[t] <= ls[t].len(),
    ensures
        remaining_count(ls, cur) >= 0,
    decreases ls.len(),
{
    if ls.len() > 0 {
        assert(cur[0] <= ls[0].len());
        assert forall|t: int| 0 <= t < ls.skip(1).len() implies #[trigger] cur.skip(1)[t]
            <= ls.skip(1)[t].len() by {
            assert(cur.skip(1)[t] == cur[t + 1]);
            assert(ls.skip(1)[t] == ls[t + 1]);
        }
        lemma_remaining_nonneg(ls.skip(1), cur.skip(1));
    }
}

/// Merges a stack of sorted record vectors, earlier vectors winning on a
/// shared key, into one sorted record vector with distinct keys whose
/// mapping is the stacked mapping of the inputs.
#[verifier::loop_isolation(false)]
#[verifier::rlimit(100)]
pub fn merge_entry_lists(lists: &Vec<Vec<(Vec<u8>, ValueUpdate)>>) -> (out: Vec<
    (Vec<u8>, ValueUpdate),
>)
    requires
        forall|t: int|
            0 <= t < lists@.len() ==> entries_sorted(entries_vec_view(#[trigger] lists@[t]@)),
    ensures
        entries_sorted(entries_vec_view(out@)),
        entries_map(entries_vec_view(out@)) == stacked_map(lists_view(lists@)),
        forall|i: int|
            0 <= i < out@.len() ==> exists|t: int, j: int|
                0 <= t < lists@.len() && 0 <= j < lists_view(lists@)[t].len()
                    && #[trigger] entries_vec_view(out@)[i] == lists_view(lists@)[t][j],
        out@.len() <= lists_total(lists_view(lists@)),
{
    let ghost big = lists_view(lists@);
    let m = lists.len();
    proof {
        assert(big.len() == m);
        assert(forall|t: int| 0 <= t < m ==> #[trigger] big[t] == entries_vec_view(lists@[t]@));
        lemma_stacked_keys(big);
    }
    let mut out: Vec<(Vec<u8>, ValueUpdate)> = Vec::new();
    let mut cur: Vec<usize> = Vec::new();
    let mut t0: usize = 0;
    while t0 < m
        invariant
            0 <= t0 <= m,
            cur@.len() == t0,
            forall|t: int| 0 <= t < t0 ==> #[trigger] cur@[t] == 0,
        decreases m - t0,
    {
        cur.push(0);
        t0 = t0 + 1;
    }
    proof {
        assert(entries_vec_view(out@) =~= Seq::<(Seq<u8>, UpdateV)>::empty());
        lemma_remaining_nonneg(big, cur@);
        lemma_remaining_total(big, cur@);
    }
    let ghost total = lists_total(big);
    let ghost mut last_key: Seq<u8> = Seq::empty();
    let mut finished = false;
    while !finished
        invariant
            cur@.len() == m,
            big.len() == m,
            forall|t: int| 0 <= t < m ==> #[trigger] cur@[t] <= big[t].len(),
            forall|t: int| 0 <= t < m ==> #[trigger] big[t] == entries_vec_view(lists@[t]@),
            entries_sorted(entries_vec_view(out@)),
            forall|t: int, j: int|
                0 <= t < m && 0 <= j < cur@[t] ==> entries_contains_key(
                    entries_vec_view(out@),
                    #[trigger] big[t][j].0,
                ),
            forall|i: int|
                0 <= i < out@.len() ==> exists|t: int, j: int|
                    0 <= t < m && 0 <= j < cur@[t] && (#[trigger] entries_vec_view(out@)[i]).0
                        == big[t][j].0,
            forall|i: int|
                0 <= i < out@.len() ==> exists|t: int, j: int|
                    0 <= t < m && 0 <= j < big[t].len() && #[trigger] entries_vec_view(
                        out@,
                    )[i] == big[t][j],
            forall|i: int|
                0 <= i < out@.len() ==> stacked_map(big).contains_key(
                    (#[trigger] entries_vec_view(out@)[i]).0,
                ) && entries_vec_view(out@)[i].1 == stacked_map(big)[entries_vec_view(
                    out@,
                )[i].0],
            out@.len() > 0 ==> entries_vec_view(out@).last().0 == last_key,
            forall|t: int| 0 <= t < m && 0 < #[trigger] cur@[t] ==> out@.len() > 0,
            out@.len() + remaining_count(big, cur@) <= total,
            forall|t: int, j: int|
                0 <= t < m && 0 <= j < cur@[t] ==> lex_le((#[trigger] big[t][j]).0, last_key),
            forall|t: int|
                0 <= t < m && #[trigger] cur@[t] < big[t].len() && out@.len() > 0 ==> lex_le(
                    last_key,
                    big[t][cur@[t] as int].0,
                ),
            finished ==> forall|t: int| 0 <= t < m ==> #[trigger] cur@[t] == big[t].len(),
        decreases remaining_count(big, cur@) + if finished {
            0int
        } else {
            1int
        },
    {
        // Select the earliest list whose head key is smallest.
        let mut have = false;
        let mut best: usize = 0;
        let mut t: usize = 0;
        while t < m
            invariant
                0 <= t <= m,
                have ==> 0 <= best < t && cur@[best as int] < big[best as int].len(),
                have ==> forall|t2: int|
                    0 <= t2 < t && #[trigger] cur@[t2] < big[t2].len() ==> lex_le(
                        big[best as int][cur@[best as int] as int].0,
                        big[t2][cur@[t2] as int].0,
                    ),
                have ==> forall|t2: int|
                    0 <= t2 < best && #[trigger] cur@[t2] < big[t2].len() ==> lex_lt(
                        big[best as int][cur@[best as int] as int].0,
                        big[t2][cur@[t2] as int].0,
                    ),
                !have ==> forall|t2: int| 0 <= t2 < t ==> #[trigger] cur@[t2] == big[t2].len(),
            decreases m - t,
        {
            if cur[t] < lists[t].len() {
                proof {
                    assert(entries_vec_view(lists@[t as int]@)[cur@[t as int] as int] == (
                        lists@[t as int]@[cur@[t as int] as int].0@,
                        lists@[t as int]@[cur@[t as int] as int].1@,
                    ));
                }
                if !have {
                    best = t;
                    have = true;
                } else {
                    proof {
                        assert(entries_vec_view(lists@[best as int]@)[cur@[best as int] as int]
                            == (
                            lists@[best as int]@[cur@[best as int] as int].0@,
                            lists@[best as int]@[cur@[best as int] as int].1@,
                        ));
                    }
                    match key_cmp(&lists[t][cur[t]].0, &lists[best][cur[best]].0) {
                        KeyOrd::Less => {
                            proof {
                                let newk = big[t as int][cur@[t as int] as int].0;
                                let oldk = big[best as int][cur@[best as int] as int].0;
                                assert(lex_lt(newk, oldk));
                                assert forall|t2: int|
                                    0 <= t2 < t && #[trigger] cur@[t2] < big[t2].len() implies
                                    lex_lt(newk, big[t2][cur@[t2] as int].0) by {
                                    assert(lex_le(oldk, big[t2][cur@[t2] as int].0));
                                    if oldk == big[t2][cur@[t2] as int].0 {
                                    } else {
                                        lemma_lex_transitive(
                                            newk,
                                            oldk,
                                            big[t2][cur@[t2] as int].0,
                                        );
                                    }
                                }
                            }
                            best = t;
                        }
                        _ => {}
                    }
                }
            }
            t = t + 1;
        }
        if !have {
            finished = true;
            proof {
                lemma_remaining_nonneg(big, cur@);
            }
        } else {
            let ghost ov = entries_vec_view(out@);
            let ghost k = big[best as int][cur@[best as int] as int].0;
            let ghost kv = big[best as int][cur@[best as int] as int];
            proof {
                assert(entries_vec_view(lists@[best as int]@)[cur@[best as int] as int] == (
                    lists@[best as int]@[cur@[best as int] as int].0@,
                    lists@[best as int]@[cur@[best as int] as int].1@,
                ));
            }
            let mut skip_dup = false;
            if out.len() > 0 {
                proof {
                    assert(entries_vec_view(out@)[out@.len() - 1] == (
                        out@[out@.len() - 1].0@,
                        out@[out@.len() - 1].1@,
                    ));
                }
                match key_cmp(&out[out.len() - 1].0, &lists[best][cur[best]].0) {
                    KeyOrd::Equal => {
                        skip_dup = true;
                    }
                    _ => {}
                }
            }
            if skip_dup {
                // An entry for this key was already emitted from a higher
                // priority list; drop the older duplicate.
                proof {
                    assert(big[best as int].len() == lists@[best as int]@.len());
                    assert(lists@[best as int].len() == lists@[best as int]@.len());
                }
                let c = cur[best];
                let ghost cur0 = cur@;
                cur.set(best, c + 1);
                proof {
                    lemma_remaining_update(big, cur0, best as int, (c + 1) as usize);
                    assert(cur@ == cur0.update(best as int, (c + 1) as usize));
                    assert(ov.last().0 == k);
                    assert(last_key == k);
                    assert forall|t2: int, j: int|
                        0 <= t2 < m && 0 <= j < cur@[t2] implies entries_contains_key(
                        ov,
                        #[trigger] big[t2][j].0,
                    ) && out@.len() > 0 && lex_le(big[t2][j].0, last_key) by {
                        if t2 == best && j == c {
                            assert(big[t2][j].0 == k);
                            assert(entries_contains_key(ov, k)) by {
                                assert(ov[ov.len() - 1].0 == k);
                            }
                        }
                    }
                    assert forall|t2: int|
                        0 <= t2 < m && #[trigger] cur@[t2] < big[t2].len() && out@.len() > 0
                        implies lex_le(last_key, big[t2][cur@[t2] as int].0) by {
                        if t2 == best {
                            assert(lex_lt(big[best as int][c as int].0, big[best as int][c
                                + 1].0));
                        }
                    }
                    lemma_remaining_nonneg(big, cur@);
                }
            } else {
                // Emit the head of the winning list: no higher priority
                // list holds this key.
                proof {
                    if out@.len() > 0 {
                        assert(lex_le(ov.last().0, k));
                        assert(ov.last().0 != k) by {
                            assert(entries_vec_view(out@)[out@.len() - 1] == (
                                out@[out@.len() - 1].0@,
                                out@[out@.len() - 1].1@,
                            ));
                        }
                        assert(lex_lt(ov.last().0, k));
                    }
                    assert forall|t2: int| 0 <= t2 < best implies !entries_contains_key(
                        #[trigger] big[t2],
                        k,
                    ) by {
                        if entries_contains_key(big[t2], k) {
                            let j = choose|j: int| 0 <= j < big[t2].len() && big[t2][j].0 == k;
                            if j < cur@[t2] {
                                assert(lex_le(big[t2][j].0, ov.last().0));
                                assert(lex_lt(ov.last().0, k));
                                if big[t2][j].0 == ov.last().0 {
                                    lemma_lex_irreflexive(k);
                                } else {
                                    lemma_lex_transitive(k, ov.last().0, k);
                                    lemma_lex_irreflexive(k);
                                }
                            } else {
                                assert(cur@[t2] < big[t2].len());
                                assert(lex_lt(k, big[t2][cur@[t2] as int].0));
                                if j == cur@[t2] {
                                    lemma_lex_irreflexive(k);
                                } else {
                                    assert(lex_lt(big[t2][cur@[t2] as int].0, big[t2][j].0));
                                    lemma_lex_transitive(
                                        k,
                                        big[t2][cur@[t2] as int].0,
                                        big[t2][j].0,
                                    );
                                    lemma_lex_irreflexive(k);
                                }
                            }
                        }
                    }
                    assert(entries_contains_key(big[best as int], k)) by {
                        assert(big[best as int][cur@[best as int] as int].0 == k);
                    }
                    lemma_stacked_value(big, best as int, k);
                    lemma_entries_map_value(big[best as int]);
                    assert(entries_map(big[best as int])[k] == kv.1);
                    lemma_sorted_push(ov, k, kv.1);
                }
                let e = (lists[best][cur[best]].0.clone(), lists[best][cur[best]].1.clone());
                out.push(e);
                proof {
                    assert(big[best as int].len() == lists@[best as int]@.len());
                    assert(lists@[best as int].len() == lists@[best as int]@.len());
                }
                let c = cur[best];
                let ghost cur0 = cur@;
                cur.set(best, c + 1);
                proof {
                    assert(entries_vec_view(out@) =~= ov.push(kv));
                    last_key = k;
                    let ov2 = entries_vec_view(out@);
                    assert(ov2.last() == kv);
                    lemma_remaining_update(big, cur0, best as int, (c + 1) as usize);
                    assert(cur@ == cur0.update(best as int, (c + 1) as usize));
                    assert forall|t2: int, j: int|
                        0 <= t2 < m && 0 <= j < cur@[t2] implies entries_contains_key(
                        ov2,
                        #[trigger] big[t2][j].0,
                    ) && out@.len() > 0 && lex_le(big[t2][j].0, last_key) by {
                        if t2 == best && j == c {
                            assert(big[t2][j].0 == k);
                            assert(entries_contains_key(ov2, k)) by {
                                assert(ov2[ov2.len() - 1].0 == k);
                            }
                        } else {
                            assert(entries_contains_key(ov, big[t2][j].0));
                            let i2 = choose|i2: int|
                                0 <= i2 < ov.len() && ov[i2].0 == big[t2][j].0;
                            assert(ov2[i2].0 == big[t2][j].0);
                            assert(entries_contains_key(ov2, big[t2][j].0));
                            assert(ov.len() > 0);
                            assert(lex_le(big[t2][j].0, ov.last().0));
                            if ov.len() > 0 {
                                if big[t2][j].0 == ov.last().0 {
                                    assert(lex_lt(ov.last().0, k));
                                } else {
                                    lemma_lex_transitive(big[t2][j].0, ov.last().0, k);
                                }
                            }
                        }
                    }
                    assert forall|i: int| 0 <= i < out@.len() implies exists|t2: int, j: int|
                        0 <= t2 < m && 0 <= j < cur@[t2] && (#[trigger] ov2[i]).0
                            == big[t2][j].0 by {
                        if i < ov.len() {
                            assert(ov2[i] == ov[i]);
                            let (t3, j3) = choose|t3: int, j3: int|
                                0 <= t3 < m && 0 <= j3 < cur@.update(best as int, c)[t3]
                                    && ov[i].0 == big[t3][j3].0;
                            assert(cur@[t3] >= cur@.update(best as int, c)[t3]);
                            assert(0 <= t3 < m && 0 <= j3 < cur@[t3] && ov2[i].0
                                == big[t3][j3].0);
                        } else {
                            assert(ov2[i] == kv);
                            assert(0 <= best < m && 0 <= c < cur@[best as int] && ov2[i].0
                                == big[best as int][c as int].0);
                        }
                    }
                    assert forall|i: int| 0 <= i < out@.len() implies stacked_map(
                        big,
                    ).contains_key((#[trigger] ov2[i]).0) && ov2[i].1 == stacked_map(
                        big,
                    )[ov2[i].0] by {
                        if i < ov.len() {
                            assert(ov2[i] == ov[i]);
                        } else {
                            assert(ov2[i] == kv);
                        }
                    }
                    assert forall|i: int| 0 <= i < out@.len() implies exists|t2: int, j: int|
                        0 <= t2 < m && 0 <= j < big[t2].len() && #[trigger] ov2[i]
                            == big[t2][j] by {
                        if i < ov.len() {
                            assert(ov2[i] == ov[i]);
                            let (t3, j3) = choose|t3: int, j3: int|
                                0 <= t3 < m && 0 <= j3 < big[t3].len() && ov[i] == big[t3][j3];
                            assert(0 <= t3 < m && 0 <= j3 < big[t3].len() && ov2[i]
                                == big[t3][j3]);
                        } else {
                            assert(ov2[i] == kv);
                            assert(0 <= best < m && 0 <= c < big[best as int].len() && ov2[i]
                                == big[best as int][c as int]);
                        }
                    }
                    assert forall|t2: int|
                        0 <= t2 < m && #[trigger] cur@[t2] < big[t2].len() && out@.len() > 0
                        implies lex_le(last_key, big[t2][cur@[t2] as int].0) by {
                        if t2 == best {
                            assert(lex_lt(big[best as int][c as int].0, big[best as int][c
                                + 1].0));
                        } else {
                            assert(lex_le(k, big[t2][cur@[t2] as int].0));
                        }
                    }
                    lemma_remaining_nonneg(big, cur@);
                }
            }
        }
    }
    proof {
        lemma_remaining_nonneg(big, cur@);
        let ov = entries_vec_view(out@);
        lemma_entries_map_keys(ov);
        lemma_entries_map_value(ov);
        assert(entries_map(ov) =~= stacked_map(big)) by {
            assert forall|k2: Seq<u8>| #[trigger] entries_map(ov).contains_key(k2) implies
                stacked_map(big).contains_key(k2) by {
                assert(entries_contains_key(ov, k2));
                let i = choose|i: int| 0 <= i < ov.len() && ov[i].0 == k2;
                assert(stacked_map(big).contains_key(ov[i].0));
            }
            assert forall|k2: Seq<u8>| #[trigger] stacked_map(big).contains_key(k2) implies
                entries_map(ov).contains_key(k2) by {
                let t2 = choose|t2: int|
                    0 <= t2 < big.len() && entries_contains_key(#[trigger] big[t2], k2);
                let j = choose|j: int| 0 <= j < big[t2].len() && big[t2][j].0 == k2;
                assert(cur@[t2] == big[t2].len());
                assert(entries_contains_key(ov, big[t2][j].0));
            }
            assert forall|k2: Seq<u8>| #[trigger] entries_map(ov).contains_key(k2) implies
                entries_map(ov)[k2] == stacked_map(big)[k2] by {
                assert(entries_contains_key(ov, k2));
                let i = choose|i: int| 0 <= i < ov.len() && ov[i].0 == k2;
                assert(entries_map(ov)[ov[i].0] == ov[i].1);
            }
        }
    }
    out
}

/// The priority tuple of a well-formed table.
pub open spec fn table_meta(t: SSTable) -> (u64, u64, Seq<u8>, Seq<u8>) {
    (t.spec_id().level, t.spec_id().id, t.records()[0].0, t.records().last().0)
}

/// Merge priority is asymmetric.
pub proof fn lemma_meta_asym(a: (u64, u64, Seq<u8>, Seq<u8>), b: (u64, u64, Seq<u8>, Seq<u8>))
    ensures
        !(meta_lt(a, b) && meta_lt(b, a)),
{
    lemma_lex_asymmetric(a.2, b.2);
    lemma_lex_asymmetric(a.3, b.3);
}

/// Merge priority is transitive.
pub proof fn lemma_meta_trans(
    a: (u64, u64, Seq<u8>, Seq<u8>),
    b: (u64, u64, Seq<u8>, Seq<u8>),
    c: (u64, u64, Seq<u8>, Seq<u8>),
)
    requires
        meta_lt(a, b),
        meta_lt(b, c),
    ensures
        meta_lt(a, c),
{
    lemma_lex_transitive(a.2, b.2, c.2);
    lemma_lex_transitive(a.3, b.3, c.3);
    lemma_lex_irreflexive(a.2);
    lemma_lex_irreflexive(b.2);
    lemma_lex_irreflexive(c.2);
    lemma_lex_irreflexive(a.3);
    lemma_lex_irreflexive(b.3);
    lemma_lex_irreflexive(c.3);
    lemma_lex_asymmetric(a.2, b.2);
    lemma_lex_asymmetric(b.2, c.2);
    lemma_lex_asymmetric(a.2, c.2);
}

/// Inserting anywhere adds exactly that element to the multiset.
pub proof fn lemma_seq_insert_multiset<A>(s: Seq<A>, pos: int, x: A)
    requires
        0 <= pos <= s.len(),
    ensures
        s.insert(pos, x).to_multiset() == s.to_multiset().insert(x),
{
    broadcast use vstd::seq_lib::group_to_multiset_ensures;

    assert(s.insert(pos, x) =~= s.take(pos) + (seq![x] + s.skip(pos)));
    vstd::seq_lib::lemma_multiset_commutative(s.take(pos), seq![x] + s.skip(pos));
    vstd::seq_lib::lemma_multiset_commutative(seq![x], s.skip(pos));
    vstd::seq_lib::lemma_multiset_commutative(s.take(pos), s.skip(pos));
    assert(s.take(pos) + s.skip(pos) =~= s);
    assert(seq![x] =~= Seq::<A>::empty().push(x));
    assert(seq![x].to_multiset() =~= Multiset::<A>::empty().insert(x));
    assert(s.insert(pos, x).to_multiset() =~= s.to_multiset().insert(x));
}

/// Sorts tables by merge priority: level-0 tables youngest first, then by
/// level, first key and last key.
#[verifier::loop_isolation(false)]
fn sort_tables(tables: Vec<SSTable>) -> (r: Vec<SSTable>)
    requires
        forall|i: int| 0 <= i < tables@.len() ==> (#[trigger] tables@[i]).wf(),
    ensures
        r@.to_multiset() == tables@.to_multiset(),
        forall|i: int| 0 <= i < r@.len() ==> (#[trigger] r@[i]).wf(),
        forall|i: int, j: int|
            0 <= i < j < r@.len() ==> !meta_lt(table_meta(#[trigger] r@[j]), table_meta(#[trigger] r@[i])),
{
    broadcast use vstd::seq_lib::group_to_multiset_ensures;

    let mut rest = tables;
    let mut out: Vec<SSTable> = Vec::new();
    proof {
        assert(out@.to_multiset() =~= Multiset::<SSTable>::empty());
    }
    while rest.len() > 0
        invariant
            forall|i: int| 0 <= i < rest@.len() ==> (#[trigger] rest@[i]).wf(),
            forall|i: int| 0 <= i < out@.len() ==> (#[trigger] out@[i]).wf(),
            forall|i: int, j: int|
                0 <= i < j < out@.len() ==> !meta_lt(
                    table_meta(#[trigger] out@[j]),
                    table_meta(#[trigger] out@[i]),
                ),
            out@.to_multiset().add(rest@.to_multiset()) == tables@.to_multiset(),
        decreases rest@.len(),
    {
        let ghost rest0 = rest@;
        let x = rest.pop().unwrap();
        proof {
            assert(rest0.drop_last() == rest@);
            assert(rest0 =~= rest@.push(x));
            assert(rest0.to_multiset() =~= rest@.to_multiset().insert(x));
        }
        let xm = x.metadata();
        // Find the first position whose table `x` must precede.
        let mut pos: usize = 0;
        while pos < out.len()
            invariant
                0 <= pos <= out@.len(),
                forall|q: int| 0 <= q < pos ==> !meta_lt(
                    table_meta(x),
                    table_meta(#[trigger] out@[q]),
                ),
            decreases out@.len() - pos,
        {
            let om = out[pos].metadata();
            if xm.precedes(&om) {
                break;
            }
            pos = pos + 1;
        }
        let ghost out0 = out@;
        let ghost brk = pos < out.len();
        proof {
            if pos < out@.len() {
                assert(meta_lt(table_meta(x), table_meta(out@[pos as int]))
                    || !meta_lt(table_meta(x), table_meta(out@[pos as int])));
            }
        }
        out.insert(pos, x);
        proof {
            lemma_seq_insert_multiset(out0, pos as int, x);
            assert(out@ == out0.insert(pos as int, x));
            assert(out@.to_multiset().add(rest@.to_multiset()) =~= tables@.to_multiset());
        }
        proof {
            assert forall|i: int, j: int| 0 <= i < j < out@.len() implies !meta_lt(
                table_meta(#[trigger] out@[j]),
                table_meta(#[trigger] out@[i]),
            ) by {
                let p = pos as int;
                if j < p {
                    assert(out@[i] == out0[i]);
                    assert(out@[j] == out0[j]);
                } else if i > p {
                    assert(out@[i] == out0[i - 1]);
                    assert(out@[j] == out0[j - 1]);
                } else if i < p && j > p {
                    assert(out@[i] == out0[i]);
                    assert(out@[j] == out0[j - 1]);
                } else if i == p {
                    // x before out0[j-1]: x does not come after it.
                    assert(out@[i] == x);
                    assert(out@[j] == out0[j - 1]);
                    if meta_lt(table_meta(out0[j - 1]), table_meta(x)) {
                        // The loop stopped at pos because x precedes
                        // out0[pos] (when it stopped early).
                        if p < out0.len() {
                            if j - 1 == p {
                                lemma_meta_asym(table_meta(x), table_meta(out0[p]));
                            } else {
                                assert(!meta_lt(table_meta(out0[j - 1]), table_meta(out0[p])));
                                lemma_meta_trans(
                                    table_meta(out0[j - 1]),
                                    table_meta(x),
                                    table_meta(out0[p]),
                                );
                            }
                        }
                    }
                } else {
                    // j == p: elements before pos do not come after x.
                    assert(out@[j] == x);
                    assert(out@[i] == out0[i]);
                    assert(!meta_lt(table_meta(x), table_meta(out0[i])));
                }
            }
        }
    }
    proof {
        assert(rest@.to_multiset() =~= Multiset::<SSTable>::empty());
        assert(out@.to_multiset() =~= tables@.to_multiset());
    }
    out
}

/// The records of a stack of tables, in stack order.
pub open spec fn tables_stack(ts: Seq<SSTable>) -> Seq<Seq<(Seq<u8>, UpdateV)>> {
    ts.map_values(|t: SSTable| t.records())
}

/// The records of a sequence of tables, concatenated in order.
pub open spec fn concat_records(ts: Seq<SSTable>) -> Seq<(Seq<u8>, UpdateV)>
    decreases ts.len(),
{
    if ts.len() == 0 {
        Seq::empty()
    } else {
        ts[0].records() + concat_records(ts.skip(1))
    }
}

/// The records with tombstones removed.
pub open spec fn drop_tombstones(s: Seq<(Seq<u8>, UpdateV)>) -> Seq<(Seq<u8>, UpdateV)>
    decreases s.len(),
{
    if s.len() == 0 {
        Seq::empty()
    } else if s[0].1 is Tombstone {
        drop_tombstones(s.skip(1))
    } else {
        seq![s[0]] + drop_tombstones(s.skip(1))
    }
}

/// The mapping restricted to keys that do not hold a tombstone.
pub open spec fn prune_tombstones(m: Map<Seq<u8>, UpdateV>) -> Map<Seq<u8>, UpdateV> {
    Map::new(|k: Seq<u8>| m.contains_key(k) && !(m[k] is Tombstone), |k: Seq<u8>| m[k])
}

/// Dropping tombstones from sorted records keeps them sorted, keeps every
/// survivor an original record, leaves no tombstone, and denotes the pruned
/// mapping.
pub proof fn lemma_drop_tombstones(s: Seq<(Seq<u8>, UpdateV)>)
    requires
        entries_sorted(s),
    ensures
        entries_sorted(drop_tombstones(s)),
        forall|i: int|
            0 <= i < drop_tombstones(s).len() ==> !((#[trigger] drop_tombstones(s)[i]).1
                is Tombstone) && s.contains(drop_tombstones(s)[i]),
        entries_map(drop_tombstones(s)) == prune_tombstones(entries_map(s)),
    decreases s.len(),
{
    lemma_entries_map_keys(s);
    lemma_entries_map_value(s);
    let r = drop_tombstones(s);
    if s.len() == 0 {
        assert(entries_map(r) =~= prune_tombstones(entries_map(s)));
    } else {
        assert(entries_sorted(s.skip(1))) by {
            assert forall|i: int, j: int| 0 <= i < j < s.skip(1).len() implies lex_lt(
                s.skip(1)[i].0,
                s.skip(1)[j].0,
            ) by {
                assert(s.skip(1)[i] == s[i + 1]);
                assert(s.skip(1)[j] == s[j + 1]);
            }
        }
        lemma_drop_tombstones(s.skip(1));
        lemma_entries_map_keys(s.skip(1));
        let r1 = drop_tombstones(s.skip(1));
        assert(!entries_contains_key(s.skip(1), s[0].0)) by {
            if entries_contains_key(s.skip(1), s[0].0) {
                let i = choose|i: int| 0 <= i < s.skip(1).len() && s.skip(1)[i].0 == s[0].0;
                assert(s.skip(1)[i] == s[i + 1]);
                assert(lex_lt(s[0].0, s[i + 1].0));
                lemma_lex_irreflexive(s[0].0);
            }
        }
        assert(!entries_map(s.skip(1)).contains_key(s[0].0));
        if s[0].1 is Tombstone {
            assert(r == r1);
            assert forall|i: int| 0 <= i < r.len() implies !((#[trigger] r[i]).1 is Tombstone)
                && s.contains(r[i]) by {
                assert(s.skip(1).contains(r1[i]));
                let j = choose|j: int| 0 <= j < s.skip(1).len() && s.skip(1)[j] == r1[i];
                assert(s[j + 1] == r1[i]);
            }
            assert(entries_map(r) =~= prune_tombstones(entries_map(s))) by {
                assert(entries_map(s) == entries_map(s.skip(1)).insert(s[0].0, s[0].1));
            }
        } else {
            assert(r == seq![s[0]] + r1);
            assert(r.skip(1) =~= r1);
            assert(r[0] == s[0]);
            assert(entries_sorted(r)) by {
                assert forall|i: int, j: int| 0 <= i < j < r.len() implies lex_lt(
                    r[i].0,
                    r[j].0,
                ) by {
                    if i == 0 {
                        assert(r[j] == r1[j - 1]);
                        assert(s.skip(1).contains(r1[j - 1]));
                        let q = choose|q: int|
                            0 <= q < s.skip(1).len() && s.skip(1)[q] == r1[j - 1];
                        assert(s[q + 1] == r1[j - 1]);
                        assert(lex_lt(s[0].0, s[q + 1].0));
                    } else {
                        assert(r[i] == r1[i - 1]);
                        assert(r[j] == r1[j - 1]);
                    }
                }
            }
            assert forall|i: int| 0 <= i < r.len() implies !((#[trigger] r[i]).1 is Tombstone)
                && s.contains(r[i]) by {
                if i == 0 {
                    assert(s[0] == r[0]);
                } else {
                    assert(r[i] == r1[i - 1]);
                    assert(s.skip(1).contains(r1[i - 1]));
                    let j = choose|j: int| 0 <= j < s.skip(1).len() && s.skip(1)[j] == r1[i - 1];
                    assert(s[j + 1] == r1[i - 1]);
                }
            }
            assert(entries_map(r) == entries_map(r1).insert(s[0].0, s[0].1));
            assert(entries_map(s) == entries_map(s.skip(1)).insert(s[0].0, s[0].1));
            assert(entries_map(r) =~= prune_tombstones(entries_map(s)));
        }
    }
}

/// A group of loaded tables, held in merge priority order.
pub struct SSTGroup {
    sstables: Vec<SSTable>,
}

impl SSTGroup {
    /// The tables of the group, in priority order.
    pub closed spec fn tables(self) -> Seq<SSTable> {
        self.sstables@
    }

    /// Every table well formed and the order is by merge priority.
    pub open spec fn wf(self) -> bool {
        &&& forall|i: int| 0 <= i < self.tables().len() ==> (#[trigger] self.tables()[i]).wf()
        &&& forall|i: int, j: int|
            0 <= i < j < self.tables().len() ==> !meta_lt(
                table_meta(#[trigger] self.tables()[j]),
                table_meta(#[trigger] self.tables()[i]),
            )
    }

    /// The mapping the group denotes: younger and shallower tables win.
    pub open spec fn model(self) -> Map<Seq<u8>, UpdateV> {
        stacked_map(tables_stack(self.tables()))
    }

    /// Takes ownership of loaded tables and orders them by merge priority.
    pub fn new(tables: Vec<SSTable>) -> (r: SSTGroup)
        requires
            forall|i: int| 0 <= i < tables@.len() ==> (#[trigger] tables@[i]).wf(),
        ensures
            r.wf(),
            r.tables().to_multiset() == tables@.to_multiset(),
    {
        SSTGroup { sstables: sort_tables(tables) }
    }

    /// Returns the highest-priority update for the key, a tombstone
    /// included.
    #[verifier::loop_isolation(false)]
    pub fn get(&self, key: &Vec<u8>) -> (r: Option<ValueUpdate>)
        requires
            self.wf(),
        ensures
            match r {
                None => !self.model().contains_key(key@),
                Some(u) => self.model().contains_key(key@) && self.model()[key@] == u@,
            },
    {
        let ghost stack = tables_stack(self.tables());
        proof {
            lemma_stacked_keys(stack);
        }
        let mut t: usize = 0;
        while t < self.sstables.len()
            invariant
                0 <= t <= self.tables().len(),
                forall|t2: int|
                    0 <= t2 < t ==> !entries_contains_key(
                        #[trigger] stack[t2],
                        key@,
                    ),
            decreases self.tables().len() - t,
        {
            proof {
                assert(stack[t as int] == self.tables()[t as int].records());
                lemma_entries_map_keys(stack[t as int]);
            }
            match self.sstables[t].get(key) {
                Some(u) => {
                    proof {
                        assert(entries_contains_key(stack[t as int], key@));
                        lemma_stacked_value(stack, t as int, key@);
                        assert(entries_map(stack[t as int])[key@] == u@);
                    }
                    return Some(u);
                }
                None => {}
            }
            t = t + 1;
        }
        proof {
            if self.model().contains_key(key@) {
                let t2 = choose|t2: int|
                    0 <= t2 < stack.len() && entries_contains_key(#[trigger] stack[t2], key@);
                assert(!entries_contains_key(stack[t2], key@));
            }
        }
        None
    }

    /// The records of every table, as plain vectors in priority order.
    fn record_lists(&self) -> (r: Vec<Vec<(Vec<u8>, ValueUpdate)>>)
        requires
            self.wf(),
        ensures
            lists_view(r@) == tables_stack(self.tables()),
            r@.len() == self.tables().len(),
    {
        let mut r: Vec<Vec<(Vec<u8>, ValueUpdate)>> = Vec::new();
        let mut t: usize = 0;
        while t < self.sstables.len()
            invariant
                self.wf(),
                0 <= t <= self.tables().len(),
                r@.len() == t,
                forall|t2: int|
                    0 <= t2 < t ==> #[trigger] lists_view(r@)[t2] == tables_stack(
                        self.tables(),
                    )[t2],
            decreases self.tables().len() - t,
        {
            let ghost prev = lists_view(r@);
            let recs = self.sstables[t].records_vec();
            r.push(recs);
            proof {
                assert forall|t2: int| 0 <= t2 < t + 1 implies #[trigger] lists_view(r@)[t2]
                    == tables_stack(self.tables())[t2] by {
                    if t2 < t {
                        assert(lists_view(r@)[t2] == prev[t2]);
                    } else {
                        assert(lists_view(r@)[t2] == entries_vec_view(r@[t2]@));
                    }
                }
            }
            t = t + 1;
        }
        proof {
            assert(lists_view(r@) =~= tables_stack(self.tables()));
        }
        r
    }

    /// The merged records of the group, deduplicated by key with the
    /// highest-priority variant kept.
    pub fn merged_entries(&self) -> (out: Vec<(Vec<u8>, ValueUpdate)>)
        requires
            self.wf(),
        ensures
            entries_sorted(entries_vec_view(out@)),
            entries_map(entries_vec_view(out@)) == self.model(),
            forall|i: int|
                0 <= i < out@.len() ==> exists|t: int, j: int|
                    0 <= t < self.tables().len() && 0 <= j < self.tables()[t].records().len()
                        && #[trigger] entries_vec_view(out@)[i]
                        == self.tables()[t].records()[j],
            out@.len() <= lists_total(tables_stack(self.tables())),
    {
        let lists = self.record_lists();
        proof {
            assert forall|t: int| 0 <= t < lists@.len() implies entries_sorted(
                entries_vec_view(#[trigger] lists@[t]@),
            ) by {
                assert(lists_view(lists@)[t] == entries_vec_view(lists@[t]@));
                assert(lists_view(lists@)[t] == self.tables()[t].records());
            }
        }
        let out = merge_entry_lists(&lists);
        proof {
            assert forall|i: int| 0 <= i < out@.len() implies exists|t: int, j: int|
                0 <= t < self.tables().len() && 0 <= j < self.tables()[t].records().len()
                    && #[trigger] entries_vec_view(out@)[i]
                    == self.tables()[t].records()[j] by {
                let (t2, j2) = choose|t2: int, j2: int|
                    0 <= t2 < lists@.len() && 0 <= j2 < lists_view(lists@)[t2].len()
                        && entries_vec_view(out@)[i] == lists_view(lists@)[t2][j2];
                assert(lists_view(lists@)[t2] == tables_stack(self.tables())[t2]);
                let tt = self.tables()[t2];
                assert(0 <= t2 < self.tables().len() && 0 <= j2 < tt.records().len()
                    && entries_vec_view(out@)[i] == tt.records()[j2]);
            }
        }
        out
    }
}

/// The total record count of a stack of record sequences.
pub open spec fn lists_total(ls: Seq<Seq<(Seq<u8>, UpdateV)>>) -> int
    decreases ls.len(),
{
    if ls.len() == 0 {
        0
    } else {
        ls[0].len() + lists_total(ls.skip(1))
    }
}

/// With every cursor at zero, everything remains.
pub proof fn lemma_remaining_total(ls: Seq<Seq<(Seq<u8>, UpdateV)>>, cur: Seq<usize>)
    requires
        cur.len() == ls.len(),
        forall|t: int| 0 <= t < ls.len() ==> #[trigger] cur[t] == 0,
    ensures
        remaining_count(ls, cur) == lists_total(ls),
    decreases ls.len(),
{
    if ls.len() > 0 {
        assert forall|t: int| 0 <= t < ls.skip(1).len() implies #[trigger] cur.skip(1)[t]
            == 0 by {
            assert(cur.skip(1)[t] == cur[t + 1]);
        }
        lemma_remaining_total(ls.skip(1), cur.skip(1));
    }
}

/// Whether every record of every table encodes within one output file.
pub open spec fn group_records_bounded(ts: Seq<SSTable>) -> bool {
    forall|t: int, j: int|
        0 <= t < ts.len() && 0 <= j < ts[t].records().len() ==> enc_record(
            (#[trigger] ts[t].records()[j]).0,
            ts[t].records()[j].1,
        ).len() <= SSTABLE_FILE_SIZE
}

/// The encoded byte length of one record.
fn encoded_record_len(k: &Vec<u8>, u: &ValueUpdate) -> (r: u64)
    requires
        enc_record(k@, u@).len() <= SSTABLE_FILE_SIZE,
    ensures
        r == enc_record(k@, u@).len(),
{
    proof {
        lemma_enc_record_len(k@, u@);
        assert(k.len() == k@.len());
    }
    match u {
        ValueUpdate::Tombstone => 9 + k.len() as u64,
        ValueUpdate::Value(v) => {
            proof {
                assert(v.len() == v@.len());
            }
            17 + k.len() as u64 + v.len() as u64
        }
    }
}

/// Concatenation of table records distributes over push.
pub proof fn lemma_concat_records_push(ts: Seq<SSTable>, t: SSTable)
    ensures
        concat_records(ts.push(t)) == concat_records(ts) + t.records(),
    decreases ts.len(),
{
    if ts.len() == 0 {
        assert(ts.push(t).skip(1) =~= Seq::<SSTable>::empty());
        assert(concat_records(ts.push(t)) == t.records() + concat_records(
            ts.push(t).skip(1),
        ));
        assert(t.records() + Seq::<(Seq<u8>, UpdateV)>::empty() =~= t.records());
        assert(concat_records(ts) + t.records() =~= t.records());
    } else {
        assert(ts.push(t).skip(1) =~= ts.skip(1).push(t));
        assert(ts.push(t)[0] == ts[0]);
        lemma_concat_records_push(ts.skip(1), t);
        assert(ts[0].records() + (concat_records(ts.skip(1)) + t.records()) =~= (
        ts[0].records() + concat_records(ts.skip(1))) + t.records());
    }
}

impl SSTGroup {
    /// Merges the group into new tables at `dest_level`, with ids counting
    /// up from `first_id`: records are emitted in ascending key order into
    /// the current output until the next record would push its records
    /// section past `SSTABLE_FILE_SIZE`, whereupon a new output begins.
    /// When `purge` is set (the destination is the deepest level),
    /// tombstones are dropped.
    #[verifier::loop_isolation(false)]
    #[verifier::rlimit(100)]
    #[verifier::spinoff_prover]
    pub fn compact(&self, dest_level: u64, first_id: u64, purge: bool) -> (outs: Vec<SSTable>)
        requires
            self.wf(),
            group_records_bounded(self.tables()),
            first_id + lists_total(tables_stack(self.tables())) <= u64::MAX,
        ensures
            forall|i: int|
                0 <= i < outs@.len() ==> (#[trigger] outs@[i]).wf() && outs@[i].spec_id()
                    == (SstId { level: dest_level, id: (first_id + i) as u64 })
                    && outs@[i].records_bytes().len() <= SSTABLE_FILE_SIZE,
            purge ==> forall|i: int, j: int|
                0 <= i < outs@.len() && 0 <= j < (#[trigger] outs@[i]).records().len() ==> !((
                #[trigger] outs@[i].records()[j]).1 is Tombstone),
            entries_sorted(concat_records(outs@)),
            !purge ==> entries_map(concat_records(outs@)) == self.model(),
            purge ==> entries_map(concat_records(outs@)) == prune_tombstones(self.model()),
    {
        let merged = self.merged_entries();
        let ghost mv = entries_vec_view(merged@);
        proof {
            // Every merged record is an input record, so its encoding fits.
            assert forall|i: int| 0 <= i < mv.len() implies enc_record(
                (#[trigger] mv[i]).0,
                mv[i].1,
            ).len() <= SSTABLE_FILE_SIZE by {
                let (t2, j2) = choose|t2: int, j2: int|
                    0 <= t2 < self.tables().len() && 0 <= j2 < self.tables()[t2].records().len()
                        && mv[i] == self.tables()[t2].records()[j2];
                let tt = self.tables()[t2];
                assert(enc_record(tt.records()[j2].0, tt.records()[j2].1).len()
                    <= SSTABLE_FILE_SIZE);
            }
        }
        // Purge tombstones when merging into the deepest level.
        let entries = if purge {
            purge_entries(&merged)
        } else {
            merged
        };
        let ghost ev = entries_vec_view(entries@);
        proof {
            if purge {
                assert(ev == drop_tombstones(mv));
                lemma_drop_tombstones(mv);
                assert forall|i: int| 0 <= i < ev.len() implies enc_record(
                    (#[trigger] ev[i]).0,
                    ev[i].1,
                ).len() <= SSTABLE_FILE_SIZE by {
                    assert(mv.contains(ev[i]));
                    let q = choose|q: int| 0 <= q < mv.len() && mv[q] == ev[i];
                    assert(enc_record(mv[q].0, mv[q].1).len() <= SSTABLE_FILE_SIZE);
                }
            } else {
                assert(ev == mv);
            }
            assert(entries_sorted(ev)) by {
                if purge {
                    lemma_drop_tombstones(mv);
                }
            }
            assert(ev.len() <= mv.len());
            assert(mv.len() <= lists_total(tables_stack(self.tables())));
        }
        let outs = split_into_tables(&entries, dest_level, first_id);
        proof {
            assert(concat_records(outs@) == ev);
            if purge {
                lemma_drop_tombstones(mv);
                assert forall|q: int, j: int|
                    0 <= q < outs@.len() && 0 <= j < (#[trigger] outs@[q]).records().len()
                    implies !((#[trigger] outs@[q].records()[j]).1 is Tombstone) by {
                    lemma_concat_member(outs@, q, j);
                    let p = choose|p: int|
                        0 <= p < concat_records(outs@).len() && concat_records(outs@)[p]
                            == outs@[q].records()[j];
                    assert(!(ev[p].1 is Tombstone));
                }
            }
        }
        outs
    }
}

/// Each record encodes within its accounted size, so a whole record
/// sequence encodes within the memtable's accounted size.
pub proof fn lemma_enc_entries_le_size(s: Seq<(Seq<u8>, UpdateV)>)
    ensures
        0 <= enc_entries(s).len() <= crate::memtable::entries_size(s),
    decreases s.len(),
{
    if s.len() > 0 {
        lemma_enc_entries_le_size(s.skip(1));
        lemma_enc_record_len(s[0].0, s[0].1);
    }
}

/// An encoded record sequence never has negative length.
pub proof fn lemma_enc_entries_nonneg(s: Seq<(Seq<u8>, UpdateV)>)
    ensures
        enc_entries(s).len() >= 0,
    decreases s.len(),
{
    if s.len() > 0 {
        lemma_enc_entries_nonneg(s.skip(1));
    }
}

/// Every record of a member table occurs in the concatenation.
pub proof fn lemma_concat_member(ts: Seq<SSTable>, q: int, j: int)
    requires
        0 <= q < ts.len(),
        0 <= j < ts[q].records().len(),
    ensures
        exists|p: int|
            0 <= p < concat_records(ts).len() && concat_records(ts)[p] == ts[q].records()[j],
    decreases q,
{
    if q == 0 {
        assert(concat_records(ts)[j] == ts[0].records()[j]);
    } else {
        lemma_concat_member(ts.skip(1), q - 1, j);
        assert(ts.skip(1)[q - 1] == ts[q]);
        let p1 = choose|p1: int|
            0 <= p1 < concat_records(ts.skip(1)).len() && concat_records(ts.skip(1))[p1]
                == ts[q].records()[j];
        assert(concat_records(ts)[ts[0].records().len() + p1] == concat_records(
            ts.skip(1),
        )[p1]);
    }
}

/// The records with every tombstone dropped, as a fresh vector.
#[verifier::loop_isolation(false)]
fn purge_entries(merged: &Vec<(Vec<u8>, ValueUpdate)>) -> (kept: Vec<(Vec<u8>, ValueUpdate)>)
    ensures
        entries_vec_view(kept@) == drop_tombstones(entries_vec_view(merged@)),
        kept@.len() <= merged@.len(),
{
    let ghost mv = entries_vec_view(merged@);
    let mut kept: Vec<(Vec<u8>, ValueUpdate)> = Vec::new();
    let mut i: usize = 0;
    proof {
        assert(mv.skip(0) =~= mv);
        assert(entries_vec_view(kept@) =~= Seq::<(Seq<u8>, UpdateV)>::empty());
    }
    while i < merged.len()
        invariant
            0 <= i <= merged@.len(),
            kept@.len() <= i,
            drop_tombstones(mv) == entries_vec_view(kept@) + drop_tombstones(mv.skip(i as int)),
        decreases merged@.len() - i,
    {
        let ghost kv = entries_vec_view(kept@);
        let tomb = match &merged[i].1 {
            ValueUpdate::Tombstone => true,
            ValueUpdate::Value(_) => false,
        };
        proof {
            assert(mv[i as int] == (merged@[i as int].0@, merged@[i as int].1@));
            assert(mv.skip(i as int)[0] == mv[i as int]);
            assert(mv.skip(i as int).skip(1) =~= mv.skip(i + 1));
        }
        if !tomb {
            kept.push((merged[i].0.clone(), merged[i].1.clone()));
            proof {
                assert(entries_vec_view(kept@) =~= kv.push(mv[i as int]));
                assert(kv.push(mv[i as int]) + drop_tombstones(mv.skip(i + 1)) =~= kv + (seq![
                    mv[i as int],
                ] + drop_tombstones(mv.skip(i + 1))));
            }
        }
        i = i + 1;
    }
    proof {
        assert(mv.skip(merged@.len() as int).len() == 0);
        assert(drop_tombstones(mv.skip(merged@.len() as int)) == Seq::<
            (Seq<u8>, UpdateV),
        >::empty());
        assert(entries_vec_view(kept@) + Seq::<(Seq<u8>, UpdateV)>::empty() =~=
        entries_vec_view(kept@));
    }
    kept
}

/// A forward cursor over one table's records.
pub struct SSTableIter<'a> {
    table: &'a SSTable,
    pos: usize,
    j: Ghost<int>,
}

impl<'a> SSTableIter<'a> {
    /// The records not yet yielded.
    pub closed spec fn remaining(self) -> Seq<(Seq<u8>, UpdateV)> {
        self.table.records().skip(self.j@)
    }

    pub closed spec fn wf(self) -> bool {
        &&& self.table.wf()
        &&& 0 <= self.j@ <= self.table.records().len()
        &&& self.pos == parse_off(self.table.records_bytes(), self.j@)
    }

    /// Yields the next record, in ascending key order.
    pub fn next(&mut self) -> (r: Option<(Vec<u8>, ValueUpdate)>)
        requires
            old(self).wf(),
        ensures
            final(self).wf(),
            match r {
                None => old(self).remaining().len() == 0 && final(self).remaining()
                    == old(self).remaining(),
                Some(kv) => {
                    &&& old(self).remaining().len() > 0
                    &&& (kv.0@, kv.1@) == old(self).remaining()[0]
                    &&& final(self).remaining() == old(self).remaining().skip(1)
                },
            },
    {
        let ghost recs = self.table.records();
        proof {
            lemma_parse_records_skip(self.table.buf@, self.j@);
        }
        if self.pos >= self.table.buf.len() {
            proof {
                if self.j@ < recs.len() {
                    lemma_parse_off_mono(self.table.buf@, self.j@, recs.len() as int);
                    lemma_parse_records_skip(self.table.buf@, recs.len() as int);
                    let e = parse_off(self.table.buf@, recs.len() as int);
                    if e < self.table.buf@.len() {
                        assert(parse_records(self.table.buf@.skip(e)) == Some(
                            recs.skip(recs.len() as int),
                        ));
                        assert(self.table.buf@.skip(e).len() > 0);
                        assert(parse_records(self.table.buf@.skip(e)).unwrap().len() > 0);
                        assert(false);
                    }
                    // The next record starts before the end of the buffer.
                    assert(parse_off(self.table.buf@, self.j@) < e);
                    assert(false);
                }
                assert(recs.skip(self.j@).len() == 0);
            }
            return None;
        }
        proof {
            if self.j@ == recs.len() {
                assert(parse_records(self.table.buf@.skip(self.pos as int)) == Some(
                    recs.skip(self.j@),
                ));
                assert(self.table.buf@.skip(self.pos as int).len() > 0);
                assert(parse_records(self.table.buf@.skip(self.pos as int)).unwrap().len() > 0);
                assert(false);
            }
        }
        match decode_record(&self.table.buf, self.pos) {
            None => {
                proof {
                    assert(parse_record(self.table.buf@.skip(self.pos as int)) is Some);
                    assert(false);
                }
                None
            }
            Some(((k, u), end)) => {
                proof {
                    assert((k@, u@) == recs[self.j@]);
                    assert(recs.skip(self.j@)[0] == recs[self.j@]);
                    assert(recs.skip(self.j@).skip(1) =~= recs.skip(self.j@ + 1));
                }
                self.pos = end;
                proof {
                    self.j@ = self.j@ + 1;
                }
                Some((k, u))
            }
        }
    }
}

impl SSTable {
    /// A cursor over the records, from the first.
    pub fn iter(&self) -> (r: SSTableIter<'_>)
        requires
            self.wf(),
        ensures
            r.wf(),
            r.remaining() == self.records(),
    {
        let r = SSTableIter { table: self, pos: 0, j: Ghost(0int) };
        proof {
            assert(r.remaining() =~= self.records());
        }
        r
    }
}

/// The merged records of a group, yielded one at a time.
pub struct SSTGroupIter {
    entries: Vec<(Vec<u8>, ValueUpdate)>,
    pos: usize,
}

impl SSTGroupIter {
    /// The records not yet yielded.
    pub closed spec fn remaining(self) -> Seq<(Seq<u8>, UpdateV)> {
        entries_vec_view(self.entries@).skip(self.pos as int)
    }

    pub closed spec fn wf(self) -> bool {
        0 <= self.pos <= self.entries@.len()
    }

    /// Yields the next merged record.
    pub fn next(&mut self) -> (r: Option<(Vec<u8>, ValueUpdate)>)
        requires
            old(self).wf(),
        ensures
            final(self).wf(),
            match r {
                None => old(self).remaining().len() == 0 && final(self).remaining()
                    == old(self).remaining(),
                Some(kv) => {
                    &&& old(self).remaining().len() > 0
                    &&& (kv.0@, kv.1@) == old(self).remaining()[0]
                    &&& final(self).remaining() == old(self).remaining().skip(1)
                },
            },
    {
        if self.pos >= self.entries.len() {
            return None;
        }
        let kv = (self.entries[self.pos].0.clone(), self.entries[self.pos].1.clone());
        proof {
            let ev = entries_vec_view(self.entries@);
            assert(ev[self.pos as int] == (self.entries@[self.pos as int].0@, self.entries@[
                self.pos as int].1@));
            assert(ev.skip(self.pos as int)[0] == ev[self.pos as int]);
            assert(ev.skip(self.pos as int).skip(1) =~= ev.skip(self.pos + 1));
        }
        self.pos = self.pos + 1;
        Some(kv)
    }
}

impl SSTGroup {
    /// A merged, deduplicated cursor over the whole group.
    pub fn iter(&self) -> (r: SSTGroupIter)
        requires
            self.wf(),
        ensures
            r.wf(),
            entries_sorted(r.remaining()),
            entries_map(r.remaining()) == self.model(),
    {
        let entries = self.merged_entries();
        let r = SSTGroupIter { entries, pos: 0 };
        proof {
            assert(r.remaining() =~= entries_vec_view(r.entries@));
        }
        r
    }
}

/// A merge over arbitrary record streams, used to compose memtable and SST
/// iteration for full scans.  Earlier streams win on a shared key.
pub struct GeneralCombinedIter {
    entries: Vec<(Vec<u8>, ValueUpdate)>,
    pos: usize,
}

impl GeneralCombinedIter {
    /// The records not yet yielded.
    pub closed spec fn remaining(self) -> Seq<(Seq<u8>, UpdateV)> {
        entries_vec_view(self.entries@).skip(self.pos as int)
    }

    pub closed spec fn wf(self) -> bool {
        0 <= self.pos <= self.entries@.len()
    }

    /// Merges the given sorted record streams.
    pub fn new(iters: Vec<Vec<(Vec<u8>, ValueUpdate)>>) -> (r: GeneralCombinedIter)
        requires
            forall|t: int|
                0 <= t < iters@.len() ==> entries_sorted(entries_vec_view(
                    (#[trigger] iters@[t])@,
                )),
        ensures
            r.wf(),
            entries_sorted(r.remaining()),
            entries_map(r.remaining()) == stacked_map(lists_view(iters@)),
    {
        let entries = merge_entry_lists(&iters);
        let r = GeneralCombinedIter { entries, pos: 0 };
        proof {
            assert(r.remaining() =~= entries_vec_view(r.entries@));
        }
        r
    }

    /// Yields the next merged record.
    pub fn next(&mut self) -> (r: Option<(Vec<u8>, ValueUpdate)>)
        requires
            old(self).wf(),
        ensures
            final(self).wf(),
            match r {
                None => old(self).remaining().len() == 0 && final(self).remaining()
                    == old(self).remaining(),
                Some(kv) => {
                    &&& old(self).remaining().len() > 0
                    &&& (kv.0@, kv.1@) == old(self).remaining()[0]
                    &&& final(self).remaining() == old(self).remaining().skip(1)
                },
            },
    {
        if self.pos >= self.entries.len() {
            return None;
        }
        let kv = (self.entries[self.pos].0.clone(), self.entries[self.pos].1.clone());
        proof {
            let ev = entries_vec_view(self.entries@);
            assert(ev[self.pos as int] == (self.entries@[self.pos as int].0@, self.entries@[
                self.pos as int].1@));
            assert(ev.skip(self.pos as int)[0] == ev[self.pos as int]);
            assert(ev.skip(self.pos as int).skip(1) =~= ev.skip(self.pos + 1));
        }
        self.pos = self.pos + 1;
        Some(kv)
    }
}

/// The tables of one level at or past the first, iterated lazily: the
/// embedding application loads one table at a time, so at most one table's
/// records are in memory.  Correct because ranges within a level are
/// disjoint and the identities are handed over in ascending first-key order.
pub struct SSTLevelGroup {
    ids: Vec<SstId>,
}

impl SSTLevelGroup {
    /// The identities still to be visited.
    pub closed spec fn spec_ids(self) -> Seq<SstId> {
        self.ids@
    }

    /// Takes the identities to visit and orders them by merge priority
    /// through the catalog's recorded ranges: within a level past the
    /// first, ascending first-key order, which the lazy cursor relies on.
    pub fn new(ids: Vec<SstId>, manifest: &crate::manifest::Manifest) -> (r: SSTLevelGroup)
        requires
            manifest.wf(),
            forall|q: int|
                0 <= q < ids@.len() ==> crate::manifest::live_has(
                    manifest.live(),
                    #[trigger] ids@[q],
                ),
        ensures
            r.spec_ids().to_multiset() == ids@.to_multiset(),
            forall|q: int|
                0 <= q < r.spec_ids().len() ==> crate::manifest::live_has(
                    manifest.live(),
                    #[trigger] r.spec_ids()[q],
                ),
            forall|i: int, j: int|
                0 <= i < j < r.spec_ids().len() ==> !meta_lt(
                    manifest.id_meta(#[trigger] r.spec_ids()[j]),
                    manifest.id_meta(#[trigger] r.spec_ids()[i]),
                ),
    {
        SSTLevelGroup { ids: manifest.sort(&ids) }
    }

    /// Begins a lazy iteration.
    pub fn iter(&self) -> (r: SSTLevelGroupIter)
        ensures
            r.wf(),
            r.pending_ids() == self.spec_ids(),
            r.current_remaining().len() == 0,
    {
        let r = SSTLevelGroupIter { ids: copy_sst_ids(&self.ids), idx: 0, current: None, pos: 0, j: Ghost(0int) };
        proof {
            assert(r.pending_ids() =~= self.spec_ids());
        }
        r
    }
}

/// Copies a vector of identities.
pub fn copy_sst_ids(ids: &Vec<SstId>) -> (r: Vec<SstId>)
    ensures
        r@ == ids@,
{
    let mut r: Vec<SstId> = Vec::new();
    let mut i: usize = 0;
    while i < ids.len()
        invariant
            0 <= i <= ids@.len(),
            r@ == ids@.take(i as int),
        decreases ids@.len() - i,
    {
        r.push(ids[i]);
        proof {
            assert(ids@.take(i + 1) =~= ids@.take(i as int).push(ids@[i as int]));
        }
        i = i + 1;
    }
    proof {
        assert(ids@.take(ids@.len() as int) =~= ids@);
    }
    r
}

/// The lazy level cursor: a state machine owning at most one loaded table.
/// When the current table is exhausted, the caller fetches the next wanted
/// identity, loads that file, and hands the table in.
pub struct SSTLevelGroupIter {
    ids: Vec<SstId>,
    idx: usize,
    current: Option<SSTable>,
    pos: usize,
    j: Ghost<int>,
}

impl SSTLevelGroupIter {
    /// The identities not yet loaded.
    pub closed spec fn pending_ids(self) -> Seq<SstId> {
        self.ids@.skip(self.idx as int)
    }

    /// The records of the loaded table not yet yielded.
    pub closed spec fn current_remaining(self) -> Seq<(Seq<u8>, UpdateV)> {
        match self.current {
            None => Seq::empty(),
            Some(t) => t.records().skip(self.j@),
        }
    }

    pub closed spec fn wf(self) -> bool {
        &&& self.idx <= self.ids@.len()
        &&& match self.current {
            None => true,
            Some(t) => t.wf() && 0 <= self.j@ <= t.records().len() && self.pos == parse_off(
                t.records_bytes(),
                self.j@,
            ),
        }
    }

    /// The identity the iterator wants loaded next, once the current table
    /// is exhausted; nothing when the level is fully consumed.
    pub fn next_wanted(&self) -> (r: Option<SstId>)
        requires
            self.wf(),
        ensures
            match r {
                None => self.pending_ids().len() == 0,
                Some(id) => self.pending_ids().len() > 0 && id == self.pending_ids()[0],
            },
    {
        if self.idx < self.ids.len() {
            Some(self.ids[self.idx])
        } else {
            None
        }
    }

    /// Installs the table loaded for the wanted identity.
    pub fn provide(&mut self, t: SSTable)
        requires
            old(self).wf(),
            t.wf(),
            old(self).pending_ids().len() > 0,
        ensures
            final(self).wf(),
            final(self).pending_ids() == old(self).pending_ids().skip(1),
            final(self).current_remaining() == t.records(),
    {
        self.current = Some(t);
        self.pos = 0;
        proof {
            self.j@ = 0;
            assert(old(self).ids@.skip(old(self).idx as int).len() > 0);
            assert(self.idx < self.ids@.len());
            assert(self.ids.len() == self.ids@.len());
        }
        self.idx = self.idx + 1;
        proof {
            assert(self.pending_ids() =~= old(self).pending_ids().skip(1));
            assert(self.current_remaining() =~= self.current.unwrap().records());
        }
    }

    /// Yields the next record of the loaded table; nothing once the table
    /// is exhausted, whereupon the caller loads the next wanted identity.
    pub fn next(&mut self) -> (r: Option<(Vec<u8>, ValueUpdate)>)
        requires
            old(self).wf(),
        ensures
            final(self).wf(),
            final(self).pending_ids() == old(self).pending_ids(),
            match r {
                None => old(self).current_remaining().len() == 0
                    && final(self).current_remaining() == old(self).current_remaining(),
                Some(kv) => {
                    &&& old(self).current_remaining().len() > 0
                    &&& (kv.0@, kv.1@) == old(self).current_remaining()[0]
                    &&& final(self).current_remaining() == old(self).current_remaining().skip(1)
                },
            },
    {
        let pos = self.pos;
        let ghost gj = self.j@;
        let step = match &self.current {
            None => None,
            Some(t) => {
                let ghost recs = t.records();
                proof {
                    lemma_parse_records_skip(t.buf@, gj);
                }
                if pos >= t.buf.len() {
                    proof {
                        if gj < recs.len() {
                            lemma_parse_off_mono(t.buf@, gj, recs.len() as int);
                            lemma_parse_records_skip(t.buf@, recs.len() as int);
                            let e = parse_off(t.buf@, recs.len() as int);
                            if e < t.buf@.len() {
                                assert(parse_records(t.buf@.skip(e)) == Some(
                                    recs.skip(recs.len() as int),
                                ));
                                assert(t.buf@.skip(e).len() > 0);
                                assert(parse_records(t.buf@.skip(e)).unwrap().len() > 0);
                                assert(false);
                            }
                            assert(parse_off(t.buf@, gj) < e);
                            assert(false);
                        }
                        assert(recs.skip(gj).len() == 0);
                    }
                    None
                } else {
                    proof {
                        if gj == recs.len() {
                            assert(parse_records(t.buf@.skip(pos as int)) == Some(
                                recs.skip(gj),
                            ));
                            assert(t.buf@.skip(pos as int).len() > 0);
                            assert(parse_records(t.buf@.skip(pos as int)).unwrap().len() > 0);
                            assert(false);
                        }
                    }
                    match decode_record(&t.buf, pos) {
                        None => {
                            proof {
                                assert(parse_record(t.buf@.skip(pos as int)) is Some);
                                assert(false);
                            }
                            None
                        }
                        Some(((k, u), end)) => {
                            proof {
                                assert((k@, u@) == recs[gj]);
                                assert(recs.skip(gj)[0] == recs[gj]);
                                assert(recs.skip(gj).skip(1) =~= recs.skip(gj + 1));
                            }
                            Some(((k, u), end))
                        }
                    }
                }
            }
        };
        match step {
            None => None,
            Some(((k, u), end)) => {
                self.pos = end;
                proof {
                    self.j@ = gj + 1;
                }
                Some((k, u))
            }
        }
    }
}

/// The number of records in the tables before position `q`.
pub open spec fn recs_before(ts: Seq<SSTable>, q: int) -> int
    decreases q,
{
    if q <= 0 {
        0
    } else {
        recs_before(ts, q - 1) + ts[q - 1].records().len()
    }
}

proof fn lemma_recs_before_skip(ts: Seq<SSTable>, q: int)
    requires
        1 <= q <= ts.len(),
    ensures
        recs_before(ts, q) == ts[0].records().len() + recs_before(ts.skip(1), q - 1),
    decreases q,
{
    if q == 1 {
        assert(recs_before(ts, 0) == 0);
        assert(recs_before(ts.skip(1), 0) == 0);
        assert(ts.skip(1) =~= ts.skip(1));
    } else {
        lemma_recs_before_skip(ts, q - 1);
        assert(ts.skip(1)[q - 2] == ts[q - 1]);
        assert(recs_before(ts.skip(1), q - 1) == recs_before(ts.skip(1), q - 2) + ts.skip(1)[q
            - 2].records().len());
    }
}

/// Each record of each table stands at its offset in the concatenation.
proof fn lemma_concat_at(ts: Seq<SSTable>, q: int, r: int)
    requires
        0 <= q < ts.len(),
        0 <= r < ts[q].records().len(),
    ensures
        0 <= recs_before(ts, q) + r < concat_records(ts).len(),
        concat_records(ts)[recs_before(ts, q) + r] == ts[q].records()[r],
    decreases q,
{
    lemma_concat_len(ts);
    if q == 0 {
        assert(concat_records(ts)[r] == ts[0].records()[r]);
    } else {
        lemma_recs_before_skip(ts, q);
        lemma_concat_at(ts.skip(1), q - 1, r);
        assert(ts.skip(1)[q - 1] == ts[q]);
        assert(concat_records(ts)[ts[0].records().len() + (recs_before(ts.skip(1), q - 1) + r)]
            == concat_records(ts.skip(1))[recs_before(ts.skip(1), q - 1) + r]);
    }
}

/// The concatenation holds exactly the records of every table.
proof fn lemma_concat_len(ts: Seq<SSTable>)
    ensures
        concat_records(ts).len() == recs_before(ts, ts.len() as int),
        forall|q: int| 0 <= q <= ts.len() ==> 0 <= #[trigger] recs_before(ts, q) && (q
            < ts.len() ==> recs_before(ts, q) + ts[q].records().len() == recs_before(
            ts,
            q + 1,
        )),
        forall|a: int, b: int|
            0 <= a <= b <= ts.len() ==> #[trigger] recs_before(ts, a) <= #[trigger] recs_before(ts, b),
    decreases ts.len(),
{
    if ts.len() > 0 {
        lemma_concat_len(ts.skip(1));
        assert forall|q: int| 1 <= q <= ts.len() implies recs_before(ts, q)
            == ts[0].records().len() + recs_before(ts.skip(1), q - 1) by {
            lemma_recs_before_skip(ts, q);
        }
        assert forall|q: int| 0 <= q <= ts.len() implies 0 <= #[trigger] recs_before(ts, q)
            && (q < ts.len() ==> recs_before(ts, q) + ts[q].records().len() == recs_before(
            ts,
            q + 1,
        )) by {
            if q > 0 {
                assert(ts.skip(1)[q - 1] == ts[q] || q == ts.len());
            }
        }
        assert forall|a: int, b: int| 0 <= a <= b <= ts.len() implies #[trigger] recs_before(
            ts,
            a,
        ) <= #[trigger] recs_before(ts, b) by {
            if a >= 1 {
                assert(recs_before(ts.skip(1), a - 1) <= recs_before(ts.skip(1), b - 1));
            } else if b >= 1 {
                assert(0 <= recs_before(ts.skip(1), b - 1));
            }
        }
    }
}

/// Intra-level disjointness of a compaction's outputs: tables whose
/// concatenated records ascend strictly have pairwise disjoint key ranges,
/// each ending strictly before the next begins.
pub proof fn lemma_outputs_disjoint(ts: Seq<SSTable>)
    requires
        forall|i: int| 0 <= i < ts.len() ==> (#[trigger] ts[i]).wf(),
        entries_sorted(concat_records(ts)),
    ensures
        forall|i: int, j: int|
            0 <= i < j < ts.len() ==> lex_lt(
                (#[trigger] ts[i]).records().last().0,
                (#[trigger] ts[j]).records()[0].0,
            ),
{
    lemma_concat_len(ts);
    assert forall|i: int, j: int| 0 <= i < j < ts.len() implies lex_lt(
        (#[trigger] ts[i]).records().last().0,
        (#[trigger] ts[j]).records()[0].0,
    ) by {
        let p1 = recs_before(ts, i) + (ts[i].records().len() - 1);
        let p2 = recs_before(ts, j);
        lemma_concat_at(ts, i, ts[i].records().len() - 1);
        lemma_concat_at(ts, j, 0);
        assert(recs_before(ts, i + 1) <= recs_before(ts, j));
        assert(p1 < p2);
        assert(lex_lt(concat_records(ts)[p1].0, concat_records(ts)[p2].0));
    }
}

/// Splits sorted records into tables at `dest_level` with consecutive ids
/// from `first_id`, each records section within the file-size budget:
/// records go into the current output until the next one would push it past
/// the budget, whereupon the output is finalized and a new one begins.
#[verifier::loop_isolation(false)]
#[verifier::rlimit(100)]
#[verifier::spinoff_prover]
fn split_into_tables(
    entries: &Vec<(Vec<u8>, ValueUpdate)>,
    dest_level: u64,
    first_id: u64,
) -> (outs: Vec<SSTable>)
    requires
        entries_sorted(entries_vec_view(entries@)),
        forall|q: int|
            0 <= q < entries@.len() ==> enc_record(
                (#[trigger] entries_vec_view(entries@)[q]).0,
                entries_vec_view(entries@)[q].1,
            ).len() <= SSTABLE_FILE_SIZE,
        first_id + entries@.len() <= u64::MAX,
    ensures
        forall|i: int|
            0 <= i < outs@.len() ==> (#[trigger] outs@[i]).wf() && outs@[i].spec_id()
                == (SstId { level: dest_level, id: (first_id + i) as u64 })
                && outs@[i].records_bytes().len() <= SSTABLE_FILE_SIZE,
        concat_records(outs@) == entries_vec_view(entries@),
        entries_sorted(concat_records(outs@)),
{
    let ghost ev = entries_vec_view(entries@);
    let mut outs: Vec<SSTable> = Vec::new();
    let mut chunk: Vec<(Vec<u8>, ValueUpdate)> = Vec::new();
    let mut chunk_bytes: u64 = 0;
    let ghost mut chunk_start: int = 0;
    let mut i: usize = 0;
    proof {
        assert(concat_records(outs@) =~= Seq::<(Seq<u8>, UpdateV)>::empty());
        assert(ev.subrange(0, 0) =~= Seq::<(Seq<u8>, UpdateV)>::empty());
        assert(entries_vec_view(chunk@) =~= Seq::<(Seq<u8>, UpdateV)>::empty());
    }
    while i < entries.len()
        invariant
            0 <= chunk_start <= i <= entries@.len(),
            ev == entries_vec_view(entries@),
            entries_sorted(ev),
            forall|q: int|
                0 <= q < ev.len() ==> enc_record((#[trigger] ev[q]).0, ev[q].1).len()
                    <= SSTABLE_FILE_SIZE,
            outs@.len() <= chunk_start,
            first_id + ev.len() <= u64::MAX,
            forall|q: int|
                0 <= q < outs@.len() ==> (#[trigger] outs@[q]).wf() && outs@[q].spec_id()
                    == (SstId { level: dest_level, id: (first_id + q) as u64 })
                    && outs@[q].records_bytes().len() <= SSTABLE_FILE_SIZE,
            concat_records(outs@) == ev.subrange(0, chunk_start),
            entries_vec_view(chunk@) == ev.subrange(chunk_start, i as int),
            chunk_bytes == enc_entries(ev.subrange(chunk_start, i as int)).len(),
            chunk_bytes <= SSTABLE_FILE_SIZE,
            chunk@.len() == i - chunk_start,
        decreases entries@.len() - i,
    {
        proof {
            assert(ev[i as int] == (entries@[i as int].0@, entries@[i as int].1@));
        }
        let el = encoded_record_len(&entries[i].0, &entries[i].1);
        if chunk.len() > 0 && chunk_bytes + el > SSTABLE_FILE_SIZE {
            // Finalize the current output and open a new one.
            let id = SstId { level: dest_level, id: first_id + outs.len() as u64 };
            let ghost outs0 = outs@;
            let table = SSTable::build(&chunk, id);
            outs.push(table);
            proof {
                lemma_concat_records_push(outs0, outs@.last());
                assert(outs@ =~= outs0.push(outs@.last()));
                assert(ev.subrange(0, chunk_start) + ev.subrange(chunk_start, i as int)
                    =~= ev.subrange(0, i as int));
                lemma_enc_entries_nonneg(ev.subrange(chunk_start, i as int));
            }
            chunk = Vec::new();
            chunk_bytes = 0;
            proof {
                chunk_start = i as int;
                assert(entries_vec_view(chunk@) =~= ev.subrange(chunk_start, i as int));
                assert(enc_entries(ev.subrange(chunk_start, i as int)) =~= Seq::<u8>::empty());
            }
        }
        let ghost cv = entries_vec_view(chunk@);
        chunk.push((entries[i].0.clone(), entries[i].1.clone()));
        chunk_bytes = chunk_bytes + el;
        proof {
            assert(entries_vec_view(chunk@) =~= cv.push(ev[i as int]));
            assert(ev.subrange(chunk_start, i + 1) =~= ev.subrange(chunk_start, i as int)
                + seq![ev[i as int]]);
            lemma_enc_entries_app(ev.subrange(chunk_start, i as int), seq![ev[i as int]]);
            assert(seq![ev[i as int]].skip(1) =~= Seq::<(Seq<u8>, UpdateV)>::empty());
            assert(enc_entries(seq![ev[i as int]]) =~= enc_record(
                ev[i as int].0,
                ev[i as int].1,
            )) by {
                assert(seq![ev[i as int]][0] == ev[i as int]);
                assert(enc_entries(seq![ev[i as int]]) == enc_record(
                    ev[i as int].0,
                    ev[i as int].1,
                ) + enc_entries(seq![ev[i as int]].skip(1)));
            }
        }
        i = i + 1;
    }
    if chunk.len() > 0 {
        let id = SstId { level: dest_level, id: first_id + outs.len() as u64 };
        let ghost outs0 = outs@;
        let table = SSTable::build(&chunk, id);
        outs.push(table);
        proof {
            lemma_concat_records_push(outs0, outs@.last());
            assert(outs@ =~= outs0.push(outs@.last()));
            assert(ev.subrange(0, chunk_start) + ev.subrange(chunk_start, entries@.len() as int)
                =~= ev.subrange(0, entries@.len() as int));
            lemma_enc_entries_nonneg(ev.subrange(chunk_start, entries@.len() as int));
        }
    }
    proof {
        assert(ev.subrange(0, ev.len() as int) =~= ev);
        assert(concat_records(outs@) == ev);
    }
    outs
}

} // verus!
