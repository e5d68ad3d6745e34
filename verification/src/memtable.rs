//! The write-ahead memtable: an ordered in-memory map of key to value
//! update, journaled through the write-ahead-log batch discipline.

use vstd::prelude::*;

use crate::codec::{
    enc_mem_action, encode_mem_action, decode_mem_action, lemma_parse_enc_mem_action,
    lemma_parse_mem_action_bounds, mem_action_fits, parse_mem_action,
};
use crate::keys::lex_lt;

verus! {

/// A staged change for one key: either a new value or a deletion marker.
///
/// Tombstones are first-class records that shadow earlier values for the
/// same key until they are purged at the deepest level.
#[derive(Debug, PartialEq, Eq)]
pub enum ValueUpdate {
    Tombstone,
    Value(Vec<u8>),
}

/// Specification-level form of a `ValueUpdate`.
pub enum UpdateV {
    Tombstone,
    Value(Seq<u8>),
}

impl View for ValueUpdate {
    type V = UpdateV;

    open spec fn view(&self) -> UpdateV {
        match self {
            ValueUpdate::Tombstone => UpdateV::Tombstone,
            ValueUpdate::Value(v) => UpdateV::Value(v@),
        }
    }
}

impl Clone for ValueUpdate {
    fn clone(&self) -> (r: Self)
        ensures
            r@ == self@,
    {
        match self {
            ValueUpdate::Tombstone => ValueUpdate::Tombstone,
            ValueUpdate::Value(v) => ValueUpdate::Value(v.clone()),
        }
    }
}

/// One record of the memtable write-ahead log: either a staged insertion or
/// the marker that commits everything staged since the previous marker.
#[derive(Debug, PartialEq, Eq)]
pub enum MemTableAction {
    Commit,
    Insert((Vec<u8>, ValueUpdate)),
}

/// Specification-level form of a `MemTableAction`.
pub enum MemActionV {
    Commit,
    Insert(Seq<u8>, UpdateV),
}

impl View for MemTableAction {
    type V = MemActionV;

    open spec fn view(&self) -> MemActionV {
        match self {
            MemTableAction::Commit => MemActionV::Commit,
            MemTableAction::Insert(kv) => MemActionV::Insert(kv.0@, kv.1@),
        }
    }
}

impl Clone for MemTableAction {
    fn clone(&self) -> (r: Self)
        ensures
            r@ == self@,
    {
        match self {
            MemTableAction::Commit => MemTableAction::Commit,
            MemTableAction::Insert(kv) => MemTableAction::Insert((kv.0.clone(), kv.1.clone())),
        }
    }
}

/// The ordered container behind the memtable: a skip list map of an outside
/// crate, held opaquely because its generic signature cannot be declared to
/// the verifier.  Everything known about it is stated on the wrappers below
/// over `skip_entries`.
#[verifier::external_body]
pub struct OrdContainer {
    inner: skiplist::SkipMap<Vec<u8>, ValueUpdate>,
}

/// The entries the skip list map holds, in ascending key order.
pub uninterp spec fn skip_entries(m: OrdContainer) -> Seq<(Seq<u8>, UpdateV)>;

/// Whether an entry sequence is strictly ascending in key order.
pub open spec fn entries_sorted(s: Seq<(Seq<u8>, UpdateV)>) -> bool {
    forall|i: int, j: int| 0 <= i < j < s.len() ==> lex_lt(s[i].0, s[j].0)
}

/// Whether some entry has key `k`.
pub open spec fn entries_contains_key(s: Seq<(Seq<u8>, UpdateV)>, k: Seq<u8>) -> bool {
    exists|i: int| 0 <= i < s.len() && s[i].0 == k
}

/// The mapping an entry sequence denotes.  Entry sequences always have
/// distinct keys here; when they do not, earlier entries win.
pub open spec fn entries_map(s: Seq<(Seq<u8>, UpdateV)>) -> Map<Seq<u8>, UpdateV>
    decreases s.len(),
{
    if s.len() == 0 {
        Map::empty()
    } else {
        entries_map(s.skip(1)).insert(s[0].0, s[0].1)
    }
}

/// The accounted size of one entry: key length plus value length plus a
/// fixed overhead (two length prefixes and a tag for a value, one length
/// prefix and a tag for a tombstone).
pub open spec fn entry_size(k: Seq<u8>, u: UpdateV) -> int {
    match u {
        UpdateV::Tombstone => k.len() + 12int,
        UpdateV::Value(v) => k.len() + v.len() + 20int,
    }
}

/// The accounted size of an entry sequence.
pub open spec fn entries_size(s: Seq<(Seq<u8>, UpdateV)>) -> int
    decreases s.len(),
{
    if s.len() == 0 {
        0
    } else {
        entry_size(s[0].0, s[0].1) + entries_size(s.skip(1))
    }
}

/// Each entry contributes no more than the whole.
pub proof fn lemma_entries_size_entry(s: Seq<(Seq<u8>, UpdateV)>, i: int)
    requires
        0 <= i < s.len(),
    ensures
        entry_size(s[i].0, s[i].1) <= entries_size(s),
    decreases s.len(),
{
    lemma_entries_size_nonneg(s.skip(1));
    if i > 0 {
        lemma_entries_size_entry(s.skip(1), i - 1);
        assert(s.skip(1)[i - 1] == s[i]);
    }
}

/// The accounted size is never negative.
pub proof fn lemma_entries_size_nonneg(s: Seq<(Seq<u8>, UpdateV)>)
    ensures
        entries_size(s) >= 0,
    decreases s.len(),
{
    if s.len() > 0 {
        lemma_entries_size_nonneg(s.skip(1));
    }
}

/// Insertion into an ascending entry sequence: replaces the entry with key
/// `k` if there is one, else splices a new entry in at its key position.
pub open spec fn sorted_insert(s: Seq<(Seq<u8>, UpdateV)>, k: Seq<u8>, u: UpdateV) -> Seq<
    (Seq<u8>, UpdateV),
>
    decreases s.len(),
{
    if s.len() == 0 {
        seq![(k, u)]
    } else if lex_lt(k, s[0].0) {
        seq![(k, u)] + s
    } else if k == s[0].0 {
        seq![(k, u)] + s.skip(1)
    } else {
        seq![s[0]] + sorted_insert(s.skip(1), k, u)
    }
}

/// Relies on skiplist::SkipMap::new: a fresh map is empty.
#[verifier::external_body]
fn skipmap_new() -> (m: OrdContainer)
    ensures
        skip_entries(m).len() == 0,
{
    OrdContainer { inner: skiplist::SkipMap::new() }
}

/// Relies on skiplist::SkipMap::insert: the entry is placed at its key
/// position, replacing and returning the previous value of an existing key.
#[verifier::external_body]
fn skipmap_insert(
    m: &mut OrdContainer,
    k: Vec<u8>,
    u: ValueUpdate,
) -> (r: Option<ValueUpdate>)
    ensures
        skip_entries(*final(m)) == sorted_insert(skip_entries(*old(m)), k@, u@),
        match r {
            None => !entries_contains_key(skip_entries(*old(m)), k@),
            Some(prev) => exists|i: int|
                0 <= i < skip_entries(*old(m)).len() && skip_entries(*old(m))[i] == (k@, prev@),
        },
{
    m.inner.insert(k, u)
}

/// Relies on skiplist::SkipMap::get: returns the value stored under the key.
#[verifier::external_body]
fn skipmap_get<'a>(
    m: &'a OrdContainer,
    k: &Vec<u8>,
) -> (r: Option<&'a ValueUpdate>)
    ensures
        match r {
            None => !entries_contains_key(skip_entries(*m), k@),
            Some(u) => exists|i: int|
                0 <= i < skip_entries(*m).len() && skip_entries(*m)[i] == (k@, u@),
        },
{
    m.inner.get(k)
}

/// Relies on skiplist::SkipMap::first_key_value: returns the entry with the
/// smallest key.
#[verifier::external_body]
fn skipmap_first<'a>(m: &'a OrdContainer) -> (r: Option<
    (&'a Vec<u8>, &'a ValueUpdate),
>)
    ensures
        match r {
            None => skip_entries(*m).len() == 0,
            Some((k, u)) => skip_entries(*m).len() > 0 && skip_entries(*m)[0] == (k@, u@),
        },
{
    m.inner.first_key_value()
}

/// Relies on skiplist::SkipMap::last_key_value: returns the entry with the
/// largest key.
#[verifier::external_body]
fn skipmap_last<'a>(m: &'a OrdContainer) -> (r: Option<
    (&'a Vec<u8>, &'a ValueUpdate),
>)
    ensures
        match r {
            None => skip_entries(*m).len() == 0,
            Some((k, u)) => skip_entries(*m).len() > 0 && skip_entries(*m).last() == (k@, u@),
        },
{
    m.inner.last_key_value()
}

/// Relies on skiplist::SkipMap::len: the number of entries.
#[verifier::external_body]
fn skipmap_len(m: &OrdContainer) -> (r: usize)
    ensures
        r == skip_entries(*m).len(),
{
    m.inner.len()
}

/// Relies on skiplist::SkipMap::clear: removes every entry.
#[verifier::external_body]
fn skipmap_clear(m: &mut OrdContainer)
    ensures
        skip_entries(*final(m)).len() == 0,
{
    m.inner.clear()
}

/// Relies on skiplist::SkipMap::iter: yields the entries in ascending key
/// order; each is cloned into a plain pair.
#[verifier::external_body]
fn skipmap_entries_vec(m: &OrdContainer) -> (r: Vec<
    (Vec<u8>, ValueUpdate),
>)
    ensures
        r@.len() == skip_entries(*m).len(),
        forall|i: int| 0 <= i < r@.len() ==> (r@[i].0@, r@[i].1@) == skip_entries(*m)[i],
{
    m.inner.iter().map(|(k, v)| (k.clone(), v.clone())).collect()
}

/// A key occurs in an entry sequence exactly when the denoted map has it.
pub proof fn lemma_entries_map_keys(s: Seq<(Seq<u8>, UpdateV)>)
    ensures
        forall|k: Seq<u8>|
            #[trigger] entries_map(s).contains_key(k) <==> entries_contains_key(s, k),
    decreases s.len(),
{
    if s.len() > 0 {
        lemma_entries_map_keys(s.skip(1));
        assert forall|k: Seq<u8>| #[trigger] entries_map(s).contains_key(k) implies
            entries_contains_key(s, k) by {
            if k == s[0].0 {
                assert(s[0].0 == k);
            } else {
                assert(entries_map(s.skip(1)).contains_key(k));
                assert(entries_contains_key(s.skip(1), k));
                let i = choose|i: int| 0 <= i < s.skip(1).len() && s.skip(1)[i].0 == k;
                assert(s.skip(1)[i] == s[i + 1]);
                assert(s[i + 1].0 == k);
            }
        }
        assert forall|k: Seq<u8>| entries_contains_key(s, k) implies
            #[trigger] entries_map(s).contains_key(k) by {
            let i = choose|i: int| 0 <= i < s.len() && s[i].0 == k;
            if i > 0 {
                assert(s.skip(1)[i - 1] == s[i]);
                assert(entries_contains_key(s.skip(1), k)) by {
                    assert(s.skip(1)[i - 1].0 == k);
                }
                assert(entries_map(s.skip(1)).contains_key(k));
            }
        }
    }
}

/// In a sorted entry sequence, the denoted map sends each key to the value
/// stored beside it.
pub proof fn lemma_entries_map_value(s: Seq<(Seq<u8>, UpdateV)>)
    requires
        entries_sorted(s),
    ensures
        forall|i: int|
            0 <= i < s.len() ==> entries_map(s).contains_key(#[trigger] s[i].0)
                && entries_map(s)[s[i].0] == s[i].1,
    decreases s.len(),
{
    lemma_entries_map_keys(s);
    if s.len() > 0 {
        assert(entries_sorted(s.skip(1))) by {
            assert forall|i: int, j: int| 0 <= i < j < s.skip(1).len() implies lex_lt(
                s.skip(1)[i].0,
                s.skip(1)[j].0,
            ) by {
                assert(s.skip(1)[i] == s[i + 1]);
                assert(s.skip(1)[j] == s[j + 1]);
            }
        }
        lemma_entries_map_value(s.skip(1));
        assert forall|i: int| 0 <= i < s.len() implies entries_map(s).contains_key(
            #[trigger] s[i].0,
        ) && entries_map(s)[s[i].0] == s[i].1 by {
            if i > 0 {
                assert(s.skip(1)[i - 1] == s[i]);
                assert(lex_lt(s[0].0, s[i].0));
                crate::keys::lemma_lex_irreflexive(s[0].0);
                assert(s[i].0 != s[0].0);
            }
        }
    }
}

/// What sorted insertion does: it keeps the sequence sorted, updates the
/// denoted map at exactly the inserted key, and changes the accounted size
/// by the new entry's contribution less a replaced entry's contribution.
pub proof fn lemma_sorted_insert_props(s: Seq<(Seq<u8>, UpdateV)>, k: Seq<u8>, u: UpdateV)
    requires
        entries_sorted(s),
    ensures
        entries_sorted(sorted_insert(s, k, u)),
        entries_map(sorted_insert(s, k, u)) == entries_map(s).insert(k, u),
        forall|j: int|
            0 <= j < sorted_insert(s, k, u).len() ==> #[trigger] sorted_insert(s, k, u)[j] == (
                k,
                u,
            ) || s.contains(sorted_insert(s, k, u)[j]),
        forall|k2: Seq<u8>|
            #[trigger] entries_contains_key(sorted_insert(s, k, u), k2) <==> (k2 == k
                || entries_contains_key(s, k2)),
        entries_contains_key(s, k) ==> sorted_insert(s, k, u).len() == s.len()
            && entries_size(sorted_insert(s, k, u)) == entries_size(s) + entry_size(k, u)
            - entry_size(k, entries_map(s)[k]),
        !entries_contains_key(s, k) ==> sorted_insert(s, k, u).len() == s.len() + 1
            && entries_size(sorted_insert(s, k, u)) == entries_size(s) + entry_size(k, u),
    decreases s.len(),
{
    lemma_entries_map_keys(s);
    lemma_entries_map_value(s);
    let r = sorted_insert(s, k, u);
    if s.len() == 0 {
        assert(r =~= seq![(k, u)]);
        assert(r.skip(1) =~= Seq::<(Seq<u8>, UpdateV)>::empty());
        assert(entries_map(r.skip(1)) == Map::<Seq<u8>, UpdateV>::empty());
        assert(entries_map(r) == entries_map(r.skip(1)).insert(r[0].0, r[0].1));
        assert(entries_map(s) == Map::<Seq<u8>, UpdateV>::empty());
        assert(entries_map(r) == entries_map(s).insert(k, u));
        assert(!entries_contains_key(s, k));
        assert(entries_size(r) == entry_size(k, u) + entries_size(r.skip(1)));
    } else if lex_lt(k, s[0].0) {
        assert(r =~= seq![(k, u)] + s);
        assert(r[0] == (k, u));
        assert(r.skip(1) =~= s);
        assert(entries_map(r) == entries_map(r.skip(1)).insert(r[0].0, r[0].1));
        assert(entries_map(r) == entries_map(s).insert(k, u));
        assert(entries_sorted(r)) by {
            assert forall|i: int, j: int| 0 <= i < j < r.len() implies lex_lt(r[i].0, r[j].0) by {
                if i == 0 {
                    if j > 1 {
                        crate::keys::lemma_lex_transitive(k, s[0].0, s[j - 1].0);
                    }
                }
            }
        }
        assert(!entries_contains_key(s, k)) by {
            if entries_contains_key(s, k) {
                let i = choose|i: int| 0 <= i < s.len() && s[i].0 == k;
                if i > 0 {
                    crate::keys::lemma_lex_asymmetric(k, s[0].0);
                    crate::keys::lemma_lex_transitive(s[0].0, s[i].0, s[0].0);
                }
                crate::keys::lemma_lex_irreflexive(k);
            }
        }
        assert forall|k2: Seq<u8>| #[trigger] entries_contains_key(r, k2) implies (k2 == k
            || entries_contains_key(s, k2)) by {
            let i = choose|i: int| 0 <= i < r.len() && r[i].0 == k2;
            if i > 0 {
                assert(s[i - 1].0 == k2);
            }
        }
        assert forall|k2: Seq<u8>| (k2 == k || entries_contains_key(s, k2)) implies
            #[trigger] entries_contains_key(r, k2) by {
            if k2 == k {
                assert(r[0].0 == k2);
            } else {
                let i = choose|i: int| 0 <= i < s.len() && s[i].0 == k2;
                assert(r[i + 1].0 == k2);
            }
        }
    } else if k == s[0].0 {
        assert(r =~= seq![(k, u)] + s.skip(1));
        assert(r.skip(1) =~= s.skip(1));
        assert(entries_sorted(s.skip(1))) by {
            assert forall|i: int, j: int| 0 <= i < j < s.skip(1).len() implies lex_lt(
                s.skip(1)[i].0,
                s.skip(1)[j].0,
            ) by {
                assert(s.skip(1)[i] == s[i + 1]);
                assert(s.skip(1)[j] == s[j + 1]);
            }
        }
        assert(r[0] == (k, u));
        assert(entries_map(r) == entries_map(s.skip(1)).insert(k, u));
        assert(entries_map(s) == entries_map(s.skip(1)).insert(s[0].0, s[0].1));
        assert(entries_map(s.skip(1)).insert(k, u) =~= entries_map(s.skip(1)).insert(
            s[0].0,
            s[0].1,
        ).insert(k, u));
        assert(entries_map(r) == entries_map(s).insert(k, u));
        assert(entries_sorted(r)) by {
            assert forall|i: int, j: int| 0 <= i < j < r.len() implies lex_lt(r[i].0, r[j].0) by {
                if i == 0 {
                    assert(r[j] == s[j]);
                    assert(lex_lt(s[0].0, s[j].0));
                }
            }
        }
        assert(entries_contains_key(s, k)) by {
            assert(s[0].0 == k);
        }
        assert(entries_map(s)[k] == s[0].1);
        assert(entries_size(s) == entry_size(s[0].0, s[0].1) + entries_size(s.skip(1)));
        assert(entries_size(r) == entry_size(k, u) + entries_size(s.skip(1)));
        assert forall|k2: Seq<u8>| #[trigger] entries_contains_key(r, k2) implies (k2 == k
            || entries_contains_key(s, k2)) by {
            let i = choose|i: int| 0 <= i < r.len() && r[i].0 == k2;
            if i > 0 {
                assert(s[i].0 == k2);
            }
        }
        assert forall|k2: Seq<u8>| (k2 == k || entries_contains_key(s, k2)) implies
            #[trigger] entries_contains_key(r, k2) by {
            if k2 == k {
                assert(r[0].0 == k2);
            } else {
                let i = choose|i: int| 0 <= i < s.len() && s[i].0 == k2;
                assert(i != 0);
                assert(r[i].0 == k2);
            }
        }
    } else {
        // `k` comes after the head entry.
        crate::keys::lemma_lex_connected(k, s[0].0);
        assert(lex_lt(s[0].0, k));
        assert(entries_sorted(s.skip(1))) by {
            assert forall|i: int, j: int| 0 <= i < j < s.skip(1).len() implies lex_lt(
                s.skip(1)[i].0,
                s.skip(1)[j].0,
            ) by {
                assert(s.skip(1)[i] == s[i + 1]);
                assert(s.skip(1)[j] == s[j + 1]);
            }
        }
        lemma_sorted_insert_props(s.skip(1), k, u);
        let r1 = sorted_insert(s.skip(1), k, u);
        assert(r =~= seq![s[0]] + r1);
        assert(r.skip(1) =~= r1);
        assert(entries_sorted(r)) by {
            assert forall|i: int, j: int| 0 <= i < j < r.len() implies lex_lt(r[i].0, r[j].0) by {
                if i == 0 {
                    assert(r1[j - 1] == r[j]);
                    if r1[j - 1] == (k, u) {
                    } else {
                        let i2 = choose|i2: int|
                            0 <= i2 < s.skip(1).len() && s.skip(1)[i2] == r1[j - 1];
                        assert(s[i2 + 1] == r1[j - 1]);
                        assert(lex_lt(s[0].0, s[i2 + 1].0));
                    }
                } else {
                    assert(r[i] == r1[i - 1]);
                    assert(r[j] == r1[j - 1]);
                }
            }
        }
        assert(entries_map(r) =~= entries_map(s).insert(k, u)) by {
            assert(entries_map(r) == entries_map(r1).insert(s[0].0, s[0].1));
            assert(entries_map(r1) == entries_map(s.skip(1)).insert(k, u));
            assert(entries_map(s) == entries_map(s.skip(1)).insert(s[0].0, s[0].1));
            crate::keys::lemma_lex_irreflexive(k);
            assert(k != s[0].0);
        }
        assert forall|j: int| 0 <= j < r.len() implies #[trigger] r[j] == (k, u) || s.contains(
            r[j],
        ) by {
            if j == 0 {
                assert(s[0] == r[0]);
            } else {
                assert(r[j] == r1[j - 1]);
                if r1[j - 1] == (k, u) {
                } else {
                    let i2 = choose|i2: int|
                        0 <= i2 < s.skip(1).len() && s.skip(1)[i2] == r1[j - 1];
                    assert(s[i2 + 1] == r1[j - 1]);
                }
            }
        }
        assert(entries_contains_key(s, k) <==> entries_contains_key(s.skip(1), k)) by {
            crate::keys::lemma_lex_irreflexive(k);
            if entries_contains_key(s, k) {
                let i = choose|i: int| 0 <= i < s.len() && s[i].0 == k;
                assert(i != 0);
                assert(s.skip(1)[i - 1].0 == k);
            }
            if entries_contains_key(s.skip(1), k) {
                let i = choose|i: int| 0 <= i < s.skip(1).len() && s.skip(1)[i].0 == k;
                assert(s[i + 1].0 == k);
            }
        }
        assert forall|k2: Seq<u8>| #[trigger] entries_contains_key(r, k2) implies (k2 == k
            || entries_contains_key(s, k2)) by {
            let i = choose|i: int| 0 <= i < r.len() && r[i].0 == k2;
            if i == 0 {
                assert(s[0].0 == k2);
            } else {
                assert(entries_contains_key(r1, k2)) by {
                    assert(r1[i - 1].0 == k2);
                }
                if k2 != k {
                    let i2 = choose|i2: int| 0 <= i2 < s.skip(1).len() && s.skip(1)[i2].0 == k2;
                    assert(s[i2 + 1].0 == k2);
                }
            }
        }
        assert forall|k2: Seq<u8>| (k2 == k || entries_contains_key(s, k2)) implies
            #[trigger] entries_contains_key(r, k2) by {
            if k2 == k {
                assert(entries_contains_key(r1, k));
                let i = choose|i: int| 0 <= i < r1.len() && r1[i].0 == k;
                assert(r[i + 1].0 == k);
            } else {
                let i = choose|i: int| 0 <= i < s.len() && s[i].0 == k2;
                if i == 0 {
                    assert(r[0].0 == k2);
                } else {
                    assert(entries_contains_key(s.skip(1), k2)) by {
                        assert(s.skip(1)[i - 1].0 == k2);
                    }
                    assert(entries_contains_key(r1, k2));
                    let i2 = choose|i2: int| 0 <= i2 < r1.len() && r1[i2].0 == k2;
                    assert(r[i2 + 1].0 == k2);
                }
            }
        }
        if entries_contains_key(s, k) {
            assert(entries_map(s)[k] == entries_map(s.skip(1))[k]);
            assert(entries_size(r) == entry_size(s[0].0, s[0].1) + entries_size(r1));
        } else {
            assert(entries_size(r) == entry_size(s[0].0, s[0].1) + entries_size(r1));
        }
    }
}

/// The in-memory ordered accumulator of pending writes.
///
/// Every live key appears at most once; `approx_size` always equals the sum
/// of the per-entry contributions of the live entries.
pub struct MemTable {
    container: OrdContainer,
    approx_size: u64,
}

impl MemTable {
    /// The entries, in ascending key order.
    pub closed spec fn entries(self) -> Seq<(Seq<u8>, UpdateV)> {
        skip_entries(self.container)
    }

    /// The mapping the memtable denotes.
    pub open spec fn model(self) -> Map<Seq<u8>, UpdateV> {
        entries_map(self.entries())
    }

    /// The internal invariant: entries strictly ascending, size accounted.
    pub closed spec fn wf(self) -> bool {
        &&& entries_sorted(self.entries())
        &&& self.approx_size == entries_size(self.entries())
    }

    /// The accounted size, for stating bounds in callers' contracts.
    pub open spec fn spec_size(self) -> int {
        entries_size(self.entries())
    }

    /// The invariant ties the entry order and the accounted size down.
    pub proof fn lemma_wf(self)
        requires
            self.wf(),
        ensures
            entries_sorted(self.entries()),
            self.spec_size() == entries_size(self.entries()),
            0 <= self.spec_size() <= u64::MAX,
            self.model() == entries_map(self.entries()),
    {
    }

    pub fn new() -> (r: MemTable)
        ensures
            r.wf(),
            r.entries() == Seq::<(Seq<u8>, UpdateV)>::empty(),
            r.model() == Map::<Seq<u8>, UpdateV>::empty(),
    {
        let r = MemTable { container: skipmap_new(), approx_size: 0 };
        proof {
            assert(r.entries() =~= Seq::<(Seq<u8>, UpdateV)>::empty());
        }
        r
    }

    /// Applies a logged action: an insertion inserts, a commit marker is a
    /// no-op at this level.
    pub fn execute_action(&mut self, action: MemTableAction)
        requires
            old(self).wf(),
            old(self).spec_size() + mem_action_size(action@) <= u64::MAX,
        ensures
            final(self).wf(),
            final(self).entries() == apply_action(old(self).entries(), action@),
    {
        if let MemTableAction::Insert(kv) = action {
            let (key, update) = kv;
            self.insert(key, update);
        }
    }

    /// Stages `update` under `key`, returning the value the key held before.
    pub fn insert(&mut self, key: Vec<u8>, update: ValueUpdate) -> (r: Option<ValueUpdate>)
        requires
            old(self).wf(),
            old(self).spec_size() + entry_size(key@, update@) <= u64::MAX,
        ensures
            final(self).wf(),
            final(self).entries() == sorted_insert(old(self).entries(), key@, update@),
            final(self).model() == old(self).model().insert(key@, update@),
            match r {
                None => !old(self).model().contains_key(key@),
                Some(prev) => old(self).model().contains_key(key@) && old(self).model()[key@]
                    == prev@,
            },
    {
        let ghost gk = key@;
        let ghost gu = update@;
        let ghost olde = self.entries();
        proof {
            lemma_sorted_insert_props(olde, gk, gu);
            lemma_entries_map_keys(olde);
            lemma_entries_map_value(olde);
        }
        let key_len = key.len();
        let add: u64 = match &update {
            ValueUpdate::Value(v) => key_len as u64 + v.len() as u64 + 20,
            ValueUpdate::Tombstone => key_len as u64 + 12,
        };
        self.approx_size = self.approx_size + add;
        let old_value = skipmap_insert(&mut self.container, key, update);
        if let Some(prev) = &old_value {
            proof {
                let i = choose|i: int| 0 <= i < olde.len() && olde[i] == (gk, prev@);
                assert(entries_contains_key(olde, gk)) by {
                    assert(olde[i].0 == gk);
                }
                assert(entries_map(olde)[olde[i].0] == olde[i].1);
                assert(entries_map(olde)[gk] == prev@);
                lemma_entries_size_entry(olde, i);
                assert(entry_size(gk, prev@) <= entries_size(olde));
            }
            let sub: u64 = match prev {
                ValueUpdate::Tombstone => key_len as u64 + 12,
                ValueUpdate::Value(v) => key_len as u64 + v.len() as u64 + 20,
            };
            proof {
                lemma_entries_size_nonneg(sorted_insert(olde, gk, gu));
            }
            self.approx_size = self.approx_size - sub;
        }
        proof {
            if old_value is None {
                assert(!entries_contains_key(olde, gk));
            }
        }
        old_value
    }

    pub fn approx_size(&self) -> (r: u64)
        requires
            self.wf(),
        ensures
            r == self.spec_size(),
    {
        self.approx_size
    }

    /// Returns the update currently held under `key`, a tombstone included.
    pub fn get<'a>(&'a self, key: &Vec<u8>) -> (r: Option<&'a ValueUpdate>)
        requires
            self.wf(),
        ensures
            match r {
                None => !self.model().contains_key(key@),
                Some(u) => self.model().contains_key(key@) && self.model()[key@] == u@,
            },
    {
        proof {
            lemma_entries_map_keys(self.entries());
            lemma_entries_map_value(self.entries());
        }
        let r = skipmap_get(&self.container, key);
        proof {
            if let Some(u) = r {
                let i = choose|i: int|
                    0 <= i < self.entries().len() && self.entries()[i] == (key@, u@);
                assert(self.entries()[i].0 == key@);
            }
        }
        r
    }

    /// The entry with the smallest key, defined when the memtable is
    /// non-empty.
    pub fn front<'a>(&'a self) -> (r: Option<(&'a Vec<u8>, &'a ValueUpdate)>)
        ensures
            match r {
                None => self.entries().len() == 0,
                Some((k, u)) => self.entries().len() > 0 && self.entries()[0] == (k@, u@),
            },
    {
        skipmap_first(&self.container)
    }

    /// The entry with the largest key, defined when the memtable is
    /// non-empty.
    pub fn back<'a>(&'a self) -> (r: Option<(&'a Vec<u8>, &'a ValueUpdate)>)
        ensures
            match r {
                None => self.entries().len() == 0,
                Some((k, u)) => self.entries().len() > 0 && self.entries().last() == (k@, u@),
            },
    {
        skipmap_last(&self.container)
    }

    /// The entries in ascending key order, as plain pairs.
    pub fn entries_vec(&self) -> (r: Vec<(Vec<u8>, ValueUpdate)>)
        ensures
            r@.len() == self.entries().len(),
            forall|i: int| 0 <= i < r@.len() ==> (r@[i].0@, r@[i].1@) == self.entries()[i],
    {
        skipmap_entries_vec(&self.container)
    }

    pub fn clear(&mut self)
        ensures
            final(self).wf(),
            final(self).entries() == Seq::<(Seq<u8>, UpdateV)>::empty(),
            final(self).model() == Map::<Seq<u8>, UpdateV>::empty(),
    {
        skipmap_clear(&mut self.container);
        self.approx_size = 0;
        proof {
            assert(self.entries() =~= Seq::<(Seq<u8>, UpdateV)>::empty());
        }
    }

    pub fn len(&self) -> (r: usize)
        ensures
            r == self.entries().len(),
    {
        skipmap_len(&self.container)
    }

    pub fn is_empty(&self) -> (r: bool)
        ensures
            r == (self.entries().len() == 0),
    {
        self.len() == 0
    }

    /// True exactly when the accounted size has reached the flush threshold
    /// of one mebibyte.
    pub fn should_flush(&self) -> (r: bool)
        requires
            self.wf(),
        ensures
            r == (self.spec_size() >= 0x100000),
    {
        self.approx_size() >= 0x100000
    }
}

/// The size contribution of a logged action.
pub open spec fn mem_action_size(a: MemActionV) -> int {
    match a {
        MemActionV::Commit => 0,
        MemActionV::Insert(k, u) => entry_size(k, u),
    }
}

/// One logged action applied to an entry sequence.
pub open spec fn apply_action(e: Seq<(Seq<u8>, UpdateV)>, a: MemActionV) -> Seq<
    (Seq<u8>, UpdateV),
> {
    match a {
        MemActionV::Commit => e,
        MemActionV::Insert(k, u) => sorted_insert(e, k, u),
    }
}

/// A sequence of logged actions applied in order.
pub open spec fn apply_actions(e: Seq<(Seq<u8>, UpdateV)>, acts: Seq<MemActionV>) -> Seq<
    (Seq<u8>, UpdateV),
>
    decreases acts.len(),
{
    if acts.len() == 0 {
        e
    } else {
        apply_actions(apply_action(e, acts[0]), acts.skip(1))
    }
}

/// Whether applying the actions in order keeps the accounted size within
/// its 64-bit accumulator at every step.
pub open spec fn apply_fits(e: Seq<(Seq<u8>, UpdateV)>, acts: Seq<MemActionV>) -> bool
    decreases acts.len(),
{
    if acts.len() == 0 {
        true
    } else {
        entries_size(e) + mem_action_size(acts[0]) <= u64::MAX && apply_fits(
            apply_action(e, acts[0]),
            acts.skip(1),
        )
    }
}

/// The byte stream a sequence of log records encodes to.
pub open spec fn enc_actions(acts: Seq<MemActionV>) -> Seq<u8>
    decreases acts.len(),
{
    if acts.len() == 0 {
        Seq::empty()
    } else {
        enc_mem_action(acts[0]) + enc_actions(acts.skip(1))
    }
}

/// Whether every record is small enough for its length prefixes.
pub open spec fn actions_fit(acts: Seq<MemActionV>) -> bool {
    forall|i: int| 0 <= i < acts.len() ==> mem_action_fits(#[trigger] acts[i])
}

/// The committed actions a byte stream yields on replay: records are
/// buffered into a pending group, and a commit marker releases the group.
/// A decode failure discards whatever is pending.
pub open spec fn wal_commits(s: Seq<u8>, pending: Seq<MemActionV>) -> Seq<MemActionV>
    decreases s.len(),
{
    match parse_mem_action(s) {
        None => Seq::empty(),
        Some((a, c)) => if 1 <= c <= s.len() {
            match a {
                MemActionV::Commit => pending + wal_commits(s.skip(c), Seq::empty()),
                _ => wal_commits(s.skip(c), pending.push(a)),
            }
        } else {
            Seq::empty()
        },
    }
}

/// The number of leading bytes of `s` that belong to a completed group:
/// everything up to and including the last commit marker that a forward
/// scan reaches.  Recovery truncates the log to this length.
pub open spec fn wal_commit_len(s: Seq<u8>) -> int
    decreases s.len(),
{
    match parse_mem_action(s) {
        None => 0,
        Some((a, c)) => if 1 <= c <= s.len() {
            let rest = wal_commit_len(s.skip(c));
            if a is Commit {
                c + rest
            } else if rest > 0 {
                c + rest
            } else {
                0
            }
        } else {
            0
        },
    }
}

/// The groups of an action sequence that a commit marker closes.
pub open spec fn committed_acc(acts: Seq<MemActionV>, pending: Seq<MemActionV>) -> Seq<
    MemActionV,
>
    decreases acts.len(),
{
    if acts.len() == 0 {
        Seq::empty()
    } else {
        match acts[0] {
            MemActionV::Commit => pending + committed_acc(acts.skip(1), Seq::empty()),
            _ => committed_acc(acts.skip(1), pending.push(acts[0])),
        }
    }
}

/// The records still pending after an action sequence.
pub open spec fn pending_after(acts: Seq<MemActionV>, pending: Seq<MemActionV>) -> Seq<
    MemActionV,
>
    decreases acts.len(),
{
    if acts.len() == 0 {
        pending
    } else {
        match acts[0] {
            MemActionV::Commit => pending_after(acts.skip(1), Seq::empty()),
            _ => pending_after(acts.skip(1), pending.push(acts[0])),
        }
    }
}

/// The non-commit records of an action sequence, in order.
pub open spec fn non_commits(acts: Seq<MemActionV>) -> Seq<MemActionV>
    decreases acts.len(),
{
    if acts.len() == 0 {
        Seq::empty()
    } else {
        match acts[0] {
            MemActionV::Commit => non_commits(acts.skip(1)),
            _ => seq![acts[0]] + non_commits(acts.skip(1)),
        }
    }
}

/// Every encoded record takes at least one byte.
pub proof fn lemma_enc_mem_action_len_pos(a: MemActionV)
    ensures
        enc_mem_action(a).len() >= 1,
{
    match a {
        MemActionV::Commit => {}
        MemActionV::Insert(k, u) => {}
    }
}

/// Encoding distributes over concatenation of action sequences.
pub proof fn lemma_enc_actions_app(x: Seq<MemActionV>, y: Seq<MemActionV>)
    ensures
        enc_actions(x + y) == enc_actions(x) + enc_actions(y),
    decreases x.len(),
{
    if x.len() == 0 {
        assert(x + y =~= y);
        assert(enc_actions(x) + enc_actions(y) =~= enc_actions(y));
    } else {
        assert((x + y).skip(1) =~= x.skip(1) + y);
        lemma_enc_actions_app(x.skip(1), y);
        assert((x + y)[0] == x[0]);
        assert(enc_mem_action(x[0]) + (enc_actions(x.skip(1)) + enc_actions(y)) =~= (
        enc_mem_action(x[0]) + enc_actions(x.skip(1))) + enc_actions(y));
    }
}

/// Application distributes over concatenation of action sequences.
pub proof fn lemma_apply_actions_app(
    e: Seq<(Seq<u8>, UpdateV)>,
    x: Seq<MemActionV>,
    y: Seq<MemActionV>,
)
    ensures
        apply_actions(e, x + y) == apply_actions(apply_actions(e, x), y),
    decreases x.len(),
{
    if x.len() == 0 {
        assert(x + y =~= y);
    } else {
        assert((x + y).skip(1) =~= x.skip(1) + y);
        assert((x + y)[0] == x[0]);
        lemma_apply_actions_app(apply_action(e, x[0]), x.skip(1), y);
    }
}

/// Size-fit of a concatenation splits into fit of the parts.
pub proof fn lemma_apply_fits_app(
    e: Seq<(Seq<u8>, UpdateV)>,
    x: Seq<MemActionV>,
    y: Seq<MemActionV>,
)
    ensures
        apply_fits(e, x + y) == (apply_fits(e, x) && apply_fits(apply_actions(e, x), y)),
    decreases x.len(),
{
    if x.len() == 0 {
        assert(x + y =~= y);
    } else {
        assert((x + y).skip(1) =~= x.skip(1) + y);
        assert((x + y)[0] == x[0]);
        lemma_apply_fits_app(apply_action(e, x[0]), x.skip(1), y);
    }
}

/// Committing and pending bookkeeping over a concatenation.
pub proof fn lemma_committed_app(a: Seq<MemActionV>, b: Seq<MemActionV>, p: Seq<MemActionV>)
    ensures
        committed_acc(a + b, p) == committed_acc(a, p) + committed_acc(b, pending_after(a, p)),
        pending_after(a + b, p) == pending_after(b, pending_after(a, p)),
    decreases a.len(),
{
    if a.len() == 0 {
        assert(a + b =~= b);
        assert(committed_acc(a, p) + committed_acc(b, pending_after(a, p)) =~= committed_acc(
            b,
            pending_after(a, p),
        ));
    } else {
        assert((a + b).skip(1) =~= a.skip(1) + b);
        assert((a + b)[0] == a[0]);
        match a[0] {
            MemActionV::Commit => {
                lemma_committed_app(a.skip(1), b, Seq::empty());
                assert(p + (committed_acc(a.skip(1), Seq::empty()) + committed_acc(
                    b,
                    pending_after(a.skip(1), Seq::empty()),
                )) =~= (p + committed_acc(a.skip(1), Seq::empty())) + committed_acc(
                    b,
                    pending_after(a.skip(1), Seq::empty()),
                ));
            }
            _ => {
                lemma_committed_app(a.skip(1), b, p.push(a[0]));
            }
        }
    }
}

/// What is committed plus what stays pending is the whole record stream.
pub proof fn lemma_committed_all(acts: Seq<MemActionV>, p: Seq<MemActionV>)
    ensures
        committed_acc(acts, p) + pending_after(acts, p) == p + non_commits(acts),
    decreases acts.len(),
{
    if acts.len() == 0 {
        assert(committed_acc(acts, p) + pending_after(acts, p) =~= p);
        assert(p + non_commits(acts) =~= p);
    } else {
        match acts[0] {
            MemActionV::Commit => {
                lemma_committed_all(acts.skip(1), Seq::empty());
                assert(committed_acc(acts.skip(1), Seq::empty()) + pending_after(
                    acts.skip(1),
                    Seq::empty(),
                ) =~= non_commits(acts.skip(1)));
                assert((p + committed_acc(acts.skip(1), Seq::empty())) + pending_after(
                    acts,
                    p,
                ) =~= p + (committed_acc(acts.skip(1), Seq::empty()) + pending_after(
                    acts.skip(1),
                    Seq::empty(),
                )));
            }
            _ => {
                lemma_committed_all(acts.skip(1), p.push(acts[0]));
                assert(p.push(acts[0]) + non_commits(acts.skip(1)) =~= p + (seq![acts[0]]
                    + non_commits(acts.skip(1))));
            }
        }
    }
}

/// Commit markers are no-ops when a record stream is applied.
pub proof fn lemma_apply_non_commits(e: Seq<(Seq<u8>, UpdateV)>, acts: Seq<MemActionV>)
    ensures
        apply_actions(e, non_commits(acts)) == apply_actions(e, acts),
    decreases acts.len(),
{
    if acts.len() > 0 {
        match acts[0] {
            MemActionV::Commit => {
                lemma_apply_non_commits(e, acts.skip(1));
            }
            _ => {
                lemma_apply_non_commits(apply_action(e, acts[0]), acts.skip(1));
                assert((seq![acts[0]] + non_commits(acts.skip(1))).skip(1) =~= non_commits(
                    acts.skip(1),
                ));
                assert((seq![acts[0]] + non_commits(acts.skip(1)))[0] == acts[0]);
            }
        }
    }
}

/// Replay of an encoded record stream followed by anything: the encoded
/// records are scanned through, and the scan goes on into the tail.
pub proof fn lemma_wal_stream(acts: Seq<MemActionV>, t: Seq<u8>, pending: Seq<MemActionV>)
    requires
        actions_fit(acts),
    ensures
        wal_commits(enc_actions(acts) + t, pending) == committed_acc(acts, pending)
            + wal_commits(t, pending_after(acts, pending)),
    decreases acts.len(),
{
    if acts.len() == 0 {
        assert(enc_actions(acts) + t =~= t);
        assert(committed_acc(acts, pending) + wal_commits(t, pending_after(acts, pending)) =~=
        wal_commits(t, pending));
    } else {
        let a0 = acts[0];
        let e0 = enc_mem_action(a0);
        let rest = enc_actions(acts.skip(1)) + t;
        assert(actions_fit(acts.skip(1))) by {
            assert forall|i: int| 0 <= i < acts.skip(1).len() implies mem_action_fits(
                #[trigger] acts.skip(1)[i],
            ) by {
                assert(acts.skip(1)[i] == acts[i + 1]);
            }
        }
        assert(enc_actions(acts) + t =~= e0 + rest);
        lemma_parse_enc_mem_action(a0, rest);
        lemma_enc_mem_action_len_pos(a0);
        assert((e0 + rest).skip(e0.len() as int) =~= rest);
        lemma_wal_stream(acts.skip(1), t, Seq::empty());
        lemma_wal_stream(acts.skip(1), t, pending.push(a0));
        match a0 {
            MemActionV::Commit => {
                assert(pending + (committed_acc(acts.skip(1), Seq::empty()) + wal_commits(
                    t,
                    pending_after(acts.skip(1), Seq::empty()),
                )) =~= (pending + committed_acc(acts.skip(1), Seq::empty())) + wal_commits(
                    t,
                    pending_after(acts.skip(1), Seq::empty()),
                ));
            }
            _ => {}
        }
    }
}

/// Torn-batch safety at the stream level: replay of any byte-length prefix
/// of an encoded record stream commits exactly the groups whose commit
/// marker lies entirely within the prefix.
#[verifier::spinoff_prover]
#[verifier::rlimit(100)]
pub proof fn lemma_wal_torn(acts: Seq<MemActionV>, m: int, pending: Seq<MemActionV>)
    requires
        actions_fit(acts),
        0 <= m <= enc_actions(acts).len(),
    ensures
        exists|t: int|
            {
                &&& 0 <= t <= acts.len()
                &&& enc_actions(#[trigger] acts.take(t)).len() <= m
                &&& (t < acts.len() ==> m < enc_actions(acts.take(t + 1)).len())
                &&& wal_commits(enc_actions(acts).take(m), pending) == committed_acc(
                    acts.take(t),
                    pending,
                )
            },
    decreases acts.len(),
{
    if acts.len() == 0 {
        assert(enc_actions(acts).take(m) =~= Seq::<u8>::empty());
        assert(acts.take(0) =~= acts);
        assert({
            &&& 0 <= 0 <= acts.len()
            &&& enc_actions(acts.take(0)).len() <= m
            &&& (0 < acts.len() ==> m < enc_actions(acts.take(0int + 1)).len())
            &&& wal_commits(enc_actions(acts).take(m), pending) == committed_acc(
                acts.take(0),
                pending,
            )
        });
    } else {
        let a0 = acts[0];
        let e0 = enc_mem_action(a0);
        let c0 = e0.len() as int;
        let rest = enc_actions(acts.skip(1));
        assert(actions_fit(acts.skip(1))) by {
            assert forall|i: int| 0 <= i < acts.skip(1).len() implies mem_action_fits(
                #[trigger] acts.skip(1)[i],
            ) by {
                assert(acts.skip(1)[i] == acts[i + 1]);
            }
        }
        assert(enc_actions(acts) =~= e0 + rest);
        lemma_parse_enc_mem_action(a0, rest);
        lemma_enc_mem_action_len_pos(a0);
        assert(acts.take(1) =~= seq![a0]);
        assert(enc_actions(seq![a0]) =~= e0) by {
            assert(seq![a0][0] == a0);
            assert(seq![a0].skip(1) =~= Seq::<MemActionV>::empty());
            assert(enc_actions(seq![a0].skip(1)) == Seq::<u8>::empty());
            assert(enc_actions(seq![a0]) == e0 + enc_actions(seq![a0].skip(1)));
            assert(e0 + Seq::<u8>::empty() =~= e0);
        }
        if m < c0 {
            crate::codec::lemma_parse_mem_action_short(e0 + rest, m);
            assert(enc_actions(acts).take(m) =~= (e0 + rest).take(m));
            assert(wal_commits(enc_actions(acts).take(m), pending) =~= Seq::<
                MemActionV,
            >::empty());
            assert(acts.take(0) =~= Seq::<MemActionV>::empty());
            assert(committed_acc(acts.take(0), pending) =~= Seq::<MemActionV>::empty());
            assert(enc_actions(acts.take(0)).len() == 0);
            assert({
                &&& 0 <= 0 <= acts.len()
                &&& enc_actions(acts.take(0)).len() <= m
                &&& (0 < acts.len() ==> m < enc_actions(acts.take(0int + 1)).len())
                &&& wal_commits(enc_actions(acts).take(m), pending) == committed_acc(
                    acts.take(0),
                    pending,
                )
            });
        } else {
            let cut = enc_actions(acts).take(m);
            assert(cut =~= e0 + rest.take(m - c0));
            lemma_parse_enc_mem_action(a0, rest.take(m - c0));
            assert(cut.skip(c0) =~= rest.take(m - c0));
            let pending2 = match a0 {
                MemActionV::Commit => Seq::<MemActionV>::empty(),
                _ => pending.push(a0),
            };
            lemma_wal_torn(acts.skip(1), m - c0, pending2);
            let t1 = choose|t1: int|
                {
                    &&& 0 <= t1 <= acts.skip(1).len()
                    &&& enc_actions(#[trigger] acts.skip(1).take(t1)).len() <= m - c0
                    &&& (t1 < acts.skip(1).len() ==> m - c0 < enc_actions(
                        acts.skip(1).take(t1 + 1),
                    ).len())
                    &&& wal_commits(enc_actions(acts.skip(1)).take(m - c0), pending2)
                        == committed_acc(acts.skip(1).take(t1), pending2)
                };
            let t = t1 + 1;
            assert(acts.take(t) =~= seq![a0] + acts.skip(1).take(t1));
            lemma_enc_actions_app(seq![a0], acts.skip(1).take(t1));
            assert(enc_actions(acts.take(t)).len() == c0 + enc_actions(
                acts.skip(1).take(t1),
            ).len());
            assert((seq![a0] + acts.skip(1).take(t1)).skip(1) =~= acts.skip(1).take(t1));
            assert(committed_acc(acts.take(t), pending) == match a0 {
                MemActionV::Commit => pending + committed_acc(
                    acts.skip(1).take(t1),
                    Seq::empty(),
                ),
                _ => committed_acc(acts.skip(1).take(t1), pending.push(a0)),
            });
            if t < acts.len() {
                assert(acts.take(t + 1) =~= seq![a0] + acts.skip(1).take(t1 + 1));
                lemma_enc_actions_app(seq![a0], acts.skip(1).take(t1 + 1));
                assert(enc_actions(acts.take(t + 1)).len() == c0 + enc_actions(
                    acts.skip(1).take(t1 + 1),
                ).len());
            }
            match a0 {
                MemActionV::Commit => {
                    assert(wal_commits(cut, pending) == pending + wal_commits(
                        cut.skip(c0),
                        Seq::empty(),
                    ));
                }
                _ => {}
            }
            assert({
                &&& 0 <= t <= acts.len()
                &&& enc_actions(acts.take(t)).len() <= m
                &&& (t < acts.len() ==> m < enc_actions(acts.take(t + 1)).len())
                &&& wal_commits(enc_actions(acts).take(m), pending) == committed_acc(
                    acts.take(t),
                    pending,
                )
            });
        }
    }
}

/// Replay never reports a negative committed length.
pub proof fn lemma_wal_commit_len_nonneg(s: Seq<u8>)
    ensures
        0 <= wal_commit_len(s) <= s.len(),
    decreases s.len(),
{
    match parse_mem_action(s) {
        None => {}
        Some((a, c)) => {
            if 1 <= c <= s.len() {
                lemma_wal_commit_len_nonneg(s.skip(c));
            }
        }
    }
}

/// Every in-memory log record is small enough for its length prefixes.
pub proof fn lemma_action_fits(a: MemTableAction)
    ensures
        mem_action_fits(a@),
{
    match a {
        MemTableAction::Commit => {}
        MemTableAction::Insert(kv) => {
            assert(kv.0.len() == kv.0@.len());
            if let ValueUpdate::Value(v) = kv.1 {
                assert(v.len() == v@.len());
            }
        }
    }
}

/// Encoding a single record.
pub proof fn lemma_enc_actions_singleton(a: MemActionV)
    ensures
        enc_actions(seq![a]) == enc_mem_action(a),
{
    assert(seq![a][0] == a);
    assert(seq![a].skip(1) =~= Seq::<MemActionV>::empty());
    assert(enc_actions(seq![a].skip(1)) == Seq::<u8>::empty());
    assert(enc_mem_action(a) + Seq::<u8>::empty() =~= enc_mem_action(a));
}

/// The view of a batch of staged records.
pub open spec fn batch_seq_view(batch: Seq<MemTableAction>) -> Seq<MemActionV> {
    batch.map_values(|a: MemTableAction| a@)
}

/// Encodes a staged batch followed by the commit marker.
fn encode_batch(batch: &Vec<MemTableAction>) -> (bytes: Vec<u8>)
    ensures
        bytes@ == enc_actions(batch_seq_view(batch@).push(MemActionV::Commit)),
{
    let ghost bv = batch_seq_view(batch@);
    let mut bytes: Vec<u8> = Vec::new();
    let mut i: usize = 0;
    while i < batch.len()
        invariant
            0 <= i <= batch.len(),
            bv == batch_seq_view(batch@),
            bytes@ == enc_actions(bv.take(i as int)),
        decreases batch.len() - i,
    {
        encode_mem_action(&mut bytes, &batch[i]);
        proof {
            assert(bv.take(i + 1) =~= bv.take(i as int) + seq![bv[i as int]]);
            lemma_enc_actions_app(bv.take(i as int), seq![bv[i as int]]);
            lemma_enc_actions_singleton(bv[i as int]);
            assert(bv[i as int] == batch@[i as int]@);
        }
        i = i + 1;
    }
    encode_mem_action(&mut bytes, &MemTableAction::Commit);
    proof {
        assert(bv.take(batch@.len() as int) =~= bv);
        assert(bv.push(MemActionV::Commit) =~= bv + seq![MemActionV::Commit]);
        lemma_enc_actions_app(bv, seq![MemActionV::Commit]);
        lemma_enc_actions_singleton(MemActionV::Commit);
    }
    bytes
}

/// Applies a batch of records to a memtable, in order.
fn apply_batch(mem: &mut MemTable, batch: &Vec<MemTableAction>)
    requires
        old(mem).wf(),
        apply_fits(old(mem).entries(), batch_seq_view(batch@)),
    ensures
        final(mem).wf(),
        final(mem).entries() == apply_actions(old(mem).entries(), batch_seq_view(batch@)),
{
    let ghost bv = batch_seq_view(batch@);
    let ghost e0 = mem.entries();
    proof {
        assert(bv.skip(0) =~= bv);
        assert(bv.take(0) =~= Seq::<MemActionV>::empty());
    }
    let mut i: usize = 0;
    while i < batch.len()
        invariant
            0 <= i <= batch.len(),
            bv == batch_seq_view(batch@),
            mem.wf(),
            mem.entries() == apply_actions(e0, bv.take(i as int)),
            apply_fits(mem.entries(), bv.skip(i as int)),
        decreases batch.len() - i,
    {
        proof {
            assert(bv.skip(i as int)[0] == bv[i as int]);
            assert(bv[i as int] == batch@[i as int]@);
        }
        let a = batch[i].clone();
        proof {
            assert(a@ == bv[i as int]);
        }
        mem.execute_action(a);
        proof {
            let one = seq![bv[i as int]];
            assert(bv.take(i + 1) =~= bv.take(i as int) + one);
            lemma_apply_actions_app(e0, bv.take(i as int), one);
            assert(one.skip(1) =~= Seq::<MemActionV>::empty());
            assert(one[0] == bv[i as int]);
            assert(apply_actions(apply_actions(e0, bv.take(i as int)), one) == apply_actions(
                apply_action(apply_actions(e0, bv.take(i as int)), bv[i as int]),
                one.skip(1),
            ));
            assert(bv.skip(i as int).skip(1) =~= bv.skip(i + 1));
        }
        i = i + 1;
    }
    proof {
        assert(bv.take(batch@.len() as int) =~= bv);
    }
}

/// The memtable together with its staged batch and the write-ahead log that
/// guards it.  The log bytes themselves live with the embedding application;
/// the keeper hands out exactly the bytes to append and tracks them in
/// ghost state, so that recovery equivalence is a theorem about the keeper.
pub struct MemTableKeeper {
    memtable: MemTable,
    batch: Vec<MemTableAction>,
    log: Ghost<Seq<u8>>,
    hist: Ghost<Seq<MemActionV>>,
}

impl MemTableKeeper {
    /// The memtable entries, in ascending key order.
    pub closed spec fn entries(self) -> Seq<(Seq<u8>, UpdateV)> {
        self.memtable.entries()
    }

    /// The mapping the memtable denotes.
    pub closed spec fn model(self) -> Map<Seq<u8>, UpdateV> {
        self.memtable.model()
    }

    /// The staged, not yet committed records.
    pub closed spec fn batch_view(self) -> Seq<MemActionV> {
        batch_seq_view(self.batch@)
    }

    /// The bytes this keeper has asked its caller to append to the log.
    pub closed spec fn log_bytes(self) -> Seq<u8> {
        self.log@
    }

    /// The accounted size of the memtable.
    pub closed spec fn spec_size(self) -> int {
        self.memtable.spec_size()
    }

    /// The keeper invariant: the memtable is well formed and is exactly the
    /// state that replaying the log bytes rebuilds.
    pub closed spec fn wf(self) -> bool {
        &&& self.memtable.wf()
        &&& self.log@ == enc_actions(self.hist@)
        &&& actions_fit(self.hist@)
        &&& pending_after(self.hist@, Seq::empty()) == Seq::<MemActionV>::empty()
        &&& apply_actions(Seq::empty(), self.hist@) == self.memtable.entries()
    }

    pub fn new() -> (r: MemTableKeeper)
        ensures
            r.wf(),
            r.entries() == Seq::<(Seq<u8>, UpdateV)>::empty(),
            r.batch_view() == Seq::<MemActionV>::empty(),
            r.log_bytes() == Seq::<u8>::empty(),
    {
        let r = MemTableKeeper {
            memtable: MemTable::new(),
            batch: Vec::new(),
            log: Ghost(Seq::empty()),
            hist: Ghost(Seq::empty()),
        };
        proof {
            assert(r.batch_view() =~= Seq::<MemActionV>::empty());
            assert(enc_actions(Seq::<MemActionV>::empty()) == Seq::<u8>::empty());
        }
        r
    }

    /// Stages a record in the current batch.
    pub fn add_action(&mut self, action: MemTableAction)
        ensures
            final(self).batch_view() == old(self).batch_view().push(action@),
            final(self).entries() == old(self).entries(),
            final(self).model() == old(self).model(),
            final(self).log_bytes() == old(self).log_bytes(),
            final(self).spec_size() == old(self).spec_size(),
            old(self).wf() ==> final(self).wf(),
    {
        self.batch.push(action);
        proof {
            assert(self.batch_view() =~= old(self).batch_view().push(action@));
        }
    }

    /// Stages an insertion in the current batch.
    pub fn insert(&mut self, key: Vec<u8>, update: ValueUpdate)
        ensures
            final(self).batch_view() == old(self).batch_view().push(
                MemActionV::Insert(key@, update@),
            ),
            final(self).entries() == old(self).entries(),
            final(self).model() == old(self).model(),
            final(self).log_bytes() == old(self).log_bytes(),
            final(self).spec_size() == old(self).spec_size(),
            old(self).wf() ==> final(self).wf(),
    {
        self.add_action(MemTableAction::Insert((key, update)));
    }

    /// Serializes the staged batch followed by the commit marker, without
    /// applying anything: the bytes to append to the log file.  The batch
    /// is durable only once the caller has appended and synced them; only
    /// then should it be applied with `commit_apply`.
    pub fn commit_encode(&self) -> (bytes: Vec<u8>)
        ensures
            bytes@ == enc_actions(self.batch_view().push(MemActionV::Commit)),
    {
        encode_batch(&self.batch)
    }

    /// Applies the staged batch to the memtable and clears it, once the
    /// caller has made the encoded batch durable.
    pub fn commit_apply(&mut self)
        requires
            old(self).wf(),
            apply_fits(old(self).entries(), old(self).batch_view()),
        ensures
            final(self).wf(),
            final(self).entries() == apply_actions(old(self).entries(), old(self).batch_view()),
            final(self).batch_view() == Seq::<MemActionV>::empty(),
            final(self).log_bytes() == old(self).log_bytes() + enc_actions(
                old(self).batch_view().push(MemActionV::Commit),
            ),
            final(self).spec_size() == entries_size(final(self).entries()),
    {
        let ghost bv = self.batch_view();
        let ghost bvc = bv.push(MemActionV::Commit);
        let ghost oldhist = self.hist@;
        proof {
            assert(apply_fits(self.memtable.entries(), bv.skip(0)) == apply_fits(
                self.memtable.entries(),
                bv,
            )) by {
                assert(bv.skip(0) =~= bv);
            }
        }
        let mem = &mut self.memtable;
        apply_batch(mem, &self.batch);
        self.batch.clear();
        proof {
            self.hist@ = oldhist + bvc;
            self.log@ = self.log@ + enc_actions(bvc);
        }
        proof {
            assert(self.batch_view() =~= Seq::<MemActionV>::empty());
            lemma_enc_actions_app(oldhist, bvc);
            assert(actions_fit(oldhist + bvc)) by {
                assert forall|i: int| 0 <= i < (oldhist + bvc).len() implies mem_action_fits(
                    #[trigger] (oldhist + bvc)[i],
                ) by {
                    if i < oldhist.len() {
                        assert((oldhist + bvc)[i] == oldhist[i]);
                    } else if i < oldhist.len() + bv.len() {
                        assert((oldhist + bvc)[i] == bvc[i - oldhist.len()]);
                        assert(bvc[i - oldhist.len()] == bv[i - oldhist.len()]);
                        lemma_action_fits(old(self).batch@[i - oldhist.len()]);
                        assert(bv[i - oldhist.len()] == old(self).batch@[i - oldhist.len()]@);
                    } else {
                        assert((oldhist + bvc)[i] == MemActionV::Commit);
                    }
                }
            }
            lemma_committed_app(oldhist, bvc, Seq::empty());
            let cm = seq![MemActionV::Commit];
            assert(bvc =~= bv + cm);
            lemma_committed_app(bv, cm, Seq::empty());
            assert(cm[0] == MemActionV::Commit);
            assert(cm.skip(1) =~= Seq::<MemActionV>::empty());
            assert(pending_after(cm, pending_after(bv, Seq::empty())) == pending_after(
                cm.skip(1),
                Seq::empty(),
            ));
            assert(pending_after(cm.skip(1), Seq::empty()) == Seq::<MemActionV>::empty());
            lemma_apply_actions_app(Seq::empty(), oldhist, bvc);
            lemma_apply_actions_app(old(self).entries(), bv, cm);
            let mid = apply_actions(old(self).entries(), bv);
            assert(apply_actions(mid, cm) == apply_actions(apply_action(mid, cm[0]), cm.skip(1)));
            assert(apply_action(mid, cm[0]) == mid);
            assert(apply_actions(mid, cm.skip(1)) == mid);
        }
    }

    /// Commits the staged batch in one step: serializes it, applies it to
    /// the memtable, and clears it.
    ///
    /// The caller must append the returned bytes to the log file and sync
    /// it; the batch is durable only after that sync.  Where the caller
    /// needs the in-memory state to stay behind an unconfirmed write, use
    /// `commit_encode` and `commit_apply` instead.
    pub fn commit(&mut self) -> (bytes: Vec<u8>)
        requires
            old(self).wf(),
            apply_fits(old(self).entries(), old(self).batch_view()),
        ensures
            final(self).wf(),
            final(self).entries() == apply_actions(old(self).entries(), old(self).batch_view()),
            final(self).batch_view() == Seq::<MemActionV>::empty(),
            bytes@ == enc_actions(old(self).batch_view().push(MemActionV::Commit)),
            final(self).log_bytes() == old(self).log_bytes() + bytes@,
    {
        let bytes = self.commit_encode();
        self.commit_apply();
        bytes
    }

    /// Discards the staged batch without applying it.
    pub fn batch_start(&mut self)
        ensures
            final(self).batch_view() == Seq::<MemActionV>::empty(),
            final(self).entries() == old(self).entries(),
            final(self).model() == old(self).model(),
            final(self).spec_size() == old(self).spec_size(),
            final(self).log_bytes() == old(self).log_bytes(),
            old(self).wf() ==> final(self).wf(),
    {
        self.batch.clear();
        proof {
            assert(self.batch_view() =~= Seq::<MemActionV>::empty());
        }
    }

    pub fn container(&self) -> (r: &MemTable)
        requires
            self.wf(),
        ensures
            r.wf(),
            r.entries() == self.entries(),
            r.model() == self.model(),
            r.spec_size() == self.spec_size(),
    {
        &self.memtable
    }

    pub fn approx_size(&self) -> (r: u64)
        requires
            self.wf(),
        ensures
            r == self.spec_size(),
    {
        self.memtable.approx_size()
    }

    /// Returns the committed update under `key`, a tombstone included.
    pub fn get<'a>(&'a self, key: &Vec<u8>) -> (r: Option<&'a ValueUpdate>)
        requires
            self.wf(),
        ensures
            match r {
                None => !self.model().contains_key(key@),
                Some(u) => self.model().contains_key(key@) && self.model()[key@] == u@,
            },
    {
        self.memtable.get(key)
    }

    pub fn front<'a>(&'a self) -> (r: Option<(&'a Vec<u8>, &'a ValueUpdate)>)
        ensures
            match r {
                None => self.entries().len() == 0,
                Some((k, u)) => self.entries().len() > 0 && self.entries()[0] == (k@, u@),
            },
    {
        self.memtable.front()
    }

    pub fn back<'a>(&'a self) -> (r: Option<(&'a Vec<u8>, &'a ValueUpdate)>)
        ensures
            match r {
                None => self.entries().len() == 0,
                Some((k, u)) => self.entries().len() > 0 && self.entries().last() == (k@, u@),
            },
    {
        self.memtable.back()
    }

    /// The committed entries in ascending key order, as plain pairs.
    pub fn entries_vec(&self) -> (r: Vec<(Vec<u8>, ValueUpdate)>)
        ensures
            r@.len() == self.entries().len(),
            forall|i: int| 0 <= i < r@.len() ==> (r@[i].0@, r@[i].1@) == self.entries()[i],
    {
        self.memtable.entries_vec()
    }

    /// Empties the memtable and the staged batch.  The caller must truncate
    /// the log file to zero length at the same time.
    pub fn reset(&mut self)
        ensures
            final(self).wf(),
            final(self).entries() == Seq::<(Seq<u8>, UpdateV)>::empty(),
            final(self).batch_view() == Seq::<MemActionV>::empty(),
            final(self).log_bytes() == Seq::<u8>::empty(),
    {
        self.memtable.clear();
        self.batch.clear();
        proof {
            self.log@ = Seq::empty();
            self.hist@ = Seq::empty();
        }
        proof {
            assert(self.batch_view() =~= Seq::<MemActionV>::empty());
            assert(enc_actions(Seq::<MemActionV>::empty()) == Seq::<u8>::empty());
        }
    }

    pub fn len(&self) -> (r: usize)
        ensures
            r == self.entries().len(),
    {
        self.memtable.len()
    }

    pub fn is_empty(&self) -> (r: bool)
        ensures
            r == (self.entries().len() == 0),
    {
        self.memtable.is_empty()
    }

    /// True exactly when the accounted size has reached the flush threshold.
    pub fn should_flush(&self) -> (r: bool)
        requires
            self.wf(),
        ensures
            r == (self.spec_size() >= 0x100000),
    {
        self.memtable.should_flush()
    }

    /// Rebuilds a keeper from the bytes of its log file, applying committed
    /// groups and discarding a torn tail.  Returns the keeper and the number
    /// of leading log bytes worth keeping; the caller must truncate the log
    /// file to that length.
    pub fn recover(buf: &Vec<u8>) -> (r: (MemTableKeeper, usize))
        requires
            apply_fits(Seq::empty(), wal_commits(buf@, Seq::empty())),
        ensures
            r.0.wf(),
            r.0.entries() == apply_actions(Seq::empty(), wal_commits(buf@, Seq::empty())),
            r.0.batch_view() == Seq::<MemActionV>::empty(),
            r.1 == wal_commit_len(buf@),
    {
        let ghost full = wal_commits(buf@, Seq::empty());
        let mut mem = MemTable::new();
        let mut pending: Vec<MemTableAction> = Vec::new();
        let mut cur: usize = 0;
        let mut keep: usize = 0;
        let ghost mut committed: Seq<MemActionV> = Seq::empty();
        let ghost mut done: Seq<MemActionV> = Seq::empty();
        let ghost mut keep_acts: Seq<MemActionV> = Seq::empty();
        let mut stop = false;
        proof {
            assert(batch_seq_view(pending@) =~= Seq::<MemActionV>::empty());
            assert(buf@.skip(0) =~= buf@);
            lemma_wal_commit_len_nonneg(buf@);
        }
        while !stop
            invariant
                0 <= keep <= cur <= buf.len(),
                mem.wf(),
                batch_seq_view(pending@) == pending_after(done, Seq::empty()),
                committed == committed_acc(done, Seq::empty()),
                actions_fit(done),
                mem.entries() == apply_actions(Seq::empty(), committed),
                full == committed + wal_commits(
                    buf@.skip(cur as int),
                    batch_seq_view(pending@),
                ),
                apply_fits(
                    mem.entries(),
                    wal_commits(buf@.skip(cur as int), batch_seq_view(pending@)),
                ),
                committed_acc(keep_acts, Seq::empty()) == committed,
                pending_after(keep_acts, Seq::empty()) == Seq::<MemActionV>::empty(),
                actions_fit(keep_acts),
                wal_commit_len(buf@) == if wal_commit_len(buf@.skip(cur as int)) > 0 {
                    cur + wal_commit_len(buf@.skip(cur as int))
                } else {
                    keep as int
                },
                stop ==> wal_commits(buf@.skip(cur as int), batch_seq_view(pending@))
                    == Seq::<MemActionV>::empty() && wal_commit_len(buf@.skip(cur as int)) == 0,
            decreases buf.len() - cur + if stop {
                0int
            } else {
                1int
            },
        {
            let ghost pv = batch_seq_view(pending@);
            match decode_mem_action(buf, cur) {
                None => {
                    stop = true;
                }
                Some((a, end)) => {
                    let ghost c = end - cur;
                    let ghost done_old = done;
                    proof {
                        lemma_action_fits(a);
                        assert(parse_mem_action(buf@.skip(cur as int)) == Some((a@, c)));
                        assert(1 <= c <= buf@.skip(cur as int).len());
                        assert(buf@.skip(cur as int).skip(c) =~= buf@.skip(end as int));
                        lemma_wal_commit_len_nonneg(buf@.skip(end as int));
                        done = done_old.push(a@);
                        assert(done =~= done_old + seq![a@]);
                        lemma_committed_app(done_old, seq![a@], Seq::empty());
                        assert(seq![a@][0] == a@);
                        assert(seq![a@].skip(1) =~= Seq::<MemActionV>::empty());
                    }
                    let is_commit = match &a {
                        MemTableAction::Commit => true,
                        MemTableAction::Insert(_) => false,
                    };
                    proof {
                        assert(is_commit == (a@ is Commit));
                    }
                    if is_commit {
                        proof {
                            // The head of the remaining stream is a commit
                            // marker: the pending group is released.
                            assert(wal_commits(buf@.skip(cur as int), pv) == pv + wal_commits(
                                buf@.skip(end as int),
                                Seq::empty(),
                            ));
                            lemma_apply_fits_app(
                                mem.entries(),
                                pv,
                                wal_commits(buf@.skip(end as int), Seq::empty()),
                            );
                            assert(wal_commit_len(buf@.skip(cur as int)) == c + wal_commit_len(
                                buf@.skip(end as int),
                            ));
                        }
                        let ghost e_before = mem.entries();
                        apply_batch(&mut mem, &pending);
                        pending.clear();
                        keep = end;
                        proof {
                            let committed_old = committed;
                            committed = committed_old + pv;
                            keep_acts = done;
                            // committed bookkeeping
                            assert(pending_after(seq![a@], pending_after(
                                done_old,
                                Seq::empty(),
                            )) == pending_after(seq![a@].skip(1), Seq::empty()));
                            assert(committed_acc(seq![a@], pv) == pv + committed_acc(
                                seq![a@].skip(1),
                                Seq::empty(),
                            ));
                            assert(pv + Seq::<MemActionV>::empty() =~= pv);
                            assert(committed_acc(done, Seq::empty()) =~= committed_old + pv);
                            assert(batch_seq_view(pending@) =~= Seq::<MemActionV>::empty());
                            assert(pending_after(done, Seq::empty()) == Seq::<
                                MemActionV,
                            >::empty());
                            lemma_apply_actions_app(Seq::empty(), committed_old, pv);
                            assert(mem.entries() == apply_actions(e_before, pv));
                            assert(mem.entries() == apply_actions(Seq::empty(), committed));
                            assert(full =~= committed + wal_commits(
                                buf@.skip(end as int),
                                Seq::empty(),
                            ));
                        }
                    } else {
                        pending.push(a);
                        proof {
                            assert(batch_seq_view(pending@) =~= pv.push(a@));
                            assert(wal_commits(buf@.skip(cur as int), pv) == wal_commits(
                                buf@.skip(end as int),
                                pv.push(a@),
                            ));
                            let one = seq![a@];
                            assert(one[0] == a@);
                            assert(one.skip(1) =~= Seq::<MemActionV>::empty());
                            assert(!(a@ is Commit));
                            assert(pending_after(one, pv) == pending_after(
                                one.skip(1),
                                pv.push(a@),
                            ));
                            assert(pending_after(one.skip(1), pv.push(a@)) == pv.push(a@));
                            assert(pending_after(done_old, Seq::empty()) == pv);
                            assert(pending_after(one, pending_after(done_old, Seq::empty()))
                                == pv.push(a@));
                            assert(committed_acc(one, pv) == committed_acc(
                                one.skip(1),
                                pv.push(a@),
                            ));
                            assert(committed_acc(one.skip(1), pv.push(a@)) == Seq::<
                                MemActionV,
                            >::empty());
                            assert(committed_acc(seq![a@], pv) == Seq::<MemActionV>::empty());
                            assert(committed + Seq::<MemActionV>::empty() =~= committed);
                            assert(committed_acc(done, Seq::empty()) =~= committed);
                            assert(wal_commit_len(buf@.skip(cur as int)) == if wal_commit_len(
                                buf@.skip(end as int),
                            ) > 0 {
                                c + wal_commit_len(buf@.skip(end as int))
                            } else {
                                0int
                            });
                        }
                    }
                    cur = end;
                    proof {
                        assert forall|i: int| 0 <= i < done.len() implies mem_action_fits(
                            #[trigger] done[i],
                        ) by {
                            if i < done_old.len() {
                                assert(done[i] == done_old[i]);
                            } else {
                                assert(done[i] == a@);
                            }
                        }
                    }
                }
            }
        }
        proof {
            assert(full == committed);
            lemma_committed_all(keep_acts, Seq::empty());
            assert(committed_acc(keep_acts, Seq::empty()) + pending_after(
                keep_acts,
                Seq::empty(),
            ) =~= non_commits(keep_acts));
            assert(non_commits(keep_acts) == committed);
            lemma_apply_non_commits(Seq::empty(), keep_acts);
            assert(apply_actions(Seq::empty(), keep_acts) == mem.entries());
        }
        let keeper = MemTableKeeper {
            memtable: mem,
            batch: Vec::new(),
            log: Ghost(enc_actions(keep_acts)),
            hist: Ghost(keep_acts),
        };
        proof {
            assert(keeper.batch_view() =~= Seq::<MemActionV>::empty());
        }
        (keeper, keep)
    }
}

/// Recovery equivalence for the memtable log: replaying the bytes a keeper
/// has committed rebuilds exactly the keeper's entries.  Together with
/// `MemTableKeeper::recover`, whose result is the replay of the bytes it is
/// given, a recovered keeper holds the same contents as the one that wrote
/// the log.
pub proof fn lemma_recovery_equivalence(k: MemTableKeeper)
    requires
        k.wf(),
    ensures
        apply_actions(Seq::empty(), wal_commits(k.log_bytes(), Seq::empty())) == k.entries(),
{
    let hist = k.hist@;
    lemma_wal_stream(hist, Seq::empty(), Seq::empty());
    assert(enc_actions(hist) + Seq::<u8>::empty() =~= enc_actions(hist));
    assert(wal_commits(Seq::empty(), pending_after(hist, Seq::empty())) == Seq::<
        MemActionV,
    >::empty());
    assert(wal_commits(k.log_bytes(), Seq::empty()) =~= committed_acc(hist, Seq::empty()));
    lemma_committed_all(hist, Seq::empty());
    assert(committed_acc(hist, Seq::empty()) + pending_after(hist, Seq::empty()) =~=
    non_commits(hist));
    assert(committed_acc(hist, Seq::empty()) == non_commits(hist));
    lemma_apply_non_commits(Seq::empty(), hist);
}

/// What the keeper invariant gives its callers: sorted entries and an
/// accounted size.
pub proof fn lemma_keeper_wf(k: MemTableKeeper)
    requires
        k.wf(),
    ensures
        entries_sorted(k.entries()),
        k.spec_size() == entries_size(k.entries()),
        0 <= k.spec_size() <= u64::MAX,
{
    lemma_entries_size_nonneg(k.entries());
}

/// The keeper's mapping is the mapping its entries denote.
pub proof fn lemma_keeper_model(k: MemTableKeeper)
    ensures
        k.model() == entries_map(k.entries()),
{
}

} // verus!
