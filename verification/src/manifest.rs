//! The manifest: the durable catalog naming the live SSTs of every level,
//! the per-level id allocator, and the per-level compaction cursor.
//!
//! The in-memory catalog lives here together with the journaled keeper; the
//! keeper hands byte buffers to the embedding application, which owns the
//! files.

use vstd::prelude::*;

use crate::codec::{
    decode_man_action, enc_bytes, enc_man_action, enc_u64, encode_bytes, encode_man_action,
    encode_u64, lemma_enc_bytes_len, lemma_enc_u64_len, lemma_parse_enc_bytes,
    lemma_parse_enc_man_action, lemma_parse_enc_u64, lemma_parse_man_action_bounds,
    lemma_parse_man_action_short, man_action_fits, parse_bytes, parse_man_action, parse_u64,
};
use crate::keys::{key_cmp, lex_le, lex_lt, KeyOrd};
use crate::sstable::{sst_id_lt, SstId};

verus! {

/// A live SST and its key range.
pub struct SstRange {
    pub id: SstId,
    pub first_key: Vec<u8>,
    pub last_key: Vec<u8>,
}

/// The view of one live SST entry.
pub open spec fn range_view(r: SstRange) -> (SstId, Seq<u8>, Seq<u8>) {
    (r.id, r.first_key@, r.last_key@)
}

/// The view of the live table.
pub open spec fn ranges_view(v: Seq<SstRange>) -> Seq<(SstId, Seq<u8>, Seq<u8>)> {
    v.map_values(|r: SstRange| range_view(r))
}

/// Whether a level/value association holds a key.
pub open spec fn assoc_has(s: Seq<(u64, u64)>, k: u64) -> bool {
    exists|i: int| 0 <= i < s.len() && s[i].0 == k
}

/// The value an association holds under a key (keys are unique).
pub open spec fn assoc_val(s: Seq<(u64, u64)>, k: u64) -> u64
    decreases s.len(),
{
    if s.len() == 0 {
        0
    } else if s[0].0 == k {
        s[0].1
    } else {
        assoc_val(s.skip(1), k)
    }
}

/// Whether a level/key association holds a key.
pub open spec fn kassoc_has(s: Seq<(u64, Seq<u8>)>, k: u64) -> bool {
    exists|i: int| 0 <= i < s.len() && s[i].0 == k
}

/// The byte string a level/key association holds under a key.
pub open spec fn kassoc_val(s: Seq<(u64, Seq<u8>)>, k: u64) -> Seq<u8>
    decreases s.len(),
{
    if s.len() == 0 {
        Seq::empty()
    } else if s[0].0 == k {
        s[0].1
    } else {
        kassoc_val(s.skip(1), k)
    }
}

/// Replaces the first entry of a key, or appends a fresh one.
pub open spec fn kassoc_set(s: Seq<(u64, Seq<u8>)>, k: u64, v: Seq<u8>) -> Seq<(u64, Seq<u8>)>
    decreases s.len(),
{
    if s.len() == 0 {
        seq![(k, v)]
    } else if s[0].0 == k {
        seq![(k, v)] + s.skip(1)
    } else {
        seq![s[0]] + kassoc_set(s.skip(1), k, v)
    }
}

/// Replaces the first entry of a key, or appends a fresh one.
pub open spec fn assoc_set(s: Seq<(u64, u64)>, k: u64, v: u64) -> Seq<(u64, u64)>
    decreases s.len(),
{
    if s.len() == 0 {
        seq![(k, v)]
    } else if s[0].0 == k {
        seq![(k, v)] + s.skip(1)
    } else {
        seq![s[0]] + assoc_set(s.skip(1), k, v)
    }
}

/// Whether an id is among the live entries.
pub open spec fn live_has(v: Seq<(SstId, Seq<u8>, Seq<u8>)>, id: SstId) -> bool {
    exists|i: int| 0 <= i < v.len() && v[i].0 == id
}

/// The catalog: the next-id allocator, the compaction cursors, and the live
/// SSTs with their ranges.  Every association has each key at most once,
/// and every live id appears at most once.
pub struct Manifest {
    new_ids: Vec<(u64, u64)>,
    compact_keys: Vec<(u64, Vec<u8>)>,
    ssts: Vec<SstRange>,
}

/// A record of the manifest log.
pub enum ManifestAction {
    Commit,
    Add((SstId, Vec<u8>, Vec<u8>)),
    Remove((SstId,)),
    NewId((u64,)),
    NextCompact((u64,)),
}

/// Specification-level form of a `ManifestAction`.
pub enum ManActionV {
    Commit,
    Add(SstId, Seq<u8>, Seq<u8>),
    Remove(SstId),
    NewId(u64),
    NextCompact(u64),
}

impl View for ManifestAction {
    type V = ManActionV;

    open spec fn view(&self) -> ManActionV {
        match self {
            ManifestAction::Commit => ManActionV::Commit,
            ManifestAction::Add(t) => ManActionV::Add(t.0, t.1@, t.2@),
            ManifestAction::Remove(t) => ManActionV::Remove(t.0),
            ManifestAction::NewId(t) => ManActionV::NewId(t.0),
            ManifestAction::NextCompact(t) => ManActionV::NextCompact(t.0),
        }
    }
}

impl Clone for ManifestAction {
    fn clone(&self) -> (r: Self)
        ensures
            r@ == self@,
    {
        match self {
            ManifestAction::Commit => ManifestAction::Commit,
            ManifestAction::Add(t) => ManifestAction::Add((t.0, t.1.clone(), t.2.clone())),
            ManifestAction::Remove(t) => ManifestAction::Remove((t.0,)),
            ManifestAction::NewId(t) => ManifestAction::NewId((t.0,)),
            ManifestAction::NextCompact(t) => ManifestAction::NextCompact((t.0,)),
        }
    }
}

impl Manifest {
    /// The allocator association.
    pub closed spec fn new_ids_view(self) -> Seq<(u64, u64)> {
        self.new_ids@
    }

    /// The compaction cursor association.
    pub closed spec fn compact_view(self) -> Seq<(u64, Seq<u8>)> {
        self.compact_keys@.map_values(|e: (u64, Vec<u8>)| (e.0, e.1@))
    }

    /// The live SSTs with their ranges, in insertion order.
    pub closed spec fn live(self) -> Seq<(SstId, Seq<u8>, Seq<u8>)> {
        ranges_view(self.ssts@)
    }

    /// Keys unique in every association.
    pub closed spec fn wf(self) -> bool {
        &&& forall|i: int, j: int|
            0 <= i < j < self.new_ids@.len() ==> (#[trigger] self.new_ids@[i]).0 != (
            #[trigger] self.new_ids@[j]).0
        &&& forall|i: int, j: int|
            0 <= i < j < self.compact_keys@.len() ==> (#[trigger] self.compact_keys@[i]).0 != (
            #[trigger] self.compact_keys@[j]).0
        &&& forall|i: int, j: int|
            0 <= i < j < self.live().len() ==> (#[trigger] self.live()[i]).0 != (
            #[trigger] self.live()[j]).0
    }

    /// The next id the allocator will hand out at a level.
    pub open spec fn next_id_of(self, level: u64) -> u64 {
        if assoc_has(self.new_ids_view(), level) {
            assoc_val(self.new_ids_view(), level)
        } else {
            0
        }
    }

    pub fn new() -> (r: Manifest)
        ensures
            r.wf(),
            r.live() == Seq::<(SstId, Seq<u8>, Seq<u8>)>::empty(),
            r.new_ids_view() == Seq::<(u64, u64)>::empty(),
            r.compact_view() == Seq::<(u64, Seq<u8>)>::empty(),
    {
        let r = Manifest { new_ids: Vec::new(), compact_keys: Vec::new(), ssts: Vec::new() };
        proof {
            assert(r.live() =~= Seq::<(SstId, Seq<u8>, Seq<u8>)>::empty());
            assert(r.compact_view() =~= Seq::<(u64, Seq<u8>)>::empty());
        }
        r
    }

    /// The deepest level holding a live SST; zero when none does.
    pub fn max_level(&self) -> (r: u64)
        ensures
            forall|i: int| 0 <= i < self.live().len() ==> (#[trigger] self.live()[i]).0.level <= r,
            r != 0 ==> exists|i: int|
                0 <= i < self.live().len() && (#[trigger] self.live()[i]).0.level == r,
    {
        let mut r: u64 = 0;
        let mut i: usize = 0;
        while i < self.ssts.len()
            invariant
                0 <= i <= self.ssts@.len(),
                forall|q: int| 0 <= q < i ==> (#[trigger] self.live()[q]).0.level <= r,
                r != 0 ==> exists|q: int|
                    0 <= q < i && (#[trigger] self.live()[q]).0.level == r,
            decreases self.ssts@.len() - i,
        {
            proof {
                assert(self.live()[i as int] == range_view(self.ssts@[i as int]));
            }
            if self.ssts[i].id.level > r {
                r = self.ssts[i].id.level;
            }
            i = i + 1;
        }
        r
    }

    /// The live ids of one level, in catalog order: exactly the ids the
    /// level holds, each once.
    #[verifier::loop_isolation(false)]
    pub fn get_sst_by_level(&self, level: u64) -> (r: Vec<SstId>)
        ensures
            r@ == level_ids(self.live(), level),
    {
        let ghost live = self.live();
        let mut r: Vec<SstId> = Vec::new();
        let mut i: usize = 0;
        proof {
            assert(live.take(0) =~= Seq::<(SstId, Seq<u8>, Seq<u8>)>::empty());
            assert(r@ =~= level_ids(live.take(0), level));
        }
        while i < self.ssts.len()
            invariant
                0 <= i <= self.ssts@.len(),
                live.len() == self.ssts@.len(),
                r@ == level_ids(live.take(i as int), level),
            decreases self.ssts@.len() - i,
        {
            proof {
                assert(live[i as int] == range_view(self.ssts@[i as int]));
            }
            if self.ssts[i].id.level == level {
                r.push(self.ssts[i].id);
            }
            proof {
                let one = seq![live[i as int]];
                assert(live.take(i + 1) =~= live.take(i as int) + one);
                lemma_level_ids_app(live.take(i as int), one, level);
                assert(one.skip(1) =~= Seq::<(SstId, Seq<u8>, Seq<u8>)>::empty());
                assert(one[0] == live[i as int]);
                assert(level_ids(one.skip(1), level) == Seq::<SstId>::empty());
                if live[i as int].0.level == level {
                    assert(level_ids(one, level) =~= seq![live[i as int].0]);
                } else {
                    assert(level_ids(one, level) =~= Seq::<SstId>::empty());
                }
                assert(r@ =~= level_ids(live.take(i + 1), level));
            }
            i = i + 1;
        }
        proof {
            assert(live.take(live.len() as int) =~= live);
        }
        r
    }

    /// Installs an SST as live, recording its key range; an entry for the
    /// same id is replaced.
    pub fn add_sst(&mut self, sst_id: SstId, first_key: &Vec<u8>, last_key: &Vec<u8>)
        requires
            old(self).wf(),
            lex_le(first_key@, last_key@),
        ensures
            final(self).wf(),
            final(self).live() == old(self).live().filter(
                |e: (SstId, Seq<u8>, Seq<u8>)| e.0 != sst_id,
            ).push((sst_id, first_key@, last_key@)),
            final(self).new_ids_view() == old(self).new_ids_view(),
            final(self).compact_view() == old(self).compact_view(),
    {
        self.remove_sst(&sst_id);
        let ghost mid = self.live();
        self.ssts.push(
            SstRange { id: sst_id, first_key: first_key.clone(), last_key: last_key.clone() },
        );
        proof {
            assert(self.live() =~= mid.push((sst_id, first_key@, last_key@)));
            assert forall|i: int, j: int| 0 <= i < j < self.live().len() implies (
            #[trigger] self.live()[i]).0 != (#[trigger] self.live()[j]).0 by {
                if j == self.live().len() - 1 {
                    assert(self.live()[i] == mid[i]);
                    assert(!live_has(mid, sst_id));
                }
            }
        }
    }

    /// Retires an SST.
    pub fn remove_sst(&mut self, sst_id: &SstId)
        requires
            old(self).wf(),
        ensures
            final(self).wf(),
            final(self).live() == old(self).live().filter(
                |e: (SstId, Seq<u8>, Seq<u8>)| e.0 != *sst_id,
            ),
            !live_has(final(self).live(), *sst_id),
            final(self).new_ids_view() == old(self).new_ids_view(),
            final(self).compact_view() == old(self).compact_view(),
    {
        let ghost olds = self.ssts@;
        let mut kept: Vec<SstRange> = Vec::new();
        let mut i: usize = 0;
        proof {
            assert(ranges_view(olds).take(0int) =~= Seq::<(SstId, Seq<u8>, Seq<u8>)>::empty());
            assert(ranges_view(olds).take(0int).filter(
                |e: (SstId, Seq<u8>, Seq<u8>)| e.0 != *sst_id,
            ) =~= Seq::<(SstId, Seq<u8>, Seq<u8>)>::empty());
            assert(ranges_view(kept@) =~= Seq::<(SstId, Seq<u8>, Seq<u8>)>::empty());
        }
        while i < self.ssts.len()
            invariant
                0 <= i <= self.ssts@.len(),
                self.ssts@ == olds,
                ranges_view(kept@) == ranges_view(olds).take(i as int).filter(
                    |e: (SstId, Seq<u8>, Seq<u8>)| e.0 != *sst_id,
                ),
            decreases self.ssts@.len() - i,
        {
            let ghost kv = ranges_view(kept@);
            let ghost f = |e: (SstId, Seq<u8>, Seq<u8>)| e.0 != *sst_id;
            proof {
                assert(ranges_view(olds)[i as int] == range_view(olds[i as int]));
                assert(ranges_view(olds).take(i + 1) =~= ranges_view(olds).take(i as int)
                    + seq![ranges_view(olds)[i as int]]);
                Seq::filter_distributes_over_add(
                    ranges_view(olds).take(i as int),
                    seq![ranges_view(olds)[i as int]],
                    f,
                );
                reveal(Seq::filter);
                assert(seq![ranges_view(olds)[i as int]].drop_last() =~= Seq::<
                    (SstId, Seq<u8>, Seq<u8>),
                >::empty());
            }
            let keep = !(self.ssts[i].id.level == sst_id.level && self.ssts[i].id.id
                == sst_id.id);
            proof {
                reveal(Seq::filter);
                assert(keep == (olds[i as int].id != *sst_id));
                let one = seq![ranges_view(olds)[i as int]];
                assert(one.drop_last() =~= Seq::<(SstId, Seq<u8>, Seq<u8>)>::empty());
                assert(Seq::<(SstId, Seq<u8>, Seq<u8>)>::empty().filter(f) =~= Seq::<
                    (SstId, Seq<u8>, Seq<u8>),
                >::empty());
                assert(one.last() == ranges_view(olds)[i as int]);
                assert(one.filter(f) =~= if f(ranges_view(olds)[i as int]) {
                    one
                } else {
                    Seq::<(SstId, Seq<u8>, Seq<u8>)>::empty()
                });
            }
            if keep {
                let e = &self.ssts[i];
                kept.push(
                    SstRange {
                        id: e.id,
                        first_key: e.first_key.clone(),
                        last_key: e.last_key.clone(),
                    },
                );
                proof {
                    assert(ranges_view(kept@) =~= kv.push(ranges_view(olds)[i as int]));
                }
            }
            i = i + 1;
        }
        proof {
            assert(ranges_view(olds).take(olds.len() as int) =~= ranges_view(olds));
        }
        self.ssts = kept;
        proof {
            broadcast use vstd::seq_lib::group_filter_ensures;

            let f = |e: (SstId, Seq<u8>, Seq<u8>)| e.0 != *sst_id;
            let fl = ranges_view(olds).filter(f);
            assert(!live_has(self.live(), *sst_id)) by {
                if live_has(self.live(), *sst_id) {
                    let q = choose|q: int| 0 <= q < fl.len() && fl[q].0 == *sst_id;
                    assert(f(fl[q]));
                }
            }
            assert forall|i2: int, j2: int| 0 <= i2 < j2 < self.live().len() implies (
            #[trigger] self.live()[i2]).0 != (#[trigger] self.live()[j2]).0 by {
                let fseq = ranges_view(olds);
                // Two equal ids among the kept entries would be two equal
                // ids among the original entries.
                if self.live()[i2].0 == self.live()[j2].0 {
                    lemma_filter_two(fseq, f, i2, j2);
                    let (a, b) = choose|a: int, b: int|
                        0 <= a < b < fseq.len() && fseq[a] == fseq.filter(f)[i2] && fseq[b]
                            == fseq.filter(f)[j2];
                    assert(old(self).live()[a] == fseq[a]);
                    assert(old(self).live()[b] == fseq[b]);
                    assert(fseq[a].0 != fseq[b].0);
                }
            }
        }
    }
}

/// Two positions of a filtered sequence come from two positions of the
/// original, in order.
pub proof fn lemma_filter_two(
    s: Seq<(SstId, Seq<u8>, Seq<u8>)>,
    f: spec_fn((SstId, Seq<u8>, Seq<u8>)) -> bool,
    i: int,
    j: int,
)
    requires
        0 <= i < j < s.filter(f).len(),
    ensures
        exists|a: int, b: int|
            0 <= a < b < s.len() && s[a] == s.filter(f)[i] && s[b] == s.filter(f)[j],
    decreases s.len(),
{
    reveal(Seq::filter);
    if s.len() > 0 {
        let fl = s.filter(f);
        let dl = s.drop_last();
        if f(s.last()) {
            if j == fl.len() - 1 {
                if i < dl.filter(f).len() {
                    lemma_filter_one(dl, f, i);
                    let a = choose|a: int|
                        0 <= a < dl.len() && dl[a] == dl.filter(f)[i];
                    assert(s[a] == fl[i]);
                    assert(s[s.len() - 1] == fl[j]);
                }
            } else {
                lemma_filter_two(dl, f, i, j);
                let (a, b) = choose|a: int, b: int|
                    0 <= a < b < dl.len() && dl[a] == dl.filter(f)[i] && dl[b] == dl.filter(
                        f,
                    )[j];
                assert(s[a] == fl[i] && s[b] == fl[j]);
            }
        } else {
            lemma_filter_two(dl, f, i, j);
            let (a, b) = choose|a: int, b: int|
                0 <= a < b < dl.len() && dl[a] == dl.filter(f)[i] && dl[b] == dl.filter(f)[j];
            assert(s[a] == fl[i] && s[b] == fl[j]);
        }
    }
}

/// One position of a filtered sequence comes from a position of the
/// original.
pub proof fn lemma_filter_one(
    s: Seq<(SstId, Seq<u8>, Seq<u8>)>,
    f: spec_fn((SstId, Seq<u8>, Seq<u8>)) -> bool,
    i: int,
)
    requires
        0 <= i < s.filter(f).len(),
    ensures
        exists|a: int| 0 <= a < s.len() && s[a] == s.filter(f)[i],
    decreases s.len(),
{
    reveal(Seq::filter);
    if s.len() > 0 {
        let fl = s.filter(f);
        let dl = s.drop_last();
        if f(s.last()) && i == fl.len() - 1 {
            assert(s[s.len() - 1] == fl[i]);
        } else {
            lemma_filter_one(dl, f, i);
            let a = choose|a: int| 0 <= a < dl.len() && dl[a] == dl.filter(f)[i];
            assert(s[a] == fl[i]);
        }
    }
}

/// The live entry of an id (ids are unique among live entries).
pub open spec fn live_entry(v: Seq<(SstId, Seq<u8>, Seq<u8>)>, id: SstId) -> (
    SstId,
    Seq<u8>,
    Seq<u8>,
) {
    v[choose|i: int| 0 <= i < v.len() && v[i].0 == id]
}

/// Whether two closed key ranges intersect.
pub open spec fn ranges_overlap(a: (Seq<u8>, Seq<u8>), b: (Seq<u8>, Seq<u8>)) -> bool {
    lex_le(b.0, a.1) && lex_le(a.0, b.1)
}

impl Manifest {
    /// With unique ids, any live index of `id` holds its one entry.
    pub proof fn lemma_live_unique(self, id: SstId, i: int)
        requires
            self.wf(),
            0 <= i < self.live().len(),
            self.live()[i].0 == id,
        ensures
            live_entry(self.live(), id) == self.live()[i],
    {
        let q = choose|q: int| 0 <= q < self.live().len() && self.live()[q].0 == id;
        if q != i {
            if q < i {
                assert(self.live()[q].0 != self.live()[i].0);
            } else {
                assert(self.live()[i].0 != self.live()[q].0);
            }
        }
    }

    /// Every live id, in catalog order, each exactly once.
    pub fn active_sst_ids(&self) -> (r: Vec<SstId>)
        requires
            self.wf(),
        ensures
            r@.len() == self.live().len(),
            forall|q: int| 0 <= q < r@.len() ==> #[trigger] r@[q] == self.live()[q].0,
            forall|q1: int, q2: int|
                0 <= q1 < q2 < r@.len() ==> #[trigger] r@[q1] != #[trigger] r@[q2],
    {
        let mut r: Vec<SstId> = Vec::new();
        let mut i: usize = 0;
        while i < self.ssts.len()
            invariant
                0 <= i <= self.ssts@.len(),
                r@.len() == i,
                forall|q: int| 0 <= q < i ==> #[trigger] r@[q] == self.live()[q].0,
            decreases self.ssts@.len() - i,
        {
            proof {
                assert(self.live()[i as int] == range_view(self.ssts@[i as int]));
            }
            r.push(self.ssts[i].id);
            i = i + 1;
        }
        proof {
            assert forall|q1: int, q2: int| 0 <= q1 < q2 < r@.len() implies #[trigger] r@[q1]
                != #[trigger] r@[q2] by {
                assert(r@[q1] == self.live()[q1].0);
                assert(r@[q2] == self.live()[q2].0);
            }
        }
        r
    }

    /// The live SSTs whose closed key range contains `key`, in catalog
    /// order: exactly the candidates a read must consult, each once.
    #[verifier::loop_isolation(false)]
    pub fn get_sst_by_key(&self, key: &Vec<u8>) -> (r: Vec<SstId>)
        requires
            self.wf(),
        ensures
            r@ == key_hit_ids(self.live(), key@),
    {
        let ghost live = self.live();
        let mut r: Vec<SstId> = Vec::new();
        let mut i: usize = 0;
        proof {
            assert(live.take(0) =~= Seq::<(SstId, Seq<u8>, Seq<u8>)>::empty());
            assert(r@ =~= key_hit_ids(live.take(0), key@));
        }
        while i < self.ssts.len()
            invariant
                0 <= i <= self.ssts@.len(),
                live.len() == self.ssts@.len(),
                r@ == key_hit_ids(live.take(i as int), key@),
            decreases self.ssts@.len() - i,
        {
            proof {
                assert(live[i as int] == range_view(self.ssts@[i as int]));
            }
            let e = &self.ssts[i];
            let lo = match key_cmp(&e.first_key, key) {
                KeyOrd::Greater => false,
                _ => true,
            };
            let hi = match key_cmp(key, &e.last_key) {
                KeyOrd::Greater => false,
                _ => true,
            };
            if lo && hi {
                r.push(e.id);
            }
            proof {
                let one = seq![live[i as int]];
                assert(live.take(i + 1) =~= live.take(i as int) + one);
                lemma_key_hit_ids_app(live.take(i as int), one, key@);
                assert(one.skip(1) =~= Seq::<(SstId, Seq<u8>, Seq<u8>)>::empty());
                assert(one[0] == live[i as int]);
                assert(key_hit_ids(one.skip(1), key@) == Seq::<SstId>::empty());
                if lex_le(live[i as int].1, key@) && lex_le(key@, live[i as int].2) {
                    assert(key_hit_ids(one, key@) =~= seq![live[i as int].0]);
                } else {
                    assert(key_hit_ids(one, key@) =~= Seq::<SstId>::empty());
                }
                assert(r@ =~= key_hit_ids(live.take(i + 1), key@));
            }
            i = i + 1;
        }
        proof {
            assert(live.take(live.len() as int) =~= live);
        }
        r
    }

    /// The live SSTs of the level below `id` whose range intersects the
    /// range of `id`: the tables a compaction of `id` must also consume.
    pub fn get_overlappings(&self, id: &SstId) -> (r: Vec<SstId>)
        requires
            self.wf(),
            id.level < u64::MAX,
        ensures
            forall|q: int|
                0 <= q < r@.len() ==> live_has(self.live(), #[trigger] r@[q]) && r@[q].level
                    == id.level + 1,
            live_has(self.live(), *id) ==> forall|i: int|
                0 <= i < self.live().len() && (#[trigger] self.live()[i]).0.level == id.level + 1
                    && ranges_overlap(
                    (live_entry(self.live(), *id).1, live_entry(self.live(), *id).2),
                    (self.live()[i].1, self.live()[i].2),
                ) ==> r@.contains(self.live()[i].0),
            !live_has(self.live(), *id) ==> r@.len() == 0,
            forall|q1: int, q2: int|
                0 <= q1 < q2 < r@.len() ==> #[trigger] r@[q1] != #[trigger] r@[q2],
    {
        let mut r: Vec<SstId> = Vec::new();
        // The range of `id` itself.
        let mut me: Option<(Vec<u8>, Vec<u8>)> = None;
        let mut i: usize = 0;
        while i < self.ssts.len()
            invariant
                self.wf(),
                0 <= i <= self.ssts@.len(),
                r@.len() == 0,
                match me {
                    None => forall|q: int|
                        0 <= q < i ==> (#[trigger] self.live()[q]).0 != *id,
                    Some(fl) => live_has(self.live(), *id) && fl.0@ == live_entry(
                        self.live(),
                        *id,
                    ).1 && fl.1@ == live_entry(self.live(), *id).2,
                },
            decreases self.ssts@.len() - i,
        {
            proof {
                assert(self.live()[i as int] == range_view(self.ssts@[i as int]));
            }
            let e = &self.ssts[i];
            if e.id.level == id.level && e.id.id == id.id {
                proof {
                    self.lemma_live_unique(*id, i as int);
                }
                me = Some((e.first_key.clone(), e.last_key.clone()));
            }
            i = i + 1;
        }
        match me {
            None => {
                proof {
                    if live_has(self.live(), *id) {
                        let q = choose|q: int|
                            0 <= q < self.live().len() && self.live()[q].0 == *id;
                        assert(self.live()[q].0 != *id);
                    }
                }
                r
            }
            Some(fl) => {
                let (start, end) = fl;
                let lvl = id.level + 1;
                let mut j: usize = 0;
                let ghost mut srcs: Seq<int> = Seq::empty();
                while j < self.ssts.len()
                    invariant
                        self.wf(),
                        0 <= j <= self.ssts@.len(),
                        srcs.len() == r@.len(),
                        forall|q: int|
                            0 <= q < srcs.len() ==> 0 <= #[trigger] srcs[q] && srcs[q] < j
                                && r@[q] == self.live()[srcs[q]].0,
                        forall|q1: int, q2: int| 0 <= q1 < q2 < srcs.len() ==> srcs[q1]
                            < srcs[q2],
                        live_has(self.live(), *id),
                        start@ == live_entry(self.live(), *id).1,
                        end@ == live_entry(self.live(), *id).2,
                        lvl == id.level + 1,
                        forall|q: int|
                            0 <= q < r@.len() ==> live_has(self.live(), #[trigger] r@[q])
                                && r@[q].level == lvl,
                        forall|q: int|
                            0 <= q < j && (#[trigger] self.live()[q]).0.level == lvl
                                && ranges_overlap(
                                (start@, end@),
                                (self.live()[q].1, self.live()[q].2),
                            ) ==> r@.contains(self.live()[q].0),
                    decreases self.ssts@.len() - j,
                {
                    proof {
                        assert(self.live()[j as int] == range_view(self.ssts@[j as int]));
                    }
                    let e = &self.ssts[j];
                    if e.id.level == lvl {
                        let c1 = match key_cmp(&e.first_key, &end) {
                            KeyOrd::Greater => false,
                            _ => true,
                        };
                        let c2 = match key_cmp(&start, &e.last_key) {
                            KeyOrd::Greater => false,
                            _ => true,
                        };
                        if c1 && c2 {
                            let ghost r0 = r@;
                            r.push(e.id);
                            proof {
                                let srcs0 = srcs;
                                srcs = srcs.push(j as int);
                                self.lemma_live_unique(e.id, j as int);
                                assert forall|q: int| 0 <= q < srcs.len() implies 0 <= (
                                #[trigger] srcs[q]) && srcs[q] < j + 1 && r@[q] == self.live()[
                                    srcs[q]].0 by {
                                    if q < srcs.len() - 1 {
                                        assert(srcs[q] == srcs0[q]);
                                        assert(r@[q] == r0[q]);
                                        assert(srcs[q] < j as int);
                                    } else {
                                        assert(srcs[q] == j as int);
                                        assert(r@[q] == self.live()[j as int].0);
                                    }
                                }
                                assert forall|q1: int, q2: int|
                                    0 <= q1 < q2 < srcs.len() implies srcs[q1] < srcs[q2] by {
                                    if q2 == srcs.len() - 1 {
                                        assert(srcs[q1] == srcs0[q1]);
                                        assert(srcs[q1] < j as int);
                                        assert(srcs[q2] == j as int);
                                    } else {
                                        assert(srcs[q1] == srcs0[q1]);
                                        assert(srcs[q2] == srcs0[q2]);
                                    }
                                }
                                assert forall|q: int|
                                    0 <= q < j + 1 && (#[trigger] self.live()[q]).0.level == lvl
                                        && ranges_overlap(
                                        (start@, end@),
                                        (self.live()[q].1, self.live()[q].2),
                                    ) implies r@.contains(self.live()[q].0) by {
                                    if q < j {
                                        let w = choose|w: int|
                                            0 <= w < r0.len() && r0[w] == self.live()[q].0;
                                        assert(r@[w] == self.live()[q].0);
                                    } else {
                                        assert(r@[r@.len() - 1] == self.live()[q].0);
                                    }
                                }
                            }
                        }
                    }
                    j = j + 1;
                }
                proof {
                    assert forall|q1: int, q2: int| 0 <= q1 < q2 < r@.len() implies
                        #[trigger] r@[q1] != #[trigger] r@[q2] by {
                        assert(r@[q1] == self.live()[srcs[q1]].0);
                        assert(r@[q2] == self.live()[srcs[q2]].0);
                        assert(self.live()[srcs[q1]].0 != self.live()[srcs[q2]].0);
                    }
                }
                r
            }
        }
    }

    /// The id the allocator will hand out next at a level, without
    /// advancing it.
    pub fn latest_sst_id(&self, level: u64) -> (r: SstId)
        requires
            self.wf(),
        ensures
            r.level == level,
            r.id == self.next_id_of(level),
    {
        let mut i: usize = 0;
        while i < self.new_ids.len()
            invariant
                self.wf(),
                0 <= i <= self.new_ids@.len(),
                forall|q: int| 0 <= q < i ==> (#[trigger] self.new_ids@[q]).0 != level,
            decreases self.new_ids@.len() - i,
        {
            if self.new_ids[i].0 == level {
                proof {
                    lemma_assoc_at(self.new_ids_view(), level, i as int);
                }
                return SstId { level, id: self.new_ids[i].1 };
            }
            i = i + 1;
        }
        proof {
            if assoc_has(self.new_ids_view(), level) {
                let q = choose|q: int|
                    0 <= q < self.new_ids_view().len() && self.new_ids_view()[q].0 == level;
                assert(self.new_ids@[q].0 != level);
            }
        }
        SstId { level, id: 0 }
    }

    /// Advances the allocator of a level by one and returns the id it now
    /// names.
    pub fn new_sst_id(&mut self, level: u64) -> (r: SstId)
        requires
            old(self).wf(),
            old(self).next_id_of(level) < u64::MAX,
        ensures
            final(self).wf(),
            r.level == level,
            r.id == old(self).next_id_of(level) + 1,
            final(self).next_id_of(level) == old(self).next_id_of(level) + 1,
            forall|l2: u64| l2 != level ==> final(self).next_id_of(l2) == old(self).next_id_of(l2),
            final(self).new_ids_view() == assoc_set(
                old(self).new_ids_view(),
                level,
                (old(self).next_id_of(level) + 1) as u64,
            ),
            final(self).live() == old(self).live(),
            final(self).compact_view() == old(self).compact_view(),
    {
        let ghost olds = self.new_ids@;
        proof {
            assert(olds == old(self).new_ids@);
        }
        let mut i: usize = 0;
        while i < self.new_ids.len()
            invariant
                self.new_ids@ == olds,
                self.ssts@ == old(self).ssts@,
                self.compact_keys@ == old(self).compact_keys@,
                old(self).wf(),
                old(self).next_id_of(level) < u64::MAX,
                olds == old(self).new_ids@,
                0 <= i <= olds.len(),
                forall|q: int| 0 <= q < i ==> (#[trigger] olds[q]).0 != level,
            decreases olds.len() - i,
        {
            if self.new_ids[i].0 == level {
                let v = self.new_ids[i].1;
                proof {
                    lemma_assoc_at(olds, level, i as int);
                    assert(assoc_has(olds, level));
                    assert(v == assoc_val(olds, level));
                    assert(old(self).next_id_of(level) == v);
                    assert(v < u64::MAX);
                }
                self.new_ids.set(i, (level, v + 1));
                proof {
                    let nv = (v + 1) as u64;
                    assert(self.new_ids@ == olds.update(i as int, (level, nv)));
                    lemma_assoc_set_at(olds, level, i as int, nv);
                    lemma_assoc_update(olds, level, i as int, nv, level);
                    assert(self.next_id_of(level) == nv);
                    assert forall|l2: u64| l2 != level implies self.next_id_of(l2) == old(
                        self,
                    ).next_id_of(l2) by {
                        lemma_assoc_update(olds, level, i as int, nv, l2);
                    }
                    assert forall|a: int, b: int| 0 <= a < b < self.new_ids@.len() implies (
                    #[trigger] self.new_ids@[a]).0 != (#[trigger] self.new_ids@[b]).0 by {
                        assert(olds[a].0 != olds[b].0);
                        assert(self.new_ids@[a].0 == olds[a].0 || a == i);
                        assert(self.new_ids@[b].0 == olds[b].0 || b == i);
                    }
                    assert(self.live() =~= old(self).live());
                }
                return SstId { level, id: v + 1 };
            }
            i = i + 1;
        }
        proof {
            if assoc_has(olds, level) {
                let q = choose|q: int| 0 <= q < olds.len() && olds[q].0 == level;
                assert(olds[q].0 != level);
            }
            assert(!assoc_has(olds, level));
            assert(old(self).next_id_of(level) == 0);
        }
        self.new_ids.push((level, 1));
        proof {
            lemma_assoc_set_none(olds, level, 1u64);
            lemma_assoc_push(olds, level, 1u64, level);
            assert(self.next_id_of(level) == 1);
            assert forall|l2: u64| l2 != level implies self.next_id_of(l2) == old(
                self,
            ).next_id_of(l2) by {
                lemma_assoc_push(olds, level, 1u64, l2);
            }
            assert forall|a: int, b: int| 0 <= a < b < self.new_ids@.len() implies (
            #[trigger] self.new_ids@[a]).0 != (#[trigger] self.new_ids@[b]).0 by {
                if b == self.new_ids@.len() - 1 {
                    assert(self.new_ids@[a] == olds[a]);
                    if olds[a].0 == level {
                        assert(assoc_has(olds, level)) by {
                            assert(olds[a].0 == level);
                        }
                    }
                } else {
                    assert(self.new_ids@[a] == olds[a]);
                    assert(self.new_ids@[b] == olds[b]);
                }
            }
            assert(self.live() =~= old(self).live());
        }
        SstId { level, id: 1 }
    }
}

/// A matching index of a unique-key association carries its value.
pub proof fn lemma_assoc_at(s: Seq<(u64, u64)>, k: u64, i: int)
    requires
        0 <= i < s.len(),
        s[i].0 == k,
        forall|a: int, b: int| 0 <= a < b < s.len() ==> (#[trigger] s[a]).0 != (#[trigger] s[b]).0,
    ensures
        assoc_has(s, k),
        assoc_val(s, k) == s[i].1,
    decreases s.len(),
{
    if i > 0 {
        assert(s[0].0 != k);
        assert(s.skip(1)[i - 1] == s[i]);
        assert forall|a: int, b: int| 0 <= a < b < s.skip(1).len() implies (
        #[trigger] s.skip(1)[a]).0 != (#[trigger] s.skip(1)[b]).0 by {
            assert(s.skip(1)[a] == s[a + 1]);
            assert(s.skip(1)[b] == s[b + 1]);
        }
        lemma_assoc_at(s.skip(1), k, i - 1);
    } else {
        assert(s[0].0 == k);
    }
}

/// Updating one slot changes that key's value and no other.
pub proof fn lemma_assoc_update(s: Seq<(u64, u64)>, k: u64, i: int, v: u64, probe: u64)
    requires
        0 <= i < s.len(),
        s[i].0 == k,
        forall|a: int, b: int| 0 <= a < b < s.len() ==> (#[trigger] s[a]).0 != (#[trigger] s[b]).0,
    ensures
        assoc_has(s.update(i, (k, v)), probe) == assoc_has(s, probe),
        probe == k ==> assoc_val(s.update(i, (k, v)), probe) == v,
        probe != k ==> assoc_val(s.update(i, (k, v)), probe) == assoc_val(s, probe),
    decreases s.len(),
{
    let s2 = s.update(i, (k, v));
    assert forall|q: int| 0 <= q < s.len() && q != i implies s2[q] == s[q] by {}
    assert(assoc_has(s2, probe) == assoc_has(s, probe)) by {
        if assoc_has(s2, probe) {
            let q = choose|q: int| 0 <= q < s2.len() && s2[q].0 == probe;
            if q == i {
                assert(s[i].0 == k);
                assert(s[q].0 == probe || probe == k);
            }
            assert(s[q].0 == probe || s[i].0 == probe);
        }
        if assoc_has(s, probe) {
            let q = choose|q: int| 0 <= q < s.len() && s[q].0 == probe;
            if q == i {
                assert(s2[q].0 == k);
                assert(s[i].0 == k && probe == k);
            } else {
                assert(s2[q].0 == probe);
            }
        }
    }
    if i == 0 {
        assert(s2.skip(1) =~= s.skip(1));
        if probe != k {
            assert(assoc_val(s2, probe) == assoc_val(s.skip(1), probe));
        }
    } else {
        assert(s2[0] == s[0]);
        assert(s2.skip(1) =~= s.skip(1).update(i - 1, (k, v)));
        assert(s[0].0 != k);
        assert forall|a: int, b: int| 0 <= a < b < s.skip(1).len() implies (
        #[trigger] s.skip(1)[a]).0 != (#[trigger] s.skip(1)[b]).0 by {
            assert(s.skip(1)[a] == s[a + 1]);
            assert(s.skip(1)[b] == s[b + 1]);
        }
        assert(s.skip(1)[i - 1] == s[i]);
        lemma_assoc_update(s.skip(1), k, i - 1, v, probe);
    }
}

/// Pushing a fresh key adds it and changes no other key.
pub proof fn lemma_assoc_push(s: Seq<(u64, u64)>, k: u64, v: u64, probe: u64)
    requires
        !assoc_has(s, k),
    ensures
        probe == k ==> assoc_has(s.push((k, v)), probe) && assoc_val(s.push((k, v)), probe) == v,
        probe != k ==> assoc_has(s.push((k, v)), probe) == assoc_has(s, probe) && assoc_val(
            s.push((k, v)),
            probe,
        ) == assoc_val(s, probe),
    decreases s.len(),
{
    let s2 = s.push((k, v));
    if s.len() == 0 {
        assert(s2[0] == (k, v));
        if probe != k {
            assert(!assoc_has(s2, probe)) by {
                if assoc_has(s2, probe) {
                    let q = choose|q: int| 0 <= q < s2.len() && s2[q].0 == probe;
                    assert(q == 0);
                }
            }
            assert(s2.skip(1) =~= Seq::<(u64, u64)>::empty());
            assert(assoc_val(s2, probe) == assoc_val(s2.skip(1), probe));
            assert(assoc_val(s2.skip(1), probe) == 0);
            assert(assoc_val(s, probe) == 0);
        } else {
            assert(s2[0].0 == k);
        }
    } else {
        assert(s2[0] == s[0]);
        assert(s2.skip(1) =~= s.skip(1).push((k, v)));
        assert(!assoc_has(s.skip(1), k)) by {
            if assoc_has(s.skip(1), k) {
                let q = choose|q: int| 0 <= q < s.skip(1).len() && s.skip(1)[q].0 == k;
                assert(s[q + 1].0 == k);
            }
        }
        lemma_assoc_push(s.skip(1), k, v, probe);
        if probe == k {
            assert(s2.skip(1)[s2.skip(1).len() - 1].0 == k);
            assert(s2[s2.len() - 1].0 == k);
        } else {
            assert(assoc_has(s2, probe) == assoc_has(s, probe)) by {
                if assoc_has(s2, probe) {
                    let q = choose|q: int| 0 <= q < s2.len() && s2[q].0 == probe;
                    if q < s.len() {
                        assert(s[q].0 == probe);
                    }
                }
                if assoc_has(s, probe) {
                    let q = choose|q: int| 0 <= q < s.len() && s[q].0 == probe;
                    assert(s2[q].0 == probe);
                }
            }
        }
    }
}

/// The whole catalog state, for stating what a batch of actions does.
pub struct ManifestV {
    pub ids: Seq<(u64, u64)>,
    pub cursors: Seq<(u64, Seq<u8>)>,
    pub live: Seq<(SstId, Seq<u8>, Seq<u8>)>,
}

/// Whether some live SST of a level has `f` as its first key.
pub open spec fn has_first_at(
    live: Seq<(SstId, Seq<u8>, Seq<u8>)>,
    level: u64,
    f: Seq<u8>,
) -> bool {
    exists|i: int| 0 <= i < live.len() && (#[trigger] live[i]).0.level == level && live[i].1 == f
}

/// Whether `f` is the smallest first key of a level.
pub open spec fn is_min_first(
    live: Seq<(SstId, Seq<u8>, Seq<u8>)>,
    level: u64,
    f: Seq<u8>,
) -> bool {
    has_first_at(live, level, f) && forall|g: Seq<u8>|
        has_first_at(live, level, g) ==> lex_le(f, g)
}

/// Whether `f` is the smallest first key of a level strictly past `c`.
pub open spec fn is_next_first(
    live: Seq<(SstId, Seq<u8>, Seq<u8>)>,
    level: u64,
    c: Seq<u8>,
    f: Seq<u8>,
) -> bool {
    has_first_at(live, level, f) && lex_lt(c, f) && forall|g: Seq<u8>|
        has_first_at(live, level, g) && lex_lt(c, g) ==> lex_le(f, g)
}

/// The compaction cursor's next stop: the level's next first key past the
/// cursor, wrapping to the level's smallest first key.
pub open spec fn next_start_spec(
    live: Seq<(SstId, Seq<u8>, Seq<u8>)>,
    level: u64,
    cur: Option<Seq<u8>>,
) -> Seq<u8> {
    match cur {
        None => choose|f: Seq<u8>| is_min_first(live, level, f),
        Some(c) => if exists|g: Seq<u8>| has_first_at(live, level, g) && lex_lt(c, g) {
            choose|f: Seq<u8>| is_next_first(live, level, c, f)
        } else {
            choose|f: Seq<u8>| is_min_first(live, level, f)
        },
    }
}

/// The id the allocator of a catalog state will hand out next.
pub open spec fn state_next_id(v: ManifestV, level: u64) -> u64 {
    if assoc_has(v.ids, level) {
        assoc_val(v.ids, level)
    } else {
        0
    }
}

/// One manifest log record applied to the catalog state.  Application is
/// total: a record that names an impossible change leaves the state alone.
pub open spec fn man_step(v: ManifestV, a: ManActionV) -> ManifestV {
    match a {
        ManActionV::Commit => v,
        ManActionV::Add(id, f, l) => if lex_le(f, l) {
            ManifestV {
                ids: v.ids,
                cursors: v.cursors,
                live: v.live.filter(|e: (SstId, Seq<u8>, Seq<u8>)| e.0 != id).push((id, f, l)),
            }
        } else {
            v
        },
        ManActionV::Remove(id) => ManifestV {
            ids: v.ids,
            cursors: v.cursors,
            live: v.live.filter(|e: (SstId, Seq<u8>, Seq<u8>)| e.0 != id),
        },
        ManActionV::NewId(l) => {
            let cur = if assoc_has(v.ids, l) {
                assoc_val(v.ids, l)
            } else {
                0
            };
            if cur < u64::MAX {
                ManifestV {
                    ids: assoc_set(v.ids, l, (cur + 1) as u64),
                    cursors: v.cursors,
                    live: v.live,
                }
            } else {
                v
            }
        },
        ManActionV::NextCompact(l) => {
            if exists|g: Seq<u8>| has_first_at(v.live, l, g) {
                let cur = if kassoc_has(v.cursors, l) {
                    Some(kassoc_val(v.cursors, l))
                } else {
                    None
                };
                ManifestV {
                    ids: v.ids,
                    cursors: kassoc_set(v.cursors, l, next_start_spec(v.live, l, cur)),
                    live: v.live,
                }
            } else {
                v
            }
        },
    }
}

/// A sequence of manifest log records applied in order.
pub open spec fn man_apply(v: ManifestV, acts: Seq<ManActionV>) -> ManifestV
    decreases acts.len(),
{
    if acts.len() == 0 {
        v
    } else {
        man_apply(man_step(v, acts[0]), acts.skip(1))
    }
}

impl Manifest {
    /// The catalog state.
    pub open spec fn view_state(self) -> ManifestV {
        ManifestV { ids: self.new_ids_view(), cursors: self.compact_view(), live: self.live() }
    }
}

/// Setting a key whose first occurrence is at `i` updates that slot.
pub proof fn lemma_assoc_set_at(s: Seq<(u64, u64)>, k: u64, i: int, v: u64)
    requires
        0 <= i < s.len(),
        s[i].0 == k,
        forall|q: int| 0 <= q < i ==> (#[trigger] s[q]).0 != k,
    ensures
        assoc_set(s, k, v) == s.update(i, (k, v)),
    decreases s.len(),
{
    if i == 0 {
        assert(assoc_set(s, k, v) =~= s.update(0, (k, v)));
    } else {
        assert(s.skip(1)[i - 1] == s[i]);
        assert forall|q: int| 0 <= q < i - 1 implies (#[trigger] s.skip(1)[q]).0 != k by {
            assert(s.skip(1)[q] == s[q + 1]);
        }
        lemma_assoc_set_at(s.skip(1), k, i - 1, v);
        assert(assoc_set(s, k, v) =~= s.update(i, (k, v)));
    }
}

/// Setting an absent key appends it.
pub proof fn lemma_assoc_set_none(s: Seq<(u64, u64)>, k: u64, v: u64)
    requires
        !assoc_has(s, k),
    ensures
        assoc_set(s, k, v) == s.push((k, v)),
    decreases s.len(),
{
    if s.len() == 0 {
        assert(assoc_set(s, k, v) =~= s.push((k, v)));
    } else {
        assert(s[0].0 != k) by {
            if s[0].0 == k {
                assert(assoc_has(s, k)) by {
                    assert(s[0].0 == k);
                }
            }
        }
        assert(!assoc_has(s.skip(1), k)) by {
            if assoc_has(s.skip(1), k) {
                let q = choose|q: int| 0 <= q < s.skip(1).len() && s.skip(1)[q].0 == k;
                assert(s[q + 1].0 == k);
            }
        }
        lemma_assoc_set_none(s.skip(1), k, v);
        assert(assoc_set(s, k, v) =~= s.push((k, v)));
    }
}

/// Setting a key whose first occurrence is at `i` updates that slot.
pub proof fn lemma_kassoc_set_at(s: Seq<(u64, Seq<u8>)>, k: u64, i: int, v: Seq<u8>)
    requires
        0 <= i < s.len(),
        s[i].0 == k,
        forall|q: int| 0 <= q < i ==> (#[trigger] s[q]).0 != k,
    ensures
        kassoc_set(s, k, v) == s.update(i, (k, v)),
    decreases s.len(),
{
    if i == 0 {
        assert(kassoc_set(s, k, v) =~= s.update(0, (k, v)));
    } else {
        assert(s.skip(1)[i - 1] == s[i]);
        assert forall|q: int| 0 <= q < i - 1 implies (#[trigger] s.skip(1)[q]).0 != k by {
            assert(s.skip(1)[q] == s[q + 1]);
        }
        lemma_kassoc_set_at(s.skip(1), k, i - 1, v);
        assert(kassoc_set(s, k, v) =~= s.update(i, (k, v)));
    }
}

/// Setting an absent key appends it.
pub proof fn lemma_kassoc_set_none(s: Seq<(u64, Seq<u8>)>, k: u64, v: Seq<u8>)
    requires
        !kassoc_has(s, k),
    ensures
        kassoc_set(s, k, v) == s.push((k, v)),
    decreases s.len(),
{
    if s.len() == 0 {
        assert(kassoc_set(s, k, v) =~= s.push((k, v)));
    } else {
        assert(s[0].0 != k) by {
            if s[0].0 == k {
                assert(kassoc_has(s, k)) by {
                    assert(s[0].0 == k);
                }
            }
        }
        assert(!kassoc_has(s.skip(1), k)) by {
            if kassoc_has(s.skip(1), k) {
                let q = choose|q: int| 0 <= q < s.skip(1).len() && s.skip(1)[q].0 == k;
                assert(s[q + 1].0 == k);
            }
        }
        lemma_kassoc_set_none(s.skip(1), k, v);
        assert(kassoc_set(s, k, v) =~= s.push((k, v)));
    }
}

/// The smallest first key of a level is unique.
pub proof fn lemma_min_first_unique(
    live: Seq<(SstId, Seq<u8>, Seq<u8>)>,
    level: u64,
    f1: Seq<u8>,
    f2: Seq<u8>,
)
    requires
        is_min_first(live, level, f1),
        is_min_first(live, level, f2),
    ensures
        f1 == f2,
{
    assert(has_first_at(live, level, f1));
    assert(has_first_at(live, level, f2));
    assert(lex_le(f1, f2));
    assert(lex_le(f2, f1));
    crate::keys::lemma_lex_connected(f1, f2);
    crate::keys::lemma_lex_asymmetric(f1, f2);
}

/// The next first key past a cursor is unique.
pub proof fn lemma_next_first_unique(
    live: Seq<(SstId, Seq<u8>, Seq<u8>)>,
    level: u64,
    c: Seq<u8>,
    f1: Seq<u8>,
    f2: Seq<u8>,
)
    requires
        is_next_first(live, level, c, f1),
        is_next_first(live, level, c, f2),
    ensures
        f1 == f2,
{
    assert(has_first_at(live, level, f1));
    assert(has_first_at(live, level, f2));
    assert(lex_le(f1, f2));
    assert(lex_le(f2, f1));
    crate::keys::lemma_lex_connected(f1, f2);
    crate::keys::lemma_lex_asymmetric(f1, f2);
}

impl Manifest {
    /// The smallest first key among the level's live SSTs.
    #[verifier::loop_isolation(false)]
    fn min_first(&self, level: u64) -> (r: Vec<u8>)
        requires
            self.wf(),
            exists|f: Seq<u8>| has_first_at(self.live(), level, f),
        ensures
            is_min_first(self.live(), level, r@),
    {
        let mut best: Option<Vec<u8>> = None;
        let mut i: usize = 0;
        while i < self.ssts.len()
            invariant
                0 <= i <= self.ssts@.len(),
                match best {
                    None => forall|q: int|
                        0 <= q < i ==> (#[trigger] self.live()[q]).0.level != level,
                    Some(b) => has_first_at(self.live(), level, b@) && forall|q: int|
                        0 <= q < i && (#[trigger] self.live()[q]).0.level == level ==> lex_le(
                            b@,
                            self.live()[q].1,
                        ),
                },
            decreases self.ssts@.len() - i,
        {
            proof {
                assert(self.live()[i as int] == range_view(self.ssts@[i as int]));
            }
            let e = &self.ssts[i];
            if e.id.level == level {
                let better = match &best {
                    None => true,
                    Some(b) => match key_cmp(&e.first_key, b) {
                        KeyOrd::Less => true,
                        _ => false,
                    },
                };
                if better {
                    proof {
                        assert(has_first_at(self.live(), level, e.first_key@)) by {
                            assert(self.live()[i as int].0.level == level && self.live()[
                                i as int].1 == e.first_key@);
                        }
                        if let Some(ref b) = best {
                            assert forall|q: int|
                                0 <= q < i + 1 && (#[trigger] self.live()[q]).0.level == level
                                implies lex_le(e.first_key@, self.live()[q].1) by {
                                if q < i {
                                    crate::keys::lemma_lex_transitive(
                                        e.first_key@,
                                        b@,
                                        self.live()[q].1,
                                    );
                                }
                            }
                        }
                    }
                    best = Some(e.first_key.clone());
                }
                proof {
                    if let Some(ref b) = best {
                        assert forall|q: int|
                            0 <= q < i + 1 && (#[trigger] self.live()[q]).0.level == level
                            implies lex_le(b@, self.live()[q].1) by {
                            if q == i {
                                crate::keys::lemma_lex_connected(b@, self.live()[q].1);
                            }
                        }
                    }
                }
            }
            i = i + 1;
        }
        match best {
            Some(b) => {
                proof {
                    assert forall|g: Seq<u8>| has_first_at(self.live(), level, g) implies
                        lex_le(b@, g) by {
                        let q = choose|q: int|
                            0 <= q < self.live().len() && (#[trigger] self.live()[q]).0.level
                                == level && self.live()[q].1 == g;
                    }
                }
                b
            }
            None => {
                proof {
                    let f = choose|f: Seq<u8>| has_first_at(self.live(), level, f);
                    let q = choose|q: int|
                        0 <= q < self.live().len() && (#[trigger] self.live()[q]).0.level
                            == level && self.live()[q].1 == f;
                    assert(self.live()[q].0.level != level);
                    assert(false);
                }
                Vec::new()
            }
        }
    }

    /// The level's next first key strictly past `key`, wrapping to the
    /// level's smallest first key when none is past it.
    #[verifier::loop_isolation(false)]
    #[verifier::rlimit(100)]
    #[verifier::spinoff_prover]
    fn next_sst_start(&self, level: u64, key: &Vec<u8>) -> (r: Vec<u8>)
        requires
            self.wf(),
            exists|f: Seq<u8>| has_first_at(self.live(), level, f),
        ensures
            r@ == next_start_spec(self.live(), level, Some(key@)),
    {
        let mut beyond: Option<Vec<u8>> = None;
        let mut i: usize = 0;
        while i < self.ssts.len()
            invariant
                0 <= i <= self.ssts@.len(),
                match beyond {
                    None => forall|q: int|
                        0 <= q < i && (#[trigger] self.live()[q]).0.level == level ==> !lex_lt(
                            key@,
                            self.live()[q].1,
                        ),
                    Some(b) => has_first_at(self.live(), level, b@) && lex_lt(key@, b@)
                        && forall|q: int|
                        0 <= q < i && (#[trigger] self.live()[q]).0.level == level && lex_lt(
                            key@,
                            self.live()[q].1,
                        ) ==> lex_le(b@, self.live()[q].1),
                },
            decreases self.ssts@.len() - i,
        {
            proof {
                assert(self.live()[i as int] == range_view(self.ssts@[i as int]));
            }
            let e = &self.ssts[i];
            if e.id.level == level {
                let past = match key_cmp(key, &e.first_key) {
                    KeyOrd::Less => true,
                    _ => false,
                };
                if past {
                    let better = match &beyond {
                        None => true,
                        Some(b) => match key_cmp(&e.first_key, b) {
                            KeyOrd::Less => true,
                            _ => false,
                        },
                    };
                    if better {
                        proof {
                            assert(has_first_at(self.live(), level, e.first_key@)) by {
                                assert(self.live()[i as int].0.level == level && self.live()[
                                    i as int].1 == e.first_key@);
                            }
                            if let Some(ref b) = beyond {
                                assert forall|q: int|
                                    0 <= q < i + 1 && (#[trigger] self.live()[q]).0.level
                                        == level && lex_lt(key@, self.live()[q].1) implies
                                    lex_le(e.first_key@, self.live()[q].1) by {
                                    if q < i {
                                        crate::keys::lemma_lex_transitive(
                                            e.first_key@,
                                            b@,
                                            self.live()[q].1,
                                        );
                                    }
                                }
                            }
                        }
                        beyond = Some(e.first_key.clone());
                    }
                    proof {
                        if let Some(ref b) = beyond {
                            assert forall|q: int|
                                0 <= q < i + 1 && (#[trigger] self.live()[q]).0.level == level
                                    && lex_lt(key@, self.live()[q].1) implies lex_le(
                                b@,
                                self.live()[q].1,
                            ) by {
                                if q == i {
                                    crate::keys::lemma_lex_connected(b@, self.live()[q].1);
                                }
                            }
                        }
                    }
                }
            }
            i = i + 1;
        }
        match beyond {
            Some(b) => {
                proof {
                    assert(is_next_first(self.live(), level, key@, b@)) by {
                        assert forall|g: Seq<u8>|
                            has_first_at(self.live(), level, g) && lex_lt(key@, g) implies
                            lex_le(b@, g) by {
                            let q = choose|q: int|
                                0 <= q < self.live().len() && (#[trigger] self.live()[
                                q]).0.level == level && self.live()[q].1 == g;
                        }
                    }
                    assert(exists|g: Seq<u8>|
                        has_first_at(self.live(), level, g) && lex_lt(key@, g));
                    let c = choose|f: Seq<u8>| is_next_first(self.live(), level, key@, f);
                    assert(is_next_first(self.live(), level, key@, c)) by {
                        assert(is_next_first(self.live(), level, key@, b@));
                    }
                    lemma_next_first_unique(self.live(), level, key@, b@, c);
                }
                b
            }
            None => {
                proof {
                    assert(!(exists|g: Seq<u8>|
                        has_first_at(self.live(), level, g) && lex_lt(key@, g))) by {
                        if exists|g: Seq<u8>|
                            has_first_at(self.live(), level, g) && lex_lt(key@, g) {
                            let g = choose|g: Seq<u8>|
                                has_first_at(self.live(), level, g) && lex_lt(key@, g);
                            let q = choose|q: int|
                                0 <= q < self.live().len() && (#[trigger] self.live()[
                                q]).0.level == level && self.live()[q].1 == g;
                        }
                    }
                }
                let m = self.min_first(level);
                proof {
                    let c = choose|f: Seq<u8>| is_min_first(self.live(), level, f);
                    assert(is_min_first(self.live(), level, c)) by {
                        assert(is_min_first(self.live(), level, m@));
                    }
                    lemma_min_first_unique(self.live(), level, m@, c);
                }
                m
            }
        }
    }

    /// The live SST of the level whose first key is the largest at most
    /// `key`: the SST owning the cursor position `key`.
    #[verifier::loop_isolation(false)]
    fn get_sst_by_key_start(&self, level: u64, key: &Vec<u8>) -> (r: SstId)
        requires
            self.wf(),
            exists|f: Seq<u8>| has_first_at(self.live(), level, f) && lex_le(f, key@),
        ensures
            live_has(self.live(), r),
            r.level == level,
            lex_le(live_entry(self.live(), r).1, key@),
            forall|i: int|
                0 <= i < self.live().len() && (#[trigger] self.live()[i]).0.level == level
                    && lex_le(self.live()[i].1, key@) ==> lex_le(
                    self.live()[i].1,
                    live_entry(self.live(), r).1,
                ),
    {
        let mut best: Option<SstId> = None;
        let mut best_first: Vec<u8> = Vec::new();
        let mut i: usize = 0;
        while i < self.ssts.len()
            invariant
                self.wf(),
                0 <= i <= self.ssts@.len(),
                match best {
                    None => forall|q: int|
                        0 <= q < i && (#[trigger] self.live()[q]).0.level == level ==> !lex_le(
                            self.live()[q].1,
                            key@,
                        ),
                    Some(b) => {
                        &&& live_has(self.live(), b)
                        &&& b.level == level
                        &&& best_first@ == live_entry(self.live(), b).1
                        &&& lex_le(best_first@, key@)
                        &&& forall|q: int|
                            0 <= q < i && (#[trigger] self.live()[q]).0.level == level
                                && lex_le(self.live()[q].1, key@) ==> lex_le(
                                self.live()[q].1,
                                best_first@,
                            )
                    },
                },
            decreases self.ssts@.len() - i,
        {
            proof {
                assert(self.live()[i as int] == range_view(self.ssts@[i as int]));
            }
            let e = &self.ssts[i];
            if e.id.level == level {
                let at_most = match key_cmp(&e.first_key, key) {
                    KeyOrd::Greater => false,
                    _ => true,
                };
                if at_most {
                    let better = match &best {
                        None => true,
                        Some(_) => match key_cmp(&best_first, &e.first_key) {
                            KeyOrd::Less => true,
                            _ => false,
                        },
                    };
                    if better {
                        proof {
                            self.lemma_live_unique(e.id, i as int);
                            if let Some(ref b) = best {
                                assert forall|q: int|
                                    0 <= q < i + 1 && (#[trigger] self.live()[q]).0.level
                                        == level && lex_le(self.live()[q].1, key@) implies
                                    lex_le(self.live()[q].1, e.first_key@) by {
                                    if q < i {
                                        crate::keys::lemma_lex_transitive(
                                            self.live()[q].1,
                                            best_first@,
                                            e.first_key@,
                                        );
                                    } else {
                                        crate::keys::lemma_lex_connected(
                                            self.live()[q].1,
                                            e.first_key@,
                                        );
                                    }
                                }
                            }
                        }
                        best = Some(e.id);
                        best_first = e.first_key.clone();
                    }
                    proof {
                        if let Some(ref b) = best {
                            assert forall|q: int|
                                0 <= q < i + 1 && (#[trigger] self.live()[q]).0.level == level
                                    && lex_le(self.live()[q].1, key@) implies lex_le(
                                self.live()[q].1,
                                best_first@,
                            ) by {
                                if q == i {
                                    crate::keys::lemma_lex_connected(
                                        self.live()[q].1,
                                        best_first@,
                                    );
                                }
                            }
                        }
                    }
                }
            }
            i = i + 1;
        }
        match best {
            Some(b) => b,
            None => {
                proof {
                    let f = choose|f: Seq<u8>|
                        has_first_at(self.live(), level, f) && lex_le(f, key@);
                    let q = choose|q: int|
                        0 <= q < self.live().len() && (#[trigger] self.live()[q]).0.level
                            == level && self.live()[q].1 == f;
                    assert(false);
                }
                SstId { level, id: 0 }
            }
        }
    }
}

/// Whether every live id appears at most once.
pub open spec fn live_unique(v: Seq<(SstId, Seq<u8>, Seq<u8>)>) -> bool {
    forall|i: int, j: int| 0 <= i < j < v.len() ==> (#[trigger] v[i]).0 != (#[trigger] v[j]).0
}

/// With unique ids, any index of an id holds its one live entry.
pub proof fn lemma_live_entry_at(v: Seq<(SstId, Seq<u8>, Seq<u8>)>, id: SstId, i: int)
    requires
        live_unique(v),
        0 <= i < v.len(),
        v[i].0 == id,
    ensures
        live_entry(v, id) == v[i],
{
    let q = choose|q: int| 0 <= q < v.len() && v[q].0 == id;
    if q != i {
        if q < i {
            assert(v[q].0 != v[i].0);
        } else {
            assert(v[i].0 != v[q].0);
        }
    }
}

/// Whether `id` is the SST a level's compaction cursor names: the table
/// of that level with the greatest first key at most the cursor, or the
/// table with the level's smallest first key when no cursor is set.
pub open spec fn cursor_selected(v: ManifestV, level: u64, id: SstId) -> bool {
    &&& live_has(v.live, id)
    &&& id.level == level
    &&& if kassoc_has(v.cursors, level) && (exists|f: Seq<u8>|
        has_first_at(v.live, level, f) && lex_le(f, kassoc_val(v.cursors, level))) {
        let c = kassoc_val(v.cursors, level);
        lex_le(live_entry(v.live, id).1, c) && forall|i: int|
            0 <= i < v.live.len() && (#[trigger] v.live[i]).0.level == level && lex_le(
                v.live[i].1,
                c,
            ) ==> lex_le(v.live[i].1, live_entry(v.live, id).1)
    } else {
        is_min_first(v.live, level, live_entry(v.live, id).1)
    }
}

impl Manifest {
    /// The SST owning the current compaction cursor of a level: the table
    /// with the greatest first key at most the cursor, or the table with
    /// the level's smallest first key when no cursor is set or every first
    /// key has moved past it.
    pub fn latest_compact_sst(&self, level: u64) -> (r: SstId)
        requires
            self.wf(),
            exists|f: Seq<u8>| has_first_at(self.live(), level, f),
        ensures
            live_has(self.live(), r),
            r.level == level,
            cursor_selected(self.view_state(), level, r),
    {
        let cur = self.compact_key_lookup(level);
        match cur {
            Some(c) => {
                if self.has_first_le(level, &c) {
                    let r = self.get_sst_by_key_start(level, &c);
                    proof {
                        assert(kassoc_has(self.view_state().cursors, level));
                        assert(kassoc_val(self.view_state().cursors, level) == c@);
                    }
                    return r;
                }
                let m = self.min_first(level);
                proof {
                    assert(has_first_at(self.live(), level, m@) && lex_le(m@, m@));
                }
                let r = self.get_sst_by_key_start(level, &m);
                proof {
                    let f = live_entry(self.live(), r).1;
                    assert(has_first_at(self.live(), level, f)) by {
                        let q = choose|q: int|
                            0 <= q < self.live().len() && self.live()[q].0 == r;
                        self.lemma_live_unique(r, q);
                        assert(self.live()[q].0.level == level && self.live()[q].1 == f);
                    }
                    assert(lex_le(m@, f));
                    assert(lex_le(f, m@));
                    crate::keys::lemma_lex_connected(f, m@);
                    crate::keys::lemma_lex_asymmetric(f, m@);
                    assert(f == m@);
                    assert(is_min_first(self.live(), level, f));
                }
                r
            }
            None => {
                let m = self.min_first(level);
                proof {
                    assert(has_first_at(self.live(), level, m@) && lex_le(m@, m@));
                }
                let r = self.get_sst_by_key_start(level, &m);
                proof {
                    // The selected table's first key is at most the least
                    // first key of the level, and so equals it.
                    let f = live_entry(self.live(), r).1;
                    assert(has_first_at(self.live(), level, f)) by {
                        let q = choose|q: int|
                            0 <= q < self.live().len() && self.live()[q].0 == r;
                        self.lemma_live_unique(r, q);
                        assert(self.live()[q].0.level == level && self.live()[q].1 == f);
                    }
                    assert(lex_le(m@, f));
                    assert(lex_le(f, m@));
                    crate::keys::lemma_lex_connected(f, m@);
                    crate::keys::lemma_lex_asymmetric(f, m@);
                    assert(f == m@);
                    assert(is_min_first(self.live(), level, f));
                }
                r
            }
        }
    }

    /// Advances the compaction cursor of a level to the next SST's first
    /// key, wrapping past the end, and returns the SST now under it.
    #[verifier::rlimit(100)]
    #[verifier::spinoff_prover]
    pub fn next_compact_sst(&mut self, level: u64) -> (r: SstId)
        requires
            old(self).wf(),
            exists|f: Seq<u8>| has_first_at(old(self).live(), level, f),
        ensures
            final(self).wf(),
            final(self).view_state() == man_step(
                old(self).view_state(),
                ManActionV::NextCompact(level),
            ),
            live_has(final(self).live(), r),
            r.level == level,
            live_entry(final(self).live(), r).1 == kassoc_val(final(self).compact_view(), level),
    {
        let cur = self.compact_key_lookup(level);
        let ns = match &cur {
            Some(c) => self.next_sst_start(level, c),
            None => {
                let m = self.min_first(level);
                proof {
                    let c2 = choose|f: Seq<u8>| is_min_first(self.live(), level, f);
                    assert(is_min_first(self.live(), level, c2)) by {
                        assert(is_min_first(self.live(), level, m@));
                    }
                    lemma_min_first_unique(self.live(), level, m@, c2);
                    assert(m@ == next_start_spec(self.live(), level, None));
                }
                m
            }
        };
        proof {
            // The next start is itself a first key of the level.
            match &cur {
                Some(c) => {
                    if exists|g: Seq<u8>|
                        has_first_at(self.live(), level, g) && lex_lt(c@, g) {
                        let g0 = choose|g: Seq<u8>|
                            has_first_at(self.live(), level, g) && lex_lt(c@, g);
                        let q = choose|q: int|
                            0 <= q < self.live().len() && (#[trigger] self.live()[q]).0.level
                                == level && self.live()[q].1 == g0;
                        // Some next first exists, so the choose yields one.
                        assert(exists|f: Seq<u8>| is_next_first(self.live(), level, c@, f)) by {
                            lemma_next_exists(self.live(), level, c@);
                        }
                        let f0 = choose|f: Seq<u8>| is_next_first(self.live(), level, c@, f);
                        assert(has_first_at(self.live(), level, f0));
                        assert(ns@ == f0);
                    } else {
                        assert(exists|f: Seq<u8>| is_min_first(self.live(), level, f)) by {
                            lemma_min_exists(self.live(), level);
                        }
                        let f0 = choose|f: Seq<u8>| is_min_first(self.live(), level, f);
                        assert(has_first_at(self.live(), level, f0));
                        assert(ns@ == f0);
                    }
                }
                None => {
                    assert(exists|f: Seq<u8>| is_min_first(self.live(), level, f)) by {
                        lemma_min_exists(self.live(), level);
                    }
                    let f0 = choose|f: Seq<u8>| is_min_first(self.live(), level, f);
                    assert(has_first_at(self.live(), level, f0));
                    assert(ns@ == f0);
                }
            }
            assert(has_first_at(self.live(), level, ns@));
        }
        self.set_compact_key(level, &ns);
        proof {
            assert(lex_le(ns@, ns@));
        }
        proof {
            lemma_kassoc_set_val(old(self).compact_view(), level, ns@);
            assert(self.compact_view() == kassoc_set(old(self).compact_view(), level, ns@));
            assert(kassoc_val(self.compact_view(), level) == ns@);
            let ov = old(self).view_state();
            let mstep = man_step(ov, ManActionV::NextCompact(level));
            assert(exists|g: Seq<u8>| has_first_at(ov.live, level, g)) by {
                let f = choose|f: Seq<u8>| has_first_at(old(self).live(), level, f);
                assert(ov.live == old(self).live());
                assert(has_first_at(ov.live, level, f));
            }
            match &cur {
                Some(c) => {
                    assert(kassoc_has(ov.cursors, level));
                    assert(kassoc_val(ov.cursors, level) == c@);
                    assert(ns@ == next_start_spec(ov.live, level, Some(c@)));
                    assert(mstep.cursors == kassoc_set(ov.cursors, level, ns@));
                }
                None => {
                    assert(!kassoc_has(ov.cursors, level));
                    assert(ns@ == next_start_spec(ov.live, level, None));
                    assert(mstep.cursors == kassoc_set(ov.cursors, level, ns@));
                }
            }
            assert(self.compact_view() == mstep.cursors);
            assert(self.new_ids_view() == mstep.ids);
            assert(self.live() == mstep.live);
            assert(self.view_state() == mstep);
        }
        let r = self.get_sst_by_key_start(level, &ns);
        proof {
            // The cursor now names exactly the first key of `r`: `r` has
            // the greatest first key at most `ns`, and `ns` is a first key.
            let q = choose|q: int|
                0 <= q < self.live().len() && (#[trigger] self.live()[q]).0.level == level
                    && self.live()[q].1 == ns@;
            assert(lex_le(self.live()[q].1, live_entry(self.live(), r).1));
            assert(lex_le(live_entry(self.live(), r).1, ns@));
            crate::keys::lemma_lex_connected(live_entry(self.live(), r).1, ns@);
            crate::keys::lemma_lex_asymmetric(live_entry(self.live(), r).1, ns@);
            assert(kassoc_val(self.compact_view(), level) == ns@);
        }
        r
    }

    /// Looks the compaction cursor of a level up.
    #[verifier::loop_isolation(false)]
    fn compact_key_lookup(&self, level: u64) -> (r: Option<Vec<u8>>)
        requires
            self.wf(),
        ensures
            match r {
                None => !kassoc_has(self.compact_view(), level),
                Some(c) => kassoc_has(self.compact_view(), level) && c@ == kassoc_val(
                    self.compact_view(),
                    level,
                ),
            },
    {
        let mut i: usize = 0;
        while i < self.compact_keys.len()
            invariant
                0 <= i <= self.compact_keys@.len(),
                forall|q: int| 0 <= q < i ==> (#[trigger] self.compact_view()[q]).0 != level,
            decreases self.compact_keys@.len() - i,
        {
            proof {
                assert(self.compact_view()[i as int] == (self.compact_keys@[i as int].0, self.compact_keys@[i as int].1@));
            }
            if self.compact_keys[i].0 == level {
                proof {
                    lemma_kassoc_at(self.compact_view(), level, i as int);
                }
                return Some(self.compact_keys[i].1.clone());
            }
            i = i + 1;
        }
        proof {
            if kassoc_has(self.compact_view(), level) {
                let q = choose|q: int|
                    0 <= q < self.compact_view().len() && self.compact_view()[q].0 == level;
                assert(self.compact_view()[q].0 != level);
            }
        }
        None
    }

    /// Whether some live SST of the level has a first key at most `key`.
    #[verifier::loop_isolation(false)]
    fn has_first_le(&self, level: u64, key: &Vec<u8>) -> (r: bool)
        ensures
            r == exists|f: Seq<u8>|
                has_first_at(self.live(), level, f) && lex_le(f, key@),
    {
        let mut i: usize = 0;
        while i < self.ssts.len()
            invariant
                0 <= i <= self.ssts@.len(),
                forall|q: int|
                    0 <= q < i ==> !((#[trigger] self.live()[q]).0.level == level && lex_le(
                        self.live()[q].1,
                        key@,
                    )),
            decreases self.ssts@.len() - i,
        {
            proof {
                assert(self.live()[i as int] == range_view(self.ssts@[i as int]));
            }
            let e = &self.ssts[i];
            if e.id.level == level {
                match crate::keys::key_cmp(&e.first_key, key) {
                    KeyOrd::Greater => {}
                    _ => {
                        proof {
                            assert(has_first_at(self.live(), level, self.live()[i as int].1)
                                && lex_le(self.live()[i as int].1, key@)) by {
                                assert(self.live()[i as int].0.level == level);
                            }
                        }
                        return true;
                    }
                }
            }
            i = i + 1;
        }
        proof {
            if exists|f: Seq<u8>| has_first_at(self.live(), level, f) && lex_le(f, key@) {
                let f = choose|f: Seq<u8>|
                    has_first_at(self.live(), level, f) && lex_le(f, key@);
                let q = choose|q: int|
                    0 <= q < self.live().len() && (#[trigger] self.live()[q]).0.level == level
                        && self.live()[q].1 == f;
            }
        }
        false
    }

    /// Writes the compaction cursor of a level.
    #[verifier::loop_isolation(false)]
    fn set_compact_key(&mut self, level: u64, key: &Vec<u8>)
        requires
            old(self).wf(),
        ensures
            final(self).wf(),
            final(self).compact_view() == kassoc_set(old(self).compact_view(), level, key@),
            final(self).new_ids_view() == old(self).new_ids_view(),
            final(self).live() == old(self).live(),
    {
        let ghost oldc = self.compact_view();
        let mut i: usize = 0;
        while i < self.compact_keys.len()
            invariant
                self.compact_keys@ == old(self).compact_keys@,
                self.new_ids@ == old(self).new_ids@,
                self.ssts@ == old(self).ssts@,
                old(self).wf(),
                oldc == old(self).compact_view(),
                0 <= i <= oldc.len(),
                forall|q: int| 0 <= q < i ==> (#[trigger] oldc[q]).0 != level,
            decreases oldc.len() - i,
        {
            proof {
                assert(oldc[i as int] == (self.compact_keys@[i as int].0, self.compact_keys@[
                    i as int].1@));
            }
            if self.compact_keys[i].0 == level {
                self.compact_keys.set(i, (level, key.clone()));
                proof {
                    lemma_kassoc_set_at(oldc, level, i as int, key@);
                    assert(self.compact_view() =~= oldc.update(i as int, (level, key@)));
                    assert forall|a: int, b: int| 0 <= a < b < self.compact_keys@.len() implies
                        (#[trigger] self.compact_keys@[a]).0 != (
                        #[trigger] self.compact_keys@[b]).0 by {
                        assert(old(self).compact_keys@[a].0 != old(self).compact_keys@[b].0);
                    }
                    assert(self.live() =~= old(self).live());
                }
                return ;
            }
            i = i + 1;
        }
        proof {
            if kassoc_has(oldc, level) {
                let q = choose|q: int| 0 <= q < oldc.len() && oldc[q].0 == level;
                assert(oldc[q].0 != level);
            }
        }
        self.compact_keys.push((level, key.clone()));
        proof {
            lemma_kassoc_set_none(oldc, level, key@);
            assert(self.compact_view() =~= oldc.push((level, key@)));
            assert forall|a: int, b: int| 0 <= a < b < self.compact_keys@.len() implies (
            #[trigger] self.compact_keys@[a]).0 != (#[trigger] self.compact_keys@[b]).0 by {
                if b == self.compact_keys@.len() - 1 {
                    if old(self).compact_keys@[a].0 == level {
                        assert(kassoc_has(oldc, level)) by {
                            assert(oldc[a].0 == level);
                        }
                    }
                } else {
                    assert(old(self).compact_keys@[a].0 != old(self).compact_keys@[b].0);
                }
            }
            assert(self.live() =~= old(self).live());
        }
    }
}

/// When some first key lies past the cursor, a least one exists.
pub proof fn lemma_next_exists(live: Seq<(SstId, Seq<u8>, Seq<u8>)>, level: u64, c: Seq<u8>)
    requires
        exists|g: Seq<u8>| has_first_at(live, level, g) && lex_lt(c, g),
    ensures
        exists|f: Seq<u8>| is_next_first(live, level, c, f),
    decreases live.len(),
{
    // Scan the finite live table for the least candidate.
    lemma_least_candidate(live, level, c, 0, choose|g: Seq<u8>|
        has_first_at(live, level, g) && lex_lt(c, g));
}

/// Among the candidates at or past index `i`, including a known candidate,
/// a least candidate exists.
proof fn lemma_least_candidate(
    live: Seq<(SstId, Seq<u8>, Seq<u8>)>,
    level: u64,
    c: Seq<u8>,
    i: int,
    w: Seq<u8>,
)
    requires
        has_first_at(live, level, w),
        lex_lt(c, w),
    ensures
        exists|f: Seq<u8>| is_next_first(live, level, c, f),
{
    lemma_least_from(live, level, c, live.len() as int, w);
}

/// Induction over a shrinking prefix: the least candidate among the first
/// `n` entries and `w`.
proof fn lemma_least_from(
    live: Seq<(SstId, Seq<u8>, Seq<u8>)>,
    level: u64,
    c: Seq<u8>,
    n: int,
    w: Seq<u8>,
)
    requires
        0 <= n <= live.len(),
        has_first_at(live, level, w),
        lex_lt(c, w),
        forall|q: int|
            n <= q < live.len() && (#[trigger] live[q]).0.level == level && lex_lt(
                c,
                live[q].1,
            ) ==> lex_le(w, live[q].1),
    ensures
        exists|f: Seq<u8>| is_next_first(live, level, c, f),
    decreases n,
{
    if n == 0 {
        assert(is_next_first(live, level, c, w)) by {
            assert forall|g: Seq<u8>| has_first_at(live, level, g) && lex_lt(c, g) implies
                lex_le(w, g) by {
                let q = choose|q: int|
                    0 <= q < live.len() && (#[trigger] live[q]).0.level == level && live[q].1
                        == g;
            }
        }
    } else {
        let q = n - 1;
        if live[q].0.level == level && lex_lt(c, live[q].1) && lex_lt(live[q].1, w) {
            assert(has_first_at(live, level, live[q].1)) by {
                assert(live[q].0.level == level && live[q].1 == live[q].1);
            }
            assert forall|p: int|
                n - 1 <= p < live.len() && (#[trigger] live[p]).0.level == level && lex_lt(
                    c,
                    live[p].1,
                ) implies lex_le(live[q].1, live[p].1) by {
                if p >= n {
                    crate::keys::lemma_lex_transitive(live[q].1, w, live[p].1);
                    if w == live[p].1 {
                    }
                } else {
                    crate::keys::lemma_lex_connected(live[q].1, live[p].1);
                }
            }
            lemma_least_from(live, level, c, n - 1, live[q].1);
        } else {
            assert forall|p: int|
                n - 1 <= p < live.len() && (#[trigger] live[p]).0.level == level && lex_lt(
                    c,
                    live[p].1,
                ) implies lex_le(w, live[p].1) by {
                if p == q {
                    crate::keys::lemma_lex_connected(w, live[p].1);
                    crate::keys::lemma_lex_asymmetric(w, live[p].1);
                }
            }
            lemma_least_from(live, level, c, n - 1, w);
        }
    }
}

/// When the level has any first key, a least one exists.
pub proof fn lemma_min_exists(live: Seq<(SstId, Seq<u8>, Seq<u8>)>, level: u64)
    requires
        exists|f: Seq<u8>| has_first_at(live, level, f),
    ensures
        exists|f: Seq<u8>| is_min_first(live, level, f),
{
    lemma_min_from(live, level, live.len() as int, choose|f: Seq<u8>|
        has_first_at(live, level, f));
}

proof fn lemma_min_from(live: Seq<(SstId, Seq<u8>, Seq<u8>)>, level: u64, n: int, w: Seq<u8>)
    requires
        0 <= n <= live.len(),
        has_first_at(live, level, w),
        forall|q: int|
            n <= q < live.len() && (#[trigger] live[q]).0.level == level ==> lex_le(
                w,
                live[q].1,
            ),
    ensures
        exists|f: Seq<u8>| is_min_first(live, level, f),
    decreases n,
{
    if n == 0 {
        assert(is_min_first(live, level, w)) by {
            assert forall|g: Seq<u8>| has_first_at(live, level, g) implies lex_le(w, g) by {
                let q = choose|q: int|
                    0 <= q < live.len() && (#[trigger] live[q]).0.level == level && live[q].1
                        == g;
            }
        }
    } else {
        let q = n - 1;
        if live[q].0.level == level && lex_lt(live[q].1, w) {
            assert(has_first_at(live, level, live[q].1)) by {
                assert(live[q].0.level == level && live[q].1 == live[q].1);
            }
            assert forall|p: int|
                n - 1 <= p < live.len() && (#[trigger] live[p]).0.level == level implies
                lex_le(live[q].1, live[p].1) by {
                if p >= n {
                    crate::keys::lemma_lex_transitive(live[q].1, w, live[p].1);
                    if w == live[p].1 {
                    }
                } else {
                    crate::keys::lemma_lex_connected(live[q].1, live[p].1);
                }
            }
            lemma_min_from(live, level, n - 1, live[q].1);
        } else {
            assert forall|p: int|
                n - 1 <= p < live.len() && (#[trigger] live[p]).0.level == level implies
                lex_le(w, live[p].1) by {
                if p == q {
                    crate::keys::lemma_lex_connected(w, live[p].1);
                    crate::keys::lemma_lex_asymmetric(w, live[p].1);
                }
            }
            lemma_min_from(live, level, n - 1, w);
        }
    }
}

/// Setting a cursor stores exactly that value under the key.
pub proof fn lemma_kassoc_set_val(s: Seq<(u64, Seq<u8>)>, k: u64, v: Seq<u8>)
    ensures
        kassoc_has(kassoc_set(s, k, v), k),
        kassoc_val(kassoc_set(s, k, v), k) == v,
    decreases s.len(),
{
    let s2 = kassoc_set(s, k, v);
    if s.len() == 0 {
        assert(s2[0].0 == k);
    } else if s[0].0 == k {
        assert(s2[0].0 == k);
    } else {
        lemma_kassoc_set_val(s.skip(1), k, v);
        assert(s2[0] == s[0]);
        assert(s2.skip(1) =~= kassoc_set(s.skip(1), k, v));
        let q = choose|q: int|
            0 <= q < kassoc_set(s.skip(1), k, v).len() && kassoc_set(s.skip(1), k, v)[q].0
                == k;
        assert(s2[q + 1].0 == k);
    }
}

/// A matching index of a unique-key cursor association carries its value.
pub proof fn lemma_kassoc_at(s: Seq<(u64, Seq<u8>)>, k: u64, i: int)
    requires
        0 <= i < s.len(),
        s[i].0 == k,
        forall|a: int, b: int| 0 <= a < b < s.len() ==> (#[trigger] s[a]).0 != (#[trigger] s[b]).0,
    ensures
        kassoc_has(s, k),
        kassoc_val(s, k) == s[i].1,
    decreases s.len(),
{
    if i > 0 {
        assert(s[0].0 != k);
        assert(s.skip(1)[i - 1] == s[i]);
        assert forall|a: int, b: int| 0 <= a < b < s.skip(1).len() implies (
        #[trigger] s.skip(1)[a]).0 != (#[trigger] s.skip(1)[b]).0 by {
            assert(s.skip(1)[a] == s[a + 1]);
            assert(s.skip(1)[b] == s[b + 1]);
        }
        lemma_kassoc_at(s.skip(1), k, i - 1);
    } else {
        assert(s[0].0 == k);
    }
}

impl Manifest {
    /// Applies one manifest log record to the catalog.  Total: a record
    /// naming an impossible change is ignored, so that replay of an
    /// arbitrary log cannot fail.
    pub fn execute_action(&mut self, action: ManifestAction)
        requires
            old(self).wf(),
        ensures
            final(self).wf(),
            final(self).view_state() == man_step(old(self).view_state(), action@),
    {
        match action {
            ManifestAction::Commit => {}
            ManifestAction::Add(t) => {
                let (id, f, l) = t;
                let ok = match key_cmp(&f, &l) {
                    KeyOrd::Greater => false,
                    _ => true,
                };
                if ok {
                    self.add_sst(id, &f, &l);
                }
            }
            ManifestAction::Remove(t) => {
                self.remove_sst(&t.0);
            }
            ManifestAction::NewId(t) => {
                let cur = self.latest_sst_id(t.0);
                if cur.id < u64::MAX {
                    self.new_sst_id(t.0);
                    proof {
                        assert(self.view_state().ids == assoc_set(
                            old(self).view_state().ids,
                            t.0,
                            (old(self).next_id_of(t.0) + 1) as u64,
                        ));
                    }
                }
            }
            ManifestAction::NextCompact(t) => {
                let has = self.level_nonempty(t.0);
                if has {
                    self.next_compact_sst(t.0);
                }
            }
        }
    }

    /// Whether the level holds any live SST.
    #[verifier::loop_isolation(false)]
    fn level_nonempty(&self, level: u64) -> (r: bool)
        ensures
            r == exists|f: Seq<u8>| has_first_at(self.live(), level, f),
    {
        let mut i: usize = 0;
        while i < self.ssts.len()
            invariant
                0 <= i <= self.ssts@.len(),
                forall|q: int| 0 <= q < i ==> (#[trigger] self.live()[q]).0.level != level,
            decreases self.ssts@.len() - i,
        {
            proof {
                assert(self.live()[i as int] == range_view(self.ssts@[i as int]));
            }
            if self.ssts[i].id.level == level {
                proof {
                    assert(has_first_at(self.live(), level, self.live()[i as int].1)) by {
                        assert(self.live()[i as int].0.level == level);
                    }
                }
                return true;
            }
            i = i + 1;
        }
        proof {
            if exists|f: Seq<u8>| has_first_at(self.live(), level, f) {
                let f = choose|f: Seq<u8>| has_first_at(self.live(), level, f);
                let q = choose|q: int|
                    0 <= q < self.live().len() && (#[trigger] self.live()[q]).0.level == level
                        && self.live()[q].1 == f;
            }
        }
        false
    }

    /// The total byte size of a level, from the per-file sizes the caller
    /// read off the SST files of the store directory.
    #[verifier::loop_isolation(false)]
    pub fn level_byte_size(&self, level: u64, sizes: &Vec<(SstId, u64)>) -> (r: u64)
        requires
            level_size_sum(sizes@, level) <= u64::MAX,
        ensures
            r == level_size_sum(sizes@, level),
    {
        let mut r: u64 = 0;
        let mut i: usize = 0;
        proof {
            assert(sizes@.skip(0) =~= sizes@);
            assert(sizes@.take(0) =~= Seq::<(SstId, u64)>::empty());
            lemma_level_size_app(sizes@, level, 0);
            lemma_level_size_nonneg(sizes@, level);
        }
        while i < sizes.len()
            invariant
                0 <= i <= sizes@.len(),
                r == level_size_sum(sizes@.take(i as int), level),
                level_size_sum(sizes@.take(i as int), level) + level_size_sum(
                    sizes@.skip(i as int),
                    level,
                ) == level_size_sum(sizes@, level),
                level_size_sum(sizes@.skip(i as int), level) >= 0,
            decreases sizes@.len() - i,
        {
            proof {
                assert(sizes@.skip(i as int)[0] == sizes@[i as int]);
                assert(sizes@.skip(i as int).skip(1) =~= sizes@.skip(i + 1));
                assert(sizes@.take(i + 1) =~= sizes@.take(i as int).push(sizes@[i as int]));
                lemma_level_size_snoc(sizes@.take(i as int), level, sizes@[i as int]);
                lemma_level_size_nonneg(sizes@.skip(i + 1), level);
            }
            if sizes[i].0.level == level {
                r = r + sizes[i].1;
            }
            i = i + 1;
        }
        proof {
            assert(sizes@.take(sizes@.len() as int) =~= sizes@);
        }
        r
    }
}

/// The sum of the sizes recorded for one level.
pub open spec fn level_size_sum(sizes: Seq<(SstId, u64)>, level: u64) -> int
    decreases sizes.len(),
{
    if sizes.len() == 0 {
        0
    } else {
        (if sizes[0].0.level == level {
            sizes[0].1 as int
        } else {
            0
        }) + level_size_sum(sizes.skip(1), level)
    }
}

proof fn lemma_level_size_nonneg(sizes: Seq<(SstId, u64)>, level: u64)
    ensures
        level_size_sum(sizes, level) >= 0,
    decreases sizes.len(),
{
    if sizes.len() > 0 {
        lemma_level_size_nonneg(sizes.skip(1), level);
    }
}

proof fn lemma_level_size_app(sizes: Seq<(SstId, u64)>, level: u64, i: int)
    requires
        0 <= i <= sizes.len(),
    ensures
        level_size_sum(sizes.take(i), level) + level_size_sum(sizes.skip(i), level)
            == level_size_sum(sizes, level),
    decreases i,
{
    if i == 0 {
        assert(sizes.take(0) =~= Seq::<(SstId, u64)>::empty());
        assert(sizes.skip(0) =~= sizes);
    } else {
        lemma_level_size_app(sizes, level, i - 1);
        assert(sizes.take(i) =~= sizes.take(i - 1).push(sizes[i - 1]));
        lemma_level_size_snoc(sizes.take(i - 1), level, sizes[i - 1]);
        assert(sizes.skip(i - 1)[0] == sizes[i - 1]);
        assert(sizes.skip(i - 1).skip(1) =~= sizes.skip(i));
    }
}

proof fn lemma_level_size_snoc(sizes: Seq<(SstId, u64)>, level: u64, e: (SstId, u64))
    ensures
        level_size_sum(sizes.push(e), level) == level_size_sum(sizes, level) + (
        if e.0.level == level {
            e.1 as int
        } else {
            0
        }),
    decreases sizes.len(),
{
    if sizes.len() == 0 {
        assert(sizes.push(e)[0] == e);
        assert(sizes.push(e).skip(1) =~= Seq::<(SstId, u64)>::empty());
        assert(level_size_sum(sizes.push(e).skip(1), level) == 0);
    } else {
        assert(sizes.push(e)[0] == sizes[0]);
        assert(sizes.push(e).skip(1) =~= sizes.skip(1).push(e));
        lemma_level_size_snoc(sizes.skip(1), level, e);
    }
}

/// The byte stream a sequence of manifest log records encodes to.
pub open spec fn enc_man_actions(acts: Seq<ManActionV>) -> Seq<u8>
    decreases acts.len(),
{
    if acts.len() == 0 {
        Seq::empty()
    } else {
        enc_man_action(acts[0]) + enc_man_actions(acts.skip(1))
    }
}

/// The committed manifest records a byte stream yields on replay, under the
/// same batch discipline as the memtable log: records buffer into a pending
/// group, a commit marker releases the group, and a decode failure discards
/// what is pending.
pub open spec fn man_wal_commits(s: Seq<u8>, pending: Seq<ManActionV>) -> Seq<ManActionV>
    decreases s.len(),
{
    match parse_man_action(s) {
        None => Seq::empty(),
        Some((a, c)) => if 1 <= c <= s.len() {
            match a {
                ManActionV::Commit => pending + man_wal_commits(s.skip(c), Seq::empty()),
                _ => man_wal_commits(s.skip(c), pending.push(a)),
            }
        } else {
            Seq::empty()
        },
    }
}

/// The number of leading bytes that belong to a completed group.
pub open spec fn man_wal_commit_len(s: Seq<u8>) -> int
    decreases s.len(),
{
    match parse_man_action(s) {
        None => 0,
        Some((a, c)) => if 1 <= c <= s.len() {
            let rest = man_wal_commit_len(s.skip(c));
            if a is Commit {
                c + rest
            } else if rest > 0 {
                c + rest
            } else {
                0
            }
        } else {
            0
        },
    }
}

pub proof fn lemma_man_wal_commit_len_nonneg(s: Seq<u8>)
    ensures
        0 <= man_wal_commit_len(s) <= s.len(),
    decreases s.len(),
{
    match parse_man_action(s) {
        None => {}
        Some((a, c)) => {
            if 1 <= c <= s.len() {
                lemma_man_wal_commit_len_nonneg(s.skip(c));
            }
        }
    }
}

/// The view of a staged manifest batch.
pub open spec fn man_batch_view(batch: Seq<ManifestAction>) -> Seq<ManActionV> {
    batch.map_values(|a: ManifestAction| a@)
}

/// The ids of every staged removal, in staging order.
pub open spec fn removes_of(acts: Seq<ManActionV>) -> Seq<SstId>
    decreases acts.len(),
{
    if acts.len() == 0 {
        Seq::empty()
    } else {
        (match acts[0] {
            ManActionV::Remove(id) => seq![id],
            _ => Seq::empty(),
        }) + removes_of(acts.skip(1))
    }
}

/// The staged removals distribute over concatenation.
pub proof fn lemma_removes_of_app(x: Seq<ManActionV>, y: Seq<ManActionV>)
    ensures
        removes_of(x + y) == removes_of(x) + removes_of(y),
    decreases x.len(),
{
    if x.len() == 0 {
        assert(x + y =~= y);
        assert(removes_of(x) + removes_of(y) =~= removes_of(y));
    } else {
        assert((x + y).skip(1) =~= x.skip(1) + y);
        assert((x + y)[0] == x[0]);
        lemma_removes_of_app(x.skip(1), y);
        match x[0] {
            ManActionV::Remove(id) => {
                assert(seq![id] + (removes_of(x.skip(1)) + removes_of(y)) =~= (seq![id]
                    + removes_of(x.skip(1))) + removes_of(y));
            }
            _ => {
                assert(Seq::<SstId>::empty() + (removes_of(x.skip(1)) + removes_of(y)) =~= (
                Seq::<SstId>::empty() + removes_of(x.skip(1))) + removes_of(y));
            }
        }
    }
}

/// The manifest catalog together with its staged batch.  The log and
/// snapshot files live with the embedding application; the keeper hands
/// out exactly the bytes to write, together with the generation numbers
/// naming the snapshot and log files.
pub struct ManifestKeeper {
    manifest: Manifest,
    batch: Vec<ManifestAction>,
    snapshot_gen: u64,
    log_gen: u64,
}

impl ManifestKeeper {
    /// The catalog state.
    pub closed spec fn state(self) -> ManifestV {
        self.manifest.view_state()
    }

    pub closed spec fn wf(self) -> bool {
        self.manifest.wf()
    }

    /// The staged, not yet committed records.
    pub closed spec fn batch_view(self) -> Seq<ManActionV> {
        man_batch_view(self.batch@)
    }

    /// The generation numbers of the live snapshot and log files.
    pub closed spec fn gens(self) -> (u64, u64) {
        (self.snapshot_gen, self.log_gen)
    }

    pub fn new() -> (r: ManifestKeeper)
        ensures
            r.wf(),
            r.state() == Manifest::new_state(),
            r.batch_view() == Seq::<ManActionV>::empty(),
            r.gens() == (0u64, 0u64),
    {
        let r = ManifestKeeper {
            manifest: Manifest::new(),
            batch: Vec::new(),
            snapshot_gen: 0,
            log_gen: 0,
        };
        proof {
            assert(r.batch_view() =~= Seq::<ManActionV>::empty());
            assert(r.state().ids =~= Manifest::new_state().ids);
            assert(r.state().cursors =~= Manifest::new_state().cursors);
            assert(r.state().live =~= Manifest::new_state().live);
        }
        r
    }

    /// The generation numbers, as a pair.
    pub fn gens_pair(&self) -> (r: (u64, u64))
        ensures
            r == self.gens(),
    {
        (self.snapshot_gen, self.log_gen)
    }

    /// Reads the catalog.
    pub fn catalog(&self) -> (r: &Manifest)
        requires
            self.wf(),
        ensures
            r.wf(),
            r.view_state() == self.state(),
    {
        &self.manifest
    }

    /// Stages a record.
    pub fn add_action(&mut self, action: ManifestAction)
        ensures
            final(self).batch_view() == old(self).batch_view().push(action@),
            final(self).state() == old(self).state(),
            final(self).gens() == old(self).gens(),
            old(self).wf() ==> final(self).wf(),
    {
        self.batch.push(action);
        proof {
            assert(self.batch_view() =~= old(self).batch_view().push(action@));
        }
    }

    /// Stages installing an SST with its range.
    pub fn add(&mut self, sst_id: SstId, first_key: &Vec<u8>, last_key: &Vec<u8>)
        ensures
            final(self).batch_view() == old(self).batch_view().push(
                ManActionV::Add(sst_id, first_key@, last_key@),
            ),
            final(self).state() == old(self).state(),
            final(self).gens() == old(self).gens(),
            old(self).wf() ==> final(self).wf(),
    {
        self.add_action(ManifestAction::Add((sst_id, first_key.clone(), last_key.clone())));
    }

    /// Stages retiring an SST.
    pub fn remove(&mut self, sst_id: &SstId)
        ensures
            final(self).batch_view() == old(self).batch_view().push(ManActionV::Remove(*sst_id)),
            final(self).state() == old(self).state(),
            final(self).gens() == old(self).gens(),
            old(self).wf() ==> final(self).wf(),
    {
        self.add_action(ManifestAction::Remove((*sst_id,)));
    }

    /// Stages advancing the id allocator of a level.
    pub fn new_id(&mut self, level: u64)
        ensures
            final(self).batch_view() == old(self).batch_view().push(ManActionV::NewId(level)),
            final(self).state() == old(self).state(),
            final(self).gens() == old(self).gens(),
            old(self).wf() ==> final(self).wf(),
    {
        self.add_action(ManifestAction::NewId((level,)));
    }

    /// Stages advancing the compaction cursor of a level.
    pub fn next_compact(&mut self, level: u64)
        ensures
            final(self).batch_view() == old(self).batch_view().push(
                ManActionV::NextCompact(level),
            ),
            final(self).state() == old(self).state(),
            final(self).gens() == old(self).gens(),
            old(self).wf() ==> final(self).wf(),
    {
        self.add_action(ManifestAction::NextCompact((level,)));
    }

    /// Discards the staged batch.
    pub fn batch_start(&mut self)
        ensures
            final(self).batch_view() == Seq::<ManActionV>::empty(),
            final(self).state() == old(self).state(),
            final(self).gens() == old(self).gens(),
            old(self).wf() ==> final(self).wf(),
    {
        self.batch.clear();
        proof {
            assert(self.batch_view() =~= Seq::<ManActionV>::empty());
        }
    }

    /// Serializes the staged batch followed by the commit marker, without
    /// applying anything: the bytes to append to the manifest log, and the
    /// id of every staged removal, whose file may be deleted only once
    /// those bytes are durable.
    pub fn commit_encode(&self) -> (r: (Vec<u8>, Vec<SstId>))
        ensures
            r.0@ == enc_man_actions(self.batch_view().push(ManActionV::Commit)),
            r.1@ == removes_of(self.batch_view()),
    {
        let ghost bv = self.batch_view();
        let mut bytes: Vec<u8> = Vec::new();
        let mut removes: Vec<SstId> = Vec::new();
        let mut i: usize = 0;
        proof {
            assert(bv.take(0) =~= Seq::<ManActionV>::empty());
            assert(removes@ =~= removes_of(bv.take(0)));
        }
        while i < self.batch.len()
            invariant
                0 <= i <= self.batch@.len(),
                bv == man_batch_view(self.batch@),
                bytes@ == enc_man_actions(bv.take(i as int)),
                removes@ == removes_of(bv.take(i as int)),
            decreases self.batch@.len() - i,
        {
            let a = &self.batch[i];
            encode_man_action(&mut bytes, a);
            match a {
                ManifestAction::Remove(t) => {
                    removes.push(t.0);
                }
                _ => {}
            }
            proof {
                let one = seq![bv[i as int]];
                assert(bv.take(i + 1) =~= bv.take(i as int) + one);
                lemma_enc_man_actions_app(bv.take(i as int), one);
                lemma_removes_of_app(bv.take(i as int), one);
                assert(one.skip(1) =~= Seq::<ManActionV>::empty());
                assert(one[0] == bv[i as int]);
                assert(enc_man_actions(one) == enc_man_action(bv[i as int]) + enc_man_actions(
                    one.skip(1),
                ));
                assert(enc_man_actions(one) =~= enc_man_action(bv[i as int]));
                assert(bv[i as int] == self.batch@[i as int]@);
                assert(removes_of(one.skip(1)) == Seq::<SstId>::empty());
                match bv[i as int] {
                    ManActionV::Remove(id) => {
                        assert(removes_of(one) =~= seq![id]);
                        assert(removes@ =~= removes_of(bv.take(i as int)) + seq![id]);
                    }
                    _ => {
                        assert(removes_of(one) =~= Seq::<SstId>::empty());
                        assert(removes@ =~= removes_of(bv.take(i as int)) + removes_of(one));
                    }
                }
            }
            i = i + 1;
        }
        encode_man_action(&mut bytes, &ManifestAction::Commit);
        proof {
            assert(bv.take(self.batch@.len() as int) =~= bv);
            assert(bv.push(ManActionV::Commit) =~= bv + seq![ManActionV::Commit]);
            lemma_enc_man_actions_app(bv, seq![ManActionV::Commit]);
            assert(seq![ManActionV::Commit].skip(1) =~= Seq::<ManActionV>::empty());
            assert(seq![ManActionV::Commit][0] == ManActionV::Commit);
            assert(enc_man_actions(seq![ManActionV::Commit].skip(1)) == Seq::<u8>::empty());
            assert(enc_man_actions(seq![ManActionV::Commit]) == enc_man_action(
                ManActionV::Commit,
            ) + enc_man_actions(seq![ManActionV::Commit].skip(1)));
            assert(enc_man_actions(seq![ManActionV::Commit]) =~= enc_man_action(
                ManActionV::Commit,
            ));
        }
        (bytes, removes)
    }

    /// Applies the staged batch to the catalog in order and clears it,
    /// once the caller has made the encoded batch durable.
    pub fn commit_apply(&mut self)
        requires
            old(self).wf(),
        ensures
            final(self).wf(),
            final(self).state() == man_apply(old(self).state(), old(self).batch_view()),
            final(self).batch_view() == Seq::<ManActionV>::empty(),
            final(self).gens() == old(self).gens(),
    {
        let ghost bv = self.batch_view();
        let mut j: usize = 0;
        while j < self.batch.len()
            invariant
                0 <= j <= self.batch@.len(),
                self.batch@ == old(self).batch@,
                self.snapshot_gen == old(self).snapshot_gen,
                self.log_gen == old(self).log_gen,
                bv == man_batch_view(self.batch@),
                self.manifest.wf(),
                self.manifest.view_state() == man_apply(old(self).state(), bv.take(j as int)),
            decreases self.batch@.len() - j,
        {
            let a = self.batch[j].clone();
            proof {
                assert(a@ == bv[j as int]);
            }
            self.manifest.execute_action(a);
            proof {
                let one = seq![bv[j as int]];
                assert(bv.take(j + 1) =~= bv.take(j as int) + one);
                lemma_man_apply_app(old(self).state(), bv.take(j as int), one);
                assert(one.skip(1) =~= Seq::<ManActionV>::empty());
                assert(one[0] == bv[j as int]);
                let prev = man_apply(old(self).state(), bv.take(j as int));
                assert(man_apply(prev, one) == man_apply(man_step(prev, one[0]), one.skip(1)));
                assert(man_apply(man_step(prev, bv[j as int]), one.skip(1)) == man_step(
                    prev,
                    bv[j as int],
                ));
            }
            j = j + 1;
        }
        self.batch.clear();
        proof {
            assert(bv.take(old(self).batch@.len() as int) =~= bv);
            assert(self.batch_view() =~= Seq::<ManActionV>::empty());
        }
    }

    /// Commits the staged batch in one step: serializes it, applies it to
    /// the catalog, and clears it, reporting the ids of every staged
    /// removal.  The caller must append the bytes to the manifest log and
    /// sync it before deleting those files; where the in-memory catalog
    /// must stay behind an unconfirmed write, use `commit_encode` and
    /// `commit_apply` instead.
    pub fn commit(&mut self) -> (r: (Vec<u8>, Vec<SstId>))
        requires
            old(self).wf(),
        ensures
            final(self).wf(),
            final(self).state() == man_apply(old(self).state(), old(self).batch_view()),
            final(self).batch_view() == Seq::<ManActionV>::empty(),
            r.0@ == enc_man_actions(old(self).batch_view().push(ManActionV::Commit)),
            r.1@ == removes_of(old(self).batch_view()),
            final(self).gens() == old(self).gens(),
    {
        let r = self.commit_encode();
        self.commit_apply();
        r
    }

}

impl Manifest {
    /// The empty catalog state.
    pub open spec fn new_state() -> ManifestV {
        ManifestV {
            ids: Seq::empty(),
            cursors: Seq::empty(),
            live: Seq::empty(),
        }
    }
}

/// Encoding distributes over concatenation of manifest record sequences.
pub proof fn lemma_enc_man_actions_app(x: Seq<ManActionV>, y: Seq<ManActionV>)
    ensures
        enc_man_actions(x + y) == enc_man_actions(x) + enc_man_actions(y),
    decreases x.len(),
{
    if x.len() == 0 {
        assert(x + y =~= y);
        assert(enc_man_actions(x) + enc_man_actions(y) =~= enc_man_actions(y));
    } else {
        assert((x + y).skip(1) =~= x.skip(1) + y);
        assert((x + y)[0] == x[0]);
        lemma_enc_man_actions_app(x.skip(1), y);
        assert(enc_man_action(x[0]) + (enc_man_actions(x.skip(1)) + enc_man_actions(y)) =~= (
        enc_man_action(x[0]) + enc_man_actions(x.skip(1))) + enc_man_actions(y));
    }
}

/// Application distributes over concatenation of manifest records.
pub proof fn lemma_man_apply_app(v: ManifestV, x: Seq<ManActionV>, y: Seq<ManActionV>)
    ensures
        man_apply(v, x + y) == man_apply(man_apply(v, x), y),
    decreases x.len(),
{
    if x.len() == 0 {
        assert(x + y =~= y);
    } else {
        assert((x + y).skip(1) =~= x.skip(1) + y);
        assert((x + y)[0] == x[0]);
        lemma_man_apply_app(man_step(v, x[0]), x.skip(1), y);
    }
}

/// The serialized catalog: the allocator pairs, the cursor pairs, and the
/// live entries, each section prefixed with its count.
pub open spec fn enc_state(v: ManifestV) -> Seq<u8> {
    enc_u64(v.ids.len() as u64) + enc_id_pairs(v.ids) + enc_u64(v.cursors.len() as u64)
        + enc_cursor_pairs(v.cursors) + enc_u64(v.live.len() as u64) + enc_live_entries(v.live)
}

pub open spec fn enc_id_pairs(s: Seq<(u64, u64)>) -> Seq<u8>
    decreases s.len(),
{
    if s.len() == 0 {
        Seq::empty()
    } else {
        enc_u64(s[0].0) + enc_u64(s[0].1) + enc_id_pairs(s.skip(1))
    }
}

pub open spec fn enc_cursor_pairs(s: Seq<(u64, Seq<u8>)>) -> Seq<u8>
    decreases s.len(),
{
    if s.len() == 0 {
        Seq::empty()
    } else {
        enc_u64(s[0].0) + enc_bytes(s[0].1) + enc_cursor_pairs(s.skip(1))
    }
}

pub open spec fn enc_live_entries(s: Seq<(SstId, Seq<u8>, Seq<u8>)>) -> Seq<u8>
    decreases s.len(),
{
    if s.len() == 0 {
        Seq::empty()
    } else {
        enc_u64(s[0].0.level) + enc_u64(s[0].0.id) + enc_bytes(s[0].1) + enc_bytes(s[0].2)
            + enc_live_entries(s.skip(1))
    }
}

impl ManifestKeeper {
    /// Serializes the catalog for a snapshot file.
    pub fn encode_state(&self) -> (r: Vec<u8>)
        requires
            self.wf(),
        ensures
            r@ == enc_state(self.state()),
    {
        self.manifest.encode_state()
    }

    /// Begins a new snapshot generation: advances both generation numbers
    /// and returns them with the serialized catalog.  The caller writes the
    /// snapshot file and an empty log file under the new numbers, rewrites
    /// the pointer file, syncs all three, and only then removes the old
    /// snapshot and log files.
    pub fn snapshot(&mut self) -> (r: (u64, u64, Vec<u8>))
        requires
            old(self).wf(),
            old(self).gens().0 < u64::MAX,
            old(self).gens().1 < u64::MAX,
        ensures
            final(self).wf(),
            final(self).state() == old(self).state(),
            final(self).batch_view() == old(self).batch_view(),
            final(self).gens() == ((old(self).gens().0 + 1) as u64, (old(self).gens().1 + 1) as u64),
            r.0 == final(self).gens().0,
            r.1 == final(self).gens().1,
            r.2@ == enc_state(old(self).state()),
    {
        self.snapshot_gen = self.snapshot_gen + 1;
        self.log_gen = self.log_gen + 1;
        let bytes = self.manifest.encode_state();
        (self.snapshot_gen, self.log_gen, bytes)
    }

    /// Rebuilds a keeper from the bytes of its snapshot file and its log
    /// file, replaying committed groups and discarding a torn tail.
    /// Returns the keeper and the number of leading log bytes worth
    /// keeping; the caller must truncate the log file to that length.
    /// Succeeds exactly when the snapshot serializes a well-formed catalog
    /// state — in particular on every snapshot this library writes — and
    /// the result is that state with exactly the log's committed groups
    /// applied in order.
    pub fn recover(
        snapshot_bytes: &Vec<u8>,
        log_bytes: &Vec<u8>,
        snapshot_gen: u64,
        log_gen: u64,
    ) -> (r: Option<(ManifestKeeper, usize)>)
        ensures
            r is Some <==> snapshot_wf(snapshot_bytes@),
            match r {
                None => true,
                Some((k, keep)) => {
                    &&& k.wf()
                    &&& forall|s0: ManifestV|
                        state_wf(s0) && enc_state(s0) == snapshot_bytes@ ==> k.state()
                            == man_apply(s0, man_wal_commits(log_bytes@, Seq::empty()))
                    &&& k.batch_view() == Seq::<ManActionV>::empty()
                    &&& keep == man_wal_commit_len(log_bytes@)
                    &&& k.gens() == (snapshot_gen, log_gen)
                },
            },
    {
        let mut manifest = match Manifest::decode_state(snapshot_bytes) {
            None => {
                return None;
            },
            Some(m) => m,
        };
        let ghost s0 = manifest.view_state();
        proof {
            // Any well-formed source of these bytes is the decoded state.
            assert forall|s1: ManifestV|
                state_wf(s1) && enc_state(s1) == snapshot_bytes@ implies s1 == s0 by {
                lemma_parse_enc_state(s1);
                lemma_parse_enc_state(s0);
            }
        }
        let ghost full = man_wal_commits(log_bytes@, Seq::empty());
        let mut pending: Vec<ManifestAction> = Vec::new();
        let mut cur: usize = 0;
        let mut keep: usize = 0;
        let ghost mut committed: Seq<ManActionV> = Seq::empty();
        let mut stop = false;
        proof {
            assert(man_batch_view(pending@) =~= Seq::<ManActionV>::empty());
            assert(log_bytes@.skip(0) =~= log_bytes@);
            lemma_man_wal_commit_len_nonneg(log_bytes@);
            assert(man_apply(s0, committed) == s0);
        }
        while !stop
            invariant
                0 <= keep <= cur <= log_bytes@.len(),
                manifest.wf(),
                manifest.view_state() == man_apply(s0, committed),
                full == committed + man_wal_commits(
                    log_bytes@.skip(cur as int),
                    man_batch_view(pending@),
                ),
                man_wal_commit_len(log_bytes@) == if man_wal_commit_len(
                    log_bytes@.skip(cur as int),
                ) > 0 {
                    cur + man_wal_commit_len(log_bytes@.skip(cur as int))
                } else {
                    keep as int
                },
                stop ==> man_wal_commits(log_bytes@.skip(cur as int), man_batch_view(pending@))
                    == Seq::<ManActionV>::empty() && man_wal_commit_len(
                    log_bytes@.skip(cur as int),
                ) == 0,
            decreases log_bytes@.len() - cur + if stop {
                0int
            } else {
                1int
            },
        {
            let ghost pv = man_batch_view(pending@);
            match decode_man_action(log_bytes, cur) {
                None => {
                    stop = true;
                }
                Some((a, end)) => {
                    let ghost c = end - cur;
                    proof {
                        assert(parse_man_action(log_bytes@.skip(cur as int)) == Some((a@, c)));
                        assert(1 <= c <= log_bytes@.skip(cur as int).len());
                        assert(log_bytes@.skip(cur as int).skip(c) =~= log_bytes@.skip(
                            end as int,
                        ));
                        lemma_man_wal_commit_len_nonneg(log_bytes@.skip(end as int));
                    }
                    let is_commit = match &a {
                        ManifestAction::Commit => true,
                        _ => false,
                    };
                    proof {
                        assert(is_commit == (a@ is Commit));
                    }
                    if is_commit {
                        proof {
                            assert(man_wal_commits(log_bytes@.skip(cur as int), pv) == pv
                                + man_wal_commits(log_bytes@.skip(end as int), Seq::empty()));
                            assert(man_wal_commit_len(log_bytes@.skip(cur as int)) == c
                                + man_wal_commit_len(log_bytes@.skip(end as int)));
                        }
                        let mut j: usize = 0;
                        proof {
                            assert(committed + pv.take(0) =~= committed);
                        }
                        while j < pending.len()
                            invariant
                                0 <= j <= pending@.len(),
                                pv == man_batch_view(pending@),
                                manifest.wf(),
                                manifest.view_state() == man_apply(
                                    s0,
                                    committed + pv.take(j as int),
                                ),
                            decreases pending@.len() - j,
                        {
                            let act = pending[j].clone();
                            proof {
                                assert(act@ == pv[j as int]);
                            }
                            manifest.execute_action(act);
                            proof {
                                let one = seq![pv[j as int]];
                                assert(committed + pv.take(j + 1) =~= (committed + pv.take(
                                    j as int,
                                )) + one);
                                lemma_man_apply_app(s0, committed + pv.take(j as int), one);
                                assert(one.skip(1) =~= Seq::<ManActionV>::empty());
                                assert(one[0] == pv[j as int]);
                                let prev = man_apply(s0, committed + pv.take(j as int));
                                assert(man_apply(prev, one) == man_apply(
                                    man_step(prev, one[0]),
                                    one.skip(1),
                                ));
                                assert(man_apply(man_step(prev, pv[j as int]), one.skip(1))
                                    == man_step(prev, pv[j as int]));
                            }
                            j = j + 1;
                        }
                        pending.clear();
                        keep = end;
                        proof {
                            assert(pv.take(pv.len() as int) =~= pv);
                            committed = committed + pv;
                            assert(man_batch_view(pending@) =~= Seq::<ManActionV>::empty());
                            assert(full =~= committed + man_wal_commits(
                                log_bytes@.skip(end as int),
                                Seq::empty(),
                            ));
                        }
                    } else {
                        pending.push(a);
                        proof {
                            assert(man_batch_view(pending@) =~= pv.push(a@));
                            assert(man_wal_commits(log_bytes@.skip(cur as int), pv)
                                == man_wal_commits(log_bytes@.skip(end as int), pv.push(a@)));
                            assert(man_wal_commit_len(log_bytes@.skip(cur as int)) == if
                                man_wal_commit_len(log_bytes@.skip(end as int)) > 0 {
                                c + man_wal_commit_len(log_bytes@.skip(end as int))
                            } else {
                                0int
                            });
                        }
                    }
                    cur = end;
                }
            }
        }
        proof {
            assert(full == committed);
        }
        let keeper = ManifestKeeper {
            manifest,
            batch: Vec::new(),
            snapshot_gen,
            log_gen,
        };
        proof {
            assert(keeper.batch_view() =~= Seq::<ManActionV>::empty());
        }
        Some((keeper, keep))
    }
}

proof fn lemma_enc_id_pairs_app(x: Seq<(u64, u64)>, y: Seq<(u64, u64)>)
    ensures
        enc_id_pairs(x + y) == enc_id_pairs(x) + enc_id_pairs(y),
    decreases x.len(),
{
    if x.len() == 0 {
        assert(x + y =~= y);
        assert(enc_id_pairs(x) + enc_id_pairs(y) =~= enc_id_pairs(y));
    } else {
        assert((x + y).skip(1) =~= x.skip(1) + y);
        assert((x + y)[0] == x[0]);
        lemma_enc_id_pairs_app(x.skip(1), y);
        assert(enc_u64(x[0].0) + enc_u64(x[0].1) + (enc_id_pairs(x.skip(1)) + enc_id_pairs(y))
            =~= (enc_u64(x[0].0) + enc_u64(x[0].1) + enc_id_pairs(x.skip(1))) + enc_id_pairs(
            y,
        ));
    }
}

proof fn lemma_enc_cursor_pairs_app(x: Seq<(u64, Seq<u8>)>, y: Seq<(u64, Seq<u8>)>)
    ensures
        enc_cursor_pairs(x + y) == enc_cursor_pairs(x) + enc_cursor_pairs(y),
    decreases x.len(),
{
    if x.len() == 0 {
        assert(x + y =~= y);
        assert(enc_cursor_pairs(x) + enc_cursor_pairs(y) =~= enc_cursor_pairs(y));
    } else {
        assert((x + y).skip(1) =~= x.skip(1) + y);
        assert((x + y)[0] == x[0]);
        lemma_enc_cursor_pairs_app(x.skip(1), y);
        assert(enc_u64(x[0].0) + enc_bytes(x[0].1) + (enc_cursor_pairs(x.skip(1))
            + enc_cursor_pairs(y)) =~= (enc_u64(x[0].0) + enc_bytes(x[0].1) + enc_cursor_pairs(
            x.skip(1),
        )) + enc_cursor_pairs(y));
    }
}

proof fn lemma_enc_live_entries_app(
    x: Seq<(SstId, Seq<u8>, Seq<u8>)>,
    y: Seq<(SstId, Seq<u8>, Seq<u8>)>,
)
    ensures
        enc_live_entries(x + y) == enc_live_entries(x) + enc_live_entries(y),
    decreases x.len(),
{
    if x.len() == 0 {
        assert(x + y =~= y);
        assert(enc_live_entries(x) + enc_live_entries(y) =~= enc_live_entries(y));
    } else {
        assert((x + y).skip(1) =~= x.skip(1) + y);
        assert((x + y)[0] == x[0]);
        lemma_enc_live_entries_app(x.skip(1), y);
        assert(enc_u64(x[0].0.level) + enc_u64(x[0].0.id) + enc_bytes(x[0].1) + enc_bytes(
            x[0].2,
        ) + (enc_live_entries(x.skip(1)) + enc_live_entries(y)) =~= (enc_u64(x[0].0.level)
            + enc_u64(x[0].0.id) + enc_bytes(x[0].1) + enc_bytes(x[0].2) + enc_live_entries(
            x.skip(1),
        )) + enc_live_entries(y));
    }
}

impl Manifest {
    /// Serializes the catalog.
    #[verifier::loop_isolation(false)]
    pub fn encode_state(&self) -> (r: Vec<u8>)
        ensures
            r@ == enc_state(self.view_state()),
    {
        let v = self;
        let mut r: Vec<u8> = Vec::new();
        encode_u64(&mut r, self.new_ids.len() as u64);
        let mut i: usize = 0;
        let ghost ids = self.new_ids_view();
        proof {
            assert(ids.take(0) =~= Seq::<(u64, u64)>::empty());
        }
        while i < self.new_ids.len()
            invariant
                0 <= i <= ids.len(),
                r@ == enc_u64(ids.len() as u64) + enc_id_pairs(ids.take(i as int)),
            decreases ids.len() - i,
        {
            encode_u64(&mut r, self.new_ids[i].0);
            encode_u64(&mut r, self.new_ids[i].1);
            proof {
                let one = seq![ids[i as int]];
                assert(ids.take(i + 1) =~= ids.take(i as int) + one);
                lemma_enc_id_pairs_app(ids.take(i as int), one);
                assert(one.skip(1) =~= Seq::<(u64, u64)>::empty());
                assert(one[0] == ids[i as int]);
                assert(enc_id_pairs(one.skip(1)) == Seq::<u8>::empty());
                assert(enc_id_pairs(one) == enc_u64(one[0].0) + enc_u64(one[0].1)
                    + enc_id_pairs(one.skip(1)));
                assert(enc_id_pairs(one) =~= enc_u64(ids[i as int].0) + enc_u64(
                    ids[i as int].1,
                ));
                assert(r@ =~= enc_u64(ids.len() as u64) + enc_id_pairs(ids.take(i + 1)));
            }
            i = i + 1;
        }
        proof {
            assert(ids.take(ids.len() as int) =~= ids);
        }
        encode_u64(&mut r, self.compact_keys.len() as u64);
        let ghost curs = self.compact_view();
        let ghost base1 = enc_u64(ids.len() as u64) + enc_id_pairs(ids) + enc_u64(
            curs.len() as u64,
        );
        proof {
            assert(curs.take(0) =~= Seq::<(u64, Seq<u8>)>::empty());
            assert(r@ =~= base1 + enc_cursor_pairs(curs.take(0)));
        }
        let mut j: usize = 0;
        while j < self.compact_keys.len()
            invariant
                0 <= j <= curs.len(),
                curs.len() == self.compact_keys@.len(),
                r@ == base1 + enc_cursor_pairs(curs.take(j as int)),
            decreases curs.len() - j,
        {
            proof {
                assert(curs[j as int] == (self.compact_keys@[j as int].0, self.compact_keys@[
                    j as int].1@));
            }
            encode_u64(&mut r, self.compact_keys[j].0);
            encode_bytes(&mut r, &self.compact_keys[j].1);
            proof {
                let one = seq![curs[j as int]];
                assert(curs.take(j + 1) =~= curs.take(j as int) + one);
                lemma_enc_cursor_pairs_app(curs.take(j as int), one);
                assert(one.skip(1) =~= Seq::<(u64, Seq<u8>)>::empty());
                assert(one[0] == curs[j as int]);
                assert(enc_cursor_pairs(one.skip(1)) == Seq::<u8>::empty());
                assert(enc_cursor_pairs(one) == enc_u64(one[0].0) + enc_bytes(one[0].1)
                    + enc_cursor_pairs(one.skip(1)));
                assert(enc_cursor_pairs(one) =~= enc_u64(curs[j as int].0) + enc_bytes(
                    curs[j as int].1,
                ));
                assert(r@ =~= base1 + enc_cursor_pairs(curs.take(j + 1)));
            }
            j = j + 1;
        }
        proof {
            assert(curs.take(curs.len() as int) =~= curs);
        }
        encode_u64(&mut r, self.ssts.len() as u64);
        let ghost lv = self.live();
        let ghost base2 = base1 + enc_cursor_pairs(curs) + enc_u64(lv.len() as u64);
        proof {
            assert(lv.take(0) =~= Seq::<(SstId, Seq<u8>, Seq<u8>)>::empty());
            assert(r@ =~= base2 + enc_live_entries(lv.take(0)));
        }
        let mut t: usize = 0;
        while t < self.ssts.len()
            invariant
                0 <= t <= lv.len(),
                lv.len() == self.ssts@.len(),
                r@ == base2 + enc_live_entries(lv.take(t as int)),
            decreases lv.len() - t,
        {
            proof {
                assert(lv[t as int] == range_view(self.ssts@[t as int]));
            }
            let e = &self.ssts[t];
            encode_u64(&mut r, e.id.level);
            encode_u64(&mut r, e.id.id);
            encode_bytes(&mut r, &e.first_key);
            encode_bytes(&mut r, &e.last_key);
            proof {
                let one = seq![lv[t as int]];
                assert(lv.take(t + 1) =~= lv.take(t as int) + one);
                lemma_enc_live_entries_app(lv.take(t as int), one);
                assert(one.skip(1) =~= Seq::<(SstId, Seq<u8>, Seq<u8>)>::empty());
                assert(one[0] == lv[t as int]);
                assert(enc_live_entries(one.skip(1)) == Seq::<u8>::empty());
                assert(enc_live_entries(one) == enc_u64(one[0].0.level) + enc_u64(one[0].0.id)
                    + enc_bytes(one[0].1) + enc_bytes(one[0].2) + enc_live_entries(
                    one.skip(1),
                ));
                assert(enc_live_entries(one) =~= enc_u64(lv[t as int].0.level) + enc_u64(
                    lv[t as int].0.id,
                ) + enc_bytes(lv[t as int].1) + enc_bytes(lv[t as int].2));
                assert(r@ =~= base2 + enc_live_entries(lv.take(t + 1)));
            }
            t = t + 1;
        }
        proof {
            assert(lv.take(lv.len() as int) =~= lv);
            assert(r@ =~= enc_state(self.view_state()));
        }
        r
    }

    /// Decodes `n` allocator pairs at `pos`.
    #[verifier::loop_isolation(false)]
    #[verifier::rlimit(100)]
    #[verifier::spinoff_prover]
    fn decode_id_pairs(bytes: &Vec<u8>, pos: usize, n: u64) -> (r: Option<
        (Vec<(u64, u64)>, usize),
    >)
        requires
            pos <= bytes.len(),
        ensures
            match r {
                None => parse_id_pairs(bytes@.skip(pos as int), n as int) is None,
                Some((v, end)) => {
                    &&& parse_id_pairs(bytes@.skip(pos as int), n as int) == Some(
                        (v@, end - pos),
                    )
                    &&& pos <= end <= bytes.len()
                },
            },
    {
        let mut out: Vec<(u64, u64)> = Vec::new();
        let mut p: usize = pos;
        let mut t: u64 = 0;
        proof {
            assert(out@ =~= Seq::<(u64, u64)>::empty());
        }
        while t < n
            invariant
                0 <= t <= n,
                pos <= p <= bytes@.len(),
                match parse_id_pairs(bytes@.skip(p as int), n as int - t as int) {
                    None => parse_id_pairs(bytes@.skip(pos as int), n as int) is None,
                    Some((rest, c)) => parse_id_pairs(bytes@.skip(pos as int), n as int)
                        == Some((out@ + rest, p - pos + c)),
                },
            decreases n - t,
        {
            let ghost pv = out@;
            let (k, q1) = match crate::codec::decode_u64(bytes, p) {
                None => {
                    return None;
                },
                Some(x) => x,
            };
            proof {
                assert(bytes@.skip(p as int).skip(q1 - p) =~= bytes@.skip(q1 as int));
            }
            let (v, q2) = match crate::codec::decode_u64(bytes, q1) {
                None => {
                    return None;
                },
                Some(x) => x,
            };
            proof {
                assert(bytes@.skip(p as int).skip(q2 - p) =~= bytes@.skip(q2 as int));
            }
            out.push((k, v));
            p = q2;
            t = t + 1;
            proof {
                match parse_id_pairs(bytes@.skip(p as int), n as int - t as int) {
                    None => {}
                    Some((rest, c)) => {
                        assert(pv.push((k, v)) + rest =~= pv + (seq![(k, v)] + rest));
                    }
                }
            }
        }
        proof {
            assert(out@ + Seq::<(u64, u64)>::empty() =~= out@);
        }
        Some((out, p))
    }

    /// Decodes `n` cursor pairs at `pos`.
    #[verifier::loop_isolation(false)]
    #[verifier::rlimit(100)]
    #[verifier::spinoff_prover]
    fn decode_cursor_pairs(bytes: &Vec<u8>, pos: usize, n: u64) -> (r: Option<
        (Vec<(u64, Vec<u8>)>, usize),
    >)
        requires
            pos <= bytes.len(),
        ensures
            match r {
                None => parse_cursor_pairs(bytes@.skip(pos as int), n as int) is None,
                Some((v, end)) => {
                    &&& parse_cursor_pairs(bytes@.skip(pos as int), n as int) == Some(
                        (cursor_pairs_view(v@), end - pos),
                    )
                    &&& pos <= end <= bytes.len()
                },
            },
    {
        let mut out: Vec<(u64, Vec<u8>)> = Vec::new();
        let mut p: usize = pos;
        let mut t: u64 = 0;
        proof {
            assert(cursor_pairs_view(out@) =~= Seq::<(u64, Seq<u8>)>::empty());
        }
        while t < n
            invariant
                0 <= t <= n,
                pos <= p <= bytes@.len(),
                match parse_cursor_pairs(bytes@.skip(p as int), n as int - t as int) {
                    None => parse_cursor_pairs(bytes@.skip(pos as int), n as int) is None,
                    Some((rest, c)) => parse_cursor_pairs(bytes@.skip(pos as int), n as int)
                        == Some((cursor_pairs_view(out@) + rest, p - pos + c)),
                },
            decreases n - t,
        {
            let ghost pv = cursor_pairs_view(out@);
            let (k, q1) = match crate::codec::decode_u64(bytes, p) {
                None => {
                    return None;
                },
                Some(x) => x,
            };
            proof {
                assert(bytes@.skip(p as int).skip(q1 - p) =~= bytes@.skip(q1 as int));
            }
            let (v, q2) = match crate::codec::decode_bytes(bytes, q1) {
                None => {
                    return None;
                },
                Some(x) => x,
            };
            proof {
                assert(bytes@.skip(p as int).skip(q2 - p) =~= bytes@.skip(q2 as int));
            }
            let ghost gv = v@;
            out.push((k, v));
            p = q2;
            t = t + 1;
            proof {
                assert(cursor_pairs_view(out@) =~= pv.push((k, gv)));
                match parse_cursor_pairs(bytes@.skip(p as int), n as int - t as int) {
                    None => {}
                    Some((rest, c)) => {
                        assert(pv.push((k, gv)) + rest =~= pv + (seq![(k, gv)] + rest));
                    }
                }
            }
        }
        proof {
            assert(cursor_pairs_view(out@) + Seq::<(u64, Seq<u8>)>::empty() =~=
            cursor_pairs_view(out@));
        }
        Some((out, p))
    }

    /// Decodes `n` live entries at `pos`.
    #[verifier::loop_isolation(false)]
    #[verifier::rlimit(100)]
    #[verifier::spinoff_prover]
    fn decode_live_entries(bytes: &Vec<u8>, pos: usize, n: u64) -> (r: Option<
        (Vec<SstRange>, usize),
    >)
        requires
            pos <= bytes.len(),
        ensures
            match r {
                None => parse_live_entries(bytes@.skip(pos as int), n as int) is None,
                Some((v, end)) => {
                    &&& parse_live_entries(bytes@.skip(pos as int), n as int) == Some(
                        (ranges_view(v@), end - pos),
                    )
                    &&& pos <= end <= bytes.len()
                },
            },
    {
        let mut out: Vec<SstRange> = Vec::new();
        let mut p: usize = pos;
        let mut t: u64 = 0;
        proof {
            assert(ranges_view(out@) =~= Seq::<(SstId, Seq<u8>, Seq<u8>)>::empty());
        }
        while t < n
            invariant
                0 <= t <= n,
                pos <= p <= bytes@.len(),
                match parse_live_entries(bytes@.skip(p as int), n as int - t as int) {
                    None => parse_live_entries(bytes@.skip(pos as int), n as int) is None,
                    Some((rest, c)) => parse_live_entries(bytes@.skip(pos as int), n as int)
                        == Some((ranges_view(out@) + rest, p - pos + c)),
                },
            decreases n - t,
        {
            let ghost pv = ranges_view(out@);
            let (lv, q1) = match crate::codec::decode_u64(bytes, p) {
                None => {
                    return None;
                },
                Some(x) => x,
            };
            proof {
                assert(bytes@.skip(p as int).skip(q1 - p) =~= bytes@.skip(q1 as int));
            }
            let (id, q2) = match crate::codec::decode_u64(bytes, q1) {
                None => {
                    return None;
                },
                Some(x) => x,
            };
            proof {
                assert(bytes@.skip(p as int).skip(q2 - p) =~= bytes@.skip(q2 as int));
            }
            let (f, q3) = match crate::codec::decode_bytes(bytes, q2) {
                None => {
                    return None;
                },
                Some(x) => x,
            };
            proof {
                assert(bytes@.skip(p as int).skip(q3 - p) =~= bytes@.skip(q3 as int));
            }
            let (l, q4) = match crate::codec::decode_bytes(bytes, q3) {
                None => {
                    return None;
                },
                Some(x) => x,
            };
            proof {
                assert(bytes@.skip(p as int).skip(q4 - p) =~= bytes@.skip(q4 as int));
            }
            let ghost gf = f@;
            let ghost gl = l@;
            out.push(SstRange { id: SstId { level: lv, id }, first_key: f, last_key: l });
            p = q4;
            t = t + 1;
            proof {
                assert(ranges_view(out@) =~= pv.push((SstId { level: lv, id }, gf, gl)));
                match parse_live_entries(bytes@.skip(p as int), n as int - t as int) {
                    None => {}
                    Some((rest, c)) => {
                        assert(pv.push((SstId { level: lv, id }, gf, gl)) + rest =~= pv + (seq![
                            (SstId { level: lv, id }, gf, gl),
                        ] + rest));
                    }
                }
            }
        }
        proof {
            assert(ranges_view(out@) + Seq::<(SstId, Seq<u8>, Seq<u8>)>::empty() =~=
            ranges_view(out@));
        }
        Some((out, p))
    }

    /// Decodes the three sections of a serialized catalog, exactly as the
    /// specification-level parser reads them.
    #[verifier::rlimit(100)]
    #[verifier::spinoff_prover]
    fn decode_sections(bytes: &Vec<u8>) -> (r: Option<Manifest>)
        ensures
            match r {
                None => parse_state(bytes@) is None,
                Some(m) => parse_state(bytes@) == Some(m.view_state()),
            },
    {
        proof {
            assert(bytes@.skip(0) =~= bytes@);
        }
        let (n1, p1) = match Self::decode_header(bytes, 0) {
            None => {
                return None;
            },
            Some(x) => x,
        };
        let (new_ids, p2) = match Self::decode_id_pairs(bytes, p1, n1) {
            None => {
                return None;
            },
            Some(x) => x,
        };
        let (n2, p3) = match Self::decode_header(bytes, p2) {
            None => {
                return None;
            },
            Some(x) => x,
        };
        let (compact_keys, p4) = match Self::decode_cursor_pairs(bytes, p3, n2) {
            None => {
                return None;
            },
            Some(x) => x,
        };
        let (n3, p5) = match Self::decode_header(bytes, p4) {
            None => {
                return None;
            },
            Some(x) => x,
        };
        let (ssts, p6) = match Self::decode_live_entries(bytes, p5, n3) {
            None => {
                return None;
            },
            Some(x) => x,
        };
        if p6 != bytes.len() {
            return None;
        }
        let m = Manifest { new_ids, compact_keys, ssts };
        proof {
            assert(parse_state(bytes@) == Some(m.view_state()));
        }
        Some(m)
    }

    /// Rebuilds a catalog from a snapshot file.  Succeeds exactly on the
    /// serializations of well-formed catalog states — in particular on
    /// every snapshot this library writes — and the result re-serializes
    /// to the very same bytes.
    #[verifier::rlimit(100)]
    #[verifier::spinoff_prover]
    pub fn decode_state(bytes: &Vec<u8>) -> (r: Option<Manifest>)
        ensures
            r is Some <==> snapshot_wf(bytes@),
            match r {
                None => true,
                Some(m) => m.wf() && state_wf(m.view_state()) && enc_state(m.view_state())
                    == bytes@,
            },
    {
        proof {
            // A hypothetical well-formed source state pins the parse.
            if snapshot_wf(bytes@) {
                let s0 = choose|s0: ManifestV| state_wf(s0) && enc_state(s0) == bytes@;
                lemma_parse_enc_state(s0);
                assert(parse_state(bytes@) == Some(s0));
            }
        }
        let m = match Self::decode_sections(bytes) {
            None => {
                proof {
                    if snapshot_wf(bytes@) {
                        assert(false);
                    }
                }
                return None;
            },
            Some(m) => m,
        };
        if !m.check_unique() {
            proof {
                if snapshot_wf(bytes@) {
                    let s0 = choose|s0: ManifestV| state_wf(s0) && enc_state(s0) == bytes@;
                    assert(m.view_state() == s0);
                    assert(m.wf()) by {
                        assert forall|i: int, j: int|
                            0 <= i < j < m.compact_keys@.len() implies (
                        #[trigger] m.compact_keys@[i]).0 != (#[trigger] m.compact_keys@[j]).0 by {
                            assert(m.compact_view()[i] == (m.compact_keys@[i].0, m.compact_keys@[
                                i].1@));
                            assert(m.compact_view()[j] == (m.compact_keys@[j].0, m.compact_keys@[
                                j].1@));
                            assert(m.compact_view()[i].0 != m.compact_view()[j].0);
                        }
                    }
                }
            }
            return None;
        }
        // The decoded catalog re-serializes to the very same bytes.
        let again = m.encode_state();
        if !bytes_equal(&again, bytes) {
            proof {
                if snapshot_wf(bytes@) {
                    let s0 = choose|s0: ManifestV| state_wf(s0) && enc_state(s0) == bytes@;
                    assert(m.view_state() == s0);
                }
            }
            return None;
        }
        proof {
            assert(state_wf(m.view_state())) by {
                assert(m.new_ids@.len() == m.new_ids.len());
                assert(m.compact_keys@.len() == m.compact_keys.len());
                assert(m.ssts@.len() == m.ssts.len());
                assert forall|i: int| 0 <= i < m.view_state().cursors.len() implies (
                #[trigger] m.view_state().cursors[i]).1.len() <= u64::MAX by {
                    assert(m.view_state().cursors[i] == (m.compact_keys@[i].0, m.compact_keys@[
                        i].1@));
                    assert(m.compact_keys@[i].1.len() == m.compact_keys@[i].1@.len());
                }
                assert forall|i: int| 0 <= i < m.view_state().live.len() implies (
                #[trigger] m.view_state().live[i]).1.len() <= u64::MAX && m.view_state().live[
                    i].2.len() <= u64::MAX by {
                    assert(m.view_state().live[i] == range_view(m.ssts@[i]));
                    assert(m.ssts@[i].first_key.len() == m.ssts@[i].first_key@.len());
                    assert(m.ssts@[i].last_key.len() == m.ssts@[i].last_key@.len());
                }
            }
            assert(snapshot_wf(bytes@)) by {
                assert(state_wf(m.view_state()) && enc_state(m.view_state()) == bytes@);
            }
        }
        Some(m)
    }

    /// Decodes a section count at `pos`.
    fn decode_header(bytes: &Vec<u8>, pos: usize) -> (r: Option<(u64, usize)>)
        requires
            pos <= bytes.len(),
        ensures
            match r {
                None => parse_u64(bytes@.skip(pos as int)) is None,
                Some((n, end)) => {
                    &&& parse_u64(bytes@.skip(pos as int)) == Some((n, end - pos))
                    &&& pos < end <= bytes.len()
                },
            },
    {
        crate::codec::decode_u64(bytes, pos)
    }

    /// Checks that every association has each key at most once and every
    /// live id appears at most once.
    #[verifier::loop_isolation(false)]
    fn check_unique(&self) -> (r: bool)
        ensures
            r == self.wf(),
    {
        let mut i: usize = 0;
        while i < self.new_ids.len()
            invariant
                0 <= i <= self.new_ids@.len(),
                forall|a: int, b: int|
                    0 <= a < b < self.new_ids@.len() && b < i ==> (
                    #[trigger] self.new_ids@[a]).0 != (#[trigger] self.new_ids@[b]).0,
            decreases self.new_ids@.len() - i,
        {
            let mut a: usize = 0;
            while a < i
                invariant
                    0 <= a <= i < self.new_ids@.len(),
                    forall|q: int|
                        0 <= q < a ==> (#[trigger] self.new_ids@[q]).0 != self.new_ids@[
                            i as int].0,
                decreases i - a,
            {
                if self.new_ids[a].0 == self.new_ids[i].0 {
                    proof {
                        assert(!self.wf()) by {
                            assert(self.new_ids@[a as int].0 == self.new_ids@[i as int].0);
                        }
                    }
                    return false;
                }
                a = a + 1;
            }
            i = i + 1;
        }
        let mut i2: usize = 0;
        while i2 < self.compact_keys.len()
            invariant
                0 <= i2 <= self.compact_keys@.len(),
                forall|a: int, b: int|
                    0 <= a < b < self.compact_keys@.len() && b < i2 ==> (
                    #[trigger] self.compact_keys@[a]).0 != (
                    #[trigger] self.compact_keys@[b]).0,
            decreases self.compact_keys@.len() - i2,
        {
            let mut a: usize = 0;
            while a < i2
                invariant
                    0 <= a <= i2 < self.compact_keys@.len(),
                    forall|q: int|
                        0 <= q < a ==> (#[trigger] self.compact_keys@[q]).0 != self.compact_keys@[
                            i2 as int].0,
                decreases i2 - a,
            {
                if self.compact_keys[a].0 == self.compact_keys[i2].0 {
                    proof {
                        assert(!self.wf()) by {
                            assert(self.compact_keys@[a as int].0 == self.compact_keys@[
                                i2 as int].0);
                        }
                    }
                    return false;
                }
                a = a + 1;
            }
            i2 = i2 + 1;
        }
        let mut i3: usize = 0;
        while i3 < self.ssts.len()
            invariant
                0 <= i3 <= self.ssts@.len(),
                forall|a: int, b: int|
                    0 <= a < b < self.live().len() && b < i3 ==> (#[trigger] self.live()[a]).0
                        != (#[trigger] self.live()[b]).0,
            decreases self.ssts@.len() - i3,
        {
            let mut a: usize = 0;
            while a < i3
                invariant
                    0 <= a <= i3 < self.ssts@.len(),
                    forall|q: int|
                        0 <= q < a ==> (#[trigger] self.live()[q]).0 != self.live()[i3 as int].0,
                decreases i3 - a,
            {
                proof {
                    assert(self.live()[a as int] == range_view(self.ssts@[a as int]));
                    assert(self.live()[i3 as int] == range_view(self.ssts@[i3 as int]));
                }
                if self.ssts[a].id.level == self.ssts[i3].id.level && self.ssts[a].id.id
                    == self.ssts[i3].id.id {
                    proof {
                        assert(!self.wf()) by {
                            assert(self.live()[a as int].0 == self.live()[i3 as int].0);
                        }
                    }
                    return false;
                }
                a = a + 1;
            }
            i3 = i3 + 1;
        }
        proof {
            assert(self.wf());
        }
        true
    }
}

/// Whether two byte vectors hold the same bytes.
#[verifier::loop_isolation(false)]
fn bytes_equal(a: &Vec<u8>, b: &Vec<u8>) -> (r: bool)
    ensures
        r == (a@ == b@),
{
    if a.len() != b.len() {
        proof {
            assert(a@.len() != b@.len());
        }
        return false;
    }
    let mut i: usize = 0;
    while i < a.len()
        invariant
            0 <= i <= a@.len(),
            a@.len() == b@.len(),
            forall|q: int| 0 <= q < i ==> a@[q] == b@[q],
        decreases a@.len() - i,
    {
        if a[i] != b[i] {
            return false;
        }
        i = i + 1;
    }
    proof {
        assert(a@ =~= b@);
    }
    true
}

impl Manifest {
    /// The priority tuple of a live id: its level and id with its range.
    pub open spec fn id_meta(self, id: SstId) -> (u64, u64, Seq<u8>, Seq<u8>) {
        (id.level, id.id, live_entry(self.live(), id).1, live_entry(self.live(), id).2)
    }

    /// The recorded range of a live id.
    #[verifier::loop_isolation(false)]
    fn find_range(&self, id: &SstId) -> (r: (Vec<u8>, Vec<u8>))
        requires
            self.wf(),
            live_has(self.live(), *id),
        ensures
            r.0@ == live_entry(self.live(), *id).1,
            r.1@ == live_entry(self.live(), *id).2,
    {
        let mut i: usize = 0;
        while i < self.ssts.len()
            invariant
                0 <= i <= self.ssts@.len(),
                forall|q: int| 0 <= q < i ==> (#[trigger] self.live()[q]).0 != *id,
            decreases self.ssts@.len() - i,
        {
            proof {
                assert(self.live()[i as int] == range_view(self.ssts@[i as int]));
            }
            if self.ssts[i].id.level == id.level && self.ssts[i].id.id == id.id {
                proof {
                    self.lemma_live_unique(*id, i as int);
                }
                return (self.ssts[i].first_key.clone(), self.ssts[i].last_key.clone());
            }
            i = i + 1;
        }
        proof {
            let q = choose|q: int| 0 <= q < self.live().len() && self.live()[q].0 == *id;
            assert(self.live()[q].0 != *id);
            assert(false);
        }
        (Vec::new(), Vec::new())
    }

    /// Whether a live id precedes another in merge priority.
    fn id_precedes(&self, a: &SstId, b: &SstId) -> (r: bool)
        requires
            self.wf(),
            live_has(self.live(), *a),
            live_has(self.live(), *b),
        ensures
            r == crate::sstable::meta_lt(self.id_meta(*a), self.id_meta(*b)),
    {
        let ra = self.find_range(a);
        let rb = self.find_range(b);
        let ma = crate::sstable::SSTMetadata {
            level: a.level,
            id: a.id,
            first_key: ra.0,
            last_key: ra.1,
        };
        let mb = crate::sstable::SSTMetadata {
            level: b.level,
            id: b.id,
            first_key: rb.0,
            last_key: rb.1,
        };
        ma.precedes(&mb)
    }

    /// Orders live ids by merge priority: level-0 tables youngest first,
    /// deeper tables by level, first key and last key.
    #[verifier::loop_isolation(false)]
    pub fn sort(&self, sst_ids: &Vec<SstId>) -> (r: Vec<SstId>)
        requires
            self.wf(),
            forall|q: int| 0 <= q < sst_ids@.len() ==> live_has(
                self.live(),
                #[trigger] sst_ids@[q],
            ),
        ensures
            r@.to_multiset() == sst_ids@.to_multiset(),
            forall|q: int| 0 <= q < r@.len() ==> live_has(self.live(), #[trigger] r@[q]),
            forall|i: int, j: int|
                0 <= i < j < r@.len() ==> !crate::sstable::meta_lt(
                    self.id_meta(#[trigger] r@[j]),
                    self.id_meta(#[trigger] r@[i]),
                ),
    {
        broadcast use vstd::seq_lib::group_to_multiset_ensures;

        let mut rest = crate::sstable::copy_sst_ids(sst_ids);
        let mut out: Vec<SstId> = Vec::new();
        proof {
            assert(out@.to_multiset() =~= vstd::multiset::Multiset::<SstId>::empty());
        }
        while rest.len() > 0
            invariant
                forall|q: int| 0 <= q < rest@.len() ==> live_has(
                    self.live(),
                    #[trigger] rest@[q],
                ),
                forall|q: int| 0 <= q < out@.len() ==> live_has(self.live(), #[trigger] out@[q]),
                forall|i: int, j: int|
                    0 <= i < j < out@.len() ==> !crate::sstable::meta_lt(
                        self.id_meta(#[trigger] out@[j]),
                        self.id_meta(#[trigger] out@[i]),
                    ),
                out@.to_multiset().add(rest@.to_multiset()) == sst_ids@.to_multiset(),
            decreases rest@.len(),
        {
            let ghost rest0 = rest@;
            let x = rest.pop().unwrap();
            proof {
                assert(rest0.drop_last() == rest@);
                assert(rest0 =~= rest@.push(x));
                assert(rest0.to_multiset() =~= rest@.to_multiset().insert(x));
            }
            let mut pos: usize = 0;
            while pos < out.len()
                invariant
                    0 <= pos <= out@.len(),
                    live_has(self.live(), x),
                    forall|q: int| 0 <= q < pos ==> !crate::sstable::meta_lt(
                        self.id_meta(x),
                        self.id_meta(#[trigger] out@[q]),
                    ),
                decreases out@.len() - pos,
            {
                if self.id_precedes(&x, &out[pos]) {
                    break;
                }
                pos = pos + 1;
            }
            let ghost out0 = out@;
            out.insert(pos, x);
            proof {
                lemma_sort_insert_multiset(out0, pos as int, x);
                assert(out@ == out0.insert(pos as int, x));
                assert(out@.to_multiset().add(rest@.to_multiset()) =~= sst_ids@.to_multiset());
                assert forall|i: int, j: int| 0 <= i < j < out@.len() implies
                    !crate::sstable::meta_lt(
                    self.id_meta(#[trigger] out@[j]),
                    self.id_meta(#[trigger] out@[i]),
                ) by {
                    let p = pos as int;
                    if j < p {
                        assert(out@[i] == out0[i]);
                        assert(out@[j] == out0[j]);
                    } else if i > p {
                        assert(out@[i] == out0[i - 1]);
                        assert(out@[j] == out0[j - 1]);
                    } else if i < p && j > p {
                        assert(out@[i] == out0[i]);
                        assert(out@[j] == out0[j - 1]);
                    } else if i == p {
                        assert(out@[i] == x);
                        assert(out@[j] == out0[j - 1]);
                        if crate::sstable::meta_lt(self.id_meta(out0[j - 1]), self.id_meta(x)) {
                            if p < out0.len() {
                                if j - 1 == p {
                                    crate::sstable::lemma_meta_asym(
                                        self.id_meta(x),
                                        self.id_meta(out0[p]),
                                    );
                                } else {
                                    crate::sstable::lemma_meta_trans(
                                        self.id_meta(out0[j - 1]),
                                        self.id_meta(x),
                                        self.id_meta(out0[p]),
                                    );
                                }
                            }
                        }
                    } else {
                        assert(out@[j] == x);
                        assert(out@[i] == out0[i]);
                    }
                }
            }
        }
        proof {
            assert(rest@.to_multiset() =~= vstd::multiset::Multiset::<SstId>::empty());
            assert(out@.to_multiset() =~= sst_ids@.to_multiset());
        }
        out
    }
}

/// Inserting anywhere adds exactly that element to the multiset.
proof fn lemma_sort_insert_multiset(s: Seq<SstId>, pos: int, x: SstId)
    requires
        0 <= pos <= s.len(),
    ensures
        s.insert(pos, x).to_multiset() == s.to_multiset().insert(x),
{
    crate::sstable::lemma_seq_insert_multiset(s, pos, x);
}

/// What the keeper invariant gives its callers at the state level: unique
/// live ids.
pub proof fn lemma_keeper_live_unique(k: ManifestKeeper)
    requires
        k.wf(),
    ensures
        live_unique(k.state().live),
{
}

/// The view of a vector of cursor pairs.
pub open spec fn cursor_pairs_view(v: Seq<(u64, Vec<u8>)>) -> Seq<(u64, Seq<u8>)> {
    v.map_values(|e: (u64, Vec<u8>)| (e.0, e.1@))
}

/// Parses `n` allocator pairs from the front of `s`.
pub open spec fn parse_id_pairs(s: Seq<u8>, n: int) -> Option<(Seq<(u64, u64)>, int)>
    decreases n,
{
    if n <= 0 {
        Some((Seq::empty(), 0))
    } else {
        match parse_u64(s) {
            None => None,
            Some((k, c1)) => match parse_u64(s.skip(c1)) {
                None => None,
                Some((v, c2)) => match parse_id_pairs(s.skip(c1 + c2), n - 1) {
                    None => None,
                    Some((rest, c3)) => Some((seq![(k, v)] + rest, c1 + c2 + c3)),
                },
            },
        }
    }
}

/// Parses `n` cursor pairs from the front of `s`.
pub open spec fn parse_cursor_pairs(s: Seq<u8>, n: int) -> Option<(Seq<(u64, Seq<u8>)>, int)>
    decreases n,
{
    if n <= 0 {
        Some((Seq::empty(), 0))
    } else {
        match parse_u64(s) {
            None => None,
            Some((k, c1)) => match parse_bytes(s.skip(c1)) {
                None => None,
                Some((v, c2)) => match parse_cursor_pairs(s.skip(c1 + c2), n - 1) {
                    None => None,
                    Some((rest, c3)) => Some((seq![(k, v)] + rest, c1 + c2 + c3)),
                },
            },
        }
    }
}

/// Parses `n` live entries from the front of `s`.
pub open spec fn parse_live_entries(s: Seq<u8>, n: int) -> Option<
    (Seq<(SstId, Seq<u8>, Seq<u8>)>, int),
>
    decreases n,
{
    if n <= 0 {
        Some((Seq::empty(), 0))
    } else {
        match parse_u64(s) {
            None => None,
            Some((lv, c1)) => match parse_u64(s.skip(c1)) {
                None => None,
                Some((id, c2)) => match parse_bytes(s.skip(c1 + c2)) {
                    None => None,
                    Some((f, c3)) => match parse_bytes(s.skip(c1 + c2 + c3)) {
                        None => None,
                        Some((l, c4)) => match parse_live_entries(
                            s.skip(c1 + c2 + c3 + c4),
                            n - 1,
                        ) {
                            None => None,
                            Some((rest, c5)) => Some(
                                (
                                    seq![(SstId { level: lv, id: id }, f, l)] + rest,
                                    c1 + c2 + c3 + c4 + c5,
                                ),
                            ),
                        },
                    },
                },
            },
        }
    }
}

/// Parses a whole serialized catalog: the three counted sections filling
/// the bytes exactly.
pub open spec fn parse_state(s: Seq<u8>) -> Option<ManifestV> {
    match parse_u64(s) {
        None => None,
        Some((n1, d1)) => match parse_id_pairs(s.skip(d1), n1 as int) {
            None => None,
            Some((ids, c1)) => match parse_u64(s.skip(d1 + c1)) {
                None => None,
                Some((n2, d2)) => match parse_cursor_pairs(s.skip(d1 + c1 + d2), n2 as int) {
                    None => None,
                    Some((cursors, c2)) => match parse_u64(s.skip(d1 + c1 + d2 + c2)) {
                        None => None,
                        Some((n3, d3)) => match parse_live_entries(
                            s.skip(d1 + c1 + d2 + c2 + d3),
                            n3 as int,
                        ) {
                            None => None,
                            Some((live, c3)) => if d1 + c1 + d2 + c2 + d3 + c3 == s.len() {
                                Some(ManifestV { ids, cursors, live })
                            } else {
                                None
                            },
                        },
                    },
                },
            },
        },
    }
}

/// Whether a catalog state is well formed and small enough to serialize:
/// unique keys in every association, unique live ids, and every byte
/// string and count within its length prefix.
pub open spec fn state_wf(v: ManifestV) -> bool {
    &&& forall|i: int, j: int|
        0 <= i < j < v.ids.len() ==> (#[trigger] v.ids[i]).0 != (#[trigger] v.ids[j]).0
    &&& forall|i: int, j: int|
        0 <= i < j < v.cursors.len() ==> (#[trigger] v.cursors[i]).0 != (
        #[trigger] v.cursors[j]).0
    &&& live_unique(v.live)
    &&& v.ids.len() <= u64::MAX
    &&& v.cursors.len() <= u64::MAX
    &&& v.live.len() <= u64::MAX
    &&& forall|i: int| 0 <= i < v.cursors.len() ==> (#[trigger] v.cursors[i]).1.len() <= u64::MAX
    &&& forall|i: int|
        0 <= i < v.live.len() ==> (#[trigger] v.live[i]).1.len() <= u64::MAX
            && v.live[i].2.len() <= u64::MAX
}

/// Whether some well-formed catalog state serializes to exactly `bytes`:
/// the snapshots this library itself writes, and exactly the images
/// `Manifest::decode_state` accepts.
pub open spec fn snapshot_wf(bytes: Seq<u8>) -> bool {
    exists|s0: ManifestV| state_wf(s0) && enc_state(s0) == bytes
}

/// Round trip for allocator pairs.
pub proof fn lemma_parse_enc_id_pairs(v: Seq<(u64, u64)>, rest: Seq<u8>)
    ensures
        parse_id_pairs(enc_id_pairs(v) + rest, v.len() as int) == Some(
            (v, enc_id_pairs(v).len() as int),
        ),
    decreases v.len(),
{
    if v.len() == 0 {
        assert(enc_id_pairs(v) + rest =~= rest);
    } else {
        let s = enc_id_pairs(v) + rest;
        let er = enc_id_pairs(v.skip(1));
        assert(s =~= enc_u64(v[0].0) + (enc_u64(v[0].1) + (er + rest)));
        lemma_parse_enc_u64(v[0].0, enc_u64(v[0].1) + (er + rest));
        lemma_enc_u64_len(v[0].0);
        lemma_enc_u64_len(v[0].1);
        assert(s.skip(8) =~= enc_u64(v[0].1) + (er + rest));
        lemma_parse_enc_u64(v[0].1, er + rest);
        assert(s.skip(16) =~= er + rest);
        lemma_parse_enc_id_pairs(v.skip(1), rest);
        assert(seq![(v[0].0, v[0].1)] + v.skip(1) =~= v);
        assert(enc_id_pairs(v).len() == 16 + er.len());
    }
}

/// Round trip for cursor pairs.
pub proof fn lemma_parse_enc_cursor_pairs(v: Seq<(u64, Seq<u8>)>, rest: Seq<u8>)
    requires
        forall|i: int| 0 <= i < v.len() ==> (#[trigger] v[i]).1.len() <= u64::MAX,
    ensures
        parse_cursor_pairs(enc_cursor_pairs(v) + rest, v.len() as int) == Some(
            (v, enc_cursor_pairs(v).len() as int),
        ),
    decreases v.len(),
{
    if v.len() == 0 {
        assert(enc_cursor_pairs(v) + rest =~= rest);
    } else {
        let s = enc_cursor_pairs(v) + rest;
        let er = enc_cursor_pairs(v.skip(1));
        assert(s =~= enc_u64(v[0].0) + (enc_bytes(v[0].1) + (er + rest)));
        lemma_parse_enc_u64(v[0].0, enc_bytes(v[0].1) + (er + rest));
        lemma_enc_u64_len(v[0].0);
        lemma_enc_bytes_len(v[0].1);
        assert(s.skip(8) =~= enc_bytes(v[0].1) + (er + rest));
        lemma_parse_enc_bytes(v[0].1, er + rest);
        assert(s.skip(8 + (8 + v[0].1.len() as int)) =~= er + rest);
        assert forall|i: int| 0 <= i < v.skip(1).len() implies (#[trigger] v.skip(1)[i]).1.len()
            <= u64::MAX by {
            assert(v.skip(1)[i] == v[i + 1]);
        }
        lemma_parse_enc_cursor_pairs(v.skip(1), rest);
        assert(seq![(v[0].0, v[0].1)] + v.skip(1) =~= v);
        assert(enc_cursor_pairs(v).len() == 16 + v[0].1.len() + er.len());
    }
}

/// Round trip for live entries.
#[verifier::rlimit(100)]
#[verifier::spinoff_prover]
pub proof fn lemma_parse_enc_live_entries(v: Seq<(SstId, Seq<u8>, Seq<u8>)>, rest: Seq<u8>)
    requires
        forall|i: int|
            0 <= i < v.len() ==> (#[trigger] v[i]).1.len() <= u64::MAX && v[i].2.len()
                <= u64::MAX,
    ensures
        parse_live_entries(enc_live_entries(v) + rest, v.len() as int) == Some(
            (v, enc_live_entries(v).len() as int),
        ),
    decreases v.len(),
{
    if v.len() == 0 {
        assert(enc_live_entries(v) + rest =~= rest);
    } else {
        let s = enc_live_entries(v) + rest;
        let er = enc_live_entries(v.skip(1));
        assert(s =~= enc_u64(v[0].0.level) + (enc_u64(v[0].0.id) + (enc_bytes(v[0].1) + (
        enc_bytes(v[0].2) + (er + rest)))));
        lemma_parse_enc_u64(
            v[0].0.level,
            enc_u64(v[0].0.id) + (enc_bytes(v[0].1) + (enc_bytes(v[0].2) + (er + rest))),
        );
        lemma_enc_u64_len(v[0].0.level);
        lemma_enc_u64_len(v[0].0.id);
        lemma_enc_bytes_len(v[0].1);
        lemma_enc_bytes_len(v[0].2);
        assert(s.skip(8) =~= enc_u64(v[0].0.id) + (enc_bytes(v[0].1) + (enc_bytes(v[0].2) + (
        er + rest))));
        lemma_parse_enc_u64(v[0].0.id, enc_bytes(v[0].1) + (enc_bytes(v[0].2) + (er + rest)));
        assert(s.skip(16) =~= enc_bytes(v[0].1) + (enc_bytes(v[0].2) + (er + rest)));
        lemma_parse_enc_bytes(v[0].1, enc_bytes(v[0].2) + (er + rest));
        let c3 = 8 + v[0].1.len() as int;
        assert(s.skip(16 + c3) =~= enc_bytes(v[0].2) + (er + rest));
        lemma_parse_enc_bytes(v[0].2, er + rest);
        let c4 = 8 + v[0].2.len() as int;
        assert(s.skip(16 + c3 + c4) =~= er + rest);
        assert forall|i: int| 0 <= i < v.skip(1).len() implies (#[trigger] v.skip(1)[i]).1.len()
            <= u64::MAX && v.skip(1)[i].2.len() <= u64::MAX by {
            assert(v.skip(1)[i] == v[i + 1]);
        }
        lemma_parse_enc_live_entries(v.skip(1), rest);
        assert(seq![(SstId { level: v[0].0.level, id: v[0].0.id }, v[0].1, v[0].2)] + v.skip(1)
            =~= v);
        assert(enc_live_entries(v).len() == 16 + c3 + c4 + er.len());
    }
}

/// Round trip for the whole serialized catalog.
#[verifier::rlimit(100)]
#[verifier::spinoff_prover]
pub proof fn lemma_parse_enc_state(v: ManifestV)
    requires
        state_wf(v),
    ensures
        parse_state(enc_state(v)) == Some(v),
{
    let s = enc_state(v);
    let p1 = enc_id_pairs(v.ids);
    let p2 = enc_cursor_pairs(v.cursors);
    let p3 = enc_live_entries(v.live);
    assert(s =~= enc_u64(v.ids.len() as u64) + (p1 + (enc_u64(v.cursors.len() as u64) + (p2 + (
    enc_u64(v.live.len() as u64) + p3)))));
    lemma_parse_enc_u64(
        v.ids.len() as u64,
        p1 + (enc_u64(v.cursors.len() as u64) + (p2 + (enc_u64(v.live.len() as u64) + p3))),
    );
    lemma_enc_u64_len(v.ids.len() as u64);
    lemma_enc_u64_len(v.cursors.len() as u64);
    lemma_enc_u64_len(v.live.len() as u64);
    assert(s.skip(8) =~= p1 + (enc_u64(v.cursors.len() as u64) + (p2 + (enc_u64(
        v.live.len() as u64,
    ) + p3))));
    lemma_parse_enc_id_pairs(
        v.ids,
        enc_u64(v.cursors.len() as u64) + (p2 + (enc_u64(v.live.len() as u64) + p3)),
    );
    assert(v.ids.len() as u64 as int == v.ids.len() as int);
    assert(s.skip(8 + p1.len() as int) =~= enc_u64(v.cursors.len() as u64) + (p2 + (enc_u64(
        v.live.len() as u64,
    ) + p3)));
    lemma_parse_enc_u64(v.cursors.len() as u64, p2 + (enc_u64(v.live.len() as u64) + p3));
    assert(s.skip(8 + p1.len() as int + 8) =~= p2 + (enc_u64(v.live.len() as u64) + p3));
    lemma_parse_enc_cursor_pairs(v.cursors, enc_u64(v.live.len() as u64) + p3);
    assert(v.cursors.len() as u64 as int == v.cursors.len() as int);
    assert(s.skip(8 + p1.len() as int + 8 + p2.len() as int) =~= enc_u64(v.live.len() as u64)
        + p3);
    lemma_parse_enc_u64(v.live.len() as u64, p3);
    assert(s.skip(8 + p1.len() as int + 8 + p2.len() as int + 8) =~= p3);
    assert(p3 + Seq::<u8>::empty() =~= p3);
    lemma_parse_enc_live_entries(v.live, Seq::empty());
    assert(v.live.len() as u64 as int == v.live.len() as int);
    assert(s.len() == 8 + p1.len() + 8 + p2.len() + 8 + p3.len());
    assert(parse_state(s) == Some(ManifestV { ids: v.ids, cursors: v.cursors, live: v.live }));
    assert(ManifestV { ids: v.ids, cursors: v.cursors, live: v.live } == v);
}

/// The live ids of one level, in catalog order.
pub open spec fn level_ids(v: Seq<(SstId, Seq<u8>, Seq<u8>)>, level: u64) -> Seq<SstId>
    decreases v.len(),
{
    if v.len() == 0 {
        Seq::empty()
    } else {
        (if v[0].0.level == level {
            seq![v[0].0]
        } else {
            Seq::empty()
        }) + level_ids(v.skip(1), level)
    }
}

/// The live ids whose closed key range holds `key`, in catalog order.
pub open spec fn key_hit_ids(v: Seq<(SstId, Seq<u8>, Seq<u8>)>, key: Seq<u8>) -> Seq<SstId>
    decreases v.len(),
{
    if v.len() == 0 {
        Seq::empty()
    } else {
        (if lex_le(v[0].1, key) && lex_le(key, v[0].2) {
            seq![v[0].0]
        } else {
            Seq::empty()
        }) + key_hit_ids(v.skip(1), key)
    }
}

pub proof fn lemma_level_ids_app(
    x: Seq<(SstId, Seq<u8>, Seq<u8>)>,
    y: Seq<(SstId, Seq<u8>, Seq<u8>)>,
    level: u64,
)
    ensures
        level_ids(x + y, level) == level_ids(x, level) + level_ids(y, level),
    decreases x.len(),
{
    if x.len() == 0 {
        assert(x + y =~= y);
        assert(level_ids(x, level) + level_ids(y, level) =~= level_ids(y, level));
    } else {
        assert((x + y).skip(1) =~= x.skip(1) + y);
        assert((x + y)[0] == x[0]);
        lemma_level_ids_app(x.skip(1), y, level);
        let h = if x[0].0.level == level {
            seq![x[0].0]
        } else {
            Seq::<SstId>::empty()
        };
        assert(h + (level_ids(x.skip(1), level) + level_ids(y, level)) =~= (h + level_ids(
            x.skip(1),
            level,
        )) + level_ids(y, level));
    }
}

pub proof fn lemma_key_hit_ids_app(
    x: Seq<(SstId, Seq<u8>, Seq<u8>)>,
    y: Seq<(SstId, Seq<u8>, Seq<u8>)>,
    key: Seq<u8>,
)
    ensures
        key_hit_ids(x + y, key) == key_hit_ids(x, key) + key_hit_ids(y, key),
    decreases x.len(),
{
    if x.len() == 0 {
        assert(x + y =~= y);
        assert(key_hit_ids(x, key) + key_hit_ids(y, key) =~= key_hit_ids(y, key));
    } else {
        assert((x + y).skip(1) =~= x.skip(1) + y);
        assert((x + y)[0] == x[0]);
        lemma_key_hit_ids_app(x.skip(1), y, key);
        let h = if lex_le(x[0].1, key) && lex_le(key, x[0].2) {
            seq![x[0].0]
        } else {
            Seq::<SstId>::empty()
        };
        assert(h + (key_hit_ids(x.skip(1), key) + key_hit_ids(y, key)) =~= (h + key_hit_ids(
            x.skip(1),
            key,
        )) + key_hit_ids(y, key));
    }
}

/// What the level listing holds: exactly the live ids of the level, each
/// once, with its entry's level; and all of them when ids are unique.
pub proof fn lemma_level_ids_props(v: Seq<(SstId, Seq<u8>, Seq<u8>)>, level: u64)
    ensures
        forall|q: int|
            0 <= q < level_ids(v, level).len() ==> (#[trigger] level_ids(v, level)[q]).level
                == level && live_has(v, level_ids(v, level)[q]),
        forall|i: int|
            0 <= i < v.len() && (#[trigger] v[i]).0.level == level ==> level_ids(
                v,
                level,
            ).contains(v[i].0),
        live_unique(v) ==> forall|q1: int, q2: int|
            0 <= q1 < q2 < level_ids(v, level).len() ==> (#[trigger] level_ids(v, level)[q1])
                != (#[trigger] level_ids(v, level)[q2]),
    decreases v.len(),
{
    let r = level_ids(v, level);
    if v.len() > 0 {
        lemma_level_ids_props(v.skip(1), level);
        let r1 = level_ids(v.skip(1), level);
        let h = if v[0].0.level == level {
            seq![v[0].0]
        } else {
            Seq::<SstId>::empty()
        };
        assert forall|q: int| 0 <= q < r.len() implies (#[trigger] r[q]).level == level
            && live_has(v, r[q]) by {
            if q < h.len() {
                assert(r[q] == v[0].0);
                assert(v[0].0 == v[0].0 && 0 < v.len());
                assert(live_has(v, r[q])) by {
                    assert(v[0].0 == r[q]);
                }
            } else {
                assert(r[q] == r1[q - h.len()]);
                assert(live_has(v.skip(1), r[q]));
                let w = choose|w: int| 0 <= w < v.skip(1).len() && v.skip(1)[w].0 == r[q];
                assert(v[w + 1].0 == r[q]);
            }
        }
        assert forall|i: int| 0 <= i < v.len() && (#[trigger] v[i]).0.level == level implies
            r.contains(v[i].0) by {
            if i == 0 {
                assert(r[0] == v[0].0);
            } else {
                assert(v.skip(1)[i - 1] == v[i]);
                assert(r1.contains(v[i].0));
                let w = choose|w: int| 0 <= w < r1.len() && r1[w] == v[i].0;
                assert(r[h.len() + w] == v[i].0);
            }
        }
        if live_unique(v) {
            assert(live_unique(v.skip(1))) by {
                assert forall|a: int, b: int| 0 <= a < b < v.skip(1).len() implies (
                #[trigger] v.skip(1)[a]).0 != (#[trigger] v.skip(1)[b]).0 by {
                    assert(v.skip(1)[a] == v[a + 1]);
                    assert(v.skip(1)[b] == v[b + 1]);
                }
            }
            assert forall|q1: int, q2: int| 0 <= q1 < q2 < r.len() implies (#[trigger] r[q1])
                != (#[trigger] r[q2]) by {
                if q1 < h.len() {
                    // The head id never recurs among the tail's entries.
                    assert(r[q1] == v[0].0);
                    assert(r[q2] == r1[q2 - h.len()]);
                    assert(live_has(v.skip(1), r[q2]));
                    let w = choose|w: int|
                        0 <= w < v.skip(1).len() && v.skip(1)[w].0 == r[q2];
                    assert(v.skip(1)[w] == v[w + 1]);
                    assert(v[0].0 != v[w + 1].0);
                } else {
                    assert(r[q1] == r1[q1 - h.len()]);
                    assert(r[q2] == r1[q2 - h.len()]);
                }
            }
        }
    }
}

/// What the key listing holds: exactly the live entries whose range holds
/// the key, each once when ids are unique.
pub proof fn lemma_key_hit_ids_props(v: Seq<(SstId, Seq<u8>, Seq<u8>)>, key: Seq<u8>)
    ensures
        forall|q: int|
            0 <= q < key_hit_ids(v, key).len() ==> live_has(v, #[trigger] key_hit_ids(v, key)[q]),
        forall|i: int|
            0 <= i < v.len() && lex_le((#[trigger] v[i]).1, key) && lex_le(key, v[i].2)
                ==> key_hit_ids(v, key).contains(v[i].0),
        live_unique(v) ==> forall|q1: int, q2: int|
            0 <= q1 < q2 < key_hit_ids(v, key).len() ==> (#[trigger] key_hit_ids(v, key)[q1])
                != (#[trigger] key_hit_ids(v, key)[q2]),
    decreases v.len(),
{
    let r = key_hit_ids(v, key);
    if v.len() > 0 {
        lemma_key_hit_ids_props(v.skip(1), key);
        let r1 = key_hit_ids(v.skip(1), key);
        let h = if lex_le(v[0].1, key) && lex_le(key, v[0].2) {
            seq![v[0].0]
        } else {
            Seq::<SstId>::empty()
        };
        assert forall|q: int| 0 <= q < r.len() implies live_has(v, #[trigger] r[q]) by {
            if q < h.len() {
                assert(r[q] == v[0].0);
                assert(live_has(v, r[q])) by {
                    assert(v[0].0 == r[q]);
                }
            } else {
                assert(r[q] == r1[q - h.len()]);
                assert(live_has(v.skip(1), r[q]));
                let w = choose|w: int| 0 <= w < v.skip(1).len() && v.skip(1)[w].0 == r[q];
                assert(v[w + 1].0 == r[q]);
            }
        }
        assert forall|i: int|
            0 <= i < v.len() && lex_le((#[trigger] v[i]).1, key) && lex_le(key, v[i].2)
            implies r.contains(v[i].0) by {
            if i == 0 {
                assert(r[0] == v[0].0);
            } else {
                assert(v.skip(1)[i - 1] == v[i]);
                assert(r1.contains(v[i].0));
                let w = choose|w: int| 0 <= w < r1.len() && r1[w] == v[i].0;
                assert(r[h.len() + w] == v[i].0);
            }
        }
        if live_unique(v) {
            assert(live_unique(v.skip(1))) by {
                assert forall|a: int, b: int| 0 <= a < b < v.skip(1).len() implies (
                #[trigger] v.skip(1)[a]).0 != (#[trigger] v.skip(1)[b]).0 by {
                    assert(v.skip(1)[a] == v[a + 1]);
                    assert(v.skip(1)[b] == v[b + 1]);
                }
            }
            assert forall|q1: int, q2: int| 0 <= q1 < q2 < r.len() implies (#[trigger] r[q1])
                != (#[trigger] r[q2]) by {
                if q1 < h.len() {
                    assert(r[q1] == v[0].0);
                    assert(r[q2] == r1[q2 - h.len()]);
                    assert(live_has(v.skip(1), r[q2]));
                    let w = choose|w: int|
                        0 <= w < v.skip(1).len() && v.skip(1)[w].0 == r[q2];
                    assert(v.skip(1)[w] == v[w + 1]);
                    assert(v[0].0 != v[w + 1].0);
                } else {
                    assert(r[q1] == r1[q1 - h.len()]);
                    assert(r[q2] == r1[q2 - h.len()]);
                }
            }
        }
    }
}

/// Whether every manifest record is small enough for its length prefixes.
pub open spec fn man_actions_fit(acts: Seq<ManActionV>) -> bool {
    forall|i: int| 0 <= i < acts.len() ==> man_action_fits(#[trigger] acts[i])
}

/// The groups of a manifest record sequence that a commit marker closes.
pub open spec fn man_committed_acc(acts: Seq<ManActionV>, pending: Seq<ManActionV>) -> Seq<
    ManActionV,
>
    decreases acts.len(),
{
    if acts.len() == 0 {
        Seq::empty()
    } else {
        match acts[0] {
            ManActionV::Commit => pending + man_committed_acc(acts.skip(1), Seq::empty()),
            _ => man_committed_acc(acts.skip(1), pending.push(acts[0])),
        }
    }
}

/// The manifest records still pending after a record sequence.
pub open spec fn man_pending_after(acts: Seq<ManActionV>, pending: Seq<ManActionV>) -> Seq<
    ManActionV,
>
    decreases acts.len(),
{
    if acts.len() == 0 {
        pending
    } else {
        match acts[0] {
            ManActionV::Commit => man_pending_after(acts.skip(1), Seq::empty()),
            _ => man_pending_after(acts.skip(1), pending.push(acts[0])),
        }
    }
}

/// The non-commit manifest records, in order.
pub open spec fn man_non_commits(acts: Seq<ManActionV>) -> Seq<ManActionV>
    decreases acts.len(),
{
    if acts.len() == 0 {
        Seq::empty()
    } else {
        match acts[0] {
            ManActionV::Commit => man_non_commits(acts.skip(1)),
            _ => seq![acts[0]] + man_non_commits(acts.skip(1)),
        }
    }
}

/// What is committed plus what stays pending is the whole record stream.
pub proof fn lemma_man_committed_all(acts: Seq<ManActionV>, p: Seq<ManActionV>)
    ensures
        man_committed_acc(acts, p) + man_pending_after(acts, p) == p + man_non_commits(acts),
    decreases acts.len(),
{
    if acts.len() == 0 {
        assert(man_committed_acc(acts, p) + man_pending_after(acts, p) =~= p);
        assert(p + man_non_commits(acts) =~= p);
    } else {
        match acts[0] {
            ManActionV::Commit => {
                lemma_man_committed_all(acts.skip(1), Seq::empty());
                assert(man_committed_acc(acts.skip(1), Seq::empty()) + man_pending_after(
                    acts.skip(1),
                    Seq::empty(),
                ) =~= man_non_commits(acts.skip(1)));
                assert((p + man_committed_acc(acts.skip(1), Seq::empty()))
                    + man_pending_after(acts, p) =~= p + (man_committed_acc(
                    acts.skip(1),
                    Seq::empty(),
                ) + man_pending_after(acts.skip(1), Seq::empty())));
            }
            _ => {
                lemma_man_committed_all(acts.skip(1), p.push(acts[0]));
                assert(p.push(acts[0]) + man_non_commits(acts.skip(1)) =~= p + (seq![acts[0]]
                    + man_non_commits(acts.skip(1))));
            }
        }
    }
}

/// Commit markers are no-ops when a manifest record stream is applied.
pub proof fn lemma_man_apply_non_commits(v: ManifestV, acts: Seq<ManActionV>)
    ensures
        man_apply(v, man_non_commits(acts)) == man_apply(v, acts),
    decreases acts.len(),
{
    if acts.len() > 0 {
        match acts[0] {
            ManActionV::Commit => {
                lemma_man_apply_non_commits(v, acts.skip(1));
            }
            _ => {
                lemma_man_apply_non_commits(man_step(v, acts[0]), acts.skip(1));
                assert((seq![acts[0]] + man_non_commits(acts.skip(1))).skip(1) =~=
                man_non_commits(acts.skip(1)));
                assert((seq![acts[0]] + man_non_commits(acts.skip(1)))[0] == acts[0]);
            }
        }
    }
}

/// Replay of an encoded manifest record stream followed by anything: the
/// encoded records are scanned through, and the scan goes on into the tail.
#[verifier::rlimit(100)]
#[verifier::spinoff_prover]
pub proof fn lemma_man_wal_stream(acts: Seq<ManActionV>, t: Seq<u8>, pending: Seq<ManActionV>)
    requires
        man_actions_fit(acts),
    ensures
        man_wal_commits(enc_man_actions(acts) + t, pending) == man_committed_acc(acts, pending)
            + man_wal_commits(t, man_pending_after(acts, pending)),
    decreases acts.len(),
{
    if acts.len() == 0 {
        assert(enc_man_actions(acts) + t =~= t);
        assert(man_committed_acc(acts, pending) + man_wal_commits(
            t,
            man_pending_after(acts, pending),
        ) =~= man_wal_commits(t, pending));
    } else {
        let a0 = acts[0];
        let e0 = enc_man_action(a0);
        let rest = enc_man_actions(acts.skip(1)) + t;
        assert(man_actions_fit(acts.skip(1))) by {
            assert forall|i: int| 0 <= i < acts.skip(1).len() implies man_action_fits(
                #[trigger] acts.skip(1)[i],
            ) by {
                assert(acts.skip(1)[i] == acts[i + 1]);
            }
        }
        assert(enc_man_actions(acts) + t =~= e0 + rest);
        lemma_parse_enc_man_action(a0, rest);
        lemma_parse_man_action_bounds(e0 + rest);
        assert((e0 + rest).skip(e0.len() as int) =~= rest);
        lemma_man_wal_stream(acts.skip(1), t, Seq::empty());
        lemma_man_wal_stream(acts.skip(1), t, pending.push(a0));
        match a0 {
            ManActionV::Commit => {
                assert(pending + (man_committed_acc(acts.skip(1), Seq::empty())
                    + man_wal_commits(t, man_pending_after(acts.skip(1), Seq::empty()))) =~= (
                pending + man_committed_acc(acts.skip(1), Seq::empty())) + man_wal_commits(
                    t,
                    man_pending_after(acts.skip(1), Seq::empty()),
                ));
            }
            _ => {}
        }
    }
}

/// Recovery equivalence for the manifest log: replaying the bytes the
/// keeper's commits have handed out — the concatenation of its encoded
/// batches, each closed by a commit marker — rebuilds exactly the catalog
/// those commits built.
pub proof fn lemma_man_recovery_equivalence(v0: ManifestV, hist: Seq<ManActionV>)
    requires
        man_actions_fit(hist),
        man_pending_after(hist, Seq::empty()) == Seq::<ManActionV>::empty(),
    ensures
        man_apply(v0, man_wal_commits(enc_man_actions(hist), Seq::empty())) == man_apply(
            v0,
            hist,
        ),
{
    lemma_man_wal_stream(hist, Seq::empty(), Seq::empty());
    assert(enc_man_actions(hist) + Seq::<u8>::empty() =~= enc_man_actions(hist));
    assert(man_wal_commits(Seq::empty(), man_pending_after(hist, Seq::empty())) == Seq::<
        ManActionV,
    >::empty());
    assert(man_wal_commits(enc_man_actions(hist), Seq::empty()) =~= man_committed_acc(
        hist,
        Seq::empty(),
    ));
    lemma_man_committed_all(hist, Seq::empty());
    assert(man_committed_acc(hist, Seq::empty()) + man_pending_after(hist, Seq::empty()) =~=
    man_non_commits(hist));
    assert(man_committed_acc(hist, Seq::empty()) == man_non_commits(hist));
    lemma_man_apply_non_commits(v0, hist);
}

/// Torn-batch safety at the manifest stream level: replay of any
/// byte-length prefix of an encoded manifest record stream commits exactly
/// the groups whose commit marker lies entirely within the prefix.
#[verifier::spinoff_prover]
#[verifier::rlimit(100)]
pub proof fn lemma_man_wal_torn(acts: Seq<ManActionV>, m: int, pending: Seq<ManActionV>)
    requires
        man_actions_fit(acts),
        0 <= m <= enc_man_actions(acts).len(),
    ensures
        exists|t: int|
            {
                &&& 0 <= t <= acts.len()
                &&& enc_man_actions(#[trigger] acts.take(t)).len() <= m
                &&& (t < acts.len() ==> m < enc_man_actions(acts.take(t + 1)).len())
                &&& man_wal_commits(enc_man_actions(acts).take(m), pending)
                    == man_committed_acc(acts.take(t), pending)
            },
    decreases acts.len(),
{
    if acts.len() == 0 {
        assert(enc_man_actions(acts).take(m) =~= Seq::<u8>::empty());
        assert(acts.take(0) =~= acts);
        assert({
            &&& 0 <= 0 <= acts.len()
            &&& enc_man_actions(acts.take(0)).len() <= m
            &&& (0 < acts.len() ==> m < enc_man_actions(acts.take(0int + 1)).len())
            &&& man_wal_commits(enc_man_actions(acts).take(m), pending) == man_committed_acc(
                acts.take(0),
                pending,
            )
        });
    } else {
        let a0 = acts[0];
        let e0 = enc_man_action(a0);
        let c0 = e0.len() as int;
        let rest = enc_man_actions(acts.skip(1));
        assert(man_actions_fit(acts.skip(1))) by {
            assert forall|i: int| 0 <= i < acts.skip(1).len() implies man_action_fits(
                #[trigger] acts.skip(1)[i],
            ) by {
                assert(acts.skip(1)[i] == acts[i + 1]);
            }
        }
        assert(enc_man_actions(acts) =~= e0 + rest);
        lemma_parse_enc_man_action(a0, rest);
        lemma_parse_man_action_bounds(e0 + rest);
        assert(acts.take(1) =~= seq![a0]);
        assert(enc_man_actions(seq![a0]) =~= e0) by {
            assert(seq![a0][0] == a0);
            assert(seq![a0].skip(1) =~= Seq::<ManActionV>::empty());
            assert(enc_man_actions(seq![a0].skip(1)) == Seq::<u8>::empty());
            assert(enc_man_actions(seq![a0]) == e0 + enc_man_actions(seq![a0].skip(1)));
            assert(e0 + Seq::<u8>::empty() =~= e0);
        }
        if m < c0 {
            lemma_parse_man_action_short(e0 + rest, m);
            assert(enc_man_actions(acts).take(m) =~= (e0 + rest).take(m));
            assert(man_wal_commits(enc_man_actions(acts).take(m), pending) =~= Seq::<
                ManActionV,
            >::empty());
            assert(acts.take(0) =~= Seq::<ManActionV>::empty());
            assert(man_committed_acc(acts.take(0), pending) =~= Seq::<ManActionV>::empty());
            assert(enc_man_actions(acts.take(0)).len() == 0);
            assert({
                &&& 0 <= 0 <= acts.len()
                &&& enc_man_actions(acts.take(0)).len() <= m
                &&& (0 < acts.len() ==> m < enc_man_actions(acts.take(0int + 1)).len())
                &&& man_wal_commits(enc_man_actions(acts).take(m), pending)
                    == man_committed_acc(acts.take(0), pending)
            });
        } else {
            let cut = enc_man_actions(acts).take(m);
            assert(cut =~= e0 + rest.take(m - c0));
            lemma_parse_enc_man_action(a0, rest.take(m - c0));
            assert(cut.skip(c0) =~= rest.take(m - c0));
            let pending2 = match a0 {
                ManActionV::Commit => Seq::<ManActionV>::empty(),
                _ => pending.push(a0),
            };
            lemma_man_wal_torn(acts.skip(1), m - c0, pending2);
            let t1 = choose|t1: int|
                {
                    &&& 0 <= t1 <= acts.skip(1).len()
                    &&& enc_man_actions(#[trigger] acts.skip(1).take(t1)).len() <= m - c0
                    &&& (t1 < acts.skip(1).len() ==> m - c0 < enc_man_actions(
                        acts.skip(1).take(t1 + 1),
                    ).len())
                    &&& man_wal_commits(enc_man_actions(acts.skip(1)).take(m - c0), pending2)
                        == man_committed_acc(acts.skip(1).take(t1), pending2)
                };
            let t = t1 + 1;
            assert(acts.take(t) =~= seq![a0] + acts.skip(1).take(t1));
            lemma_enc_man_actions_app(seq![a0], acts.skip(1).take(t1));
            assert(enc_man_actions(acts.take(t)).len() == c0 + enc_man_actions(
                acts.skip(1).take(t1),
            ).len());
            assert((seq![a0] + acts.skip(1).take(t1)).skip(1) =~= acts.skip(1).take(t1));
            assert(man_committed_acc(acts.take(t), pending) == match a0 {
                ManActionV::Commit => pending + man_committed_acc(
                    acts.skip(1).take(t1),
                    Seq::empty(),
                ),
                _ => man_committed_acc(acts.skip(1).take(t1), pending.push(a0)),
            });
            if t < acts.len() {
                assert(acts.take(t + 1) =~= seq![a0] + acts.skip(1).take(t1 + 1));
                lemma_enc_man_actions_app(seq![a0], acts.skip(1).take(t1 + 1));
                assert(enc_man_actions(acts.take(t + 1)).len() == c0 + enc_man_actions(
                    acts.skip(1).take(t1 + 1),
                ).len());
            }
            match a0 {
                ManActionV::Commit => {
                    assert(man_wal_commits(cut, pending) == pending + man_wal_commits(
                        cut.skip(c0),
                        Seq::empty(),
                    ));
                }
                _ => {}
            }
            assert({
                &&& 0 <= t <= acts.len()
                &&& enc_man_actions(acts.take(t)).len() <= m
                &&& (t < acts.len() ==> m < enc_man_actions(acts.take(t + 1)).len())
                &&& man_wal_commits(enc_man_actions(acts).take(m), pending)
                    == man_committed_acc(acts.take(t), pending)
            });
        }
    }
}

} // verus!
