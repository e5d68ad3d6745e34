//! The store façade core: one memtable keeper and one manifest keeper,
//! with the write path, the read routing, the flush discipline and the
//! compaction triggers.  The embedding application performs the file reads,
//! writes and syncs these decisions call for.

use vstd::prelude::*;

use crate::keys::lex_le;
use crate::manifest::{
    has_first_at, live_has, man_apply, ManActionV, Manifest, ManifestKeeper,
};
use crate::memtable::{
    apply_actions, apply_fits, entry_size, MemActionV, MemTableKeeper, UpdateV, ValueUpdate,
};
use crate::sstable::{SstId, SSTable};

verus! {

/// How large the memtable may grow before it is flushed.
pub const MEMTABLE_FLUSH_SIZE: u64 = 0x100000;

/// How many level-0 tables trigger a compaction.
pub const LEVEL0_COMPACT_COUNT: usize = 4;

/// A key mapped to the last value written to it by a run of operations,
/// later operations winning.
pub open spec fn last_write(ops: Seq<MemActionV>, k: Seq<u8>) -> Option<UpdateV>
    decreases ops.len(),
{
    if ops.len() == 0 {
        None
    } else {
        match last_write(ops.skip(1), k) {
            Some(u) => Some(u),
            None => match ops[0] {
                MemActionV::Insert(k2, u) => if k2 == k {
                    Some(u)
                } else {
                    None
                },
                MemActionV::Commit => None,
            },
        }
    }
}

/// Read-your-writes: after a run of operations applied to sorted entries,
/// a key reads back the last value written to it, and a key never written
/// reads what it held before.
pub proof fn lemma_read_your_writes(
    e0: Seq<(Seq<u8>, UpdateV)>,
    ops: Seq<MemActionV>,
    k: Seq<u8>,
)
    requires
        crate::memtable::entries_sorted(e0),
    ensures
        crate::memtable::entries_sorted(apply_actions(e0, ops)),
        match last_write(ops, k) {
            Some(u) => {
                &&& crate::memtable::entries_map(apply_actions(e0, ops)).contains_key(k)
                &&& crate::memtable::entries_map(apply_actions(e0, ops))[k] == u
            },
            None => {
                &&& crate::memtable::entries_map(apply_actions(e0, ops)).contains_key(k)
                    == crate::memtable::entries_map(e0).contains_key(k)
                &&& crate::memtable::entries_map(e0).contains_key(k)
                    ==> crate::memtable::entries_map(apply_actions(e0, ops))[k]
                    == crate::memtable::entries_map(e0)[k]
            },
        },
    decreases ops.len(),
{
    if ops.len() > 0 {
        let e1 = crate::memtable::apply_action(e0, ops[0]);
        match ops[0] {
            MemActionV::Commit => {
                lemma_read_your_writes(e0, ops.skip(1), k);
            }
            MemActionV::Insert(k2, u) => {
                crate::memtable::lemma_sorted_insert_props(e0, k2, u);
                crate::memtable::lemma_entries_map_keys(e0);
                crate::memtable::lemma_entries_map_keys(e1);
                lemma_read_your_writes(e1, ops.skip(1), k);
            }
        }
    }
}

/// The store: the journaled memtable and the journaled manifest catalog.
pub struct Store {
    memtable: MemTableKeeper,
    manifest: ManifestKeeper,
}

impl Store {
    /// The committed key-to-update mapping of the memtable.
    pub closed spec fn mem_model(self) -> Map<Seq<u8>, UpdateV> {
        self.memtable.model()
    }

    /// The memtable entries.
    pub closed spec fn mem_entries(self) -> Seq<(Seq<u8>, UpdateV)> {
        self.memtable.entries()
    }

    /// The staged batch of the memtable keeper.
    pub closed spec fn mem_batch(self) -> Seq<MemActionV> {
        self.memtable.batch_view()
    }

    /// The catalog state.
    pub closed spec fn catalog_state(self) -> crate::manifest::ManifestV {
        self.manifest.state()
    }

    pub closed spec fn wf(self) -> bool {
        &&& self.memtable.wf()
        &&& self.manifest.wf()
    }

    /// The accounted size of the memtable.
    pub closed spec fn mem_size(self) -> int {
        self.memtable.spec_size()
    }

    /// Assembles a store from recovered keepers.
    pub fn from_parts(memtable: MemTableKeeper, manifest: ManifestKeeper) -> (r: Store)
        requires
            memtable.wf(),
            manifest.wf(),
            memtable.batch_view() == Seq::<MemActionV>::empty(),
        ensures
            r.wf(),
            r.mem_entries() == memtable.entries(),
            r.mem_batch() == Seq::<MemActionV>::empty(),
            r.catalog_state() == manifest.state(),
    {
        Store { memtable, manifest }
    }

    /// Whether another snapshot generation can be taken.
    pub fn can_snapshot(&self) -> (r: bool)
        requires
            self.wf(),
    {
        let g = self.manifest_gens();
        g.0 < u64::MAX && g.1 < u64::MAX
    }

    /// The generation numbers of the live manifest snapshot and log files.
    pub closed spec fn spec_gens(self) -> (u64, u64) {
        self.manifest.gens()
    }

    pub fn manifest_gens(&self) -> (r: (u64, u64))
        requires
            self.wf(),
        ensures
            r == self.spec_gens(),
    {
        self.manifest.gens_pair()
    }

    /// Begins a new manifest snapshot generation: the new generation
    /// numbers and the serialized catalog to write under them.
    pub fn manifest_snapshot(&mut self) -> (r: (u64, u64, Vec<u8>))
        requires
            old(self).wf(),
            old(self).spec_gens().0 < u64::MAX,
            old(self).spec_gens().1 < u64::MAX,
        ensures
            final(self).wf(),
            final(self).mem_entries() == old(self).mem_entries(),
            final(self).catalog_state() == old(self).catalog_state(),
            r.2@ == crate::manifest::enc_state(old(self).catalog_state()),
    {
        self.manifest.snapshot()
    }

    pub fn new() -> (r: Store)
        ensures
            r.wf(),
            r.mem_model() == Map::<Seq<u8>, UpdateV>::empty(),
            r.mem_entries() == Seq::<(Seq<u8>, UpdateV)>::empty(),
            r.mem_batch() == Seq::<MemActionV>::empty(),
            r.mem_size() == 0,
            r.catalog_state() == Manifest::new_state(),
            r.manifest_batch() == Seq::<ManActionV>::empty(),
    {
        let r = Store { memtable: MemTableKeeper::new(), manifest: ManifestKeeper::new() };
        proof {
            crate::memtable::lemma_keeper_model(r.memtable);
            crate::memtable::lemma_keeper_wf(r.memtable);
            assert(crate::memtable::entries_map(r.memtable.entries()) =~= Map::<
                Seq<u8>,
                UpdateV,
            >::empty());
            assert(crate::memtable::entries_size(r.memtable.entries()) == 0);
        }
        r
    }

    /// Stages one insertion and returns the bytes to append to the
    /// memtable log.  Nothing is applied yet: the caller appends and syncs
    /// the bytes, then calls `write_confirm`; on a failed write it calls
    /// `write_abort`, leaving the in-memory state consistent with the
    /// durable log.
    pub fn insert(&mut self, key: Vec<u8>, value: Vec<u8>) -> (wal: Vec<u8>)
        requires
            old(self).wf(),
            key@.len() > 0,
            old(self).mem_batch() == Seq::<MemActionV>::empty(),
            old(self).mem_size() + entry_size(key@, UpdateV::Value(value@)) <= u64::MAX,
        ensures
            final(self).wf(),
            final(self).mem_model() == old(self).mem_model(),
            final(self).mem_entries() == old(self).mem_entries(),
            final(self).mem_size() == old(self).mem_size(),
            final(self).mem_batch() == seq![MemActionV::Insert(key@, UpdateV::Value(value@))],
            apply_fits(final(self).mem_entries(), final(self).mem_batch()),
            final(self).catalog_state() == old(self).catalog_state(),
            final(self).manifest_batch() == old(self).manifest_batch(),
            wal@ == crate::memtable::enc_actions(
                seq![MemActionV::Insert(key@, UpdateV::Value(value@)), MemActionV::Commit],
            ),
    {
        self.stage_write(key, ValueUpdate::Value(value))
    }

    /// Stages one deletion: a tombstone that shadows earlier values of the
    /// key.  Same write discipline as `insert`.
    pub fn remove(&mut self, key: Vec<u8>) -> (wal: Vec<u8>)
        requires
            old(self).wf(),
            key@.len() > 0,
            old(self).mem_batch() == Seq::<MemActionV>::empty(),
            old(self).mem_size() + entry_size(key@, UpdateV::Tombstone) <= u64::MAX,
        ensures
            final(self).wf(),
            final(self).mem_model() == old(self).mem_model(),
            final(self).mem_entries() == old(self).mem_entries(),
            final(self).mem_size() == old(self).mem_size(),
            final(self).mem_batch() == seq![MemActionV::Insert(key@, UpdateV::Tombstone)],
            apply_fits(final(self).mem_entries(), final(self).mem_batch()),
            final(self).catalog_state() == old(self).catalog_state(),
            final(self).manifest_batch() == old(self).manifest_batch(),
            wal@ == crate::memtable::enc_actions(
                seq![MemActionV::Insert(key@, UpdateV::Tombstone), MemActionV::Commit],
            ),
    {
        self.stage_write(key, ValueUpdate::Tombstone)
    }

    fn stage_write(&mut self, key: Vec<u8>, update: ValueUpdate) -> (wal: Vec<u8>)
        requires
            old(self).wf(),
            old(self).mem_batch() == Seq::<MemActionV>::empty(),
            old(self).mem_size() + entry_size(key@, update@) <= u64::MAX,
        ensures
            final(self).wf(),
            final(self).mem_model() == old(self).mem_model(),
            final(self).mem_entries() == old(self).mem_entries(),
            final(self).mem_size() == old(self).mem_size(),
            final(self).mem_batch() == seq![MemActionV::Insert(key@, update@)],
            apply_fits(final(self).mem_entries(), final(self).mem_batch()),
            final(self).catalog_state() == old(self).catalog_state(),
            final(self).manifest_batch() == old(self).manifest_batch(),
            wal@ == crate::memtable::enc_actions(
                seq![MemActionV::Insert(key@, update@), MemActionV::Commit],
            ),
    {
        let ghost gk = key@;
        let ghost gu = update@;
        proof {
            crate::memtable::lemma_keeper_wf(old(self).memtable);
        }
        self.memtable.insert(key, update);
        let wal = self.memtable.commit_encode();
        proof {
            let bv = self.memtable.batch_view();
            assert(bv =~= seq![MemActionV::Insert(gk, gu)]);
            assert(bv.skip(1) =~= Seq::<MemActionV>::empty());
            assert(apply_fits(self.memtable.entries(), bv)) by {
                assert(bv[0] == MemActionV::Insert(gk, gu));
                assert(crate::memtable::entries_size(self.memtable.entries())
                    + crate::memtable::mem_action_size(bv[0]) <= u64::MAX);
                assert(apply_fits(
                    crate::memtable::apply_action(self.memtable.entries(), bv[0]),
                    bv.skip(1),
                ));
            }
            assert(bv.push(MemActionV::Commit) =~= seq![
                MemActionV::Insert(gk, gu),
                MemActionV::Commit,
            ]);
        }
        wal
    }

    /// Applies the staged write batch once its bytes are durably in the
    /// log: the memtable now reflects the committed operations.
    pub fn write_confirm(&mut self)
        requires
            old(self).wf(),
            apply_fits(old(self).mem_entries(), old(self).mem_batch()),
        ensures
            final(self).wf(),
            final(self).mem_entries() == apply_actions(
                old(self).mem_entries(),
                old(self).mem_batch(),
            ),
            final(self).mem_model() == crate::memtable::entries_map(final(self).mem_entries()),
            final(self).mem_size() == crate::memtable::entries_size(final(self).mem_entries()),
            final(self).mem_batch() == Seq::<MemActionV>::empty(),
            final(self).catalog_state() == old(self).catalog_state(),
            final(self).manifest_batch() == old(self).manifest_batch(),
    {
        self.memtable.commit_apply();
        proof {
            crate::memtable::lemma_keeper_model(self.memtable);
        }
    }

    /// Discards the staged write batch after a failed log write: the
    /// in-memory state stays consistent with the durable log.
    pub fn write_abort(&mut self)
        ensures
            final(self).mem_entries() == old(self).mem_entries(),
            final(self).mem_model() == old(self).mem_model(),
            final(self).mem_size() == old(self).mem_size(),
            final(self).mem_batch() == Seq::<MemActionV>::empty(),
            final(self).catalog_state() == old(self).catalog_state(),
            final(self).manifest_batch() == old(self).manifest_batch(),
            old(self).wf() ==> final(self).wf(),
    {
        self.memtable.batch_start();
    }

    /// The committed update under a key in the memtable, before any SSTs
    /// are consulted: a present value or tombstone decides the read.
    pub fn get_buffered<'a>(&'a self, key: &Vec<u8>) -> (r: Option<&'a ValueUpdate>)
        requires
            self.wf(),
        ensures
            match r {
                None => !self.mem_model().contains_key(key@),
                Some(u) => self.mem_model().contains_key(key@) && self.mem_model()[key@] == u@,
            },
    {
        self.memtable.get(key)
    }

    /// The live SSTs whose range may hold the key, for the caller to load
    /// and consult when the memtable does not decide a read.
    pub fn sst_candidates(&self, key: &Vec<u8>) -> (r: Vec<SstId>)
        requires
            self.wf(),
        ensures
            r@ == crate::manifest::key_hit_ids(self.catalog_state().live, key@),
            forall|q: int|
                0 <= q < r@.len() ==> live_has(self.catalog_state().live, #[trigger] r@[q]),
            forall|i: int|
                0 <= i < self.catalog_state().live.len() && lex_le(
                    (#[trigger] self.catalog_state().live[i]).1,
                    key@,
                ) && lex_le(key@, self.catalog_state().live[i].2) ==> r@.contains(
                    self.catalog_state().live[i].0,
                ),
            forall|q1: int, q2: int| 0 <= q1 < q2 < r@.len() ==> r@[q1] != r@[q2],
    {
        proof {
            crate::manifest::lemma_key_hit_ids_props(self.catalog_state().live, key@);
            crate::manifest::lemma_keeper_live_unique(self.manifest);
        }
        self.manifest.catalog().get_sst_by_key(key)
    }

    /// True exactly when the memtable has reached the flush threshold.
    pub fn should_flush(&self) -> (r: bool)
        requires
            self.wf(),
        ensures
            r == (self.mem_size() >= MEMTABLE_FLUSH_SIZE),
    {
        self.memtable.should_flush()
    }

    /// Builds the level-0 table holding the memtable's contents and stages
    /// its installation: a `NewId` for the consumed id (the next id of
    /// level zero) and an `Add` with the table's range.  Refuses an empty
    /// memtable.  The caller writes the table's file image and syncs it,
    /// then commits the manifest batch with `install_encode` and
    /// `install_confirm`, and finally calls `flush_finish`.
    pub fn flush_begin(&mut self) -> (r: Option<SSTable>)
        requires
            old(self).wf(),
        ensures
            final(self).wf(),
            final(self).mem_entries() == old(self).mem_entries(),
            final(self).mem_model() == old(self).mem_model(),
            final(self).mem_size() == old(self).mem_size(),
            final(self).mem_batch() == old(self).mem_batch(),
            final(self).catalog_state() == old(self).catalog_state(),
            match r {
                None => {
                    &&& old(self).mem_entries().len() == 0
                    &&& final(self).manifest_batch() == old(self).manifest_batch()
                },
                Some(t) => {
                    &&& old(self).mem_entries().len() > 0
                    &&& t.wf()
                    &&& t.records() == old(self).mem_entries()
                    &&& t.spec_id() == (SstId {
                        level: 0,
                        id: crate::manifest::state_next_id(old(self).catalog_state(), 0),
                    })
                    &&& t.records_bytes().len() <= old(self).mem_size()
                    &&& final(self).manifest_batch() == old(self).manifest_batch() + seq![
                        ManActionV::NewId(0),
                        ManActionV::Add(
                            t.spec_id(),
                            old(self).mem_entries()[0].0,
                            old(self).mem_entries().last().0,
                        ),
                    ]
                },
            },
    {
        if self.memtable.is_empty() {
            return None;
        }
        proof {
            crate::memtable::lemma_keeper_wf(self.memtable);
        }
        let entries = self.memtable.entries_vec();
        proof {
            assert(crate::sstable::entries_vec_view(entries@) =~= self.memtable.entries());
        }
        let id = self.manifest.catalog().latest_sst_id(0);
        proof {
            assert(id.id == crate::manifest::state_next_id(self.catalog_state(), 0));
        }
        let table = SSTable::build(&entries, id);
        self.manifest.new_id(0);
        let md = table.metadata();
        self.manifest.add(id, &md.first_key, &md.last_key);
        proof {
            assert(self.manifest.state() == old(self).manifest.state());
            assert(self.manifest_batch() =~= old(self).manifest_batch() + seq![
                ManActionV::NewId(0),
                ManActionV::Add(
                    table.spec_id(),
                    old(self).mem_entries()[0].0,
                    old(self).mem_entries().last().0,
                ),
            ]);
            crate::sstable::lemma_enc_entries_le_size(old(self).mem_entries());
        }
        Some(table)
    }

    /// Serializes the staged manifest batch: the bytes to append to the
    /// manifest log, and the ids of every staged removal, whose files may
    /// be deleted only once those bytes are durable.  Nothing is applied
    /// yet: the caller appends and syncs the bytes, then calls
    /// `install_confirm`.
    pub fn install_encode(&self) -> (r: (Vec<u8>, Vec<SstId>))
        requires
            self.wf(),
        ensures
            r.0@ == crate::manifest::enc_man_actions(
                self.manifest_batch().push(ManActionV::Commit),
            ),
            r.1@ == crate::manifest::removes_of(self.manifest_batch()),
    {
        self.manifest.commit_encode()
    }

    /// Applies the staged manifest batch in order once its bytes are
    /// durably in the log: the whole exchange becomes visible at once.
    pub fn install_confirm(&mut self)
        requires
            old(self).wf(),
        ensures
            final(self).wf(),
            final(self).mem_entries() == old(self).mem_entries(),
            final(self).mem_model() == old(self).mem_model(),
            final(self).mem_size() == old(self).mem_size(),
            final(self).mem_batch() == old(self).mem_batch(),
            final(self).catalog_state() == man_apply(
                old(self).catalog_state(),
                old(self).manifest_batch(),
            ),
            final(self).manifest_batch() == Seq::<ManActionV>::empty(),
    {
        self.manifest.commit_apply();
    }

    /// The staged manifest batch.
    pub closed spec fn manifest_batch(self) -> Seq<ManActionV> {
        self.manifest.batch_view()
    }

    /// Empties the memtable once its flushed table is durably installed.
    /// The caller must truncate the memtable log at the same time.
    pub fn flush_finish(&mut self)
        requires
            old(self).wf(),
        ensures
            final(self).wf(),
            final(self).mem_entries() == Seq::<(Seq<u8>, UpdateV)>::empty(),
            final(self).mem_model() == Map::<Seq<u8>, UpdateV>::empty(),
            final(self).catalog_state() == old(self).catalog_state(),
    {
        self.memtable.reset();
        proof {
            crate::memtable::lemma_keeper_model(self.memtable);
            assert(crate::memtable::entries_map(self.memtable.entries()) =~= Map::<
                Seq<u8>,
                UpdateV,
            >::empty());
        }
    }

    /// Whether a level is due for compaction: level zero when it holds at
    /// least `LEVEL0_COMPACT_COUNT` tables, a deeper level when its byte
    /// size exceeds ten-to-the-level mebibytes.
    pub fn compaction_due(&self, level: u64, level_count: usize, level_bytes: u64) -> (r: bool)
        ensures
            level == 0 ==> r == (level_count >= LEVEL0_COMPACT_COUNT),
            level != 0 ==> r == (level_bytes as int > level_threshold(level)),
    {
        if level == 0 {
            level_count >= LEVEL0_COMPACT_COUNT
        } else if level >= 20 {
            // The threshold already exceeds any 64-bit byte count.
            proof {
                reveal_with_fuel(pow10, 21);
                lemma_pow10_mono(20, level as int);
                assert(level_bytes as int <= u64::MAX);
                assert(level_threshold(level) >= 0x100000 * pow10(20));
            }
            false
        } else {
            let mut t: u128 = 0x100000;
            let mut l: u64 = 0;
            proof {
                assert(pow10(0) == 1);
            }
            while l < level
                invariant
                    0 <= l <= level < 20,
                    t == 0x100000 * pow10(l as int),
                decreases level - l,
            {
                proof {
                    assert(pow10(l as int + 1) == 10 * pow10(l as int));
                    reveal_with_fuel(pow10, 21);
                    lemma_pow10_mono(l as int + 1, 20);
                    lemma_pow10_mono(0, l as int + 1);
                }
                t = t * 10;
                l = l + 1;
            }
            (level_bytes as u128) > t
        }
    }

    /// The inputs of a level-0 compaction: every level-0 table together
    /// with every level-1 table any of them overlaps — sound and complete.
    pub fn compaction_inputs_level0(&self) -> (r: Vec<SstId>)
        requires
            self.wf(),
        ensures
            forall|q: int|
                0 <= q < r@.len() ==> live_has(self.catalog_state().live, #[trigger] r@[q]),
            forall|i: int|
                0 <= i < self.catalog_state().live.len() && (
                #[trigger] self.catalog_state().live[i]).0.level == 0 ==> r@.contains(
                    self.catalog_state().live[i].0,
                ),
            forall|i: int, j: int|
                0 <= i < self.catalog_state().live.len() && 0 <= j
                    < self.catalog_state().live.len() && (
                #[trigger] self.catalog_state().live[i]).0.level == 0 && (
                #[trigger] self.catalog_state().live[j]).0.level == 1
                    && crate::manifest::ranges_overlap(
                    (self.catalog_state().live[i].1, self.catalog_state().live[i].2),
                    (self.catalog_state().live[j].1, self.catalog_state().live[j].2),
                ) ==> r@.contains(self.catalog_state().live[j].0),
    {
        let ghost live = self.catalog_state().live;
        proof {
            crate::manifest::lemma_keeper_live_unique(self.manifest);
        }
        let l0 = self.manifest.catalog().get_sst_by_level(0);
        proof {
            crate::manifest::lemma_level_ids_props(live, 0);
        }
        let mut r: Vec<SstId> = Vec::new();
        let mut i: usize = 0;
        while i < l0.len()
            invariant
                self.wf(),
                live == self.catalog_state().live,
                crate::manifest::live_unique(live),
                forall|q: int|
                    0 <= q < l0@.len() ==> live_has(live, #[trigger] l0@[q]) && l0@[q].level
                        == 0,
                forall|w: int|
                    0 <= w < live.len() && (#[trigger] live[w]).0.level == 0 ==> l0@.contains(
                        live[w].0,
                    ),
                forall|q: int| 0 <= q < r@.len() ==> live_has(live, #[trigger] r@[q]),
                0 <= i <= l0@.len(),
                forall|w: int, j: int|
                    0 <= w < i && 0 <= j < live.len() && (#[trigger] live[j]).0.level == 1
                        && crate::manifest::ranges_overlap(
                        (
                            crate::manifest::live_entry(live, #[trigger] l0@[w]).1,
                            crate::manifest::live_entry(live, l0@[w]).2,
                        ),
                        (live[j].1, live[j].2),
                    ) ==> r@.contains(live[j].0),
            decreases l0@.len() - i,
        {
            let ovl = self.manifest.catalog().get_overlappings(&l0[i]);
            let ghost r_before = r@;
            let mut j: usize = 0;
            while j < ovl.len()
                invariant
                    self.wf(),
                    live == self.catalog_state().live,
                    0 <= i < l0@.len(),
                    live_has(live, l0@[i as int]),
                    l0@[i as int].level == 0,
                    forall|q: int|
                        0 <= q < ovl@.len() ==> live_has(live, #[trigger] ovl@[q]),
                    forall|q: int| 0 <= q < r@.len() ==> live_has(live, #[trigger] r@[q]),
                    forall|q: int| 0 <= q < r_before.len() ==> r@.contains(
                        #[trigger] r_before[q],
                    ),
                    0 <= j <= ovl@.len(),
                    forall|w: int| 0 <= w < j ==> r@.contains(#[trigger] ovl@[w]),
                decreases ovl@.len() - j,
            {
                let ghost r_prev = r@;
                r.push(ovl[j]);
                proof {
                    assert forall|q: int| 0 <= q < r_before.len() implies r@.contains(
                        #[trigger] r_before[q],
                    ) by {
                        let w = choose|w: int| 0 <= w < r_prev.len() && r_prev[w] == r_before[q];
                        assert(r@[w] == r_before[q]);
                    }
                    assert forall|w: int| 0 <= w < j + 1 implies r@.contains(
                        #[trigger] ovl@[w],
                    ) by {
                        if w < j {
                            let w2 = choose|w2: int|
                                0 <= w2 < r_prev.len() && r_prev[w2] == ovl@[w];
                            assert(r@[w2] == ovl@[w]);
                        } else {
                            assert(r@[r@.len() - 1] == ovl@[w]);
                        }
                    }
                }
                j = j + 1;
            }
            proof {
                // Everything level-1 overlapping this level-0 table is in.
                assert forall|w: int, j2: int|
                    0 <= w < i + 1 && 0 <= j2 < live.len() && (#[trigger] live[j2]).0.level
                        == 1 && crate::manifest::ranges_overlap(
                        (
                            crate::manifest::live_entry(live, #[trigger] l0@[w]).1,
                            crate::manifest::live_entry(live, l0@[w]).2,
                        ),
                        (live[j2].1, live[j2].2),
                    ) implies r@.contains(live[j2].0) by {
                    if w < i {
                        let q = choose|q: int|
                            0 <= q < r_before.len() && r_before[q] == live[j2].0;
                        assert(r@.contains(r_before[q]));
                    } else {
                        assert(ovl@.contains(live[j2].0));
                        let q = choose|q: int| 0 <= q < ovl@.len() && ovl@[q] == live[j2].0;
                        assert(r@.contains(ovl@[q]));
                    }
                }
            }
            i = i + 1;
        }
        let ghost r_mid = r@;
        let mut i2: usize = 0;
        while i2 < l0.len()
            invariant
                self.wf(),
                live == self.catalog_state().live,
                forall|q: int|
                    0 <= q < l0@.len() ==> live_has(live, #[trigger] l0@[q]),
                forall|q: int| 0 <= q < r@.len() ==> live_has(live, #[trigger] r@[q]),
                forall|q: int| 0 <= q < r_mid.len() ==> r@.contains(#[trigger] r_mid[q]),
                0 <= i2 <= l0@.len(),
                forall|w: int| 0 <= w < i2 ==> r@.contains(#[trigger] l0@[w]),
            decreases l0@.len() - i2,
        {
            let ghost r_prev = r@;
            r.push(l0[i2]);
            proof {
                assert forall|q: int| 0 <= q < r_mid.len() implies r@.contains(
                    #[trigger] r_mid[q],
                ) by {
                    let w = choose|w: int| 0 <= w < r_prev.len() && r_prev[w] == r_mid[q];
                    assert(r@[w] == r_mid[q]);
                }
                assert forall|w: int| 0 <= w < i2 + 1 implies r@.contains(
                    #[trigger] l0@[w],
                ) by {
                    if w < i2 {
                        let w2 = choose|w2: int| 0 <= w2 < r_prev.len() && r_prev[w2] == l0@[w];
                        assert(r@[w2] == l0@[w]);
                    } else {
                        assert(r@[r@.len() - 1] == l0@[w]);
                    }
                }
            }
            i2 = i2 + 1;
        }
        proof {
            // Level-0 completeness.
            assert forall|w: int|
                0 <= w < live.len() && (#[trigger] live[w]).0.level == 0 implies r@.contains(
                live[w].0,
            ) by {
                let q = choose|q: int| 0 <= q < l0@.len() && l0@[q] == live[w].0;
                assert(r@.contains(l0@[q]));
            }
            // Overlap completeness, rephrased over live positions.
            assert forall|w: int, j2: int|
                0 <= w < live.len() && 0 <= j2 < live.len() && (#[trigger] live[w]).0.level
                    == 0 && (#[trigger] live[j2]).0.level == 1
                    && crate::manifest::ranges_overlap(
                    (live[w].1, live[w].2),
                    (live[j2].1, live[j2].2),
                ) implies r@.contains(live[j2].0) by {
                let q = choose|q: int| 0 <= q < l0@.len() && l0@[q] == live[w].0;
                crate::manifest::lemma_live_entry_at(live, l0@[q], w);
                let p = choose|p: int| 0 <= p < r_mid.len() && r_mid[p] == live[j2].0;
                assert(r@.contains(r_mid[p]));
            }
        }
        r
    }

    /// The inputs of a rotating compaction of a deeper level: the table
    /// under the level's cursor (the last element) together with every
    /// table one level down that overlaps it (sound and complete); the
    /// cursor advance is staged in the same manifest batch.
    pub fn compaction_inputs_rotating(&mut self, level: u64) -> (r: Vec<SstId>)
        requires
            old(self).wf(),
            level < u64::MAX,
            exists|f: Seq<u8>| has_first_at(old(self).catalog_state().live, level, f),
        ensures
            final(self).wf(),
            final(self).mem_entries() == old(self).mem_entries(),
            final(self).mem_model() == old(self).mem_model(),
            final(self).mem_size() == old(self).mem_size(),
            final(self).mem_batch() == old(self).mem_batch(),
            final(self).catalog_state() == old(self).catalog_state(),
            final(self).manifest_batch() == old(self).manifest_batch().push(
                ManActionV::NextCompact(level),
            ),
            r@.len() >= 1,
            live_has(final(self).catalog_state().live, r@.last()),
            r@.last().level == level,
            crate::manifest::cursor_selected(old(self).catalog_state(), level, r@.last()),
            forall|q: int|
                0 <= q < r@.len() - 1 ==> live_has(
                    final(self).catalog_state().live,
                    #[trigger] r@[q],
                ) && r@[q].level == level + 1,
            forall|j: int|
                0 <= j < final(self).catalog_state().live.len() && (
                #[trigger] final(self).catalog_state().live[j]).0.level == level + 1
                    && crate::manifest::ranges_overlap(
                    (
                        crate::manifest::live_entry(
                            final(self).catalog_state().live,
                            r@.last(),
                        ).1,
                        crate::manifest::live_entry(
                            final(self).catalog_state().live,
                            r@.last(),
                        ).2,
                    ),
                    (
                        final(self).catalog_state().live[j].1,
                        final(self).catalog_state().live[j].2,
                    ),
                ) ==> r@.contains(final(self).catalog_state().live[j].0),
    {
        let ghost live = self.catalog_state().live;
        let rotate = self.manifest.catalog().latest_compact_sst(level);
        self.manifest.next_compact(level);
        let ovl = self.manifest.catalog().get_overlappings(&rotate);
        let ghost ovl_v = ovl@;
        let mut r = ovl;
        r.push(rotate);
        proof {
            let rv = r@;
            assert(rv.last() == rotate);
            assert(rv =~= ovl_v.push(rotate));
            assert forall|j: int|
                0 <= j < live.len() && (#[trigger] live[j]).0.level == level + 1
                    && crate::manifest::ranges_overlap(
                    (
                        crate::manifest::live_entry(live, rv.last()).1,
                        crate::manifest::live_entry(live, rv.last()).2,
                    ),
                    (live[j].1, live[j].2),
                ) implies rv.contains(live[j].0) by {
                assert(live_has(live, rotate));
                assert(ovl_v.contains(live[j].0));
                let q = choose|q: int| 0 <= q < ovl_v.len() && ovl_v[q] == live[j].0;
                assert(rv[q] == live[j].0);
            }
        }
        r
    }

    /// Stages the atomic installation of a compaction: an `Add` for each
    /// output with its range, a `NewId` at the destination level for each
    /// id consumed, and a `Remove` for each input.  One later
    /// `install_encode`/`install_confirm` makes the whole exchange durable
    /// at once.
    pub fn stage_compaction(
        &mut self,
        dest_level: u64,
        outputs: &Vec<SSTable>,
        inputs: &Vec<SstId>,
    )
        requires
            old(self).wf(),
            forall|q: int| 0 <= q < outputs@.len() ==> (#[trigger] outputs@[q]).wf(),
        ensures
            final(self).wf(),
            final(self).mem_entries() == old(self).mem_entries(),
            final(self).mem_model() == old(self).mem_model(),
            final(self).mem_size() == old(self).mem_size(),
            final(self).mem_batch() == old(self).mem_batch(),
            final(self).catalog_state() == old(self).catalog_state(),
            final(self).manifest_batch() == old(self).manifest_batch() + compaction_actions(
                outputs@,
                dest_level,
                inputs@,
            ),
    {
        let ghost ov = outputs@;
        let ghost b0 = self.manifest_batch();
        let mut i: usize = 0;
        proof {
            assert(ov.take(0) =~= Seq::<SSTable>::empty());
            assert(b0 + output_actions(ov.take(0), dest_level) =~= b0);
        }
        while i < outputs.len()
            invariant
                self.wf(),
                self.mem_entries() == old(self).mem_entries(),
                self.mem_model() == old(self).mem_model(),
                self.mem_size() == old(self).mem_size(),
                self.mem_batch() == old(self).mem_batch(),
                self.catalog_state() == old(self).catalog_state(),
                ov == outputs@,
                b0 == old(self).manifest_batch(),
                forall|q: int| 0 <= q < ov.len() ==> (#[trigger] ov[q]).wf(),
                0 <= i <= ov.len(),
                self.manifest_batch() == b0 + output_actions(ov.take(i as int), dest_level),
            decreases ov.len() - i,
        {
            let md = outputs[i].metadata();
            let id = *outputs[i].get_id();
            self.manifest.add(id, &md.first_key, &md.last_key);
            self.manifest.new_id(dest_level);
            proof {
                let one = seq![ov[i as int]];
                assert(ov.take(i + 1) =~= ov.take(i as int) + one);
                lemma_output_actions_app(ov.take(i as int), one, dest_level);
                assert(one.skip(1) =~= Seq::<SSTable>::empty());
                assert(one[0] == ov[i as int]);
                assert(output_actions(one.skip(1), dest_level) == Seq::<ManActionV>::empty());
                assert(output_actions(one, dest_level) == seq![
                    ManActionV::Add(
                        one[0].spec_id(),
                        one[0].records()[0].0,
                        one[0].records().last().0,
                    ),
                    ManActionV::NewId(dest_level),
                ] + output_actions(one.skip(1), dest_level));
                assert(output_actions(one, dest_level) =~= seq![
                    ManActionV::Add(
                        ov[i as int].spec_id(),
                        ov[i as int].records()[0].0,
                        ov[i as int].records().last().0,
                    ),
                    ManActionV::NewId(dest_level),
                ]);
                assert(self.manifest_batch() =~= b0 + output_actions(
                    ov.take(i + 1),
                    dest_level,
                ));
            }
            i = i + 1;
        }
        proof {
            assert(ov.take(ov.len() as int) =~= ov);
        }
        let ghost iv = inputs@;
        let mut j: usize = 0;
        proof {
            assert(iv.take(0) =~= Seq::<SstId>::empty());
            assert((b0 + output_actions(ov, dest_level)) + remove_actions(iv.take(0)) =~= b0
                + output_actions(ov, dest_level));
        }
        while j < inputs.len()
            invariant
                self.wf(),
                self.mem_entries() == old(self).mem_entries(),
                self.mem_model() == old(self).mem_model(),
                self.mem_size() == old(self).mem_size(),
                self.mem_batch() == old(self).mem_batch(),
                self.catalog_state() == old(self).catalog_state(),
                iv == inputs@,
                ov == outputs@,
                b0 == old(self).manifest_batch(),
                0 <= j <= iv.len(),
                self.manifest_batch() == (b0 + output_actions(ov, dest_level)) + remove_actions(
                    iv.take(j as int),
                ),
            decreases iv.len() - j,
        {
            self.manifest.remove(&inputs[j]);
            proof {
                let one = seq![iv[j as int]];
                assert(iv.take(j + 1) =~= iv.take(j as int) + one);
                lemma_remove_actions_app(iv.take(j as int), one);
                assert(one.skip(1) =~= Seq::<SstId>::empty());
                assert(one[0] == iv[j as int]);
                assert(remove_actions(one.skip(1)) == Seq::<ManActionV>::empty());
                assert(remove_actions(one) == seq![ManActionV::Remove(one[0])]
                    + remove_actions(one.skip(1)));
                assert(remove_actions(one) =~= seq![ManActionV::Remove(iv[j as int])]);
                assert(self.manifest_batch() =~= (b0 + output_actions(ov, dest_level))
                    + remove_actions(iv.take(j + 1)));
            }
            j = j + 1;
        }
        proof {
            assert(iv.take(iv.len() as int) =~= iv);
            assert((b0 + output_actions(ov, dest_level)) + remove_actions(iv) =~= b0 + (
            output_actions(ov, dest_level) + remove_actions(iv)));
        }
    }

    /// The deepest level holding a live SST.
    pub fn max_level(&self) -> (r: u64)
        requires
            self.wf(),
        ensures
            forall|i: int|
                0 <= i < self.catalog_state().live.len() ==> (
                #[trigger] self.catalog_state().live[i]).0.level <= r,
    {
        self.manifest.catalog().max_level()
    }

    /// The id the destination level will allocate next.
    pub fn next_output_id(&self, level: u64) -> (r: SstId)
        requires
            self.wf(),
        ensures
            r.level == level,
    {
        self.manifest.catalog().latest_sst_id(level)
    }

    /// Reads the catalog.
    pub fn catalog(&self) -> (r: &Manifest)
        requires
            self.wf(),
        ensures
            r.wf(),
            r.view_state() == self.catalog_state(),
    {
        self.manifest.catalog()
    }
}

/// Ten to the `n`.
pub open spec fn pow10(n: int) -> int
    decreases n,
{
    if n <= 0 {
        1
    } else {
        10 * pow10(n - 1)
    }
}

/// The byte threshold of a level: ten-to-the-level mebibytes.
pub open spec fn level_threshold(level: u64) -> int {
    0x100000 * pow10(level as int)
}

proof fn lemma_pow10_mono(a: int, b: int)
    requires
        0 <= a <= b,
    ensures
        pow10(a) <= pow10(b),
        pow10(a) >= 1,
    decreases b,
{
    if a < b {
        lemma_pow10_mono(a, b - 1);
    } else if a > 0 {
        lemma_pow10_mono(a - 1, a - 1);
    }
}

/// The installation records of a compaction's outputs: an `Add` with each
/// table's range followed by a `NewId` at the destination level.
pub open spec fn output_actions(outs: Seq<SSTable>, dest: u64) -> Seq<ManActionV>
    decreases outs.len(),
{
    if outs.len() == 0 {
        Seq::empty()
    } else {
        seq![
            ManActionV::Add(outs[0].spec_id(), outs[0].records()[0].0, outs[0].records().last().0),
            ManActionV::NewId(dest),
        ] + output_actions(outs.skip(1), dest)
    }
}

/// The retirement records of a compaction's inputs.
pub open spec fn remove_actions(inputs: Seq<SstId>) -> Seq<ManActionV>
    decreases inputs.len(),
{
    if inputs.len() == 0 {
        Seq::empty()
    } else {
        seq![ManActionV::Remove(inputs[0])] + remove_actions(inputs.skip(1))
    }
}

/// One compaction's whole manifest batch: the installations, then the
/// retirements.
pub open spec fn compaction_actions(
    outs: Seq<SSTable>,
    dest: u64,
    inputs: Seq<SstId>,
) -> Seq<ManActionV> {
    output_actions(outs, dest) + remove_actions(inputs)
}

proof fn lemma_output_actions_app(x: Seq<SSTable>, y: Seq<SSTable>, dest: u64)
    ensures
        output_actions(x + y, dest) == output_actions(x, dest) + output_actions(y, dest),
    decreases x.len(),
{
    if x.len() == 0 {
        assert(x + y =~= y);
        assert(output_actions(x, dest) + output_actions(y, dest) =~= output_actions(y, dest));
    } else {
        assert((x + y).skip(1) =~= x.skip(1) + y);
        assert((x + y)[0] == x[0]);
        lemma_output_actions_app(x.skip(1), y, dest);
        let head = seq![
            ManActionV::Add(x[0].spec_id(), x[0].records()[0].0, x[0].records().last().0),
            ManActionV::NewId(dest),
        ];
        assert(head + (output_actions(x.skip(1), dest) + output_actions(y, dest)) =~= (head
            + output_actions(x.skip(1), dest)) + output_actions(y, dest));
    }
}

proof fn lemma_remove_actions_app(x: Seq<SstId>, y: Seq<SstId>)
    ensures
        remove_actions(x + y) == remove_actions(x) + remove_actions(y),
    decreases x.len(),
{
    if x.len() == 0 {
        assert(x + y =~= y);
        assert(remove_actions(x) + remove_actions(y) =~= remove_actions(y));
    } else {
        assert((x + y).skip(1) =~= x.skip(1) + y);
        assert((x + y)[0] == x[0]);
        lemma_remove_actions_app(x.skip(1), y);
        assert(seq![ManActionV::Remove(x[0])] + (remove_actions(x.skip(1)) + remove_actions(y))
            =~= (seq![ManActionV::Remove(x[0])] + remove_actions(x.skip(1))) + remove_actions(
            y,
        ));
    }
}

} // verus!
