use qikv::manifest::Manifest;
use qikv::memtable::{MemTableKeeper, ValueUpdate};
use qikv::sstable::{SSTGroup, SSTLevelGroup, SSTable, SstId};

fn key_of(i: u64) -> Vec<u8> {
    let mut k = vec![b'k'];
    k.extend_from_slice(&i.to_be_bytes());
    k
}

fn value_of(i: u64) -> Vec<u8> {
    let mut v = vec![b'v'];
    v.extend_from_slice(&i.to_le_bytes());
    v
}

struct Lcg(u64);

impl Lcg {
    fn next(&mut self) -> u64 {
        self.0 = self.0.wrapping_mul(6364136223846793005).wrapping_add(1442695040888963407);
        self.0 >> 16
    }
}

fn build_table_in(seed: u64, count: u64, level: u64, id: u64, base: u64) -> SSTable {
    let mut keeper = MemTableKeeper::new();
    let mut rng = Lcg(seed);
    for _ in 0..count {
        let key = key_of(base + rng.next() % 512);
        let update = if rng.next() % 2 == 0 {
            ValueUpdate::Tombstone
        } else {
            ValueUpdate::Value(value_of(rng.next() % 1024))
        };
        keeper.insert(key, update);
        keeper.commit();
    }
    let entries = keeper.entries_vec();
    SSTable::build(&entries, SstId { level, id })
}

fn build_table(seed: u64, count: u64, level: u64, id: u64) -> SSTable {
    build_table_in(seed, count, level, id, 0)
}

#[test]
fn write_flush_read() {
    // Flush a memtable image to a file image, load it back, and compare
    // both the record stream and every point lookup.
    let mut keeper = MemTableKeeper::new();
    let mut rng = Lcg(3);
    for _ in 0..512 {
        let key = key_of(rng.next() % 300);
        let update = if rng.next() % 2 == 0 {
            ValueUpdate::Tombstone
        } else {
            ValueUpdate::Value(value_of(rng.next() % 1024))
        };
        keeper.insert(key, update);
        keeper.commit();
    }
    let entries = keeper.entries_vec();
    let table = SSTable::build(&entries, SstId { level: 0, id: 0 });
    let image = table.file_image();
    let loaded = SSTable::load(&image, SstId { level: 0, id: 0 })
        .expect("a freshly built image must load");
    assert_eq!(loaded.records_vec(), entries);
    for (k, v) in &entries {
        let got = loaded.get(k).expect("No requested key in SSTable according to SSTable::get()");
        assert_eq!(&got, v, "Some pair is missing in the loaded SST file according to SSTable::get()");
    }
    // A key that was never written is absent.
    assert!(loaded.get(&key_of(100000)).is_none());
}

#[test]
fn load_rejects_corrupt_images() {
    let table = build_table(11, 64, 0, 0);
    let image = table.file_image();
    // Too short for a tail.
    assert!(SSTable::load(&vec![1, 2, 3], SstId { level: 0, id: 0 }).is_none());
    // A flipped byte in the records section breaks a length prefix or a
    // key and is rejected by validation wherever it does not decode.
    let mut bad = image.clone();
    bad[0] = bad[0].wrapping_add(1);
    assert!(SSTable::load(&bad, SstId { level: 0, id: 0 }).is_none());
    // A truncated image is rejected.
    let cut: Vec<u8> = image[..image.len() - 1].to_vec();
    assert!(SSTable::load(&cut, SstId { level: 0, id: 0 }).is_none());
}

#[test]
fn test_compaction() {
    // Merging four level-0 tables keeps exactly the union of their data,
    // youngest table winning on a shared key.
    let mut tables = Vec::new();
    for id in 0..4u64 {
        tables.push(build_table(100 + id, 256, 0, id));
    }
    let group = SSTGroup::new(tables);
    let merged = group.merged_entries();
    let outputs = group.compact(1, 1, false);
    let mut flat = Vec::new();
    for t in &outputs {
        flat.extend(t.records_vec());
    }
    assert_eq!(flat, merged, "SSTables files not equal after compaction");
    // The group answers every merged key with the merged value.
    for (k, v) in &merged {
        assert_eq!(group.get(k), Some(v.clone()));
    }
}

#[test]
fn purge_drops_tombstones_at_deepest_level() {
    let mut tables = Vec::new();
    for id in 0..3u64 {
        tables.push(build_table(50 + id, 200, 0, id));
    }
    let group = SSTGroup::new(tables);
    let merged = group.merged_entries();
    assert!(merged.iter().any(|(_, v)| matches!(v, ValueUpdate::Tombstone)));
    let outputs = group.compact(1, 1, true);
    for t in &outputs {
        for (_, v) in t.records_vec() {
            assert!(!matches!(v, ValueUpdate::Tombstone));
        }
    }
    // Every non-tombstone record survives.
    let mut flat = Vec::new();
    for t in &outputs {
        flat.extend(t.records_vec());
    }
    let kept: Vec<_> = merged
        .iter()
        .filter(|(_, v)| !matches!(v, ValueUpdate::Tombstone))
        .cloned()
        .collect();
    assert_eq!(flat, kept);
}

#[test]
fn test_lazy_iter() {
    // The lazy level cursor, fed one loaded table at a time, yields the
    // same records as eager loading.
    // Two tables with disjoint ranges, as one level past the first holds.
    let a = build_table_in(7, 128, 1, 1, 0);
    let b = build_table_in(8, 128, 1, 2, 1000);
    let mut eager = Vec::new();
    eager.extend(a.records_vec());
    eager.extend(b.records_vec());
    let mut catalog = Manifest::new();
    let am = a.metadata();
    let bm = b.metadata();
    catalog.add_sst(SstId { level: 1, id: 1 }, &am.first_key, &am.last_key);
    catalog.add_sst(SstId { level: 1, id: 2 }, &bm.first_key, &bm.last_key);
    let level = SSTLevelGroup::new(
        vec![SstId { level: 1, id: 1 }, SstId { level: 1, id: 2 }],
        &catalog,
    );
    let mut it = level.iter();
    let mut lazy = Vec::new();
    let images = [a.file_image(), b.file_image()];
    let ids = [SstId { level: 1, id: 1 }, SstId { level: 1, id: 2 }];
    loop {
        match it.next() {
            Some(kv) => lazy.push(kv),
            None => match it.next_wanted() {
                None => break,
                Some(id) => {
                    let slot = ids.iter().position(|x| *x == id).unwrap();
                    let t = SSTable::load(&images[slot], id).unwrap();
                    it.provide(t);
                }
            },
        }
    }
    assert_eq!(lazy, eager, "Lazy loading iterator emits different data from eager one");
}

#[test]
fn test_level_iterator() {
    // A merged group cursor agrees with the merged record list.
    let mut tables = Vec::new();
    for id in 0..4u64 {
        tables.push(build_table(30 + id, 200, 0, id));
    }
    let group = SSTGroup::new(tables);
    let merged = group.merged_entries();
    let mut it = group.iter();
    let mut seen = Vec::new();
    while let Some(kv) = it.next() {
        seen.push(kv);
    }
    assert_eq!(seen, merged);
}

#[test]
fn split_respects_file_budget() {
    // Values of sixteen kibibytes force the merge to split its output.
    let mut keeper = MemTableKeeper::new();
    for i in 0..400u64 {
        keeper.insert(key_of(i), ValueUpdate::Value(vec![7u8; 16384]));
        keeper.commit();
    }
    let entries = keeper.entries_vec();
    let table = SSTable::build(&entries, SstId { level: 0, id: 0 });
    let group = SSTGroup::new(vec![table]);
    let outputs = group.compact(1, 1, false);
    assert!(outputs.len() > 1);
    let mut total = 0;
    for t in &outputs {
        total += t.records_vec().len();
    }
    assert_eq!(total, 400);
}
