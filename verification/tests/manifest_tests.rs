use qikv::manifest::{Manifest, ManifestAction, ManifestKeeper};
use qikv::sstable::SstId;

fn k(b: &[u8]) -> Vec<u8> {
    b.to_vec()
}

#[test]
fn test_new_id() {
    // The allocator hands out consecutive ids per level, starting at zero.
    let mut keeper = ManifestKeeper::new();
    for j in 0..4u64 {
        for i in 0..4u64 {
            keeper.batch_start();
            assert_eq!(
                keeper.catalog().latest_sst_id(j),
                SstId { level: j, id: i },
                "Assigned sst id is wrong. it should be level={j}, id={i}"
            );
            keeper.new_id(j);
            keeper.commit();
        }
    }
}

#[test]
fn test_normal_exit() {
    // Replay a committed manifest log over a snapshot of the empty catalog
    // and compare against the keeper that wrote it.
    let mut actions = Vec::new();
    for i in 0..4u64 {
        actions.push(ManifestAction::NewId((0,)));
        actions.push(ManifestAction::Add((
            SstId { level: 0, id: i },
            k(&[16, i as u8]),
            k(&[17, i as u8]),
        )));
    }
    actions.push(ManifestAction::NextCompact((1,)));
    actions.push(ManifestAction::NewId((1,)));
    actions.push(ManifestAction::Add((SstId { level: 1, id: 0 }, k(&[16]), k(&[17, 9]))));
    for i in 0..4u64 {
        actions.push(ManifestAction::Remove((SstId { level: 0, id: i },)));
    }

    let snapshot = Manifest::new().encode_state();
    let mut keeper = ManifestKeeper::new();
    let mut log: Vec<u8> = Vec::new();
    for a in &actions {
        keeper.add_action(a.clone());
    }
    let (bytes, _removes) = keeper.commit();
    log.extend_from_slice(&bytes);

    let (recovered, keep_len) = ManifestKeeper::recover(&log_reader(&snapshot), &log, 0, 0)
        .expect("(Normal Exit) Recovered manifest is corrupted");
    assert_eq!(keep_len, log.len());
    assert_eq!(recovered.encode_state(), keeper.encode_state());
    assert_eq!(recovered.catalog().active_sst_ids(), vec![SstId { level: 1, id: 0 }]);
}

fn log_reader(bytes: &Vec<u8>) -> Vec<u8> {
    bytes.clone()
}

#[test]
fn snapshot_round_trip() {
    let mut keeper = ManifestKeeper::new();
    keeper.new_id(0);
    keeper.add(SstId { level: 0, id: 0 }, &k(b"aa"), &k(b"mm"));
    keeper.new_id(1);
    keeper.add(SstId { level: 1, id: 1 }, &k(b"nn"), &k(b"zz"));
    keeper.commit();
    let bytes = keeper.encode_state();
    let decoded = Manifest::decode_state(&bytes).expect("a snapshot must decode");
    assert_eq!(decoded.encode_state(), bytes);
    assert_eq!(decoded.active_sst_ids().len(), 2);
}

#[test]
fn routing_by_key_and_overlaps() {
    let mut m = Manifest::new();
    m.add_sst(SstId { level: 1, id: 1 }, &k(b"a"), &k(b"f"));
    m.add_sst(SstId { level: 1, id: 2 }, &k(b"g"), &k(b"p"));
    m.add_sst(SstId { level: 2, id: 1 }, &k(b"c"), &k(b"h"));
    let hits = m.get_sst_by_key(&k(b"g"));
    assert!(hits.contains(&SstId { level: 1, id: 2 }));
    assert!(hits.contains(&SstId { level: 2, id: 1 }));
    assert!(!hits.contains(&SstId { level: 1, id: 1 }));
    // The level-2 neighbour overlapping table one of level 1.
    let ovl = m.get_overlappings(&SstId { level: 1, id: 1 });
    assert_eq!(ovl, vec![SstId { level: 2, id: 1 }]);
    assert_eq!(m.max_level(), 2);
}

#[test]
fn compaction_cursor_rotates_and_wraps() {
    let mut m = Manifest::new();
    m.add_sst(SstId { level: 1, id: 1 }, &k(b"a"), &k(b"c"));
    m.add_sst(SstId { level: 1, id: 2 }, &k(b"d"), &k(b"f"));
    m.add_sst(SstId { level: 1, id: 3 }, &k(b"g"), &k(b"i"));
    // With no cursor the rotation starts at the smallest first key, then
    // walks the level and wraps around.
    let first = m.next_compact_sst(1);
    assert_eq!(first, SstId { level: 1, id: 1 });
    assert_eq!(m.latest_compact_sst(1), SstId { level: 1, id: 1 });
    assert_eq!(m.next_compact_sst(1), SstId { level: 1, id: 2 });
    assert_eq!(m.next_compact_sst(1), SstId { level: 1, id: 3 });
    assert_eq!(m.next_compact_sst(1), SstId { level: 1, id: 1 });
}

#[test]
fn level_sizes_sum_per_level() {
    let m = Manifest::new();
    let sizes = vec![
        (SstId { level: 1, id: 1 }, 100u64),
        (SstId { level: 1, id: 2 }, 50u64),
        (SstId { level: 2, id: 1 }, 7u64),
    ];
    assert_eq!(m.level_byte_size(1, &sizes), 150);
    assert_eq!(m.level_byte_size(2, &sizes), 7);
    assert_eq!(m.level_byte_size(3, &sizes), 0);
}

#[test]
fn snapshot_decode_rejects_corruption() {
    let mut keeper = ManifestKeeper::new();
    keeper.new_id(0);
    keeper.add(SstId { level: 0, id: 0 }, &k(b"aa"), &k(b"mm"));
    keeper.commit();
    let bytes = keeper.encode_state();
    // A flipped count or length prefix no longer serializes any catalog.
    let mut bad = bytes.clone();
    bad[0] = bad[0].wrapping_add(1);
    assert!(Manifest::decode_state(&bad).is_none());
    let cut: Vec<u8> = bytes[..bytes.len() - 1].to_vec();
    assert!(Manifest::decode_state(&cut).is_none());
}
