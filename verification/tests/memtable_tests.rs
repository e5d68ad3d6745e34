use qikv::memtable::{MemTableAction, MemTableKeeper, ValueUpdate};

fn key_of(i: u64) -> Vec<u8> {
    let mut k = vec![b'k'];
    k.extend_from_slice(&i.to_be_bytes());
    k
}

fn value_of(i: u64) -> Vec<u8> {
    let mut v = vec![b'v'];
    v.extend_from_slice(&i.to_le_bytes());
    v
}

/// A small linear congruential generator for deterministic variety.
struct Lcg(u64);

impl Lcg {
    fn next(&mut self) -> u64 {
        self.0 = self.0.wrapping_mul(6364136223846793005).wrapping_add(1442695040888963407);
        self.0 >> 16
    }
}

#[test]
fn test_recovery() {
    // Drive a keeper through many committed batches, keeping the byte log
    // it hands out; stop with a batch staged but never committed, then
    // replay the log and compare.
    let mut keeper = MemTableKeeper::new();
    let mut log: Vec<u8> = Vec::new();
    let mut rng = Lcg(7);
    for i in 0..1024u64 {
        let key = key_of(rng.next() % 512);
        let update = if rng.next() % 5 == 0 {
            ValueUpdate::Tombstone
        } else {
            ValueUpdate::Value(value_of(rng.next() % 1024))
        };
        keeper.insert(key, update);
        if i % 16 == 0 {
            let bytes = keeper.commit();
            log.extend_from_slice(&bytes);
        }
        if i == 1000 {
            // The last group is staged but its commit marker never
            // reaches the log.
            break;
        }
    }
    assert!(!keeper.is_empty(), "Memtable shouldn't be empty");
    let (recovered, keep_len) = MemTableKeeper::recover(&log);
    assert_eq!(keep_len, log.len());
    let a = keeper.entries_vec();
    let b = recovered.entries_vec();
    assert_eq!(a, b, "Recovered memtable has inconsistent data");
}

#[test]
fn torn_batch_discards_partial_group() {
    let mut keeper = MemTableKeeper::new();
    let mut log: Vec<u8> = Vec::new();
    keeper.insert(key_of(1), ValueUpdate::Value(value_of(1)));
    log.extend_from_slice(&keeper.commit());
    let committed_len = log.len();
    keeper.insert(key_of(2), ValueUpdate::Value(value_of(2)));
    log.extend_from_slice(&keeper.commit());
    // Kill the process at every byte offset inside the second batch: only
    // the first batch must survive.
    for cut in committed_len..log.len() {
        let torn: Vec<u8> = log[..cut].to_vec();
        let (recovered, keep_len) = MemTableKeeper::recover(&torn);
        assert_eq!(keep_len, committed_len);
        let entries = recovered.entries_vec();
        assert_eq!(entries.len(), 1);
        assert_eq!(entries[0].0, key_of(1));
    }
    // The full log replays both batches.
    let (recovered, keep_len) = MemTableKeeper::recover(&log);
    assert_eq!(keep_len, log.len());
    assert_eq!(recovered.entries_vec().len(), 2);
}

#[test]
fn overwrite_and_tombstone() {
    let mut keeper = MemTableKeeper::new();
    let k = key_of(9);
    keeper.insert(k.clone(), ValueUpdate::Value(b"x".to_vec()));
    keeper.commit();
    keeper.insert(k.clone(), ValueUpdate::Value(b"y".to_vec()));
    keeper.commit();
    keeper.insert(k.clone(), ValueUpdate::Tombstone);
    keeper.commit();
    assert_eq!(keeper.get(&k), Some(&ValueUpdate::Tombstone));
    keeper.insert(k.clone(), ValueUpdate::Value(b"z".to_vec()));
    keeper.commit();
    assert_eq!(keeper.get(&k), Some(&ValueUpdate::Value(b"z".to_vec())));
    assert_eq!(keeper.len(), 1);
}

#[test]
fn commit_marker_groups_actions() {
    // A batch is applied only as a whole.
    let mut keeper = MemTableKeeper::new();
    keeper.add_action(MemTableAction::Insert((key_of(1), ValueUpdate::Value(value_of(1)))));
    keeper.add_action(MemTableAction::Insert((key_of(2), ValueUpdate::Value(value_of(2)))));
    assert_eq!(keeper.len(), 0);
    keeper.commit();
    assert_eq!(keeper.len(), 2);
}
