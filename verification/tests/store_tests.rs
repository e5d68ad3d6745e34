use qikv::memtable::ValueUpdate;
use qikv::sstable::{SSTGroup, SSTable};
use qikv::store::Store;

struct Lcg(u64);

impl Lcg {
    fn next(&mut self) -> u64 {
        self.0 = self.0.wrapping_mul(6364136223846793005).wrapping_add(1442695040888963407);
        self.0 >> 16
    }
}

/// A store harness keeping flushed tables in memory, standing in for the
/// file reads and writes of an embedding application.
struct Harness {
    store: Store,
    tables: Vec<SSTable>,
}

impl Harness {
    fn new() -> Harness {
        Harness { store: Store::new(), tables: Vec::new() }
    }

    fn insert(&mut self, key: Vec<u8>, value: Vec<u8>) {
        let _wal = self.store.insert(key, value);
        self.store.write_confirm();
        self.maybe_flush();
    }

    fn remove(&mut self, key: Vec<u8>) {
        let _wal = self.store.remove(key);
        self.store.write_confirm();
        self.maybe_flush();
    }

    fn maybe_flush(&mut self) {
        if self.store.should_flush() {
            if let Some(table) = self.store.flush_begin() {
                let image = table.file_image();
                let id = *table.get_id();
                let loaded = SSTable::load(&image, id).expect("flushed image must load");
                self.tables.push(loaded);
                let (_log, _removes) = self.store.install_encode();
                self.store.install_confirm();
                self.store.flush_finish();
            }
        }
    }

    fn get(&self, key: &Vec<u8>) -> Option<Vec<u8>> {
        match self.store.get_buffered(key) {
            Some(ValueUpdate::Value(v)) => Some(v.clone()),
            Some(ValueUpdate::Tombstone) => None,
            None => {
                let wanted = self.store.sst_candidates(key);
                let mut picked = Vec::new();
                for t in &self.tables {
                    if wanted.contains(t.get_id()) {
                        let image = t.file_image();
                        picked.push(SSTable::load(&image, *t.get_id()).unwrap());
                    }
                }
                let group = SSTGroup::new(picked);
                match group.get(key) {
                    Some(ValueUpdate::Value(v)) => Some(v),
                    Some(ValueUpdate::Tombstone) | None => None,
                }
            }
        }
    }
}

fn key_of(i: u64) -> Vec<u8> {
    let mut key = vec![b'k'];
    key.extend_from_slice(&i.to_be_bytes());
    key
}

#[test]
fn s1_basic_reads() {
    let mut h = Harness::new();
    h.insert(b"b".to_vec(), vec![1]);
    h.insert(b"a".to_vec(), vec![2]);
    h.insert(b"c".to_vec(), vec![3]);
    assert_eq!(h.get(&b"a".to_vec()), Some(vec![2]));
    assert_eq!(h.get(&b"b".to_vec()), Some(vec![1]));
    assert_eq!(h.get(&b"c".to_vec()), Some(vec![3]));
    assert_eq!(h.get(&b"d".to_vec()), None);
}

#[test]
fn s2_overwrite_and_tombstone() {
    let mut h = Harness::new();
    let k = b"k".to_vec();
    h.insert(k.clone(), b"x".to_vec());
    h.insert(k.clone(), b"y".to_vec());
    h.remove(k.clone());
    assert_eq!(h.get(&k), None);
    h.insert(k.clone(), b"z".to_vec());
    assert_eq!(h.get(&k), Some(b"z".to_vec()));
}

#[test]
fn s3_flush_boundary() {
    // Two hundred writes of ten kibibytes cross the one-mebibyte flush
    // threshold: the memtable empties into one level-0 table and every
    // key still reads back.
    let mut h = Harness::new();
    for i in 0..200u64 {
        h.insert(key_of(i), vec![i as u8; 10240]);
    }
    assert!(!h.tables.is_empty());
    assert_eq!(h.tables[0].get_id().level, 0);
    let live = h.store.catalog().active_sst_ids();
    assert_eq!(live.len(), 1);
    for i in 0..200u64 {
        assert_eq!(h.get(&key_of(i)), Some(vec![i as u8; 10240]));
    }
}

#[test]
fn store_test_complete() {
    // A long random run of insertions and deletions reads back exactly as
    // a model map says it should.
    let mut h = Harness::new();
    let mut model = std::collections::BTreeMap::new();
    let mut rng = Lcg(42);
    for _ in 0..4096 {
        let key = key_of(rng.next() % 600);
        if rng.next() % 5 != 0 {
            let value = vec![rng.next() as u8; 1 + (rng.next() % 4) as usize];
            model.insert(key.clone(), value.clone());
            h.insert(key, value);
        } else {
            model.remove(&key);
            h.remove(key);
        }
    }
    for (i, (k, v)) in model.iter().enumerate() {
        let got = h.get(k);
        assert!(got.is_some(), "Store is missing {i}th pair");
        assert_eq!(got.unwrap(), v.clone(), "Store has incorrect pair");
    }
}

#[test]
fn compaction_triggers() {
    let s = Store::new();
    assert!(s.compaction_due(0, 4, 0));
    assert!(!s.compaction_due(0, 3, 0));
    // Level one trips past ten mebibytes.
    assert!(!s.compaction_due(1, 0, 10 * 1048576));
    assert!(s.compaction_due(1, 0, 10 * 1048576 + 1));
    // Level two trips past one hundred mebibytes.
    assert!(!s.compaction_due(2, 0, 100 * 1048576));
    assert!(s.compaction_due(2, 0, 100 * 1048576 + 1));
    // A level whose threshold exceeds any byte count never trips.
    assert!(!s.compaction_due(25, 0, u64::MAX));
}

#[test]
fn wal_bytes_replay_to_the_same_state() {
    // Recovery equivalence at the store's write path: the bytes handed out
    // by insert and remove rebuild the memtable exactly.
    let mut store = Store::new();
    let mut log: Vec<u8> = Vec::new();
    log.extend_from_slice(&store.insert(b"a".to_vec(), b"1".to_vec()));
    store.write_confirm();
    log.extend_from_slice(&store.insert(b"b".to_vec(), b"2".to_vec()));
    store.write_confirm();
    log.extend_from_slice(&store.remove(b"a".to_vec()));
    store.write_confirm();
    let (recovered, _) = qikv::memtable::MemTableKeeper::recover(&log);
    let entries = recovered.entries_vec();
    assert_eq!(entries.len(), 2);
    assert_eq!(entries[0].0, b"a".to_vec());
    assert_eq!(entries[0].1, ValueUpdate::Tombstone);
    assert_eq!(entries[1].0, b"b".to_vec());
    assert_eq!(entries[1].1, ValueUpdate::Value(b"2".to_vec()));
}

#[test]
fn codec_log_payload_round_trip() {
    let mut buf: Vec<u8> = Vec::new();
    qikv::log::log_append(&mut buf, &b"first".to_vec());
    qikv::log::log_append(&mut buf, &b"second".to_vec());
    let reader = qikv::log::LogReader::from_bytes(buf);
    let mut it = reader.iter();
    assert_eq!(it.next(), Some(b"first".to_vec()));
    assert_eq!(it.next(), Some(b"second".to_vec()));
    assert_eq!(it.next(), None);
}

#[test]
fn aborted_write_stays_invisible() {
    // A staged write whose log append failed is dropped: the in-memory
    // state stays consistent with the durable log.
    let mut store = Store::new();
    let _wal = store.insert(b"a".to_vec(), b"1".to_vec());
    store.write_abort();
    assert!(store.get_buffered(&b"a".to_vec()).is_none());
    let wal = store.insert(b"a".to_vec(), b"2".to_vec());
    store.write_confirm();
    assert_eq!(
        store.get_buffered(&b"a".to_vec()),
        Some(&ValueUpdate::Value(b"2".to_vec()))
    );
    assert!(!wal.is_empty());
}
