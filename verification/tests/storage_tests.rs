use std::collections::{BTreeMap, HashMap};
use strata::storage::bloom::BloomFilter;
use strata::storage::engine::Storage;
use strata::storage::error::StorageError;
use strata::storage::key::MemKey;
use strata::storage::lsm::{make_frozen_path, make_table_path, LsmStorage};
use strata::storage::lsm_model::{DiskOp, Table};
use strata::storage::manifest::{read_manifest, write_manifest, ManifestError};
use strata::storage::memtable::MemTable;
use strata::storage::reader::{scan_sstable, SsTableReader};
use strata::storage::scan::merge_scans;
use strata::storage::skiplist::SkipList;
use strata::storage::sstable::{SsTableWriter, TableError};
use strata::storage::timestamp::HlcTimestamp;
use strata::storage::wal::{encode_record, encode_records, replay, WalRecord};

/// The size of a filter for so many keys, of which this share may wrongly pass.
fn filter_size(n: usize, fpr: f32) -> (usize, usize) {
    let ln2 = std::f32::consts::LN_2;
    let bits = (-(n as f32) * fpr.ln() / (ln2 * ln2)).ceil() as usize;
    let hashes = ((bits as f32 / n as f32) * ln2).round() as usize;
    (bits.max(1), hashes)
}

fn at(physical: u64) -> HlcTimestamp {
    HlcTimestamp { physical, logical: 0 }
}

fn fresh(max_memtable_size: usize) -> LsmStorage<impl Fn(usize) -> (usize, usize)> {
    let mut levels = Vec::new();
    for _ in 0..7 {
        levels.push(Vec::new());
    }
    LsmStorage::open(b"db".to_vec(), 1, levels, Vec::new(), &[], max_memtable_size, |n| {
        filter_size(n.max(1), 0.01)
    })
}

#[test]
fn test_mvcc_snapshot_isolation() {
    let mut storage = fresh(1024 * 1024);
    let t1 = at(10);
    let t1_5 = at(15);
    let t2 = at(20);
    let t3 = at(30);

    storage.put(b"key1", b"v1", t1).unwrap();
    storage.put(b"key1", b"v2", t2).unwrap();

    assert_eq!(storage.get(b"key1", t1).unwrap(), Some(b"v1".to_vec()));
    assert_eq!(storage.get(b"key1", t2).unwrap(), Some(b"v2".to_vec()));
    assert_eq!(storage.get(b"key1", t1_5).unwrap(), Some(b"v1".to_vec()));
    assert_eq!(storage.get(b"key1", t3).unwrap(), Some(b"v2".to_vec()));
    let t0 = at(5);
    assert_eq!(storage.get(b"key1", t0).unwrap(), None);
}

#[test]
fn test_bloom_filter_fpr() {
    let mut keys = Vec::new();
    for i in 0..10000 {
        keys.push(format!("key_{}", i).into_bytes());
    }

    let target_fpr = 0.01;
    let (bits, hashes) = filter_size(keys.len(), target_fpr);
    let bloom = BloomFilter::new(&keys, bits, hashes);

    let mut false_positives = 0;
    let num_queries = 10000;
    for i in 0..num_queries {
        let query = format!("query_{}", i).into_bytes();
        if bloom.contains(&query) {
            false_positives += 1;
        }
    }

    let measured_fpr = false_positives as f32 / num_queries as f32;
    println!("Measured Bloom Filter FPR: {}", measured_fpr);
    assert!(
        measured_fpr <= target_fpr * 1.5,
        "FPR {} exceeded target threshold",
        measured_fpr
    );
}

#[test]
fn test_compaction_respects_watermark() {
    let mut storage = fresh(1024 * 1024);
    let t1 = at(10);
    let t2 = at(20);
    let t3 = at(30);

    storage.put(b"key1", b"v1", t1).unwrap();
    storage.put(b"key1", b"v2", t2).unwrap();
    storage.put(b"key1", b"v3", t3).unwrap();

    storage.flush().unwrap();
    storage.trigger_compaction(0, t2);

    assert_eq!(storage.get(b"key1", t3).unwrap(), Some(b"v3".to_vec()));
    assert_eq!(storage.get(b"key1", t2).unwrap(), Some(b"v2".to_vec()));
    assert_eq!(storage.get(b"key1", t1).unwrap(), None);
}

#[test]
fn what_a_log_holds_is_recovered() {
    let mut log = Vec::new();
    log.extend(encode_record(false, b"a", b"1", at(1)));
    log.extend(encode_record(true, b"a", b"", at(2)));
    let whole = log.len();
    log.extend(encode_record(false, b"b", b"2", at(3)));
    let (all, len) = replay(&log);
    assert_eq!((all.len(), len), (3, log.len()));
    assert!(all[1].is_delete);
    let (some, len) = replay(&log[..log.len() - 1]);
    assert_eq!((some.len(), len), (2, whole));
    log[whole + 9] ^= 1;
    assert_eq!(replay(&log).0.len(), 2);
    assert_eq!(replay(&[]).0.len(), 0);
}

#[test]
fn a_log_record_is_checked() {
    let b = encode_record(false, b"k", b"v", at(7));
    let again = encode_records(&[WalRecord {
        is_delete: false,
        key: b"k".to_vec(),
        value: b"v".to_vec(),
        ts: at(7),
    }]);
    assert_eq!(b, again);
    let mut damaged = 0;
    for i in 0..b.len() {
        let mut c = b.clone();
        c[i] ^= 0x40;
        if replay(&c).0.is_empty() {
            damaged += 1;
        }
    }
    assert_eq!(damaged, b.len());
}

#[test]
fn a_store_is_opened_from_its_log() {
    let mut first = fresh(1 << 20);
    let mut disk = Vec::new();
    for i in 0..200u32 {
        first.put(format!("k{i}").as_bytes(), format!("v{i}").as_bytes(), at(5)).unwrap();
        for op in first.take_pending() {
            if let DiskOp::AppendLog(b) = op {
                disk.extend(b);
            }
        }
    }
    disk.truncate(disk.len() - 3);
    let levels = (0..7).map(|_| Vec::new()).collect();
    let second = LsmStorage::open(b"db".to_vec(), 1, levels, Vec::new(), &disk, 1 << 20, |n| {
        filter_size(n.max(1), 0.01)
    });
    for i in 0..199u32 {
        assert_eq!(second.get(format!("k{i}").as_bytes(), at(9)).unwrap(), Some(format!("v{i}").into_bytes()));
    }
    assert_eq!(second.get(b"k199", at(9)).unwrap(), None);
}

#[test]
fn a_flush_writes_a_table_that_can_be_opened() {
    let mut s = fresh(1 << 20);
    for i in 0..500u32 {
        s.put(format!("k{i:04}").as_bytes(), &[7; 20], at(5)).unwrap();
    }
    s.delete(b"k0003", at(6)).unwrap();
    s.take_pending();
    s.flush().unwrap();
    let ops = s.take_pending();
    let file = ops
        .iter()
        .find_map(|o| match o {
            DiskOp::WriteTable { file, .. } => Some(file.clone()),
            _ => None,
        })
        .unwrap();
    let table = SsTableReader::open(file.clone()).unwrap();
    assert!(table.is_readable() && table.is_consistent());
    assert_eq!(table.get(b"k0004", at(5)), Some(Some(vec![7; 20])));
    assert_eq!(table.get(b"k0003", at(6)), Some(None));
    assert_eq!(table.get(b"k0003", at(5)), Some(Some(vec![7; 20])));
    assert_eq!(table.get(b"zzz", at(9)), None);
    assert_eq!(table.entries().len(), 501);
    assert_eq!(scan_sstable(&table, b"k0001", b"k0003", at(9)).len(), 2);
    assert_eq!(s.get(b"k0004", at(9)).unwrap(), Some(vec![7; 20]));
    assert_eq!(s.get(b"k0003", at(9)).unwrap(), None);
    assert!(matches!(SsTableReader::open(vec![1, 2]), Err(TableError::TooSmall)));
    let mut bad = file.clone();
    let n = bad.len();
    bad[n - 1] ^= 1;
    assert!(matches!(SsTableReader::open(bad), Err(TableError::BadMagic)));
    assert!(ops.iter().any(|o| matches!(o, DiskOp::WriteManifest(_))));
}

#[test]
fn tables_are_written_key_by_key() {
    let mut w = SsTableWriter::new();
    assert!(w.is_empty());
    let key = |k: &[u8], t: u64| MemKey { user_key: k.to_vec(), ts: at(t) };
    w.add(&key(b"a", 2), &Some(b"x".to_vec()));
    w.add(&key(b"a", 1), &None);
    w.add(&key(b"b", 1), &Some(b"y".to_vec()));
    assert_eq!(w.key_count(), 2);
    assert!(w.data_len() > 0);
    let t = SsTableReader::open(w.finish(64, 3)).unwrap();
    assert_eq!(t.min_key.user_key, b"a".to_vec());
    assert_eq!(t.max_key.user_key, b"b".to_vec());
    assert_eq!(t.get(b"a", at(1)), Some(None));
    assert_eq!(t.get(b"a", at(9)), Some(Some(b"x".to_vec())));
    assert!(key(b"a", 2).is_before(&key(b"a", 1)));
    assert!(key(b"a", 1).is_before(&key(b"b", 9)));
}

#[test]
fn compaction_merges_tables_and_drops_what_is_hidden() {
    let mut s = fresh(1 << 20);
    for round in 1..=5u64 {
        for i in 0..50u32 {
            s.put(format!("k{i:02}").as_bytes(), format!("r{round}").as_bytes(), at(round)).unwrap();
        }
        s.flush().unwrap();
    }
    s.trigger_compaction(0, at(5));
    let ops = s.take_pending();
    let removed = ops.iter().filter(|o| matches!(o, DiskOp::Remove(_))).count();
    assert!(removed >= 5);
    for i in 0..50u32 {
        assert_eq!(s.get(format!("k{i:02}").as_bytes(), at(9)).unwrap(), Some(b"r5".to_vec()));
    }
    assert_eq!(s.scan(b"k10", b"k12", at(9)).unwrap().len(), 2);
}

#[test]
fn manifests_are_read_back() {
    let levels = vec![vec![b"a.sst".to_vec()], vec![], vec![b"b.sst".to_vec(), b"c.sst".to_vec()]];
    let b = write_manifest(9, &levels);
    let (id, back) = read_manifest(&b).unwrap();
    assert_eq!(id, 9);
    assert_eq!(back[0], levels[0]);
    assert_eq!(back[2], levels[2]);
    let spaced = "3\n\u{a0}\u{2003} a.sst\t\u{3000},\u{1680}\u{85},\u{2028}b\u{e9}.sst\u{205f}\n";
    let (_, back) = read_manifest(spaced.as_bytes()).unwrap();
    assert_eq!(back[0], vec![b"a.sst".to_vec(), "b\u{e9}.sst".as_bytes().to_vec()]);
    assert_eq!(back.len(), 7);
    assert!(matches!(read_manifest(b""), Err(ManifestError::Empty)));
    assert!(matches!(read_manifest(b"x\n"), Err(ManifestError::BadNumber)));
    assert_eq!(make_table_path(b"db/", 12), b"db/12.sst".to_vec());
    assert_eq!(make_frozen_path(b"db/", 3), b"db/wal_imm_3.log".to_vec());
}

#[test]
fn recent_writes_are_kept_in_order() {
    let mut m = MemTable::new();
    m.put(b"b".to_vec(), b"1".to_vec(), at(1));
    m.put(b"a".to_vec(), b"2".to_vec(), at(2));
    m.put(b"a".to_vec(), b"3".to_vec(), at(3));
    m.delete(b"b".to_vec(), at(4));
    assert!(m.size() > 0);
    assert_eq!(m.get(b"a", at(2)), Some(Some(b"2".to_vec())));
    assert_eq!(m.get(b"b", at(4)), Some(None));
    assert_eq!(m.get(b"c", at(4)), None);
    let order: Vec<(Vec<u8>, u64)> =
        m.iter_all().into_iter().map(|(k, _)| (k.user_key, k.ts.physical)).collect();
    assert_eq!(order, vec![(b"a".to_vec(), 3), (b"a".to_vec(), 2), (b"b".to_vec(), 4), (b"b".to_vec(), 1)]);
    assert_eq!(m.scan(b"a", b"", at(9)).len(), 2);
    m.clear();
    assert_eq!(m.get(b"a", at(9)), None);
    let mut l = SkipList::new();
    for t in 0..100u64 {
        l.insert(MemKey { user_key: vec![(t % 7) as u8], ts: at(t) }, None);
    }
    let all = l.iter_all();
    assert_eq!(all.len(), 100);
    assert!(all.windows(2).all(|w| !w[1].0.is_before(&w[0].0)));
}

#[test]
fn scans_are_merged_and_deletions_hidden() {
    let one = vec![(b"a".to_vec(), Some(b"1".to_vec())), (b"b".to_vec(), None)];
    let two = vec![(b"b".to_vec(), Some(b"2".to_vec())), (b"c".to_vec(), Some(b"3".to_vec()))];
    assert_eq!(
        merge_scans(&[one, two]),
        vec![(b"a".to_vec(), b"1".to_vec()), (b"c".to_vec(), b"3".to_vec())]
    );
}

#[test]
fn a_filter_passes_what_was_put_in() {
    let keys: Vec<Vec<u8>> = (0..50u8).map(|i| vec![i, i]).collect();
    let f = BloomFilter::new(&keys, 512, 4);
    assert!(keys.iter().all(|k| f.contains(k)));
    assert!(!f.contains(b"something else") || !f.contains(b"and again something else"));
    assert_ne!(BloomFilter::hash(b"k", 0), BloomFilter::hash(b"k", 1));
}

#[test]
fn storage_errors_have_messages() {
    assert_eq!(StorageError::Io("x".to_string()).message(), "IO error: x");
    assert_eq!(StorageError::Serialization("x".to_string()).message(), "Serialization error: x");
    assert_eq!(StorageError::VersionConflict.message(), "Version conflict");
    assert_eq!(StorageError::InvalidKey.message(), "Invalid key");
    assert_eq!(StorageError::Other("x".to_string()).message(), "Storage error: x");
}

#[test]
fn times_are_ordered() {
    assert!(at(1).is_before(&at(2)));
    assert!(at(1).is_at_or_before(&at(1)));
    assert!(HlcTimestamp::zero().is_before(&HlcTimestamp { physical: 0, logical: 1 }));
}

#[test]
fn nodes_are_found_by_their_number() {
    let key = |t: u64| MemKey { user_key: b"k".to_vec(), ts: at(t) };
    let mut l = SkipList::new();
    assert_eq!(l.find_greater_or_equal(&key(1)), None);
    l.insert_with_height(key(10), Some(b"ten".to_vec()), 1);
    l.insert_with_height(key(20), None, 3);
    assert_eq!(l.len(), 2);
    assert_eq!(l.find_greater_or_equal(&key(30)), Some(1));
    assert_eq!(l.find_greater_or_equal(&key(20)), Some(1));
    assert_eq!(l.find_greater_or_equal(&key(15)), Some(0));
    assert_eq!(l.find_greater_or_equal(&key(10)), Some(0));
    assert_eq!(l.find_greater_or_equal(&key(5)), None);
}

#[test]
fn recent_writes_are_counted() {
    let mut s = fresh(1 << 20);
    assert_eq!(s.recent_count(), 0);
    s.put(b"a", b"1", at(1)).unwrap();
    s.put(b"a", b"1", at(1)).unwrap();
    s.delete(b"b", at(2)).unwrap();
    assert_eq!(s.recent_count(), 3);
    s.flush().unwrap();
    assert_eq!(s.recent_count(), 0);
}

#[test]
fn every_whole_record_of_a_cut_log_is_recovered() {
    let records: Vec<WalRecord> = (0..6u64)
        .map(|i| WalRecord {
            is_delete: i % 3 == 2,
            key: vec![7; i as usize],
            value: if i % 3 == 2 { vec![] } else { vec![9; 2 * i as usize] },
            ts: at(i),
        })
        .collect();
    let log = encode_records(&records);
    let mut ends = vec![0];
    for n in 1..=records.len() {
        ends.push(encode_records(&records[..n]).len());
    }
    for cut in 0..=log.len() {
        let whole = ends.iter().filter(|e| **e <= cut).count() - 1;
        let (found, len) = replay(&log[..cut]);
        assert_eq!(found.len(), whole);
        assert_eq!(len, ends[whole]);
        for (a, b) in found.iter().zip(&records) {
            assert_eq!((a.is_delete, &a.key, &a.value, a.ts), (b.is_delete, &b.key, &b.value, b.ts));
        }
    }
}

#[test]
fn a_scan_agrees_with_the_reads() {
    let mut s = fresh(600);
    for i in 0..120u64 {
        let key = format!("k{:02}", i * 7 % 40);
        if i % 5 == 4 {
            s.delete(key.as_bytes(), at(i)).unwrap();
        } else {
            s.put(key.as_bytes(), format!("v{i}").as_bytes(), at(i)).unwrap();
        }
    }
    for t in [0, 30, 77, 119, 500] {
        let scanned: BTreeMap<Vec<u8>, Vec<u8>> =
            s.scan(b"k05", b"k31", at(t)).unwrap().into_iter().collect();
        let mut read = BTreeMap::new();
        for i in 5..31 {
            let key = format!("k{i:02}").into_bytes();
            if let Some(v) = s.get(&key, at(t)).unwrap() {
                read.insert(key, v);
            }
        }
        assert_eq!(scanned, read);
    }
}

/// The files of a store.
struct Disk {
    manifest: Option<Vec<u8>>,
    files: HashMap<Vec<u8>, Vec<u8>>,
    active: Vec<u8>,
}

impl Disk {
    fn settle(&mut self, ops: Vec<DiskOp>) {
        for op in ops {
            match op {
                DiskOp::AppendLog(b) => self.active.extend(b),
                DiskOp::FreezeLog(path) => {
                    self.files.insert(path, std::mem::take(&mut self.active));
                }
                DiskOp::ResetLog => self.active.clear(),
                DiskOp::WriteTable { path, file } => {
                    self.files.insert(path, file);
                }
                DiskOp::WriteManifest(b) => self.manifest = Some(b),
                DiskOp::Remove(path) => {
                    self.files.remove(&path);
                }
            }
        }
    }

    /// Carries out the first few, as if the power went off behind them.
    fn settle_some(&mut self, mut ops: Vec<DiskOp>, n: usize) {
        ops.truncate(n);
        self.settle(ops);
    }

    fn frozen(&self) -> Vec<(Vec<u8>, Vec<u8>)> {
        let mut logs: Vec<(Vec<u8>, Vec<u8>)> = self
            .files
            .iter()
            .filter(|(path, _)| path.ends_with(b".log"))
            .map(|(path, log)| (path.clone(), log.clone()))
            .collect();
        logs.sort();
        logs
    }

    fn start(&mut self) -> LsmStorage<impl Fn(usize) -> (usize, usize)> {
        let (next_file_id, listed) = match &self.manifest {
            Some(b) => read_manifest(b).unwrap(),
            None => (1, vec![]),
        };
        let mut levels: Vec<Vec<Table>> = Vec::new();
        for level in listed {
            let mut tables = Vec::new();
            for path in level {
                let reader = SsTableReader::open(self.files[&path].clone()).unwrap();
                tables.push(Table { path, reader });
            }
            levels.push(tables);
        }
        while levels.len() < 7 {
            levels.push(Vec::new());
        }
        let mut s = LsmStorage::open(
            b"db/".to_vec(),
            next_file_id,
            levels,
            self.frozen(),
            &self.active,
            128 << 20,
            |n| filter_size(n.max(1), 0.01),
        );
        self.settle(s.take_pending());
        s
    }
}

#[test]
fn a_store_that_crashes_again_and_again_loses_only_what_was_cut() {
    let mut disk = Disk { manifest: None, files: HashMap::new(), active: Vec::new() };
    let mut oracle: HashMap<Vec<u8>, Vec<u8>> = HashMap::new();
    for run in 0..10u64 {
        let mut s = disk.start();
        for i in 0..5000u64 {
            let key = format!("run_{run}_key_{i}").into_bytes();
            let value = format!("val_{i}").into_bytes();
            s.put(&key, &value, at(i)).unwrap();
        }
        disk.settle(s.take_pending());
        let cut = disk.active.len() * (run as usize * 7 % 10 + 1) / 11 + run as usize;
        disk.active.truncate(cut);
        for record in replay(&disk.active).0 {
            oracle.insert(record.key, record.value);
        }
    }
    let s = disk.start();
    assert!(oracle.len() > 12_500);
    for run in 0..10u64 {
        for i in 0..5000u64 {
            let key = format!("run_{run}_key_{i}").into_bytes();
            let latest = HlcTimestamp { physical: u64::MAX, logical: u32::MAX };
            assert_eq!(s.get(&key, latest).unwrap(), oracle.get(&key).cloned());
        }
    }
}

#[test]
fn a_crash_inside_a_flush_loses_nothing() {
    for done in 0..6usize {
        let mut disk = Disk { manifest: None, files: HashMap::new(), active: Vec::new() };
        let mut s = disk.start();
        for i in 0..60u64 {
            s.put(format!("k{}", i % 20).as_bytes(), format!("v{i}").as_bytes(), at(i)).unwrap();
        }
        disk.settle(s.take_pending());
        s.flush().unwrap();
        disk.settle_some(s.take_pending(), done);
        let mut again = disk.start();
        for k in 0..20u64 {
            let key = format!("k{k}");
            let newest = format!("v{}", k + 40).into_bytes();
            let oldest = format!("v{k}").into_bytes();
            assert_eq!(again.get(key.as_bytes(), at(99)).unwrap(), Some(newest));
            assert_eq!(again.get(key.as_bytes(), at(19)).unwrap(), Some(oldest));
        }
        again.put(b"k7", b"new", at(70)).unwrap();
        disk.settle(again.take_pending());
        let last = disk.start();
        assert_eq!(last.get(b"k7", at(99)).unwrap(), Some(b"new".to_vec()));
        assert_eq!(last.get(b"k7", at(69)).unwrap(), Some(b"v47".to_vec()));
        assert!(disk.frozen().is_empty());
    }
}

#[test]
fn reads_stay_the_same_while_levels_move_down() {
    let mut s = fresh(400);
    for i in 0..300u64 {
        let key = format!("k{:02}", i * 11 % 37);
        if i % 9 == 8 {
            s.delete(key.as_bytes(), at(i)).unwrap();
        } else {
            s.put(key.as_bytes(), format!("v{i}").as_bytes(), at(i)).unwrap();
        }
    }
    let mut before = BTreeMap::new();
    for k in 0..40 {
        for t in [250u64, 275, 299, 400] {
            let key = format!("k{k:02}").into_bytes();
            before.insert((key.clone(), t), s.get(&key, at(t)).unwrap());
        }
    }
    for level in 0..6 {
        s.trigger_compaction(level, at(250));
        for ((key, t), value) in &before {
            assert_eq!(&s.get(key, at(*t)).unwrap(), value);
        }
        let shown = s.scan(b"", b"", at(299)).unwrap();
        let read: Vec<(Vec<u8>, Vec<u8>)> = before
            .iter()
            .filter(|((_, t), _)| *t == 299)
            .filter_map(|((key, _), value)| value.clone().map(|v| (key.clone(), v)))
            .collect();
        assert_eq!(shown, read);
        s.put(b"k01", format!("again{level}").as_bytes(), at(500 + level as u64)).unwrap();
        s.flush().unwrap();
    }
    assert_eq!(s.get(b"k01", at(600)).unwrap(), Some(b"again5".to_vec()));
}

#[test]
fn a_written_table_opens_with_its_range_its_blocks_and_its_filter() {
    let mut w = SsTableWriter::new();
    let mut written = Vec::new();
    for i in 0..400u64 {
        let key = MemKey { user_key: format!("k{:03}", i / 2).into_bytes(), ts: at(9 - i % 2) };
        let value = if i % 7 == 3 { None } else { Some(vec![i as u8; 30]) };
        w.add(&key, &value);
        written.push((key.user_key, key.ts, value));
    }
    let t = SsTableReader::open(w.finish(4000, 5)).unwrap();
    assert_eq!((t.min_key.user_key.clone(), t.min_key.ts), (b"k000".to_vec(), at(9)));
    assert_eq!((t.max_key.user_key.clone(), t.max_key.ts), (b"k199".to_vec(), at(8)));
    assert!(t.index.len() > 1);
    let mut read = Vec::new();
    for i in 0..t.index.len() {
        let block = t.read_block_entries(i);
        assert_eq!(t.index[i].first_key.user_key, block[0].0.user_key);
        assert_eq!(t.index[i].first_key.ts, block[0].0.ts);
        read.extend(block.into_iter().map(|(k, v)| (k.user_key, k.ts, v)));
    }
    assert_eq!(read, written);
    for (key, ts, value) in written {
        assert!(t.bloom.contains(&key));
        assert_eq!(t.get(&key, ts), Some(value));
    }
}
