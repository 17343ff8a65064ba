use std::collections::BTreeMap;

use bitcask_kv::batch::{txn_fin_record, txn_record, WriteBatch};
use bitcask_kv::data_file::{get_data_file_name, parse_decimal, u64_to_decimal};
use bitcask_kv::engine::{new_put_record, value_of_record, EngineCore};
use bitcask_kv::errors::Errors;
use bitcask_kv::index::{BTree, Indexer};
use bitcask_kv::log_record::{
    decode_log_record_body, decode_log_record_header, decode_log_record_pos, max_log_record_header_size,
    LogRecord, LogRecordPos,
};
use bitcask_kv::merge::{
    check_write_batch, first_unmerged, hint_record, is_merge_fin_file, merge_boundary, merge_check, merge_fin_record, merge_rewrite_record,
    merge_dir_name, parse_data_file_id, parse_decimal_record, seq_no_record, should_move_merged_file,
    sorted_file_ids,
};
use bitcask_kv::options::{check_options, IndexType, MergeRatio, Options, WriteBatchOptions};

fn read_at(buf: &[u8], offset: usize) -> Result<(LogRecord, usize), Errors> {
    let mut header = vec![0u8; max_log_record_header_size()];
    for i in 0..header.len() {
        if offset + i < buf.len() {
            header[i] = buf[offset + i];
        }
    }
    let h = decode_log_record_header(&header)?;
    let start = offset + h.header_size;
    let end = start + h.key_size + h.value_size + 4;
    if end > buf.len() {
        return Err(Errors::ReadDataFileEof);
    }
    let r = decode_log_record_body(&header, &h, &buf[start..end])?;
    Ok((r.record, r.size))
}

/// A store whose data files live in memory: it performs the appends, reads
/// and scans that the engine core decides on.
struct MemStore {
    files: BTreeMap<u32, Vec<u8>>,
    core: EngineCore<BTree>,
}

impl MemStore {
    fn open(files: BTreeMap<u32, Vec<u8>>, opts: &Options) -> MemStore {
        Self::open_with_hints(files, opts, &[], 0)
    }

    fn open_with_hints(mut files: BTreeMap<u32, Vec<u8>>, opts: &Options, hint: &[u8], boundary: u32) -> MemStore {
        let ids: Vec<u32> = files.keys().copied().collect();
        let sorted = sorted_file_ids(&ids);
        let (active, older) = match sorted.split_last() {
            Some((a, rest)) => (*a, rest.to_vec()),
            None => (0, Vec::new()),
        };
        files.entry(active).or_default();
        let mut core = EngineCore::new(BTree::new(), opts, active, older, 1);
        let mut off = 0;
        while let Ok((rec, size)) = read_at(hint, off) {
            core.load_hint_entry(rec.key, decode_log_record_pos(&rec.value).unwrap());
            off += size;
        }
        for id in sorted.iter().filter(|id| **id >= boundary) {
            let data = &files[id];
            let mut offset = 0usize;
            loop {
                match read_at(data, offset) {
                    Ok((rec, size)) => {
                        core.load_record(*id, offset as u64, rec, size as u32).unwrap();
                        offset += size;
                    },
                    Err(Errors::ReadDataFileEof) => break,
                    Err(e) => panic!("scan failed: {:?}", e),
                }
            }
        }
        let end = files[&active].len() as u64;
        core.finish_load(end);
        MemStore { files, core }
    }

    fn append(&mut self, rec: &LogRecord) -> LogRecordPos {
        let enc = rec.encode();
        let plan = self.core.plan_append(enc.len() as u32);
        if plan.rotate {
            self.files.insert(plan.pos.file_id, Vec::new());
        }
        let f = self.files.get_mut(&plan.pos.file_id).unwrap();
        assert_eq!(f.len() as u64, plan.pos.offset);
        f.extend_from_slice(&enc);
        plan.pos
    }

    fn put(&mut self, k: &[u8], v: &[u8]) -> Result<(), Errors> {
        let rec = new_put_record(k, v)?;
        let pos = self.append(&rec);
        self.core.finish_put(k.to_vec(), pos);
        Ok(())
    }

    fn get(&self, k: &[u8]) -> Result<Vec<u8>, Errors> {
        let pos = self.core.lookup_key(k.to_vec())?;
        self.core.locate_file(pos.file_id)?;
        let (rec, _) = read_at(&self.files[&pos.file_id], pos.offset as usize)?;
        value_of_record(rec)
    }

    fn delete(&mut self, k: &[u8]) -> Result<(), Errors> {
        match self.core.prepare_delete(k)? {
            None => Ok(()),
            Some(rec) => {
                let pos = self.append(&rec);
                self.core.finish_delete(k.to_vec(), pos);
                Ok(())
            },
        }
    }

    fn commit(&mut self, batch: &mut WriteBatch, finish: bool) -> Result<(), Errors> {
        match self.core.begin_commit(batch)? {
            None => Ok(()),
            Some(seq) => {
                let records = batch.commit_records(seq);
                let mut positions = Vec::new();
                for rec in &records[..records.len() - 1] {
                    positions.push(self.append(rec));
                }
                if !finish {
                    return Ok(());
                }
                let fin = self.append(&records[records.len() - 1]);
                self.core.finish_commit(batch, seq, &positions, fin);
                batch.clear();
                Ok(())
            },
        }
    }

    fn disk_size(&self) -> u64 {
        self.files.values().map(|f| f.len() as u64).sum()
    }
}

fn opts(size: u64) -> Options {
    let mut o = Options::default();
    o.data_file_size = size;
    o
}

#[test]
fn crash_between_put_and_close_keeps_both_writes() {
    let o = opts(64 * 1024 * 1024);
    let mut s = MemStore::open(BTreeMap::new(), &o);
    s.put(b"a", b"1").unwrap();
    s.put(b"b", b"2").unwrap();
    let s2 = MemStore::open(s.files.clone(), &o);
    assert_eq!(s2.get(b"a").unwrap(), b"1".to_vec());
    assert_eq!(s2.get(b"b").unwrap(), b"2".to_vec());
}

#[test]
fn torn_batch_is_invisible_after_reopen() {
    let o = opts(64 * 1024 * 1024);
    let mut s = MemStore::open(BTreeMap::new(), &o);
    let mut wb = WriteBatch::new(WriteBatchOptions::default());
    wb.put(b"x".to_vec(), b"1".to_vec()).unwrap();
    wb.put(b"y".to_vec(), b"2".to_vec()).unwrap();
    s.commit(&mut wb, false).unwrap();
    let s2 = MemStore::open(s.files.clone(), &o);
    assert_eq!(s2.get(b"x"), Err(Errors::KeyNotFound));
    assert_eq!(s2.get(b"y"), Err(Errors::KeyNotFound));
}

#[test]
fn committed_batch_is_visible_and_survives_reopen() {
    let o = opts(64 * 1024 * 1024);
    let mut s = MemStore::open(BTreeMap::new(), &o);
    s.put(b"gone", b"0").unwrap();
    let mut wb = WriteBatch::new(WriteBatchOptions::default());
    wb.put(b"k1".to_vec(), b"v1".to_vec()).unwrap();
    wb.put(b"k2".to_vec(), b"v2".to_vec()).unwrap();
    wb.put(b"k1".to_vec(), b"v1b".to_vec()).unwrap();
    wb.delete(b"gone".to_vec(), s.core.index()).unwrap();
    wb.delete(b"never".to_vec(), s.core.index()).unwrap();
    assert_eq!(wb.len(), 3);
    assert_eq!(s.get(b"k1"), Err(Errors::KeyNotFound));
    s.commit(&mut wb, true).unwrap();
    assert_eq!(s.core.seq_no(), 2);
    assert_eq!(s.get(b"k1").unwrap(), b"v1b".to_vec());
    assert_eq!(s.get(b"gone"), Err(Errors::KeyNotFound));
    let s2 = MemStore::open(s.files.clone(), &o);
    assert_eq!(s2.get(b"k1").unwrap(), b"v1b".to_vec());
    assert_eq!(s2.get(b"k2").unwrap(), b"v2".to_vec());
    assert_eq!(s2.get(b"gone"), Err(Errors::KeyNotFound));
    assert_eq!(s2.core.seq_no(), 2);
}

#[test]
fn batch_rules() {
    let o = opts(1024);
    let mut s = MemStore::open(BTreeMap::new(), &o);
    let mut wb = WriteBatch::new(WriteBatchOptions { max_batch_num: 1, sync_writes: false });
    assert_eq!(wb.put(Vec::new(), b"v".to_vec()), Err(Errors::KeyIsEmpty));
    assert_eq!(s.commit(&mut wb, true), Ok(()));
    assert_eq!(s.core.seq_no(), 1);
    wb.put(b"a".to_vec(), b"1".to_vec()).unwrap();
    wb.put(b"b".to_vec(), b"2".to_vec()).unwrap();
    assert_eq!(s.commit(&mut wb, true), Err(Errors::ExceedMaxBatchNum));
}

#[test]
fn segment_rollover_makes_many_files() {
    let o = opts(128);
    let mut s = MemStore::open(BTreeMap::new(), &o);
    for i in 0..10 {
        let key = format!("key-{:060}", i);
        s.put(key.as_bytes(), b"value").unwrap();
    }
    assert!(s.files.len() >= 5);
    let s2 = MemStore::open(s.files.clone(), &o);
    for i in 0..10 {
        let key = format!("key-{:060}", i);
        assert_eq!(s2.get(key.as_bytes()).unwrap(), b"value".to_vec());
    }
    assert_eq!(s2.core.stat(0).data_file_num, s.files.len());
}

#[test]
fn read_your_writes_and_delete_semantics() {
    let o = opts(1024);
    let mut s = MemStore::open(BTreeMap::new(), &o);
    assert_eq!(s.put(b"", b"v"), Err(Errors::KeyIsEmpty));
    assert_eq!(s.get(b""), Err(Errors::KeyIsEmpty));
    s.put(b"k", b"v1").unwrap();
    assert_eq!(s.get(b"k").unwrap(), b"v1".to_vec());
    s.put(b"k", b"v2").unwrap();
    assert_eq!(s.get(b"k").unwrap(), b"v2".to_vec());
    s.delete(b"k").unwrap();
    assert_eq!(s.get(b"k"), Err(Errors::KeyNotFound));
    let before = s.disk_size();
    s.delete(b"nothing").unwrap();
    assert_eq!(s.disk_size(), before);
    assert_eq!(s.delete(b""), Err(Errors::KeyIsEmpty));
    // The first value, the overwrite and its tombstone are reclaimable.
    let first = new_put_record(b"k", b"v1").unwrap().encode().len() as u64;
    let second = new_put_record(b"k", b"v2").unwrap().encode().len() as u64;
    let tomb = s.core.reclaim_size() - first - second;
    assert!(tomb > 0);
    let st = s.core.stat(before);
    assert_eq!(st.key_num, 0);
    assert_eq!(st.reclaim_size, first + second + tomb);
    assert_eq!(st.disk_size, before);
}

#[test]
fn reopen_keeps_map_and_sequence_number() {
    let o = opts(200);
    let mut s = MemStore::open(BTreeMap::new(), &o);
    for i in 0..20u32 {
        s.put(format!("k{}", i % 7).as_bytes(), format!("v{}", i).as_bytes()).unwrap();
    }
    s.delete(b"k3").unwrap();
    let mut wb = WriteBatch::new(WriteBatchOptions::default());
    wb.put(b"k0".to_vec(), b"batch".to_vec()).unwrap();
    s.commit(&mut wb, true).unwrap();
    let s2 = MemStore::open(s.files.clone(), &o);
    assert_eq!(s2.core.seq_no(), s.core.seq_no());
    assert_eq!(s2.core.reclaim_size(), s.core.reclaim_size());
    assert_eq!(s2.core.index().list_keys(), s.core.index().list_keys());
    for k in ["k0", "k1", "k2", "k3", "k4", "k5", "k6"] {
        assert_eq!(s2.get(k.as_bytes()), s.get(k.as_bytes()));
    }
}

#[test]
fn merge_with_overwrites_keeps_the_live_set() {
    let o = opts(64 * 1024);
    let mut s = MemStore::open(BTreeMap::new(), &o);
    for i in 0..1000 {
        s.put(format!("key-{:05}", i).as_bytes(), b"v1").unwrap();
    }
    for i in 0..200 {
        s.put(format!("key-{:05}", i).as_bytes(), b"v2").unwrap();
    }
    for i in 900..1000 {
        s.delete(format!("key-{:05}", i).as_bytes()).unwrap();
    }
    let before = s.disk_size();
    let ratio = MergeRatio { numerator: 0, denominator: 1 };
    assert_eq!(merge_check(s.core.reclaim_size(), before, u64::MAX, ratio), Ok(true));

    let merged_ids = s.core.rotate_for_merge();
    s.files.entry(s.core.active_file_id()).or_default();
    let boundary = merge_boundary(&merged_ids);
    let mut inner = MemStore::open(BTreeMap::new(), &o);
    let mut hint = Vec::new();
    for id in &merged_ids {
        let data = s.files[id].clone();
        let mut off = 0;
        while let Ok((rec, size)) = read_at(&data, off) {
            let (raw, _) = bitcask_kv::batch::parse_log_record_key(&rec.key).unwrap();
            if s.core.is_live(raw.clone(), *id, off as u64) {
                let rewritten = merge_rewrite_record(&raw, rec);
                let pos = inner.append(&rewritten);
                hint.extend_from_slice(&hint_record(raw, pos).encode());
            }
            off += size;
        }
    }
    let fin = merge_fin_record(boundary);
    assert_eq!(parse_decimal_record(&fin), Ok(boundary as u64));

    // Install: drop merged files, bring in the rewritten ones, reopen from the hint.
    let mut files: BTreeMap<u32, Vec<u8>> = s.files.iter().filter(|(id, _)| **id >= boundary).map(|(k, v)| (*k, v.clone())).collect();
    for (id, data) in inner.files {
        if !data.is_empty() {
            files.insert(id, data);
        }
    }
    let s2 = MemStore::open_with_hints(files, &o, &hint, boundary);
    assert_eq!(s2.core.index().list_keys().len(), 900);
    for i in 0..200 {
        assert_eq!(s2.get(format!("key-{:05}", i).as_bytes()).unwrap(), b"v2".to_vec());
    }
    for i in 200..900 {
        assert_eq!(s2.get(format!("key-{:05}", i).as_bytes()).unwrap(), b"v1".to_vec());
    }
    for i in 900..1000 {
        assert_eq!(s2.get(format!("key-{:05}", i).as_bytes()), Err(Errors::KeyNotFound));
    }
    assert!(s2.disk_size() < before);
}

#[test]
fn merge_check_rules() {
    let half = MergeRatio { numerator: 1, denominator: 2 };
    assert_eq!(merge_check(0, 0, 10, half), Ok(false));
    assert_eq!(merge_check(49, 100, 1000, half), Err(Errors::MergeRatioUnreached));
    assert_eq!(merge_check(50, 100, 50, half), Err(Errors::MergeNoEnoughSpace));
    assert_eq!(merge_check(50, 100, 51, half), Ok(true));
    assert_eq!(merge_check(u64::MAX, u64::MAX, 1, MergeRatio { numerator: u64::MAX, denominator: u64::MAX }), Ok(true));
}

#[test]
fn write_batch_with_persistent_index_needs_fresh_or_clean_dir() {
    assert_eq!(check_write_batch(IndexType::BPTree, false, true), Ok(()));
    assert_eq!(check_write_batch(IndexType::BPTree, false, false), Err(Errors::UnableToUseWriteBatch));
    assert_eq!(check_write_batch(IndexType::BPTree, true, false), Ok(()));
    assert_eq!(check_write_batch(IndexType::BTree, false, false), Ok(()));
}

#[test]
fn option_checks() {
    let mut o = Options::default();
    assert_eq!(check_options(&o), None);
    o.dir_path = String::new();
    assert_eq!(check_options(&o), Some(Errors::DirPathIsEmpty));
    o.dir_path = "/tmp/x".to_string();
    o.data_file_size = 0;
    assert_eq!(check_options(&o), Some(Errors::DataFileSizeTooSmall));
    o.data_file_size = 1;
    o.data_file_merge_ratio = MergeRatio { numerator: 3, denominator: 2 };
    assert_eq!(check_options(&o), Some(Errors::InvalidDataFileMergeRatio));
}

#[test]
fn file_names_and_markers() {
    assert_eq!(get_data_file_name(0), "000000000.data");
    assert_eq!(get_data_file_name(660), "000000660.data");
    assert_eq!(get_data_file_name(u32::MAX), "4294967295.data");
    assert_eq!(parse_data_file_id(b"000000660.data"), Ok(Some(660)));
    assert_eq!(parse_data_file_id(b"hint-index"), Ok(None));
    assert_eq!(parse_data_file_id(b"x1.data"), Err(Errors::DataDirCorrupted));
    assert_eq!(parse_data_file_id(b"99999999999.data"), Err(Errors::DataDirCorrupted));
    assert!(should_move_merged_file(b"000000001.data"));
    assert!(should_move_merged_file(b"hint-index"));
    assert!(!should_move_merged_file(b"flock"));
    assert!(!should_move_merged_file(b"seq-no"));
    let rec = seq_no_record(1234);
    assert_eq!(rec.key, b"seq.no".to_vec());
    assert_eq!(rec.value, b"1234".to_vec());
    assert_eq!(parse_decimal_record(&rec), Ok(1234));
    assert_eq!(u64_to_decimal(u64::MAX), u64::MAX.to_string().into_bytes());
    assert_eq!(parse_decimal(b"18446744073709551616"), None);
    assert_eq!(parse_decimal(b"12a"), None);
    assert_eq!(parse_decimal(b""), None);
    assert_eq!(sorted_file_ids(&vec![5, 1, 3, 1]), vec![1, 3, 5]);
}

#[test]
fn sync_decisions() {
    let mut o = opts(1 << 20);
    o.bytes_per_sync = 100;
    let mut core = EngineCore::new(BTree::new(), &o, 0, Vec::new(), 1);
    core.finish_load(0);
    let p1 = core.plan_append(60);
    assert!(!p1.sync && !p1.rotate);
    assert_eq!(p1.pos, LogRecordPos { file_id: 0, offset: 0, size: 60 });
    let p2 = core.plan_append(40);
    assert!(p2.sync);
    let p3 = core.plan_append(10);
    assert!(!p3.sync);
    assert_eq!(p3.pos.offset, 100);
    o.sync_writes = true;
    let mut always = EngineCore::new(BTree::new(), &o, 3, vec![1, 2], 7);
    always.finish_load(0);
    assert!(always.plan_append(1).sync);
    assert_eq!(always.seq_no(), 7);
    assert_eq!(always.locate_file(2), Ok(false));
    assert_eq!(always.locate_file(3), Ok(true));
    assert_eq!(always.locate_file(9), Err(Errors::DataFileNotFound));
}

#[test]
fn rotation_happens_when_the_record_does_not_fit() {
    let o = opts(100);
    let mut core = EngineCore::new(BTree::new(), &o, 0, Vec::new(), 1);
    core.finish_load(0);
    assert!(!core.plan_append(100).rotate);
    let p = core.plan_append(1);
    assert!(p.rotate);
    assert_eq!(p.pos, LogRecordPos { file_id: 1, offset: 0, size: 1 });
    assert_eq!(core.older_file_ids(), &vec![0]);
    // A record larger than a file still gets a file of its own.
    let big = core.plan_append(500);
    assert!(big.rotate);
    assert_eq!(big.pos.file_id, 2);
    assert_eq!(core.write_off(), 500);
}

#[test]
fn merge_planning_helpers() {
    let ids = vec![0u32, 1, 2, 5, 6];
    assert_eq!(first_unmerged(&ids, 3), 3);
    assert_eq!(first_unmerged(&ids, 0), 0);
    assert_eq!(first_unmerged(&ids, 7), 5);
    assert_eq!(first_unmerged(&Vec::new(), 4), 0);
    assert!(is_merge_fin_file(b"merge-fin"));
    assert!(!is_merge_fin_file(b"hint-index"));
    assert!(!is_merge_fin_file(b"000000001.data"));
}

#[test]
fn put_record_for_a_non_empty_key() {
    let rec = new_put_record(b"k", b"").unwrap();
    assert_eq!(rec.key, vec![0u8, b'k']);
    assert!(rec.value.is_empty());
    assert_eq!(new_put_record(b"", b"v").err(), Some(Errors::KeyIsEmpty));
}

#[test]
fn commit_records_and_merge_dir_name() {
    let mut wb = WriteBatch::new(WriteBatchOptions::default());
    wb.put(b"a".to_vec(), b"1".to_vec()).unwrap();
    wb.put(b"b".to_vec(), b"2".to_vec()).unwrap();
    let recs = wb.commit_records(5);
    assert_eq!(recs.len(), 3);
    assert_eq!(recs[0].key, txn_record(wb.record(0), 5).key);
    assert_eq!(recs[0].key, vec![5u8, b'a']);
    assert_eq!(recs[1].value, b"2".to_vec());
    assert_eq!(recs[2].key, txn_fin_record(5).key);
    assert_eq!(recs[2].key, b"\x05txn-fin".to_vec());
    assert_eq!(merge_dir_name(b"bitcask-rs"), b"bitcask-rs-merge".to_vec());
}
