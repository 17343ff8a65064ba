//! Write batches: writes staged by key and committed as one group under a
//! single sequence number, and the key prefix that carries that number.
use vstd::prelude::*;
use crate::bytes_util::{append_bytes, bytes_eq, copy_range};
use crate::errors::{Errors, Result};
use crate::index::{lookup, Indexer};
use crate::log_record::{LogRecord, LogRecordType};
use crate::options::WriteBatchOptions;
use crate::varint::{decode_varint, encode_varint, lemma_decode_varint_result, lemma_parse_varint, parse_varint, varint};

verus! {

/// The sequence number of writes outside any batch.
pub const NON_TRANSACTION_SEQ_NO: u64 = 0;

/// The raw key of the record that ends a batch.
pub open spec fn txn_fin_key() -> Seq<u8> {
    seq![116u8, 120u8, 110u8, 45u8, 102u8, 105u8, 110u8]
}

/// The key as a data file stores it: the varint of the sequence number,
/// then the key.
pub open spec fn key_with_seq(key: Seq<u8>, seq_no: nat) -> Seq<u8> {
    varint(seq_no) + key
}

/// The sequence number and raw key that a stored key holds, if it holds a
/// varint at its start.
pub open spec fn parse_key_with_seq(stored: Seq<u8>) -> Option<(Seq<u8>, nat)> {
    match parse_varint(stored) {
        None => None,
        Some((seq, n)) => Some((stored.subrange(n, stored.len() as int), seq)),
    }
}

/// Prefixes `key` with the varint of `seq_no`.
pub fn log_record_key_with_seq(key: &[u8], seq_no: u64) -> (r: Vec<u8>)
    ensures
        r@ == key_with_seq(key@, seq_no as nat),
{
    let mut enc = encode_varint(seq_no);
    append_bytes(&mut enc, key);
    enc
}

/// Splits a stored key into the raw key and its sequence number;
/// `DataDirCorrupted` where it does not start with a varint.
pub fn parse_log_record_key(key: &[u8]) -> (r: Result<(Vec<u8>, u64)>)
    ensures
        match parse_key_with_seq(key@) {
            None => r == Err::<(Vec<u8>, u64), Errors>(Errors::DataDirCorrupted),
            Some((k, seq)) => r matches Ok((rk, s)) && rk@ == k && s as nat == seq,
        },
{
    let d = decode_varint(key);
    proof {
        lemma_decode_varint_result(key@, d);
    }
    match d {
        None => Err(Errors::DataDirCorrupted),
        Some((seq, rest)) => Ok((copy_range(key, key.len() - rest, key.len()), seq)),
    }
}

/// A stored key gives back the raw key and sequence number it was made of.
pub proof fn lemma_key_with_seq_round_trip(key: Seq<u8>, seq_no: u64)
    ensures
        parse_key_with_seq(key_with_seq(key, seq_no as nat)) == Some((key, seq_no as nat)),
{
    lemma_parse_varint(seq_no, key);
    let s = key_with_seq(key, seq_no as nat);
    assert(s.subrange(varint(seq_no as nat).len() as int, s.len() as int) =~= key);
}

/// One staged write: a value for a key, or its deletion.
pub open spec fn staged(r: LogRecord) -> (LogRecordType, Seq<u8>) {
    (r.rec_type, r.value@)
}

/// Writes staged for one commit, at most one per key: the last write to a
/// key replaces any earlier one.
pub struct WriteBatch {
    pending: Vec<LogRecord>,
    options: WriteBatchOptions,
}

impl WriteBatch {
    /// The staged writes in the order their keys were first staged.
    pub closed spec fn records(&self) -> Seq<LogRecord> {
        self.pending@
    }

    pub closed spec fn batch_options(&self) -> WriteBatchOptions {
        self.options
    }

    /// What is staged, by key.
    pub open spec fn staged_map(&self) -> Map<Seq<u8>, (LogRecordType, Seq<u8>)> {
        Map::new(
            |k: Seq<u8>| exists|i: int| 0 <= i < self.records().len() && #[trigger] self.records()[i].key@ == k,
            |k: Seq<u8>| {
                let i = choose|i: int| 0 <= i < self.records().len() && #[trigger] self.records()[i].key@ == k;
                staged(self.records()[i])
            },
        )
    }

    /// Keys are unique, and every staged write is a value or a deletion.
    pub open spec fn wf(&self) -> bool {
        &&& forall|i: int, j: int|
            0 <= i < j < self.records().len() ==> #[trigger] self.records()[i].key@
                != #[trigger] self.records()[j].key@
        &&& forall|i: int|
            0 <= i < self.records().len() ==> (#[trigger] self.records()[i]).rec_type
                != LogRecordType::TxnFinished
    }

    /// One staged write per staged key: the count that a commit checks
    /// against its limit is the number of keys staged.
    pub proof fn lemma_staged_count(&self)
        requires
            self.wf(),
        ensures
            self.records().len() == self.staged_map().dom().len(),
    {
        let keys = self.records().map_values(|r: LogRecord| r.key@);
        assert(keys.no_duplicates()) by {
            assert forall|i: int, j: int| 0 <= i < keys.len() && 0 <= j < keys.len() && i != j implies keys[i]
                != keys[j] by {
                if i < j {
                    assert(self.records()[i].key@ != self.records()[j].key@);
                } else {
                    assert(self.records()[j].key@ != self.records()[i].key@);
                }
            }
        }
        keys.unique_seq_to_set();
        assert forall|k: Seq<u8>| self.staged_map().dom().contains(k) <==> keys.to_set().contains(k) by {
            if keys.contains(k) {
                let i = choose|i: int| 0 <= i < keys.len() && keys[i] == k;
                assert(self.records()[i].key@ == k);
            }
            if self.staged_map().dom().contains(k) {
                let i = choose|i: int| 0 <= i < self.records().len() && #[trigger] self.records()[i].key@ == k;
                assert(keys[i] == k);
            }
        }
        assert(self.staged_map().dom() =~= keys.to_set());
    }

    pub fn new(options: WriteBatchOptions) -> (r: Self)
        ensures
            r.wf(),
            r.records().len() == 0,
            r.batch_options() == options,
    {
        WriteBatch { pending: Vec::new(), options }
    }

    pub fn options(&self) -> (r: WriteBatchOptions)
        ensures
            r == self.batch_options(),
    {
        self.options
    }

    /// The number of staged writes.
    pub fn len(&self) -> (r: usize)
        ensures
            r == self.records().len(),
    {
        self.pending.len()
    }

    /// Staged write `i`.
    pub fn record(&self, i: usize) -> (r: &LogRecord)
        requires
            i < self.records().len(),
        ensures
            *r == self.records()[i as int],
    {
        &self.pending[i]
    }

    fn find(&self, key: &[u8]) -> (r: Option<usize>)
        ensures
            r matches Some(i) ==> i < self.records().len() && self.records()[i as int].key@ == key@,
            r is None ==> forall|i: int|
                0 <= i < self.records().len() ==> #[trigger] self.records()[i].key@ != key@,
    {
        let mut i: usize = 0;
        while i < self.pending.len()
            invariant
                i <= self.pending@.len(),
                forall|j: int| 0 <= j < i ==> #[trigger] self.pending@[j].key@ != key@,
            decreases self.pending@.len() - i,
        {
            if bytes_eq(self.pending[i].key.as_slice(), key) {
                return Some(i);
            }
            i = i + 1;
        }
        None
    }

    /// Stages a record, replacing what was staged for its key.
    fn stage(&mut self, rec: LogRecord)
        requires
            old(self).wf(),
            rec.rec_type != LogRecordType::TxnFinished,
        ensures
            final(self).wf(),
            final(self).batch_options() == old(self).batch_options(),
            final(self).staged_map() == old(self).staged_map().insert(rec.key@, staged(rec)),
    {
        let ghost k = rec.key@;
        let ghost before = self.pending@;
        match self.find(rec.key.as_slice()) {
            Some(i) => {
                self.pending.set(i, rec);
                proof {
                    assert(self.records() == before.update(i as int, rec));
                }
            },
            None => {
                self.pending.push(rec);
                proof {
                    assert(self.records() == before.push(rec));
                }
            },
        }
        proof {
            let m = self.staged_map();
            let want = old(self).staged_map().insert(k, staged(rec));
            assert forall|kk: Seq<u8>| m.contains_key(kk) <==> want.contains_key(kk) by {
                if m.contains_key(kk) {
                    let i = choose|i: int| 0 <= i < self.records().len() && #[trigger] self.records()[i].key@ == kk;
                    if kk != k {
                        assert(before[i].key@ == kk);
                    }
                }
                if want.contains_key(kk) && kk != k {
                    let i = choose|i: int| 0 <= i < before.len() && #[trigger] before[i].key@ == kk;
                    assert(self.records()[i].key@ == kk);
                }
                if kk == k {
                    let i = if self.records().len() > before.len() { before.len() as int } else {
                        choose|i: int| 0 <= i < before.len() && #[trigger] before[i].key@ == k
                    };
                    assert(self.records()[i].key@ == k);
                }
            }
            assert forall|kk: Seq<u8>| m.contains_key(kk) implies m[kk] == want[kk] by {
                let i = choose|i: int| 0 <= i < self.records().len() && #[trigger] self.records()[i].key@ == kk;
                if kk != k {
                    let j = choose|j: int| 0 <= j < before.len() && #[trigger] before[j].key@ == kk;
                    assert(self.records()[j] == before[j]);
                    if i != j {
                        assert(self.records()[i].key@ != self.records()[j].key@);
                    }
                } else {
                    if i < before.len() && self.records()[i] != rec {
                        assert(self.records()[i] == before[i]);
                        assert(before[i].key@ == k);
                    }
                }
            }
            assert(m =~= want);
        }
    }

    /// Stages `key = value`. An empty key is `KeyIsEmpty`.
    pub fn put(&mut self, key: Vec<u8>, value: Vec<u8>) -> (r: Result<()>)
        requires
            old(self).wf(),
        ensures
            final(self).wf(),
            final(self).batch_options() == old(self).batch_options(),
            key@.len() == 0 ==> r == Err::<(), Errors>(Errors::KeyIsEmpty) && final(self).staged_map()
                == old(self).staged_map(),
            key@.len() > 0 ==> r is Ok && final(self).staged_map() == old(self).staged_map().insert(
                key@,
                (LogRecordType::NORMAL, value@),
            ),
            final(self).records().len() == final(self).staged_map().dom().len(),
    {
        proof {
            self.lemma_staged_count();
        }
        if key.len() == 0 {
            return Err(Errors::KeyIsEmpty);
        }
        self.stage(LogRecord { key, value, rec_type: LogRecordType::NORMAL });
        proof {
            self.lemma_staged_count();
        }
        Ok(())
    }

    /// Stages the deletion of `key`. A key that the directory does not hold
    /// needs no tombstone: only what was staged for it is dropped. An empty
    /// key is `KeyIsEmpty`.
    pub fn delete<I: Indexer>(&mut self, key: Vec<u8>, index: &I) -> (r: Result<()>)
        requires
            old(self).wf(),
            index.well_formed(),
        ensures
            final(self).wf(),
            final(self).batch_options() == old(self).batch_options(),
            key@.len() == 0 ==> r == Err::<(), Errors>(Errors::KeyIsEmpty) && final(self).staged_map()
                == old(self).staged_map(),
            key@.len() > 0 ==> r is Ok,
            key@.len() > 0 && index.index_map().contains_key(key@) ==> final(self).staged_map()
                == old(self).staged_map().insert(key@, (LogRecordType::DELETE, Seq::<u8>::empty())),
            key@.len() > 0 && !index.index_map().contains_key(key@) ==> final(self).staged_map()
                == old(self).staged_map().remove(key@),
            final(self).records().len() == final(self).staged_map().dom().len(),
    {
        proof {
            self.lemma_staged_count();
        }
        if key.len() == 0 {
            return Err(Errors::KeyIsEmpty);
        }
        let k2 = copy_range(key.as_slice(), 0, key.len());
        assert(k2@ =~= key@);
        let found = index.get(k2);
        assert(found == lookup(index.index_map(), key@));
        if found.is_none() {
            assert(!index.index_map().contains_key(key@));
            match self.find(key.as_slice()) {
                Some(i) => {
                    let ghost before = self.pending@;
                    self.pending.remove(i);
                    proof {
                        let m = self.staged_map();
                        let want = old(self).staged_map().remove(key@);
                        assert forall|kk: Seq<u8>| m.contains_key(kk) <==> want.contains_key(kk) by {
                            if m.contains_key(kk) {
                                let j = choose|j: int| 0 <= j < self.records().len() && #[trigger] self.records()[j].key@ == kk;
                                let j0 = if j < i { j } else { j + 1 };
                                assert(before[j0].key@ == kk);
                                assert(before[i as int].key@ == key@);
                            }
                            if want.contains_key(kk) {
                                let j = choose|j: int| 0 <= j < before.len() && #[trigger] before[j].key@ == kk;
                                if j < i {
                                    assert(self.records()[j].key@ == kk);
                                } else {
                                    assert(j != i);
                                    assert(self.records()[j - 1].key@ == kk);
                                }
                            }
                        }
                        assert forall|kk: Seq<u8>| m.contains_key(kk) implies m[kk] == want[kk] by {
                            let j = choose|j: int| 0 <= j < self.records().len() && #[trigger] self.records()[j].key@ == kk;
                            let j0 = if j < i { j } else { j + 1 };
                            assert(self.records()[j] == before[j0]);
                            let l = choose|l: int| 0 <= l < before.len() && #[trigger] before[l].key@ == kk;
                            if l != j0 {
                                assert(before[l].key@ != before[j0].key@);
                            }
                        }
                        assert(m =~= want);
                    }
                },
                None => {
                    proof {
                        assert(self.staged_map() =~= old(self).staged_map().remove(key@));
                    }
                },
            }
            proof {
                self.lemma_staged_count();
            }
            return Ok(());
        }
        assert(index.index_map().contains_key(key@));
        let tomb = LogRecord { key, value: Vec::new(), rec_type: LogRecordType::DELETE };
        assert(staged(tomb) == (LogRecordType::DELETE, Seq::<u8>::empty()));
        self.stage(tomb);
        proof {
            self.lemma_staged_count();
        }
        Ok(())
    }

    /// The records a commit of this batch under `seq` appends, in order:
    /// each staged write with its key under `seq`, then the finishing record.
    pub fn commit_records(&self, seq: u64) -> (r: Vec<LogRecord>)
        ensures
            r@.len() == self.records().len() + 1,
            forall|i: int|
                0 <= i < self.records().len() ==> {
                    &&& (#[trigger] r@[i]).key@ == key_with_seq(self.records()[i].key@, seq as nat)
                    &&& r@[i].value@ == self.records()[i].value@
                    &&& r@[i].rec_type == self.records()[i].rec_type
                },
            r@[self.records().len() as int].key@ == key_with_seq(txn_fin_key(), seq as nat),
            r@[self.records().len() as int].value@.len() == 0,
            r@[self.records().len() as int].rec_type == LogRecordType::TxnFinished,
    {
        let mut out: Vec<LogRecord> = Vec::new();
        let mut i: usize = 0;
        while i < self.pending.len()
            invariant
                i <= self.pending@.len(),
                out@.len() == i,
                forall|j: int|
                    0 <= j < i ==> {
                        &&& (#[trigger] out@[j]).key@ == key_with_seq(self.pending@[j].key@, seq as nat)
                        &&& out@[j].value@ == self.pending@[j].value@
                        &&& out@[j].rec_type == self.pending@[j].rec_type
                    },
            decreases self.pending@.len() - i,
        {
            out.push(txn_record(&self.pending[i], seq));
            i = i + 1;
        }
        out.push(txn_fin_record(seq));
        out
    }

    /// Drops every staged write.
    pub fn clear(&mut self)
        ensures
            final(self).wf(),
            final(self).records().len() == 0,
            final(self).batch_options() == old(self).batch_options(),
            final(self).records().len() == final(self).staged_map().dom().len(),
    {
        self.pending = Vec::new();
        proof {
            self.lemma_staged_count();
        }
    }
}

/// The record that finishes the committed group `seq`.
pub fn txn_fin_record(seq: u64) -> (r: LogRecord)
    ensures
        r.key@ == key_with_seq(txn_fin_key(), seq as nat),
        r.value@.len() == 0,
        r.rec_type == LogRecordType::TxnFinished,
{
    let fin: [u8; 7] = [116u8, 120u8, 110u8, 45u8, 102u8, 105u8, 110u8];
    assert(fin@ =~= txn_fin_key());
    LogRecord { key: log_record_key_with_seq(fin.as_slice(), seq), value: Vec::new(), rec_type: LogRecordType::TxnFinished }
}

/// A staged write as the group `seq` stores it.
pub fn txn_record(rec: &LogRecord, seq: u64) -> (r: LogRecord)
    ensures
        r.key@ == key_with_seq(rec.key@, seq as nat),
        r.value@ == rec.value@,
        r.rec_type == rec.rec_type,
{
    LogRecord {
        key: log_record_key_with_seq(rec.key.as_slice(), seq),
        value: copy_range(rec.value.as_slice(), 0, rec.value.len()),
        rec_type: rec.rec_type,
    }
}

} // verus!
