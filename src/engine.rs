//! The decisions of the store, apart from its files: where the next record
//! goes and when files roll over or are flushed, how each write changes the
//! key directory and the reclaimable byte count, and how the scan at open
//! rebuilds the directory, transactions included. The caller performs the
//! reads, writes and flushes that these functions decide on.
use vstd::prelude::*;
use crate::batch::{key_with_seq, log_record_key_with_seq, parse_log_record_key, parse_key_with_seq, WriteBatch};
use crate::errors::{Errors, Result};
use crate::index::{lookup, Indexer};
use crate::log_record::{LogRecord, LogRecordPos, LogRecordType};
use crate::options::Options;

verus! {

/// A record as the scan at open reads it: raw key, kind, position and
/// sequence number.
pub struct ScannedRecord {
    pub key: Seq<u8>,
    pub rec_type: LogRecordType,
    pub pos: LogRecordPos,
    pub seq: nat,
}

/// A write waiting in a transaction for its finishing record.
pub type TxnOp = (Seq<u8>, LogRecordType, LogRecordPos);

/// A key directory after one write: a value points the key at its record,
/// a tombstone removes the key, anything else changes nothing.
pub open spec fn apply_op(m: Map<Seq<u8>, LogRecordPos>, key: Seq<u8>, t: LogRecordType, pos: LogRecordPos) -> Map<
    Seq<u8>,
    LogRecordPos,
> {
    match t {
        LogRecordType::NORMAL => m.insert(key, pos),
        LogRecordType::DELETE => m.remove(key),
        LogRecordType::TxnFinished => m,
    }
}

/// A key directory after writes in order.
pub open spec fn apply_ops(m: Map<Seq<u8>, LogRecordPos>, ops: Seq<TxnOp>) -> Map<Seq<u8>, LogRecordPos>
    decreases ops.len(),
{
    if ops.len() == 0 {
        m
    } else {
        let o = ops.last();
        apply_op(apply_ops(m, ops.drop_last()), o.0, o.1, o.2)
    }
}

/// Where a scan stands: the directory so far, and the writes of each
/// transaction whose finishing record has not been read yet.
pub struct Replay {
    pub map: Map<Seq<u8>, LogRecordPos>,
    pub pending: Map<nat, Seq<TxnOp>>,
}

pub open spec fn pending_ops(p: Map<nat, Seq<TxnOp>>, seq: nat) -> Seq<TxnOp> {
    if p.contains_key(seq) {
        p[seq]
    } else {
        Seq::empty()
    }
}

/// One step of the scan: writes outside a transaction apply at once;
/// writes of a transaction wait until its finishing record applies them all.
pub open spec fn replay_step(st: Replay, r: ScannedRecord) -> Replay {
    if r.seq == 0 {
        Replay { map: apply_op(st.map, r.key, r.rec_type, r.pos), pending: st.pending }
    } else if r.rec_type == LogRecordType::TxnFinished {
        Replay { map: apply_ops(st.map, pending_ops(st.pending, r.seq)), pending: st.pending.remove(r.seq) }
    } else {
        Replay {
            map: st.map,
            pending: st.pending.insert(r.seq, pending_ops(st.pending, r.seq).push((r.key, r.rec_type, r.pos))),
        }
    }
}

/// The scan of `log`, starting from the directory `base`. Writes of a
/// transaction whose finishing record never comes are never applied.
pub open spec fn replay(base: Map<Seq<u8>, LogRecordPos>, log: Seq<ScannedRecord>) -> Replay
    decreases log.len(),
{
    if log.len() == 0 {
        Replay { map: base, pending: Map::empty() }
    } else {
        replay_step(replay(base, log.drop_last()), log.last())
    }
}

/// The highest sequence number in `log`, zero for none.
pub open spec fn max_seq(log: Seq<ScannedRecord>) -> nat
    decreases log.len(),
{
    if log.len() == 0 {
        0
    } else {
        let m = max_seq(log.drop_last());
        if log.last().seq > m {
            log.last().seq
        } else {
            m
        }
    }
}

/// `a + b`, or the largest u64 where that does not fit.
pub open spec fn add_sat(a: u64, b: nat) -> u64 {
    if a + b > u64::MAX {
        u64::MAX
    } else {
        (a + b) as u64
    }
}

/// The reclaimable byte count after one write to the directory `m`: a
/// value adds the size of the record it displaces; a tombstone adds its own
/// size and that of the record it removes.
pub open spec fn reclaim_after(r: u64, m: Map<Seq<u8>, LogRecordPos>, key: Seq<u8>, t: LogRecordType, pos: LogRecordPos) -> u64 {
    match t {
        LogRecordType::NORMAL => add_sat(r, displaced_size(lookup(m, key))),
        LogRecordType::DELETE => add_sat(r, (pos.size + displaced_size(lookup(m, key))) as nat),
        LogRecordType::TxnFinished => r,
    }
}

/// The reclaimable byte count after writes in order, starting from the
/// directory `m`.
pub open spec fn reclaim_after_ops(r: u64, m: Map<Seq<u8>, LogRecordPos>, ops: Seq<TxnOp>) -> u64
    decreases ops.len(),
{
    if ops.len() == 0 {
        r
    } else {
        let o = ops.last();
        reclaim_after(reclaim_after_ops(r, m, ops.drop_last()), apply_ops(m, ops.drop_last()), o.0, o.1, o.2)
    }
}

/// The size of a displaced position, zero for none.
pub open spec fn displaced_size(p: Option<LogRecordPos>) -> nat {
    match p {
        Some(q) => q.size as nat,
        None => 0,
    }
}

/// The ids are strictly ascending.
pub open spec fn strictly_ascending(ids: Seq<u32>) -> bool {
    forall|i: int, j: int| 0 <= i < j < ids.len() ==> ids[i] < ids[j]
}

/// Scanning one more record is one more step.
pub proof fn lemma_replay_push(base: Map<Seq<u8>, LogRecordPos>, log: Seq<ScannedRecord>, r: ScannedRecord)
    ensures
        replay(base, log.push(r)) == replay_step(replay(base, log), r),
        max_seq(log.push(r)) == (if r.seq > max_seq(log) {
            r.seq
        } else {
            max_seq(log)
        }),
{
    assert(log.push(r).drop_last() =~= log);
}

/// Waiting transactions have sequence numbers from one up to the highest
/// number in the log.
pub proof fn lemma_pending_bounded(base: Map<Seq<u8>, LogRecordPos>, log: Seq<ScannedRecord>)
    ensures
        forall|s: nat| #[trigger]
            replay(base, log).pending.contains_key(s) ==> 1 <= s <= max_seq(log),
    decreases log.len(),
{
    if log.len() > 0 {
        let prev = log.drop_last();
        lemma_pending_bounded(base, prev);
        let st = replay(base, prev);
        let r = log.last();
        assert forall|s: nat| #[trigger] replay(base, log).pending.contains_key(s) implies 1 <= s
            <= max_seq(log) by {
            if !(r.seq != 0 && r.rec_type != LogRecordType::TxnFinished && s == r.seq) {
                assert(st.pending.contains_key(s));
            }
        }
    }
}

/// The records of a committed group: each staged write under `seq`.
pub open spec fn txn_entries(ops: Seq<TxnOp>, seq: nat) -> Seq<ScannedRecord> {
    Seq::new(ops.len(), |i: int| ScannedRecord { key: ops[i].0, rec_type: ops[i].1, pos: ops[i].2, seq })
}

/// The finishing record of the group `seq`.
pub open spec fn txn_fin_entry(pos: LogRecordPos, seq: nat) -> ScannedRecord {
    ScannedRecord { key: crate::batch::txn_fin_key(), rec_type: LogRecordType::TxnFinished, pos, seq }
}

/// While a group is being scanned its writes wait and the directory does
/// not change.
pub proof fn lemma_replay_txn_prefix(
    base: Map<Seq<u8>, LogRecordPos>,
    log: Seq<ScannedRecord>,
    ops: Seq<TxnOp>,
    seq: nat,
    k: nat,
)
    requires
        seq > max_seq(log),
        forall|i: int| 0 <= i < ops.len() ==> (#[trigger] ops[i]).1 != LogRecordType::TxnFinished,
        k <= ops.len(),
    ensures
        replay(base, log + txn_entries(ops.subrange(0, k as int), seq)).map == replay(base, log).map,
        replay(base, log + txn_entries(ops.subrange(0, k as int), seq)).pending == (if k == 0 {
            replay(base, log).pending
        } else {
            replay(base, log).pending.insert(seq, ops.subrange(0, k as int))
        }),
        max_seq(log + txn_entries(ops.subrange(0, k as int), seq)) == (if k == 0 {
            max_seq(log)
        } else {
            seq
        }),
    decreases k,
{
    lemma_pending_bounded(base, log);
    if k == 0 {
        assert(log + txn_entries(ops.subrange(0, 0), seq) =~= log);
    } else {
        lemma_replay_txn_prefix(base, log, ops, seq, (k - 1) as nat);
        let prev = log + txn_entries(ops.subrange(0, k - 1), seq);
        let cur = log + txn_entries(ops.subrange(0, k as int), seq);
        let e = ScannedRecord { key: ops[k - 1].0, rec_type: ops[k - 1].1, pos: ops[k - 1].2, seq };
        assert(cur =~= prev.push(e));
        lemma_replay_push(base, prev, e);
        assert(ops.subrange(0, k - 1).push(ops[k - 1]) =~= ops.subrange(0, k as int));
        assert(ops[k - 1].1 != LogRecordType::TxnFinished);
        if k - 1 == 0 {
            assert(!replay(base, log).pending.contains_key(seq));
            assert(ops.subrange(0, 0).push(ops[0]) =~= Seq::<TxnOp>::empty().push(ops[0]));
        }
        assert(replay(base, cur).pending =~= replay(base, log).pending.insert(seq, ops.subrange(0, k as int)));
    }
}

/// A committed group, finishing record included, applies all its writes
/// in order, and leaves no writes waiting.
pub proof fn lemma_replay_txn(
    base: Map<Seq<u8>, LogRecordPos>,
    log: Seq<ScannedRecord>,
    ops: Seq<TxnOp>,
    seq: nat,
    fin_pos: LogRecordPos,
)
    requires
        seq > max_seq(log),
        forall|i: int| 0 <= i < ops.len() ==> (#[trigger] ops[i]).1 != LogRecordType::TxnFinished,
    ensures
        replay(base, (log + txn_entries(ops, seq)).push(txn_fin_entry(fin_pos, seq))).map == apply_ops(
            replay(base, log).map,
            ops,
        ),
        replay(base, (log + txn_entries(ops, seq)).push(txn_fin_entry(fin_pos, seq))).pending == replay(
            base,
            log,
        ).pending,
        max_seq((log + txn_entries(ops, seq)).push(txn_fin_entry(fin_pos, seq))) == seq,
{
    lemma_replay_txn_prefix(base, log, ops, seq, ops.len());
    lemma_pending_bounded(base, log);
    assert(ops.subrange(0, ops.len() as int) =~= ops);
    let mid = log + txn_entries(ops, seq);
    lemma_replay_push(base, mid, txn_fin_entry(fin_pos, seq));
    let p = replay(base, log).pending;
    assert(!p.contains_key(seq));
    if ops.len() == 0 {
        assert(p.remove(seq) =~= p);
    } else {
        assert(p.insert(seq, ops).remove(seq) =~= p);
    }
}

/// Read your writes: a key pointed at a record keeps pointing at it
/// through any later writes to other keys, single or batched.
pub proof fn lemma_read_your_writes(m: Map<Seq<u8>, LogRecordPos>, k: Seq<u8>, pos: LogRecordPos, later: Seq<TxnOp>)
    requires
        forall|i: int| 0 <= i < later.len() ==> (#[trigger] later[i]).0 != k,
    ensures
        apply_ops(m.insert(k, pos), later).contains_key(k),
        apply_ops(m.insert(k, pos), later)[k] == pos,
    decreases later.len(),
{
    if later.len() > 0 {
        let prev = later.drop_last();
        assert forall|i: int| 0 <= i < prev.len() implies (#[trigger] prev[i]).0 != k by {
            assert(prev[i] == later[i]);
        }
        lemma_read_your_writes(m, k, pos, prev);
        assert(later.last().0 != k);
    }
}

/// A deleted key stays absent through any later writes to other keys,
/// single or batched.
pub proof fn lemma_delete_stays_deleted(m: Map<Seq<u8>, LogRecordPos>, k: Seq<u8>, pos: LogRecordPos, later: Seq<TxnOp>)
    requires
        forall|i: int| 0 <= i < later.len() ==> (#[trigger] later[i]).0 != k,
    ensures
        !apply_ops(apply_op(m, k, LogRecordType::DELETE, pos), later).contains_key(k),
    decreases later.len(),
{
    if later.len() > 0 {
        let prev = later.drop_last();
        assert forall|i: int| 0 <= i < prev.len() implies (#[trigger] prev[i]).0 != k by {
            assert(prev[i] == later[i]);
        }
        lemma_delete_stays_deleted(m, k, pos, prev);
        assert(later.last().0 != k);
    }
}

/// Batch atomicity: a group cut short before its finishing record leaves
/// the directory as it was, however many of its writes were read; the whole
/// group, finishing record included, applies all of them.
pub proof fn lemma_batch_atomicity(
    base: Map<Seq<u8>, LogRecordPos>,
    log: Seq<ScannedRecord>,
    ops: Seq<TxnOp>,
    seq: nat,
    written: nat,
    fin_pos: LogRecordPos,
)
    requires
        seq > max_seq(log),
        written <= ops.len(),
        forall|i: int| 0 <= i < ops.len() ==> (#[trigger] ops[i]).1 != LogRecordType::TxnFinished,
    ensures
        replay(base, log + txn_entries(ops.subrange(0, written as int), seq)).map == replay(base, log).map,
        replay(base, (log + txn_entries(ops, seq)).push(txn_fin_entry(fin_pos, seq))).map == apply_ops(
            replay(base, log).map,
            ops,
        ),
{
    lemma_replay_txn_prefix(base, log, ops, seq, written);
    lemma_replay_txn(base, log, ops, seq, fin_pos);
}

/// A new record outside any transaction: the key prefixed with sequence
/// number zero. An empty key is `KeyIsEmpty`.
pub fn new_put_record(key: &[u8], value: &[u8]) -> (r: Result<LogRecord>)
    ensures
        key@.len() == 0 <==> r == Err::<LogRecord, Errors>(Errors::KeyIsEmpty),
        key@.len() > 0 <==> r is Ok,
        r matches Ok(rec) ==> {
            &&& rec.key@ == key_with_seq(key@, 0)
            &&& rec.value@ == value@
            &&& rec.rec_type == LogRecordType::NORMAL
        },
{
    if key.len() == 0 {
        return Err(Errors::KeyIsEmpty);
    }
    let value = crate::bytes_util::copy_range(value, 0, value.len());
    assert(value@ =~= value@);
    Ok(LogRecord { key: log_record_key_with_seq(key, 0), value, rec_type: LogRecordType::NORMAL })
}

/// The value that a record read for a live key holds; a tombstone is
/// `KeyNotFound`.
pub fn value_of_record(rec: LogRecord) -> (r: Result<Vec<u8>>)
    ensures
        rec.rec_type == LogRecordType::DELETE ==> r == Err::<Vec<u8>, Errors>(Errors::KeyNotFound),
        rec.rec_type != LogRecordType::DELETE ==> (r matches Ok(v) && v@ == rec.value@),
{
    if rec.rec_type == LogRecordType::DELETE {
        return Err(Errors::KeyNotFound);
    }
    Ok(rec.value)
}

/// Figures about an open store.
#[derive(Debug, Clone, Copy, PartialEq, Eq, Structural)]
pub struct Stat {
    /// The number of live keys.
    pub key_num: usize,
    /// The number of data files, the active one included.
    pub data_file_num: usize,
    /// The bytes that a merge could reclaim.
    pub reclaim_size: u64,
    /// The bytes the data directory takes on disk.
    pub disk_size: u64,
}

/// What the caller does around one append.
#[derive(Debug, Clone, Copy, PartialEq, Eq, Structural)]
pub struct AppendPlan {
    /// Flush the active file, close it and start the next one first.
    pub rotate: bool,
    /// Where the record goes.
    pub pos: LogRecordPos,
    /// Flush the active file after the write.
    pub sync: bool,
}

/// A write of a transaction, waiting while the scan looks for the
/// transaction's finishing record.
pub struct PendingOp {
    pub key: Vec<u8>,
    pub rec_type: LogRecordType,
    pub pos: LogRecordPos,
}

/// The waiting writes of one transaction.
pub struct PendingTxn {
    pub seq: u64,
    pub ops: Vec<PendingOp>,
}

pub open spec fn ops_view(v: Seq<PendingOp>) -> Seq<TxnOp> {
    v.map_values(|o: PendingOp| (o.key@, o.rec_type, o.pos))
}

/// The groups hold exactly the waiting writes of `p`, one group per
/// sequence number.
pub open spec fn mirrors(groups: Seq<PendingTxn>, p: Map<nat, Seq<TxnOp>>) -> bool {
    &&& forall|i: int, j: int|
        0 <= i < j < groups.len() ==> #[trigger] groups[i].seq != #[trigger] groups[j].seq
    &&& forall|i: int|
        0 <= i < groups.len() ==> #[trigger] p.contains_key(groups[i].seq as nat) && p[groups[i].seq as nat]
            == ops_view(groups[i].ops@)
    &&& forall|s: nat| #[trigger]
        p.contains_key(s) ==> exists|i: int| 0 <= i < groups.len() && #[trigger] groups[i].seq == s
}

/// The writes of a batch, each with the position it was written to.
pub open spec fn batch_ops(records: Seq<LogRecord>, positions: Seq<LogRecordPos>) -> Seq<TxnOp> {
    Seq::new(records.len(), |i: int| (records[i].key@, records[i].rec_type, positions[i]))
}

/// Dropping a group drops its sequence number.
pub proof fn lemma_mirrors_remove(groups: Seq<PendingTxn>, p: Map<nat, Seq<TxnOp>>, i: int)
    requires
        mirrors(groups, p),
        0 <= i < groups.len(),
    ensures
        mirrors(groups.remove(i), p.remove(groups[i].seq as nat)),
        p.contains_key(groups[i].seq as nat),
        p[groups[i].seq as nat] == ops_view(groups[i].ops@),
{
    let g2 = groups.remove(i);
    let p2 = p.remove(groups[i].seq as nat);
    assert(p.contains_key(groups[i].seq as nat));
    assert forall|a: int, b: int| 0 <= a < b < g2.len() implies #[trigger] g2[a].seq != #[trigger] g2[b].seq by {
        let a0 = if a < i { a } else { a + 1 };
        let b0 = if b < i { b } else { b + 1 };
        assert(g2[a] == groups[a0]);
        assert(g2[b] == groups[b0]);
    }
    assert forall|a: int| 0 <= a < g2.len() implies #[trigger] p2.contains_key(g2[a].seq as nat) && p2[g2[a].seq as nat]
        == ops_view(g2[a].ops@) by {
        let a0 = if a < i { a } else { a + 1 };
        assert(g2[a] == groups[a0]);
        assert(groups[a0].seq != groups[i].seq);
        assert(p.contains_key(groups[a0].seq as nat));
    }
    assert forall|s: nat| #[trigger] p2.contains_key(s) implies exists|a: int| 0 <= a < g2.len() && #[trigger] g2[a].seq == s by {
        let a0 = choose|a: int| 0 <= a < groups.len() && #[trigger] groups[a].seq == s;
        if a0 < i {
            assert(g2[a0].seq == s);
        } else {
            assert(a0 != i);
            assert(g2[a0 - 1].seq == s);
        }
    }
}

/// Adding a group for a new sequence number adds that number.
pub proof fn lemma_mirrors_push(groups: Seq<PendingTxn>, p: Map<nat, Seq<TxnOp>>, g: PendingTxn)
    requires
        mirrors(groups, p),
        !p.contains_key(g.seq as nat),
    ensures
        mirrors(groups.push(g), p.insert(g.seq as nat, ops_view(g.ops@))),
{
    let g2 = groups.push(g);
    let p2 = p.insert(g.seq as nat, ops_view(g.ops@));
    assert forall|a: int, b: int| 0 <= a < b < g2.len() implies #[trigger] g2[a].seq != #[trigger] g2[b].seq by {
        if b == groups.len() {
            assert(p.contains_key(groups[a].seq as nat));
        }
    }
    assert forall|a: int| 0 <= a < g2.len() implies #[trigger] p2.contains_key(g2[a].seq as nat) && p2[g2[a].seq as nat]
        == ops_view(g2[a].ops@) by {
        if a < groups.len() {
            assert(g2[a] == groups[a]);
            assert(p.contains_key(groups[a].seq as nat));
        }
    }
    assert forall|s: nat| #[trigger] p2.contains_key(s) implies exists|a: int| 0 <= a < g2.len() && #[trigger] g2[a].seq == s by {
        if s == g.seq as nat {
            assert(g2[groups.len() as int].seq == s);
        } else {
            let a0 = choose|a: int| 0 <= a < groups.len() && #[trigger] groups[a].seq == s;
            assert(g2[a0].seq == s);
        }
    }
}

/// The state of an open store apart from its files.
pub struct EngineCore<I: Indexer> {
    index: I,
    active_file_id: u32,
    write_off: u64,
    older_file_ids: Vec<u32>,
    seq_no: u64,
    max_seen_seq: u64,
    reclaim_size: u64,
    bytes_write: u64,
    data_file_size: u64,
    sync_writes: bool,
    bytes_per_sync: u64,
    pending: Vec<PendingTxn>,
    base: Ghost<Map<Seq<u8>, LogRecordPos>>,
    log: Ghost<Seq<ScannedRecord>>,
    seq_floor: Ghost<nat>,
}

impl<I: Indexer> EngineCore<I> {
    /// Every record written or scanned since the store was opened, in order.
    pub closed spec fn log(&self) -> Seq<ScannedRecord> {
        self.log@
    }

    /// The directory the store was opened with, before any record.
    pub closed spec fn base(&self) -> Map<Seq<u8>, LogRecordPos> {
        self.base@
    }

    /// The sequence number the store was opened with.
    pub closed spec fn seq_floor(&self) -> nat {
        self.seq_floor@
    }

    pub closed spec fn index_view(&self) -> Map<Seq<u8>, LogRecordPos> {
        self.index.index_map()
    }

    pub closed spec fn spec_seq_no(&self) -> u64 {
        self.seq_no
    }

    pub closed spec fn spec_max_seen_seq(&self) -> u64 {
        self.max_seen_seq
    }

    pub closed spec fn spec_reclaim_size(&self) -> u64 {
        self.reclaim_size
    }

    pub closed spec fn spec_active_file_id(&self) -> u32 {
        self.active_file_id
    }

    pub closed spec fn spec_write_off(&self) -> u64 {
        self.write_off
    }

    pub closed spec fn spec_older_file_ids(&self) -> Seq<u32> {
        self.older_file_ids@
    }

    pub closed spec fn spec_bytes_write(&self) -> u64 {
        self.bytes_write
    }

    pub closed spec fn spec_data_file_size(&self) -> u64 {
        self.data_file_size
    }

    pub closed spec fn spec_sync_writes(&self) -> bool {
        self.sync_writes
    }

    pub closed spec fn spec_bytes_per_sync(&self) -> u64 {
        self.bytes_per_sync
    }

    /// The waiting transaction writes, while the store is being scanned.
    pub closed spec fn spec_pending(&self) -> Seq<PendingTxn> {
        self.pending@
    }

    /// The directory is what the scan of the log gives; sequence numbers
    /// stay ahead of every number in the log; older files sort below the
    /// active one.
    pub open spec fn wf(&self) -> bool {
        &&& self.index_well_formed()
        &&& self.index_view() == replay(self.base(), self.log()).map
        &&& self.spec_max_seen_seq() as nat == max_seq(self.log())
        &&& self.spec_seq_no() >= 1
        &&& self.spec_seq_no() as nat >= self.seq_floor()
        &&& self.spec_seq_no() > self.spec_max_seen_seq()
        &&& strictly_ascending(self.spec_older_file_ids())
        &&& forall|i: int|
            0 <= i < self.spec_older_file_ids().len() ==> #[trigger] self.spec_older_file_ids()[i]
                < self.spec_active_file_id()
    }

    /// While scanning: the waiting writes are those of the scan model.
    pub open spec fn loading(&self) -> bool {
        &&& self.wf()
        &&& mirrors(self.spec_pending(), replay(self.base(), self.log()).pending)
    }

    pub closed spec fn index_well_formed(&self) -> bool {
        self.index.well_formed()
    }

    /// The sequence number is the one after the highest in the log, or the
    /// one the store was opened with if that is higher.
    pub open spec fn seq_exact(&self) -> bool {
        self.spec_seq_no() as nat == if self.seq_floor() > max_seq(self.log()) + 1 {
            self.seq_floor()
        } else {
            max_seq(self.log()) + 1
        }
    }

    /// A store whose directory is `index`, whose active file is
    /// `active_file_id` with `older_file_ids` below it, and whose next
    /// sequence number is `seq_no` (at least one).
    pub fn new(index: I, options: &Options, active_file_id: u32, older_file_ids: Vec<u32>, seq_no: u64) -> (r: Self)
        requires
            index.well_formed(),
            strictly_ascending(older_file_ids@),
            forall|i: int| 0 <= i < older_file_ids@.len() ==> #[trigger] older_file_ids@[i] < active_file_id,
        ensures
            r.loading(),
            r.seq_exact(),
            r.log().len() == 0,
            r.base() == index.index_map(),
            r.index_view() == index.index_map(),
            r.seq_floor() == (if seq_no == 0 { 1 } else { seq_no as nat }),
            r.spec_active_file_id() == active_file_id,
            r.spec_older_file_ids() == older_file_ids@,
            r.spec_write_off() == 0,
            r.spec_reclaim_size() == 0,
            r.spec_bytes_write() == 0,
            r.spec_data_file_size() == options.data_file_size,
            r.spec_sync_writes() == options.sync_writes,
            r.spec_bytes_per_sync() == options.bytes_per_sync as u64,
            r.spec_pending().len() == 0,
    {
        let seq = if seq_no == 0 { 1 } else { seq_no };
        let ghost base = index.index_map();
        EngineCore {
            index,
            active_file_id,
            write_off: 0,
            older_file_ids,
            seq_no: seq,
            max_seen_seq: 0,
            reclaim_size: 0,
            bytes_write: 0,
            data_file_size: options.data_file_size,
            sync_writes: options.sync_writes,
            bytes_per_sync: options.bytes_per_sync as u64,
            pending: Vec::new(),
            base: Ghost(base),
            log: Ghost(Seq::empty()),
            seq_floor: Ghost(seq as nat),
        }
    }

    /// The key directory.
    pub fn index(&self) -> (r: &I)
        ensures
            r.index_map() == self.index_view(),
            self.wf() ==> r.well_formed(),
    {
        &self.index
    }

    pub fn seq_no(&self) -> (r: u64)
        ensures
            r == self.spec_seq_no(),
    {
        self.seq_no
    }

    /// The highest sequence number written or scanned so far.
    pub fn max_seen_seq(&self) -> (r: u64)
        ensures
            r == self.spec_max_seen_seq(),
    {
        self.max_seen_seq
    }

    pub fn reclaim_size(&self) -> (r: u64)
        ensures
            r == self.spec_reclaim_size(),
    {
        self.reclaim_size
    }

    pub fn active_file_id(&self) -> (r: u32)
        ensures
            r == self.spec_active_file_id(),
    {
        self.active_file_id
    }

    pub fn write_off(&self) -> (r: u64)
        ensures
            r == self.spec_write_off(),
    {
        self.write_off
    }

    /// The ids of the closed data files, ascending.
    pub fn older_file_ids(&self) -> (r: &Vec<u32>)
        ensures
            r@ == self.spec_older_file_ids(),
    {
        &self.older_file_ids
    }

    /// Applies one write to the directory and counts what it makes
    /// reclaimable: a value displaces the key's previous record; a tombstone
    /// is itself reclaimable, and so is the record it removes.
    fn apply_write(&mut self, key: Vec<u8>, t: LogRecordType, pos: LogRecordPos)
        requires
            old(self).index_well_formed(),
        ensures
            final(self).index_well_formed(),
            final(self).index_view() == apply_op(old(self).index_view(), key@, t, pos),
            final(self).spec_reclaim_size() == reclaim_after(
                old(self).spec_reclaim_size(),
                old(self).index_view(),
                key@,
                t,
                pos,
            ),
            final(self).log() == old(self).log(),
            final(self).base() == old(self).base(),
            final(self).seq_floor() == old(self).seq_floor(),
            final(self).spec_seq_no() == old(self).spec_seq_no(),
            final(self).spec_max_seen_seq() == old(self).spec_max_seen_seq(),
            final(self).spec_active_file_id() == old(self).spec_active_file_id(),
            final(self).spec_older_file_ids() == old(self).spec_older_file_ids(),
            final(self).spec_write_off() == old(self).spec_write_off(),
            final(self).spec_bytes_write() == old(self).spec_bytes_write(),
            final(self).spec_pending() == old(self).spec_pending(),
    {
        match t {
            LogRecordType::NORMAL => {
                let prev = self.index.put(key, pos);
                if let Some(p) = prev {
                    self.add_reclaim(p.size as u64);
                }
            },
            LogRecordType::DELETE => {
                let prev = self.index.delete(key);
                let extra: u64 = match prev {
                    Some(p) => p.size as u64,
                    None => 0,
                };
                self.add_reclaim(pos.size as u64 + extra);
            },
            LogRecordType::TxnFinished => {},
        }
    }

    fn add_reclaim(&mut self, n: u64)
        ensures
            final(self).spec_reclaim_size() == add_sat(old(self).spec_reclaim_size(), n as nat),
            final(self).index == old(self).index,
            final(self).log == old(self).log,
            final(self).base == old(self).base,
            final(self).seq_floor == old(self).seq_floor,
            final(self).seq_no == old(self).seq_no,
            final(self).max_seen_seq == old(self).max_seen_seq,
            final(self).active_file_id == old(self).active_file_id,
            final(self).older_file_ids == old(self).older_file_ids,
            final(self).write_off == old(self).write_off,
            final(self).bytes_write == old(self).bytes_write,
            final(self).pending == old(self).pending,
    {
        self.reclaim_size = if self.reclaim_size > u64::MAX - n {
            u64::MAX
        } else {
            self.reclaim_size + n
        };
    }

    /// The position of a live key. An empty key is `KeyIsEmpty`; a key
    /// the directory does not hold is `KeyNotFound`.
    pub fn lookup_key(&self, key: Vec<u8>) -> (r: Result<LogRecordPos>)
        requires
            self.wf(),
        ensures
            key@.len() == 0 ==> r == Err::<LogRecordPos, Errors>(Errors::KeyIsEmpty),
            key@.len() > 0 && !self.index_view().contains_key(key@) ==> r == Err::<LogRecordPos, Errors>(
                Errors::KeyNotFound,
            ),
            key@.len() > 0 && self.index_view().contains_key(key@) ==> r == Ok::<LogRecordPos, Errors>(
                self.index_view()[key@],
            ),
    {
        if key.len() == 0 {
            return Err(Errors::KeyIsEmpty);
        }
        match self.index.get(key) {
            Some(p) => Ok(p),
            None => Err(Errors::KeyNotFound),
        }
    }

    /// Whether a position's file is the active one (`true`) or a closed
    /// one (`false`); a file the store does not have is `DataFileNotFound`.
    pub fn locate_file(&self, file_id: u32) -> (r: Result<bool>)
        ensures
            file_id == self.spec_active_file_id() ==> r == Ok::<bool, Errors>(true),
            file_id != self.spec_active_file_id() && self.spec_older_file_ids().contains(file_id)
                ==> r == Ok::<bool, Errors>(false),
            file_id != self.spec_active_file_id() && !self.spec_older_file_ids().contains(file_id)
                ==> r == Err::<bool, Errors>(Errors::DataFileNotFound),
    {
        if file_id == self.active_file_id {
            return Ok(true);
        }
        let mut i: usize = 0;
        while i < self.older_file_ids.len()
            invariant
                i <= self.older_file_ids@.len(),
                file_id != self.active_file_id,
                forall|j: int| 0 <= j < i ==> self.older_file_ids@[j] != file_id,
            decreases self.older_file_ids@.len() - i,
        {
            if self.older_file_ids[i] == file_id {
                assert(self.older_file_ids@[i as int] == file_id);
                return Ok(false);
            }
            i = i + 1;
        }
        Err(Errors::DataFileNotFound)
    }

    /// Records a value written for `key` at `pos` outside any transaction.
    pub fn finish_put(&mut self, key: Vec<u8>, pos: LogRecordPos)
        requires
            old(self).wf(),
        ensures
            final(self).wf(),
            final(self).log() == old(self).log().push(
                ScannedRecord { key: key@, rec_type: LogRecordType::NORMAL, pos, seq: 0 },
            ),
            final(self).index_view() == old(self).index_view().insert(key@, pos),
            final(self).spec_reclaim_size() == add_sat(
                old(self).spec_reclaim_size(),
                displaced_size(lookup(old(self).index_view(), key@)),
            ),
            final(self).base() == old(self).base(),
            final(self).seq_floor() == old(self).seq_floor(),
            final(self).spec_seq_no() == old(self).spec_seq_no(),
            final(self).spec_active_file_id() == old(self).spec_active_file_id(),
            final(self).spec_older_file_ids() == old(self).spec_older_file_ids(),
            final(self).spec_write_off() == old(self).spec_write_off(),
            final(self).spec_pending() == old(self).spec_pending(),
            old(self).seq_exact() ==> final(self).seq_exact(),
    {
        let ghost r = ScannedRecord { key: key@, rec_type: LogRecordType::NORMAL, pos, seq: 0 };
        proof {
            lemma_replay_push(self.base@, self.log@, r);
        }
        self.apply_write(key, LogRecordType::NORMAL, pos);
        self.log = Ghost(self.log@.push(r));
    }

    /// The tombstone to write for `key`, or `None` when the directory does
    /// not hold it and nothing needs writing. An empty key is `KeyIsEmpty`.
    pub fn prepare_delete(&self, key: &[u8]) -> (r: Result<Option<LogRecord>>)
        requires
            self.wf(),
        ensures
            key@.len() == 0 ==> r == Err::<Option<LogRecord>, Errors>(Errors::KeyIsEmpty),
            key@.len() > 0 && !self.index_view().contains_key(key@) ==> r == Ok::<
                Option<LogRecord>,
                Errors,
            >(None),
            key@.len() > 0 && self.index_view().contains_key(key@) ==> (r matches Ok(Some(rec))
                && rec.key@ == key_with_seq(key@, 0) && rec.value@.len() == 0 && rec.rec_type
                == LogRecordType::DELETE),
    {
        if key.len() == 0 {
            return Err(Errors::KeyIsEmpty);
        }
        let k = crate::bytes_util::copy_range(key, 0, key.len());
        assert(k@ =~= key@);
        if self.index.get(k).is_none() {
            return Ok(None);
        }
        Ok(Some(LogRecord { key: log_record_key_with_seq(key, 0), value: Vec::new(), rec_type: LogRecordType::DELETE }))
    }

    /// Records a tombstone for `key` written at `pos`.
    pub fn finish_delete(&mut self, key: Vec<u8>, pos: LogRecordPos)
        requires
            old(self).wf(),
        ensures
            final(self).wf(),
            final(self).log() == old(self).log().push(
                ScannedRecord { key: key@, rec_type: LogRecordType::DELETE, pos, seq: 0 },
            ),
            final(self).index_view() == old(self).index_view().remove(key@),
            final(self).spec_reclaim_size() == add_sat(
                old(self).spec_reclaim_size(),
                (pos.size + displaced_size(lookup(old(self).index_view(), key@))) as nat,
            ),
            final(self).base() == old(self).base(),
            final(self).seq_floor() == old(self).seq_floor(),
            final(self).spec_seq_no() == old(self).spec_seq_no(),
            final(self).spec_active_file_id() == old(self).spec_active_file_id(),
            final(self).spec_older_file_ids() == old(self).spec_older_file_ids(),
            final(self).spec_write_off() == old(self).spec_write_off(),
            final(self).spec_pending() == old(self).spec_pending(),
            old(self).seq_exact() ==> final(self).seq_exact(),
    {
        let ghost r = ScannedRecord { key: key@, rec_type: LogRecordType::DELETE, pos, seq: 0 };
        proof {
            lemma_replay_push(self.base@, self.log@, r);
        }
        self.apply_write(key, LogRecordType::DELETE, pos);
        self.log = Ghost(self.log@.push(r));
    }

    /// Applies waiting writes in order.
    fn apply_pending_ops(&mut self, ops: &Vec<PendingOp>)
        requires
            old(self).index_well_formed(),
        ensures
            final(self).index_well_formed(),
            final(self).index_view() == apply_ops(old(self).index_view(), ops_view(ops@)),
            final(self).spec_reclaim_size() == reclaim_after_ops(
                old(self).spec_reclaim_size(),
                old(self).index_view(),
                ops_view(ops@),
            ),
            final(self).log() == old(self).log(),
            final(self).base() == old(self).base(),
            final(self).seq_floor() == old(self).seq_floor(),
            final(self).spec_seq_no() == old(self).spec_seq_no(),
            final(self).spec_max_seen_seq() == old(self).spec_max_seen_seq(),
            final(self).spec_active_file_id() == old(self).spec_active_file_id(),
            final(self).spec_older_file_ids() == old(self).spec_older_file_ids(),
            final(self).spec_write_off() == old(self).spec_write_off(),
            final(self).spec_pending() == old(self).spec_pending(),
    {
        let ghost all = ops_view(ops@);
        let mut i: usize = 0;
        while i < ops.len()
            invariant
                i <= ops@.len(),
                all == ops_view(ops@),
                self.index_well_formed(),
                self.index_view() == apply_ops(old(self).index_view(), all.subrange(0, i as int)),
                self.spec_reclaim_size() == reclaim_after_ops(
                    old(self).spec_reclaim_size(),
                    old(self).index_view(),
                    all.subrange(0, i as int),
                ),
                self.log() == old(self).log(),
                self.base() == old(self).base(),
                self.seq_floor() == old(self).seq_floor(),
                self.spec_seq_no() == old(self).spec_seq_no(),
                self.spec_max_seen_seq() == old(self).spec_max_seen_seq(),
                self.spec_active_file_id() == old(self).spec_active_file_id(),
                self.spec_older_file_ids() == old(self).spec_older_file_ids(),
                self.spec_write_off() == old(self).spec_write_off(),
                self.spec_pending() == old(self).spec_pending(),
            decreases ops@.len() - i,
        {
            let op = &ops[i];
            self.apply_write(crate::index::clone_key(&op.key), op.rec_type, op.pos);
            proof {
                assert(all.subrange(0, i + 1).drop_last() =~= all.subrange(0, i as int));
                assert(all.subrange(0, i + 1).last() == all[i as int]);
            }
            i = i + 1;
        }
        assert(all.subrange(0, ops@.len() as int) =~= all);
    }

    /// The index of the waiting group `seq`, if there is one.
    fn find_pending(&self, seq: u64) -> (r: Option<usize>)
        ensures
            r matches Some(i) ==> i < self.spec_pending().len() && self.spec_pending()[i as int].seq == seq,
            r is None ==> forall|i: int|
                0 <= i < self.spec_pending().len() ==> #[trigger] self.spec_pending()[i].seq != seq,
    {
        let mut i: usize = 0;
        while i < self.pending.len()
            invariant
                i <= self.pending@.len(),
                forall|j: int| 0 <= j < i ==> #[trigger] self.pending@[j].seq != seq,
            decreases self.pending@.len() - i,
        {
            if self.pending[i].seq == seq {
                return Some(i);
            }
            i = i + 1;
        }
        None
    }

    /// Feeds one record of the scan at open: `rec` was read at `offset` of
    /// file `file_id` and took `size` bytes. A key that does not start with
    /// a sequence number, or one with the largest sequence number, is
    /// `DataDirCorrupted` and changes nothing.
    pub fn load_record(&mut self, file_id: u32, offset: u64, rec: LogRecord, size: u32) -> (r: Result<()>)
        requires
            old(self).loading(),
        ensures
            final(self).loading(),
            r is Err ==> *final(self) == *old(self),
            match parse_key_with_seq(rec.key@) {
                None => r == Err::<(), Errors>(Errors::DataDirCorrupted),
                Some((k, seq)) => if seq >= u64::MAX {
                    r == Err::<(), Errors>(Errors::DataDirCorrupted)
                } else {
                    &&& r is Ok
                    &&& final(self).log() == old(self).log().push(
                        ScannedRecord {
                            key: k,
                            rec_type: rec.rec_type,
                            pos: LogRecordPos { file_id, offset, size },
                            seq,
                        },
                    )
                    &&& final(self).spec_seq_no() == (if seq + 1 > old(self).spec_seq_no() {
                        seq + 1
                    } else {
                        old(self).spec_seq_no() as nat
                    })
                    &&& final(self).spec_reclaim_size() == (if seq == 0 {
                        reclaim_after(
                            old(self).spec_reclaim_size(),
                            old(self).index_view(),
                            k,
                            rec.rec_type,
                            LogRecordPos { file_id, offset, size },
                        )
                    } else if rec.rec_type == LogRecordType::TxnFinished {
                        reclaim_after_ops(
                            old(self).spec_reclaim_size(),
                            old(self).index_view(),
                            pending_ops(replay(old(self).base(), old(self).log()).pending, seq),
                        )
                    } else {
                        old(self).spec_reclaim_size()
                    })
                },
            },
            final(self).base() == old(self).base(),
            final(self).seq_floor() == old(self).seq_floor(),
            final(self).spec_active_file_id() == old(self).spec_active_file_id(),
            final(self).spec_older_file_ids() == old(self).spec_older_file_ids(),
            final(self).spec_write_off() == old(self).spec_write_off(),
            old(self).seq_exact() ==> final(self).seq_exact(),
    {
        let (raw, seq) = match parse_log_record_key(rec.key.as_slice()) {
            Ok(x) => x,
            Err(e) => return Err(e),
        };
        if seq == u64::MAX {
            return Err(Errors::DataDirCorrupted);
        }
        let pos = LogRecordPos { file_id, offset, size };
        let ghost e = ScannedRecord { key: raw@, rec_type: rec.rec_type, pos, seq: seq as nat };
        let ghost st = replay(self.base@, self.log@);
        proof {
            lemma_replay_push(self.base@, self.log@, e);
            lemma_pending_bounded(self.base@, self.log@);
        }
        if seq == 0 {
            self.apply_write(raw, rec.rec_type, pos);
        } else if rec.rec_type == LogRecordType::TxnFinished {
            match self.find_pending(seq) {
                Some(i) => {
                    let ghost groups = self.pending@;
                    let g = self.pending.remove(i);
                    proof {
                        lemma_mirrors_remove(groups, st.pending, i as int);
                    }
                    self.apply_pending_ops(&g.ops);
                },
                None => {
                    proof {
                        assert(!st.pending.contains_key(seq as nat));
                        assert(st.pending.remove(seq as nat) =~= st.pending);
                    }
                },
            }
        } else {
            let op = PendingOp { key: raw, rec_type: rec.rec_type, pos };
            let ghost groups = self.pending@;
            match self.find_pending(seq) {
                Some(i) => {
                    let mut g = self.pending.remove(i);
                    proof {
                        lemma_mirrors_remove(groups, st.pending, i as int);
                        assert(ops_view(g.ops@) == pending_ops(st.pending, seq as nat));
                    }
                    let ghost before_ops = g.ops@;
                    g.ops.push(op);
                    proof {
                        assert(ops_view(g.ops@) =~= ops_view(before_ops).push((op.key@, op.rec_type, op.pos)));
                        lemma_mirrors_push(self.pending@, st.pending.remove(seq as nat), g);
                        assert(st.pending.remove(seq as nat).insert(seq as nat, ops_view(g.ops@)) =~= st.pending.insert(
                            seq as nat,
                            pending_ops(st.pending, seq as nat).push((raw@, rec.rec_type, pos)),
                        ));
                    }
                    self.pending.push(g);
                },
                None => {
                    let mut ops: Vec<PendingOp> = Vec::new();
                    ops.push(op);
                    let g = PendingTxn { seq, ops };
                    proof {
                        assert(!st.pending.contains_key(seq as nat));
                        assert(ops_view(g.ops@) =~= Seq::<TxnOp>::empty().push((raw@, rec.rec_type, pos)));
                        lemma_mirrors_push(self.pending@, st.pending, g);
                    }
                    self.pending.push(g);
                },
            }
        }
        if seq > self.max_seen_seq {
            self.max_seen_seq = seq;
        }
        if seq >= self.seq_no {
            self.seq_no = seq + 1;
        }
        self.log = Ghost(self.log@.push(e));
        Ok(())
    }

    /// Feeds one entry of a hint file: `key` lives at `pos`.
    pub fn load_hint_entry(&mut self, key: Vec<u8>, pos: LogRecordPos)
        requires
            old(self).loading(),
        ensures
            final(self).loading(),
            final(self).log() == old(self).log().push(
                ScannedRecord { key: key@, rec_type: LogRecordType::NORMAL, pos, seq: 0 },
            ),
            final(self).index_view() == old(self).index_view().insert(key@, pos),
            final(self).base() == old(self).base(),
            final(self).seq_floor() == old(self).seq_floor(),
            final(self).spec_seq_no() == old(self).spec_seq_no(),
            final(self).spec_active_file_id() == old(self).spec_active_file_id(),
            final(self).spec_older_file_ids() == old(self).spec_older_file_ids(),
            old(self).seq_exact() ==> final(self).seq_exact(),
            final(self).spec_reclaim_size() == old(self).spec_reclaim_size(),
    {
        let ghost r = ScannedRecord { key: key@, rec_type: LogRecordType::NORMAL, pos, seq: 0 };
        proof {
            lemma_replay_push(self.base@, self.log@, r);
        }
        self.index.put(key, pos);
        self.log = Ghost(self.log@.push(r));
    }

    /// Ends the scan: the active file continues at `write_off`, and the
    /// writes of transactions that never finished are dropped.
    pub fn finish_load(&mut self, write_off: u64)
        requires
            old(self).loading(),
        ensures
            final(self).wf(),
            final(self).log() == old(self).log(),
            final(self).index_view() == old(self).index_view(),
            final(self).base() == old(self).base(),
            final(self).seq_floor() == old(self).seq_floor(),
            final(self).spec_seq_no() == old(self).spec_seq_no(),
            final(self).spec_write_off() == write_off,
            final(self).spec_active_file_id() == old(self).spec_active_file_id(),
            final(self).spec_older_file_ids() == old(self).spec_older_file_ids(),
            final(self).spec_pending().len() == 0,
            old(self).seq_exact() ==> final(self).seq_exact(),
            final(self).spec_reclaim_size() == old(self).spec_reclaim_size(),
    {
        self.write_off = write_off;
        self.pending = Vec::new();
    }

    /// Checks a batch and reserves its sequence number: `None` for an empty
    /// batch, which needs no commit; `ExceedMaxBatchNum` for one with more
    /// writes than its options allow.
    pub fn begin_commit(&mut self, batch: &WriteBatch) -> (r: Result<Option<u64>>)
        requires
            old(self).wf(),
            old(self).spec_seq_no() < u64::MAX,
        ensures
            final(self).wf(),
            batch.records().len() == 0 ==> r == Ok::<Option<u64>, Errors>(None) && *final(self) == *old(self),
            batch.records().len() > 0 && batch.records().len() > batch.batch_options().max_batch_num ==> r
                == Err::<Option<u64>, Errors>(Errors::ExceedMaxBatchNum) && *final(self) == *old(self),
            batch.records().len() > 0 && batch.records().len() <= batch.batch_options().max_batch_num ==> {
                &&& r == Ok::<Option<u64>, Errors>(Some(old(self).spec_seq_no()))
                &&& final(self).spec_seq_no() == old(self).spec_seq_no() + 1
                &&& final(self).log() == old(self).log()
                &&& final(self).index_view() == old(self).index_view()
            },
            final(self).base() == old(self).base(),
            final(self).seq_floor() == old(self).seq_floor(),
            final(self).spec_max_seen_seq() == old(self).spec_max_seen_seq(),
            final(self).spec_active_file_id() == old(self).spec_active_file_id(),
            final(self).spec_older_file_ids() == old(self).spec_older_file_ids(),
            final(self).spec_write_off() == old(self).spec_write_off(),
    {
        if batch.len() == 0 {
            return Ok(None);
        }
        if batch.len() > batch.options().max_batch_num {
            return Err(Errors::ExceedMaxBatchNum);
        }
        let seq = self.seq_no;
        self.seq_no = seq + 1;
        Ok(Some(seq))
    }

    /// Records a committed group: staged write `i` of `batch` went to
    /// `positions[i]` under sequence number `seq`, and the finishing record
    /// to `fin_pos`. The directory then takes every write of the group, in
    /// order.
    pub fn finish_commit(&mut self, batch: &WriteBatch, seq: u64, positions: &Vec<LogRecordPos>, fin_pos: LogRecordPos)
        requires
            old(self).wf(),
            batch.wf(),
            positions@.len() == batch.records().len(),
            old(self).spec_max_seen_seq() < seq < old(self).spec_seq_no(),
        ensures
            final(self).wf(),
            final(self).log() == (old(self).log() + txn_entries(
                batch_ops(batch.records(), positions@),
                seq as nat,
            )).push(txn_fin_entry(fin_pos, seq as nat)),
            final(self).index_view() == apply_ops(
                old(self).index_view(),
                batch_ops(batch.records(), positions@),
            ),
            final(self).spec_reclaim_size() == reclaim_after_ops(
                old(self).spec_reclaim_size(),
                old(self).index_view(),
                batch_ops(batch.records(), positions@),
            ),
            final(self).spec_max_seen_seq() == seq,
            final(self).base() == old(self).base(),
            final(self).seq_floor() == old(self).seq_floor(),
            final(self).spec_seq_no() == old(self).spec_seq_no(),
            final(self).spec_active_file_id() == old(self).spec_active_file_id(),
            final(self).spec_older_file_ids() == old(self).spec_older_file_ids(),
            final(self).spec_write_off() == old(self).spec_write_off(),
            seq + 1 == old(self).spec_seq_no() ==> final(self).seq_exact(),
    {
        let ghost ops = batch_ops(batch.records(), positions@);
        let n = batch.len();
        let mut i: usize = 0;
        while i < n
            invariant
                n == batch.records().len(),
                n == positions@.len(),
                i <= n,
                ops == batch_ops(batch.records(), positions@),
                self.index_well_formed(),
                self.index_view() == apply_ops(old(self).index_view(), ops.subrange(0, i as int)),
                self.spec_reclaim_size() == reclaim_after_ops(
                    old(self).spec_reclaim_size(),
                    old(self).index_view(),
                    ops.subrange(0, i as int),
                ),
                self.log() == old(self).log(),
                self.base() == old(self).base(),
                self.seq_floor() == old(self).seq_floor(),
                self.spec_seq_no() == old(self).spec_seq_no(),
                self.spec_max_seen_seq() == old(self).spec_max_seen_seq(),
                self.spec_active_file_id() == old(self).spec_active_file_id(),
                self.spec_older_file_ids() == old(self).spec_older_file_ids(),
                self.spec_write_off() == old(self).spec_write_off(),
            decreases n - i,
        {
            let rec = batch.record(i);
            self.apply_write(crate::index::clone_key(&rec.key), rec.rec_type, positions[i]);
            proof {
                assert(ops.subrange(0, i + 1).drop_last() =~= ops.subrange(0, i as int));
                assert(ops.subrange(0, i + 1).last() == ops[i as int]);
            }
            i = i + 1;
        }
        proof {
            assert(ops.subrange(0, n as int) =~= ops);
            assert forall|j: int| 0 <= j < ops.len() implies (#[trigger] ops[j]).1 != LogRecordType::TxnFinished by {
                assert(ops[j].1 == batch.records()[j].rec_type);
            }
            lemma_replay_txn(self.base@, self.log@, ops, seq as nat, fin_pos);
        }
        self.log = Ghost((self.log@ + txn_entries(ops, seq as nat)).push(txn_fin_entry(fin_pos, seq as nat)));
        self.max_seen_seq = seq;
    }

    /// Closes the active file for a merge and starts the next one; returns
    /// the ids of every closed file, ascending: the files the merge rewrites.
    pub fn rotate_for_merge(&mut self) -> (r: Vec<u32>)
        requires
            old(self).wf(),
            old(self).spec_active_file_id() < u32::MAX,
        ensures
            final(self).wf(),
            r@ == old(self).spec_older_file_ids().push(old(self).spec_active_file_id()),
            strictly_ascending(r@),
            final(self).spec_older_file_ids() == r@,
            final(self).spec_active_file_id() == old(self).spec_active_file_id() + 1,
            final(self).spec_write_off() == 0,
            final(self).log() == old(self).log(),
            final(self).index_view() == old(self).index_view(),
            final(self).base() == old(self).base(),
            final(self).seq_floor() == old(self).seq_floor(),
            final(self).spec_seq_no() == old(self).spec_seq_no(),
            final(self).spec_reclaim_size() == old(self).spec_reclaim_size(),
            old(self).seq_exact() ==> final(self).seq_exact(),
    {
        let old_id = self.active_file_id;
        proof {
            let ids = self.older_file_ids@;
            assert forall|i: int, j: int| 0 <= i < j < ids.push(old_id).len() implies ids.push(old_id)[i]
                < ids.push(old_id)[j] by {
                if j == ids.len() {
                    assert(ids[i] < old_id);
                }
            }
        }
        self.older_file_ids.push(old_id);
        self.active_file_id = old_id + 1;
        self.write_off = 0;
        let mut ids: Vec<u32> = Vec::new();
        let mut i: usize = 0;
        while i < self.older_file_ids.len()
            invariant
                i <= self.older_file_ids@.len(),
                ids@ == self.older_file_ids@.subrange(0, i as int),
            decreases self.older_file_ids@.len() - i,
        {
            ids.push(self.older_file_ids[i]);
            i = i + 1;
            assert(ids@ =~= self.older_file_ids@.subrange(0, i as int));
        }
        assert(ids@ =~= self.older_file_ids@);
        ids
    }

    /// Whether the record of `key` at `offset` in file `file_id` is the one
    /// the directory points at: only such records survive a merge.
    pub fn is_live(&self, key: Vec<u8>, file_id: u32, offset: u64) -> (r: bool)
        requires
            self.wf(),
        ensures
            r == (self.index_view().contains_key(key@) && self.index_view()[key@].file_id == file_id
                && self.index_view()[key@].offset == offset),
    {
        match self.index.get(key) {
            Some(p) => p.file_id == file_id && p.offset == offset,
            None => false,
        }
    }

    /// The store's figures, given the size of its directory on disk.
    pub fn stat(&self, disk_size: u64) -> (r: Stat)
        requires
            self.wf(),
        ensures
            exists|keys: Seq<Vec<u8>>|
                crate::index::keys_listed(self.index_view(), keys) && keys.len() == r.key_num,
            r.data_file_num == self.spec_older_file_ids().len() + 1 || (r.data_file_num == usize::MAX
                && self.spec_older_file_ids().len() == usize::MAX),
            r.reclaim_size == self.spec_reclaim_size(),
            r.disk_size == disk_size,
    {
        let keys = self.index.list_keys();
        let n = self.older_file_ids.len();
        Stat {
            key_num: keys.len(),
            data_file_num: if n == usize::MAX { n } else { n + 1 },
            reclaim_size: self.reclaim_size,
            disk_size,
        }
    }

    /// Persistence: two stores that started from the same directory and
    /// sequence number and saw the same records (one writing them, the other
    /// scanning them back at open) hold the same directory and the same next
    /// sequence number.
    pub proof fn lemma_same_log_same_state(a: &Self, b: &Self)
        requires
            a.wf(),
            b.wf(),
            a.seq_exact(),
            b.seq_exact(),
            a.base() == b.base(),
            a.log() == b.log(),
            a.seq_floor() == b.seq_floor(),
        ensures
            a.index_view() == b.index_view(),
            a.spec_seq_no() == b.spec_seq_no(),
    {
    }

    /// Decides where a record of `record_len` bytes goes. The active file
    /// rolls over first when the record would take it past the size limit;
    /// the write is flushed when every write is, or when the bytes written
    /// since the last flush reach the threshold.
    pub fn plan_append(&mut self, record_len: u32) -> (r: AppendPlan)
        requires
            old(self).wf(),
            old(self).spec_active_file_id() < u32::MAX,
        ensures
            final(self).wf(),
            final(self).log() == old(self).log(),
            final(self).base() == old(self).base(),
            final(self).seq_floor() == old(self).seq_floor(),
            final(self).index_view() == old(self).index_view(),
            final(self).spec_seq_no() == old(self).spec_seq_no(),
            final(self).spec_reclaim_size() == old(self).spec_reclaim_size(),
            final(self).spec_pending() == old(self).spec_pending(),
            final(self).spec_data_file_size() == old(self).spec_data_file_size(),
            final(self).spec_sync_writes() == old(self).spec_sync_writes(),
            final(self).spec_bytes_per_sync() == old(self).spec_bytes_per_sync(),
            r.rotate == (old(self).spec_write_off() + record_len > old(self).spec_data_file_size()),
            r.rotate ==> {
                &&& final(self).spec_active_file_id() == old(self).spec_active_file_id() + 1
                &&& final(self).spec_older_file_ids() == old(self).spec_older_file_ids().push(
                    old(self).spec_active_file_id(),
                )
                &&& r.pos.offset == 0
            },
            !r.rotate ==> {
                &&& final(self).spec_active_file_id() == old(self).spec_active_file_id()
                &&& final(self).spec_older_file_ids() == old(self).spec_older_file_ids()
                &&& r.pos.offset == old(self).spec_write_off()
            },
            r.pos.file_id == final(self).spec_active_file_id(),
            r.pos.size == record_len,
            final(self).spec_write_off() == r.pos.offset + record_len,
            r.sync == (old(self).spec_sync_writes() || (old(self).spec_bytes_per_sync() > 0 && add_sat(
                old(self).spec_bytes_write(),
                record_len as nat,
            ) >= old(self).spec_bytes_per_sync())),
            final(self).spec_bytes_write() == (if r.sync {
                0
            } else {
                add_sat(old(self).spec_bytes_write(), record_len as nat)
            }),
            old(self).seq_exact() ==> final(self).seq_exact(),
    {
        let len = record_len as u64;
        let rotate = self.write_off > self.data_file_size || len > self.data_file_size - self.write_off;
        if rotate {
            let old_id = self.active_file_id;
            proof {
                let ids = self.older_file_ids@;
                assert forall|i: int, j: int| 0 <= i < j < ids.push(old_id).len() implies ids.push(old_id)[i]
                    < ids.push(old_id)[j] by {
                    if j == ids.len() {
                        assert(ids[i] < old_id);
                    }
                }
            }
            self.older_file_ids.push(old_id);
            self.active_file_id = old_id + 1;
            self.write_off = 0;
        }
        let offset = self.write_off;
        self.write_off = offset + len;
        let written = if self.bytes_write > u64::MAX - len { u64::MAX } else { self.bytes_write + len };
        let sync = self.sync_writes || (self.bytes_per_sync > 0 && written >= self.bytes_per_sync);
        self.bytes_write = if sync { 0 } else { written };
        AppendPlan {
            rotate,
            pos: LogRecordPos { file_id: self.active_file_id, offset, size: record_len },
            sync,
        }
    }
}

} // verus!
