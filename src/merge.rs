//! Merge: which records survive, when a merge may run, and the marker and
//! sidecar records around it.
use vstd::prelude::*;
use crate::batch::{key_with_seq, log_record_key_with_seq};
use crate::bytes_util::{copy_range, ends_with, has_suffix};
use crate::data_file::{all_digits, data_suffix, decimal, decimal_value, parse_decimal, u64_to_decimal};
use crate::engine::{strictly_ascending, EngineCore, ScannedRecord};
use crate::errors::{Errors, Result};
use crate::index::{lookup, Indexer};
use crate::log_record::{encode_pos, LogRecord, LogRecordPos, LogRecordType};
use crate::options::{IndexType, MergeRatio};

verus! {

/// The raw key of the merge-completion record.
pub open spec fn merge_fin_key() -> Seq<u8> {
    seq![109u8, 101u8, 114u8, 103u8, 101u8, 46u8, 102u8, 105u8, 110u8, 105u8, 115u8, 104u8, 101u8, 100u8]
}

/// The raw key of the sequence-number record.
pub open spec fn seq_no_key() -> Seq<u8> {
    seq![115u8, 101u8, 113u8, 46u8, 110u8, 111u8]
}

/// The record `r` is the one the directory points at for its key.
pub open spec fn is_live_in(m: Map<Seq<u8>, LogRecordPos>, r: ScannedRecord) -> bool {
    m.contains_key(r.key) && m[r.key].file_id == r.pos.file_id && m[r.key].offset == r.pos.offset
}

/// The directory that a merge's hint file gives: in scan order, each live
/// record points its key at its rewritten copy `new_pos[i]`.
pub open spec fn hint_map(m: Map<Seq<u8>, LogRecordPos>, recs: Seq<ScannedRecord>, new_pos: Seq<LogRecordPos>) -> Map<
    Seq<u8>,
    LogRecordPos,
>
    decreases recs.len(),
{
    if recs.len() == 0 {
        Map::empty()
    } else {
        let prev = hint_map(m, recs.drop_last(), new_pos);
        if is_live_in(m, recs.last()) {
            prev.insert(recs.last().key, new_pos[recs.len() - 1])
        } else {
            prev
        }
    }
}

proof fn lemma_hint_map_keys(m: Map<Seq<u8>, LogRecordPos>, recs: Seq<ScannedRecord>, new_pos: Seq<LogRecordPos>, k: Seq<u8>)
    ensures
        hint_map(m, recs, new_pos).contains_key(k) <==> exists|i: int|
            0 <= i < recs.len() && (#[trigger] recs[i]).key == k && is_live_in(m, recs[i]),
    decreases recs.len(),
{
    if recs.len() > 0 {
        let prev = recs.drop_last();
        lemma_hint_map_keys(m, prev, new_pos, k);
        if exists|i: int| 0 <= i < prev.len() && (#[trigger] prev[i]).key == k && is_live_in(m, prev[i]) {
            let i = choose|i: int| 0 <= i < prev.len() && (#[trigger] prev[i]).key == k && is_live_in(m, prev[i]);
            assert(recs[i] == prev[i]);
        }
        if exists|i: int| 0 <= i < recs.len() && (#[trigger] recs[i]).key == k && is_live_in(m, recs[i]) {
            let i = choose|i: int| 0 <= i < recs.len() && (#[trigger] recs[i]).key == k && is_live_in(m, recs[i]);
            if i < recs.len() - 1 {
                assert(prev[i] == recs[i]);
            }
        }
    }
}

/// Merge preservation: where the merged files hold, for every live key, the
/// record the directory points at, the hint file of the merge gives back
/// exactly the keys of the directory, each at the rewritten copy of its
/// live record.
pub proof fn lemma_merge_preserves_keys(
    m: Map<Seq<u8>, LogRecordPos>,
    recs: Seq<ScannedRecord>,
    new_pos: Seq<LogRecordPos>,
)
    requires
        new_pos.len() == recs.len(),
        forall|k: Seq<u8>| #[trigger]
            m.contains_key(k) ==> exists|i: int|
                0 <= i < recs.len() && (#[trigger] recs[i]).key == k && is_live_in(m, recs[i]),
    ensures
        hint_map(m, recs, new_pos).dom() == m.dom(),
{
    assert forall|k: Seq<u8>| hint_map(m, recs, new_pos).contains_key(k) <==> m.contains_key(k) by {
        lemma_hint_map_keys(m, recs, new_pos, k);
    }
    assert(hint_map(m, recs, new_pos).dom() =~= m.dom());
}

/// Whether a merge may run, given the reclaimable bytes, the size of the
/// directory and the free space on its disk. An empty directory needs no
/// merge (`false`); a reclaimable share below the ratio is
/// `MergeRatioUnreached`; live data that would not fit in the free space is
/// `MergeNoEnoughSpace`.
pub fn merge_check(reclaim: u64, total: u64, available: u64, ratio: MergeRatio) -> (r: Result<bool>)
    ensures
        total == 0 ==> r == Ok::<bool, Errors>(false),
        total > 0 && reclaim * ratio.denominator < ratio.numerator * total ==> r == Err::<bool, Errors>(
            Errors::MergeRatioUnreached,
        ),
        total > 0 && reclaim * ratio.denominator >= ratio.numerator * total && (if reclaim >= total {
            0
        } else {
            total - reclaim
        }) >= available ==> r == Err::<bool, Errors>(Errors::MergeNoEnoughSpace),
        total > 0 && reclaim * ratio.denominator >= ratio.numerator * total && (if reclaim >= total {
            0
        } else {
            total - reclaim
        }) < available ==> r == Ok::<bool, Errors>(true),
{
    if total == 0 {
        return Ok(false);
    }
    let a = reclaim as u128;
    let b = ratio.denominator as u128;
    let c = ratio.numerator as u128;
    let d = total as u128;
    proof {
        lemma_mul_fits_u128(a, b);
        lemma_mul_fits_u128(c, d);
    }
    let lhs = a * b;
    let rhs = c * d;
    if lhs < rhs {
        return Err(Errors::MergeRatioUnreached);
    }
    let live = if reclaim >= total { 0 } else { total - reclaim };
    if live >= available {
        return Err(Errors::MergeNoEnoughSpace);
    }
    Ok(true)
}

proof fn lemma_mul_fits_u128(a: u128, b: u128)
    requires
        a <= u64::MAX,
        b <= u64::MAX,
    ensures
        a * b <= u128::MAX,
{
    assert(a * b <= u64::MAX * u64::MAX) by (nonlinear_arith)
        requires
            a <= u64::MAX,
            b <= u64::MAX,
    ;
    assert(u64::MAX * u64::MAX <= u128::MAX);
}

/// The first file id that a merge of `ids` (ascending, non-empty) leaves
/// alone.
pub fn merge_boundary(ids: &Vec<u32>) -> (r: u32)
    requires
        ids@.len() > 0,
        ids@.last() < u32::MAX,
    ensures
        r == ids@.last() + 1,
{
    ids[ids.len() - 1] + 1
}

/// A record rewritten by merge: the raw key under sequence number zero,
/// the same value and kind.
pub fn merge_rewrite_record(raw_key: &[u8], rec: LogRecord) -> (r: LogRecord)
    ensures
        r.key@ == key_with_seq(raw_key@, 0),
        r.value@ == rec.value@,
        r.rec_type == rec.rec_type,
{
    LogRecord { key: log_record_key_with_seq(raw_key, 0), value: rec.value, rec_type: rec.rec_type }
}

/// The hint-file entry for `key` at `pos`: a value record whose value is
/// the encoded position.
pub fn hint_record(key: Vec<u8>, pos: LogRecordPos) -> (r: LogRecord)
    ensures
        r.key@ == key@,
        r.value@ == encode_pos(pos),
        r.rec_type == LogRecordType::NORMAL,
{
    LogRecord { key, value: pos.encode(), rec_type: LogRecordType::NORMAL }
}

/// A value record holding `n` in decimal under `key`.
fn decimal_record(key: Vec<u8>, n: u64) -> (r: LogRecord)
    ensures
        r.key@ == key@,
        r.value@ == decimal(n as nat),
        r.rec_type == LogRecordType::NORMAL,
{
    LogRecord { key, value: u64_to_decimal(n), rec_type: LogRecordType::NORMAL }
}

/// The merge-completion record: the first file id the merge left alone.
pub fn merge_fin_record(boundary: u32) -> (r: LogRecord)
    ensures
        r.key@ == merge_fin_key(),
        r.value@ == decimal(boundary as nat),
        r.rec_type == LogRecordType::NORMAL,
{
    let key: Vec<u8> = vec![109u8, 101u8, 114u8, 103u8, 101u8, 46u8, 102u8, 105u8, 110u8, 105u8, 115u8, 104u8, 101u8, 100u8];
    assert(key@ =~= merge_fin_key());
    decimal_record(key, boundary as u64)
}

/// The sequence-number record written at close.
pub fn seq_no_record(seq_no: u64) -> (r: LogRecord)
    ensures
        r.key@ == seq_no_key(),
        r.value@ == decimal(seq_no as nat),
        r.rec_type == LogRecordType::NORMAL,
{
    let key: Vec<u8> = vec![115u8, 101u8, 113u8, 46u8, 110u8, 111u8];
    assert(key@ =~= seq_no_key());
    decimal_record(key, seq_no)
}

/// The number that a marker record holds; `DataDirCorrupted` where its
/// value is not a decimal number that fits in 64 bits.
pub fn parse_decimal_record(rec: &LogRecord) -> (r: Result<u64>)
    ensures
        all_digits(rec.value@) && decimal_value(rec.value@) <= u64::MAX ==> (r matches Ok(v) && v as nat
            == decimal_value(rec.value@)),
        !(all_digits(rec.value@) && decimal_value(rec.value@) <= u64::MAX) ==> r == Err::<u64, Errors>(
            Errors::DataDirCorrupted,
        ),
{
    match parse_decimal(rec.value.as_slice()) {
        Some(v) => Ok(v),
        None => Err(Errors::DataDirCorrupted),
    }
}

/// The bytes of `-merge`.
pub open spec fn merge_suffix() -> Seq<u8> {
    seq![45u8, 109u8, 101u8, 114u8, 103u8, 101u8]
}

/// The name of the sibling directory a merge of the directory named
/// `dir_name` writes to: that name with `-merge` appended.
pub fn merge_dir_name(dir_name: &[u8]) -> (r: Vec<u8>)
    ensures
        r@ == dir_name@ + merge_suffix(),
{
    let mut r = copy_range(dir_name, 0, dir_name.len());
    let suffix: [u8; 6] = [45u8, 109u8, 101u8, 114u8, 103u8, 101u8];
    assert(suffix@ =~= merge_suffix());
    assert(r@ =~= dir_name@);
    crate::bytes_util::append_bytes(&mut r, suffix.as_slice());
    r
}

/// Whether a file of a finished merge directory moves into the data
/// directory: all but the lock file and the sequence-number file.
pub fn should_move_merged_file(name: &[u8]) -> (r: bool)
    ensures
        r == !(has_suffix(name@, seq![102u8, 108u8, 111u8, 99u8, 107u8]) || has_suffix(
            name@,
            seq![115u8, 101u8, 113u8, 45u8, 110u8, 111u8],
        )),
{
    let lock: [u8; 5] = [102u8, 108u8, 111u8, 99u8, 107u8];
    let seq: [u8; 6] = [115u8, 101u8, 113u8, 45u8, 110u8, 111u8];
    assert(lock@ =~= seq![102u8, 108u8, 111u8, 99u8, 107u8]);
    assert(seq@ =~= seq![115u8, 101u8, 113u8, 45u8, 110u8, 111u8]);
    !(ends_with(name, lock.as_slice()) || ends_with(name, seq.as_slice()))
}

/// The id of a data file from its name: `None` for a name that does not end
/// in `.data`; `DataDirCorrupted` for one whose stem is not a number that
/// fits in 32 bits.
pub fn parse_data_file_id(name: &[u8]) -> (r: Result<Option<u32>>)
    ensures
        !has_suffix(name@, data_suffix()) ==> r == Ok::<Option<u32>, Errors>(None),
        has_suffix(name@, data_suffix()) ==> ({
            let stem = name@.subrange(0, name@.len() - 5);
            if all_digits(stem) && decimal_value(stem) <= u32::MAX {
                r == Ok::<Option<u32>, Errors>(Some(decimal_value(stem) as u32))
            } else {
                r == Err::<Option<u32>, Errors>(Errors::DataDirCorrupted)
            }
        }),
{
    let suffix: [u8; 5] = [46u8, 100u8, 97u8, 116u8, 97u8];
    assert(suffix@ =~= data_suffix());
    if !ends_with(name, suffix.as_slice()) {
        return Ok(None);
    }
    let stem = copy_range(name, 0, name.len() - 5);
    match parse_decimal(stem.as_slice()) {
        Some(v) => {
            if v > u32::MAX as u64 {
                Err(Errors::DataDirCorrupted)
            } else {
                Ok(Some(v as u32))
            }
        },
        None => Err(Errors::DataDirCorrupted),
    }
}

/// The ids, ascending and without repeats.
pub fn sorted_file_ids(ids: &Vec<u32>) -> (r: Vec<u32>)
    ensures
        strictly_ascending(r@),
        forall|x: u32| r@.contains(x) <==> ids@.contains(x),
{
    let mut out: Vec<u32> = Vec::new();
    let mut i: usize = 0;
    while i < ids.len()
        invariant
            i <= ids@.len(),
            strictly_ascending(out@),
            forall|x: u32| out@.contains(x) <==> ids@.subrange(0, i as int).contains(x),
        decreases ids@.len() - i,
    {
        let x = ids[i];
        let ghost before = out@;
        assert(forall|y: u32| before.contains(y) <==> ids@.subrange(0, i as int).contains(y));
        let mut j: usize = 0;
        while j < out.len() && out[j] < x
            invariant
                out@ == before,
                i < ids@.len(),
                x == ids@[i as int],
                strictly_ascending(before),
                forall|y: u32| before.contains(y) <==> ids@.subrange(0, i as int).contains(y),
                j <= out@.len(),
                forall|k: int| 0 <= k < j ==> out@[k] < x,
            decreases out@.len() - j,
        {
            j = j + 1;
        }
        if j < out.len() && out[j] == x {
            proof {
                assert(ids@.subrange(0, i + 1) =~= ids@.subrange(0, i as int).push(x));
                assert forall|y: u32| out@.contains(y) <==> ids@.subrange(0, i + 1).contains(y) by {
                    let pre = ids@.subrange(0, i as int);
                    let cur = ids@.subrange(0, i + 1);
                    assert(cur[i as int] == x);
                    if y == x {
                        assert(out@[j as int] == x);
                    }
                    if out@.contains(y) && y != x {
                        let m = choose|m: int| 0 <= m < pre.len() && #[trigger] pre[m] == y;
                        assert(cur[m] == y);
                    }
                    if cur.contains(y) && y != x {
                        let k = choose|k: int| 0 <= k < i + 1 && #[trigger] cur[k] == y;
                        assert(pre[k] == y);
                    }
                }
            }
        } else {
            out.insert(j, x);
            proof {
                assert(ids@.subrange(0, i + 1) =~= ids@.subrange(0, i as int).push(x));
                assert forall|a: int, b: int| 0 <= a < b < out@.len() implies out@[a] < out@[b] by {
                    if b < j {
                        assert(out@[a] == before[a] && out@[b] == before[b]);
                    } else if b == j {
                        assert(out@[a] == before[a]);
                    } else if a < j {
                        assert(out@[b] == before[b - 1]);
                        assert(out@[a] == before[a] || a == j);
                        if j < before.len() {
                            assert(before[j as int] > x);
                            if b - 1 > j {
                                assert(before[j as int] < before[b - 1]);
                            }
                        }
                    } else if a == j {
                        assert(out@[b] == before[b - 1]);
                        assert(before[j as int] >= x);
                        if b - 1 > j {
                            assert(before[j as int] < before[b - 1]);
                        }
                    } else {
                        assert(out@[a] == before[a - 1] && out@[b] == before[b - 1]);
                    }
                }
                assert forall|y: u32| out@.contains(y) <==> ids@.subrange(0, i + 1).contains(y) by {
                    let pre = ids@.subrange(0, i as int);
                    let cur = ids@.subrange(0, i + 1);
                    assert(cur[i as int] == x);
                    if out@.contains(y) {
                        let k = choose|k: int| 0 <= k < out@.len() && #[trigger] out@[k] == y;
                        if k != j {
                            let k0 = if k < j { k } else { k - 1 };
                            assert(before[k0] == y);
                            assert(before.contains(y));
                            let m = choose|m: int| 0 <= m < pre.len() && #[trigger] pre[m] == y;
                            assert(cur[m] == y);
                        }
                    }
                    if cur.contains(y) {
                        if y == x {
                            assert(out@[j as int] == x);
                        } else {
                            let k = choose|k: int| 0 <= k < i + 1 && #[trigger] cur[k] == y;
                            assert(k < i);
                            assert(pre[k] == y);
                            assert(pre.contains(y));
                            assert(before.contains(y));
                            let m = choose|m: int| 0 <= m < before.len() && #[trigger] before[m] == y;
                            if m < j {
                                assert(out@[m] == y);
                            } else {
                                assert(out@[m + 1] == y);
                            }
                        }
                    }
                }
            }
        }
        i = i + 1;
    }
    assert(ids@.subrange(0, ids@.len() as int) =~= ids@);
    out
}

/// Where, in ascending file ids, the files that a merge with first
/// untouched id `boundary` left alone begin: those before it were replaced
/// by the merge (an install deletes them), those from it on are scanned at
/// open.
pub fn first_unmerged(ids: &Vec<u32>, boundary: u32) -> (r: usize)
    requires
        strictly_ascending(ids@),
    ensures
        r <= ids@.len(),
        forall|i: int| 0 <= i < r ==> #[trigger] ids@[i] < boundary,
        forall|i: int| r <= i < ids@.len() ==> #[trigger] ids@[i] >= boundary,
{
    let mut i: usize = 0;
    while i < ids.len() && ids[i] < boundary
        invariant
            i <= ids@.len(),
            strictly_ascending(ids@),
            forall|j: int| 0 <= j < i ==> #[trigger] ids@[j] < boundary,
        decreases ids@.len() - i,
    {
        i = i + 1;
    }
    proof {
        assert forall|j: int| i <= j < ids@.len() implies #[trigger] ids@[j] >= boundary by {
            if j > i {
                assert(ids@[i as int] < ids@[j]);
            }
        }
    }
    i
}

/// Whether a file name is that of the merge-completion marker.
pub fn is_merge_fin_file(name: &[u8]) -> (r: bool)
    ensures
        r == has_suffix(name@, seq![109u8, 101u8, 114u8, 103u8, 101u8, 45u8, 102u8, 105u8, 110u8]),
{
    let fin: [u8; 9] = [109u8, 101u8, 114u8, 103u8, 101u8, 45u8, 102u8, 105u8, 110u8];
    assert(fin@ =~= seq![109u8, 101u8, 114u8, 103u8, 101u8, 45u8, 102u8, 105u8, 110u8]);
    ends_with(name, fin.as_slice())
}

/// Whether a write batch can be used: with the persistent index, only on a
/// directory created by this open or one closed cleanly (which left its
/// sequence-number file); else `UnableToUseWriteBatch`.
pub fn check_write_batch(index_type: IndexType, seq_file_exists: bool, is_initial: bool) -> (r: Result<()>)
    ensures
        index_type == IndexType::BPTree && !seq_file_exists && !is_initial ==> r == Err::<(), Errors>(
            Errors::UnableToUseWriteBatch,
        ),
        !(index_type == IndexType::BPTree && !seq_file_exists && !is_initial) ==> r == Ok::<(), Errors>(()),
{
    if index_type == IndexType::BPTree && !seq_file_exists && !is_initial {
        return Err(Errors::UnableToUseWriteBatch);
    }
    Ok(())
}

} // verus!
