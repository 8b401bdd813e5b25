//! Statistics aggregator: groups extracted records by (workload, event) and
//! computes the exact integer moments of each group — trial count, sum, sum
//! of squares, minimum and maximum. Mean and sample standard deviation are
//! ratios of these moments and are left to the caller's presentation layer,
//! since they are not integers; the moments here determine them exactly.

use vstd::prelude::*;
use crate::errors::StatsError;
use crate::extract::{bytes_eq, ExtractedRecord, RecordData, records_view};
use crate::tabular::copy_bytes;

verus! {

/// Whether a record belongs to the (workload, event) group.
pub open spec fn key_match(r: RecordData, w: Seq<u8>, e: Seq<u8>) -> bool {
    r.workload == w && r.event == e
}

/// How many records the group holds.
pub open spec fn key_count(rs: Seq<RecordData>, w: Seq<u8>, e: Seq<u8>) -> nat
    decreases rs.len(),
{
    if rs.len() == 0 {
        0
    } else {
        key_count(rs.drop_last(), w, e) + if key_match(rs.last(), w, e) {
            1nat
        } else {
            0nat
        }
    }
}

/// The sum of the group's values.
pub open spec fn key_sum(rs: Seq<RecordData>, w: Seq<u8>, e: Seq<u8>) -> nat
    decreases rs.len(),
{
    if rs.len() == 0 {
        0
    } else {
        key_sum(rs.drop_last(), w, e) + if key_match(rs.last(), w, e) {
            rs.last().value as nat
        } else {
            0nat
        }
    }
}

/// The sum of the squares of the group's values.
pub open spec fn key_sumsq(rs: Seq<RecordData>, w: Seq<u8>, e: Seq<u8>) -> nat
    decreases rs.len(),
{
    if rs.len() == 0 {
        0
    } else {
        key_sumsq(rs.drop_last(), w, e) + if key_match(rs.last(), w, e) {
            (rs.last().value * rs.last().value) as nat
        } else {
            0nat
        }
    }
}

/// The smallest value of the group (the largest `u64` when it is empty).
pub open spec fn key_min(rs: Seq<RecordData>, w: Seq<u8>, e: Seq<u8>) -> nat
    decreases rs.len(),
{
    if rs.len() == 0 {
        u64::MAX as nat
    } else {
        let m = key_min(rs.drop_last(), w, e);
        if key_match(rs.last(), w, e) && (rs.last().value as nat) < m {
            rs.last().value as nat
        } else {
            m
        }
    }
}

/// The largest value of the group (zero when it is empty).
pub open spec fn key_max(rs: Seq<RecordData>, w: Seq<u8>, e: Seq<u8>) -> nat
    decreases rs.len(),
{
    if rs.len() == 0 {
        0
    } else {
        let m = key_max(rs.drop_last(), w, e);
        if key_match(rs.last(), w, e) && (rs.last().value as nat) > m {
            rs.last().value as nat
        } else {
            m
        }
    }
}

/// The summary of one (workload, event) group.
pub struct StatsSummary {
    pub workload: Vec<u8>,
    pub event: Vec<u8>,
    pub count: u64,
    pub sum: u128,
    pub sum_sq: u128,
    pub min: u64,
    pub max: u64,
}

/// The mathematical content of one summary.
pub struct SummaryData {
    pub workload: Seq<u8>,
    pub event: Seq<u8>,
    pub count: u64,
    pub sum: u128,
    pub sum_sq: u128,
    pub min: u64,
    pub max: u64,
}

impl View for StatsSummary {
    type V = SummaryData;

    open spec fn view(&self) -> SummaryData {
        SummaryData {
            workload: self.workload@,
            event: self.event@,
            count: self.count,
            sum: self.sum,
            sum_sq: self.sum_sq,
            min: self.min,
            max: self.max,
        }
    }
}

/// A summary reports exactly the moments of its group over `rs`.
pub open spec fn summary_ok(s: SummaryData, rs: Seq<RecordData>) -> bool {
    &&& s.count >= 1
    &&& s.count as nat == key_count(rs, s.workload, s.event)
    &&& s.sum as nat == key_sum(rs, s.workload, s.event)
    &&& s.sum_sq as nat == key_sumsq(rs, s.workload, s.event)
    &&& s.min as nat == key_min(rs, s.workload, s.event)
    &&& s.max as nat == key_max(rs, s.workload, s.event)
}

/// An empty group has zero moments.
proof fn lemma_no_trials(rs: Seq<RecordData>, w: Seq<u8>, e: Seq<u8>)
    requires
        key_count(rs, w, e) == 0,
    ensures
        key_sum(rs, w, e) == 0,
        key_sumsq(rs, w, e) == 0,
        key_min(rs, w, e) == u64::MAX as nat,
        key_max(rs, w, e) == 0,
    decreases rs.len(),
{
    if rs.len() > 0 {
        lemma_no_trials(rs.drop_last(), w, e);
    }
}

/// Single-trial law: statistics over a one-record group report one trial,
/// minimum equal to maximum equal to that record's value (so the mean, the
/// sum over the count, equals it too), and zero variance: the
/// Bessel-corrected variance numerator `count * sumsq - sum * sum` is zero.
pub proof fn lemma_single_trial_stats(rs: Seq<RecordData>, w: Seq<u8>, e: Seq<u8>)
    requires
        key_count(rs, w, e) == 1,
    ensures
        key_min(rs, w, e) == key_max(rs, w, e),
        key_sum(rs, w, e) == key_min(rs, w, e),
        key_sumsq(rs, w, e) == key_min(rs, w, e) * key_min(rs, w, e),
        key_count(rs, w, e) * key_sumsq(rs, w, e) == key_sum(rs, w, e) * key_sum(rs, w, e),
    decreases rs.len(),
{
    if rs.len() > 0 {
        if key_match(rs.last(), w, e) {
            lemma_no_trials(rs.drop_last(), w, e);
        } else {
            lemma_single_trial_stats(rs.drop_last(), w, e);
        }
    }
}

/// A group holds records only when some record carries its key.
proof fn lemma_count_positive_has_record(rs: Seq<RecordData>, w: Seq<u8>, e: Seq<u8>)
    requires
        key_count(rs, w, e) > 0,
    ensures
        exists|k: int| 0 <= k < rs.len() && key_match(#[trigger] rs[k], w, e),
    decreases rs.len(),
{
    if rs.len() > 0 {
        if key_match(rs.last(), w, e) {
            assert(key_match(rs[rs.len() - 1], w, e));
        } else {
            lemma_count_positive_has_record(rs.drop_last(), w, e);
            let k = choose|k: int| 0 <= k < rs.drop_last().len() && key_match(
                #[trigger] rs.drop_last()[k],
                w,
                e,
            );
            assert(key_match(rs[k], w, e));
        }
    }
}

/// The group moments never shrink as records are appended.
proof fn lemma_moments_monotone(rs: Seq<RecordData>, w: Seq<u8>, e: Seq<u8>, i: int)
    requires
        0 <= i <= rs.len(),
    ensures
        key_sumsq(rs.take(i), w, e) <= key_sumsq(rs, w, e),
        key_sum(rs.take(i), w, e) <= key_sum(rs, w, e),
        key_count(rs.take(i), w, e) <= key_count(rs, w, e),
    decreases rs.len() - i,
{
    if i < rs.len() {
        lemma_moments_monotone(rs, w, e, i + 1);
        assert(rs.take(i + 1).drop_last() =~= rs.take(i));
        assert(rs.take(i + 1).last() == rs[i]);
    } else {
        assert(rs.take(i) =~= rs);
    }
}

/// The count and the sum of a group are bounded by the records seen.
proof fn lemma_moments_bounded(rs: Seq<RecordData>, w: Seq<u8>, e: Seq<u8>)
    ensures
        key_count(rs, w, e) <= rs.len(),
        key_sum(rs, w, e) <= rs.len() * (u64::MAX as nat),
    decreases rs.len(),
{
    if rs.len() > 0 {
        lemma_moments_bounded(rs.drop_last(), w, e);
        assert((rs.len() - 1) * (u64::MAX as nat) + u64::MAX as nat == rs.len() * (
        u64::MAX as nat)) by (nonlinear_arith)
            requires rs.len() >= 1;
    }
}

/// The first summary of the group, or the group count when none exists.
fn find_summary(out: &Vec<StatsSummary>, w: &Vec<u8>, e: &Vec<u8>) -> (j: usize)
    ensures
        j <= out@.len(),
        j < out@.len() ==> out@[j as int]@.workload == w@ && out@[j as int]@.event == e@,
        forall|k: int|
            0 <= k < j ==> !(#[trigger] out@[k]@.workload == w@ && out@[k]@.event == e@),
{
    let n = out.len();
    let mut j: usize = 0;
    while j < n
        invariant
            n == out@.len(),
            j <= n,
            forall|k: int|
                0 <= k < j ==> !(#[trigger] out@[k]@.workload == w@ && out@[k]@.event == e@),
        decreases n - j,
    {
        if bytes_eq(&out[j].workload, w) && bytes_eq(&out[j].event, e) {
            return j;
        }
        j = j + 1;
    }
    j
}

/// Whether some summary reports the (workload, event) group.
pub open spec fn covers(out: Seq<StatsSummary>, w: Seq<u8>, e: Seq<u8>) -> bool {
    exists|j: int| 0 <= j < out.len() && #[trigger] out[j]@.workload == w && out[j]@.event == e
}

/// Groups records by (workload, event) and computes each group's moments.
/// Every record's group is reported exactly once; groups carry at least one
/// trial. Fails only when a group's sum of squares no longer fits the
/// accumulator, and that failure is reported once.
pub fn aggregate(records: &Vec<ExtractedRecord>) -> (r: Result<Vec<StatsSummary>, StatsError>)
    ensures
        r matches Ok(out) ==> {
            let rv = records_view(records@);
            &&& forall|j: int|
                0 <= j < out@.len() ==> summary_ok(#[trigger] out@[j]@, rv)
            &&& forall|j1: int, j2: int|
                0 <= j1 < j2 < out@.len() ==> !(#[trigger] out@[j1]@.workload == #[trigger] out@[j2]@.workload
                    && out@[j1]@.event == out@[j2]@.event)
            &&& forall|k: int|
                #![trigger rv[k]]
                0 <= k < rv.len() ==> covers(out@, rv[k].workload, rv[k].event)
        },
        r is Err <==> exists|k: int|
            0 <= k < records@.len() && key_sumsq(
                records_view(records@),
                #[trigger] records_view(records@)[k].workload,
                records_view(records@)[k].event,
            ) > u128::MAX,
        r is Err ==> r->Err_0 == StatsError::Overflow,
{
    let ghost rv = records_view(records@);
    let n = records.len();
    let mut out: Vec<StatsSummary> = Vec::new();
    let mut i: usize = 0;
    while i < n
        invariant
            n == records@.len(),
            rv == records_view(records@),
            i <= n,
            forall|j: int| 0 <= j < out@.len() ==> summary_ok(#[trigger] out@[j]@, rv.take(i as int)),
            forall|j1: int, j2: int|
                0 <= j1 < j2 < out@.len() ==> !(#[trigger] out@[j1]@.workload == #[trigger] out@[j2]@.workload
                    && out@[j1]@.event == out@[j2]@.event),
            forall|k: int|
                #![trigger rv[k]]
                0 <= k < i ==> covers(out@, rv[k].workload, rv[k].event),
        decreases n - i,
    {
        proof {
            assert(rv.take(i + 1).drop_last() =~= rv.take(i as int));
            assert(rv.take(i + 1).last() == rv[i as int]);
        }
        let rec = &records[i];
        let ghost w = rv[i as int].workload;
        let ghost e = rv[i as int].event;
        let v = rec.value;
        proof {
            assert((v as nat) * (v as nat) <= (u64::MAX as nat) * (u64::MAX as nat))
                by (nonlinear_arith)
                requires v <= u64::MAX;
            assert((u64::MAX as nat) * (u64::MAX as nat) < (u128::MAX as nat));
        }
        let vv: u128 = (v as u128) * (v as u128);
        let j = find_summary(&out, &rec.workload, &rec.event);
        if j < out.len() {
            let ghost out_before = out@;
            let mut s = out.remove(j);
            proof {
                assert(key_count(rv.take(i + 1), s@.workload, s@.event) == key_count(
                    rv.take(i as int),
                    s@.workload,
                    s@.event,
                ) + 1);
                lemma_moments_bounded(rv.take(i as int), s@.workload, s@.event);
                assert(key_sum(rv.take(i as int), s@.workload, s@.event) + v as nat <= (i as nat)
                    * (u64::MAX as nat) + u64::MAX as nat);
                assert((i as nat) * (u64::MAX as nat) + u64::MAX as nat <= (u64::MAX as nat) * (
                u64::MAX as nat) + u64::MAX as nat) by (nonlinear_arith)
                    requires i as nat <= u64::MAX as nat;
                assert((u64::MAX as nat) * (u64::MAX as nat) + (u64::MAX as nat) < (
                    u128::MAX as nat));
            }
            s.count = s.count + 1;
            s.sum = s.sum + (v as u128);
            s.sum_sq = match s.sum_sq.checked_add(vv) {
                Some(x) => x,
                None => {
                    proof {
                        assert(key_sumsq(rv.take(i + 1), w, e) > u128::MAX);
                        lemma_moments_monotone(rv, w, e, i + 1);
                    }
                    return Err(StatsError::Overflow);
                }
            };
            if v < s.min {
                s.min = v;
            }
            if v > s.max {
                s.max = v;
            }
            let ghost snew = s@;
            out.insert(j, s);
            proof {
                assert(out@ =~= out_before.update(j as int, s));
                assert forall|x: int| 0 <= x < out@.len() implies #[trigger] out@[x]@.workload
                    == out_before[x]@.workload && out@[x]@.event == out_before[x]@.event by {
                    if x != j {
                        assert(out@[x] == out_before[x]);
                    }
                }
                assert(summary_ok(snew, rv.take(i + 1)));
                assert forall|j2: int| 0 <= j2 < out@.len() implies summary_ok(
                    #[trigger] out@[j2]@,
                    rv.take(i + 1),
                ) by {
                    if j2 != j {
                        assert(out@[j2] == out_before[j2]);
                        assert(!key_match(rv[i as int], out@[j2]@.workload, out@[j2]@.event));
                    }
                }
                assert forall|k: int| #![trigger rv[k]] 0 <= k < i + 1 implies covers(
                    out@,
                    rv[k].workload,
                    rv[k].event,
                ) by {
                    if k < i {
                        assert(covers(out_before, rv[k].workload, rv[k].event));
                        let j2 = choose|j2: int|
                            0 <= j2 < out_before.len() && #[trigger] out_before[j2]@.workload
                                == rv[k].workload && out_before[j2]@.event == rv[k].event;
                        assert(out@[j2]@.workload == rv[k].workload && out@[j2]@.event
                            == rv[k].event);
                    } else {
                        assert(out@[j as int]@.workload == rv[k].workload && out@[j as int]@.event
                            == rv[k].event);
                    }
                }
            }
        } else {
            proof {
                if key_count(rv.take(i as int), w, e) > 0 {
                    lemma_count_positive_has_record(rv.take(i as int), w, e);
                    let k = choose|k: int|
                        0 <= k < rv.take(i as int).len() && key_match(
                            #[trigger] rv.take(i as int)[k],
                            w,
                            e,
                        );
                    assert(rv.take(i as int)[k] == rv[k]);
                    assert(false);
                }
                lemma_no_trials(rv.take(i as int), w, e);
            }
            let s = StatsSummary {
                workload: copy_bytes(&rec.workload, 0, rec.workload.len()),
                event: copy_bytes(&rec.event, 0, rec.event.len()),
                count: 1,
                sum: v as u128,
                sum_sq: vv,
                min: v,
                max: v,
            };
            proof {
                assert(rec.workload@.subrange(0, rec.workload@.len() as int) =~= rec.workload@);
                assert(rec.event@.subrange(0, rec.event@.len() as int) =~= rec.event@);
                assert(summary_ok(s@, rv.take(i + 1)));
            }
            let ghost out0 = out@;
            out.push(s);
            proof {
                assert forall|j2: int| 0 <= j2 < out@.len() implies summary_ok(
                    #[trigger] out@[j2]@,
                    rv.take(i + 1),
                ) by {
                    if j2 < out@.len() - 1 {
                        assert(out@[j2] == out0[j2]);
                        assert(!key_match(rv[i as int], out@[j2]@.workload, out@[j2]@.event));
                    }
                }
                assert forall|k: int| #![trigger rv[k]] 0 <= k < i + 1 implies covers(
                    out@,
                    rv[k].workload,
                    rv[k].event,
                ) by {
                    if k == i {
                        assert(out@[out@.len() - 1]@.workload == rv[k].workload
                            && out@[out@.len() - 1]@.event == rv[k].event);
                    } else {
                        assert(covers(out0, rv[k].workload, rv[k].event));
                        let j2 = choose|j2: int|
                            0 <= j2 < out0.len() && #[trigger] out0[j2]@.workload == rv[k].workload
                                && out0[j2]@.event == rv[k].event;
                        assert(out@[j2] == out0[j2]);
                        assert(out@[j2]@.workload == rv[k].workload && out@[j2]@.event
                            == rv[k].event);
                    }
                }
            }
        }
        i = i + 1;
    }
    proof {
        assert(rv.take(n as int) =~= rv);
        assert forall|k: int|
            0 <= k < records@.len() implies !(key_sumsq(rv, #[trigger] rv[k].workload, rv[k].event)
            > u128::MAX) by {
            assert(covers(out@, rv[k].workload, rv[k].event));
            let j = choose|j: int|
                0 <= j < out@.len() && #[trigger] out@[j]@.workload == rv[k].workload
                    && out@[j]@.event == rv[k].event;
            assert(summary_ok(out@[j]@, rv));
        }
    }
    Ok(out)
}

} // verus!
