//! General properties of the solver, stated and proved once and for
//! all inputs.

use vstd::prelude::*;
use crate::time::{Day, Duration};
use crate::model::{Shift, Subject};
use crate::timetable::{
    Entry, lemma_durations_at_day, lemma_sum_day_minutes, spec_count_days, spec_count_days_on,
    spec_day_minutes, spec_durations_at_day, spec_entries_wf, spec_has_conflict, spec_merge_all,
    spec_minutes_in_classes, spec_sum_day_minutes, spec_total_duration, spec_wait_minutes,
};
use crate::solver::{
    lemma_bucket_complete, lemma_extend_all_props, lemma_keep_min_complete, spec_bucket,
    spec_candidates, spec_choice_count, spec_min_set, spec_min_total, spec_valid_set,
};

verus! {

/// Counting occupied days over any day list never exceeds the list's
/// length.
proof fn lemma_count_days_on_le(entries: Seq<Entry>, days: Seq<Day>)
    ensures
        0 <= spec_count_days_on(entries, days) <= days.len(),
    decreases days.len(),
{
    if days.len() > 0 {
        lemma_count_days_on_le(entries, days.drop_last());
    }
}

/// Every timetable with well-formed intervals has at most 5 days with
/// classes and a non-negative total duration.
pub proof fn lemma_timetable_stats(entries: Seq<Entry>)
    requires
        spec_entries_wf(entries),
    ensures
        0 <= spec_count_days(entries) <= 5,
        spec_total_duration(entries) >= 0,
{
    lemma_count_days_on_le(entries, Day::all());
    assert(forall|i: int|
        0 <= i < entries.len() ==> (#[trigger] entries[i]).1.duration.end.spec_minutes()
            <= u16::MAX);
    lemma_sum_day_minutes(entries, Day::all(), u16::MAX as int);
}

/// Interval overlap is symmetric.
pub proof fn lemma_overlap_symmetric(a: Duration, b: Duration)
    ensures
        a.spec_overlaps(b) == b.spec_overlaps(a),
{
}

/// Shift overlap is symmetric.
pub proof fn lemma_shift_overlap_symmetric(a: Shift, b: Shift)
    ensures
        a.spec_overlaps(b) == b.spec_overlaps(a),
{
}

/// Under the pairwise-distinctness rule a shift is never compared with
/// itself: a timetable with a single entry has no conflict, whatever
/// its shift looks like.
pub proof fn lemma_no_self_conflict(entries: Seq<Entry>)
    requires
        entries.len() <= 1,
    ensures
        !spec_has_conflict(entries),
{
}

/// Touching intervals do not overlap: with half-open semantics an
/// interval ending exactly where another starts conflicts with it in
/// neither direction.
pub proof fn lemma_touching_not_overlapping(a: Duration, b: Duration)
    requires
        a.end.spec_minutes() == b.start.spec_minutes(),
    ensures
        !a.spec_overlaps(b),
        !b.spec_overlaps(a),
{
}

/// The assembler produces exactly one candidate for every element of
/// the cartesian product: the product of the subjects' shift counts.
pub proof fn lemma_candidate_count(subjects: Seq<Subject>)
    ensures
        spec_candidates(subjects).len() == spec_choice_count(subjects),
    decreases subjects.len(),
{
    if subjects.len() > 0 {
        lemma_candidate_count(subjects.drop_last());
        lemma_extend_all_props(
            spec_candidates(subjects.drop_last()),
            subjects.last().name,
            subjects.last().available_shifts@,
        );
    }
}

/// When no candidate has a conflict, the filter keeps every candidate,
/// in order.
pub proof fn lemma_no_conflicts_keeps_all(cands: Seq<Seq<Entry>>)
    requires
        forall|k: int| 0 <= k < cands.len() ==> !spec_has_conflict(#[trigger] cands[k]),
    ensures
        spec_valid_set(cands) == cands,
    decreases cands.len(),
{
    if cands.len() > 0 {
        let rest = cands.drop_last();
        assert(forall|k: int| 0 <= k < rest.len() ==> #[trigger] rest[k] == cands[k]);
        lemma_no_conflicts_keeps_all(rest);
        assert(spec_valid_set(cands) =~= cands);
    }
}

/// When every candidate has a conflict, no candidate survives the
/// filter.
pub proof fn lemma_all_conflicting_leaves_none(cands: Seq<Seq<Entry>>)
    requires
        forall|k: int| 0 <= k < cands.len() ==> spec_has_conflict(#[trigger] cands[k]),
    ensures
        spec_valid_set(cands) == Seq::<Seq<Entry>>::empty(),
    decreases cands.len(),
{
    if cands.len() > 0 {
        let rest = cands.drop_last();
        assert(forall|k: int| 0 <= k < rest.len() ==> #[trigger] rest[k] == cands[k]);
        lemma_all_conflicting_leaves_none(rest);
    }
}

/// The ranking returns every co-minimal candidate: any candidate whose
/// day count matches the bucket and whose total duration equals the
/// bucket's minimum appears in the selection, not just one of them.
pub proof fn lemma_min_set_complete(valid: Seq<Seq<Entry>>, days: int, j: int)
    requires
        0 <= j < valid.len(),
        spec_count_days(valid[j]) == days,
        spec_total_duration(valid[j]) == spec_min_total(spec_bucket(valid, days)),
    ensures
        spec_min_set(valid, days).contains(valid[j]),
{
    lemma_bucket_complete(valid, days, j);
    let bucket = spec_bucket(valid, days);
    let k = choose|k: int| 0 <= k < bucket.len() && bucket[k] == valid[j];
    lemma_keep_min_complete(bucket, spec_min_total(bucket), k);
}

/// The bucket minimum is a true minimum: it is attained by some
/// bucket member and no member's total duration lies below it.
pub proof fn lemma_min_total_props(cands: Seq<Seq<Entry>>)
    requires
        cands.len() > 0,
    ensures
        forall|k: int|
            0 <= k < cands.len() ==> spec_min_total(cands) <= spec_total_duration(
                #[trigger] cands[k],
            ),
        exists|k: int|
            0 <= k < cands.len() && spec_min_total(cands) == spec_total_duration(
                #[trigger] cands[k],
            ),
    decreases cands.len(),
{
    if cands.len() == 1 {
        assert(spec_min_total(cands) == spec_total_duration(cands[0]));
    } else {
        let rest = cands.drop_last();
        lemma_min_total_props(rest);
        assert(forall|k: int| 0 <= k < rest.len() ==> #[trigger] rest[k] == cands[k]);
        let w = choose|k: int|
            0 <= k < rest.len() && spec_min_total(rest) == spec_total_duration(
                #[trigger] rest[k],
            );
        if spec_total_duration(cands.last()) < spec_min_total(rest) {
            assert(spec_min_total(cands) == spec_total_duration(cands[cands.len() - 1]));
        } else {
            assert(spec_min_total(cands) == spec_total_duration(cands[w]));
        }
        assert forall|k: int| 0 <= k < cands.len() implies spec_min_total(cands)
            <= spec_total_duration(#[trigger] cands[k]) by {
            if k < rest.len() {
                assert(rest[k] == cands[k]);
                assert(spec_min_total(rest) <= spec_total_duration(rest[k]));
            } else {
                assert(cands[k] == cands.last());
            }
        }
    }
}

/// Ranking is deterministic: any two results that satisfy the ranking
/// contract on the same candidate set are identical, bucket for
/// bucket.
pub proof fn lemma_ranking_deterministic(
    valid: Seq<Seq<Entry>>,
    days: int,
    r1: Seq<Seq<Entry>>,
    r2: Seq<Seq<Entry>>,
)
    requires
        r1 == spec_min_set(valid, days),
        r2 == spec_min_set(valid, days),
    ensures
        r1 == r2,
{
}

/// Sum of the interval lengths of a list of intervals.
spec fn spec_sum_len(s: Seq<Duration>) -> int
    decreases s.len(),
{
    if s.len() == 0 {
        0
    } else {
        spec_sum_len(s.drop_last()) + s.last().spec_minutes()
    }
}

/// The earliest start among the intervals, in minutes.
spec fn spec_min_start(s: Seq<Duration>) -> int
    decreases s.len(),
{
    if s.len() == 0 {
        0
    } else if s.len() == 1 {
        s[0].start.spec_minutes()
    } else {
        let m = spec_min_start(s.drop_last());
        if s.last().start.spec_minutes() < m {
            s.last().start.spec_minutes()
        } else {
            m
        }
    }
}

/// The latest end among the intervals, in minutes.
spec fn spec_max_end(s: Seq<Duration>) -> int
    decreases s.len(),
{
    if s.len() == 0 {
        0
    } else if s.len() == 1 {
        s[0].end.spec_minutes()
    } else {
        let m = spec_max_end(s.drop_last());
        if s.last().end.spec_minutes() > m {
            s.last().end.spec_minutes()
        } else {
            m
        }
    }
}

/// No two distinct intervals of the list overlap.
spec fn spec_pairwise_disjoint(s: Seq<Duration>) -> bool {
    forall|i: int, j: int|
        0 <= i < j < s.len() ==> !(#[trigger] s[i]).spec_overlaps(#[trigger] s[j])
}

/// Every interval of the list is well formed.
spec fn spec_all_wf(s: Seq<Duration>) -> bool {
    forall|i: int| 0 <= i < s.len() ==> (#[trigger] s[i]).wf()
}

/// The earliest start and latest end bound every interval, and both
/// are attained.
proof fn lemma_minmax(s: Seq<Duration>)
    requires
        s.len() > 0,
    ensures
        forall|i: int|
            0 <= i < s.len() ==> spec_min_start(s) <= (#[trigger] s[i]).start.spec_minutes(),
        forall|i: int|
            0 <= i < s.len() ==> (#[trigger] s[i]).end.spec_minutes() <= spec_max_end(s),
        exists|i: int| 0 <= i < s.len() && spec_min_start(s) == (#[trigger] s[i]).start.spec_minutes(),
        exists|i: int| 0 <= i < s.len() && spec_max_end(s) == (#[trigger] s[i]).end.spec_minutes(),
    decreases s.len(),
{
    if s.len() == 1 {
        assert(spec_min_start(s) == s[0].start.spec_minutes());
        assert(spec_max_end(s) == s[0].end.spec_minutes());
    } else {
        let rest = s.drop_last();
        lemma_minmax(rest);
        assert(forall|i: int| 0 <= i < rest.len() ==> #[trigger] rest[i] == s[i]);
        let wl = choose|i: int|
            0 <= i < rest.len() && spec_min_start(rest) == (#[trigger] rest[i]).start.spec_minutes();
        let wh = choose|i: int|
            0 <= i < rest.len() && spec_max_end(rest) == (#[trigger] rest[i]).end.spec_minutes();
        if s.last().start.spec_minutes() < spec_min_start(rest) {
            assert(spec_min_start(s) == s[s.len() - 1].start.spec_minutes());
        } else {
            assert(spec_min_start(s) == s[wl].start.spec_minutes());
        }
        if s.last().end.spec_minutes() > spec_max_end(rest) {
            assert(spec_max_end(s) == s[s.len() - 1].end.spec_minutes());
        } else {
            assert(spec_max_end(s) == s[wh].end.spec_minutes());
        }
        assert forall|i: int| 0 <= i < s.len() implies spec_min_start(s) <= (
        #[trigger] s[i]).start.spec_minutes() && (s[i]).end.spec_minutes() <= spec_max_end(
            s,
        ) by {
            if i < rest.len() {
                assert(rest[i] == s[i]);
            } else {
                assert(s[i] == s.last());
            }
        }
    }
}

/// Some interval starts latest; its index is returned.
proof fn lemma_argmax_start(s: Seq<Duration>) -> (k: int)
    requires
        s.len() > 0,
    ensures
        0 <= k < s.len(),
        forall|j: int|
            0 <= j < s.len() ==> (#[trigger] s[j]).start.spec_minutes()
                <= s[k].start.spec_minutes(),
    decreases s.len(),
{
    if s.len() == 1 {
        0
    } else {
        let rest = s.drop_last();
        let w = lemma_argmax_start(rest);
        assert(forall|i: int| 0 <= i < rest.len() ==> #[trigger] rest[i] == s[i]);
        if s.last().start.spec_minutes() > s[w].start.spec_minutes() {
            let k = s.len() - 1;
            assert forall|j: int| 0 <= j < s.len() implies (#[trigger] s[j]).start.spec_minutes()
                <= s[k].start.spec_minutes() by {
                if j < rest.len() {
                    assert(rest[j] == s[j]);
                    assert(rest[j].start.spec_minutes() <= rest[w].start.spec_minutes());
                } else {
                    assert(s[j] == s.last());
                }
            }
            k
        } else {
            assert forall|j: int| 0 <= j < s.len() implies (#[trigger] s[j]).start.spec_minutes()
                <= s[w].start.spec_minutes() by {
                if j < rest.len() {
                    assert(rest[j] == s[j]);
                    assert(rest[j].start.spec_minutes() <= rest[w].start.spec_minutes());
                } else {
                    assert(s[j] == s.last());
                }
            }
            w
        }
    }
}

/// Removing one interval removes exactly its length from the sum.
proof fn lemma_sum_len_remove(s: Seq<Duration>, k: int)
    requires
        0 <= k < s.len(),
    ensures
        spec_sum_len(s.remove(k)) == spec_sum_len(s) - s[k].spec_minutes(),
    decreases s.len(),
{
    let t = s.remove(k);
    if k == s.len() - 1 {
        assert(t =~= s.drop_last());
    } else {
        assert(t.drop_last() =~= s.drop_last().remove(k));
        assert(t.last() == s.last());
        assert(s.drop_last()[k] == s[k]);
        lemma_sum_len_remove(s.drop_last(), k);
    }
}

/// Pairwise disjoint intervals of positive length sum to at most the
/// span from the earliest start to the latest end.
proof fn lemma_disjoint_sum_pos(s: Seq<Duration>)
    requires
        spec_all_wf(s),
        spec_pairwise_disjoint(s),
        forall|i: int| 0 <= i < s.len() ==> (#[trigger] s[i]).spec_minutes() > 0,
        s.len() > 0,
    ensures
        spec_sum_len(s) <= spec_max_end(s) - spec_min_start(s),
    decreases s.len(),
{
    lemma_minmax(s);
    if s.len() == 1 {
        assert(s.drop_last().len() == 0);
        assert(spec_sum_len(s.drop_last()) == 0);
        assert(spec_sum_len(s) == s[0].spec_minutes());
    } else {
        let k = lemma_argmax_start(s);
        let rest = s.remove(k);
        assert(forall|i: int| 0 <= i < k ==> #[trigger] rest[i] == s[i]);
        assert(forall|i: int| k <= i < rest.len() ==> #[trigger] rest[i] == s[i + 1]);
        assert forall|i: int, j: int| 0 <= i < j < rest.len() implies !(
        #[trigger] rest[i]).spec_overlaps(#[trigger] rest[j]) by {
            let si: int = if i < k {
                i
            } else {
                i + 1
            };
            let sj: int = if j < k {
                j
            } else {
                j + 1
            };
            assert(rest[i] == s[si] && rest[j] == s[sj] && si < sj);
        }
        assert forall|i: int| 0 <= i < rest.len() implies (#[trigger] rest[i]).wf() && rest[i].spec_minutes()
            > 0 by {
            if i < k {
                assert(rest[i] == s[i]);
            } else {
                assert(rest[i] == s[i + 1]);
            }
        }
        lemma_disjoint_sum_pos(rest);
        lemma_minmax(rest);
        lemma_sum_len_remove(s, k);
        // The interval ending latest among the rest still ends before
        // the removed interval starts, because they do not overlap and
        // the removed interval starts latest.
        let wh = choose|i: int|
            0 <= i < rest.len() && spec_max_end(rest) == (#[trigger] rest[i]).end.spec_minutes();
        let sj: int = if wh < k {
            wh
        } else {
            wh + 1
        };
        assert(rest[wh] == s[sj] && sj != k);
        assert(s[sj].end.spec_minutes() <= s[k].start.spec_minutes()) by {
            if sj < k {
                assert(!s[sj].spec_overlaps(s[k]));
            } else {
                assert(!s[k].spec_overlaps(s[sj]));
            }
            assert(s[sj].start.spec_minutes() <= s[k].start.spec_minutes());
            assert(s[k].start.spec_minutes() < s[k].end.spec_minutes());
        }
        let wl = choose|i: int|
            0 <= i < rest.len() && spec_min_start(rest) == (#[trigger] rest[i]).start.spec_minutes();
        let sl: int = if wl < k {
            wl
        } else {
            wl + 1
        };
        assert(rest[wl] == s[sl]);
        assert(spec_min_start(rest) >= spec_min_start(s));
        assert(spec_sum_len(s) <= s[k].end.spec_minutes() - spec_min_start(s));
    }
}

/// The intervals of positive length, in order.
spec fn spec_positives(s: Seq<Duration>) -> Seq<Duration>
    decreases s.len(),
{
    if s.len() == 0 {
        Seq::empty()
    } else {
        let rest = spec_positives(s.drop_last());
        if s.last().spec_minutes() > 0 {
            rest.push(s.last())
        } else {
            rest
        }
    }
}

/// Dropping the zero-length intervals keeps the sum, keeps
/// disjointness and well-formedness, and keeps each survivor one of
/// the originals.
proof fn lemma_positives_props(s: Seq<Duration>)
    requires
        spec_all_wf(s),
        spec_pairwise_disjoint(s),
    ensures
        spec_sum_len(spec_positives(s)) == spec_sum_len(s),
        spec_all_wf(spec_positives(s)),
        spec_pairwise_disjoint(spec_positives(s)),
        forall|i: int|
            0 <= i < spec_positives(s).len() ==> (#[trigger] spec_positives(s)[i]).spec_minutes()
                > 0,
        forall|i: int|
            0 <= i < spec_positives(s).len() ==> exists|j: int|
                0 <= j < s.len() && #[trigger] spec_positives(s)[i] == s[j],
    decreases s.len(),
{
    if s.len() > 0 {
        let rest = s.drop_last();
        assert(forall|i: int| 0 <= i < rest.len() ==> #[trigger] rest[i] == s[i]);
        lemma_positives_props(rest);
        let pr = spec_positives(rest);
        let whole = spec_positives(s);
        assert forall|i: int| 0 <= i < whole.len() implies exists|j: int|
            0 <= j < s.len() && #[trigger] whole[i] == s[j] by {
            if i < pr.len() {
                assert(whole[i] == pr[i]);
                let j = choose|j: int| 0 <= j < rest.len() && pr[i] == rest[j];
                assert(whole[i] == s[j]);
            } else {
                assert(whole[i] == s[s.len() - 1]);
            }
        }
        if s.last().spec_minutes() > 0 {
            assert(pr.push(s.last()).drop_last() =~= pr);
            assert(spec_sum_len(whole) == spec_sum_len(pr) + s.last().spec_minutes());
            assert forall|i: int, j: int| 0 <= i < j < whole.len() implies !(
            #[trigger] whole[i]).spec_overlaps(#[trigger] whole[j]) by {
                if j < pr.len() {
                    assert(whole[i] == pr[i] && whole[j] == pr[j]);
                } else {
                    assert(whole[j] == s.last());
                    assert(whole[i] == pr[i]);
                    // A zero-length copy of the last interval among the
                    // survivors is impossible: survivors are positive.
                    let j2 = choose|j2: int| 0 <= j2 < rest.len() && pr[i] == rest[j2];
                    assert(whole[i] == s[j2] && j2 < s.len() - 1);
                    assert(!s[j2].spec_overlaps(s[s.len() - 1]));
                }
            }
        } else {
            assert(whole == pr);
            assert(s[s.len() - 1].wf());
            assert(s.last().spec_minutes() == 0);
            assert(spec_sum_len(s) == spec_sum_len(rest));
        }
    }
}

/// Pairwise disjoint, well-formed intervals sum to at most the span
/// from the earliest start to the latest end.
proof fn lemma_disjoint_sum(s: Seq<Duration>)
    requires
        spec_all_wf(s),
        spec_pairwise_disjoint(s),
        s.len() > 0,
    ensures
        spec_sum_len(s) <= spec_max_end(s) - spec_min_start(s),
{
    lemma_minmax(s);
    lemma_positives_props(s);
    let pos = spec_positives(s);
    if pos.len() == 0 {
        assert(spec_sum_len(s) == 0);
        assert(spec_max_end(s) >= s[0].end.spec_minutes());
        assert(s[0].end.spec_minutes() >= s[0].start.spec_minutes());
        assert(s[0].start.spec_minutes() >= spec_min_start(s));
    } else {
        lemma_disjoint_sum_pos(pos);
        lemma_minmax(pos);
        let wh = choose|i: int|
            0 <= i < pos.len() && spec_max_end(pos) == (#[trigger] pos[i]).end.spec_minutes();
        let jh = choose|j: int| 0 <= j < s.len() && pos[wh] == s[j];
        assert(spec_max_end(pos) <= spec_max_end(s));
        let wl = choose|i: int|
            0 <= i < pos.len() && spec_min_start(pos) == (#[trigger] pos[i]).start.spec_minutes();
        let jl = choose|j: int| 0 <= j < s.len() && pos[wl] == s[j];
        assert(spec_min_start(pos) >= spec_min_start(s));
    }
}

/// The bounding union of a list of intervals runs from their earliest
/// start to their latest end.
proof fn lemma_merge_all_minmax(s: Seq<Duration>)
    requires
        s.len() > 0,
    ensures
        spec_merge_all(s) matches Some(d) && d.start.spec_minutes() == spec_min_start(s)
            && d.end.spec_minutes() == spec_max_end(s),
    decreases s.len(),
{
    if s.len() == 1 {
        assert(s.drop_last().len() == 0);
        assert(spec_merge_all(s.drop_last()) is None);
        assert(spec_merge_all(s) == Some(s.last()));
        assert(s.last() == s[0]);
    } else {
        lemma_merge_all_minmax(s.drop_last());
        let acc = spec_merge_all(s.drop_last())->Some_0;
        assert(spec_merge_all(s) == Some(acc.spec_merge(s.last())));
    }
}

/// The intervals a conflict-free timetable has on one day are pairwise
/// disjoint.
proof fn lemma_durations_pairwise(entries: Seq<Entry>, day: Day)
    requires
        !spec_has_conflict(entries),
    ensures
        spec_pairwise_disjoint(spec_durations_at_day(entries, day)),
    decreases entries.len(),
{
    if entries.len() > 0 {
        let prefix = entries.drop_last();
        assert(forall|i: int| 0 <= i < prefix.len() ==> #[trigger] prefix[i] == entries[i]);
        assert(!spec_has_conflict(prefix));
        lemma_durations_pairwise(prefix, day);
        lemma_durations_at_day(prefix, day);
        let sp = spec_durations_at_day(prefix, day);
        let s = spec_durations_at_day(entries, day);
        if entries.last().1.day == day {
            assert forall|i: int, j: int| 0 <= i < j < s.len() implies !(
            #[trigger] s[i]).spec_overlaps(#[trigger] s[j]) by {
                if j < sp.len() {
                    assert(s[i] == sp[i] && s[j] == sp[j]);
                } else {
                    assert(s[j] == entries.last().1.duration);
                    assert(s[i] == sp[i]);
                    let e = choose|e: int|
                        0 <= e < prefix.len() && sp[i] == prefix[e].1.duration && prefix[e].1.day
                            == day;
                    assert(entries[e] == prefix[e] && e < entries.len() - 1);
                    assert(!entries[e].1.spec_overlaps(entries[entries.len() - 1].1));
                }
            }
        }
    }
}

/// On each day, a conflict-free timetable's class minutes fit inside
/// the day's merged span.
proof fn lemma_day_sum_le_span(entries: Seq<Entry>, day: Day)
    requires
        spec_entries_wf(entries),
        !spec_has_conflict(entries),
    ensures
        spec_sum_len(spec_durations_at_day(entries, day)) <= spec_day_minutes(entries, day),
{
    let s = spec_durations_at_day(entries, day);
    lemma_durations_at_day(entries, day);
    if s.len() == 0 {
    } else {
        assert forall|i: int| 0 <= i < s.len() implies (#[trigger] s[i]).wf() by {
            let j = choose|j: int|
                0 <= j < entries.len() && s[i] == entries[j].1.duration && entries[j].1.day
                    == day;
        }
        lemma_durations_pairwise(entries, day);
        lemma_disjoint_sum(s);
        lemma_merge_all_minmax(s);
    }
}

/// Sum over the given days of each day's class minutes.
spec fn spec_sum_sums(entries: Seq<Entry>, days: Seq<Day>) -> int
    decreases days.len(),
{
    if days.len() == 0 {
        0
    } else {
        spec_sum_sums(entries, days.drop_last()) + spec_sum_len(
            spec_durations_at_day(entries, days.last()),
        )
    }
}

/// How many times a day occurs in a day list.
spec fn spec_day_occ(days: Seq<Day>, d: Day) -> int
    decreases days.len(),
{
    if days.len() == 0 {
        0
    } else {
        spec_day_occ(days.drop_last(), d) + if days.last() == d {
            1int
        } else {
            0int
        }
    }
}

/// Appending one entry adds its length once for each occurrence of its
/// day in the day list.
proof fn lemma_sum_sums_push(entries: Seq<Entry>, days: Seq<Day>, e: Entry)
    ensures
        spec_sum_sums(entries.push(e), days) == spec_sum_sums(entries, days) + spec_day_occ(
            days,
            e.1.day,
        ) * e.1.duration.spec_minutes(),
    decreases days.len(),
{
    if days.len() == 0 {
    } else {
        lemma_sum_sums_push(entries, days.drop_last(), e);
        let day = days.last();
        assert(entries.push(e).drop_last() =~= entries);
        let sp = spec_durations_at_day(entries, day);
        if e.1.day == day {
            assert(spec_durations_at_day(entries.push(e), day) == sp.push(e.1.duration));
            assert(sp.push(e.1.duration).drop_last() =~= sp);
            assert(spec_sum_len(sp.push(e.1.duration)) == spec_sum_len(sp)
                + e.1.duration.spec_minutes());
            assert((spec_day_occ(days.drop_last(), e.1.day) + 1) * e.1.duration.spec_minutes()
                == spec_day_occ(days.drop_last(), e.1.day) * e.1.duration.spec_minutes()
                + e.1.duration.spec_minutes()) by (nonlinear_arith);
        } else {
            assert(spec_durations_at_day(entries.push(e), day) == sp);
        }
    }
}

/// Each weekday occurs exactly once in the fixed weekday order.
proof fn lemma_day_occ_all(d: Day)
    ensures
        spec_day_occ(Day::all(), d) == 1,
{
    let s5 = Day::all();
    let s4 = s5.drop_last();
    let s3 = s4.drop_last();
    let s2 = s3.drop_last();
    let s1 = s2.drop_last();
    let s0 = s1.drop_last();
    assert(s5.last() == Day::Friday && s4.last() == Day::Thursday && s3.last() == Day::Wednesday
        && s2.last() == Day::Tuesday && s1.last() == Day::Monday);
    assert(s0.len() == 0);
    assert(spec_day_occ(s0, d) == 0);
    assert(spec_day_occ(s1, d) == if Day::Monday == d {
        1int
    } else {
        0int
    });
    assert(spec_day_occ(s2, d) == spec_day_occ(s1, d) + if Day::Tuesday == d {
        1int
    } else {
        0int
    });
    assert(spec_day_occ(s3, d) == spec_day_occ(s2, d) + if Day::Wednesday == d {
        1int
    } else {
        0int
    });
    assert(spec_day_occ(s4, d) == spec_day_occ(s3, d) + if Day::Thursday == d {
        1int
    } else {
        0int
    });
    assert(spec_day_occ(s5, d) == spec_day_occ(s4, d) + if Day::Friday == d {
        1int
    } else {
        0int
    });
    match d {
        Day::Monday => {
            assert(spec_day_occ(s5, d) == 1);
        },
        Day::Tuesday => {
            assert(spec_day_occ(s5, d) == 1);
        },
        Day::Wednesday => {
            assert(spec_day_occ(s5, d) == 1);
        },
        Day::Thursday => {
            assert(spec_day_occ(s5, d) == 1);
        },
        Day::Friday => {
            assert(spec_day_occ(s5, d) == 1);
        },
    }
}

/// With no entries there are no class minutes on any day.
proof fn lemma_sum_sums_empty(entries: Seq<Entry>, days: Seq<Day>)
    requires
        entries.len() == 0,
    ensures
        spec_sum_sums(entries, days) == 0,
    decreases days.len(),
{
    if days.len() > 0 {
        lemma_sum_sums_empty(entries, days.drop_last());
    }
}

/// The minutes spent in classes partition over the five weekdays.
proof fn lemma_mic_partition(entries: Seq<Entry>)
    ensures
        spec_minutes_in_classes(entries) == spec_sum_sums(entries, Day::all()),
    decreases entries.len(),
{
    if entries.len() == 0 {
        lemma_sum_sums_empty(entries, Day::all());
    } else {
        let prefix = entries.drop_last();
        lemma_mic_partition(prefix);
        assert(prefix.push(entries.last()) =~= entries);
        lemma_sum_sums_push(prefix, Day::all(), entries.last());
        lemma_day_occ_all(entries.last().1.day);
        assert(1int * entries.last().1.duration.spec_minutes()
            == entries.last().1.duration.spec_minutes()) by (nonlinear_arith);
    }
}

/// Per-day class minutes never exceed the per-day merged spans, summed
/// over any day list.
proof fn lemma_sum_sums_le_total(entries: Seq<Entry>, days: Seq<Day>)
    requires
        spec_entries_wf(entries),
        !spec_has_conflict(entries),
    ensures
        spec_sum_sums(entries, days) <= spec_sum_day_minutes(entries, days),
    decreases days.len(),
{
    if days.len() > 0 {
        lemma_sum_sums_le_total(entries, days.drop_last());
        lemma_day_sum_le_span(entries, days.last());
    }
}

/// For a conflict-free timetable the wait time is never negative: the
/// minutes spent in classes fit inside the merged daily spans, even
/// though the bounding merge also covers gaps between classes.
pub proof fn lemma_wait_time_nonneg(entries: Seq<Entry>)
    requires
        spec_entries_wf(entries),
        !spec_has_conflict(entries),
    ensures
        spec_minutes_in_classes(entries) <= spec_total_duration(entries),
        spec_wait_minutes(entries) >= 0,
{
    lemma_mic_partition(entries);
    lemma_sum_sums_le_total(entries, Day::all());
}

} // verus!
