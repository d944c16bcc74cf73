//! The end-to-end solver: enumerate, filter, rank, and build the
//! display-ready report records.

use vstd::prelude::*;
use crate::time::Day;
use crate::model::Subject;
use crate::timetable::{
    ChosenTimetable, Entry, lemma_day_span, spec_day_minutes, spec_entries_wf, spec_has_conflict,
    spec_label, spec_times_wf, spec_total_duration, spec_wait_minutes,
};
use crate::laws::lemma_wait_time_nonneg;
use crate::solver::{
    assemble, filter_valid, lemma_bucket_sub, lemma_candidates_ok, lemma_entries_ok_parts,
    lemma_entries_ok_total, lemma_keep_min_sub, lemma_valid_set_sub, min_set_for_days,
    spec_bucket, spec_candidates, spec_entries_ok, spec_min_set, spec_min_total,
    spec_subjects_ok, spec_valid_set, views_of,
};

verus! {

/// One display-ready record of a selected timetable.
pub struct RankedTimetable {
    /// 1-based position within its bucket (arbitrary among ties).
    pub rank: usize,
    /// "subject shift" pairs joined by ", ", in timetable order.
    pub label: String,
    /// Total weekly duration in whole hours, truncated.
    pub total_hours: u16,
    /// Whole hours of the merged span of each weekday, in weekday
    /// order, truncated; 0 for a free day.
    pub hours_per_day: Vec<u16>,
    /// Whole hours of wait time, truncated.
    pub wait_hours: u16,
}

/// The co-minimal selection for one count of days with classes.
pub struct DaysBucket {
    /// The number of days with classes this bucket is for (1 to 5).
    pub days_with_classes: usize,
    /// The selected timetables, one record each.
    pub timetables: Vec<RankedTimetable>,
}

/// Everything the reporting collaborator needs to display the result.
pub struct SolveReport {
    /// How many conflict-free timetables exist in total.
    pub valid_count: usize,
    /// One bucket per day count 1 to 5, in that order.
    pub buckets: Vec<DaysBucket>,
}

/// What one record must say about the candidate it stands for.
pub open spec fn spec_ranked_ok(rt: RankedTimetable, entries: Seq<Entry>, rank: int) -> bool {
    &&& rt.rank == rank
    &&& rt.label@ == spec_label(entries)
    &&& rt.total_hours == spec_total_duration(entries) / 60
    &&& rt.hours_per_day@.len() == 5
    &&& (forall|d: int|
        0 <= d < 5 ==> rt.hours_per_day@[d] == spec_day_minutes(entries, Day::all()[d]) / 60)
    &&& rt.wait_hours == spec_wait_minutes(entries) / 60
}

/// What one bucket must say: it carries its day count and one correct
/// record for each co-minimal candidate, ranked from 1 in order.
pub open spec fn spec_bucket_ok(b: DaysBucket, valid: Seq<Seq<Entry>>, days: int) -> bool {
    &&& b.days_with_classes == days
    &&& b.timetables@.len() == spec_min_set(valid, days).len()
    &&& (forall|i: int|
        0 <= i < b.timetables@.len() ==> spec_ranked_ok(
            #[trigger] b.timetables@[i],
            spec_min_set(valid, days)[i],
            i + 1,
        ))
}

/// Solve the whole problem: enumerate every candidate timetable,
/// discard those with conflicts, and for each possible count of days
/// with classes (1 to 5) report every conflict-free timetable tied for
/// the smallest total duration in that bucket.
pub fn solve(subjects: Vec<Subject>) -> (r: SolveReport)
    requires
        spec_subjects_ok(subjects@),
    ensures
        r.valid_count == spec_valid_set(spec_candidates(subjects@)).len(),
        r.buckets@.len() == 5,
        forall|d: int|
            0 <= d < 5 ==> spec_bucket_ok(
                #[trigger] r.buckets@[d],
                spec_valid_set(spec_candidates(subjects@)),
                d + 1,
            ),
{
    let candidates = assemble(&subjects);
    proof {
        lemma_candidates_ok(subjects@);
        assert forall|k: int| 0 <= k < candidates@.len() implies spec_times_wf(
            (#[trigger] candidates@[k]).0@,
        ) by {
            assert(views_of(candidates@)[k] == candidates@[k].0@);
            assert(spec_entries_ok(spec_candidates(subjects@)[k]));
            lemma_entries_ok_parts(candidates@[k].0@);
        }
    }
    let valid = filter_valid(&candidates);
    let ghost vviews = views_of(valid@);
    proof {
        lemma_valid_set_sub(views_of(candidates@));
        assert forall|k: int| 0 <= k < valid@.len() implies spec_entries_ok(
            (#[trigger] valid@[k]).0@,
        ) by {
            assert(vviews[k] == valid@[k].0@);
            let j = choose|j: int|
                0 <= j < views_of(candidates@).len() && vviews[k] == views_of(candidates@)[j];
            assert(views_of(candidates@)[j] == candidates@[j].0@);
            assert(spec_entries_ok(spec_candidates(subjects@)[j]));
        }
    }
    let valid_count = valid.len();
    let mut buckets: Vec<DaysBucket> = Vec::new();
    let mut days: usize = 1;
    while days <= 5
        invariant
            1 <= days <= 6,
            vviews == views_of(valid@),
            vviews == spec_valid_set(spec_candidates(subjects@)),
            forall|j: int| 0 <= j < valid@.len() ==> spec_entries_ok((#[trigger] valid@[j]).0@),
            buckets@.len() == days - 1,
            forall|d: int|
                0 <= d < days - 1 ==> spec_bucket_ok(#[trigger] buckets@[d], vviews, d + 1),
        decreases 6 - days,
    {
        let sel = min_set_for_days(&valid, days);
        let ghost selviews = spec_min_set(vviews, days as int);
        proof {
            lemma_keep_min_sub(
                spec_bucket(vviews, days as int),
                spec_min_total(spec_bucket(vviews, days as int)),
            );
            lemma_bucket_sub(vviews, days as int);
            lemma_valid_set_sub(spec_candidates(subjects@));
            assert forall|k: int| 0 <= k < sel@.len() implies spec_entries_ok(
                (#[trigger] sel@[k]).0@,
            ) && !spec_has_conflict(sel@[k].0@) by {
                assert(views_of(sel@)[k] == sel@[k].0@);
                let j = choose|j: int|
                    0 <= j < spec_bucket(vviews, days as int).len() && selviews[k] == spec_bucket(
                        vviews,
                        days as int,
                    )[j];
                let j2 = choose|j2: int|
                    0 <= j2 < vviews.len() && spec_bucket(vviews, days as int)[j] == vviews[j2];
                assert(vviews[j2] == valid@[j2].0@);
                assert(!spec_has_conflict(vviews[j2]));
            }
        }
        let mut records: Vec<RankedTimetable> = Vec::new();
        let mut idx: usize = 0;
        while idx < sel.len()
            invariant
                views_of(sel@) == selviews,
                forall|k: int| 0 <= k < sel@.len() ==> spec_entries_ok((#[trigger] sel@[k]).0@),
                forall|k: int| 0 <= k < sel@.len() ==> !spec_has_conflict((#[trigger] sel@[k]).0@),
                idx <= sel@.len(),
                records@.len() == idx,
                forall|t: int|
                    0 <= t < idx ==> spec_ranked_ok(
                        #[trigger] records@[t],
                        selviews[t],
                        t + 1,
                    ),
            decreases sel.len() - idx,
        {
            let t = &sel[idx];
            proof {
                assert(views_of(sel@)[idx as int] == t.0@);
                lemma_entries_ok_parts(t.0@);
                lemma_entries_ok_total(t.0@);
            }
            let label = t.prettify();
            let total = t.get_total_duration();
            let dayvec = Day::in_order();
            let mut hpd: Vec<u16> = Vec::new();
            let mut dj: usize = 0;
            while dj < dayvec.len()
                invariant
                    dayvec@ == Day::all(),
                    dj <= 5,
                    hpd@.len() == dj,
                    spec_entries_ok(t.0@),
                    spec_entries_wf(t.0@),
                    spec_times_wf(t.0@),
                    forall|d2: int|
                        0 <= d2 < dj ==> hpd@[d2] == spec_day_minutes(t.0@, Day::all()[d2]) / 60,
                decreases 5 - dj,
            {
                let day = dayvec[dj];
                proof {
                    assert forall|i: int| 0 <= i < t.0@.len() implies (#[trigger] t.0@[i]).1.duration.wf()
                        && t.0@[i].1.duration.end.spec_minutes() <= u16::MAX by {
                        assert(t.0@[i].1.duration.wf());
                    }
                    lemma_day_span(t.0@, day, u16::MAX as int);
                }
                let h: u16 = match t.get_total_duration_at_day(day) {
                    Some(dur) => dur.minutes() / 60,
                    None => 0,
                };
                hpd.push(h);
                dj += 1;
            }
            proof {
                lemma_wait_time_nonneg(t.0@);
            }
            let wait_hours: u16 = t.get_wait_time_in_minutes_at_day() / 60;
            let rt = RankedTimetable {
                rank: idx + 1,
                label,
                total_hours: total / 60,
                hours_per_day: hpd,
                wait_hours,
            };
            records.push(rt);
            idx += 1;
        }
        buckets.push(DaysBucket { days_with_classes: days, timetables: records });
        days += 1;
    }
    SolveReport { valid_count, buckets }
}

} // verus!
