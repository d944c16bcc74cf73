//! Enumeration and ranking: the cartesian product of per-subject shift
//! choices, the conflict filter, and the minimal-duration selection.

use vstd::prelude::*;
use crate::model::{Shift, Subject};
use crate::timetable::{
    ChosenTimetable, Entry, spec_count_days, spec_entries_wf, spec_has_conflict, spec_times_wf,
    spec_total_duration,
};

verus! {

/// The entry sequences of a list of timetables.
pub open spec fn views_of(ts: Seq<ChosenTimetable>) -> Seq<Seq<Entry>> {
    ts.map_values(|t: ChosenTimetable| t.0@)
}

/// All ways to extend one partial candidate by one choice of shift for
/// the subject named `name`, in shift order.
pub open spec fn spec_extend_one(partial: Seq<Entry>, name: String, shifts: Seq<Shift>) -> Seq<
    Seq<Entry>,
>
    decreases shifts.len(),
{
    if shifts.len() == 0 {
        Seq::empty()
    } else {
        spec_extend_one(partial, name, shifts.drop_last()).push(
            partial.push((name, shifts.last())),
        )
    }
}

/// All ways to extend each of the partial candidates in order; within
/// one partial, the new subject's shifts vary fastest.
pub open spec fn spec_extend_all(
    partials: Seq<Seq<Entry>>,
    name: String,
    shifts: Seq<Shift>,
) -> Seq<Seq<Entry>>
    decreases partials.len(),
{
    if partials.len() == 0 {
        Seq::empty()
    } else {
        spec_extend_all(partials.drop_last(), name, shifts) + spec_extend_one(
            partials.last(),
            name,
            shifts,
        )
    }
}

/// The cartesian product of per-subject shift choices, in subject
/// order, the last subject's choice varying fastest.
pub open spec fn spec_candidates(subjects: Seq<Subject>) -> Seq<Seq<Entry>>
    decreases subjects.len(),
{
    if subjects.len() == 0 {
        seq![Seq::<Entry>::empty()]
    } else {
        spec_extend_all(
            spec_candidates(subjects.drop_last()),
            subjects.last().name,
            subjects.last().available_shifts@,
        )
    }
}

/// The number of candidates the product must contain: the product of
/// the subjects' shift counts.
pub open spec fn spec_choice_count(subjects: Seq<Subject>) -> int
    decreases subjects.len(),
{
    if subjects.len() == 0 {
        1
    } else {
        spec_choice_count(subjects.drop_last()) * subjects.last().available_shifts@.len()
    }
}

/// The candidates passing `pred`, in their original order.
pub open spec fn spec_filtered(
    cands: Seq<Seq<Entry>>,
    pred: spec_fn(Seq<Entry>) -> bool,
) -> Seq<Seq<Entry>>
    decreases cands.len(),
{
    if cands.len() == 0 {
        Seq::empty()
    } else {
        let rest = spec_filtered(cands.drop_last(), pred);
        if pred(cands.last()) {
            rest.push(cands.last())
        } else {
            rest
        }
    }
}

/// The conflict-free candidates, in enumeration order.
pub open spec fn spec_valid_set(cands: Seq<Seq<Entry>>) -> Seq<Seq<Entry>> {
    spec_filtered(cands, |t: Seq<Entry>| !spec_has_conflict(t))
}

/// The candidates with exactly `days` days of classes, in order.
pub open spec fn spec_bucket(cands: Seq<Seq<Entry>>, days: int) -> Seq<Seq<Entry>> {
    spec_filtered(cands, |t: Seq<Entry>| spec_count_days(t) == days)
}

/// The candidates whose total duration is exactly `m`, in order.
pub open spec fn spec_keep_min(cands: Seq<Seq<Entry>>, m: int) -> Seq<Seq<Entry>> {
    spec_filtered(cands, |t: Seq<Entry>| spec_total_duration(t) == m)
}

/// The smallest total duration among the candidates (0 if none).
pub open spec fn spec_min_total(cands: Seq<Seq<Entry>>) -> int
    decreases cands.len(),
{
    if cands.len() == 0 {
        0
    } else if cands.len() == 1 {
        spec_total_duration(cands[0])
    } else {
        let m = spec_min_total(cands.drop_last());
        if spec_total_duration(cands.last()) < m {
            spec_total_duration(cands.last())
        } else {
            m
        }
    }
}

/// The co-minimal set of a day-count bucket: every candidate in the
/// bucket whose total duration equals the bucket's minimum.
pub open spec fn spec_min_set(cands: Seq<Seq<Entry>>, days: int) -> Seq<Seq<Entry>> {
    spec_keep_min(spec_bucket(cands, days), spec_min_total(spec_bucket(cands, days)))
}

/// Every shift offered by every subject has a well-formed interval
/// whose end is early enough that five merged day spans fit machine
/// arithmetic.
pub open spec fn spec_subjects_ok(subjects: Seq<Subject>) -> bool {
    forall|i: int, j: int|
        0 <= i < subjects.len() && 0 <= j < subjects[i].available_shifts@.len() ==> {
            let s = #[trigger] subjects[i].available_shifts@[j];
            s.duration.wf() && 5 * s.duration.end.spec_minutes() <= u16::MAX
        }
}

/// The same condition on the entries of one candidate.
pub open spec fn spec_entries_ok(entries: Seq<Entry>) -> bool {
    forall|i: int|
        0 <= i < entries.len() ==> {
            let e = #[trigger] entries[i];
            e.1.duration.wf() && 5 * e.1.duration.end.spec_minutes() <= u16::MAX
        }
}

/// Each extension of one partial appends one choice of shift, in shift
/// order.
pub proof fn lemma_extend_one_props(partial: Seq<Entry>, name: String, shifts: Seq<Shift>)
    ensures
        spec_extend_one(partial, name, shifts).len() == shifts.len(),
        forall|k: int|
            0 <= k < shifts.len() ==> #[trigger] spec_extend_one(partial, name, shifts)[k]
                == partial.push((name, shifts[k])),
    decreases shifts.len(),
{
    if shifts.len() > 0 {
        lemma_extend_one_props(partial, name, shifts.drop_last());
        assert(forall|k: int|
            0 <= k < shifts.len() - 1 ==> #[trigger] shifts.drop_last()[k] == shifts[k]);
    }
}

/// Extending all partials yields one candidate per partial-shift
/// pair, each one some partial extended by some shift.
pub proof fn lemma_extend_all_props(partials: Seq<Seq<Entry>>, name: String, shifts: Seq<Shift>)
    ensures
        spec_extend_all(partials, name, shifts).len() == partials.len() * shifts.len(),
        forall|k: int|
            0 <= k < spec_extend_all(partials, name, shifts).len() ==> exists|p: int, s: int|
                0 <= p < partials.len() && 0 <= s < shifts.len()
                    && #[trigger] spec_extend_all(partials, name, shifts)[k] == partials[p].push(
                    (name, shifts[s]),
                ),
    decreases partials.len(),
{
    if partials.len() == 0 {
        assert(partials.len() * shifts.len() == 0) by (nonlinear_arith)
            requires
                partials.len() == 0,
        ;
    } else {
        let rest = partials.drop_last();
        lemma_extend_all_props(rest, name, shifts);
        lemma_extend_one_props(partials.last(), name, shifts);
        let a = spec_extend_all(rest, name, shifts);
        let b = spec_extend_one(partials.last(), name, shifts);
        let whole = spec_extend_all(partials, name, shifts);
        assert(whole == a + b);
        assert(a.len() + b.len() == partials.len() * shifts.len()) by (nonlinear_arith)
            requires
                a.len() == rest.len() * shifts.len(),
                b.len() == shifts.len(),
                rest.len() == partials.len() - 1,
                partials.len() >= 1,
        ;
        assert(forall|p: int| 0 <= p < rest.len() ==> #[trigger] rest[p] == partials[p]);
        assert forall|k: int| 0 <= k < whole.len() implies exists|p: int, s: int|
            0 <= p < partials.len() && 0 <= s < shifts.len() && #[trigger] whole[k]
                == partials[p].push((name, shifts[s])) by {
            if k < a.len() {
                let (p, s) = choose|p: int, s: int|
                    0 <= p < rest.len() && 0 <= s < shifts.len() && a[k] == rest[p].push(
                        (name, shifts[s]),
                    );
                assert(whole[k] == partials[p].push((name, shifts[s])));
            } else {
                let s = k - a.len();
                assert(whole[k] == b[s]);
                assert(whole[k] == partials[partials.len() - 1].push((name, shifts[s])));
            }
        }
    }
}

/// If every offered shift is well formed and bounded, so is every
/// entry of every candidate in the product.
pub proof fn lemma_candidates_ok(subjects: Seq<Subject>)
    requires
        spec_subjects_ok(subjects),
    ensures
        forall|k: int|
            0 <= k < spec_candidates(subjects).len() ==> spec_entries_ok(
                #[trigger] spec_candidates(subjects)[k],
            ),
    decreases subjects.len(),
{
    if subjects.len() == 0 {
    } else {
        let rest = subjects.drop_last();
        assert(forall|i: int| 0 <= i < rest.len() ==> #[trigger] rest[i] == subjects[i]);
        assert(spec_subjects_ok(rest)) by {
            assert forall|i: int, j: int|
                0 <= i < rest.len() && 0 <= j < rest[i].available_shifts@.len() implies {
                let s = #[trigger] rest[i].available_shifts@[j];
                s.duration.wf() && 5 * s.duration.end.spec_minutes() <= u16::MAX
            } by {
                assert(subjects[i].available_shifts@[j] == rest[i].available_shifts@[j]);
            }
        }
        lemma_candidates_ok(rest);
        let prev = spec_candidates(rest);
        let name = subjects.last().name;
        let shifts = subjects.last().available_shifts@;
        lemma_extend_all_props(prev, name, shifts);
        let whole = spec_candidates(subjects);
        assert forall|k: int| 0 <= k < whole.len() implies spec_entries_ok(
            #[trigger] whole[k],
        ) by {
            let (p, s) = choose|p: int, s: int|
                0 <= p < prev.len() && 0 <= s < shifts.len() && whole[k] == prev[p].push(
                    (name, shifts[s]),
                );
            let base = prev[p];
            let ext = base.push((name, shifts[s]));
            assert(spec_entries_ok(base));
            assert(subjects[subjects.len() - 1].available_shifts@[s] == shifts[s]);
            assert forall|i: int| 0 <= i < ext.len() implies {
                let e = #[trigger] ext[i];
                e.1.duration.wf() && 5 * e.1.duration.end.spec_minutes() <= u16::MAX
            } by {
                if i < base.len() {
                    assert(ext[i] == base[i]);
                } else {
                    assert(ext[i] == (name, shifts[s]));
                }
            }
        }
    }
}

/// Every conflict-free-filtered candidate is one of the originals,
/// and is indeed conflict free.
pub proof fn lemma_valid_set_sub(cands: Seq<Seq<Entry>>)
    ensures
        forall|k: int|
            0 <= k < spec_valid_set(cands).len() ==> exists|j: int|
                0 <= j < cands.len() && #[trigger] spec_valid_set(cands)[k] == cands[j],
        forall|k: int|
            0 <= k < spec_valid_set(cands).len() ==> !spec_has_conflict(
                #[trigger] spec_valid_set(cands)[k],
            ),
    decreases cands.len(),
{
    if cands.len() > 0 {
        let rest = cands.drop_last();
        lemma_valid_set_sub(rest);
        let fr = spec_valid_set(rest);
        let whole = spec_valid_set(cands);
        assert(forall|j: int| 0 <= j < rest.len() ==> #[trigger] rest[j] == cands[j]);
        assert forall|k: int| 0 <= k < whole.len() implies (exists|j: int|
            0 <= j < cands.len() && #[trigger] whole[k] == cands[j]) && !spec_has_conflict(
            whole[k],
        ) by {
            if k < fr.len() {
                assert(whole[k] == fr[k]);
                let j = choose|j: int| 0 <= j < rest.len() && fr[k] == rest[j];
                assert(whole[k] == cands[j]);
            } else {
                assert(whole[k] == cands[cands.len() - 1]);
            }
        }
    }
}

/// Every bucket member is one of the originals and has exactly `days`
/// days of classes.
pub proof fn lemma_bucket_sub(cands: Seq<Seq<Entry>>, days: int)
    ensures
        forall|k: int|
            0 <= k < spec_bucket(cands, days).len() ==> exists|j: int|
                0 <= j < cands.len() && #[trigger] spec_bucket(cands, days)[k] == cands[j],
        forall|k: int|
            0 <= k < spec_bucket(cands, days).len() ==> spec_count_days(
                #[trigger] spec_bucket(cands, days)[k],
            ) == days,
    decreases cands.len(),
{
    if cands.len() > 0 {
        let rest = cands.drop_last();
        lemma_bucket_sub(rest, days);
        let fr = spec_bucket(rest, days);
        let whole = spec_bucket(cands, days);
        assert(forall|j: int| 0 <= j < rest.len() ==> #[trigger] rest[j] == cands[j]);
        assert forall|k: int| 0 <= k < whole.len() implies (exists|j: int|
            0 <= j < cands.len() && #[trigger] whole[k] == cands[j]) && spec_count_days(whole[k])
            == days by {
            if k < fr.len() {
                assert(whole[k] == fr[k]);
                let j = choose|j: int| 0 <= j < rest.len() && fr[k] == rest[j];
                assert(whole[k] == cands[j]);
            } else {
                assert(whole[k] == cands[cands.len() - 1]);
            }
        }
    }
}

/// Every member of the co-minimal selection is one of the originals
/// and has total duration exactly `m`.
pub proof fn lemma_keep_min_sub(cands: Seq<Seq<Entry>>, m: int)
    ensures
        forall|k: int|
            0 <= k < spec_keep_min(cands, m).len() ==> exists|j: int|
                0 <= j < cands.len() && #[trigger] spec_keep_min(cands, m)[k] == cands[j],
        forall|k: int|
            0 <= k < spec_keep_min(cands, m).len() ==> spec_total_duration(
                #[trigger] spec_keep_min(cands, m)[k],
            ) == m,
    decreases cands.len(),
{
    if cands.len() > 0 {
        let rest = cands.drop_last();
        lemma_keep_min_sub(rest, m);
        let fr = spec_keep_min(rest, m);
        let whole = spec_keep_min(cands, m);
        assert(forall|j: int| 0 <= j < rest.len() ==> #[trigger] rest[j] == cands[j]);
        assert forall|k: int| 0 <= k < whole.len() implies (exists|j: int|
            0 <= j < cands.len() && #[trigger] whole[k] == cands[j]) && spec_total_duration(
            whole[k],
        ) == m by {
            if k < fr.len() {
                assert(whole[k] == fr[k]);
                let j = choose|j: int| 0 <= j < rest.len() && fr[k] == rest[j];
                assert(whole[k] == cands[j]);
            } else {
                assert(whole[k] == cands[cands.len() - 1]);
            }
        }
    }
}

/// Every candidate with exactly `days` days of classes appears in the
/// bucket for `days`.
pub proof fn lemma_bucket_complete(cands: Seq<Seq<Entry>>, days: int, j: int)
    requires
        0 <= j < cands.len(),
        spec_count_days(cands[j]) == days,
    ensures
        spec_bucket(cands, days).contains(cands[j]),
    decreases cands.len(),
{
    let rest = cands.drop_last();
    let whole = spec_bucket(cands, days);
    if j == cands.len() - 1 {
        assert(whole[whole.len() - 1] == cands[j]);
    } else {
        assert(rest[j] == cands[j]);
        lemma_bucket_complete(rest, days, j);
        let fr = spec_bucket(rest, days);
        let k = choose|k: int| 0 <= k < fr.len() && fr[k] == cands[j];
        assert(whole[k] == cands[j]);
    }
}

/// Every bucket member tied for the minimum total appears in the
/// co-minimal selection.
pub proof fn lemma_keep_min_complete(cands: Seq<Seq<Entry>>, m: int, j: int)
    requires
        0 <= j < cands.len(),
        spec_total_duration(cands[j]) == m,
    ensures
        spec_keep_min(cands, m).contains(cands[j]),
    decreases cands.len(),
{
    let rest = cands.drop_last();
    let whole = spec_keep_min(cands, m);
    if j == cands.len() - 1 {
        assert(whole[whole.len() - 1] == cands[j]);
    } else {
        assert(rest[j] == cands[j]);
        lemma_keep_min_complete(rest, m, j);
        let fr = spec_keep_min(rest, m);
        let k = choose|k: int| 0 <= k < fr.len() && fr[k] == cands[j];
        assert(whole[k] == cands[j]);
    }
}

/// Enumerate every candidate timetable: the cartesian product of one
/// shift choice per subject, in subject order, the last subject's
/// choice varying fastest. A subject with no shifts empties the
/// product.
pub fn assemble(subjects: &Vec<Subject>) -> (r: Vec<ChosenTimetable>)
    ensures
        views_of(r@) == spec_candidates(subjects@),
{
    let mut result: Vec<ChosenTimetable> = Vec::new();
    result.push(ChosenTimetable(Vec::new()));
    proof {
        assert(views_of(result@) =~= spec_candidates(subjects@.take(0int)));
    }
    let mut i: usize = 0;
    while i < subjects.len()
        invariant
            i <= subjects.len(),
            views_of(result@) == spec_candidates(subjects@.take(i as int)),
        decreases subjects.len() - i,
    {
        let subject = &subjects[i];
        let ghost prod = views_of(result@);
        let ghost name = subject.name;
        let ghost shifts = subject.available_shifts@;
        let mut next: Vec<ChosenTimetable> = Vec::new();
        let mut p: usize = 0;
        proof {
            assert(views_of(next@) =~= spec_extend_all(prod.take(0int), name, shifts));
        }
        while p < result.len()
            invariant
                p <= result.len(),
                prod == views_of(result@),
                subject.name == name,
                subject.available_shifts@ == shifts,
                name == subjects@[i as int].name,
                shifts == subjects@[i as int].available_shifts@,
                i < subjects.len(),
                views_of(next@) == spec_extend_all(prod.take(p as int), name, shifts),
            decreases result.len() - p,
        {
            let partial = &result[p];
            let mut s: usize = 0;
            proof {
                assert(spec_extend_one(partial.0@, name, shifts.take(0int)) =~= Seq::<
                    Seq<Entry>,
                >::empty());
                assert(views_of(next@) + Seq::<Seq<Entry>>::empty() =~= views_of(next@));
            }
            while s < subject.available_shifts.len()
                invariant
                    s <= shifts.len(),
                    subject.name == name,
                    subject.available_shifts@ == shifts,
                    p < result.len(),
                    prod == views_of(result@),
                    name == subjects@[i as int].name,
                    shifts == subjects@[i as int].available_shifts@,
                    i < subjects.len(),
                    partial.0@ == prod[p as int],
                    views_of(next@) == spec_extend_all(prod.take(p as int), name, shifts)
                        + spec_extend_one(partial.0@, name, shifts.take(s as int)),
                decreases subject.available_shifts@.len() - s,
            {
                let shift = &subject.available_shifts[s];
                let mut entries = partial.duplicate().0;
                entries.push((subject.name.clone(), shift.duplicate()));
                let ghost old_next = next@;
                next.push(ChosenTimetable(entries));
                proof {
                    let st = shifts.take(s + 1);
                    assert(st.drop_last() =~= shifts.take(s as int));
                    assert(st.last() == shifts[s as int]);
                    assert(entries@ == partial.0@.push((name, shifts[s as int])));
                    assert(spec_extend_one(partial.0@, name, st) == spec_extend_one(
                        partial.0@,
                        name,
                        shifts.take(s as int),
                    ).push(partial.0@.push((name, shifts[s as int]))));
                    assert(views_of(next@) =~= views_of(old_next).push(entries@));
                    assert(views_of(next@) =~= spec_extend_all(prod.take(p as int), name, shifts)
                        + spec_extend_one(partial.0@, name, st));
                }
                s += 1;
            }
            proof {
                assert(shifts.take(shifts.len() as int) =~= shifts);
                let pt = prod.take(p + 1);
                assert(pt.drop_last() =~= prod.take(p as int));
                assert(pt.last() == prod[p as int]);
                assert(prod[p as int] == partial.0@);
                assert(spec_extend_all(pt, name, shifts) == spec_extend_all(
                    prod.take(p as int),
                    name,
                    shifts,
                ) + spec_extend_one(partial.0@, name, shifts));
            }
            p += 1;
        }
        proof {
            assert(prod.take(prod.len() as int) =~= prod);
            let st = subjects@.take(i + 1);
            assert(st.drop_last() =~= subjects@.take(i as int));
            assert(st.last() == subjects@[i as int]);
            assert(spec_candidates(st) == spec_extend_all(
                spec_candidates(subjects@.take(i as int)),
                name,
                shifts,
            ));
        }
        result = next;
        i += 1;
    }
    proof {
        assert(subjects@.take(subjects@.len() as int) =~= subjects@);
    }
    result
}

/// Keep the conflict-free candidates, in enumeration order.
pub fn filter_valid(candidates: &Vec<ChosenTimetable>) -> (r: Vec<ChosenTimetable>)
    requires
        forall|k: int| 0 <= k < candidates@.len() ==> spec_times_wf((#[trigger] candidates@[k]).0@),
    ensures
        views_of(r@) == spec_valid_set(views_of(candidates@)),
{
    let mut r: Vec<ChosenTimetable> = Vec::new();
    let ghost all = views_of(candidates@);
    let mut k: usize = 0;
    proof {
        assert(views_of(r@) =~= spec_valid_set(all.take(0int)));
    }
    while k < candidates.len()
        invariant
            k <= candidates.len(),
            all == views_of(candidates@),
            forall|j: int|
                0 <= j < candidates@.len() ==> spec_times_wf((#[trigger] candidates@[j]).0@),
            views_of(r@) == spec_valid_set(all.take(k as int)),
        decreases candidates.len() - k,
    {
        let c = &candidates[k];
        proof {
            let cur = all.take(k + 1);
            assert(cur.drop_last() =~= all.take(k as int));
            assert(cur.last() == all[k as int]);
            assert(all[k as int] == candidates@[k as int].0@);
        }
        if !c.is_overlapping() {
            let ghost old_r = r@;
            r.push(c.duplicate());
            proof {
                assert(views_of(r@) =~= views_of(old_r).push(candidates@[k as int].0@));
            }
        }
        k += 1;
    }
    proof {
        assert(all.take(all.len() as int) =~= all);
    }
    r
}

/// Select, among the given timetables, those with exactly `days` days
/// of classes and, within that bucket, all those tied for the smallest
/// total duration.
pub fn min_set_for_days(timetables: &Vec<ChosenTimetable>, days: usize) -> (r: Vec<
    ChosenTimetable,
>)
    requires
        forall|k: int|
            0 <= k < timetables@.len() ==> spec_entries_ok((#[trigger] timetables@[k]).0@),
    ensures
        views_of(r@) == spec_min_set(views_of(timetables@), days as int),
{
    let ghost all = views_of(timetables@);
    let mut bucket: Vec<ChosenTimetable> = Vec::new();
    let mut k: usize = 0;
    proof {
        assert(views_of(bucket@) =~= spec_bucket(all.take(0int), days as int));
    }
    while k < timetables.len()
        invariant
            k <= timetables.len(),
            all == views_of(timetables@),
            forall|j: int|
                0 <= j < timetables@.len() ==> spec_entries_ok((#[trigger] timetables@[j]).0@),
            views_of(bucket@) == spec_bucket(all.take(k as int), days as int),
            forall|j: int| 0 <= j < bucket@.len() ==> spec_entries_ok((#[trigger] bucket@[j]).0@),
        decreases timetables.len() - k,
    {
        let c = &timetables[k];
        proof {
            let cur = all.take(k + 1);
            assert(cur.drop_last() =~= all.take(k as int));
            assert(cur.last() == all[k as int]);
            assert(all[k as int] == timetables@[k as int].0@);
            lemma_entries_ok_parts(c.0@);
        }
        if c.count_days_with_classes() == days {
            let ghost old_b = bucket@;
            bucket.push(c.duplicate());
            proof {
                assert(views_of(bucket@) =~= views_of(old_b).push(timetables@[k as int].0@));
            }
        }
        k += 1;
    }
    proof {
        assert(all.take(all.len() as int) =~= all);
    }
    let ghost bviews = views_of(bucket@);
    assert(bviews == spec_bucket(all, days as int));
    if bucket.len() == 0 {
        let r: Vec<ChosenTimetable> = Vec::new();
        proof {
            assert(views_of(r@) =~= spec_min_set(all, days as int));
        }
        return r;
    }
    proof {
        lemma_entries_ok_parts(bucket@[0].0@);
        lemma_entries_ok_total(bucket@[0].0@);
    }
    let mut m: u16 = bucket[0].get_total_duration();
    let mut i: usize = 1;
    while i < bucket.len()
        invariant
            1 <= i <= bucket@.len(),
            bucket@.len() >= 1,
            bviews == views_of(bucket@),
            forall|j: int| 0 <= j < bucket@.len() ==> spec_entries_ok((#[trigger] bucket@[j]).0@),
            m == spec_min_total(bviews.take(i as int)),
        decreases bucket.len() - i,
    {
        proof {
            let cur = bviews.take(i + 1);
            assert(cur.drop_last() =~= bviews.take(i as int));
            assert(cur.last() == bviews[i as int]);
            assert(bviews[i as int] == bucket@[i as int].0@);
            lemma_entries_ok_parts(bucket@[i as int].0@);
            lemma_entries_ok_total(bucket@[i as int].0@);
        }
        let t = bucket[i].get_total_duration();
        if t < m {
            m = t;
        }
        i += 1;
    }
    proof {
        assert(bviews.take(bviews.len() as int) =~= bviews);
    }
    let mut r: Vec<ChosenTimetable> = Vec::new();
    let mut k2: usize = 0;
    proof {
        assert(views_of(r@) =~= spec_keep_min(bviews.take(0int), m as int));
    }
    while k2 < bucket.len()
        invariant
            k2 <= bucket@.len(),
            bviews == views_of(bucket@),
            forall|j: int| 0 <= j < bucket@.len() ==> spec_entries_ok((#[trigger] bucket@[j]).0@),
            views_of(r@) == spec_keep_min(bviews.take(k2 as int), m as int),
        decreases bucket.len() - k2,
    {
        proof {
            let cur = bviews.take(k2 + 1);
            assert(cur.drop_last() =~= bviews.take(k2 as int));
            assert(cur.last() == bviews[k2 as int]);
            assert(bviews[k2 as int] == bucket@[k2 as int].0@);
            lemma_entries_ok_parts(bucket@[k2 as int].0@);
            lemma_entries_ok_total(bucket@[k2 as int].0@);
        }
        let t = bucket[k2].get_total_duration();
        if t == m {
            let ghost old_r = r@;
            r.push(bucket[k2].duplicate());
            proof {
                assert(views_of(r@) =~= views_of(old_r).push(bucket@[k2 as int].0@));
            }
        }
        k2 += 1;
    }
    proof {
        assert(bviews.take(bviews.len() as int) =~= bviews);
    }
    r
}

/// Bounded, well-formed entries satisfy the per-interval conditions
/// the analytics ask for.
pub proof fn lemma_entries_ok_parts(entries: Seq<Entry>)
    requires
        spec_entries_ok(entries),
    ensures
        spec_entries_wf(entries),
        spec_times_wf(entries),
{
    assert forall|i: int| 0 <= i < entries.len() implies (#[trigger] entries[i]).1.duration.wf()
        && entries[i].1.duration.times_wf() by {
        assert(entries[i].1.duration.wf());
    }
}

/// Entries that are well formed and bounded have a weekly total that
/// machine arithmetic can hold.
pub proof fn lemma_entries_ok_total(entries: Seq<Entry>)
    requires
        spec_entries_ok(entries),
    ensures
        0 <= spec_total_duration(entries) <= u16::MAX,
{
    assert forall|i: int| 0 <= i < entries.len() implies (#[trigger] entries[i]).1.duration.wf()
        && entries[i].1.duration.end.spec_minutes() <= 13107 by {
        assert(entries[i].1.duration.wf());
    }
    crate::timetable::lemma_sum_day_minutes(entries, crate::time::Day::all(), 13107);
}

} // verus!
