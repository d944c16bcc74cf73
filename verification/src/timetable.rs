//! Chosen timetables and their analytics: per-day merged busy span,
//! total minutes, days with classes, wait time, and conflict detection.

use vstd::prelude::*;
use vstd::string::StringExecFns;
use crate::time::{Day, Duration};
use crate::model::Shift;

verus! {

/// One entry of a chosen timetable: the owning subject's name paired
/// with the shift chosen for it.
pub type Entry = (String, Shift);

/// A complete assignment of one shift to every subject-requirement, in
/// subject order.
#[derive(Debug)]
pub struct ChosenTimetable(pub Vec<Entry>);

/// Every entry's interval has representable endpoint minute counts.
pub open spec fn spec_times_wf(entries: Seq<Entry>) -> bool {
    forall|i: int| 0 <= i < entries.len() ==> (#[trigger] entries[i]).1.duration.times_wf()
}

/// Every entry's interval is well formed (representable and not
/// running backwards).
pub open spec fn spec_entries_wf(entries: Seq<Entry>) -> bool {
    forall|i: int| 0 <= i < entries.len() ==> (#[trigger] entries[i]).1.duration.wf()
}

/// The intervals of the entries that fall on `day`, in timetable order.
pub open spec fn spec_durations_at_day(entries: Seq<Entry>, day: Day) -> Seq<Duration>
    decreases entries.len(),
{
    if entries.len() == 0 {
        Seq::empty()
    } else {
        let rest = spec_durations_at_day(entries.drop_last(), day);
        if entries.last().1.day == day {
            rest.push(entries.last().1.duration)
        } else {
            rest
        }
    }
}

/// Left-to-right bounding union of a sequence of intervals; `None` for
/// the empty sequence.
pub open spec fn spec_merge_all(s: Seq<Duration>) -> Option<Duration>
    decreases s.len(),
{
    if s.len() == 0 {
        None
    } else {
        match spec_merge_all(s.drop_last()) {
            None => Some(s.last()),
            Some(acc) => Some(acc.spec_merge(s.last())),
        }
    }
}

/// The merged busy span of `day`, or `None` when no entry occupies it.
pub open spec fn spec_duration_at_day(entries: Seq<Entry>, day: Day) -> Option<Duration> {
    spec_merge_all(spec_durations_at_day(entries, day))
}

/// Whether some entry falls on `day`.
pub open spec fn spec_has_classes_at_day(entries: Seq<Entry>, day: Day) -> bool {
    exists|i: int| 0 <= i < entries.len() && (#[trigger] entries[i]).1.day == day
}

/// Minutes of the merged busy span of `day`; 0 when the day is free.
pub open spec fn spec_day_minutes(entries: Seq<Entry>, day: Day) -> int {
    match spec_duration_at_day(entries, day) {
        None => 0,
        Some(d) => d.spec_minutes(),
    }
}

/// Sum of the merged-span minutes over the given days.
pub open spec fn spec_sum_day_minutes(entries: Seq<Entry>, days: Seq<Day>) -> int
    decreases days.len(),
{
    if days.len() == 0 {
        0
    } else {
        spec_sum_day_minutes(entries, days.drop_last()) + spec_day_minutes(
            entries,
            days.last(),
        )
    }
}

/// Total weekly duration: merged-span minutes summed over the five
/// weekdays in order.
pub open spec fn spec_total_duration(entries: Seq<Entry>) -> int {
    spec_sum_day_minutes(entries, Day::all())
}

/// How many of the given days have at least one class.
pub open spec fn spec_count_days_on(entries: Seq<Entry>, days: Seq<Day>) -> int
    decreases days.len(),
{
    if days.len() == 0 {
        0
    } else {
        spec_count_days_on(entries, days.drop_last()) + if spec_has_classes_at_day(
            entries,
            days.last(),
        ) {
            1int
        } else {
            0int
        }
    }
}

/// How many of the five weekdays have at least one class.
pub open spec fn spec_count_days(entries: Seq<Entry>) -> int {
    spec_count_days_on(entries, Day::all())
}

/// Sum of the entries' own interval lengths, without merging.
pub open spec fn spec_minutes_in_classes(entries: Seq<Entry>) -> int
    decreases entries.len(),
{
    if entries.len() == 0 {
        0
    } else {
        spec_minutes_in_classes(entries.drop_last()) + entries.last().1.duration.spec_minutes()
    }
}

/// Wait time: minutes inside the merged daily spans not covered by any
/// chosen shift.
pub open spec fn spec_wait_minutes(entries: Seq<Entry>) -> int {
    spec_total_duration(entries) - spec_minutes_in_classes(entries)
}

/// Whether some unordered pair of distinct entries conflicts: same
/// weekday, overlapping intervals.
pub open spec fn spec_has_conflict(entries: Seq<Entry>) -> bool {
    exists|i: int, j: int|
        0 <= i < j < entries.len() && (#[trigger] entries[i]).1.spec_overlaps(
            (#[trigger] entries[j]).1,
        )
}

/// The display label of one entry: subject name, a space, shift name.
pub open spec fn spec_entry_label(e: Entry) -> Seq<char> {
    e.0@ + " "@ + e.1.name@
}

/// The display label of a timetable: entry labels joined by ", ".
pub open spec fn spec_label(entries: Seq<Entry>) -> Seq<char>
    decreases entries.len(),
{
    if entries.len() == 0 {
        Seq::empty()
    } else if entries.len() == 1 {
        spec_entry_label(entries[0])
    } else {
        spec_label(entries.drop_last()) + ", "@ + spec_entry_label(entries.last())
    }
}

/// The merged span exists exactly when the sequence is non-empty.
pub proof fn lemma_merge_all_some_iff(s: Seq<Duration>)
    ensures
        (spec_merge_all(s) is Some) <==> s.len() > 0,
    decreases s.len(),
{
    if s.len() > 0 {
        lemma_merge_all_some_iff(s.drop_last());
    }
}

/// Bounding union of well-formed intervals is well formed, and its end
/// never exceeds the latest end among the inputs.
pub proof fn lemma_merge_all_bounds(s: Seq<Duration>, b: int)
    requires
        forall|i: int| 0 <= i < s.len() ==> (#[trigger] s[i]).times_wf(),
        forall|i: int| 0 <= i < s.len() ==> (#[trigger] s[i]).end.spec_minutes() <= b,
    ensures
        spec_merge_all(s) matches Some(d) ==> d.times_wf() && d.end.spec_minutes() <= b,
    decreases s.len(),
{
    if s.len() > 0 {
        assert(forall|i: int|
            0 <= i < s.drop_last().len() ==> (#[trigger] s.drop_last()[i]) == s[i]);
        lemma_merge_all_bounds(s.drop_last(), b);
    }
}

/// Bounding union of ordered intervals is ordered.
pub proof fn lemma_merge_all_wf(s: Seq<Duration>)
    requires
        forall|i: int| 0 <= i < s.len() ==> (#[trigger] s[i]).wf(),
    ensures
        spec_merge_all(s) matches Some(d) ==> d.wf(),
    decreases s.len(),
{
    if s.len() > 0 {
        assert(forall|i: int|
            0 <= i < s.drop_last().len() ==> (#[trigger] s.drop_last()[i]) == s[i]);
        lemma_merge_all_wf(s.drop_last());
    }
}

/// Each interval collected for a day is the interval of some entry on
/// that day, and some interval is collected exactly when the day is
/// occupied.
pub proof fn lemma_durations_at_day(entries: Seq<Entry>, day: Day)
    ensures
        forall|k: int|
            0 <= k < spec_durations_at_day(entries, day).len() ==> exists|i: int|
                0 <= i < entries.len() && #[trigger] spec_durations_at_day(entries, day)[k]
                    == entries[i].1.duration && entries[i].1.day == day,
        spec_durations_at_day(entries, day).len() > 0 <==> spec_has_classes_at_day(entries, day),
    decreases entries.len(),
{
    if entries.len() > 0 {
        let prefix = entries.drop_last();
        lemma_durations_at_day(prefix, day);
        let s = spec_durations_at_day(entries, day);
        let sp = spec_durations_at_day(prefix, day);
        assert forall|k: int| 0 <= k < s.len() implies exists|i: int|
            0 <= i < entries.len() && #[trigger] s[k] == entries[i].1.duration
                && entries[i].1.day == day by {
            if k < sp.len() {
                let i = choose|i: int|
                    0 <= i < prefix.len() && sp[k] == prefix[i].1.duration && prefix[i].1.day
                        == day;
                assert(entries[i] == prefix[i]);
                assert(s[k] == entries[i].1.duration && entries[i].1.day == day);
            } else {
                let i = entries.len() - 1;
                assert(s[k] == entries[i].1.duration && entries[i].1.day == day);
            }
        }
        if spec_has_classes_at_day(entries, day) && !(entries.last().1.day == day) {
            let i = choose|i: int| 0 <= i < entries.len() && entries[i].1.day == day;
            assert(prefix[i] == entries[i]);
            assert(spec_has_classes_at_day(prefix, day));
        }
        if sp.len() > 0 {
            let i = choose|i: int|
                0 <= i < prefix.len() && sp[0] == prefix[i].1.duration && prefix[i].1.day == day;
            assert(entries[i] == prefix[i]);
            assert(spec_has_classes_at_day(entries, day));
        }
    }
}

/// The merged span of an occupied day is well formed when the entries
/// are, and its minutes are non-negative and bounded by the latest
/// shift end of the day.
pub proof fn lemma_day_span(entries: Seq<Entry>, day: Day, b: int)
    requires
        spec_entries_wf(entries),
        forall|i: int| 0 <= i < entries.len() ==> (#[trigger] entries[i]).1.duration.end.spec_minutes() <= b,
    ensures
        spec_duration_at_day(entries, day) matches Some(d) ==> d.wf() && d.end.spec_minutes()
            <= b,
        0 <= spec_day_minutes(entries, day),
        b >= 0 ==> spec_day_minutes(entries, day) <= b,
{
    let s = spec_durations_at_day(entries, day);
    lemma_durations_at_day(entries, day);
    assert forall|k: int| 0 <= k < s.len() implies (#[trigger] s[k]).wf()
        && s[k].end.spec_minutes() <= b by {
        let i = choose|i: int|
            0 <= i < entries.len() && s[k] == entries[i].1.duration && entries[i].1.day == day;
    }
    lemma_merge_all_wf(s);
    lemma_merge_all_bounds(s, b);
}

/// Sums of per-day span minutes are non-negative, bounded by the day
/// count times the common end bound, and grow along a day list.
pub proof fn lemma_sum_day_minutes(entries: Seq<Entry>, days: Seq<Day>, b: int)
    requires
        spec_entries_wf(entries),
        b >= 0,
        forall|i: int| 0 <= i < entries.len() ==> (#[trigger] entries[i]).1.duration.end.spec_minutes() <= b,
    ensures
        0 <= spec_sum_day_minutes(entries, days) <= days.len() * b,
    decreases days.len(),
{
    if days.len() == 0 {
    } else {
        lemma_sum_day_minutes(entries, days.drop_last(), b);
        lemma_day_span(entries, days.last(), b);
        assert((days.len() - 1) * b + b == days.len() * b) by (nonlinear_arith);
    }
}

/// Prefix sums of per-day span minutes never exceed the full sum.
pub proof fn lemma_sum_day_minutes_prefix(entries: Seq<Entry>, days: Seq<Day>, j: int)
    requires
        spec_entries_wf(entries),
        0 <= j <= days.len(),
    ensures
        spec_sum_day_minutes(entries, days.take(j)) <= spec_sum_day_minutes(entries, days),
    decreases days.len() - j,
{
    if j == days.len() {
        assert(days.take(j) =~= days);
    } else {
        lemma_sum_day_minutes_prefix(entries, days, j + 1);
        assert(days.take(j + 1).drop_last() =~= days.take(j));
        lemma_day_span(entries, days[j], u16::MAX as int);
    }
}

/// Minutes-in-classes is a sum of non-negative terms; prefixes never
/// exceed the whole.
pub proof fn lemma_minutes_in_classes_nonneg(entries: Seq<Entry>)
    requires
        spec_entries_wf(entries),
    ensures
        0 <= spec_minutes_in_classes(entries),
    decreases entries.len(),
{
    if entries.len() > 0 {
        assert(forall|i: int|
            0 <= i < entries.drop_last().len() ==> (#[trigger] entries.drop_last()[i])
                == entries[i]);
        lemma_minutes_in_classes_nonneg(entries.drop_last());
    }
}

/// A prefix of the entries never has more class minutes than the whole.
pub proof fn lemma_minutes_in_classes_prefix(entries: Seq<Entry>, i: int)
    requires
        spec_entries_wf(entries),
        0 <= i <= entries.len(),
    ensures
        spec_minutes_in_classes(entries.take(i)) <= spec_minutes_in_classes(entries),
    decreases entries.len() - i,
{
    if i == entries.len() {
        assert(entries.take(i) =~= entries);
    } else {
        lemma_minutes_in_classes_prefix(entries, i + 1);
        assert(entries.take(i + 1).drop_last() =~= entries.take(i));
    }
}

impl ChosenTimetable {
    /// A copy of this timetable with entry-for-entry equal contents.
    pub fn duplicate(&self) -> (r: ChosenTimetable)
        ensures
            r.0@ == self.0@,
    {
        let mut entries: Vec<Entry> = Vec::new();
        let n = self.0.len();
        let mut i: usize = 0;
        while i < n
            invariant
                n == self.0.len(),
                i <= n,
                entries@ =~= self.0@.take(i as int),
            decreases n - i,
        {
            let e = &self.0[i];
            entries.push((e.0.clone(), e.1.duplicate()));
            proof {
                assert(entries@ =~= self.0@.take(i as int).push(self.0@[i as int]));
                assert(entries@ =~= self.0@.take(i + 1));
            }
            i += 1;
        }
        proof {
            assert(entries@ =~= self.0@);
        }
        ChosenTimetable(entries)
    }

    /// Display label: "subject shift" pairs in timetable order, joined
    /// by commas.
    pub fn prettify(&self) -> (r: String)
        ensures
            r@ == spec_label(self.0@),
    {
        let mut r = String::new();
        let n = self.0.len();
        let mut i: usize = 0;
        while i < n
            invariant
                n == self.0.len(),
                i <= n,
                r@ == spec_label(self.0@.take(i as int)),
            decreases n - i,
        {
            if i > 0 {
                r.append(", ");
            }
            let e = &self.0[i];
            r.append(e.0.as_str());
            r.append(" ");
            r.append(e.1.name.as_str());
            proof {
                let prev = self.0@.take(i as int);
                let cur = self.0@.take(i + 1);
                assert(cur.drop_last() =~= prev);
                assert(cur.last() == self.0@[i as int]);
                if i == 0 {
                    assert(r@ =~= spec_entry_label(cur[0]));
                } else {
                    assert(r@ =~= spec_label(prev) + ", "@ + spec_entry_label(cur.last()));
                }
            }
            i += 1;
        }
        proof {
            assert(self.0@.take(n as int) =~= self.0@);
        }
        r
    }

    /// The bounding union of the intervals of this timetable's shifts
    /// on `day`, merged in timetable order; `None` if the day is free.
    pub fn get_total_duration_at_day(&self, day: Day) -> (r: Option<Duration>)
        requires
            spec_times_wf(self.0@),
        ensures
            r == spec_duration_at_day(self.0@, day),
    {
        let mut acc: Option<Duration> = None;
        let n = self.0.len();
        let mut i: usize = 0;
        while i < n
            invariant
                n == self.0.len(),
                i <= n,
                spec_times_wf(self.0@),
                acc == spec_merge_all(spec_durations_at_day(self.0@.take(i as int), day)),
                acc matches Some(d) ==> d.times_wf(),
            decreases n - i,
        {
            let e = &self.0[i];
            proof {
                let prev = self.0@.take(i as int);
                let cur = self.0@.take(i + 1);
                assert(cur.drop_last() =~= prev);
                assert(cur.last() == self.0@[i as int]);
                let sp = spec_durations_at_day(prev, day);
                if self.0@[i as int].1.day == day {
                    let d = self.0@[i as int].1.duration;
                    assert(spec_durations_at_day(cur, day) == sp.push(d));
                    assert(sp.push(d).drop_last() =~= sp);
                    assert(sp.push(d).last() == d);
                } else {
                    assert(spec_durations_at_day(cur, day) == sp);
                }
            }
            if e.1.day == day {
                acc = match acc {
                    None => Some(e.1.duration),
                    Some(a) => Some(a.merge(&e.1.duration)),
                };
            }
            i += 1;
        }
        proof {
            assert(self.0@.take(n as int) =~= self.0@);
        }
        acc
    }

    /// Sum of the chosen shifts' own interval lengths, without merging.
    pub fn get_minutes_in_classes(&self) -> (r: u16)
        requires
            spec_entries_wf(self.0@),
            spec_minutes_in_classes(self.0@) <= u16::MAX,
        ensures
            r == spec_minutes_in_classes(self.0@),
    {
        let mut acc: u16 = 0;
        let n = self.0.len();
        let mut i: usize = 0;
        while i < n
            invariant
                n == self.0.len(),
                i <= n,
                spec_entries_wf(self.0@),
                spec_minutes_in_classes(self.0@) <= u16::MAX,
                acc == spec_minutes_in_classes(self.0@.take(i as int)),
            decreases n - i,
        {
            let e = &self.0[i];
            proof {
                let prev = self.0@.take(i as int);
                let cur = self.0@.take(i + 1);
                assert(cur.drop_last() =~= prev);
                assert(cur.last() == self.0@[i as int]);
                lemma_minutes_in_classes_prefix(self.0@, i + 1);
                lemma_minutes_in_classes_nonneg(self.0@.take(i as int));
                assert(forall|k: int|
                    0 <= k < self.0@.take(i as int).len() ==> (#[trigger] self.0@.take(
                        i as int,
                    )[k]) == self.0@[k]);
            }
            acc = acc + e.1.duration.minutes();
            i += 1;
        }
        proof {
            assert(self.0@.take(n as int) =~= self.0@);
        }
        acc
    }

    /// Total weekly duration in minutes: merged-span minutes summed
    /// over the five weekdays in order.
    pub fn get_total_duration(&self) -> (r: u16)
        requires
            spec_entries_wf(self.0@),
            spec_total_duration(self.0@) <= u16::MAX,
        ensures
            r == spec_total_duration(self.0@),
    {
        let days = Day::in_order();
        let mut acc: u16 = 0;
        let mut j: usize = 0;
        while j < days.len()
            invariant
                days@ == Day::all(),
                j <= days.len(),
                spec_entries_wf(self.0@),
                spec_total_duration(self.0@) <= u16::MAX,
                acc == spec_sum_day_minutes(self.0@, Day::all().take(j as int)),
            decreases days.len() - j,
        {
            let day = days[j];
            proof {
                let prev = Day::all().take(j as int);
                let cur = Day::all().take(j + 1);
                assert(cur.drop_last() =~= prev);
                assert(cur.last() == Day::all()[j as int]);
                lemma_day_span(self.0@, day, u16::MAX as int);
                lemma_sum_day_minutes(self.0@, prev, u16::MAX as int);
                lemma_sum_day_minutes_prefix(self.0@, Day::all(), j + 1);
                lemma_sum_day_minutes(self.0@, cur, u16::MAX as int);
            }
            match self.get_total_duration_at_day(day) {
                Some(d) => {
                    proof {
                        lemma_day_span(self.0@, day, u16::MAX as int);
                    }
                    acc = acc + d.minutes();
                },
                None => {},
            }
            j += 1;
        }
        proof {
            assert(Day::all().take(5int) =~= Day::all());
        }
        acc
    }

    /// Whether any chosen shift occupies `day`.
    pub fn has_classes_at_day(&self, day: Day) -> (r: bool)
        requires
            spec_times_wf(self.0@),
        ensures
            r == spec_has_classes_at_day(self.0@, day),
    {
        let r = self.get_total_duration_at_day(day).is_some();
        proof {
            lemma_durations_at_day(self.0@, day);
            lemma_merge_all_some_iff(spec_durations_at_day(self.0@, day));
        }
        r
    }

    /// How many of the five weekdays have at least one class. Never
    /// more than 5.
    pub fn count_days_with_classes(&self) -> (r: usize)
        requires
            spec_times_wf(self.0@),
        ensures
            r == spec_count_days(self.0@),
            r <= 5,
    {
        let days = Day::in_order();
        let mut count: usize = 0;
        let mut j: usize = 0;
        while j < days.len()
            invariant
                days@ == Day::all(),
                j <= days.len(),
                spec_times_wf(self.0@),
                count == spec_count_days_on(self.0@, Day::all().take(j as int)),
                count <= j,
            decreases days.len() - j,
        {
            proof {
                let prev = Day::all().take(j as int);
                let cur = Day::all().take(j + 1);
                assert(cur.drop_last() =~= prev);
                assert(cur.last() == Day::all()[j as int]);
            }
            if self.has_classes_at_day(days[j]) {
                count = count + 1;
            }
            j += 1;
        }
        proof {
            assert(Day::all().take(5int) =~= Day::all());
        }
        count
    }

    /// Minutes spent waiting: the weekly merged-span total minus the
    /// minutes actually spent in classes.
    pub fn get_wait_time_in_minutes_at_day(&self) -> (r: u16)
        requires
            spec_entries_wf(self.0@),
            spec_total_duration(self.0@) <= u16::MAX,
            spec_minutes_in_classes(self.0@) <= spec_total_duration(self.0@),
        ensures
            r == spec_wait_minutes(self.0@),
    {
        let total_duration = self.get_total_duration();
        let minutes_in_classes = self.get_minutes_in_classes();
        total_duration - minutes_in_classes
    }

    /// Whether some unordered pair of distinct entries conflicts: same
    /// weekday, overlapping intervals.
    pub fn is_overlapping(&self) -> (r: bool)
        requires
            spec_times_wf(self.0@),
        ensures
            r == spec_has_conflict(self.0@),
    {
        let n = self.0.len();
        let mut i: usize = 0;
        while i < n
            invariant
                n == self.0.len(),
                spec_times_wf(self.0@),
                i <= n,
                forall|a: int, b: int|
                    0 <= a < b < n && a < i ==> !(#[trigger] self.0@[a]).1.spec_overlaps(
                        (#[trigger] self.0@[b]).1,
                    ),
            decreases n - i,
        {
            let mut j: usize = i + 1;
            while j < n
                invariant
                    n == self.0.len(),
                    spec_times_wf(self.0@),
                    i < j <= n || (i + 1 == j && j >= n),
                    i < n,
                    forall|a: int, b: int|
                        0 <= a < b < n && a < i ==> !(#[trigger] self.0@[a]).1.spec_overlaps(
                            (#[trigger] self.0@[b]).1,
                        ),
                    forall|b: int|
                        i < b < j ==> !self.0@[i as int].1.spec_overlaps(
                            (#[trigger] self.0@[b]).1,
                        ),
                decreases n - j,
            {
                if self.0[i].1.is_overlapping(&self.0[j].1) {
                    return true;
                }
                j += 1;
            }
            i += 1;
        }
        false
    }

    /// Compare two timetables by total weekly duration.
    pub fn cmp(&self, other: &Self) -> (r: core::cmp::Ordering)
        requires
            spec_entries_wf(self.0@),
            spec_total_duration(self.0@) <= u16::MAX,
            spec_entries_wf(other.0@),
            spec_total_duration(other.0@) <= u16::MAX,
        ensures
            (r == core::cmp::Ordering::Less) <==> spec_total_duration(self.0@)
                < spec_total_duration(other.0@),
            (r == core::cmp::Ordering::Equal) <==> spec_total_duration(self.0@)
                == spec_total_duration(other.0@),
            (r == core::cmp::Ordering::Greater) <==> spec_total_duration(self.0@)
                > spec_total_duration(other.0@),
    {
        let a = self.get_total_duration();
        let b = other.get_total_duration();
        if a < b {
            core::cmp::Ordering::Less
        } else if a == b {
            core::cmp::Ordering::Equal
        } else {
            core::cmp::Ordering::Greater
        }
    }
}

} // verus!
