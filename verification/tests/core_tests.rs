use timetable::time::{Day, Duration, Hour};
use timetable::model::{Shift, Subject};
use timetable::timetable::ChosenTimetable;
use timetable::solver::{assemble, filter_valid, min_set_for_days};
use timetable::report::solve;

fn hm(hour: u16, minute: u16) -> Hour {
    Hour { hour, minute }
}

fn span(h1: u16, m1: u16, h2: u16, m2: u16) -> Duration {
    Duration { start: hm(h1, m1), end: hm(h2, m2) }
}

fn shift(name: &str, day: Day, duration: Duration) -> Shift {
    Shift { name: name.to_string(), day, duration }
}

fn subject(name: &str, shifts: Vec<Shift>) -> Subject {
    Subject { name: name.to_string(), available_shifts: shifts }
}

fn timetable(entries: Vec<(&str, Shift)>) -> ChosenTimetable {
    ChosenTimetable(entries.into_iter().map(|(n, s)| (n.to_string(), s)).collect())
}

#[test]
fn to_minutes_formula() {
    assert_eq!(hm(9, 30).to_minutes(), 570);
    assert_eq!(hm(0, 0).to_minutes(), 0);
    assert_eq!(hm(23, 59).to_minutes(), 1439);
}

#[test]
fn duration_minutes_formula() {
    assert_eq!(span(9, 0, 11, 0).minutes(), 120);
    assert_eq!(span(9, 30, 9, 30).minutes(), 0);
}

#[test]
fn merge_is_bounding_union() {
    let a = span(9, 0, 10, 0);
    let b = span(11, 0, 12, 0);
    let m = a.merge(&b);
    assert_eq!(m.start, hm(9, 0));
    assert_eq!(m.end, hm(12, 0));
    // The earlier start is picked by minutes, not field by field.
    let c = span(9, 30, 11, 0);
    let d = span(10, 0, 10, 45);
    let m2 = c.merge(&d);
    assert_eq!(m2.start, hm(9, 30));
    assert_eq!(m2.end, hm(11, 0));
}

#[test]
fn overlap_is_symmetric() {
    let a = span(9, 0, 11, 0);
    let b = span(10, 0, 12, 0);
    assert!(a.is_overlapping(&b));
    assert!(b.is_overlapping(&a));
    let c = span(13, 0, 14, 0);
    assert!(!a.is_overlapping(&c));
    assert!(!c.is_overlapping(&a));
    let sa = shift("A", Day::Monday, a);
    let sb = shift("B", Day::Monday, b);
    assert_eq!(sa.is_overlapping(&sb), sb.is_overlapping(&sa));
}

#[test]
fn same_interval_other_day_does_not_overlap() {
    let sa = shift("A", Day::Monday, span(9, 0, 11, 0));
    let sb = shift("B", Day::Tuesday, span(9, 0, 11, 0));
    assert!(!sa.is_overlapping(&sb));
}

#[test]
fn single_entry_timetable_never_conflicts() {
    let t = timetable(vec![("Solo", shift("S1", Day::Monday, span(9, 0, 11, 0)))]);
    assert!(!t.is_overlapping());
}

#[test]
fn touching_intervals_do_not_overlap() {
    let a = span(9, 0, 11, 0);
    let b = span(11, 0, 13, 0);
    assert!(!a.is_overlapping(&b));
    assert!(!b.is_overlapping(&a));
    let t = timetable(vec![
        ("Morning", shift("M", Day::Monday, a)),
        ("Midday", shift("N", Day::Monday, b)),
    ]);
    assert!(!t.is_overlapping());
}

#[test]
fn one_candidate_two_days() {
    let subjects = vec![
        subject("First", vec![shift("A", Day::Monday, span(9, 0, 11, 0))]),
        subject("Second", vec![shift("B", Day::Tuesday, span(9, 0, 11, 0))]),
    ];
    let candidates = assemble(&subjects);
    assert_eq!(candidates.len(), 1);
    let valid = filter_valid(&candidates);
    assert_eq!(valid.len(), 1);
    assert_eq!(valid[0].get_total_duration(), 240);
    assert_eq!(valid[0].count_days_with_classes(), 2);
    assert!(valid[0].count_days_with_classes() <= 5);
}

#[test]
fn two_by_two_product_all_kept() {
    let subjects = vec![
        subject(
            "First",
            vec![
                shift("A1", Day::Monday, span(9, 0, 11, 0)),
                shift("A2", Day::Tuesday, span(9, 0, 11, 0)),
            ],
        ),
        subject(
            "Second",
            vec![
                shift("B1", Day::Wednesday, span(9, 0, 11, 0)),
                shift("B2", Day::Thursday, span(9, 0, 11, 0)),
            ],
        ),
    ];
    let candidates = assemble(&subjects);
    assert_eq!(candidates.len(), 4);
    let valid = filter_valid(&candidates);
    assert_eq!(valid.len(), 4);
}

#[test]
fn product_order_last_subject_varies_fastest() {
    let subjects = vec![
        subject(
            "First",
            vec![
                shift("A1", Day::Monday, span(9, 0, 11, 0)),
                shift("A2", Day::Tuesday, span(9, 0, 11, 0)),
            ],
        ),
        subject(
            "Second",
            vec![
                shift("B1", Day::Wednesday, span(9, 0, 11, 0)),
                shift("B2", Day::Thursday, span(9, 0, 11, 0)),
            ],
        ),
    ];
    let candidates = assemble(&subjects);
    let labels: Vec<String> = candidates.iter().map(|c| c.prettify()).collect();
    assert_eq!(
        labels,
        vec![
            "First A1, Second B1",
            "First A1, Second B2",
            "First A2, Second B1",
            "First A2, Second B2",
        ]
    );
}

#[test]
fn all_conflicting_leaves_nothing() {
    let subjects = vec![
        subject(
            "First",
            vec![
                shift("A1", Day::Monday, span(9, 0, 11, 0)),
                shift("A2", Day::Monday, span(10, 0, 12, 0)),
            ],
        ),
        subject(
            "Second",
            vec![
                shift("B1", Day::Monday, span(10, 30, 11, 30)),
                shift("B2", Day::Monday, span(9, 30, 10, 30)),
            ],
        ),
    ];
    let candidates = assemble(&subjects);
    assert_eq!(candidates.len(), 4);
    let valid = filter_valid(&candidates);
    assert_eq!(valid.len(), 0);
}

#[test]
fn zero_shift_subject_empties_product() {
    let subjects = vec![
        subject("First", vec![shift("A", Day::Monday, span(9, 0, 11, 0))]),
        subject("Second", vec![]),
    ];
    let candidates = assemble(&subjects);
    assert_eq!(candidates.len(), 0);
}

#[test]
fn per_day_span_merges_with_gap() {
    let t = timetable(vec![
        ("First", shift("A", Day::Monday, span(9, 0, 10, 0))),
        ("Second", shift("B", Day::Monday, span(11, 0, 12, 0))),
    ]);
    let m = t.get_total_duration_at_day(Day::Monday).unwrap();
    assert_eq!(m.start, hm(9, 0));
    assert_eq!(m.end, hm(12, 0));
    assert!(t.get_total_duration_at_day(Day::Tuesday).is_none());
    assert!(t.has_classes_at_day(Day::Monday));
    assert!(!t.has_classes_at_day(Day::Friday));
    // The bounding span covers the gap: 180 minutes, not 120.
    assert_eq!(t.get_total_duration(), 180);
    assert_eq!(t.get_minutes_in_classes(), 120);
    assert_eq!(t.get_wait_time_in_minutes_at_day(), 60);
}

#[test]
fn cmp_orders_by_total_duration() {
    let short = timetable(vec![("First", shift("A", Day::Monday, span(9, 0, 10, 0)))]);
    let long = timetable(vec![("First", shift("B", Day::Monday, span(9, 0, 12, 0)))]);
    assert_eq!(short.cmp(&long), std::cmp::Ordering::Less);
    assert_eq!(long.cmp(&short), std::cmp::Ordering::Greater);
    assert_eq!(short.cmp(&short), std::cmp::Ordering::Equal);
}

#[test]
fn prettify_joins_entries() {
    let t = timetable(vec![
        ("Math", shift("L1", Day::Monday, span(9, 0, 11, 0))),
        ("Physics", shift("L2", Day::Tuesday, span(9, 0, 11, 0))),
    ]);
    assert_eq!(t.prettify(), "Math L1, Physics L2");
}

#[test]
fn min_set_keeps_every_cominimal_candidate() {
    let subjects = vec![
        subject("First", vec![shift("A1", Day::Monday, span(9, 0, 11, 0))]),
        subject(
            "Second",
            vec![
                shift("B1", Day::Tuesday, span(9, 0, 11, 0)),
                shift("B2", Day::Tuesday, span(13, 0, 15, 0)),
                shift("B3", Day::Tuesday, span(12, 0, 16, 0)),
            ],
        ),
    ];
    let valid = filter_valid(&assemble(&subjects));
    assert_eq!(valid.len(), 3);
    let best = min_set_for_days(&valid, 2);
    // Two candidates tie at 240 minutes; both must be reported.
    assert_eq!(best.len(), 2);
    let labels: Vec<String> = best.iter().map(|c| c.prettify()).collect();
    assert!(labels.contains(&"First A1, Second B1".to_string()));
    assert!(labels.contains(&"First A1, Second B2".to_string()));
}

#[test]
fn ranking_twice_gives_identical_buckets() {
    let subjects = vec![
        subject(
            "First",
            vec![
                shift("A1", Day::Monday, span(9, 0, 11, 0)),
                shift("A2", Day::Tuesday, span(8, 0, 12, 0)),
            ],
        ),
        subject(
            "Second",
            vec![
                shift("B1", Day::Wednesday, span(9, 0, 11, 0)),
                shift("B2", Day::Monday, span(11, 0, 13, 0)),
            ],
        ),
    ];
    let valid = filter_valid(&assemble(&subjects));
    for days in 1..=5 {
        let first = min_set_for_days(&valid, days);
        let second = min_set_for_days(&valid, days);
        let l1: Vec<String> = first.iter().map(|c| c.prettify()).collect();
        let l2: Vec<String> = second.iter().map(|c| c.prettify()).collect();
        assert_eq!(l1, l2);
    }
}

#[test]
fn solve_builds_full_report() {
    let subjects = vec![
        subject(
            "First",
            vec![
                shift("A1", Day::Monday, span(9, 0, 11, 0)),
                shift("A2", Day::Tuesday, span(9, 0, 11, 0)),
            ],
        ),
        subject(
            "Second",
            vec![
                shift("B1", Day::Monday, span(11, 0, 13, 0)),
                shift("B2", Day::Wednesday, span(9, 0, 11, 0)),
            ],
        ),
    ];
    let report = solve(subjects);
    assert_eq!(report.valid_count, 4);
    assert_eq!(report.buckets.len(), 5);
    // One-day bucket: A1+B1 on Monday, 9:00 to 13:00.
    let b1 = &report.buckets[0];
    assert_eq!(b1.days_with_classes, 1);
    assert_eq!(b1.timetables.len(), 1);
    let r = &b1.timetables[0];
    assert_eq!(r.rank, 1);
    assert_eq!(r.label, "First A1, Second B1");
    assert_eq!(r.total_hours, 4);
    assert_eq!(r.hours_per_day, vec![4, 0, 0, 0, 0]);
    assert_eq!(r.wait_hours, 0);
    // Two-day bucket: the three remaining candidates all total 4 hours.
    let b2 = &report.buckets[1];
    assert_eq!(b2.days_with_classes, 2);
    assert_eq!(b2.timetables.len(), 3);
    for (i, rt) in b2.timetables.iter().enumerate() {
        assert_eq!(rt.rank, i + 1);
        assert_eq!(rt.total_hours, 4);
        assert_eq!(rt.wait_hours, 0);
    }
    // No candidate uses three or more days.
    assert_eq!(report.buckets[2].timetables.len(), 0);
    assert_eq!(report.buckets[3].timetables.len(), 0);
    assert_eq!(report.buckets[4].timetables.len(), 0);
}

#[test]
fn solve_reports_wait_hours() {
    let subjects = vec![
        subject("First", vec![shift("A", Day::Monday, span(9, 0, 10, 0))]),
        subject("Second", vec![shift("B", Day::Monday, span(12, 0, 13, 0))]),
    ];
    let report = solve(subjects);
    assert_eq!(report.valid_count, 1);
    let b1 = &report.buckets[0];
    assert_eq!(b1.timetables.len(), 1);
    // Span 9:00 to 13:00 = 4 hours, 2 in classes, 2 waiting.
    assert_eq!(b1.timetables[0].total_hours, 4);
    assert_eq!(b1.timetables[0].wait_hours, 2);
    assert_eq!(b1.timetables[0].hours_per_day, vec![4, 0, 0, 0, 0]);
}

#[test]
fn truncated_hours_round_down() {
    let subjects = vec![
        subject("First", vec![shift("A", Day::Monday, span(9, 0, 10, 30))]),
    ];
    let report = solve(subjects);
    let b1 = &report.buckets[0];
    // 90 minutes truncate to 1 hour.
    assert_eq!(b1.timetables[0].total_hours, 1);
    assert_eq!(b1.timetables[0].hours_per_day, vec![1, 0, 0, 0, 0]);
}

#[test]
fn days_in_order_is_monday_to_friday() {
    assert_eq!(
        Day::in_order(),
        vec![Day::Monday, Day::Tuesday, Day::Wednesday, Day::Thursday, Day::Friday]
    );
}
