use timetable::time::{Day, Hour};
use timetable::parse::{parse_day, parse_duration, parse_hour, parse_shift, parse_u16, LoadError};

#[test]
fn parse_day_accepts_the_five_weekdays() {
    assert_eq!(parse_day("Monday"), Ok(Day::Monday));
    assert_eq!(parse_day("Tuesday"), Ok(Day::Tuesday));
    assert_eq!(parse_day("Wednesday"), Ok(Day::Wednesday));
    assert_eq!(parse_day("Thursday"), Ok(Day::Thursday));
    assert_eq!(parse_day("Friday"), Ok(Day::Friday));
}

#[test]
fn parse_day_rejects_everything_else() {
    assert_eq!(parse_day("Saturday"), Err(LoadError::MalformedWeekday));
    assert_eq!(parse_day("monday"), Err(LoadError::MalformedWeekday));
    assert_eq!(parse_day(""), Err(LoadError::MalformedWeekday));
    assert_eq!(parse_day("Monday "), Err(LoadError::MalformedWeekday));
}

#[test]
fn parse_u16_reads_decimal() {
    assert_eq!(parse_u16("0"), Some(0));
    assert_eq!(parse_u16("42"), Some(42));
    assert_eq!(parse_u16("+42"), Some(42));
    assert_eq!(parse_u16("007"), Some(7));
    assert_eq!(parse_u16("65535"), Some(65535));
}

#[test]
fn parse_u16_rejects_junk_and_overflow() {
    assert_eq!(parse_u16(""), None);
    assert_eq!(parse_u16("+"), None);
    assert_eq!(parse_u16("-1"), None);
    assert_eq!(parse_u16("4a"), None);
    assert_eq!(parse_u16("65536"), None);
    assert_eq!(parse_u16("70000"), None);
}

#[test]
fn parse_hour_reads_both_forms() {
    assert_eq!(parse_hour("9"), Ok(Hour { hour: 9, minute: 0 }));
    assert_eq!(parse_hour("9:30"), Ok(Hour { hour: 9, minute: 30 }));
    assert_eq!(parse_hour("+9"), Ok(Hour { hour: 9, minute: 0 }));
}

#[test]
fn parse_hour_rejects_malformed_times() {
    assert_eq!(parse_hour(""), Err(LoadError::MalformedTime));
    assert_eq!(parse_hour("nine"), Err(LoadError::MalformedTime));
    assert_eq!(parse_hour("9:"), Err(LoadError::MalformedTime));
    assert_eq!(parse_hour(":30"), Err(LoadError::MalformedTime));
    assert_eq!(parse_hour("9:30:5"), Err(LoadError::MalformedTime));
}

#[test]
fn parse_duration_reads_interval() {
    let d = parse_duration("9:00->11:00").unwrap();
    assert_eq!(d.start, Hour { hour: 9, minute: 0 });
    assert_eq!(d.end, Hour { hour: 11, minute: 0 });
    let d2 = parse_duration("9->10").unwrap();
    assert_eq!(d2.start, Hour { hour: 9, minute: 0 });
    assert_eq!(d2.end, Hour { hour: 10, minute: 0 });
}

#[test]
fn parse_duration_distinguishes_its_errors() {
    assert_eq!(parse_duration("9:00"), Err(LoadError::MalformedDurationToken));
    assert_eq!(parse_duration("9->10->11"), Err(LoadError::MalformedDurationToken));
    assert_eq!(parse_duration(""), Err(LoadError::MalformedDurationToken));
    assert_eq!(parse_duration("a->b"), Err(LoadError::MalformedTime));
    assert_eq!(parse_duration("9:00->"), Err(LoadError::MalformedTime));
}

#[test]
fn parse_shift_reads_a_whole_description() {
    let s = parse_shift("T1".to_string(), "Monday 9:00->11:00").unwrap();
    assert_eq!(s.name, "T1");
    assert_eq!(s.day, Day::Monday);
    assert_eq!(s.duration.start, Hour { hour: 9, minute: 0 });
    assert_eq!(s.duration.end, Hour { hour: 11, minute: 0 });
}

#[test]
fn parse_shift_tolerates_extra_blanks() {
    let s = parse_shift("T1".to_string(), "  Friday\t 12->14  ").unwrap();
    assert_eq!(s.day, Day::Friday);
    assert_eq!(s.duration.end, Hour { hour: 14, minute: 0 });
}

#[test]
fn parse_shift_distinguishes_its_errors() {
    assert_eq!(
        parse_shift("T1".to_string(), "Monday"),
        Err(LoadError::MalformedShift)
    );
    assert_eq!(
        parse_shift("T1".to_string(), ""),
        Err(LoadError::MalformedShift)
    );
    assert_eq!(
        parse_shift("T1".to_string(), "Monday 9:00->11:00 extra"),
        Err(LoadError::MalformedShift)
    );
    assert_eq!(
        parse_shift("T1".to_string(), "Funday 9:00->11:00"),
        Err(LoadError::MalformedWeekday)
    );
    assert_eq!(
        parse_shift("T1".to_string(), "Monday 9:00"),
        Err(LoadError::MalformedDurationToken)
    );
    assert_eq!(
        parse_shift("T1".to_string(), "Monday 9:xx->11:00"),
        Err(LoadError::MalformedTime)
    );
}
