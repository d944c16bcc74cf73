//! Loading-time parsing of the plain-text schedule fields: weekday
//! names, clock times ("9" or "9:30"), intervals ("9:00->11:00"), and
//! whole shift descriptions ("Monday 9:00->11:00").

use vstd::prelude::*;
use vstd::string::StrSliceExecFns;
use crate::time::{Day, Duration, Hour};
use crate::model::Shift;

verus! {

/// The closed set of loading failures. Reading and decoding the
/// schedule source itself is the caller's business; the two source
/// kinds exist for it to report those failures with.
#[derive(Debug, Eq, PartialEq, Structural, Copy, Clone)]
pub enum LoadError {
    /// A weekday name that is not one of the five known ones.
    MalformedWeekday,
    /// An hour or minute field that is not a decimal number in range.
    MalformedTime,
    /// An interval without exactly one "->" separator.
    MalformedDurationToken,
    /// A shift description without exactly two blank-separated tokens.
    MalformedShift,
    /// The schedule source could not be read.
    SourceUnreadable,
    /// The schedule source could not be decoded.
    SourceUnparseable,
}

/// The canonical spelling of each weekday.
pub open spec fn spec_day_name(d: Day) -> Seq<char> {
    match d {
        Day::Monday => "Monday"@,
        Day::Tuesday => "Tuesday"@,
        Day::Wednesday => "Wednesday"@,
        Day::Thursday => "Thursday"@,
        Day::Friday => "Friday"@,
    }
}

/// What parsing a weekday name yields.
pub open spec fn spec_parse_day(s: Seq<char>) -> Option<Day> {
    if s == spec_day_name(Day::Monday) {
        Some(Day::Monday)
    } else if s == spec_day_name(Day::Tuesday) {
        Some(Day::Tuesday)
    } else if s == spec_day_name(Day::Wednesday) {
        Some(Day::Wednesday)
    } else if s == spec_day_name(Day::Thursday) {
        Some(Day::Thursday)
    } else if s == spec_day_name(Day::Friday) {
        Some(Day::Friday)
    } else {
        None
    }
}

/// A decimal digit.
pub open spec fn spec_is_digit(c: char) -> bool {
    ('0' as u32) <= (c as u32) && (c as u32) <= ('9' as u32)
}

/// The numeric value of one digit.
pub open spec fn spec_digit_val(c: char) -> int {
    (c as u32) - ('0' as u32)
}

/// The number a digit string denotes, most significant digit first.
pub open spec fn spec_digit_value(s: Seq<char>) -> int
    decreases s.len(),
{
    if s.len() == 0 {
        0
    } else {
        spec_digit_value(s.drop_last()) * 10 + spec_digit_val(s.last())
    }
}

/// The digits of a number, past an optional leading plus sign.
pub open spec fn spec_num_body(s: Seq<char>) -> Seq<char> {
    if s.len() > 0 && s[0] == '+' {
        s.drop_first()
    } else {
        s
    }
}

/// A non-empty, all-digit string.
pub open spec fn spec_all_digits(s: Seq<char>) -> bool {
    s.len() > 0 && forall|k: int| 0 <= k < s.len() ==> spec_is_digit(#[trigger] s[k])
}

/// What parsing an unsigned 16-bit decimal number yields.
pub open spec fn spec_parse_u16(s: Seq<char>) -> Option<u16> {
    let body = spec_num_body(s);
    if spec_all_digits(body) && spec_digit_value(body) <= u16::MAX {
        Some(spec_digit_value(body) as u16)
    } else {
        None
    }
}

/// The index of the first occurrence of `c` at or after `from`, or the
/// length if there is none.
pub open spec fn spec_first_at(s: Seq<char>, from: int, c: char) -> int
    decreases s.len() - from,
{
    if from < 0 || from >= s.len() {
        s.len() as int
    } else if s[from] == c {
        from
    } else {
        spec_first_at(s, from + 1, c)
    }
}

/// How many occurrences of `c` lie at or after `from`.
pub open spec fn spec_count_char(s: Seq<char>, from: int, c: char) -> int
    decreases s.len() - from,
{
    if from < 0 || from >= s.len() {
        0
    } else {
        (if s[from] == c {
            1int
        } else {
            0int
        }) + spec_count_char(s, from + 1, c)
    }
}

/// What parsing a clock time yields: with exactly one colon, the hour
/// before it and the minute after it; otherwise the whole string as
/// the hour with minute 0.
pub open spec fn spec_parse_hour(s: Seq<char>) -> Option<Hour> {
    if spec_count_char(s, 0, ':') == 1 {
        let p = spec_first_at(s, 0, ':');
        match (spec_parse_u16(s.subrange(0, p)), spec_parse_u16(s.subrange(p + 1, s.len() as int))) {
            (Some(h), Some(m)) => Some(Hour { hour: h, minute: m }),
            _ => None,
        }
    } else {
        match spec_parse_u16(s) {
            Some(h) => Some(Hour { hour: h, minute: 0 }),
            None => None,
        }
    }
}

/// Whether "->" occurs starting at `p`.
pub open spec fn spec_arrow_at(s: Seq<char>, p: int) -> bool {
    0 <= p && p + 2 <= s.len() && s[p] == '-' && s[p + 1] == '>'
}

/// The index of the first "->" at or after `from`, or the length if
/// there is none.
pub open spec fn spec_first_arrow(s: Seq<char>, from: int) -> int
    decreases s.len() - from,
{
    if from < 0 || from + 2 > s.len() {
        s.len() as int
    } else if s[from] == '-' && s[from + 1] == '>' {
        from
    } else {
        spec_first_arrow(s, from + 1)
    }
}

/// How many positions at or after `from` start an "->".
pub open spec fn spec_count_arrow(s: Seq<char>, from: int) -> int
    decreases s.len() - from,
{
    if from < 0 || from + 2 > s.len() {
        0
    } else {
        (if s[from] == '-' && s[from + 1] == '>' {
            1int
        } else {
            0int
        }) + spec_count_arrow(s, from + 1)
    }
}

/// What parsing an interval yields: with exactly one "->", the clock
/// time before it as start and the one after it as end.
pub open spec fn spec_parse_duration(s: Seq<char>) -> Option<Duration> {
    if spec_count_arrow(s, 0) == 1 {
        let p = spec_first_arrow(s, 0);
        match (
            spec_parse_hour(s.subrange(0, p)),
            spec_parse_hour(s.subrange(p + 2, s.len() as int)),
        ) {
            (Some(a), Some(b)) => Some(Duration { start: a, end: b }),
            _ => None,
        }
    } else {
        None
    }
}

/// Which failure an unparseable interval is: a separator problem when
/// "->" does not occur exactly once, a time problem otherwise.
pub open spec fn spec_duration_err(s: Seq<char>) -> LoadError {
    if spec_count_arrow(s, 0) == 1 {
        LoadError::MalformedTime
    } else {
        LoadError::MalformedDurationToken
    }
}

/// A blank: the token separators accepted in a shift description.
pub open spec fn spec_is_blank(c: char) -> bool {
    c == ' ' || c == '\t'
}

/// The index of the first non-blank at or after `from`, or the length.
pub open spec fn spec_skip_blanks(s: Seq<char>, from: int) -> int
    decreases s.len() - from,
{
    if from < 0 || from >= s.len() {
        s.len() as int
    } else if spec_is_blank(s[from]) {
        spec_skip_blanks(s, from + 1)
    } else {
        from
    }
}

/// The index of the first blank at or after `from`, or the length.
pub open spec fn spec_skip_token(s: Seq<char>, from: int) -> int
    decreases s.len() - from,
{
    if from < 0 || from >= s.len() {
        s.len() as int
    } else if spec_is_blank(s[from]) {
        from
    } else {
        spec_skip_token(s, from + 1)
    }
}

/// The two blank-separated tokens of a shift description, or `None`
/// unless there are exactly two.
pub open spec fn spec_two_tokens(s: Seq<char>) -> Option<(Seq<char>, Seq<char>)> {
    let a = spec_skip_blanks(s, 0);
    let b = spec_skip_token(s, a);
    let c = spec_skip_blanks(s, b);
    let d = spec_skip_token(s, c);
    let e = spec_skip_blanks(s, d);
    if a == s.len() || c == s.len() || e != s.len() {
        None
    } else {
        Some((s.subrange(a, b), s.subrange(c, d)))
    }
}

/// What parsing a whole shift description yields: its weekday and its
/// interval, from the two tokens.
pub open spec fn spec_parse_shift_data(s: Seq<char>) -> Option<(Day, Duration)> {
    match spec_two_tokens(s) {
        None => None,
        Some((t1, t2)) => match (spec_parse_day(t1), spec_parse_duration(t2)) {
            (Some(day), Some(duration)) => Some((day, duration)),
            _ => None,
        },
    }
}

/// Which failure an unparseable shift description is, checking the
/// token structure first, then the weekday, then the interval.
pub open spec fn spec_shift_err(s: Seq<char>) -> LoadError {
    match spec_two_tokens(s) {
        None => LoadError::MalformedShift,
        Some((t1, t2)) => if spec_parse_day(t1) is None {
            LoadError::MalformedWeekday
        } else {
            spec_duration_err(t2)
        },
    }
}

/// Digit strings denote non-negative numbers.
proof fn lemma_digit_value_nonneg(s: Seq<char>)
    requires
        forall|k: int| 0 <= k < s.len() ==> spec_is_digit(#[trigger] s[k]),
    ensures
        spec_digit_value(s) >= 0,
    decreases s.len(),
{
    if s.len() > 0 {
        assert(forall|k: int|
            0 <= k < s.drop_last().len() ==> #[trigger] s.drop_last()[k] == s[k]);
        lemma_digit_value_nonneg(s.drop_last());
    }
}

/// A digit-string prefix never denotes more than the whole string.
proof fn lemma_digit_value_prefix(s: Seq<char>, i: int)
    requires
        forall|k: int| 0 <= k < s.len() ==> spec_is_digit(#[trigger] s[k]),
        0 <= i <= s.len(),
    ensures
        spec_digit_value(s.take(i)) <= spec_digit_value(s),
    decreases s.len() - i,
{
    if i == s.len() {
        assert(s.take(i) =~= s);
    } else {
        lemma_digit_value_prefix(s, i + 1);
        assert(s.take(i + 1).drop_last() =~= s.take(i));
        assert(s.take(i + 1).last() == s[i]);
        assert(forall|k: int| 0 <= k < i ==> #[trigger] s.take(i)[k] == s[k]);
        lemma_digit_value_nonneg(s.take(i));
    }
}

/// Compare a string with a literal, character by character.
fn str_eq_lit(s: &str, lit: &str) -> (r: bool)
    ensures
        r == (s@ == lit@),
{
    let n = s.unicode_len();
    let m = lit.unicode_len();
    if n != m {
        return false;
    }
    let mut i: usize = 0;
    while i < n
        invariant
            i <= n,
            n == s@.len(),
            n == lit@.len(),
            forall|k: int| 0 <= k < i ==> s@[k] == lit@[k],
        decreases n - i,
    {
        if s.get_char(i) != lit.get_char(i) {
            return false;
        }
        i += 1;
    }
    proof {
        assert(s@ =~= lit@);
    }
    true
}

/// Parse an unsigned 16-bit decimal number, as the schedule's hour and
/// minute fields use them: an optional plus sign, then digits.
pub fn parse_u16(s: &str) -> (r: Option<u16>)
    ensures
        r == spec_parse_u16(s@),
{
    let n = s.unicode_len();
    let mut start: usize = 0;
    if n > 0 && s.get_char(0) == '+' {
        start = 1;
    }
    let ghost body = spec_num_body(s@);
    proof {
        assert(body =~= s@.subrange(start as int, n as int));
    }
    if start >= n {
        proof {
            assert(body.len() == 0);
        }
        return None;
    }
    let mut acc: u32 = 0;
    let mut i: usize = start;
    while i < n
        invariant
            start <= i <= n,
            n == s@.len(),
            start <= 1,
            body == spec_num_body(s@),
            body =~= s@.subrange(start as int, n as int),
            forall|k: int| 0 <= k < i - start ==> spec_is_digit(#[trigger] body[k]),
            acc == spec_digit_value(body.take(i - start)),
            acc <= 65535,
        decreases n - i,
    {
        let c = s.get_char(i);
        let cu = c as u32;
        proof {
            assert(body[i - start] == s@[i as int]);
            assert(body.take(i + 1 - start).drop_last() =~= body.take(i - start));
            assert(body.take(i + 1 - start).last() == body[i - start]);
        }
        if cu < 48 || cu > 57 {
            proof {
                assert(('0' as u32) == 48 && ('9' as u32) == 57);
                assert(!spec_is_digit(body[i - start]));
            }
            return None;
        }
        proof {
            assert(('0' as u32) == 48 && ('9' as u32) == 57);
        }
        let d = cu - 48;
        let next = acc * 10 + d;
        proof {
            assert(spec_digit_val(body[i - start]) == d);
            assert(spec_digit_value(body.take(i + 1 - start)) == acc * 10 + d);
        }
        if next > 65535 {
            proof {
                if spec_all_digits(body) {
                    lemma_digit_value_prefix(body, i + 1 - start);
                }
            }
            return None;
        }
        acc = next;
        i += 1;
    }
    proof {
        assert(body.take(n - start) =~= body);
        assert(body.len() > 0);
    }
    Some(acc as u16)
}

/// Parse a weekday name.
pub fn parse_day(s: &str) -> (r: Result<Day, LoadError>)
    ensures
        r matches Ok(d) ==> spec_parse_day(s@) == Some(d),
        r matches Err(e) ==> spec_parse_day(s@) is None && e == LoadError::MalformedWeekday,
{
    if str_eq_lit(s, "Monday") {
        Ok(Day::Monday)
    } else if str_eq_lit(s, "Tuesday") {
        Ok(Day::Tuesday)
    } else if str_eq_lit(s, "Wednesday") {
        Ok(Day::Wednesday)
    } else if str_eq_lit(s, "Thursday") {
        Ok(Day::Thursday)
    } else if str_eq_lit(s, "Friday") {
        Ok(Day::Friday)
    } else {
        Err(LoadError::MalformedWeekday)
    }
}

/// Parse a clock time: "H:M" when exactly one colon is present,
/// otherwise the whole string as a whole-hour time.
pub fn parse_hour(s: &str) -> (r: Result<Hour, LoadError>)
    ensures
        r matches Ok(h) ==> spec_parse_hour(s@) == Some(h),
        r matches Err(e) ==> spec_parse_hour(s@) is None && e == LoadError::MalformedTime,
{
    let n = s.unicode_len();
    let mut i: usize = 0;
    let mut cnt: usize = 0;
    let mut fp: usize = 0;
    while i < n
        invariant
            i <= n,
            n == s@.len(),
            cnt <= i,
            spec_count_char(s@, 0, ':') == cnt + spec_count_char(s@, i as int, ':'),
            cnt == 0 ==> spec_first_at(s@, 0, ':') == spec_first_at(s@, i as int, ':'),
            cnt > 0 ==> fp < i && fp == spec_first_at(s@, 0, ':'),
        decreases n - i,
    {
        let c = s.get_char(i);
        if c == ':' {
            if cnt == 0 {
                fp = i;
            }
            cnt = cnt + 1;
        }
        i += 1;
    }
    if cnt == 1 {
        let hs = s.substring_char(0, fp);
        let ms = s.substring_char(fp + 1, n);
        proof {
            assert(spec_first_at(s@, 0, ':') == fp);
        }
        match (parse_u16(hs), parse_u16(ms)) {
            (Some(h), Some(m)) => Ok(Hour { hour: h, minute: m }),
            _ => Err(LoadError::MalformedTime),
        }
    } else {
        match parse_u16(s) {
            Some(h) => Ok(Hour { hour: h, minute: 0 }),
            None => Err(LoadError::MalformedTime),
        }
    }
}

/// Parse an interval: "start->end" with exactly one "->" separator.
pub fn parse_duration(s: &str) -> (r: Result<Duration, LoadError>)
    ensures
        r matches Ok(d) ==> spec_parse_duration(s@) == Some(d),
        r matches Err(e) ==> spec_parse_duration(s@) is None && e == spec_duration_err(s@),
{
    let n = s.unicode_len();
    let mut cnt: usize = 0;
    let mut fp: usize = 0;
    if n >= 2 {
        let mut i: usize = 0;
        while i < n - 1
            invariant
                i < n,
                2 <= n == s@.len(),
                cnt <= i,
                spec_count_arrow(s@, 0) == cnt + spec_count_arrow(s@, i as int),
                cnt == 0 ==> spec_first_arrow(s@, 0) == spec_first_arrow(s@, i as int),
                cnt > 0 ==> fp + 2 <= n && fp == spec_first_arrow(s@, 0),
            decreases n - i,
        {
            let c = s.get_char(i);
            let c2 = s.get_char(i + 1);
            if c == '-' && c2 == '>' {
                if cnt == 0 {
                    fp = i;
                }
                cnt = cnt + 1;
            }
            i += 1;
        }
    }
    if cnt == 1 {
        let a = s.substring_char(0, fp);
        let b = s.substring_char(fp + 2, n);
        proof {
            assert(spec_first_arrow(s@, 0) == fp);
        }
        match (parse_hour(a), parse_hour(b)) {
            (Ok(start), Ok(end)) => Ok(Duration { start, end }),
            _ => Err(LoadError::MalformedTime),
        }
    } else {
        Err(LoadError::MalformedDurationToken)
    }
}

/// Find the first non-blank at or after `from`.
fn skip_blanks(s: &str, from: usize) -> (r: usize)
    requires
        from <= s@.len(),
    ensures
        r == spec_skip_blanks(s@, from as int),
        from <= r <= s@.len(),
{
    let n = s.unicode_len();
    let mut i = from;
    while i < n
        invariant
            from <= i <= n,
            n == s@.len(),
            spec_skip_blanks(s@, from as int) == spec_skip_blanks(s@, i as int),
        decreases n - i,
    {
        let c = s.get_char(i);
        if !(c == ' ' || c == '\t') {
            return i;
        }
        i += 1;
    }
    i
}

/// Find the first blank at or after `from`.
fn skip_token(s: &str, from: usize) -> (r: usize)
    requires
        from <= s@.len(),
    ensures
        r == spec_skip_token(s@, from as int),
        from <= r <= s@.len(),
{
    let n = s.unicode_len();
    let mut i = from;
    while i < n
        invariant
            from <= i <= n,
            n == s@.len(),
            spec_skip_token(s@, from as int) == spec_skip_token(s@, i as int),
        decreases n - i,
    {
        let c = s.get_char(i);
        if c == ' ' || c == '\t' {
            return i;
        }
        i += 1;
    }
    i
}

/// Parse one shift description, "<weekday> <start>-><end>", into a
/// shift carrying the given name.
pub fn parse_shift(name: String, data: &str) -> (r: Result<Shift, LoadError>)
    ensures
        r matches Ok(sh) ==> sh.name == name && spec_parse_shift_data(data@) == Some(
            (sh.day, sh.duration),
        ),
        r matches Err(e) ==> spec_parse_shift_data(data@) is None && e == spec_shift_err(data@),
{
    let n = data.unicode_len();
    let a = skip_blanks(data, 0);
    if a == n {
        return Err(LoadError::MalformedShift);
    }
    let b = skip_token(data, a);
    let c = skip_blanks(data, b);
    if c == n {
        return Err(LoadError::MalformedShift);
    }
    let d = skip_token(data, c);
    let e = skip_blanks(data, d);
    if e != n {
        return Err(LoadError::MalformedShift);
    }
    let t1 = data.substring_char(a, b);
    let t2 = data.substring_char(c, d);
    let day = match parse_day(t1) {
        Ok(day) => day,
        Err(err) => {
            return Err(err);
        },
    };
    let duration = match parse_duration(t2) {
        Ok(duration) => duration,
        Err(err) => {
            return Err(err);
        },
    };
    Ok(Shift { name, day, duration })
}

} // verus!
