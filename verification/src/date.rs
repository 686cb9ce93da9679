//! Calendar dates with an optional year, as attached to tasks as due dates.
//!
//! A date without a year stands for "that month and day in the current
//! year"; comparison therefore takes the current year as an argument and
//! resolves missing years to it before ordering by year, month, day.
//!
//! Dates parse from text of the shape `MM/DD`, `MM/DD/YY` or `MM/DD/YYYY`
//! (separators `/` or `-`, one- or two-digit month and day). The grammar
//! and the month/day validity rules are specified here and the parser is
//! proved against them.

use vstd::prelude::*;

verus! {

/// A due date: month and day, with an optional four-digit year.
#[derive(Clone, Copy, Debug, PartialEq, Eq, Structural)]
pub struct Date {
    pub month: u8,
    pub day: u8,
    pub year: Option<u16>,
}

/// Failure to parse a date from text: the offending input and a
/// human-readable reason.
#[derive(Debug)]
pub enum DateError {
    DateParseError { given: String, error: String },
}

impl Date {
    /// Builds a date from its parts, unchecked.
    pub fn new(month: u8, day: u8, year: Option<u16>) -> (d: Date)
        ensures
            d == (Date { month, day, year }),
    {
        Date { month, day, year }
    }
}

/// The greatest day number the given month admits. February gets 29 days
/// whenever an explicit year is present (no leap-year arithmetic) and 28
/// otherwise; a month outside 1..=12 admits no day.
pub open spec fn max_day_of(month: int, has_year: bool) -> int {
    if month == 1 || month == 3 || month == 5 || month == 7 || month == 8 || month == 10
        || month == 12 {
        31
    } else if month == 4 || month == 6 || month == 9 || month == 11 {
        30
    } else if month == 2 {
        if has_year {
            29
        } else {
            28
        }
    } else {
        0
    }
}

/// A month/day pair that the calendar admits.
pub open spec fn valid_month_day(month: int, day: int, has_year: bool) -> bool {
    1 <= month <= 12 && 1 <= day <= max_day_of(month, has_year)
}

/// A well-formed date value: its month and day lie within the calendar.
pub open spec fn date_valid(d: Date) -> bool {
    valid_month_day(d.month as int, d.day as int, d.year is Some)
}

/// The year a date is compared under: its own year if it has one,
/// otherwise the given current year.
pub open spec fn resolve_year(d: Date, curr_year: u16) -> int {
    match d.year {
        Some(y) => y as int,
        None => curr_year as int,
    }
}

/// Chronological order under a given current year: by resolved year,
/// then month, then day.
pub open spec fn date_le_at(a: Date, b: Date, curr_year: u16) -> bool {
    let ya = resolve_year(a, curr_year);
    let yb = resolve_year(b, curr_year);
    ||| ya < yb
    ||| (ya == yb && a.month < b.month)
    ||| (ya == yb && a.month == b.month && a.day <= b.day)
}

/// Equality under a given current year: same resolved year, month and day.
pub open spec fn date_eq_at(a: Date, b: Date, curr_year: u16) -> bool {
    resolve_year(a, curr_year) == resolve_year(b, curr_year) && a.month == b.month && a.day
        == b.day
}

/// Compares two dates chronologically, resolving missing years to
/// `curr_year`.
pub fn date_le(a: Date, b: Date, curr_year: u16) -> (r: bool)
    ensures
        r == date_le_at(a, b, curr_year),
{
    let ya: u16 = match a.year {
        Some(y) => y,
        None => curr_year,
    };
    let yb: u16 = match b.year {
        Some(y) => y,
        None => curr_year,
    };
    ya < yb || (ya == yb && (a.month < b.month || (a.month == b.month && a.day <= b.day)))
}

/// Tests two dates for equality, resolving missing years to `curr_year`.
pub fn date_eq(a: Date, b: Date, curr_year: u16) -> (r: bool)
    ensures
        r == date_eq_at(a, b, curr_year),
{
    let ya: u16 = match a.year {
        Some(y) => y,
        None => curr_year,
    };
    let yb: u16 = match b.year {
        Some(y) => y,
        None => curr_year,
    };
    ya == yb && a.month == b.month && a.day == b.day
}

// ---------------------------------------------------------------------------
// The textual grammar of a date.
// ---------------------------------------------------------------------------

/// A decimal digit character.
pub open spec fn is_digit(c: char) -> bool {
    48 <= c as u32 && c as u32 <= 57
}

/// The numeric value of a digit character.
pub open spec fn digit_val(c: char) -> int {
    c as u32 - 48
}

/// A date-field separator.
pub open spec fn is_sep(c: char) -> bool {
    c == '/' || c == '-'
}

/// Every character of `s` is a decimal digit.
pub open spec fn all_digits(s: Seq<char>) -> bool {
    forall|i: int| 0 <= i < s.len() ==> is_digit(s[i])
}

/// The number of digit characters at the front of `s`.
pub open spec fn leading_digits(s: Seq<char>) -> int
    decreases s.len(),
{
    if s.len() == 0 || !is_digit(s[0]) {
        0
    } else {
        1 + leading_digits(s.skip(1))
    }
}

/// The value of a run of digit characters read as a decimal number.
pub open spec fn digits_val(s: Seq<char>) -> int
    decreases s.len(),
{
    if s.len() == 0 {
        0
    } else {
        digits_val(s.drop_last()) * 10 + digit_val(s.last())
    }
}

/// The raw month, day and year values of a date text, or `None` when the
/// text does not have the shape `MM/DD`, `MM/DD/YY` or `MM/DD/YYYY`
/// (separators `/` or `-`, one- or two-digit month and day, two- or
/// four-digit year).
pub open spec fn date_fields(s: Seq<char>) -> Option<(int, int, Option<int>)> {
    let ml = leading_digits(s);
    if !(1 <= ml <= 2 && ml < s.len() && is_sep(s[ml])) {
        None
    } else {
        let rest = s.skip(ml + 1);
        let dl = leading_digits(rest);
        if !(1 <= dl <= 2) {
            None
        } else if rest.len() == dl {
            Some((digits_val(s.take(ml)), digits_val(rest), None))
        } else if is_sep(rest[dl]) {
            let ytxt = rest.skip(dl + 1);
            if (ytxt.len() == 2 || ytxt.len() == 4) && all_digits(ytxt) {
                Some((digits_val(s.take(ml)), digits_val(rest.take(dl)), Some(digits_val(ytxt))))
            } else {
                None
            }
        } else {
            None
        }
    }
}

/// A written year of value at most 99 stands for that year of the third
/// millennium.
pub open spec fn resolve_written_year(y: int) -> int {
    if y <= 99 {
        2000 + y
    } else {
        y
    }
}

/// What parsing a date text yields: `None` when the text is malformed or
/// the month/day pair is invalid, otherwise the date it denotes.
pub open spec fn spec_parse_date(s: Seq<char>) -> Option<Date> {
    match date_fields(s) {
        None => None,
        Some((m, d, y)) => {
            let year = match y {
                Some(v) => Some(resolve_written_year(v)),
                None => None,
            };
            if valid_month_day(m, d, year is Some) {
                Some(
                    Date {
                        month: m as u8,
                        day: d as u8,
                        year: match year {
                            Some(v) => Some(v as u16),
                            None => None,
                        },
                    },
                )
            } else {
                None
            }
        },
    }
}

/// The reason reported when parsing `s` fails.
pub open spec fn parse_failure_text(s: Seq<char>) -> Seq<char> {
    match date_fields(s) {
        None => "Invalid date format. Accepted formats: MM/DD, MM/DD/YY, MM/DD/YYYY  (note single digit days and months are also accepted)"@,
        Some((m, d, y)) => {
            if !(1 <= m <= 12) {
                "Invalid date. Month must be between 1 and 12"@
            } else if d < 1 {
                "Invalid date. Day must be at least 1"@
            } else if max_day_of(m, y is Some) == 31 {
                "Invalid date. This month has at most 31 days"@
            } else if max_day_of(m, y is Some) == 30 {
                "Invalid date. This month has at most 30 days"@
            } else if y is Some {
                "Invalid date. February has at most 29 days"@
            } else {
                "Invalid date. February has at most 28 days"@
            }
        },
    }
}

// ---------------------------------------------------------------------------
// Lemmas on the grammar.
// ---------------------------------------------------------------------------

/// `leading_digits` is the index of the first non-digit character.
proof fn lemma_leading_digits_is(s: Seq<char>, i: int)
    requires
        0 <= i <= s.len(),
        forall|j: int| 0 <= j < i ==> is_digit(s[j]),
        i < s.len() ==> !is_digit(s[i]),
    ensures
        leading_digits(s) == i,
    decreases i,
{
    if i == 0 {
    } else {
        assert(is_digit(s[0]));
        let t = s.skip(1);
        assert(forall|j: int| 0 <= j < i - 1 ==> t[j] == s[j + 1] && is_digit(s[j + 1]));
        assert(i - 1 < t.len() ==> !is_digit(t[i - 1]));
        lemma_leading_digits_is(t, i - 1);
    }
}

/// Bounds on the value of a short run of digits.
proof fn lemma_digits_val_bound(s: Seq<char>)
    requires
        all_digits(s),
    ensures
        0 <= digits_val(s),
        s.len() <= 1 ==> digits_val(s) <= 9,
        s.len() <= 2 ==> digits_val(s) <= 99,
        s.len() <= 4 ==> digits_val(s) <= 9999,
    decreases s.len(),
{
    if s.len() == 0 {
    } else {
        let t = s.drop_last();
        assert(all_digits(t));
        lemma_digits_val_bound(t);
        assert(s.len() <= 4 ==> t.len() <= 3);
        if s.len() == 4 {
            assert(digits_val(t) <= 999) by {
                lemma_digits_val_len3_bound(t);
            }
        }
        assert(0 <= digit_val(s.last()) <= 9);
    }
}

/// Bound for a run of at most three digits, used by the four-digit case.
proof fn lemma_digits_val_len3_bound(s: Seq<char>)
    requires
        all_digits(s),
        s.len() <= 3,
    ensures
        0 <= digits_val(s) <= 999,
    decreases s.len(),
{
    if s.len() == 0 {
    } else {
        let t = s.drop_last();
        assert(all_digits(t));
        lemma_digits_val_bound(t);
        assert(0 <= digit_val(s.last()) <= 9);
    }
}

// ---------------------------------------------------------------------------
// The parser.
// ---------------------------------------------------------------------------

/// Whether `c` is a decimal digit.
fn digit_check(c: char) -> (r: bool)
    ensures
        r == is_digit(c),
{
    let u = c as u32;
    48 <= u && u <= 57
}

/// Whether `c` separates date fields.
fn sep_check(c: char) -> (r: bool)
    ensures
        r == is_sep(c),
{
    c == '/' || c == '-'
}

/// Counts the digit characters at the front of `s` from position `from`.
fn scan_digits(s: &str, from: usize, n: usize) -> (r: usize)
    requires
        n == s@.len(),
        from <= n,
    ensures
        from <= r <= n,
        forall|j: int| from <= j < r ==> is_digit(s@[j]),
        r < n ==> !is_digit(s@[r as int]),
{
    let mut i: usize = from;
    while i < n && digit_check(s.get_char(i))
        invariant
            from <= i <= n,
            n == s@.len(),
            forall|j: int| from <= j < i ==> is_digit(s@[j]),
        decreases n - i,
    {
        i = i + 1;
    }
    i
}

/// Reads the decimal value of the digits of `s` between `from` and `to`.
fn read_value(s: &str, from: usize, to: usize) -> (r: u16)
    requires
        to <= s@.len(),
        from <= to,
        to - from <= 4,
        forall|j: int| from <= j < to ==> is_digit(s@[j]),
    ensures
        r as int == digits_val(s@.subrange(from as int, to as int)),
        r <= 9999,
{
    let mut v: u16 = 0;
    let mut j: usize = from;
    while j < to
        invariant
            from <= j <= to,
            to <= s@.len(),
            to - from <= 4,
            forall|k: int| from <= k < to ==> is_digit(s@[k]),
            v as int == digits_val(s@.subrange(from as int, j as int)),
            v <= 9999,
        decreases to - j,
    {
        let c = s.get_char(j);
        let d: u16 = (c as u32 - 48) as u16;
        proof {
            let pre = s@.subrange(from as int, j as int);
            let post = s@.subrange(from as int, j as int + 1);
            assert(post.drop_last() =~= pre);
            assert(post.last() == s@[j as int]);
            assert(all_digits(pre));
            lemma_digits_val_bound(pre);
            assert(pre.len() <= 2 ==> v <= 99);
            lemma_digits_val_len3_bound(pre);
        }
        v = v * 10 + d;
        j = j + 1;
    }
    proof {
        let whole = s@.subrange(from as int, to as int);
        assert(all_digits(whole));
        lemma_digits_val_bound(whole);
    }
    v
}

/// A parse-failure value carrying the input and a reason.
fn parse_error(s: &str, reason: &str) -> (r: DateError)
    ensures
        r matches DateError::DateParseError { given, error } && given@ == s@ && error@
            == reason@,
{
    DateError::DateParseError { given: s.to_owned(), error: reason.to_owned() }
}

/// Parses a date from text of the shape `MM/DD`, `MM/DD/YY` or
/// `MM/DD/YYYY` (separators `/` or `-`), validating the month and the
/// day count the month admits. A written year of at most two digits'
/// value is read as `2000 + YY`.
pub fn parse_date(s: &str) -> (r: Result<Date, DateError>)
    ensures
        match spec_parse_date(s@) {
            Some(d) => r == Ok::<Date, DateError>(d),
            None => r matches Err(e) && e matches DateError::DateParseError { given, error }
                && given@ == s@ && error@ == parse_failure_text(s@),
        },
        r matches Ok(d) ==> date_valid(d),
{
    let fmt_msg =
        "Invalid date format. Accepted formats: MM/DD, MM/DD/YY, MM/DD/YYYY  (note single digit days and months are also accepted)";
    let n = s.unicode_len();

    // Month digits.
    let ml = scan_digits(s, 0, n);
    proof {
        lemma_leading_digits_is(s@, ml as int);
    }
    if !(1 <= ml && ml <= 2 && ml < n) {
        return Err(parse_error(s, fmt_msg));
    }
    if !sep_check(s.get_char(ml)) {
        return Err(parse_error(s, fmt_msg));
    }
    let month_val = read_value(s, 0, ml);
    proof {
        assert(s@.subrange(0, ml as int) =~= s@.take(ml as int));
    }

    // Day digits.
    let ghost rest = s@.skip(ml as int + 1);
    let dstart = ml + 1;
    let dend = scan_digits(s, dstart, n);
    let dl = dend - dstart;
    proof {
        assert(forall|k: int| 0 <= k < dl ==> rest[k] == s@[dstart as int + k]);
        assert(dl < rest.len() ==> rest[dl as int] == s@[dend as int]);
        lemma_leading_digits_is(rest, dl as int);
    }
    if !(1 <= dl && dl <= 2) {
        return Err(parse_error(s, fmt_msg));
    }
    let day_val = read_value(s, dstart, dend);
    proof {
        assert(s@.subrange(dstart as int, dend as int) =~= rest.take(dl as int));
    }

    // Optional year digits.
    let year_raw: Option<u16> = if dend == n {
        proof {
            assert(rest.len() == dl);
        }
        None
    } else {
        if !sep_check(s.get_char(dend)) {
            return Err(parse_error(s, fmt_msg));
        }
        let ystart = dend + 1;
        let yend = scan_digits(s, ystart, n);
        let ghost ytxt = rest.skip(dl as int + 1);
        proof {
            assert(ytxt =~= s@.subrange(ystart as int, n as int));
        }
        if yend < n {
            proof {
                assert(!is_digit(ytxt[yend - ystart]));
            }
            return Err(parse_error(s, fmt_msg));
        }
        let yl = n - ystart;
        if !(yl == 2 || yl == 4) {
            return Err(parse_error(s, fmt_msg));
        }
        let y = read_value(s, ystart, n);
        proof {
            assert(all_digits(ytxt));
        }
        Some(y)
    };

    // Interpret a short written year as belonging to the third millennium.
    let year: Option<u16> = match year_raw {
        Some(y) => {
            if y <= 99 {
                Some(2000 + y)
            } else {
                Some(y)
            }
        },
        None => None,
    };

    proof {
        assert(date_fields(s@) matches Some(f) && f.0 == month_val as int && f.1 == day_val as int
            && (match f.2 {
                Some(v) => year_raw matches Some(w) && v == w as int,
                None => year_raw is None,
            }));
    }

    // Validate the month and the day count it admits.
    let month_ok = 1 <= month_val && month_val <= 12;
    if !month_ok {
        return Err(parse_error(s, "Invalid date. Month must be between 1 and 12"));
    }
    if day_val < 1 {
        return Err(parse_error(s, "Invalid date. Day must be at least 1"));
    }
    let limit: u16 = if month_val == 1 || month_val == 3 || month_val == 5 || month_val == 7
        || month_val == 8 || month_val == 10 || month_val == 12 {
        31
    } else if month_val == 4 || month_val == 6 || month_val == 9 || month_val == 11 {
        30
    } else if year.is_some() {
        29
    } else {
        28
    };
    if day_val > limit {
        if limit == 31 {
            return Err(parse_error(s, "Invalid date. This month has at most 31 days"));
        } else if limit == 30 {
            return Err(parse_error(s, "Invalid date. This month has at most 30 days"));
        } else if limit == 29 {
            return Err(parse_error(s, "Invalid date. February has at most 29 days"));
        } else {
            return Err(parse_error(s, "Invalid date. February has at most 28 days"));
        }
    }

    Ok(Date { month: month_val as u8, day: day_val as u8, year })
}

// ---------------------------------------------------------------------------
// Formatting.
// ---------------------------------------------------------------------------

/// The digit character of value `d`.
pub open spec fn digit_char(d: int) -> char {
    if d == 0 {
        '0'
    } else if d == 1 {
        '1'
    } else if d == 2 {
        '2'
    } else if d == 3 {
        '3'
    } else if d == 4 {
        '4'
    } else if d == 5 {
        '5'
    } else if d == 6 {
        '6'
    } else if d == 7 {
        '7'
    } else if d == 8 {
        '8'
    } else {
        '9'
    }
}

/// The decimal digits of a non-negative number, most significant first.
pub open spec fn dec_digits(n: int) -> Seq<char>
    decreases n,
{
    if n <= 9 {
        seq![digit_char(n)]
    } else {
        dec_digits(n / 10) + seq![digit_char(n % 10)]
    }
}

/// A number written with at least two digits, zero-padded.
pub open spec fn two_digits(n: int) -> Seq<char> {
    if n <= 9 {
        seq!['0'] + dec_digits(n)
    } else {
        dec_digits(n)
    }
}

/// The text a date is displayed as: `MM/DD`, with `/YYYY` appended when a
/// year is present; month and day zero-padded to two digits.
pub open spec fn spec_format_date(d: Date) -> Seq<char> {
    let head = two_digits(d.month as int) + seq!['/'] + two_digits(d.day as int);
    match d.year {
        Some(y) => head + seq!['/'] + dec_digits(y as int),
        None => head,
    }
}

/// Appends the digit character of value `d`.
fn push_digit(out: &mut String, d: u8)
    requires
        d <= 9,
    ensures
        final(out)@ == old(out)@ + seq![digit_char(d as int)],
{
    let t = match d {
        0 => "0",
        1 => "1",
        2 => "2",
        3 => "3",
        4 => "4",
        5 => "5",
        6 => "6",
        7 => "7",
        8 => "8",
        _ => "9",
    };
    proof {
        reveal_strlit("0");
        reveal_strlit("1");
        reveal_strlit("2");
        reveal_strlit("3");
        reveal_strlit("4");
        reveal_strlit("5");
        reveal_strlit("6");
        reveal_strlit("7");
        reveal_strlit("8");
        reveal_strlit("9");
    }
    out.append(t);
    proof {
        assert(out@ =~= old(out)@ + seq![digit_char(d as int)]);
    }
}

/// Appends the decimal digits of `n`.
pub fn push_decimal(out: &mut String, n: usize)
    ensures
        final(out)@ == old(out)@ + dec_digits(n as int),
    decreases n,
{
    if n <= 9 {
        push_digit(out, n as u8);
    } else {
        push_decimal(out, n / 10);
        push_digit(out, (n % 10) as u8);
        proof {
            assert(out@ =~= old(out)@ + dec_digits(n as int));
        }
    }
}

/// Appends `n` written with at least two digits, zero-padded.
fn push_two_digits(out: &mut String, n: u8)
    ensures
        final(out)@ == old(out)@ + two_digits(n as int),
{
    if n <= 9 {
        push_digit(out, 0);
        push_digit(out, n);
        proof {
            assert(out@ =~= old(out)@ + two_digits(n as int));
        }
    } else {
        push_decimal(out, n as usize);
    }
}

/// Renders a date as `MM/DD`, or `MM/DD/YYYY` when it has a year, with
/// zero-padded month and day.
pub fn format_date(d: Date) -> (r: String)
    ensures
        r@ == spec_format_date(d),
{
    let mut out = String::new();
    push_two_digits(&mut out, d.month);
    proof {
        reveal_strlit("/");
    }
    out.append("/");
    proof {
        assert(out@ =~= two_digits(d.month as int) + seq!['/']);
    }
    push_two_digits(&mut out, d.day);
    if let Some(y) = d.year {
        out.append("/");
        push_decimal(&mut out, y as usize);
    }
    proof {
        assert(out@ =~= spec_format_date(d));
    }
    out
}

// ---------------------------------------------------------------------------
// The current year.
// ---------------------------------------------------------------------------

/// Relies on chrono's `Utc::now` and `Datelike::year` for the wall-clock
/// year. Nothing is promised of the result: it depends on the time of the
/// call.
#[verifier::external_body]
pub fn current_year() -> u16 {
    chrono::Datelike::year(&chrono::Utc::now()) as u16
}

} // verus!
