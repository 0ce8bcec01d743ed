//! Calendar dates: validation, reading `YYYY-MM-DD`, writing, and the date of
//! a day count.
use vstd::prelude::*;
use vstd::arithmetic::div_mod::lemma_fundamental_div_mod_converse;

use crate::calendar::{
    epoch_day, era_year_start, is_leap, lemma_civil_from_days, lemma_epoch_day_order,
    month_length, month_of_day_of_year, valid_ymd, year_of_era, ymd_before,
};
use crate::text::{
    chars_of, decimal, decimal_chars, pad_zeros, pad_zeros_chars, padded_int, padded_int_chars,
    parse_i32_chars, parse_signed, parse_unsigned, parse_unsigned_chars, split_chars, split_on,
    string_of, append_chars, views_of, is_digit, lemma_decimal_digits,
    lemma_digits_free_of, lemma_pad_zeros_digits, lemma_split_on_three, all_digits,
    digits_value, lemma_decimal_len, lemma_pad_zeros_len,
};

verus! {

/// A calendar date. Field order matches calendar order, so the derived
/// `Ord`/`PartialOrd` impls sort dates correctly without any extra code.
#[derive(Debug, Clone, Copy, PartialEq, Eq, PartialOrd, Ord)]
pub struct Date {
    pub year: i32,
    pub month: u8,
    pub day: u8,
}

/// Text of a date as `{:04}-{:02}-{:02}` writes it.
pub open spec fn date_text(year: int, month: int, day: int) -> Seq<char> {
    padded_int(year, 4) + seq!['-'] + pad_zeros(decimal(month as nat), 2) + seq!['-'] + pad_zeros(
        decimal(day as nat),
        2,
    )
}

/// What `Date::new` gives: the date, or the message that says why it does not exist.
pub open spec fn new_date_result(year: i32, month: u8, day: u8) -> Result<Date, Seq<char>> {
    if !(1 <= month <= 12) {
        Err("month "@ + decimal(month as nat) + " is out of range"@)
    } else if day == 0 || day > month_length(year as int, month as int) {
        Err("day "@ + decimal(day as nat) + " is out of range for "@ + padded_int(year as int, 4)
            + seq!['-'] + pad_zeros(decimal(month as nat), 2))
    } else {
        Ok(Date { year, month, day })
    }
}

/// What `Date::parse` gives for the text `s`.
pub open spec fn parse_date_result(s: Seq<char>) -> Result<Date, Seq<char>> {
    let parts = split_on(s, '-');
    if parts.len() != 3 {
        Err("expected YYYY-MM-DD, got '"@ + s + "'"@)
    } else {
        match parse_signed(parts[0], i32::MIN as int, i32::MAX as int) {
            None => Err("bad year in '"@ + s + "'"@),
            Some(year) => match parse_unsigned(parts[1], 255) {
                None => Err("bad month in '"@ + s + "'"@),
                Some(month) => match parse_unsigned(parts[2], 255) {
                    None => Err("bad day in '"@ + s + "'"@),
                    Some(day) => new_date_result(year as i32, month as u8, day as u8),
                },
            },
        }
    }
}

/// `r` is the outcome `spec` describes, the message taken by its text.
pub open spec fn date_result_is(r: Result<Date, String>, spec: Result<Date, Seq<char>>) -> bool {
    match r {
        Ok(d) => spec == Ok::<Date, Seq<char>>(d),
        Err(msg) => spec == Err::<Date, Seq<char>>(msg@),
    }
}

/// `date` is the calendar date `days` days after 1970-01-01, except that its
/// year is the true year cut to 32 bits as `as i32` cuts it.
pub open spec fn is_date_of_day(date: Date, days: int) -> bool {
    exists|year: int|
        #![trigger epoch_day(year, date.month as int, date.day as int)]
        date.year == year as i32 && valid_ymd(year, date.month as int, date.day as int)
            && epoch_day(year, date.month as int, date.day as int) == days
}

/// The first day number whose year fits in an `i32`.
pub open spec fn min_day_number() -> int {
    epoch_day(i32::MIN as int, 1, 1)
}

/// The last day number whose year fits in an `i32`.
pub open spec fn max_day_number() -> int {
    epoch_day(i32::MAX as int, 12, 31)
}

/// The range of day numbers whose year fits in an `i32`.
pub proof fn lemma_day_number_limits()
    ensures
        min_day_number() == -784353015833,
        max_day_number() == 784351576776,
{
    reveal_with_fuel(crate::calendar::days_before_month, 13);
}

impl Date {
    /// The date exists in the calendar.
    pub open spec fn wf(self) -> bool {
        valid_ymd(self.year as int, self.month as int, self.day as int)
    }

    /// Days from 1970-01-01 to this date.
    pub open spec fn day_number(self) -> int {
        epoch_day(self.year as int, self.month as int, self.day as int)
    }

    /// This date comes strictly before `other` in the order of the fields.
    pub open spec fn is_before(self, other: Date) -> bool {
        ymd_before(
            self.year as int,
            self.month as int,
            self.day as int,
            other.year as int,
            other.month as int,
            other.day as int,
        )
    }

    /// The text of this date, `YYYY-MM-DD`.
    pub open spec fn text(self) -> Seq<char> {
        date_text(self.year as int, self.month as int, self.day as int)
    }

    pub fn new(year: i32, month: u8, day: u8) -> (r: Result<Date, String>)
        ensures
            date_result_is(r, new_date_result(year, month, day)),
            r is Ok <==> valid_ymd(year as int, month as int, day as int),
            r matches Ok(d) ==> d.wf() && d == (Date { year, month, day }),
    {
        if !(1 <= month && month <= 12) {
            let mut msg = chars_of("month ");
            append_chars(&mut msg, &decimal_chars(month as u64));
            append_chars(&mut msg, &chars_of(" is out of range"));
            return Err(string_of(&msg));
        }
        let max_day = days_in_month(year, month);
        if day == 0 || day > max_day {
            let mut msg = chars_of("day ");
            append_chars(&mut msg, &decimal_chars(day as u64));
            append_chars(&mut msg, &chars_of(" is out of range for "));
            append_chars(&mut msg, &padded_int_chars(year as i64, 4));
            msg.push('-');
            append_chars(&mut msg, &pad_zeros_chars(decimal_chars(month as u64), 2));
            proof {
                assert(msg@ =~= "day "@ + decimal(day as nat) + " is out of range for "@
                    + padded_int(year as int, 4) + seq!['-'] + pad_zeros(decimal(month as nat), 2));
            }
            return Err(string_of(&msg));
        }
        Ok(Date { year, month, day })
    }

    /// Parses a "YYYY-MM-DD" string, validating that the date actually exists
    /// (rejects things like April 31 or February 29 in a non-leap year).
    pub fn parse(s: &str) -> (r: Result<Date, String>)
        ensures
            date_result_is(r, parse_date_result(s@)),
            r matches Ok(d) ==> d.wf(),
    {
        parse_date_chars(&chars_of(s))
    }

    /// Today's date in UTC, from the system clock (Howard Hinnant's
    /// civil_from_days algorithm, no calendar library).
    pub fn today() -> (date: Date)
        ensures
            exists|days: int| 0 <= days <= u64::MAX / 86400 && #[trigger] is_date_of_day(date, days),
    {
        Date::from_unix_seconds(unix_seconds_now())
    }

    /// The UTC date at `secs` seconds after 1970-01-01 00:00:00 UTC: the date
    /// of day number `secs / 86400`.
    pub fn from_unix_seconds(secs: u64) -> (date: Date)
        ensures
            is_date_of_day(date, secs as int / 86400),
            secs as int / 86400 <= max_day_number() ==> date.wf() && date.day_number() == secs
                as int / 86400,
    {
        proof {
            lemma_day_number_limits();
        }
        let days = (secs / 86_400) as i64;
        Date::from_epoch_day(days)
    }

    /// The date `days` days after 1970-01-01 (negative: before it).
    pub fn from_epoch_day(days: i64) -> (date: Date)
        requires
            days <= i64::MAX - 719_468,
        ensures
            is_date_of_day(date, days as int),
            min_day_number() <= days <= max_day_number() ==> date.wf() && date.day_number() == days,
    {
        let z = days + 719_468;
        let era = if z >= 0 {
            z
        } else {
            z - 146_096
        } / 146_097;
        proof {
            lemma_floor_era(z as int, era as int);
        }
        let doe = z - era * 146_097;
        let ghost g_yoe = year_of_era(doe as int);
        let ghost g_doy = doe - era_year_start(g_yoe);
        let ghost g_mp = month_of_day_of_year(g_doy);
        proof {
            lemma_civil_from_days(days as int, era as int, doe as int, g_yoe, g_doy, g_mp);
        }
        let yoe = (doe - doe / 1460 + doe / 36524 - doe / 146096) / 365;
        assert(yoe == g_yoe);
        let y = yoe + era * 400;
        let doy = doe - (365 * yoe + yoe / 4 - yoe / 100);
        assert(doy == g_doy);
        let mp = (5 * doy + 2) / 153;
        assert(mp == g_mp);
        let day = (doy - (153 * mp + 2) / 5 + 1) as u8;
        let month = if mp < 10 {
            mp + 3
        } else {
            mp - 9
        } as u8;
        let full_year = if month <= 2 {
            y + 1
        } else {
            y
        };
        let year = #[verifier::truncate] (full_year as i32);
        let date = Date { year, month, day };
        proof {
            let fy = full_year as int;
            assert(date.year == fy as i32 && valid_ymd(fy, date.month as int, date.day as int)
                && epoch_day(fy, date.month as int, date.day as int) == days as int);
            if min_day_number() <= days <= max_day_number() {
                lemma_epoch_day_order(fy, month as int, day as int, i32::MAX as int, 12, 31);
                lemma_epoch_day_order(i32::MIN as int, 1, 1, fy, month as int, day as int);
            }
        }
        date
    }

    /// The date as `YYYY-MM-DD`: the year zero-padded to four places (after
    /// its sign, if negative), month and day to two.
    pub fn to_string(&self) -> (s: String)
        ensures
            s@ == self.text(),
    {
        let mut v = padded_int_chars(self.year as i64, 4);
        v.push('-');
        append_chars(&mut v, &pad_zeros_chars(decimal_chars(self.month as u64), 2));
        v.push('-');
        append_chars(&mut v, &pad_zeros_chars(decimal_chars(self.day as u64), 2));
        proof {
            assert(v@ =~= self.text());
        }
        string_of(&v)
    }
}

/// `is_before` is calendar order: of two valid dates, one comes before the
/// other exactly when fewer days separate it from 1970-01-01, and two valid
/// dates are the same date exactly when their day numbers agree.
pub proof fn lemma_is_before_is_calendar_order(a: Date, b: Date)
    requires
        a.wf(),
        b.wf(),
    ensures
        a.is_before(b) <==> a.day_number() < b.day_number(),
        a == b <==> a.day_number() == b.day_number(),
{
    lemma_epoch_day_order(
        a.year as int,
        a.month as int,
        a.day as int,
        b.year as int,
        b.month as int,
        b.day as int,
    );
}

/// For years 0 to 9999 the text of a date is ten characters: four digits
/// spelling the year, `-`, two digits spelling the month, `-`, two digits
/// spelling the day.
pub proof fn lemma_date_text_shape(date: Date)
    requires
        date.wf(),
        0 <= date.year <= 9999,
    ensures
        date.text().len() == 10,
        date.text()[4] == '-',
        date.text()[7] == '-',
        all_digits(date.text().subrange(0, 4)),
        all_digits(date.text().subrange(5, 7)),
        all_digits(date.text().subrange(8, 10)),
        digits_value(date.text().subrange(0, 4)) == date.year,
        digits_value(date.text().subrange(5, 7)) == date.month,
        digits_value(date.text().subrange(8, 10)) == date.day,
{
    let y = pad_zeros(decimal(date.year as nat), 4);
    let m = pad_zeros(decimal(date.month as nat), 2);
    let d = pad_zeros(decimal(date.day as nat), 2);
    lemma_decimal_digits(date.year as nat);
    lemma_decimal_digits(date.month as nat);
    lemma_decimal_digits(date.day as nat);
    lemma_decimal_len(date.year as nat);
    lemma_decimal_len(date.month as nat);
    lemma_decimal_len(date.day as nat);
    lemma_pad_zeros_digits(decimal(date.year as nat), 4);
    lemma_pad_zeros_digits(decimal(date.month as nat), 2);
    lemma_pad_zeros_digits(decimal(date.day as nat), 2);
    lemma_pad_zeros_len(decimal(date.year as nat), 4);
    lemma_pad_zeros_len(decimal(date.month as nat), 2);
    lemma_pad_zeros_len(decimal(date.day as nat), 2);
    let t = date.text();
    assert(t == y + seq!['-'] + m + seq!['-'] + d);
    assert(t.subrange(0, 4) =~= y);
    assert(t.subrange(5, 7) =~= m);
    assert(t.subrange(8, 10) =~= d);
}

/// Whatever `Date::parse` accepts is a date of the calendar.
pub proof fn lemma_parsed_date_valid(s: Seq<char>)
    ensures
        parse_date_result(s) matches Ok(d) ==> d.wf(),
{
}

/// A valid date is the only date of its own day number: `from_epoch_day`
/// given `date.day_number()` gives `date` back.
pub proof fn lemma_date_of_own_day_number(date: Date, other: Date)
    requires
        date.wf(),
        is_date_of_day(other, date.day_number()),
    ensures
        other == date,
{
    let y = choose|y: int|
        #![trigger epoch_day(y, other.month as int, other.day as int)]
        other.year == y as i32 && valid_ymd(y, other.month as int, other.day as int)
            && epoch_day(y, other.month as int, other.day as int) == date.day_number();
    lemma_epoch_day_order(
        y,
        other.month as int,
        other.day as int,
        date.year as int,
        date.month as int,
        date.day as int,
    );
}

/// Reading back the text of a date gives the date again, for every date whose
/// year is not negative. (A negative year is written with a leading `-`,
/// which `Date::parse` takes for a separator.)
pub proof fn lemma_date_text_round_trip(date: Date)
    requires
        date.wf(),
        date.year >= 0,
    ensures
        parse_date_result(date.text()) == Ok::<Date, Seq<char>>(date),
{
    let y = pad_zeros(decimal(date.year as nat), 4);
    let m = pad_zeros(decimal(date.month as nat), 2);
    let d = pad_zeros(decimal(date.day as nat), 2);
    lemma_decimal_digits(date.year as nat);
    lemma_decimal_digits(date.month as nat);
    lemma_decimal_digits(date.day as nat);
    lemma_pad_zeros_digits(decimal(date.year as nat), 4);
    lemma_pad_zeros_digits(decimal(date.month as nat), 2);
    lemma_pad_zeros_digits(decimal(date.day as nat), 2);
    assert(!is_digit('-'));
    lemma_digits_free_of(y, '-');
    lemma_digits_free_of(m, '-');
    lemma_digits_free_of(d, '-');
    lemma_split_on_three(y, m, d, '-');
    assert(date.text() == y + seq!['-'] + m + seq!['-'] + d);
    assert(is_digit(y[0]) && is_digit(m[0]) && is_digit(d[0]));
    assert(parse_signed(y, i32::MIN as int, i32::MAX as int) == Some(date.year as int));
    assert(parse_unsigned(m, 255) == Some(date.month as int));
    assert(parse_unsigned(d, 255) == Some(date.day as int));
}

/// Reads the characters of a `YYYY-MM-DD` date as `Date::parse` reads its text.
pub fn parse_date_chars(text: &Vec<char>) -> (r: Result<Date, String>)
    ensures
        date_result_is(r, parse_date_result(text@)),
        r matches Ok(d) ==> d.wf(),
{
    let parts = split_chars(text, '-');
    if parts.len() != 3 {
        let mut msg = chars_of("expected YYYY-MM-DD, got '");
        append_chars(&mut msg, &text);
        append_chars(&mut msg, &chars_of("'"));
        return Err(string_of(&msg));
    }
    proof {
        assert(views_of(parts@)[0] == parts@[0]@);
        assert(views_of(parts@)[1] == parts@[1]@);
        assert(views_of(parts@)[2] == parts@[2]@);
    }
    let year = match parse_i32_chars(&parts[0]) {
        Some(y) => y,
        None => {
            let mut msg = chars_of("bad year in '");
            append_chars(&mut msg, &text);
            append_chars(&mut msg, &chars_of("'"));
            return Err(string_of(&msg));
        },
    };
    let month = match parse_unsigned_chars(&parts[1], 255) {
        Some(m) => m as u8,
        None => {
            let mut msg = chars_of("bad month in '");
            append_chars(&mut msg, &text);
            append_chars(&mut msg, &chars_of("'"));
            return Err(string_of(&msg));
        },
    };
    let day = match parse_unsigned_chars(&parts[2], 255) {
        Some(d) => d as u8,
        None => {
            let mut msg = chars_of("bad day in '");
            append_chars(&mut msg, &text);
            append_chars(&mut msg, &chars_of("'"));
            return Err(string_of(&msg));
        },
    };
    Date::new(year, month, day)
}

/// Seconds since 1970-01-01 UTC by the system clock:
/// `SystemTime::now().duration_since(UNIX_EPOCH)`, taken as 0 where the clock
/// reads earlier, in whole seconds (`Duration::as_secs`). The value depends on
/// the clock alone, so nothing is stated of it.
#[verifier::external_body]
fn unix_seconds_now() -> u64 {
    std::time::SystemTime::now().duration_since(std::time::UNIX_EPOCH).unwrap_or_default().as_secs()
}

/// `era` is `z` divided by 146097 rounded down, as the truncating division of
/// `z - 146096` gives it for negative `z`.
proof fn lemma_floor_era(z: int, era: int)
    requires
        z >= 0 ==> era == z / 146097,
        z < 0 ==> era == -((146096 - z) / 146097),
    ensures
        era == z / 146097,
{
    if z < 0 {
        let p = 146096 - z;
        lemma_fundamental_div_mod_converse(p, 146097, p / 146097, p % 146097);
        lemma_fundamental_div_mod_converse(z, 146097, era, 146096 - p % 146097);
    }
}

pub fn is_leap_year(year: i32) -> (r: bool)
    ensures
        r == is_leap(year as int),
{
    (year % 4 == 0 && year % 100 != 0) || year % 400 == 0
}

pub fn days_in_month(year: i32, month: u8) -> (r: u8)
    ensures
        r == month_length(year as int, month as int),
{
    if month == 1 || month == 3 || month == 5 || month == 7 || month == 8 || month == 10 || month
        == 12 {
        31
    } else if month == 4 || month == 6 || month == 9 || month == 11 {
        30
    } else if month == 2 {
        if is_leap_year(year) {
            29
        } else {
            28
        }
    } else {
        0
    }
}

} // verus!
