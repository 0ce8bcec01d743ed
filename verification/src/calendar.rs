use vstd::prelude::*;
use vstd::arithmetic::div_mod::lemma_fundamental_div_mod_converse;

verus! {

/// Gregorian leap-year rule, applied to every year of the proleptic calendar.
pub open spec fn is_leap(year: int) -> bool {
    (year % 4 == 0 && year % 100 != 0) || year % 400 == 0
}

/// Number of days in `month` (1 to 12) of `year`; 0 for any other month number.
pub open spec fn month_length(year: int, month: int) -> int {
    if month == 1 || month == 3 || month == 5 || month == 7 || month == 8 || month == 10
        || month == 12 {
        31
    } else if month == 4 || month == 6 || month == 9 || month == 11 {
        30
    } else if month == 2 {
        if is_leap(year) { 29 } else { 28 }
    } else {
        0
    }
}

/// Days in the months of `year` that come before `month`.
pub open spec fn days_before_month(year: int, month: int) -> int
    decreases month,
{
    if month <= 1 {
        0
    } else {
        days_before_month(year, month - 1) + month_length(year, month - 1)
    }
}

/// Days from 0001-01-01 to the first of January of `year` (proleptic Gregorian
/// calendar; negative before year 1).
pub open spec fn days_before_year(year: int) -> int {
    365 * (year - 1) + (year - 1) / 4 - (year - 1) / 100 + (year - 1) / 400
}

/// `year-month-day` names a day of the calendar.
pub open spec fn valid_ymd(year: int, month: int, day: int) -> bool {
    &&& 1 <= month <= 12
    &&& 1 <= day <= month_length(year, month)
}

/// Number of days from 1970-01-01 to `year-month-day`.
pub open spec fn epoch_day(year: int, month: int, day: int) -> int {
    days_before_year(year) + days_before_month(year, month) + day - 1 - 719162
}

/// Offset, from the first of March, of the month with index `mp` (0 = March).
pub open spec fn march_month_offset(mp: int) -> int {
    (153 * mp + 2) / 5
}

/// Index (0 = March) of the month holding day `doy` of a year counted from
/// the first of March.
pub open spec fn month_of_day_of_year(doy: int) -> int {
    (5 * doy + 2) / 153
}

/// The month index found for a day of a March-based year is the month that
/// holds it: the day lies between that month's offset and the next one's.
pub proof fn lemma_month_of_day_of_year(doy: int)
    requires
        0 <= doy <= 365,
    ensures
        0 <= month_of_day_of_year(doy) <= 11,
        march_month_offset(month_of_day_of_year(doy)) <= doy,
        doy < march_month_offset(month_of_day_of_year(doy) + 1),
{
}

/// Month offsets counted from the first of March agree with the days before
/// each month counted from the first of January, and their differences are
/// the month lengths.
pub proof fn lemma_march_offsets(year: int, mp: int)
    requires
        0 <= mp <= 11,
    ensures
        mp <= 9 ==> days_before_month(year, mp + 3) == 59 + (if is_leap(year) { 1int } else { 0 })
            + march_month_offset(mp),
        mp <= 9 ==> march_month_offset(mp + 1) - march_month_offset(mp) == month_length(year, mp + 3),
        mp >= 10 ==> days_before_month(year, mp - 9) + 306 == march_month_offset(mp),
        mp == 10 ==> march_month_offset(mp + 1) - march_month_offset(mp) == month_length(year, 1),
{
    reveal_with_fuel(days_before_month, 13);
}

/// Days from the start of the 400-year era to the first of March of year
/// `yoe` of that era, counting years from the first of March.
pub open spec fn era_year_start(yoe: int) -> int {
    365 * yoe + yoe / 4 - yoe / 100
}

/// Year of the 400-year era (counted from the first of March) holding day
/// `doe` of the era.
pub open spec fn year_of_era(doe: int) -> int {
    (doe - doe / 1460 + doe / 36524 - doe / 146096) / 365
}

/// The year found for a day of a 400-year era is the year that holds it; the
/// day after 365 days into a year only occurs in a leap year.
pub proof fn lemma_year_of_era(doe: int)
    requires
        0 <= doe < 146097,
    ensures
        0 <= year_of_era(doe) < 400,
        era_year_start(year_of_era(doe)) <= doe,
        doe - era_year_start(year_of_era(doe)) <= 365,
        doe - era_year_start(year_of_era(doe)) == 365 ==> (year_of_era(doe) + 1) % 4 == 0
            && ((year_of_era(doe) + 1) % 100 != 0 || year_of_era(doe) + 1 == 400),
{
    let c: int = if doe / 36524 < 3 { doe / 36524 } else { 3 };
    let rem1 = doe - 36524 * c;
    let q = rem1 / 1461;
    let rem2 = rem1 - 1461 * q;
    let r: int = if rem2 / 365 < 3 { rem2 / 365 } else { 3 };
    let doy = rem2 - 365 * r;
    assert(0 <= c <= 3);
    assert(0 <= rem1 <= 36524);
    assert(0 <= q <= 24);
    assert(0 <= rem2 <= 1460);
    assert(0 <= r <= 3);
    assert(0 <= doy <= 365);
    let yoe = 100 * c + 4 * q + r;
    assert(era_year_start(yoe) == 36524 * c + 1461 * q + 365 * r);
    assert(doe == era_year_start(yoe) + doy);
    assert(year_of_era(doe) == yoe);
}

/// Stepping `x` by one across a multiple of 4, 100 or 400 raises the quotient
/// by that divisor by one, and otherwise leaves it unchanged.
proof fn lemma_div_steps(x: int)
    ensures
        x / 4 - (x - 1) / 4 == if x % 4 == 0 { 1int } else { 0 },
        x / 100 - (x - 1) / 100 == if x % 100 == 0 { 1int } else { 0 },
        x / 400 - (x - 1) / 400 == if x % 400 == 0 { 1int } else { 0 },
{
    lemma_fundamental_div_mod_converse(x, 4, x / 4, x % 4);
    lemma_fundamental_div_mod_converse(x, 100, x / 100, x % 100);
    lemma_fundamental_div_mod_converse(x, 400, x / 400, x % 400);
    if x % 4 == 0 {
        lemma_fundamental_div_mod_converse(x - 1, 4, x / 4 - 1, 3);
    } else {
        lemma_fundamental_div_mod_converse(x - 1, 4, x / 4, x % 4 - 1);
    }
    if x % 100 == 0 {
        lemma_fundamental_div_mod_converse(x - 1, 100, x / 100 - 1, 99);
    } else {
        lemma_fundamental_div_mod_converse(x - 1, 100, x / 100, x % 100 - 1);
    }
    if x % 400 == 0 {
        lemma_fundamental_div_mod_converse(x - 1, 400, x / 400 - 1, 399);
    } else {
        lemma_fundamental_div_mod_converse(x - 1, 400, x / 400, x % 400 - 1);
    }
}

/// Multiples of 400 are multiples of 100, and multiples of 100 are multiples of 4.
proof fn lemma_century_multiples(x: int)
    ensures
        x % 400 == 0 ==> x % 100 == 0,
        x % 100 == 0 ==> x % 4 == 0,
{
    if x % 400 == 0 {
        lemma_fundamental_div_mod_converse(x, 400, x / 400, 0);
        lemma_fundamental_div_mod_converse(x, 100, 4 * (x / 400), 0);
    }
    if x % 100 == 0 {
        lemma_fundamental_div_mod_converse(x, 100, x / 100, 0);
        lemma_fundamental_div_mod_converse(x, 4, 25 * (x / 100), 0);
    }
}

/// Consecutive years start `365` days apart, or `366` when the earlier one is a leap year.
pub proof fn lemma_days_before_next_year(year: int)
    ensures
        days_before_year(year + 1) == days_before_year(year) + if is_leap(year) { 366int } else { 365 },
{
    lemma_div_steps(year);
    lemma_century_multiples(year);
}

/// Dividing `400 * era + x` by 4, 100 or 400 splits into the two parts.
proof fn lemma_era_div(era: int, x: int)
    ensures
        (400 * era + x) / 4 == 100 * era + x / 4,
        (400 * era + x) % 4 == x % 4,
        (400 * era + x) / 100 == 4 * era + x / 100,
        (400 * era + x) % 100 == x % 100,
        (400 * era + x) / 400 == era + x / 400,
        (400 * era + x) % 400 == x % 400,
{
    lemma_fundamental_div_mod_converse(x, 4, x / 4, x % 4);
    lemma_fundamental_div_mod_converse(400 * era + x, 4, 100 * era + x / 4, x % 4);
    lemma_fundamental_div_mod_converse(x, 100, x / 100, x % 100);
    lemma_fundamental_div_mod_converse(400 * era + x, 100, 4 * era + x / 100, x % 100);
    lemma_fundamental_div_mod_converse(x, 400, x / 400, x % 400);
    lemma_fundamental_div_mod_converse(400 * era + x, 400, era + x / 400, x % 400);
}

/// The first of March of year `400 * era + yoe` falls
/// `146097 * era + era_year_start(yoe)` days after 0000-03-01.
proof fn lemma_era_start(era: int, yoe: int)
    requires
        0 <= yoe < 400,
    ensures
        days_before_year(400 * era + yoe + 1) == 146097 * era + era_year_start(yoe),
{
    lemma_era_div(era, yoe);
}

/// The steps by which a day count is turned into a calendar date land on a
/// valid date that is that many days after 1970-01-01.
pub proof fn lemma_civil_from_days(days: int, era: int, doe: int, yoe: int, doy: int, mp: int)
    requires
        era == (days + 719468) / 146097,
        doe == days + 719468 - era * 146097,
        yoe == year_of_era(doe),
        doy == doe - era_year_start(yoe),
        mp == month_of_day_of_year(doy),
    ensures
        ({
            let month = if mp < 10 { mp + 3 } else { mp - 9 };
            let day = doy - march_month_offset(mp) + 1;
            let year = 400 * era + yoe + if month <= 2 { 1int } else { 0 };
            &&& 0 <= doe < 146097
            &&& 0 <= yoe < 400
            &&& 0 <= doy <= 365
            &&& 0 <= mp <= 11
            &&& valid_ymd(year, month, day)
            &&& epoch_day(year, month, day) == days
        }),
{
    let z = days + 719468;
    lemma_fundamental_div_mod_converse(z, 146097, era, doe);
    lemma_year_of_era(doe);
    lemma_month_of_day_of_year(doy);
    let month = if mp < 10 { mp + 3 } else { mp - 9 };
    let day = doy - march_month_offset(mp) + 1;
    let big_y = 400 * era + yoe;
    let year = big_y + if month <= 2 { 1int } else { 0 };
    lemma_era_start(era, yoe);
    lemma_march_offsets(year, mp);
    if mp <= 9 {
        lemma_days_before_next_year(big_y);
    } else {
        if mp == 11 && doy == 365 {
            lemma_era_div(era, yoe + 1);
            assert(is_leap(year));
        }
    }
}
/// Each day of a month comes before the first day of the next month, and the
/// months of a year fit inside it.
proof fn lemma_day_within_year(year: int, month: int, day: int)
    requires
        valid_ymd(year, month, day),
    ensures
        0 <= days_before_month(year, month) + day - 1,
        days_before_month(year, month) + day - 1 < if is_leap(year) { 366int } else { 365 },
{
    reveal_with_fuel(days_before_month, 13);
}

/// Later months start later.
proof fn lemma_month_order(year: int, m1: int, d1: int, m2: int)
    requires
        valid_ymd(year, m1, d1),
        m1 < m2 <= 12,
    ensures
        days_before_month(year, m1) + d1 - 1 < days_before_month(year, m2),
{
    reveal_with_fuel(days_before_month, 13);
}

/// Later years start later.
proof fn lemma_year_order(y1: int, y2: int)
    requires
        y1 <= y2,
    ensures
        days_before_year(y1) + 365 * (y2 - y1) <= days_before_year(y2),
    decreases y2 - y1,
{
    if y1 < y2 {
        lemma_year_order(y1, y2 - 1);
        lemma_days_before_next_year(y2 - 1);
    }
}

/// Calendar order: `y1-m1-d1` comes strictly before `y2-m2-d2`.
pub open spec fn ymd_before(y1: int, m1: int, d1: int, y2: int, m2: int, d2: int) -> bool {
    ||| y1 < y2
    ||| y1 == y2 && m1 < m2
    ||| y1 == y2 && m1 == m2 && d1 < d2
}

/// Day numbers follow calendar order: of two valid dates, the earlier one has
/// the smaller day number, so distinct dates have distinct day numbers.
pub proof fn lemma_epoch_day_order(y1: int, m1: int, d1: int, y2: int, m2: int, d2: int)
    requires
        valid_ymd(y1, m1, d1),
        valid_ymd(y2, m2, d2),
    ensures
        ymd_before(y1, m1, d1, y2, m2, d2) <==> epoch_day(y1, m1, d1) < epoch_day(y2, m2, d2),
        (y1 == y2 && m1 == m2 && d1 == d2) <==> epoch_day(y1, m1, d1) == epoch_day(y2, m2, d2),
{
    lemma_day_within_year(y1, m1, d1);
    lemma_day_within_year(y2, m2, d2);
    if y1 < y2 {
        lemma_days_before_next_year(y1);
        lemma_year_order(y1 + 1, y2);
    } else if y2 < y1 {
        lemma_days_before_next_year(y2);
        lemma_year_order(y2 + 1, y1);
    } else if m1 < m2 {
        lemma_month_order(y1, m1, d1, m2);
    } else if m2 < m1 {
        lemma_month_order(y1, m2, d2, m1);
    }
}
} // verus!
