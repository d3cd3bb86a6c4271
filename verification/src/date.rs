//! The calendar-date primitive: a validated proleptic-Gregorian date with a
//! derived day-of-week, together with its mathematical model (a day-number
//! function) and the arithmetic lemmas the search functions build on.

use vstd::prelude::*;

verus! {

/// Smallest year a `CalendarDate` can hold.
pub const MIN_YEAR: i32 = -999_999;

/// Largest year a `CalendarDate` can hold.
pub const MAX_YEAR: i32 = 999_999;

/// The mathematical view of a calendar date: plain unbounded integers.
pub ghost struct DateView {
    pub year: int,
    pub month: int,
    pub day: int,
}

/// A year is a leap year exactly when it is divisible by 4 but not by 100,
/// or divisible by 400.
pub open spec fn is_leap_spec(y: int) -> bool {
    (y % 4 == 0 && y % 100 != 0) || y % 400 == 0
}

/// Number of days in the given month of the given year.
pub open spec fn days_in_month_spec(y: int, m: int) -> int {
    if m == 2 {
        if is_leap_spec(y) {
            29
        } else {
            28
        }
    } else if m == 4 || m == 6 || m == 9 || m == 11 {
        30
    } else {
        31
    }
}

/// A view is a valid date: the year is in range, the month is 1..=12, and the
/// day exists in that month of that year.
pub open spec fn valid_date(s: DateView) -> bool {
    &&& MIN_YEAR as int <= s.year <= MAX_YEAR as int
    &&& 1 <= s.month <= 12
    &&& 1 <= s.day <= days_in_month_spec(s.year, s.month)
}

/// Strict chronological order on date views (lexicographic on year, month, day).
pub open spec fn date_lt(a: DateView, b: DateView) -> bool {
    ||| a.year < b.year
    ||| (a.year == b.year && a.month < b.month)
    ||| (a.year == b.year && a.month == b.month && a.day < b.day)
}

/// Chronological order on date views, allowing equality.
pub open spec fn date_le(a: DateView, b: DateView) -> bool {
    a == b || date_lt(a, b)
}

/// Months counted on a single axis: January of year y is 12*y, December is
/// 12*y + 11. Two dates are in the same calendar month exactly when their
/// month indices agree.
pub open spec fn month_index(s: DateView) -> int {
    12 * s.year + s.month - 1
}

/// Years are shifted by this amount (a multiple of 400, so leap-year structure
/// is preserved) before any division, keeping every quotient non-negative.
pub const YEAR_SHIFT: i32 = 1_200_000;

/// Day count from the model's origin to March 1 of shifted year `yy`
/// (so consecutive values differ by 365 or 366, see `lemma_year_start_step`).
pub open spec fn year_start_days(yy: int) -> int {
    (yy / 400) * 146097 + (yy % 400) * 365 + (yy % 400) / 4 - (yy % 400) / 100
}

/// Day offset of the first of a month within a March-started year, where
/// `mp` is 0 for March through 11 for February.
pub open spec fn month_start_offset(mp: int) -> int {
    (153 * mp + 2) / 5
}

/// The model of a date: its day number, counted from a fixed origin far before
/// `MIN_YEAR`. Consecutive valid dates have consecutive day numbers
/// (`lemma_next_date`), which makes day differences meaningful.
pub open spec fn day_number_spec(s: DateView) -> int {
    let yy = if s.month <= 2 {
        s.year + (YEAR_SHIFT - 1)
    } else {
        s.year + YEAR_SHIFT as int
    };
    let mp = if s.month <= 2 {
        s.month + 9
    } else {
        s.month - 3
    };
    year_start_days(yy) + month_start_offset(mp) + s.day - 1
}

/// Day-of-week of a date, as an index with Monday = 0 through Sunday = 6.
pub open spec fn weekday_index_of(s: DateView) -> int {
    (day_number_spec(s) + 2) % 7
}

/// The successor of a date: the next day, rolling over month and year ends.
pub open spec fn next_date_spec(s: DateView) -> DateView {
    if s.day < days_in_month_spec(s.year, s.month) {
        DateView { year: s.year, month: s.month, day: s.day + 1 }
    } else if s.month < 12 {
        DateView { year: s.year, month: s.month + 1, day: 1 }
    } else {
        DateView { year: s.year + 1, month: 1, day: 1 }
    }
}

/// Dividing `a` and `a - 1` by `k` gives quotients that differ by one exactly
/// when `k` divides `a`.
proof fn lemma_div_step(a: int, k: int)
    requires
        a >= 1,
        k >= 1,
    ensures
        a / k - (a - 1) / k == if a % k == 0 {
            1int
        } else {
            0int
        },
{
    vstd::arithmetic::div_mod::lemma_fundamental_div_mod(a, k);
    vstd::arithmetic::div_mod::lemma_mod_bound(a, k);
    let q = a / k;
    let r = a % k;
    if r == 0 {
        assert(q >= 1 && a - 1 == (q - 1) * k + (k - 1)) by (nonlinear_arith)
            requires
                a == k * q + r,
                r == 0,
                a >= 1,
                k >= 1,
        ;
        vstd::arithmetic::div_mod::lemma_fundamental_div_mod_converse(a - 1, k, q - 1, k - 1);
    } else {
        assert(a - 1 == q * k + (r - 1)) by (nonlinear_arith)
            requires
                a == k * q + r,
        ;
        vstd::arithmetic::div_mod::lemma_fundamental_div_mod_converse(a - 1, k, q, r - 1);
    }
}

/// Stepping the year-start day count from `yy - 1` to `yy` adds 366 days when
/// `yy` is a leap year and 365 otherwise.
proof fn lemma_year_start_step(yy: int)
    requires
        yy >= 1,
    ensures
        year_start_days(yy) - year_start_days(yy - 1) == if is_leap_spec(yy) {
            366int
        } else {
            365int
        },
{
    vstd::arithmetic::div_mod::lemma_fundamental_div_mod(yy, 400);
    vstd::arithmetic::div_mod::lemma_mod_bound(yy, 400);
    let era = yy / 400;
    let yoe = yy % 400;
    if yoe == 0 {
        assert(era >= 1) by (nonlinear_arith)
            requires
                yy == 400 * era,
                yy >= 1,
        ;
        vstd::arithmetic::div_mod::lemma_fundamental_div_mod_converse(yy - 1, 400, era - 1, 399);
        assert((era - 1) * 146097 == era * 146097 - 146097) by (nonlinear_arith);
        assert(year_start_days(yy - 1) == era * 146097 - 146097 + 399 * 365 + 99 - 3);
    } else {
        vstd::arithmetic::div_mod::lemma_fundamental_div_mod_converse(yy - 1, 400, era, yoe - 1);
        lemma_div_step(yoe, 4);
        lemma_div_step(yoe, 100);
        vstd::arithmetic::div_mod::lemma_mod_multiples_vanish(100 * era, yoe, 4);
        vstd::arithmetic::div_mod::lemma_mod_multiples_vanish(4 * era, yoe, 100);
        vstd::arithmetic::mul::lemma_mul_is_associative(4, 100, era);
        vstd::arithmetic::mul::lemma_mul_is_associative(100, 4, era);
        assert(yy % 4 == yoe % 4);
        assert(yy % 100 == yoe % 100);
        if yoe % 100 == 0 {
            vstd::arithmetic::div_mod::lemma_fundamental_div_mod(yoe, 100);
            let q100 = yoe / 100;
            vstd::arithmetic::div_mod::lemma_mod_multiples_vanish(25 * q100, 0, 4);
            vstd::arithmetic::mul::lemma_mul_is_associative(4, 25, q100);
            assert(yoe % 4 == 0);
        }
    }
}

/// Shifting a year by `YEAR_SHIFT` (a multiple of 400) does not change whether
/// it is a leap year.
proof fn lemma_shift_leap(y: int)
    ensures
        is_leap_spec(y + YEAR_SHIFT as int) == is_leap_spec(y),
{
    vstd::arithmetic::div_mod::lemma_mod_multiples_vanish(300_000, y, 4);
    vstd::arithmetic::div_mod::lemma_mod_multiples_vanish(12_000, y, 100);
    vstd::arithmetic::div_mod::lemma_mod_multiples_vanish(3_000, y, 400);
}

/// A date's successor has the next day number, lies strictly later, and is a
/// valid date unless the date was the last representable one.
pub proof fn lemma_next_date(s: DateView)
    requires
        valid_date(s),
    ensures
        day_number_spec(next_date_spec(s)) == day_number_spec(s) + 1,
        date_lt(s, next_date_spec(s)),
        !(s.year == MAX_YEAR as int && s.month == 12 && s.day == 31) ==> valid_date(
            next_date_spec(s),
        ),
{
    assert(month_start_offset(0) == 0);
    assert(month_start_offset(1) == 31);
    assert(month_start_offset(2) == 61);
    assert(month_start_offset(3) == 92);
    assert(month_start_offset(4) == 122);
    assert(month_start_offset(5) == 153);
    assert(month_start_offset(6) == 184);
    assert(month_start_offset(7) == 214);
    assert(month_start_offset(8) == 245);
    assert(month_start_offset(9) == 275);
    assert(month_start_offset(10) == 306);
    assert(month_start_offset(11) == 337);
    if s.day < days_in_month_spec(s.year, s.month) {
        // same year and month: the day-number formula is linear in the day
    } else if s.month == 2 {
        // the only month boundary where the March-started year advances
        let yy = s.year + YEAR_SHIFT as int;
        lemma_year_start_step(yy);
        lemma_shift_leap(s.year);
    } else {
        // a month or December boundary with the March-started year unchanged
    }
}

/// A strictly earlier valid date has a successor no later than `b`.
proof fn lemma_succ_le(a: DateView, b: DateView)
    requires
        valid_date(a),
        valid_date(b),
        date_lt(a, b),
    ensures
        date_le(next_date_spec(a), b),
{
}

/// Field-order comparison of valid dates agrees with day-number comparison:
/// the lexicographic order on (year, month, day) is the chronological order.
pub proof fn lemma_order_matches_day_number(a: DateView, b: DateView)
    requires
        valid_date(a),
        valid_date(b),
    ensures
        date_lt(a, b) <==> day_number_spec(a) < day_number_spec(b),
{
    if date_lt(a, b) {
        lemma_lt_implies_day_number_lt(a, b);
    } else if date_lt(b, a) {
        lemma_lt_implies_day_number_lt(b, a);
    }
}

/// The strict direction of `lemma_order_matches_day_number`, by walking one
/// successor step at a time.
proof fn lemma_lt_implies_day_number_lt(a: DateView, b: DateView)
    requires
        valid_date(a),
        valid_date(b),
        date_lt(a, b),
    ensures
        day_number_spec(a) < day_number_spec(b),
    decreases 32 * month_index(b) + b.day - (32 * month_index(a) + a.day),
{
    lemma_next_date(a);
    lemma_succ_le(a, b);
    let n = next_date_spec(a);
    assert(!(a.year == MAX_YEAR as int && a.month == 12 && a.day == 31));
    if n != b {
        lemma_lt_implies_day_number_lt(n, b);
    }
}

/// A validated, immutable calendar date. Every function that hands one out
/// guarantees `valid_date` of its view.
#[derive(Clone, Copy, Debug, PartialEq, Eq, Structural)]
pub struct CalendarDate {
    year: i32,
    month: u8,
    day: u8,
}

/// One of the seven days of the week, a closed enumeration.
#[derive(Clone, Copy, Debug, PartialEq, Eq, Structural)]
pub enum Weekday {
    Mon,
    Tue,
    Wed,
    Thu,
    Fri,
    Sat,
    Sun,
}

impl Weekday {
    /// Index of the weekday, Monday = 0 through Sunday = 6.
    pub open spec fn index_spec(self) -> int {
        match self {
            Weekday::Mon => 0,
            Weekday::Tue => 1,
            Weekday::Wed => 2,
            Weekday::Thu => 3,
            Weekday::Fri => 4,
            Weekday::Sat => 5,
            Weekday::Sun => 6,
        }
    }

    /// Index of the weekday, Monday = 0 through Sunday = 6.
    pub fn index(&self) -> (r: u32)
        ensures
            r == self.index_spec(),
    {
        match self {
            Weekday::Mon => 0,
            Weekday::Tue => 1,
            Weekday::Wed => 2,
            Weekday::Thu => 3,
            Weekday::Fri => 4,
            Weekday::Sat => 5,
            Weekday::Sun => 6,
        }
    }

    /// The weekday with the given index, Monday = 0 through Sunday = 6.
    pub fn from_index(i: u32) -> (r: Weekday)
        requires
            i < 7,
        ensures
            r.index_spec() == i as int,
    {
        if i == 0 {
            Weekday::Mon
        } else if i == 1 {
            Weekday::Tue
        } else if i == 2 {
            Weekday::Wed
        } else if i == 3 {
            Weekday::Thu
        } else if i == 4 {
            Weekday::Fri
        } else if i == 5 {
            Weekday::Sat
        } else {
            Weekday::Sun
        }
    }
}

/// Whether the given year is a leap year.
pub fn is_leap_year(year: i32) -> (r: bool)
    requires
        MIN_YEAR <= year <= MAX_YEAR,
    ensures
        r == is_leap_spec(year as int),
{
    let ys: u32 = (year + YEAR_SHIFT) as u32;
    proof {
        vstd::arithmetic::div_mod::lemma_mod_multiples_vanish(300_000, year as int, 4);
        vstd::arithmetic::div_mod::lemma_mod_multiples_vanish(12_000, year as int, 100);
        vstd::arithmetic::div_mod::lemma_mod_multiples_vanish(3_000, year as int, 400);
    }
    (ys % 4 == 0 && ys % 100 != 0) || ys % 400 == 0
}

/// Number of days in the given month of the given year.
pub fn days_in_month(year: i32, month: u32) -> (r: u32)
    requires
        MIN_YEAR <= year <= MAX_YEAR,
        1 <= month <= 12,
    ensures
        r == days_in_month_spec(year as int, month as int),
{
    if month == 2 {
        if is_leap_year(year) {
            29
        } else {
            28
        }
    } else if month == 4 || month == 6 || month == 9 || month == 11 {
        30
    } else {
        31
    }
}

impl View for CalendarDate {
    type V = DateView;

    closed spec fn view(&self) -> DateView {
        DateView { year: self.year as int, month: self.month as int, day: self.day as int }
    }
}

impl CalendarDate {
    /// Construct a date from year, month and day; yields a value exactly when
    /// the triple is a valid Gregorian date within the supported year range.
    pub fn new(year: i32, month: u32, day: u32) -> (r: Option<CalendarDate>)
        ensures
            match r {
                Some(d) => valid_date(d@) && d@ == (DateView {
                    year: year as int,
                    month: month as int,
                    day: day as int,
                }),
                None => !valid_date(
                    DateView { year: year as int, month: month as int, day: day as int },
                ),
            },
    {
        if MIN_YEAR <= year && year <= MAX_YEAR && 1 <= month && month <= 12 && 1 <= day
            && day <= days_in_month(year, month) {
            Some(CalendarDate { year, month: month as u8, day: day as u8 })
        } else {
            None
        }
    }

    /// The year of this date.
    pub fn year(&self) -> (r: i32)
        ensures
            r == self@.year,
    {
        self.year
    }

    /// The month of this date, 1..=12.
    pub fn month(&self) -> (r: u32)
        ensures
            r == self@.month,
    {
        self.month as u32
    }

    /// The day of the month of this date, 1..=31.
    pub fn day(&self) -> (r: u32)
        ensures
            r == self@.day,
    {
        self.day as u32
    }

    /// The day number of this date, counted from the model's fixed origin.
    /// Differences of day numbers are distances in days.
    pub fn day_number(&self) -> (r: u64)
        requires
            valid_date(self@),
        ensures
            r == day_number_spec(self@),
    {
        let month = self.month as u32;
        let yy: u64 = if month <= 2 {
            (self.year + (YEAR_SHIFT - 1)) as u64
        } else {
            (self.year + YEAR_SHIFT) as u64
        };
        let mp: u64 = if month <= 2 {
            (month + 9) as u64
        } else {
            (month - 3) as u64
        };
        let era: u64 = yy / 400;
        let yoe: u64 = yy % 400;
        proof {
            vstd::arithmetic::div_mod::lemma_div_is_ordered(yy as int, 2_199_999, 400);
            vstd::arithmetic::mul::lemma_mul_inequality(era as int, 5_499, 146097);
            vstd::arithmetic::mul::lemma_mul_inequality(yoe as int, 399, 365);
            vstd::arithmetic::div_mod::lemma_div_is_ordered_by_denominator(yoe as int, 4, 100);
        }
        era * 146097 + yoe * 365 + yoe / 4 - yoe / 100 + (153 * mp + 2) / 5 + (self.day as u64)
            - 1
    }

    /// The day of the week this date falls on.
    pub fn weekday(&self) -> (r: Weekday)
        requires
            valid_date(self@),
        ensures
            r.index_spec() == weekday_index_of(self@),
    {
        let dn = self.day_number();
        Weekday::from_index(((dn + 2) % 7) as u32)
    }

    /// The next calendar day, or nothing if this is the last representable
    /// date.
    pub fn succ(&self) -> (r: Option<CalendarDate>)
        requires
            valid_date(self@),
        ensures
            match r {
                Some(n) => n@ == next_date_spec(self@) && valid_date(n@) && day_number_spec(n@)
                    == day_number_spec(self@) + 1 && date_lt(self@, n@),
                None => self@ == (DateView { year: MAX_YEAR as int, month: 12, day: 31 }),
            },
    {
        proof {
            lemma_next_date(self@);
        }
        let dim = days_in_month(self.year, self.month as u32);
        if (self.day as u32) < dim {
            Some(CalendarDate { year: self.year, month: self.month, day: self.day + 1 })
        } else if self.month < 12 {
            Some(CalendarDate { year: self.year, month: self.month + 1, day: 1 })
        } else if self.year < MAX_YEAR {
            Some(CalendarDate { year: self.year + 1, month: 1, day: 1 })
        } else {
            None
        }
    }

    /// The date in the same month with the given day, when that day exists in
    /// this month.
    pub fn with_day(&self, day: u32) -> (r: Option<CalendarDate>)
        requires
            valid_date(self@),
        ensures
            match r {
                Some(d) => d@ == (DateView {
                    year: self@.year,
                    month: self@.month,
                    day: day as int,
                }) && valid_date(d@),
                None => !valid_date(
                    DateView { year: self@.year, month: self@.month, day: day as int },
                ),
            },
    {
        if 1 <= day && day <= days_in_month(self.year, self.month as u32) {
            Some(CalendarDate { year: self.year, month: self.month, day: day as u8 })
        } else {
            None
        }
    }

    /// Whether this date is strictly before the other.
    pub fn is_before(&self, other: &CalendarDate) -> (r: bool)
        ensures
            r == date_lt(self@, other@),
    {
        self.year < other.year || (self.year == other.year && (self.month < other.month || (
        self.month == other.month && self.day < other.day)))
    }
}

} // verus!
