//! The three recurrence searches: next date on a weekday, next date with a
//! day-of-month, and next date with an annual month/day pair.

use crate::date::CalendarDate;
use crate::date::DateView;
use crate::date::days_in_month_spec;
use crate::date::is_leap_spec;
use crate::date::Weekday;
use crate::date::MAX_YEAR;
use crate::date::date_le;
use crate::date::date_lt;
use crate::date::day_number_spec;
use crate::date::month_index;
use crate::date::valid_date;
use crate::date::weekday_index_of;
use vstd::prelude::*;

verus! {

/// Number of days from a date on weekday `cur` forward to the next date on
/// weekday `target`: between 1 and 7, and exactly 7 when the weekdays agree.
pub open spec fn delta_days_spec(cur: int, target: int) -> int {
    ((target - cur + 7) % 7 + 6) % 7 + 1
}

/// The weekday delta is between 1 and 7, is 7 exactly on equal weekdays, and
/// stepping that many days forward lands on the target weekday.
proof fn lemma_delta_days(cur: int, target: int)
    requires
        0 <= cur < 7,
        0 <= target < 7,
    ensures
        1 <= delta_days_spec(cur, target) <= 7,
        cur == target ==> delta_days_spec(cur, target) == 7,
        (cur + delta_days_spec(cur, target)) % 7 == target,
{
    let d0 = target - cur + 7;
    if d0 < 7 {
        vstd::arithmetic::div_mod::lemma_small_mod(d0 as nat, 7);
    } else {
        vstd::arithmetic::div_mod::lemma_mod_add_multiples_vanish(d0 - 7, 7);
        vstd::arithmetic::div_mod::lemma_small_mod((d0 - 7) as nat, 7);
    }
    let s = d0 % 7;
    if s == 0 {
        vstd::arithmetic::div_mod::lemma_small_mod(6nat, 7);
        vstd::arithmetic::div_mod::lemma_mod_add_multiples_vanish(cur, 7);
        vstd::arithmetic::div_mod::lemma_small_mod(cur as nat, 7);
    } else {
        vstd::arithmetic::div_mod::lemma_mod_add_multiples_vanish(s - 1, 7);
        vstd::arithmetic::div_mod::lemma_small_mod((s - 1) as nat, 7);
        if target >= cur + s {
            vstd::arithmetic::div_mod::lemma_small_mod(target as nat, 7);
        } else {
            vstd::arithmetic::div_mod::lemma_mod_add_multiples_vanish(target, 7);
            vstd::arithmetic::div_mod::lemma_small_mod(target as nat, 7);
        }
    }
}

/// The next date falling on the given weekday: always strictly after the
/// start, between 1 and 7 days ahead, and exactly 7 days ahead when the start
/// already falls on that weekday. Yields nothing only when that date would
/// lie beyond the last representable date.
pub fn find_next_weekday(current_date: &CalendarDate, next_weekday: &Weekday) -> (r: Option<
    CalendarDate,
>)
    requires
        valid_date(current_date@),
    ensures
        ({
            let delta = delta_days_spec(
                weekday_index_of(current_date@),
                next_weekday.index_spec(),
            );
            match r {
                Some(d) => {
                    &&& valid_date(d@)
                    &&& date_lt(current_date@, d@)
                    &&& day_number_spec(d@) == day_number_spec(current_date@) + delta
                    &&& day_number_spec(current_date@) + 1 <= day_number_spec(d@)
                        <= day_number_spec(current_date@) + 7
                    &&& day_number_spec(d@) <= day_number_spec(
                        (DateView { year: MAX_YEAR as int, month: 12, day: 31 }),
                    )
                    &&& weekday_index_of(d@) == next_weekday.index_spec()
                    &&& weekday_index_of(current_date@) == next_weekday.index_spec()
                        ==> day_number_spec(d@) == day_number_spec(current_date@) + 7
                },
                None => day_number_spec(current_date@) + delta > day_number_spec(
                    (DateView { year: MAX_YEAR as int, month: 12, day: 31 }),
                ),
            }
        }),
{
    let cw = current_date.weekday().index();
    let tw = next_weekday.index();
    let days_since: u32 = (tw + 7 - cw) % 7;
    let delta: u32 = (days_since + 6) % 7 + 1;
    proof {
        vstd::arithmetic::div_mod::lemma_mod_bound(day_number_spec(current_date@) + 2, 7);
        lemma_delta_days(cw as int, tw as int);
    }
    let mut cur: CalendarDate = *current_date;
    let mut k: u32 = 0;
    while k < delta
        invariant
            valid_date(cur@),
            k <= delta,
            day_number_spec(cur@) == day_number_spec(current_date@) + k,
            k > 0 ==> date_lt(current_date@, cur@),
            valid_date(current_date@),
            delta == delta_days_spec(weekday_index_of(current_date@), next_weekday.index_spec()),
            1 <= delta <= 7,
        decreases delta - k,
    {
        match cur.succ() {
            Some(n) => {
                cur = n;
            },
            None => {
                return None;
            },
        }
        k = k + 1;
    }
    proof {
        let dnc = day_number_spec(current_date@);
        let cwi = weekday_index_of(current_date@);
        let t = next_weekday.index_spec();
        vstd::arithmetic::div_mod::lemma_mod_bound(dnc + 2, 7);
        lemma_delta_days(cwi, t);
        vstd::arithmetic::div_mod::lemma_add_mod_noop(dnc + 2, delta as int, 7);
        vstd::arithmetic::div_mod::lemma_add_mod_noop_right(cwi, delta as int, 7);
        let top = DateView { year: MAX_YEAR as int, month: 12, day: 31 };
        assert(date_le(cur@, top));
        crate::date::lemma_order_matches_day_number(cur@, top);
    }
    Some(cur)
}

/// The date in the calendar month `steps` months after the month of `s`,
/// with `day` as its day-of-month (the triple need not be a valid date).
pub open spec fn month_candidate(s: DateView, steps: int, day: int) -> DateView {
    let t = s.month - 1 + steps;
    DateView { year: s.year + t / 12, month: t % 12 + 1, day: day }
}

/// The month candidate lands `steps` months further along the month axis and
/// carries a well-formed month number.
proof fn lemma_month_candidate(s: DateView, steps: int, day: int)
    requires
        1 <= s.month <= 12,
        0 <= steps,
    ensures
        1 <= month_candidate(s, steps, day).month <= 12,
        month_index(month_candidate(s, steps, day)) == month_index(s) + steps,
        month_candidate(s, steps, day).day == day,
{
    let t = s.month - 1 + steps;
    vstd::arithmetic::div_mod::lemma_fundamental_div_mod(t, 12);
    vstd::arithmetic::div_mod::lemma_mod_bound(t, 12);
}

/// Any valid date with the target day that lies strictly after `s`, when the
/// in-month shortcut does not apply, sits a positive number of months along
/// the month axis and equals the month candidate at that distance.
proof fn lemma_window_member(s: DateView, e: DateView, n: int)
    requires
        valid_date(s),
        valid_date(e),
        e.day == n,
        date_lt(s, e),
        !(s.day < n && valid_date(DateView { year: s.year, month: s.month, day: n })),
    ensures
        month_index(e) > month_index(s),
        month_candidate(s, month_index(e) - month_index(s), n) == e,
{
    if month_index(e) == month_index(s) {
        assert(e.year == s.year && e.month == s.month);
        assert(s.day < n);
        assert(false);
    }
    let j = month_index(e) - month_index(s);
    lemma_month_candidate(s, j, n);
    let c = month_candidate(s, j, n);
    assert(c.year == e.year && c.month == e.month);
}

/// The next date whose day-of-month equals `next_day`: the strictly-later
/// minimum among all such dates, found within 12 months of the start. Yields
/// nothing exactly when no such date exists within that window — in
/// particular whenever `next_day` is outside 1..=31.
pub fn find_next_day_of_month(current_date: &CalendarDate, next_day: u32) -> (r: Option<
    CalendarDate,
>)
    requires
        valid_date(current_date@),
    ensures
        match r {
            Some(d) => {
                &&& valid_date(d@)
                &&& d@.day == next_day
                &&& date_lt(current_date@, d@)
                &&& month_index(d@) <= month_index(current_date@) + 12
                &&& forall|e: DateView|
                    valid_date(e) && e.day == next_day && date_lt(current_date@, e) ==> date_le(
                        d@,
                        e,
                    )
            },
            None => forall|e: DateView|
                valid_date(e) && e.day == next_day && date_lt(current_date@, e) ==> month_index(e)
                    > month_index(current_date@) + 12,
        },
{
    if current_date.day() < next_day {
        if let Some(d) = current_date.with_day(next_day) {
            proof {
                assert forall|e: DateView|
                    valid_date(e) && e.day == next_day && date_lt(current_date@, e) implies date_le(
                    d@,
                    e,
                ) by {
                    if e.year == d@.year && e.month == d@.month {
                        assert(e == d@);
                    }
                }
            }
            return Some(d);
        }
    }
    let mut i: u32 = 1;
    while i <= 12
        invariant
            valid_date(current_date@),
            1 <= i <= 13,
            forall|j: int|
                1 <= j < i ==> !valid_date(
                    month_candidate(current_date@, j, next_day as int),
                ),
            !(current_date@.day < next_day && valid_date(
                DateView {
                    year: current_date@.year,
                    month: current_date@.month,
                    day: next_day as int,
                },
            )),
        decreases 13 - i,
    {
        let total: u32 = current_date.month() + i - 1;
        let ty: i32 = current_date.year() + (total / 12) as i32;
        let tm: u32 = total % 12 + 1;
        proof {
            lemma_month_candidate(current_date@, i as int, next_day as int);
        }
        if let Some(d) = CalendarDate::new(ty, tm, next_day) {
            proof {
                assert(d@ == month_candidate(current_date@, i as int, next_day as int));
                assert(month_index(d@) == month_index(current_date@) + i);
                assert(date_lt(current_date@, d@));
                assert forall|e: DateView|
                    valid_date(e) && e.day == next_day && date_lt(current_date@, e) implies date_le(
                    d@,
                    e,
                ) by {
                    lemma_window_member(current_date@, e, next_day as int);
                    let j = month_index(e) - month_index(current_date@);
                    if j < i {
                        lemma_month_candidate(current_date@, j, next_day as int);
                        assert(false);
                    } else if month_index(e) == month_index(d@) {
                        assert(e == d@);
                    }
                }
            }
            return Some(d);
        }
        i = i + 1;
    }
    proof {
        assert forall|e: DateView|
            valid_date(e) && e.day == next_day && date_lt(current_date@, e) implies month_index(e)
            > month_index(current_date@) + 12 by {
            lemma_window_member(current_date@, e, next_day as int);
            let j = month_index(e) - month_index(current_date@);
            if j <= 12 {
                lemma_month_candidate(current_date@, j, next_day as int);
                assert(false);
            }
        }
    }
    None
}

/// A date with the target day-of-month never lies in a month shorter than
/// that day: in particular, a date returned by `find_next_day_of_month` for
/// target day `n` never falls in a month with fewer than `n` days.
pub proof fn lemma_day_fits_month(e: DateView, n: int)
    requires
        valid_date(e),
        e.day == n,
    ensures
        n <= days_in_month_spec(e.year, e.month),
{
}

/// Whenever the target day is in 1..=31 and a full year of room remains below
/// the largest representable year, some date with that day-of-month lies
/// strictly after the start and within 12 months of it — so
/// `find_next_day_of_month` cannot come back empty there.
pub proof fn lemma_next_day_of_month_exists(s: DateView, n: int)
    requires
        valid_date(s),
        1 <= n <= 31,
        s.year + 1 <= MAX_YEAR as int,
    ensures
        exists|e: DateView|
            valid_date(e) && e.day == n && date_lt(s, e) && month_index(e) <= month_index(s) + 12,
{
    lemma_month_candidate(s, 1, n);
    lemma_month_candidate(s, 2, n);
    let c1 = month_candidate(s, 1, n);
    let c2 = month_candidate(s, 2, n);
    let t1 = s.month - 1 + 1;
    let t2 = s.month - 1 + 2;
    vstd::arithmetic::div_mod::lemma_fundamental_div_mod(t1, 12);
    vstd::arithmetic::div_mod::lemma_mod_bound(t1, 12);
    vstd::arithmetic::div_mod::lemma_fundamental_div_mod(t2, 12);
    vstd::arithmetic::div_mod::lemma_mod_bound(t2, 12);
    assert(0 <= t1 / 12 <= 1 && 0 <= t2 / 12 <= 1);
    if n <= days_in_month_spec(c1.year, c1.month) {
        assert(valid_date(c1) && c1.day == n && date_lt(s, c1) && month_index(c1) <= month_index(
            s,
        ) + 12);
    } else {
        // the month right after `s` is too short, so it is one of the five
        // short months; the month after it has 31 days
        assert(c1.month == 2 || c1.month == 4 || c1.month == 6 || c1.month == 9 || c1.month
            == 11);
        assert(c2.month == c1.month + 1);
        assert(days_in_month_spec(c2.year, c2.month) == 31);
        assert(valid_date(c2) && c2.day == n && date_lt(s, c2) && month_index(c2) <= month_index(
            s,
        ) + 12);
    }
}

/// A valid February 29 can only fall in a leap year.
pub proof fn lemma_feb29_leap(e: DateView)
    requires
        valid_date(e),
        e.month == 2,
        e.day == 29,
    ensures
        is_leap_spec(e.year),
{
}

/// The largest number of days the given month has in any year.
pub open spec fn max_days_in_month_spec(m: int) -> int {
    if m == 2 {
        29
    } else if m == 4 || m == 6 || m == 9 || m == 11 {
        30
    } else {
        31
    }
}

/// A month/day pair that forms a valid date in at least some year.
pub open spec fn month_day_ever_valid(m: int, d: int) -> bool {
    &&& 1 <= m <= 12
    &&& 1 <= d <= max_days_in_month_spec(m)
}

/// Whenever the month/day pair is ever valid and eight years of room remain
/// below the largest representable year, some date with that month and day
/// lies strictly after the start and within 8 years of it — so
/// `find_next_annual_date` cannot come back empty there. For February 29 this
/// rests on the fact that among eight consecutive years one is a leap year.
pub proof fn lemma_next_annual_date_exists(s: DateView, m: int, d: int)
    requires
        valid_date(s),
        month_day_ever_valid(m, d),
        s.year + 8 <= MAX_YEAR as int,
    ensures
        exists|e: DateView|
            valid_date(e) && e.month == m && e.day == d && date_lt(s, e) && e.year <= s.year + 8,
{
    let y = s.year;
    if m == 2 && d == 29 {
        vstd::arithmetic::div_mod::lemma_fundamental_div_mod(y, 4);
        let q = y / 4;
        let a = 4 * q + 4;
        assert(y + 1 <= a <= y + 4);
        vstd::arithmetic::div_mod::lemma_mod_multiples_vanish(q + 1, 0, 4);
        vstd::arithmetic::div_mod::lemma_small_mod(0nat, 4);
        assert(a % 4 == 0);
        if a % 100 != 0 || a % 400 == 0 {
            let w = DateView { year: a, month: 2, day: 29 };
            assert(is_leap_spec(a));
            assert(valid_date(w) && w.month == m && w.day == d && date_lt(s, w) && w.year <= s.year
                + 8);
        } else {
            let b = a + 4;
            vstd::arithmetic::div_mod::lemma_mod_add_multiples_vanish(a, 4);
            assert(b % 4 == 0);
            vstd::arithmetic::div_mod::lemma_fundamental_div_mod(a, 100);
            let k = a / 100;
            assert(b == 100 * k + 4);
            vstd::arithmetic::div_mod::lemma_mod_multiples_vanish(k, 4, 100);
            vstd::arithmetic::div_mod::lemma_small_mod(4nat, 100);
            assert(b % 100 == 4);
            let w = DateView { year: b, month: 2, day: 29 };
            assert(is_leap_spec(b));
            assert(valid_date(w) && w.month == m && w.day == d && date_lt(s, w) && w.year <= s.year
                + 8);
        }
    } else {
        let w = DateView { year: y + 1, month: m, day: d };
        assert(valid_date(w) && w.month == m && w.day == d && date_lt(s, w) && w.year <= s.year
            + 8);
    }
}

/// The date `j` years after the year of `s`, with the given month and day
/// (the triple need not be a valid date).
pub open spec fn annual_candidate(s: DateView, j: int, m: int, d: int) -> DateView {
    DateView { year: s.year + j, month: m, day: d }
}

/// The next date with the given month and day: the strictly-later minimum
/// among all such dates, found within 8 years of the start. Yields nothing
/// exactly when no such date exists within that window — in particular
/// whenever the month/day pair can never form a valid date.
pub fn find_next_annual_date(current_date: &CalendarDate, next_month: u32, next_day: u32) -> (r:
    Option<CalendarDate>)
    requires
        valid_date(current_date@),
    ensures
        match r {
            Some(d) => {
                &&& valid_date(d@)
                &&& d@.month == next_month
                &&& d@.day == next_day
                &&& date_lt(current_date@, d@)
                &&& d@.year <= current_date@.year + 8
                &&& forall|e: DateView|
                    valid_date(e) && e.month == next_month && e.day == next_day && date_lt(
                        current_date@,
                        e,
                    ) ==> date_le(d@, e)
            },
            None => forall|e: DateView|
                valid_date(e) && e.month == next_month && e.day == next_day && date_lt(
                    current_date@,
                    e,
                ) ==> e.year > current_date@.year + 8,
        },
{
    let y = current_date.year();
    if let Some(cand) = CalendarDate::new(y, next_month, next_day) {
        if current_date.is_before(&cand) {
            proof {
                assert forall|e: DateView|
                    valid_date(e) && e.month == next_month && e.day == next_day && date_lt(
                        current_date@,
                        e,
                    ) implies date_le(cand@, e) by {
                    if e.year == cand@.year {
                        assert(e == cand@);
                    }
                }
            }
            return Some(cand);
        }
    }
    let mut i: i32 = 1;
    while i <= 8
        invariant
            valid_date(current_date@),
            y == current_date@.year,
            1 <= i <= 9,
            forall|j: int|
                1 <= j < i ==> !valid_date(
                    annual_candidate(current_date@, j, next_month as int, next_day as int),
                ),
            !(valid_date(
                DateView {
                    year: current_date@.year,
                    month: next_month as int,
                    day: next_day as int,
                },
            ) && date_lt(
                current_date@,
                DateView {
                    year: current_date@.year,
                    month: next_month as int,
                    day: next_day as int,
                },
            )),
        decreases 9 - i,
    {
        if let Some(d) = CalendarDate::new(y + i, next_month, next_day) {
            proof {
                assert forall|e: DateView|
                    valid_date(e) && e.month == next_month && e.day == next_day && date_lt(
                        current_date@,
                        e,
                    ) implies date_le(d@, e) by {
                    if e.year == current_date@.year {
                        assert(e == (DateView {
                            year: current_date@.year,
                            month: next_month as int,
                            day: next_day as int,
                        }));
                        assert(false);
                    } else if e.year < d@.year {
                        assert(e == annual_candidate(
                            current_date@,
                            e.year - current_date@.year,
                            next_month as int,
                            next_day as int,
                        ));
                        assert(false);
                    } else if e.year == d@.year {
                        assert(e == d@);
                    }
                }
            }
            return Some(d);
        }
        i = i + 1;
    }
    proof {
        assert forall|e: DateView|
            valid_date(e) && e.month == next_month && e.day == next_day && date_lt(
                current_date@,
                e,
            ) implies e.year > current_date@.year + 8 by {
            if e.year == current_date@.year {
                assert(e == (DateView {
                    year: current_date@.year,
                    month: next_month as int,
                    day: next_day as int,
                }));
                assert(false);
            } else if e.year <= current_date@.year + 8 {
                assert(e == annual_candidate(
                    current_date@,
                    e.year - current_date@.year,
                    next_month as int,
                    next_day as int,
                ));
                assert(false);
            }
        }
    }
    None
}

} // verus!
