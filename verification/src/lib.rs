//! Recurrence calculator over proleptic-Gregorian calendar dates: given a
//! starting date, find the next date on a target weekday, the next date with a
//! target day-of-month, or the next date with a target month/day pair.

mod date;
mod search;

pub use date::CalendarDate;
pub use date::DateView;
pub use date::Weekday;
pub use date::MAX_YEAR;
pub use date::MIN_YEAR;
pub use date::date_le;
pub use date::date_lt;
pub use date::day_number_spec;
pub use date::days_in_month;
pub use date::days_in_month_spec;
pub use date::is_leap_spec;
pub use date::is_leap_year;
pub use date::lemma_next_date;
pub use date::lemma_order_matches_day_number;
pub use date::month_index;
pub use date::month_start_offset;
pub use date::next_date_spec;
pub use date::valid_date;
pub use date::weekday_index_of;
pub use date::year_start_days;
pub use date::YEAR_SHIFT;
pub use search::delta_days_spec;
pub use search::find_next_annual_date;
pub use search::find_next_day_of_month;
pub use search::find_next_weekday;
pub use search::lemma_day_fits_month;
pub use search::lemma_feb29_leap;
pub use search::lemma_next_annual_date_exists;
pub use search::lemma_next_day_of_month_exists;
pub use search::max_days_in_month_spec;
pub use search::month_day_ever_valid;
