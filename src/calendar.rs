//! Calendar labels for day numbers.
use vstd::prelude::*;

use chrono::NaiveDate;

verus! {

/// Largest distance from day zero of a day number this library labels; well
/// inside the calendar range that chrono supports (about 262,000 years).
pub const MAX_DAY: i64 = 67_108_864;

/// Whether a day number can be labelled.
pub open spec fn day_in_range(day: int) -> bool {
    -MAX_DAY <= day <= MAX_DAY
}

/// The `YYYY-MM-DD` label of a day number (day 1 is 0001-01-01).
pub uninterp spec fn date_label(day: int) -> Seq<char>;

/// Relies on chrono's `NaiveDate::from_num_days_from_ce_opt`, which returns a
/// date for every day number within its year range, and on `format` with
/// `%Y-%m-%d`, whose text depends on that date alone.
#[verifier::external_body]
pub(crate) fn day_label(day: i64) -> (r: String)
    requires
        day_in_range(day as int),
    ensures
        r@ == date_label(day as int),
{
    NaiveDate::from_num_days_from_ce_opt(day as i32).unwrap().format("%Y-%m-%d").to_string()
}

} // verus!
