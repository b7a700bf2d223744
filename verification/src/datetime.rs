use vstd::prelude::*;
use vstd::arithmetic::div_mod::{lemma_div_pos_is_pos, lemma_multiply_divide_lt};
use crate::ulid::TS_MOD;

use chrono::Datelike;

verus! {

/// A calendar date and time, UTC, in plain fields.
#[derive(Clone, Copy, PartialEq, Eq, Structural, Debug)]
pub struct DateTimeParts {
    pub year: i32,
    pub month: u8,
    pub day: u8,
    pub hour: u8,
    pub minute: u8,
    pub second: u8,
    pub millisecond: u16,
}

/// Name for the (year, month, day) that the proleptic Gregorian calendar
/// assigns to a day number, day 0 being 1970-01-01. The calendar itself is
/// computed by chrono; the triple is a function of the day number alone.
pub uninterp spec fn civil_of_day(day: int) -> (int, int, int);

/// Relies on chrono's `NaiveDate::from_epoch_days` (day 0 = 1970-01-01) and
/// its `Datelike` accessors `year`, `month` and `day`: `month` is documented
/// to be 1..=12 and `day` 1..=31. `from_epoch_days` documents `None` only
/// for out-of-range dates; chrono's calendar reaches the year 262142, far
/// past every day number this library can pass (its timestamps end in the
/// year 10889), so the `None` arm below is unreachable for the admitted
/// inputs.
#[verifier::external_body]
fn civil_from_epoch_day(day: i32) -> (r: (i32, u32, u32))
    requires
        0 <= day < 3_300_000,
    ensures
        r.0 as int == civil_of_day(day as int).0,
        r.1 as int == civil_of_day(day as int).1,
        r.2 as int == civil_of_day(day as int).2,
        1 <= r.1 <= 12,
        1 <= r.2 <= 31,
{
    match chrono::NaiveDate::from_epoch_days(day) {
        Some(d) => (d.year(), d.month(), d.day()),
        None => (1970, 1, 1),
    }
}

/// The fields `d` must hold to depict the instant `ms` milliseconds after
/// the Unix epoch.
pub open spec fn is_datetime_of(ms: int, d: DateTimeParts) -> bool {
    &&& d.millisecond as int == ms % 1000
    &&& d.second as int == (ms / 1000) % 60
    &&& d.minute as int == (ms / 60_000) % 60
    &&& d.hour as int == (ms / 3_600_000) % 24
    &&& d.year as int == civil_of_day(ms / 86_400_000).0
    &&& d.month as int == civil_of_day(ms / 86_400_000).1
    &&& d.day as int == civil_of_day(ms / 86_400_000).2
}

/// Turn a 48-bit millisecond timestamp into calendar fields: time of day by
/// plain arithmetic, the calendar date through chrono.
pub fn datetime_of_millis(ms: u64) -> (d: DateTimeParts)
    requires
        ms < TS_MOD,
    ensures
        is_datetime_of(ms as int, d),
        1 <= d.month <= 12,
        1 <= d.day <= 31,
{
    let millisecond: u16 = (ms % 1000) as u16;
    let second: u8 = ((ms / 1000) % 60) as u8;
    let minute: u8 = ((ms / 60_000) % 60) as u8;
    let hour: u8 = ((ms / 3_600_000) % 24) as u8;
    proof {
        lemma_multiply_divide_lt(ms as int, 86_400_000, 3_300_000);
        lemma_div_pos_is_pos(ms as int, 86_400_000);
    }
    let day_number: i32 = (ms / 86_400_000) as i32;
    let (year, month, day) = civil_from_epoch_day(day_number);
    DateTimeParts {
        year,
        month: month as u8,
        day: day as u8,
        hour,
        minute,
        second,
        millisecond,
    }
}

} // verus!
