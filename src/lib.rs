use vstd::prelude::*;

pub mod data;
pub mod failure;
pub mod laws;
pub mod ledger;

use data::{Date, Day, MAX_YEAR, MIN_YEAR};
use failure::SafeUnwrap;

verus! {

/// The date one calendar month after `d`, on the same day of the month; `None` when
/// that day may not exist in every month (past the 28th) or the year would leave
/// the supported range.
pub open spec fn next_month(d: Date) -> Option<Date> {
    if d.day > 28 || (d.month == 12 && d.year == MAX_YEAR) {
        None
    } else if d.month == 12 {
        Some(Date { year: (d.year + 1) as i32, month: 1, day: d.day })
    } else {
        Some(Date { year: d.year, month: (d.month + 1) as u32, day: d.day })
    }
}

/// The date one calendar month before `d`, on day `k`.
pub open spec fn month_before_on(d: Date, k: u32) -> Date {
    if d.month == 1 {
        Date { year: (d.year - 1) as i32, month: 12, day: k }
    } else {
        Date { year: d.year, month: (d.month - 1) as u32, day: k }
    }
}

/// The latest date on day `k` of a month that is not after `d`.
pub open spec fn previous_occurrence(k: Day, d: Date) -> Date {
    if k.0 <= d.day {
        Date { year: d.year, month: d.month, day: k.0 }
    } else {
        month_before_on(d, k.0)
    }
}

/// One month after the previous occurrence of `k`: the next date on day `k` that is
/// after `d`.
pub open spec fn next_occurrence(k: Day, d: Date) -> Date {
    next_month(previous_occurrence(k, d))->0
}

/// `previous_occurrence(k, d)` lies in the supported range.
pub open spec fn has_previous(k: Day, d: Date) -> bool {
    !(d.year == MIN_YEAR && d.month == 1 && k.0 > d.day)
}

/// `next_occurrence(k, d)` lies in the supported range.
pub open spec fn has_next(k: Day, d: Date) -> bool {
    has_previous(k, d) && next_month(previous_occurrence(k, d)) is Some
}

/// The same day of the next month; `None` past the 28th, or past the last supported year.
pub fn same_day_next_month(date: Date) -> (r: Option<Date>)
    requires
        date.wf(),
    ensures
        r == next_month(date),
        r matches Some(n) ==> n.wf() && n.month_index() == date.month_index() + 1,
{
    let day = date.day;
    if day > 28 {
        return None;
    }
    if date.month == 12 {
        if date.year == MAX_YEAR {
            None
        } else {
            Some(Date { year: date.year + 1, month: 1, day })
        }
    } else {
        Some(Date { year: date.year, month: date.month + 1, day })
    }
}

/// The latest date on day `day` of a month that is not after `current_date`.
pub fn get_previous_day(day: Day, current_date: Date) -> (r: Date)
    requires
        day.wf(),
        current_date.wf(),
        has_previous(day, current_date),
    ensures
        r == previous_occurrence(day, current_date),
        r.wf(),
        r.key() <= current_date.key(),
        current_date.key() < next_month(r)->0.key() || next_month(r) is None,
{
    let k = day.day();
    if k <= current_date.day {
        Date { year: current_date.year, month: current_date.month, day: k }
    } else if current_date.month == 1 {
        Date { year: current_date.year - 1, month: 12, day: k }
    } else {
        Date { year: current_date.year, month: current_date.month - 1, day: k }
    }
}

/// The earliest date on day `day` of a month that is after `current_date`.
pub fn get_next_day(day: Day, current_date: Date) -> (r: Date)
    requires
        day.wf(),
        current_date.wf(),
        has_next(day, current_date),
    ensures
        r == next_occurrence(day, current_date),
        r.wf(),
        r.day == day.0,
        current_date.key() < r.key(),
{
    let prev_day = get_previous_day(day, current_date);
    same_day_next_month(prev_day).safe_unwrap()
}

} // verus!

pub use ledger::{
    balance_as_of, balance_strictly_before, monthlies_conflict, transactions_by_date,
};
