use piggy::data::{Date, DateError, Day, DayError, MonthlyTransaction, PiggyBank, Transaction};
use piggy::failure::SafeUnwrap;
use piggy::{
    balance_as_of, balance_strictly_before, get_next_day, get_previous_day, monthlies_conflict,
    same_day_next_month, transactions_by_date,
};

fn date(y: i32, m: u32, d: u32) -> Date {
    Date::new(y, m, d).unwrap()
}

fn monthly(amount: i64, day: u32, start: Date, end: Option<Date>) -> MonthlyTransaction {
    MonthlyTransaction {
        amount,
        cause: "rent".to_string(),
        day: Day::new(day).unwrap(),
        start_date: start,
        end_date: end,
    }
}

fn one_off(amount: i64, cause: &str, on: Date) -> Transaction {
    Transaction { amount, cause: cause.to_string(), date: on }
}

fn bank_with(transactions: Vec<Transaction>, monthlies: Vec<MonthlyTransaction>) -> PiggyBank {
    PiggyBank { transactions, monthly_transactions: monthlies }
}

fn dates_of(v: &[Transaction]) -> Vec<Date> {
    v.iter().map(|t| t.date).collect()
}

#[test]
fn bounded_monthly_yields_four_occurrences() {
    let m = monthly(100, 15, date(2024, 1, 15), Some(date(2024, 4, 15)));
    let bank = bank_with(vec![], vec![m]);
    let r = transactions_by_date(&bank, date(2024, 12, 31));
    assert_eq!(
        dates_of(&r),
        vec![date(2024, 1, 15), date(2024, 2, 15), date(2024, 3, 15), date(2024, 4, 15)]
    );
    assert!(r.iter().all(|t| t.amount == 100 && t.cause == "rent"));
}

#[test]
fn bounded_monthly_cut_by_limit_yields_one() {
    let m = monthly(100, 15, date(2024, 1, 15), Some(date(2024, 4, 15)));
    let bank = bank_with(vec![], vec![m]);
    let r = transactions_by_date(&bank, date(2024, 2, 1));
    assert_eq!(dates_of(&r), vec![date(2024, 1, 15)]);
}

#[test]
fn unbounded_monthly_yields_thirteen() {
    let m = monthly(-50, 25, date(2023, 1, 25), None);
    let bank = bank_with(vec![], vec![m]);
    let r = transactions_by_date(&bank, date(2024, 1, 25));
    assert_eq!(r.len(), 13);
    assert_eq!(r[0].date, date(2023, 1, 25));
    assert_eq!(r[12].date, date(2024, 1, 25));
    assert_eq!(balance_as_of(&bank, date(2024, 1, 25)), -650);
}

#[test]
fn start_after_day_begins_next_month() {
    let m = monthly(10, 5, date(2024, 1, 20), None);
    let bank = bank_with(vec![], vec![m]);
    let r = transactions_by_date(&bank, date(2024, 3, 31));
    assert_eq!(dates_of(&r), vec![date(2024, 2, 5), date(2024, 3, 5)]);
}

#[test]
fn start_before_day_begins_same_month() {
    let m = monthly(10, 20, date(2024, 1, 5), None);
    let bank = bank_with(vec![], vec![m]);
    let r = transactions_by_date(&bank, date(2024, 2, 19));
    assert_eq!(dates_of(&r), vec![date(2024, 1, 20)]);
}

#[test]
fn end_before_start_yields_nothing() {
    let m = monthly(10, 15, date(2024, 5, 15), Some(date(2024, 1, 15)));
    let bank = bank_with(vec![], vec![m]);
    assert!(transactions_by_date(&bank, date(2025, 1, 1)).is_empty());
}

#[test]
fn limit_before_first_occurrence_yields_nothing() {
    let m = monthly(10, 15, date(2024, 5, 15), None);
    let bank = bank_with(vec![], vec![m]);
    assert!(transactions_by_date(&bank, date(2024, 5, 14)).is_empty());
}

#[test]
fn occurrences_cross_the_year() {
    let m = monthly(1, 28, date(2023, 11, 28), None);
    let bank = bank_with(vec![], vec![m]);
    let r = transactions_by_date(&bank, date(2024, 2, 28));
    assert_eq!(
        dates_of(&r),
        vec![date(2023, 11, 28), date(2023, 12, 28), date(2024, 1, 28), date(2024, 2, 28)]
    );
}

#[test]
fn overlaps_boundary_is_exclusive() {
    let a = monthly(1, 1, date(2024, 1, 1), Some(date(2024, 6, 1)));
    let b = monthly(1, 1, date(2024, 6, 1), None);
    assert!(!monthlies_conflict(&a, &b));
    let c = monthly(1, 1, date(2024, 5, 31), None);
    assert!(monthlies_conflict(&a, &c));
}

#[test]
fn overlaps_other_cases() {
    let a = monthly(1, 1, date(2024, 1, 1), None);
    let b = monthly(1, 1, date(2030, 1, 1), None);
    assert!(monthlies_conflict(&a, &b));
    let c = monthly(1, 1, date(2020, 1, 1), Some(date(2024, 1, 1)));
    assert!(!monthlies_conflict(&a, &c));
    assert!(!monthlies_conflict(&c, &a));
    let d = monthly(1, 1, date(2024, 2, 1), Some(date(2024, 3, 1)));
    let e = monthly(1, 1, date(2024, 2, 15), Some(date(2024, 2, 20)));
    assert!(monthlies_conflict(&d, &e));
    assert!(monthlies_conflict(&e, &d));
}

#[test]
fn merged_projection_is_sorted_and_filtered() {
    let bank = bank_with(
        vec![
            one_off(500, "gift", date(2024, 1, 10)),
            one_off(-20, "lunch", date(2024, 2, 20)),
            one_off(7, "later", date(2024, 3, 1)),
        ],
        vec![monthly(100, 15, date(2024, 1, 1), None)],
    );
    let r = transactions_by_date(&bank, date(2024, 2, 20));
    assert_eq!(
        dates_of(&r),
        vec![date(2024, 1, 10), date(2024, 1, 15), date(2024, 2, 15), date(2024, 2, 20)]
    );
    assert_eq!(r[1].cause, "rent");
    assert_eq!(r[3].cause, "lunch");
}

#[test]
fn same_date_keeps_one_offs_first() {
    let bank = bank_with(
        vec![one_off(5, "coffee", date(2024, 1, 15))],
        vec![monthly(100, 15, date(2024, 1, 1), None)],
    );
    let r = transactions_by_date(&bank, date(2024, 1, 15));
    assert_eq!(r.len(), 2);
    assert_eq!(r[0].cause, "coffee");
    assert_eq!(r[1].cause, "rent");
}

#[test]
fn projection_is_idempotent() {
    let bank = bank_with(
        vec![one_off(3, "a", date(2024, 1, 2)), one_off(4, "b", date(2024, 1, 15))],
        vec![monthly(10, 15, date(2023, 12, 1), None), monthly(-5, 2, date(2024, 1, 1), None)],
    );
    let first = transactions_by_date(&bank, date(2024, 2, 15));
    let second = transactions_by_date(&bank, date(2024, 2, 15));
    assert_eq!(first.len(), second.len());
    for (x, y) in first.iter().zip(second.iter()) {
        assert_eq!(x.amount, y.amount);
        assert_eq!(x.cause, y.cause);
        assert_eq!(x.date, y.date);
    }
}

#[test]
fn balance_difference_is_what_falls_on_the_date() {
    let bank = bank_with(
        vec![
            one_off(300, "pay", date(2024, 1, 10)),
            one_off(-40, "shoes", date(2024, 2, 15)),
            one_off(9, "after", date(2024, 2, 16)),
        ],
        vec![monthly(-100, 15, date(2024, 1, 1), None), monthly(25, 14, date(2024, 1, 1), None)],
    );
    let d = date(2024, 2, 15);
    assert_eq!(balance_as_of(&bank, d), 300 - 100 - 100 + 25 + 25 - 40);
    assert_eq!(balance_strictly_before(&bank, d), 300 - 100 + 25 + 25);
    assert_eq!(balance_as_of(&bank, d) - balance_strictly_before(&bank, d), -140);
}

#[test]
fn empty_ledger_has_zero_balance() {
    let bank = PiggyBank::new();
    for d in [date(2024, 1, 1), date(1970, 6, 30), date(2999, 12, 31)] {
        assert_eq!(balance_as_of(&bank, d), 0);
        assert_eq!(balance_strictly_before(&bank, d), 0);
        assert!(transactions_by_date(&bank, d).is_empty());
    }
}

#[test]
fn balance_sums_large_amounts_without_overflow() {
    let bank = bank_with(
        vec![one_off(i64::MAX, "a", date(2024, 1, 1)), one_off(i64::MAX, "b", date(2024, 1, 2))],
        vec![],
    );
    assert_eq!(balance_as_of(&bank, date(2024, 1, 2)), 2 * (i64::MAX as i128));
}

#[test]
fn month_cursor_steps_one_month() {
    let mut d = date(2023, 10, 28);
    let mut seen = vec![d];
    for _ in 0..4 {
        d = same_day_next_month(d).unwrap();
        seen.push(d);
    }
    assert_eq!(
        seen,
        vec![
            date(2023, 10, 28),
            date(2023, 11, 28),
            date(2023, 12, 28),
            date(2024, 1, 28),
            date(2024, 2, 28)
        ]
    );
}

#[test]
fn month_cursor_stops_past_the_28th() {
    assert_eq!(same_day_next_month(date(2024, 1, 29)), None);
    assert_eq!(same_day_next_month(date(2024, 1, 31)), None);
    assert_eq!(same_day_next_month(date(262142, 12, 1)), None);
}

#[test]
fn previous_and_next_day() {
    let k = Day::new(25).unwrap();
    assert_eq!(get_previous_day(k, date(2024, 3, 25)), date(2024, 3, 25));
    assert_eq!(get_previous_day(k, date(2024, 3, 30)), date(2024, 3, 25));
    assert_eq!(get_previous_day(k, date(2024, 3, 10)), date(2024, 2, 25));
    assert_eq!(get_previous_day(k, date(2024, 1, 10)), date(2023, 12, 25));
    assert_eq!(get_next_day(k, date(2024, 3, 25)), date(2024, 4, 25));
    assert_eq!(get_next_day(k, date(2024, 3, 10)), date(2024, 3, 25));
    assert_eq!(get_next_day(k, date(2023, 12, 26)), date(2024, 1, 25));
}

#[test]
fn previous_and_next_compose() {
    let k = Day::new(10).unwrap();
    for d in [date(2024, 1, 5), date(2024, 1, 10), date(2024, 12, 31)] {
        let p = get_previous_day(k, d);
        let advanced = same_day_next_month(p).unwrap();
        assert_eq!(get_next_day(k, p), advanced);
        assert_eq!(get_previous_day(k, get_next_day(k, d)), advanced);
    }
}

#[test]
fn day_range_is_checked() {
    assert_eq!(Day::new(0), Err(DayError::OutOfRange));
    assert_eq!(Day::new(29), Err(DayError::OutOfRange));
    assert_eq!(Day::new(1).map(|d| d.day()), Ok(1));
    assert_eq!(Day::new(28).map(|d| d.day()), Ok(28));
}

#[test]
fn day_is_read_from_text() {
    assert_eq!(Day::parse("15"), Ok(Day(15)));
    assert_eq!(Day::parse("29"), Err(DayError::OutOfRange));
    assert_eq!(Day::parse("0"), Err(DayError::OutOfRange));
    assert_eq!(Day::parse("x1"), Err(DayError::NotANumber));
    assert_eq!(Day::parse(""), Err(DayError::NotANumber));
    assert_eq!(Day::parse("+7"), Ok(Day(7)));
    assert_eq!(Day::parse("007"), Ok(Day(7)));
    assert_eq!(Day::parse("+"), Err(DayError::NotANumber));
    assert_eq!(Day::parse("-3"), Err(DayError::NotANumber));
    assert_eq!(Day::parse(" 5"), Err(DayError::NotANumber));
    assert_eq!(Day::parse("4294967295"), Err(DayError::OutOfRange));
    assert_eq!(Day::parse("4294967296"), Err(DayError::NotANumber));
}

#[test]
fn dates_are_validated() {
    assert_eq!(Date::new(2023, 2, 29), None);
    assert!(Date::new(2024, 2, 29).is_some());
    assert!(Date::new(2000, 2, 29).is_some());
    assert_eq!(Date::new(1900, 2, 29), None);
    assert_eq!(Date::new(2024, 4, 31), None);
    assert_eq!(Date::new(2024, 13, 1), None);
    assert_eq!(Date::new(2024, 0, 1), None);
    assert_eq!(Date::new(2024, 1, 0), None);
}

#[test]
fn dates_are_read_from_text() {
    assert_eq!(Date::parse("2024-01-15"), Ok(date(2024, 1, 15)));
    assert_eq!(Date::parse("1999-12-31"), Ok(date(1999, 12, 31)));
    assert_eq!(Date::parse("2023-02-29"), Err(DateError::Malformed));
    assert_eq!(Date::parse("15/01/2024"), Err(DateError::Malformed));
    assert_eq!(Date::parse("tomorrow"), Err(DateError::Malformed));
    match Date::parse("today") {
        Ok(d) => assert!(Date::new(d.year, d.month, d.day).is_some()),
        Err(e) => assert_eq!(e, DateError::NoCurrentDate),
    }
    assert!(Date::parse("today").is_ok());
}

#[test]
fn dates_compare_by_calendar_order() {
    assert!(date(2023, 12, 31).is_before(&date(2024, 1, 1)));
    assert!(date(2024, 2, 1).is_after(&date(2024, 1, 31)));
    assert!(!date(2024, 2, 1).is_before(&date(2024, 2, 1)));
}

#[test]
fn safe_unwrap_returns_the_value() {
    assert_eq!(Some(4).safe_unwrap(), 4);
    let r: Result<u8, ()> = Ok(9);
    assert_eq!(r.safe_unwrap(), 9);
}

#[test]
fn added_transactions_stay_in_date_order() {
    let mut bank = PiggyBank::new();
    bank.add_transaction(one_off(1, "b", date(2024, 2, 1)));
    bank.add_transaction(one_off(2, "a", date(2024, 1, 1)));
    bank.add_transaction(one_off(3, "c", date(2024, 3, 1)));
    bank.add_transaction(one_off(4, "b2", date(2024, 2, 1)));
    let causes: Vec<&str> = bank.transactions.iter().map(|t| t.cause.as_str()).collect();
    assert_eq!(causes, vec!["a", "b", "b2", "c"]);
    assert!(bank.monthly_transactions.is_empty());
}

#[test]
fn added_monthly_transaction_counts_in_balance() {
    let mut bank = PiggyBank::new();
    bank.add_monthly_transaction(monthly(250, 1, date(2024, 1, 1), None));
    assert_eq!(bank.monthly_transactions.len(), 1);
    assert!(bank.transactions.is_empty());
    assert_eq!(balance_as_of(&bank, date(2024, 3, 1)), 750);
    assert_eq!(balance_strictly_before(&bank, date(2024, 3, 1)), 500);
}
