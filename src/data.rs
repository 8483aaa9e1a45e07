use vstd::prelude::*;
use vstd::string::StrSliceExecFns;
use chrono::Datelike;

verus! {

/// Earliest year a `Date` may hold (the range of chrono's `NaiveDate`).
pub const MIN_YEAR: i32 = -262143;

/// Latest year a `Date` may hold (the range of chrono's `NaiveDate`).
pub const MAX_YEAR: i32 = 262142;

/// Whether `y` is a leap year of the proleptic Gregorian calendar.
pub open spec fn is_leap_year(y: int) -> bool {
    (y % 4 == 0 && y % 100 != 0) || y % 400 == 0
}

/// Number of days of month `m` (1 to 12) of year `y`.
pub open spec fn days_in_month(y: int, m: int) -> int {
    if m == 2 {
        if is_leap_year(y) { 29 } else { 28 }
    } else if m == 4 || m == 6 || m == 9 || m == 11 {
        30
    } else {
        31
    }
}

/// A naive calendar date: year, month and day on the proleptic Gregorian calendar.
#[derive(Debug, Clone, Copy, PartialEq, Eq, Structural, PartialOrd, Ord)]
pub struct Date {
    pub year: i32,
    pub month: u32,
    pub day: u32,
}

/// Ways in which reading a date from text fails.
#[derive(Debug, Clone, Copy, PartialEq, Eq, Structural)]
pub enum DateError {
    /// The text is neither `today` nor a date of the form `yyyy-mm-dd`.
    Malformed,
    /// The text is `today`, but the clock gives no date in the supported years.
    NoCurrentDate,
}

/// Ways in which building a day of the month fails.
#[derive(Debug, Clone, Copy, PartialEq, Eq, Structural)]
pub enum DayError {
    /// The text is not a whole number.
    NotANumber,
    /// The number lies outside 1 to 28.
    OutOfRange,
}

impl Date {
    /// The date names a real calendar day within the supported years.
    pub open spec fn wf(self) -> bool {
        MIN_YEAR <= self.year <= MAX_YEAR && 1 <= self.month <= 12 && 1 <= self.day
            <= days_in_month(self.year as int, self.month as int)
    }

    /// Months elapsed since January of year 0 (negative before it).
    pub open spec fn month_index(self) -> int {
        self.year as int * 12 + self.month as int - 1
    }

    /// An integer that orders dates as the calendar does: by year, then month, then day.
    pub open spec fn key(self) -> int {
        self.month_index() * 32 + self.day as int
    }

    /// Valid dates with the same key are the same date.
    pub proof fn lemma_key_identifies(self, other: Date)
        requires
            self.wf(),
            other.wf(),
            self.key() == other.key(),
        ensures
            self == other,
    {
        let a = self.month_index();
        let b = other.month_index();
        assert(a == b) by (nonlinear_arith)
            requires
                a * 32 + self.day == b * 32 + other.day,
                1 <= self.day <= 31,
                1 <= other.day <= 31,
        ;
        assert(self.year == other.year) by (nonlinear_arith)
            requires
                self.year * 12 + self.month - 1 == other.year * 12 + other.month - 1,
                1 <= self.month <= 12,
                1 <= other.month <= 12,
        ;
    }

    /// Builds the date `year-month-day`, or `None` when no such date exists in range.
    pub fn new(year: i32, month: u32, day: u32) -> (r: Option<Date>)
        ensures
            r == (if (Date { year, month, day }).wf() {
                Some(Date { year, month, day })
            } else {
                None
            }),
    {
        if year < MIN_YEAR || year > MAX_YEAR || month < 1 || month > 12 || day < 1 {
            return None;
        }
        let leap = (year % 4 == 0 && year % 100 != 0) || year % 400 == 0;
        let last: u32 = if month == 2 {
            if leap { 29 } else { 28 }
        } else if month == 4 || month == 6 || month == 9 || month == 11 {
            30
        } else {
            31
        };
        if day > last {
            None
        } else {
            Some(Date { year, month, day })
        }
    }

    /// Whether `self` falls strictly before `other`.
    pub fn is_before(&self, other: &Date) -> (r: bool)
        requires
            self.wf(),
            other.wf(),
        ensures
            r == (self.key() < other.key()),
    {
        if self.year != other.year {
            self.year < other.year
        } else if self.month != other.month {
            self.month < other.month
        } else {
            self.day < other.day
        }
    }

    /// Whether `self` falls strictly after `other`.
    pub fn is_after(&self, other: &Date) -> (r: bool)
        requires
            self.wf(),
            other.wf(),
        ensures
            r == (self.key() > other.key()),
    {
        other.is_before(self)
    }

    /// Reads a date written `yyyy-mm-dd`; the word `today` stands for the current date.
    pub fn parse(s: &str) -> (r: Result<Date, DateError>)
        ensures
            s@ == "today"@ ==> (r is Ok || r == Err::<Date, DateError>(DateError::NoCurrentDate)),
            s@ != "today"@ ==> r == match parsed_date(s@) {
                Some((y, m, d)) => Ok(Date { year: y, month: m, day: d }),
                None => Err(DateError::Malformed),
            },
            r matches Ok(d) ==> d.wf(),
    {
        if is_today_keyword(s) {
            return match today() {
                Some(d) => Ok(d),
                None => Err(DateError::NoCurrentDate),
            };
        }
        match parse_ymd(s) {
            Ok((y, m, d)) => Ok(Date { year: y, month: m, day: d }),
            Err(_) => Err(DateError::Malformed),
        }
    }
}

/// Whether `s` is exactly the word `today`.
fn is_today_keyword(s: &str) -> (r: bool)
    ensures
        r == (s@ == "today"@),
{
    let word = "today";
    proof {
        reveal_strlit("today");
    }
    if s.unicode_len() != 5 {
        return false;
    }
    let mut i: usize = 0;
    while i < 5
        invariant
            i <= 5,
            s@.len() == 5,
            word@ == "today"@,
            word@.len() == 5,
            forall|j: int| 0 <= j < i ==> s@[j] == word@[j],
        decreases 5 - i,
    {
        if s.get_char(i) != word.get_char(i) {
            return false;
        }
        i += 1;
    }
    assert(s@ =~= word@);
    true
}

/// What chrono's `NaiveDate` parser reads from a text, as (year, month, day).
pub uninterp spec fn parsed_date(s: Seq<char>) -> Option<(i32, u32, u32)>;

/// The error type of chrono's parsers.
#[verifier::external_type_specification]
#[verifier::external_body]
pub struct ExParseError(chrono::ParseError);

/// Relies on `<chrono::NaiveDate as FromStr>::from_str`: a result that depends on
/// the text alone, and that is always a valid date of chrono's year range.
#[verifier::external_body]
fn parse_ymd(s: &str) -> (r: Result<(i32, u32, u32), chrono::ParseError>)
    ensures
        match r {
            Ok((y, m, d)) => parsed_date(s@) == Some((y, m, d)) && (Date {
                year: y,
                month: m,
                day: d,
            }).wf(),
            Err(_) => parsed_date(s@) is None,
        },
{
    s.parse::<chrono::NaiveDate>().map(|d| (d.year(), d.month(), d.day()))
}

/// Relies on `std::time::SystemTime::now` and `SystemTime::duration_since`: the
/// time since the Unix epoch as whole seconds and nanoseconds, or `None` when the
/// clock reads before the epoch. The clock may read anything.
#[verifier::external_body]
fn time_since_epoch() -> (r: Option<(u64, u32)>) {
    std::time::SystemTime::now()
        .duration_since(std::time::UNIX_EPOCH)
        .ok()
        .map(|d| (d.as_secs(), d.subsec_nanos()))
}

/// The UTC date that chrono gives for a Unix time, as (year, month, day).
pub uninterp spec fn utc_date_at(secs: i64, nsecs: u32) -> Option<(i32, u32, u32)>;

/// Relies on `chrono::DateTime::<Utc>::from_timestamp` and `DateTime::date_naive`:
/// a result that depends on the arguments alone, `None` outside chrono's range and
/// otherwise a valid date of that range.
#[verifier::external_body]
fn utc_date_of_timestamp(secs: i64, nsecs: u32) -> (r: Option<(i32, u32, u32)>)
    ensures
        r == utc_date_at(secs, nsecs),
        r matches Some((y, m, d)) ==> (Date { year: y, month: m, day: d }).wf(),
{
    chrono::DateTime::<chrono::Utc>::from_timestamp(secs, nsecs).map(
        |t| {
            let d = t.date_naive();
            (d.year(), d.month(), d.day())
        },
    )
}

/// The current date in UTC; `None` when the clock reads before 1970 or beyond the
/// supported years.
fn today() -> (r: Option<Date>)
    ensures
        r matches Some(d) ==> d.wf(),
{
    match time_since_epoch() {
        Some((secs, nsecs)) => {
            if secs > 0x7fff_ffff_ffff_ffff {
                return None;
            }
            match utc_date_of_timestamp(secs as i64, nsecs) {
                Some((y, m, d)) => Some(Date { year: y, month: m, day: d }),
                None => None,
            }
        },
        None => None,
    }
}

/// A day of the month on which a monthly transaction recurs: 1 to 28, so that it
/// exists in every month.
#[derive(Debug, Clone, Copy, PartialEq, Eq, Structural)]
pub struct Day(pub u32);

/// Whether every character of `d` is an ASCII digit.
pub open spec fn all_digits(d: Seq<char>) -> bool {
    forall|i: int| 0 <= i < d.len() ==> '0' <= #[trigger] d[i] <= '9'
}

/// The number that the ASCII digits `d` write in base ten.
pub open spec fn digits_value(d: Seq<char>) -> int
    decreases d.len(),
{
    if d.len() == 0 {
        0
    } else {
        digits_value(d.drop_last()) * 10 + (d.last() as u32 - '0' as u32)
    }
}

/// A whole number as `u32` reads it: an optional `+`, then one or more ASCII digits,
/// of a value that fits in `u32`.
pub open spec fn decimal_u32(s: Seq<char>) -> Option<u32> {
    let d = if s.len() > 0 && s[0] == '+' {
        s.drop_first()
    } else {
        s
    };
    if d.len() > 0 && all_digits(d) && digits_value(d) <= u32::MAX {
        Some(digits_value(d) as u32)
    } else {
        None
    }
}

/// Relies on `str::parse::<u32>`: an optional `+` followed by decimal digits, of a
/// value that fits; anything else is an error.
#[verifier::external_body]
fn parse_u32(s: &str) -> (r: Option<u32>)
    ensures
        r == decimal_u32(s@),
{
    s.parse::<u32>().ok()
}

impl Day {
    /// The value lies within 1 to 28.
    pub open spec fn wf(self) -> bool {
        1 <= self.0 <= 28
    }

    /// Builds the day `n`, refusing any value outside 1 to 28.
    pub fn new(n: u32) -> (r: Result<Day, DayError>)
        ensures
            r == (if 1 <= n <= 28 {
                Ok(Day(n))
            } else {
                Err(DayError::OutOfRange)
            }),
    {
        if n > 0 && n <= 28 {
            Ok(Day(n))
        } else {
            Err(DayError::OutOfRange)
        }
    }

    /// Reads a day of the month written as a whole number.
    pub fn parse(s: &str) -> (r: Result<Day, DayError>)
        ensures
            r == match decimal_u32(s@) {
                None => Err(DayError::NotANumber),
                Some(n) => if 1 <= n <= 28 {
                    Ok(Day(n))
                } else {
                    Err(DayError::OutOfRange)
                },
            },
    {
        match parse_u32(s) {
            None => Err(DayError::NotANumber),
            Some(n) => Day::new(n),
        }
    }

    /// The day's number.
    pub fn day(&self) -> (r: u32)
        ensures
            r == self.0,
    {
        self.0
    }
}

/// A one-off movement of money: positive adds, negative spends. The amount is in
/// the currency's smallest unit.
#[derive(Debug, Clone)]
pub struct Transaction {
    pub amount: i64,
    pub cause: String,
    pub date: Date,
}

impl Transaction {
    /// An equal, independently owned transaction.
    pub fn duplicate(&self) -> (r: Transaction)
        ensures
            r == *self,
    {
        Transaction { amount: self.amount, cause: self.cause.clone(), date: self.date }
    }
}

/// An amount applied on `day` of every month from `start_date` on, up to `end_date`
/// when there is one.
#[derive(Debug, Clone)]
pub struct MonthlyTransaction {
    pub amount: i64,
    pub cause: String,
    pub day: Day,
    pub start_date: Date,
    pub end_date: Option<Date>,
}

impl MonthlyTransaction {
    /// Its day and dates are valid.
    pub open spec fn wf(&self) -> bool {
        self.day.wf() && self.start_date.wf() && match self.end_date {
            Some(e) => e.wf(),
            None => true,
        }
    }
}

/// The ledger: one-off transactions, kept in ascending date order by whoever
/// appends to them, and monthly transactions in no particular order.
#[derive(Debug)]
pub struct PiggyBank {
    pub transactions: Vec<Transaction>,
    pub monthly_transactions: Vec<MonthlyTransaction>,
}

impl PiggyBank {
    /// Every date and day it holds is valid.
    pub open spec fn wf(&self) -> bool {
        (forall|i: int| 0 <= i < self.transactions@.len() ==> (#[trigger] self.transactions@[i]).date.wf())
            && (forall|i: int|
            0 <= i < self.monthly_transactions@.len() ==> (#[trigger] self.monthly_transactions@[i]).wf())
    }

    /// An empty ledger.
    pub fn new() -> (r: PiggyBank)
        ensures
            r.transactions@.len() == 0,
            r.monthly_transactions@.len() == 0,
    {
        PiggyBank { transactions: Vec::new(), monthly_transactions: Vec::new() }
    }
}

} // verus!
