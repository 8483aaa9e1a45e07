use vstd::prelude::*;

use crate::data::{Date, Day, MonthlyTransaction, PiggyBank, Transaction, MAX_YEAR};
use crate::ledger::{
    all_occurrences, amount_total, amount_total_on, first_occurrence, gathered, insert_by_date,
    occurrence_on, occurrences, occurrences_from, one_offs_within, projection, sort_by_date,
    within,
};
use crate::{has_next, has_previous, next_month, next_occurrence, previous_occurrence};

verus! {

/// The dates that the month cursor yields from `d`: `d` itself, then each one month
/// after the one before, for as long as such a date exists.
pub open spec fn month_cursor(d: Date, n: nat) -> Option<Date>
    decreases n,
{
    if n == 0 {
        Some(d)
    } else {
        match month_cursor(d, (n - 1) as nat) {
            Some(x) => next_month(x),
            None => None,
        }
    }
}

/// The month index of December of the last supported year.
pub open spec fn last_month_index() -> int {
    MAX_YEAR as int * 12 + 11
}

proof fn lemma_month_cursor_steps(d: Date, n: nat)
    requires
        d.wf(),
        d.day <= 28,
    ensures
        (month_cursor(d, n) is Some) == (d.month_index() + n <= last_month_index()),
        month_cursor(d, n) matches Some(x) ==> x.wf() && x.day == d.day && x.month_index()
            == d.month_index() + n,
    decreases n,
{
    if n > 0 {
        lemma_month_cursor_steps(d, (n - 1) as nat);
    }
}

/// The month cursor from a valid date on or before the 28th yields that date first,
/// then dates on the same day exactly one month apart, each later than the one
/// before, without gaps until December of the last supported year.
pub proof fn lemma_month_cursor(d: Date, n: nat)
    requires
        d.wf(),
        d.day <= 28,
    ensures
        month_cursor(d, 0) == Some(d),
        (month_cursor(d, n) is Some) == (d.month_index() + n <= last_month_index()),
        month_cursor(d, n) matches Some(x) ==> x.wf() && x.day == d.day && x.month_index()
            == d.month_index() + n,
        month_cursor(d, n) matches Some(x) ==> (month_cursor(d, n + 1) matches Some(y) ==> y.day
            == x.day && y.month_index() == x.month_index() + 1 && x.key() < y.key()),
{
    lemma_month_cursor_steps(d, n);
    lemma_month_cursor_steps(d, n + 1);
}

/// Locating day `k` composes: the next occurrence after the previous occurrence, and
/// the previous occurrence of the next occurrence, are both the previous occurrence
/// moved on by one month.
pub proof fn lemma_occurrences_compose(k: Day, d: Date)
    requires
        k.wf(),
        d.wf(),
        has_next(k, d),
    ensures
        has_next(k, previous_occurrence(k, d)),
        next_occurrence(k, previous_occurrence(k, d)) == next_month(previous_occurrence(k, d))->0,
        has_previous(k, next_occurrence(k, d)),
        previous_occurrence(k, next_occurrence(k, d)) == next_month(previous_occurrence(k, d))->0,
{
}

/// The first occurrence of a monthly transaction is the previous occurrence of its
/// day at its start date, moved on one month when that falls before the start.
pub proof fn lemma_first_occurrence(m: MonthlyTransaction)
    requires
        m.wf(),
        has_previous(m.day, m.start_date),
    ensures
        first_occurrence(m) == (if previous_occurrence(m.day, m.start_date).key()
            < m.start_date.key() {
            next_month(previous_occurrence(m.day, m.start_date))
        } else {
            Some(previous_occurrence(m.day, m.start_date))
        }),
{
}

proof fn lemma_concat_totals(a: Seq<Transaction>, b: Seq<Transaction>, d: Date)
    ensures
        amount_total(a + b) == amount_total(a) + amount_total(b),
        amount_total_on(a + b, d) == amount_total_on(a, d) + amount_total_on(b, d),
    decreases b.len(),
{
    if b.len() == 0 {
        assert(a + b =~= a);
    } else {
        lemma_concat_totals(a, b.drop_last(), d);
        assert((a + b).drop_last() =~= a + b.drop_last());
        assert((a + b).last() == b.last());
    }
}

proof fn lemma_insert_totals(s: Seq<Transaction>, t: Transaction, d: Date)
    ensures
        amount_total(insert_by_date(s, t)) == amount_total(s) + t.amount,
        amount_total_on(insert_by_date(s, t), d) == amount_total_on(s, d) + if t.date == d {
            t.amount as int
        } else {
            0
        },
    decreases s.len(),
{
    if s.len() == 0 || s.last().date.key() <= t.date.key() {
        assert(s.push(t).drop_last() =~= s);
    } else {
        lemma_insert_totals(s.drop_last(), t, d);
        let ins = insert_by_date(s.drop_last(), t);
        assert(ins.push(s.last()).drop_last() =~= ins);
    }
}

proof fn lemma_sort_totals(s: Seq<Transaction>, d: Date)
    ensures
        amount_total(sort_by_date(s)) == amount_total(s),
        amount_total_on(sort_by_date(s), d) == amount_total_on(s, d),
    decreases s.len(),
{
    if s.len() > 0 {
        lemma_sort_totals(s.drop_last(), d);
        lemma_insert_totals(sort_by_date(s.drop_last()), s.last(), d);
    }
}

proof fn lemma_one_offs_on_date(s: Seq<Transaction>, d: Date)
    requires
        d.wf(),
        forall|j: int| 0 <= j < s.len() ==> (#[trigger] s[j]).date.wf(),
    ensures
        amount_total(one_offs_within(s, d, false)) - amount_total(one_offs_within(s, d, true))
            == amount_total_on(one_offs_within(s, d, false), d),
    decreases s.len(),
{
    if s.len() > 0 {
        let init = s.drop_last();
        assert forall|j: int| 0 <= j < init.len() implies (#[trigger] init[j]).date.wf() by {
            assert(init[j] == s[j]);
        }
        lemma_one_offs_on_date(init, d);
        let t = s.last();
        assert(t == s[s.len() - 1]);
        if t.date.key() == d.key() {
            t.date.lemma_key_identifies(d);
        }
        let a = one_offs_within(s.drop_last(), d, false);
        let b = one_offs_within(s.drop_last(), d, true);
        assert(a.push(t).drop_last() =~= a);
        assert(b.push(t).drop_last() =~= b);
    }
}

proof fn lemma_occurrences_from_on_date(m: MonthlyTransaction, cur: Date, d: Date)
    requires
        cur.wf(),
        d.wf(),
    ensures
        amount_total(occurrences_from(m, cur, d, false)) - amount_total(
            occurrences_from(m, cur, d, true),
        ) == amount_total_on(occurrences_from(m, cur, d, false), d),
    decreases crate::ledger::months_left(Some(cur), d),
{
    let one = seq![occurrence_on(m, cur)];
    let le = occurrences_from(m, cur, d, false);
    let lt = occurrences_from(m, cur, d, true);
    let empty = Seq::<Transaction>::empty();
    assert(one.drop_last() =~= empty);
    assert(one.last() == occurrence_on(m, cur));
    assert(amount_total(empty) == 0 && amount_total_on(empty, d) == 0);
    assert(amount_total(one) == m.amount);
    if !(crate::ledger::not_ended(m, cur) && within(cur, d, false)) {
        assert(le == empty);
        assert(lt == empty);
    } else {
        let (rest_le, rest_lt) = match next_month(cur) {
            Some(n) => {
                assert(n.key() == cur.key() + 32);
                lemma_occurrences_from_on_date(m, n, d);
                (occurrences_from(m, n, d, false), occurrences_from(m, n, d, true))
            },
            None => (empty, empty),
        };
        assert(le == one + rest_le);
        lemma_concat_totals(one, rest_le, d);
        if cur.key() == d.key() {
            cur.lemma_key_identifies(d);
            assert(rest_le == empty);
            assert(lt == empty);
        } else {
            assert(lt == one + rest_lt);
            lemma_concat_totals(one, rest_lt, d);
        }
    }
}

proof fn lemma_occurrences_on_date(m: MonthlyTransaction, d: Date)
    requires
        m.wf(),
        d.wf(),
    ensures
        amount_total(occurrences(m, d, false)) - amount_total(occurrences(m, d, true))
            == amount_total_on(occurrences(m, d, false), d),
{
    let s = m.start_date;
    let on_day = Date { year: s.year, month: s.month, day: m.day.0 };
    assert(on_day.wf());
    if let Some(f) = first_occurrence(m) {
        lemma_occurrences_from_on_date(m, f, d);
    }
}

proof fn lemma_all_occurrences_on_date(ms: Seq<MonthlyTransaction>, d: Date)
    requires
        d.wf(),
        forall|j: int| 0 <= j < ms.len() ==> (#[trigger] ms[j]).wf(),
    ensures
        amount_total(all_occurrences(ms, d, false)) - amount_total(all_occurrences(ms, d, true))
            == amount_total_on(all_occurrences(ms, d, false), d),
    decreases ms.len(),
{
    if ms.len() > 0 {
        let init = ms.drop_last();
        assert forall|j: int| 0 <= j < init.len() implies (#[trigger] init[j]).wf() by {
            assert(init[j] == ms[j]);
        }
        lemma_all_occurrences_on_date(init, d);
        assert(ms.last() == ms[ms.len() - 1]);
        lemma_occurrences_on_date(ms.last(), d);
        lemma_concat_totals(
            all_occurrences(init, d, false),
            occurrences(ms.last(), d, false),
            d,
        );
        lemma_concat_totals(all_occurrences(init, d, true), occurrences(ms.last(), d, true), d);
    }
}

/// The balance on a date less the balance just before it is the sum of the amounts,
/// one-off and monthly, dated on that date.
pub proof fn lemma_balance_on_date(bank: PiggyBank, d: Date)
    requires
        bank.wf(),
        d.wf(),
    ensures
        amount_total(projection(bank, d, false)) - amount_total(projection(bank, d, true))
            == amount_total_on(projection(bank, d, false), d),
{
    assert forall|j: int| 0 <= j < bank.transactions@.len() implies (
    #[trigger] bank.transactions@[j]).date.wf() by {}
    lemma_one_offs_on_date(bank.transactions@, d);
    lemma_all_occurrences_on_date(bank.monthly_transactions@, d);
    lemma_concat_totals(
        one_offs_within(bank.transactions@, d, false),
        all_occurrences(bank.monthly_transactions@, d, false),
        d,
    );
    lemma_concat_totals(
        one_offs_within(bank.transactions@, d, true),
        all_occurrences(bank.monthly_transactions@, d, true),
        d,
    );
    lemma_sort_totals(gathered(bank, d, false), d);
    lemma_sort_totals(gathered(bank, d, true), d);
}

/// An empty ledger has a zero balance on every date and just before it.
pub proof fn lemma_empty_ledger(bank: PiggyBank, d: Date)
    requires
        bank.transactions@.len() == 0,
        bank.monthly_transactions@.len() == 0,
    ensures
        amount_total(projection(bank, d, false)) == 0,
        amount_total(projection(bank, d, true)) == 0,
{
    assert(gathered(bank, d, false) =~= Seq::<Transaction>::empty());
    assert(gathered(bank, d, true) =~= Seq::<Transaction>::empty());
}

} // verus!
