use vstd::prelude::*;

use crate::data::{Date, MonthlyTransaction, PiggyBank, Transaction};
use crate::{next_month, same_day_next_month};

verus! {

/// `x` falls within the bound `limit`: strictly before it when `strict`, else on or before it.
pub open spec fn within(x: Date, limit: Date, strict: bool) -> bool {
    if strict {
        x.key() < limit.key()
    } else {
        x.key() <= limit.key()
    }
}

/// `x` is on or before the end date of `m`, if it has one.
pub open spec fn not_ended(m: MonthlyTransaction, x: Date) -> bool {
    match m.end_date {
        Some(e) => x.key() <= e.key(),
        None => true,
    }
}

/// The transaction that `m` produces on `x`.
pub open spec fn occurrence_on(m: MonthlyTransaction, x: Date) -> Transaction {
    Transaction { amount: m.amount, cause: m.cause, date: x }
}

/// The first occurrence of `m`: the earliest date on its day that is not before its start.
pub open spec fn first_occurrence(m: MonthlyTransaction) -> Option<Date> {
    let s = m.start_date;
    let on_day = Date { year: s.year, month: s.month, day: m.day.0 };
    if s.day <= m.day.0 {
        Some(on_day)
    } else {
        next_month(on_day)
    }
}

/// The occurrences of `m` from `cur` on, one month apart, while not ended and within `limit`.
/// (For a valid `cur` the following month always lies later; the comparison with it
/// only bounds the recursion.)
pub open spec fn occurrences_from(m: MonthlyTransaction, cur: Date, limit: Date, strict: bool) -> Seq<
    Transaction,
>
    decreases months_left(Some(cur), limit),
{
    if not_ended(m, cur) && within(cur, limit, strict) {
        let rest = match next_month(cur) {
            Some(n) => if n.key() > cur.key() {
                occurrences_from(m, n, limit, strict)
            } else {
                Seq::empty()
            },
            None => Seq::empty(),
        };
        seq![occurrence_on(m, cur)] + rest
    } else {
        Seq::empty()
    }
}

/// Every occurrence of `m` within `limit`, in date order.
pub open spec fn occurrences(m: MonthlyTransaction, limit: Date, strict: bool) -> Seq<Transaction> {
    match first_occurrence(m) {
        Some(f) => occurrences_from(m, f, limit, strict),
        None => Seq::empty(),
    }
}

/// The transactions of `s` within `limit`, in their order.
pub open spec fn one_offs_within(s: Seq<Transaction>, limit: Date, strict: bool) -> Seq<Transaction>
    decreases s.len(),
{
    if s.len() == 0 {
        s
    } else {
        let head = one_offs_within(s.drop_last(), limit, strict);
        if within(s.last().date, limit, strict) {
            head.push(s.last())
        } else {
            head
        }
    }
}

/// The occurrences within `limit` of every monthly transaction of `ms`, one after another.
pub open spec fn all_occurrences(ms: Seq<MonthlyTransaction>, limit: Date, strict: bool) -> Seq<
    Transaction,
>
    decreases ms.len(),
{
    if ms.len() == 0 {
        Seq::empty()
    } else {
        all_occurrences(ms.drop_last(), limit, strict) + occurrences(ms.last(), limit, strict)
    }
}

/// The one-off transactions within `limit`, followed by the occurrences within it.
pub open spec fn gathered(bank: PiggyBank, limit: Date, strict: bool) -> Seq<Transaction> {
    one_offs_within(bank.transactions@, limit, strict) + all_occurrences(
        bank.monthly_transactions@,
        limit,
        strict,
    )
}

/// `s` with `t` placed after every entry not later than it and before every later one.
pub open spec fn insert_by_date(s: Seq<Transaction>, t: Transaction) -> Seq<Transaction>
    decreases s.len(),
{
    if s.len() == 0 || s.last().date.key() <= t.date.key() {
        s.push(t)
    } else {
        insert_by_date(s.drop_last(), t).push(s.last())
    }
}

/// `s` sorted by date, entries of the same date kept in their order in `s`.
pub open spec fn sort_by_date(s: Seq<Transaction>) -> Seq<Transaction>
    decreases s.len(),
{
    if s.len() == 0 {
        s
    } else {
        insert_by_date(sort_by_date(s.drop_last()), s.last())
    }
}

/// The ledger as of `limit`: every transaction and occurrence within it, by date.
pub open spec fn projection(bank: PiggyBank, limit: Date, strict: bool) -> Seq<Transaction> {
    sort_by_date(gathered(bank, limit, strict))
}

/// Sum of the amounts of `s`.
pub open spec fn amount_total(s: Seq<Transaction>) -> int
    decreases s.len(),
{
    if s.len() == 0 {
        0
    } else {
        amount_total(s.drop_last()) + s.last().amount
    }
}

/// Sum of the amounts of the entries of `s` dated `d`.
pub open spec fn amount_total_on(s: Seq<Transaction>, d: Date) -> int
    decreases s.len(),
{
    if s.len() == 0 {
        0
    } else {
        amount_total_on(s.drop_last(), d) + if s.last().date == d {
            s.last().amount as int
        } else {
            0
        }
    }
}

/// The entries of `s` come in ascending date order.
pub open spec fn is_sorted_by_date(s: Seq<Transaction>) -> bool {
    forall|i: int, j: int| 0 <= i < j < s.len() ==> s[i].date.key() <= s[j].date.key()
}

/// Whether two monthly transactions are active on some common date (by their date
/// ranges alone; an end shared with the other's start does not count).
pub open spec fn conflict(a: MonthlyTransaction, b: MonthlyTransaction) -> bool {
    match (a.end_date, b.end_date) {
        (Some(ea), Some(eb)) => a.start_date.key() < eb.key() && b.start_date.key() < ea.key(),
        (None, Some(eb)) => a.start_date.key() < eb.key(),
        (Some(ea), None) => b.start_date.key() < ea.key(),
        (None, None) => true,
    }
}

proof fn lemma_next_month_later(d: Date)
    requires
        d.wf(),
    ensures
        next_month(d) matches Some(n) ==> n.wf() && n.key() == d.key() + 32,
{
}

proof fn lemma_insert_at(s: Seq<Transaction>, t: Transaction, i: int)
    requires
        0 <= i <= s.len(),
        forall|j: int| i <= j < s.len() ==> s[j].date.key() > t.date.key(),
        i == 0 || s[i - 1].date.key() <= t.date.key(),
    ensures
        insert_by_date(s, t) == s.insert(i, t),
    decreases s.len(),
{
    if i == s.len() {
        assert(s.push(t) =~= s.insert(i, t));
    } else {
        lemma_insert_at(s.drop_last(), t, i);
        assert(s.drop_last().insert(i, t).push(s.last()) =~= s.insert(i, t));
    }
}

/// Places `t` in the date-sorted `v` after every entry not later than it.
fn insert_by_date_exec(v: &mut Vec<Transaction>, t: Transaction)
    requires
        t.date.wf(),
        forall|j: int| 0 <= j < old(v)@.len() ==> (#[trigger] old(v)@[j]).date.wf(),
    ensures
        final(v)@ == insert_by_date(old(v)@, t),
{
    let mut i: usize = v.len();
    while i > 0 && v[i - 1].date.is_after(&t.date)
        invariant
            i <= v@.len(),
            v@ == old(v)@,
            t.date.wf(),
            forall|j: int| 0 <= j < v@.len() ==> (#[trigger] v@[j]).date.wf(),
            forall|j: int| i <= j < v@.len() ==> v@[j].date.key() > t.date.key(),
        decreases i,
    {
        i -= 1;
    }
    proof {
        lemma_insert_at(v@, t, i as int);
    }
    v.insert(i, t);
}

/// A copy of `s` sorted by date; entries of the same date keep their order.
fn sort_by_date_exec(s: &Vec<Transaction>) -> (r: Vec<Transaction>)
    requires
        forall|j: int| 0 <= j < s@.len() ==> (#[trigger] s@[j]).date.wf(),
    ensures
        r@ == sort_by_date(s@),
{
    let mut r: Vec<Transaction> = Vec::new();
    let mut i: usize = 0;
    while i < s.len()
        invariant
            i <= s@.len(),
            forall|j: int| 0 <= j < s@.len() ==> (#[trigger] s@[j]).date.wf(),
            r@ == sort_by_date(s@.take(i as int)),
            forall|j: int| 0 <= j < r@.len() ==> (#[trigger] r@[j]).date.wf(),
        decreases s@.len() - i,
    {
        proof {
            lemma_sort_dates_wf(s@.take(i as int));
            assert(s@.take(i as int + 1).drop_last() =~= s@.take(i as int));
        }
        insert_by_date_exec(&mut r, s[i].duplicate());
        i += 1;
        proof {
            lemma_sort_dates_wf(s@.take(i as int));
        }
    }
    assert(s@.take(i as int) =~= s@);
    r
}

proof fn lemma_insert_dates_wf(s: Seq<Transaction>, t: Transaction)
    requires
        t.date.wf(),
        forall|j: int| 0 <= j < s.len() ==> (#[trigger] s[j]).date.wf(),
    ensures
        forall|j: int|
            0 <= j < insert_by_date(s, t).len() ==> (#[trigger] insert_by_date(s, t)[j]).date.wf(),
        insert_by_date(s, t).len() == s.len() + 1,
    decreases s.len(),
{
    if s.len() > 0 && s.last().date.key() > t.date.key() {
        lemma_insert_dates_wf(s.drop_last(), t);
    }
}

proof fn lemma_sort_dates_wf(s: Seq<Transaction>)
    requires
        forall|j: int| 0 <= j < s.len() ==> (#[trigger] s[j]).date.wf(),
    ensures
        forall|j: int| 0 <= j < sort_by_date(s).len() ==> (#[trigger] sort_by_date(s)[j]).date.wf(),
        sort_by_date(s).len() == s.len(),
    decreases s.len(),
{
    if s.len() > 0 {
        lemma_sort_dates_wf(s.drop_last());
        lemma_insert_dates_wf(sort_by_date(s.drop_last()), s.last());
    }
}

/// The first occurrence of `m`, computed.
fn first_occurrence_exec(m: &MonthlyTransaction) -> (r: Option<Date>)
    requires
        m.wf(),
    ensures
        r == first_occurrence(*m),
        r matches Some(f) ==> f.wf(),
{
    let s = m.start_date;
    let on_day = Date { year: s.year, month: s.month, day: m.day.day() };
    if s.day <= m.day.day() {
        Some(on_day)
    } else {
        same_day_next_month(on_day)
    }
}

/// Every occurrence of `m` from `cur` on, or none when `cur` is `None`.
pub open spec fn occurrences_after(m: MonthlyTransaction, cur: Option<Date>, limit: Date, strict: bool) -> Seq<
    Transaction,
> {
    match cur {
        Some(c) => occurrences_from(m, c, limit, strict),
        None => Seq::empty(),
    }
}

/// How many months are left from `cur` to `limit`.
pub open spec fn months_left(cur: Option<Date>, limit: Date) -> int {
    match cur {
        Some(c) => if c.key() <= limit.key() {
            limit.key() - c.key() + 1
        } else {
            0
        },
        None => 0,
    }
}

/// Appends to `out` every occurrence of `m` within `limit`, in date order.
fn push_occurrences(m: &MonthlyTransaction, limit: Date, strict: bool, out: &mut Vec<Transaction>)
    requires
        m.wf(),
        limit.wf(),
    ensures
        final(out)@ == old(out)@ + occurrences(*m, limit, strict),
{
    let mut cur = first_occurrence_exec(m);
    loop
        invariant
            m.wf(),
            limit.wf(),
            cur matches Some(c) ==> c.wf(),
            out@ + occurrences_after(*m, cur, limit, strict) == old(out)@ + occurrences(
                *m,
                limit,
                strict,
            ),
        ensures
            out@ == old(out)@ + occurrences(*m, limit, strict),
        decreases months_left(cur, limit),
    {
        match cur {
            None => {
                assert(out@ + occurrences_after(*m, cur, limit, strict) =~= out@);
                break ;
            },
            Some(c) => {
                let ended = match m.end_date {
                    Some(e) => c.is_after(&e),
                    None => false,
                };
                let beyond = if strict {
                    !c.is_before(&limit)
                } else {
                    c.is_after(&limit)
                };
                if ended || beyond {
                    assert(out@ + occurrences_after(*m, cur, limit, strict) =~= out@);
                    break ;
                }
                let next = same_day_next_month(c);
                proof {
                    lemma_next_month_later(c);
                    let rest = occurrences_after(*m, next, limit, strict);
                    assert(occurrences_from(*m, c, limit, strict) == seq![occurrence_on(*m, c)]
                        + rest);
                    assert(out@.push(occurrence_on(*m, c)) + rest =~= out@ + (seq![
                        occurrence_on(*m, c),
                    ] + rest));
                }
                out.push(Transaction { amount: m.amount, cause: m.cause.clone(), date: c });
                cur = next;
            },
        }
    }
}

proof fn lemma_occurrences_from_wf(m: MonthlyTransaction, cur: Date, limit: Date, strict: bool)
    requires
        cur.wf(),
    ensures
        forall|j: int|
            0 <= j < occurrences_from(m, cur, limit, strict).len() ==> (#[trigger] occurrences_from(
                m,
                cur,
                limit,
                strict,
            )[j]).date.wf(),
    decreases months_left(Some(cur), limit),
{
    lemma_next_month_later(cur);
    if not_ended(m, cur) && within(cur, limit, strict) {
        let rest = match next_month(cur) {
            Some(n) => if n.key() > cur.key() {
                occurrences_from(m, n, limit, strict)
            } else {
                Seq::empty()
            },
            None => Seq::empty(),
        };
        if let Some(n) = next_month(cur) {
            lemma_occurrences_from_wf(m, n, limit, strict);
        }
        let all = seq![occurrence_on(m, cur)] + rest;
        assert forall|j: int| 0 <= j < all.len() implies (#[trigger] all[j]).date.wf() by {
            if j > 0 {
                assert(all[j] == rest[j - 1]);
            }
        }
    }
}

proof fn lemma_one_offs_wf(s: Seq<Transaction>, limit: Date, strict: bool)
    requires
        forall|j: int| 0 <= j < s.len() ==> (#[trigger] s[j]).date.wf(),
    ensures
        forall|j: int|
            0 <= j < one_offs_within(s, limit, strict).len() ==> (#[trigger] one_offs_within(
                s,
                limit,
                strict,
            )[j]).date.wf(),
    decreases s.len(),
{
    if s.len() > 0 {
        let init = s.drop_last();
        assert forall|j: int| 0 <= j < init.len() implies (#[trigger] init[j]).date.wf() by {
            assert(init[j] == s[j]);
        }
        lemma_one_offs_wf(init, limit, strict);
        assert(s.last() == s[s.len() - 1]);
        let head = one_offs_within(init, limit, strict);
        if within(s.last().date, limit, strict) {
            assert forall|j: int| 0 <= j < head.push(s.last()).len() implies (#[trigger] head.push(
                s.last(),
            )[j]).date.wf() by {
                if j < head.len() {
                    assert(head.push(s.last())[j] == head[j]);
                }
            }
        }
    }
}

proof fn lemma_all_occurrences_wf(ms: Seq<MonthlyTransaction>, limit: Date, strict: bool)
    requires
        forall|j: int| 0 <= j < ms.len() ==> (#[trigger] ms[j]).wf(),
    ensures
        forall|j: int|
            0 <= j < all_occurrences(ms, limit, strict).len() ==> (#[trigger] all_occurrences(
                ms,
                limit,
                strict,
            )[j]).date.wf(),
    decreases ms.len(),
{
    if ms.len() > 0 {
        lemma_all_occurrences_wf(ms.drop_last(), limit, strict);
        let m = ms.last();
        assert(m.wf());
        let f = first_occurrence(m);
        lemma_next_month_later(Date { year: m.start_date.year, month: m.start_date.month, day: m.day.0 });
        if let Some(f) = f {
            lemma_occurrences_from_wf(m, f, limit, strict);
        }
        let a = all_occurrences(ms.drop_last(), limit, strict);
        let b = occurrences(m, limit, strict);
        assert forall|j: int| 0 <= j < (a + b).len() implies (#[trigger] (a + b)[j]).date.wf() by {
            if j >= a.len() {
                assert((a + b)[j] == b[j - a.len()]);
            }
        }
    }
}

proof fn lemma_gathered_dates_wf(bank: PiggyBank, limit: Date, strict: bool)
    requires
        bank.wf(),
    ensures
        forall|j: int|
            0 <= j < gathered(bank, limit, strict).len() ==> (#[trigger] gathered(
                bank,
                limit,
                strict,
            )[j]).date.wf(),
{
    lemma_one_offs_wf(bank.transactions@, limit, strict);
    lemma_all_occurrences_wf(bank.monthly_transactions@, limit, strict);
    let a = one_offs_within(bank.transactions@, limit, strict);
    let b = all_occurrences(bank.monthly_transactions@, limit, strict);
    assert forall|j: int| 0 <= j < (a + b).len() implies (#[trigger] (a + b)[j]).date.wf() by {
        if j >= a.len() {
            assert((a + b)[j] == b[j - a.len()]);
        }
    }
}

/// Every one-off transaction and every monthly occurrence within `limit`, by date.
fn project(bank: &PiggyBank, limit: Date, strict: bool) -> (r: Vec<Transaction>)
    requires
        bank.wf(),
        limit.wf(),
    ensures
        r@ == projection(*bank, limit, strict),
{
    let mut all: Vec<Transaction> = Vec::new();
    let mut i: usize = 0;
    while i < bank.transactions.len()
        invariant
            bank.wf(),
            limit.wf(),
            i <= bank.transactions@.len(),
            all@ == one_offs_within(bank.transactions@.take(i as int), limit, strict),
        decreases bank.transactions@.len() - i,
    {
        proof {
            assert(bank.transactions@.take(i as int + 1).drop_last() =~= bank.transactions@.take(
                i as int,
            ));
        }
        let t = &bank.transactions[i];
        let keep = if strict {
            t.date.is_before(&limit)
        } else {
            !t.date.is_after(&limit)
        };
        if keep {
            all.push(t.duplicate());
        }
        i += 1;
    }
    assert(bank.transactions@.take(i as int) =~= bank.transactions@);
    let ghost one_offs = all@;
    let mut k: usize = 0;
    while k < bank.monthly_transactions.len()
        invariant
            bank.wf(),
            limit.wf(),
            k <= bank.monthly_transactions@.len(),
            all@ == one_offs + all_occurrences(
                bank.monthly_transactions@.take(k as int),
                limit,
                strict,
            ),
        decreases bank.monthly_transactions@.len() - k,
    {
        proof {
            assert(bank.monthly_transactions@.take(k as int + 1).drop_last()
                =~= bank.monthly_transactions@.take(k as int));
        }
        push_occurrences(&bank.monthly_transactions[k], limit, strict, &mut all);
        proof {
            let ms = bank.monthly_transactions@.take(k as int + 1);
            assert(ms.last() == bank.monthly_transactions@[k as int]);
            assert(all@ =~= one_offs + all_occurrences(ms, limit, strict));
        }
        k += 1;
    }
    assert(bank.monthly_transactions@.take(k as int) =~= bank.monthly_transactions@);
    proof {
        lemma_gathered_dates_wf(*bank, limit, strict);
        assert(all@ == gathered(*bank, limit, strict));
    }
    sort_by_date_exec(&all)
}

/// Every one-off transaction dated on or before `date` and every monthly occurrence
/// on or before it, sorted by date (entries of one date keep the order: one-offs
/// first, then the occurrences of each monthly transaction in turn).
pub fn transactions_by_date(bank: &PiggyBank, date: Date) -> (r: Vec<Transaction>)
    requires
        bank.wf(),
        date.wf(),
    ensures
        r@ == projection(*bank, date, false),
        is_sorted_by_date(r@),
{
    let r = project(bank, date, false);
    proof {
        lemma_gathered_dates_wf(*bank, date, false);
        lemma_sort_sorted(gathered(*bank, date, false));
    }
    r
}

/// Sum of the amounts of `v`.
fn sum_amounts(v: &Vec<Transaction>) -> (r: i128)
    ensures
        r == amount_total(v@),
{
    let mut total: i128 = 0;
    let mut i: usize = 0;
    while i < v.len()
        invariant
            i <= v@.len(),
            total == amount_total(v@.take(i as int)),
            -(i as int) * 0x8000_0000_0000_0000 <= total <= (i as int) * 0x8000_0000_0000_0000,
        decreases v@.len() - i,
    {
        proof {
            assert(v@.take(i as int + 1).drop_last() =~= v@.take(i as int));
        }
        total = total + v[i].amount as i128;
        i += 1;
    }
    assert(v@.take(i as int) =~= v@);
    total
}

/// The balance on `date`: the sum of every amount dated on or before it.
pub fn balance_as_of(bank: &PiggyBank, date: Date) -> (r: i128)
    requires
        bank.wf(),
        date.wf(),
    ensures
        r == amount_total(projection(*bank, date, false)),
{
    let v = project(bank, date, false);
    sum_amounts(&v)
}

/// The balance just before `date`: the sum of every amount dated strictly before it.
pub fn balance_strictly_before(bank: &PiggyBank, date: Date) -> (r: i128)
    requires
        bank.wf(),
        date.wf(),
    ensures
        r == amount_total(projection(*bank, date, true)),
{
    let v = project(bank, date, true);
    sum_amounts(&v)
}

/// Whether two monthly transactions are active on some common date: each starts
/// strictly before the other ends, where an end exists.
pub fn monthlies_conflict(t0: &MonthlyTransaction, t1: &MonthlyTransaction) -> (r: bool)
    requires
        t0.wf(),
        t1.wf(),
    ensures
        r == conflict(*t0, *t1),
{
    let start0 = t0.start_date;
    let start1 = t1.start_date;
    match (t0.end_date, t1.end_date) {
        (Some(end0), Some(end1)) => start0.is_before(&end1) && start1.is_before(&end0),
        (None, Some(end1)) => start0.is_before(&end1),
        (Some(end0), None) => start1.is_before(&end0),
        (None, None) => true,
    }
}

proof fn lemma_insert_sorted(s: Seq<Transaction>, t: Transaction)
    requires
        is_sorted_by_date(s),
    ensures
        is_sorted_by_date(insert_by_date(s, t)),
        insert_by_date(s, t).len() == s.len() + 1,
        forall|j: int|
            0 <= j < insert_by_date(s, t).len() ==> (#[trigger] insert_by_date(s, t)[j] == t
                || exists|k: int| 0 <= k < s.len() && s[k] == insert_by_date(s, t)[j]),
    decreases s.len(),
{
    if s.len() > 0 && s.last().date.key() > t.date.key() {
        let init = s.drop_last();
        assert forall|i: int, j: int| 0 <= i < j < init.len() implies init[i].date.key()
            <= init[j].date.key() by {
            assert(init[i] == s[i] && init[j] == s[j]);
        }
        lemma_insert_sorted(init, t);
        let ins = insert_by_date(init, t);
        let r = ins.push(s.last());
        assert forall|j: int| 0 <= j < ins.len() implies ins[j].date.key() <= s.last().date.key() by {
            if ins[j] != t {
                let k = choose|k: int| 0 <= k < init.len() && init[k] == ins[j];
                assert(init[k] == s[k]);
            }
        }
        assert forall|j: int| 0 <= j < r.len() implies (#[trigger] r[j] == t || exists|k: int|
            0 <= k < s.len() && s[k] == r[j]) by {
            if j == ins.len() {
                assert(s[s.len() - 1] == r[j]);
            } else {
                assert(r[j] == ins[j]);
                if ins[j] != t {
                    let k = choose|k: int| 0 <= k < init.len() && init[k] == ins[j];
                    assert(s[k] == r[j]);
                }
            }
        }
        assert forall|i: int, j: int| 0 <= i < j < r.len() implies r[i].date.key()
            <= r[j].date.key() by {
            if j < ins.len() {
                assert(r[i] == ins[i] && r[j] == ins[j]);
            } else {
                assert(r[i] == ins[i]);
            }
        }
    } else {
        let r = s.push(t);
        assert forall|j: int| 0 <= j < r.len() implies (#[trigger] r[j] == t || exists|k: int|
            0 <= k < s.len() && s[k] == r[j]) by {
            if j < s.len() {
                assert(s[j] == r[j]);
            }
        }
        assert forall|i: int, j: int| 0 <= i < j < r.len() implies r[i].date.key()
            <= r[j].date.key() by {
            if j < s.len() {
                assert(r[i] == s[i] && r[j] == s[j]);
            } else if s.len() > 0 {
                assert(r[i] == s[i]);
                assert(s.last() == s[s.len() - 1]);
            }
        }
    }
}

proof fn lemma_sort_sorted(s: Seq<Transaction>)
    ensures
        is_sorted_by_date(sort_by_date(s)),
    decreases s.len(),
{
    if s.len() > 0 {
        lemma_sort_sorted(s.drop_last());
        lemma_insert_sorted(sort_by_date(s.drop_last()), s.last());
    }
}

impl PiggyBank {
    /// Adds a one-off transaction after every one not later than it, so that
    /// one-off transactions in date order stay in date order.
    pub fn add_transaction(&mut self, t: Transaction)
        requires
            old(self).wf(),
            t.date.wf(),
        ensures
            final(self).transactions@ == insert_by_date(old(self).transactions@, t),
            final(self).monthly_transactions@ == old(self).monthly_transactions@,
            final(self).wf(),
            is_sorted_by_date(old(self).transactions@) ==> is_sorted_by_date(
                final(self).transactions@,
            ),
    {
        proof {
            lemma_insert_dates_wf(self.transactions@, t);
            if is_sorted_by_date(self.transactions@) {
                lemma_insert_sorted(self.transactions@, t);
            }
        }
        insert_by_date_exec(&mut self.transactions, t);
    }

    /// Adds a monthly transaction after the others.
    pub fn add_monthly_transaction(&mut self, m: MonthlyTransaction)
        requires
            old(self).wf(),
            m.wf(),
        ensures
            final(self).transactions@ == old(self).transactions@,
            final(self).monthly_transactions@ == old(self).monthly_transactions@.push(m),
            final(self).wf(),
    {
        self.monthly_transactions.push(m);
        proof {
            assert forall|i: int| 0 <= i < self.monthly_transactions@.len() implies (
            #[trigger] self.monthly_transactions@[i]).wf() by {
                if i < old(self).monthly_transactions@.len() {
                    assert(self.monthly_transactions@[i] == old(self).monthly_transactions@[i]);
                }
            }
        }
    }
}

} // verus!
