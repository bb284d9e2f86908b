//! The changes of a transaction as mathematical values: what a change, a
//! split, a balance and a settlement are, what the changes hold, how they
//! are written, and the laws that follow.

use crate::date::{date_text, Date};
use crate::decimal::{
    decimal_quotient, decimal_text, lemma_exact_sum_value, lemma_mul_neg, pow10, two, Decimal,
    MAX_SCALE,
};
use crate::text::{
    lemma_precedes_asymmetric, lemma_precedes_connected, lemma_precedes_transitive, order_of,
    precedes, Order,
};
use vstd::prelude::*;

verus! {

/// An amount as a mathematical value.
pub struct Entry {
    pub commodity: Seq<char>,
    pub quantity: Decimal,
}

/// The changes of one account as a mathematical value.
pub struct Bucket {
    pub account: Seq<char>,
    pub entries: Seq<Entry>,
}

/// One change: an amount for an account.
pub struct Change {
    pub account: Seq<char>,
    pub entry: Entry,
}

/// A transaction as a mathematical value.
pub struct TransactionView {
    pub date: Date,
    pub description: Seq<char>,
    pub book: Seq<Bucket>,
}

/// Every quantity is a well-formed decimal.
pub open spec fn quantities_wf(es: Seq<Entry>) -> bool {
    forall|i: int| 0 <= i < es.len() ==> (#[trigger] es[i]).quantity.wf()
}

/// Each entry's commodity comes before that of the next entry.
pub open spec fn ordered(es: Seq<Entry>) -> bool
    decreases es.len(),
{
    es.len() <= 1 || (precedes(es[0].commodity, es[1].commodity) && ordered(es.skip(1)))
}

/// `front` put before a result, if there is one.
pub open spec fn after<A>(front: Seq<A>, rest: Option<Seq<A>>) -> Option<Seq<A>> {
    match rest {
        Some(r) => Some(front + r),
        None => None,
    }
}

/// The entries with one more amount merged in: added to the entry of its
/// commodity where there is one, else put at its place in the order of
/// commodities. `None` where the addition would have to round.
pub open spec fn merged(es: Seq<Entry>, e: Entry) -> Option<Seq<Entry>>
    decreases es.len(),
{
    if es.len() == 0 {
        Some(seq![e])
    } else if es[0].commodity == e.commodity {
        if es[0].quantity.sum_is_exact(e.quantity) {
            Some(
                seq![
                    Entry {
                        commodity: e.commodity,
                        quantity: es[0].quantity.exact_sum(e.quantity),
                    },
                ] + es.skip(1),
            )
        } else {
            None
        }
    } else if precedes(e.commodity, es[0].commodity) {
        Some(seq![e] + es)
    } else {
        after(seq![es[0]], merged(es.skip(1), e))
    }
}

/// The entries `acc` with all of `es` merged in, one after the other.
pub open spec fn merged_all(acc: Seq<Entry>, es: Seq<Entry>) -> Option<Seq<Entry>>
    decreases es.len(),
{
    if es.len() == 0 {
        Some(acc)
    } else {
        match merged(acc, es[0]) {
            Some(next) => merged_all(next, es.skip(1)),
            None => None,
        }
    }
}

/// What an entry adds to the holdings of a commodity.
pub open spec fn share(e: Entry, commodity: Seq<char>) -> int {
    if e.commodity == commodity {
        e.quantity.value()
    } else {
        0
    }
}

/// What the entries hold of a commodity, in units of `10^-28`.
pub open spec fn held(es: Seq<Entry>, commodity: Seq<char>) -> int
    decreases es.len(),
{
    if es.len() == 0 {
        0
    } else {
        (if es[0].commodity == commodity {
            es[0].quantity.value()
        } else {
            0
        }) + held(es.skip(1), commodity)
    }
}

/// The order of amounts: by commodity, and within a commodity by
/// quantity.
pub open spec fn entry_order(a: Entry, b: Entry) -> Order {
    if a.commodity != b.commodity {
        order_of(a.commodity, b.commodity)
    } else {
        a.quantity.order_to(b.quantity)
    }
}

/// Each bucket's account comes before that of the next bucket.
pub open spec fn accounts_ordered(book: Seq<Bucket>) -> bool
    decreases book.len(),
{
    book.len() <= 1 || (precedes(book[0].account, book[1].account) && accounts_ordered(
        book.skip(1),
    ))
}

/// In every bucket the quantities are well formed and the commodities in
/// order.
pub open spec fn buckets_wf(book: Seq<Bucket>) -> bool {
    forall|i: int|
        0 <= i < book.len() ==> quantities_wf((#[trigger] book[i]).entries) && ordered(
            book[i].entries,
        )
}

/// The invariant of a transaction's changes: accounts in order, and in
/// each account the commodities in order, so that nothing occurs twice.
pub open spec fn book_wf(book: Seq<Bucket>) -> bool {
    accounts_ordered(book) && buckets_wf(book)
}

/// The entries of an account, if it has any.
pub open spec fn entries_in(book: Seq<Bucket>, account: Seq<char>) -> Option<Seq<Entry>>
    decreases book.len(),
{
    if book.len() == 0 {
        None
    } else if book[0].account == account {
        Some(book[0].entries)
    } else {
        entries_in(book.skip(1), account)
    }
}

/// The changes with one more amount for an account: merged into the
/// account's bucket where there is one, else put in a bucket of its own at
/// the account's place in the order. `None` where an addition would have
/// to round.
pub open spec fn with_change(book: Seq<Bucket>, account: Seq<char>, e: Entry) -> Option<
    Seq<Bucket>,
>
    decreases book.len(),
{
    if book.len() == 0 {
        Some(seq![Bucket { account, entries: seq![e] }])
    } else if book[0].account == account {
        match merged(book[0].entries, e) {
            Some(entries) => Some(seq![Bucket { account, entries }] + book.skip(1)),
            None => None,
        }
    } else if precedes(account, book[0].account) {
        Some(seq![Bucket { account, entries: seq![e] }] + book)
    } else {
        after(seq![book[0]], with_change(book.skip(1), account, e))
    }
}

/// The changes of a list applied one after the other. `None` where an
/// addition would have to round.
pub open spec fn with_changes(book: Seq<Bucket>, changes: Seq<Change>) -> Option<Seq<Bucket>>
    decreases changes.len(),
{
    if changes.len() == 0 {
        Some(book)
    } else {
        match with_changes(book, changes.drop_last()) {
            Some(before) => with_change(before, changes.last().account, changes.last().entry),
            None => None,
        }
    }
}

/// One half of an amount, as the division by two gives it.
pub open spec fn half_of(e: Entry) -> Option<Entry> {
    match decimal_quotient(e.quantity, two()) {
        Some(half) => Some(Entry { commodity: e.commodity, quantity: half }),
        None => None,
    }
}

/// The changes after each of two accounts has taken half of an amount.
pub open spec fn with_split(
    book: Seq<Bucket>,
    account: Seq<char>,
    split_account: Seq<char>,
    e: Entry,
) -> Option<Seq<Bucket>> {
    match half_of(e) {
        Some(half) => match with_change(book, account, half) {
            Some(next) => with_change(next, split_account, half),
            None => None,
        },
        None => None,
    }
}

/// The entries `acc` with the entries of all buckets merged in, bucket by
/// bucket.
pub open spec fn balance_from(acc: Seq<Entry>, book: Seq<Bucket>) -> Option<Seq<Entry>>
    decreases book.len(),
{
    if book.len() == 0 {
        Some(acc)
    } else {
        match merged_all(acc, book[0].entries) {
            Some(next) => balance_from(next, book.skip(1)),
            None => None,
        }
    }
}

/// The balance of the changes: for each commodity that occurs, the sum of
/// its amounts over all accounts, in the order of commodities. `None`
/// where an addition would have to round.
pub open spec fn balance_of(book: Seq<Bucket>) -> Option<Seq<Entry>> {
    balance_from(Seq::<Entry>::empty(), book)
}

/// The amount that cancels `e`.
pub open spec fn offset(e: Entry) -> Entry {
    Entry { commodity: e.commodity, quantity: e.quantity.negated() }
}

/// The changes after the account has taken the offset of every entry of
/// `balance`, one after the other.
pub open spec fn settled(book: Seq<Bucket>, account: Seq<char>, balance: Seq<Entry>) -> Option<
    Seq<Bucket>,
>
    decreases balance.len(),
{
    if balance.len() == 0 {
        Some(book)
    } else {
        match with_change(book, account, offset(balance[0])) {
            Some(next) => settled(next, account, balance.skip(1)),
            None => None,
        }
    }
}

/// The changes after the account has taken the offset of the balance.
pub open spec fn finalized(book: Seq<Bucket>, account: Seq<char>) -> Option<Seq<Bucket>> {
    match balance_of(book) {
        Some(balance) => settled(book, account, balance),
        None => None,
    }
}

/// The changes after a split, followed by the offset of the half for
/// each of the two accounts.
pub open spec fn split_and_back(
    book: Seq<Bucket>,
    account: Seq<char>,
    split_account: Seq<char>,
    e: Entry,
) -> Option<Seq<Bucket>> {
    match (half_of(e), with_split(book, account, split_account, e)) {
        (Some(half), Some(split)) => match with_change(split, account, offset(half)) {
            Some(next) => with_change(next, split_account, offset(half)),
            None => None,
        },
        _ => None,
    }
}

/// What an account holds of a commodity, in units of `10^-28`.
pub open spec fn holds(book: Seq<Bucket>, account: Seq<char>, commodity: Seq<char>) -> int
    decreases book.len(),
{
    if book.len() == 0 {
        0
    } else {
        (if book[0].account == account {
            held(book[0].entries, commodity)
        } else {
            0
        }) + holds(book.skip(1), account, commodity)
    }
}

/// What all accounts together hold of a commodity, in units of `10^-28`.
pub open spec fn total(book: Seq<Bucket>, commodity: Seq<char>) -> int
    decreases book.len(),
{
    if book.len() == 0 {
        0
    } else {
        held(book[0].entries, commodity) + total(book.skip(1), commodity)
    }
}

/// What a change adds to what an account holds of a commodity.
pub open spec fn part(change: Change, account: Seq<char>, commodity: Seq<char>) -> int {
    if change.account == account {
        share(change.entry, commodity)
    } else {
        0
    }
}

/// The sum of the amounts that the changes of a list give to an account
/// in a commodity.
pub open spec fn change_sum(changes: Seq<Change>, account: Seq<char>, commodity: Seq<char>) -> int
    decreases changes.len(),
{
    if changes.len() == 0 {
        0
    } else {
        change_sum(changes.drop_last(), account, commodity) + part(
            changes.last(),
            account,
            commodity,
        )
    }
}

/// Every change carries a well-formed decimal.
pub open spec fn changes_wf(changes: Seq<Change>) -> bool {
    forall|i: int| 0 <= i < changes.len() ==> (#[trigger] changes[i]).entry.quantity.wf()
}

/// Whether an entry is listed among the credits: its quantity is not
/// below zero.
pub open spec fn is_credit(e: Entry) -> bool {
    e.quantity.mantissa >= 0
}

/// The line of one posting: a tab, the account, a tab, the commodity, a
/// space, the quantity, and the end of the line.
pub open spec fn posting_line(account: Seq<char>, e: Entry) -> Seq<char> {
    seq!['\t'] + account + seq!['\t'] + e.commodity + seq![' '] + decimal_text(e.quantity)
        + seq!['\n']
}

/// The lines of an account's credits, or of its debits, in the order of
/// its entries.
pub open spec fn entry_lines(account: Seq<char>, es: Seq<Entry>, credits: bool) -> Seq<char>
    decreases es.len(),
{
    if es.len() == 0 {
        Seq::<char>::empty()
    } else {
        (if is_credit(es[0]) == credits {
            posting_line(account, es[0])
        } else {
            Seq::<char>::empty()
        }) + entry_lines(account, es.skip(1), credits)
    }
}

/// The lines of all credits, or of all debits, account by account.
pub open spec fn book_lines(book: Seq<Bucket>, credits: bool) -> Seq<char>
    decreases book.len(),
{
    if book.len() == 0 {
        Seq::<char>::empty()
    } else {
        entry_lines(book[0].account, book[0].entries, credits) + book_lines(book.skip(1), credits)
    }
}

/// The text of a transaction: the date, a space and the description on
/// the first line, then the lines of the credits, then those of the
/// debits.
pub open spec fn rendered(tx: TransactionView) -> Seq<char> {
    date_text(tx.date) + seq![' '] + tx.description + seq!['\n'] + book_lines(tx.book, true)
        + book_lines(tx.book, false)
}

/// Of two different texts, the one that does not come after comes before.
pub proof fn lemma_precedes_connected_or(a: Seq<char>, b: Seq<char>)
    requires
        a != b,
        !precedes(b, a),
    ensures
        precedes(a, b),
{
    if !precedes(a, b) {
        lemma_precedes_connected(a, b);
    }
}

/// The commodities are in order when each comes before its neighbour.
pub proof fn lemma_ordered_by_neighbours(es: Seq<Entry>)
    ensures
        ordered(es) <==> forall|i: int|
            0 <= i < es.len() - 1 ==> precedes(#[trigger] es[i].commodity, es[i + 1].commodity),
    decreases es.len(),
{
    if es.len() > 1 {
        let tail = es.skip(1);
        lemma_ordered_by_neighbours(tail);
        if ordered(es) {
            assert forall|i: int| 0 <= i < es.len() - 1 implies precedes(
                #[trigger] es[i].commodity,
                es[i + 1].commodity,
            ) by {
                if i > 0 {
                    assert(precedes(tail[i - 1].commodity, tail[i - 1 + 1].commodity));
                }
            }
        }
        if forall|i: int|
            0 <= i < es.len() - 1 ==> precedes(#[trigger] es[i].commodity, es[i + 1].commodity) {
            assert(precedes(es[0].commodity, es[0int + 1].commodity));
            assert forall|i: int| 0 <= i < tail.len() - 1 implies precedes(
                #[trigger] tail[i].commodity,
                tail[i + 1].commodity,
            ) by {
                assert(precedes(es[i + 1].commodity, es[i + 1 + 1].commodity));
            }
        }
    }
}

/// The accounts are in order when each comes before its neighbour.
pub proof fn lemma_accounts_ordered_by_neighbours(book: Seq<Bucket>)
    ensures
        accounts_ordered(book) <==> forall|i: int|
            0 <= i < book.len() - 1 ==> precedes(#[trigger] book[i].account, book[i + 1].account),
    decreases book.len(),
{
    if book.len() > 1 {
        let tail = book.skip(1);
        lemma_accounts_ordered_by_neighbours(tail);
        if accounts_ordered(book) {
            assert forall|i: int| 0 <= i < book.len() - 1 implies precedes(
                #[trigger] book[i].account,
                book[i + 1].account,
            ) by {
                if i > 0 {
                    assert(precedes(tail[i - 1].account, tail[i - 1 + 1].account));
                }
            }
        }
        if forall|i: int|
            0 <= i < book.len() - 1 ==> precedes(#[trigger] book[i].account, book[i + 1].account) {
            assert(precedes(book[0].account, book[0int + 1].account));
            assert forall|i: int| 0 <= i < tail.len() - 1 implies precedes(
                #[trigger] tail[i].account,
                tail[i + 1].account,
            ) by {
                assert(precedes(book[i + 1].account, book[i + 1 + 1].account));
            }
        }
    }
}

/// In entries that are in order, an earlier entry's commodity comes
/// before a later one's: no commodity occurs twice.
pub proof fn lemma_ordered_is_unique(es: Seq<Entry>, i: int, j: int)
    requires
        ordered(es),
        0 <= i < j < es.len(),
    ensures
        precedes(es[i].commodity, es[j].commodity),
        es[i].commodity != es[j].commodity,
    decreases j - i,
{
    lemma_ordered_by_neighbours(es);
    if j > i + 1 {
        lemma_ordered_is_unique(es, i, j - 1);
        assert(precedes(es[j - 1].commodity, es[j - 1 + 1].commodity));
        lemma_precedes_transitive(es[i].commodity, es[j - 1].commodity, es[j].commodity);
    }
    lemma_precedes_asymmetric(es[i].commodity, es[j].commodity);
}

/// In changes that are in order, an earlier bucket's account comes before
/// a later one's: no account occurs twice.
pub proof fn lemma_accounts_are_unique(book: Seq<Bucket>, i: int, j: int)
    requires
        accounts_ordered(book),
        0 <= i < j < book.len(),
    ensures
        precedes(book[i].account, book[j].account),
        book[i].account != book[j].account,
    decreases j - i,
{
    lemma_accounts_ordered_by_neighbours(book);
    if j > i + 1 {
        lemma_accounts_are_unique(book, i, j - 1);
        assert(precedes(book[j - 1].account, book[j - 1 + 1].account));
        lemma_precedes_transitive(book[i].account, book[j - 1].account, book[j].account);
    }
    lemma_precedes_asymmetric(book[i].account, book[j].account);
}

/// Merging passes over the entries whose commodity comes first.
pub proof fn lemma_merged_skips(es: Seq<Entry>, e: Entry, n: int)
    requires
        0 <= n <= es.len(),
        forall|j: int| 0 <= j < n ==> precedes(#[trigger] es[j].commodity, e.commodity),
    ensures
        merged(es, e) == after(es.take(n), merged(es.skip(n), e)),
    decreases n,
{
    if n == 0 {
        assert(es.skip(0) =~= es);
        assert(es.take(0) =~= Seq::<Entry>::empty());
        match merged(es, e) {
            Some(r) => {
                assert(Seq::<Entry>::empty() + r =~= r);
            },
            None => {},
        }
    } else {
        lemma_precedes_asymmetric(es[0].commodity, e.commodity);
        let tail = es.skip(1);
        assert forall|j: int| 0 <= j < n - 1 implies precedes(
            #[trigger] tail[j].commodity,
            e.commodity,
        ) by {
            assert(tail[j] == es[j + 1]);
        }
        lemma_merged_skips(tail, e, n - 1);
        assert(tail.skip(n - 1) =~= es.skip(n));
        match merged(es.skip(n), e) {
            Some(r) => {
                assert(seq![es[0]] + (tail.take(n - 1) + r) =~= es.take(n) + r);
            },
            None => {},
        }
    }
}

/// Merging keeps quantities well formed and the commodities in order, and
/// adds the amount's value to what is held of its commodity.
pub proof fn lemma_merged(es: Seq<Entry>, e: Entry, commodity: Seq<char>)
    requires
        quantities_wf(es),
        e.quantity.wf(),
        merged(es, e) is Some,
    ensures
        quantities_wf(merged(es, e)->0),
        ordered(es) ==> ordered(merged(es, e)->0),
        merged(es, e)->0.len() > 0,
        merged(es, e)->0[0].commodity == e.commodity || (es.len() > 0 && merged(es, e)->0[0].commodity
            == es[0].commodity),
        held(merged(es, e)->0, commodity) == held(es, commodity) + share(e, commodity),
    decreases es.len(),
{
    let r = merged(es, e)->0;
    if es.len() == 0 {
        assert(r.skip(1) =~= es);
        assert(held(r, commodity) == share(r[0], commodity) + held(r.skip(1), commodity));
    } else if es[0].commodity == e.commodity {
        lemma_exact_sum_value(es[0].quantity, e.quantity);
        assert(held(r, commodity) == share(r[0], commodity) + held(r.skip(1), commodity));
        assert(r.skip(1) =~= es.skip(1));
        assert forall|i: int| 0 <= i < r.len() implies (#[trigger] r[i]).quantity.wf() by {
            if i > 0 {
                assert(r[i] == es[i]);
            }
        }
        if ordered(es) && es.len() > 1 {
            assert(r[1] == es[1]);
        }
    } else if precedes(e.commodity, es[0].commodity) {
        assert(r.skip(1) =~= es);
        assert(held(r, commodity) == share(r[0], commodity) + held(r.skip(1), commodity));
        assert forall|i: int| 0 <= i < r.len() implies (#[trigger] r[i]).quantity.wf() by {
            if i > 0 {
                assert(r[i] == es[i - 1]);
            }
        }
    } else {
        let tail = es.skip(1);
        assert forall|i: int| 0 <= i < tail.len() implies (#[trigger] tail[i]).quantity.wf() by {
            assert(tail[i] == es[i + 1]);
        }
        lemma_merged(tail, e, commodity);
        let rest = merged(tail, e)->0;
        assert(r.skip(1) =~= rest);
        assert(held(r, commodity) == share(r[0], commodity) + held(r.skip(1), commodity));
        assert forall|i: int| 0 <= i < r.len() implies (#[trigger] r[i]).quantity.wf() by {
            if i > 0 {
                assert(r[i] == rest[i - 1]);
            }
        }
        if ordered(es) {
            lemma_precedes_connected_or(es[0].commodity, e.commodity);
            assert(r[1] == rest[0]);
            if tail.len() > 0 {
                assert(tail[0] == es[1]);
            }
            assert(ordered(tail)) by {
                if es.len() <= 1 {
                }
            }
        }
    }
}

/// Merging several amounts keeps quantities well formed and commodities in
/// order, and adds what they hold of each commodity.
pub proof fn lemma_merged_all(acc: Seq<Entry>, es: Seq<Entry>, commodity: Seq<char>)
    requires
        quantities_wf(acc),
        quantities_wf(es),
        merged_all(acc, es) is Some,
    ensures
        quantities_wf(merged_all(acc, es)->0),
        ordered(acc) ==> ordered(merged_all(acc, es)->0),
        held(merged_all(acc, es)->0, commodity) == held(acc, commodity) + held(es, commodity),
    decreases es.len(),
{
    if es.len() > 0 {
        let tail = es.skip(1);
        assert(es[0].quantity.wf());
        assert forall|i: int| 0 <= i < tail.len() implies (#[trigger] tail[i]).quantity.wf() by {
            assert(tail[i] == es[i + 1]);
        }
        lemma_merged(acc, es[0], commodity);
        lemma_merged_all(merged(acc, es[0])->0, tail, commodity);
    }
}

/// A change passes over the buckets whose account comes first.
pub proof fn lemma_with_change_skips(book: Seq<Bucket>, account: Seq<char>, e: Entry, n: int)
    requires
        0 <= n <= book.len(),
        forall|j: int| 0 <= j < n ==> precedes(#[trigger] book[j].account, account),
    ensures
        with_change(book, account, e) == after(
            book.take(n),
            with_change(book.skip(n), account, e),
        ),
    decreases n,
{
    if n == 0 {
        assert(book.skip(0) =~= book);
        assert(book.take(0) =~= Seq::<Bucket>::empty());
        match with_change(book, account, e) {
            Some(r) => {
                assert(Seq::<Bucket>::empty() + r =~= r);
            },
            None => {},
        }
    } else {
        lemma_precedes_asymmetric(book[0].account, account);
        let tail = book.skip(1);
        assert forall|j: int| 0 <= j < n - 1 implies precedes(
            #[trigger] tail[j].account,
            account,
        ) by {
            assert(tail[j] == book[j + 1]);
        }
        lemma_with_change_skips(tail, account, e, n - 1);
        assert(tail.skip(n - 1) =~= book.skip(n));
        match with_change(book.skip(n), account, e) {
            Some(r) => {
                assert(seq![book[0]] + (tail.take(n - 1) + r) =~= book.take(n) + r);
            },
            None => {},
        }
    }
}

/// A change keeps the invariant, and adds the amount's value to what the
/// account holds of the commodity and to nothing else.
pub proof fn lemma_with_change(
    book: Seq<Bucket>,
    account: Seq<char>,
    e: Entry,
    other: Seq<char>,
    commodity: Seq<char>,
)
    requires
        buckets_wf(book),
        e.quantity.wf(),
        with_change(book, account, e) is Some,
    ensures
        buckets_wf(with_change(book, account, e)->0),
        accounts_ordered(book) ==> accounts_ordered(with_change(book, account, e)->0),
        with_change(book, account, e)->0.len() > 0,
        with_change(book, account, e)->0[0].account == account || (book.len() > 0 && with_change(
            book,
            account,
            e,
        )->0[0].account == book[0].account),
        holds(with_change(book, account, e)->0, other, commodity) == holds(book, other, commodity)
            + (if other == account {
            share(e, commodity)
        } else {
            0
        }),
        total(with_change(book, account, e)->0, commodity) == total(book, commodity) + share(
            e,
            commodity,
        ),
    decreases book.len(),
{
    let r = with_change(book, account, e)->0;
    let lone = seq![e];
    assert(held(lone, commodity) == share(e, commodity)) by {
        assert(lone.skip(1) =~= Seq::<Entry>::empty());
        assert(held(lone, commodity) == share(lone[0], commodity) + held(lone.skip(1), commodity));
        assert(held(lone.skip(1), commodity) == 0);
    }
    assert(ordered(lone) && quantities_wf(lone));
    assert(holds(r, other, commodity) == (if r[0].account == other {
        held(r[0].entries, commodity)
    } else {
        0
    }) + holds(r.skip(1), other, commodity));
    assert(total(r, commodity) == held(r[0].entries, commodity) + total(r.skip(1), commodity));
    if book.len() == 0 {
        assert(r.skip(1) =~= book);
    } else if book[0].account == account {
        lemma_merged(book[0].entries, e, commodity);
        assert(r.skip(1) =~= book.skip(1));
        assert forall|i: int| 0 <= i < r.len() implies quantities_wf((#[trigger] r[i]).entries)
            && ordered(r[i].entries) by {
            if i > 0 {
                assert(r[i] == book[i]);
            }
        }
        if accounts_ordered(book) && book.len() > 1 {
            assert(r[1] == book[1]);
        }
    } else if precedes(account, book[0].account) {
        assert(r.skip(1) =~= book);
        assert forall|i: int| 0 <= i < r.len() implies quantities_wf((#[trigger] r[i]).entries)
            && ordered(r[i].entries) by {
            if i > 0 {
                assert(r[i] == book[i - 1]);
            }
        }
    } else {
        let tail = book.skip(1);
        assert forall|i: int| 0 <= i < tail.len() implies quantities_wf(
            (#[trigger] tail[i]).entries,
        ) && ordered(tail[i].entries) by {
            assert(tail[i] == book[i + 1]);
        }
        lemma_with_change(tail, account, e, other, commodity);
        let rest = with_change(tail, account, e)->0;
        assert(r.skip(1) =~= rest);
        assert forall|i: int| 0 <= i < r.len() implies quantities_wf((#[trigger] r[i]).entries)
            && ordered(r[i].entries) by {
            if i > 0 {
                assert(r[i] == rest[i - 1]);
            }
        }
        if accounts_ordered(book) {
            lemma_precedes_connected_or(book[0].account, account);
            assert(r[1] == rest[0]);
            if tail.len() > 0 {
                assert(tail[0] == book[1]);
            }
        }
    }
}

/// The balance holds of each commodity what all accounts hold of it.
pub proof fn lemma_balance_from(acc: Seq<Entry>, book: Seq<Bucket>, commodity: Seq<char>)
    requires
        quantities_wf(acc),
        buckets_wf(book),
        balance_from(acc, book) is Some,
    ensures
        quantities_wf(balance_from(acc, book)->0),
        ordered(acc) ==> ordered(balance_from(acc, book)->0),
        held(balance_from(acc, book)->0, commodity) == held(acc, commodity) + total(
            book,
            commodity,
        ),
    decreases book.len(),
{
    if book.len() > 0 {
        let tail = book.skip(1);
        assert(quantities_wf(book[0].entries));
        assert forall|i: int| 0 <= i < tail.len() implies quantities_wf(
            (#[trigger] tail[i]).entries,
        ) && ordered(tail[i].entries) by {
            assert(tail[i] == book[i + 1]);
        }
        lemma_merged_all(acc, book[0].entries, commodity);
        lemma_balance_from(merged_all(acc, book[0].entries)->0, tail, commodity);
    }
}

/// Settling keeps the invariant and takes from the account, and from the
/// total, what the settled entries hold.
pub proof fn lemma_settled(
    book: Seq<Bucket>,
    account: Seq<char>,
    balance: Seq<Entry>,
    other: Seq<char>,
    commodity: Seq<char>,
)
    requires
        buckets_wf(book),
        quantities_wf(balance),
        settled(book, account, balance) is Some,
    ensures
        buckets_wf(settled(book, account, balance)->0),
        accounts_ordered(book) ==> accounts_ordered(settled(book, account, balance)->0),
        total(settled(book, account, balance)->0, commodity) == total(book, commodity) - held(
            balance,
            commodity,
        ),
        holds(settled(book, account, balance)->0, other, commodity) == holds(
            book,
            other,
            commodity,
        ) - (if other == account {
            held(balance, commodity)
        } else {
            0
        }),
    decreases balance.len(),
{
    if balance.len() > 0 {
        let tail = balance.skip(1);
        let first = offset(balance[0]);
        assert(balance[0].quantity.wf());
        assert forall|i: int| 0 <= i < tail.len() implies (#[trigger] tail[i]).quantity.wf() by {
            assert(tail[i] == balance[i + 1]);
        }
        lemma_mul_neg(
            balance[0].quantity.mantissa as int,
            pow10((MAX_SCALE - balance[0].quantity.scale) as nat),
        );
        lemma_with_change(book, account, first, other, commodity);
        lemma_settled(with_change(book, account, first)->0, account, tail, other, commodity);
    }
}

/// Entries hold nothing of a commodity that none of them has.
pub proof fn lemma_held_of_absent(es: Seq<Entry>, commodity: Seq<char>)
    requires
        forall|k: int| 0 <= k < es.len() ==> (#[trigger] es[k]).commodity != commodity,
    ensures
        held(es, commodity) == 0,
    decreases es.len(),
{
    if es.len() > 0 {
        let tail = es.skip(1);
        assert(es[0].commodity != commodity);
        assert forall|k: int| 0 <= k < tail.len() implies (#[trigger] tail[k]).commodity
            != commodity by {
            assert(tail[k] == es[k + 1]);
        }
        lemma_held_of_absent(tail, commodity);
    }
}

/// Entries that are in order hold of a commodity what their one entry of
/// it says.
pub proof fn lemma_held_is_the_entry(es: Seq<Entry>, i: int)
    requires
        ordered(es),
        0 <= i < es.len(),
    ensures
        held(es, es[i].commodity) == es[i].quantity.value(),
    decreases es.len(),
{
    let commodity = es[i].commodity;
    let tail = es.skip(1);
    if i == 0 {
        assert forall|k: int| 0 <= k < tail.len() implies (#[trigger] tail[k]).commodity
            != commodity by {
            assert(tail[k] == es[k + 1]);
            lemma_ordered_is_unique(es, 0, k + 1);
        }
        lemma_held_of_absent(tail, commodity);
    } else {
        lemma_ordered_is_unique(es, 0, i);
        assert(tail[i - 1] == es[i]);
        lemma_held_is_the_entry(tail, i - 1);
    }
}

/// Changes hold nothing for an account that has no bucket.
pub proof fn lemma_holds_of_absent(book: Seq<Bucket>, account: Seq<char>, commodity: Seq<char>)
    requires
        forall|k: int| 0 <= k < book.len() ==> (#[trigger] book[k]).account != account,
    ensures
        holds(book, account, commodity) == 0,
    decreases book.len(),
{
    if book.len() > 0 {
        let tail = book.skip(1);
        assert(book[0].account != account);
        assert forall|k: int| 0 <= k < tail.len() implies (#[trigger] tail[k]).account
            != account by {
            assert(tail[k] == book[k + 1]);
        }
        lemma_holds_of_absent(tail, account, commodity);
    }
}

/// In changes that keep their invariant, what an account holds of a
/// commodity is what the account's one entry of that commodity says.
pub proof fn lemma_holds_is_the_entry(book: Seq<Bucket>, i: int, j: int)
    requires
        book_wf(book),
        0 <= i < book.len(),
        0 <= j < book[i].entries.len(),
    ensures
        holds(book, book[i].account, book[i].entries[j].commodity)
            == book[i].entries[j].quantity.value(),
    decreases book.len(),
{
    let account = book[i].account;
    let commodity = book[i].entries[j].commodity;
    let tail = book.skip(1);
    if i == 0 {
        assert forall|k: int| 0 <= k < tail.len() implies (#[trigger] tail[k]).account
            != account by {
            assert(tail[k] == book[k + 1]);
            lemma_accounts_are_unique(book, 0, k + 1);
        }
        lemma_holds_of_absent(tail, account, commodity);
        lemma_held_is_the_entry(book[0].entries, j);
    } else {
        lemma_accounts_are_unique(book, 0, i);
        assert(tail[i - 1] == book[i]);
        assert forall|k: int| 0 <= k < tail.len() implies quantities_wf(
            (#[trigger] tail[k]).entries,
        ) && ordered(tail[k].entries) by {
            assert(tail[k] == book[k + 1]);
        }
        lemma_holds_is_the_entry(tail, i - 1, j);
    }
}

/// After any list of changes, each account holds of each commodity what
/// it held before and the sum of the amounts that the changes gave it;
/// on a new transaction, that sum alone. The invariant of the changes is
/// kept.
pub proof fn lemma_changes_sum_up(
    book: Seq<Bucket>,
    changes: Seq<Change>,
    account: Seq<char>,
    commodity: Seq<char>,
)
    requires
        buckets_wf(book),
        changes_wf(changes),
        with_changes(book, changes) is Some,
    ensures
        buckets_wf(with_changes(book, changes)->0),
        accounts_ordered(book) ==> accounts_ordered(with_changes(book, changes)->0),
        holds(with_changes(book, changes)->0, account, commodity) == holds(
            book,
            account,
            commodity,
        ) + change_sum(changes, account, commodity),
        book.len() == 0 ==> holds(with_changes(book, changes)->0, account, commodity)
            == change_sum(changes, account, commodity),
    decreases changes.len(),
{
    if changes.len() > 0 {
        let rest = changes.drop_last();
        assert forall|i: int| 0 <= i < rest.len() implies (#[trigger] rest[i]).entry.quantity.wf() by {
            assert(rest[i] == changes[i]);
        }
        lemma_changes_sum_up(book, rest, account, commodity);
        lemma_with_change(
            with_changes(book, rest)->0,
            changes.last().account,
            changes.last().entry,
            account,
            commodity,
        );
    }
}

/// After any list of changes to a new transaction, every amount that an
/// account holds is the sum of the amounts that the changes gave to that
/// account in that commodity.
pub proof fn lemma_buckets_are_sums(changes: Seq<Change>, i: int, j: int)
    requires
        changes_wf(changes),
        with_changes(Seq::<Bucket>::empty(), changes) matches Some(book) && 0 <= i < book.len()
            && 0 <= j < book[i].entries.len(),
    ensures
        ({
            let book = with_changes(Seq::<Bucket>::empty(), changes)->0;
            book[i].entries[j].quantity.value() == change_sum(
                changes,
                book[i].account,
                book[i].entries[j].commodity,
            )
        }),
{
    let book = with_changes(Seq::<Bucket>::empty(), changes)->0;
    lemma_changes_sum_up(
        Seq::<Bucket>::empty(),
        changes,
        book[i].account,
        book[i].entries[j].commodity,
    );
    lemma_holds_is_the_entry(book, i, j);
}

/// Taking one change out of a list takes its part out of the sum.
proof fn lemma_change_sum_remove(
    changes: Seq<Change>,
    k: int,
    account: Seq<char>,
    commodity: Seq<char>,
)
    requires
        0 <= k < changes.len(),
    ensures
        change_sum(changes, account, commodity) == change_sum(
            changes.remove(k),
            account,
            commodity,
        ) + part(changes[k], account, commodity),
    decreases changes.len(),
{
    if k == changes.len() - 1 {
        assert(changes.remove(k) =~= changes.drop_last());
    } else {
        lemma_change_sum_remove(changes.drop_last(), k, account, commodity);
        assert(changes.remove(k).drop_last() =~= changes.drop_last().remove(k));
        assert(changes.remove(k).last() == changes.last());
    }
}

/// The sum of the changes does not depend on their order.
pub proof fn lemma_change_sum_reordered(
    first: Seq<Change>,
    second: Seq<Change>,
    account: Seq<char>,
    commodity: Seq<char>,
)
    requires
        first.to_multiset() == second.to_multiset(),
    ensures
        change_sum(first, account, commodity) == change_sum(second, account, commodity),
    decreases first.len(),
{
    broadcast use vstd::seq_lib::group_to_multiset_ensures;

    first.to_multiset_ensures();
    second.to_multiset_ensures();
    if first.len() > 0 {
        let x = first.last();
        assert(first.contains(x)) by {
            assert(first[first.len() - 1] == x);
        }
        assert(first.to_multiset().count(x) > 0);
        assert(second.to_multiset().count(x) > 0);
        assert(second.contains(x));
        let k = choose|k: int| 0 <= k < second.len() && second[k] == x;
        assert(first.remove(first.len() - 1) =~= first.drop_last());
        assert(first.drop_last().to_multiset() =~= second.remove(k).to_multiset());
        lemma_change_sum_reordered(first.drop_last(), second.remove(k), account, commodity);
        lemma_change_sum_remove(second, k, account, commodity);
    }
}

/// The order in which changes are applied does not matter: two lists of
/// the same changes, each applied to the same transaction, leave every
/// account holding the same of every commodity.
pub proof fn lemma_order_of_changes_is_free(
    book: Seq<Bucket>,
    first: Seq<Change>,
    second: Seq<Change>,
    account: Seq<char>,
    commodity: Seq<char>,
)
    requires
        buckets_wf(book),
        changes_wf(first),
        changes_wf(second),
        first.to_multiset() == second.to_multiset(),
        with_changes(book, first) is Some,
        with_changes(book, second) is Some,
    ensures
        holds(with_changes(book, first)->0, account, commodity) == holds(
            with_changes(book, second)->0,
            account,
            commodity,
        ),
{
    lemma_changes_sum_up(book, first, account, commodity);
    lemma_changes_sum_up(book, second, account, commodity);
    lemma_change_sum_reordered(first, second, account, commodity);
}

/// A split that is taken back, by giving each of the two accounts the
/// offset of the half, leaves every account holding what it held before;
/// on a new transaction, nothing.
pub proof fn lemma_split_and_back(
    book: Seq<Bucket>,
    account: Seq<char>,
    split_account: Seq<char>,
    e: Entry,
    other: Seq<char>,
    commodity: Seq<char>,
)
    requires
        buckets_wf(book),
        half_of(e) matches Some(half) && half.quantity.wf(),
        split_and_back(book, account, split_account, e) is Some,
    ensures
        holds(split_and_back(book, account, split_account, e)->0, other, commodity) == holds(
            book,
            other,
            commodity,
        ),
        book.len() == 0 ==> holds(
            split_and_back(book, account, split_account, e)->0,
            other,
            commodity,
        ) == 0,
{
    let half = half_of(e)->0;
    let back = offset(half);
    let first = with_change(book, account, half)->0;
    let split = with_change(first, split_account, half)->0;
    let third = with_change(split, account, back)->0;
    lemma_mul_neg(half.quantity.mantissa as int, pow10((MAX_SCALE - half.quantity.scale) as nat));
    lemma_with_change(book, account, half, other, commodity);
    lemma_with_change(first, split_account, half, other, commodity);
    lemma_with_change(split, account, back, other, commodity);
    lemma_with_change(third, split_account, back, other, commodity);
}

/// Once an account has taken the offset of the balance, all accounts
/// together hold nothing of any commodity, whatever changes came before.
pub proof fn lemma_finalized_is_balanced(
    book: Seq<Bucket>,
    account: Seq<char>,
    commodity: Seq<char>,
)
    requires
        buckets_wf(book),
        finalized(book, account) is Some,
    ensures
        total(finalized(book, account)->0, commodity) == 0,
        buckets_wf(finalized(book, account)->0),
        accounts_ordered(book) ==> accounts_ordered(finalized(book, account)->0),
{
    lemma_balance_from(Seq::<Entry>::empty(), book, commodity);
    lemma_settled(book, account, balance_of(book)->0, account, commodity);
}

} // verus!
