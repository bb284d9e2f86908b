//! Transactions: per-account changes in several commodities, their
//! balance, and the posting that settles them.

use crate::book::{
    balance_from, balance_of, book_lines, book_wf, entries_in, entry_lines, entry_order,
    finalized, half_of, held, holds, lemma_accounts_ordered_by_neighbours, lemma_balance_from,
    lemma_merged, lemma_merged_skips, lemma_ordered_by_neighbours, lemma_precedes_connected_or,
    lemma_settled, lemma_with_change, lemma_with_change_skips, merged, merged_all, offset,
    ordered, posting_line, quantities_wf, rendered, settled, share, total, with_change,
    with_split, Bucket, Entry, TransactionView,
};
use crate::date::Date;
use crate::decimal::Decimal;
use crate::text::{compare, lemma_precedes_irreflexive, precedes, Order};
use vstd::prelude::*;

verus! {

/// A quantity of one commodity: the commodity's symbol and a decimal
/// number.
#[derive(Clone, Debug, PartialEq, Eq)]
pub struct Amount(pub String, pub Decimal);

impl View for Amount {
    type V = Entry;

    open spec fn view(&self) -> Entry {
        Entry { commodity: self.0@, quantity: self.1 }
    }
}

/// The amounts of a vector as mathematical values.
pub open spec fn entries_of(amounts: Seq<Amount>) -> Seq<Entry> {
    amounts.map_values(|a: Amount| a@)
}

impl Amount {
    /// Compares two amounts: by commodity, and within a commodity by
    /// quantity.
    pub fn compare(&self, other: &Amount) -> (r: Order)
        requires
            self.1.wf(),
            other.1.wf(),
        ensures
            r == entry_order(self@, other@),
    {
        match compare(self.0.as_str(), other.0.as_str()) {
            Order::Same => self.1.compare(&other.1),
            order => order,
        }
    }

    /// A copy of the amount.
    pub fn duplicate(&self) -> (r: Amount)
        ensures
            r@ == self@,
    {
        Amount(self.0.clone(), self.1)
    }
}

/// Merges an amount into amounts that are in the order of their
/// commodities. Returns `false`, and changes nothing, where the addition
/// would have to round.
pub fn merge_amount(amounts: &mut Vec<Amount>, amount: Amount) -> (done: bool)
    requires
        quantities_wf(entries_of(old(amounts)@)),
        amount.1.wf(),
    ensures
        done == merged(entries_of(old(amounts)@), amount@) is Some,
        done ==> Some(entries_of(final(amounts)@)) == merged(entries_of(old(amounts)@), amount@),
        !done ==> final(amounts)@ == old(amounts)@,
{
    let ghost es = entries_of(amounts@);
    let ghost e = amount@;
    let mut i: usize = 0;
    while i < amounts.len()
        invariant
            i <= amounts.len(),
            amounts@ == old(amounts)@,
            es == entries_of(amounts@),
            e == amount@,
            amount.1.wf(),
            quantities_wf(es),
            forall|j: int| 0 <= j < i ==> precedes(#[trigger] es[j].commodity, e.commodity),
        decreases amounts.len() - i,
    {
        proof {
            lemma_merged_skips(es, e, i as int);
            assert(es.skip(i as int)[0] == es[i as int]);
            assert(es[i as int] == amounts@[i as int]@);
            assert(es[i as int].quantity.wf());
        }
        match compare(amounts[i].0.as_str(), amount.0.as_str()) {
            Order::Same => {
                match amounts[i].1.checked_sum(&amount.1) {
                    Some(sum) => {
                        amounts.set(i, Amount(amount.0, sum));
                        proof {
                            let tail = es.skip(i as int);
                            let r = merged(tail, e)->0;
                            assert(entries_of(amounts@) =~= es.take(i as int) + r);
                        }
                        return true;
                    },
                    None => {
                        return false;
                    },
                }
            },
            Order::After => {
                proof {
                    lemma_precedes_connected_or(e.commodity, es[i as int].commodity);
                }
                amounts.insert(i, amount);
                proof {
                    assert(entries_of(amounts@) =~= es.take(i as int) + (seq![e] + es.skip(i as int)));
                }
                return true;
            },
            Order::Before => {
                i = i + 1;
            },
        }
    }
    proof {
        lemma_merged_skips(es, e, i as int);
        assert(es.skip(i as int) =~= Seq::<Entry>::empty());
    }
    amounts.push(amount);
    proof {
        assert(entries_of(amounts@) =~= es.take(i as int) + seq![e]);
    }
    true
}

/// The changes of one account: its name and one amount for each
/// commodity that it holds.
#[derive(Clone, Debug, PartialEq, Eq)]
pub struct AccountChanges {
    pub account: String,
    pub amounts: Vec<Amount>,
}

impl View for AccountChanges {
    type V = Bucket;

    open spec fn view(&self) -> Bucket {
        Bucket { account: self.account@, entries: entries_of(self.amounts@) }
    }
}

/// The accounts of a vector as mathematical values.
pub open spec fn buckets_of(changes: Seq<AccountChanges>) -> Seq<Bucket> {
    changes.map_values(|c: AccountChanges| c@)
}

impl AccountChanges {
    /// Whether the quantities are well formed and the commodities in
    /// order.
    pub fn is_well_formed(&self) -> (b: bool)
        ensures
            b == (quantities_wf(self@.entries) && ordered(self@.entries)),
    {
        let ghost es = self@.entries;
        proof {
            lemma_ordered_by_neighbours(es);
        }
        let mut i: usize = 0;
        while i < self.amounts.len()
            invariant
                i <= self.amounts.len(),
                es == self@.entries,
                forall|j: int| 0 <= j < i ==> (#[trigger] es[j]).quantity.wf(),
                forall|j: int|
                    0 <= j < i - 1 ==> precedes(#[trigger] es[j].commodity, es[j + 1].commodity),
            decreases self.amounts.len() - i,
        {
            assert(es[i as int] == self.amounts@[i as int]@);
            if !self.amounts[i].1.is_well_formed() {
                return false;
            }
            if i > 0 {
                assert(es[i - 1] == self.amounts@[i - 1]@);
                match compare(self.amounts[i - 1].0.as_str(), self.amounts[i].0.as_str()) {
                    Order::Before => {},
                    _ => {
                        proof {
                            lemma_ordered_by_neighbours(es);
                            if es[i - 1].commodity == es[i as int].commodity {
                                lemma_precedes_irreflexive(es[i - 1].commodity);
                            }
                            assert(!precedes(es[i - 1].commodity, es[i - 1 + 1].commodity));
                        }
                        return false;
                    },
                }
            }
            i = i + 1;
        }
        true
    }

    /// A copy of the account's changes.
    pub fn duplicate(&self) -> (r: AccountChanges)
        ensures
            r@ == self@,
    {
        let mut amounts: Vec<Amount> = Vec::new();
        let mut i: usize = 0;
        while i < self.amounts.len()
            invariant
                i <= self.amounts.len(),
                amounts@.len() == i,
                forall|k: int| 0 <= k < i ==> (#[trigger] amounts@[k])@ == self.amounts@[k]@,
            decreases self.amounts.len() - i,
        {
            amounts.push(self.amounts[i].duplicate());
            i = i + 1;
        }
        assert(entries_of(amounts@) =~= entries_of(self.amounts@));
        AccountChanges { account: self.account.clone(), amounts }
    }
}

/// A dated, described set of changes to accounts.
#[derive(Clone, Debug, PartialEq)]
pub struct Transaction {
    pub date: Date,
    pub description: String,
    pub changes: Vec<AccountChanges>,
}

impl View for Transaction {
    type V = TransactionView;

    open spec fn view(&self) -> TransactionView {
        TransactionView {
            date: self.date,
            description: self.description@,
            book: buckets_of(self.changes@),
        }
    }
}

impl Transaction {
    /// The date exists and the changes keep their invariant.
    pub open spec fn wf(&self) -> bool {
        self.date.valid() && book_wf(self@.book)
    }

    /// A transaction without changes.
    pub fn new(date: Date, description: String) -> (tx: Transaction)
        requires
            date.valid(),
        ensures
            tx.wf(),
            tx.date == date,
            tx.description == description,
            tx@.book == Seq::<Bucket>::empty(),
    {
        let tx = Transaction { date, description, changes: Vec::new() };
        assert(tx@.book =~= Seq::<Bucket>::empty());
        tx
    }

    /// Whether the date exists and the changes keep their invariant.
    pub fn is_well_formed(&self) -> (b: bool)
        ensures
            b == self.wf(),
    {
        let ghost book = self@.book;
        proof {
            lemma_accounts_ordered_by_neighbours(book);
        }
        if Date::from_ymd_opt(self.date.year, self.date.month, self.date.day).is_none() {
            return false;
        }
        let mut i: usize = 0;
        while i < self.changes.len()
            invariant
                i <= self.changes.len(),
                book == self@.book,
                self.date.valid(),
                forall|j: int|
                    0 <= j < i ==> quantities_wf((#[trigger] book[j]).entries) && ordered(
                        book[j].entries,
                    ),
                forall|j: int|
                    0 <= j < i - 1 ==> precedes(#[trigger] book[j].account, book[j + 1].account),
            decreases self.changes.len() - i,
        {
            assert(book[i as int] == self.changes@[i as int]@);
            if !self.changes[i].is_well_formed() {
                return false;
            }
            if i > 0 {
                assert(book[i - 1] == self.changes@[i - 1]@);
                match compare(self.changes[i - 1].account.as_str(), self.changes[i].account.as_str()) {
                    Order::Before => {},
                    _ => {
                        proof {
                            lemma_accounts_ordered_by_neighbours(book);
                            if book[i - 1].account == book[i as int].account {
                                lemma_precedes_irreflexive(book[i - 1].account);
                            }
                            assert(!precedes(book[i - 1].account, book[i - 1 + 1].account));
                        }
                        return false;
                    },
                }
            }
            i = i + 1;
        }
        true
    }

    /// A copy of the transaction.
    pub fn duplicate(&self) -> (r: Transaction)
        ensures
            r@ == self@,
            r.date == self.date,
            r.description == self.description,
    {
        let mut changes: Vec<AccountChanges> = Vec::new();
        let mut i: usize = 0;
        while i < self.changes.len()
            invariant
                i <= self.changes.len(),
                changes@.len() == i,
                forall|k: int| 0 <= k < i ==> (#[trigger] changes@[k])@ == self.changes@[k]@,
            decreases self.changes.len() - i,
        {
            changes.push(self.changes[i].duplicate());
            i = i + 1;
        }
        assert(buckets_of(changes@) =~= buckets_of(self.changes@));
        Transaction { date: self.date, description: self.description.clone(), changes }
    }

    /// The amounts of an account, if it has any.
    pub fn amounts_of(&self, account: &str) -> (r: Option<&Vec<Amount>>)
        ensures
            match r {
                Some(v) => Some(entries_of(v@)) == entries_in(self@.book, account@),
                None => entries_in(self@.book, account@) is None,
            },
    {
        let ghost book = self@.book;
        let mut i: usize = 0;
        assert(book.skip(0) =~= book);
        while i < self.changes.len()
            invariant
                i <= self.changes.len(),
                book == self@.book,
                entries_in(book, account@) == entries_in(book.skip(i as int), account@),
            decreases self.changes.len() - i,
        {
            assert(book.skip(i as int)[0] == book[i as int]);
            assert(book.skip(i as int).skip(1) =~= book.skip(i + 1));
            assert(book[i as int] == self.changes@[i as int]@);
            match compare(self.changes[i].account.as_str(), account) {
                Order::Same => {
                    return Some(&self.changes[i].amounts);
                },
                _ => {},
            }
            i = i + 1;
        }
        None
    }

    /// Adds an amount to an account where that needs no rounding. Returns
    /// `false`, and changes nothing, where it does.
    pub fn try_add_change(&mut self, account: &str, amount: Amount) -> (done: bool)
        requires
            old(self).wf(),
            amount.1.wf(),
        ensures
            done == with_change(old(self)@.book, account@, amount@) is Some,
            done ==> Some(final(self)@.book) == with_change(old(self)@.book, account@, amount@),
            !done ==> final(self)@ == old(self)@,
            final(self).wf(),
            final(self).date == old(self).date,
            final(self).description == old(self).description,
    {
        let ghost book = self@.book;
        let ghost e = amount@;
        proof {
            if with_change(book, account@, e) is Some {
                lemma_with_change(book, account@, e, account@, e.commodity);
            }
        }
        let mut i: usize = 0;
        while i < self.changes.len()
            invariant
                i <= self.changes.len(),
                *self == *old(self),
                self.wf(),
                book == self@.book,
                e == amount@,
                amount.1.wf(),
                with_change(book, account@, e) is Some ==> book_wf(
                    with_change(book, account@, e)->0,
                ),
                forall|j: int| 0 <= j < i ==> precedes(#[trigger] book[j].account, account@),
            decreases self.changes.len() - i,
        {
            proof {
                lemma_with_change_skips(book, account@, e, i as int);
                assert(book.skip(i as int)[0] == book[i as int]);
                assert(book[i as int] == self.changes@[i as int]@);
            }
            match compare(self.changes[i].account.as_str(), account) {
                Order::Same => {
                    let mut bucket = self.changes.remove(i);
                    let ghost without = self.changes@;
                    let done = merge_amount(&mut bucket.amounts, amount);
                    self.changes.insert(i, bucket);
                    proof {
                        if done {
                            let entries = merged(book[i as int].entries, e)->0;
                            assert(buckets_of(self.changes@) =~= book.take(i as int) + (seq![
                                Bucket { account: account@, entries },
                            ] + book.skip(i as int).skip(1)));
                        } else {
                            assert(buckets_of(self.changes@) =~= book);
                        }
                    }
                    return done;
                },
                Order::After => {
                    proof {
                        lemma_precedes_connected_or(account@, book[i as int].account);
                    }
                    let mut amounts: Vec<Amount> = Vec::new();
                    amounts.push(amount);
                    let bucket = AccountChanges { account: account.to_owned(), amounts };
                    assert(bucket@.entries =~= seq![e]);
                    self.changes.insert(i, bucket);
                    proof {
                        assert(buckets_of(self.changes@) =~= book.take(i as int) + (seq![
                            Bucket { account: account@, entries: seq![e] },
                        ] + book.skip(i as int)));
                    }
                    return true;
                },
                Order::Before => {
                    i = i + 1;
                },
            }
        }
        proof {
            lemma_with_change_skips(book, account@, e, i as int);
            assert(book.skip(i as int) =~= Seq::<Bucket>::empty());
        }
        let mut amounts: Vec<Amount> = Vec::new();
        amounts.push(amount);
        let bucket = AccountChanges { account: account.to_owned(), amounts };
        assert(bucket@.entries =~= seq![e]);
        self.changes.push(bucket);
        proof {
            assert(buckets_of(self.changes@) =~= book.take(i as int) + seq![
                Bucket { account: account@, entries: seq![e] },
            ]);
        }
        true
    }

    /// Adds an amount to an account: to the account's amount of the same
    /// commodity where it has one, else as a new amount at its place in
    /// the order.
    pub fn add_change(&mut self, account: &str, amount: Amount)
        requires
            old(self).wf(),
            amount.1.wf(),
            with_change(old(self)@.book, account@, amount@) is Some,
        ensures
            Some(final(self)@.book) == with_change(old(self)@.book, account@, amount@),
            final(self).wf(),
            final(self).date == old(self).date,
            final(self).description == old(self).description,
            forall|other: Seq<char>, commodity: Seq<char>|
                holds(final(self)@.book, other, commodity) == #[trigger] holds(
                    old(self)@.book,
                    other,
                    commodity,
                ) + (if other == account@ {
                    share(amount@, commodity)
                } else {
                    0
                }),
    {
        proof {
            assert forall|other: Seq<char>, commodity: Seq<char>|
                holds(with_change(self@.book, account@, amount@)->0, other, commodity)
                    == #[trigger] holds(self@.book, other, commodity) + (if other == account@ {
                    share(amount@, commodity)
                } else {
                    0
                }) by {
                lemma_with_change(self@.book, account@, amount@, other, commodity);
            }
        }
        let done = self.try_add_change(account, amount);
        assert(done);
    }

    /// Gives each of two accounts half of an amount where that needs no
    /// rounding of a sum and the division gives a half. Returns `false`,
    /// and changes nothing, where it does not.
    pub fn try_add_split_change(
        &mut self,
        account: &str,
        split_account: &str,
        amount: Amount,
    ) -> (done: bool)
        requires
            old(self).wf(),
            amount.1.wf(),
        ensures
            done == with_split(old(self)@.book, account@, split_account@, amount@) is Some,
            done ==> Some(final(self)@.book) == with_split(
                old(self)@.book,
                account@,
                split_account@,
                amount@,
            ),
            !done ==> final(self)@ == old(self)@,
            final(self).wf(),
            final(self).date == old(self).date,
            final(self).description == old(self).description,
    {
        let half = match amount.1.halved() {
            Some(half) => half,
            None => {
                return false;
            },
        };
        let mut work = self.duplicate();
        let first = Amount(amount.0.clone(), half);
        let second = Amount(amount.0.clone(), half);
        assert(Some(first@) == half_of(amount@));
        if !work.try_add_change(account, first) {
            return false;
        }
        if !work.try_add_change(split_account, second) {
            return false;
        }
        self.add_split_change(account, split_account, amount);
        true
    }

    /// Gives each of two accounts half of an amount.
    pub fn add_split_change(&mut self, account: &str, split_account: &str, amount: Amount)
        requires
            old(self).wf(),
            amount.1.wf(),
            with_split(old(self)@.book, account@, split_account@, amount@) is Some,
        ensures
            Some(final(self)@.book) == with_split(
                old(self)@.book,
                account@,
                split_account@,
                amount@,
            ),
            final(self).wf(),
            final(self).date == old(self).date,
            final(self).description == old(self).description,
    {
        match amount.1.halved() {
            Some(half) => {
                let first = Amount(amount.0.clone(), half);
                let second = Amount(amount.0, half);
                assert(Some(first@) == half_of(amount@));
                self.add_change(account, first);
                self.add_change(split_account, second);
            },
            None => {},
        }
    }

    /// The balance where every addition is exact, `None` where one would
    /// have to round.
    pub fn try_balance(&self) -> (r: Option<Vec<Amount>>)
        requires
            self.wf(),
        ensures
            match r {
                Some(v) => Some(entries_of(v@)) == balance_of(self@.book),
                None => balance_of(self@.book) is None,
            },
            r matches Some(v) ==> {
                &&& ordered(entries_of(v@))
                &&& quantities_wf(entries_of(v@))
                &&& forall|commodity: Seq<char>| #[trigger]
                    held(entries_of(v@), commodity) == total(self@.book, commodity)
            },
    {
        let ghost book = self@.book;
        let mut acc: Vec<Amount> = Vec::new();
        assert(entries_of(acc@) =~= Seq::<Entry>::empty());
        assert(book.skip(0) =~= book);
        let mut i: usize = 0;
        while i < self.changes.len()
            invariant
                i <= self.changes.len(),
                self.wf(),
                book == self@.book,
                quantities_wf(entries_of(acc@)),
                balance_of(book) == balance_from(entries_of(acc@), book.skip(i as int)),
            decreases self.changes.len() - i,
        {
            let ghost start = entries_of(acc@);
            let ghost entries = book[i as int].entries;
            assert(book[i as int] == self.changes@[i as int]@);
            assert(book.skip(i as int)[0] == book[i as int]);
            assert(book.skip(i as int).skip(1) =~= book.skip(i + 1));
            assert(quantities_wf(entries));
            let amounts = &self.changes[i].amounts;
            let mut j: usize = 0;
            assert(entries.skip(0) =~= entries);
            while j < amounts.len()
                invariant
                    j <= amounts.len(),
                    book == self@.book,
                    entries == entries_of(amounts@),
                    quantities_wf(entries),
                    quantities_wf(entries_of(acc@)),
                    merged_all(start, entries) == merged_all(
                        entries_of(acc@),
                        entries.skip(j as int),
                    ),
                    balance_of(book) == balance_from(start, book.skip(i as int)),
                    book.skip(i as int).len() > 0,
                    book.skip(i as int)[0].entries == entries,
                decreases amounts.len() - j,
            {
                let ghost before = entries_of(acc@);
                assert(entries.skip(j as int)[0] == entries[j as int]);
                assert(entries.skip(j as int).skip(1) =~= entries.skip(j + 1));
                assert(entries[j as int] == amounts@[j as int]@);
                assert(entries[j as int].quantity.wf());
                let done = merge_amount(&mut acc, amounts[j].duplicate());
                if !done {
                    assert(merged_all(before, entries.skip(j as int)) is None);
                    assert(balance_from(start, book.skip(i as int)) is None);
                    return None;
                }
                proof {
                    lemma_merged(before, entries[j as int], Seq::<char>::empty());
                }
                j = j + 1;
            }
            assert(entries.skip(j as int) =~= Seq::<Entry>::empty());
            i = i + 1;
        }
        proof {
            assert(book.skip(i as int) =~= Seq::<Bucket>::empty());
            assert forall|commodity: Seq<char>| #[trigger]
                held(entries_of(acc@), commodity) == total(book, commodity) by {
                lemma_balance_from(Seq::<Entry>::empty(), book, commodity);
            }
            lemma_balance_from(Seq::<Entry>::empty(), book, Seq::<char>::empty());
        }
        Some(acc)
    }

    /// The balance: for each commodity that occurs, the sum of its amounts
    /// over all accounts, in the order of commodities.
    pub fn balance(&self) -> (v: Vec<Amount>)
        requires
            self.wf(),
            balance_of(self@.book) is Some,
        ensures
            Some(entries_of(v@)) == balance_of(self@.book),
            ordered(entries_of(v@)),
            quantities_wf(entries_of(v@)),
            forall|commodity: Seq<char>| #[trigger]
                held(entries_of(v@), commodity) == total(self@.book, commodity),
    {
        match self.try_balance() {
            Some(v) => v,
            None => Vec::new(),
        }
    }

    /// Gives the account the offset of the balance where every addition
    /// is exact. Returns `false`, and changes nothing, where one would
    /// have to round.
    pub fn try_finalize(&mut self, account: &str) -> (done: bool)
        requires
            old(self).wf(),
        ensures
            done == finalized(old(self)@.book, account@) is Some,
            done ==> Some(final(self)@.book) == finalized(old(self)@.book, account@),
            done ==> forall|commodity: Seq<char>| #[trigger]
                total(final(self)@.book, commodity) == 0,
            !done ==> final(self)@ == old(self)@,
            final(self).wf(),
            final(self).date == old(self).date,
            final(self).description == old(self).description,
    {
        let ghost book = self@.book;
        let balance = match self.try_balance() {
            Some(v) => v,
            None => {
                return false;
            },
        };
        let ghost entries = entries_of(balance@);
        let mut work = self.duplicate();
        let mut i: usize = 0;
        assert(entries.skip(0) =~= entries);
        while i < balance.len()
            invariant
                i <= balance.len(),
                *self == *old(self),
                self.wf(),
                book == self@.book,
                work.wf(),
                work.date == self.date,
                work.description == self.description,
                entries == entries_of(balance@),
                quantities_wf(entries),
                balance_of(book) == Some(entries),
                settled(book, account@, entries) == settled(
                    work@.book,
                    account@,
                    entries.skip(i as int),
                ),
            decreases balance.len() - i,
        {
            assert(entries.skip(i as int)[0] == entries[i as int]);
            assert(entries.skip(i as int).skip(1) =~= entries.skip(i + 1));
            assert(entries[i as int] == balance@[i as int]@);
            assert(entries[i as int].quantity.wf());
            let amount = Amount(balance[i].0.clone(), balance[i].1.neg());
            assert(amount@ == offset(entries[i as int]));
            let done = work.try_add_change(account, amount);
            if !done {
                return false;
            }
            i = i + 1;
        }
        proof {
            assert(entries.skip(i as int) =~= Seq::<Entry>::empty());
            assert forall|commodity: Seq<char>| #[trigger]
                total(work@.book, commodity) == 0 by {
                lemma_settled(book, account@, entries, account@, commodity);
            }
        }
        *self = work;
        true
    }

    /// Gives the account, for every commodity of the balance, the amount
    /// that cancels it. Afterwards all accounts together hold nothing of
    /// any commodity.
    pub fn finalize(&mut self, account: &str)
        requires
            old(self).wf(),
            finalized(old(self)@.book, account@) is Some,
        ensures
            Some(final(self)@.book) == finalized(old(self)@.book, account@),
            forall|commodity: Seq<char>| #[trigger] total(final(self)@.book, commodity) == 0,
            final(self).wf(),
            final(self).date == old(self).date,
            final(self).description == old(self).description,
    {
        let done = self.try_finalize(account);
        assert(done);
    }

    /// Appends the lines of the credits, or of the debits, to a text.
    fn append_lines(&self, out: &mut String, credits: bool)
        requires
            self.wf(),
        ensures
            final(out)@ == old(out)@ + book_lines(self@.book, credits),
    {
        let ghost book = self@.book;
        let ghost start = out@;
        let mut i: usize = 0;
        assert(book.skip(0) =~= book);
        assert(start + Seq::<char>::empty() =~= start);
        while i < self.changes.len()
            invariant
                i <= self.changes.len(),
                self.wf(),
                book == self@.book,
                out@ + book_lines(book.skip(i as int), credits) == start + book_lines(
                    book,
                    credits,
                ),
            decreases self.changes.len() - i,
        {
            let bucket = &self.changes[i];
            let ghost entries = book[i as int].entries;
            let ghost account = book[i as int].account;
            let ghost before = out@;
            assert(book.skip(i as int)[0] == book[i as int]);
            assert(book.skip(i as int).skip(1) =~= book.skip(i + 1));
            assert(book[i as int] == self.changes@[i as int]@);
            assert(quantities_wf(entries));
            assert(entries.skip(0) =~= entries);
            let mut j: usize = 0;
            while j < bucket.amounts.len()
                invariant
                    j <= bucket.amounts.len(),
                    entries == entries_of(bucket.amounts@),
                    account == bucket.account@,
                    quantities_wf(entries),
                    out@ + entry_lines(account, entries.skip(j as int), credits) == before
                        + entry_lines(account, entries, credits),
                decreases bucket.amounts.len() - j,
            {
                let amount = &bucket.amounts[j];
                let ghost e = entries[j as int];
                let ghost line_start = out@;
                assert(entries.skip(j as int)[0] == e);
                assert(entries.skip(j as int).skip(1) =~= entries.skip(j + 1));
                assert(e == bucket.amounts@[j as int]@);
                assert(e.quantity.wf());
                if !amount.1.is_negative() == credits {
                    out.push('\t');
                    out.append(bucket.account.as_str());
                    out.push('\t');
                    out.append(amount.0.as_str());
                    out.push(' ');
                    let number = amount.1.to_text();
                    out.append(number.as_str());
                    out.push('\n');
                    assert(out@ =~= line_start + posting_line(account, e));
                    assert((line_start + posting_line(account, e)) + entry_lines(
                        account,
                        entries.skip(j + 1),
                        credits,
                    ) =~= line_start + (posting_line(account, e) + entry_lines(
                        account,
                        entries.skip(j + 1),
                        credits,
                    )));
                } else {
                    assert(Seq::<char>::empty() + entry_lines(
                        account,
                        entries.skip(j + 1),
                        credits,
                    ) =~= entry_lines(account, entries.skip(j + 1), credits));
                }
                j = j + 1;
            }
            proof {
                assert(entries.skip(j as int) =~= Seq::<Entry>::empty());
                let lines = entry_lines(account, entries, credits);
                let rest = book_lines(book.skip(i + 1), credits);
                assert(out@ =~= before + lines);
                assert((before + lines) + rest =~= before + (lines + rest));
            }
            i = i + 1;
        }
        proof {
            assert(book.skip(i as int) =~= Seq::<Bucket>::empty());
            assert(out@ + Seq::<char>::empty() =~= out@);
        }
    }

    /// The text of the transaction: the date and the description on the
    /// first line, then one line for each amount that is not below zero,
    /// then one for each that is, each group in the order of accounts and,
    /// within an account, of commodities.
    pub fn render(&self) -> (text: String)
        requires
            self.wf(),
        ensures
            text@ == rendered(self@),
    {
        let mut out = self.date.to_text();
        out.push(' ');
        out.append(self.description.as_str());
        out.push('\n');
        self.append_lines(&mut out, true);
        self.append_lines(&mut out, false);
        out
    }
}

} // verus!
