use ledger_entry::date::Date;
use ledger_entry::decimal::{Decimal, MAX_MANTISSA};
use ledger_entry::parser::{parse_command, parse_transaction_header, Operation};
use ledger_entry::text::Order;
use ledger_entry::transaction::{Amount, Transaction};

fn dec(num: i64, scale: u32) -> Decimal {
    Decimal::new(num, scale)
}

fn amounts(tx: &Transaction, account: &str) -> Vec<Amount> {
    tx.amounts_of(account).unwrap().clone()
}

#[test]
fn tx_creation() {
    let tx = Transaction::new(Date::from_ymd(2020, 01, 10), "Test transaction".to_owned());
    assert_eq!(tx.date, Date::from_ymd(2020, 01, 10));
    assert_eq!(tx.description, "Test transaction".to_owned());
    assert_eq!(tx.changes.len(), 0);
}

#[test]
fn simple_changes() {
    let mut tx = Transaction::new(Date::from_ymd(2020, 01, 10), "Test transaction".to_owned());
    tx.add_change(&"Expenses::Food", Amount("€".to_owned(), dec(595, 2)));
    tx.add_change(&"Expenses::Hygiene", Amount("€".to_owned(), dec(390, 2)));
    tx.add_change(&"Expenses::Hygiene", Amount("CZK".to_owned(), dec(25, 0)));
    tx.add_change(&"Expenses::Hygiene", Amount("CZK".to_owned(), dec(13, 0)));
    tx.add_change(&"Expenses::Food", Amount("€".to_owned(), dec(2, 0)));
    tx.add_change(&"Expenses::Food", Amount("CZK".to_owned(), dec(120, 0)));
    assert_eq!(
        amounts(&tx, "Expenses::Food"),
        vec![
            Amount("CZK".to_owned(), dec(120, 0)),
            Amount("€".to_owned(), dec(795, 2))
        ]
    );
    assert_eq!(
        amounts(&tx, "Expenses::Hygiene"),
        vec![
            Amount("CZK".to_owned(), dec(38, 0)),
            Amount("€".to_owned(), dec(390, 2))
        ]
    );
    assert_eq!(
        tx.balance(),
        vec![
            Amount("CZK".to_owned(), dec(158, 0)),
            Amount("€".to_owned(), dec(1185, 2))
        ]
    );
}

#[test]
fn split_changes() {
    let mut tx = Transaction::new(Date::from_ymd(2020, 01, 10), "Test transaction".to_owned());
    tx.add_split_change(
        "Expenses::Food",
        "Debts::Peter",
        Amount("€".to_owned(), dec(7, 0)),
    );
    tx.add_split_change(
        "Expenses::Food",
        "Debts::Peter",
        Amount("CZK".to_owned(), dec(120, 0)),
    );
    tx.add_change("Expenses::Food", Amount("€".to_owned(), dec(2, 0)));
    assert_eq!(
        amounts(&tx, "Expenses::Food"),
        vec![
            Amount("CZK".to_owned(), dec(60, 0)),
            Amount("€".to_owned(), dec(550, 2))
        ]
    );
    assert_eq!(
        amounts(&tx, "Debts::Peter"),
        vec![
            Amount("CZK".to_owned(), dec(60, 0)),
            Amount("€".to_owned(), dec(350, 2))
        ]
    );
    assert_eq!(
        tx.balance(),
        vec![
            Amount("CZK".to_owned(), dec(120, 0)),
            Amount("€".to_owned(), dec(9, 0))
        ]
    )
}

#[test]
fn finalization() {
    let mut tx = Transaction::new(Date::from_ymd(2020, 01, 10), "Test transaction".to_owned());
    tx.add_change("Expenses::Food", Amount("€".to_owned(), dec(7, 0)));
    tx.add_change("Expenses::Food", Amount("CZK".to_owned(), dec(500, 0)));
    tx.add_change("Assets::Cash", Amount("€".to_owned(), dec(-2, 0)));
    tx.add_change("Assets::Cash", Amount("CZK".to_owned(), dec(-400, 0)));
    tx.finalize("Assets::Account");
    assert_eq!(
        amounts(&tx, "Assets::Account"),
        vec![
            Amount("CZK".to_owned(), dec(-100, 0)),
            Amount("€".to_owned(), dec(-5, 0))
        ]
    );
    assert_eq!(
        tx.balance(),
        vec![
            Amount("CZK".to_owned(), dec(0, 0)),
            Amount("€".to_owned(), dec(0, 0))
        ]
    );
}

#[test]
fn render_lists_credits_before_debits() {
    let mut tx = Transaction::new(Date::from_ymd(2020, 1, 10), "Groceries".to_owned());
    tx.add_change("Expenses:Food", Amount("€".to_owned(), dec(595, 2)));
    tx.add_change("Expenses:Food", Amount("CZK".to_owned(), dec(120, 0)));
    tx.finalize("Assets:Cash");
    assert_eq!(
        tx.render(),
        "2020-01-10 Groceries\n\tExpenses:Food\tCZK 120\n\tExpenses:Food\t€ 5.95\n\tAssets:Cash\tCZK -120\n\tAssets:Cash\t€ -5.95\n"
    );
}

#[test]
fn groceries_scenario() {
    let mut tx = parse_transaction_header("2020-01-10 Groceries").unwrap();
    for line in ["a Expenses:Food € 5.95", "a Expenses:Food CZK 120", "f Assets:Cash"] {
        parse_command(line).unwrap().add_to_transation(&mut tx);
    }
    assert_eq!(
        amounts(&tx, "Expenses:Food"),
        vec![
            Amount("CZK".to_owned(), dec(120, 0)),
            Amount("€".to_owned(), dec(595, 2))
        ]
    );
    assert_eq!(
        amounts(&tx, "Assets:Cash"),
        vec![
            Amount("CZK".to_owned(), dec(-120, 0)),
            Amount("€".to_owned(), dec(-595, 2))
        ]
    );
    assert_eq!(
        tx.balance(),
        vec![
            Amount("CZK".to_owned(), dec(0, 0)),
            Amount("€".to_owned(), dec(0, 0))
        ]
    );
    let accounts: Vec<&str> = tx.changes.iter().map(|c| c.account.as_str()).collect();
    assert_eq!(accounts, vec!["Assets:Cash", "Expenses:Food"]);
}

#[test]
fn changes_in_any_order_give_the_same_amounts() {
    let changes = [
        ("Expenses:Food", "€", dec(595, 2)),
        ("Expenses:Hygiene", "€", dec(390, 2)),
        ("Expenses:Hygiene", "CZK", dec(25, 0)),
        ("Expenses:Hygiene", "CZK", dec(13, 0)),
        ("Expenses:Food", "€", dec(2, 0)),
        ("Expenses:Food", "CZK", dec(120, 0)),
        ("Assets:Cash", "€", dec(-1, 3)),
    ];
    let build = |order: &[usize]| {
        let mut tx = Transaction::new(Date::from_ymd(2020, 1, 10), "T".to_owned());
        for &i in order {
            let (account, commodity, quantity) = changes[i];
            tx.add_change(account, Amount(commodity.to_owned(), quantity));
        }
        tx
    };
    let first = build(&[0, 1, 2, 3, 4, 5, 6]);
    for order in [[6, 5, 4, 3, 2, 1, 0], [3, 0, 6, 2, 5, 1, 4], [1, 2, 3, 4, 5, 6, 0]] {
        assert_eq!(build(&order), first);
    }
    assert_eq!(
        amounts(&first, "Expenses:Food"),
        vec![
            Amount("CZK".to_owned(), dec(120, 0)),
            Amount("€".to_owned(), dec(795, 2))
        ]
    );
    assert_eq!(
        amounts(&first, "Expenses:Hygiene"),
        vec![
            Amount("CZK".to_owned(), dec(38, 0)),
            Amount("€".to_owned(), dec(390, 2))
        ]
    );
    assert_eq!(
        amounts(&first, "Assets:Cash"),
        vec![Amount("€".to_owned(), dec(-1, 3))]
    );
    assert!(first.amounts_of("Expenses").is_none());
}

#[test]
fn a_split_taken_back_leaves_nothing() {
    for (num, scale) in [(7, 0), (120, 0), (12050, 2), (-1, 0), (1, 28), (0, 3)] {
        let amount = Amount("€".to_owned(), dec(num, scale));
        let half = amount.1.halved().unwrap();
        let mut tx = Transaction::new(Date::from_ymd(2020, 1, 10), "T".to_owned());
        tx.add_split_change("Expenses:Food", "Debts:Peter", amount.clone());
        tx.add_change("Expenses:Food", Amount("€".to_owned(), half.neg()));
        tx.add_change("Debts:Peter", Amount("€".to_owned(), half.neg()));
        assert_eq!(amounts(&tx, "Expenses:Food"), vec![Amount("€".to_owned(), dec(0, 0))]);
        assert_eq!(amounts(&tx, "Debts:Peter"), vec![Amount("€".to_owned(), dec(0, 0))]);
        assert_eq!(tx.balance(), vec![Amount("€".to_owned(), dec(0, 0))]);

        let mut same = Transaction::new(Date::from_ymd(2020, 1, 10), "T".to_owned());
        same.add_split_change("Shared", "Shared", amount);
        same.add_change("Shared", Amount("€".to_owned(), half.neg()));
        same.add_change("Shared", Amount("€".to_owned(), half.neg()));
        assert_eq!(amounts(&same, "Shared"), vec![Amount("€".to_owned(), dec(0, 0))]);
    }
}

#[test]
fn finalize_zeroes_every_commodity() {
    let mut tx = Transaction::new(Date::from_ymd(2020, 1, 10), "T".to_owned());
    tx.add_change("A", Amount("€".to_owned(), dec(795, 2)));
    tx.add_change("B", Amount("CZK".to_owned(), dec(-38, 0)));
    tx.add_change("C", Amount("USD".to_owned(), dec(1, 28)));
    tx.add_change("C", Amount("€".to_owned(), dec(5, 3)));
    tx.add_split_change("A", "B", Amount("CHF".to_owned(), dec(3, 0)));
    tx.finalize("B");
    assert_eq!(
        tx.balance(),
        vec![
            Amount("CHF".to_owned(), dec(0, 0)),
            Amount("CZK".to_owned(), dec(0, 0)),
            Amount("USD".to_owned(), dec(0, 0)),
            Amount("€".to_owned(), dec(0, 0))
        ]
    );
    assert_eq!(
        amounts(&tx, "B"),
        vec![
            Amount("CHF".to_owned(), dec(-15, 1)),
            Amount("CZK".to_owned(), dec(0, 0)),
            Amount("USD".to_owned(), dec(-1, 28)),
            Amount("€".to_owned(), dec(-7955, 3))
        ]
    );
    // finalizing what is balanced adds zeros only
    let before = tx.duplicate();
    tx.finalize("A");
    assert_eq!(amounts(&tx, "B"), amounts(&before, "B"));
    assert_eq!(amounts(&tx, "C"), amounts(&before, "C"));
    let empty = {
        let mut tx = Transaction::new(Date::from_ymd(2020, 1, 10), "T".to_owned());
        tx.finalize("A");
        tx
    };
    assert_eq!(empty.changes.len(), 0);
    assert_eq!(empty.balance(), Vec::new());
}

#[test]
fn sums_that_would_round_are_refused() {
    let max = Decimal { mantissa: MAX_MANTISSA, scale: 0 };
    let mut tx = Transaction::new(Date::from_ymd(2020, 1, 10), "T".to_owned());
    assert!(tx.try_add_change("A", Amount("€".to_owned(), max)));
    assert!(tx.try_add_change("B", Amount("€".to_owned(), dec(1, 0))));
    let before = tx.duplicate();
    assert!(!tx.try_add_change("A", Amount("€".to_owned(), dec(1, 0))));
    assert_eq!(tx, before);
    assert!(!tx.try_add_change("A", Amount("€".to_owned(), dec(-1, 1))));
    assert_eq!(tx, before);
    assert!(!tx.try_add_split_change("B", "A", Amount("€".to_owned(), dec(2, 0))));
    assert_eq!(tx, before);
    assert!(!tx.try_add_split_change("A", "B", Amount("€".to_owned(), dec(2, 0))));
    assert_eq!(tx, before);
    assert_eq!(tx.try_balance(), None);
    assert!(!tx.try_finalize("C"));
    assert_eq!(tx, before);
    assert!(tx.try_add_change("A", Amount("€".to_owned(), dec(-1, 0))));
    assert_eq!(
        tx.try_balance(),
        Some(vec![Amount("€".to_owned(), max)])
    );
    assert!(tx.try_add_change("A", Amount("CZK".to_owned(), max)));
    assert!(tx.try_add_split_change("C", "D", Amount("€".to_owned(), dec(1, 0))));
    assert!(tx.try_finalize("C") == false);
    let back = Decimal { mantissa: -(MAX_MANTISSA - 1), scale: 0 };
    assert!(tx.try_add_change("A", Amount("€".to_owned(), back)));
    assert!(tx.try_finalize("C"));
    assert_eq!(
        amounts(&tx, "C"),
        vec![
            Amount("CZK".to_owned(), max.neg()),
            Amount("€".to_owned(), dec(-15, 1))
        ]
    );
    assert_eq!(
        tx.balance(),
        vec![
            Amount("CZK".to_owned(), dec(0, 0)),
            Amount("€".to_owned(), dec(0, 0))
        ]
    );
}

#[test]
fn operations_apply_as_their_methods() {
    let mut by_operation = Transaction::new(Date::from_ymd(2020, 1, 10), "T".to_owned());
    let mut by_method = by_operation.duplicate();
    Operation::AddSimpleChange("A", Amount("€".to_owned(), dec(7, 0)))
        .add_to_transation(&mut by_operation);
    by_method.add_change("A", Amount("€".to_owned(), dec(7, 0)));
    assert_eq!(by_operation, by_method);
    assert!(Operation::AddSplitChange("A", "B", Amount("€".to_owned(), dec(3, 0)))
        .try_add_to_transation(&mut by_operation));
    by_method.add_split_change("A", "B", Amount("€".to_owned(), dec(3, 0)));
    assert_eq!(by_operation, by_method);
    let op = Operation::Finalize("C");
    assert_eq!(op.duplicate(), op);
    assert!(op.try_add_to_transation(&mut by_operation));
    by_method.finalize("C");
    assert_eq!(by_operation, by_method);
    assert_eq!(amounts(&by_method, "C"), vec![Amount("€".to_owned(), dec(-10, 0))]);
}

#[test]
fn render_of_a_new_transaction_is_its_header() {
    let tx = Transaction::new(Date::from_ymd(2020, 1, 10), "Nothing yet".to_owned());
    assert_eq!(tx.render(), "2020-01-10 Nothing yet\n");
    let bare = Transaction::new(Date::from_ymd(2020, 1, 10), String::new());
    assert_eq!(bare.render(), "2020-01-10 \n");
}

#[test]
fn render_sorts_each_group_by_account() {
    let mut tx = Transaction::new(Date::from_ymd(2020, 12, 31), "Mixed".to_owned());
    tx.add_change("Expenses:Food", Amount("€".to_owned(), dec(550, 2)));
    tx.add_change("Assets:Cash", Amount("€".to_owned(), dec(-300, 2)));
    tx.add_change("Debts:Peter", Amount("CZK".to_owned(), dec(60, 0)));
    tx.add_change("Assets:Cash", Amount("CZK".to_owned(), dec(0, 0)));
    tx.add_change("Debts:Peter", Amount("€".to_owned(), dec(-250, 2)));
    tx.add_change("Assets:Bank", Amount("CZK".to_owned(), dec(-60, 0)));
    assert_eq!(
        tx.render(),
        "2020-12-31 Mixed\n\
         \tAssets:Cash\tCZK 0\n\
         \tDebts:Peter\tCZK 60\n\
         \tExpenses:Food\t€ 5.50\n\
         \tAssets:Bank\tCZK -60\n\
         \tAssets:Cash\t€ -3.00\n\
         \tDebts:Peter\t€ -2.50\n"
    );
}

#[test]
fn amounts_are_ordered_by_commodity_then_quantity() {
    use_amount_order("CZK", dec(5, 0), "€", dec(1, 0), Order::Before);
    use_amount_order("€", dec(1, 0), "CZK", dec(5, 0), Order::After);
    use_amount_order("€", dec(1, 0), "€", dec(5, 0), Order::Before);
    use_amount_order("€", dec(50, 1), "€", dec(5, 0), Order::Same);
    use_amount_order("€", dec(51, 1), "€", dec(5, 0), Order::After);
}

fn use_amount_order(c1: &str, q1: Decimal, c2: &str, q2: Decimal, expected: Order) {
    let a = Amount(c1.to_owned(), q1);
    let b = Amount(c2.to_owned(), q2);
    assert_eq!(a.compare(&b), expected);
    assert_eq!(a == b, expected == Order::Same);
}

#[test]
fn well_formed_transactions() {
    let mut tx = Transaction::new(Date::from_ymd(2020, 1, 10), "T".to_owned());
    assert!(tx.is_well_formed());
    tx.add_change("B", Amount("€".to_owned(), dec(1, 0)));
    tx.add_change("A", Amount("€".to_owned(), dec(1, 0)));
    tx.add_change("A", Amount("CZK".to_owned(), dec(1, 0)));
    tx.finalize("C");
    assert!(tx.is_well_formed());
    let mut swapped = tx.duplicate();
    swapped.changes.swap(0, 1);
    assert!(!swapped.is_well_formed());
    let mut twice = tx.duplicate();
    let copy = twice.changes[0].duplicate();
    twice.changes.insert(0, copy);
    assert!(!twice.is_well_formed());
    let mut unsorted = tx.duplicate();
    unsorted.changes[0].amounts.swap(0, 1);
    assert!(!unsorted.is_well_formed());
    let mut wide = tx.duplicate();
    wide.changes[0].amounts[0].1.scale = 29;
    assert!(!wide.is_well_formed());
    let mut undated = tx.duplicate();
    undated.date.day = 31;
    assert!(undated.is_well_formed());
    undated.date.month = 2;
    assert!(!undated.is_well_formed());
}
