use ledger_entry::date::Date;
use ledger_entry::decimal::Decimal;
use ledger_entry::parser::{
    expected_token, is_account_word, is_currency_word, is_letter_char, parse_command,
    parse_transaction_header, parse_words, CommandError, GrammarError, HeaderError, Operation,
    OperationType, Parser, TokenType,
};
use ledger_entry::transaction::{Amount, Transaction};

fn dec(num: i64, scale: u32) -> Decimal {
    Decimal::new(num, scale)
}

#[test]
fn parse_simple() {
    let line = vec!["a", "Expenses", "€", "12.34"];
    let mut parser = Parser::new();
    assert_eq!(parser.next, TokenType::Operation);
    assert!(parser.parse_word(line[0]).is_ok());
    assert_eq!(parser.next, TokenType::Account);
    assert!(parser.parse_word(line[1]).is_ok());
    assert_eq!(parser.next, TokenType::Currency);
    assert!(parser.parse_word(line[2]).is_ok());
    assert_eq!(parser.next, TokenType::Amount);
    assert!(parser.parse_word(line[3]).is_ok());
    assert_eq!(parser.next, TokenType::EOL);
    assert!(parser.parse_word("blah").is_err());
    assert_eq!(
        parser.operation().unwrap(),
        Operation::AddSimpleChange("Expenses", Amount("€".to_owned(), dec(1234, 2)))
    );
}

#[test]
fn parse_split() {
    let line = vec!["s", "Expenses", "Debts:Peter", "CZK", "120.50"];
    let mut parser = Parser::new();
    assert_eq!(parser.next, TokenType::Operation);
    assert!(parser.parse_word(line[0]).is_ok());
    assert_eq!(parser.next, TokenType::Account);
    assert!(parser.parse_word(line[1]).is_ok());
    assert_eq!(parser.next, TokenType::Account);
    assert!(parser.parse_word(line[2]).is_ok());
    assert_eq!(parser.next, TokenType::Currency);
    assert!(parser.parse_word(line[3]).is_ok());
    assert_eq!(parser.next, TokenType::Amount);
    assert!(parser.parse_word(line[4]).is_ok());
    assert_eq!(parser.next, TokenType::EOL);
    assert!(parser.parse_word("blah").is_err());
    assert_eq!(
        parser.operation().unwrap(),
        Operation::AddSplitChange(
            "Expenses",
            "Debts:Peter",
            Amount("CZK".to_owned(), dec(12050, 2))
        )
    );
}

#[test]
fn parse_finalize() {
    let line = vec!["f", "Accounts:Checking"];
    let mut parser = Parser::new();
    assert_eq!(parser.next, TokenType::Operation);
    assert!(parser.parse_word(line[0]).is_ok());
    assert_eq!(parser.next, TokenType::Account);
    assert!(parser.parse_word(line[1]).is_ok());
    assert_eq!(parser.next, TokenType::EOL);
    assert!(parser.parse_word("blah").is_err());
    assert_eq!(
        parser.operation().unwrap(),
        Operation::Finalize("Accounts:Checking")
    );
}

#[test]
fn test_errors() {
    let mut parser = Parser::new();
    assert!(parser.parse_word("x").is_err());
    assert!(parser.parse_word("a").is_ok());
    assert!(parser.parse_word("123").is_err());
    assert!(parser.parse_word("1checking").is_err());
    assert!(parser.parse_word("Expenses").is_ok());
    assert!(parser.parse_word("123").is_err());
    assert!(parser.parse_word("€").is_ok());
    assert!(parser.parse_word("1a2b").is_err());
    assert!(parser.parse_word("12.30").is_ok());
    assert_eq!(
        parser.operation().unwrap(),
        Operation::AddSimpleChange("Expenses", Amount("€".to_owned(), dec(1230, 2)))
    );
}

#[test]
fn tx_header() {
    let tx = parse_transaction_header("2020-02-27 Test transaction").unwrap();
    assert_eq!(tx.date, Date::from_ymd(2020, 2, 27));
    assert_eq!(tx.description, "Test transaction");
}

#[test]
fn header_keeps_the_words_of_the_description() {
    let tx = parse_transaction_header("  2020-01-10   Weekly \t groceries  ").unwrap();
    assert_eq!(tx.date, Date::from_ymd(2020, 1, 10));
    assert_eq!(tx.description, "Weekly groceries");
    assert_eq!(tx.changes.len(), 0);
    let bare = parse_transaction_header("2020-01-10").unwrap();
    assert_eq!(bare.description, "");
    assert_eq!(
        bare,
        Transaction::new(Date::from_ymd(2020, 1, 10), String::new())
    );
}

#[test]
fn header_errors() {
    assert_eq!(parse_transaction_header(""), Err(HeaderError::Missing));
    assert_eq!(parse_transaction_header("   \t "), Err(HeaderError::Missing));
    assert_eq!(
        parse_transaction_header("Groceries 2020-01-10"),
        Err(HeaderError::InvalidDate)
    );
    assert_eq!(
        parse_transaction_header("2020-02-30 Groceries"),
        Err(HeaderError::InvalidDate)
    );
    assert_eq!(
        parse_transaction_header("2020/01/10 Groceries"),
        Err(HeaderError::InvalidDate)
    );
    assert_eq!(HeaderError::Missing.message(), "No transaction header provided");
    assert_eq!(
        HeaderError::InvalidDate.message(),
        "Invalid date in transaction header"
    );
}

#[test]
fn each_word_error_has_its_variant() {
    let mut parser = Parser::new();
    assert_eq!(parser.parse_word("x"), Err(GrammarError::InvalidOperation));
    assert_eq!(parser.parse_word("aa"), Err(GrammarError::InvalidOperation));
    assert_eq!(parser.parse_word(""), Err(GrammarError::InvalidOperation));
    assert_eq!(parser.next, TokenType::Operation);
    assert_eq!(parser.parse_word("a"), Ok(()));
    assert_eq!(parser.parse_word("1abc"), Err(GrammarError::InvalidAccount));
    assert_eq!(parser.parse_word(":abc"), Err(GrammarError::InvalidAccount));
    assert_eq!(parser.parse_word("Food_"), Err(GrammarError::InvalidAccount));
    assert_eq!(parser.parse_word(""), Err(GrammarError::InvalidAccount));
    assert_eq!(parser.next, TokenType::Account);
    assert_eq!(parser.parse_word("Food"), Ok(()));
    assert_eq!(parser.parse_word("123"), Err(GrammarError::InvalidCurrency));
    assert_eq!(parser.parse_word(""), Err(GrammarError::InvalidCurrency));
    assert_eq!(parser.next, TokenType::Currency);
    assert_eq!(parser.parse_word("CZK"), Ok(()));
    assert_eq!(parser.parse_word("1a2b"), Err(GrammarError::InvalidAmount));
    assert_eq!(parser.next, TokenType::Amount);
    assert_eq!(parser.parse_word("-7.5"), Ok(()));
    assert_eq!(parser.parse_word("more"), Err(GrammarError::UnexpectedInput));
    assert_eq!(parser.next, TokenType::EOL);
    assert_eq!(
        parser.operation(),
        Some(Operation::AddSimpleChange(
            "Food",
            Amount("CZK".to_owned(), dec(-75, 1))
        ))
    );
}

#[test]
fn error_messages() {
    assert_eq!(GrammarError::InvalidOperation.message(), "Invalid operation type");
    assert_eq!(
        GrammarError::InvalidAccount.message(),
        "Account name contains invalid character"
    );
    assert_eq!(
        GrammarError::InvalidCurrency.message(),
        "Currency contains invalid characters"
    );
    assert_eq!(GrammarError::InvalidAmount.message(), "Invalid decimal number");
    assert_eq!(
        GrammarError::UnexpectedInput.message(),
        "Unexpected input at end of line"
    );
}

#[test]
fn operation_is_none_until_the_command_is_complete() {
    assert_eq!(Parser::new().operation(), None);
    let mut parser = Parser::new();
    assert!(parser.parse_word("s").is_ok());
    assert!(parser.parse_word("Food").is_ok());
    assert_eq!(parser.next, TokenType::Account);
    let mut early = Parser::new();
    assert!(early.parse_word("s").is_ok());
    assert!(early.parse_word("Food").is_ok());
    assert_eq!(early.operation(), None);
    assert!(parser.parse_word("Debts").is_ok());
    assert!(parser.parse_word("€").is_ok());
    assert_eq!(parser.next, TokenType::Amount);
}

#[test]
fn account_names() {
    assert!(is_account_word("Expenses"));
    assert!(is_account_word("Expenses:Food"));
    assert!(is_account_word("Expenses::Food"));
    assert!(is_account_word("dining"));
    assert!(is_account_word("a1:b2"));
    assert!(is_account_word("Útraty:Jídlo"));
    assert!(is_account_word("Ж"));
    assert!(is_account_word("食費"));
    assert!(!is_account_word(""));
    assert!(!is_account_word("1checking"));
    assert!(!is_account_word(":Food"));
    assert!(!is_account_word("Food Drink"));
    assert!(!is_account_word("Food-Drink"));
    assert!(!is_account_word("Food_"));
    assert!(!is_account_word("€"));
    assert!(!is_account_word("Food€"));
    assert!(!is_account_word("Food٣"));
}

#[test]
fn letters() {
    assert!(is_letter_char('a'));
    assert!(is_letter_char('Z'));
    assert!(is_letter_char('é'));
    assert!(is_letter_char('ß'));
    assert!(is_letter_char('Ω'));
    assert!(!is_letter_char('1'));
    assert!(!is_letter_char(':'));
    assert!(!is_letter_char(' '));
    assert!(!is_letter_char('\n'));
    assert!(!is_letter_char('€'));
    assert!(!is_letter_char('_'));
    assert!(!is_letter_char('$'));
}

#[test]
fn currencies() {
    assert!(is_currency_word("€"));
    assert!(is_currency_word("CZK"));
    assert!(is_currency_word("$"));
    assert!(is_currency_word("US1"));
    assert!(is_currency_word("1€"));
    assert!(is_currency_word("-1"));
    assert!(!is_currency_word("123"));
    assert!(!is_currency_word("0"));
    assert!(!is_currency_word(""));
}

#[test]
fn commands() {
    assert_eq!(
        parse_command("a Expenses:Food € 5.95"),
        Ok(Operation::AddSimpleChange(
            "Expenses:Food",
            Amount("€".to_owned(), dec(595, 2))
        ))
    );
    assert_eq!(
        parse_command("  s  Expenses \t Debts:Peter CZK 120.50 "),
        Ok(Operation::AddSplitChange(
            "Expenses",
            "Debts:Peter",
            Amount("CZK".to_owned(), dec(12050, 2))
        ))
    );
    assert_eq!(
        parse_command("f Assets:Cash"),
        Ok(Operation::Finalize("Assets:Cash"))
    );
    assert_eq!(
        parse_words(&vec!["f", "Assets:Cash"]),
        Ok(Operation::Finalize("Assets:Cash"))
    );
}

#[test]
fn commands_that_fail() {
    assert_eq!(
        parse_command(""),
        Err(CommandError::Incomplete(TokenType::Operation))
    );
    assert_eq!(
        parse_command("a"),
        Err(CommandError::Incomplete(TokenType::Account))
    );
    assert_eq!(
        parse_command("s Food"),
        Err(CommandError::Incomplete(TokenType::Account))
    );
    assert_eq!(
        parse_command("a Food"),
        Err(CommandError::Incomplete(TokenType::Currency))
    );
    assert_eq!(
        parse_command("s Food Debts €"),
        Err(CommandError::Incomplete(TokenType::Amount))
    );
    assert_eq!(
        parse_command("x Food € 1"),
        Err(CommandError::Refused(GrammarError::InvalidOperation))
    );
    assert_eq!(
        parse_command("a 1abc € 1"),
        Err(CommandError::Refused(GrammarError::InvalidAccount))
    );
    assert_eq!(
        parse_command("a Food 123"),
        Err(CommandError::Refused(GrammarError::InvalidCurrency))
    );
    assert_eq!(
        parse_command("a Food € x"),
        Err(CommandError::Refused(GrammarError::InvalidAmount))
    );
    assert_eq!(
        parse_command("f Food €"),
        Err(CommandError::Refused(GrammarError::UnexpectedInput))
    );
    assert_eq!(
        parse_command("a Food € 1 2"),
        Err(CommandError::Refused(GrammarError::UnexpectedInput))
    );
    // a word that is refused ends the parse: what follows is not read
    assert_eq!(
        parse_command("a 1abc Food € 1"),
        Err(CommandError::Refused(GrammarError::InvalidAccount))
    );
}

#[test]
fn same_words_same_outcome() {
    let words = vec!["s", "Expenses", "Debts:Peter", "CZK", "120.50"];
    assert_eq!(parse_words(&words), parse_words(&words));
    let bad = vec!["s", "Expenses", "7", "CZK"];
    assert_eq!(parse_words(&bad), parse_words(&bad));
    assert_eq!(
        parse_words(&bad),
        Err(CommandError::Refused(GrammarError::InvalidAccount))
    );
    let mut first = Parser::new();
    let mut second = Parser::new();
    for word in ["a", "Food", "123", "€", "x", "1.5", "more"] {
        assert_eq!(first.parse_word(word), second.parse_word(word));
        assert_eq!(first.next, second.next);
    }
    assert_eq!(first.operation(), second.operation());
}

#[test]
fn expected_word_at_the_cursor() {
    assert_eq!(expected_token("", 0), Some(TokenType::Operation));
    assert_eq!(expected_token("a", 1), Some(TokenType::Operation));
    assert_eq!(expected_token("a ", 2), Some(TokenType::Account));
    assert_eq!(expected_token("a Exp", 5), Some(TokenType::Account));
    assert_eq!(expected_token("a Expenses ", 11), Some(TokenType::Currency));
    assert_eq!(expected_token("a Expenses C", 12), Some(TokenType::Currency));
    assert_eq!(expected_token("a Expenses CZK ", 15), Some(TokenType::Amount));
    assert_eq!(expected_token("a Expenses CZK 1 ", 17), Some(TokenType::EOL));
    assert_eq!(expected_token("s Expenses ", 11), Some(TokenType::Account));
    assert_eq!(expected_token("s Expenses Debts ", 17), Some(TokenType::Currency));
    assert_eq!(expected_token("f Expenses ", 11), Some(TokenType::EOL));
    assert_eq!(expected_token("a Expenses CZK", 2), Some(TokenType::Account));
    assert_eq!(expected_token("x ", 2), None);
    assert_eq!(expected_token("a 1abc ", 7), None);
    assert_eq!(expected_token("a Food 12 ", 10), None);
    // a word counts with its bytes: `€` has three
    assert_eq!(expected_token("a Food € ", 11), Some(TokenType::Amount));
    assert_eq!(expected_token("a Food € ", 10), Some(TokenType::Currency));
    assert_eq!(expected_token("a Food € ", usize::MAX), Some(TokenType::Amount));
}

#[test]
fn operation_words() {
    assert_eq!(OperationType::parse("a"), Ok(OperationType::AddSimple));
    assert_eq!(OperationType::parse("s"), Ok(OperationType::AddSplit));
    assert_eq!(OperationType::parse("f"), Ok(OperationType::Finalize));
    for word in ["", "A", "x", "as", "a ", "add", "ä"] {
        assert_eq!(OperationType::parse(word), Err(GrammarError::InvalidOperation));
    }
}
