use ledger_entry::text::{
    compare, find_field_end, join_words, parse_unsigned, split_runs, split_runs_owned,
    split_words, starts_with, text_of, to_chars, Order, Separator,
};

#[test]
fn characters_of_a_text() {
    assert_eq!(to_chars("a€b"), vec!['a', '€', 'b']);
    assert_eq!(to_chars(""), Vec::<char>::new());
    assert_eq!(text_of(&vec!['a', '€', 'b', 'c'], 1, 3), "€b");
    assert_eq!(text_of(&vec!['a', '€', 'b', 'c'], 2, 2), "");
    assert_eq!(text_of(&vec!['a', '€', 'b', 'c'], 0, 4), "a€bc");
}

#[test]
fn order_of_texts() {
    assert_eq!(compare("CZK", "€"), Order::Before);
    assert_eq!(compare("€", "CZK"), Order::After);
    assert_eq!(compare("CZK", "CZK"), Order::Same);
    assert_eq!(compare("", ""), Order::Same);
    assert_eq!(compare("", "a"), Order::Before);
    assert_eq!(compare("a", ""), Order::After);
    assert_eq!(compare("Assets", "Assets:Cash"), Order::Before);
    assert_eq!(compare("Assets:Cash", "Assets"), Order::After);
    assert_eq!(compare("Assets:Cash", "Expenses"), Order::Before);
    assert_eq!(compare("a", "B"), Order::After);
    assert_eq!(compare("é", "z"), Order::After);
    assert_eq!(compare("\u{ffff}", "\u{10000}"), Order::Before);
    for (a, b) in [("CZK", "€"), ("", "a"), ("ab", "abc"), ("é", "z"), ("\u{ffff}", "\u{10000}"), ("x", "x")] {
        let expected = match a.cmp(b) {
            std::cmp::Ordering::Less => Order::Before,
            std::cmp::Ordering::Equal => Order::Same,
            std::cmp::Ordering::Greater => Order::After,
        };
        assert_eq!(compare(a, b), expected);
    }
}

#[test]
fn words_of_a_line() {
    assert_eq!(split_words("a Expenses € 12.34"), vec!["a", "Expenses", "€", "12.34"]);
    assert_eq!(split_words("  a \t Expenses\n€\r12.34\x0c"), vec!["a", "Expenses", "€", "12.34"]);
    assert_eq!(split_words(""), Vec::<&str>::new());
    assert_eq!(split_words(" \t\n"), Vec::<&str>::new());
    assert_eq!(split_words("one"), vec!["one"]);
    assert_eq!(split_words("a\u{a0}b"), vec!["a\u{a0}b"]);
    for line in ["a Expenses € 12.34", "  x  y ", "", "\t", "é  ü"] {
        let expected: Vec<&str> = line.split_ascii_whitespace().collect();
        assert_eq!(split_words(line), expected);
    }
}

#[test]
fn runs_between_separators() {
    assert_eq!(split_runs("a,b,,c,", Separator::Is(',')), vec!["a", "b", "c"]);
    assert_eq!(split_runs(",", Separator::Is(',')), Vec::<&str>::new());
    assert_eq!(split_runs("a b", Separator::Is(',')), vec!["a b"]);
    assert_eq!(
        split_runs_owned("one\n\ntwo\n", Separator::Is('\n')),
        vec!["one".to_string(), "two".to_string()]
    );
    assert_eq!(
        split_runs_owned("a b\tc", Separator::Blank),
        vec!["a".to_string(), "b".to_string(), "c".to_string()]
    );
}

#[test]
fn words_joined_by_spaces() {
    let words = vec!["2020-01-10", "Weekly", "groceries"];
    assert_eq!(join_words(&words, 1), "Weekly groceries");
    assert_eq!(join_words(&words, 0), "2020-01-10 Weekly groceries");
    assert_eq!(join_words(&words, 2), "groceries");
    assert_eq!(join_words(&words, 3), "");
    assert_eq!(join_words(&Vec::new(), 0), "");
}

#[test]
fn prefixes() {
    assert!(starts_with("CZK", "CZ"));
    assert!(starts_with("CZK", ""));
    assert!(starts_with("CZK", "CZK"));
    assert!(starts_with("€uro", "€"));
    assert!(!starts_with("CZK", "CZKK"));
    assert!(!starts_with("CZK", "Z"));
    assert!(!starts_with("", "a"));
    assert!(starts_with("", ""));
}

#[test]
fn numbers() {
    assert_eq!(parse_unsigned("0"), Some(0));
    assert_eq!(parse_unsigned("007"), Some(7));
    assert_eq!(parse_unsigned("12345"), Some(12345));
    assert_eq!(parse_unsigned("+12345"), Some(12345));
    assert_eq!(parse_unsigned(&usize::MAX.to_string()), Some(usize::MAX));
    assert_eq!(parse_unsigned("18446744073709551616"), "18446744073709551616".parse().ok());
    assert_eq!(parse_unsigned("99999999999999999999999999999"), None);
    assert_eq!(parse_unsigned(""), None);
    assert_eq!(parse_unsigned("+"), None);
    assert_eq!(parse_unsigned("++1"), None);
    assert_eq!(parse_unsigned("-1"), None);
    assert_eq!(parse_unsigned("1 "), None);
    assert_eq!(parse_unsigned(" 1"), None);
    assert_eq!(parse_unsigned("1_000"), None);
    assert_eq!(parse_unsigned("12a"), None);
    assert_eq!(parse_unsigned("٣"), None);
    for text in ["0", "42", "+42", "", "+", "-0", "4 2", "18446744073709551615", "18446744073709551616"] {
        assert_eq!(parse_unsigned(text), text.parse::<usize>().ok());
    }
}

#[test]
fn fields() {
    let chars = to_chars("2020/01/10,123,x");
    assert_eq!(find_field_end(&chars, 0), 10);
    assert_eq!(find_field_end(&chars, 10), 10);
    assert_eq!(find_field_end(&chars, 11), 14);
    assert_eq!(find_field_end(&chars, 15), 16);
    assert_eq!(find_field_end(&chars, 16), 16);
}
