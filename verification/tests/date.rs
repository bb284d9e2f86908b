use ledger_entry::date::{Date, MAX_YEAR, MIN_YEAR};
use ledger_entry::text::Order;

#[test]
fn dates_that_exist() {
    assert_eq!(Date::from_ymd_opt(2020, 1, 10), Some(Date { year: 2020, month: 1, day: 10 }));
    assert_eq!(Date::from_ymd_opt(2020, 2, 29), Some(Date { year: 2020, month: 2, day: 29 }));
    assert_eq!(Date::from_ymd_opt(2000, 2, 29), Some(Date { year: 2000, month: 2, day: 29 }));
    assert_eq!(Date::from_ymd_opt(-4, 2, 29), Some(Date { year: -4, month: 2, day: 29 }));
    assert_eq!(Date::from_ymd_opt(MAX_YEAR, 12, 31), Some(Date { year: MAX_YEAR, month: 12, day: 31 }));
    assert_eq!(Date::from_ymd_opt(MIN_YEAR, 1, 1), Some(Date { year: MIN_YEAR, month: 1, day: 1 }));
}

#[test]
fn dates_that_do_not_exist() {
    assert_eq!(Date::from_ymd_opt(2019, 2, 29), None);
    assert_eq!(Date::from_ymd_opt(1900, 2, 29), None);
    assert_eq!(Date::from_ymd_opt(2023, 4, 31), None);
    assert_eq!(Date::from_ymd_opt(2015, 0, 14), None);
    assert_eq!(Date::from_ymd_opt(2015, 13, 14), None);
    assert_eq!(Date::from_ymd_opt(2015, 1, 0), None);
    assert_eq!(Date::from_ymd_opt(2015, 1, 32), None);
    assert_eq!(Date::from_ymd_opt(MAX_YEAR + 1, 1, 1), None);
    assert_eq!(Date::from_ymd_opt(MIN_YEAR - 1, 12, 31), None);
    assert_eq!(Date::from_ymd_opt(400000, 1, 1), None);
}

#[test]
fn every_date_that_exists_can_be_written() {
    // the days that `from_ymd_opt` accepts are those that the calendar
    // of the text writer accepts: a day that it refused would be written
    // as the empty text
    for year in [MIN_YEAR, -401, -400, -100, -4, -1, 0, 1, 4, 100, 1900, 2000, 2020, 2023, 9999, 10000, MAX_YEAR] {
        for month in 0..14 {
            for day in 0..33 {
                match Date::from_ymd_opt(year, month, day) {
                    Some(date) => {
                        let sign = if year < 0 {
                            "-"
                        } else if year > 9999 {
                            "+"
                        } else {
                            ""
                        };
                        let expected =
                            format!("{}{:04}-{:02}-{:02}", sign, year.unsigned_abs(), month, day);
                        assert_eq!(date.to_text(), expected);
                    }
                    None => {
                        let text = format!("{}-{}-{}", year, month, day);
                        if (0..=9999).contains(&year) {
                            assert_eq!(Date::parse(&text), None);
                        }
                    }
                }
            }
        }
    }
}

#[test]
fn writes_dates() {
    assert_eq!(Date::from_ymd(2020, 1, 10).to_text(), "2020-01-10");
    assert_eq!(Date::from_ymd(2015, 9, 5).to_text(), "2015-09-05");
    assert_eq!(Date::from_ymd(0, 1, 1).to_text(), "0000-01-01");
    assert_eq!(Date::from_ymd(-1, 1, 1).to_text(), "-0001-01-01");
    assert_eq!(Date::from_ymd(10000, 12, 31).to_text(), "+10000-12-31");
}

#[test]
fn reads_dates() {
    assert_eq!(Date::parse("2020-02-27"), Some(Date::from_ymd(2020, 2, 27)));
    assert_eq!(Date::parse("2015-09-18"), Some(Date::from_ymd(2015, 9, 18)));
    assert_eq!(Date::parse("2015-02-30"), None);
    assert_eq!(Date::parse("foo"), None);
    assert_eq!(Date::parse(""), None);
    assert_eq!(Date::parse_with("2020/01/10", "%Y/%m/%d"), Some(Date::from_ymd(2020, 1, 10)));
    assert_eq!(Date::parse_with("2020-01-10", "%Y/%m/%d"), None);
    assert_eq!(Date::parse_with("2015/9/31", "%Y/%m/%d"), None);
    assert_eq!(Date::parse_with("2015/9", "%Y/%m"), None);
}

#[test]
fn compares_dates() {
    let d = Date::from_ymd(2020, 1, 10);
    assert_eq!(d.compare(&Date::from_ymd(2020, 1, 10)), Order::Same);
    assert_eq!(d.compare(&Date::from_ymd(2020, 1, 11)), Order::Before);
    assert_eq!(d.compare(&Date::from_ymd(2020, 2, 1)), Order::Before);
    assert_eq!(d.compare(&Date::from_ymd(2021, 1, 1)), Order::Before);
    assert_eq!(d.compare(&Date::from_ymd(2020, 1, 9)), Order::After);
    assert_eq!(d.compare(&Date::from_ymd(2019, 12, 31)), Order::After);
    assert_eq!(d.compare(&Date::from_ymd(-2020, 12, 31)), Order::After);
}
