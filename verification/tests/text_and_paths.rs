use company_analyzer::calculate::fmt_val;
use company_analyzer::calendar::{civil_from_days, date_ago, date_before, ts_to_date};
use company_analyzer::extract::{
    directory_path, facts_file_path, return_ticker, ticker_file_path, TickerEntry,
};
use company_analyzer::extract_edinet::{ca_dir, facts_path, index_path, stale};
use company_analyzer::text::{
    chars_of, concat_str, group_thousands, join_path, parse_int, string_of, to_ascii_lower, trim_chars,
};

fn chars(s: &str) -> Vec<char> {
    s.chars().collect()
}

#[test]
fn fmt_val_groups_thousands() {
    assert_eq!(fmt_val(0), "0");
    assert_eq!(fmt_val(7), "7");
    assert_eq!(fmt_val(999), "999");
    assert_eq!(fmt_val(1000), "1,000");
    assert_eq!(fmt_val(123456), "123,456");
    assert_eq!(fmt_val(1234567), "1,234,567");
    assert_eq!(fmt_val(-1234567), "-1,234,567");
    assert_eq!(fmt_val(-12), "-12");
}

#[test]
fn fmt_val_extremes() {
    assert_eq!(fmt_val(i64::MAX), "9,223,372,036,854,775,807");
    assert_eq!(fmt_val(i64::MIN), "-9,223,372,036,854,775,808");
}

#[test]
fn fmt_val_is_exact_without_commas() {
    for v in [0i64, 5, 1000, -1000, 987654321, -42, i64::MAX, i64::MIN] {
        let text: String = fmt_val(v).chars().filter(|c| *c != ',').collect();
        assert_eq!(text, v.to_string());
    }
}

#[test]
fn fmt_val_groups_have_the_right_shape() {
    for v in [0i64, 12, 1000, -98765, 1234567, i64::MIN, i64::MAX] {
        let t = fmt_val(v);
        assert_eq!(t.starts_with('-'), v < 0);
        let digits = t.trim_start_matches('-');
        let groups: Vec<&str> = digits.split(',').collect();
        assert!((1..=3).contains(&groups[0].len()));
        assert!(groups[1..].iter().all(|g| g.len() == 3));
        assert!(groups.iter().all(|g| g.chars().all(|c| c.is_ascii_digit())));
        assert!(v == 0 || !digits.starts_with('0'));
        assert_eq!(t.replace(",", "").parse::<i64>(), Ok(v));
    }
}

#[test]
fn group_thousands_of_digits() {
    assert_eq!(string_of(&group_thousands(&chars("1234567890"))), "1,234,567,890");
    assert_eq!(string_of(&group_thousands(&chars("123"))), "123");
    assert_eq!(string_of(&group_thousands(&chars(""))), "");
}

#[test]
fn ts_to_date_known_days() {
    assert_eq!(ts_to_date(0), "1970-01-01");
    assert_eq!(ts_to_date(86399), "1970-01-01");
    assert_eq!(ts_to_date(86400), "1970-01-02");
    assert_eq!(ts_to_date(86400 * 365), "1971-01-01");
    assert_eq!(ts_to_date(951782400), "2000-02-29");
    assert_eq!(ts_to_date(951868800), "2000-03-01");
    assert_eq!(ts_to_date(1709164800), "2024-02-29");
    assert_eq!(ts_to_date(1735689599), "2024-12-31");
    assert_eq!(ts_to_date(4107542400), "2100-03-01");
    assert_eq!(ts_to_date(253402300799), "9999-12-31");
}

#[test]
fn ts_to_date_beyond_four_digit_years() {
    assert_eq!(ts_to_date(253402300800), "10000-01-01");
}

#[test]
fn civil_from_days_counts_leap_years() {
    assert_eq!(civil_from_days(0), (1970, 1, 1));
    assert_eq!(civil_from_days(365), (1971, 1, 1));
    assert_eq!(civil_from_days(11016), (2000, 2, 29));
    assert_eq!(civil_from_days(11017), (2000, 3, 1));
    assert_eq!(civil_from_days(47541), (2100, 3, 1));
    assert_eq!(civil_from_days(47540), (2100, 2, 28));
    assert_eq!(civil_from_days(146097), (2370, 1, 1));
    assert_eq!(civil_from_days(146096), (2369, 12, 31));
}

#[test]
fn date_before_counts_back_and_stops_at_epoch() {
    assert_eq!(date_before(86400 * 10, 3), "1970-01-08");
    assert_eq!(date_before(1709164800 + 5, 1), "2024-02-28");
    assert_eq!(date_before(100, 5), "1970-01-01");
}

#[test]
fn date_ago_gives_a_date() {
    let d = date_ago(0).unwrap();
    assert_eq!(d.len(), 10);
    assert_eq!(&d[4..5], "-");
    assert_eq!(&d[7..8], "-");
    let earlier = date_ago(400).unwrap();
    assert!(earlier < d);
}

#[test]
fn parse_int_follows_from_str() {
    assert_eq!(parse_int(&chars("42"), i64::MIN, i64::MAX), Some(42));
    assert_eq!(parse_int(&chars("+7"), i64::MIN, i64::MAX), Some(7));
    assert_eq!(parse_int(&chars("-0"), i64::MIN, i64::MAX), Some(0));
    assert_eq!(parse_int(&chars("-6"), i64::MIN, i64::MAX), Some(-6));
    assert_eq!(parse_int(&chars(""), i64::MIN, i64::MAX), None);
    assert_eq!(parse_int(&chars("-"), i64::MIN, i64::MAX), None);
    assert_eq!(parse_int(&chars("1a"), i64::MIN, i64::MAX), None);
    assert_eq!(parse_int(&chars(" 1"), i64::MIN, i64::MAX), None);
    assert_eq!(parse_int(&chars("1,000"), i64::MIN, i64::MAX), None);
    assert_eq!(parse_int(&chars("9223372036854775807"), i64::MIN, i64::MAX), Some(i64::MAX));
    assert_eq!(parse_int(&chars("9223372036854775808"), i64::MIN, i64::MAX), None);
    assert_eq!(parse_int(&chars("-9223372036854775808"), i64::MIN, i64::MAX), Some(i64::MIN));
    assert_eq!(parse_int(&chars("99999999999999999999999"), i64::MIN, i64::MAX), None);
    let lo = i32::MIN as i64;
    let hi = i32::MAX as i64;
    assert_eq!(parse_int(&chars("2147483647"), lo, hi), Some(2147483647));
    assert_eq!(parse_int(&chars("2147483648"), lo, hi), None);
}

#[test]
fn trim_and_lowercase() {
    assert_eq!(string_of(&trim_chars(&chars("  a b \n\t"))), "a b");
    assert_eq!(string_of(&trim_chars(&chars("   "))), "");
    assert_eq!(string_of(&to_ascii_lower(&chars("CurrentYear_Ä"))), "currentyear_Ä");
    assert_eq!(chars_of("ab"), vec!['a', 'b']);
    assert_eq!(concat_str("7203", "0"), "72030");
}

#[test]
fn join_path_as_pathbuf_push() {
    assert_eq!(join_path("/home/u", "ca_json"), "/home/u/ca_json");
    assert_eq!(join_path("/home/u/", "x"), "/home/u/x");
    assert_eq!(join_path("d", "/abs"), "/abs");
    assert_eq!(join_path("", "x"), "x");
}

#[test]
fn sec_cache_paths() {
    assert_eq!(directory_path("/home/u"), "/home/u/ca_json");
    assert_eq!(ticker_file_path("/home/u"), "/home/u/ca_json/company-tickers.json");
    assert_eq!(facts_file_path("/home/u", "AAPL"), "/home/u/ca_json/AAPL-facts.json");
}

#[test]
fn edinet_cache_paths() {
    assert_eq!(ca_dir("/root"), "/root/ca_json");
    assert_eq!(index_path("/root", "7203"), "/root/ca_json/7203-edinet-index.json");
    assert_eq!(facts_path("/root", "7203"), "/root/ca_json/7203-edinet-facts.json");
}

#[test]
fn stale_after_a_day() {
    assert!(stale(None));
    assert!(!stale(Some(0)));
    assert!(!stale(Some(86399)));
    assert!(stale(Some(86400)));
    assert!(stale(Some(u64::MAX)));
}

fn entry(t: &str, cik: u64) -> TickerEntry {
    TickerEntry { ticker: Some(t.to_string()), cik: Some(cik) }
}

#[test]
fn return_ticker_pads_the_cik() {
    let entries = vec![
        entry("MSFT", 789019),
        TickerEntry { ticker: None, cik: Some(5) },
        entry("AAPL", 320193),
        TickerEntry { ticker: Some("XYZ".to_string()), cik: None },
    ];
    assert_eq!(return_ticker(&entries, "AAPL"), "0000320193");
    assert_eq!(return_ticker(&entries, "MSFT"), "0000789019");
    assert_eq!(return_ticker(&entries, "NVDA"), "");
    assert_eq!(return_ticker(&vec![], "AAPL"), "");
}

#[test]
fn return_ticker_last_entry_counts() {
    let entries = vec![entry("AAPL", 320193), entry("AAPL", 1)];
    assert_eq!(return_ticker(&entries, "AAPL"), "0000000001");
    let big = vec![entry("BIG", 12345678901)];
    assert_eq!(return_ticker(&big, "BIG"), "12345678901");
}
