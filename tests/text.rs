use memo::command::{get_title, remaining_ttl, validate_key, KeyError, MemoArg, MemoCommand};
use memo::timestamp::{format_timestamp, parse_timestamp};

#[test]
fn timestamp_formats() {
    assert_eq!(format_timestamp(0), "0");
    assert_eq!(format_timestamp(7), "7");
    assert_eq!(format_timestamp(1_700_000_010), "1700000010");
    assert_eq!(format_timestamp(-42), "-42");
    assert_eq!(format_timestamp(i64::MAX), "9223372036854775807");
    assert_eq!(format_timestamp(i64::MIN), "-9223372036854775808");
}

#[test]
fn timestamp_parses() {
    assert_eq!(parse_timestamp("0"), Some(0));
    assert_eq!(parse_timestamp("123"), Some(123));
    assert_eq!(parse_timestamp("+5"), Some(5));
    assert_eq!(parse_timestamp("-17"), Some(-17));
    assert_eq!(parse_timestamp("007"), Some(7));
    assert_eq!(parse_timestamp("9223372036854775807"), Some(i64::MAX));
    assert_eq!(parse_timestamp("-9223372036854775808"), Some(i64::MIN));
    assert_eq!(parse_timestamp("9223372036854775808"), None);
    assert_eq!(parse_timestamp("99999999999999999999999"), None);
    assert_eq!(parse_timestamp(""), None);
    assert_eq!(parse_timestamp("-"), None);
    assert_eq!(parse_timestamp("+"), None);
    assert_eq!(parse_timestamp("12a"), None);
    assert_eq!(parse_timestamp(" 1"), None);
    assert_eq!(parse_timestamp("--1"), None);
}

#[test]
fn timestamp_text_reads_back() {
    for t in [0i64, 1, -1, 59, 1_700_000_000, i64::MAX, i64::MIN] {
        assert_eq!(parse_timestamp(&format_timestamp(t)), Some(t));
        assert_eq!(parse_timestamp(&format_timestamp(t)), t.to_string().parse::<i64>().ok());
    }
}

#[test]
fn keys_are_checked() {
    assert_eq!(validate_key("alpha"), Ok(()));
    assert_eq!(validate_key("A1-b"), Ok(()));
    assert_eq!(validate_key(""), Err(KeyError::Empty));
    assert_eq!(validate_key("a b"), Err(KeyError::ContainsSpace));
    assert_eq!(validate_key(" a"), Err(KeyError::ContainsSpace));
    assert_eq!(validate_key("1abc"), Err(KeyError::NoAlphabeticStart));
    assert_eq!(validate_key("-"), Err(KeyError::NoAlphabeticStart));
    assert_eq!(validate_key("éa"), Err(KeyError::NoAlphabeticStart));
}

#[test]
fn listing_titles() {
    assert_eq!(get_title(false, false), vec!["Key", "Value"]);
    assert_eq!(get_title(true, false), vec!["Key", "Value", "TTL"]);
    assert_eq!(get_title(false, true), vec!["Key", "Value", "Created"]);
    assert_eq!(get_title(true, true), vec!["Key", "Value", "Created", "TTL"]);
}

#[test]
fn remaining_seconds() {
    assert_eq!(remaining_ttl(&None, 100), None);
    assert_eq!(remaining_ttl(&Some("110".to_string()), 100), Some(10));
    assert_eq!(remaining_ttl(&Some("90".to_string()), 100), Some(-10));
    assert_eq!(remaining_ttl(&Some("junk".to_string()), 100), Some(-100));
    assert_eq!(
        remaining_ttl(&Some("-9223372036854775808".to_string()), i64::MAX),
        Some(i64::MIN as i128 - i64::MAX as i128)
    );
}

#[test]
fn command_names() {
    assert_eq!(MemoCommand::ADD, "add");
    assert_eq!(MemoCommand::GET, "get");
    assert_eq!(MemoCommand::RM, "rm");
    assert_eq!(MemoCommand::LIST, "ls");
    assert_eq!(MemoCommand::SET, "set");
    assert_eq!(MemoCommand::COPY, "cp");
    assert_eq!(MemoArg::KEY, "KEY");
    assert_eq!(MemoArg::VALUE, "VALUE");
    assert_eq!(MemoArg::TTL, "ttl");
}
