use nft_staking::text::{account_id_from_str, format_lock_msg, parse_decimal_u64, split_on};

#[test]
fn split_on_colons() {
    assert_eq!(split_on("864000:alice.near", ':'), vec!["864000".to_string(), "alice.near".to_string()]);
    assert_eq!(split_on("", ':'), vec!["".to_string()]);
    assert_eq!(split_on("a::b:", ':'), vec!["a".to_string(), "".to_string(), "b".to_string(), "".to_string()]);
    assert_eq!(split_on("no colon", ':'), vec!["no colon".to_string()]);
}

#[test]
fn parse_decimal_accepts_digits_and_plus() {
    assert_eq!(parse_decimal_u64("864000"), Some(864000));
    assert_eq!(parse_decimal_u64("+7"), Some(7));
    assert_eq!(parse_decimal_u64("18446744073709551615"), Some(u64::MAX));
}

#[test]
fn parse_decimal_rejects_the_rest() {
    assert_eq!(parse_decimal_u64(""), None);
    assert_eq!(parse_decimal_u64("+"), None);
    assert_eq!(parse_decimal_u64("-1"), None);
    assert_eq!(parse_decimal_u64("12a"), None);
    assert_eq!(parse_decimal_u64(" 1"), None);
    assert_eq!(parse_decimal_u64("18446744073709551616"), None);
}

#[test]
fn lock_message_layout() {
    assert_eq!(format_lock_msg(864000, "alice.near"), "864000:alice.near");
    assert_eq!(format_lock_msg(0, "bob"), "0:bob");
}

#[test]
fn lock_message_reads_back() {
    let msg = format_lock_msg(1_728_000, "carol.testnet");
    let parts = split_on(&msg, ':');
    assert_eq!(parts.len(), 2);
    assert_eq!(parse_decimal_u64(&parts[0]), Some(1_728_000));
    assert_eq!(account_id_from_str(&parts[1]), Some("carol.testnet".to_string()));
}

#[test]
fn account_ids_follow_near_rules() {
    assert_eq!(account_id_from_str("alice.near"), Some("alice.near".to_string()));
    assert_eq!(account_id_from_str("a-b_c.d"), Some("a-b_c.d".to_string()));
    assert_eq!(account_id_from_str("Alice.near"), None);
    assert_eq!(account_id_from_str("a"), None);
    assert_eq!(account_id_from_str(".alice"), None);
    assert_eq!(account_id_from_str("alice..near"), None);
    assert_eq!(account_id_from_str("alice:near"), None);
    assert_eq!(account_id_from_str(&"a".repeat(65)), None);
}

#[test]
fn account_id_edges() {
    assert_eq!(account_id_from_str("ab"), Some("ab".to_string()));
    assert_eq!(account_id_from_str(&"a".repeat(64)), Some("a".repeat(64)));
    assert_eq!(account_id_from_str("alice-"), None);
    assert_eq!(account_id_from_str("a_-b"), None);
    assert_eq!(account_id_from_str("0x1"), Some("0x1".to_string()));
    assert_eq!(account_id_from_str("äb"), None);
    assert_eq!(account_id_from_str(""), None);
}

#[test]
fn parse_decimal_edges() {
    assert_eq!(parse_decimal_u64("0"), Some(0));
    assert_eq!(parse_decimal_u64("007"), Some(7));
    assert_eq!(parse_decimal_u64("++1"), None);
    assert_eq!(parse_decimal_u64("1+"), None);
    assert_eq!(parse_decimal_u64("99999999999999999999x"), None);
    assert_eq!(parse_decimal_u64("184467440737095516150"), None);
    assert_eq!(format_lock_msg(u64::MAX, "x.near"), "18446744073709551615:x.near");
}
