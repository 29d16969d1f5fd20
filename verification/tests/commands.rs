use hypertrack::detect::PositionChange;
use hypertrack::fixed::SCALE;
use hypertrack::poll::{fan_out_messages, group_wallet_users};
use hypertrack::render::format_notification;
use hypertrack::wallets::{
    classify_add, eq_ignore_ascii, is_reserved_note, is_valid_address, resolve_in_list,
    split_wallet_note, trim_ascii, AddWalletResult, TrackedWallet,
};

fn tw(user_id: i64, addr: &str, note: Option<&str>) -> TrackedWallet {
    TrackedWallet {
        user_id,
        wallet_address: addr.to_string(),
        note: note.map(|s| s.to_string()),
    }
}

const A1: &str = "0xabcdef0123456789abcdef0123456789abcdef01";
const A2: &str = "0x1111111111111111111111111111111111111111";

#[test]
fn address_validity() {
    assert!(is_valid_address(A1));
    assert!(is_valid_address("0xABCDEF0123456789abcdef0123456789abcdef01"));
    assert!(!is_valid_address("0xabc"));
    assert!(!is_valid_address("abcdef0123456789abcdef0123456789abcdef0123"));
    assert!(!is_valid_address("0xabcdef0123456789abcdef0123456789abcdefg1"));
    assert!(!is_valid_address(""));
}

#[test]
fn reserved_notes_are_small_numbers() {
    assert!(is_reserved_note("1"));
    assert!(is_reserved_note("10"));
    assert!(is_reserved_note("010"));
    assert!(is_reserved_note("+3"));
    assert!(!is_reserved_note("0"));
    assert!(!is_reserved_note("11"));
    assert!(!is_reserved_note("abc"));
    assert!(!is_reserved_note(""));
    assert!(!is_reserved_note("99999999999999999999"));
}

#[test]
fn adding_classifies_by_existing_note() {
    let note = Some("whale".to_string());
    assert_eq!(classify_add(&None, &note), AddWalletResult::Added);
    assert_eq!(
        classify_add(&Some(Some("whale".to_string())), &note),
        AddWalletResult::AlreadyExistsNoChange
    );
    assert_eq!(
        classify_add(&Some(Some("old".to_string())), &note),
        AddWalletResult::Updated
    );
    assert_eq!(classify_add(&Some(None), &note), AddWalletResult::Updated);
    assert_eq!(
        classify_add(&Some(None), &None),
        AddWalletResult::AlreadyExistsNoChange
    );
}

#[test]
fn identifiers_resolve_by_index_then_note() {
    let ws = vec![tw(7, A1, Some("Whale")), tw(7, A2, None)];
    let by_index = resolve_in_list(&ws, "2").expect("index two is occupied");
    assert_eq!(by_index.0, A2);
    let by_note = resolve_in_list(&ws, "wHaLe").expect("note matches case-insensitively");
    assert_eq!(by_note.0, A1);
    assert_eq!(by_note.1.as_deref(), Some("Whale"));
    // index three names no slot and matches no note
    assert!(resolve_in_list(&ws, "3").is_none());
    assert!(resolve_in_list(&ws, "unknown").is_none());
}

#[test]
fn ascii_case_folding_compares() {
    assert!(eq_ignore_ascii("Whale", "wHALE"));
    assert!(!eq_ignore_ascii("Whale", "Whales"));
    assert!(!eq_ignore_ascii("a", "b"));
    assert!(eq_ignore_ascii("", ""));
}

#[test]
fn subscribers_group_by_address() {
    let ws = vec![tw(1, A1, None), tw(2, A1, None), tw(1, A2, None)];
    let groups = group_wallet_users(&ws);
    assert_eq!(groups.pairs.len(), 2);
    assert_eq!(groups.pairs[0].0, A1);
    assert_eq!(groups.pairs[0].1, vec![1, 2]);
    assert_eq!(groups.pairs[1].0, A2);
    assert_eq!(groups.pairs[1].1, vec![1]);
}

#[test]
fn fan_out_addresses_every_subscriber() {
    let changes = vec![
        PositionChange::Opened {
            coin: "BTC".to_string(),
            size: SCALE,
            entry_price: 50_000 * SCALE,
            leverage: 10,
            position_value: 50_000 * SCALE,
            is_long: true,
        },
        PositionChange::Liquidated {
            coin: "ETH".to_string(),
            lost_margin: 100 * SCALE,
            was_long: false,
            leverage: 5,
        },
    ];
    let users = vec![11, 22];
    let w = A1.to_string();
    let out = fan_out_messages(&changes, &users, &w);
    assert_eq!(out.len(), 4);
    assert_eq!(out[0].0, 11);
    assert_eq!(out[1].0, 22);
    assert_eq!(out[2].0, 11);
    assert_eq!(out[3].0, 22);
    assert_eq!(out[0].1, format_notification(&changes[0], A1));
    assert_eq!(out[1].1, out[0].1);
    assert_eq!(out[2].1, format_notification(&changes[1], A1));
}

#[test]
fn add_arguments_split_into_wallet_and_note() {
    assert_eq!(
        split_wallet_note("  0xabc whale watcher  "),
        ("0xabc".to_string(), Some("whale watcher".to_string()))
    );
    assert_eq!(split_wallet_note("0xabc"), ("0xabc".to_string(), None));
    assert_eq!(split_wallet_note("0xabc   "), ("0xabc".to_string(), None));
    assert_eq!(split_wallet_note("   "), ("".to_string(), None));
    assert_eq!(split_wallet_note(""), ("".to_string(), None));
    assert_eq!(trim_ascii("\t a b \n"), "a b");
    assert_eq!(trim_ascii(""), "");
}
