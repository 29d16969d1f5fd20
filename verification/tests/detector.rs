use hypertrack::detect::{PositionChange, StoreOp};
use hypertrack::fixed::SCALE;
use hypertrack::positions::{AssetPosition, Leverage, MarginSummary, Position, UserState};
use hypertrack::store::{detect_position_changes, rehydrate, sync_wallet, ActivePosition, PositionTracker};

fn pos(coin: &str, szi: &str, entry: Option<&str>, value: &str, pnl: &str, margin: &str, lev: Option<u32>) -> AssetPosition {
    AssetPosition {
        position: Position {
            coin: coin.to_string(),
            szi: szi.to_string(),
            entry_px: entry.map(|s| s.to_string()),
            position_value: value.to_string(),
            unrealized_pnl: pnl.to_string(),
            liquidation_px: None,
            margin_used: margin.to_string(),
            leverage: lev.map(|v| Leverage { leverage_type: "cross".to_string(), value: v }),
        },
    }
}

fn snapshot(positions: Vec<AssetPosition>) -> UserState {
    UserState {
        asset_positions: positions,
        margin_summary: MarginSummary {
            account_value: "0".to_string(),
            total_margin_used: "0".to_string(),
        },
    }
}

fn wallet() -> String {
    "0xabcdef0123456789abcdef0123456789abcdef01".to_string()
}

fn coin_count(t: &PositionTracker, w: &String) -> usize {
    for p in t.positions.pairs.iter() {
        if &p.0 == w {
            return p.1.pairs.len();
        }
    }
    0
}

#[test]
fn size_unchanged_then_absent() {
    // cached BTC size 1.0 entry 50000; same snapshot: nothing to report
    let mut t = PositionTracker::new();
    let w = wallet();
    let s1 = snapshot(vec![pos("BTC", "1.0", Some("50000"), "50000", "0", "0", None)]);
    let opened = detect_position_changes(&mut t, &w, &s1);
    assert_eq!(opened.len(), 1);
    let again = detect_position_changes(&mut t, &w, &s1);
    assert!(again.is_empty());
    // BTC absent from the fresh snapshot: one closure, cache empty after
    let s2 = snapshot(vec![]);
    let changes = detect_position_changes(&mut t, &w, &s2);
    assert_eq!(changes.len(), 1);
    match &changes[0] {
        PositionChange::Closed { coin, was_long, .. } => {
            assert_eq!(coin, "BTC");
            assert!(*was_long);
        }
        other => panic!("expected a closure, got {:?}", other),
    }
    assert_eq!(coin_count(&t, &w), 0);
}

#[test]
fn short_position_opens() {
    // empty cache; fresh ETH size -2.0 entry 3000 leverage 5
    let mut t = PositionTracker::new();
    let w = wallet();
    let s = snapshot(vec![pos("ETH", "-2.0", Some("3000"), "6000", "0", "0", Some(5))]);
    let changes = detect_position_changes(&mut t, &w, &s);
    assert_eq!(changes.len(), 1);
    match &changes[0] {
        PositionChange::Opened { coin, size, entry_price, leverage, is_long, .. } => {
            assert_eq!(coin, "ETH");
            assert_eq!(*size, 2 * SCALE);
            assert_eq!(*entry_price, 3_000 * SCALE);
            assert_eq!(*leverage, 5);
            assert!(!*is_long);
        }
        other => panic!("expected an opening, got {:?}", other),
    }
    assert_eq!(coin_count(&t, &w), 1);
}

#[test]
fn grown_size_increases() {
    // cached SOL size 10.0; fresh 15.0
    let mut t = PositionTracker::new();
    let w = wallet();
    let s1 = snapshot(vec![pos("SOL", "10.0", None, "0", "0", "0", None)]);
    detect_position_changes(&mut t, &w, &s1);
    let s2 = snapshot(vec![pos("SOL", "15.0", None, "0", "0", "0", None)]);
    let changes = detect_position_changes(&mut t, &w, &s2);
    assert_eq!(changes.len(), 1);
    match &changes[0] {
        PositionChange::Increased { coin, old_size, new_size, .. } => {
            assert_eq!(coin, "SOL");
            assert_eq!(*old_size, 10 * SCALE);
            assert_eq!(*new_size, 15 * SCALE);
        }
        other => panic!("expected an increase, got {:?}", other),
    }
}

#[test]
fn dust_moves_are_silent() {
    let mut t = PositionTracker::new();
    let w = wallet();
    let s1 = snapshot(vec![pos("SOL", "10.0", None, "0", "0", "0", None)]);
    detect_position_changes(&mut t, &w, &s1);
    let s2 = snapshot(vec![pos("SOL", "10.00005", None, "0", "0", "0", None)]);
    let changes = detect_position_changes(&mut t, &w, &s2);
    assert!(changes.is_empty());
}

#[test]
fn malformed_size_reads_as_closed() {
    // a malformed size string never crashes and counts as no open position
    let mut t = PositionTracker::new();
    let w = wallet();
    let s0 = snapshot(vec![pos("XYZ", "abc", None, "0", "0", "0", None)]);
    let none = detect_position_changes(&mut t, &w, &s0);
    assert!(none.is_empty());
    // once cached, a malformed fresh size closes the position
    let s1 = snapshot(vec![pos("XYZ", "1.0", None, "0", "0", "0", None)]);
    detect_position_changes(&mut t, &w, &s1);
    let s2 = snapshot(vec![pos("XYZ", "abc", None, "0", "0", "0", None)]);
    let changes = detect_position_changes(&mut t, &w, &s2);
    assert_eq!(changes.len(), 1);
    assert!(matches!(&changes[0], PositionChange::Closed { .. }));
    assert_eq!(coin_count(&t, &w), 0);
}

#[test]
fn shrunk_size_decreases_with_prorated_pnl() {
    let mut t = PositionTracker::new();
    let w = wallet();
    let s1 = snapshot(vec![pos("OP", "10.0", Some("2"), "20", "50.0", "0", None)]);
    detect_position_changes(&mut t, &w, &s1);
    let s2 = snapshot(vec![pos("OP", "5.0", Some("2"), "10", "60.0", "0", None)]);
    let changes = detect_position_changes(&mut t, &w, &s2);
    assert_eq!(changes.len(), 1);
    match &changes[0] {
        PositionChange::Decreased { old_size, new_size, realized_pnl, .. } => {
            assert_eq!(*old_size, 10 * SCALE);
            assert_eq!(*new_size, 5 * SCALE);
            // half the position went away: half of the cached 50.0
            assert_eq!(*realized_pnl, 25 * SCALE);
        }
        other => panic!("expected a decrease, got {:?}", other),
    }
}

#[test]
fn margin_moves_report_when_size_holds() {
    let mut t = PositionTracker::new();
    let w = wallet();
    let s1 = snapshot(vec![pos("BTC", "1.0", None, "0", "0", "100.0", None)]);
    detect_position_changes(&mut t, &w, &s1);
    let s2 = snapshot(vec![pos("BTC", "1.0", None, "0", "0", "150.0", None)]);
    let changes = detect_position_changes(&mut t, &w, &s2);
    assert_eq!(changes.len(), 1);
    match &changes[0] {
        PositionChange::MarginAdded { old_margin, new_margin, .. } => {
            assert_eq!(*old_margin, 100 * SCALE);
            assert_eq!(*new_margin, 150 * SCALE);
        }
        other => panic!("expected added margin, got {:?}", other),
    }
    let s3 = snapshot(vec![pos("BTC", "1.0", None, "0", "0", "120.0", None)]);
    let removed = detect_position_changes(&mut t, &w, &s3);
    assert!(matches!(&removed[0], PositionChange::MarginRemoved { .. }));
}

#[test]
fn deep_loss_reads_as_liquidation() {
    let mut t = PositionTracker::new();
    let w = wallet();
    let s1 = snapshot(vec![pos("DOGE", "100.0", None, "0", "-95.0", "100.0", None)]);
    detect_position_changes(&mut t, &w, &s1);
    let s2 = snapshot(vec![]);
    let changes = detect_position_changes(&mut t, &w, &s2);
    assert_eq!(changes.len(), 1);
    match &changes[0] {
        PositionChange::Liquidated { coin, lost_margin, .. } => {
            assert_eq!(coin, "DOGE");
            assert_eq!(*lost_margin, 100 * SCALE);
        }
        other => panic!("expected a liquidation, got {:?}", other),
    }
}

#[test]
fn shallow_loss_still_closes() {
    let mut t = PositionTracker::new();
    let w = wallet();
    let s1 = snapshot(vec![pos("DOGE", "100.0", None, "0", "-50.0", "100.0", None)]);
    detect_position_changes(&mut t, &w, &s1);
    let changes = detect_position_changes(&mut t, &w, &snapshot(vec![]));
    assert!(matches!(&changes[0], PositionChange::Closed { .. }));
}

#[test]
fn store_operations_mirror_the_pass() {
    let mut t = PositionTracker::new();
    let w = wallet();
    let s1 = snapshot(vec![pos("BTC", "1.0", Some("50000"), "50000", "0", "0", None)]);
    let (_, ops) = sync_wallet(&mut t, &w, &s1);
    assert_eq!(ops.len(), 1);
    assert!(matches!(&ops[0], StoreOp::Upsert { coin, .. } if coin == "BTC"));
    // unchanged snapshot: nothing to rewrite
    let (_, ops2) = sync_wallet(&mut t, &w, &s1);
    assert!(ops2.is_empty());
    let (_, ops3) = sync_wallet(&mut t, &w, &snapshot(vec![]));
    assert_eq!(ops3.len(), 1);
    assert!(matches!(&ops3[0], StoreOp::Delete { coin } if coin == "BTC"));
}

#[test]
fn rehydrated_state_is_not_reopened() {
    let rows = vec![ActivePosition {
        wallet_address: wallet(),
        coin: "BTC".to_string(),
        size: "1.0".to_string(),
        entry_px: "50000".to_string(),
        unrealized_pnl: "0".to_string(),
        leverage: 1,
    }];
    let mut t = rehydrate(&rows);
    let s = snapshot(vec![pos("BTC", "1.0", Some("50000"), "50000", "0", "0", Some(1))]);
    let changes = detect_position_changes(&mut t, &wallet(), &s);
    assert!(changes.is_empty());
}

#[test]
fn wallets_do_not_interfere() {
    let mut t = PositionTracker::new();
    let w1 = wallet();
    let w2 = "0x1111111111111111111111111111111111111111".to_string();
    let s1 = snapshot(vec![pos("BTC", "1.0", None, "0", "0", "0", None)]);
    detect_position_changes(&mut t, &w1, &s1);
    // an empty snapshot for the second wallet closes nothing of the first
    let changes = detect_position_changes(&mut t, &w2, &snapshot(vec![]));
    assert!(changes.is_empty());
    assert_eq!(coin_count(&t, &w1), 1);
}
