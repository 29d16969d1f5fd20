use hypertrack::detect::PositionChange;
use hypertrack::fixed::SCALE;
use hypertrack::positions::{AssetPosition, Leverage, MarginSummary, Position, UserState};
use hypertrack::render::{format_notification, format_positions_report};

const A1: &str = "0xabcdef0123456789abcdef0123456789abcdef01";

#[test]
fn opened_message_is_exact() {
    let ev = PositionChange::Opened {
        coin: "BTC".to_string(),
        size: 150_000_000,
        entry_price: 50_000 * SCALE,
        leverage: 10,
        position_value: 75_000 * SCALE,
        is_long: true,
    };
    assert_eq!(
        format_notification(&ev, A1),
        "<b>\u{1f7e2} 10x BTC Long Opened</b>\n\n\
         <code>0xabcd...ef01</code>\n\
         Size: 1.5 | $75000.00\n\
         Entry: $50000.0000"
    );
}

#[test]
fn closed_message_is_exact() {
    let ev = PositionChange::Closed {
        coin: "ETH".to_string(),
        realized_pnl: -12_340_000,
        entry_price: 3_000 * SCALE,
        was_long: false,
        leverage: 5,
    };
    assert_eq!(
        format_notification(&ev, A1),
        "<b>\u{1f534} 5x ETH Short Closed</b>\n\n\
         <code>0xabcd...ef01</code>\n\
         Entry: $3000.0000\n\
         PnL: \u{1f534} -$0.12"
    );
}

#[test]
fn margin_messages_carry_the_delta() {
    let ev = PositionChange::MarginAdded {
        coin: "SOL".to_string(),
        old_margin: 100 * SCALE,
        new_margin: 150 * SCALE,
        leverage: 3,
        is_long: true,
    };
    assert_eq!(
        format_notification(&ev, A1),
        "<b>\u{2795} 3x SOL Long Margin Added</b>\n\n\
         <code>0xabcd...ef01</code>\n\
         Margin: $100.00 \u{2192} $150.00 (+$50.00)"
    );
}

#[test]
fn increase_shows_both_sizes() {
    let ev = PositionChange::Increased {
        coin: "SOL".to_string(),
        old_size: 10 * SCALE,
        new_size: 15 * SCALE,
        entry_price: 20 * SCALE,
        leverage: 1,
        is_long: true,
    };
    assert_eq!(
        format_notification(&ev, A1),
        "<b>\u{1f7e2} 1x SOL Long Increased</b>\n\n\
         <code>0xabcd...ef01</code>\n\
         Size: 10.0000 \u{2192} 15.0000\n\
         Entry: $20.0000"
    );
}

fn snapshot(positions: Vec<AssetPosition>) -> UserState {
    UserState {
        asset_positions: positions,
        margin_summary: MarginSummary {
            account_value: "0".to_string(),
            total_margin_used: "0".to_string(),
        },
    }
}

#[test]
fn empty_report_says_so() {
    let s = snapshot(vec![]);
    let r = format_positions_report(&s, "<code>0xabcd...ef01</code>", A1);
    assert_eq!(
        r,
        format!(
            "<b>\u{1f4ca} Open Positions</b>\n\n\
             \u{1f45b} Wallet: <code>0xabcd...ef01</code>\n\n\
             <i>No open positions</i>\n\n\
             <a href=\"https://legacy.hyperdash.com/trader/{}\">Hyperdash</a>",
            A1
        )
    );
}

#[test]
fn report_lists_each_open_position() {
    let s = snapshot(vec![AssetPosition {
        position: Position {
            coin: "BTC".to_string(),
            szi: "2.0".to_string(),
            entry_px: Some("50000".to_string()),
            position_value: "110000".to_string(),
            unrealized_pnl: "10000".to_string(),
            liquidation_px: None,
            margin_used: "0".to_string(),
            leverage: Some(Leverage { leverage_type: "cross".to_string(), value: 10 }),
        },
    }]);
    let r = format_positions_report(&s, "W", A1);
    // implied price 55000, up 5000 from entry; pnl 10000 is ten percent
    assert!(r.contains("<b>10x BTC Long</b>"));
    assert!(r.contains("\u{1f4ca} Size: 2 BTC ($110000.00)"));
    assert!(r.contains("\u{1f4b0} Entry: $50000"));
    assert!(r.contains("\u{1f4cd} Current: $55000 (+$5000.00)"));
    assert!(r.contains("\u{1f4b5} PnL: <b>+$10000.00</b> (+10.00%)"));
}
