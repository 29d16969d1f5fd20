use hypertrack::fixed::{parse_fixed, render_fixed_dec, render_fixed_trim, SCALE};
use hypertrack::render::{
    current_price, format_pnl, format_wallet_display, html_escape, pnl_percent, short_address,
};

#[test]
fn parses_plain_decimals() {
    assert_eq!(parse_fixed("1.5"), 150_000_000);
    assert_eq!(parse_fixed("-2.0"), -200_000_000);
    assert_eq!(parse_fixed("50000"), 50_000 * SCALE);
    assert_eq!(parse_fixed("0.0001"), 10_000);
    assert_eq!(parse_fixed("+3"), 300_000_000);
    assert_eq!(parse_fixed("1."), 100_000_000);
    assert_eq!(parse_fixed(".5"), 50_000_000);
    assert_eq!(parse_fixed("0"), 0);
    assert_eq!(parse_fixed("-0"), 0);
}

#[test]
fn truncates_past_eight_decimals() {
    assert_eq!(parse_fixed("0.123456789"), 12_345_678);
    assert_eq!(parse_fixed("1.000000001"), 100_000_000);
}

#[test]
fn malformed_or_oversized_reads_as_zero() {
    assert_eq!(parse_fixed(""), 0);
    assert_eq!(parse_fixed("abc"), 0);
    assert_eq!(parse_fixed("1.2.3"), 0);
    assert_eq!(parse_fixed("."), 0);
    assert_eq!(parse_fixed("-"), 0);
    assert_eq!(parse_fixed("1e5"), 0);
    assert_eq!(parse_fixed("12a"), 0);
    assert_eq!(parse_fixed("99999999999999999999"), 0);
    assert_eq!(parse_fixed("92233720369"), 0);
    assert_eq!(parse_fixed("92233720368"), 92_233_720_368 * SCALE);
}

#[test]
fn renders_exactly_with_trimmed_zeros() {
    assert_eq!(render_fixed_trim(150_000_000), "1.5");
    assert_eq!(render_fixed_trim(100_000_000), "1");
    assert_eq!(render_fixed_trim(0), "0");
    assert_eq!(render_fixed_trim(-50), "-0.0000005");
    assert_eq!(render_fixed_trim(123_456_780_000), "1234.5678");
}

#[test]
fn renders_rounded_decimals() {
    assert_eq!(render_fixed_dec(123_450_000_000, 2), "1234.50");
    assert_eq!(render_fixed_dec(1_500_000, 2), "0.02");
    assert_eq!(render_fixed_dec(1_250_000, 2), "0.01");
    assert_eq!(render_fixed_dec(-987_654_321, 4), "-9.8765");
    assert_eq!(render_fixed_dec(50_000 * SCALE, 4), "50000.0000");
}

#[test]
fn pnl_is_signed_and_colored() {
    assert_eq!(format_pnl(12_345_678_900), "\u{1f7e2} +$123.46");
    assert_eq!(format_pnl(-12_345_678_900), "\u{1f534} -$123.46");
    assert_eq!(format_pnl(0), "\u{1f7e2} +$0.00");
}

#[test]
fn addresses_shorten_and_display() {
    let addr = "0xabcdef0123456789abcdef0123456789abcdef01";
    assert_eq!(short_address(addr), "0xabcd...ef01");
    assert_eq!(
        format_wallet_display(addr, None, false),
        "<code>0xabcd...ef01</code>"
    );
    assert_eq!(
        format_wallet_display(addr, Some("whale <1>"), true),
        format!("<code>{}</code> (whale &lt;1&gt;)", addr)
    );
}

#[test]
fn escapes_html_characters() {
    assert_eq!(html_escape("a<b>&c"), "a&lt;b&gt;&amp;c");
    assert_eq!(html_escape("plain"), "plain");
    assert_eq!(html_escape(""), "");
}

#[test]
fn implied_price_is_value_over_size() {
    // value 5000.0 over size 2.0 is 2500.0
    assert_eq!(current_price(5_000 * SCALE, 2 * SCALE), 2_500 * SCALE);
    assert_eq!(current_price(5_000 * SCALE, 0), 0);
    assert_eq!(current_price(-5_000 * SCALE, 2 * SCALE), -2_500 * SCALE);
}

#[test]
fn percentage_guards_zero_entry_value() {
    // pnl 50 over entry 1000 * size 1 is five percent
    assert_eq!(pnl_percent(50 * SCALE, 1_000 * SCALE, SCALE), 5 * SCALE);
    assert_eq!(pnl_percent(50 * SCALE, 0, SCALE), 0);
    assert_eq!(pnl_percent(50 * SCALE, 1_000 * SCALE, 0), 0);
    assert_eq!(pnl_percent(-50 * SCALE, 1_000 * SCALE, SCALE), -5 * SCALE);
}
