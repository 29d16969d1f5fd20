//! Rendering change events as notification messages.
//!
//! Pure string composition: a change event plus the wallet's display
//! data becomes one HTML-formatted message. Amounts are fixed-point and
//! render exactly (no floating-point artifacts); PnL carries a colored
//! sign; wallet addresses are shortened to their first six and last
//! four characters. Escaping and case folding here are ASCII-based.

use vstd::prelude::*;
use vstd::string::*;
use crate::fixed::{
    abs64, abs_amount, dec_str, fixed_trim_str, fixed_dec_str, mag_dec_str, push_dec, push_mag_dec,
    render_fixed_trim, render_fixed_dec,
};
use crate::detect::{PositionChange, ChangeV, wf_change};
use crate::fixed::SCALE;
use crate::positions::{Position, AssetPosition, UserState, ParsedPos, spec_parsed, parse_position, wf_parsed};
use vstd::arithmetic::mul::lemma_mul_upper_bound;

verus! {

pub open spec fn emoji_str(is_long: bool) -> Seq<char> {
    if is_long {
        "🟢"@
    } else {
        "🔴"@
    }
}

pub open spec fn dir_str(is_long: bool) -> Seq<char> {
    if is_long {
        "Long"@
    } else {
        "Short"@
    }
}

/// A signed PnL amount: green with a plus for gains, red with a minus
/// for losses, two decimal places.
pub open spec fn pnl_str(v: i64) -> Seq<char>
    recommends
        v > i64::MIN,
{
    if v >= 0 {
        "🟢 +$"@ + mag_dec_str(v as nat, 2)
    } else {
        "🔴 -$"@ + mag_dec_str(abs64(v) as nat, 2)
    }
}

/// An address shortened to its first six and last four characters.
pub open spec fn short_addr_str(w: Seq<char>) -> Seq<char>
    recommends
        w.len() >= 10,
{
    w.take(6) + "..."@ + w.skip(w.len() - 4)
}

/// One character HTML-escaped: the ampersand and the angle brackets
/// become entities.
pub open spec fn esc_char(c: char) -> Seq<char> {
    if c == '&' {
        "&amp;"@
    } else if c == '<' {
        "&lt;"@
    } else if c == '>' {
        "&gt;"@
    } else {
        seq![c]
    }
}

pub open spec fn esc_str(s: Seq<char>) -> Seq<char>
    decreases s.len(),
{
    if s.len() == 0 {
        Seq::empty()
    } else {
        esc_str(s.drop_last()) + esc_char(s.last())
    }
}

pub fn direction_emoji(is_long: bool) -> (r: &'static str)
    ensures
        r@ == emoji_str(is_long),
{
    if is_long {
        "🟢"
    } else {
        "🔴"
    }
}

pub fn direction_str(is_long: bool) -> (r: &'static str)
    ensures
        r@ == dir_str(is_long),
{
    if is_long {
        "Long"
    } else {
        "Short"
    }
}

/// Render a PnL amount, as `pnl_str` says.
pub fn format_pnl(pnl: i64) -> (r: String)
    requires
        pnl > i64::MIN,
    ensures
        r@ == pnl_str(pnl),
{
    let mut out = String::new();
    if pnl >= 0 {
        out.append("🟢 +$");
    } else {
        out.append("🔴 -$");
    }
    let m = abs_amount(pnl) as u64;
    push_mag_dec(&mut out, m, 2);
    proof {
        assert(out@ =~= pnl_str(pnl));
    }
    out
}

/// Shorten an address, as `short_addr_str` says.
pub fn short_address(w: &str) -> (r: String)
    requires
        w@.len() >= 10,
    ensures
        r@ == short_addr_str(w@),
{
    let n = w.unicode_len();
    let mut out = String::new();
    out.append(w.substring_char(0, 6));
    out.append("...");
    out.append(w.substring_char(n - 4, n));
    proof {
        assert(out@ =~= short_addr_str(w@));
    }
    out
}

/// HTML-escape a string, as `esc_str` says.
#[verifier::loop_isolation(false)]
pub fn html_escape(s: &str) -> (r: String)
    ensures
        r@ == esc_str(s@),
{
    let n = s.unicode_len();
    let mut out = String::new();
    let mut i: usize = 0;
    while i < n
        invariant
            0 <= i <= n,
            out@ == esc_str(s@.take(i as int)),
        decreases n - i,
    {
        let c = s.get_char(i);
        if c == '&' {
            out.append("&amp;");
        } else if c == '<' {
            out.append("&lt;");
        } else if c == '>' {
            out.append("&gt;");
        } else {
            out.append(s.substring_char(i, i + 1));
            proof {
                assert(s@.subrange(i as int, i as int + 1) =~= seq![s@[i as int]]);
            }
        }
        proof {
            assert(s@.take(i as int + 1).drop_last() =~= s@.take(i as int));
            assert(s@.take(i as int + 1).last() == s@[i as int]);
            assert(out@ =~= esc_str(s@.take(i as int + 1)));
        }
        i = i + 1;
    }
    proof {
        assert(s@.take(n as int) =~= s@);
    }
    out
}

pub open spec fn opt_str_view(o: Option<&str>) -> Option<Seq<char>> {
    match o {
        Some(s) => Some(s@),
        None => None,
    }
}

/// A wallet shown as its (possibly shortened) address in code style,
/// with its escaped note in parentheses when it has one.
pub open spec fn wallet_display_str(w: Seq<char>, note: Option<Seq<char>>, full: bool) -> Seq<
    char,
>
    recommends
        full || w.len() >= 10,
{
    let addr: Seq<char> = if full {
        w
    } else {
        short_addr_str(w)
    };
    match note {
        Some(n) => "<code>"@ + addr + "</code> ("@ + esc_str(n) + ")"@,
        None => "<code>"@ + addr + "</code>"@,
    }
}

/// Render a wallet's display line, as `wallet_display_str` says.
pub fn format_wallet_display(wallet_address: &str, note: Option<&str>, full: bool) -> (r: String)
    requires
        full || wallet_address@.len() >= 10,
    ensures
        r@ == wallet_display_str(wallet_address@, opt_str_view(note), full),
{
    let mut out = String::new();
    out.append("<code>");
    if full {
        out.append(wallet_address);
    } else {
        let short = short_address(wallet_address);
        out.append(short.as_str());
    }
    match note {
        Some(n) => {
            out.append("</code> (");
            let e = html_escape(n);
            out.append(e.as_str());
            out.append(")");
        },
        None => {
            out.append("</code>");
        },
    }
    proof {
        assert(out@ =~= wallet_display_str(wallet_address@, opt_str_view(note), full));
    }
    out
}


/// The message one change event renders to, for a given wallet.
pub open spec fn notification_str(c: ChangeV, w: Seq<char>) -> Seq<char>
    recommends
        wf_change(c),
        w.len() >= 10,
{
    let short = short_addr_str(w);
    match c {
        ChangeV::Opened { coin, size, entry_price, leverage, position_value, is_long } => "<b>"@
            + emoji_str(is_long) + " "@ + dec_str(leverage as nat) + "x "@ + coin + " "@
            + dir_str(is_long) + " Opened</b>\n\n<code>"@ + short + "</code>\nSize: "@
            + fixed_trim_str(size) + " | $"@ + fixed_dec_str(position_value, 2)
            + "\nEntry: $"@ + fixed_dec_str(entry_price, 4),
        ChangeV::Closed { coin, realized_pnl, entry_price, was_long, leverage } => "<b>"@
            + emoji_str(was_long) + " "@ + dec_str(leverage as nat) + "x "@ + coin + " "@
            + dir_str(was_long) + " Closed</b>\n\n<code>"@ + short + "</code>\nEntry: $"@
            + fixed_dec_str(entry_price, 4) + "\nPnL: "@ + pnl_str(realized_pnl),
        ChangeV::Increased { coin, old_size, new_size, entry_price, leverage, is_long } => "<b>"@
            + emoji_str(is_long) + " "@ + dec_str(leverage as nat) + "x "@ + coin + " "@
            + dir_str(is_long) + " Increased</b>\n\n<code>"@ + short + "</code>\nSize: "@
            + fixed_dec_str(old_size, 4) + " → "@ + fixed_dec_str(new_size, 4)
            + "\nEntry: $"@ + fixed_dec_str(entry_price, 4),
        ChangeV::Decreased { coin, old_size, new_size, entry_price, realized_pnl, leverage, is_long } =>
            "<b>"@ + emoji_str(is_long) + " "@ + dec_str(leverage as nat) + "x "@ + coin + " "@
            + dir_str(is_long) + " Decreased</b>\n\n<code>"@ + short + "</code>\nSize: "@
            + fixed_dec_str(old_size, 4) + " → "@ + fixed_dec_str(new_size, 4)
            + "\nEntry: $"@ + fixed_dec_str(entry_price, 4) + "\nPnL: "@ + pnl_str(
            realized_pnl,
        ),
        ChangeV::MarginAdded { coin, old_margin, new_margin, leverage, is_long } => "<b>➕ "@
            + dec_str(leverage as nat) + "x "@ + coin + " "@ + dir_str(is_long)
            + " Margin Added</b>\n\n<code>"@ + short + "</code>\nMargin: $"@ + fixed_dec_str(
            old_margin,
            2,
        ) + " → $"@ + fixed_dec_str(new_margin, 2) + " (+$"@ + mag_dec_str(
            (new_margin - old_margin) as nat,
            2,
        ) + ")"@,
        ChangeV::MarginRemoved { coin, old_margin, new_margin, leverage, is_long } => "<b>➖ "@
            + dec_str(leverage as nat) + "x "@ + coin + " "@ + dir_str(is_long)
            + " Margin Removed</b>\n\n<code>"@ + short + "</code>\nMargin: $"@ + fixed_dec_str(
            old_margin,
            2,
        ) + " → $"@ + fixed_dec_str(new_margin, 2) + " (-$"@ + mag_dec_str(
            (old_margin - new_margin) as nat,
            2,
        ) + ")"@,
        ChangeV::Liquidated { coin, lost_margin, was_long, leverage } => "<b>💀 "@ + dec_str(
            leverage as nat,
        ) + "x "@ + coin + " "@ + dir_str(was_long) + " Liquidated</b>\n\n<code>"@ + short
            + "</code>\nLost: 🔴 -$"@ + mag_dec_str(lost_margin as nat, 2),
    }
}

/// Render one change event as its notification message, as
/// `notification_str` says.
#[verifier::rlimit(100)]
pub fn format_notification(change: &PositionChange, wallet_address: &str) -> (r: String)
    requires
        wf_change(change@),
        wallet_address@.len() >= 10,
    ensures
        r@ == notification_str(change@, wallet_address@),
{
    let short = short_address(wallet_address);
    let mut out = String::new();
    match change {
        PositionChange::Opened { coin, size, entry_price, leverage, position_value, is_long } => {
            out.append("<b>");
            out.append(direction_emoji(*is_long));
            out.append(" ");
            push_dec(&mut out, *leverage as u64);
            out.append("x ");
            out.append(coin.as_str());
            out.append(" ");
            out.append(direction_str(*is_long));
            out.append(" Opened</b>\n\n<code>");
            out.append(short.as_str());
            out.append("</code>\nSize: ");
            let size_s = render_fixed_trim(*size);
            out.append(size_s.as_str());
            out.append(" | $");
            let value_s = render_fixed_dec(*position_value, 2);
            out.append(value_s.as_str());
            out.append("\nEntry: $");
            let entry_s = render_fixed_dec(*entry_price, 4);
            out.append(entry_s.as_str());
        },
        PositionChange::Closed { coin, realized_pnl, entry_price, was_long, leverage } => {
            out.append("<b>");
            out.append(direction_emoji(*was_long));
            out.append(" ");
            push_dec(&mut out, *leverage as u64);
            out.append("x ");
            out.append(coin.as_str());
            out.append(" ");
            out.append(direction_str(*was_long));
            out.append(" Closed</b>\n\n<code>");
            out.append(short.as_str());
            out.append("</code>\nEntry: $");
            let entry_s = render_fixed_dec(*entry_price, 4);
            out.append(entry_s.as_str());
            out.append("\nPnL: ");
            let pnl_s = format_pnl(*realized_pnl);
            out.append(pnl_s.as_str());
        },
        PositionChange::Increased { coin, old_size, new_size, entry_price, leverage, is_long } => {
            out.append("<b>");
            out.append(direction_emoji(*is_long));
            out.append(" ");
            push_dec(&mut out, *leverage as u64);
            out.append("x ");
            out.append(coin.as_str());
            out.append(" ");
            out.append(direction_str(*is_long));
            out.append(" Increased</b>\n\n<code>");
            out.append(short.as_str());
            out.append("</code>\nSize: ");
            let old_s = render_fixed_dec(*old_size, 4);
            out.append(old_s.as_str());
            out.append(" → ");
            let new_s = render_fixed_dec(*new_size, 4);
            out.append(new_s.as_str());
            out.append("\nEntry: $");
            let entry_s = render_fixed_dec(*entry_price, 4);
            out.append(entry_s.as_str());
        },
        PositionChange::Decreased {
            coin,
            old_size,
            new_size,
            entry_price,
            realized_pnl,
            leverage,
            is_long,
        } => {
            out.append("<b>");
            out.append(direction_emoji(*is_long));
            out.append(" ");
            push_dec(&mut out, *leverage as u64);
            out.append("x ");
            out.append(coin.as_str());
            out.append(" ");
            out.append(direction_str(*is_long));
            out.append(" Decreased</b>\n\n<code>");
            out.append(short.as_str());
            out.append("</code>\nSize: ");
            let old_s = render_fixed_dec(*old_size, 4);
            out.append(old_s.as_str());
            out.append(" → ");
            let new_s = render_fixed_dec(*new_size, 4);
            out.append(new_s.as_str());
            out.append("\nEntry: $");
            let entry_s = render_fixed_dec(*entry_price, 4);
            out.append(entry_s.as_str());
            out.append("\nPnL: ");
            let pnl_s = format_pnl(*realized_pnl);
            out.append(pnl_s.as_str());
        },
        PositionChange::MarginAdded { coin, old_margin, new_margin, leverage, is_long } => {
            out.append("<b>➕ ");
            push_dec(&mut out, *leverage as u64);
            out.append("x ");
            out.append(coin.as_str());
            out.append(" ");
            out.append(direction_str(*is_long));
            out.append(" Margin Added</b>\n\n<code>");
            out.append(short.as_str());
            out.append("</code>\nMargin: $");
            let old_s = render_fixed_dec(*old_margin, 2);
            out.append(old_s.as_str());
            out.append(" → $");
            let new_s = render_fixed_dec(*new_margin, 2);
            out.append(new_s.as_str());
            out.append(" (+$");
            let diff = ((*new_margin as i128) - (*old_margin as i128)) as u64;
            push_mag_dec(&mut out, diff, 2);
            out.append(")");
        },
        PositionChange::MarginRemoved { coin, old_margin, new_margin, leverage, is_long } => {
            out.append("<b>➖ ");
            push_dec(&mut out, *leverage as u64);
            out.append("x ");
            out.append(coin.as_str());
            out.append(" ");
            out.append(direction_str(*is_long));
            out.append(" Margin Removed</b>\n\n<code>");
            out.append(short.as_str());
            out.append("</code>\nMargin: $");
            let old_s = render_fixed_dec(*old_margin, 2);
            out.append(old_s.as_str());
            out.append(" → $");
            let new_s = render_fixed_dec(*new_margin, 2);
            out.append(new_s.as_str());
            out.append(" (-$");
            let diff = ((*old_margin as i128) - (*new_margin as i128)) as u64;
            push_mag_dec(&mut out, diff, 2);
            out.append(")");
        },
        PositionChange::Liquidated { coin, lost_margin, was_long, leverage } => {
            out.append("<b>💀 ");
            push_dec(&mut out, *leverage as u64);
            out.append("x ");
            out.append(coin.as_str());
            out.append(" ");
            out.append(direction_str(*was_long));
            out.append(" Liquidated</b>\n\n<code>");
            out.append(short.as_str());
            out.append("</code>\nLost: 🔴 -$");
            push_mag_dec(&mut out, *lost_margin as u64, 2);
        },
    }
    proof {
        assert(out@ =~= notification_str(change@, wallet_address@));
    }
    out
}


/// The price a position's notional implies: value over absolute size,
/// fixed-point, zero for a zero size, saturated at the representable
/// bound, keeping the notional's sign.
pub open spec fn current_price_spec(value: i64, size: i64) -> i64
    recommends
        value > i64::MIN,
        size > i64::MIN,
{
    if abs64(size) == 0 {
        0
    } else {
        let q = abs64(value) * (SCALE as int) / (abs64(size) as int);
        let m: int = if q > i64::MAX {
            i64::MAX as int
        } else {
            q
        };
        if value < 0 {
            (0 - m) as i64
        } else {
            m as i64
        }
    }
}

/// Compute the implied price, as `current_price_spec` says.
pub fn current_price(value: i64, size: i64) -> (r: i64)
    requires
        value > i64::MIN,
        size > i64::MIN,
    ensures
        r == current_price_spec(value, size),
{
    let sa = abs_amount(size);
    if sa == 0 {
        return 0;
    }
    let va = abs_amount(value);
    proof {
        lemma_mul_upper_bound(va as int, i64::MAX as int, SCALE as int, SCALE as int);
        vstd::arithmetic::div_mod::lemma_div_pos_is_pos(va as int * SCALE as int, sa as int);
    }
    let q = (va as u128) * (SCALE as u128) / (sa as u128);
    let m: i64 = if q > i64::MAX as u128 {
        i64::MAX
    } else {
        q as i64
    };
    if value < 0 {
        0 - m
    } else {
        m
    }
}

/// Unrealized PnL as a percentage of entry notional (entry price times
/// absolute size), fixed-point; a non-positive entry value yields zero;
/// saturated at the representable bound, keeping the PnL's sign.
pub open spec fn pnl_percent_spec(pnl: i64, entry_px: i64, size: i64) -> i64
    recommends
        pnl > i64::MIN,
        entry_px > i64::MIN,
        size > i64::MIN,
{
    let ev = entry_px * abs64(size);
    if ev <= 0 {
        0
    } else {
        let q = abs64(pnl) * 100 * (SCALE as int) * (SCALE as int) / ev;
        let m: int = if q > i64::MAX {
            i64::MAX as int
        } else {
            q
        };
        if pnl < 0 {
            (0 - m) as i64
        } else {
            m as i64
        }
    }
}

/// Compute the PnL percentage, as `pnl_percent_spec` says.
pub fn pnl_percent(pnl: i64, entry_px: i64, size: i64) -> (r: i64)
    requires
        pnl > i64::MIN,
        entry_px > i64::MIN,
        size > i64::MIN,
    ensures
        r == pnl_percent_spec(pnl, entry_px, size),
{
    let sa = abs_amount(size);
    proof {
        if entry_px > 0 {
            vstd::arithmetic::mul::lemma_mul_nonnegative(entry_px as int, sa as int);
            if sa > 0 {
                vstd::arithmetic::mul::lemma_mul_strictly_positive(entry_px as int, sa as int);
            } else {
                assert(entry_px * (sa as int) == 0) by {
                    vstd::arithmetic::mul::lemma_mul_by_zero_is_zero(entry_px as int);
                }
            }
        } else {
            if entry_px == 0 {
                vstd::arithmetic::mul::lemma_mul_by_zero_is_zero(sa as int);
                assert(entry_px * (sa as int) == 0) by {
                    vstd::arithmetic::mul::lemma_mul_is_commutative(entry_px as int, sa as int);
                }
            } else {
                assert(entry_px * (sa as int) <= 0) by {
                    vstd::arithmetic::mul::lemma_mul_nonnegative(0 - entry_px, sa as int);
                    vstd::arithmetic::mul::lemma_mul_unary_negation(entry_px as int, sa as int);
                }
            }
        }
    }
    if entry_px <= 0 || sa == 0 {
        return 0;
    }
    proof {
        lemma_mul_upper_bound(entry_px as int, i64::MAX as int, sa as int, i64::MAX as int);
    }
    let ev = (entry_px as u128) * (sa as u128);
    let pa = abs_amount(pnl);
    proof {
        lemma_mul_upper_bound(
            pa as int * 100 * (SCALE as int),
            922_337_203_685_477_580_700_000_000_000,
            SCALE as int,
            SCALE as int,
        );
        lemma_mul_upper_bound(pa as int * 100, 922_337_203_685_477_580_700, SCALE as int, SCALE as int);
        vstd::arithmetic::div_mod::lemma_div_pos_is_pos(
            pa as int * 100 * (SCALE as int) * (SCALE as int),
            ev as int,
        );
        vstd::arithmetic::mul::lemma_mul_nonnegative(pa as int * 100 * (SCALE as int), SCALE as int);
        vstd::arithmetic::mul::lemma_mul_nonnegative(pa as int * 100, SCALE as int);
    }
    let num = (pa as u128) * 100 * (SCALE as u128) * (SCALE as u128);
    let q = num / ev;
    let m: i64 = if q > i64::MAX as u128 {
        i64::MAX
    } else {
        q as i64
    };
    if pnl < 0 {
        0 - m
    } else {
        m
    }
}


/// The signed move from entry to current price, two decimal places.
pub open spec fn price_diff_str(cur: i64, entry: i64) -> Seq<char> {
    let d = cur - entry;
    if d >= 0 {
        "+$"@ + mag_dec_str(d as nat, 2)
    } else {
        "-$"@ + mag_dec_str((0 - d) as nat, 2)
    }
}

fn push_price_diff(out: &mut String, cur: i64, entry: i64)
    requires
        cur > i64::MIN,
        entry > i64::MIN,
    ensures
        final(out)@ == old(out)@ + price_diff_str(cur, entry),
{
    let wide = (cur as i128) - (entry as i128);
    if wide >= 0 {
        out.append("+$");
        push_mag_dec(out, wide as u64, 2);
    } else {
        out.append("-$");
        push_mag_dec(out, (0 - wide) as u64, 2);
    }
    proof {
        assert(out@ =~= old(out)@ + price_diff_str(cur, entry));
    }
}

/// A bold signed PnL amount, two decimal places.
pub open spec fn bold_pnl_str(v: i64) -> Seq<char>
    recommends
        v > i64::MIN,
{
    if v >= 0 {
        "<b>+$"@ + mag_dec_str(v as nat, 2) + "</b>"@
    } else {
        "<b>-$"@ + mag_dec_str(abs64(v) as nat, 2) + "</b>"@
    }
}

fn push_bold_pnl(out: &mut String, v: i64)
    requires
        v > i64::MIN,
    ensures
        final(out)@ == old(out)@ + bold_pnl_str(v),
{
    if v >= 0 {
        out.append("<b>+$");
        push_mag_dec(out, v as u64, 2);
    } else {
        out.append("<b>-$");
        push_mag_dec(out, abs_amount(v) as u64, 2);
    }
    out.append("</b>");
    proof {
        assert(out@ =~= old(out)@ + bold_pnl_str(v));
    }
}

/// A percentage with an explicit plus for gains, two decimal places.
pub open spec fn pct_str(v: i64) -> Seq<char>
    recommends
        v > i64::MIN,
{
    if v >= 0 {
        "+"@ + mag_dec_str(v as nat, 2) + "%"@
    } else {
        fixed_dec_str(v, 2) + "%"@
    }
}

fn push_pct(out: &mut String, v: i64)
    requires
        v > i64::MIN,
    ensures
        final(out)@ == old(out)@ + pct_str(v),
{
    if v >= 0 {
        out.append("+");
        push_mag_dec(out, v as u64, 2);
    } else {
        let s = render_fixed_dec(v, 2);
        out.append(s.as_str());
    }
    out.append("%");
    proof {
        assert(out@ =~= old(out)@ + pct_str(v));
    }
}

/// One open position's lines of the positions report.
pub open spec fn position_block_str(p: Position) -> Seq<char> {
    let q = spec_parsed(p);
    let cur = current_price_spec(q.position_value, q.size);
    let pct = pnl_percent_spec(q.unrealized_pnl, q.entry_px, q.size);
    "\n"@ + emoji_str(q.size > 0) + " <b>"@ + dec_str(q.leverage as nat) + "x "@ + p.coin@ + " "@
        + dir_str(q.size > 0) + "</b>\n📊 Size: "@ + fixed_trim_str(abs64(q.size)) + " "@
        + p.coin@ + " ($"@ + fixed_dec_str(q.position_value, 2) + ")\n💰 Entry: $"@
        + fixed_trim_str(q.entry_px) + "\n📍 Current: $"@ + fixed_trim_str(cur) + " ("@
        + price_diff_str(cur, q.entry_px) + ")\n💵 PnL: "@ + bold_pnl_str(q.unrealized_pnl)
        + " ("@ + pct_str(pct) + ")\n"@
}

#[verifier::rlimit(100)]
#[verifier::spinoff_prover]
fn position_block(p: &Position) -> (r: String)
    ensures
        r@ == position_block_str(*p),
{
    let mut out = String::new();
    let q = parse_position(p);
    let cur = current_price(q.position_value, q.size);
    let pct = pnl_percent(q.unrealized_pnl, q.entry_px, q.size);
    out.append("\n");
    out.append(direction_emoji(q.size > 0));
    out.append(" <b>");
    push_dec(&mut out, q.leverage as u64);
    out.append("x ");
    out.append(p.coin.as_str());
    out.append(" ");
    out.append(direction_str(q.size > 0));
    out.append("</b>\n📊 Size: ");
    let size_s = render_fixed_trim(abs_amount(q.size));
    out.append(size_s.as_str());
    out.append(" ");
    out.append(p.coin.as_str());
    out.append(" ($");
    let value_s = render_fixed_dec(q.position_value, 2);
    out.append(value_s.as_str());
    out.append(")\n💰 Entry: $");
    let entry_s = render_fixed_trim(q.entry_px);
    out.append(entry_s.as_str());
    out.append("\n📍 Current: $");
    let cur_s = render_fixed_trim(cur);
    out.append(cur_s.as_str());
    out.append(" (");
    push_price_diff(&mut out, cur, q.entry_px);
    out.append(")\n💵 PnL: ");
    push_bold_pnl(&mut out, q.unrealized_pnl);
    out.append(" (");
    push_pct(&mut out, pct);
    out.append(")\n");
    proof {
        assert(out@ =~= position_block_str(*p));
    }
    out
}

/// The report blocks of a snapshot's open positions, in order.
pub open spec fn blocks_str(aps: Seq<AssetPosition>) -> Seq<char>
    decreases aps.len(),
{
    if aps.len() == 0 {
        Seq::empty()
    } else {
        blocks_str(aps.drop_last()) + if spec_parsed(aps.last().position).size != 0 {
            position_block_str(aps.last().position)
        } else {
            Seq::empty()
        }
    }
}

pub open spec fn any_open(aps: Seq<AssetPosition>) -> bool {
    exists|i: int| 0 <= i < aps.len() && spec_parsed((#[trigger] aps[i]).position).size != 0
}

pub open spec fn hyperdash_link_str(w: Seq<char>) -> Seq<char> {
    "<a href=\"https://legacy.hyperdash.com/trader/"@ + w + "\">Hyperdash</a>"@
}

/// The positions report for one wallet: its display line, one block
/// per open position (or a note that there is none), and an outbound
/// link. A position whose size reads as zero is not open and is left
/// out.
pub open spec fn report_str(aps: Seq<AssetPosition>, display: Seq<char>, w: Seq<char>) -> Seq<
    char,
> {
    if any_open(aps) {
        "<b>📊 Open Positions</b>\n\n👛 Wallet: "@ + display + "\n"@ + blocks_str(aps) + "\n"@
            + hyperdash_link_str(w)
    } else {
        "<b>📊 Open Positions</b>\n\n👛 Wallet: "@ + display
            + "\n\n<i>No open positions</i>\n\n"@ + hyperdash_link_str(w)
    }
}

/// Render the positions report, as `report_str` says.
#[verifier::loop_isolation(false)]
#[verifier::rlimit(100)]
#[verifier::spinoff_prover]
pub fn format_positions_report(
    user_state: &UserState,
    wallet_display: &str,
    wallet_address: &str,
) -> (r: String)
    ensures
        r@ == report_str(user_state.asset_positions@, wallet_display@, wallet_address@),
{
    let ghost aps = user_state.asset_positions@;
    let n = user_state.asset_positions.len();
    let mut body = String::new();
    let mut found = false;
    let mut i: usize = 0;
    while i < n
        invariant
            0 <= i <= n,
            body@ == blocks_str(aps.take(i as int)),
            found == any_open(aps.take(i as int)),
        decreases n - i,
    {
        proof {
            assert(aps.take(i as int + 1).drop_last() =~= aps.take(i as int));
            assert(aps.take(i as int + 1).last() == aps[i as int]);
        }
        let q = parse_position(&user_state.asset_positions[i].position);
        if q.size != 0 {
            let block = position_block(&user_state.asset_positions[i].position);
            body.append(block.as_str());
            found = true;
            proof {
                assert(aps.take(i as int + 1)[i as int] == aps[i as int]);
                assert(any_open(aps.take(i as int + 1)));
                assert(body@ =~= blocks_str(aps.take(i as int + 1)));
            }
        } else {
            proof {
                assert(body@ =~= blocks_str(aps.take(i as int + 1)));
                assert(any_open(aps.take(i as int + 1)) == any_open(aps.take(i as int))) by {
                    if any_open(aps.take(i as int + 1)) {
                        let t = choose|t: int|
                            0 <= t < aps.take(i as int + 1).len() && spec_parsed(
                                (#[trigger] aps.take(i as int + 1)[t]).position,
                            ).size != 0;
                        if t < i {
                            assert(aps.take(i as int)[t] == aps.take(i as int + 1)[t]);
                        }
                    }
                    if any_open(aps.take(i as int)) {
                        let t = choose|t: int|
                            0 <= t < aps.take(i as int).len() && spec_parsed(
                                (#[trigger] aps.take(i as int)[t]).position,
                            ).size != 0;
                        assert(aps.take(i as int + 1)[t] == aps.take(i as int)[t]);
                    }
                }
            }
        }
        i = i + 1;
    }
    proof {
        assert(aps.take(n as int) =~= aps);
    }
    let mut out = String::new();
    out.append("<b>📊 Open Positions</b>\n\n👛 Wallet: ");
    out.append(wallet_display);
    if found {
        out.append("\n");
        out.append(body.as_str());
        out.append("\n");
    } else {
        out.append("\n\n<i>No open positions</i>\n\n");
    }
    out.append("<a href=\"https://legacy.hyperdash.com/trader/");
    out.append(wallet_address);
    out.append("\">Hyperdash</a>");
    proof {
        assert(out@ =~= report_str(aps, wallet_display@, wallet_address@));
    }
    out
}

} // verus!
