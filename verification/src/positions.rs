//! The data a position snapshot carries.
//!
//! A `Position` holds the provider's fields verbatim: every numeric
//! field is a decimal string. `ParsedPos` is the same position with its
//! fields read as fixed-point amounts (leniently: a malformed field
//! reads as zero), and `CachedPosition` is the part of it the library
//! remembers between polls.

use vstd::prelude::*;
use crate::fixed::{
    parse_fixed, parse_fixed_spec, is_decimal, decimal_mag, is_negative, body_of, int_part,
    frac_part, lemma_digits_val_nonneg, lemma_frac_val_nonneg,
};
use vstd::arithmetic::mul::lemma_mul_nonnegative;

verus! {

/// One open position as the upstream provider reports it.
#[derive(Debug, Clone)]
pub struct Position {
    pub coin: String,
    pub szi: String,
    pub entry_px: Option<String>,
    pub position_value: String,
    pub unrealized_pnl: String,
    pub liquidation_px: Option<String>,
    pub margin_used: String,
    pub leverage: Option<Leverage>,
}

#[derive(Debug, Clone)]
pub struct Leverage {
    pub leverage_type: String,
    pub value: u32,
}

#[derive(Debug, Clone)]
pub struct AssetPosition {
    pub position: Position,
}

#[derive(Debug, Clone)]
pub struct MarginSummary {
    pub account_value: String,
    pub total_margin_used: String,
}

/// One wallet's full snapshot: its open positions and account totals.
#[derive(Debug, Clone)]
pub struct UserState {
    pub asset_positions: Vec<AssetPosition>,
    pub margin_summary: MarginSummary,
}

/// A position's numeric fields read as fixed-point amounts.
#[derive(Debug, Clone, Copy, PartialEq, Eq, Structural)]
pub struct ParsedPos {
    pub size: i64,
    pub entry_px: i64,
    pub position_value: i64,
    pub margin_used: i64,
    pub unrealized_pnl: i64,
    pub leverage: u32,
}

/// Last-known fields remembered for one instrument between polls.
#[derive(Debug, Clone, Copy, PartialEq, Eq, Structural)]
pub struct CachedPosition {
    pub size: i64,
    pub entry_px: i64,
    pub margin_used: i64,
    pub unrealized_pnl: i64,
    pub leverage: u32,
}

/// A missing entry price reads as zero; a missing leverage as one.
pub open spec fn spec_parsed(p: Position) -> ParsedPos {
    ParsedPos {
        size: parse_fixed_spec(p.szi@),
        entry_px: match p.entry_px {
            Some(e) => parse_fixed_spec(e@),
            None => 0,
        },
        position_value: parse_fixed_spec(p.position_value@),
        margin_used: parse_fixed_spec(p.margin_used@),
        unrealized_pnl: parse_fixed_spec(p.unrealized_pnl@),
        leverage: match p.leverage {
            Some(l) => l.value,
            None => 1,
        },
    }
}

pub open spec fn cached_of(q: ParsedPos) -> CachedPosition {
    CachedPosition {
        size: q.size,
        entry_px: q.entry_px,
        margin_used: q.margin_used,
        unrealized_pnl: q.unrealized_pnl,
        leverage: q.leverage,
    }
}

/// Amounts the parser can produce: magnitude at most `i64::MAX`, so
/// negation and absolute value never overflow.
pub open spec fn wf_amount(v: i64) -> bool {
    v > i64::MIN
}

pub open spec fn wf_parsed(q: ParsedPos) -> bool {
    &&& wf_amount(q.size)
    &&& wf_amount(q.entry_px)
    &&& wf_amount(q.position_value)
    &&& wf_amount(q.margin_used)
    &&& wf_amount(q.unrealized_pnl)
}

pub open spec fn wf_cached(c: CachedPosition) -> bool {
    &&& wf_amount(c.size)
    &&& wf_amount(c.entry_px)
    &&& wf_amount(c.margin_used)
    &&& wf_amount(c.unrealized_pnl)
}

/// A lenient read never yields `i64::MIN`: a magnitude fits only up to
/// `i64::MAX`.
pub proof fn lemma_parse_in_range(s: Seq<char>)
    ensures
        wf_amount(parse_fixed_spec(s)),
{
    if is_decimal(s) && decimal_mag(s) <= i64::MAX {
        let body = body_of(s);
        lemma_digits_val_nonneg(int_part(body));
        lemma_frac_val_nonneg(frac_part(body));
        lemma_mul_nonnegative(
            crate::fixed::digits_val(int_part(body)),
            crate::fixed::SCALE as int,
        );
    }
}

pub proof fn lemma_parsed_wf(p: Position)
    ensures
        wf_parsed(spec_parsed(p)),
        wf_cached(cached_of(spec_parsed(p))),
{
    lemma_parse_in_range(p.szi@);
    match p.entry_px {
        Some(e) => lemma_parse_in_range(e@),
        None => (),
    }
    lemma_parse_in_range(p.position_value@);
    lemma_parse_in_range(p.margin_used@);
    lemma_parse_in_range(p.unrealized_pnl@);
}

/// Read every numeric field of a provider position.
pub fn parse_position(p: &Position) -> (q: ParsedPos)
    ensures
        q == spec_parsed(*p),
        wf_parsed(q),
{
    proof {
        lemma_parsed_wf(*p);
    }
    ParsedPos {
        size: parse_fixed(p.szi.as_str()),
        entry_px: match &p.entry_px {
            Some(e) => parse_fixed(e.as_str()),
            None => 0,
        },
        position_value: parse_fixed(p.position_value.as_str()),
        margin_used: parse_fixed(p.margin_used.as_str()),
        unrealized_pnl: parse_fixed(p.unrealized_pnl.as_str()),
        leverage: match &p.leverage {
            Some(l) => l.value,
            None => 1,
        },
    }
}

/// Keep of a parsed position what the next poll compares against.
pub fn cache_entry(q: &ParsedPos) -> (c: CachedPosition)
    ensures
        c == cached_of(*q),
{
    CachedPosition {
        size: q.size,
        entry_px: q.entry_px,
        margin_used: q.margin_used,
        unrealized_pnl: q.unrealized_pnl,
        leverage: q.leverage,
    }
}

} // verus!
