//! Classifying the transitions between two polls of one wallet.
//!
//! A detection pass compares a fresh snapshot against the remembered
//! per-instrument cache. Instruments that vanished are reported closed
//! (or liquidated, by a margin-ratio heuristic); instruments that
//! appeared are reported opened; instruments whose absolute size moved
//! beyond a dust tolerance are reported increased or decreased, and
//! otherwise a margin move beyond its own tolerance is reported. The
//! cache is then re-armed to exactly the fresh snapshot, and a list of
//! store operations says which persisted entries to delete or upsert.

use vstd::prelude::*;
use crate::positions::{
    AssetPosition, UserState, ParsedPos, CachedPosition, spec_parsed, cached_of, parse_position,
    cache_entry, wf_parsed, wf_cached, lemma_parsed_wf, wf_amount,
};
use crate::fixed::{abs64, abs_amount};
use crate::smap::{SMap, Entries, has_key, val_of, unique_keys, upsert, lemma_upsert, lemma_key_idx};
use vstd::arithmetic::mul::{lemma_mul_inequality, lemma_mul_nonnegative};
use vstd::arithmetic::div_mod::{lemma_div_is_ordered, lemma_div_by_multiple, lemma_div_pos_is_pos};

verus! {

/// Absolute size moves of at most this many fixed-point units (0.0001)
/// are dust and produce no event.
pub const SIZE_TOLERANCE: i64 = 10_000;

/// Margin moves of at most this many fixed-point units (0.01) produce
/// no event.
pub const MARGIN_TOLERANCE: i64 = 1_000_000;

/// One classified change of a wallet's holdings in one instrument.
/// Sizes are absolute values; direction travels separately.
#[derive(Debug)]
pub enum PositionChange {
    Opened { coin: String, size: i64, entry_price: i64, leverage: u32, position_value: i64, is_long: bool },
    Closed { coin: String, realized_pnl: i64, entry_price: i64, was_long: bool, leverage: u32 },
    Increased { coin: String, old_size: i64, new_size: i64, entry_price: i64, leverage: u32, is_long: bool },
    Decreased { coin: String, old_size: i64, new_size: i64, entry_price: i64, realized_pnl: i64, leverage: u32, is_long: bool },
    MarginAdded { coin: String, old_margin: i64, new_margin: i64, leverage: u32, is_long: bool },
    MarginRemoved { coin: String, old_margin: i64, new_margin: i64, leverage: u32, is_long: bool },
    Liquidated { coin: String, lost_margin: i64, was_long: bool, leverage: u32 },
}

/// Ghost image of a change: the instrument as a character sequence.
pub enum ChangeV {
    Opened { coin: Seq<char>, size: i64, entry_price: i64, leverage: u32, position_value: i64, is_long: bool },
    Closed { coin: Seq<char>, realized_pnl: i64, entry_price: i64, was_long: bool, leverage: u32 },
    Increased { coin: Seq<char>, old_size: i64, new_size: i64, entry_price: i64, leverage: u32, is_long: bool },
    Decreased { coin: Seq<char>, old_size: i64, new_size: i64, entry_price: i64, realized_pnl: i64, leverage: u32, is_long: bool },
    MarginAdded { coin: Seq<char>, old_margin: i64, new_margin: i64, leverage: u32, is_long: bool },
    MarginRemoved { coin: Seq<char>, old_margin: i64, new_margin: i64, leverage: u32, is_long: bool },
    Liquidated { coin: Seq<char>, lost_margin: i64, was_long: bool, leverage: u32 },
}

impl View for PositionChange {
    type V = ChangeV;

    open spec fn view(&self) -> ChangeV {
        match *self {
            PositionChange::Opened { ref coin, size, entry_price, leverage, position_value, is_long } =>
                ChangeV::Opened { coin: coin@, size, entry_price, leverage, position_value, is_long },
            PositionChange::Closed { ref coin, realized_pnl, entry_price, was_long, leverage } =>
                ChangeV::Closed { coin: coin@, realized_pnl, entry_price, was_long, leverage },
            PositionChange::Increased { ref coin, old_size, new_size, entry_price, leverage, is_long } =>
                ChangeV::Increased { coin: coin@, old_size, new_size, entry_price, leverage, is_long },
            PositionChange::Decreased { ref coin, old_size, new_size, entry_price, realized_pnl, leverage, is_long } =>
                ChangeV::Decreased { coin: coin@, old_size, new_size, entry_price, realized_pnl, leverage, is_long },
            PositionChange::MarginAdded { ref coin, old_margin, new_margin, leverage, is_long } =>
                ChangeV::MarginAdded { coin: coin@, old_margin, new_margin, leverage, is_long },
            PositionChange::MarginRemoved { ref coin, old_margin, new_margin, leverage, is_long } =>
                ChangeV::MarginRemoved { coin: coin@, old_margin, new_margin, leverage, is_long },
            PositionChange::Liquidated { ref coin, lost_margin, was_long, leverage } =>
                ChangeV::Liquidated { coin: coin@, lost_margin, was_long, leverage },
        }
    }
}

/// One persistence side effect a detection pass asks for.
#[derive(Debug)]
pub enum StoreOp {
    Upsert { coin: String, entry: CachedPosition },
    Delete { coin: String },
}

pub enum StoreOpV {
    Upsert { coin: Seq<char>, entry: CachedPosition },
    Delete { coin: Seq<char> },
}

impl View for StoreOp {
    type V = StoreOpV;

    open spec fn view(&self) -> StoreOpV {
        match *self {
            StoreOp::Upsert { ref coin, entry } => StoreOpV::Upsert { coin: coin@, entry },
            StoreOp::Delete { ref coin } => StoreOpV::Delete { coin: coin@ },
        }
    }
}

pub open spec fn views_of(s: Seq<PositionChange>) -> Seq<ChangeV> {
    s.map_values(|c: PositionChange| c@)
}

pub open spec fn op_views(s: Seq<StoreOp>) -> Seq<StoreOpV> {
    s.map_values(|o: StoreOp| o@)
}

/// The direction a cached size encodes: non-negative reads as long.
pub open spec fn spec_was_long(c: CachedPosition) -> bool {
    c.size >= 0
}

/// The liquidation heuristic: margin was posted, the position was under
/// water, and the loss ate more than nine tenths of the margin.
pub open spec fn spec_liquidated(old: CachedPosition) -> bool {
    &&& old.margin_used > 0
    &&& old.unrealized_pnl < 0
    &&& abs64(old.unrealized_pnl) * 10 > old.margin_used * 9
    &&& abs64(old.size) > 0
}

/// The event a vanished instrument yields.
pub open spec fn closure_event(coin: Seq<char>, old: CachedPosition) -> ChangeV {
    if spec_liquidated(old) {
        ChangeV::Liquidated {
            coin,
            lost_margin: old.margin_used,
            was_long: spec_was_long(old),
            leverage: old.leverage,
        }
    } else {
        ChangeV::Closed {
            coin,
            realized_pnl: old.unrealized_pnl,
            entry_price: old.entry_px,
            was_long: spec_was_long(old),
            leverage: old.leverage,
        }
    }
}

/// Realized PnL estimated for a partial close: the cached unrealized
/// PnL prorated by the share of the position that went away.
pub open spec fn prorated64(pnl: i64, oa: i64, na: i64) -> i64
    recommends
        wf_amount(pnl),
        0 <= na < oa,
{
    let mag = abs64(pnl) * (oa - na) / (oa as int);
    if pnl < 0 {
        (0 - mag) as i64
    } else {
        mag as i64
    }
}

/// The events an instrument present in the fresh snapshot yields,
/// given what was cached for it.
pub open spec fn update_event(prev: Option<CachedPosition>, coin: Seq<char>, q: ParsedPos) -> Seq<
    ChangeV,
> {
    match prev {
        None => seq![
            ChangeV::Opened {
                coin,
                size: abs64(q.size),
                entry_price: q.entry_px,
                leverage: q.leverage,
                position_value: q.position_value,
                is_long: q.size > 0,
            },
        ],
        Some(old) => {
            let oa = abs64(old.size);
            let na = abs64(q.size);
            if na - oa > SIZE_TOLERANCE || oa - na > SIZE_TOLERANCE {
                if na > oa {
                    seq![
                        ChangeV::Increased {
                            coin,
                            old_size: oa,
                            new_size: na,
                            entry_price: q.entry_px,
                            leverage: q.leverage,
                            is_long: q.size > 0,
                        },
                    ]
                } else {
                    seq![
                        ChangeV::Decreased {
                            coin,
                            old_size: oa,
                            new_size: na,
                            entry_price: q.entry_px,
                            realized_pnl: prorated64(old.unrealized_pnl, oa, na),
                            leverage: q.leverage,
                            is_long: q.size > 0,
                        },
                    ]
                }
            } else {
                if q.margin_used - old.margin_used > MARGIN_TOLERANCE {
                    seq![
                        ChangeV::MarginAdded {
                            coin,
                            old_margin: old.margin_used,
                            new_margin: q.margin_used,
                            leverage: q.leverage,
                            is_long: q.size > 0,
                        },
                    ]
                } else if old.margin_used - q.margin_used > MARGIN_TOLERANCE {
                    seq![
                        ChangeV::MarginRemoved {
                            coin,
                            old_margin: old.margin_used,
                            new_margin: q.margin_used,
                            leverage: q.leverage,
                            is_long: q.size > 0,
                        },
                    ]
                } else {
                    Seq::empty()
                }
            }
        },
    }
}

/// Every numeric field of an event is renderable: sizes are
/// non-negative, signed amounts sit above `i64::MIN`.
pub open spec fn wf_change(c: ChangeV) -> bool {
    match c {
        ChangeV::Opened { size, entry_price, position_value, .. } => size >= 0 && wf_amount(
            entry_price,
        ) && wf_amount(position_value),
        ChangeV::Closed { realized_pnl, entry_price, .. } => wf_amount(realized_pnl) && wf_amount(
            entry_price,
        ),
        ChangeV::Increased { old_size, new_size, entry_price, .. } => old_size >= 0 && new_size
            >= 0 && wf_amount(entry_price),
        ChangeV::Decreased { old_size, new_size, entry_price, realized_pnl, .. } => old_size >= 0
            && new_size >= 0 && wf_amount(entry_price) && wf_amount(realized_pnl),
        ChangeV::MarginAdded { old_margin, new_margin, .. } => wf_amount(old_margin) && wf_amount(
            new_margin,
        ) && old_margin < new_margin,
        ChangeV::MarginRemoved { old_margin, new_margin, .. } => wf_amount(old_margin)
            && wf_amount(new_margin) && new_margin < old_margin,
        ChangeV::Liquidated { lost_margin, .. } => lost_margin >= 0,
    }
}

/// The prorated estimate never exceeds the cached PnL in magnitude.
pub proof fn lemma_prorated_bound(pnl: i64, oa: i64, na: i64)
    requires
        wf_amount(pnl),
        0 <= na < oa,
    ensures
        0 <= abs64(pnl) * (oa - na) / (oa as int) <= abs64(pnl),
        0 <= abs64(prorated64(pnl, oa, na)) <= abs64(pnl),
        wf_amount(prorated64(pnl, oa, na)),
        pnl >= 0 ==> prorated64(pnl, oa, na) >= 0,
        pnl < 0 ==> prorated64(pnl, oa, na) <= 0,
{
    let a = abs64(pnl) as int;
    let d = oa - na;
    let mag = a * d / (oa as int);
    lemma_mul_nonnegative(a, d);
    lemma_div_pos_is_pos(a * d, oa as int);
    lemma_mul_inequality(d, oa as int, a);
    assert(d * a == a * d) by {
        vstd::arithmetic::mul::lemma_mul_is_commutative(d, a);
    }
    assert(oa * a == a * (oa as int)) by {
        vstd::arithmetic::mul::lemma_mul_is_commutative(oa as int, a);
    }
    lemma_div_is_ordered(a * d, a * (oa as int), oa as int);
    lemma_div_by_multiple(a, oa as int);
    assert(a * (oa as int) == (oa as int) * a) by {
        vstd::arithmetic::mul::lemma_mul_is_commutative(a, oa as int);
    }
    assert(mag <= a);
}


/// Instrument lookup built from a snapshot: zero-size positions are
/// dropped; a repeated instrument keeps its first slot and last fields.
pub open spec fn spec_lookup(snap: Seq<AssetPosition>) -> Entries<ParsedPos>
    decreases snap.len(),
{
    if snap.len() == 0 {
        Seq::empty()
    } else {
        let prev = spec_lookup(snap.drop_last());
        let q = spec_parsed(snap.last().position);
        if q.size == 0 {
            prev
        } else {
            upsert(prev, snap.last().position.coin@, q)
        }
    }
}

/// The lookup is keyed uniquely and holds only open (non-zero-size)
/// positions with every field in range.
pub proof fn lemma_lookup_wf(snap: Seq<AssetPosition>)
    ensures
        unique_keys(spec_lookup(snap)),
        forall|i: int|
            0 <= i < spec_lookup(snap).len() ==> wf_parsed(#[trigger] spec_lookup(snap)[i].1)
                && spec_lookup(snap)[i].1.size != 0,
    decreases snap.len(),
{
    if snap.len() > 0 {
        lemma_lookup_wf(snap.drop_last());
        let prev = spec_lookup(snap.drop_last());
        let p = snap.last().position;
        let q = spec_parsed(p);
        lemma_parsed_wf(p);
        if q.size != 0 {
            lemma_upsert(prev, p.coin@, q);
            let t = upsert(prev, p.coin@, q);
            if has_key(prev, p.coin@) {
                lemma_key_idx(prev, p.coin@);
                assert forall|i: int| 0 <= i < t.len() implies wf_parsed(#[trigger] t[i].1)
                    && t[i].1.size != 0 by {
                    if i != crate::smap::key_idx(prev, p.coin@) {
                        assert(t[i] == prev[i]);
                    }
                }
            } else {
                assert forall|i: int| 0 <= i < t.len() implies wf_parsed(#[trigger] t[i].1)
                    && t[i].1.size != 0 by {
                    if i < prev.len() {
                        assert(t[i] == prev[i]);
                    }
                }
            }
        }
    }
}

pub open spec fn prev_of(cache: Entries<CachedPosition>, k: Seq<char>) -> Option<CachedPosition> {
    if has_key(cache, k) {
        Some(val_of(cache, k))
    } else {
        None
    }
}

/// Events of the disappearance pass, in cache entry order.
pub open spec fn closure_events(cache: Entries<CachedPosition>, lk: Entries<ParsedPos>) -> Seq<
    ChangeV,
>
    decreases cache.len(),
{
    if cache.len() == 0 {
        Seq::empty()
    } else {
        closure_events(cache.drop_last(), lk) + if has_key(lk, cache.last().0) {
            Seq::empty()
        } else {
            seq![closure_event(cache.last().0, cache.last().1)]
        }
    }
}

/// Deletions of the disappearance pass, in cache entry order.
pub open spec fn delete_ops(cache: Entries<CachedPosition>, lk: Entries<ParsedPos>) -> Seq<
    StoreOpV,
>
    decreases cache.len(),
{
    if cache.len() == 0 {
        Seq::empty()
    } else {
        delete_ops(cache.drop_last(), lk) + if has_key(lk, cache.last().0) {
            Seq::empty()
        } else {
            seq![StoreOpV::Delete { coin: cache.last().0 }]
        }
    }
}

/// Events of the presence pass, in lookup entry order.
pub open spec fn update_events(cache: Entries<CachedPosition>, lk: Entries<ParsedPos>) -> Seq<
    ChangeV,
>
    decreases lk.len(),
{
    if lk.len() == 0 {
        Seq::empty()
    } else {
        update_events(cache, lk.drop_last()) + update_event(
            prev_of(cache, lk.last().0),
            lk.last().0,
            lk.last().1,
        )
    }
}

/// Upserts of the presence pass: entries that would change are written.
pub open spec fn upsert_ops(cache: Entries<CachedPosition>, lk: Entries<ParsedPos>) -> Seq<
    StoreOpV,
>
    decreases lk.len(),
{
    if lk.len() == 0 {
        Seq::empty()
    } else {
        upsert_ops(cache, lk.drop_last()) + if prev_of(cache, lk.last().0) == Some(
            cached_of(lk.last().1),
        ) {
            Seq::empty()
        } else {
            seq![StoreOpV::Upsert { coin: lk.last().0, entry: cached_of(lk.last().1) }]
        }
    }
}

/// The cache a pass leaves behind: exactly the open positions of the
/// fresh snapshot, in lookup order.
pub open spec fn new_cache(lk: Entries<ParsedPos>) -> Entries<CachedPosition> {
    Seq::new(lk.len(), |i: int| (lk[i].0, cached_of(lk[i].1)))
}

/// Everything one detection pass reports for one wallet: closures
/// first, then opens and updates.
pub open spec fn detect_events(cache: Entries<CachedPosition>, snap: Seq<AssetPosition>) -> Seq<
    ChangeV,
> {
    closure_events(cache, spec_lookup(snap)) + update_events(cache, spec_lookup(snap))
}

/// The persistence side effects of one detection pass.
pub open spec fn detect_ops(cache: Entries<CachedPosition>, snap: Seq<AssetPosition>) -> Seq<
    StoreOpV,
> {
    delete_ops(cache, spec_lookup(snap)) + upsert_ops(cache, spec_lookup(snap))
}

/// A well-formed cache: unique instruments, fields in range.
pub open spec fn cache_wf(s: Entries<CachedPosition>) -> bool {
    unique_keys(s) && forall|i: int| 0 <= i < s.len() ==> wf_cached(#[trigger] s[i].1)
}

fn make_closure_event(coin: String, old: CachedPosition) -> (ev: PositionChange)
    requires
        wf_cached(old),
    ensures
        ev@ == closure_event(coin@, old),
        wf_change(ev@),
{
    let pnl_abs = abs_amount(old.unrealized_pnl);
    let size_abs = abs_amount(old.size);
    let liq = old.margin_used > 0 && old.unrealized_pnl < 0 && (pnl_abs as i128) * 10 > (
    old.margin_used as i128) * 9 && size_abs > 0;
    if liq {
        PositionChange::Liquidated {
            coin,
            lost_margin: old.margin_used,
            was_long: old.size >= 0,
            leverage: old.leverage,
        }
    } else {
        PositionChange::Closed {
            coin,
            realized_pnl: old.unrealized_pnl,
            entry_price: old.entry_px,
            was_long: old.size >= 0,
            leverage: old.leverage,
        }
    }
}

fn prorated_amount(pnl: i64, oa: i64, na: i64) -> (r: i64)
    requires
        wf_amount(pnl),
        0 <= na < oa,
    ensures
        r == prorated64(pnl, oa, na),
{
    proof {
        lemma_prorated_bound(pnl, oa, na);
        vstd::arithmetic::mul::lemma_mul_upper_bound(
            abs64(pnl) as int,
            i64::MAX as int,
            (oa - na) as int,
            i64::MAX as int,
        );
    }
    let a = abs_amount(pnl);
    let mag_wide = (a as u128) * ((oa - na) as u128) / (oa as u128);
    proof {
        assert(mag_wide == abs64(pnl) * (oa - na) / (oa as int));
        assert(mag_wide <= abs64(pnl));
    }
    let mag = mag_wide as i64;
    if pnl < 0 {
        0 - mag
    } else {
        mag
    }
}

fn make_update_event(prev: Option<CachedPosition>, coin: String, q: &ParsedPos) -> (r: Option<
    PositionChange,
>)
    requires
        wf_parsed(*q),
        match prev {
            Some(c) => wf_cached(c),
            None => true,
        },
    ensures
        match r {
            Some(ev) => update_event(prev, coin@, *q) == seq![ev@] && wf_change(ev@),
            None => update_event(prev, coin@, *q) == Seq::<ChangeV>::empty(),
        },
{
    match prev {
        None => Some(
            PositionChange::Opened {
                coin,
                size: abs_amount(q.size),
                entry_price: q.entry_px,
                leverage: q.leverage,
                position_value: q.position_value,
                is_long: q.size > 0,
            },
        ),
        Some(old) => {
            let oa = abs_amount(old.size);
            let na = abs_amount(q.size);
            if na - oa > SIZE_TOLERANCE || oa - na > SIZE_TOLERANCE {
                if na > oa {
                    Some(
                        PositionChange::Increased {
                            coin,
                            old_size: oa,
                            new_size: na,
                            entry_price: q.entry_px,
                            leverage: q.leverage,
                            is_long: q.size > 0,
                        },
                    )
                } else {
                    proof {
                        lemma_prorated_bound(old.unrealized_pnl, oa, na);
                    }
                    Some(
                        PositionChange::Decreased {
                            coin,
                            old_size: oa,
                            new_size: na,
                            entry_price: q.entry_px,
                            realized_pnl: prorated_amount(old.unrealized_pnl, oa, na),
                            leverage: q.leverage,
                            is_long: q.size > 0,
                        },
                    )
                }
            } else {
                let wide_new = q.margin_used as i128;
                let wide_old = old.margin_used as i128;
                if wide_new - wide_old > MARGIN_TOLERANCE as i128 {
                    Some(
                        PositionChange::MarginAdded {
                            coin,
                            old_margin: old.margin_used,
                            new_margin: q.margin_used,
                            leverage: q.leverage,
                            is_long: q.size > 0,
                        },
                    )
                } else if wide_old - wide_new > MARGIN_TOLERANCE as i128 {
                    Some(
                        PositionChange::MarginRemoved {
                            coin,
                            old_margin: old.margin_used,
                            new_margin: q.margin_used,
                            leverage: q.leverage,
                            is_long: q.size > 0,
                        },
                    )
                } else {
                    None
                }
            }
        },
    }
}


proof fn lemma_views_push(s: Seq<PositionChange>, e: PositionChange)
    ensures
        views_of(s.push(e)) == views_of(s).push(e@),
{
    assert(views_of(s.push(e)) =~= views_of(s).push(e@));
}

proof fn lemma_op_views_push(s: Seq<StoreOp>, o: StoreOp)
    ensures
        op_views(s.push(o)) == op_views(s).push(o@),
{
    assert(op_views(s.push(o)) =~= op_views(s).push(o@));
}

/// One detection pass for one wallet: classify every change between
/// the cached state and the fresh snapshot, re-arm the cache to
/// exactly the snapshot's open positions, and say which persisted
/// entries to delete or upsert. Closures come first, then opens and
/// updates; the pass never fails, whatever the snapshot holds.
#[verifier::loop_isolation(false)]
#[verifier::rlimit(100)]
pub fn detect_wallet_changes(cache: &mut SMap<CachedPosition>, user_state: &UserState) -> (r: (
    Vec<PositionChange>,
    Vec<StoreOp>,
))
    requires
        cache_wf(old(cache)@),
    ensures
        cache_wf(final(cache)@),
        final(cache)@ == new_cache(spec_lookup(user_state.asset_positions@)),
        views_of(r.0@) == detect_events(old(cache)@, user_state.asset_positions@),
        op_views(r.1@) == detect_ops(old(cache)@, user_state.asset_positions@),
        forall|i: int| 0 <= i < r.0@.len() ==> wf_change(#[trigger] r.0@[i]@),
{
    let ghost cache0 = cache@;
    let ghost snap = user_state.asset_positions@;
    let n = user_state.asset_positions.len();
    let mut lk: SMap<ParsedPos> = SMap::new();
    let mut i: usize = 0;
    while i < n
        invariant
            0 <= i <= n,
            lk.wf(),
            lk@ == spec_lookup(snap.take(i as int)),
        decreases n - i,
    {
        proof {
            assert(snap.take(i as int + 1).drop_last() =~= snap.take(i as int));
            assert(snap.take(i as int + 1).last() == snap[i as int]);
        }
        let q = parse_position(&user_state.asset_positions[i].position);
        if q.size != 0 {
            lk.insert(user_state.asset_positions[i].position.coin.clone(), q);
        }
        i = i + 1;
    }
    proof {
        assert(snap.take(n as int) =~= snap);
        lemma_lookup_wf(snap);
        assert(lk@ == spec_lookup(snap));
    }
    let mut changes: Vec<PositionChange> = Vec::new();
    let mut ops: Vec<StoreOp> = Vec::new();
    let m = cache.pairs.len();
    let mut j: usize = 0;
    while j < m
        invariant
            0 <= j <= m,
            cache@ == cache0,
            m == cache0.len(),
            views_of(changes@) == closure_events(cache0.take(j as int), lk@),
            op_views(ops@) == delete_ops(cache0.take(j as int), lk@),
            forall|t: int| 0 <= t < changes@.len() ==> wf_change(#[trigger] changes@[t]@),
        decreases m - j,
    {
        proof {
            assert(cache0.take(j as int + 1).drop_last() =~= cache0.take(j as int));
            assert(cache0.take(j as int + 1).last() == cache0[j as int]);
        }
        let coin = &cache.pairs[j].0;
        let old_entry = cache.pairs[j].1;
        proof {
            assert(cache0[j as int].0 == coin@);
            assert(cache0[j as int].1 == old_entry);
            assert(wf_cached(old_entry));
        }
        if !lk.contains_key(coin) {
            let ev = make_closure_event(coin.clone(), old_entry);
            proof {
                lemma_views_push(changes@, ev);
            }
            changes.push(ev);
            let op = StoreOp::Delete { coin: coin.clone() };
            proof {
                lemma_op_views_push(ops@, op);
            }
            ops.push(op);
            proof {
                assert(views_of(changes@) =~= closure_events(cache0.take(j as int + 1), lk@));
                assert(op_views(ops@) =~= delete_ops(cache0.take(j as int + 1), lk@));
            }
        } else {
            proof {
                assert(views_of(changes@) =~= closure_events(cache0.take(j as int + 1), lk@));
                assert(op_views(ops@) =~= delete_ops(cache0.take(j as int + 1), lk@));
            }
        }
        j = j + 1;
    }
    proof {
        assert(cache0.take(m as int) =~= cache0);
    }
    let ln = lk.pairs.len();
    let mut t: usize = 0;
    while t < ln
        invariant
            0 <= t <= ln,
            cache@ == cache0,
            ln == lk@.len(),
            views_of(changes@) == closure_events(cache0, lk@) + update_events(
                cache0,
                lk@.take(t as int),
            ),
            op_views(ops@) == delete_ops(cache0, lk@) + upsert_ops(cache0, lk@.take(t as int)),
            forall|w: int| 0 <= w < changes@.len() ==> wf_change(#[trigger] changes@[w]@),
        decreases ln - t,
    {
        proof {
            assert(lk@.take(t as int + 1).drop_last() =~= lk@.take(t as int));
            assert(lk@.take(t as int + 1).last() == lk@[t as int]);
            assert(wf_parsed(lk@[t as int].1));
        }
        let coin = &lk.pairs[t].0;
        let q = lk.pairs[t].1;
        proof {
            assert((coin@, q) == lk@[t as int]);
        }
        let prev: Option<CachedPosition> = match cache.get(coin) {
            Some(c) => Some(*c),
            None => None,
        };
        proof {
            assert(prev == prev_of(cache0, coin@));
            if prev is Some {
                lemma_key_idx(cache0, coin@);
                assert(wf_cached(prev->Some_0));
            }
        }
        match make_update_event(prev, coin.clone(), &q) {
            Some(ev) => {
                proof {
                    lemma_views_push(changes@, ev);
                }
                changes.push(ev);
                proof {
                    assert(views_of(changes@) =~= closure_events(cache0, lk@) + update_events(
                        cache0,
                        lk@.take(t as int + 1),
                    ));
                }
            },
            None => {
                proof {
                    assert(views_of(changes@) =~= closure_events(cache0, lk@) + update_events(
                        cache0,
                        lk@.take(t as int + 1),
                    ));
                }
            },
        }
        let entry = cache_entry(&q);
        let emit_upsert = match &prev {
            Some(c) => !(*c == entry),
            None => true,
        };
        if emit_upsert {
            let op = StoreOp::Upsert { coin: coin.clone(), entry };
            proof {
                lemma_op_views_push(ops@, op);
            }
            ops.push(op);
            proof {
                assert(op_views(ops@) =~= delete_ops(cache0, lk@) + upsert_ops(
                    cache0,
                    lk@.take(t as int + 1),
                ));
            }
        } else {
            proof {
                assert(op_views(ops@) =~= delete_ops(cache0, lk@) + upsert_ops(
                    cache0,
                    lk@.take(t as int + 1),
                ));
            }
        }
        t = t + 1;
    }
    let mut new_pairs: Vec<(String, CachedPosition)> = Vec::new();
    let mut u: usize = 0;
    while u < ln
        invariant
            0 <= u <= ln,
            cache@ == cache0,
            ln == lk@.len(),
            new_pairs@.len() == u,
            forall|w: int|
                0 <= w < u ==> (#[trigger] new_pairs@[w]).0@ == lk@[w].0 && new_pairs@[w].1
                    == cached_of(lk@[w].1),
        decreases ln - u,
    {
        let coin2 = lk.pairs[u].0.clone();
        let entry2 = cache_entry(&lk.pairs[u].1);
        new_pairs.push((coin2, entry2));
        u = u + 1;
    }
    cache.pairs = new_pairs;
    proof {
        assert(lk@.take(ln as int) =~= lk@);
        assert(cache@ =~= new_cache(lk@));
        assert forall|w: int| 0 <= w < cache@.len() implies wf_cached(
            #[trigger] cache@[w].1,
        ) by {
            assert(wf_parsed(lk@[w].1));
        }
        assert(unique_keys(cache@)) by {
            assert forall|a: int, b: int| 0 <= a < b < cache@.len() implies (
            #[trigger] cache@[a]).0 != (#[trigger] cache@[b]).0 by {
                assert(cache@[a].0 == lk@[a].0);
                assert(cache@[b].0 == lk@[b].0);
            }
        }
        assert(views_of(changes@) == detect_events(cache0, snap));
        assert(op_views(ops@) == detect_ops(cache0, snap));
    }
    (changes, ops)
}

} // verus!
