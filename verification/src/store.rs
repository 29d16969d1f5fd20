//! The position state store: one remembered instrument map per wallet.
//!
//! The store is mutated only by a detection pass for one wallet; a
//! restart may rebuild it from persisted rows before the first pass, so
//! live positions are not falsely reported as freshly opened.

use vstd::prelude::*;
use crate::detect::{
    PositionChange, StoreOp, detect_events, detect_ops, detect_wallet_changes, new_cache,
    spec_lookup, views_of, op_views, cache_wf, wf_change,
};
use crate::positions::{CachedPosition, UserState, wf_cached, lemma_parse_in_range};
use crate::smap::{
    SMap, Entries, has_key, val_of, key_idx, unique_keys, upsert, lemma_upsert, lemma_key_idx,
    lemma_key_idx_update, lemma_key_idx_from_front, lemma_key_idx_same_keys,
};
use crate::fixed::{parse_fixed, parse_fixed_spec};

verus! {

/// One persisted row: a remembered position for a wallet and an
/// instrument, numeric fields as the provider sent them.
#[derive(Debug, Clone)]
pub struct ActivePosition {
    pub wallet_address: String,
    pub coin: String,
    pub size: String,
    pub entry_px: String,
    pub unrealized_pnl: String,
    pub leverage: i64,
}

/// In-memory remembered state: wallet address to instrument to cached
/// fields.
pub struct PositionTracker {
    pub positions: SMap<SMap<CachedPosition>>,
}

impl PositionTracker {
    /// Wallets are keyed uniquely and every per-wallet map is itself
    /// well-formed.
    pub open spec fn wf(&self) -> bool {
        &&& self.positions.wf()
        &&& forall|i: int|
            0 <= i < self.positions@.len() ==> cache_wf((#[trigger] self.positions@[i]).1@)
    }

    /// The remembered per-instrument map for one wallet; an untracked
    /// wallet remembers nothing.
    pub open spec fn wallet_cache(&self, w: Seq<char>) -> Entries<CachedPosition> {
        if has_key(self.positions@, w) {
            val_of(self.positions@, w)@
        } else {
            Seq::empty()
        }
    }

    pub fn new() -> (t: Self)
        ensures
            t.wf(),
            t.positions@.len() == 0,
            forall|w: Seq<char>| #[trigger] t.wallet_cache(w) == Seq::<(
                Seq<char>,
                CachedPosition,
            )>::empty(),
    {
        PositionTracker { positions: SMap::new() }
    }
}

/// One detection pass for one wallet of the tracker: classify changes
/// against what it remembered, re-arm its memory to the fresh snapshot,
/// and return the events with the persistence operations they entail.
/// Other wallets' memories are untouched.
#[verifier::loop_isolation(false)]
pub fn sync_wallet(
    tracker: &mut PositionTracker,
    wallet_address: &String,
    user_state: &UserState,
) -> (r: (Vec<PositionChange>, Vec<StoreOp>))
    requires
        old(tracker).wf(),
    ensures
        final(tracker).wf(),
        views_of(r.0@) == detect_events(
            old(tracker).wallet_cache(wallet_address@),
            user_state.asset_positions@,
        ),
        op_views(r.1@) == detect_ops(
            old(tracker).wallet_cache(wallet_address@),
            user_state.asset_positions@,
        ),
        final(tracker).wallet_cache(wallet_address@) == new_cache(
            spec_lookup(user_state.asset_positions@),
        ),
        forall|w: Seq<char>|
            w != wallet_address@ ==> #[trigger] final(tracker).wallet_cache(w) == old(
                tracker,
            ).wallet_cache(w),
        forall|i: int| 0 <= i < r.0@.len() ==> wf_change(#[trigger] r.0@[i]@),
{
    let ghost w = wallet_address@;
    let idx: usize = match tracker.positions.find(wallet_address) {
        Some(i) => i,
        None => {
            let fresh: SMap<CachedPosition> = SMap::new();
            proof {
                lemma_upsert(tracker.positions@, w, fresh);
            }
            tracker.positions.insert(wallet_address.clone(), fresh);
            let l = tracker.positions.len();
            proof {
                lemma_key_idx(tracker.positions@, w);
                assert(tracker.positions@[l - 1].0 == w);
                lemma_key_idx_from_front(tracker.positions@, w, l as int - 1);
            }
            l - 1
        },
    };
    let ghost mid = tracker.positions@;
    proof {
        assert(idx < mid.len());
        assert(mid[idx as int].0 == w);
        assert(key_idx(mid, w) == idx);
        assert(mid[idx as int].1@ == old(tracker).wallet_cache(w));
        assert(cache_wf(mid[idx as int].1@));
    }
    let r = detect_wallet_changes(&mut tracker.positions.pairs[idx].1, user_state);
    proof {
        let fin = tracker.positions@;
        assert(fin =~= mid.update(idx as int, (w, fin[idx as int].1)));
        assert(unique_keys(fin)) by {
            assert forall|a: int, b: int| 0 <= a < b < fin.len() implies (#[trigger] fin[a]).0 != (
            #[trigger] fin[b]).0 by {
                assert(fin[a].0 == mid[a].0);
                assert(fin[b].0 == mid[b].0);
            }
        }
        assert forall|i: int| 0 <= i < fin.len() implies cache_wf((#[trigger] fin[i]).1@) by {
            if i != idx {
                assert(fin[i] == mid[i]);
            }
        }
        lemma_key_idx_update(mid, w, idx as int, (w, fin[idx as int].1));
        assert(tracker.wallet_cache(w) == new_cache(spec_lookup(user_state.asset_positions@)));
        assert forall|w2: Seq<char>| w2 != w implies #[trigger] tracker.wallet_cache(w2) == old(
            tracker,
        ).wallet_cache(w2) by {
            assert(has_key(fin, w2) == has_key(mid, w2)) by {
                if has_key(fin, w2) {
                    let a = choose|a: int| 0 <= a < fin.len() && (#[trigger] fin[a]).0 == w2;
                    assert(mid[a].0 == w2);
                }
                if has_key(mid, w2) {
                    let a = choose|a: int| 0 <= a < mid.len() && (#[trigger] mid[a]).0 == w2;
                    assert(fin[a].0 == w2);
                }
            }
            assert(has_key(mid, w2) == has_key(old(tracker).positions@, w2));
            if has_key(mid, w2) {
                lemma_key_idx_update(mid, w2, idx as int, (w, fin[idx as int].1));
                lemma_key_idx(mid, w2);
                assert(val_of(fin, w2) == val_of(mid, w2));
            }
        }
    }
    r
}

/// Detect the changes one fresh snapshot implies for one wallet; the
/// persistence operations are computed and dropped.
pub fn detect_position_changes(
    tracker: &mut PositionTracker,
    wallet_address: &String,
    user_state: &UserState,
) -> (changes: Vec<PositionChange>)
    requires
        old(tracker).wf(),
    ensures
        final(tracker).wf(),
        views_of(changes@) == detect_events(
            old(tracker).wallet_cache(wallet_address@),
            user_state.asset_positions@,
        ),
        final(tracker).wallet_cache(wallet_address@) == new_cache(
            spec_lookup(user_state.asset_positions@),
        ),
        forall|w: Seq<char>|
            w != wallet_address@ ==> #[trigger] final(tracker).wallet_cache(w) == old(
                tracker,
            ).wallet_cache(w),
        forall|i: int| 0 <= i < changes@.len() ==> wf_change(#[trigger] changes@[i]@),
{
    let r = sync_wallet(tracker, wallet_address, user_state);
    r.0
}


/// Fields a persisted row rehydrates to: margin is not persisted and
/// reads as zero; an out-of-range leverage reads as one.
pub open spec fn row_entry_spec(r: ActivePosition) -> CachedPosition {
    CachedPosition {
        size: parse_fixed_spec(r.size@),
        entry_px: parse_fixed_spec(r.entry_px@),
        margin_used: 0,
        unrealized_pnl: parse_fixed_spec(r.unrealized_pnl@),
        leverage: if 0 <= r.leverage <= u32::MAX {
            r.leverage as u32
        } else {
            1
        },
    }
}

pub open spec fn inner_of(d: Entries<Entries<CachedPosition>>, w: Seq<char>) -> Entries<
    CachedPosition,
> {
    if has_key(d, w) {
        val_of(d, w)
    } else {
        Seq::empty()
    }
}

/// The nested map a row list builds: a later row for the same wallet
/// and instrument wins.
pub open spec fn rows_spec(rows: Seq<ActivePosition>) -> Entries<Entries<CachedPosition>>
    decreases rows.len(),
{
    if rows.len() == 0 {
        Seq::empty()
    } else {
        let prev = rows_spec(rows.drop_last());
        let r = rows.last();
        upsert(
            prev,
            r.wallet_address@,
            upsert(inner_of(prev, r.wallet_address@), r.coin@, row_entry_spec(r)),
        )
    }
}

impl PositionTracker {
    /// The store with both levels as ghost entries.
    pub open spec fn deep(&self) -> Entries<Entries<CachedPosition>> {
        Seq::new(self.positions@.len(), |i: int| (self.positions@[i].0, self.positions@[i].1@))
    }
}

/// Remember one persisted row, as rehydration does.
#[verifier::loop_isolation(false)]
#[verifier::rlimit(50)]
pub fn insert_row(tracker: &mut PositionTracker, row: &ActivePosition)
    requires
        old(tracker).wf(),
    ensures
        final(tracker).wf(),
        final(tracker).deep() == upsert(
            old(tracker).deep(),
            row.wallet_address@,
            upsert(
                inner_of(old(tracker).deep(), row.wallet_address@),
                row.coin@,
                row_entry_spec(*row),
            ),
        ),
{
    let ghost w = row.wallet_address@;
    let ghost d0 = old(tracker).deep();
    proof {
        lemma_parse_in_range(row.size@);
        lemma_parse_in_range(row.entry_px@);
        lemma_parse_in_range(row.unrealized_pnl@);
        lemma_key_idx_same_keys(old(tracker).positions@, d0, w);
    }
    let entry = CachedPosition {
        size: parse_fixed(row.size.as_str()),
        entry_px: parse_fixed(row.entry_px.as_str()),
        margin_used: 0,
        unrealized_pnl: parse_fixed(row.unrealized_pnl.as_str()),
        leverage: if 0 <= row.leverage && row.leverage <= u32::MAX as i64 {
            row.leverage as u32
        } else {
            1
        },
    };
    let idx: usize = match tracker.positions.find(&row.wallet_address) {
        Some(i) => i,
        None => {
            let fresh: SMap<CachedPosition> = SMap::new();
            proof {
                lemma_upsert(tracker.positions@, w, fresh);
            }
            tracker.positions.insert(row.wallet_address.clone(), fresh);
            let l = tracker.positions.len();
            proof {
                lemma_key_idx(tracker.positions@, w);
                assert(tracker.positions@[l - 1].0 == w);
                lemma_key_idx_from_front(tracker.positions@, w, l as int - 1);
            }
            l - 1
        },
    };
    let ghost mid = tracker.positions@;
    proof {
        assert(idx < mid.len());
        assert(mid[idx as int].0 == w);
        assert(key_idx(mid, w) == idx);
        assert(mid[idx as int].1@ == inner_of(d0, w));
        assert(cache_wf(mid[idx as int].1@));
        lemma_upsert(mid[idx as int].1@, row.coin@, entry);
    }
    tracker.positions.pairs[idx].1.insert(row.coin.clone(), entry);
    proof {
        let fin = tracker.positions@;
        assert(fin =~= mid.update(idx as int, (w, fin[idx as int].1)));
        assert(fin[idx as int].1@ == upsert(inner_of(d0, w), row.coin@, entry));
        assert(unique_keys(fin)) by {
            assert forall|a: int, b: int| 0 <= a < b < fin.len() implies (#[trigger] fin[a]).0 != (
            #[trigger] fin[b]).0 by {
                assert(fin[a].0 == mid[a].0);
                assert(fin[b].0 == mid[b].0);
            }
        }
        assert forall|i: int| 0 <= i < fin.len() implies cache_wf((#[trigger] fin[i]).1@) by {
            if i != idx {
                assert(fin[i] == mid[i]);
            } else {
                let inner0 = inner_of(d0, w);
                let t2 = upsert(inner0, row.coin@, entry);
                assert(wf_cached(entry));
                if has_key(inner0, row.coin@) {
                    lemma_key_idx(inner0, row.coin@);
                    assert forall|b: int| 0 <= b < t2.len() implies wf_cached(
                        (#[trigger] t2[b]).1,
                    ) by {
                        if b != key_idx(inner0, row.coin@) {
                            assert(t2[b] == inner0[b]);
                        }
                    }
                } else {
                    assert forall|b: int| 0 <= b < t2.len() implies wf_cached(
                        (#[trigger] t2[b]).1,
                    ) by {
                        if b < inner0.len() {
                            assert(t2[b] == inner0[b]);
                        }
                    }
                }
            }
        }
        assert(entry == row_entry_spec(*row));
        if has_key(d0, w) {
            assert(key_idx(d0, w) == idx);
            assert(tracker.deep() =~= upsert(d0, w, upsert(inner_of(d0, w), row.coin@, entry)));
        } else {
            assert(idx == d0.len());
            assert(tracker.deep() =~= upsert(d0, w, upsert(inner_of(d0, w), row.coin@, entry)));
        }
    }
}

/// Rebuild the remembered state from persisted rows, so that a restart
/// does not report every live position as freshly opened.
#[verifier::loop_isolation(false)]
pub fn rehydrate(rows: &Vec<ActivePosition>) -> (t: PositionTracker)
    ensures
        t.wf(),
        t.deep() == rows_spec(rows@),
{
    let mut t = PositionTracker::new();
    proof {
        assert(t.deep() =~= rows_spec(rows@.take(0)));
    }
    let n = rows.len();
    let mut i: usize = 0;
    while i < n
        invariant
            0 <= i <= n,
            t.wf(),
            t.deep() == rows_spec(rows@.take(i as int)),
        decreases n - i,
    {
        proof {
            assert(rows@.take(i as int + 1).drop_last() =~= rows@.take(i as int));
            assert(rows@.take(i as int + 1).last() == rows@[i as int]);
        }
        insert_row(&mut t, &rows[i]);
        i = i + 1;
    }
    proof {
        assert(rows@.take(n as int) =~= rows@);
    }
    t
}

} // verus!
