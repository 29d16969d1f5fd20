//! Laws of the change detector.
//!
//! Each public proof here states a guarantee of a detection pass for
//! every cache and every snapshot: detection is idempotent once the
//! cache is synchronized, a vanished instrument yields exactly one
//! closure event and leaves the cache, a new instrument yields exactly
//! one opening event and enters the cache, dust-sized moves yield no
//! size event, and a zero-or-malformed size keeps an instrument out of
//! the lookup altogether.

use vstd::prelude::*;
use crate::detect::{
    ChangeV, StoreOpV, closure_event, closure_events, update_event, update_events, delete_ops,
    upsert_ops, detect_events, detect_ops, new_cache, spec_lookup, prev_of, SIZE_TOLERANCE,
};
use crate::positions::{AssetPosition, ParsedPos, CachedPosition, cached_of, spec_parsed};
use crate::fixed::abs64;
use crate::smap::{
    Entries, has_key, val_of, key_idx, unique_keys, upsert, lemma_upsert, lemma_key_idx,
    lemma_key_idx_same_keys,
};

verus! {

/// The instrument an event concerns.
pub open spec fn coin_of(c: ChangeV) -> Seq<char> {
    match c {
        ChangeV::Opened { coin, .. } => coin,
        ChangeV::Closed { coin, .. } => coin,
        ChangeV::Increased { coin, .. } => coin,
        ChangeV::Decreased { coin, .. } => coin,
        ChangeV::MarginAdded { coin, .. } => coin,
        ChangeV::MarginRemoved { coin, .. } => coin,
        ChangeV::Liquidated { coin, .. } => coin,
    }
}

/// How many events concern one instrument.
pub open spec fn count_for_coin(evs: Seq<ChangeV>, coin: Seq<char>) -> int
    decreases evs.len(),
{
    if evs.len() == 0 {
        0
    } else {
        count_for_coin(evs.drop_last(), coin) + if coin_of(evs.last()) == coin {
            1int
        } else {
            0int
        }
    }
}

pub open spec fn is_size_event(c: ChangeV) -> bool {
    c is Increased || c is Decreased
}

/// How many size events (increase or decrease) concern one instrument.
pub open spec fn count_size_for_coin(evs: Seq<ChangeV>, coin: Seq<char>) -> int
    decreases evs.len(),
{
    if evs.len() == 0 {
        0
    } else {
        count_size_for_coin(evs.drop_last(), coin) + if is_size_event(evs.last()) && coin_of(
            evs.last(),
        ) == coin {
            1int
        } else {
            0int
        }
    }
}

proof fn lemma_count_concat(a: Seq<ChangeV>, b: Seq<ChangeV>, coin: Seq<char>)
    ensures
        count_for_coin(a + b, coin) == count_for_coin(a, coin) + count_for_coin(b, coin),
        count_size_for_coin(a + b, coin) == count_size_for_coin(a, coin) + count_size_for_coin(
            b,
            coin,
        ),
    decreases b.len(),
{
    if b.len() == 0 {
        assert(a + b =~= a);
    } else {
        assert((a + b).drop_last() =~= a + b.drop_last());
        assert((a + b).last() == b.last());
        lemma_count_concat(a, b.drop_last(), coin);
    }
}

proof fn lemma_count_nonneg(evs: Seq<ChangeV>, coin: Seq<char>)
    ensures
        count_for_coin(evs, coin) >= 0,
        count_size_for_coin(evs, coin) >= 0,
    decreases evs.len(),
{
    if evs.len() > 0 {
        lemma_count_nonneg(evs.drop_last(), coin);
    }
}

proof fn lemma_count_singleton(e: ChangeV, coin: Seq<char>)
    ensures
        count_for_coin(seq![e], coin) == if coin_of(e) == coin {
            1int
        } else {
            0int
        },
        count_size_for_coin(seq![e], coin) == if is_size_event(e) && coin_of(e) == coin {
            1int
        } else {
            0int
        },
{
    reveal_with_fuel(count_for_coin, 2);
    reveal_with_fuel(count_size_for_coin, 2);
    assert(seq![e].drop_last() =~= Seq::<ChangeV>::empty());
    assert(seq![e].last() == e);
    assert(count_for_coin(Seq::<ChangeV>::empty(), coin) == 0);
    assert(count_size_for_coin(Seq::<ChangeV>::empty(), coin) == 0);
}

/// Closure events for one instrument: exactly one when it was cached
/// and is gone from the lookup, none otherwise; and that one is its
/// closure event. Closure events are never size events.
proof fn lemma_closures_for_coin(
    cache: Entries<CachedPosition>,
    lk: Entries<ParsedPos>,
    coin: Seq<char>,
)
    requires
        unique_keys(cache),
    ensures
        count_for_coin(closure_events(cache, lk), coin) == if has_key(cache, coin) && !has_key(
            lk,
            coin,
        ) {
            1int
        } else {
            0int
        },
        forall|i: int|
            0 <= i < closure_events(cache, lk).len() && coin_of(
                #[trigger] closure_events(cache, lk)[i],
            ) == coin ==> has_key(cache, coin) && closure_events(cache, lk)[i] == closure_event(
                coin,
                val_of(cache, coin),
            ),
        count_size_for_coin(closure_events(cache, lk), coin) == 0,
    decreases cache.len(),
{
    if cache.len() == 0 {
    } else {
        let pre = cache.drop_last();
        assert(unique_keys(pre));
        lemma_closures_for_coin(pre, lk, coin);
        let k = cache.last().0;
        let v = cache.last().1;
        let tail: Seq<ChangeV> = if has_key(lk, k) {
            Seq::empty()
        } else {
            seq![closure_event(k, v)]
        };
        lemma_count_concat(closure_events(pre, lk), tail, coin);
        if !has_key(lk, k) {
            lemma_count_singleton(closure_event(k, v), coin);
        }
        if has_key(cache, coin) {
            lemma_key_idx(cache, coin);
        }
        if has_key(pre, coin) {
            lemma_key_idx(pre, coin);
            assert(cache[key_idx(pre, coin)].0 == coin);
            assert(has_key(cache, coin));
            assert(k != coin);
            assert(key_idx(cache, coin) == key_idx(pre, coin)) by {
                lemma_key_idx_same_prefix(cache, coin);
            }
            assert(val_of(cache, coin) == val_of(pre, coin));
        } else {
            if has_key(cache, coin) {
                assert(cache[key_idx(cache, coin)].0 == coin);
                assert(key_idx(cache, coin) == cache.len() - 1) by {
                    if key_idx(cache, coin) < cache.len() - 1 {
                        assert(pre[key_idx(cache, coin)].0 == coin);
                    }
                }
                assert(k == coin);
                assert(val_of(cache, coin) == v);
            }
        }
    }
}

/// A present key of a prefix keeps its slot in the longer list.
proof fn lemma_key_idx_same_prefix(cache: Entries<CachedPosition>, coin: Seq<char>)
    requires
        cache.len() > 0,
        has_key(cache.drop_last(), coin),
    ensures
        key_idx(cache, coin) == key_idx(cache.drop_last(), coin),
        val_of(cache, coin) == val_of(cache.drop_last(), coin),
    decreases cache.len(),
{
    let pre = cache.drop_last();
    lemma_key_idx(pre, coin);
    let i = key_idx(pre, coin);
    assert(cache[i] == pre[i]);
    assert forall|j: int| 0 <= j < i implies (#[trigger] cache[j]).0 != coin by {
        assert(cache[j] == pre[j]);
    }
    lemma_key_idx_from_front_any(cache, coin, i);
}

/// `key_idx` is the first matching slot, whatever list it is read in.
proof fn lemma_key_idx_from_front_any(cache: Entries<CachedPosition>, coin: Seq<char>, i: int)
    requires
        0 <= i < cache.len(),
        cache[i].0 == coin,
        forall|j: int| 0 <= j < i ==> (#[trigger] cache[j]).0 != coin,
    ensures
        has_key(cache, coin),
        key_idx(cache, coin) == i,
        val_of(cache, coin) == cache[i].1,
    decreases i,
{
    if i > 0 {
        assert forall|j: int| 0 <= j < i - 1 implies (#[trigger] cache.drop_first()[j]).0
            != coin by {
            assert(cache.drop_first()[j] == cache[j + 1]);
        }
        assert(cache.drop_first()[i - 1] == cache[i]);
        lemma_key_idx_from_front_any(cache.drop_first(), coin, i - 1);
    }
}

/// Update events for one instrument: exactly what its own lookup entry
/// yields, nothing when it is not in the lookup.
proof fn lemma_updates_for_coin(
    cache: Entries<CachedPosition>,
    lk: Entries<ParsedPos>,
    coin: Seq<char>,
)
    requires
        unique_keys(lk),
    ensures
        count_for_coin(update_events(cache, lk), coin) == if has_key(lk, coin) {
            update_event(prev_of(cache, coin), coin, val_of(lk, coin)).len() as int
        } else {
            0int
        },
        has_key(lk, coin) ==> count_size_for_coin(update_events(cache, lk), coin)
            <= count_size_for_coin(
            update_event(prev_of(cache, coin), coin, val_of(lk, coin)),
            coin,
        ),
        !has_key(lk, coin) ==> count_size_for_coin(update_events(cache, lk), coin) == 0,
        forall|i: int|
            0 <= i < update_events(cache, lk).len() && coin_of(
                #[trigger] update_events(cache, lk)[i],
            ) == coin ==> has_key(lk, coin) && update_events(cache, lk)[i] == update_event(
                prev_of(cache, coin),
                coin,
                val_of(lk, coin),
            )[0],
    decreases lk.len(),
{
    lemma_count_nonneg(update_events(cache, lk), coin);
    if lk.len() == 0 {
    } else {
        let pre = lk.drop_last();
        assert(unique_keys(pre));
        lemma_updates_for_coin(cache, pre, coin);
        let k = lk.last().0;
        let q = lk.last().1;
        let tail = update_event(prev_of(cache, k), k, q);
        lemma_count_concat(update_events(cache, pre), tail, coin);
        lemma_update_event_coins(prev_of(cache, k), k, q);
        if tail.len() == 1 {
            assert(tail =~= seq![tail[0]]);
            lemma_count_singleton(tail[0], coin);
        }
        lemma_count_nonneg(tail, coin);
        lemma_count_nonneg(update_events(cache, pre), coin);
        if k == coin {
            assert(!has_key(pre, coin)) by {
                if has_key(pre, coin) {
                    let j = choose|j: int| 0 <= j < pre.len() && (#[trigger] pre[j]).0 == coin;
                    assert(lk[j].0 == coin);
                }
            }
            assert(has_key(lk, coin)) by {
                assert(lk[lk.len() - 1].0 == coin);
            }
            assert(val_of(lk, coin) == q) by {
                lemma_key_idx(lk, coin);
                if key_idx(lk, coin) < lk.len() - 1 {
                    assert(pre[key_idx(lk, coin)].0 == coin);
                }
            }
            assert(count_for_coin(tail, coin) == tail.len()) by {
                lemma_count_all(tail, coin);
            }
            assert(count_size_for_coin(tail, coin) <= count_size_for_coin(tail, coin));
        } else {
            assert(has_key(lk, coin) == has_key(pre, coin)) by {
                if has_key(lk, coin) {
                    let j = choose|j: int| 0 <= j < lk.len() && (#[trigger] lk[j]).0 == coin;
                    assert(pre[j].0 == coin);
                }
                if has_key(pre, coin) {
                    let j = choose|j: int| 0 <= j < pre.len() && (#[trigger] pre[j]).0 == coin;
                    assert(lk[j].0 == coin);
                }
            }
            if has_key(pre, coin) {
                lemma_key_idx(pre, coin);
                lemma_key_idx_same_prefix_parsed(lk, coin);
            }
            assert(count_for_coin(tail, coin) == 0) by {
                lemma_count_none(tail, coin);
            }
            assert(count_size_for_coin(tail, coin) == 0) by {
                lemma_count_none(tail, coin);
            }
        }
    }
}

proof fn lemma_key_idx_same_prefix_parsed(lk: Entries<ParsedPos>, coin: Seq<char>)
    requires
        lk.len() > 0,
        has_key(lk.drop_last(), coin),
    ensures
        has_key(lk, coin),
        val_of(lk, coin) == val_of(lk.drop_last(), coin),
    decreases lk.len(),
{
    let pre = lk.drop_last();
    lemma_key_idx(pre, coin);
    let i = key_idx(pre, coin);
    assert(lk[i] == pre[i]);
    assert forall|j: int| 0 <= j < i implies (#[trigger] lk[j]).0 != coin by {
        assert(lk[j] == pre[j]);
    }
    lemma_key_idx_from_front_parsed(lk, coin, i);
}

proof fn lemma_key_idx_from_front_parsed(lk: Entries<ParsedPos>, coin: Seq<char>, i: int)
    requires
        0 <= i < lk.len(),
        lk[i].0 == coin,
        forall|j: int| 0 <= j < i ==> (#[trigger] lk[j]).0 != coin,
    ensures
        has_key(lk, coin),
        key_idx(lk, coin) == i,
        val_of(lk, coin) == lk[i].1,
    decreases i,
{
    if i > 0 {
        assert forall|j: int| 0 <= j < i - 1 implies (#[trigger] lk.drop_first()[j]).0 != coin by {
            assert(lk.drop_first()[j] == lk[j + 1]);
        }
        assert(lk.drop_first()[i - 1] == lk[i]);
        lemma_key_idx_from_front_parsed(lk.drop_first(), coin, i - 1);
    }
}

/// Whatever an instrument's lookup entry yields concerns only it.
proof fn lemma_update_event_coins(prev: Option<CachedPosition>, k: Seq<char>, q: ParsedPos)
    ensures
        forall|i: int|
            0 <= i < update_event(prev, k, q).len() ==> coin_of(
                #[trigger] update_event(prev, k, q)[i],
            ) == k,
        update_event(prev, k, q).len() <= 1,
{
}

/// Every event of a list concerns `coin`: the count is the length.
proof fn lemma_count_all(evs: Seq<ChangeV>, coin: Seq<char>)
    requires
        forall|i: int| 0 <= i < evs.len() ==> coin_of(#[trigger] evs[i]) == coin,
    ensures
        count_for_coin(evs, coin) == evs.len(),
    decreases evs.len(),
{
    if evs.len() > 0 {
        assert forall|i: int| 0 <= i < evs.drop_last().len() implies coin_of(
            #[trigger] evs.drop_last()[i],
        ) == coin by {
            assert(evs.drop_last()[i] == evs[i]);
        }
        lemma_count_all(evs.drop_last(), coin);
    }
}

/// No event of a list concerns `coin`: the count is zero.
proof fn lemma_count_none(evs: Seq<ChangeV>, coin: Seq<char>)
    requires
        forall|i: int| 0 <= i < evs.len() ==> coin_of(#[trigger] evs[i]) != coin,
    ensures
        count_for_coin(evs, coin) == 0,
        count_size_for_coin(evs, coin) == 0,
    decreases evs.len(),
{
    if evs.len() > 0 {
        assert forall|i: int| 0 <= i < evs.drop_last().len() implies coin_of(
            #[trigger] evs.drop_last()[i],
        ) != coin by {
            assert(evs.drop_last()[i] == evs[i]);
        }
        lemma_count_none(evs.drop_last(), coin);
    }
}


proof fn lemma_closures_all_present(cache: Entries<CachedPosition>, lk: Entries<ParsedPos>)
    requires
        forall|i: int| 0 <= i < cache.len() ==> has_key(lk, (#[trigger] cache[i]).0),
    ensures
        closure_events(cache, lk) == Seq::<ChangeV>::empty(),
        delete_ops(cache, lk) == Seq::<StoreOpV>::empty(),
    decreases cache.len(),
{
    if cache.len() > 0 {
        assert forall|i: int| 0 <= i < cache.drop_last().len() implies has_key(
            lk,
            (#[trigger] cache.drop_last()[i]).0,
        ) by {
            assert(cache.drop_last()[i] == cache[i]);
        }
        lemma_closures_all_present(cache.drop_last(), lk);
        assert(has_key(lk, cache.last().0)) by {
            assert(cache[cache.len() - 1].0 == cache.last().0);
        }
        assert(closure_events(cache, lk) =~= Seq::<ChangeV>::empty());
        assert(delete_ops(cache, lk) =~= Seq::<StoreOpV>::empty());
    }
}

proof fn lemma_updates_unchanged(cache: Entries<CachedPosition>, lk: Entries<ParsedPos>)
    requires
        forall|i: int|
            0 <= i < lk.len() ==> prev_of(cache, (#[trigger] lk[i]).0) == Some(
                cached_of(lk[i].1),
            ),
    ensures
        update_events(cache, lk) == Seq::<ChangeV>::empty(),
        upsert_ops(cache, lk) == Seq::<StoreOpV>::empty(),
    decreases lk.len(),
{
    if lk.len() > 0 {
        assert forall|i: int| 0 <= i < lk.drop_last().len() implies prev_of(
            cache,
            (#[trigger] lk.drop_last()[i]).0,
        ) == Some(cached_of(lk.drop_last()[i].1)) by {
            assert(lk.drop_last()[i] == lk[i]);
        }
        lemma_updates_unchanged(cache, lk.drop_last());
        let k = lk.last().0;
        let q = lk.last().1;
        assert(prev_of(cache, k) == Some(cached_of(q))) by {
            assert(lk[lk.len() - 1] == lk.last());
        }
        assert(update_event(Some(cached_of(q)), k, q) =~= Seq::<ChangeV>::empty());
        assert(update_events(cache, lk) =~= Seq::<ChangeV>::empty());
        assert(upsert_ops(cache, lk) =~= Seq::<StoreOpV>::empty());
    }
}

/// Detection is idempotent: detecting the same snapshot twice in a row
/// yields no event and no store operation the second time, because the
/// first pass re-armed the cache to exactly that snapshot.
pub proof fn lemma_detect_idempotent(snap: Seq<AssetPosition>)
    ensures
        detect_events(new_cache(spec_lookup(snap)), snap) == Seq::<ChangeV>::empty(),
        detect_ops(new_cache(spec_lookup(snap)), snap) == Seq::<StoreOpV>::empty(),
{
    let lk = spec_lookup(snap);
    let c1 = new_cache(lk);
    crate::detect::lemma_lookup_wf(snap);
    assert forall|i: int| 0 <= i < c1.len() implies has_key(lk, (#[trigger] c1[i]).0) by {
        assert(lk[i].0 == c1[i].0);
    }
    lemma_closures_all_present(c1, lk);
    assert forall|i: int| 0 <= i < lk.len() implies prev_of(c1, (#[trigger] lk[i]).0) == Some(
        cached_of(lk[i].1),
    ) by {
        let k = lk[i].0;
        assert(has_key(lk, k)) by {
            assert(lk[i].0 == k);
        }
        lemma_key_idx(lk, k);
        assert(key_idx(lk, k) == i) by {
            if key_idx(lk, k) != i {
                assert(lk[key_idx(lk, k)].0 == k);
            }
        }
        lemma_key_idx_same_keys(lk, c1, k);
        assert(val_of(c1, k) == c1[i].1);
    }
    lemma_updates_unchanged(c1, lk);
    assert(detect_events(c1, snap) =~= Seq::<ChangeV>::empty());
    assert(detect_ops(c1, snap) =~= Seq::<StoreOpV>::empty());
}

/// A cached instrument absent from the fresh snapshot yields exactly
/// one event, its closure (closed, or liquidated by the heuristic),
/// and the re-armed cache no longer holds it.
pub proof fn lemma_closed_exactly_once(
    cache: Entries<CachedPosition>,
    snap: Seq<AssetPosition>,
    coin: Seq<char>,
)
    requires
        unique_keys(cache),
        has_key(cache, coin),
        !has_key(spec_lookup(snap), coin),
    ensures
        count_for_coin(detect_events(cache, snap), coin) == 1,
        forall|i: int|
            0 <= i < detect_events(cache, snap).len() && coin_of(
                #[trigger] detect_events(cache, snap)[i],
            ) == coin ==> detect_events(cache, snap)[i] == closure_event(
                coin,
                val_of(cache, coin),
            ) && (detect_events(cache, snap)[i] is Closed || detect_events(cache, snap)[i]
                is Liquidated),
        !has_key(new_cache(spec_lookup(snap)), coin),
{
    let lk = spec_lookup(snap);
    let evs = detect_events(cache, snap);
    crate::detect::lemma_lookup_wf(snap);
    lemma_closures_for_coin(cache, lk, coin);
    lemma_updates_for_coin(cache, lk, coin);
    lemma_count_concat(closure_events(cache, lk), update_events(cache, lk), coin);
    assert forall|i: int|
        0 <= i < evs.len() && coin_of(#[trigger] evs[i]) == coin implies evs[i] == closure_event(
        coin,
        val_of(cache, coin),
    ) && (evs[i] is Closed || evs[i] is Liquidated) by {
        let nc = closure_events(cache, lk).len() as int;
        if i < nc {
            assert(evs[i] == closure_events(cache, lk)[i]);
        } else {
            assert(evs[i] == update_events(cache, lk)[i - nc]);
        }
    }
    assert forall|i: int| 0 <= i < new_cache(lk).len() implies (#[trigger] new_cache(lk)[i]).0
        == lk[i].0 by {}
    lemma_key_idx_same_keys(new_cache(lk), lk, coin);
}

/// An instrument in the fresh snapshot with no cache entry yields
/// exactly one event, an opening carrying the snapshot's fields, and
/// the re-armed cache holds it with those fields.
pub proof fn lemma_opened_exactly_once(
    cache: Entries<CachedPosition>,
    snap: Seq<AssetPosition>,
    coin: Seq<char>,
)
    requires
        unique_keys(cache),
        !has_key(cache, coin),
        has_key(spec_lookup(snap), coin),
    ensures
        count_for_coin(detect_events(cache, snap), coin) == 1,
        forall|i: int|
            0 <= i < detect_events(cache, snap).len() && coin_of(
                #[trigger] detect_events(cache, snap)[i],
            ) == coin ==> detect_events(cache, snap)[i] == (ChangeV::Opened {
                coin,
                size: abs64(val_of(spec_lookup(snap), coin).size),
                entry_price: val_of(spec_lookup(snap), coin).entry_px,
                leverage: val_of(spec_lookup(snap), coin).leverage,
                position_value: val_of(spec_lookup(snap), coin).position_value,
                is_long: val_of(spec_lookup(snap), coin).size > 0,
            }),
        has_key(new_cache(spec_lookup(snap)), coin),
        val_of(new_cache(spec_lookup(snap)), coin) == cached_of(val_of(spec_lookup(snap), coin)),
{
    let lk = spec_lookup(snap);
    let evs = detect_events(cache, snap);
    crate::detect::lemma_lookup_wf(snap);
    lemma_closures_for_coin(cache, lk, coin);
    lemma_updates_for_coin(cache, lk, coin);
    lemma_count_concat(closure_events(cache, lk), update_events(cache, lk), coin);
    assert(prev_of(cache, coin) is None);
    assert(update_event(None, coin, val_of(lk, coin)).len() == 1);
    assert forall|i: int|
        0 <= i < evs.len() && coin_of(#[trigger] evs[i]) == coin implies evs[i] == (
    ChangeV::Opened {
        coin,
        size: abs64(val_of(lk, coin).size),
        entry_price: val_of(lk, coin).entry_px,
        leverage: val_of(lk, coin).leverage,
        position_value: val_of(lk, coin).position_value,
        is_long: val_of(lk, coin).size > 0,
    }) by {
        let nc = closure_events(cache, lk).len() as int;
        if i < nc {
            assert(evs[i] == closure_events(cache, lk)[i]);
        } else {
            assert(evs[i] == update_events(cache, lk)[i - nc]);
            assert(evs[i] == update_event(None, coin, val_of(lk, coin))[0]);
        }
    }
    assert forall|i: int| 0 <= i < new_cache(lk).len() implies (#[trigger] new_cache(lk)[i]).0
        == lk[i].0 by {}
    lemma_key_idx_same_keys(new_cache(lk), lk, coin);
    lemma_key_idx(lk, coin);
    assert(val_of(new_cache(lk), coin) == new_cache(lk)[key_idx(lk, coin)].1);
}

/// A size move within the dust tolerance yields no increase and no
/// decrease event for that instrument.
pub proof fn lemma_dust_no_size_event(
    cache: Entries<CachedPosition>,
    snap: Seq<AssetPosition>,
    coin: Seq<char>,
)
    requires
        unique_keys(cache),
        has_key(cache, coin),
        has_key(spec_lookup(snap), coin),
        abs64(val_of(spec_lookup(snap), coin).size) - abs64(val_of(cache, coin).size)
            <= SIZE_TOLERANCE,
        abs64(val_of(cache, coin).size) - abs64(val_of(spec_lookup(snap), coin).size)
            <= SIZE_TOLERANCE,
    ensures
        count_size_for_coin(detect_events(cache, snap), coin) == 0,
{
    let lk = spec_lookup(snap);
    crate::detect::lemma_lookup_wf(snap);
    lemma_closures_for_coin(cache, lk, coin);
    lemma_updates_for_coin(cache, lk, coin);
    lemma_count_concat(closure_events(cache, lk), update_events(cache, lk), coin);
    let tail = update_event(prev_of(cache, coin), coin, val_of(lk, coin));
    assert(count_size_for_coin(tail, coin) == 0) by {
        if tail.len() > 0 {
            assert(tail =~= seq![tail[0]]);
            lemma_count_singleton(tail[0], coin);
            assert(!is_size_event(tail[0]));
        }
    }
    lemma_count_nonneg(update_events(cache, lk), coin);
}

/// An instrument whose size field is malformed, or zero, in every
/// snapshot entry that names it never enters the lookup: it is treated
/// as absent, exactly as a closed position is.
pub proof fn lemma_zero_size_ignored(snap: Seq<AssetPosition>, coin: Seq<char>)
    requires
        forall|i: int|
            0 <= i < snap.len() && (#[trigger] snap[i]).position.coin@ == coin ==> spec_parsed(
                snap[i].position,
            ).size == 0,
    ensures
        !has_key(spec_lookup(snap), coin),
    decreases snap.len(),
{
    if snap.len() > 0 {
        assert forall|i: int|
            0 <= i < snap.drop_last().len() && (#[trigger] snap.drop_last()[i]).position.coin@
                == coin implies spec_parsed(snap.drop_last()[i].position).size == 0 by {
            assert(snap.drop_last()[i] == snap[i]);
        }
        lemma_zero_size_ignored(snap.drop_last(), coin);
        crate::detect::lemma_lookup_wf(snap.drop_last());
        let prev = spec_lookup(snap.drop_last());
        let p = snap.last().position;
        let q = spec_parsed(p);
        assert(snap[snap.len() - 1] == snap.last());
        if q.size != 0 {
            assert(p.coin@ != coin);
            lemma_upsert(prev, p.coin@, q);
        }
    }
}

} // verus!
