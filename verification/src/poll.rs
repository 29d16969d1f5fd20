//! The poll cycle's decisions.
//!
//! A cycle enumerates the tracked wallets, groups subscribers by wallet
//! address so each address is fetched once, runs a detection pass per
//! address, and fans every resulting event out to every subscriber.
//! Fetching and delivery are outside work; what to fetch and what to
//! deliver to whom is decided here.

use vstd::prelude::*;
use vstd::string::*;
use crate::detect::{PositionChange, ChangeV, wf_change, views_of};
use crate::render::{format_notification, notification_str};
use crate::smap::{
    SMap, Entries, has_key, val_of, upsert, unique_keys, lemma_upsert, lemma_key_idx,
    lemma_key_idx_same_keys,
};
use crate::wallets::TrackedWallet;

verus! {

/// The subscriber groups of a wallet list, keyed by address in
/// first-seen order, each group's users in list order.
pub open spec fn spec_group(ws: Seq<TrackedWallet>) -> Entries<Seq<i64>>
    decreases ws.len(),
{
    if ws.len() == 0 {
        Seq::empty()
    } else {
        let prev = spec_group(ws.drop_last());
        let w = ws.last();
        let grp: Seq<i64> = if has_key(prev, w.wallet_address@) {
            val_of(prev, w.wallet_address@)
        } else {
            Seq::empty()
        };
        upsert(prev, w.wallet_address@, grp.push(w.user_id))
    }
}

/// The groups with their user lists as sequences.
pub open spec fn groups_view(m: SMap<Vec<i64>>) -> Entries<Seq<i64>> {
    Seq::new(m@.len(), |i: int| (m@[i].0, m@[i].1@))
}

/// Group subscribers by wallet address, as `spec_group` says, so that
/// each distinct address is fetched once per cycle.
#[verifier::loop_isolation(false)]
#[verifier::rlimit(50)]
pub fn group_wallet_users(wallets: &Vec<TrackedWallet>) -> (m: SMap<Vec<i64>>)
    ensures
        m.wf(),
        groups_view(m) == spec_group(wallets@),
{
    let mut m: SMap<Vec<i64>> = SMap::new();
    proof {
        assert(groups_view(m) =~= spec_group(wallets@.take(0)));
    }
    let n = wallets.len();
    let mut i: usize = 0;
    while i < n
        invariant
            0 <= i <= n,
            m.wf(),
            groups_view(m) == spec_group(wallets@.take(i as int)),
        decreases n - i,
    {
        proof {
            assert(wallets@.take(i as int + 1).drop_last() =~= wallets@.take(i as int));
            assert(wallets@.take(i as int + 1).last() == wallets@[i as int]);
        }
        let w = &wallets[i];
        let ghost pre = m@;
        let ghost gpre = groups_view(m);
        proof {
            lemma_key_idx_same_keys(pre, gpre, w.wallet_address@);
        }
        match m.find(&w.wallet_address) {
            Some(idx) => {
                proof {
                    lemma_key_idx(pre, w.wallet_address@);
                    assert(gpre[idx as int].1 == val_of(gpre, w.wallet_address@));
                }
                m.pairs[idx].1.push(w.user_id);
                proof {
                    assert(m@ =~= pre.update(idx as int, (w.wallet_address@, m@[idx as int].1)));
                    assert(unique_keys(m@)) by {
                        assert forall|a: int, b: int| 0 <= a < b < m@.len() implies (
                        #[trigger] m@[a]).0 != (#[trigger] m@[b]).0 by {
                            assert(m@[a].0 == pre[a].0);
                            assert(m@[b].0 == pre[b].0);
                        }
                    }
                    lemma_upsert(gpre, w.wallet_address@, val_of(gpre, w.wallet_address@).push(w.user_id));
                    assert(groups_view(m) =~= upsert(
                        gpre,
                        w.wallet_address@,
                        val_of(gpre, w.wallet_address@).push(w.user_id),
                    ));
                }
            },
            None => {
                let mut grp: Vec<i64> = Vec::new();
                grp.push(w.user_id);
                proof {
                    lemma_upsert(pre, w.wallet_address@, grp);
                }
                m.insert(w.wallet_address.clone(), grp);
                proof {
                    assert(groups_view(m) =~= upsert(
                        gpre,
                        w.wallet_address@,
                        Seq::<i64>::empty().push(w.user_id),
                    ));
                }
            },
        }
        proof {
            assert(groups_view(m) == spec_group(wallets@.take(i as int + 1)));
        }
        i = i + 1;
    }
    proof {
        assert(wallets@.take(n as int) =~= wallets@);
    }
    m
}

/// The deliveries one wallet's events fan out to: for each event in
/// order, one rendered message per subscriber in order.
pub open spec fn spec_fan_out(evs: Seq<ChangeV>, users: Seq<i64>, w: Seq<char>) -> Seq<
    (i64, Seq<char>),
>
    decreases evs.len(),
{
    if evs.len() == 0 {
        Seq::empty()
    } else {
        spec_fan_out(evs.drop_last(), users, w) + users.map_values(
            |u: i64| (u, notification_str(evs.last(), w)),
        )
    }
}

pub open spec fn deliveries_view(out: Seq<(i64, String)>) -> Seq<(i64, Seq<char>)> {
    out.map_values(|p: (i64, String)| (p.0, p.1@))
}

/// Render each change once and address it to every subscriber, as
/// `spec_fan_out` says. A failed delivery of one message cannot affect
/// the rest: the messages are independent values.
#[verifier::loop_isolation(false)]
pub fn fan_out_messages(
    changes: &Vec<PositionChange>,
    user_ids: &Vec<i64>,
    wallet_address: &String,
) -> (out: Vec<(i64, String)>)
    requires
        wallet_address@.len() >= 10,
        forall|i: int| 0 <= i < changes@.len() ==> wf_change(#[trigger] changes@[i]@),
    ensures
        deliveries_view(out@) == spec_fan_out(views_of(changes@), user_ids@, wallet_address@),
{
    let mut out: Vec<(i64, String)> = Vec::new();
    let n = changes.len();
    let nu = user_ids.len();
    proof {
        assert(deliveries_view(out@) =~= spec_fan_out(
            views_of(changes@.take(0)),
            user_ids@,
            wallet_address@,
        ));
    }
    let mut i: usize = 0;
    while i < n
        invariant
            0 <= i <= n,
            n == changes@.len(),
            nu == user_ids@.len(),
            forall|t: int| 0 <= t < changes@.len() ==> wf_change(#[trigger] changes@[t]@),
            deliveries_view(out@) == spec_fan_out(
                views_of(changes@.take(i as int)),
                user_ids@,
                wallet_address@,
            ),
        decreases n - i,
    {
        let msg = format_notification(&changes[i], wallet_address.as_str());
        let ghost before = out@;
        let mut j: usize = 0;
        while j < nu
            invariant
                0 <= j <= nu,
                nu == user_ids@.len(),
                i < changes@.len(),
                msg@ == notification_str(changes@[i as int]@, wallet_address@),
                out@.len() == before.len() + j,
                forall|t: int| 0 <= t < before.len() ==> (#[trigger] out@[t]) == before[t],
                forall|t: int|
                    before.len() <= t < out@.len() ==> (#[trigger] out@[t]).0 == user_ids@[t
                        - before.len()] && out@[t].1@ == msg@,
            decreases nu - j,
        {
            out.push((user_ids[j], msg.clone()));
            j = j + 1;
        }
        proof {
            assert(views_of(changes@.take(i as int + 1)).drop_last() =~= views_of(
                changes@.take(i as int),
            ));
            assert(views_of(changes@.take(i as int + 1)).last() == changes@[i as int]@);
            assert(deliveries_view(out@) =~= spec_fan_out(
                views_of(changes@.take(i as int + 1)),
                user_ids@,
                wallet_address@,
            ));
        }
        i = i + 1;
    }
    proof {
        assert(changes@.take(n as int) =~= changes@);
        assert(views_of(changes@.take(n as int)) == views_of(changes@));
    }
    out
}

} // verus!
