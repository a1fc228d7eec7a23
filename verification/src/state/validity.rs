//! Proofs that the transitions of a session keep it valid.

use crate::ratchet::keys::{advance, next_chain_key, ChainKeyView};
use crate::ratchet::step::dh_ratchet;
use crate::skipped::{
    first_for, holds, is_first_for, is_for, keep_newest, without_remote, SkippedView,
};
use crate::state::model::{
    answer, chain_of, distinct_entries, distinct_remotes, filed, forward, initiator, position_of,
    receive, responder, send, skipped_run, tracks, turn, valid, with_chain, ReceivingView,
    SendingView, SessionView,
};
use vstd::prelude::*;

verus! {

/// `n` steps move a chain key `n` positions on.
pub proof fn lemma_advance_index(chain: ChainKeyView, n: nat)
    ensures
        advance(chain, n).index == chain.index + n,
    decreases n,
{
    if n > 0 {
        lemma_advance_index(chain, (n - 1) as nat);
    }
}

/// `a` steps and then `b` steps are `a + b` steps.
pub proof fn lemma_advance_add(chain: ChainKeyView, a: nat, b: nat)
    ensures
        advance(advance(chain, a), b) == advance(chain, a + b),
    decreases b,
{
    if b > 0 {
        lemma_advance_add(chain, a, (b - 1) as nat);
    }
}

/// Where the remote ratchet keys are distinct, the chain filed under a key is
/// the one at the only position that holds the key.
pub proof fn lemma_position(chains: Seq<ReceivingView>, remote: Seq<u8>, i: int)
    requires
        distinct_remotes(chains),
        0 <= i < chains.len(),
        chains[i].remote == remote,
    ensures
        tracks(chains, remote),
        position_of(chains, remote) == i,
        chain_of(chains, remote) == chains[i].chain,
{
    let p = position_of(chains, remote);
    assert(0 <= p < chains.len() && chains[p].remote == remote);
    if p < i {
        assert(chains[p].remote != chains[i].remote);
    }
    if i < p {
        assert(chains[i].remote != chains[p].remote);
    }
}

/// What is left of a store after the entries of one remote ratchet key are
/// removed: entries of the store, none of them under that key, and distinct
/// if they were.
pub proof fn lemma_without_remote(entries: Seq<SkippedView>, remote: Seq<u8>)
    ensures
        without_remote(entries, remote).len() <= entries.len(),
        forall|k: int|
            0 <= k < without_remote(entries, remote).len() ==> {
                &&& (#[trigger] without_remote(entries, remote)[k]).remote != remote
                &&& entries.contains(without_remote(entries, remote)[k])
            },
        distinct_entries(entries) ==> distinct_entries(without_remote(entries, remote)),
    decreases entries.len(),
{
    reveal(Seq::filter);
    let keep = |e: SkippedView| e.remote != remote;
    if entries.len() > 0 {
        let front = entries.drop_last();
        let last = entries.last();
        lemma_without_remote(front, remote);
        let kept_front = without_remote(front, remote);
        let kept = without_remote(entries, remote);
        assert(kept == if keep(last) {
            kept_front.push(last)
        } else {
            kept_front
        });
        assert forall|k: int| 0 <= k < kept.len() implies {
            &&& (#[trigger] kept[k]).remote != remote
            &&& entries.contains(kept[k])
        } by {
            if k < kept_front.len() {
                assert(kept[k] == kept_front[k]);
                assert(front.contains(kept_front[k]));
                let j = choose|j: int| 0 <= j < front.len() && front[j] == kept_front[k];
                assert(entries[j] == kept[k]);
            } else {
                assert(kept[k] == last);
                assert(entries[entries.len() - 1] == last);
            }
        }
        if distinct_entries(entries) {
            assert(distinct_entries(front)) by {
                assert forall|i: int, j: int| 0 <= i < j < front.len() implies !((
                #[trigger] front[i]).remote == (#[trigger] front[j]).remote && front[i].keys.index
                    == front[j].keys.index) by {
                    assert(front[i] == entries[i] && front[j] == entries[j]);
                }
            }
            assert forall|i: int, j: int| 0 <= i < j < kept.len() implies !((
            #[trigger] kept[i]).remote == (#[trigger] kept[j]).remote && kept[i].keys.index
                == kept[j].keys.index) by {
                if j < kept_front.len() {
                    assert(kept[i] == kept_front[i] && kept[j] == kept_front[j]);
                } else {
                    assert(kept[j] == last);
                    assert(kept[i] == kept_front[i]);
                    assert(front.contains(kept_front[i]));
                    let p = choose|p: int| 0 <= p < front.len() && front[p] == kept_front[i];
                    assert(entries[p] == kept[i]);
                    assert(entries[entries.len() - 1] == last);
                }
            }
        }
    }
}

/// Moving the chain filed under one remote ratchet key leaves the keys where
/// they are and every other chain as it is.
pub proof fn lemma_with_chain(chains: Seq<ReceivingView>, remote: Seq<u8>, chain: ChainKeyView)
    requires
        distinct_remotes(chains),
    ensures
        with_chain(chains, remote, chain).len() == chains.len(),
        forall|i: int|
            0 <= i < chains.len() ==> (#[trigger] with_chain(chains, remote, chain)[i]).remote
                == chains[i].remote,
        distinct_remotes(with_chain(chains, remote, chain)),
        forall|r: Seq<u8>|
            #[trigger] tracks(with_chain(chains, remote, chain), r) == tracks(chains, r),
        forall|r: Seq<u8>|
            tracks(chains, r) ==> #[trigger] chain_of(with_chain(chains, remote, chain), r) == if r
                == remote {
                chain
            } else {
                chain_of(chains, r)
            },
{
    let moved = with_chain(chains, remote, chain);
    assert forall|r: Seq<u8>| #[trigger] tracks(moved, r) == tracks(chains, r) by {
        if tracks(chains, r) {
            let i = position_of(chains, r);
            assert(moved[i].remote == r);
        }
        if tracks(moved, r) {
            let i = position_of(moved, r);
            assert(chains[i].remote == r);
        }
    }
    assert forall|r: Seq<u8>| tracks(chains, r) implies #[trigger] chain_of(moved, r) == if r
        == remote {
        chain
    } else {
        chain_of(chains, r)
    } by {
        let i = position_of(chains, r);
        lemma_position(chains, r, i);
        assert(moved[i].remote == r);
        lemma_position(moved, r, i);
    }
}

/// The sessions that the key agreement leaves on either side are valid.
pub proof fn lemma_initial_valid(
    v: SessionView,
    first: (Seq<u8>, ChainKeyView),
    private: Seq<u8>,
    peer: Seq<u8>,
)
    requires
        v.config.max_receiving_chains >= 1,
    ensures
        valid(initiator(v, first, private, peer)),
        valid(responder(v, first, peer)),
{
    let r = responder(v, first, peer);
    assert(r.retired.len() == 0);
}

/// Sending keeps a session valid.
pub proof fn lemma_send_valid(v: SessionView)
    requires
        valid(v),
        v.sending is Some,
    ensures
        valid(send(v).0),
{
}

/// Handing out a skipped entry keeps a session valid.
pub proof fn lemma_consume_valid(v: SessionView, at: int)
    requires
        valid(v),
        0 <= at < v.skipped.len(),
    ensures
        valid(SessionView { skipped: v.skipped.remove(at), ..v }),
        distinct_entries(v.skipped.remove(at)),
{
    let rest = v.skipped.remove(at);
    assert forall|i: int| 0 <= i < rest.len() implies filed(v.receiving, #[trigger] rest[i]) by {
        if i < at {
            assert(rest[i] == v.skipped[i]);
        } else {
            assert(rest[i] == v.skipped[i + 1]);
        }
    }
    assert forall|i: int, j: int| 0 <= i < j < rest.len() implies !((#[trigger] rest[i]).remote == (
    #[trigger] rest[j]).remote && rest[i].keys.index == rest[j].keys.index) by {
        let a = if i < at { i } else { i + 1 };
        let b = if j < at { j } else { j + 1 };
        assert(rest[i] == v.skipped[a] && rest[j] == v.skipped[b]);
    }
}

/// Receiving at or ahead of a chain's position keeps a session valid and
/// leaves the chain one past the message.
pub proof fn lemma_forward_valid(v: SessionView, remote: Seq<u8>, index: nat, fresh: Seq<u8>)
    requires
        valid(v),
        tracks(v.receiving, remote),
        chain_of(v.receiving, remote).index <= index,
    ensures
        valid(forward(v, remote, index, fresh).0),
        tracks(forward(v, remote, index, fresh).0.receiving, remote),
        chain_of(forward(v, remote, index, fresh).0.receiving, remote).index == index + 1,
        !holds(forward(v, remote, index, fresh).0.skipped, remote, index),
        forward(v, remote, index, fresh).0.retired == v.retired,
{
    let chain = chain_of(v.receiving, remote);
    let gap = (index - chain.index) as nat;
    let target = advance(chain, gap);
    let next = next_chain_key(target);
    let capacity = v.config.max_skipped_keys as nat;
    let run = skipped_run(remote, chain, gap);
    let all = v.skipped + run;
    let kept = keep_newest(all, capacity);
    let chains = with_chain(v.receiving, remote, next);
    let w = forward(v, remote, index, fresh).0;
    lemma_advance_index(chain, gap);
    lemma_with_chain(v.receiving, remote, next);
    assert(w.receiving == chains);
    assert(w.skipped == kept);
    assert(chain_of(chains, remote) == next);
    let off = if all.len() <= capacity { 0int } else { all.len() - capacity };
    assert forall|k: int| 0 <= k < kept.len() implies #[trigger] kept[k] == all[k + off] by {}
    assert forall|k: int| 0 <= k < all.len() implies filed(chains, #[trigger] all[k]) && (
    all[k].remote == remote ==> all[k].keys.index < index) by {
        if k < v.skipped.len() {
            assert(all[k] == v.skipped[k]);
            assert(filed(v.receiving, v.skipped[k]));
        } else {
            let i = k - v.skipped.len();
            assert(all[k] == run[i]);
            lemma_advance_index(chain, i as nat);
        }
    }
    assert forall|i: int, j: int| 0 <= i < j < all.len() implies !((#[trigger] all[i]).remote == (
    #[trigger] all[j]).remote && all[i].keys.index == all[j].keys.index) by {
        if j < v.skipped.len() {
            assert(all[i] == v.skipped[i] && all[j] == v.skipped[j]);
        } else if i < v.skipped.len() {
            assert(all[i] == v.skipped[i]);
            assert(filed(v.receiving, v.skipped[i]));
            assert(all[j] == run[j - v.skipped.len()]);
            lemma_advance_index(chain, (j - v.skipped.len()) as nat);
        } else {
            assert(all[i] == run[i - v.skipped.len()]);
            assert(all[j] == run[j - v.skipped.len()]);
            lemma_advance_index(chain, (i - v.skipped.len()) as nat);
            lemma_advance_index(chain, (j - v.skipped.len()) as nat);
        }
    }
    assert forall|k: int| 0 <= k < kept.len() implies filed(chains, #[trigger] kept[k]) by {
        assert(kept[k] == all[k + off]);
    }
    assert(distinct_entries(kept)) by {
        assert forall|i: int, j: int| 0 <= i < j < kept.len() implies !((
        #[trigger] kept[i]).remote == (#[trigger] kept[j]).remote && kept[i].keys.index
            == kept[j].keys.index) by {
            assert(kept[i] == all[i + off] && kept[j] == all[j + off]);
        }
    }
    assert(!holds(kept, remote, index)) by {
        if holds(kept, remote, index) {
            let k = choose|k: int| 0 <= k < kept.len() && is_for(#[trigger] kept[k], remote, index);
            assert(kept[k] == all[k + off]);
        }
    }
    assert forall|i: int| 0 <= i < chains.len() implies !v.retired.contains(
        (#[trigger] chains[i]).remote,
    ) by {
        assert(chains[i].remote == v.receiving[i].remote);
    }
    let moved = SessionView { receiving: chains, skipped: kept, ..v };
    assert(valid(moved));
    assert(w == answer(moved, fresh));
}

/// The session in the middle of receiving ahead, with the chain moved and the
/// skipped keys stored, is valid.
pub proof fn lemma_moved_valid(v: SessionView, remote: Seq<u8>, index: nat)
    requires
        valid(v),
        tracks(v.receiving, remote),
        chain_of(v.receiving, remote).index <= index,
    ensures
        valid(
            SessionView {
                receiving: with_chain(
                    v.receiving,
                    remote,
                    next_chain_key(
                        advance(
                            chain_of(v.receiving, remote),
                            (index - chain_of(v.receiving, remote).index) as nat,
                        ),
                    ),
                ),
                skipped: keep_newest(
                    v.skipped + skipped_run(
                        remote,
                        chain_of(v.receiving, remote),
                        (index - chain_of(v.receiving, remote).index) as nat,
                    ),
                    v.config.max_skipped_keys as nat,
                ),
                ..v
            },
        ),
{
    let blocked = SessionView { sending: Some(SendingView { private: remote, chain: chain_of(v.receiving, remote) }), ..v };
    lemma_forward_valid(blocked, remote, index, remote);
    let w = forward(blocked, remote, index, remote).0;
    let moved = SessionView { sending: v.sending, ..w };
    assert(valid(moved));
}

/// The ratchet step keeps a session valid. Afterwards the new remote ratchet
/// key is tracked, with its chain at position 0, and every key that was
/// retired still is.
pub proof fn lemma_turn_valid(v: SessionView, remote: Seq<u8>, fresh: Seq<u8>)
    requires
        valid(v),
        !tracks(v.receiving, remote),
        !v.retired.contains(remote),
        v.root is Some,
        v.sending is Some,
    ensures
        valid(turn(v, remote, fresh)),
        tracks(turn(v, remote, fresh).receiving, remote),
        chain_of(turn(v, remote, fresh).receiving, remote) == dh_ratchet(
            v.root.unwrap(),
            v.sending.unwrap().private,
            remote,
            fresh,
        ).receiving,
        chain_of(turn(v, remote, fresh).receiving, remote).index == 0,
        !holds(turn(v, remote, fresh).skipped, remote, 0),
        forall|k: Seq<u8>| v.retired.contains(k) ==> #[trigger] turn(v, remote, fresh).retired.contains(k),
{
    let w = turn(v, remote, fresh);
    let step = dh_ratchet(v.root.unwrap(), v.sending.unwrap().private, remote, fresh);
    let full = v.receiving.len() >= v.config.max_receiving_chains;
    let oldest = v.receiving[0].remote;
    let off = if full { 1int } else { 0int };
    let chains = w.receiving;
    let last = chains.len() - 1;
    assert(chains.len() == v.receiving.len() - off + 1);
    assert(chains[last] == ReceivingView { remote, chain: step.receiving });
    assert forall|i: int| 0 <= i < last implies #[trigger] chains[i] == v.receiving[i + off] by {}
    assert(distinct_remotes(chains)) by {
        assert forall|i: int, j: int| 0 <= i < j < chains.len() implies (#[trigger] chains[i]).remote
            != (#[trigger] chains[j]).remote by {
            assert(chains[i] == v.receiving[i + off]);
            if j < last {
                assert(chains[j] == v.receiving[j + off]);
            }
        }
    }
    lemma_position(chains, remote, last);
    assert forall|k: Seq<u8>| v.retired.contains(k) implies #[trigger] w.retired.contains(k) by {
        let i = choose|i: int| 0 <= i < v.retired.len() && v.retired[i] == k;
        assert(w.retired[i] == k);
    }
    assert forall|i: int| 0 <= i < chains.len() implies !w.retired.contains(
        (#[trigger] chains[i]).remote,
    ) by {
        let r = chains[i].remote;
        if w.retired.contains(r) {
            let p = choose|p: int| 0 <= p < w.retired.len() && w.retired[p] == r;
            if p < v.retired.len() {
                assert(v.retired[p] == r);
                assert(v.retired.contains(r));
                if i < last {
                    assert(chains[i] == v.receiving[i + off]);
                }
            } else {
                assert(full && r == oldest);
                if i < last {
                    assert(chains[i] == v.receiving[i + 1]);
                    assert(v.receiving[0].remote != v.receiving[i + 1].remote);
                } else {
                    assert(v.receiving[0].remote == remote);
                }
            }
        }
    }
    lemma_without_remote(v.skipped, oldest);
    assert forall|k: int| 0 <= k < w.skipped.len() implies filed(chains, #[trigger] w.skipped[k]) by {
        let e = w.skipped[k];
        assert(v.skipped.contains(e));
        let j = choose|j: int| 0 <= j < v.skipped.len() && v.skipped[j] == e;
        assert(filed(v.receiving, v.skipped[j]));
        let p = position_of(v.receiving, e.remote);
        lemma_position(v.receiving, e.remote, p);
        if full {
            assert(e.remote != oldest);
            assert(p >= 1);
        }
        assert(chains[p - off] == v.receiving[p]);
        lemma_position(chains, e.remote, p - off);
    }
    assert(distinct_entries(w.skipped));
    assert(!holds(w.skipped, remote, 0)) by {
        if holds(w.skipped, remote, 0) {
            let k = choose|k: int| 0 <= k < w.skipped.len() && is_for(#[trigger] w.skipped[k], remote, 0);
            assert(filed(chains, w.skipped[k]));
        }
    }
}

/// Receiving keeps a session valid.
pub proof fn lemma_receive_valid(v: SessionView, remote: Seq<u8>, index: nat, fresh: Seq<u8>)
    requires
        valid(v),
    ensures
        valid(receive(v, remote, index, fresh).0),
{
    if v.retired.contains(remote) {
    } else if tracks(v.receiving, remote) {
        let chain = chain_of(v.receiving, remote);
        if index < chain.index {
            if holds(v.skipped, remote, index) {
                lemma_first_for(v.skipped, remote, index);
                lemma_consume_valid(v, first_for(v.skipped, remote, index));
            }
        } else if index - chain.index > v.config.max_skip {
        } else {
            lemma_forward_valid(v, remote, index, fresh);
        }
    } else if v.root is Some && v.sending is Some {
        if index <= v.config.max_skip {
            lemma_turn_valid(v, remote, fresh);
            lemma_forward_valid(turn(v, remote, fresh), remote, index, fresh);
        }
    }
}

/// The keys that receiving hands out carry the counter of the message.
pub proof fn lemma_receive_counter(v: SessionView, remote: Seq<u8>, index: nat, fresh: Seq<u8>)
    requires
        valid(v),
    ensures
        receive(v, remote, index, fresh).1 matches Ok(keys) ==> keys.index == index,
{
    if v.retired.contains(remote) {
    } else if tracks(v.receiving, remote) {
        let chain = chain_of(v.receiving, remote);
        if index < chain.index {
            if holds(v.skipped, remote, index) {
                lemma_first_for(v.skipped, remote, index);
            }
        } else {
            lemma_advance_index(chain, (index - chain.index) as nat);
        }
    } else if v.root is Some && v.sending is Some {
        if index <= v.config.max_skip {
            let t = turn(v, remote, fresh);
            lemma_turn_valid(v, remote, fresh);
            lemma_advance_index(chain_of(t.receiving, remote), index);
        }
    }
}

/// Where a store holds an entry for a key and an index, the oldest such entry
/// has a position.
pub proof fn lemma_first_for(entries: Seq<SkippedView>, remote: Seq<u8>, index: nat)
    requires
        holds(entries, remote, index),
    ensures
        is_first_for(entries, remote, index, first_for(entries, remote, index)),
{
    let k = choose|k: int| 0 <= k < entries.len() && is_for(#[trigger] entries[k], remote, index);
    lemma_least(entries, remote, index, k);
}

/// Below a position that fits lies the oldest position that fits.
proof fn lemma_least(entries: Seq<SkippedView>, remote: Seq<u8>, index: nat, k: int)
    requires
        0 <= k < entries.len(),
        is_for(entries[k], remote, index),
    ensures
        exists|i: int| is_first_for(entries, remote, index, i),
    decreases k,
{
    if exists|j: int| 0 <= j < k && is_for(#[trigger] entries[j], remote, index) {
        let j = choose|j: int| 0 <= j < k && is_for(#[trigger] entries[j], remote, index);
        lemma_least(entries, remote, index, j);
    } else {
        assert(is_first_for(entries, remote, index, k));
    }
}

} // verus!
