//! Delivery in any order: messages of one chain may arrive in whatever order
//! the transport brings them, and each gets the keys of its position.

use crate::guarantees::{follows, lemma_course_is_kept, lemma_keys_are_those_of_the_position, lemma_received};
use crate::ratchet::keys::{advance, message_keys, ChainKeyView, MessageKeysView};
use crate::skipped::{first_for, holds, is_for};
use crate::state::model::{
    chain_of, receive, skipped_run, tracks, valid, SessionError, SessionView,
};
use crate::state::validity::{
    lemma_advance_index, lemma_first_for, lemma_forward_valid, lemma_receive_valid,
};
use vstd::prelude::*;

verus! {

/// An arrival: the counter of a message, and the fresh ratchet secret the
/// receiver had at hand when it came.
pub type Arrival = (nat, Seq<u8>);

/// The session after the messages of `arrivals` were received one after the
/// other under `remote`.
pub open spec fn after_arrivals(v: SessionView, remote: Seq<u8>, arrivals: Seq<Arrival>) -> SessionView
    decreases arrivals.len(),
{
    if arrivals.len() == 0 {
        v
    } else {
        receive(
            after_arrivals(v, remote, arrivals.drop_last()),
            remote,
            arrivals.last().0,
            arrivals.last().1,
        ).0
    }
}

/// What receiving the message at position `k` of `arrivals` gives, after the
/// messages before it were received.
pub open spec fn arrival(v: SessionView, remote: Seq<u8>, arrivals: Seq<Arrival>, k: int) -> Result<
    MessageKeysView,
    SessionError,
> {
    receive(after_arrivals(v, remote, arrivals.take(k)), remote, arrivals[k].0, arrivals[k].1).1
}

/// Whether a message with the counter `counter` is among the arrivals.
pub open spec fn arrived(arrivals: Seq<Arrival>, counter: nat) -> bool {
    exists|k: int| 0 <= k < arrivals.len() && (#[trigger] arrivals[k]).0 == counter
}

/// No counter comes twice.
pub open spec fn each_once(arrivals: Seq<Arrival>) -> bool {
    forall|i: int, j: int|
        0 <= i < j < arrivals.len() ==> (#[trigger] arrivals[i]).0 != (#[trigger] arrivals[j]).0
}

/// Every counter is within the skip bound of the start of the chain, and the
/// store has room for all the keys that may have to wait beside the `stored`
/// it holds already.
pub open spec fn within_bounds(v: SessionView, arrivals: Seq<Arrival>, stored: nat) -> bool {
    forall|k: int|
        0 <= k < arrivals.len() ==> (#[trigger] arrivals[k]).0 <= v.config.max_skip
            && arrivals[k].0 + stored <= v.config.max_skipped_keys
}

/// What holds of a session between two arrivals: the chain of `remote` is on
/// its course and past every message that arrived, and the keys of every
/// message it passed that has not arrived yet are waiting in the store.
pub open spec fn waiting(
    start: SessionView,
    w: SessionView,
    remote: Seq<u8>,
    origin: ChainKeyView,
    done: Seq<Arrival>,
) -> bool {
    &&& valid(w)
    &&& w.config == start.config
    &&& tracks(w.receiving, remote)
    &&& follows(w, remote, origin)
    &&& forall|k: int|
        0 <= k < done.len() ==> (#[trigger] done[k]).0 < chain_of(w.receiving, remote).index
    &&& forall|j: nat|
        j < chain_of(w.receiving, remote).index && !arrived(done, j) ==> #[trigger] holds(
            w.skipped,
            remote,
            j,
        )
    &&& w.skipped.len() <= start.skipped.len() + chain_of(w.receiving, remote).index
}

/// One more arrival: it gets the keys of its position, and the session goes
/// on waiting for the others.
proof fn lemma_one_arrival(
    start: SessionView,
    w: SessionView,
    remote: Seq<u8>,
    origin: ChainKeyView,
    done: Seq<Arrival>,
    next: Arrival,
)
    requires
        waiting(start, w, remote, origin, done),
        !arrived(done, next.0),
        next.0 <= start.config.max_skip,
        next.0 + start.skipped.len() <= start.config.max_skipped_keys,
    ensures
        receive(w, remote, next.0, next.1).1 == Ok::<MessageKeysView, SessionError>(
            message_keys(advance(origin, next.0)),
        ),
        waiting(start, receive(w, remote, next.0, next.1).0, remote, origin, done.push(next)),
{
    let c = next.0;
    let chain = chain_of(w.receiving, remote);
    let n = chain.index;
    let after = receive(w, remote, c, next.1).0;
    let all_done = done.push(next);
    let p = choose|p: int| 0 <= p < w.receiving.len() && (#[trigger] w.receiving[p]).remote == remote;
    assert(!w.retired.contains(w.receiving[p].remote));
    assert(receive(w, remote, c, next.1).1 is Ok) by {
        if c < n {
            assert(holds(w.skipped, remote, c));
        }
    }
    lemma_receive_valid(w, remote, c, next.1);
    lemma_received(w, remote, c, next.1);
    lemma_keys_are_those_of_the_position(w, remote, origin, c, next.1);
    lemma_course_is_kept(w, remote, origin, remote, c, next.1);
    assert forall|j: nat| arrived(all_done, j) implies arrived(done, j) || j == c by {
        let k = choose|k: int| 0 <= k < all_done.len() && (#[trigger] all_done[k]).0 == j;
        if k < done.len() {
            assert(done[k].0 == j);
        }
    }
    if c < n {
        lemma_first_for(w.skipped, remote, c);
        let at = first_for(w.skipped, remote, c);
        let rest = w.skipped.remove(at);
        assert(after.skipped == rest);
        assert(after.receiving == w.receiving);
        assert forall|j: nat| j < n && !arrived(all_done, j) implies #[trigger] holds(
            rest,
            remote,
            j,
        ) by {
            assert(all_done[done.len() as int].0 == c);
            assert(j != c);
            assert(!arrived(done, j)) by {
                if arrived(done, j) {
                    let k = choose|k: int| 0 <= k < done.len() && (#[trigger] done[k]).0 == j;
                    assert(all_done[k].0 == j);
                }
            }
            assert(holds(w.skipped, remote, j));
            let k = choose|k: int| 0 <= k < w.skipped.len() && is_for(#[trigger] w.skipped[k], remote, j);
            if k < at {
                assert(is_for(rest[k], remote, j));
            } else {
                assert(rest[k - 1] == w.skipped[k]);
                assert(is_for(rest[k - 1], remote, j));
            }
        }
        assert forall|k: int| 0 <= k < all_done.len() implies (#[trigger] all_done[k]).0
            < chain_of(after.receiving, remote).index by {
            if k < done.len() {
                assert(all_done[k] == done[k]);
            }
        }
    } else {
        let gap = (c - n) as nat;
        let run = skipped_run(remote, chain, gap);
        let all = w.skipped + run;
        lemma_forward_valid(w, remote, c, next.1);
        assert(all.len() <= w.config.max_skipped_keys);
        assert(after.skipped == all);
        assert forall|j: nat| j < c + 1 && !arrived(all_done, j) implies #[trigger] holds(
            all,
            remote,
            j,
        ) by {
            assert(all_done[done.len() as int].0 == c);
            assert(j != c);
            assert(!arrived(done, j)) by {
                if arrived(done, j) {
                    let k = choose|k: int| 0 <= k < done.len() && (#[trigger] done[k]).0 == j;
                    assert(all_done[k].0 == j);
                }
            }
            if j < n {
                assert(holds(w.skipped, remote, j));
                let k = choose|k: int|
                    0 <= k < w.skipped.len() && is_for(#[trigger] w.skipped[k], remote, j);
                assert(all[k] == w.skipped[k]);
                assert(is_for(all[k], remote, j));
            } else {
                let i = j - n;
                lemma_advance_index(chain, i as nat);
                assert(all[w.skipped.len() + i] == run[i]);
                assert(is_for(all[w.skipped.len() + i], remote, j));
            }
        }
        assert forall|k: int| 0 <= k < all_done.len() implies (#[trigger] all_done[k]).0
            < chain_of(after.receiving, remote).index by {
            if k < done.len() {
                assert(all_done[k] == done[k]);
            }
        }
    }
}

/// Arrivals one after the other: each gets the keys of its position.
proof fn lemma_arrivals(v: SessionView, remote: Seq<u8>, origin: ChainKeyView, arrivals: Seq<Arrival>)
    requires
        valid(v),
        tracks(v.receiving, remote),
        follows(v, remote, origin),
        chain_of(v.receiving, remote).index == 0,
        each_once(arrivals),
        within_bounds(v, arrivals, v.skipped.len()),
    ensures
        waiting(v, after_arrivals(v, remote, arrivals), remote, origin, arrivals),
        forall|k: int|
            0 <= k < arrivals.len() ==> #[trigger] arrival(v, remote, arrivals, k) == Ok::<
                MessageKeysView,
                SessionError,
            >(message_keys(advance(origin, arrivals[k].0))),
    decreases arrivals.len(),
{
    if arrivals.len() > 0 {
        let before = arrivals.drop_last();
        let last = arrivals.last();
        assert(each_once(before)) by {
            assert forall|i: int, j: int| 0 <= i < j < before.len() implies (
            #[trigger] before[i]).0 != (#[trigger] before[j]).0 by {
                assert(before[i] == arrivals[i] && before[j] == arrivals[j]);
            }
        }
        assert(within_bounds(v, before, v.skipped.len())) by {
            assert forall|k: int| 0 <= k < before.len() implies (#[trigger] before[k]).0
                <= v.config.max_skip && before[k].0 + v.skipped.len()
                <= v.config.max_skipped_keys by {
                assert(before[k] == arrivals[k]);
            }
        }
        lemma_arrivals(v, remote, origin, before);
        let w = after_arrivals(v, remote, before);
        assert(!arrived(before, last.0)) by {
            if arrived(before, last.0) {
                let k = choose|k: int| 0 <= k < before.len() && (#[trigger] before[k]).0 == last.0;
                assert(before[k] == arrivals[k]);
                assert(arrivals[k].0 != arrivals[arrivals.len() - 1].0);
            }
        }
        assert(arrivals[arrivals.len() - 1] == last);
        lemma_one_arrival(v, w, remote, origin, before, last);
        assert(before.push(last) =~= arrivals);
        assert forall|k: int| 0 <= k < arrivals.len() implies #[trigger] arrival(
            v,
            remote,
            arrivals,
            k,
        ) == Ok::<MessageKeysView, SessionError>(message_keys(advance(origin, arrivals[k].0))) by {
            if k < before.len() {
                assert(arrivals.take(k) =~= before.take(k));
                assert(arrivals[k] == before[k]);
                assert(arrival(v, remote, arrivals, k) == arrival(v, remote, before, k));
            } else {
                assert(arrivals.take(k) =~= before);
            }
        }
    }
}

/// Out-of-order recovery. Let the messages of a chain that starts at `origin`
/// arrive in any order, each once, none further ahead than the skip bound,
/// with room in the store for those that have to wait. Then every one of
/// them is accepted, and the keys it gets are the keys of its position in the
/// chain: the keys that delivery in order hands out for it.
pub proof fn lemma_any_order_gives_the_same_keys(
    v: SessionView,
    remote: Seq<u8>,
    origin: ChainKeyView,
    arrivals: Seq<Arrival>,
    k: int,
)
    requires
        valid(v),
        tracks(v.receiving, remote),
        follows(v, remote, origin),
        chain_of(v.receiving, remote).index == 0,
        each_once(arrivals),
        within_bounds(v, arrivals, v.skipped.len()),
        0 <= k < arrivals.len(),
    ensures
        arrival(v, remote, arrivals, k) == Ok::<MessageKeysView, SessionError>(
            message_keys(advance(origin, arrivals[k].0)),
        ),
{
    lemma_arrivals(v, remote, origin, arrivals);
}

} // verus!
