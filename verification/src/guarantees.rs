//! What the ratchet guarantees to its users, proved of the session's
//! transitions.

pub mod agreement;
pub mod delivery;
pub mod history;

use crate::ratchet::keys::{
    advance, chain_step, message_keys, next_chain_key, root_step, ChainKeyView, MessageKeysView,
};
use crate::ratchet::step::dh_ratchet;
use crate::skipped::{first_for, holds, is_for};
use crate::state::model::{
    chain_of, forward, position_of, receive, responder, send, skipped_run, tracks, turn, valid,
    SessionError, SessionView,
};
use crate::state::validity::{
    lemma_advance_add, lemma_advance_index, lemma_consume_valid, lemma_first_for,
    lemma_forward_valid, lemma_position, lemma_receive_valid, lemma_turn_valid,
    lemma_with_chain, lemma_without_remote,
};
use vstd::prelude::*;

verus! {

/// The two derivation steps are functions of their inputs: equal inputs give
/// equal outputs.
pub proof fn lemma_steps_are_deterministic(
    root_a: Seq<u8>,
    dh_a: Seq<u8>,
    root_b: Seq<u8>,
    dh_b: Seq<u8>,
    chain_a: ChainKeyView,
    chain_b: ChainKeyView,
)
    requires
        root_a == root_b,
        dh_a == dh_b,
        chain_a == chain_b,
    ensures
        root_step(root_a, dh_a) == root_step(root_b, dh_b),
        chain_step(chain_a) == chain_step(chain_b),
{
}

/// The session after `n` messages were sent.
pub open spec fn after_sends(v: SessionView, n: nat) -> SessionView
    decreases n,
{
    if n == 0 {
        v
    } else {
        send(after_sends(v, (n - 1) as nat)).0
    }
}

/// The keys of the message sent after `i` others.
pub open spec fn sent_keys(v: SessionView, i: nat) -> MessageKeysView {
    send(after_sends(v, i)).1
}

/// After `n` messages the sending chain has moved `n` steps, and nothing else
/// of the session has changed.
pub proof fn lemma_after_sends(v: SessionView, n: nat)
    requires
        v.sending is Some,
    ensures
        after_sends(v, n).sending is Some,
        after_sends(v, n).sending.unwrap().chain == advance(v.sending.unwrap().chain, n),
        after_sends(v, n).sending.unwrap().private == v.sending.unwrap().private,
        after_sends(v, n) == (SessionView { sending: after_sends(v, n).sending, ..v }),
    decreases n,
{
    if n > 0 {
        lemma_after_sends(v, (n - 1) as nat);
    }
}

/// The messages of a sending chain are numbered in the order they are sent:
/// the message sent after `i` others carries the chain's first counter plus
/// `i`, which is `i` on a fresh chain, and its keys are those of that
/// position. No two messages get the same keys.
pub proof fn lemma_sending_is_monotonic(v: SessionView, i: nat, j: nat)
    requires
        v.sending is Some,
    ensures
        sent_keys(v, i).index == v.sending.unwrap().chain.index + i,
        sent_keys(v, i) == message_keys(advance(v.sending.unwrap().chain, i)),
        i != j ==> sent_keys(v, i) != sent_keys(v, j),
{
    lemma_after_sends(v, i);
    lemma_after_sends(v, j);
    lemma_advance_index(v.sending.unwrap().chain, i);
    lemma_advance_index(v.sending.unwrap().chain, j);
}

/// A message that was received is refused as a duplicate when it comes
/// again right away, and the second attempt leaves the session as it was.
pub proof fn lemma_replay_is_refused(
    v: SessionView,
    remote: Seq<u8>,
    index: nat,
    fresh: Seq<u8>,
    fresh_again: Seq<u8>,
)
    requires
        valid(v),
        receive(v, remote, index, fresh).1 is Ok,
    ensures
        receive(receive(v, remote, index, fresh).0, remote, index, fresh_again) == (
            receive(v, remote, index, fresh).0,
            Err::<MessageKeysView, SessionError>(SessionError::DuplicateMessage),
        ),
{
    let w = receive(v, remote, index, fresh).0;
    lemma_receive_valid(v, remote, index, fresh);
    lemma_received(v, remote, index, fresh);
    let p = choose|p: int| 0 <= p < w.receiving.len() && (#[trigger] w.receiving[p]).remote == remote;
    assert(!w.retired.contains(w.receiving[p].remote));
}

/// After a message was received its remote ratchet key is tracked, the chain
/// stands behind the message, and the store holds no keys for the message.
pub proof fn lemma_received(v: SessionView, remote: Seq<u8>, index: nat, fresh: Seq<u8>)
    requires
        valid(v),
        receive(v, remote, index, fresh).1 is Ok,
    ensures
        tracks(receive(v, remote, index, fresh).0.receiving, remote),
        chain_of(receive(v, remote, index, fresh).0.receiving, remote).index > index,
        !holds(receive(v, remote, index, fresh).0.skipped, remote, index),
{
    let w = receive(v, remote, index, fresh).0;
    if tracks(v.receiving, remote) {
        let chain = chain_of(v.receiving, remote);
        if index < chain.index {
            lemma_first_for(v.skipped, remote, index);
            let at = first_for(v.skipped, remote, index);
            lemma_consume_valid(v, at);
            let rest = v.skipped.remove(at);
            if holds(rest, remote, index) {
                let k = choose|k: int| 0 <= k < rest.len() && is_for(#[trigger] rest[k], remote, index);
                let j = if k < at { k } else { k + 1 };
                assert(rest[k] == v.skipped[j]);
                if j < at {
                    assert(!(v.skipped[j].remote == v.skipped[at].remote && v.skipped[j].keys.index
                        == v.skipped[at].keys.index));
                } else {
                    assert(!(v.skipped[at].remote == v.skipped[j].remote && v.skipped[at].keys.index
                        == v.skipped[j].keys.index));
                }
            }
        } else {
            lemma_forward_valid(v, remote, index, fresh);
        }
    } else {
        lemma_turn_valid(v, remote, fresh);
        lemma_forward_valid(turn(v, remote, fresh), remote, index, fresh);
    }
}

/// A message further ahead of its chain than the configured bound is refused
/// with `TooManySkipped`, and the session stays as it was. For a remote
/// ratchet key seen for the first time the chain would start at 0.
pub proof fn lemma_skip_bound_is_enforced(v: SessionView, remote: Seq<u8>, index: nat, fresh: Seq<u8>)
    requires
        valid(v),
        !v.retired.contains(remote),
        tracks(v.receiving, remote) ==> index > chain_of(v.receiving, remote).index
            + v.config.max_skip,
        !tracks(v.receiving, remote) ==> v.root is Some && v.sending is Some && index
            > v.config.max_skip,
    ensures
        receive(v, remote, index, fresh) == (
            v,
            Err::<MessageKeysView, SessionError>(SessionError::TooManySkipped),
        ),
{
}

/// Whatever makes receiving fail, the session stays as it was.
pub proof fn lemma_failure_changes_nothing(v: SessionView, remote: Seq<u8>, index: nat, fresh: Seq<u8>)
    requires
        receive(v, remote, index, fresh).1 is Err,
    ensures
        receive(v, remote, index, fresh).0 == v,
{
}

/// A message under a retired remote ratchet key is refused with
/// `StaleSession`, and the session stays as it was.
pub proof fn lemma_retired_is_stale(v: SessionView, remote: Seq<u8>, index: nat, fresh: Seq<u8>)
    requires
        v.retired.contains(remote),
    ensures
        receive(v, remote, index, fresh) == (
            v,
            Err::<MessageKeysView, SessionError>(SessionError::StaleSession),
        ),
{
}

/// A remote ratchet key that is retired stays retired, whatever is received
/// or sent afterwards.
pub proof fn lemma_retired_stays_retired(
    v: SessionView,
    retired: Seq<u8>,
    remote: Seq<u8>,
    index: nat,
    fresh: Seq<u8>,
)
    requires
        valid(v),
        v.retired.contains(retired),
    ensures
        receive(v, remote, index, fresh).0.retired.contains(retired),
        v.sending is Some ==> send(v).0.retired.contains(retired),
{
    if !v.retired.contains(remote) && !tracks(v.receiving, remote) && v.root is Some && v.sending is Some
        && index <= v.config.max_skip {
        lemma_turn_valid(v, remote, fresh);
        lemma_forward_valid(turn(v, remote, fresh), remote, index, fresh);
    } else if !v.retired.contains(remote) && tracks(v.receiving, remote) {
        if index >= chain_of(v.receiving, remote).index {
            lemma_forward_valid(v, remote, index, fresh);
        }
    }
}

/// When a message under an unseen remote ratchet key is received while as
/// many keys are tracked as the bound allows, the oldest of them is given
/// up: it is retired and no longer tracked, no skipped keys stay filed under
/// it, and every later message that names it is refused with `StaleSession`.
pub proof fn lemma_oldest_is_evicted(
    v: SessionView,
    remote: Seq<u8>,
    index: nat,
    fresh: Seq<u8>,
    later_index: nat,
    later_fresh: Seq<u8>,
)
    requires
        valid(v),
        !v.retired.contains(remote),
        !tracks(v.receiving, remote),
        v.receiving.len() == v.config.max_receiving_chains,
        receive(v, remote, index, fresh).1 is Ok,
    ensures
        receive(v, remote, index, fresh).0.retired.contains(v.receiving[0].remote),
        !tracks(receive(v, remote, index, fresh).0.receiving, v.receiving[0].remote),
        forall|i: int|
            0 <= i < receive(v, remote, index, fresh).0.skipped.len() ==> (
            #[trigger] receive(v, remote, index, fresh).0.skipped[i]).remote
                != v.receiving[0].remote,
        receive(receive(v, remote, index, fresh).0, v.receiving[0].remote, later_index, later_fresh)
            == (
            receive(v, remote, index, fresh).0,
            Err::<MessageKeysView, SessionError>(SessionError::StaleSession),
        ),
{
    let oldest = v.receiving[0].remote;
    let t = turn(v, remote, fresh);
    let w = receive(v, remote, index, fresh).0;
    lemma_turn_valid(v, remote, fresh);
    lemma_forward_valid(t, remote, index, fresh);
    assert(w == forward(t, remote, index, fresh).0);
    assert(t.retired[t.retired.len() - 1] == oldest);
    assert(t.retired.contains(oldest));
    assert(valid(w));
    if tracks(w.receiving, oldest) {
        let p = choose|p: int| 0 <= p < w.receiving.len() && (#[trigger] w.receiving[p]).remote == oldest;
        assert(!w.retired.contains(w.receiving[p].remote));
    }
    assert forall|i: int| 0 <= i < w.skipped.len() implies (#[trigger] w.skipped[i]).remote
        != oldest by {
        // every skipped entry of a valid session is filed under a tracked key
        assert(tracks(w.receiving, w.skipped[i].remote));
    }
}

/// Whether all that a session holds for a remote ratchet key comes from the
/// chain that starts with `origin`: the receiving chain stands where its
/// position says, and each skipped entry holds the keys of its position.
pub open spec fn follows(v: SessionView, remote: Seq<u8>, origin: ChainKeyView) -> bool {
    &&& origin.index == 0
    &&& tracks(v.receiving, remote) ==> chain_of(v.receiving, remote) == advance(
        origin,
        chain_of(v.receiving, remote).index,
    )
    &&& forall|i: int|
        0 <= i < v.skipped.len() && (#[trigger] v.skipped[i]).remote == remote
            ==> v.skipped[i].keys == message_keys(advance(origin, v.skipped[i].keys.index))
}

/// The first receiving chain of the side that answered the key agreement
/// starts with the chain key the agreement gave.
pub proof fn lemma_first_chain_follows(v: SessionView, first: (Seq<u8>, ChainKeyView), peer: Seq<u8>)
    requires
        v.config.max_receiving_chains >= 1,
        first.1.index == 0,
    ensures
        follows(responder(v, first, peer), peer, first.1),
{
    let w = responder(v, first, peer);
    assert(w.receiving[0].remote == peer);
    assert forall|i: int, j: int| 0 <= i < j < w.receiving.len() implies (
    #[trigger] w.receiving[i]).remote != (#[trigger] w.receiving[j]).remote by {}
    lemma_position(w.receiving, peer, 0);
}

/// The receiving chain that a ratchet step files under a new remote ratchet
/// key starts with the chain key the step derived.
pub proof fn lemma_new_chain_follows(v: SessionView, remote: Seq<u8>, fresh: Seq<u8>)
    requires
        valid(v),
        !tracks(v.receiving, remote),
        !v.retired.contains(remote),
        v.root is Some,
        v.sending is Some,
    ensures
        follows(
            turn(v, remote, fresh),
            remote,
            dh_ratchet(v.root.unwrap(), v.sending.unwrap().private, remote, fresh).receiving,
        ),
{
    let t = turn(v, remote, fresh);
    lemma_turn_valid(v, remote, fresh);
    assert forall|i: int| 0 <= i < t.skipped.len() implies (#[trigger] t.skipped[i]).remote
        != remote by {
        let e = t.skipped[i];
        if e.remote == remote {
            // a skipped entry lies behind the position of its chain, and the new chain is at 0
            assert(e.keys.index < chain_of(t.receiving, e.remote).index);
        }
    }
}

/// Out of order or in order, the keys are the same: whenever a message under
/// a tracked remote ratchet key is received, the keys handed out are those of
/// the message's position in the chain, whether the chain is stepped to it or
/// the keys were stored when an earlier message passed over it.
pub proof fn lemma_keys_are_those_of_the_position(
    v: SessionView,
    remote: Seq<u8>,
    origin: ChainKeyView,
    index: nat,
    fresh: Seq<u8>,
)
    requires
        valid(v),
        tracks(v.receiving, remote),
        follows(v, remote, origin),
        receive(v, remote, index, fresh).1 is Ok,
    ensures
        receive(v, remote, index, fresh).1 == Ok::<MessageKeysView, SessionError>(
            message_keys(advance(origin, index)),
        ),
{
    let chain = chain_of(v.receiving, remote);
    if index < chain.index {
        lemma_first_for(v.skipped, remote, index);
    } else {
        lemma_advance_add(origin, chain.index, (index - chain.index) as nat);
    }
}

/// The first message under a new remote ratchet key gets the keys of its
/// position in the chain that the ratchet step derived.
pub proof fn lemma_keys_under_a_new_key(v: SessionView, remote: Seq<u8>, index: nat, fresh: Seq<u8>)
    requires
        valid(v),
        !tracks(v.receiving, remote),
        receive(v, remote, index, fresh).1 is Ok,
    ensures
        receive(v, remote, index, fresh).1 == Ok::<MessageKeysView, SessionError>(
            message_keys(
                advance(
                    dh_ratchet(v.root.unwrap(), v.sending.unwrap().private, remote, fresh).receiving,
                    index,
                ),
            ),
        ),
        follows(
            receive(v, remote, index, fresh).0,
            remote,
            dh_ratchet(v.root.unwrap(), v.sending.unwrap().private, remote, fresh).receiving,
        ),
{
    let t = turn(v, remote, fresh);
    let origin = dh_ratchet(v.root.unwrap(), v.sending.unwrap().private, remote, fresh).receiving;
    lemma_turn_valid(v, remote, fresh);
    lemma_new_chain_follows(v, remote, fresh);
    lemma_forward_follows(t, remote, origin, remote, index, fresh);
}

/// Receiving at or ahead of a chain keeps every chain on its course.
proof fn lemma_forward_follows(
    v: SessionView,
    remote: Seq<u8>,
    origin: ChainKeyView,
    other: Seq<u8>,
    index: nat,
    fresh: Seq<u8>,
)
    requires
        valid(v),
        tracks(v.receiving, remote),
        follows(v, remote, origin),
        tracks(v.receiving, other),
        chain_of(v.receiving, other).index <= index,
    ensures
        follows(forward(v, other, index, fresh).0, remote, origin),
{
    let chain = chain_of(v.receiving, other);
    let gap = (index - chain.index) as nat;
    let target = advance(chain, gap);
    let run = skipped_run(other, chain, gap);
    let all = v.skipped + run;
    let w = forward(v, other, index, fresh).0;
    lemma_with_chain(v.receiving, other, next_chain_key(target));
    lemma_advance_index(chain, gap);
    if other == remote {
        lemma_advance_add(origin, chain.index, gap);
        assert(advance(origin, index + 1) == next_chain_key(advance(origin, index)));
    }
    let off = if all.len() <= v.config.max_skipped_keys { 0int } else {
        all.len() - v.config.max_skipped_keys
    };
    assert forall|i: int| 0 <= i < w.skipped.len() && (#[trigger] w.skipped[i]).remote
        == remote implies w.skipped[i].keys == message_keys(
        advance(origin, w.skipped[i].keys.index),
    ) by {
        assert(w.skipped[i] == all[i + off]);
        if i + off < v.skipped.len() {
            assert(all[i + off] == v.skipped[i + off]);
        } else {
            let k = (i + off - v.skipped.len()) as nat;
            assert(all[i + off] == run[k as int]);
            lemma_advance_add(origin, chain.index, k);
            lemma_advance_index(chain, k);
        }
    }
}

/// What a session holds for a tracked remote ratchet key stays on the course
/// of its chain, whatever is received.
pub proof fn lemma_course_is_kept(
    v: SessionView,
    remote: Seq<u8>,
    origin: ChainKeyView,
    other: Seq<u8>,
    index: nat,
    fresh: Seq<u8>,
)
    requires
        valid(v),
        tracks(v.receiving, remote),
        follows(v, remote, origin),
    ensures
        follows(receive(v, other, index, fresh).0, remote, origin),
{
    let w = receive(v, other, index, fresh).0;
    if v.retired.contains(other) {
    } else if tracks(v.receiving, other) {
        let chain = chain_of(v.receiving, other);
        if index < chain.index {
            if holds(v.skipped, other, index) {
                lemma_first_for(v.skipped, other, index);
                let at = first_for(v.skipped, other, index);
                assert forall|i: int| 0 <= i < w.skipped.len() && (#[trigger] w.skipped[i]).remote
                    == remote implies w.skipped[i].keys == message_keys(
                    advance(origin, w.skipped[i].keys.index),
                ) by {
                    let j = if i < at { i } else { i + 1 };
                    assert(w.skipped[i] == v.skipped[j]);
                }
            }
        } else if index - chain.index > v.config.max_skip {
        } else {
            lemma_forward_follows(v, remote, origin, other, index, fresh);
        }
    } else if v.root is Some && v.sending is Some {
        if index <= v.config.max_skip {
            let t = turn(v, other, fresh);
            lemma_turn_valid(v, other, fresh);
            lemma_turn_follows(v, remote, origin, other, fresh);
            if tracks(t.receiving, remote) {
                lemma_forward_follows(t, remote, origin, other, index, fresh);
            } else {
                lemma_forward_valid(t, other, index, fresh);
                let w = forward(t, other, index, fresh).0;
                lemma_with_chain(
                    t.receiving,
                    other,
                    next_chain_key(advance(chain_of(t.receiving, other), index)),
                );
                assert forall|i: int| 0 <= i < w.skipped.len() implies (
                #[trigger] w.skipped[i]).remote != remote by {
                    assert(tracks(w.receiving, w.skipped[i].remote));
                }
            }
        }
    }
}

/// A ratchet step for another remote ratchet key keeps a chain on its course,
/// or gives it up with all that was stored for it.
proof fn lemma_turn_follows(
    v: SessionView,
    remote: Seq<u8>,
    origin: ChainKeyView,
    other: Seq<u8>,
    fresh: Seq<u8>,
)
    requires
        valid(v),
        tracks(v.receiving, remote),
        follows(v, remote, origin),
        !tracks(v.receiving, other),
        !v.retired.contains(other),
        v.root is Some,
        v.sending is Some,
    ensures
        follows(turn(v, other, fresh), remote, origin),
{
    let t = turn(v, other, fresh);
    let full = v.receiving.len() >= v.config.max_receiving_chains;
    let off = if full { 1int } else { 0int };
    let oldest = v.receiving[0].remote;
    lemma_turn_valid(v, other, fresh);
    let p = position_of(v.receiving, remote);
    lemma_position(v.receiving, remote, p);
    if tracks(t.receiving, remote) {
        let q = position_of(t.receiving, remote);
        lemma_position(t.receiving, remote, q);
        assert(q < t.receiving.len() - 1);
        assert(t.receiving[q] == v.receiving[q + off]);
        lemma_position(v.receiving, remote, q + off);
    }
    lemma_without_remote(v.skipped, oldest);
    assert forall|i: int| 0 <= i < t.skipped.len() && (#[trigger] t.skipped[i]).remote
        == remote implies t.skipped[i].keys == message_keys(
        advance(origin, t.skipped[i].keys.index),
    ) by {
        let e = t.skipped[i];
        assert(v.skipped.contains(e));
        let j = choose|j: int| 0 <= j < v.skipped.len() && v.skipped[j] == e;
        assert(v.skipped[j].remote == remote);
    }
}

} // verus!
