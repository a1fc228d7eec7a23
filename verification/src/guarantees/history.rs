//! What holds across the whole life of a session: message keys are handed
//! out once, and a remote ratchet key that was given up never comes back.

use crate::guarantees::{lemma_received, lemma_retired_stays_retired};
use crate::ratchet::keys::{advance, next_chain_key, MessageKeysView};
use crate::skipped::{first_for, holds, is_for};
use crate::state::model::{
    chain_of, forward, position_of, receive, send, skipped_run, tracks, turn, valid, SessionError,
    SessionView,
};
use crate::state::validity::{
    lemma_advance_index, lemma_first_for, lemma_forward_valid, lemma_position,
    lemma_receive_valid, lemma_send_valid, lemma_turn_valid, lemma_with_chain,
    lemma_without_remote,
};
use vstd::prelude::*;

verus! {

/// Something that happens to a session: a message is sent, or a message
/// arrives with a remote ratchet key and a counter while the receiver has a
/// fresh ratchet secret at hand.
pub ghost enum Event {
    Send,
    Receive { remote: Seq<u8>, index: nat, fresh: Seq<u8> },
}

/// The session after an event. Sending without a sending chain is no event.
pub open spec fn after_event(v: SessionView, event: Event) -> SessionView {
    match event {
        Event::Send => if v.sending is Some {
            send(v).0
        } else {
            v
        },
        Event::Receive { remote, index, fresh } => receive(v, remote, index, fresh).0,
    }
}

/// The session after a sequence of events.
pub open spec fn after_events(v: SessionView, events: Seq<Event>) -> SessionView
    decreases events.len(),
{
    if events.len() == 0 {
        v
    } else {
        after_event(after_events(v, events.drop_last()), events.last())
    }
}

/// Whether the keys of a message are spent: the remote ratchet key is
/// retired, or its chain has passed the message and the store holds no keys
/// for it.
pub open spec fn spent(v: SessionView, remote: Seq<u8>, index: nat) -> bool {
    ||| v.retired.contains(remote)
    ||| (tracks(v.receiving, remote) && chain_of(v.receiving, remote).index > index && !holds(
        v.skipped,
        remote,
        index,
    ))
}

/// A message whose keys are spent is refused, as stale if its remote ratchet
/// key is retired and as a duplicate otherwise, and the session stays as it was.
pub proof fn lemma_spent_is_refused(v: SessionView, remote: Seq<u8>, index: nat, fresh: Seq<u8>)
    requires
        valid(v),
        spent(v, remote, index),
    ensures
        receive(v, remote, index, fresh) == (
            v,
            Err::<MessageKeysView, SessionError>(
                if v.retired.contains(remote) {
                    SessionError::StaleSession
                } else {
                    SessionError::DuplicateMessage
                },
            ),
        ),
{
}

/// Receiving at or ahead of a chain leaves spent what is spent.
proof fn lemma_forward_keeps_spent(
    v: SessionView,
    remote: Seq<u8>,
    index: nat,
    other: Seq<u8>,
    other_index: nat,
    fresh: Seq<u8>,
)
    requires
        valid(v),
        !v.retired.contains(remote),
        spent(v, remote, index),
        tracks(v.receiving, other),
        chain_of(v.receiving, other).index <= other_index,
    ensures
        spent(forward(v, other, other_index, fresh).0, remote, index),
{
    let chain = chain_of(v.receiving, other);
    let gap = (other_index - chain.index) as nat;
    let run = skipped_run(other, chain, gap);
    let all = v.skipped + run;
    let w = forward(v, other, other_index, fresh).0;
    lemma_with_chain(v.receiving, other, next_chain_key(advance(chain, gap)));
    lemma_advance_index(chain, gap);
    let off = if all.len() <= v.config.max_skipped_keys { 0int } else {
        all.len() - v.config.max_skipped_keys
    };
    if holds(w.skipped, remote, index) {
        let k = choose|k: int| 0 <= k < w.skipped.len() && is_for(#[trigger] w.skipped[k], remote, index);
        assert(w.skipped[k] == all[k + off]);
        if k + off < v.skipped.len() {
            assert(is_for(v.skipped[k + off], remote, index));
        } else {
            let i = k + off - v.skipped.len();
            assert(all[k + off] == run[i]);
            lemma_advance_index(chain, i as nat);
        }
    }
}

/// Whatever is received, the keys that are spent stay spent.
pub proof fn lemma_receiving_keeps_spent(
    v: SessionView,
    remote: Seq<u8>,
    index: nat,
    other: Seq<u8>,
    other_index: nat,
    fresh: Seq<u8>,
)
    requires
        valid(v),
        spent(v, remote, index),
    ensures
        spent(receive(v, other, other_index, fresh).0, remote, index),
{
    let w = receive(v, other, other_index, fresh).0;
    if v.retired.contains(remote) {
        lemma_retired_stays_retired(v, remote, other, other_index, fresh);
    } else if v.retired.contains(other) {
    } else if tracks(v.receiving, other) {
        let chain = chain_of(v.receiving, other);
        if other_index < chain.index {
            if holds(v.skipped, other, other_index) {
                lemma_first_for(v.skipped, other, other_index);
                let at = first_for(v.skipped, other, other_index);
                if holds(w.skipped, remote, index) {
                    let k = choose|k: int|
                        0 <= k < w.skipped.len() && is_for(#[trigger] w.skipped[k], remote, index);
                    let j = if k < at { k } else { k + 1 };
                    assert(w.skipped[k] == v.skipped[j]);
                    assert(is_for(v.skipped[j], remote, index));
                }
            }
        } else if other_index - chain.index > v.config.max_skip {
        } else {
            lemma_forward_keeps_spent(v, remote, index, other, other_index, fresh);
        }
    } else if v.root is Some && v.sending is Some {
        if other_index <= v.config.max_skip {
            let t = turn(v, other, fresh);
            let full = v.receiving.len() >= v.config.max_receiving_chains;
            let off = if full { 1int } else { 0int };
            let oldest = v.receiving[0].remote;
            lemma_turn_valid(v, other, fresh);
            lemma_forward_valid(t, other, other_index, fresh);
            let p = position_of(v.receiving, remote);
            lemma_position(v.receiving, remote, p);
            if full && p == 0 {
                assert(t.retired[t.retired.len() - 1] == remote);
                assert(t.retired.contains(remote));
                assert(w.retired == t.retired);
            } else {
                assert(t.receiving[p - off] == v.receiving[p]);
                lemma_position(t.receiving, remote, p - off);
                lemma_without_remote(v.skipped, oldest);
                if holds(t.skipped, remote, index) {
                    let k = choose|k: int|
                        0 <= k < t.skipped.len() && is_for(#[trigger] t.skipped[k], remote, index);
                    assert(v.skipped.contains(t.skipped[k]));
                    let j = choose|j: int| 0 <= j < v.skipped.len() && v.skipped[j] == t.skipped[k];
                    assert(is_for(v.skipped[j], remote, index));
                }
                assert(!t.retired.contains(remote)) by {
                    let q = p - off;
                    assert(!t.retired.contains(t.receiving[q].remote));
                }
                lemma_forward_keeps_spent(t, remote, index, other, other_index, fresh);
            }
        }
    }
}

/// Events keep a session valid and leave spent what is spent.
proof fn lemma_events(v: SessionView, remote: Seq<u8>, index: nat, events: Seq<Event>)
    requires
        valid(v),
        spent(v, remote, index),
    ensures
        valid(after_events(v, events)),
        spent(after_events(v, events), remote, index),
    decreases events.len(),
{
    if events.len() > 0 {
        lemma_events(v, remote, index, events.drop_last());
        let w = after_events(v, events.drop_last());
        match events.last() {
            Event::Send => {
                if w.sending is Some {
                    lemma_send_valid(w);
                }
            },
            Event::Receive { remote: other, index: other_index, fresh } => {
                lemma_receive_valid(w, other, other_index, fresh);
                lemma_receiving_keeps_spent(w, remote, index, other, other_index, fresh);
            },
        }
    }
}

/// Message keys are handed out once. After a message was received, whatever
/// is sent and received afterwards, the same remote ratchet key and counter
/// are refused, as a duplicate or, if the key was given up in between, as
/// stale; and the refusal leaves the session as it was.
pub proof fn lemma_keys_are_handed_out_once(
    v: SessionView,
    remote: Seq<u8>,
    index: nat,
    fresh: Seq<u8>,
    events: Seq<Event>,
    fresh_again: Seq<u8>,
)
    requires
        valid(v),
        receive(v, remote, index, fresh).1 is Ok,
    ensures
        receive(after_events(receive(v, remote, index, fresh).0, events), remote, index, fresh_again).1
            is Err,
        receive(after_events(receive(v, remote, index, fresh).0, events), remote, index, fresh_again).0
            == after_events(receive(v, remote, index, fresh).0, events),
{
    let w = receive(v, remote, index, fresh).0;
    lemma_receive_valid(v, remote, index, fresh);
    lemma_received(v, remote, index, fresh);
    lemma_events(w, remote, index, events);
    lemma_spent_is_refused(after_events(w, events), remote, index, fresh_again);
}

/// A remote ratchet key that was given up never comes back. Whatever is sent
/// and received after a key was retired, every message under it is refused
/// as stale, and the refusal leaves the session as it was.
pub proof fn lemma_a_retired_key_stays_stale(
    v: SessionView,
    remote: Seq<u8>,
    events: Seq<Event>,
    index: nat,
    fresh: Seq<u8>,
)
    requires
        valid(v),
        v.retired.contains(remote),
    ensures
        receive(after_events(v, events), remote, index, fresh) == (
            after_events(v, events),
            Err::<MessageKeysView, SessionError>(SessionError::StaleSession),
        ),
{
    lemma_retired_events(v, remote, events);
}

/// Events keep a session valid and a retired key retired.
proof fn lemma_retired_events(v: SessionView, remote: Seq<u8>, events: Seq<Event>)
    requires
        valid(v),
        v.retired.contains(remote),
    ensures
        valid(after_events(v, events)),
        after_events(v, events).retired.contains(remote),
    decreases events.len(),
{
    if events.len() > 0 {
        lemma_retired_events(v, remote, events.drop_last());
        let w = after_events(v, events.drop_last());
        match events.last() {
            Event::Send => {
                if w.sending is Some {
                    lemma_send_valid(w);
                }
            },
            Event::Receive { remote: other, index, fresh } => {
                lemma_receive_valid(w, other, index, fresh);
                lemma_retired_stays_retired(w, remote, other, index, fresh);
            },
        }
    }
}

} // verus!
