//! Agreement of the two sides: what one side derives for sending, the other
//! derives for receiving, through every ratchet step.

use crate::guarantees::{
    after_sends, follows, lemma_after_sends, lemma_first_chain_follows,
    lemma_keys_are_those_of_the_position, lemma_keys_under_a_new_key, sent_keys,
};
use crate::ratchet::keys::{advance, initial_step, message_keys, root_step, ChainKeyView, MessageKeysView};
use crate::ratchet::params::{AliceView, BobView};
use crate::ratchet::step::{agreement, public_of};
use crate::ratchet::{alice_session, bob_session};
use crate::state::model::{
    chain_of, forward, receive, send, tracks, turn, valid, SessionError, SessionView,
};
use crate::state::validity::{
    lemma_advance_add, lemma_forward_valid, lemma_initial_valid, lemma_position, lemma_turn_valid,
};
use vstd::prelude::*;

verus! {

/// Whether two private keys agree: each applied to the public half of the
/// other gives the same value. Diffie-Hellman key pairs do.
pub open spec fn keys_agree(a: Seq<u8>, b: Seq<u8>) -> bool {
    agreement(a, public_of(b)) == agreement(b, public_of(a))
}

/// The root step with which `front` opens a sending chain against the ratchet
/// key of `back`, from the root key that `back` holds.
pub open spec fn opening(front: SessionView, back: SessionView) -> (Seq<u8>, ChainKeyView) {
    root_step(
        back.root.unwrap(),
        agreement(front.sending.unwrap().private, public_of(back.sending.unwrap().private)),
    )
}

/// Whether `front` is half a ratchet step ahead of `back`: its root key and
/// its sending chain come from the root key of `back` by the step that
/// `back` will take when the first message of that chain arrives.
pub open spec fn ahead(front: SessionView, back: SessionView) -> bool {
    &&& front.root is Some
    &&& front.sending is Some
    &&& back.root is Some
    &&& back.sending is Some
    &&& front.root.unwrap() == opening(front, back).0
    &&& front.sending.unwrap().chain == advance(
        opening(front, back).1,
        front.sending.unwrap().chain.index,
    )
}

/// The side that is ahead sends its messages with the keys of the chain it
/// opened, each at its counter.
pub proof fn lemma_sent_keys_are_on_course(front: SessionView, back: SessionView, i: nat)
    requires
        ahead(front, back),
    ensures
        sent_keys(front, i) == message_keys(
            advance(opening(front, back).1, front.sending.unwrap().chain.index + i),
        ),
        sent_keys(front, i).index == front.sending.unwrap().chain.index + i,
{
    lemma_after_sends(front, i);
    lemma_advance_add(opening(front, back).1, front.sending.unwrap().chain.index, i);
    crate::state::validity::lemma_advance_index(front.sending.unwrap().chain, i);
}

/// Sending on either side leaves the side that is ahead ahead.
pub proof fn lemma_sending_keeps_ahead(front: SessionView, back: SessionView)
    requires
        ahead(front, back),
    ensures
        ahead(send(front).0, back),
        ahead(front, send(back).0),
{
    let chain = front.sending.unwrap().chain;
    assert(advance(opening(front, back).1, chain.index + 1) == crate::ratchet::keys::next_chain_key(
        advance(opening(front, back).1, chain.index),
    ));
}

/// The first messages agree. Let both sides start from the same key
/// agreement, the answering side knowing the public half of the starting
/// side's ratchet key. Then a message of the starting side that arrives
/// within the skip bound is accepted with the keys it was sent with, and the
/// answering side, its sending chain opened, is half a step ahead.
pub proof fn lemma_first_messages_agree(
    va: SessionView,
    pa: AliceView,
    vb: SessionView,
    pb: BobView,
    sent: nat,
    index: nat,
    fresh: Seq<u8>,
)
    requires
        vb.config.max_receiving_chains >= 1,
        pb.agreements == pa.agreements,
        pb.peer_ratchet_key == public_of(pa.ratchet_secret),
        index <= vb.config.max_skip,
    ensures
        receive(bob_session(vb, pb), pb.peer_ratchet_key, index, fresh).1 == Ok::<
            MessageKeysView,
            SessionError,
        >(sent_keys(alice_session(va, pa), index)),
        ahead(
            receive(bob_session(vb, pb), pb.peer_ratchet_key, index, fresh).0,
            after_sends(alice_session(va, pa), sent),
        ),
{
    let a = alice_session(va, pa);
    let b = bob_session(vb, pb);
    let first = initial_step(pa.agreements);
    let peer = pb.peer_ratchet_key;
    lemma_initial_valid(vb, first, peer, peer);
    lemma_first_chain_follows(vb, first, peer);
    assert(b.receiving[0].remote == peer);
    assert(tracks(b.receiving, peer));
    assert(chain_of(b.receiving, peer) == first.1) by {
        assert forall|i: int, j: int| 0 <= i < j < b.receiving.len() implies (
        #[trigger] b.receiving[i]).remote != (#[trigger] b.receiving[j]).remote by {}
        lemma_position(b.receiving, peer, 0);
    }
    assert(!b.retired.contains(peer));
    assert(receive(b, peer, index, fresh).1 is Ok);
    lemma_keys_are_those_of_the_position(b, peer, first.1, index, fresh);
    lemma_after_sends(a, index);
    lemma_after_sends(a, sent);
}

/// The sides agree through a ratchet step. Let `front` be half a step ahead
/// of `back`, and let their ratchet keys agree. When the first message under
/// the ratchet key of `front` arrives at `back`, within the skip bound, `back`
/// takes a ratchet step and accepts the message with the keys of its
/// position in the chain that `front` sends on. The root key `back` passes
/// through is the one `front` holds, and `back` is half a step ahead
/// afterwards.
pub proof fn lemma_sides_agree_through_a_step(
    front: SessionView,
    back: SessionView,
    index: nat,
    fresh: Seq<u8>,
)
    requires
        valid(back),
        ahead(front, back),
        keys_agree(front.sending.unwrap().private, back.sending.unwrap().private),
        !tracks(back.receiving, public_of(front.sending.unwrap().private)),
        !back.retired.contains(public_of(front.sending.unwrap().private)),
        index <= back.config.max_skip,
    ensures
        receive(back, public_of(front.sending.unwrap().private), index, fresh).1 == Ok::<
            MessageKeysView,
            SessionError,
        >(message_keys(advance(opening(front, back).1, index))),
        follows(
            receive(back, public_of(front.sending.unwrap().private), index, fresh).0,
            public_of(front.sending.unwrap().private),
            opening(front, back).1,
        ),
        root_step(
            back.root.unwrap(),
            agreement(back.sending.unwrap().private, public_of(front.sending.unwrap().private)),
        ).0 == front.root.unwrap(),
        ahead(receive(back, public_of(front.sending.unwrap().private), index, fresh).0, front),
{
    let remote = public_of(front.sending.unwrap().private);
    let t = turn(back, remote, fresh);
    lemma_turn_valid(back, remote, fresh);
    lemma_forward_valid(t, remote, index, fresh);
    lemma_keys_under_a_new_key(back, remote, index, fresh);
    let after = receive(back, remote, index, fresh).0;
    assert(after == forward(t, remote, index, fresh).0);
    assert(after.root == t.root && after.sending == t.sending);
}

} // verus!
