//! The session as a mathematical value and its transitions: what sending and
//! receiving do to it, and what holds of every session that these
//! transitions can reach.

use crate::ratchet::keys::{
    advance, message_keys, next_chain_key, root_step, ChainKeyView, MessageKeysView,
};
use crate::ratchet::step::{agreement, dh_ratchet};
use crate::skipped::{first_for, holds, keep_newest, without_remote, SkippedView};
use vstd::prelude::*;

verus! {

/// The bounds of a session. They are fixed when the session is made.
#[derive(Clone, Copy, Debug, PartialEq, Eq)]
pub struct RatchetConfig {
    /// How many remote ratchet keys are tracked, each with its receiving
    /// chain. At least 1.
    pub max_receiving_chains: usize,
    /// How far ahead of the next expected message an incoming message may be.
    pub max_skip: u32,
    /// How many skipped message keys are kept.
    pub max_skipped_keys: usize,
}

/// Why a session operation did not go through.
#[derive(Clone, Copy, Debug, PartialEq, Eq)]
pub enum SessionError {
    /// The message is further ahead of the next expected one than the
    /// configured bound allows.
    TooManySkipped,
    /// The message names a ratchet key whose chain was given up, or one for
    /// which this session cannot derive a chain.
    StaleSession,
    /// The keys of this message were handed out before, or were dropped from
    /// the store of skipped keys.
    DuplicateMessage,
    /// A piece of the key agreement's material has the wrong length.
    InvalidKeyLength,
    /// The key agreement was made for other identities than the session's.
    IdentityMismatch,
}

/// A receiving chain: the remote ratchet key that introduced it, and the chain
/// key of the next message expected under that key.
pub ghost struct ReceivingView {
    pub remote: Seq<u8>,
    pub chain: ChainKeyView,
}

/// The sending chain: the private half of the current ratchet key pair, and
/// the chain key of the next message to send.
pub ghost struct SendingView {
    pub private: Seq<u8>,
    pub chain: ChainKeyView,
}

/// A session as a mathematical value.
pub ghost struct SessionView {
    pub config: RatchetConfig,
    pub local_identity: Seq<u8>,
    pub remote_identity: Seq<u8>,
    /// The root key; `None` until the session is initialized.
    pub root: Option<Seq<u8>>,
    /// The sending chain; `None` while it waits for the peer's first message.
    pub sending: Option<SendingView>,
    /// How many messages the previous sending chain had sent when the last
    /// ratchet step replaced it.
    pub previous_length: nat,
    /// The receiving chains, the oldest first.
    pub receiving: Seq<ReceivingView>,
    /// The skipped message keys, the oldest first.
    pub skipped: Seq<SkippedView>,
    /// The remote ratchet keys whose chains were given up.
    pub retired: Seq<Seq<u8>>,
    /// The peer's first ratchet key, as the key agreement gave it.
    pub peer_initial: Option<Seq<u8>>,
}

/// Whether a receiving chain is filed under `remote`.
pub open spec fn tracks(chains: Seq<ReceivingView>, remote: Seq<u8>) -> bool {
    exists|i: int| 0 <= i < chains.len() && (#[trigger] chains[i]).remote == remote
}

/// The position of a receiving chain filed under `remote`.
pub open spec fn position_of(chains: Seq<ReceivingView>, remote: Seq<u8>) -> int {
    choose|i: int| 0 <= i < chains.len() && (#[trigger] chains[i]).remote == remote
}

/// The chain key of the receiving chain filed under `remote`.
pub open spec fn chain_of(chains: Seq<ReceivingView>, remote: Seq<u8>) -> ChainKeyView {
    chains[position_of(chains, remote)].chain
}

/// No two receiving chains are filed under the same remote ratchet key.
pub open spec fn distinct_remotes(chains: Seq<ReceivingView>) -> bool {
    forall|i: int, j: int|
        0 <= i < j < chains.len() ==> (#[trigger] chains[i]).remote != (#[trigger] chains[j]).remote
}

/// The receiving chains with the one filed under `remote` moved to `chain`.
pub open spec fn with_chain(chains: Seq<ReceivingView>, remote: Seq<u8>, chain: ChainKeyView) -> Seq<
    ReceivingView,
> {
    chains.map_values(
        |c: ReceivingView|
            if c.remote == remote {
                ReceivingView { remote, chain }
            } else {
                c
            },
    )
}

/// The message keys of the `gap` positions from `chain` on, filed under `remote`.
pub open spec fn skipped_run(remote: Seq<u8>, chain: ChainKeyView, gap: nat) -> Seq<SkippedView> {
    Seq::new(gap, |i: int| SkippedView { remote, keys: message_keys(advance(chain, i as nat)) })
}

/// No two skipped entries are for the same remote ratchet key and message index.
pub open spec fn distinct_entries(entries: Seq<SkippedView>) -> bool {
    forall|i: int, j: int|
        0 <= i < j < entries.len() ==> !((#[trigger] entries[i]).remote == (
        #[trigger] entries[j]).remote && entries[i].keys.index == entries[j].keys.index)
}

/// A skipped entry belongs to a tracked chain and to a position that chain has passed.
pub open spec fn filed(chains: Seq<ReceivingView>, entry: SkippedView) -> bool {
    tracks(chains, entry.remote) && entry.keys.index < chain_of(chains, entry.remote).index
}

/// What holds of every session: the bounds are kept, each tracked remote
/// ratchet key has one chain and is not among the retired ones, and each
/// skipped entry is the only one for its key and index and lies behind the
/// position of its chain.
pub open spec fn valid(v: SessionView) -> bool {
    &&& v.config.max_receiving_chains >= 1
    &&& v.receiving.len() <= v.config.max_receiving_chains
    &&& v.skipped.len() <= v.config.max_skipped_keys
    &&& distinct_remotes(v.receiving)
    &&& forall|i: int|
        0 <= i < v.receiving.len() ==> !v.retired.contains((#[trigger] v.receiving[i]).remote)
    &&& forall|i: int| 0 <= i < v.skipped.len() ==> filed(v.receiving, #[trigger] v.skipped[i])
    &&& distinct_entries(v.skipped)
}

/// A session that was made and not initialized yet.
pub open spec fn blank(config: RatchetConfig, local_identity: Seq<u8>, remote_identity: Seq<u8>) -> SessionView {
    SessionView {
        config,
        local_identity,
        remote_identity,
        root: None,
        sending: None,
        previous_length: 0,
        receiving: Seq::empty(),
        skipped: Seq::empty(),
        retired: Seq::empty(),
        peer_initial: None,
    }
}

/// The session of the side that started the key agreement, right after it:
/// the first chain is the sending chain, under a ratchet key pair of this
/// side's own; no receiving chain yet.
pub open spec fn initiator(
    v: SessionView,
    first: (Seq<u8>, ChainKeyView),
    private: Seq<u8>,
    peer: Seq<u8>,
) -> SessionView {
    SessionView {
        root: Some(first.0),
        sending: Some(SendingView { private, chain: first.1 }),
        peer_initial: Some(peer),
        ..blank(v.config, v.local_identity, v.remote_identity)
    }
}

/// The session of the side that answered the key agreement, right after it:
/// the first chain is the receiving chain, filed under the peer's first
/// ratchet key; the sending chain waits for the peer's first message.
pub open spec fn responder(v: SessionView, first: (Seq<u8>, ChainKeyView), peer: Seq<u8>) -> SessionView {
    SessionView {
        root: Some(first.0),
        receiving: seq![ReceivingView { remote: peer, chain: first.1 }],
        peer_initial: Some(peer),
        ..blank(v.config, v.local_identity, v.remote_identity)
    }
}

/// Sending: the sending chain moves on by one step and the message keys of
/// the position it leaves are handed out.
pub open spec fn send(v: SessionView) -> (SessionView, MessageKeysView)
    recommends
        v.sending is Some,
{
    let sending = v.sending.unwrap();
    (
        SessionView {
            sending: Some(SendingView { chain: next_chain_key(sending.chain), ..sending }),
            ..v
        },
        message_keys(sending.chain),
    )
}

/// The ratchet step applied to a session for a remote ratchet key it does not
/// track. The new receiving chain is filed under `remote`; the sending chain
/// and its key pair are replaced. Where the new chain is one too many, the
/// oldest chain is given up, with the skipped keys filed under its key, and
/// its key is retired.
pub open spec fn turn(v: SessionView, remote: Seq<u8>, fresh: Seq<u8>) -> SessionView
    recommends
        v.root is Some,
        v.sending is Some,
{
    let step = dh_ratchet(v.root.unwrap(), v.sending.unwrap().private, remote, fresh);
    let full = v.receiving.len() >= v.config.max_receiving_chains;
    let oldest = v.receiving[0].remote;
    let kept = if full {
        v.receiving.drop_first()
    } else {
        v.receiving
    };
    SessionView {
        root: Some(step.root),
        sending: Some(SendingView { private: fresh, chain: step.sending }),
        previous_length: v.sending.unwrap().chain.index,
        receiving: kept.push(ReceivingView { remote, chain: step.receiving }),
        skipped: if full {
            without_remote(v.skipped, oldest)
        } else {
            v.skipped
        },
        retired: if full {
            v.retired.push(oldest)
        } else {
            v.retired
        },
        ..v
    }
}

/// The sending chain of a session that has waited for the peer's first
/// message: the sending half of a ratchet step against the peer's first
/// ratchet key. A session that has a sending chain stays as it is.
pub open spec fn answer(v: SessionView, fresh: Seq<u8>) -> SessionView {
    if v.sending is None && v.root is Some && v.peer_initial is Some {
        let step = root_step(v.root.unwrap(), agreement(fresh, v.peer_initial.unwrap()));
        SessionView {
            root: Some(step.0),
            sending: Some(SendingView { private: fresh, chain: step.1 }),
            ..v
        }
    } else {
        v
    }
}

/// Receiving a message at or ahead of the position of its chain: the message
/// keys of the positions passed over go to the store of skipped keys, the
/// chain moves to the position after the message, and the message's keys are
/// handed out.
pub open spec fn forward(v: SessionView, remote: Seq<u8>, index: nat, fresh: Seq<u8>) -> (
    SessionView,
    MessageKeysView,
)
    recommends
        tracks(v.receiving, remote),
        chain_of(v.receiving, remote).index <= index,
{
    let chain = chain_of(v.receiving, remote);
    let gap = (index - chain.index) as nat;
    let target = advance(chain, gap);
    let moved = SessionView {
        receiving: with_chain(v.receiving, remote, next_chain_key(target)),
        skipped: keep_newest(
            v.skipped + skipped_run(remote, chain, gap),
            v.config.max_skipped_keys as nat,
        ),
        ..v
    };
    (answer(moved, fresh), message_keys(target))
}

/// Receiving a message under a tracked remote ratchet key.
pub open spec fn receive_known(v: SessionView, remote: Seq<u8>, index: nat, fresh: Seq<u8>) -> (
    SessionView,
    Result<MessageKeysView, SessionError>,
)
    recommends
        tracks(v.receiving, remote),
{
    let chain = chain_of(v.receiving, remote);
    if index < chain.index {
        if holds(v.skipped, remote, index) {
            let at = first_for(v.skipped, remote, index);
            (SessionView { skipped: v.skipped.remove(at), ..v }, Ok(v.skipped[at].keys))
        } else {
            (v, Err(SessionError::DuplicateMessage))
        }
    } else if index - chain.index > v.config.max_skip {
        (v, Err(SessionError::TooManySkipped))
    } else {
        let moved = forward(v, remote, index, fresh);
        (moved.0, Ok(moved.1))
    }
}

/// Receiving a message: the session afterwards, and the message's keys or the
/// reason why there are none. A retired key is refused. A tracked key goes to
/// its chain. An unseen key leads to a ratchet step if the session has a root
/// key and a sending chain to step from and the message is not too far ahead;
/// the new chain then starts at position 0.
pub open spec fn receive(v: SessionView, remote: Seq<u8>, index: nat, fresh: Seq<u8>) -> (
    SessionView,
    Result<MessageKeysView, SessionError>,
) {
    if v.retired.contains(remote) {
        (v, Err(SessionError::StaleSession))
    } else if tracks(v.receiving, remote) {
        receive_known(v, remote, index, fresh)
    } else if v.root is Some && v.sending is Some {
        if index > v.config.max_skip {
            (v, Err(SessionError::TooManySkipped))
        } else {
            let moved = forward(turn(v, remote, fresh), remote, index, fresh);
            (moved.0, Ok(moved.1))
        }
    } else {
        (v, Err(SessionError::StaleSession))
    }
}

} // verus!
