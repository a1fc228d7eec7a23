//! The session state: the one sending chain, the receiving chains, the store
//! of skipped message keys and the counters of a conversation.

pub mod model;
pub mod snapshot;
pub mod validity;

pub use self::model::{RatchetConfig, SessionError, SessionView};
pub use self::snapshot::{SendingSnapshot, SessionSnapshot};

use crate::bytes::same_bytes;
use crate::primitives::wipe;
use crate::ratchet::keys::{
    advance, derive_chain_step, derive_root_step, ChainKey, MessageKeys, MessageKeysView,
    RootKey,
};
use crate::ratchet::step::{public_of, ratchet_step, RatchetKeyPair};
use crate::skipped::{first_for, holds, views, SkippedKey, SkippedKeyCache};
use crate::state::model::{
    answer, blank, chain_of, forward, initiator, receive, responder, send, skipped_run, tracks, turn,
    valid, with_chain, ReceivingView, SendingView,
};
use crate::state::validity::{
    lemma_consume_valid, lemma_first_for, lemma_forward_valid, lemma_initial_valid,
    lemma_moved_valid, lemma_position, lemma_receive_counter, lemma_send_valid,
    lemma_turn_valid,
};
use vstd::prelude::*;

verus! {

/// The sending chain: the current ratchet key pair and the chain key of the
/// next message to send.
#[derive(Clone, Copy, Debug, PartialEq, Eq)]
struct SendingChain {
    key_pair: RatchetKeyPair,
    chain_key: ChainKey,
}

/// A receiving chain: the remote ratchet key that introduced it and the chain
/// key of the next message expected under that key.
#[derive(Clone, Copy, Debug, PartialEq, Eq)]
pub struct ReceivingChain {
    pub remote: [u8; 32],
    pub chain_key: ChainKey,
}

impl View for ReceivingChain {
    type V = ReceivingView;

    open spec fn view(&self) -> ReceivingView {
        ReceivingView { remote: self.remote@, chain: self.chain_key@ }
    }
}

/// The state of one conversation's ratchet.
#[derive(Clone, Debug, PartialEq, Eq)]
pub struct SessionState {
    config: RatchetConfig,
    local_identity: [u8; 32],
    remote_identity: [u8; 32],
    root_key: Option<RootKey>,
    sending: Option<SendingChain>,
    previous_sending_length: u64,
    receiving: Vec<ReceivingChain>,
    skipped: SkippedKeyCache,
    retired: Vec<[u8; 32]>,
    peer_initial: Option<[u8; 32]>,
}

/// The result of receiving, with the message keys as a mathematical value.
pub open spec fn outcome(out: Result<MessageKeys, SessionError>) -> Result<
    MessageKeysView,
    SessionError,
> {
    match out {
        Ok(keys) => Ok(keys@),
        Err(e) => Err(e),
    }
}

/// Whether a session can send: it has a sending chain, and the chain has a
/// message counter left.
pub open spec fn can_send(v: SessionView) -> bool {
    v.sending is Some && v.sending.unwrap().chain.index <= u32::MAX
}

impl View for SessionState {
    type V = SessionView;

    closed spec fn view(&self) -> SessionView {
        SessionView {
            config: self.config,
            local_identity: self.local_identity@,
            remote_identity: self.remote_identity@,
            root: match self.root_key {
                Some(root) => Some(root@),
                None => None,
            },
            sending: match self.sending {
                Some(s) => Some(
                    SendingView { private: s.key_pair.private_view(), chain: s.chain_key@ },
                ),
                None => None,
            },
            previous_length: self.previous_sending_length as nat,
            receiving: self.receiving@.map_values(|c: ReceivingChain| c@),
            skipped: self.skipped@,
            retired: self.retired@.map_values(|k: [u8; 32]| k@),
            peer_initial: match self.peer_initial {
                Some(key) => Some(key@),
                None => None,
            },
        }
    }
}

impl SessionState {
    /// The session is valid, its store of skipped keys has the configured
    /// capacity, and the halves of its ratchet key pair belong together.
    pub closed spec fn wf(&self) -> bool {
        &&& valid(self@)
        &&& self.skipped.wf()
        &&& self.skipped.bound() == self.config.max_skipped_keys
        &&& (self.sending matches Some(s) ==> s.key_pair.wf())
    }

    /// The public half of the ratchet key pair of the sending chain.
    pub closed spec fn sending_public(&self) -> Option<Seq<u8>> {
        match self.sending {
            Some(s) => Some(s.key_pair.public_view()),
            None => None,
        }
    }

    /// A well-formed session is a valid one, and the public ratchet key it
    /// sends along belongs to the private key of its sending chain.
    pub proof fn lemma_wf(&self)
        requires
            self.wf(),
        ensures
            valid(self@),
            self@.sending is Some <==> self.sending_public() is Some,
            self@.sending is Some ==> self.sending_public() == Some(
                public_of(self@.sending.unwrap().private),
            ),
    {
        if let Some(s) = self.sending {
            s.key_pair.lemma_wf();
        }
    }

    /// A session for a conversation between two identities, not initialized yet.
    pub fn new(config: RatchetConfig, local_identity: [u8; 32], remote_identity: [u8; 32]) -> (s:
        SessionState)
        requires
            config.max_receiving_chains >= 1,
        ensures
            s.wf(),
            s@ == blank(config, local_identity@, remote_identity@),
    {
        let s = SessionState {
            config,
            local_identity,
            remote_identity,
            root_key: None,
            sending: None,
            previous_sending_length: 0,
            receiving: Vec::new(),
            skipped: SkippedKeyCache::new(config.max_skipped_keys),
            retired: Vec::new(),
            peer_initial: None,
        };
        assert(s@.receiving =~= Seq::<ReceivingView>::empty());
        assert(s@.retired =~= Seq::<Seq<u8>>::empty());
        s
    }

    /// Makes this the session of the side that started the key agreement.
    /// Whatever the session held before is dropped.
    pub fn begin_as_initiator(
        &mut self,
        root_key: RootKey,
        chain_key: ChainKey,
        key_pair: RatchetKeyPair,
        peer_ratchet_key: [u8; 32],
    )
        requires
            old(self).wf(),
            key_pair.wf(),
        ensures
            final(self).wf(),
            final(self)@ == initiator(
                old(self)@,
                (root_key@, chain_key@),
                key_pair.private_view(),
                peer_ratchet_key@,
            ),
    {
        proof {
            lemma_initial_valid(
                self@,
                (root_key@, chain_key@),
                key_pair.private_view(),
                peer_ratchet_key@,
            );
        }
        self.root_key = Some(root_key);
        self.sending = Some(SendingChain { key_pair, chain_key });
        self.previous_sending_length = 0;
        self.receiving = Vec::new();
        self.skipped = SkippedKeyCache::new(self.config.max_skipped_keys);
        self.retired = Vec::new();
        self.peer_initial = Some(peer_ratchet_key);
        assert(self@.receiving =~= Seq::<ReceivingView>::empty());
        assert(self@.retired =~= Seq::<Seq<u8>>::empty());
    }

    /// Makes this the session of the side that answered the key agreement.
    /// Whatever the session held before is dropped.
    pub fn begin_as_responder(
        &mut self,
        root_key: RootKey,
        chain_key: ChainKey,
        peer_ratchet_key: [u8; 32],
    )
        requires
            old(self).wf(),
        ensures
            final(self).wf(),
            final(self)@ == responder(old(self)@, (root_key@, chain_key@), peer_ratchet_key@),
    {
        proof {
            lemma_initial_valid(self@, (root_key@, chain_key@), peer_ratchet_key@, peer_ratchet_key@);
        }
        let mut receiving: Vec<ReceivingChain> = Vec::new();
        receiving.push(ReceivingChain { remote: peer_ratchet_key, chain_key });
        self.root_key = Some(root_key);
        self.sending = None;
        self.previous_sending_length = 0;
        self.receiving = receiving;
        self.skipped = SkippedKeyCache::new(self.config.max_skipped_keys);
        self.retired = Vec::new();
        self.peer_initial = Some(peer_ratchet_key);
        assert(self@.receiving =~= seq![
            ReceivingView { remote: peer_ratchet_key@, chain: chain_key@ },
        ]);
        assert(self@.retired =~= Seq::<Seq<u8>>::empty());
    }

    /// The identity key of this side.
    pub fn local_identity(&self) -> (key: [u8; 32])
        ensures
            key@ == self@.local_identity,
    {
        self.local_identity
    }

    /// The identity key of the peer.
    pub fn remote_identity(&self) -> (key: [u8; 32])
        ensures
            key@ == self@.remote_identity,
    {
        self.remote_identity
    }

    /// The bounds of the session.
    pub fn config(&self) -> (config: RatchetConfig)
        ensures
            config == self@.config,
    {
        self.config
    }

    /// Whether the session was initialized from a key agreement.
    pub fn is_initialized(&self) -> (initialized: bool)
        ensures
            initialized == (self@.root is Some),
    {
        self.root_key.is_some()
    }

    /// The root key, once the session is initialized.
    pub fn root_key(&self) -> (root: Option<RootKey>)
        ensures
            match root {
                Some(key) => self@.root == Some(key@),
                None => self@.root is None,
            },
    {
        self.root_key
    }

    /// Whether the session has a sending chain.
    pub fn has_sending_chain(&self) -> (has: bool)
        ensures
            has == (self@.sending is Some),
    {
        self.sending.is_some()
    }

    /// Whether `advance_sending_chain` may be called.
    pub fn ready_to_send(&self) -> (ready: bool)
        ensures
            ready == can_send(self@),
    {
        match self.sending {
            Some(s) => s.chain_key.index <= 0xffff_ffff,
            None => false,
        }
    }

    /// The public ratchet key that goes out with each message sent.
    pub fn sending_ratchet_key(&self) -> (key: Option<[u8; 32]>)
        ensures
            match key {
                Some(k) => self.sending_public() == Some(k@),
                None => self.sending_public() is None,
            },
    {
        match self.sending {
            Some(s) => Some(s.key_pair.public_key()),
            None => None,
        }
    }

    /// The counter of the next message to send.
    pub fn sending_index(&self) -> (index: Option<u64>)
        ensures
            match index {
                Some(i) => self@.sending is Some && self@.sending.unwrap().chain.index == i,
                None => self@.sending is None,
            },
    {
        match self.sending {
            Some(s) => Some(s.chain_key.index),
            None => None,
        }
    }

    /// How many messages the previous sending chain had sent when the last
    /// ratchet step replaced it.
    pub fn previous_sending_length(&self) -> (n: u64)
        ensures
            n == self@.previous_length,
    {
        self.previous_sending_length
    }

    /// The peer's first ratchet key, as the key agreement gave it.
    pub fn peer_initial_ratchet_key(&self) -> (key: Option<[u8; 32]>)
        ensures
            match key {
                Some(k) => self@.peer_initial == Some(k@),
                None => self@.peer_initial is None,
            },
    {
        self.peer_initial
    }

    /// How many remote ratchet keys are tracked.
    pub fn receiving_chain_count(&self) -> (n: usize)
        ensures
            n == self@.receiving.len(),
    {
        self.receiving.len()
    }

    /// How many remote ratchet keys are retired.
    pub fn retired_count(&self) -> (n: usize)
        ensures
            n == self@.retired.len(),
    {
        self.retired.len()
    }

    /// How many skipped message keys are stored.
    pub fn skipped_count(&self) -> (n: usize)
        ensures
            n == self@.skipped.len(),
    {
        self.skipped.len()
    }

    /// Whether keys are stored for a remote ratchet key and a message counter.
    pub fn has_skipped(&self, remote: &[u8; 32], index: u32) -> (has: bool)
        ensures
            has == holds(self@.skipped, remote@, index as nat),
    {
        self.skipped.contains(remote, index)
    }

    /// The counter of the next message expected under a remote ratchet key,
    /// if the key is tracked.
    pub fn expected_index(&self, remote: &[u8; 32]) -> (index: Option<u64>)
        requires
            self.wf(),
        ensures
            match index {
                Some(i) => tracks(self@.receiving, remote@) && chain_of(self@.receiving, remote@).index
                    == i,
                None => !tracks(self@.receiving, remote@),
            },
    {
        match self.find_chain(remote) {
            Some(pos) => {
                proof {
                    lemma_position(self@.receiving, remote@, pos as int);
                }
                Some(self.receiving[pos].chain_key.index)
            },
            None => None,
        }
    }

    /// The position of the receiving chain filed under `remote`.
    fn find_chain(&self, remote: &[u8; 32]) -> (found: Option<usize>)
        ensures
            match found {
                Some(i) => i < self.receiving@.len() && self@.receiving[i as int].remote == remote@,
                None => !tracks(self@.receiving, remote@),
            },
    {
        let mut i: usize = 0;
        while i < self.receiving.len()
            invariant
                i <= self.receiving@.len(),
                forall|j: int| 0 <= j < i ==> (#[trigger] self@.receiving[j]).remote != remote@,
            decreases self.receiving@.len() - i,
        {
            if same_bytes(&self.receiving[i].remote, remote) {
                return Some(i);
            }
            i += 1;
        }
        None
    }

    /// Whether the chain of `remote` was given up.
    pub fn is_retired(&self, remote: &[u8; 32]) -> (retired: bool)
        ensures
            retired == self@.retired.contains(remote@),
    {
        let mut i: usize = 0;
        while i < self.retired.len()
            invariant
                i <= self.retired@.len(),
                forall|j: int| 0 <= j < i ==> self@.retired[j] != remote@,
            decreases self.retired@.len() - i,
        {
            if same_bytes(&self.retired[i], remote) {
                assert(self@.retired[i as int] == remote@);
                return true;
            }
            i += 1;
        }
        false
    }

    /// Steps the sending chain: hands out the message keys of its position and
    /// replaces its chain key by the successor.
    pub fn advance_sending_chain(&mut self) -> (keys: MessageKeys)
        requires
            old(self).wf(),
            can_send(old(self)@),
        ensures
            final(self).wf(),
            final(self)@ == send(old(self)@).0,
            keys@ == send(old(self)@).1,
            keys.index == old(self)@.sending.unwrap().chain.index,
            final(self).sending_public() == old(self).sending_public(),
    {
        proof {
            lemma_send_valid(self@);
        }
        match self.sending {
            Some(s) => {
                let (next, keys) = derive_chain_step(&s.chain_key);
                self.sending = Some(SendingChain { key_pair: s.key_pair, chain_key: next });
                let mut left = s;
                wipe(&mut left.chain_key.bytes);
                left.key_pair.erase();
                keys
            },
            None => {
                proof {
                    assert(false);
                }
                MessageKeys { cipher_key: [0u8; 32], mac_key: [0u8; 32], iv: [0u8; 16], index: 0 }
            },
        }
    }

    /// Opens the sending chain of a session that has waited for the peer's
    /// first message.
    fn open_sending_chain(&mut self, fresh: &[u8; 32])
        requires
            old(self).wf(),
        ensures
            final(self).wf(),
            final(self)@ == answer(old(self)@, fresh@),
    {
        if self.sending.is_none() {
            if let Some(root) = self.root_key {
                if let Some(peer) = self.peer_initial {
                    let key_pair = RatchetKeyPair::generate(fresh);
                    let mut shared = key_pair.agree(&peer);
                    let (root_key, chain_key) = derive_root_step(&root, &shared);
                    self.root_key = Some(root_key);
                    self.sending = Some(SendingChain { key_pair, chain_key });
                    let mut left = root;
                    wipe(&mut left.bytes);
                    wipe(&mut shared);
                }
            }
        }
    }

    /// Moves the receiving chain at `pos` past the message `message_index`,
    /// stores the keys of the messages passed over and hands out the keys of
    /// the message.
    fn move_chain(&mut self, pos: usize, remote: &[u8; 32], message_index: u32, fresh: &[u8; 32]) -> (keys:
        MessageKeys)
        requires
            old(self).wf(),
            pos < old(self)@.receiving.len(),
            old(self)@.receiving[pos as int].remote == remote@,
            old(self)@.receiving[pos as int].chain.index <= message_index,
        ensures
            final(self).wf(),
            final(self)@ == forward(old(self)@, remote@, message_index as nat, fresh@).0,
            keys@ == forward(old(self)@, remote@, message_index as nat, fresh@).1,
    {
        let start = self.receiving[pos].chain_key;
        let mut chain = start;
        let mut run: Vec<SkippedKey> = Vec::new();
        proof {
            lemma_position(self@.receiving, remote@, pos as int);
            lemma_forward_valid(self@, remote@, message_index as nat, fresh@);
            assert(views(run@) =~= skipped_run(remote@, start@, 0));
        }
        while chain.index < message_index as u64
            invariant
                start.index <= chain.index <= message_index,
                chain@ == advance(start@, (chain.index - start.index) as nat),
                views(run@) == skipped_run(remote@, start@, (chain.index - start.index) as nat),
            decreases message_index - chain.index,
        {
            let (next, keys) = derive_chain_step(&chain);
            let ghost passed = (chain.index - start.index) as nat;
            let ghost before = run@;
            let entry = SkippedKey { remote: *remote, keys };
            run.push(entry);
            proof {
                assert(views(run@) =~= views(before).push(entry@));
                assert(views(before).push(entry@) =~= skipped_run(remote@, start@, passed + 1));
            }
            chain = next;
        }
        let (next, keys) = derive_chain_step(&chain);
        self.receiving[pos] = ReceivingChain { remote: *remote, chain_key: next };
        assert(self@.receiving =~= with_chain(old(self)@.receiving, remote@, next@)) by {
            assert forall|i: int| 0 <= i < old(self)@.receiving.len() && i != pos implies (
            #[trigger] old(self)@.receiving[i]).remote != remote@ by {
                if i < pos {
                    assert(old(self)@.receiving[i].remote != old(self)@.receiving[pos as int].remote);
                } else {
                    assert(old(self)@.receiving[pos as int].remote != old(self)@.receiving[i].remote);
                }
            }
        }
        self.skipped.extend(run);
        assert(valid(self@) && self.wf()) by {
            assert(self@ == SessionView {
                receiving: self@.receiving,
                skipped: self@.skipped,
                ..old(self)@
            });
            lemma_moved_valid(old(self)@, remote@, message_index as nat);
        }
        self.open_sending_chain(fresh);
        let mut left = start;
        wipe(&mut left.bytes);
        wipe(&mut chain.bytes);
        keys
    }

    /// Applies the ratchet step for a remote ratchet key that is neither
    /// tracked nor retired.
    fn apply_ratchet(&mut self, remote: &[u8; 32], fresh: &[u8; 32])
        requires
            old(self).wf(),
            old(self)@.root is Some,
            old(self)@.sending is Some,
            !tracks(old(self)@.receiving, remote@),
            !old(self)@.retired.contains(remote@),
        ensures
            final(self).wf(),
            final(self)@ == turn(old(self)@, remote@, fresh@),
    {
        proof {
            lemma_turn_valid(self@, remote@, fresh@);
        }
        match (self.root_key, self.sending) {
            (Some(root), Some(sending)) => {
                let step = ratchet_step(&root, &sending.key_pair, remote, fresh);
                if self.receiving.len() >= self.config.max_receiving_chains {
                    let mut oldest = self.receiving.remove(0);
                    self.skipped.forget_remote(&oldest.remote);
                    self.retired.push(oldest.remote);
                    assert(oldest@.remote == old(self)@.receiving[0].remote);
                    wipe(&mut oldest.chain_key.bytes);
                }
                self.receiving.push(ReceivingChain { remote: *remote, chain_key: step.receiving_chain });
                self.previous_sending_length = sending.chain_key.index;
                self.root_key = Some(step.root_key);
                self.sending = Some(
                    SendingChain { key_pair: step.key_pair, chain_key: step.sending_chain },
                );
                assert(self@.receiving =~= turn(old(self)@, remote@, fresh@).receiving);
                assert(self@.retired =~= turn(old(self)@, remote@, fresh@).retired);
                assert(self@ == turn(old(self)@, remote@, fresh@));
                let mut left = sending;
                wipe(&mut left.chain_key.bytes);
                left.key_pair.erase();
                let mut left = root;
                wipe(&mut left.bytes);
            },
            _ => {
                assert(false);
            },
        }
    }

    /// Processes the ratchet key and the counter of an incoming message and
    /// hands out the message's keys. `fresh_secret` is the private half of the
    /// ratchet key pair this side moves to if the message makes it step; the
    /// caller draws it from its source of randomness for each call.
    ///
    /// On an error the session is left exactly as it was.
    pub fn process_incoming(
        &mut self,
        remote_ratchet_key: &[u8; 32],
        message_index: u32,
        fresh_secret: &[u8; 32],
    ) -> (out: Result<MessageKeys, SessionError>)
        requires
            old(self).wf(),
        ensures
            final(self).wf(),
            final(self)@ == receive(
                old(self)@,
                remote_ratchet_key@,
                message_index as nat,
                fresh_secret@,
            ).0,
            outcome(out) == receive(
                old(self)@,
                remote_ratchet_key@,
                message_index as nat,
                fresh_secret@,
            ).1,
            out is Err ==> *final(self) == *old(self),
            out matches Ok(keys) ==> keys.index == message_index,
    {
        proof {
            lemma_receive_counter(self@, remote_ratchet_key@, message_index as nat, fresh_secret@);
        }
        if self.is_retired(remote_ratchet_key) {
            return Err(SessionError::StaleSession);
        }
        match self.find_chain(remote_ratchet_key) {
            Some(pos) => {
                proof {
                    lemma_position(self@.receiving, remote_ratchet_key@, pos as int);
                }
                let expected = self.receiving[pos].chain_key.index;
                if (message_index as u64) < expected {
                    if self.skipped.contains(remote_ratchet_key, message_index) {
                        proof {
                            lemma_first_for(self@.skipped, remote_ratchet_key@, message_index as nat);
                            lemma_consume_valid(
                                self@,
                                first_for(self@.skipped, remote_ratchet_key@, message_index as nat),
                            );
                        }
                        match self.skipped.take(remote_ratchet_key, message_index) {
                            Some(keys) => Ok(keys),
                            None => {
                                proof {
                                    assert(false);
                                }
                                Err(SessionError::DuplicateMessage)
                            },
                        }
                    } else {
                        Err(SessionError::DuplicateMessage)
                    }
                } else if message_index as u64 - expected > self.config.max_skip as u64 {
                    Err(SessionError::TooManySkipped)
                } else {
                    Ok(self.move_chain(pos, remote_ratchet_key, message_index, fresh_secret))
                }
            },
            None => {
                if self.root_key.is_none() || self.sending.is_none() {
                    return Err(SessionError::StaleSession);
                }
                if message_index > self.config.max_skip {
                    return Err(SessionError::TooManySkipped);
                }
                self.apply_ratchet(remote_ratchet_key, fresh_secret);
                let pos = self.receiving.len() - 1;
                proof {
                    lemma_turn_valid(old(self)@, remote_ratchet_key@, fresh_secret@);
                    lemma_position(self@.receiving, remote_ratchet_key@, pos as int);
                }
                Ok(self.move_chain(pos, remote_ratchet_key, message_index, fresh_secret))
            },
        }
    }
}

} // verus!
