//! The Diffie-Hellman ratchet: ratchet key pairs and the step that trades the
//! current root key for a new one, a new receiving chain and a new sending chain.

use crate::bytes::zeros;
use crate::primitives::{wipe, x25519, x25519_mult};
use crate::ratchet::keys::{derive_root_step, root_step, ChainKey, ChainKeyView, RootKey};
use vstd::prelude::*;

verus! {

/// The u-coordinate of the X25519 base point: 9, then 31 zero bytes.
pub open spec fn basepoint() -> Seq<u8> {
    seq![9u8] + zeros(31)
}

/// The public half that belongs to a private ratchet key.
pub open spec fn public_of(private: Seq<u8>) -> Seq<u8> {
    x25519(private, basepoint())
}

/// The value two parties agree on: one side's private key applied to the
/// other side's public key.
pub open spec fn agreement(private: Seq<u8>, remote_public: Seq<u8>) -> Seq<u8> {
    x25519(private, remote_public)
}

/// What a ratchet step produces, as mathematical values.
pub ghost struct RatchetView {
    pub root: Seq<u8>,
    pub receiving: ChainKeyView,
    pub private: Seq<u8>,
    pub sending: ChainKeyView,
}

/// The ratchet step. The receiving chain comes first, from the current private
/// key and the remote key; the sending chain follows, from the fresh private
/// key, the same remote key and the root key the first half left.
pub open spec fn dh_ratchet(
    root: Seq<u8>,
    local_private: Seq<u8>,
    remote: Seq<u8>,
    fresh: Seq<u8>,
) -> RatchetView {
    let first = root_step(root, agreement(local_private, remote));
    let second = root_step(first.0, agreement(fresh, remote));
    RatchetView { root: second.0, receiving: first.1, private: fresh, sending: second.1 }
}

/// A ratchet key pair. Its public half is always the one that belongs to its
/// private half.
#[derive(Clone, Copy, Debug, PartialEq, Eq)]
pub struct RatchetKeyPair {
    private: [u8; 32],
    public: [u8; 32],
}

impl RatchetKeyPair {
    /// The private half.
    pub closed spec fn private_view(&self) -> Seq<u8> {
        self.private@
    }

    /// The public half.
    pub closed spec fn public_view(&self) -> Seq<u8> {
        self.public@
    }

    /// The two halves belong together.
    pub closed spec fn wf(&self) -> bool {
        self.public@ == public_of(self.private@)
    }

    /// In a well-formed pair the public half is the one of the private half.
    pub proof fn lemma_wf(&self)
        requires
            self.wf(),
        ensures
            self.public_view() == public_of(self.private_view()),
    {
    }

    /// The key pair whose private half is `secret`: 32 bytes the caller drew
    /// from its source of randomness.
    pub fn generate(secret: &[u8; 32]) -> (pair: RatchetKeyPair)
        ensures
            pair.wf(),
            pair.private_view() == secret@,
            pair.public_view() == public_of(secret@),
    {
        let base: [u8; 32] = [
            9, 0, 0, 0, 0, 0, 0, 0, 0, 0, 0, 0, 0, 0, 0, 0, 0, 0, 0, 0, 0, 0, 0, 0, 0, 0, 0, 0, 0,
            0, 0, 0,
        ];
        assert(base@ =~= basepoint());
        RatchetKeyPair { private: *secret, public: x25519_mult(secret, &base) }
    }

    /// The public half, to be sent along with each message.
    pub fn public_key(&self) -> (key: [u8; 32])
        ensures
            key@ == self.public_view(),
    {
        self.public
    }

    /// The private half.
    pub fn private_key(&self) -> (key: [u8; 32])
        ensures
            key@ == self.private_view(),
    {
        self.private
    }

    /// Overwrites the private half of a key pair that is no longer used.
    pub fn erase(&mut self)
        ensures
            final(self).private_view() == zeros(32),
            final(self).public_view() == old(self).public_view(),
    {
        wipe(&mut self.private);
    }

    /// The value agreed with the holder of `remote_public`.
    pub fn agree(&self, remote_public: &[u8; 32]) -> (shared: [u8; 32])
        ensures
            shared@ == agreement(self.private_view(), remote_public@),
    {
        x25519_mult(&self.private, remote_public)
    }
}

/// What a ratchet step produces.
#[derive(Clone, Copy, Debug, PartialEq, Eq)]
pub struct RatchetOutcome {
    pub root_key: RootKey,
    pub receiving_chain: ChainKey,
    pub key_pair: RatchetKeyPair,
    pub sending_chain: ChainKey,
}

impl View for RatchetOutcome {
    type V = RatchetView;

    open spec fn view(&self) -> RatchetView {
        RatchetView {
            root: self.root_key@,
            receiving: self.receiving_chain@,
            private: self.key_pair.private_view(),
            sending: self.sending_chain@,
        }
    }
}

/// Performs the ratchet step for a remote ratchet key seen for the first
/// time. `fresh` is the private half of the key pair that replaces `local`.
pub fn ratchet_step(
    root_key: &RootKey,
    local: &RatchetKeyPair,
    remote: &[u8; 32],
    fresh: &[u8; 32],
) -> (out: RatchetOutcome)
    ensures
        out@ == dh_ratchet(root_key@, local.private_view(), remote@, fresh@),
        out.key_pair.wf(),
{
    let mut shared = local.agree(remote);
    let (mut middle_root, receiving_chain) = derive_root_step(root_key, &shared);
    wipe(&mut shared);
    let key_pair = RatchetKeyPair::generate(fresh);
    let mut shared = key_pair.agree(remote);
    let (root_key, sending_chain) = derive_root_step(&middle_root, &shared);
    wipe(&mut shared);
    wipe(&mut middle_root.bytes);
    RatchetOutcome { root_key, receiving_chain, key_pair, sending_chain }
}

} // verus!
