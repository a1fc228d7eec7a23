//! Root keys, chain keys and message keys, and the two one-way steps that
//! derive them.

use crate::bytes::{take, zeros};
use crate::primitives::{hkdf_expand, hkdf_sha256, hmac_sha256, hmac_tag, wipe};
use crate::ratchet::params::byte_strings;
use vstd::prelude::*;

verus! {

/// The info label of the root step: the ASCII bytes of `WhisperRatchet`.
pub open spec fn root_label() -> Seq<u8> {
    seq![0x57u8, 0x68, 0x69, 0x73, 0x70, 0x65, 0x72, 0x52, 0x61, 0x74, 0x63, 0x68, 0x65, 0x74]
}

/// The info label of message keys: the ASCII bytes of `WhisperMessageKeys`.
pub open spec fn message_label() -> Seq<u8> {
    seq![
        0x57u8, 0x68, 0x69, 0x73, 0x70, 0x65, 0x72, 0x4d, 0x65, 0x73, 0x73, 0x61, 0x67, 0x65,
        0x4b, 0x65, 0x79, 0x73,
    ]
}

/// The info label of the first root key: the ASCII bytes of `WhisperText`.
pub open spec fn initial_label() -> Seq<u8> {
    seq![0x57u8, 0x68, 0x69, 0x73, 0x70, 0x65, 0x72, 0x54, 0x65, 0x78, 0x74]
}

/// The message that turns a chain key into the seed of its message keys.
pub open spec fn message_seed_input() -> Seq<u8> {
    seq![0x01u8]
}

/// The message that turns a chain key into its successor.
pub open spec fn chain_seed_input() -> Seq<u8> {
    seq![0x02u8]
}

/// A chain key as a mathematical value: its secret and the position of the
/// next message it stands for.
pub ghost struct ChainKeyView {
    pub key: Seq<u8>,
    pub index: nat,
}

/// Message keys as a mathematical value.
pub ghost struct MessageKeysView {
    pub cipher_key: Seq<u8>,
    pub mac_key: Seq<u8>,
    pub iv: Seq<u8>,
    pub index: nat,
}

/// The root step: HKDF salted with the root key over the agreement value gives
/// 64 bytes, the new root key and then the key of a new chain at position 0.
pub open spec fn root_step(root: Seq<u8>, dh: Seq<u8>) -> (Seq<u8>, ChainKeyView) {
    let okm = hkdf_sha256(root, dh, root_label(), 64);
    (okm.subrange(0, 32), ChainKeyView { key: okm.subrange(32, 64), index: 0 })
}

/// Byte strings laid end to end.
pub open spec fn concat(parts: Seq<Seq<u8>>) -> Seq<u8>
    decreases parts.len(),
{
    if parts.len() == 0 {
        Seq::empty()
    } else {
        concat(parts.drop_last()) + parts.last()
    }
}

/// The first step of a session: HKDF with a salt of 32 zero bytes, there
/// being no root key yet, over the Diffie-Hellman values of the key agreement
/// laid end to end gives 64 bytes, the first root key and then the key of the
/// first chain at position 0.
pub open spec fn initial_step(agreements: Seq<Seq<u8>>) -> (Seq<u8>, ChainKeyView) {
    let okm = hkdf_sha256(zeros(32), concat(agreements), initial_label(), 64);
    (okm.subrange(0, 32), ChainKeyView { key: okm.subrange(32, 64), index: 0 })
}

/// The chain key that follows `chain`.
pub open spec fn next_chain_key(chain: ChainKeyView) -> ChainKeyView {
    ChainKeyView { key: hmac_sha256(chain.key, chain_seed_input()), index: chain.index + 1 }
}

/// The message keys of the position `chain` stands at: 80 bytes of HKDF over
/// the chain key's message seed, cut into cipher key, MAC key and IV.
pub open spec fn message_keys(chain: ChainKeyView) -> MessageKeysView {
    let seed = hmac_sha256(chain.key, message_seed_input());
    let okm = hkdf_sha256(zeros(32), seed, message_label(), 80);
    MessageKeysView {
        cipher_key: okm.subrange(0, 32),
        mac_key: okm.subrange(32, 64),
        iv: okm.subrange(64, 80),
        index: chain.index,
    }
}

/// The chain step: the successor of `chain` and the message keys of its position.
pub open spec fn chain_step(chain: ChainKeyView) -> (ChainKeyView, MessageKeysView) {
    (next_chain_key(chain), message_keys(chain))
}

/// The chain key reached from `chain` by `n` steps.
pub open spec fn advance(chain: ChainKeyView, n: nat) -> ChainKeyView
    decreases n,
{
    if n == 0 {
        chain
    } else {
        next_chain_key(advance(chain, (n - 1) as nat))
    }
}

/// A root key: 32 secret bytes.
#[derive(Clone, Copy, Debug, PartialEq, Eq)]
pub struct RootKey {
    pub bytes: [u8; 32],
}

impl View for RootKey {
    type V = Seq<u8>;

    open spec fn view(&self) -> Seq<u8> {
        self.bytes@
    }
}

/// A chain key: 32 secret bytes and the position of the next message. The
/// position is one past the last 32-bit message counter once the chain is
/// used up.
#[derive(Clone, Copy, Debug, PartialEq, Eq)]
pub struct ChainKey {
    pub bytes: [u8; 32],
    pub index: u64,
}

impl View for ChainKey {
    type V = ChainKeyView;

    open spec fn view(&self) -> ChainKeyView {
        ChainKeyView { key: self.bytes@, index: self.index as nat }
    }
}

/// The keys of one message: cipher key, MAC key, IV and the message's counter.
#[derive(Clone, Copy, Debug, PartialEq, Eq)]
pub struct MessageKeys {
    pub cipher_key: [u8; 32],
    pub mac_key: [u8; 32],
    pub iv: [u8; 16],
    pub index: u32,
}

impl View for MessageKeys {
    type V = MessageKeysView;

    open spec fn view(&self) -> MessageKeysView {
        MessageKeysView {
            cipher_key: self.cipher_key@,
            mac_key: self.mac_key@,
            iv: self.iv@,
            index: self.index as nat,
        }
    }
}

/// Derives the next root key and the key of a new chain from a root key and a
/// Diffie-Hellman agreement value.
pub fn derive_root_step(root_key: &RootKey, dh_output: &[u8; 32]) -> (out: (RootKey, ChainKey))
    ensures
        out.0@ == root_step(root_key@, dh_output@).0,
        out.1@ == root_step(root_key@, dh_output@).1,
{
    let label: [u8; 14] = [
        0x57, 0x68, 0x69, 0x73, 0x70, 0x65, 0x72, 0x52, 0x61, 0x74, 0x63, 0x68, 0x65, 0x74,
    ];
    assert(label@ =~= root_label());
    let mut okm = hkdf_expand(&root_key.bytes, dh_output, &label, 64);
    let root = RootKey { bytes: take::<32>(okm.as_slice(), 0) };
    let chain = ChainKey { bytes: take::<32>(okm.as_slice(), 32), index: 0 };
    wipe(okm.as_mut_slice());
    (root, chain)
}

/// Derives the first root key and the key of the first chain from the
/// Diffie-Hellman values of the key agreement.
pub fn derive_initial(agreements: &Vec<Vec<u8>>) -> (out: (RootKey, ChainKey))
    ensures
        out.0@ == initial_step(byte_strings(agreements@)).0,
        out.1@ == initial_step(byte_strings(agreements@)).1,
{
    let mut secret: Vec<u8> = Vec::new();
    let mut i: usize = 0;
    assert(byte_strings(agreements@).take(0) =~= Seq::<Seq<u8>>::empty());
    while i < agreements.len()
        invariant
            i <= agreements@.len(),
            secret@ == concat(byte_strings(agreements@).take(i as int)),
        decreases agreements@.len() - i,
    {
        let ghost before = secret@;
        secret.extend_from_slice(agreements[i].as_slice());
        proof {
            let parts = byte_strings(agreements@);
            assert(parts.take(i + 1).drop_last() =~= parts.take(i as int));
            assert(parts.take(i + 1).last() == agreements@[i as int]@);
            assert(secret@ =~= before + agreements@[i as int]@);
        }
        i += 1;
    }
    assert(byte_strings(agreements@).take(i as int) =~= byte_strings(agreements@));
    let label: [u8; 11] = [0x57, 0x68, 0x69, 0x73, 0x70, 0x65, 0x72, 0x54, 0x65, 0x78, 0x74];
    assert(label@ =~= initial_label());
    let salt: [u8; 32] = [0u8; 32];
    assert(salt@ =~= zeros(32));
    let mut okm = hkdf_expand(&salt, secret.as_slice(), &label, 64);
    let root = RootKey { bytes: take::<32>(okm.as_slice(), 0) };
    let chain = ChainKey { bytes: take::<32>(okm.as_slice(), 32), index: 0 };
    wipe(okm.as_mut_slice());
    wipe(secret.as_mut_slice());
    (root, chain)
}

/// Derives from a chain key its successor and the message keys of its position.
pub fn derive_chain_step(chain_key: &ChainKey) -> (out: (ChainKey, MessageKeys))
    requires
        chain_key.index <= u32::MAX,
    ensures
        out.0@ == chain_step(chain_key@).0,
        out.1@ == chain_step(chain_key@).1,
{
    let chain_input: [u8; 1] = [0x02];
    let message_input: [u8; 1] = [0x01];
    assert(chain_input@ =~= chain_seed_input());
    assert(message_input@ =~= message_seed_input());
    let label: [u8; 18] = [
        0x57, 0x68, 0x69, 0x73, 0x70, 0x65, 0x72, 0x4d, 0x65, 0x73, 0x73, 0x61, 0x67, 0x65, 0x4b,
        0x65, 0x79, 0x73,
    ];
    assert(label@ =~= message_label());
    let salt: [u8; 32] = [0u8; 32];
    assert(salt@ =~= zeros(32));
    let mut seed = hmac_tag(&chain_key.bytes, &message_input);
    let mut okm = hkdf_expand(&salt, &seed, &label, 80);
    let keys = MessageKeys {
        cipher_key: take::<32>(okm.as_slice(), 0),
        mac_key: take::<32>(okm.as_slice(), 32),
        iv: take::<16>(okm.as_slice(), 64),
        index: chain_key.index as u32,
    };
    let next = ChainKey {
        bytes: hmac_tag(&chain_key.bytes, &chain_input),
        index: chain_key.index + 1,
    };
    wipe(okm.as_mut_slice());
    wipe(&mut seed);
    (next, keys)
}

} // verus!
