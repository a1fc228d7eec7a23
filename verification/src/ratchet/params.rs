//! What the initial key agreement hands to the ratchet, for the side that
//! started the agreement and for the side that answered it.

use vstd::prelude::*;

verus! {

/// The byte strings of a vector of byte strings.
pub open spec fn byte_strings(parts: Seq<Vec<u8>>) -> Seq<Seq<u8>> {
    parts.map_values(|p: Vec<u8>| p@)
}

/// The material of the side that started the key agreement, as mathematical values.
pub ghost struct AliceView {
    pub local_identity: Seq<u8>,
    pub remote_identity: Seq<u8>,
    pub agreements: Seq<Seq<u8>>,
    pub peer_ratchet_key: Seq<u8>,
    pub ratchet_secret: Seq<u8>,
}

/// The material of the side that answered the key agreement, as mathematical values.
pub ghost struct BobView {
    pub local_identity: Seq<u8>,
    pub remote_identity: Seq<u8>,
    pub agreements: Seq<Seq<u8>>,
    pub peer_ratchet_key: Seq<u8>,
}

/// The material of the side that started the key agreement.
#[derive(Clone, Debug, PartialEq, Eq)]
pub struct AliceSignalProtocolParameters {
    /// This side's public identity key.
    pub local_identity: Vec<u8>,
    /// The peer's public identity key.
    pub remote_identity: Vec<u8>,
    /// The Diffie-Hellman values of the key agreement, in its order: three,
    /// or four where a one-time key took part.
    pub agreements: Vec<Vec<u8>>,
    /// The peer's first public ratchet key.
    pub peer_ratchet_key: Vec<u8>,
    /// Fresh random bytes: the private half of this side's first ratchet key pair.
    pub ratchet_secret: Vec<u8>,
}

impl View for AliceSignalProtocolParameters {
    type V = AliceView;

    open spec fn view(&self) -> AliceView {
        AliceView {
            local_identity: self.local_identity@,
            remote_identity: self.remote_identity@,
            agreements: byte_strings(self.agreements@),
            peer_ratchet_key: self.peer_ratchet_key@,
            ratchet_secret: self.ratchet_secret@,
        }
    }
}

/// The material of the side that answered the key agreement.
#[derive(Clone, Debug, PartialEq, Eq)]
pub struct BobSignalProtocolParameters {
    /// This side's public identity key.
    pub local_identity: Vec<u8>,
    /// The peer's public identity key.
    pub remote_identity: Vec<u8>,
    /// The Diffie-Hellman values of the key agreement, in its order: three,
    /// or four where a one-time key took part.
    pub agreements: Vec<Vec<u8>>,
    /// The peer's first public ratchet key.
    pub peer_ratchet_key: Vec<u8>,
}

impl View for BobSignalProtocolParameters {
    type V = BobView;

    open spec fn view(&self) -> BobView {
        BobView {
            local_identity: self.local_identity@,
            remote_identity: self.remote_identity@,
            agreements: byte_strings(self.agreements@),
            peer_ratchet_key: self.peer_ratchet_key@,
        }
    }
}

/// Whether the Diffie-Hellman values of a key agreement have the right
/// number and lengths: three or four values of 32 bytes.
pub open spec fn agreements_fit(agreements: Seq<Seq<u8>>) -> bool {
    &&& 3 <= agreements.len() <= 4
    &&& forall|i: int| 0 <= i < agreements.len() ==> (#[trigger] agreements[i]).len() == 32
}

/// Checks the number and the lengths of the Diffie-Hellman values.
pub fn check_agreements(agreements: &Vec<Vec<u8>>) -> (fit: bool)
    ensures
        fit == agreements_fit(byte_strings(agreements@)),
{
    if agreements.len() < 3 || agreements.len() > 4 {
        return false;
    }
    let mut i: usize = 0;
    while i < agreements.len()
        invariant
            i <= agreements@.len(),
            forall|j: int| 0 <= j < i ==> (#[trigger] byte_strings(agreements@)[j]).len() == 32,
        decreases agreements@.len() - i,
    {
        if agreements[i].len() != 32 {
            assert(byte_strings(agreements@)[i as int].len() != 32);
            return false;
        }
        i += 1;
    }
    true
}

} // verus!
