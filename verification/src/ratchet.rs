//! The key schedule of the ratchet and the construction of a session from
//! the outputs of the initial key agreement.

pub mod keys;
pub mod params;
pub mod step;

pub use self::keys::{
    derive_chain_step, derive_initial, derive_root_step, ChainKey, MessageKeys, RootKey,
};
pub use self::params::{AliceSignalProtocolParameters, BobSignalProtocolParameters};
pub use self::step::{ratchet_step, RatchetKeyPair, RatchetOutcome};

use crate::bytes::{same_bytes, take};
use crate::ratchet::keys::initial_step;
use crate::ratchet::params::{agreements_fit, check_agreements, AliceView, BobView};
use crate::state::model::{initiator, responder};
use crate::state::{SessionError, SessionState, SessionView};
use vstd::prelude::*;

verus! {

/// Why the material of the side that started the key agreement is refused,
/// if it is: a wrong number of Diffie-Hellman values, or a value or key that
/// is not 32 bytes long; else identity keys that are not the session's.
pub open spec fn alice_refusal(v: SessionView, p: AliceView) -> Option<SessionError> {
    if !(agreements_fit(p.agreements) && p.local_identity.len() == 32 && p.remote_identity.len()
        == 32 && p.peer_ratchet_key.len() == 32 && p.ratchet_secret.len() == 32) {
        Some(SessionError::InvalidKeyLength)
    } else if p.local_identity != v.local_identity || p.remote_identity != v.remote_identity {
        Some(SessionError::IdentityMismatch)
    } else {
        None
    }
}

/// Why the material of the side that answered the key agreement is refused,
/// if it is.
pub open spec fn bob_refusal(v: SessionView, p: BobView) -> Option<SessionError> {
    if !(agreements_fit(p.agreements) && p.local_identity.len() == 32 && p.remote_identity.len()
        == 32 && p.peer_ratchet_key.len() == 32) {
        Some(SessionError::InvalidKeyLength)
    } else if p.local_identity != v.local_identity || p.remote_identity != v.remote_identity {
        Some(SessionError::IdentityMismatch)
    } else {
        None
    }
}

/// The session of the side that started the key agreement.
pub open spec fn alice_session(v: SessionView, p: AliceView) -> SessionView {
    initiator(v, initial_step(p.agreements), p.ratchet_secret, p.peer_ratchet_key)
}

/// The session of the side that answered the key agreement.
pub open spec fn bob_session(v: SessionView, p: BobView) -> SessionView {
    responder(v, initial_step(p.agreements), p.peer_ratchet_key)
}

/// Turns a session into that of the side that started the key agreement. The
/// first chain becomes the sending chain. Material that is refused leaves the
/// session exactly as it was.
pub fn initialize_alice_session(
    session_state: &mut SessionState,
    parameters: &AliceSignalProtocolParameters,
) -> (out: Result<(), SessionError>)
    requires
        old(session_state).wf(),
    ensures
        final(session_state).wf(),
        match out {
            Ok(_) => {
                &&& alice_refusal(old(session_state)@, parameters@) is None
                &&& final(session_state)@ == alice_session(old(session_state)@, parameters@)
            },
            Err(e) => {
                &&& alice_refusal(old(session_state)@, parameters@) == Some(e)
                &&& *final(session_state) == *old(session_state)
            },
        },
{
    if !check_agreements(&parameters.agreements) || parameters.local_identity.len() != 32
        || parameters.remote_identity.len() != 32 || parameters.peer_ratchet_key.len() != 32
        || parameters.ratchet_secret.len() != 32 {
        return Err(SessionError::InvalidKeyLength);
    }
    if !same_bytes(parameters.local_identity.as_slice(), &session_state.local_identity())
        || !same_bytes(parameters.remote_identity.as_slice(), &session_state.remote_identity()) {
        return Err(SessionError::IdentityMismatch);
    }
    let secret = take::<32>(parameters.ratchet_secret.as_slice(), 0);
    let peer = take::<32>(parameters.peer_ratchet_key.as_slice(), 0);
    assert(secret@ =~= parameters.ratchet_secret@);
    assert(peer@ =~= parameters.peer_ratchet_key@);
    let (root_key, chain_key) = derive_initial(&parameters.agreements);
    let key_pair = RatchetKeyPair::generate(&secret);
    session_state.begin_as_initiator(root_key, chain_key, key_pair, peer);
    Ok(())
}

/// Turns a session into that of the side that answered the key agreement.
/// The first chain becomes the receiving chain, filed under the peer's first
/// ratchet key. Material that is refused leaves the session exactly as it was.
pub fn initialize_bob_session(
    session_state: &mut SessionState,
    parameters: &BobSignalProtocolParameters,
) -> (out: Result<(), SessionError>)
    requires
        old(session_state).wf(),
    ensures
        final(session_state).wf(),
        match out {
            Ok(_) => {
                &&& bob_refusal(old(session_state)@, parameters@) is None
                &&& final(session_state)@ == bob_session(old(session_state)@, parameters@)
            },
            Err(e) => {
                &&& bob_refusal(old(session_state)@, parameters@) == Some(e)
                &&& *final(session_state) == *old(session_state)
            },
        },
{
    if !check_agreements(&parameters.agreements) || parameters.local_identity.len() != 32
        || parameters.remote_identity.len() != 32 || parameters.peer_ratchet_key.len() != 32 {
        return Err(SessionError::InvalidKeyLength);
    }
    if !same_bytes(parameters.local_identity.as_slice(), &session_state.local_identity())
        || !same_bytes(parameters.remote_identity.as_slice(), &session_state.remote_identity()) {
        return Err(SessionError::IdentityMismatch);
    }
    let peer = take::<32>(parameters.peer_ratchet_key.as_slice(), 0);
    assert(peer@ =~= parameters.peer_ratchet_key@);
    let (root_key, chain_key) = derive_initial(&parameters.agreements);
    session_state.begin_as_responder(root_key, chain_key, peer);
    Ok(())
}

} // verus!
