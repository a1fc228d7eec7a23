//! The session ratchet of an end-to-end encrypted conversation.
//!
//! Two parties that have agreed on a secret derive from it a stream of
//! message keys, each used once. A chain of keys moves on with every message;
//! a Diffie-Hellman ratchet step replaces the chains whenever a new ratchet
//! key of the peer is seen.
//!
//! - [`ratchet`] holds the key schedule, the ratchet step and the construction
//!   of a session from the outputs of the key agreement.
//! - [`state`] holds the session: sending, receiving in and out of order, and
//!   the snapshot of a session. Its submodule `model` states what each
//!   operation does, `validity` what holds of every session.
//! - [`skipped`] holds the bounded store of message keys derived ahead.
//! - [`guarantees`] holds what is proved of sessions as a whole.
//! - [`chat`] holds the decisions of the transport that carries the messages.
//! - [`primitives`] holds the calls into the outside crates that compute.
//! - [`bytes`] holds helpers on byte strings.

pub mod bytes;
pub mod chat;
pub mod guarantees;
pub mod primitives;
pub mod ratchet;
pub mod skipped;
pub mod state;
