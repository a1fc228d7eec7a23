//! The cryptographic primitives the ratchet is built from. Their results are
//! computed by outside crates: HKDF by `hkdf`, HMAC by `hmac`, both over
//! SHA-256 of `sha2`, and X25519 by `x25519-dalek`. This module gives each
//! result a name and states nothing of it but that the call returns it, and
//! its length. It also holds the call into `zeroize` that overwrites a secret
//! which is no longer needed. Nothing in this module is proved.

use crate::bytes::zeros;
use hkdf::Hkdf;
use hmac::{Hmac, Mac};
use sha2::Sha256;
use vstd::prelude::*;
use zeroize::Zeroize;

verus! {

/// The output keying material of HKDF with SHA-256 for a salt, an input
/// keying material, an info label and an output length.
pub uninterp spec fn hkdf_sha256(salt: Seq<u8>, ikm: Seq<u8>, info: Seq<u8>, len: nat) -> Seq<u8>;

/// The tag of HMAC with SHA-256 for a key and a message.
pub uninterp spec fn hmac_sha256(key: Seq<u8>, message: Seq<u8>) -> Seq<u8>;

/// The value of the X25519 function for a scalar and the u-coordinate of a point.
pub uninterp spec fn x25519(scalar: Seq<u8>, point: Seq<u8>) -> Seq<u8>;

/// The longest output HKDF with SHA-256 can give: 255 blocks of 32 bytes.
pub const HKDF_MAX_OUTPUT: usize = 8160;

/// Calls `Hkdf::<Sha256>::new` with the salt and the input keying material and
/// then `Hkdf::expand` with the label into a buffer of `len` bytes. Trusted:
/// the buffer then holds `hkdf_sha256` of the arguments, `len` bytes long.
/// `expand` fails only for more than 255 blocks, which `requires` leaves out.
#[verifier::external_body]
pub(crate) fn hkdf_expand(salt: &[u8], ikm: &[u8], info: &[u8], len: usize) -> (okm: Vec<u8>)
    requires
        len <= HKDF_MAX_OUTPUT,
    ensures
        okm@ == hkdf_sha256(salt@, ikm@, info@, len as nat),
        okm@.len() == len,
{
    let mut okm = vec![0u8; len];
    Hkdf::<Sha256>::new(Some(salt), ikm).expand(info, &mut okm).expect("at most 255 blocks");
    okm
}

/// Calls `Hmac::<Sha256>::new_from_slice`, `update` and `finalize`. Trusted:
/// the 32 bytes returned are `hmac_sha256` of the key and the message. The
/// constructor accepts a key of any length.
#[verifier::external_body]
pub(crate) fn hmac_tag(key: &[u8], message: &[u8]) -> (tag: [u8; 32])
    ensures
        tag@ == hmac_sha256(key@, message@),
{
    let mut mac = Hmac::<Sha256>::new_from_slice(key).expect("any key length");
    mac.update(message);
    mac.finalize().into_bytes().into()
}

/// Calls `Zeroize::zeroize` on a byte slice, which overwrites it in a way the
/// compiler does not remove. Trusted: every byte of the buffer is zero
/// afterwards, and the buffer keeps its length.
#[verifier::external_body]
pub(crate) fn wipe(buf: &mut [u8])
    ensures
        final(buf)@ == zeros(old(buf)@.len()),
{
    buf.zeroize();
}

/// Calls `x25519_dalek::x25519`. Trusted: the 32 bytes returned are `x25519`
/// of the scalar and the point.
#[verifier::external_body]
pub(crate) fn x25519_mult(scalar: &[u8; 32], point: &[u8; 32]) -> (out: [u8; 32])
    ensures
        out@ == x25519(scalar@, point@),
{
    x25519_dalek::x25519(*scalar, *point)
}

} // verus!
