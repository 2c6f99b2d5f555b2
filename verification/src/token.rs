//! The particle token: a per-actor capability derived from the particle's
//! signature, signed by the node's root key and rendered in base 58.

use vstd::prelude::*;

verus! {

/// The base-58 rendering (bitcoin alphabet) of a byte string, as
/// `bs58::encode` produces it: a function of the bytes alone.
pub uninterp spec fn base58_of(bytes: Seq<u8>) -> Seq<char>;

/// Relies on bs58's `encode(..).into_string()`: the default (bitcoin)
/// alphabet, and a result that depends on the input bytes alone.
#[verifier::external_body]
fn base58_encode(bytes: &Vec<u8>) -> (r: String)
    ensures
        r@ == base58_of(bytes@),
{
    bs58::encode(bytes).into_string()
}

/// Renders a particle token from the root key's signature over the particle's
/// signature. Producing that inner signature is the key storage's capability;
/// this function turns its bytes into the token string.
pub fn get_particle_token(token_signature: &Vec<u8>) -> (r: String)
    ensures
        r@ == base58_of(token_signature@),
{
    base58_encode(token_signature)
}

} // verus!
