//! Deterministic request-authenticity tag for kernel queries.
//!
//! The tag is an FNV-style mix of a fixed seed, the per-request nonce and the
//! query code. It is a tamper-evidence check against accidental misuse, not a
//! cryptographic MAC: it authenticates outbound requests only, and a replay of
//! a previously valid (nonce, signature) pair is not defended against here.

use vstd::prelude::*;

verus! {

/// Fixed seed folded into every signature.
pub const SIGN_SEED: u32 = 0x5a17_c3e4;

/// FNV-1a 32-bit offset basis.
pub const FNV_OFFSET_BASIS: u32 = 0x811C_9DC5;

/// FNV-1a 32-bit prime.
pub const FNV_PRIME: u32 = 0x0100_0193;

/// What `sign_token` computes: seed XOR nonce XOR query, XOR the offset
/// basis, multiplied by the FNV prime and truncated to 32 bits.
pub open spec fn sign_spec(nonce: u32, query: u32) -> u32 {
    vstd::wrapping::u32_specs::wrapping_mul(
        SIGN_SEED ^ nonce ^ query ^ FNV_OFFSET_BASIS,
        FNV_PRIME,
    )
}

/// Signs a query request: combines the fixed seed with the nonce and the
/// query code and applies one multiplicative mixing step.
pub fn sign_token(nonce: u32, query: u32) -> (r: u32)
    ensures
        r == sign_spec(nonce, query),
{
    let mut hash: u32 = SIGN_SEED ^ nonce ^ query;
    hash = hash ^ FNV_OFFSET_BASIS;
    hash.wrapping_mul(FNV_PRIME)
}

/// Signing is pure and deterministic: equal (nonce, query) inputs always
/// yield equal signatures.
pub proof fn lemma_sign_deterministic(n1: u32, q1: u32, n2: u32, q2: u32)
    requires
        n1 == n2,
        q1 == q2,
    ensures
        sign_spec(n1, q1) == sign_spec(n2, q2),
{
}

} // verus!
