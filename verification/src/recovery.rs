//! The one cryptographic collaborator of the envelope: recoverable ECDSA
//! signature recovery over a byte message, provided by the `alloy` crate.

use vstd::prelude::*;

verus! {

/// The identity that recoverable-ECDSA recovery reconstructs from the scalar
/// pair `(r, s)`, the parity bit, and the signed message, or `None` when the
/// signature bytes admit no curve point. Recovery is pure elliptic-curve
/// arithmetic, so the outcome depends on these arguments alone; no short
/// formula states it, so it is only named here and every contract speaks of
/// the same name.
pub uninterp spec fn ecrecover_msg(r: Seq<u8>, s: Seq<u8>, y_parity: bool, msg: Seq<u8>) -> Option<
    Seq<u8>,
>;

#[verifier::external_type_specification]
#[verifier::external_body]
pub struct ExSignatureError(alloy::primitives::SignatureError);

/// Relies on `alloy::primitives::Signature::recover_address_from_msg`:
/// deterministic ECDSA public-key recovery over the EIP-191-prefixed message,
/// returning the recovered 20-byte address, or an error exactly when the
/// scalars or parity admit no valid curve point.
#[verifier::external_body]
pub(crate) fn recover_address_raw(r: &[u8; 32], s: &[u8; 32], y_parity: bool, msg: &[u8]) -> (out:
    Result<[u8; 20], alloy::primitives::SignatureError>)
    ensures
        match out {
            Ok(a) => ecrecover_msg(r@, s@, y_parity, msg@) == Some(a@),
            Err(_) => ecrecover_msg(r@, s@, y_parity, msg@) is None,
        },
{
    let sig = alloy::primitives::Signature::from_scalars_and_parity(
        alloy::primitives::B256::from(*r),
        alloy::primitives::B256::from(*s),
        y_parity,
    );
    match sig.recover_address_from_msg(msg) {
        Ok(a) => Ok(a.into_array()),
        Err(e) => Err(e),
    }
}

} // verus!
