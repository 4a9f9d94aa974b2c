//! The finality-proof RPC surface: a stateless pass-through over a proof
//! provider, with no pinning semantics. The provider hands back an encoded
//! proof (or nothing, when no proof exists at that height) and its errors
//! are propagated unchanged.

use vstd::prelude::*;

verus! {

/// An encoded finality proof, an opaque byte blob for the client.
#[derive(Clone, Debug, PartialEq, Eq)]
pub struct EncodedFinalityProofs(pub Vec<u8>);

/// An error reported by the proof provider's backend.
#[derive(Clone, Debug, PartialEq, Eq)]
pub struct BackendError {
    pub message: String,
}

/// The proof provider this layer consumes; implemented by the node's
/// finality subsystem (or a mock in tests). A trait so callers stay
/// independent of the provider's construction.
pub trait RpcFinalityProofProvider {
    /// Prove finality for the block at the given height; `None` when no
    /// proof is available there.
    fn rpc_prove_finality(&self, block: u64) -> Result<Option<EncodedFinalityProofs>, BackendError>;
}

/// Wrap a provider's raw answer for the RPC surface: the proof bytes are
/// wrapped unchanged, absence stays absence, and the backend error is
/// propagated unchanged — never silently swallowed.
pub fn encode_finality_result(r: Result<Option<Vec<u8>>, BackendError>) -> (out: Result<
    Option<EncodedFinalityProofs>,
    BackendError,
>)
    ensures
        r is Ok <==> out is Ok,
        match r {
            Ok(opt) => match opt {
                Some(b) => out matches Ok(Some(p)) && p.0@ == b@,
                None => out matches Ok(None),
            },
            Err(e) => out matches Err(e2) && e2.message@ == e.message@,
        },
{
    match r {
        Ok(Some(bytes)) => Ok(Some(EncodedFinalityProofs(bytes))),
        Ok(None) => Ok(None),
        Err(e) => Err(e),
    }
}

} // verus!
