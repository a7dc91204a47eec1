//! Authenticated transaction envelope: a canonical byte encoding for transfer
//! intents, a strict decoder for the wire format, and signer-identity recovery
//! from a recoverable ECDSA signature over the canonical transaction bytes.

pub mod codec;
pub mod recovery;
pub mod transaction;
