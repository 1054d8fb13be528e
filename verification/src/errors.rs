//! Error taxonomy: every failure names what went wrong and where.

use vstd::prelude::*;

verus! {

/// Which stored signing field an error speaks of.
#[derive(PartialEq, Eq, Structural, Clone, Copy, Debug)]
pub enum FieldKind {
    PayloadHash,
    Signature,
}

/// Why a stored field's text was rejected.
#[derive(PartialEq, Eq, Structural, Clone, Copy, Debug)]
pub enum EncodingFault {
    /// The required prefix is absent.
    MissingPrefix,
    /// The part after the prefix is not hex.
    NotHex,
    /// The hex decodes to the wrong number of bytes.
    WrongLength { found: usize },
}

/// Verification failures, one per protocol step.
#[derive(PartialEq, Eq, Structural, Clone, Copy, Debug)]
pub enum VerifyError {
    /// No `signing` object in the snapshot.
    MissingSigningBlock,
    /// A required signing field is absent or not a string.
    MissingField { field: FieldKind },
    /// A signing field's text has a bad prefix or decodes to a wrong length.
    BadEncoding { field: FieldKind, fault: EncodingFault },
    /// The 65 signature bytes do not parse into signature components.
    MalformedSignature,
    /// Cryptographic recovery of the signer failed.
    RecoveryFailed,
    /// The recovered signer is not the expected address.
    AddressMismatch,
    /// The snapshot content no longer hashes to the stored digest.
    PayloadTampered,
}

/// Key-loading failures.
#[derive(PartialEq, Eq, Structural, Clone, Copy, Debug)]
pub enum KeyError {
    /// The key text is not hex.
    InvalidHex,
    /// The key decodes to a length other than 32 bytes.
    InvalidKeyLength { found: usize },
    /// The 32 bytes are not a valid private key scalar.
    InvalidKey,
}

/// Signing failures.
#[derive(PartialEq, Eq, Structural, Clone, Copy, Debug)]
pub enum SignError {
    /// The signing capability failed to produce a signature.
    SigningFailed,
    /// The fresh signature did not recover to the signer's own address.
    SelfCheckFailed,
}

/// Attaching failures.
#[derive(PartialEq, Eq, Structural, Clone, Copy, Debug)]
pub enum AttachError {
    /// The snapshot has no `signing` object to write into.
    MissingSigningBlock,
}

} // verus!
