use vstd::prelude::*;

verus! {

/// Why a storage key or value tree failed to decode into a typed record.
#[derive(Clone, Copy, Debug, PartialEq, Eq, Structural)]
pub enum DecodeError {
    /// The key tree is not the expected nesting of positional composites.
    KeyShape,
    /// The flattened key material holds fewer than 32 bytes.
    KeyTooShort,
    /// The value tree does not match the expected record layout.
    ValueShape,
    /// A numeric leaf does not fit the field's declared width.
    FieldTooWide,
}

/// Why an attestation could not be checked at all (as opposed to a
/// signature that simply does not verify).
#[derive(Clone, Copy, Debug, PartialEq, Eq, Structural)]
pub enum VerifyError {
    /// The signature text is too short to strip its two-byte prefix, has an
    /// odd number of digits, or holds a non-hexadecimal digit.
    BadSignatureHex,
    /// The claimed signer address is not a well-formed SS58 string.
    BadAddress,
    /// The signature bytes are not a well-formed sr25519 signature.
    BadSignature,
    /// The 32 identity bytes are not a valid sr25519 public key.
    BadPublicKey,
}

/// Why a snapshot document could not be read back.
#[derive(Clone, Copy, Debug, PartialEq, Eq, Structural)]
pub enum SnapshotError {
    /// The document is not in the form this library writes.
    Malformed,
}

} // verus!
