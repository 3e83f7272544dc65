use vstd::prelude::*;

use crate::errors::VerifyError;
use crate::ids::ss58_parse;
use crate::ids::ss58_decode;

verus! {

/// An ASCII hexadecimal digit, either case.
pub open spec fn is_hex_byte(b: u8) -> bool {
    (48 <= b <= 57) || (97 <= b <= 102) || (65 <= b <= 70)
}

/// The numeric value of an ASCII hexadecimal digit.
pub open spec fn hex_byte_val(b: u8) -> int {
    if 48 <= b <= 57 {
        b - 48
    } else if 97 <= b <= 102 {
        b - 87
    } else {
        b - 55
    }
}

/// Whether a hex text decodes at all: an even number of digits, every byte
/// a hexadecimal digit.
pub open spec fn hex_text_ok(s: Seq<u8>) -> bool {
    s.len() % 2 == 0 && forall|i: int| 0 <= i < s.len() ==> is_hex_byte(#[trigger] s[i])
}

/// The bytes a hex text decodes to: each digit pair high-first.
pub open spec fn hex_bytes_of(s: Seq<u8>) -> Seq<u8> {
    Seq::new(
        s.len() / 2,
        |i: int| (hex_byte_val(s[2 * i]) * 16 + hex_byte_val(s[2 * i + 1])) as u8,
    )
}

/// Relies on `hex::decode`: it pairs the digits of an even-length string of
/// hexadecimal digits (either case) high-first into bytes, and returns an
/// error exactly on odd length or a non-hexadecimal byte.
#[verifier::external_body]
fn hex_decode(s: &Vec<u8>) -> (r: Option<Vec<u8>>)
    ensures
        match r {
            Some(v) => hex_text_ok(s@) && v@ == hex_bytes_of(s@),
            None => !hex_text_ok(s@),
        },
{
    match hex::decode(s.as_slice()) {
        Ok(v) => Some(v),
        Err(_) => None,
    }
}

/// The outcome of one raw signature check.
#[derive(Clone, Copy, Debug, PartialEq, Eq, Structural)]
pub enum SigCheck {
    /// The signature bytes are not a well-formed sr25519 signature.
    BadSignature,
    /// The key bytes are not a valid public key.
    BadKey,
    /// The signature verifies.
    Valid,
    /// The signature does not verify.
    Invalid,
}

/// Whether 64 signature bytes parse as an sr25519 signature (the marker bit
/// set, the scalar canonical): a function of the bytes alone.
pub uninterp spec fn schnorr_sig_ok(sig: Seq<u8>) -> bool;

/// Whether 32 bytes are a valid sr25519 public key (a canonical ristretto
/// point): a function of the bytes alone.
pub uninterp spec fn schnorr_key_ok(pk: Seq<u8>) -> bool;

/// Whether the signature verifies under the key over the payload with the
/// given domain-separation context: a function of the four byte strings
/// alone.
pub uninterp spec fn sr25519_valid(pk: Seq<u8>, ctx: Seq<u8>, msg: Seq<u8>, sig: Seq<u8>) -> bool;

/// What one raw signature check yields: the signature shape is checked
/// first, then the key, then the verification equation.
pub open spec fn sig_check_of(pk: Seq<u8>, ctx: Seq<u8>, msg: Seq<u8>, sig: Seq<u8>) -> SigCheck {
    if !(sig.len() == 64 && schnorr_sig_ok(sig)) {
        SigCheck::BadSignature
    } else if !schnorr_key_ok(pk) {
        SigCheck::BadKey
    } else if sr25519_valid(pk, ctx, msg, sig) {
        SigCheck::Valid
    } else {
        SigCheck::Invalid
    }
}

/// Relies on schnorrkel's `Signature::from_bytes` (fails on anything but 64
/// bytes with the schnorrkel marker bit and a canonical scalar),
/// `PublicKey::from_bytes` (fails on anything but a canonical ristretto
/// point) and `PublicKey::verify_simple` (deterministic in key, context,
/// message and signature bytes), checked in that order.
#[verifier::external_body]
fn sr25519_check(pk: &Vec<u8>, ctx: &Vec<u8>, msg: &Vec<u8>, sig: &Vec<u8>) -> (r: SigCheck)
    requires
        pk@.len() == 32,
    ensures
        r == sig_check_of(pk@, ctx@, msg@, sig@),
        (r == SigCheck::BadSignature) <==> !(sig@.len() == 64 && schnorr_sig_ok(sig@)),
        (r == SigCheck::BadKey) <==> (sig@.len() == 64 && schnorr_sig_ok(sig@)
            && !schnorr_key_ok(pk@)),
        (r == SigCheck::Valid) <==> (sig@.len() == 64 && schnorr_sig_ok(sig@) && schnorr_key_ok(
            pk@,
        ) && sr25519_valid(pk@, ctx@, msg@, sig@)),
{
    let signature = match schnorrkel::Signature::from_bytes(sig.as_slice()) {
        Ok(s) => s,
        Err(_) => return SigCheck::BadSignature,
    };
    let public = match schnorrkel::PublicKey::from_bytes(pk.as_slice()) {
        Ok(p) => p,
        Err(_) => return SigCheck::BadKey,
    };
    if public.verify_simple(ctx.as_slice(), msg.as_slice(), &signature).is_ok() {
        SigCheck::Valid
    } else {
        SigCheck::Invalid
    }
}

/// The bytes of `v` from position `k` on.
fn tail_from(v: &Vec<u8>, k: usize) -> (r: Vec<u8>)
    requires
        k <= v@.len(),
    ensures
        r@ == v@.skip(k as int),
{
    let mut out: Vec<u8> = Vec::new();
    let n = v.len();
    for i in k..n
        invariant
            k <= i <= n,
            n == v@.len(),
            out@ =~= v@.subrange(k as int, i as int),
    {
        out.push(v[i]);
        proof {
            assert(out@ =~= v@.subrange(k as int, i + 1));
        }
    }
    proof {
        assert(out@ =~= v@.skip(k as int));
    }
    out
}

/// The fixed domain-separation context of the ledger's signing scheme:
/// the bytes of `substrate`.
pub open spec fn substrate_ctx() -> Seq<u8> {
    seq![115u8, 117u8, 98u8, 115u8, 116u8, 114u8, 97u8, 116u8, 101u8]
}

pub fn substrate_context() -> (r: Vec<u8>)
    ensures
        r@ == substrate_ctx(),
{
    let v: Vec<u8> = vec![115u8, 117u8, 98u8, 115u8, 116u8, 114u8, 97u8, 116u8, 101u8];
    proof {
        assert(v@ =~= substrate_ctx());
    }
    v
}

/// What verifying an attestation yields, for every input: the signature
/// text loses its first two bytes (the `0x` prefix) and must decode as hex;
/// the address must be short enough to be an SS58 form of a 32-byte
/// identifier (64 bytes covers every one) and must decode as SS58; the
/// signature must parse and the key must be valid; then the outcome is the
/// verification equation itself.
pub open spec fn attestation_outcome(
    payload: Seq<u8>,
    address: Seq<u8>,
    signature: Seq<u8>,
    context: Seq<u8>,
) -> Result<bool, VerifyError> {
    if signature.len() < 2 || !hex_text_ok(signature.skip(2)) {
        Err(VerifyError::BadSignatureHex)
    } else if address.len() > 64 {
        Err(VerifyError::BadAddress)
    } else {
        match ss58_parse(address) {
            Option::None => Err(VerifyError::BadAddress),
            Option::Some(pk) => match sig_check_of(
                pk,
                context,
                payload,
                hex_bytes_of(signature.skip(2)),
            ) {
                SigCheck::BadSignature => Err(VerifyError::BadSignature),
                SigCheck::BadKey => Err(VerifyError::BadPublicKey),
                SigCheck::Valid => Ok(true),
                SigCheck::Invalid => Ok(false),
            },
        }
    }
}

/// Validates a detached signature over a byte payload against a claimed
/// signer address: the hex signature text (its two prefix bytes dropped),
/// the SS58 address decoded back to the 32 identity bytes, and sr25519
/// verification under the given domain-separation context. Malformed input
/// is a typed error, never a panic; `Ok` carries whether the signature
/// verifies.
pub fn verify_attestation(
    payload: &Vec<u8>,
    address: &Vec<u8>,
    signature: &Vec<u8>,
    context: &Vec<u8>,
) -> (r: Result<bool, VerifyError>)
    ensures
        r == attestation_outcome(payload@, address@, signature@, context@),
{
    if signature.len() < 2 {
        return Err(VerifyError::BadSignatureHex);
    }
    let tail = tail_from(signature, 2);
    let sig_bytes = match hex_decode(&tail) {
        Some(v) => v,
        None => return Err(VerifyError::BadSignatureHex),
    };
    if address.len() > 64 {
        return Err(VerifyError::BadAddress);
    }
    let id = match ss58_decode(address) {
        Some(id) => id,
        None => return Err(VerifyError::BadAddress),
    };
    match sr25519_check(id.as_bytes(), context, payload, &sig_bytes) {
        SigCheck::BadSignature => Err(VerifyError::BadSignature),
        SigCheck::BadKey => Err(VerifyError::BadPublicKey),
        SigCheck::Valid => Ok(true),
        SigCheck::Invalid => Ok(false),
    }
}

} // verus!
