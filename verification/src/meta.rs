use vstd::prelude::*;

use crate::attest::attestation_outcome;
use crate::attest::substrate_context;
use crate::attest::substrate_ctx;
use crate::attest::verify_attestation;
use crate::errors::VerifyError;

verus! {

/// The signature schemes a usage report may name; the ledger's default is
/// sr25519.
#[derive(Clone, Copy, Debug, PartialEq, Eq, Structural)]
pub enum CryptoScheme {
    ECDSA,
    Ed25519,
    Sr25519,
}

impl Default for CryptoScheme {
    fn default() -> (r: CryptoScheme)
        ensures
            r == CryptoScheme::Sr25519,
    {
        CryptoScheme::Sr25519
    }
}

/// The serving side's attestation over a usage payload: a claimed SS58
/// address and a `0x`-prefixed hex signature.
pub struct ServerSignature {
    pub scheme: Option<CryptoScheme>,
    pub address: Vec<u8>,
    pub signature: Vec<u8>,
}

/// The calling side's attestation, in the same form.
pub struct UserSignature {
    pub scheme: Option<CryptoScheme>,
    pub address: Vec<u8>,
    pub signature: Vec<u8>,
}

/// One incoming verification request: the payload text and the server's
/// attestation over it.
pub struct UsageVerificationRequest {
    pub data: Vec<u8>,
    pub server: ServerSignature,
}

/// What a verification request answers with.
pub struct UsageVerificationResponse {
    pub valid: bool,
    pub scheme: CryptoScheme,
    pub address: Option<Vec<u8>>,
}

/// One usage report: who called which module, attested by both sides.
pub struct UsageReport {
    pub caller: Vec<u8>,
    pub module: u64,
    pub server_signature: ServerSignature,
    pub user_signature: UserSignature,
}

/// An error answered to an API caller, as a plain message.
#[derive(Debug, Clone, PartialEq, Eq)]
pub struct ApiError {
    pub message: Vec<u8>,
}

/// The message an attestation failure is reported with.
pub open spec fn verify_error_text(e: VerifyError) -> Seq<u8> {
    match e {
        VerifyError::BadSignatureHex => seq![109u8, 97u8, 108u8, 102u8, 111u8, 114u8, 109u8, 101u8, 100u8, 32u8, 115u8, 105u8, 103u8, 110u8, 97u8, 116u8, 117u8, 114u8, 101u8, 32u8, 104u8, 101u8, 120u8],
        VerifyError::BadAddress => seq![109u8, 97u8, 108u8, 102u8, 111u8, 114u8, 109u8, 101u8, 100u8, 32u8, 115u8, 115u8, 53u8, 56u8, 32u8, 97u8, 100u8, 100u8, 114u8, 101u8, 115u8, 115u8],
        VerifyError::BadSignature => seq![109u8, 97u8, 108u8, 102u8, 111u8, 114u8, 109u8, 101u8, 100u8, 32u8, 115u8, 105u8, 103u8, 110u8, 97u8, 116u8, 117u8, 114u8, 101u8],
        VerifyError::BadPublicKey => seq![109u8, 97u8, 108u8, 102u8, 111u8, 114u8, 109u8, 101u8, 100u8, 32u8, 112u8, 117u8, 98u8, 108u8, 105u8, 99u8, 32u8, 107u8, 101u8, 121u8],
    }
}

fn verify_error_message(e: VerifyError) -> (r: Vec<u8>)
    ensures
        r@ == verify_error_text(e),
{
    let v: Vec<u8> = match e {
        VerifyError::BadSignatureHex => vec![109u8, 97u8, 108u8, 102u8, 111u8, 114u8, 109u8, 101u8, 100u8, 32u8, 115u8, 105u8, 103u8, 110u8, 97u8, 116u8, 117u8, 114u8, 101u8, 32u8, 104u8, 101u8, 120u8],
        VerifyError::BadAddress => vec![109u8, 97u8, 108u8, 102u8, 111u8, 114u8, 109u8, 101u8, 100u8, 32u8, 115u8, 115u8, 53u8, 56u8, 32u8, 97u8, 100u8, 100u8, 114u8, 101u8, 115u8, 115u8],
        VerifyError::BadSignature => vec![109u8, 97u8, 108u8, 102u8, 111u8, 114u8, 109u8, 101u8, 100u8, 32u8, 115u8, 105u8, 103u8, 110u8, 97u8, 116u8, 117u8, 114u8, 101u8],
        VerifyError::BadPublicKey => vec![109u8, 97u8, 108u8, 102u8, 111u8, 114u8, 109u8, 101u8, 100u8, 32u8, 112u8, 117u8, 98u8, 108u8, 105u8, 99u8, 32u8, 107u8, 101u8, 121u8],
    };
    proof {
        assert(v@ =~= verify_error_text(e));
    }
    v
}

/// Verifies the server's attestation over a usage payload under the fixed
/// `substrate` signing context: `Ok` carries whether the signature
/// verifies, and malformed input is answered as an API error whose message
/// names the failure.
pub fn verify_server_signature(server: &ServerSignature, data: &Vec<u8>) -> (r: Result<
    bool,
    ApiError,
>)
    ensures
        match r {
            Ok(b) => attestation_outcome(data@, server.address@, server.signature@, substrate_ctx())
                == Ok::<bool, VerifyError>(b),
            Err(a) => attestation_outcome(data@, server.address@, server.signature@, substrate_ctx())
                matches Err(e) && a.message@ == verify_error_text(e),
        },
{
    let ctx = substrate_context();
    match verify_attestation(data, &server.address, &server.signature, &ctx) {
        Ok(b) => Ok(b),
        Err(e) => Err(ApiError { message: verify_error_message(e) }),
    }
}

/// The API versions this library understands.
#[derive(Clone, Copy, Debug, PartialEq, Eq, Structural)]
pub enum Version {
    V1,
}

/// The bytes of the version path segment `v1`.
pub open spec fn v1_text() -> Seq<u8> {
    seq![118u8, 49u8]
}

impl Version {
    /// Reads a version path segment: only `v1` is known.
    pub fn parse(s: &Vec<u8>) -> (r: Option<Version>)
        ensures
            r == (if s@ == v1_text() {
                Some(Version::V1)
            } else {
                None::<Version>
            }),
    {
        let t: Vec<u8> = vec![118u8, 49u8];
        proof {
            assert(t@ =~= v1_text());
        }
        if crate::tree::bytes_eq(s, &t) {
            Some(Version::V1)
        } else {
            None
        }
    }
}

/// The raw name of a module, as the chain stores it.
#[derive(Debug, Clone, PartialEq, Eq)]
pub struct ModuleName(pub Vec<u8>);

/// The listing tiers a module can stand in.
#[derive(Debug, Clone, Copy, PartialEq, Eq, Structural)]
pub enum ModuleTier {
    Official,
    Approved,
    Unapproved,
    Delisted,
    NotRegistered,
}

impl ModuleTier {
    /// Every tier a listed module can carry, in display order.
    pub fn all() -> (r: Vec<ModuleTier>)
        ensures
            r@ == seq![
                ModuleTier::Official,
                ModuleTier::Approved,
                ModuleTier::Unapproved,
                ModuleTier::Delisted,
            ],
    {
        let v: Vec<ModuleTier> = vec![
            ModuleTier::Official,
            ModuleTier::Approved,
            ModuleTier::Unapproved,
            ModuleTier::Delisted,
        ];
        proof {
            assert(v@ =~= seq![
                ModuleTier::Official,
                ModuleTier::Approved,
                ModuleTier::Unapproved,
                ModuleTier::Delisted,
            ]);
        }
        v
    }
}

/// One decoded module record, as the HTTP surface reports it.
pub struct Module {
    pub owner: Vec<u8>,
    pub id: u64,
    pub name: Vec<u8>,
    pub data: Option<Vec<u8>>,
    pub url: Option<Vec<u8>>,
    pub collateral: u128,
    pub take: u8,
    pub created_at: u64,
    pub last_updated: u64,
}

/// How a wallet's keypair is derived.
#[derive(Debug, Clone, PartialEq, Eq)]
pub enum WalletDerivationMethod {
    Unset,
    Mnemonic(Vec<u8>),
    SecretUri(Vec<u8>),
}

/// One stored wallet entry.
#[derive(Debug, Clone, PartialEq, Eq)]
pub struct Wallet {
    pub id: Option<Vec<u8>>,
    pub name: Vec<u8>,
    pub public_key: Vec<u8>,
    pub derivation: WalletDerivationMethod,
    pub timestamp: u64,
}

impl Wallet {
    pub fn new() -> (r: Wallet)
        ensures
            r.id is None,
            r.name@ == seq![78u8, 101u8, 119u8, 32u8, 87u8, 97u8, 108u8, 108u8, 101u8, 116u8],
            r.public_key@ == Seq::<u8>::empty(),
            r.derivation == WalletDerivationMethod::Unset,
            r.timestamp == 0,
    {
        let name: Vec<u8> = vec![78u8, 101u8, 119u8, 32u8, 87u8, 97u8, 108u8, 108u8, 101u8, 116u8];
        proof {
            assert(name@ =~= seq![78u8, 101u8, 119u8, 32u8, 87u8, 97u8, 108u8, 108u8, 101u8, 116u8]);
        }
        Wallet {
            id: None,
            name,
            public_key: Vec::new(),
            derivation: WalletDerivationMethod::Unset,
            timestamp: 0u64,
        }
    }
}

} // verus!

