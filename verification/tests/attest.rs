use schnorrkel::{ExpansionMode, MiniSecretKey};
use snapper::attest::{substrate_context, verify_attestation};
use snapper::errors::VerifyError;
use snapper::meta::{verify_server_signature, CryptoScheme, ServerSignature};

fn test_keypair() -> schnorrkel::Keypair {
    let seed = [7u8; 32];
    MiniSecretKey::from_bytes(&seed)
        .unwrap()
        .expand_to_keypair(ExpansionMode::Ed25519)
}

fn address_of(kp: &schnorrkel::Keypair) -> Vec<u8> {
    subxt::utils::AccountId32::from(kp.public.to_bytes())
        .to_string()
        .into_bytes()
}

fn signature_text(sig: &[u8]) -> Vec<u8> {
    format!("0x{}", hex::encode(sig)).into_bytes()
}

#[test]
fn a_genuine_signature_verifies_and_any_flipped_byte_does_not() {
    let kp = test_keypair();
    let payload = b"abc".to_vec();
    let sig = kp.sign_simple(b"substrate", &payload).to_bytes();
    let address = address_of(&kp);
    let ctx = substrate_context();

    let ok = verify_attestation(&payload, &address, &signature_text(&sig), &ctx);
    assert_eq!(ok, Ok(true));

    for i in 0..sig.len() {
        for bit in [1u8, 128u8] {
            let mut bad = sig;
            bad[i] ^= bit;
            let r = verify_attestation(&payload, &address, &signature_text(&bad), &ctx);
            // A tampered signature never verifies: either it fails to parse
            // or the verification equation does not hold.
            assert!(matches!(r, Ok(false) | Err(_)), "byte {} bit {}", i, bit);
        }
    }
}

#[test]
fn a_different_payload_or_context_does_not_verify() {
    let kp = test_keypair();
    let payload = b"abc".to_vec();
    let sig = kp.sign_simple(b"substrate", &payload).to_bytes();
    let address = address_of(&kp);
    let ctx = substrate_context();

    let other_payload = b"abd".to_vec();
    assert_eq!(
        verify_attestation(&other_payload, &address, &signature_text(&sig), &ctx),
        Ok(false)
    );
    let other_ctx = b"polkadot".to_vec();
    assert_eq!(
        verify_attestation(&payload, &address, &signature_text(&sig), &other_ctx),
        Ok(false)
    );
}

#[test]
fn malformed_signature_text_is_a_typed_error() {
    let kp = test_keypair();
    let payload = b"abc".to_vec();
    let address = address_of(&kp);
    let ctx = substrate_context();

    // Too short to strip the prefix.
    assert_eq!(
        verify_attestation(&payload, &address, &b"0".to_vec(), &ctx),
        Err(VerifyError::BadSignatureHex)
    );
    // Odd number of digits after the prefix.
    assert_eq!(
        verify_attestation(&payload, &address, &b"0xabc".to_vec(), &ctx),
        Err(VerifyError::BadSignatureHex)
    );
    // A non-hexadecimal digit.
    assert_eq!(
        verify_attestation(&payload, &address, &b"0xzz".to_vec(), &ctx),
        Err(VerifyError::BadSignatureHex)
    );
    // Hex that is not 64 bytes long is not a well-formed signature.
    assert_eq!(
        verify_attestation(&payload, &address, &b"0xabcd".to_vec(), &ctx),
        Err(VerifyError::BadSignature)
    );
    // A 64-byte signature without the schnorrkel marker bit.
    let unmarked = [0u8; 64];
    assert_eq!(
        verify_attestation(&payload, &address, &signature_text(&unmarked), &ctx),
        Err(VerifyError::BadSignature)
    );
}

#[test]
fn malformed_address_is_a_typed_error() {
    let kp = test_keypair();
    let payload = b"abc".to_vec();
    let sig = kp.sign_simple(b"substrate", &payload).to_bytes();
    let ctx = substrate_context();
    let r = verify_attestation(&payload, &b"not an address".to_vec(), &signature_text(&sig), &ctx);
    assert_eq!(r, Err(VerifyError::BadAddress));
    // A valid base58 string with a broken checksum is rejected too.
    let mut address = address_of(&kp);
    let last = *address.last().unwrap();
    *address.last_mut().unwrap() = if last == b'2' { b'3' } else { b'2' };
    let r = verify_attestation(&payload, &address, &signature_text(&sig), &ctx);
    assert_eq!(r, Err(VerifyError::BadAddress));
    // A text longer than any SS58 form of a 32-byte identity is rejected
    // up front, whatever it holds - including a long run of `1` digits.
    let long = vec![b'1'; 200];
    let r = verify_attestation(&payload, &long, &signature_text(&sig), &ctx);
    assert_eq!(r, Err(VerifyError::BadAddress));
}

#[test]
fn server_signature_verification_under_the_fixed_context() {
    let kp = test_keypair();
    let data = b"usage report payload".to_vec();
    let sig = kp.sign_simple(b"substrate", &data).to_bytes();
    let server = ServerSignature {
        scheme: Some(CryptoScheme::Sr25519),
        address: address_of(&kp),
        signature: signature_text(&sig),
    };
    assert_eq!(verify_server_signature(&server, &data).unwrap(), true);

    let bad = ServerSignature {
        scheme: None,
        address: b"junk".to_vec(),
        signature: signature_text(&sig),
    };
    let err = verify_server_signature(&bad, &data).unwrap_err();
    assert_eq!(err.message, b"malformed ss58 address".to_vec());

    let bad_hex = ServerSignature {
        scheme: None,
        address: address_of(&kp),
        signature: b"0xq".to_vec(),
    };
    let err = verify_server_signature(&bad_hex, &data).unwrap_err();
    assert_eq!(err.message, b"malformed signature hex".to_vec());
}
