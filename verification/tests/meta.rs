use snapper::meta::{CryptoScheme, ModuleTier, Version, Wallet, WalletDerivationMethod};

#[test]
fn version_parses_only_v1() {
    assert_eq!(Version::parse(&b"v1".to_vec()), Some(Version::V1));
    assert_eq!(Version::parse(&b"v2".to_vec()), None);
    assert_eq!(Version::parse(&b"V1".to_vec()), None);
    assert_eq!(Version::parse(&b"".to_vec()), None);
}

#[test]
fn all_listing_tiers_in_display_order() {
    let all = ModuleTier::all();
    assert_eq!(
        all,
        vec![
            ModuleTier::Official,
            ModuleTier::Approved,
            ModuleTier::Unapproved,
            ModuleTier::Delisted,
        ]
    );
}

#[test]
fn a_new_wallet_is_blank() {
    let w = Wallet::new();
    assert_eq!(w.id, None);
    assert_eq!(w.name, b"New Wallet".to_vec());
    assert_eq!(w.public_key, Vec::<u8>::new());
    assert_eq!(w.derivation, WalletDerivationMethod::Unset);
    assert_eq!(w.timestamp, 0);
}

#[test]
fn default_crypto_scheme_is_sr25519() {
    assert_eq!(CryptoScheme::default(), CryptoScheme::Sr25519);
}
