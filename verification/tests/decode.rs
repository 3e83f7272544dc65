use snapper::errors::DecodeError;
use snapper::tree::{
    decode_account_page, decode_account_value, decode_identity_key, decode_stake_amount,
    decode_stake_page, ValueTree,
};

fn key_tree(bytes: &[u8]) -> ValueTree {
    let leaves: Vec<ValueTree> = bytes.iter().map(|b| ValueTree::UInt(*b as u128)).collect();
    ValueTree::Positional(vec![ValueTree::Positional(leaves)])
}

fn account_tree_named(nonce: u128, free: u128, reserved: u128, frozen: u128) -> ValueTree {
    ValueTree::Named(vec![
        (b"nonce".to_vec(), ValueTree::UInt(nonce)),
        (b"consumers".to_vec(), ValueTree::UInt(1)),
        (b"providers".to_vec(), ValueTree::UInt(2)),
        (b"sufficients".to_vec(), ValueTree::UInt(3)),
        (
            b"data".to_vec(),
            ValueTree::Named(vec![
                (b"free".to_vec(), ValueTree::UInt(free)),
                (b"reserved".to_vec(), ValueTree::UInt(reserved)),
                (b"frozen".to_vec(), ValueTree::UInt(frozen)),
                (b"flags".to_vec(), ValueTree::UInt(9)),
            ]),
        ),
    ])
}

fn account_tree_positional(nonce: u128, free: u128) -> ValueTree {
    ValueTree::Positional(vec![
        ValueTree::UInt(nonce),
        ValueTree::UInt(1),
        ValueTree::UInt(2),
        ValueTree::UInt(3),
        ValueTree::Positional(vec![
            ValueTree::UInt(free),
            ValueTree::UInt(0),
            ValueTree::UInt(0),
            ValueTree::UInt(9),
        ]),
    ])
}

#[test]
fn identity_decoding_is_deterministic_and_idempotent() {
    let bytes: Vec<u8> = (0u8..32).collect();
    let k1 = key_tree(&bytes);
    let k2 = key_tree(&bytes);
    let id1 = decode_identity_key(&k1).unwrap();
    let id2 = decode_identity_key(&k1).unwrap();
    let id3 = decode_identity_key(&k2).unwrap();
    assert_eq!(id1, id2);
    assert_eq!(id1, id3);
    assert_eq!(id1.as_bytes().as_slice(), &bytes[..]);
}

#[test]
fn identity_takes_first_32_of_longer_key() {
    let bytes: Vec<u8> = (0u8..40).collect();
    let id = decode_identity_key(&key_tree(&bytes)).unwrap();
    assert_eq!(id.as_bytes().as_slice(), &bytes[..32]);
}

#[test]
fn short_key_is_a_decode_error() {
    let bytes: Vec<u8> = (0u8..31).collect();
    let r = decode_identity_key(&key_tree(&bytes));
    assert_eq!(r, Err(DecodeError::KeyTooShort));
}

#[test]
fn wrong_key_shape_is_a_decode_error() {
    assert_eq!(
        decode_identity_key(&ValueTree::UInt(5)),
        Err(DecodeError::KeyShape)
    );
    assert_eq!(
        decode_identity_key(&ValueTree::Positional(vec![])),
        Err(DecodeError::KeyShape)
    );
    assert_eq!(
        decode_identity_key(&ValueTree::Positional(vec![ValueTree::UInt(1)])),
        Err(DecodeError::KeyShape)
    );
}

#[test]
fn non_numeric_key_leaves_count_as_zero_bytes() {
    let mut leaves: Vec<ValueTree> = (0u8..31).map(|b| ValueTree::UInt(b as u128)).collect();
    leaves.push(ValueTree::Text(b"x".to_vec()));
    let key = ValueTree::Positional(vec![ValueTree::Positional(leaves)]);
    let id = decode_identity_key(&key).unwrap();
    assert_eq!(id.as_bytes()[31], 0);
}

#[test]
fn account_decodes_by_name_and_by_position() {
    let named = decode_account_value(&account_tree_named(7, 100, 20, 3)).unwrap();
    assert_eq!(named.nonce, 7);
    assert_eq!(named.consumers, 1);
    assert_eq!(named.data.free, 100);
    assert_eq!(named.data.reserved, 20);
    assert_eq!(named.data.frozen, 3);
    assert_eq!(named.data.flags, 9);

    let positional = decode_account_value(&account_tree_positional(7, 100)).unwrap();
    assert_eq!(positional.nonce, 7);
    assert_eq!(positional.data.free, 100);
}

#[test]
fn account_field_too_wide_is_rejected() {
    let t = account_tree_named(u32::MAX as u128 + 1, 0, 0, 0);
    assert_eq!(decode_account_value(&t), Err(DecodeError::FieldTooWide));
    let t2 = account_tree_named(0, u64::MAX as u128 + 1, 0, 0);
    assert_eq!(decode_account_value(&t2), Err(DecodeError::FieldTooWide));
}

#[test]
fn account_missing_field_is_rejected() {
    let t = ValueTree::Named(vec![(b"nonce".to_vec(), ValueTree::UInt(1))]);
    assert_eq!(decode_account_value(&t), Err(DecodeError::ValueShape));
}

#[test]
fn stake_amount_reads_scalar_and_rejects_other_shapes() {
    assert_eq!(decode_stake_amount(&ValueTree::UInt(42)), Ok(42));
    assert_eq!(
        decode_stake_amount(&ValueTree::Positional(vec![])),
        Err(DecodeError::ValueShape)
    );
    assert_eq!(
        decode_stake_amount(&ValueTree::Text(b"x".to_vec())),
        Err(DecodeError::ValueShape)
    );
}

#[test]
fn malformed_entry_is_skipped_and_logged_never_fatal() {
    let good_key: Vec<u8> = (0u8..32).collect();
    let short_key: Vec<u8> = (0u8..10).collect();
    let entries = vec![
        (key_tree(&good_key), account_tree_named(1, 5, 0, 0)),
        (key_tree(&short_key), account_tree_named(2, 6, 0, 0)),
        (key_tree(&good_key), account_tree_named(3, 7, 0, 0)),
    ];
    let (records, failures) = decode_account_page(&entries);
    assert_eq!(records.len(), 2);
    assert_eq!(records[0].1.nonce, 1);
    assert_eq!(records[1].1.nonce, 3);
    assert_eq!(failures, vec![DecodeError::KeyTooShort]);
}

#[test]
fn stake_page_skips_bad_keys_on_either_side() {
    let a: Vec<u8> = (0u8..32).collect();
    let b: Vec<u8> = (100u8..132).collect();
    let short: Vec<u8> = vec![1, 2, 3];
    let entries = vec![
        (key_tree(&a), key_tree(&b), ValueTree::UInt(50)),
        (key_tree(&short), key_tree(&b), ValueTree::UInt(60)),
        (key_tree(&a), key_tree(&short), ValueTree::UInt(70)),
        // A value that is not a scalar leaf is skipped, not recorded as 0.
        (key_tree(&a), key_tree(&b), ValueTree::Positional(vec![])),
    ];
    let (edges, failures) = decode_stake_page(&entries);
    assert_eq!(edges.len(), 1);
    assert_eq!(edges[0].2, 50);
    assert_eq!(
        failures,
        vec![
            DecodeError::KeyTooShort,
            DecodeError::KeyTooShort,
            DecodeError::ValueShape,
        ]
    );
    // The decoded addresses are the SS58 forms of the key identities.
    let expected_from = subxt::utils::AccountId32::from(<[u8; 32]>::try_from(&a[..]).unwrap());
    assert_eq!(edges[0].0, expected_from.to_string().into_bytes());
    let expected_to = subxt::utils::AccountId32::from(<[u8; 32]>::try_from(&b[..]).unwrap());
    assert_eq!(edges[0].1, expected_to.to_string().into_bytes());
}
