use snapper::aggregate::aggregate;
use snapper::records::{Account, AccountData};
use snapper::snapshot::{
    load_accounts, load_balances, load_stake, save_accounts, save_balances, save_stake,
};

fn account(nonce: u32, free: u64) -> Account {
    Account {
        nonce,
        consumers: 1,
        providers: 2,
        sufficients: 3,
        data: AccountData { free, reserved: 20, frozen: 3, flags: 9 },
    }
}

#[test]
fn accounts_document_has_the_exact_canonical_form() {
    let accounts = vec![(b"addr".to_vec(), account(7, 100))];
    let text = save_accounts(&accounts);
    let expected = "[[\"addr\",{\"nonce\":7,\"consumers\":1,\"providers\":2,\"sufficients\":3,\"data\":{\"free\":100,\"reserved\":20,\"frozen\":3,\"flags\":9}}]]";
    assert_eq!(String::from_utf8(text).unwrap(), expected);
}

#[test]
fn accounts_round_trip() {
    let accounts = vec![
        (b"alice".to_vec(), account(1, 11)),
        (b"bob".to_vec(), account(2, u64::MAX)),
        (Vec::new(), account(0, 0)),
    ];
    let text = save_accounts(&accounts);
    let back = load_accounts(&text).unwrap();
    assert_eq!(back, accounts);
}

#[test]
fn accounts_round_trip_with_escaped_addresses() {
    let accounts = vec![
        (b"say \"hi\"".to_vec(), account(1, 1)),
        (b"back\\slash".to_vec(), account(2, 2)),
        (vec![0u8, 31, 10, 9], account(3, 3)),
    ];
    let text = save_accounts(&accounts);
    let back = load_accounts(&text).unwrap();
    assert_eq!(back, accounts);
}

#[test]
fn empty_snapshots_round_trip() {
    let no_accounts: Vec<(Vec<u8>, Account)> = Vec::new();
    let text = save_accounts(&no_accounts);
    assert_eq!(text, b"[]".to_vec());
    assert_eq!(load_accounts(&text).unwrap(), no_accounts);

    let no_stake: Vec<(Vec<u8>, Vec<u8>, u128)> = Vec::new();
    let text = save_stake(&no_stake);
    assert_eq!(text, b"[]".to_vec());
    assert_eq!(load_stake(&text).unwrap(), no_stake);
}

#[test]
fn stake_document_has_the_exact_canonical_form() {
    let stake = vec![(b"from".to_vec(), b"to".to_vec(), 50u128)];
    let text = save_stake(&stake);
    assert_eq!(String::from_utf8(text).unwrap(), "[[\"from\",\"to\",50]]");
}

#[test]
fn stake_round_trip() {
    let stake = vec![
        (b"a".to_vec(), b"b".to_vec(), 0u128),
        (b"b".to_vec(), b"c".to_vec(), u128::MAX),
        (b"\"q\"".to_vec(), Vec::new(), 7u128),
    ];
    let text = save_stake(&stake);
    assert_eq!(load_stake(&text).unwrap(), stake);
}

#[test]
fn balances_document_and_round_trip() {
    let accounts = vec![
        (b"one".to_vec(), account(1, 100)),
        (b"two".to_vec(), account(2, 7)),
    ];
    let stake = vec![(b"one".to_vec(), b"two".to_vec(), 50u128)];
    let totals = aggregate(&accounts, &stake);
    let text = save_balances(&totals);
    assert_eq!(
        String::from_utf8(text.clone()).unwrap(),
        "{\"one\":173,\"two\":30}"
    );
    let back = load_balances(&text).unwrap();
    assert_eq!(back.len(), totals.len());
    assert_eq!(back.get(&b"one".to_vec()), Some(173u128));
    assert_eq!(back.get(&b"two".to_vec()), Some(30u128));
    // Rendering what was loaded gives the same document again.
    assert_eq!(save_balances(&back), text);
}

#[test]
fn malformed_documents_are_rejected() {
    assert!(load_accounts(&b"".to_vec()).is_err());
    assert!(load_accounts(&b"{}".to_vec()).is_err());
    assert!(load_accounts(&b"[".to_vec()).is_err());
    assert!(load_accounts(&b"[]x".to_vec()).is_err());
    assert!(load_accounts(&b"[[\"a\",{\"nonce\":1}]]".to_vec()).is_err());
    assert!(load_stake(&b"[[\"a\",\"b\",]]".to_vec()).is_err());
    assert!(load_stake(&b"[[\"a\",\"b\",1]".to_vec()).is_err());
    assert!(load_balances(&b"[]".to_vec()).is_err());
    assert!(load_balances(&b"{\"a\":}".to_vec()).is_err());
    assert!(load_balances(&b"{\"a\":1,}".to_vec()).is_err());
}

#[test]
fn whitespace_is_not_part_of_the_canonical_form() {
    // The store writes and reads one canonical byte form; padded documents
    // are rejected as malformed rather than silently reformatted.
    assert!(load_stake(&b"[ [\"a\",\"b\",1] ]".to_vec()).is_err());
    assert!(load_balances(&b"{ \"a\": 1 }".to_vec()).is_err());
}

#[test]
fn numbers_wider_than_their_field_are_rejected() {
    // nonce is a 32-bit field: 4294967296 does not fit.
    let text = "[[\"a\",{\"nonce\":4294967296,\"consumers\":1,\"providers\":2,\"sufficients\":3,\"data\":{\"free\":100,\"reserved\":20,\"frozen\":3,\"flags\":9}}]]";
    assert!(load_accounts(&text.as_bytes().to_vec()).is_err());
    // Amounts above u128::MAX do not fit any field.
    let text2 = "{\"a\":340282366920938463463374607431768211456}";
    assert!(load_balances(&text2.as_bytes().to_vec()).is_err());
    // The u128 maximum itself is fine.
    let text3 = "{\"a\":340282366920938463463374607431768211455}";
    let back = load_balances(&text3.as_bytes().to_vec()).unwrap();
    assert_eq!(back.get(&b"a".to_vec()), Some(u128::MAX));
}
