use snapper::aggregate::aggregate;
use snapper::records::{Account, AccountData};

fn account(free: u64, reserved: u64, frozen: u64) -> Account {
    Account {
        nonce: 0,
        consumers: 0,
        providers: 0,
        sufficients: 0,
        data: AccountData { free, reserved, frozen, flags: 0 },
    }
}

fn addr(tag: u8) -> Vec<u8> {
    vec![tag; 4]
}

#[test]
fn staker_is_credited_recipient_is_not() {
    let id1 = addr(1);
    let id2 = addr(2);
    let accounts = vec![(id1.clone(), account(100, 0, 0))];
    let stake = vec![(id1.clone(), id2.clone(), 50u128)];
    let totals = aggregate(&accounts, &stake);
    assert_eq!(totals.get(&id1), Some(150u128));
    // The recipient of stake is not credited: it is absent from the mapping.
    assert_eq!(totals.get(&id2), None);
    assert_eq!(totals.len(), 1);
}

#[test]
fn aggregate_is_order_independent() {
    let a = addr(1);
    let b = addr(2);
    let c = addr(3);
    let accounts1 = vec![
        (a.clone(), account(10, 1, 2)),
        (b.clone(), account(20, 0, 0)),
        (c.clone(), account(0, 0, 5)),
    ];
    let accounts2 = vec![
        accounts1[2].clone(),
        accounts1[0].clone(),
        accounts1[1].clone(),
    ];
    let stake1 = vec![
        (a.clone(), b.clone(), 7u128),
        (b.clone(), c.clone(), 11u128),
        (a.clone(), c.clone(), 13u128),
    ];
    let stake2 = vec![stake1[1].clone(), stake1[2].clone(), stake1[0].clone()];
    let t1 = aggregate(&accounts1, &stake1);
    let t2 = aggregate(&accounts2, &stake2);
    assert_eq!(t1.len(), t2.len());
    for key in [&a, &b, &c] {
        assert_eq!(t1.get(key), t2.get(key));
    }
    assert_eq!(t1.get(&a), Some(10u128 + 1 + 2 + 7 + 13));
}

#[test]
fn sum_of_totals_is_everything_credited_once() {
    let a = addr(1);
    let b = addr(2);
    let accounts = vec![(a.clone(), account(100, 20, 3)), (b.clone(), account(7, 0, 0))];
    let stake = vec![(a.clone(), b.clone(), 50u128), (b.clone(), a.clone(), 60u128)];
    let totals = aggregate(&accounts, &stake);
    let issuance = totals.total_issuance();
    assert_eq!(issuance, 100u128 + 20 + 3 + 7 + 50 + 60);
}

#[test]
fn dust_filter_counts_and_sums_only_below_threshold() {
    let a = addr(1);
    let b = addr(2);
    let c = addr(3);
    let d = addr(4);
    let accounts = vec![
        (a.clone(), account(499, 0, 0)),
        (b.clone(), account(500, 0, 0)),
        (c.clone(), account(10, 0, 0)),
        (d.clone(), account(1000, 0, 0)),
    ];
    let stake = vec![];
    let totals = aggregate(&accounts, &stake);
    let (count, sum) = totals.dust_accounts(500);
    assert_eq!(count, 2);
    assert_eq!(sum, 499u128 + 10);
}

#[test]
fn top_n_ranks_descending() {
    let a = b"a".to_vec();
    let b = b"b".to_vec();
    let c = b"c".to_vec();
    let accounts = vec![
        (a.clone(), account(300, 0, 0)),
        (b.clone(), account(100, 0, 0)),
        (c.clone(), account(500, 0, 0)),
    ];
    let stake = vec![];
    let totals = aggregate(&accounts, &stake);
    let top = totals.top_n(2);
    assert_eq!(top.len(), 2);
    assert_eq!(top[0], (c.clone(), 500u128));
    assert_eq!(top[1], (a.clone(), 300u128));
    let all = totals.top_n(10);
    assert_eq!(all.len(), 3);
    assert_eq!(all[2], (b.clone(), 100u128));
}

#[test]
fn ranking_breaks_ties_by_key_order() {
    let accounts = vec![
        (b"zz".to_vec(), account(100, 0, 0)),
        (b"aa".to_vec(), account(100, 0, 0)),
        (b"mm".to_vec(), account(100, 0, 0)),
    ];
    let totals = aggregate(&accounts, &vec![]);
    let ranked = totals.ranked_entries();
    assert_eq!(ranked[0].0, b"aa".to_vec());
    assert_eq!(ranked[1].0, b"mm".to_vec());
    assert_eq!(ranked[2].0, b"zz".to_vec());
}

#[test]
fn repeated_identities_accumulate() {
    let a = addr(1);
    let accounts = vec![
        (a.clone(), account(5, 0, 0)),
        (a.clone(), account(7, 0, 0)),
    ];
    let stake = vec![(a.clone(), addr(2), 9u128)];
    let totals = aggregate(&accounts, &stake);
    assert_eq!(totals.len(), 1);
    assert_eq!(totals.get(&a), Some(21u128));
}
