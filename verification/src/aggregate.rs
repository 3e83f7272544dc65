use vstd::prelude::*;

use crate::records::Account;
use crate::records::account_contribution;
use crate::records::account_pairs_view;
use crate::records::stake_triples_view;

verus! {

/// Copies a byte string.
fn copy_bytes(src: &Vec<u8>) -> (r: Vec<u8>)
    ensures
        r@ == src@,
{
    let mut out: Vec<u8> = Vec::new();
    for i in 0..src.len()
        invariant
            out@ =~= src@.take(i as int),
    {
        out.push(src[i]);
        proof {
            assert(out@ =~= src@.take(i + 1));
        }
    }
    proof {
        assert(out@ =~= src@);
    }
    out
}

/// The mathematical view of an address/amount entry list: address bytes to
/// amount, later entries winning (well-formed lists have no repeated key).
pub open spec fn entries_map(s: Seq<(Vec<u8>, u128)>) -> Map<Seq<u8>, int>
    decreases s.len(),
{
    if s.len() == 0 {
        Map::empty()
    } else {
        entries_map(s.drop_last()).insert(s.last().0@, s.last().1 as int)
    }
}

/// The sum of all amounts in an entry list.
pub open spec fn entries_total(s: Seq<(Vec<u8>, u128)>) -> int
    decreases s.len(),
{
    if s.len() == 0 {
        0
    } else {
        entries_total(s.drop_last()) + s.last().1
    }
}

/// No two entries carry the same address.
pub open spec fn unique_keys(s: Seq<(Vec<u8>, u128)>) -> bool {
    forall|i: int, j: int| 0 <= i < j < s.len() ==> s[i].0@ != s[j].0@
}

/// The total standing at a key: the entry's amount, and 0 when absent.
pub open spec fn total_of(m: Map<Seq<u8>, int>, k: Seq<u8>) -> int {
    if m.dom().contains(k) {
        m[k]
    } else {
        0int
    }
}

/// Adding `v` to the total of `key`, creating the entry at 0 if absent.
pub open spec fn bump_map(m: Map<Seq<u8>, int>, key: Seq<u8>, v: int) -> Map<Seq<u8>, int> {
    m.insert(key, total_of(m, key) + v)
}

/// A key occurs in the map view exactly when some entry carries it.
proof fn lemma_entries_map_dom(s: Seq<(Vec<u8>, u128)>, key: Seq<u8>)
    ensures
        entries_map(s).dom().contains(key) <==> exists|i: int|
            0 <= i < s.len() && s[i].0@ == key,
    decreases s.len(),
{
    if s.len() > 0 {
        lemma_entries_map_dom(s.drop_last(), key);
        if s.last().0@ == key {
            assert(s[s.len() - 1].0@ == key);
        } else if entries_map(s).dom().contains(key) {
            let i = choose|i: int| 0 <= i < s.drop_last().len() && s.drop_last()[i].0@ == key;
            assert(s[i].0@ == key);
        } else if exists|i: int| 0 <= i < s.len() && s[i].0@ == key {
            let i = choose|i: int| 0 <= i < s.len() && s[i].0@ == key;
            assert(s.drop_last()[i] == s[i]);
        }
    }
}

/// In a list without repeated keys, the map view sends an entry's key to
/// that entry's amount.
proof fn lemma_entries_map_at(s: Seq<(Vec<u8>, u128)>, i: int)
    requires
        unique_keys(s),
        0 <= i < s.len(),
    ensures
        entries_map(s).dom().contains(s[i].0@),
        entries_map(s)[s[i].0@] == s[i].1 as int,
    decreases s.len(),
{
    if i == s.len() - 1 {
        lemma_entries_map_dom(s, s[i].0@);
    } else {
        assert(s.drop_last()[i] == s[i]);
        lemma_entries_map_at(s.drop_last(), i);
    }
}

/// Replacing entry `i` by one with the same key updates the map view at
/// that key and shifts the total by the difference of the amounts.
proof fn lemma_entries_map_update(s: Seq<(Vec<u8>, u128)>, i: int, e: (Vec<u8>, u128))
    requires
        unique_keys(s),
        0 <= i < s.len(),
        e.0@ == s[i].0@,
    ensures
        entries_map(s.update(i, e)) =~= entries_map(s).insert(s[i].0@, e.1 as int),
        entries_total(s.update(i, e)) == entries_total(s) - s[i].1 + e.1,
        unique_keys(s.update(i, e)),
    decreases s.len(),
{
    let t = s.update(i, e);
    assert(forall|j: int| 0 <= j < s.len() ==> t[j].0@ == s[j].0@);
    if i == s.len() - 1 {
        assert(t.drop_last() =~= s.drop_last());
        assert(t.last() == e);
    } else {
        lemma_entries_map_update(s.drop_last(), i, e);
        assert(t.drop_last() =~= s.drop_last().update(i, e));
        assert(t.last() == s.last());
        assert(s.drop_last()[i] == s[i]);
        lemma_entries_map_at(s, i);
        assert(s[i].0@ != s.last().0@);
    }
}

/// The key a stake edge credits: the staking identity, never the recipient.
pub open spec fn stake_key_fn() -> spec_fn((Seq<u8>, Seq<u8>, u128)) -> Seq<u8> {
    |e: (Seq<u8>, Seq<u8>, u128)| e.0
}

/// The amount a stake edge credits.
pub open spec fn stake_amt_fn() -> spec_fn((Seq<u8>, Seq<u8>, u128)) -> int {
    |e: (Seq<u8>, Seq<u8>, u128)| e.2 as int
}

/// The key an account record credits: its own identity.
pub open spec fn account_key_fn() -> spec_fn((Seq<u8>, Account)) -> Seq<u8> {
    |p: (Seq<u8>, Account)| p.0
}

/// The amount an account record credits: free plus reserved plus frozen.
pub open spec fn account_amt_fn() -> spec_fn((Seq<u8>, Account)) -> int {
    |p: (Seq<u8>, Account)| account_contribution(p.1)
}

/// The totals after crediting every element of `s`, in order, to the entry
/// of its key.
pub open spec fn credit_all<T>(
    m: Map<Seq<u8>, int>,
    s: Seq<T>,
    key: spec_fn(T) -> Seq<u8>,
    amt: spec_fn(T) -> int,
) -> Map<Seq<u8>, int>
    decreases s.len(),
{
    if s.len() == 0 {
        m
    } else {
        bump_map(credit_all(m, s.drop_last(), key, amt), key(s.last()), amt(s.last()))
    }
}

/// The sum of the amounts credited by every element of `s`.
pub open spec fn credit_total<T>(s: Seq<T>, amt: spec_fn(T) -> int) -> int
    decreases s.len(),
{
    if s.len() == 0 {
        0
    } else {
        credit_total(s.drop_last(), amt) + amt(s.last())
    }
}

/// The sum of every stake edge's amount.
pub open spec fn stake_total(stake: Seq<(Seq<u8>, Seq<u8>, u128)>) -> int {
    credit_total(stake, stake_amt_fn())
}

/// The sum of every account record's own contribution.
pub open spec fn account_total(accounts: Seq<(Seq<u8>, Account)>) -> int {
    credit_total(accounts, account_amt_fn())
}

/// What aggregation yields: every stake edge credited to its staking
/// identity, then every account record credited to its own identity.
pub open spec fn aggregate_totals(
    accounts: Seq<(Seq<u8>, Account)>,
    stake: Seq<(Seq<u8>, Seq<u8>, u128)>,
) -> Map<Seq<u8>, int> {
    credit_all(
        credit_all(Map::empty(), stake, stake_key_fn(), stake_amt_fn()),
        accounts,
        account_key_fn(),
        account_amt_fn(),
    )
}

/// The amount a contribution list credits to the one key `k`.
pub open spec fn key_credit<T>(
    s: Seq<T>,
    k: Seq<u8>,
    key: spec_fn(T) -> Seq<u8>,
    amt: spec_fn(T) -> int,
) -> int
    decreases s.len(),
{
    if s.len() == 0 {
        0
    } else {
        key_credit(s.drop_last(), k, key, amt) + if key(s.last()) == k {
            amt(s.last())
        } else {
            0
        }
    }
}

/// Everything aggregation credits to one identity: its outgoing stake plus
/// its own account contribution.
pub open spec fn identity_credit(
    accounts: Seq<(Seq<u8>, Account)>,
    stake: Seq<(Seq<u8>, Seq<u8>, u128)>,
    k: Seq<u8>,
) -> int {
    key_credit(stake, k, stake_key_fn(), stake_amt_fn()) + key_credit(
        accounts,
        k,
        account_key_fn(),
        account_amt_fn(),
    )
}

proof fn lemma_key_credit_nonneg<T>(
    s: Seq<T>,
    k: Seq<u8>,
    key: spec_fn(T) -> Seq<u8>,
    amt: spec_fn(T) -> int,
)
    requires
        forall|j: int| 0 <= j < s.len() ==> amt(s[j]) >= 0,
    ensures
        key_credit(s, k, key, amt) >= 0,
    decreases s.len(),
{
    if s.len() > 0 {
        assert(forall|j: int| 0 <= j < s.drop_last().len() ==> amt(s.drop_last()[j]) >= 0);
        lemma_key_credit_nonneg(s.drop_last(), k, key, amt);
    }
}

/// With nonnegative amounts, a prefix credits a key no more than the whole
/// list does.
proof fn lemma_key_credit_prefix<T>(
    s: Seq<T>,
    k: Seq<u8>,
    key: spec_fn(T) -> Seq<u8>,
    amt: spec_fn(T) -> int,
    i: int,
)
    requires
        forall|j: int| 0 <= j < s.len() ==> amt(s[j]) >= 0,
        0 <= i <= s.len(),
    ensures
        key_credit(s.take(i), k, key, amt) <= key_credit(s, k, key, amt),
    decreases s.len(),
{
    if i == s.len() {
        assert(s.take(i) =~= s);
    } else {
        assert(forall|j: int| 0 <= j < s.drop_last().len() ==> amt(s.drop_last()[j]) >= 0);
        assert(s.drop_last().take(i) =~= s.take(i));
        lemma_key_credit_prefix(s.drop_last(), k, key, amt, i);
    }
}

/// Crediting a list moves the total at each key by exactly what the list
/// credits to that key.
proof fn lemma_credit_all_total_of<T>(
    m: Map<Seq<u8>, int>,
    s: Seq<T>,
    key: spec_fn(T) -> Seq<u8>,
    amt: spec_fn(T) -> int,
    k: Seq<u8>,
)
    ensures
        total_of(credit_all(m, s, key, amt), k) == total_of(m, k) + key_credit(s, k, key, amt),
    decreases s.len(),
{
    if s.len() > 0 {
        lemma_credit_all_total_of(m, s.drop_last(), key, amt, k);
    }
}

/// A mapping identity to aggregated total amount: the authoritative wealth
/// figure. Holds one entry per identity; its mathematical view is the map
/// from address bytes to total.
pub struct BalanceMap {
    entries: Vec<(Vec<u8>, u128)>,
}

impl View for BalanceMap {
    type V = Map<Seq<u8>, int>;

    closed spec fn view(&self) -> Map<Seq<u8>, int> {
        entries_map(self.entries@)
    }
}

impl BalanceMap {
    /// The entry list behind the mapping, as address bytes/amount pairs.
    pub closed spec fn entry_seq(&self) -> Seq<(Seq<u8>, u128)> {
        self.entries@.map_values(|p: (Vec<u8>, u128)| (p.0@, p.1))
    }

    /// The sum of every total in the mapping.
    pub closed spec fn total(&self) -> int {
        entries_total(self.entries@)
    }

    /// A well-formed mapping holds no repeated identity.
    pub closed spec fn wf(&self) -> bool {
        unique_keys(self.entries@)
    }

    pub fn new() -> (r: BalanceMap)
        ensures
            r.wf(),
            r@ =~= Map::<Seq<u8>, int>::empty(),
            r.total() == 0,
            r.entry_seq() =~= Seq::<(Seq<u8>, u128)>::empty(),
    {
        BalanceMap { entries: Vec::new() }
    }

    /// How many identities the mapping holds.
    pub fn len(&self) -> (r: usize)
        ensures
            r == self.entry_seq().len(),
    {
        self.entries.len()
    }

    /// The aggregated total of `key`, if the identity is present.
    pub fn get(&self, key: &Vec<u8>) -> (r: Option<u128>)
        requires
            self.wf(),
        ensures
            match r {
                Some(v) => self@.dom().contains(key@) && self@[key@] == v as int,
                None => !self@.dom().contains(key@),
            },
    {
        let n = self.entries.len();
        for i in 0..n
            invariant
                n == self.entries@.len(),
                self.wf(),
                forall|j: int| 0 <= j < i ==> self.entries@[j].0@ != key@,
        {
            let pair = &self.entries[i];
            if crate::tree::bytes_eq(&pair.0, key) {
                proof {
                    lemma_entries_map_at(self.entries@, i as int);
                }
                return Some(pair.1);
            }
        }
        proof {
            lemma_entries_map_dom(self.entries@, key@);
        }
        None
    }

    /// Adds `v` to the total of `key`, creating the entry at 0 if absent.
    /// Only the one entry being credited must stay within `u128`.
    fn bump(&mut self, key: &Vec<u8>, v: u128)
        requires
            old(self).wf(),
            total_of(old(self)@, key@) + v <= u128::MAX,
        ensures
            final(self).wf(),
            final(self)@ =~= bump_map(old(self)@, key@, v as int),
            final(self).total() == old(self).total() + v,
    {
        let ghost s0 = self.entries@;
        let n = self.entries.len();
        for i in 0..n
            invariant
                self.entries@ == s0,
                s0 == old(self).entries@,
                n == s0.len(),
                unique_keys(s0),
                total_of(entries_map(s0), key@) + v <= u128::MAX,
                forall|j: int| 0 <= j < i ==> s0[j].0@ != key@,
        {
            let hit = crate::tree::bytes_eq(&self.entries[i].0, key);
            if hit {
                proof {
                    lemma_entries_map_at(s0, i as int);
                }
                let cur: u128 = self.entries[i].1;
                let k = copy_bytes(&self.entries[i].0);
                self.entries[i] = (k, cur + v);
                proof {
                    lemma_entries_map_update(s0, i as int, self.entries@[i as int]);
                    assert(self@ =~= bump_map(entries_map(s0), key@, v as int));
                }
                return ;
            }
        }
        proof {
            lemma_entries_map_dom(s0, key@);
        }
        let k = copy_bytes(key);
        self.entries.push((k, v));
        proof {
            assert(self.entries@.drop_last() =~= s0);
            assert(self@ =~= bump_map(entries_map(s0), key@, v as int));
        }
    }
}


/// Merges per-identity balances and outgoing stake into one totals mapping:
/// every stake edge credits its `from` identity (stake received is never
/// credited to the recipient), then every account credits its own identity
/// with free plus reserved plus frozen. Only each identity's own credited
/// total must fit a `u128`. The sum of the resulting totals is exactly the
/// sum of what was credited: the total issuance.
pub fn aggregate(accounts: &Vec<(Vec<u8>, Account)>, stake: &Vec<(Vec<u8>, Vec<u8>, u128)>) -> (r:
    BalanceMap)
    requires
        forall|k: Seq<u8>|
            identity_credit(account_pairs_view(accounts@), stake_triples_view(stake@), k)
                <= u128::MAX,
    ensures
        r.wf(),
        r@ == aggregate_totals(account_pairs_view(accounts@), stake_triples_view(stake@)),
        r.total() == account_total(account_pairs_view(accounts@)) + stake_total(
            stake_triples_view(stake@),
        ),
{
    let ghost sv = stake_triples_view(stake@);
    let ghost av = account_pairs_view(accounts@);
    let mut r = BalanceMap::new();
    proof {
        assert(sv.take(0) =~= Seq::<(Seq<u8>, Seq<u8>, u128)>::empty());
    }
    for i in 0..stake.len()
        invariant
            sv == stake_triples_view(stake@),
            av == account_pairs_view(accounts@),
            stake@.len() == sv.len(),
            forall|k: Seq<u8>| identity_credit(av, sv, k) <= u128::MAX,
            r.wf(),
            r@ == credit_all(Map::<Seq<u8>, int>::empty(), sv.take(i as int), stake_key_fn(), stake_amt_fn()),
            r.total() == credit_total(sv.take(i as int), stake_amt_fn()),
    {
        proof {
            assert(sv[i as int] == (stake@[i as int].0@, stake@[i as int].1@, stake@[i as int].2));
            assert(forall|j: int| 0 <= j < sv.len() ==> stake_amt_fn()(sv[j]) >= 0);
            assert(forall|j: int| 0 <= j < av.len() ==> account_amt_fn()(av[j]) >= 0);
            assert(sv.take(i + 1).drop_last() =~= sv.take(i as int));
            assert(sv.take(i + 1).last() == sv[i as int]);
            let k = stake_key_fn()(sv[i as int]);
            lemma_credit_all_total_of(
                Map::<Seq<u8>, int>::empty(),
                sv.take(i as int),
                stake_key_fn(),
                stake_amt_fn(),
                k,
            );
            lemma_key_credit_prefix(sv, k, stake_key_fn(), stake_amt_fn(), i + 1);
            lemma_key_credit_nonneg(av, k, account_key_fn(), account_amt_fn());
            assert(identity_credit(av, sv, k) <= u128::MAX);
            assert(total_of(r@, k) + sv[i as int].2 <= u128::MAX);
        }
        let e = &stake[i];
        r.bump(&e.0, e.2);
    }
    proof {
        assert(sv.take(stake@.len() as int) =~= sv);
        assert(av.take(0) =~= Seq::<(Seq<u8>, Account)>::empty());
    }
    let ghost m1 = credit_all(Map::<Seq<u8>, int>::empty(), sv, stake_key_fn(), stake_amt_fn());
    for i in 0..accounts.len()
        invariant
            sv == stake_triples_view(stake@),
            av == account_pairs_view(accounts@),
            accounts@.len() == av.len(),
            forall|k: Seq<u8>| identity_credit(av, sv, k) <= u128::MAX,
            m1 == credit_all(Map::<Seq<u8>, int>::empty(), sv, stake_key_fn(), stake_amt_fn()),
            r.wf(),
            r@ == credit_all(m1, av.take(i as int), account_key_fn(), account_amt_fn()),
            r.total() == stake_total(sv) + credit_total(av.take(i as int), account_amt_fn()),
    {
        proof {
            assert(av[i as int] == (accounts@[i as int].0@, accounts@[i as int].1));
            assert(forall|j: int| 0 <= j < av.len() ==> account_amt_fn()(av[j]) >= 0);
            assert(av.take(i + 1).drop_last() =~= av.take(i as int));
            assert(av.take(i + 1).last() == av[i as int]);
            let k = account_key_fn()(av[i as int]);
            lemma_credit_all_total_of(m1, av.take(i as int), account_key_fn(), account_amt_fn(), k);
            lemma_credit_all_total_of(
                Map::<Seq<u8>, int>::empty(),
                sv,
                stake_key_fn(),
                stake_amt_fn(),
                k,
            );
            lemma_key_credit_prefix(av, k, account_key_fn(), account_amt_fn(), i + 1);
            assert(identity_credit(av, sv, k) <= u128::MAX);
            assert(total_of(r@, k) + account_amt_fn()(av[i as int]) <= u128::MAX);
        }
        let e = &accounts[i];
        let a = &e.1;
        let contribution: u128 = (a.data.free as u128) + (a.data.reserved as u128) + (
        a.data.frozen as u128);
        r.bump(&e.0, contribution);
    }
    proof {
        assert(av.take(accounts@.len() as int) =~= av);
    }
    r
}


/// Crediting two contributions commutes: totals only accumulate.
proof fn lemma_bump_map_comm(m: Map<Seq<u8>, int>, k1: Seq<u8>, v1: int, k2: Seq<u8>, v2: int)
    ensures
        bump_map(bump_map(m, k1, v1), k2, v2) =~= bump_map(bump_map(m, k2, v2), k1, v1),
{
}

/// Crediting a list equals crediting the list without element `j`, then
/// crediting element `j` last.
proof fn lemma_credit_all_extract<T>(
    m: Map<Seq<u8>, int>,
    s: Seq<T>,
    key: spec_fn(T) -> Seq<u8>,
    amt: spec_fn(T) -> int,
    j: int,
)
    requires
        0 <= j < s.len(),
    ensures
        credit_all(m, s, key, amt) == bump_map(
            credit_all(m, s.remove(j), key, amt),
            key(s[j]),
            amt(s[j]),
        ),
    decreases s.len(),
{
    if j == s.len() - 1 {
        assert(s.remove(j) =~= s.drop_last());
    } else {
        lemma_credit_all_extract(m, s.drop_last(), key, amt, j);
        assert(s.drop_last()[j] == s[j]);
        lemma_bump_map_comm(
            credit_all(m, s.drop_last().remove(j), key, amt),
            key(s[j]),
            amt(s[j]),
            key(s.last()),
            amt(s.last()),
        );
        let x = s.drop_last().remove(j).push(s.last());
        assert(x.drop_last() =~= s.drop_last().remove(j));
        assert(credit_all(m, x, key, amt) == bump_map(
            credit_all(m, s.drop_last().remove(j), key, amt),
            key(s.last()),
            amt(s.last()),
        ));
        assert(x =~= s.remove(j));
    }
}

/// Crediting the same multiset of contributions, in any order, yields the
/// same totals.
proof fn lemma_credit_all_permutation<T>(
    m: Map<Seq<u8>, int>,
    s1: Seq<T>,
    s2: Seq<T>,
    key: spec_fn(T) -> Seq<u8>,
    amt: spec_fn(T) -> int,
)
    requires
        s1.to_multiset() == s2.to_multiset(),
    ensures
        credit_all(m, s1, key, amt) == credit_all(m, s2, key, amt),
    decreases s1.len(),
{
    broadcast use vstd::seq_lib::group_to_multiset_ensures;

    if s1.len() == 0 {
        assert(s1.to_multiset().len() == s1.len());
        assert(s2.to_multiset().len() == s2.len());
        assert(s2.len() == 0);
    } else {
        let x = s1.last();
        assert(s1[s1.len() - 1] == x);
        assert(s1.contains(x));
        assert(s1.to_multiset().count(x) > 0);
        assert(s2.to_multiset().count(x) > 0);
        assert(s2.contains(x));
        let j = choose|j: int| 0 <= j < s2.len() && s2[j] == x;
        lemma_credit_all_extract(m, s2, key, amt, j);
        assert(s1.drop_last() =~= s1.remove(s1.len() - 1));
        assert(s1.remove(s1.len() - 1).to_multiset() == s1.to_multiset().remove(x));
        assert(s2.remove(j).to_multiset() == s2.to_multiset().remove(x));
        lemma_credit_all_permutation(m, s1.drop_last(), s2.remove(j), key, amt);
    }
}

/// Aggregation is order-independent: permuting the account collection and
/// the stake collection yields an identical totals mapping.
pub proof fn lemma_aggregate_order_independent(
    accounts1: Seq<(Seq<u8>, Account)>,
    stake1: Seq<(Seq<u8>, Seq<u8>, u128)>,
    accounts2: Seq<(Seq<u8>, Account)>,
    stake2: Seq<(Seq<u8>, Seq<u8>, u128)>,
)
    requires
        accounts1.to_multiset() == accounts2.to_multiset(),
        stake1.to_multiset() == stake2.to_multiset(),
    ensures
        aggregate_totals(accounts1, stake1) == aggregate_totals(accounts2, stake2),
{
    lemma_credit_all_permutation(
        Map::<Seq<u8>, int>::empty(),
        stake1,
        stake2,
        stake_key_fn(),
        stake_amt_fn(),
    );
    lemma_credit_all_permutation(
        credit_all(Map::<Seq<u8>, int>::empty(), stake1, stake_key_fn(), stake_amt_fn()),
        accounts1,
        accounts2,
        account_key_fn(),
        account_amt_fn(),
    );
}


/// The deep view of an address/amount list: each address as its bytes.
pub open spec fn amount_pairs_view(s: Seq<(Vec<u8>, u128)>) -> Seq<(Seq<u8>, u128)> {
    s.map_values(|p: (Vec<u8>, u128)| (p.0@, p.1))
}

/// The sum of the amounts in an address/amount list.
pub open spec fn sum_amounts(s: Seq<(Seq<u8>, u128)>) -> int
    decreases s.len(),
{
    if s.len() == 0 {
        0
    } else {
        sum_amounts(s.drop_last()) + s.last().1
    }
}

proof fn lemma_sum_amounts_view(s: Seq<(Vec<u8>, u128)>)
    ensures
        sum_amounts(amount_pairs_view(s)) == entries_total(s),
    decreases s.len(),
{
    if s.len() > 0 {
        lemma_sum_amounts_view(s.drop_last());
        assert(amount_pairs_view(s).drop_last() =~= amount_pairs_view(s.drop_last()));
        assert(amount_pairs_view(s).last() == (s.last().0@, s.last().1));
    }
}

proof fn lemma_sum_amounts_nonneg(s: Seq<(Seq<u8>, u128)>)
    ensures
        sum_amounts(s) >= 0,
    decreases s.len(),
{
    if s.len() > 0 {
        lemma_sum_amounts_nonneg(s.drop_last());
    }
}

/// A prefix never sums to more than the whole list.
proof fn lemma_sum_amounts_prefix(s: Seq<(Seq<u8>, u128)>, i: int)
    requires
        0 <= i <= s.len(),
    ensures
        0 <= sum_amounts(s.take(i)) <= sum_amounts(s),
    decreases s.len(),
{
    if i == s.len() {
        assert(s.take(i) =~= s);
        lemma_sum_amounts_nonneg(s);
    } else {
        assert(s.drop_last().take(i) =~= s.take(i));
        lemma_sum_amounts_prefix(s.drop_last(), i);
    }
}

/// The identities a dust report keeps: those whose aggregated total falls
/// below the existential threshold, in entry order.
pub open spec fn dust_list(s: Seq<(Seq<u8>, u128)>, threshold: u128) -> Seq<(Seq<u8>, u128)>
    decreases s.len(),
{
    if s.len() == 0 {
        Seq::empty()
    } else {
        let rest = dust_list(s.drop_last(), threshold);
        if s.last().1 < threshold {
            rest.push(s.last())
        } else {
            rest
        }
    }
}

/// The dust entries sum to no more than all entries.
proof fn lemma_dust_le_sum(s: Seq<(Seq<u8>, u128)>, threshold: u128)
    ensures
        0 <= sum_amounts(dust_list(s, threshold)) <= sum_amounts(s),
    decreases s.len(),
{
    if s.len() == 0 {
    } else {
        lemma_dust_le_sum(s.drop_last(), threshold);
        if s.last().1 < threshold {
            assert(dust_list(s, threshold).drop_last() =~= dust_list(s.drop_last(), threshold));
            assert(dust_list(s, threshold).last() == s.last());
        }
    }
}

impl BalanceMap {
    /// The sum of every identity's aggregated total: the total issuance.
    pub fn total_issuance(&self) -> (r: u128)
        requires
            self.total() <= u128::MAX,
        ensures
            r as int == self.total(),
            r as int == sum_amounts(self.entry_seq()),
    {
        let ghost es = self.entry_seq();
        let mut sum: u128 = 0;
        let n = self.entries.len();
        proof {
            lemma_sum_amounts_view(self.entries@);
            assert(es.take(0) =~= Seq::<(Seq<u8>, u128)>::empty());
        }
        for i in 0..n
            invariant
                n == self.entries@.len(),
                es == self.entry_seq(),
                es.len() == n,
                sum_amounts(es) == self.total() <= u128::MAX,
                sum as int == sum_amounts(es.take(i as int)),
        {
            proof {
                lemma_sum_amounts_prefix(es, i + 1);
                assert(es.take(i + 1).drop_last() =~= es.take(i as int));
                assert(es.take(i + 1).last() == es[i as int]);
                assert(es[i as int] == (self.entries@[i as int].0@, self.entries@[i as int].1));
            }
            sum = sum + self.entries[i].1;
        }
        proof {
            assert(es.take(n as int) =~= es);
        }
        sum
    }

    /// Counts and sums the dust accounts: the identities whose aggregated
    /// total falls below `threshold`.
    pub fn dust_accounts(&self, threshold: u128) -> (r: (usize, u128))
        requires
            self.total() <= u128::MAX,
        ensures
            r.0 == dust_list(self.entry_seq(), threshold).len(),
            r.1 as int == sum_amounts(dust_list(self.entry_seq(), threshold)),
    {
        let ghost es = self.entry_seq();
        let mut count: usize = 0;
        let mut sum: u128 = 0;
        let n = self.entries.len();
        proof {
            lemma_sum_amounts_view(self.entries@);
            assert(es.take(0) =~= Seq::<(Seq<u8>, u128)>::empty());
        }
        for i in 0..n
            invariant
                n == self.entries@.len(),
                es == self.entry_seq(),
                es.len() == n,
                sum_amounts(es) == self.total() <= u128::MAX,
                count == dust_list(es.take(i as int), threshold).len(),
                sum as int == sum_amounts(dust_list(es.take(i as int), threshold)),
                count <= i,
        {
            proof {
                assert(es.take(i + 1).drop_last() =~= es.take(i as int));
                assert(es.take(i + 1).last() == es[i as int]);
                assert(es[i as int] == (self.entries@[i as int].0@, self.entries@[i as int].1));
                lemma_dust_le_sum(es.take(i + 1), threshold);
                lemma_sum_amounts_prefix(es, i + 1);
                if es[i as int].1 < threshold {
                    assert(dust_list(es.take(i + 1), threshold).drop_last() =~= dust_list(
                        es.take(i as int),
                        threshold,
                    ));
                }
            }
            if self.entries[i].1 < threshold {
                count = count + 1;
                sum = sum + self.entries[i].1;
            }
        }
        proof {
            assert(es.take(n as int) =~= es);
        }
        (count, sum)
    }
}


/// Byte-wise lexicographic order on addresses: the natural key order that
/// breaks ranking ties.
pub open spec fn lex_le(a: Seq<u8>, b: Seq<u8>) -> bool
    decreases a.len(),
{
    if a.len() == 0 {
        true
    } else if b.len() == 0 {
        false
    } else if a[0] < b[0] {
        true
    } else if a[0] > b[0] {
        false
    } else {
        lex_le(a.drop_first(), b.drop_first())
    }
}

/// Ranking order: descending by aggregated total, ties broken by ascending
/// key order.
pub open spec fn rank_le(x: (Seq<u8>, u128), y: (Seq<u8>, u128)) -> bool {
    x.1 > y.1 || (x.1 == y.1 && lex_le(x.0, y.0))
}

/// `x` inserted in front of the first element it ranks no worse than.
pub open spec fn insert_ranked(s: Seq<(Seq<u8>, u128)>, x: (Seq<u8>, u128)) -> Seq<(Seq<u8>, u128)>
    decreases s.len(),
{
    if s.len() == 0 {
        seq![x]
    } else if rank_le(x, s[0]) {
        seq![x].add(s)
    } else {
        seq![s[0]].add(insert_ranked(s.drop_first(), x))
    }
}

/// The entries ranked: descending by total, ties by ascending key, obtained
/// by inserting each entry in turn into its ranked position.
pub open spec fn ranked(s: Seq<(Seq<u8>, u128)>) -> Seq<(Seq<u8>, u128)>
    decreases s.len(),
{
    if s.len() == 0 {
        Seq::empty()
    } else {
        insert_ranked(ranked(s.drop_last()), s.last())
    }
}

fn lex_le_exec(a: &Vec<u8>, b: &Vec<u8>) -> (r: bool)
    ensures
        r == lex_le(a@, b@),
{
    let n = a.len();
    proof {
        assert(a@.skip(0) =~= a@);
        assert(b@.skip(0) =~= b@);
    }
    for i in 0..n
        invariant
            n == a@.len(),
            i <= b@.len(),
            lex_le(a@, b@) == lex_le(a@.skip(i as int), b@.skip(i as int)),
    {
        proof {
            assert(a@.skip(i as int).len() > 0);
            assert(a@.skip(i as int)[0] == a@[i as int]);
        }
        if i == b.len() {
            return false;
        }
        proof {
            assert(b@.skip(i as int).len() > 0);
            assert(b@.skip(i as int)[0] == b@[i as int]);
        }
        if a[i] < b[i] {
            return true;
        }
        if a[i] > b[i] {
            return false;
        }
        proof {
            assert(a@.skip(i as int).drop_first() =~= a@.skip(i + 1));
            assert(b@.skip(i as int).drop_first() =~= b@.skip(i + 1));
        }
    }
    proof {
        assert(a@.skip(n as int).len() == 0);
    }
    true
}

fn rank_le_exec(x: &(Vec<u8>, u128), y: &(Vec<u8>, u128)) -> (r: bool)
    ensures
        r == rank_le((x.0@, x.1), (y.0@, y.1)),
{
    if x.1 > y.1 {
        true
    } else if x.1 == y.1 {
        lex_le_exec(&x.0, &y.0)
    } else {
        false
    }
}

/// Inserting at the first position whose element ranks no better than `x`
/// is exactly the ranked insertion.
proof fn lemma_insert_at_rank(s: Seq<(Seq<u8>, u128)>, x: (Seq<u8>, u128), p: int)
    requires
        0 <= p <= s.len(),
        forall|j: int| 0 <= j < p ==> !rank_le(x, s[j]),
        p < s.len() ==> rank_le(x, s[p]),
    ensures
        insert_ranked(s, x) == s.insert(p, x),
    decreases p,
{
    if p == 0 {
        if s.len() == 0 {
            assert(insert_ranked(s, x) =~= s.insert(0, x));
        } else {
            assert(seq![x].add(s) =~= s.insert(0, x));
        }
    } else {
        assert(!rank_le(x, s[0]));
        lemma_insert_at_rank(s.drop_first(), x, p - 1);
        assert(forall|j: int| 0 <= j < p - 1 ==> s.drop_first()[j] == s[j + 1]);
        assert(seq![s[0]].add(s.drop_first().insert(p - 1, x)) =~= s.insert(p, x));
    }
}

proof fn lemma_insert_ranked_len(s: Seq<(Seq<u8>, u128)>, x: (Seq<u8>, u128))
    ensures
        insert_ranked(s, x).len() == s.len() + 1,
    decreases s.len(),
{
    if s.len() > 0 && !rank_le(x, s[0]) {
        lemma_insert_ranked_len(s.drop_first(), x);
    }
}

/// Ranking keeps every entry: same length in, same length out.
proof fn lemma_ranked_len(s: Seq<(Seq<u8>, u128)>)
    ensures
        ranked(s).len() == s.len(),
    decreases s.len(),
{
    if s.len() > 0 {
        lemma_ranked_len(s.drop_last());
        lemma_insert_ranked_len(ranked(s.drop_last()), s.last());
    }
}

impl BalanceMap {
    /// Every entry of the mapping, ranked descending by total with ties in
    /// ascending key order: stable and deterministic for a fixed mapping.
    pub fn ranked_entries(&self) -> (r: Vec<(Vec<u8>, u128)>)
        ensures
            amount_pairs_view(r@) == ranked(self.entry_seq()),
            ranked_ok(amount_pairs_view(r@)),
            amount_pairs_view(r@).to_multiset() == self.entry_seq().to_multiset(),
    {
        proof {
            lemma_ranked_is_ordered_permutation(self.entry_seq());
        }
        let ghost es = self.entry_seq();
        let mut out: Vec<(Vec<u8>, u128)> = Vec::new();
        let n = self.entries.len();
        proof {
            assert(es.take(0) =~= Seq::<(Seq<u8>, u128)>::empty());
            assert(amount_pairs_view(out@) =~= ranked(es.take(0)));
        }
        for i in 0..n
            invariant
                n == self.entries@.len(),
                es == self.entry_seq(),
                es.len() == n,
                amount_pairs_view(out@) =~= ranked(es.take(i as int)),
        {
            let e = &self.entries[i];
            let key = copy_bytes(&e.0);
            let x = (key, e.1);
            let ghost xv = (x.0@, x.1);
            proof {
                assert(es[i as int] == (self.entries@[i as int].0@, self.entries@[i as int].1));
                assert(xv == es[i as int]);
            }
            let mut p: usize = 0;
            let m = out.len();
            while p < m
                invariant
                    m == out@.len(),
                    0 <= p <= m,
                    xv == (x.0@, x.1),
                    forall|j: int|
                        0 <= j < p ==> !rank_le(xv, amount_pairs_view(out@)[j]),
                ensures
                    m == out@.len(),
                    0 <= p <= m,
                    forall|j: int|
                        0 <= j < p ==> !rank_le(xv, amount_pairs_view(out@)[j]),
                    p < m ==> rank_le(xv, amount_pairs_view(out@)[p as int]),
                decreases m - p,
            {
                let stop = rank_le_exec(&x, &out[p]);
                proof {
                    assert(amount_pairs_view(out@)[p as int] == (out@[p as int].0@, out@[p as int].1));
                }
                if stop {
                    break ;
                }
                p = p + 1;
            }
            proof {
                lemma_insert_at_rank(amount_pairs_view(out@), xv, p as int);
            }
            let ghost before = out@;
            out.insert(p, x);
            proof {
                assert(out@ =~= before.insert(p as int, x));
                assert(amount_pairs_view(before.insert(p as int, x)) =~= amount_pairs_view(
                    before,
                ).insert(p as int, xv));
                assert(es.take(i + 1).drop_last() =~= es.take(i as int));
                assert(es.take(i + 1).last() == es[i as int]);
                assert(amount_pairs_view(out@) =~= ranked(es.take(i + 1)));
            }
        }
        proof {
            assert(es.take(n as int) =~= es);
        }
        out
    }

    /// The `n` highest-ranked entries (all of them when fewer exist), in
    /// ranking order.
    pub fn top_n(&self, n: usize) -> (r: Vec<(Vec<u8>, u128)>)
        ensures
            amount_pairs_view(r@) == ranked(self.entry_seq()).take(
                if n <= self.entry_seq().len() {
                    n as int
                } else {
                    self.entry_seq().len() as int
                },
            ),
    {
        let mut sorted = self.ranked_entries();
        let ghost full = amount_pairs_view(sorted@);
        proof {
            lemma_ranked_len(self.entry_seq());
        }
        if n < sorted.len() {
            sorted.truncate(n);
            proof {
                assert(amount_pairs_view(sorted@) =~= full.take(n as int));
            }
        } else {
            proof {
                assert(full.take(full.len() as int) =~= full);
            }
        }
        sorted
    }
}


/// No two entries of an address/amount list carry the same address.
pub open spec fn unique_addrs(s: Seq<(Seq<u8>, u128)>) -> bool {
    forall|i: int, j: int| 0 <= i < j < s.len() ==> s[i].0 != s[j].0
}

impl BalanceMap {
    /// The entry list behind the mapping, borrowed.
    pub(crate) fn raw_entries(&self) -> (r: &Vec<(Vec<u8>, u128)>)
        ensures
            amount_pairs_view(r@) == self.entry_seq(),
    {
        &self.entries
    }

    /// Wraps an entry list as a totals mapping, the entries taken as they
    /// stand.
    pub(crate) fn from_entries(entries: Vec<(Vec<u8>, u128)>) -> (r: BalanceMap)
        ensures
            r.entry_seq() == amount_pairs_view(entries@),
    {
        BalanceMap { entries }
    }
}

/// A totals mapping is well-formed exactly when its entry list repeats no
/// address.
pub proof fn lemma_wf_is_unique_addrs(m: &BalanceMap)
    ensures
        m.wf() <==> unique_addrs(m.entry_seq()),
{
    let es = m.entry_seq();
    assert(forall|i: int|
        0 <= i < m.entries@.len() ==> (#[trigger] es[i]) == (m.entries@[i].0@, m.entries@[i].1));
    if unique_addrs(es) {
        assert forall|i: int, j: int|
            0 <= i < j < m.entries@.len() implies (#[trigger] m.entries@[i]).0@ != (
        #[trigger] m.entries@[j]).0@ by {
            assert(es[i].0 == m.entries@[i].0@);
            assert(es[j].0 == m.entries@[j].0@);
            assert(es[i].0 != es[j].0);
        }
    }
    if unique_keys(m.entries@) {
        assert forall|i: int, j: int|
            0 <= i < j < es.len() implies (#[trigger] es[i]).0 != (#[trigger] es[j]).0 by {
            assert(es[i].0 == m.entries@[i].0@);
            assert(es[j].0 == m.entries@[j].0@);
        }
    }
}

/// Any two addresses compare under the key order.
proof fn lemma_lex_le_total(a: Seq<u8>, b: Seq<u8>)
    ensures
        lex_le(a, b) || lex_le(b, a),
    decreases a.len(),
{
    if a.len() > 0 && b.len() > 0 && a[0] == b[0] {
        lemma_lex_le_total(a.drop_first(), b.drop_first());
    }
}

/// The key order is transitive.
proof fn lemma_lex_le_trans(a: Seq<u8>, b: Seq<u8>, c: Seq<u8>)
    requires
        lex_le(a, b),
        lex_le(b, c),
    ensures
        lex_le(a, c),
    decreases a.len(),
{
    if a.len() > 0 && b.len() > 0 && c.len() > 0 && a[0] == b[0] && b[0] == c[0] {
        lemma_lex_le_trans(a.drop_first(), b.drop_first(), c.drop_first());
    }
}

/// Any two entries compare under the ranking order.
proof fn lemma_rank_le_total(x: (Seq<u8>, u128), y: (Seq<u8>, u128))
    ensures
        rank_le(x, y) || rank_le(y, x),
{
    lemma_lex_le_total(x.0, y.0);
}

/// The ranking order is transitive.
proof fn lemma_rank_le_trans(x: (Seq<u8>, u128), y: (Seq<u8>, u128), z: (Seq<u8>, u128))
    requires
        rank_le(x, y),
        rank_le(y, z),
    ensures
        rank_le(x, z),
{
    if x.1 == y.1 && y.1 == z.1 {
        lemma_lex_le_trans(x.0, y.0, z.0);
    }
}

/// Every pair of entries stands in ranking order.
pub open spec fn ranked_ok(s: Seq<(Seq<u8>, u128)>) -> bool {
    forall|i: int, j: int| 0 <= i < j < s.len() ==> rank_le(s[i], s[j])
}

/// Ranked insertion keeps the list ordered and adds exactly the new entry.
proof fn lemma_insert_ranked_sorted(s: Seq<(Seq<u8>, u128)>, x: (Seq<u8>, u128))
    requires
        ranked_ok(s),
    ensures
        ranked_ok(insert_ranked(s, x)),
        insert_ranked(s, x).to_multiset() == s.to_multiset().insert(x),
    decreases s.len(),
{
    broadcast use vstd::seq_lib::group_to_multiset_ensures;

    let t = insert_ranked(s, x);
    if s.len() == 0 {
        assert(seq![x] =~= Seq::<(Seq<u8>, u128)>::empty().push(x));
        assert(t.to_multiset() =~= s.to_multiset().insert(x));
    } else if rank_le(x, s[0]) {
        assert(t =~= s.insert(0, x));
        assert(s.insert(0, x).to_multiset() == s.to_multiset().insert(x));
        assert forall|i: int, j: int| 0 <= i < j < t.len() implies rank_le(t[i], t[j]) by {
            if i == 0 {
                if j > 1 {
                    lemma_rank_le_trans(x, s[0], s[j - 1]);
                }
            }
        }
    } else {
        assert(forall|i: int, j: int|
            0 <= i < j < s.drop_first().len() ==> rank_le(
                #[trigger] s.drop_first()[i],
                #[trigger] s.drop_first()[j],
            ));
        lemma_insert_ranked_sorted(s.drop_first(), x);
        let u = insert_ranked(s.drop_first(), x);
        lemma_rank_le_total(x, s[0]);
        assert forall|i: int, j: int| 0 <= i < j < t.len() implies rank_le(t[i], t[j]) by {
            if i == 0 {
                assert(t[j] == u[j - 1]);
                assert(u.to_multiset().count(u[j - 1]) > 0);
                assert(u.to_multiset() == s.drop_first().to_multiset().insert(x));
                if u[j - 1] == x {
                    assert(rank_le(s[0], x));
                } else {
                    assert(s.drop_first().to_multiset().count(u[j - 1]) > 0);
                    assert(s.drop_first().contains(u[j - 1]));
                    let k = choose|k: int|
                        0 <= k < s.drop_first().len() && s.drop_first()[k] == u[j - 1];
                    assert(s[k + 1] == u[j - 1]);
                    assert(rank_le(s[0], s[k + 1]));
                }
            } else {
                assert(t[i] == u[i - 1] && t[j] == u[j - 1]);
            }
        }
        assert(t =~= u.insert(0, s[0]));
        assert(u.insert(0, s[0]).to_multiset() == u.to_multiset().insert(s[0]));
        assert(s =~= s.drop_first().insert(0, s[0]));
        assert(s.to_multiset() == s.drop_first().to_multiset().insert(s[0]));
        assert(t.to_multiset() =~= s.to_multiset().insert(x));
    }
}

/// The ranking is a true descending sort with ties in ascending key order:
/// every pair of ranked entries stands in ranking order, and the ranked
/// list holds exactly the entries of the mapping.
pub proof fn lemma_ranked_is_ordered_permutation(s: Seq<(Seq<u8>, u128)>)
    ensures
        ranked_ok(ranked(s)),
        ranked(s).to_multiset() == s.to_multiset(),
    decreases s.len(),
{
    broadcast use vstd::seq_lib::group_to_multiset_ensures;

    if s.len() > 0 {
        lemma_ranked_is_ordered_permutation(s.drop_last());
        lemma_insert_ranked_sorted(ranked(s.drop_last()), s.last());
        assert(s =~= s.drop_last().push(s.last()));
        assert(s.drop_last().push(s.last()).to_multiset() == s.drop_last().to_multiset().insert(
            s.last(),
        ));
    }
}


/// The key order is antisymmetric: two addresses below one another are the
/// same address.
proof fn lemma_lex_le_antisym(a: Seq<u8>, b: Seq<u8>)
    requires
        lex_le(a, b),
        lex_le(b, a),
    ensures
        a == b,
    decreases a.len(),
{
    if a.len() == 0 {
        assert(b.len() == 0);
        assert(a =~= b);
    } else {
        assert(a[0] == b[0]);
        lemma_lex_le_antisym(a.drop_first(), b.drop_first());
        assert(a.len() == b.len());
        assert forall|i: int| 0 <= i < a.len() implies a[i] == b[i] by {
            if i > 0 {
                assert(a.drop_first()[i - 1] == b.drop_first()[i - 1]);
            }
        }
        assert(a =~= b);
    }
}

/// The ranking order is antisymmetric: two entries ranked below one
/// another are the same entry.
proof fn lemma_rank_le_antisym(x: (Seq<u8>, u128), y: (Seq<u8>, u128))
    requires
        rank_le(x, y),
        rank_le(y, x),
    ensures
        x == y,
{
    lemma_lex_le_antisym(x.0, y.0);
}

/// Two ordered lists holding the same entries are the same list: a ranking
/// is unique once its contents are fixed.
pub proof fn lemma_ranked_ok_unique(s1: Seq<(Seq<u8>, u128)>, s2: Seq<(Seq<u8>, u128)>)
    requires
        ranked_ok(s1),
        ranked_ok(s2),
        s1.to_multiset() == s2.to_multiset(),
    ensures
        s1 == s2,
    decreases s1.len(),
{
    broadcast use vstd::seq_lib::group_to_multiset_ensures;

    assert(s1.to_multiset().len() == s1.len());
    assert(s2.to_multiset().len() == s2.len());
    if s1.len() == 0 {
        assert(s1 =~= s2);
    } else {
        assert(s1.contains(s1[0]));
        assert(s1.to_multiset().count(s1[0]) > 0);
        assert(s2.contains(s1[0]));
        let j = choose|j: int| 0 <= j < s2.len() && s2[j] == s1[0];
        assert(rank_le(s2[0], s2[j]) || j == 0) by {
            if j > 0 {
                assert(rank_le(s2[0], s2[j]));
            }
        }
        lemma_rank_le_total(s1[0], s2[0]);
        assert(s2.contains(s2[0]));
        assert(s2.to_multiset().count(s2[0]) > 0);
        assert(s1.contains(s2[0]));
        let i = choose|i: int| 0 <= i < s1.len() && s1[i] == s2[0];
        assert(rank_le(s1[0], s1[i]) || i == 0) by {
            if i > 0 {
                assert(rank_le(s1[0], s1[i]));
            }
        }
        if s1[0] != s2[0] {
            assert(rank_le(s1[0], s2[0]) && rank_le(s2[0], s1[0]));
            lemma_rank_le_antisym(s1[0], s2[0]);
        }
        assert(s1[0] == s2[0]);
        assert(s1.remove(0) =~= s1.drop_first());
        assert(s2.remove(0) =~= s2.drop_first());
        assert(s1.drop_first().to_multiset() == s1.to_multiset().remove(s1[0]));
        assert(s2.drop_first().to_multiset() == s2.to_multiset().remove(s2[0]));
        assert(forall|a: int, b: int|
            0 <= a < b < s1.drop_first().len() ==> rank_le(
                #[trigger] s1.drop_first()[a],
                #[trigger] s1.drop_first()[b],
            ));
        assert(forall|a: int, b: int|
            0 <= a < b < s2.drop_first().len() ==> rank_le(
                #[trigger] s2.drop_first()[a],
                #[trigger] s2.drop_first()[b],
            ));
        lemma_ranked_ok_unique(s1.drop_first(), s2.drop_first());
        assert(s1.len() == s2.len());
        assert forall|a: int| 0 <= a < s1.len() implies s1[a] == s2[a] by {
            if a > 0 {
                assert(s1.drop_first()[a - 1] == s2.drop_first()[a - 1]);
            }
        }
        assert(s1 =~= s2);
    }
}

/// A well-formed mapping's entry list is exactly the graph of its view:
/// one entry per key, carrying that key's total, every key present, and no
/// key repeated.
pub proof fn lemma_entry_seq_matches_view(m: &BalanceMap)
    requires
        m.wf(),
    ensures
        unique_addrs(m.entry_seq()),
        forall|i: int|
            0 <= i < m.entry_seq().len() ==> m@.dom().contains(
                (#[trigger] m.entry_seq()[i]).0,
            ) && m@[m.entry_seq()[i].0] == m.entry_seq()[i].1 as int,
        forall|k: Seq<u8>|
            m@.dom().contains(k) ==> exists|i: int|
                0 <= i < m.entry_seq().len() && (#[trigger] m.entry_seq()[i]).0 == k,
{
    lemma_wf_is_unique_addrs(m);
    let es = m.entry_seq();
    assert(forall|i: int|
        0 <= i < m.entries@.len() ==> (#[trigger] es[i]) == (m.entries@[i].0@, m.entries@[i].1));
    assert forall|i: int|
        0 <= i < es.len() implies m@.dom().contains((#[trigger] es[i]).0) && m@[es[i].0]
        == es[i].1 as int by {
        lemma_entries_map_at(m.entries@, i);
    }
    assert forall|k: Seq<u8>| m@.dom().contains(k) implies exists|i: int|
        0 <= i < es.len() && (#[trigger] es[i]).0 == k by {
        lemma_entries_map_dom(m.entries@, k);
        let i = choose|i: int| 0 <= i < m.entries@.len() && m.entries@[i].0@ == k;
        assert(es[i].0 == k);
    }
}

/// The ranking is determined by the mapping alone: two well-formed
/// mappings with the same totals rank their entries identically, so the
/// descending report is deterministic for a fixed aggregation result.
pub proof fn lemma_ranking_determined_by_view(m1: &BalanceMap, m2: &BalanceMap)
    requires
        m1.wf(),
        m2.wf(),
        m1@ == m2@,
    ensures
        ranked(m1.entry_seq()) == ranked(m2.entry_seq()),
{
    broadcast use vstd::seq_lib::group_to_multiset_ensures;

    let s1 = m1.entry_seq();
    let s2 = m2.entry_seq();
    lemma_entry_seq_matches_view(m1);
    lemma_entry_seq_matches_view(m2);
    assert(s1.no_duplicates()) by {
        assert(forall|i: int, j: int|
            0 <= i < j < s1.len() ==> (#[trigger] s1[i]).0 != (#[trigger] s1[j]).0);
    }
    assert(s2.no_duplicates()) by {
        assert(forall|i: int, j: int|
            0 <= i < j < s2.len() ==> (#[trigger] s2[i]).0 != (#[trigger] s2[j]).0);
    }
    s1.lemma_multiset_has_no_duplicates();
    s2.lemma_multiset_has_no_duplicates();
    assert forall|x: (Seq<u8>, u128)| s1.contains(x) implies s2.contains(x) by {
        let i = choose|i: int| 0 <= i < s1.len() && s1[i] == x;
        assert(m1@.dom().contains(x.0) && m1@[x.0] == x.1 as int);
        let j = choose|j: int| 0 <= j < s2.len() && s2[j].0 == x.0;
        assert(s2[j].1 as int == m2@[x.0]);
        assert(s2[j] == x);
    }
    assert forall|x: (Seq<u8>, u128)| s2.contains(x) implies s1.contains(x) by {
        let j = choose|j: int| 0 <= j < s2.len() && s2[j] == x;
        assert(m2@.dom().contains(x.0) && m2@[x.0] == x.1 as int);
        let i = choose|i: int| 0 <= i < s1.len() && s1[i].0 == x.0;
        assert(s1[i].1 as int == m1@[x.0]);
        assert(s1[i] == x);
    }
    assert forall|x: (Seq<u8>, u128)|
        s1.to_multiset().count(x) == #[trigger] s2.to_multiset().count(x) by {
        if s1.contains(x) {
            assert(s1.to_multiset().count(x) == 1);
            assert(s2.to_multiset().count(x) == 1);
        } else {
            assert(!s2.contains(x));
            assert(s1.to_multiset().count(x) == 0);
            assert(s2.to_multiset().count(x) == 0);
        }
    }
    assert(s1.to_multiset() =~= s2.to_multiset());
    lemma_ranked_is_ordered_permutation(s1);
    lemma_ranked_is_ordered_permutation(s2);
    lemma_ranked_ok_unique(ranked(s1), ranked(s2));
}

} // verus!
