use vstd::prelude::*;

verus! {

/// The balance portion of a decoded account record. All amounts are ledger
/// units; `flags` carries the ledger's internal marker bits unchanged.
#[derive(Clone, Copy, Debug, PartialEq, Eq, Structural)]
pub struct AccountData {
    pub free: u64,
    pub reserved: u64,
    pub frozen: u64,
    pub flags: u128,
}

/// One decoded entry of the account namespace. Rebuilt on every snapshot,
/// never mutated in place.
#[derive(Clone, Copy, Debug, PartialEq, Eq, Structural)]
pub struct Account {
    pub nonce: u32,
    pub consumers: u32,
    pub providers: u32,
    pub sufficients: u32,
    pub data: AccountData,
}

/// The wealth an account record itself contributes to its identity's total:
/// free plus reserved plus frozen balance.
pub open spec fn account_contribution(a: Account) -> int {
    a.data.free + a.data.reserved + a.data.frozen
}

/// Mathematical view of an address/account pair list: each address as its
/// byte sequence.
pub open spec fn account_pairs_view(s: Seq<(Vec<u8>, Account)>) -> Seq<(Seq<u8>, Account)> {
    s.map_values(|p: (Vec<u8>, Account)| (p.0@, p.1))
}

/// Mathematical view of a stake edge list `(from, to, amount)`.
pub open spec fn stake_triples_view(s: Seq<(Vec<u8>, Vec<u8>, u128)>) -> Seq<(Seq<u8>, Seq<u8>, u128)> {
    s.map_values(|e: (Vec<u8>, Vec<u8>, u128)| (e.0@, e.1@, e.2))
}

} // verus!
