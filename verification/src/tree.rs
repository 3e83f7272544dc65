use vstd::prelude::*;

use crate::errors::DecodeError;
use crate::ids::Identity;
use crate::records::Account;
use crate::records::AccountData;

verus! {

/// A self-describing decoded value: a scalar leaf, or a composite of named
/// or positionally-ordered children. The remote wire format carries no
/// statically fixed schema, so every decoder walks this tree defensively.
pub enum ValueTree {
    /// A numeric scalar leaf.
    UInt(u128),
    /// A textual scalar leaf.
    Text(Vec<u8>),
    /// A composite whose children carry field names.
    Named(Vec<(Vec<u8>, ValueTree)>),
    /// A composite whose children are identified by position.
    Positional(Vec<ValueTree>),
}

/// The byte a key leaf contributes: the low 8 bits of a numeric scalar,
/// and 0 for any other node.
pub open spec fn leaf_byte(t: ValueTree) -> u8 {
    match t {
        ValueTree::UInt(n) => (n % 256) as u8,
        _ => 0u8,
    }
}

/// The flattened key material of a storage key tree: the key must be a
/// positional composite whose first child is itself a positional composite
/// of byte-valued leaves. Any other shape yields nothing.
pub open spec fn key_leaf_bytes(t: ValueTree) -> Option<Seq<u8>> {
    match t {
        ValueTree::Positional(outer) => {
            if outer@.len() == 0 {
                None
            } else {
                match outer@[0] {
                    ValueTree::Positional(inner) => Some(
                        inner@.map_values(|c: ValueTree| leaf_byte(c)),
                    ),
                    _ => None,
                }
            }
        },
        _ => None,
    }
}

/// What decoding an identity out of a storage key yields: the first 32 of
/// the flattened key bytes, or the exact failure.
pub open spec fn identity_of_key(t: ValueTree) -> Result<Seq<u8>, DecodeError> {
    match key_leaf_bytes(t) {
        Option::None => Err(DecodeError::KeyShape),
        Option::Some(bs) => if bs.len() >= 32 {
            Ok(bs.take(32))
        } else {
            Err(DecodeError::KeyTooShort)
        },
    }
}

/// Decodes an identity embedded in a storage key: descends key, outer
/// composite, first element, inner composite, flattens the byte leaves and
/// takes the first 32. Fewer than 32 bytes, or an unexpected shape, is a
/// per-record failure, never a panic.
pub fn decode_identity_key(key: &ValueTree) -> (r: Result<Identity, DecodeError>)
    ensures
        match r {
            Ok(id) => id.wf() && identity_of_key(*key) == Ok::<Seq<u8>, DecodeError>(id@),
            Err(e) => identity_of_key(*key) == Err::<Seq<u8>, DecodeError>(e),
        },
{
    match key {
        ValueTree::Positional(outer) => {
            if outer.len() == 0 {
                Err(DecodeError::KeyShape)
            } else {
                match &outer[0] {
                    ValueTree::Positional(inner) => {
                        let ghost flat = inner@.map_values(|c: ValueTree| leaf_byte(c));
                        let mut bs: Vec<u8> = Vec::new();
                        for i in 0..inner.len()
                            invariant
                                bs@ =~= flat.take(i as int),
                                flat == inner@.map_values(|c: ValueTree| leaf_byte(c)),
                        {
                            let b: u8 = match &inner[i] {
                                ValueTree::UInt(n) => (*n % 256) as u8,
                                _ => 0u8,
                            };
                            bs.push(b);
                            proof {
                                assert(bs@ =~= flat.take(i + 1));
                            }
                        }
                        proof {
                            assert(bs@ =~= flat);
                        }
                        if bs.len() >= 32 {
                            bs.truncate(32);
                            Ok(Identity::from_bytes(bs))
                        } else {
                            Err(DecodeError::KeyTooShort)
                        }
                    },
                    _ => Err(DecodeError::KeyShape),
                }
            }
        },
        _ => Err(DecodeError::KeyShape),
    }
}

/// The first child carrying `name` in a named composite's child list.
pub open spec fn find_named(cs: Seq<(Vec<u8>, ValueTree)>, name: Seq<u8>) -> Option<ValueTree>
    decreases cs.len(),
{
    if cs.len() == 0 {
        None
    } else if cs[0].0@ == name {
        Some(cs[0].1)
    } else {
        find_named(cs.drop_first(), name)
    }
}

/// The child a record field is read from: by name in a named composite, by
/// position in a positional one. Scalars have no fields.
pub open spec fn get_field(t: ValueTree, name: Seq<u8>, idx: int) -> Option<ValueTree> {
    match t {
        ValueTree::Named(cs) => find_named(cs@, name),
        ValueTree::Positional(cs) => if 0 <= idx < cs@.len() {
            Some(cs@[idx])
        } else {
            None
        },
        _ => None,
    }
}

/// A numeric field coerced to its declared width: present, a numeric leaf,
/// and no wider than `max`.
pub open spec fn uint_field(t: ValueTree, name: Seq<u8>, idx: int, max: u128) -> Result<
    u128,
    DecodeError,
> {
    match get_field(t, name, idx) {
        Option::None => Err(DecodeError::ValueShape),
        Option::Some(f) => match f {
            ValueTree::UInt(n) => if n <= max {
                Ok(n)
            } else {
                Err(DecodeError::FieldTooWide)
            },
            _ => Err(DecodeError::ValueShape),
        },
    }
}

pub(crate) fn bytes_eq(a: &Vec<u8>, b: &Vec<u8>) -> (r: bool)
    ensures
        r == (a@ == b@),
{
    if a.len() != b.len() {
        return false;
    }
    for i in 0..a.len()
        invariant
            a@.len() == b@.len(),
            forall|j: int| 0 <= j < i ==> a@[j] == b@[j],
    {
        if a[i] != b[i] {
            return false;
        }
    }
    proof {
        assert(a@ =~= b@);
    }
    true
}

fn get_field_exec<'a>(t: &'a ValueTree, name: &Vec<u8>, idx: usize) -> (r: Option<&'a ValueTree>)
    ensures
        match r {
            Some(f) => get_field(*t, name@, idx as int) == Some(*f),
            None => get_field(*t, name@, idx as int) is None,
        },
{
    match t {
        ValueTree::Named(cs) => {
            proof {
                assert(cs@.skip(0) =~= cs@);
            }
            for i in 0..cs.len()
                invariant
                    get_field(*t, name@, idx as int) == find_named(cs@, name@),
                    find_named(cs@, name@) == find_named(cs@.skip(i as int), name@),
            {
                proof {
                    assert(cs@.skip(i as int).len() > 0);
                    assert(cs@.skip(i as int)[0] == cs@[i as int]);
                }
                let pair = &cs[i];
                if bytes_eq(&pair.0, name) {
                    proof {
                        assert(find_named(cs@.skip(i as int), name@) == Some(cs@[i as int].1));
                    }
                    return Some(&pair.1);
                }
                proof {
                    assert(cs@.skip(i as int).drop_first() =~= cs@.skip(i + 1));
                }
            }
            proof {
                assert(cs@.skip(cs@.len() as int).len() == 0);
            }
            None
        },
        ValueTree::Positional(cs) => {
            if idx < cs.len() {
                Some(&cs[idx])
            } else {
                None
            }
        },
        _ => None,
    }
}

fn uint_field_exec(t: &ValueTree, name: &Vec<u8>, idx: usize, max: u128) -> (r: Result<
    u128,
    DecodeError,
>)
    ensures
        r == uint_field(*t, name@, idx as int, max),
{
    match get_field_exec(t, name, idx) {
        None => Err(DecodeError::ValueShape),
        Some(f) => match f {
            ValueTree::UInt(n) => if *n <= max {
                Ok(*n)
            } else {
                Err(DecodeError::FieldTooWide)
            },
            _ => Err(DecodeError::ValueShape),
        },
    }
}

/// The bytes of the field name `"nonce"`.
pub open spec fn name_nonce() -> Seq<u8> {
    seq![110u8, 111u8, 110u8, 99u8, 101u8]
}

fn name_nonce_vec() -> (r: Vec<u8>)
    ensures
        r@ == name_nonce(),
{
    let v: Vec<u8> = vec![110u8, 111u8, 110u8, 99u8, 101u8];
    proof {
        assert(v@ =~= name_nonce());
    }
    v
}

/// The bytes of the field name `"consumers"`.
pub open spec fn name_consumers() -> Seq<u8> {
    seq![99u8, 111u8, 110u8, 115u8, 117u8, 109u8, 101u8, 114u8, 115u8]
}

fn name_consumers_vec() -> (r: Vec<u8>)
    ensures
        r@ == name_consumers(),
{
    let v: Vec<u8> = vec![99u8, 111u8, 110u8, 115u8, 117u8, 109u8, 101u8, 114u8, 115u8];
    proof {
        assert(v@ =~= name_consumers());
    }
    v
}

/// The bytes of the field name `"providers"`.
pub open spec fn name_providers() -> Seq<u8> {
    seq![112u8, 114u8, 111u8, 118u8, 105u8, 100u8, 101u8, 114u8, 115u8]
}

fn name_providers_vec() -> (r: Vec<u8>)
    ensures
        r@ == name_providers(),
{
    let v: Vec<u8> = vec![112u8, 114u8, 111u8, 118u8, 105u8, 100u8, 101u8, 114u8, 115u8];
    proof {
        assert(v@ =~= name_providers());
    }
    v
}

/// The bytes of the field name `"sufficients"`.
pub open spec fn name_sufficients() -> Seq<u8> {
    seq![115u8, 117u8, 102u8, 102u8, 105u8, 99u8, 105u8, 101u8, 110u8, 116u8, 115u8]
}

fn name_sufficients_vec() -> (r: Vec<u8>)
    ensures
        r@ == name_sufficients(),
{
    let v: Vec<u8> = vec![115u8, 117u8, 102u8, 102u8, 105u8, 99u8, 105u8, 101u8, 110u8, 116u8, 115u8];
    proof {
        assert(v@ =~= name_sufficients());
    }
    v
}

/// The bytes of the field name `"data"`.
pub open spec fn name_data() -> Seq<u8> {
    seq![100u8, 97u8, 116u8, 97u8]
}

fn name_data_vec() -> (r: Vec<u8>)
    ensures
        r@ == name_data(),
{
    let v: Vec<u8> = vec![100u8, 97u8, 116u8, 97u8];
    proof {
        assert(v@ =~= name_data());
    }
    v
}

/// The bytes of the field name `"free"`.
pub open spec fn name_free() -> Seq<u8> {
    seq![102u8, 114u8, 101u8, 101u8]
}

fn name_free_vec() -> (r: Vec<u8>)
    ensures
        r@ == name_free(),
{
    let v: Vec<u8> = vec![102u8, 114u8, 101u8, 101u8];
    proof {
        assert(v@ =~= name_free());
    }
    v
}

/// The bytes of the field name `"reserved"`.
pub open spec fn name_reserved() -> Seq<u8> {
    seq![114u8, 101u8, 115u8, 101u8, 114u8, 118u8, 101u8, 100u8]
}

fn name_reserved_vec() -> (r: Vec<u8>)
    ensures
        r@ == name_reserved(),
{
    let v: Vec<u8> = vec![114u8, 101u8, 115u8, 101u8, 114u8, 118u8, 101u8, 100u8];
    proof {
        assert(v@ =~= name_reserved());
    }
    v
}

/// The bytes of the field name `"frozen"`.
pub open spec fn name_frozen() -> Seq<u8> {
    seq![102u8, 114u8, 111u8, 122u8, 101u8, 110u8]
}

fn name_frozen_vec() -> (r: Vec<u8>)
    ensures
        r@ == name_frozen(),
{
    let v: Vec<u8> = vec![102u8, 114u8, 111u8, 122u8, 101u8, 110u8];
    proof {
        assert(v@ =~= name_frozen());
    }
    v
}

/// The bytes of the field name `"flags"`.
pub open spec fn name_flags() -> Seq<u8> {
    seq![102u8, 108u8, 97u8, 103u8, 115u8]
}

fn name_flags_vec() -> (r: Vec<u8>)
    ensures
        r@ == name_flags(),
{
    let v: Vec<u8> = vec![102u8, 108u8, 97u8, 103u8, 115u8];
    proof {
        assert(v@ =~= name_flags());
    }
    v
}


/// What decoding an account record out of a value tree yields: the record
/// with every numeric field coerced to its declared width, or the exact
/// failure. Fields are matched by name or by position; the balance block is
/// the fifth field, `"data"`.
pub open spec fn account_of_value(t: ValueTree) -> Result<Account, DecodeError> {
    match uint_field(t, name_nonce(), 0, u32::MAX as u128) {
        Err(e) => Err(e),
        Ok(nonce) => match uint_field(t, name_consumers(), 1, u32::MAX as u128) {
            Err(e) => Err(e),
            Ok(consumers) => match uint_field(t, name_providers(), 2, u32::MAX as u128) {
                Err(e) => Err(e),
                Ok(providers) => match uint_field(t, name_sufficients(), 3, u32::MAX as u128) {
                    Err(e) => Err(e),
                    Ok(sufficients) => match get_field(t, name_data(), 4) {
                        Option::None => Err(DecodeError::ValueShape),
                        Option::Some(d) => match uint_field(d, name_free(), 0, u64::MAX as u128) {
                            Err(e) => Err(e),
                            Ok(free) => match uint_field(d, name_reserved(), 1, u64::MAX as u128) {
                                Err(e) => Err(e),
                                Ok(reserved) => match uint_field(
                                    d,
                                    name_frozen(),
                                    2,
                                    u64::MAX as u128,
                                ) {
                                    Err(e) => Err(e),
                                    Ok(frozen) => match uint_field(d, name_flags(), 3, u128::MAX) {
                                        Err(e) => Err(e),
                                        Ok(flags) => Ok(
                                            Account {
                                                nonce: nonce as u32,
                                                consumers: consumers as u32,
                                                providers: providers as u32,
                                                sufficients: sufficients as u32,
                                                data: AccountData {
                                                    free: free as u64,
                                                    reserved: reserved as u64,
                                                    frozen: frozen as u64,
                                                    flags: flags,
                                                },
                                            },
                                        ),
                                    },
                                },
                            },
                        },
                    },
                },
            },
        },
    }
}

/// Decodes an account record from a value tree, matching the expected field
/// layout by name or by position and coercing each leaf to its declared
/// width. Any mismatch is a per-record failure, never a panic.
pub fn decode_account_value(t: &ValueTree) -> (r: Result<Account, DecodeError>)
    ensures
        r == account_of_value(*t),
{
    let nonce: u128 = match uint_field_exec(t, &name_nonce_vec(), 0, u32::MAX as u128) {
        Ok(n) => n,
        Err(e) => {
            return Err(e);
        },
    };
    let consumers: u128 = match uint_field_exec(t, &name_consumers_vec(), 1, u32::MAX as u128) {
        Ok(n) => n,
        Err(e) => {
            return Err(e);
        },
    };
    let providers: u128 = match uint_field_exec(t, &name_providers_vec(), 2, u32::MAX as u128) {
        Ok(n) => n,
        Err(e) => {
            return Err(e);
        },
    };
    let sufficients: u128 = match uint_field_exec(t, &name_sufficients_vec(), 3, u32::MAX as u128) {
        Ok(n) => n,
        Err(e) => {
            return Err(e);
        },
    };
    let d: &ValueTree = match get_field_exec(t, &name_data_vec(), 4) {
        Some(d) => d,
        None => {
            return Err(DecodeError::ValueShape);
        },
    };
    let free: u128 = match uint_field_exec(d, &name_free_vec(), 0, u64::MAX as u128) {
        Ok(n) => n,
        Err(e) => {
            return Err(e);
        },
    };
    let reserved: u128 = match uint_field_exec(d, &name_reserved_vec(), 1, u64::MAX as u128) {
        Ok(n) => n,
        Err(e) => {
            return Err(e);
        },
    };
    let frozen: u128 = match uint_field_exec(d, &name_frozen_vec(), 2, u64::MAX as u128) {
        Ok(n) => n,
        Err(e) => {
            return Err(e);
        },
    };
    let flags: u128 = match uint_field_exec(d, &name_flags_vec(), 3, u128::MAX) {
        Ok(n) => n,
        Err(e) => {
            return Err(e);
        },
    };
    Ok(
        Account {
            nonce: nonce as u32,
            consumers: consumers as u32,
            providers: providers as u32,
            sufficients: sufficients as u32,
            data: AccountData { free: free as u64, reserved: reserved as u64, frozen: frozen as u64, flags },
        },
    )
}

/// What reading a stake amount out of a value tree yields: amount-only
/// values are a single numeric scalar leaf; any other shape is a decode
/// failure.
pub open spec fn stake_amount_of_value(t: ValueTree) -> Result<u128, DecodeError> {
    match t {
        ValueTree::UInt(n) => Ok(n),
        _ => Err(DecodeError::ValueShape),
    }
}

/// Reads the staked amount from a value tree: amount-only values are a
/// single scalar leaf; any other shape is a per-record failure, never a
/// panic.
pub fn decode_stake_amount(t: &ValueTree) -> (r: Result<u128, DecodeError>)
    ensures
        r == stake_amount_of_value(*t),
{
    match t {
        ValueTree::UInt(n) => Ok(*n),
        _ => Err(DecodeError::ValueShape),
    }
}

/// What one entry of the account namespace decodes to: the SS58 text of
/// the identity in the key, paired with the account record in the value.
pub open spec fn account_entry(key: ValueTree, value: ValueTree) -> Result<
    (Seq<u8>, Account),
    DecodeError,
> {
    match identity_of_key(key) {
        Err(e) => Err(e),
        Ok(id) => match account_of_value(value) {
            Err(e) => Err(e),
            Ok(a) => Ok((crate::ids::ss58_of(id), a)),
        },
    }
}

/// The records a page of account entries decodes to, in page order, with
/// every failing entry skipped.
pub open spec fn account_page_records(entries: Seq<(ValueTree, ValueTree)>) -> Seq<
    (Seq<u8>, Account),
>
    decreases entries.len(),
{
    if entries.len() == 0 {
        Seq::empty()
    } else {
        let rest = account_page_records(entries.drop_last());
        match account_entry(entries.last().0, entries.last().1) {
            Ok(r) => rest.push(r),
            Err(_) => rest,
        }
    }
}

/// The side log of a page of account entries: the failure of every entry
/// that was skipped, in page order.
pub open spec fn account_page_failures(entries: Seq<(ValueTree, ValueTree)>) -> Seq<DecodeError>
    decreases entries.len(),
{
    if entries.len() == 0 {
        Seq::empty()
    } else {
        let rest = account_page_failures(entries.drop_last());
        match account_entry(entries.last().0, entries.last().1) {
            Ok(_) => rest,
            Err(e) => rest.push(e),
        }
    }
}

/// Folds one page of raw account entries into decoded records plus a side
/// log of per-record failures. A malformed entry is skipped and logged; it
/// never aborts the page.
pub fn decode_account_page(entries: &Vec<(ValueTree, ValueTree)>) -> (r: (
    Vec<(Vec<u8>, Account)>,
    Vec<DecodeError>,
))
    ensures
        crate::records::account_pairs_view(r.0@) == account_page_records(entries@),
        r.1@ == account_page_failures(entries@),
{
    let mut out: Vec<(Vec<u8>, Account)> = Vec::new();
    let mut errs: Vec<DecodeError> = Vec::new();
    for i in 0..entries.len()
        invariant
            crate::records::account_pairs_view(out@) =~= account_page_records(
                entries@.take(i as int),
            ),
            errs@ =~= account_page_failures(entries@.take(i as int)),
    {
        let e = &entries[i];
        match decode_identity_key(&e.0) {
            Err(err) => {
                errs.push(err);
            },
            Ok(id) => {
                match decode_account_value(&e.1) {
                    Err(err) => {
                        errs.push(err);
                    },
                    Ok(a) => {
                        let addr = crate::ids::ss58_encode(&id);
                        out.push((addr, a));
                    },
                }
            },
        }
        proof {
            assert(entries@.take(i + 1).drop_last() =~= entries@.take(i as int));
            assert(entries@.take(i + 1).last() == entries@[i as int]);
            assert(crate::records::account_pairs_view(out@) =~= account_page_records(
                entries@.take(i + 1),
            ));
            assert(errs@ =~= account_page_failures(entries@.take(i + 1)));
        }
    }
    proof {
        assert(entries@.take(entries@.len() as int) =~= entries@);
    }
    (out, errs)
}

/// What one entry of the stake namespace decodes to: the SS58 texts of the
/// staking and receiving identities in the two key elements, and the staked
/// amount in the value.
pub open spec fn stake_entry(kf: ValueTree, kt: ValueTree, v: ValueTree) -> Result<
    (Seq<u8>, Seq<u8>, u128),
    DecodeError,
> {
    match identity_of_key(kf) {
        Err(e) => Err(e),
        Ok(f) => match identity_of_key(kt) {
            Err(e) => Err(e),
            Ok(t) => match stake_amount_of_value(v) {
                Err(e) => Err(e),
                Ok(amount) => Ok((crate::ids::ss58_of(f), crate::ids::ss58_of(t), amount)),
            },
        },
    }
}

/// The edges a page of stake entries decodes to, in page order, with every
/// failing entry skipped.
pub open spec fn stake_page_records(entries: Seq<(ValueTree, ValueTree, ValueTree)>) -> Seq<
    (Seq<u8>, Seq<u8>, u128),
>
    decreases entries.len(),
{
    if entries.len() == 0 {
        Seq::empty()
    } else {
        let rest = stake_page_records(entries.drop_last());
        match stake_entry(entries.last().0, entries.last().1, entries.last().2) {
            Ok(r) => rest.push(r),
            Err(_) => rest,
        }
    }
}

/// The side log of a page of stake entries, in page order.
pub open spec fn stake_page_failures(entries: Seq<(ValueTree, ValueTree, ValueTree)>) -> Seq<
    DecodeError,
>
    decreases entries.len(),
{
    if entries.len() == 0 {
        Seq::empty()
    } else {
        let rest = stake_page_failures(entries.drop_last());
        match stake_entry(entries.last().0, entries.last().1, entries.last().2) {
            Ok(_) => rest,
            Err(e) => rest.push(e),
        }
    }
}

/// Folds one page of raw stake entries `(from key, to key, value)` into
/// decoded edges plus a side log of per-record failures.
pub fn decode_stake_page(entries: &Vec<(ValueTree, ValueTree, ValueTree)>) -> (r: (
    Vec<(Vec<u8>, Vec<u8>, u128)>,
    Vec<DecodeError>,
))
    ensures
        crate::records::stake_triples_view(r.0@) == stake_page_records(entries@),
        r.1@ == stake_page_failures(entries@),
{
    let mut out: Vec<(Vec<u8>, Vec<u8>, u128)> = Vec::new();
    let mut errs: Vec<DecodeError> = Vec::new();
    for i in 0..entries.len()
        invariant
            crate::records::stake_triples_view(out@) =~= stake_page_records(
                entries@.take(i as int),
            ),
            errs@ =~= stake_page_failures(entries@.take(i as int)),
    {
        let e = &entries[i];
        match decode_identity_key(&e.0) {
            Err(err) => {
                errs.push(err);
            },
            Ok(from) => {
                match decode_identity_key(&e.1) {
                    Err(err) => {
                        errs.push(err);
                    },
                    Ok(to) => {
                        match decode_stake_amount(&e.2) {
                            Err(err) => {
                                errs.push(err);
                            },
                            Ok(amount) => {
                                let from_text = crate::ids::ss58_encode(&from);
                                let to_text = crate::ids::ss58_encode(&to);
                                out.push((from_text, to_text, amount));
                            },
                        }
                    },
                }
            },
        }
        proof {
            assert(entries@.take(i + 1).drop_last() =~= entries@.take(i as int));
            assert(entries@.take(i + 1).last() == entries@[i as int]);
            assert(crate::records::stake_triples_view(out@) =~= stake_page_records(
                entries@.take(i + 1),
            ));
            assert(errs@ =~= stake_page_failures(entries@.take(i + 1)));
        }
    }
    proof {
        assert(entries@.take(entries@.len() as int) =~= entries@);
    }
    (out, errs)
}

/// A key tree whose flattened material is shorter than 32 bytes decodes to
/// an error, the corresponding record is excluded from the page's output,
/// and the page as a whole still decodes: its records are exactly those of
/// the page without the malformed entry, with one more logged failure.
pub proof fn lemma_short_key_skipped(entries: Seq<(ValueTree, ValueTree)>, i: int)
    requires
        0 <= i < entries.len(),
        key_leaf_bytes(entries[i].0) matches Some(bs) && bs.len() < 32,
    ensures
        identity_of_key(entries[i].0) == Err::<Seq<u8>, DecodeError>(DecodeError::KeyTooShort),
        account_page_records(entries) == account_page_records(entries.remove(i)),
        account_page_failures(entries).len() == account_page_failures(entries.remove(i)).len() + 1,
    decreases entries.len(),
{
    if i == entries.len() - 1 {
        assert(entries.remove(i) =~= entries.drop_last());
    } else {
        lemma_short_key_skipped(entries.drop_last(), i);
        assert(entries.remove(i).drop_last() =~= entries.drop_last().remove(i));
        assert(entries.remove(i).last() == entries.last());
    }
}

/// Decoding an identity from a key is deterministic and idempotent: equal
/// key trees always decode to equal results, so decoding the same bytes
/// twice yields equal identity values.
pub proof fn lemma_identity_decode_deterministic(k1: ValueTree, k2: ValueTree)
    requires
        k1 == k2,
    ensures
        identity_of_key(k1) == identity_of_key(k2),
{
}


/// A stake entry whose staking-side or receiving-side key is shorter than
/// 32 bytes is excluded from the page's output, and the page as a whole
/// still decodes, with one more logged failure.
pub proof fn lemma_short_stake_key_skipped(
    entries: Seq<(ValueTree, ValueTree, ValueTree)>,
    i: int,
)
    requires
        0 <= i < entries.len(),
        (key_leaf_bytes(entries[i].0) matches Some(bs) && bs.len() < 32) || (key_leaf_bytes(
            entries[i].1,
        ) matches Some(bs) && bs.len() < 32),
    ensures
        stake_entry(entries[i].0, entries[i].1, entries[i].2) is Err,
        stake_page_records(entries) == stake_page_records(entries.remove(i)),
        stake_page_failures(entries).len() == stake_page_failures(entries.remove(i)).len() + 1,
    decreases entries.len(),
{
    if i == entries.len() - 1 {
        assert(entries.remove(i) =~= entries.drop_last());
    } else {
        lemma_short_stake_key_skipped(entries.drop_last(), i);
        assert(entries.remove(i).drop_last() =~= entries.drop_last().remove(i));
        assert(entries.remove(i).last() == entries.last());
    }
}

} // verus!
