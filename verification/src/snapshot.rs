use vstd::prelude::*;

use crate::errors::SnapshotError;
use crate::json::dec_of;
use crate::json::emit_escaped;
use crate::json::emit_u128;
use crate::json::esc_of;
use crate::json::expect;
use crate::json::is_digit;
use crate::json::parse_lit;
use crate::json::parse_string;
use crate::json::parse_string_exec;
use crate::json::parse_u128;
use crate::json::parse_u128_exec;
use crate::json::push_tok;
use crate::json::lemma_parse_lit_unwind;
use crate::json::lemma_parse_string_unwind;
use crate::json::lemma_parse_u128_unwind;
use crate::records::Account;
use crate::records::AccountData;
use crate::records::account_pairs_view;
use crate::records::stake_triples_view;
use crate::aggregate::BalanceMap;
use crate::aggregate::amount_pairs_view;

verus! {

/// The bytes of the token `[`.
pub open spec fn tok_lbracket() -> Seq<u8> {
    seq![91u8]
}

pub(crate) fn tok_lbracket_vec() -> (r: Vec<u8>)
    ensures
        r@ == tok_lbracket(),
{
    let v: Vec<u8> = vec![91u8];
    proof {
        assert(v@ =~= tok_lbracket());
    }
    v
}

/// The bytes of the token `]`.
pub open spec fn tok_rbracket() -> Seq<u8> {
    seq![93u8]
}

pub(crate) fn tok_rbracket_vec() -> (r: Vec<u8>)
    ensures
        r@ == tok_rbracket(),
{
    let v: Vec<u8> = vec![93u8];
    proof {
        assert(v@ =~= tok_rbracket());
    }
    v
}

/// The bytes of the token `{`.
pub open spec fn tok_lbrace() -> Seq<u8> {
    seq![123u8]
}

pub(crate) fn tok_lbrace_vec() -> (r: Vec<u8>)
    ensures
        r@ == tok_lbrace(),
{
    let v: Vec<u8> = vec![123u8];
    proof {
        assert(v@ =~= tok_lbrace());
    }
    v
}

/// The bytes of the token `}`.
pub open spec fn tok_rbrace() -> Seq<u8> {
    seq![125u8]
}

pub(crate) fn tok_rbrace_vec() -> (r: Vec<u8>)
    ensures
        r@ == tok_rbrace(),
{
    let v: Vec<u8> = vec![125u8];
    proof {
        assert(v@ =~= tok_rbrace());
    }
    v
}

/// The bytes of the token `,`.
pub open spec fn tok_comma() -> Seq<u8> {
    seq![44u8]
}

pub(crate) fn tok_comma_vec() -> (r: Vec<u8>)
    ensures
        r@ == tok_comma(),
{
    let v: Vec<u8> = vec![44u8];
    proof {
        assert(v@ =~= tok_comma());
    }
    v
}

/// The bytes of the token `{"nonce":`.
pub open spec fn tok_nonce() -> Seq<u8> {
    seq![123u8, 34u8, 110u8, 111u8, 110u8, 99u8, 101u8, 34u8, 58u8]
}

pub(crate) fn tok_nonce_vec() -> (r: Vec<u8>)
    ensures
        r@ == tok_nonce(),
{
    let v: Vec<u8> = vec![123u8, 34u8, 110u8, 111u8, 110u8, 99u8, 101u8, 34u8, 58u8];
    proof {
        assert(v@ =~= tok_nonce());
    }
    v
}

/// The bytes of the token `,"consumers":`.
pub open spec fn tok_consumers() -> Seq<u8> {
    seq![44u8, 34u8, 99u8, 111u8, 110u8, 115u8, 117u8, 109u8, 101u8, 114u8, 115u8, 34u8, 58u8]
}

pub(crate) fn tok_consumers_vec() -> (r: Vec<u8>)
    ensures
        r@ == tok_consumers(),
{
    let v: Vec<u8> = vec![44u8, 34u8, 99u8, 111u8, 110u8, 115u8, 117u8, 109u8, 101u8, 114u8, 115u8, 34u8, 58u8];
    proof {
        assert(v@ =~= tok_consumers());
    }
    v
}

/// The bytes of the token `,"providers":`.
pub open spec fn tok_providers() -> Seq<u8> {
    seq![44u8, 34u8, 112u8, 114u8, 111u8, 118u8, 105u8, 100u8, 101u8, 114u8, 115u8, 34u8, 58u8]
}

pub(crate) fn tok_providers_vec() -> (r: Vec<u8>)
    ensures
        r@ == tok_providers(),
{
    let v: Vec<u8> = vec![44u8, 34u8, 112u8, 114u8, 111u8, 118u8, 105u8, 100u8, 101u8, 114u8, 115u8, 34u8, 58u8];
    proof {
        assert(v@ =~= tok_providers());
    }
    v
}

/// The bytes of the token `,"sufficients":`.
pub open spec fn tok_sufficients() -> Seq<u8> {
    seq![44u8, 34u8, 115u8, 117u8, 102u8, 102u8, 105u8, 99u8, 105u8, 101u8, 110u8, 116u8, 115u8, 34u8, 58u8]
}

pub(crate) fn tok_sufficients_vec() -> (r: Vec<u8>)
    ensures
        r@ == tok_sufficients(),
{
    let v: Vec<u8> = vec![44u8, 34u8, 115u8, 117u8, 102u8, 102u8, 105u8, 99u8, 105u8, 101u8, 110u8, 116u8, 115u8, 34u8, 58u8];
    proof {
        assert(v@ =~= tok_sufficients());
    }
    v
}

/// The bytes of the token `,"data":{"free":`.
pub open spec fn tok_data() -> Seq<u8> {
    seq![44u8, 34u8, 100u8, 97u8, 116u8, 97u8, 34u8, 58u8, 123u8, 34u8, 102u8, 114u8, 101u8, 101u8, 34u8, 58u8]
}

pub(crate) fn tok_data_vec() -> (r: Vec<u8>)
    ensures
        r@ == tok_data(),
{
    let v: Vec<u8> = vec![44u8, 34u8, 100u8, 97u8, 116u8, 97u8, 34u8, 58u8, 123u8, 34u8, 102u8, 114u8, 101u8, 101u8, 34u8, 58u8];
    proof {
        assert(v@ =~= tok_data());
    }
    v
}

/// The bytes of the token `,"reserved":`.
pub open spec fn tok_reserved() -> Seq<u8> {
    seq![44u8, 34u8, 114u8, 101u8, 115u8, 101u8, 114u8, 118u8, 101u8, 100u8, 34u8, 58u8]
}

pub(crate) fn tok_reserved_vec() -> (r: Vec<u8>)
    ensures
        r@ == tok_reserved(),
{
    let v: Vec<u8> = vec![44u8, 34u8, 114u8, 101u8, 115u8, 101u8, 114u8, 118u8, 101u8, 100u8, 34u8, 58u8];
    proof {
        assert(v@ =~= tok_reserved());
    }
    v
}

/// The bytes of the token `,"frozen":`.
pub open spec fn tok_frozen() -> Seq<u8> {
    seq![44u8, 34u8, 102u8, 114u8, 111u8, 122u8, 101u8, 110u8, 34u8, 58u8]
}

pub(crate) fn tok_frozen_vec() -> (r: Vec<u8>)
    ensures
        r@ == tok_frozen(),
{
    let v: Vec<u8> = vec![44u8, 34u8, 102u8, 114u8, 111u8, 122u8, 101u8, 110u8, 34u8, 58u8];
    proof {
        assert(v@ =~= tok_frozen());
    }
    v
}

/// The bytes of the token `,"flags":`.
pub open spec fn tok_flags() -> Seq<u8> {
    seq![44u8, 34u8, 102u8, 108u8, 97u8, 103u8, 115u8, 34u8, 58u8]
}

pub(crate) fn tok_flags_vec() -> (r: Vec<u8>)
    ensures
        r@ == tok_flags(),
{
    let v: Vec<u8> = vec![44u8, 34u8, 102u8, 108u8, 97u8, 103u8, 115u8, 34u8, 58u8];
    proof {
        assert(v@ =~= tok_flags());
    }
    v
}

/// The bytes of the token `}}`.
pub open spec fn tok_close2() -> Seq<u8> {
    seq![125u8, 125u8]
}

pub(crate) fn tok_close2_vec() -> (r: Vec<u8>)
    ensures
        r@ == tok_close2(),
{
    let v: Vec<u8> = vec![125u8, 125u8];
    proof {
        assert(v@ =~= tok_close2());
    }
    v
}

/// The canonical JSON tail of a balance block, from the free amount to
/// the closing braces.
pub open spec fn json_balance(d: AccountData) -> Seq<u8> {
    dec_of(d.free as u128).add(tok_reserved()).add(dec_of(d.reserved as u128)).add(tok_frozen()).add(dec_of(d.frozen as u128)).add(tok_flags()).add(dec_of(d.flags)).add(tok_close2())
}

/// What consuming a balance block from the front of `s` yields.
pub open spec fn parse_balance(s: Seq<u8>) -> Option<(AccountData, Seq<u8>)> {
    match parse_u128(s) { Option::None => None, Option::Some(v0) => if v0.0 > u64::MAX as u128 as int { None } else {
    match parse_lit(v0.1, tok_reserved()) { Option::None => None, Option::Some(r1) =>
    match parse_u128(r1) { Option::None => None, Option::Some(v1) => if v1.0 > u64::MAX as u128 as int { None } else {
    match parse_lit(v1.1, tok_frozen()) { Option::None => None, Option::Some(r2) =>
    match parse_u128(r2) { Option::None => None, Option::Some(v2) => if v2.0 > u64::MAX as u128 as int { None } else {
    match parse_lit(v2.1, tok_flags()) { Option::None => None, Option::Some(r3) =>
    match parse_u128(r3) { Option::None => None, Option::Some(v3) => if v3.0 > u128::MAX as int { None } else {
    match parse_lit(v3.1, tok_close2()) { Option::None => None, Option::Some(rf) => Some((
    AccountData { free: v0.0 as u64, reserved: v1.0 as u64, frozen: v2.0 as u64, flags: v3.0 as u128 },
    rf,
    )),
    }
    }}
    }}}
    }}}
    }}}
}

/// The canonical JSON object of an account record.
pub open spec fn json_account(a: Account) -> Seq<u8> {
    tok_nonce().add(dec_of(a.nonce as u128)).add(tok_consumers()).add(dec_of(a.consumers as u128)).add(tok_providers()).add(dec_of(a.providers as u128)).add(tok_sufficients()).add(dec_of(a.sufficients as u128)).add(tok_data()).add(json_balance(a.data))
}

/// What consuming an account object from the front of `s` yields: every
/// numeric field within its declared width, or nothing.
pub open spec fn parse_account_obj(s: Seq<u8>) -> Option<(Account, Seq<u8>)> {
    match parse_lit(s, tok_nonce()) { Option::None => None, Option::Some(r0) =>
    match parse_u128(r0) { Option::None => None, Option::Some(v0) => if v0.0 > u32::MAX as int { None } else {
    match parse_lit(v0.1, tok_consumers()) { Option::None => None, Option::Some(r1) =>
    match parse_u128(r1) { Option::None => None, Option::Some(v1) => if v1.0 > u32::MAX as int { None } else {
    match parse_lit(v1.1, tok_providers()) { Option::None => None, Option::Some(r2) =>
    match parse_u128(r2) { Option::None => None, Option::Some(v2) => if v2.0 > u32::MAX as int { None } else {
    match parse_lit(v2.1, tok_sufficients()) { Option::None => None, Option::Some(r3) =>
    match parse_u128(r3) { Option::None => None, Option::Some(v3) => if v3.0 > u32::MAX as int { None } else {
    match parse_lit(v3.1, tok_data()) { Option::None => None, Option::Some(rd) =>
    match parse_balance(rd) { Option::None => None, Option::Some(b) => Some((
    Account { nonce: v0.0 as u32, consumers: v1.0 as u32, providers: v2.0 as u32, sufficients: v3.0 as u32, data: b.0 },
    b.1,
    )),
    }
    }
    }}}
    }}}
    }}}
    }}}
}

/// Appends the canonical JSON object of an account record.
#[verifier::rlimit(50)]
pub(crate) fn emit_account(acct: &Account, out: &mut Vec<u8>)
    ensures
        final(out)@ == old(out)@.add(json_account(*acct)),
{
    let a = *acct;
    let d = a.data;
    push_tok(out, &tok_nonce_vec());
    emit_u128(a.nonce as u128, out);
    push_tok(out, &tok_consumers_vec());
    emit_u128(a.consumers as u128, out);
    push_tok(out, &tok_providers_vec());
    emit_u128(a.providers as u128, out);
    push_tok(out, &tok_sufficients_vec());
    emit_u128(a.sufficients as u128, out);
    push_tok(out, &tok_data_vec());
    emit_u128(d.free as u128, out);
    push_tok(out, &tok_reserved_vec());
    emit_u128(d.reserved as u128, out);
    push_tok(out, &tok_frozen_vec());
    emit_u128(d.frozen as u128, out);
    push_tok(out, &tok_flags_vec());
    emit_u128(d.flags, out);
    push_tok(out, &tok_close2_vec());
    proof {
        assert(out@ =~= old(out)@.add(json_account(a)));
    }
}

/// Consumes a balance block at position `i`.
pub(crate) fn parse_balance_exec(s: &Vec<u8>, i: usize) -> (r: Option<(AccountData, usize)>)
    requires
        i <= s@.len(),
    ensures
        match r {
            Some(v) => i <= v.1 <= s@.len() && parse_balance(s@.skip(i as int)) == Some(
                (v.0, s@.skip(v.1 as int)),
            ),
            None => parse_balance(s@.skip(i as int)) is None,
        },
{
    let (v0, j0): (u128, usize) = match parse_u128_exec(s, i) { Some(p) => p, None => return None };
    if v0 > u64::MAX as u128 { return None; }
    let r1: usize = match expect(s, j0, &tok_reserved_vec()) { Some(j) => j, None => return None };
    let (v1, j1): (u128, usize) = match parse_u128_exec(s, r1) { Some(p) => p, None => return None };
    if v1 > u64::MAX as u128 { return None; }
    let r2: usize = match expect(s, j1, &tok_frozen_vec()) { Some(j) => j, None => return None };
    let (v2, j2): (u128, usize) = match parse_u128_exec(s, r2) { Some(p) => p, None => return None };
    if v2 > u64::MAX as u128 { return None; }
    let r3: usize = match expect(s, j2, &tok_flags_vec()) { Some(j) => j, None => return None };
    let (v3, j3): (u128, usize) = match parse_u128_exec(s, r3) { Some(p) => p, None => return None };
    let jf: usize = match expect(s, j3, &tok_close2_vec()) { Some(j) => j, None => return None };
    Some((AccountData { free: v0 as u64, reserved: v1 as u64, frozen: v2 as u64, flags: v3 }, jf))
}

/// Consumes an account object at position `i`.
pub(crate) fn parse_account_obj_exec(s: &Vec<u8>, i: usize) -> (r: Option<(Account, usize)>)
    requires
        i <= s@.len(),
    ensures
        match r {
            Some(v) => i <= v.1 <= s@.len() && parse_account_obj(s@.skip(i as int)) == Some(
                (v.0, s@.skip(v.1 as int)),
            ),
            None => parse_account_obj(s@.skip(i as int)) is None,
        },
{
    let r0: usize = match expect(s, i, &tok_nonce_vec()) { Some(j) => j, None => return None };
    let (v0, j0): (u128, usize) = match parse_u128_exec(s, r0) { Some(p) => p, None => return None };
    if v0 > u32::MAX as u128 { return None; }
    let r1: usize = match expect(s, j0, &tok_consumers_vec()) { Some(j) => j, None => return None };
    let (v1, j1): (u128, usize) = match parse_u128_exec(s, r1) { Some(p) => p, None => return None };
    if v1 > u32::MAX as u128 { return None; }
    let r2: usize = match expect(s, j1, &tok_providers_vec()) { Some(j) => j, None => return None };
    let (v2, j2): (u128, usize) = match parse_u128_exec(s, r2) { Some(p) => p, None => return None };
    if v2 > u32::MAX as u128 { return None; }
    let r3: usize = match expect(s, j2, &tok_sufficients_vec()) { Some(j) => j, None => return None };
    let (v3, j3): (u128, usize) = match parse_u128_exec(s, r3) { Some(p) => p, None => return None };
    if v3 > u32::MAX as u128 { return None; }
    let rd: usize = match expect(s, j3, &tok_data_vec()) { Some(j) => j, None => return None };
    let (bal, jf): (AccountData, usize) = match parse_balance_exec(s, rd) { Some(p) => p, None => return None };
    let acct = Account {
        nonce: v0 as u32,
        consumers: v1 as u32,
        providers: v2 as u32,
        sufficients: v3 as u32,
        data: bal,
    };
    Some((acct, jf))
}

/// Consuming a balance block off its canonical rendering yields the data
/// itself and the rest.
#[verifier::rlimit(100)]
proof fn lemma_balance_unwind(d: AccountData, rest: Seq<u8>)
    ensures
        parse_balance(json_balance(d).add(rest)) == Some((d, rest)),
{
    let x8 = rest;
    let x7 = tok_close2().add(x8);
    let x6 = dec_of(d.flags).add(x7);
    let x5 = tok_flags().add(x6);
    let x4 = dec_of(d.frozen as u128).add(x5);
    let x3 = tok_frozen().add(x4);
    let x2 = dec_of(d.reserved as u128).add(x3);
    let x1 = tok_reserved().add(x2);
    let x0 = dec_of(d.free as u128).add(x1);
    assert(json_balance(d).add(rest) =~= x0);
    assert(!is_digit(x1[0]));
    lemma_parse_u128_unwind(d.free as u128, x1);
    lemma_parse_lit_unwind(tok_reserved(), x2);
    assert(!is_digit(x3[0]));
    lemma_parse_u128_unwind(d.reserved as u128, x3);
    lemma_parse_lit_unwind(tok_frozen(), x4);
    assert(!is_digit(x5[0]));
    lemma_parse_u128_unwind(d.frozen as u128, x5);
    lemma_parse_lit_unwind(tok_flags(), x6);
    assert(!is_digit(x7[0]));
    lemma_parse_u128_unwind(d.flags, x7);
    lemma_parse_lit_unwind(tok_close2(), rest);
}

/// Re-associates the canonical account rendering for front-to-back
/// consumption.
#[verifier::rlimit(100)]
proof fn lemma_account_chain(a: Account, rest: Seq<u8>)
    ensures
        json_account(a).add(rest) == tok_nonce().add(dec_of(a.nonce as u128).add(tok_consumers().add(dec_of(a.consumers as u128).add(tok_providers().add(dec_of(a.providers as u128).add(tok_sufficients().add(dec_of(a.sufficients as u128).add(tok_data().add(json_balance(a.data).add(rest)))))))))),
{
    assert(json_account(a).add(rest) =~= tok_nonce().add(dec_of(a.nonce as u128).add(tok_consumers().add(dec_of(a.consumers as u128).add(tok_providers().add(dec_of(a.providers as u128).add(tok_sufficients().add(dec_of(a.sufficients as u128).add(tok_data().add(json_balance(a.data).add(rest)))))))))));
}

/// Consuming an account object off its canonical rendering yields the
/// record itself and the rest.
#[verifier::rlimit(100)]
pub proof fn lemma_account_obj_unwind(a: Account, rest: Seq<u8>)
    ensures
        parse_account_obj(json_account(a).add(rest)) == Some((a, rest)),
{
    let x10 = rest;
    let x9 = json_balance(a.data).add(rest);
    let x8 = tok_data().add(x9);
    let x7 = dec_of(a.sufficients as u128).add(x8);
    let x6 = tok_sufficients().add(x7);
    let x5 = dec_of(a.providers as u128).add(x6);
    let x4 = tok_providers().add(x5);
    let x3 = dec_of(a.consumers as u128).add(x4);
    let x2 = tok_consumers().add(x3);
    let x1 = dec_of(a.nonce as u128).add(x2);
    let x0 = tok_nonce().add(x1);
    lemma_account_chain(a, rest);
    assert(json_account(a).add(rest) == x0);
    lemma_parse_lit_unwind(tok_nonce(), x1);
    assert(!is_digit(x2[0]));
    lemma_parse_u128_unwind(a.nonce as u128, x2);
    lemma_parse_lit_unwind(tok_consumers(), x3);
    assert(!is_digit(x4[0]));
    lemma_parse_u128_unwind(a.consumers as u128, x4);
    lemma_parse_lit_unwind(tok_providers(), x5);
    assert(!is_digit(x6[0]));
    lemma_parse_u128_unwind(a.providers as u128, x6);
    lemma_parse_lit_unwind(tok_sufficients(), x7);
    assert(!is_digit(x8[0]));
    lemma_parse_u128_unwind(a.sufficients as u128, x8);
    lemma_parse_lit_unwind(tok_data(), x9);
    lemma_balance_unwind(a.data, rest);
}

/// A quoted JSON string: the escaped bytes between quotes.
pub open spec fn jstr(x: Seq<u8>) -> Seq<u8> {
    seq![34u8].add(esc_of(x)).add(seq![34u8])
}

/// Appends the quoted JSON string of `x`.
pub(crate) fn emit_jstr(x: &Vec<u8>, out: &mut Vec<u8>)
    ensures
        final(out)@ == old(out)@.add(jstr(x@)),
{
    out.push(34);
    emit_escaped(x, out);
    out.push(34);
    proof {
        assert(out@ =~= old(out)@.add(jstr(x@)));
    }
}

/// The canonical JSON of one account entry: address string, then record.
pub open spec fn json_account_item(p: (Seq<u8>, Account)) -> Seq<u8> {
    tok_lbracket().add(jstr(p.0)).add(tok_comma()).add(json_account(p.1)).add(tok_rbracket())
}

/// What consuming one account entry from the front of `s` yields.
pub open spec fn parse_account_item(s: Seq<u8>) -> Option<((Seq<u8>, Account), Seq<u8>)> {
    match parse_lit(s, tok_lbracket()) {
        Option::None => None,
        Option::Some(s1) => match parse_string(s1) {
            Option::None => None,
            Option::Some(name) => match parse_lit(name.1, tok_comma()) {
                Option::None => None,
                Option::Some(s2) => match parse_account_obj(s2) {
                    Option::None => None,
                    Option::Some(b) => match parse_lit(b.1, tok_rbracket()) {
                        Option::None => None,
                        Option::Some(s3) => Some(((name.0, b.0), s3)),
                    },
                },
            },
        },
    }
}

/// Consumes one account entry at position `i`.
pub(crate) fn parse_account_item_exec(s: &Vec<u8>, i: usize) -> (r: Option<
    ((Vec<u8>, Account), usize),
>)
    requires
        i <= s@.len(),
    ensures
        match r {
            Some(v) => i <= v.1 <= s@.len() && parse_account_item(s@.skip(i as int)) == Some(
                (((v.0).0@, (v.0).1), s@.skip(v.1 as int)),
            ),
            None => parse_account_item(s@.skip(i as int)) is None,
        },
{
    let j1 = match expect(s, i, &tok_lbracket_vec()) {
        Some(j) => j,
        None => return None,
    };
    let (name, j2) = match parse_string_exec(s, j1) {
        Some(p) => p,
        None => return None,
    };
    let j3 = match expect(s, j2, &tok_comma_vec()) {
        Some(j) => j,
        None => return None,
    };
    let (acct, j4) = match parse_account_obj_exec(s, j3) {
        Some(p) => p,
        None => return None,
    };
    let j5 = match expect(s, j4, &tok_rbracket_vec()) {
        Some(j) => j,
        None => return None,
    };
    Some(((name, acct), j5))
}

/// Consuming an account entry off its canonical rendering yields the entry
/// itself and the rest.
#[verifier::rlimit(50)]
proof fn lemma_account_item_unwind(p: (Seq<u8>, Account), rest: Seq<u8>)
    ensures
        parse_account_item(json_account_item(p).add(rest)) == Some((p, rest)),
{
    let x4 = tok_rbracket().add(rest);
    let x3 = json_account(p.1).add(x4);
    let x2 = tok_comma().add(x3);
    let x1 = jstr(p.0).add(x2);
    let x0 = tok_lbracket().add(x1);
    assert(json_account_item(p).add(rest) =~= x0);
    lemma_parse_lit_unwind(tok_lbracket(), x1);
    assert(x1 =~= seq![34u8].add(esc_of(p.0)).add(seq![34u8]).add(x2));
    lemma_parse_string_unwind(p.0, x2);
    lemma_parse_lit_unwind(tok_comma(), x3);
    lemma_account_obj_unwind(p.1, x4);
    lemma_parse_lit_unwind(tok_rbracket(), rest);
}

/// The canonical comma-separated renderings of the account entries.
pub open spec fn json_account_items(s: Seq<(Seq<u8>, Account)>) -> Seq<u8>
    decreases s.len(),
{
    if s.len() == 0 {
        Seq::empty()
    } else if s.len() == 1 {
        json_account_item(s[0])
    } else {
        json_account_items(s.drop_last()).add(tok_comma()).add(json_account_item(s.last()))
    }
}

/// The canonical accounts snapshot document: one array of entries.
pub open spec fn accounts_doc(s: Seq<(Seq<u8>, Account)>) -> Seq<u8> {
    tok_lbracket().add(json_account_items(s)).add(tok_rbracket())
}

/// What consuming the remaining account entries yields, those already read
/// standing in `acc`: after the last entry the closing bracket is consumed.
pub open spec fn parse_account_items(s: Seq<u8>, acc: Seq<(Seq<u8>, Account)>) -> Option<
    (Seq<(Seq<u8>, Account)>, Seq<u8>),
>
    decreases s.len(),
{
    match parse_account_item(s) {
        Option::None => None,
        Option::Some(p) => if p.1.len() > 0 && p.1[0] == 44 {
            if p.1.len() < s.len() {
                parse_account_items(p.1.drop_first(), acc.push(p.0))
            } else {
                None
            }
        } else {
            match parse_lit(p.1, tok_rbracket()) {
                Option::None => None,
                Option::Some(s2) => Some((acc.push(p.0), s2)),
            }
        },
    }
}

/// What parsing an accounts snapshot document yields: the text must be
/// exactly one array of account entries, nothing before or after.
pub open spec fn parse_accounts_doc(s: Seq<u8>) -> Option<Seq<(Seq<u8>, Account)>> {
    match parse_lit(s, tok_lbracket()) {
        Option::None => None,
        Option::Some(s1) => if s1.len() > 0 && s1[0] == 93 {
            if s1.len() == 1 {
                Some(Seq::empty())
            } else {
                None
            }
        } else {
            match parse_account_items(s1, Seq::empty()) {
                Option::None => None,
                Option::Some(v) => if v.1.len() == 0 {
                    Some(v.0)
                } else {
                    None
                },
            }
        },
    }
}

/// A nonempty entry list renders as its first entry followed by the rest.
proof fn lemma_account_items_front(s: Seq<(Seq<u8>, Account)>)
    requires
        s.len() >= 1,
    ensures
        json_account_items(s) == if s.len() == 1 {
            json_account_item(s[0])
        } else {
            json_account_item(s[0]).add(tok_comma()).add(json_account_items(s.drop_first()))
        },
    decreases s.len(),
{
    if s.len() == 2 {
        assert(s.drop_last() =~= seq![s[0]]);
        assert(s.drop_first() =~= seq![s[1]]);
        assert(seq![s[0]][0] == s[0]);
        assert(seq![s[1]][0] == s[1]);
        assert(json_account_items(seq![s[0]]) == json_account_item(s[0]));
        assert(json_account_items(seq![s[1]]) == json_account_item(s[1]));
        assert(json_account_items(s) == json_account_items(s.drop_last()).add(tok_comma()).add(
            json_account_item(s.last()),
        ));
        assert(json_account_items(s) == json_account_item(s[0]).add(tok_comma()).add(
            json_account_items(s.drop_first()),
        ));
    } else if s.len() > 2 {
        lemma_account_items_front(s.drop_last());
        assert(s.drop_last()[0] == s[0]);
        assert(s.drop_first().drop_last() =~= s.drop_last().drop_first());
        assert(s.drop_first().last() == s.last());
        assert(s.drop_first().len() >= 2);
        assert(json_account_items(s.drop_first()) == json_account_items(
            s.drop_first().drop_last(),
        ).add(tok_comma()).add(json_account_item(s.drop_first().last())));
        assert(json_account_items(s) == json_account_items(s.drop_last()).add(tok_comma()).add(
            json_account_item(s.last()),
        ));
        assert(json_account_items(s) =~= json_account_item(s[0]).add(tok_comma()).add(
            json_account_items(s.drop_first()),
        ));
    }
}

/// A nonempty entry list renders to text that opens with a bracket.
proof fn lemma_account_items_first(s: Seq<(Seq<u8>, Account)>)
    requires
        s.len() >= 1,
    ensures
        json_account_items(s).len() >= 1,
        json_account_items(s)[0] == 91,
    decreases s.len(),
{
    if s.len() == 1 {
        assert(json_account_item(s[0])[0] == 91);
    } else {
        lemma_account_items_first(s.drop_last());
    }
}

/// Consuming entries off a canonical entry list followed by the closing
/// bracket yields exactly those entries.
#[verifier::rlimit(100)]
proof fn lemma_account_items_unwind(
    s: Seq<(Seq<u8>, Account)>,
    acc: Seq<(Seq<u8>, Account)>,
    rest: Seq<u8>,
)
    requires
        s.len() >= 1,
    ensures
        parse_account_items(json_account_items(s).add(seq![93u8]).add(rest), acc) == Some(
            (acc.add(s), rest),
        ),
    decreases s.len(),
{
    lemma_account_items_front(s);
    let text = json_account_items(s).add(seq![93u8]).add(rest);
    if s.len() == 1 {
        let x1 = seq![93u8].add(rest);
        assert(text =~= json_account_item(s[0]).add(x1));
        lemma_account_item_unwind(s[0], x1);
        assert(x1[0] == 93);
        assert(x1 =~= tok_rbracket().add(rest));
        lemma_parse_lit_unwind(tok_rbracket(), rest);
        assert(acc.push(s[0]) =~= acc.add(s));
    } else {
        let tail_items = json_account_items(s.drop_first());
        let x1 = tok_comma().add(tail_items).add(seq![93u8]).add(rest);
        assert(text =~= json_account_item(s[0]).add(x1));
        lemma_account_item_unwind(s[0], x1);
        assert(x1[0] == 44);
        assert(json_account_item(s[0]).len() >= 1);
        assert(x1.len() < text.len());
        assert(x1.drop_first() =~= tail_items.add(seq![93u8]).add(rest));
        lemma_account_items_unwind(s.drop_first(), acc.push(s[0]), rest);
        assert(acc.push(s[0]).add(s.drop_first()) =~= acc.add(s));
    }
}

/// Round trip for the accounts snapshot kind: parsing the canonical
/// document recovers exactly the entries that were rendered.
pub proof fn lemma_accounts_roundtrip(s: Seq<(Seq<u8>, Account)>)
    ensures
        parse_accounts_doc(accounts_doc(s)) == Some(s),
{
    let text = accounts_doc(s);
    if s.len() == 0 {
        assert(text =~= tok_lbracket().add(seq![93u8]));
        lemma_parse_lit_unwind(tok_lbracket(), seq![93u8]);
        assert(seq![93u8][0] == 93);
        assert(s =~= Seq::<(Seq<u8>, Account)>::empty());
    } else {
        let x = json_account_items(s).add(seq![93u8]);
        assert(text =~= tok_lbracket().add(x));
        lemma_parse_lit_unwind(tok_lbracket(), x);
        lemma_account_items_first(s);
        assert(x[0] == 91);
        lemma_account_items_unwind(s, Seq::empty(), Seq::empty());
        assert(json_account_items(s).add(seq![93u8]).add(Seq::<u8>::empty()) =~= x);
        assert(Seq::<(Seq<u8>, Account)>::empty().add(s) =~= s);
    }
}

/// Appends the canonical rendering of one account entry.
#[verifier::rlimit(50)]
fn emit_account_item(e: &(Vec<u8>, Account), out: &mut Vec<u8>)
    ensures
        final(out)@ == old(out)@.add(json_account_item((e.0@, e.1))),
{
    out.push(91);
    emit_jstr(&e.0, out);
    out.push(44);
    emit_account(&e.1, out);
    out.push(93);
    proof {
        assert(out@ =~= old(out)@.add(json_account_item((e.0@, e.1))));
    }
}

/// Renders the accounts snapshot document: an array of address/record
/// entries in the canonical form that `load_accounts` reads back.
pub fn save_accounts(accounts: &Vec<(Vec<u8>, Account)>) -> (r: Vec<u8>)
    ensures
        r@ == accounts_doc(account_pairs_view(accounts@)),
{
    let ghost av = account_pairs_view(accounts@);
    let mut out: Vec<u8> = Vec::new();
    out.push(91);
    proof {
        assert(av.take(0) =~= Seq::<(Seq<u8>, Account)>::empty());
        assert(out@ =~= tok_lbracket().add(json_account_items(av.take(0))));
    }
    for i in 0..accounts.len()
        invariant
            av == account_pairs_view(accounts@),
            accounts@.len() == av.len(),
            out@ =~= tok_lbracket().add(json_account_items(av.take(i as int))),
    {
        if i > 0 {
            out.push(44);
        }
        let e = &accounts[i];
        emit_account_item(e, &mut out);
        proof {
            assert(av[i as int] == (accounts@[i as int].0@, accounts@[i as int].1));
            assert(av.take(i + 1).drop_last() =~= av.take(i as int));
            assert(av.take(i + 1).last() == av[i as int]);
            assert(out@ =~= tok_lbracket().add(json_account_items(av.take(i + 1))));
        }
    }
    out.push(93);
    proof {
        assert(av.take(av.len() as int) =~= av);
        assert(out@ =~= accounts_doc(av));
    }
    out
}

/// Reads an accounts snapshot back: the whole text must be one canonical
/// array of entries, else the document is rejected as malformed.
pub fn load_accounts(text: &Vec<u8>) -> (r: Result<Vec<(Vec<u8>, Account)>, SnapshotError>)
    ensures
        match r {
            Ok(v) => parse_accounts_doc(text@) == Some(account_pairs_view(v@)),
            Err(_) => parse_accounts_doc(text@) is None,
        },
{
    let n = text.len();
    proof {
        assert(text@.skip(0) =~= text@);
    }
    let j0 = match expect(text, 0, &tok_lbracket_vec()) {
        Some(j) => j,
        None => return Err(SnapshotError::Malformed),
    };
    if j0 < n && *vstd::slice::slice_index_get(text.as_slice(), j0) == 93 {
        proof {
            assert(text@.skip(j0 as int)[0] == 93);
        }
        if n - j0 == 1 {
            let empty: Vec<(Vec<u8>, Account)> = Vec::new();
            proof {
                assert(account_pairs_view(empty@) =~= Seq::<(Seq<u8>, Account)>::empty());
            }
            return Ok(empty);
        } else {
            return Err(SnapshotError::Malformed);
        }
    }
    proof {
        assert(!(text@.skip(j0 as int).len() > 0 && text@.skip(j0 as int)[0] == 93));
    }
    let mut out: Vec<(Vec<u8>, Account)> = Vec::new();
    let mut j = j0;
    proof {
        assert(account_pairs_view(out@) =~= Seq::<(Seq<u8>, Account)>::empty());
        assert(parse_accounts_doc(text@) == (match parse_account_items(
            text@.skip(j0 as int),
            Seq::<(Seq<u8>, Account)>::empty(),
        ) {
            Option::None => None::<Seq<(Seq<u8>, Account)>>,
            Option::Some(v) => if v.1.len() == 0 {
                Some(v.0)
            } else {
                None
            },
        }));
    }
    loop
        invariant
            j0 <= j <= n,
            n == text@.len(),
            parse_accounts_doc(text@) == (match parse_account_items(
                text@.skip(j as int),
                account_pairs_view(out@),
            ) {
                Option::None => None::<Seq<(Seq<u8>, Account)>>,
                Option::Some(v) => if v.1.len() == 0 {
                    Some(v.0)
                } else {
                    None
                },
            }),
        decreases n - j,
    {
        let (pair, j2) = match parse_account_item_exec(text, j) {
            Some(p) => p,
            None => return Err(SnapshotError::Malformed),
        };
        let ghost pv = (pair.0@, pair.1);
        if j2 < n && *vstd::slice::slice_index_get(text.as_slice(), j2) == 44 {
            proof {
                assert(text@.skip(j2 as int)[0] == 44);
            }
            if j2 <= j {
                return Err(SnapshotError::Malformed);
            }
            let ghost before = out@;
            out.push(pair);
            proof {
                assert(account_pairs_view(out@) =~= account_pairs_view(before).push(pv));
                assert(text@.skip(j2 as int).drop_first() =~= text@.skip(j2 + 1));
            }
            j = j2 + 1;
        } else {
            proof {
                assert(!(text@.skip(j2 as int).len() > 0 && text@.skip(j2 as int)[0] == 44));
            }
            let j3 = match expect(text, j2, &tok_rbracket_vec()) {
                Some(j3) => j3,
                None => return Err(SnapshotError::Malformed),
            };
            let ghost before = out@;
            out.push(pair);
            proof {
                assert(account_pairs_view(out@) =~= account_pairs_view(before).push(pv));
            }
            if j3 == n {
                proof {
                    assert(text@.skip(j3 as int).len() == 0);
                }
                return Ok(out);
            } else {
                return Err(SnapshotError::Malformed);
            }
        }
    }
}

/// The canonical JSON of one stake edge: from, to, amount.
pub open spec fn json_stake_item(e: (Seq<u8>, Seq<u8>, u128)) -> Seq<u8> {
    tok_lbracket().add(jstr(e.0)).add(tok_comma()).add(jstr(e.1)).add(tok_comma()).add(
        dec_of(e.2),
    ).add(tok_rbracket())
}

/// What consuming one stake edge from the front of `s` yields.
pub open spec fn parse_stake_item(s: Seq<u8>) -> Option<((Seq<u8>, Seq<u8>, u128), Seq<u8>)> {
    match parse_lit(s, tok_lbracket()) {
        Option::None => None,
        Option::Some(s1) => match parse_string(s1) {
            Option::None => None,
            Option::Some(from) => match parse_lit(from.1, tok_comma()) {
                Option::None => None,
                Option::Some(s2) => match parse_string(s2) {
                    Option::None => None,
                    Option::Some(to) => match parse_lit(to.1, tok_comma()) {
                        Option::None => None,
                        Option::Some(s3) => match parse_u128(s3) {
                            Option::None => None,
                            Option::Some(v) => match parse_lit(v.1, tok_rbracket()) {
                                Option::None => None,
                                Option::Some(s4) => Some(
                                    ((from.0, to.0, v.0 as u128), s4),
                                ),
                            },
                        },
                    },
                },
            },
        },
    }
}

/// Consumes one stake edge at position `i`.
pub(crate) fn parse_stake_item_exec(s: &Vec<u8>, i: usize) -> (r: Option<
    ((Vec<u8>, Vec<u8>, u128), usize),
>)
    requires
        i <= s@.len(),
    ensures
        match r {
            Some(v) => i <= v.1 <= s@.len() && parse_stake_item(s@.skip(i as int)) == Some(
                (((v.0).0@, (v.0).1@, (v.0).2), s@.skip(v.1 as int)),
            ),
            None => parse_stake_item(s@.skip(i as int)) is None,
        },
{
    let j1 = match expect(s, i, &tok_lbracket_vec()) {
        Some(j) => j,
        None => return None,
    };
    let (from, j2) = match parse_string_exec(s, j1) {
        Some(p) => p,
        None => return None,
    };
    let j3 = match expect(s, j2, &tok_comma_vec()) {
        Some(j) => j,
        None => return None,
    };
    let (to, j4) = match parse_string_exec(s, j3) {
        Some(p) => p,
        None => return None,
    };
    let j5 = match expect(s, j4, &tok_comma_vec()) {
        Some(j) => j,
        None => return None,
    };
    let (amount, j6) = match parse_u128_exec(s, j5) {
        Some(p) => p,
        None => return None,
    };
    let j7 = match expect(s, j6, &tok_rbracket_vec()) {
        Some(j) => j,
        None => return None,
    };
    Some(((from, to, amount), j7))
}

/// Consuming a stake edge off its canonical rendering yields the edge
/// itself and the rest.
#[verifier::rlimit(100)]
proof fn lemma_stake_item_unwind(e: (Seq<u8>, Seq<u8>, u128), rest: Seq<u8>)
    ensures
        parse_stake_item(json_stake_item(e).add(rest)) == Some((e, rest)),
{
    let x6 = tok_rbracket().add(rest);
    let x5 = dec_of(e.2).add(x6);
    let x4 = tok_comma().add(x5);
    let x3 = jstr(e.1).add(x4);
    let x2 = tok_comma().add(x3);
    let x1 = jstr(e.0).add(x2);
    let x0 = tok_lbracket().add(x1);
    assert(json_stake_item(e).add(rest) =~= x0);
    lemma_parse_lit_unwind(tok_lbracket(), x1);
    assert(x1 =~= seq![34u8].add(esc_of(e.0)).add(seq![34u8]).add(x2));
    lemma_parse_string_unwind(e.0, x2);
    lemma_parse_lit_unwind(tok_comma(), x3);
    assert(x3 =~= seq![34u8].add(esc_of(e.1)).add(seq![34u8]).add(x4));
    lemma_parse_string_unwind(e.1, x4);
    lemma_parse_lit_unwind(tok_comma(), x5);
    assert(x6[0] == 93);
    assert(!is_digit(x6[0]));
    lemma_parse_u128_unwind(e.2, x6);
    lemma_parse_lit_unwind(tok_rbracket(), rest);
}

/// The canonical comma-separated renderings of the stake edges.
pub open spec fn json_stake_items(s: Seq<(Seq<u8>, Seq<u8>, u128)>) -> Seq<u8>
    decreases s.len(),
{
    if s.len() == 0 {
        Seq::empty()
    } else if s.len() == 1 {
        json_stake_item(s[0])
    } else {
        json_stake_items(s.drop_last()).add(tok_comma()).add(json_stake_item(s.last()))
    }
}

/// The canonical stake snapshot document: one array of edges.
pub open spec fn stake_doc(s: Seq<(Seq<u8>, Seq<u8>, u128)>) -> Seq<u8> {
    tok_lbracket().add(json_stake_items(s)).add(tok_rbracket())
}

/// What consuming the remaining stake edges yields, those already read
/// standing in `acc`.
pub open spec fn parse_stake_items(s: Seq<u8>, acc: Seq<(Seq<u8>, Seq<u8>, u128)>) -> Option<
    (Seq<(Seq<u8>, Seq<u8>, u128)>, Seq<u8>),
>
    decreases s.len(),
{
    match parse_stake_item(s) {
        Option::None => None,
        Option::Some(p) => if p.1.len() > 0 && p.1[0] == 44 {
            if p.1.len() < s.len() {
                parse_stake_items(p.1.drop_first(), acc.push(p.0))
            } else {
                None
            }
        } else {
            match parse_lit(p.1, tok_rbracket()) {
                Option::None => None,
                Option::Some(s2) => Some((acc.push(p.0), s2)),
            }
        },
    }
}

/// What parsing a stake snapshot document yields: the text must be exactly
/// one array of edges.
pub open spec fn parse_stake_doc(s: Seq<u8>) -> Option<Seq<(Seq<u8>, Seq<u8>, u128)>> {
    match parse_lit(s, tok_lbracket()) {
        Option::None => None,
        Option::Some(s1) => if s1.len() > 0 && s1[0] == 93 {
            if s1.len() == 1 {
                Some(Seq::empty())
            } else {
                None
            }
        } else {
            match parse_stake_items(s1, Seq::empty()) {
                Option::None => None,
                Option::Some(v) => if v.1.len() == 0 {
                    Some(v.0)
                } else {
                    None
                },
            }
        },
    }
}

/// A nonempty edge list renders as its first edge followed by the rest.
proof fn lemma_stake_items_front(s: Seq<(Seq<u8>, Seq<u8>, u128)>)
    requires
        s.len() >= 1,
    ensures
        json_stake_items(s) == if s.len() == 1 {
            json_stake_item(s[0])
        } else {
            json_stake_item(s[0]).add(tok_comma()).add(json_stake_items(s.drop_first()))
        },
    decreases s.len(),
{
    if s.len() == 2 {
        assert(s.drop_last() =~= seq![s[0]]);
        assert(s.drop_first() =~= seq![s[1]]);
        assert(seq![s[0]][0] == s[0]);
        assert(seq![s[1]][0] == s[1]);
        assert(json_stake_items(seq![s[0]]) == json_stake_item(s[0]));
        assert(json_stake_items(seq![s[1]]) == json_stake_item(s[1]));
        assert(json_stake_items(s) == json_stake_items(s.drop_last()).add(tok_comma()).add(
            json_stake_item(s.last()),
        ));
        assert(json_stake_items(s) == json_stake_item(s[0]).add(tok_comma()).add(
            json_stake_items(s.drop_first()),
        ));
    } else if s.len() > 2 {
        lemma_stake_items_front(s.drop_last());
        assert(s.drop_last()[0] == s[0]);
        assert(s.drop_first().drop_last() =~= s.drop_last().drop_first());
        assert(s.drop_first().last() == s.last());
        assert(s.drop_first().len() >= 2);
        assert(json_stake_items(s.drop_first()) == json_stake_items(
            s.drop_first().drop_last(),
        ).add(tok_comma()).add(json_stake_item(s.drop_first().last())));
        assert(json_stake_items(s) == json_stake_items(s.drop_last()).add(tok_comma()).add(
            json_stake_item(s.last()),
        ));
        assert(json_stake_items(s) =~= json_stake_item(s[0]).add(tok_comma()).add(
            json_stake_items(s.drop_first()),
        ));
    }
}

/// A nonempty edge list renders to text that opens with a bracket.
proof fn lemma_stake_items_first(s: Seq<(Seq<u8>, Seq<u8>, u128)>)
    requires
        s.len() >= 1,
    ensures
        json_stake_items(s).len() >= 1,
        json_stake_items(s)[0] == 91,
    decreases s.len(),
{
    if s.len() == 1 {
        assert(json_stake_item(s[0])[0] == 91);
    } else {
        lemma_stake_items_first(s.drop_last());
    }
}

/// Consuming edges off a canonical edge list followed by the closing
/// bracket yields exactly those edges.
#[verifier::rlimit(100)]
proof fn lemma_stake_items_unwind(
    s: Seq<(Seq<u8>, Seq<u8>, u128)>,
    acc: Seq<(Seq<u8>, Seq<u8>, u128)>,
    rest: Seq<u8>,
)
    requires
        s.len() >= 1,
    ensures
        parse_stake_items(json_stake_items(s).add(seq![93u8]).add(rest), acc) == Some(
            (acc.add(s), rest),
        ),
    decreases s.len(),
{
    lemma_stake_items_front(s);
    let text = json_stake_items(s).add(seq![93u8]).add(rest);
    if s.len() == 1 {
        let x1 = seq![93u8].add(rest);
        assert(text =~= json_stake_item(s[0]).add(x1));
        lemma_stake_item_unwind(s[0], x1);
        assert(x1[0] == 93);
        assert(x1 =~= tok_rbracket().add(rest));
        lemma_parse_lit_unwind(tok_rbracket(), rest);
        assert(acc.push(s[0]) =~= acc.add(s));
    } else {
        let tail_items = json_stake_items(s.drop_first());
        let x1 = tok_comma().add(tail_items).add(seq![93u8]).add(rest);
        assert(text =~= json_stake_item(s[0]).add(x1));
        lemma_stake_item_unwind(s[0], x1);
        assert(x1[0] == 44);
        assert(json_stake_item(s[0]).len() >= 1);
        assert(x1.len() < text.len());
        assert(x1.drop_first() =~= tail_items.add(seq![93u8]).add(rest));
        lemma_stake_items_unwind(s.drop_first(), acc.push(s[0]), rest);
        assert(acc.push(s[0]).add(s.drop_first()) =~= acc.add(s));
    }
}

/// Round trip for the stake snapshot kind: parsing the canonical document
/// recovers exactly the edges that were rendered.
pub proof fn lemma_stake_roundtrip(s: Seq<(Seq<u8>, Seq<u8>, u128)>)
    ensures
        parse_stake_doc(stake_doc(s)) == Some(s),
{
    let text = stake_doc(s);
    if s.len() == 0 {
        assert(text =~= tok_lbracket().add(seq![93u8]));
        lemma_parse_lit_unwind(tok_lbracket(), seq![93u8]);
        assert(seq![93u8][0] == 93);
        assert(s =~= Seq::<(Seq<u8>, Seq<u8>, u128)>::empty());
    } else {
        let x = json_stake_items(s).add(seq![93u8]);
        assert(text =~= tok_lbracket().add(x));
        lemma_parse_lit_unwind(tok_lbracket(), x);
        lemma_stake_items_first(s);
        assert(x[0] == 91);
        lemma_stake_items_unwind(s, Seq::empty(), Seq::empty());
        assert(json_stake_items(s).add(seq![93u8]).add(Seq::<u8>::empty()) =~= x);
        assert(Seq::<(Seq<u8>, Seq<u8>, u128)>::empty().add(s) =~= s);
    }
}

/// Appends the canonical rendering of one stake edge.
#[verifier::rlimit(50)]
fn emit_stake_item(e: &(Vec<u8>, Vec<u8>, u128), out: &mut Vec<u8>)
    ensures
        final(out)@ == old(out)@.add(json_stake_item((e.0@, e.1@, e.2))),
{
    out.push(91);
    emit_jstr(&e.0, out);
    out.push(44);
    emit_jstr(&e.1, out);
    out.push(44);
    emit_u128(e.2, out);
    out.push(93);
    proof {
        assert(out@ =~= old(out)@.add(json_stake_item((e.0@, e.1@, e.2))));
    }
}

/// Renders the stake snapshot document: an array of from/to/amount triples
/// in the canonical form that `load_stake` reads back.
pub fn save_stake(stake: &Vec<(Vec<u8>, Vec<u8>, u128)>) -> (r: Vec<u8>)
    ensures
        r@ == stake_doc(stake_triples_view(stake@)),
{
    let ghost sv = stake_triples_view(stake@);
    let mut out: Vec<u8> = Vec::new();
    out.push(91);
    proof {
        assert(sv.take(0) =~= Seq::<(Seq<u8>, Seq<u8>, u128)>::empty());
        assert(out@ =~= tok_lbracket().add(json_stake_items(sv.take(0))));
    }
    for i in 0..stake.len()
        invariant
            sv == stake_triples_view(stake@),
            stake@.len() == sv.len(),
            out@ =~= tok_lbracket().add(json_stake_items(sv.take(i as int))),
    {
        if i > 0 {
            out.push(44);
        }
        let e = &stake[i];
        emit_stake_item(e, &mut out);
        proof {
            assert(sv[i as int] == (stake@[i as int].0@, stake@[i as int].1@, stake@[i as int].2));
            assert(sv.take(i + 1).drop_last() =~= sv.take(i as int));
            assert(sv.take(i + 1).last() == sv[i as int]);
            assert(out@ =~= tok_lbracket().add(json_stake_items(sv.take(i + 1))));
        }
    }
    out.push(93);
    proof {
        assert(sv.take(sv.len() as int) =~= sv);
        assert(out@ =~= stake_doc(sv));
    }
    out
}

/// Reads a stake snapshot back: the whole text must be one canonical array
/// of edges, else the document is rejected as malformed.
pub fn load_stake(text: &Vec<u8>) -> (r: Result<Vec<(Vec<u8>, Vec<u8>, u128)>, SnapshotError>)
    ensures
        match r {
            Ok(v) => parse_stake_doc(text@) == Some(stake_triples_view(v@)),
            Err(_) => parse_stake_doc(text@) is None,
        },
{
    let n = text.len();
    proof {
        assert(text@.skip(0) =~= text@);
    }
    let j0 = match expect(text, 0, &tok_lbracket_vec()) {
        Some(j) => j,
        None => return Err(SnapshotError::Malformed),
    };
    if j0 < n && *vstd::slice::slice_index_get(text.as_slice(), j0) == 93 {
        proof {
            assert(text@.skip(j0 as int)[0] == 93);
        }
        if n - j0 == 1 {
            let empty: Vec<(Vec<u8>, Vec<u8>, u128)> = Vec::new();
            proof {
                assert(stake_triples_view(empty@) =~= Seq::<(Seq<u8>, Seq<u8>, u128)>::empty());
            }
            return Ok(empty);
        } else {
            return Err(SnapshotError::Malformed);
        }
    }
    proof {
        assert(!(text@.skip(j0 as int).len() > 0 && text@.skip(j0 as int)[0] == 93));
    }
    let mut out: Vec<(Vec<u8>, Vec<u8>, u128)> = Vec::new();
    let mut j = j0;
    proof {
        assert(stake_triples_view(out@) =~= Seq::<(Seq<u8>, Seq<u8>, u128)>::empty());
        assert(parse_stake_doc(text@) == (match parse_stake_items(
            text@.skip(j0 as int),
            Seq::<(Seq<u8>, Seq<u8>, u128)>::empty(),
        ) {
            Option::None => None::<Seq<(Seq<u8>, Seq<u8>, u128)>>,
            Option::Some(v) => if v.1.len() == 0 {
                Some(v.0)
            } else {
                None
            },
        }));
    }
    loop
        invariant
            j0 <= j <= n,
            n == text@.len(),
            parse_stake_doc(text@) == (match parse_stake_items(
                text@.skip(j as int),
                stake_triples_view(out@),
            ) {
                Option::None => None::<Seq<(Seq<u8>, Seq<u8>, u128)>>,
                Option::Some(v) => if v.1.len() == 0 {
                    Some(v.0)
                } else {
                    None
                },
            }),
        decreases n - j,
    {
        let (edge, j2) = match parse_stake_item_exec(text, j) {
            Some(p) => p,
            None => return Err(SnapshotError::Malformed),
        };
        let ghost ev = (edge.0@, edge.1@, edge.2);
        if j2 < n && *vstd::slice::slice_index_get(text.as_slice(), j2) == 44 {
            proof {
                assert(text@.skip(j2 as int)[0] == 44);
            }
            if j2 <= j {
                return Err(SnapshotError::Malformed);
            }
            let ghost before = out@;
            out.push(edge);
            proof {
                assert(stake_triples_view(out@) =~= stake_triples_view(before).push(ev));
                assert(text@.skip(j2 as int).drop_first() =~= text@.skip(j2 + 1));
            }
            j = j2 + 1;
        } else {
            proof {
                assert(!(text@.skip(j2 as int).len() > 0 && text@.skip(j2 as int)[0] == 44));
            }
            let j3 = match expect(text, j2, &tok_rbracket_vec()) {
                Some(j3) => j3,
                None => return Err(SnapshotError::Malformed),
            };
            let ghost before = out@;
            out.push(edge);
            proof {
                assert(stake_triples_view(out@) =~= stake_triples_view(before).push(ev));
            }
            if j3 == n {
                proof {
                    assert(text@.skip(j3 as int).len() == 0);
                }
                return Ok(out);
            } else {
                return Err(SnapshotError::Malformed);
            }
        }
    }
}

/// The bytes of the token `:`.
pub open spec fn tok_colon() -> Seq<u8> {
    seq![58u8]
}

pub(crate) fn tok_colon_vec() -> (r: Vec<u8>)
    ensures
        r@ == tok_colon(),
{
    let v: Vec<u8> = vec![58u8];
    proof {
        assert(v@ =~= tok_colon());
    }
    v
}

/// The canonical JSON of one totals entry: address and aggregated amount.
pub open spec fn json_total_entry(p: (Seq<u8>, u128)) -> Seq<u8> {
    jstr(p.0).add(tok_colon()).add(dec_of(p.1))
}

/// What consuming one totals entry from the front of `s` yields.
pub open spec fn parse_total_entry(s: Seq<u8>) -> Option<((Seq<u8>, u128), Seq<u8>)> {
    match parse_string(s) {
        Option::None => None,
        Option::Some(name) => match parse_lit(name.1, tok_colon()) {
            Option::None => None,
            Option::Some(s1) => match parse_u128(s1) {
                Option::None => None,
                Option::Some(v) => Some(((name.0, v.0 as u128), v.1)),
            },
        },
    }
}

/// Consumes one totals entry at position `i`.
pub(crate) fn parse_total_entry_exec(s: &Vec<u8>, i: usize) -> (r: Option<((Vec<u8>, u128), usize)>)
    requires
        i <= s@.len(),
    ensures
        match r {
            Some(v) => i <= v.1 <= s@.len() && parse_total_entry(s@.skip(i as int)) == Some(
                (((v.0).0@, (v.0).1), s@.skip(v.1 as int)),
            ),
            None => parse_total_entry(s@.skip(i as int)) is None,
        },
{
    let (name, j1) = match parse_string_exec(s, i) {
        Some(p) => p,
        None => return None,
    };
    let j2 = match expect(s, j1, &tok_colon_vec()) {
        Some(j) => j,
        None => return None,
    };
    let (amount, j3) = match parse_u128_exec(s, j2) {
        Some(p) => p,
        None => return None,
    };
    Some(((name, amount), j3))
}

/// Consuming a totals entry off its canonical rendering followed by a
/// non-digit yields the entry itself and the rest.
#[verifier::rlimit(50)]
proof fn lemma_total_entry_unwind(p: (Seq<u8>, u128), rest: Seq<u8>)
    requires
        rest.len() == 0 || !is_digit(rest[0]),
    ensures
        parse_total_entry(json_total_entry(p).add(rest)) == Some((p, rest)),
{
    let x2 = dec_of(p.1).add(rest);
    let x1 = tok_colon().add(x2);
    let x0 = jstr(p.0).add(x1);
    assert(json_total_entry(p).add(rest) =~= x0);
    assert(x0 =~= seq![34u8].add(esc_of(p.0)).add(seq![34u8]).add(x1));
    lemma_parse_string_unwind(p.0, x1);
    lemma_parse_lit_unwind(tok_colon(), x2);
    lemma_parse_u128_unwind(p.1, rest);
}

/// The canonical comma-separated renderings of the totals entries.
pub open spec fn json_total_items(s: Seq<(Seq<u8>, u128)>) -> Seq<u8>
    decreases s.len(),
{
    if s.len() == 0 {
        Seq::empty()
    } else if s.len() == 1 {
        json_total_entry(s[0])
    } else {
        json_total_items(s.drop_last()).add(tok_comma()).add(json_total_entry(s.last()))
    }
}

/// The canonical totals snapshot document: one object mapping address
/// strings to amounts.
pub open spec fn totals_doc(s: Seq<(Seq<u8>, u128)>) -> Seq<u8> {
    tok_lbrace().add(json_total_items(s)).add(tok_rbrace())
}

/// What consuming the remaining totals entries yields, those already read
/// standing in `acc`.
pub open spec fn parse_total_items(s: Seq<u8>, acc: Seq<(Seq<u8>, u128)>) -> Option<
    (Seq<(Seq<u8>, u128)>, Seq<u8>),
>
    decreases s.len(),
{
    match parse_total_entry(s) {
        Option::None => None,
        Option::Some(p) => if p.1.len() > 0 && p.1[0] == 44 {
            if p.1.len() < s.len() {
                parse_total_items(p.1.drop_first(), acc.push(p.0))
            } else {
                None
            }
        } else {
            match parse_lit(p.1, tok_rbrace()) {
                Option::None => None,
                Option::Some(s2) => Some((acc.push(p.0), s2)),
            }
        },
    }
}

/// What parsing a totals snapshot document yields: the text must be
/// exactly one object of entries.
pub open spec fn parse_totals_doc(s: Seq<u8>) -> Option<Seq<(Seq<u8>, u128)>> {
    match parse_lit(s, tok_lbrace()) {
        Option::None => None,
        Option::Some(s1) => if s1.len() > 0 && s1[0] == 125 {
            if s1.len() == 1 {
                Some(Seq::empty())
            } else {
                None
            }
        } else {
            match parse_total_items(s1, Seq::empty()) {
                Option::None => None,
                Option::Some(v) => if v.1.len() == 0 {
                    Some(v.0)
                } else {
                    None
                },
            }
        },
    }
}

/// A nonempty totals list renders as its first entry followed by the rest.
proof fn lemma_total_items_front(s: Seq<(Seq<u8>, u128)>)
    requires
        s.len() >= 1,
    ensures
        json_total_items(s) == if s.len() == 1 {
            json_total_entry(s[0])
        } else {
            json_total_entry(s[0]).add(tok_comma()).add(json_total_items(s.drop_first()))
        },
    decreases s.len(),
{
    if s.len() == 2 {
        assert(s.drop_last() =~= seq![s[0]]);
        assert(s.drop_first() =~= seq![s[1]]);
        assert(seq![s[0]][0] == s[0]);
        assert(seq![s[1]][0] == s[1]);
        assert(json_total_items(seq![s[0]]) == json_total_entry(s[0]));
        assert(json_total_items(seq![s[1]]) == json_total_entry(s[1]));
        assert(json_total_items(s) == json_total_items(s.drop_last()).add(tok_comma()).add(
            json_total_entry(s.last()),
        ));
        assert(json_total_items(s) == json_total_entry(s[0]).add(tok_comma()).add(
            json_total_items(s.drop_first()),
        ));
    } else if s.len() > 2 {
        lemma_total_items_front(s.drop_last());
        assert(s.drop_last()[0] == s[0]);
        assert(s.drop_first().drop_last() =~= s.drop_last().drop_first());
        assert(s.drop_first().last() == s.last());
        assert(s.drop_first().len() >= 2);
        assert(json_total_items(s.drop_first()) == json_total_items(
            s.drop_first().drop_last(),
        ).add(tok_comma()).add(json_total_entry(s.drop_first().last())));
        assert(json_total_items(s) == json_total_items(s.drop_last()).add(tok_comma()).add(
            json_total_entry(s.last()),
        ));
        assert(json_total_items(s) =~= json_total_entry(s[0]).add(tok_comma()).add(
            json_total_items(s.drop_first()),
        ));
    }
}

/// A nonempty totals list renders to text that opens with a quote.
proof fn lemma_total_items_first(s: Seq<(Seq<u8>, u128)>)
    requires
        s.len() >= 1,
    ensures
        json_total_items(s).len() >= 1,
        json_total_items(s)[0] == 34,
    decreases s.len(),
{
    if s.len() == 1 {
        assert(json_total_entry(s[0])[0] == 34);
    } else {
        lemma_total_items_first(s.drop_last());
    }
}

/// Consuming entries off a canonical totals list followed by the closing
/// brace yields exactly those entries.
#[verifier::rlimit(100)]
proof fn lemma_total_items_unwind(
    s: Seq<(Seq<u8>, u128)>,
    acc: Seq<(Seq<u8>, u128)>,
    rest: Seq<u8>,
)
    requires
        s.len() >= 1,
    ensures
        parse_total_items(json_total_items(s).add(seq![125u8]).add(rest), acc) == Some(
            (acc.add(s), rest),
        ),
    decreases s.len(),
{
    lemma_total_items_front(s);
    let text = json_total_items(s).add(seq![125u8]).add(rest);
    if s.len() == 1 {
        let x1 = seq![125u8].add(rest);
        assert(text =~= json_total_entry(s[0]).add(x1));
        assert(x1[0] == 125);
        assert(!is_digit(x1[0]));
        lemma_total_entry_unwind(s[0], x1);
        assert(x1 =~= tok_rbrace().add(rest));
        lemma_parse_lit_unwind(tok_rbrace(), rest);
        assert(acc.push(s[0]) =~= acc.add(s));
    } else {
        let tail_items = json_total_items(s.drop_first());
        let x1 = tok_comma().add(tail_items).add(seq![125u8]).add(rest);
        assert(text =~= json_total_entry(s[0]).add(x1));
        assert(x1[0] == 44);
        assert(!is_digit(x1[0]));
        lemma_total_entry_unwind(s[0], x1);
        assert(json_total_entry(s[0]).len() >= 1);
        assert(x1.len() < text.len());
        assert(x1.drop_first() =~= tail_items.add(seq![125u8]).add(rest));
        lemma_total_items_unwind(s.drop_first(), acc.push(s[0]), rest);
        assert(acc.push(s[0]).add(s.drop_first()) =~= acc.add(s));
    }
}

/// Round trip for the totals snapshot kind: parsing the canonical document
/// recovers exactly the entries that were rendered.
pub proof fn lemma_totals_roundtrip(s: Seq<(Seq<u8>, u128)>)
    ensures
        parse_totals_doc(totals_doc(s)) == Some(s),
{
    let text = totals_doc(s);
    if s.len() == 0 {
        assert(text =~= tok_lbrace().add(seq![125u8]));
        lemma_parse_lit_unwind(tok_lbrace(), seq![125u8]);
        assert(seq![125u8][0] == 125);
        assert(s =~= Seq::<(Seq<u8>, u128)>::empty());
    } else {
        let x = json_total_items(s).add(seq![125u8]);
        assert(text =~= tok_lbrace().add(x));
        lemma_parse_lit_unwind(tok_lbrace(), x);
        lemma_total_items_first(s);
        assert(x[0] == 34);
        lemma_total_items_unwind(s, Seq::empty(), Seq::empty());
        assert(json_total_items(s).add(seq![125u8]).add(Seq::<u8>::empty()) =~= x);
        assert(Seq::<(Seq<u8>, u128)>::empty().add(s) =~= s);
    }
}

/// Appends the canonical rendering of one totals entry.
fn emit_total_entry(e: &(Vec<u8>, u128), out: &mut Vec<u8>)
    ensures
        final(out)@ == old(out)@.add(json_total_entry((e.0@, e.1))),
{
    emit_jstr(&e.0, out);
    out.push(58);
    emit_u128(e.1, out);
    proof {
        assert(out@ =~= old(out)@.add(json_total_entry((e.0@, e.1))));
    }
}

/// Renders the totals snapshot document: an object mapping each identity's
/// address to its aggregated total, in the canonical form that
/// `load_balances` reads back.
pub fn save_balances(balances: &BalanceMap) -> (r: Vec<u8>)
    ensures
        r@ == totals_doc(balances.entry_seq()),
{
    let entries = balances.raw_entries();
    let ghost ev = balances.entry_seq();
    let mut out: Vec<u8> = Vec::new();
    out.push(123);
    proof {
        assert(ev.take(0) =~= Seq::<(Seq<u8>, u128)>::empty());
        assert(out@ =~= tok_lbrace().add(json_total_items(ev.take(0))));
    }
    for i in 0..entries.len()
        invariant
            amount_pairs_view(entries@) == ev,
            entries@.len() == ev.len(),
            out@ =~= tok_lbrace().add(json_total_items(ev.take(i as int))),
    {
        if i > 0 {
            out.push(44);
        }
        let e = &entries[i];
        emit_total_entry(e, &mut out);
        proof {
            assert(ev[i as int] == (entries@[i as int].0@, entries@[i as int].1));
            assert(ev.take(i + 1).drop_last() =~= ev.take(i as int));
            assert(ev.take(i + 1).last() == ev[i as int]);
            assert(out@ =~= tok_lbrace().add(json_total_items(ev.take(i + 1))));
        }
    }
    out.push(125);
    proof {
        assert(ev.take(ev.len() as int) =~= ev);
        assert(out@ =~= totals_doc(ev));
    }
    out
}

/// Reads a totals snapshot back: the whole text must be one canonical
/// object of entries, else the document is rejected as malformed.
pub fn load_balances(text: &Vec<u8>) -> (r: Result<BalanceMap, SnapshotError>)
    ensures
        match r {
            Ok(m) => parse_totals_doc(text@) == Some(m.entry_seq()),
            Err(_) => parse_totals_doc(text@) is None,
        },
{
    let n = text.len();
    proof {
        assert(text@.skip(0) =~= text@);
    }
    let j0 = match expect(text, 0, &tok_lbrace_vec()) {
        Some(j) => j,
        None => return Err(SnapshotError::Malformed),
    };
    if j0 < n && *vstd::slice::slice_index_get(text.as_slice(), j0) == 125 {
        proof {
            assert(text@.skip(j0 as int)[0] == 125);
        }
        if n - j0 == 1 {
            let empty: Vec<(Vec<u8>, u128)> = Vec::new();
            let m = BalanceMap::from_entries(empty);
            proof {
                assert(m.entry_seq() =~= Seq::<(Seq<u8>, u128)>::empty());
            }
            return Ok(m);
        } else {
            return Err(SnapshotError::Malformed);
        }
    }
    proof {
        assert(!(text@.skip(j0 as int).len() > 0 && text@.skip(j0 as int)[0] == 125));
    }
    let mut out: Vec<(Vec<u8>, u128)> = Vec::new();
    let mut j = j0;
    proof {
        assert(amount_pairs_view(out@) =~= Seq::<(Seq<u8>, u128)>::empty());
        assert(parse_totals_doc(text@) == (match parse_total_items(
            text@.skip(j0 as int),
            Seq::<(Seq<u8>, u128)>::empty(),
        ) {
            Option::None => None::<Seq<(Seq<u8>, u128)>>,
            Option::Some(v) => if v.1.len() == 0 {
                Some(v.0)
            } else {
                None
            },
        }));
    }
    loop
        invariant
            j0 <= j <= n,
            n == text@.len(),
            parse_totals_doc(text@) == (match parse_total_items(
                text@.skip(j as int),
                amount_pairs_view(out@),
            ) {
                Option::None => None::<Seq<(Seq<u8>, u128)>>,
                Option::Some(v) => if v.1.len() == 0 {
                    Some(v.0)
                } else {
                    None
                },
            }),
        decreases n - j,
    {
        let (entry, j2) = match parse_total_entry_exec(text, j) {
            Some(p) => p,
            None => return Err(SnapshotError::Malformed),
        };
        let ghost pv = (entry.0@, entry.1);
        if j2 < n && *vstd::slice::slice_index_get(text.as_slice(), j2) == 44 {
            proof {
                assert(text@.skip(j2 as int)[0] == 44);
            }
            if j2 <= j {
                return Err(SnapshotError::Malformed);
            }
            let ghost before = out@;
            out.push(entry);
            proof {
                assert(amount_pairs_view(out@) =~= amount_pairs_view(before).push(pv));
                assert(text@.skip(j2 as int).drop_first() =~= text@.skip(j2 + 1));
            }
            j = j2 + 1;
        } else {
            proof {
                assert(!(text@.skip(j2 as int).len() > 0 && text@.skip(j2 as int)[0] == 44));
            }
            let j3 = match expect(text, j2, &tok_rbrace_vec()) {
                Some(j3) => j3,
                None => return Err(SnapshotError::Malformed),
            };
            let ghost before = out@;
            out.push(entry);
            proof {
                assert(amount_pairs_view(out@) =~= amount_pairs_view(before).push(pv));
            }
            if j3 == n {
                proof {
                    assert(text@.skip(j3 as int).len() == 0);
                }
                let m = BalanceMap::from_entries(out);
                return Ok(m);
            } else {
                return Err(SnapshotError::Malformed);
            }
        }
    }
}

} // verus!
