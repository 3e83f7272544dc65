use vstd::prelude::*;

use vstd::arithmetic::div_mod::lemma_fundamental_div_mod;

verus! {

/// An ASCII decimal digit.
pub open spec fn is_digit(b: u8) -> bool {
    48 <= b <= 57
}

/// A lowercase hexadecimal digit (decimal digits included).
pub open spec fn is_hex(b: u8) -> bool {
    is_digit(b) || 97 <= b <= 102
}

/// The numeric value of a hexadecimal digit.
pub open spec fn hex_val(b: u8) -> int {
    if is_digit(b) {
        b - 48
    } else {
        b - 87
    }
}

/// The lowercase hexadecimal digit of a value below 16.
pub open spec fn hex_digit(d: int) -> u8 {
    if d < 10 {
        (48 + d) as u8
    } else {
        (87 + d) as u8
    }
}

/// The shortest decimal rendering of `n`.
pub open spec fn dec_of(n: u128) -> Seq<u8>
    decreases n,
{
    if n < 10 {
        seq![(48 + n) as u8]
    } else {
        dec_of(n / 10).push((48 + n % 10) as u8)
    }
}

/// How a JSON string escapes one byte: quote and backslash get a backslash,
/// control bytes become a `\u00..` sequence, everything else stands as is.
pub open spec fn esc_byte(b: u8) -> Seq<u8> {
    if b == 34 || b == 92 {
        seq![92u8, b]
    } else if b < 32 {
        seq![92u8, 117u8, 48u8, 48u8, hex_digit(b as int / 16), hex_digit(b as int % 16)]
    } else {
        seq![b]
    }
}

/// The escaped form of a whole byte string.
pub open spec fn esc_of(s: Seq<u8>) -> Seq<u8>
    decreases s.len(),
{
    if s.len() == 0 {
        Seq::empty()
    } else {
        esc_byte(s[0]).add(esc_of(s.drop_first()))
    }
}

/// What consuming the exact literal `t` from the front of `s` leaves.
pub open spec fn parse_lit(s: Seq<u8>, t: Seq<u8>) -> Option<Seq<u8>> {
    if t.len() <= s.len() && s.take(t.len() as int) == t {
        Some(s.skip(t.len() as int))
    } else {
        None
    }
}

/// What consuming further digits yields, starting from the value `acc`:
/// the final value and the remainder, unless the value outgrows `u128`.
pub open spec fn parse_num_rec(s: Seq<u8>, acc: int) -> Option<(int, Seq<u8>)>
    decreases s.len(),
{
    if s.len() > 0 && is_digit(s[0]) {
        if acc * 10 + (s[0] - 48) <= u128::MAX {
            parse_num_rec(s.drop_first(), acc * 10 + (s[0] - 48))
        } else {
            None
        }
    } else {
        Some((acc, s))
    }
}

/// What consuming a decimal number from the front of `s` yields: there must
/// be at least one digit, and the value must fit `u128`.
pub open spec fn parse_u128(s: Seq<u8>) -> Option<(int, Seq<u8>)> {
    if s.len() > 0 && is_digit(s[0]) {
        parse_num_rec(s, 0)
    } else {
        None
    }
}

/// What consuming a string body up to its closing quote yields, the bytes
/// read so far standing in `acc`: the unescaped bytes and the remainder.
pub open spec fn parse_str_rec(s: Seq<u8>, acc: Seq<u8>) -> Option<(Seq<u8>, Seq<u8>)>
    decreases s.len(),
{
    if s.len() == 0 {
        None
    } else if s[0] == 34 {
        Some((acc, s.drop_first()))
    } else if s[0] == 92 {
        if s.len() < 2 {
            None
        } else if s[1] == 34 || s[1] == 92 {
            parse_str_rec(s.skip(2), acc.push(s[1]))
        } else if s[1] == 117 {
            if s.len() < 6 {
                None
            } else if s[2] == 48 && s[3] == 48 && is_hex(s[4]) && is_hex(s[5]) {
                parse_str_rec(s.skip(6), acc.push((hex_val(s[4]) * 16 + hex_val(s[5])) as u8))
            } else {
                None
            }
        } else {
            None
        }
    } else {
        parse_str_rec(s.drop_first(), acc.push(s[0]))
    }
}

/// What consuming a quoted string from the front of `s` yields.
pub open spec fn parse_string(s: Seq<u8>) -> Option<(Seq<u8>, Seq<u8>)> {
    if s.len() > 0 && s[0] == 34 {
        parse_str_rec(s.drop_first(), Seq::empty())
    } else {
        None
    }
}

/// Consuming a literal off the text that starts with it leaves the rest.
pub proof fn lemma_parse_lit_unwind(t: Seq<u8>, rest: Seq<u8>)
    ensures
        parse_lit(t.add(rest), t) == Some(rest),
{
    assert(t.add(rest).take(t.len() as int) =~= t);
    assert(t.add(rest).skip(t.len() as int) =~= rest);
}

/// Every byte of a decimal rendering is a digit.
proof fn lemma_dec_digits(n: u128)
    ensures
        dec_of(n).len() >= 1,
        forall|i: int| 0 <= i < dec_of(n).len() ==> is_digit(#[trigger] dec_of(n)[i]),
    decreases n,
{
    if n >= 10 {
        lemma_dec_digits(n / 10);
    }
}

/// The value the digit-consumer accumulates over a digit string.
pub open spec fn combine(acc: int, ds: Seq<u8>) -> int
    decreases ds.len(),
{
    if ds.len() == 0 {
        acc
    } else {
        combine(acc * 10 + (ds[0] - 48), ds.drop_first())
    }
}

proof fn lemma_combine_snoc(acc: int, ds: Seq<u8>, d: u8)
    ensures
        combine(acc, ds.push(d)) == combine(acc, ds) * 10 + (d - 48),
    decreases ds.len(),
{
    if ds.len() == 0 {
        assert(ds.push(d)[0] == d);
        assert(ds.push(d).drop_first() =~= Seq::<u8>::empty());
        assert(combine(acc * 10 + (d - 48), Seq::<u8>::empty()) == acc * 10 + (d - 48));
        assert(combine(acc, ds) == acc);
    } else {
        assert(ds.push(d)[0] == ds[0]);
        assert(ds.push(d).drop_first() =~= ds.drop_first().push(d));
        lemma_combine_snoc(acc * 10 + (ds[0] - 48), ds.drop_first(), d);
    }
}

proof fn lemma_combine_dec(n: u128)
    ensures
        combine(0, dec_of(n)) == n,
    decreases n,
{
    if n < 10 {
        assert(dec_of(n)[0] == (48 + n) as u8);
        assert(dec_of(n).drop_first() =~= Seq::<u8>::empty());
        assert(combine(0, dec_of(n)) == combine((48 + n) as u8 - 48, Seq::<u8>::empty()));
        assert(combine((48 + n) as u8 - 48, Seq::<u8>::empty()) == n);
    } else {
        lemma_combine_dec(n / 10);
        lemma_combine_snoc(0, dec_of(n / 10), (48 + n % 10) as u8);
        lemma_fundamental_div_mod(n as int, 10);
    }
}

proof fn lemma_combine_lower_bound(acc: int, ds: Seq<u8>)
    requires
        acc >= 0,
        forall|i: int| 0 <= i < ds.len() ==> is_digit(#[trigger] ds[i]),
    ensures
        combine(acc, ds) >= acc,
    decreases ds.len(),
{
    if ds.len() > 0 {
        assert(forall|i: int|
            0 <= i < ds.drop_first().len() ==> is_digit(#[trigger] ds.drop_first()[i]));
        lemma_combine_lower_bound(acc * 10 + (ds[0] - 48), ds.drop_first());
    }
}

/// The digit-consumer run over a digit string followed by a non-digit
/// consumes exactly the digits and accumulates their value.
proof fn lemma_parse_num_rec_unwind(ds: Seq<u8>, rest: Seq<u8>, acc: int)
    requires
        forall|i: int| 0 <= i < ds.len() ==> is_digit(#[trigger] ds[i]),
        rest.len() == 0 || !is_digit(rest[0]),
        0 <= acc,
        combine(acc, ds) <= u128::MAX,
    ensures
        parse_num_rec(ds.add(rest), acc) == Some((combine(acc, ds), rest)),
    decreases ds.len(),
{
    let s = ds.add(rest);
    if ds.len() == 0 {
        assert(s =~= rest);
    } else {
        assert(s[0] == ds[0]);
        assert(forall|i: int|
            0 <= i < ds.drop_first().len() ==> is_digit(#[trigger] ds.drop_first()[i]));
        lemma_combine_lower_bound(acc * 10 + (ds[0] - 48), ds.drop_first());
        assert(acc * 10 + (ds[0] - 48) <= u128::MAX);
        assert(s.drop_first() =~= ds.drop_first().add(rest));
        lemma_parse_num_rec_unwind(ds.drop_first(), rest, acc * 10 + (ds[0] - 48));
    }
}

/// Consuming a number off the decimal rendering of `n` followed by a
/// non-digit yields `n` and the rest.
pub proof fn lemma_parse_u128_unwind(n: u128, rest: Seq<u8>)
    requires
        rest.len() == 0 || !is_digit(rest[0]),
    ensures
        parse_u128(dec_of(n).add(rest)) == Some((n as int, rest)),
{
    lemma_dec_digits(n);
    lemma_combine_dec(n);
    lemma_parse_num_rec_unwind(dec_of(n), rest, 0);
    assert(dec_of(n).add(rest)[0] == dec_of(n)[0]);
}

proof fn lemma_hex_digit_val(d: int)
    requires
        0 <= d < 16,
    ensures
        is_hex(hex_digit(d)),
        hex_val(hex_digit(d)) == d,
{
}

/// Consuming a string body off the escaped form of `s` followed by the
/// closing quote unescapes exactly `s`.
proof fn lemma_parse_str_rec_unwind(s: Seq<u8>, rest: Seq<u8>, acc: Seq<u8>)
    ensures
        parse_str_rec(esc_of(s).add(seq![34u8]).add(rest), acc) == Some((acc.add(s), rest)),
    decreases s.len(),
{
    let text = esc_of(s).add(seq![34u8]).add(rest);
    if s.len() == 0 {
        assert(text[0] == 34);
        assert(text.drop_first() =~= rest);
        assert(acc.add(s) =~= acc);
    } else {
        let b = s[0];
        let tailtext = esc_of(s.drop_first()).add(seq![34u8]).add(rest);
        assert(text =~= esc_byte(b).add(tailtext));
        if b == 34 || b == 92 {
            assert(text[0] == 92);
            assert(text[1] == b);
            assert(text.skip(2) =~= tailtext);
            lemma_parse_str_rec_unwind(s.drop_first(), rest, acc.push(b));
            assert(acc.push(b).add(s.drop_first()) =~= acc.add(s));
        } else if b < 32 {
            lemma_fundamental_div_mod(b as int, 16);
            lemma_hex_digit_val(b as int / 16);
            lemma_hex_digit_val(b as int % 16);
            assert(text[0] == 92);
            assert(text[1] == 117);
            assert(text[2] == 48);
            assert(text[3] == 48);
            assert(text[4] == hex_digit(b as int / 16));
            assert(text[5] == hex_digit(b as int % 16));
            assert(text.len() >= 6);
            assert(text.skip(6) =~= tailtext);
            assert((hex_val(text[4]) * 16 + hex_val(text[5])) as u8 == b);
            lemma_parse_str_rec_unwind(s.drop_first(), rest, acc.push(b));
            assert(acc.push(b).add(s.drop_first()) =~= acc.add(s));
        } else {
            assert(text[0] == b);
            assert(b != 34 && b != 92);
            assert(text.drop_first() =~= tailtext);
            lemma_parse_str_rec_unwind(s.drop_first(), rest, acc.push(b));
            assert(acc.push(b).add(s.drop_first()) =~= acc.add(s));
        }
    }
}

/// Consuming a quoted string off the quoted, escaped form of `s` yields
/// exactly `s` and the rest.
pub proof fn lemma_parse_string_unwind(s: Seq<u8>, rest: Seq<u8>)
    ensures
        parse_string(seq![34u8].add(esc_of(s)).add(seq![34u8]).add(rest)) == Some((s, rest)),
{
    let text = seq![34u8].add(esc_of(s)).add(seq![34u8]).add(rest);
    assert(text[0] == 34);
    assert(text.drop_first() =~= esc_of(s).add(seq![34u8]).add(rest));
    lemma_parse_str_rec_unwind(s, rest, Seq::empty());
    assert(Seq::<u8>::empty().add(s) =~= s);
}


/// Appends a literal token.
pub(crate) fn push_tok(out: &mut Vec<u8>, t: &Vec<u8>)
    ensures
        final(out)@ == old(out)@.add(t@),
{
    let ghost base = out@;
    for i in 0..t.len()
        invariant
            out@ =~= base.add(t@.take(i as int)),
    {
        out.push(t[i]);
        proof {
            assert(out@ =~= base.add(t@.take(i + 1)));
        }
    }
    proof {
        assert(out@ =~= base.add(t@));
    }
}

/// Appends the shortest decimal rendering of `n`.
pub(crate) fn emit_u128(n: u128, out: &mut Vec<u8>)
    ensures
        final(out)@ == old(out)@.add(dec_of(n)),
    decreases n,
{
    if n < 10 {
        out.push(48 + (n as u8));
        proof {
            assert(out@ =~= old(out)@.add(dec_of(n)));
        }
    } else {
        emit_u128(n / 10, out);
        out.push(48 + ((n % 10) as u8));
        proof {
            assert(out@ =~= old(out)@.add(dec_of(n)));
        }
    }
}

proof fn lemma_esc_append(a: Seq<u8>, b: Seq<u8>)
    ensures
        esc_of(a.add(b)) == esc_of(a).add(esc_of(b)),
    decreases a.len(),
{
    if a.len() == 0 {
        assert(a.add(b) =~= b);
        assert(esc_of(a).add(esc_of(b)) =~= esc_of(b));
    } else {
        assert(a.add(b)[0] == a[0]);
        assert(a.add(b).drop_first() =~= a.drop_first().add(b));
        lemma_esc_append(a.drop_first(), b);
        assert(esc_of(a.add(b)) =~= esc_of(a).add(esc_of(b)));
    }
}

/// Appends the escaped form of `s`.
pub(crate) fn emit_escaped(s: &Vec<u8>, out: &mut Vec<u8>)
    ensures
        final(out)@ == old(out)@.add(esc_of(s@)),
{
    let ghost base = out@;
    proof {
        assert(esc_of(s@.take(0)) =~= Seq::<u8>::empty());
        assert(out@ =~= base.add(esc_of(s@.take(0))));
    }
    for i in 0..s.len()
        invariant
            out@ =~= base.add(esc_of(s@.take(i as int))),
    {
        let b = s[i];
        if b == 34 || b == 92 {
            out.push(92);
            out.push(b);
        } else if b < 32 {
            out.push(92);
            out.push(117);
            out.push(48);
            out.push(48);
            let hi = b / 16;
            let lo = b % 16;
            out.push(if hi < 10 { 48 + hi } else { 87 + hi });
            out.push(if lo < 10 { 48 + lo } else { 87 + lo });
        } else {
            out.push(b);
        }
        proof {
            let x = s@[i as int];
            lemma_esc_append(s@.take(i as int), seq![x]);
            assert(s@.take(i + 1) =~= s@.take(i as int).add(seq![x]));
            assert(seq![x][0] == x);
            assert(seq![x].len() == 1);
            assert(seq![x].drop_first() =~= Seq::<u8>::empty());
            assert(esc_of(Seq::<u8>::empty()) =~= Seq::<u8>::empty());
            assert(esc_of(seq![x]) == esc_byte(seq![x][0]).add(esc_of(seq![x].drop_first())));
            assert(esc_of(seq![x]) =~= esc_byte(x).add(Seq::<u8>::empty()));
            assert(esc_of(seq![x]) =~= esc_byte(x));
            assert(out@ =~= base.add(esc_of(s@.take(i + 1))));
        }
    }
    proof {
        assert(s@.take(s@.len() as int) =~= s@);
    }
}

/// Consumes the exact literal `t` at position `i`, yielding the position
/// after it.
pub(crate) fn expect(s: &Vec<u8>, i: usize, t: &Vec<u8>) -> (r: Option<usize>)
    requires
        i <= s@.len(),
    ensures
        match r {
            Some(j) => i <= j <= s@.len() && parse_lit(s@.skip(i as int), t@) == Some(
                s@.skip(j as int),
            ),
            None => parse_lit(s@.skip(i as int), t@) is None,
        },
{
    if s.len() - i < t.len() {
        return None;
    }
    for k in 0..t.len()
        invariant
            i + t@.len() <= s@.len(),
            s@.len() <= usize::MAX,
            forall|j: int| 0 <= j < k ==> s@[i + j] == t@[j],
    {
        if s[i + k] != t[k] {
            proof {
                assert(s@.skip(i as int).take(t@.len() as int)[k as int] != t@[k as int]);
            }
            return None;
        }
    }
    proof {
        assert(s@.skip(i as int).take(t@.len() as int) =~= t@);
        assert(s@.skip(i as int).skip(t@.len() as int) =~= s@.skip(i + t@.len()));
    }
    Some(i + t.len())
}

/// Consumes a decimal number at position `i`: at least one digit, value
/// fitting `u128`.
pub(crate) fn parse_u128_exec(s: &Vec<u8>, i: usize) -> (r: Option<(u128, usize)>)
    requires
        i <= s@.len(),
    ensures
        match r {
            Some(v) => i <= v.1 <= s@.len() && parse_u128(s@.skip(i as int)) == Some(
                (v.0 as int, s@.skip(v.1 as int)),
            ),
            None => parse_u128(s@.skip(i as int)) is None,
        },
{
    let n = s.len();
    if i == n || !(48 <= s[i] && s[i] <= 57) {
        return None;
    }
    let mut acc: u128 = 0;
    let mut j: usize = i;
    proof {
        assert(parse_num_rec(s@.skip(i as int), 0) == parse_num_rec(s@.skip(j as int), acc as int));
    }
    while j < n && 48 <= s[j] && s[j] <= 57
        invariant
            i <= j <= n,
            n == s@.len(),
            parse_num_rec(s@.skip(i as int), 0) == parse_num_rec(s@.skip(j as int), acc as int),
        ensures
            i <= j <= n,
            parse_num_rec(s@.skip(i as int), 0) == parse_num_rec(s@.skip(j as int), acc as int),
            j == n || !is_digit(s@[j as int]),
        decreases n - j,
    {
        let d: u128 = (s[j] - 48) as u128;
        proof {
            assert(s@.skip(j as int).len() > 0);
            assert(s@.skip(j as int)[0] == s@[j as int]);
            assert(s@.skip(j as int).drop_first() =~= s@.skip(j + 1));
        }
        let next = match acc.checked_mul(10) {
            Some(x) => x.checked_add(d),
            None => None,
        };
        match next {
            Some(x) => {
                acc = x;
                j = j + 1;
            },
            None => {
                proof {
                    assert(parse_num_rec(s@.skip(j as int), acc as int) is None);
                }
                return None;
            },
        }
    }
    proof {
        if j < n {
            assert(s@.skip(j as int)[0] == s@[j as int]);
        }
        assert(parse_num_rec(s@.skip(j as int), acc as int) == Some(
            (acc as int, s@.skip(j as int)),
        ));
    }
    Some((acc, j))
}

/// Consumes a quoted string at position `i`, unescaping its body.
pub(crate) fn parse_string_exec(s: &Vec<u8>, i: usize) -> (r: Option<(Vec<u8>, usize)>)
    requires
        i <= s@.len(),
    ensures
        match r {
            Some(v) => i <= v.1 <= s@.len() && parse_string(s@.skip(i as int)) == Some(
                (v.0@, s@.skip(v.1 as int)),
            ),
            None => parse_string(s@.skip(i as int)) is None,
        },
{
    let n = s.len();
    if i == n || s[i] != 34 {
        return None;
    }
    proof {
        assert(s@.skip(i as int)[0] == 34);
        assert(s@.skip(i as int).drop_first() =~= s@.skip(i + 1));
    }
    let mut acc: Vec<u8> = Vec::new();
    let mut j: usize = i + 1;
    proof {
        assert(acc@ =~= Seq::<u8>::empty());
    }
    loop
        invariant_except_break
            parse_str_rec(s@.skip(i + 1), Seq::<u8>::empty()) == parse_str_rec(
                s@.skip(j as int),
                acc@,
            ),
        invariant
            i + 1 <= j <= n,
            n == s@.len(),
            parse_string(s@.skip(i as int)) == parse_str_rec(
                s@.skip(i + 1),
                Seq::<u8>::empty(),
            ),
        ensures
            i <= j <= n,
            parse_string(s@.skip(i as int)) == Some((acc@, s@.skip(j as int))),
        decreases n - j,
    {
        if j == n {
            proof {
                assert(s@.skip(j as int).len() == 0);
            }
            return None;
        }
        proof {
            assert(s@.skip(j as int).len() > 0);
            assert(s@.skip(j as int)[0] == s@[j as int]);
        }
        let b = s[j];
        if b == 34 {
            proof {
                assert(s@.skip(j as int).drop_first() =~= s@.skip(j + 1));
                assert(parse_str_rec(s@.skip(j as int), acc@) == Some((acc@, s@.skip(j + 1))));
            }
            j = j + 1;
            break ;
        } else if b == 92 {
            if n - j < 2 {
                proof {
                    assert(s@.skip(j as int).len() < 2);
                }
                return None;
            }
            proof {
                assert(s@.skip(j as int)[1] == s@[j + 1]);
            }
            let e = s[j + 1];
            if e == 34 || e == 92 {
                acc.push(e);
                proof {
                    assert(s@.skip(j as int).skip(2) =~= s@.skip(j + 2));
                }
                j = j + 2;
            } else if e == 117 {
                if n - j < 6 {
                    proof {
                        assert(s@.skip(j as int).len() < 6);
                    }
                    return None;
                }
                proof {
                    assert(s@.skip(j as int)[2] == s@[j + 2]);
                    assert(s@.skip(j as int)[3] == s@[j + 3]);
                    assert(s@.skip(j as int)[4] == s@[j + 4]);
                    assert(s@.skip(j as int)[5] == s@[j + 5]);
                }
                let h1 = s[j + 4];
                let h2 = s[j + 5];
                let ok1 = (48 <= h1 && h1 <= 57) || (97 <= h1 && h1 <= 102);
                let ok2 = (48 <= h2 && h2 <= 57) || (97 <= h2 && h2 <= 102);
                if s[j + 2] == 48 && s[j + 3] == 48 && ok1 && ok2 {
                    let v1: u8 = if h1 <= 57 {
                        h1 - 48
                    } else {
                        h1 - 87
                    };
                    let v2: u8 = if h2 <= 57 {
                        h2 - 48
                    } else {
                        h2 - 87
                    };
                    acc.push(v1 * 16 + v2);
                    proof {
                        assert(s@.skip(j as int).skip(6) =~= s@.skip(j + 6));
                    }
                    j = j + 6;
                } else {
                    return None;
                }
            } else {
                return None;
            }
        } else {
            acc.push(b);
            proof {
                assert(s@.skip(j as int).drop_first() =~= s@.skip(j + 1));
            }
            j = j + 1;
        }
    }
    Some((acc, j))
}

} // verus!
