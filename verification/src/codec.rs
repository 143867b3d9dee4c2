//! Wire format of persisted selections: a canonical JSON encoding of
//! [`VecSwapPathSelected`], and its parser.
//!
//! The serializer writes one canonical byte form — fixed key order, no
//! whitespace, decimal numbers without leading zeros — and the parser
//! accepts exactly that form, so that parsing inverts serialization:
//! a serialized selection always parses back to an equal value.  Names
//! are restricted to plain printable bytes (no quote, no backslash, no
//! control bytes), which keeps the quoting of the format trivial.

use vstd::prelude::*;
use crate::types::{
    copy_bytes, hops_view, impacts_view, results_view, selecteds_view, Hop, HopData, ResultData,
    SelectedData, SwapPath, SwapPathResult, SwapPathSelected, VecSwapPathSelected,
};

verus! {

/// ASCII decimal digit.
pub open spec fn is_digit(b: u8) -> bool {
    48 <= b <= 57
}

/// A byte a serialized name may hold: printable ASCII without the quote
/// and without the backslash.
pub open spec fn plain_byte(b: u8) -> bool {
    0x20 <= b <= 0x7E && b != 0x22 && b != 0x5C
}

/// Every byte of the string is plain.
pub open spec fn plain_bytes(s: Seq<u8>) -> bool {
    forall|i: int| 0 <= i < s.len() ==> plain_byte(#[trigger] s[i])
}

/// Consuming a fixed literal: the position after it when it stands at
/// `pos`, nothing otherwise.
pub open spec fn spec_expect(s: Seq<u8>, pos: int, lit: Seq<u8>) -> Option<int> {
    if 0 <= pos && pos + lit.len() <= s.len() && s.subrange(pos, pos + lit.len() as int) == lit {
        Some(pos + lit.len() as int)
    } else {
        None
    }
}


/// Concatenation reassociates.
proof fn lemma_shift(a: Seq<u8>, b: Seq<u8>, c: Seq<u8>)
    ensures
        (a + b) + c == a + (b + c),
{
    assert((a + b) + c =~= a + (b + c));
}

/// A fixed literal parses exactly off its own serialization.
proof fn lemma_rt_expect(lit: Seq<u8>, pre: Seq<u8>, post: Seq<u8>)
    ensures
        spec_expect(pre + lit + post, pre.len() as int, lit) == Some(pre.len() + lit.len() as int),
{
    let s = pre + lit + post;
    assert(s.subrange(pre.len() as int, pre.len() + lit.len() as int) =~= lit);
}

/// Decimal form of a nonnegative integer, most significant digit first,
/// no leading zeros.
pub open spec fn spec_dec(n: int) -> Seq<u8>
    decreases n,
{
    if n < 10 {
        seq![(48 + if n >= 0 {
            n
        } else {
            0
        }) as u8]
    } else {
        spec_dec(n / 10).push((48 + n % 10) as u8)
    }
}

/// The decimal form is all digits and starts with a nonzero digit unless
/// the number is zero.
proof fn lemma_dec_digits(n: int)
    requires
        0 <= n,
    ensures
        spec_dec(n).len() >= 1,
        forall|i: int| 0 <= i < spec_dec(n).len() ==> is_digit(#[trigger] spec_dec(n)[i]),
        n > 0 ==> spec_dec(n)[0] != 48,
        n == 0 ==> spec_dec(n) == seq![48u8],
    decreases n,
{
    if n < 10 {
        assert(spec_dec(n) =~= seq![(48 + n) as u8]);
        if n == 0 {
            assert(spec_dec(n) =~= seq![48u8]);
        }
    } else {
        lemma_dec_digits(n / 10);
        assert(0 <= n % 10 < 10);
        assert(n / 10 >= 1);
        assert(forall|i: int|
            0 <= i < spec_dec(n / 10).len() ==> spec_dec(n)[i] == #[trigger] spec_dec(n / 10)[i]);
        assert(spec_dec(n)[spec_dec(n).len() - 1] == (48 + n % 10) as u8);
    }
}

/// Folds a digit string into the number it denotes, left to right.
pub open spec fn spec_fold_digits(acc: int, ds: Seq<u8>) -> int
    decreases ds.len(),
{
    if ds.len() == 0 {
        acc
    } else {
        spec_fold_digits(acc * 10 + (ds[0] - 48), ds.skip(1))
    }
}

/// Folding one more digit at the end multiplies by ten and adds it.
proof fn lemma_fold_push(acc: int, ds: Seq<u8>, d: u8)
    ensures
        spec_fold_digits(acc, ds.push(d)) == spec_fold_digits(acc, ds) * 10 + (d - 48),
    decreases ds.len(),
{
    if ds.len() == 0 {
        assert(ds.push(d)[0] == d);
        assert(ds.push(d).skip(1) =~= Seq::<u8>::empty());
        assert(spec_fold_digits(acc * 10 + (d - 48), Seq::<u8>::empty()) == acc * 10 + (d - 48));
        assert(spec_fold_digits(acc, ds) == acc);
    } else {
        assert(ds.push(d)[0] == ds[0]);
        assert(ds.push(d).skip(1) =~= ds.skip(1).push(d));
        lemma_fold_push(acc * 10 + (ds[0] - 48), ds.skip(1), d);
    }
}

/// Folding the decimal form of a number gives the number back.
proof fn lemma_fold_dec(n: int)
    requires
        0 <= n,
    ensures
        spec_fold_digits(0, spec_dec(n)) == n,
    decreases n,
{
    if n < 10 {
        assert(spec_dec(n)[0] == (48 + n) as u8);
        assert(spec_dec(n).skip(1) =~= Seq::<u8>::empty());
        assert(spec_fold_digits(0 * 10 + ((48 + n) as u8 - 48), spec_dec(n).skip(1)) == n);
    } else {
        lemma_fold_dec(n / 10);
        lemma_fold_push(0, spec_dec(n / 10), (48 + n % 10) as u8);
        assert(n / 10 * 10 + n % 10 == n) by {
            vstd::arithmetic::div_mod::lemma_fundamental_div_mod(n, 10);
        }
    }
}

/// The maximal digit run from `pos`: its value folded onto `acc`, and the
/// position after it.
pub open spec fn spec_parse_digits(s: Seq<u8>, pos: int, acc: int) -> (int, int)
    decreases s.len() - pos,
{
    if pos < 0 || pos >= s.len() || !is_digit(s[pos]) {
        (acc, pos)
    } else {
        spec_parse_digits(s, pos + 1, acc * 10 + (s[pos] - 48))
    }
}

/// A digit run's value can only grow past its accumulator, and its end
/// stays inside the input.
proof fn lemma_digits_ge(s: Seq<u8>, pos: int, acc: int)
    requires
        0 <= acc,
        0 <= pos,
    ensures
        spec_parse_digits(s, pos, acc).0 >= acc,
        pos <= spec_parse_digits(s, pos, acc).1,
        spec_parse_digits(s, pos, acc).1 <= s.len() || pos >= s.len(),
    decreases s.len() - pos,
{
    if pos < 0 || pos >= s.len() || !is_digit(s[pos]) {
    } else {
        lemma_digits_ge(s, pos + 1, acc * 10 + (s[pos] - 48));
        assert(acc * 10 >= acc) by (nonlinear_arith)
            requires
                acc >= 0,
        ;
    }
}

/// A digit run bounded in front and behind parses to its fold.
proof fn lemma_parse_digits_run(s: Seq<u8>, pos: int, acc: int, k: int)
    requires
        0 <= pos,
        0 <= k,
        pos + k <= s.len(),
        forall|i: int| pos <= i < pos + k ==> is_digit(#[trigger] s[i]),
        pos + k == s.len() || !is_digit(s[pos + k]),
    ensures
        spec_parse_digits(s, pos, acc) == (spec_fold_digits(acc, s.subrange(pos, pos + k)), pos
            + k),
    decreases k,
{
    if k == 0 {
        assert(s.subrange(pos, pos) =~= Seq::<u8>::empty());
    } else {
        assert(is_digit(s[pos]));
        lemma_parse_digits_run(s, pos + 1, acc * 10 + (s[pos] - 48), k - 1);
        assert(s.subrange(pos, pos + k)[0] == s[pos]);
        assert(s.subrange(pos, pos + k).skip(1) =~= s.subrange(pos + 1, pos + k));
    }
}

/// Parses a canonical decimal number at `pos`, refusing a value above
/// `bound`: its value and the position after it.  Only `0` starts with
/// the zero digit.
pub open spec fn spec_parse_dec(s: Seq<u8>, pos: int, bound: int) -> Option<(int, int)> {
    if pos < 0 || pos >= s.len() || !is_digit(s[pos]) {
        None
    } else if s[pos] == 48 {
        Some((0, pos + 1))
    } else {
        let (v, p) = spec_parse_digits(s, pos, 0);
        if v <= bound {
            Some((v, p))
        } else {
            None
        }
    }
}

/// A serialized number parses back to itself, wherever it stands, as long
/// as no digit follows it.
proof fn lemma_rt_dec(n: int, bound: int, pre: Seq<u8>, post: Seq<u8>)
    requires
        0 <= n <= bound,
        post.len() > 0 ==> !is_digit(post[0]),
    ensures
        spec_parse_dec(pre + spec_dec(n) + post, pre.len() as int, bound) == Some(
            (n, pre.len() + spec_dec(n).len() as int),
        ),
{
    let s = pre + spec_dec(n) + post;
    let pos = pre.len() as int;
    let k = spec_dec(n).len() as int;
    lemma_dec_digits(n);
    assert(forall|i: int| 0 <= i < k ==> s[pos + i] == #[trigger] spec_dec(n)[i]);
    assert(s[pos] == spec_dec(n)[0]);
    if n == 0 {
        assert(s[pos] == 48);
    } else {
        assert(is_digit(s[pos]) && s[pos] != 48);
        assert(forall|i: int| pos <= i < pos + k ==> is_digit(#[trigger] s[i]));
        if pos + k < s.len() {
            assert(s[pos + k] == post[0]);
        }
        lemma_parse_digits_run(s, pos, 0, k);
        assert(s.subrange(pos, pos + k) =~= spec_dec(n));
        lemma_fold_dec(n);
    }
}

/// Appends the decimal form of a number to the output.
fn push_dec(out: &mut Vec<u8>, n: u128)
    ensures
        final (out)@ == old(out)@ + spec_dec(n as int),
    decreases n,
{
    if n < 10 {
        out.push(48 + n as u8);
        proof {
            assert(out@ =~= old(out)@ + spec_dec(n as int));
        }
    } else {
        push_dec(out, n / 10);
        out.push(48 + (n % 10) as u8);
        proof {
            assert(out@ =~= old(out)@ + spec_dec(n as int));
        }
    }
}

/// Parses a canonical decimal number at `pos`, exactly as the
/// specification says: values above `bound` are refused.
fn parse_dec(b: &Vec<u8>, pos: usize, bound: u128) -> (r: Option<(u128, usize)>)
    ensures
        match r {
            Some((v, p)) => spec_parse_dec(b@, pos as int, bound as int) == Some(
                (v as int, p as int),
            ),
            None => spec_parse_dec(b@, pos as int, bound as int) is None,
        },
{
    if pos >= b.len() {
        return None;
    }
    let c = b[pos];
    if !(48 <= c && c <= 57) {
        return None;
    }
    if c == 48 {
        return Some((0, pos + 1));
    }
    let mut acc: u128 = 0;
    let mut p = pos;
    let n = b.len();
    while p < n && 48 <= b[p] && b[p] <= 57
        invariant
            pos <= p <= n,
            n == b@.len(),
            0 <= acc <= bound,
            is_digit(b@[pos as int]),
            b@[pos as int] != 48,
            spec_parse_digits(b@, pos as int, 0) == spec_parse_digits(b@, p as int, acc as int),
        decreases n - p,
    {
        let d = b[p] - 48;
        if (d as u128) > bound {
            proof {
                lemma_digits_ge(b@, p as int + 1, (acc as int) * 10 + d);
                assert((acc as int) * 10 >= 0) by (nonlinear_arith)
                    requires
                        acc as int >= 0,
                ;
                assert(spec_parse_digits(b@, pos as int, 0).0 > bound as int);
            }
            return None;
        }
        if acc > (bound - (d as u128)) / 10 {
            proof {
                let x = bound as int - d;
                vstd::arithmetic::div_mod::lemma_fundamental_div_mod(x, 10);
                assert(acc as int >= x / 10 + 1);
                assert((acc as int) * 10 >= (x / 10 + 1) * 10) by (nonlinear_arith)
                    requires
                        acc as int >= x / 10 + 1,
                ;
                assert((x / 10 + 1) * 10 == 10 * (x / 10) + 10) by (nonlinear_arith);
                assert((acc as int) * 10 + d > bound);
                lemma_digits_ge(b@, p as int + 1, (acc as int) * 10 + d);
                assert(spec_parse_digits(b@, pos as int, 0).0 > bound as int);
            }
            return None;
        }
        proof {
            let x = bound as int - d;
            vstd::arithmetic::div_mod::lemma_fundamental_div_mod(x, 10);
            assert((acc as int) * 10 <= (x / 10) * 10) by (nonlinear_arith)
                requires
                    acc as int <= x / 10,
            ;
            assert((x / 10) * 10 == 10 * (x / 10)) by (nonlinear_arith);
            assert((acc as int) * 10 + d <= bound);
        }
        acc = acc * 10 + (d as u128);
        p = p + 1;
    }
    Some((acc, p))
}

/// The bytes of `{"value":[` in the wire format.
pub open spec fn lit_open_value() -> Seq<u8> {
    seq![123u8, 34u8, 118u8, 97u8, 108u8, 117u8, 101u8, 34u8, 58u8, 91u8]
}

/// Appends the literal to the output.
fn write_open_value(out: &mut Vec<u8>)
    ensures
        final (out)@ == old(out)@ + lit_open_value(),
{
    out.push(123);
    out.push(34);
    out.push(118);
    out.push(97);
    out.push(108);
    out.push(117);
    out.push(101);
    out.push(34);
    out.push(58);
    out.push(91);
    proof {
        assert(out@ =~= old(out)@ + lit_open_value());
    }
}

/// Consumes the literal, exactly when it stands at `pos`.
fn eat_open_value(b: &Vec<u8>, pos: usize) -> (r: Option<usize>)
    ensures
        match r {
            Some(p) => spec_expect(b@, pos as int, lit_open_value()) == Some(p as int),
            None => spec_expect(b@, pos as int, lit_open_value()) is None,
        },
{
    if b.len() >= 10 && pos <= b.len() - 10 && b[pos + 0] == 123 && b[pos + 1] == 34 && b[pos + 2] == 118 && b[pos + 3] == 97 && b[pos + 4] == 108 && b[pos + 5] == 117 && b[pos + 6] == 101 && b[pos + 7] == 34 && b[pos + 8] == 58 && b[pos + 9] == 91 {
        proof {
            assert(b@.subrange(pos as int, pos as int + 10) =~= lit_open_value());
        }
        Some(pos + 10)
    } else {
        proof {
            if pos as int + 10 <= b@.len() && b@.subrange(pos as int, pos as int + 10)
                == lit_open_value() {
                assert(b@.subrange(pos as int, pos as int + 10)[0] == b@[pos as int + 0]);
                assert(b@.subrange(pos as int, pos as int + 10)[1] == b@[pos as int + 1]);
                assert(b@.subrange(pos as int, pos as int + 10)[2] == b@[pos as int + 2]);
                assert(b@.subrange(pos as int, pos as int + 10)[3] == b@[pos as int + 3]);
                assert(b@.subrange(pos as int, pos as int + 10)[4] == b@[pos as int + 4]);
                assert(b@.subrange(pos as int, pos as int + 10)[5] == b@[pos as int + 5]);
                assert(b@.subrange(pos as int, pos as int + 10)[6] == b@[pos as int + 6]);
                assert(b@.subrange(pos as int, pos as int + 10)[7] == b@[pos as int + 7]);
                assert(b@.subrange(pos as int, pos as int + 10)[8] == b@[pos as int + 8]);
                assert(b@.subrange(pos as int, pos as int + 10)[9] == b@[pos as int + 9]);
            }
        }
        None
    }
}

/// The bytes of `]}` in the wire format.
pub open spec fn lit_close_list_obj() -> Seq<u8> {
    seq![93u8, 125u8]
}

/// Appends the literal to the output.
fn write_close_list_obj(out: &mut Vec<u8>)
    ensures
        final (out)@ == old(out)@ + lit_close_list_obj(),
{
    out.push(93);
    out.push(125);
    proof {
        assert(out@ =~= old(out)@ + lit_close_list_obj());
    }
}

/// Consumes the literal, exactly when it stands at `pos`.
fn eat_close_list_obj(b: &Vec<u8>, pos: usize) -> (r: Option<usize>)
    ensures
        match r {
            Some(p) => spec_expect(b@, pos as int, lit_close_list_obj()) == Some(p as int),
            None => spec_expect(b@, pos as int, lit_close_list_obj()) is None,
        },
{
    if b.len() >= 2 && pos <= b.len() - 2 && b[pos + 0] == 93 && b[pos + 1] == 125 {
        proof {
            assert(b@.subrange(pos as int, pos as int + 2) =~= lit_close_list_obj());
        }
        Some(pos + 2)
    } else {
        proof {
            if pos as int + 2 <= b@.len() && b@.subrange(pos as int, pos as int + 2)
                == lit_close_list_obj() {
                assert(b@.subrange(pos as int, pos as int + 2)[0] == b@[pos as int + 0]);
                assert(b@.subrange(pos as int, pos as int + 2)[1] == b@[pos as int + 1]);
            }
        }
        None
    }
}

/// The bytes of `{"name":"` in the wire format.
pub open spec fn lit_sel_open() -> Seq<u8> {
    seq![123u8, 34u8, 110u8, 97u8, 109u8, 101u8, 34u8, 58u8, 34u8]
}

/// Appends the literal to the output.
fn write_sel_open(out: &mut Vec<u8>)
    ensures
        final (out)@ == old(out)@ + lit_sel_open(),
{
    out.push(123);
    out.push(34);
    out.push(110);
    out.push(97);
    out.push(109);
    out.push(101);
    out.push(34);
    out.push(58);
    out.push(34);
    proof {
        assert(out@ =~= old(out)@ + lit_sel_open());
    }
}

/// Consumes the literal, exactly when it stands at `pos`.
fn eat_sel_open(b: &Vec<u8>, pos: usize) -> (r: Option<usize>)
    ensures
        match r {
            Some(p) => spec_expect(b@, pos as int, lit_sel_open()) == Some(p as int),
            None => spec_expect(b@, pos as int, lit_sel_open()) is None,
        },
{
    if b.len() >= 9 && pos <= b.len() - 9 && b[pos + 0] == 123 && b[pos + 1] == 34 && b[pos + 2] == 110 && b[pos + 3] == 97 && b[pos + 4] == 109 && b[pos + 5] == 101 && b[pos + 6] == 34 && b[pos + 7] == 58 && b[pos + 8] == 34 {
        proof {
            assert(b@.subrange(pos as int, pos as int + 9) =~= lit_sel_open());
        }
        Some(pos + 9)
    } else {
        proof {
            if pos as int + 9 <= b@.len() && b@.subrange(pos as int, pos as int + 9)
                == lit_sel_open() {
                assert(b@.subrange(pos as int, pos as int + 9)[0] == b@[pos as int + 0]);
                assert(b@.subrange(pos as int, pos as int + 9)[1] == b@[pos as int + 1]);
                assert(b@.subrange(pos as int, pos as int + 9)[2] == b@[pos as int + 2]);
                assert(b@.subrange(pos as int, pos as int + 9)[3] == b@[pos as int + 3]);
                assert(b@.subrange(pos as int, pos as int + 9)[4] == b@[pos as int + 4]);
                assert(b@.subrange(pos as int, pos as int + 9)[5] == b@[pos as int + 5]);
                assert(b@.subrange(pos as int, pos as int + 9)[6] == b@[pos as int + 6]);
                assert(b@.subrange(pos as int, pos as int + 9)[7] == b@[pos as int + 7]);
                assert(b@.subrange(pos as int, pos as int + 9)[8] == b@[pos as int + 8]);
            }
        }
        None
    }
}

/// The bytes of `","timestamp":` in the wire format.
pub open spec fn lit_sel_ts() -> Seq<u8> {
    seq![34u8, 44u8, 34u8, 116u8, 105u8, 109u8, 101u8, 115u8, 116u8, 97u8, 109u8, 112u8, 34u8, 58u8]
}

/// Appends the literal to the output.
fn write_sel_ts(out: &mut Vec<u8>)
    ensures
        final (out)@ == old(out)@ + lit_sel_ts(),
{
    out.push(34);
    out.push(44);
    out.push(34);
    out.push(116);
    out.push(105);
    out.push(109);
    out.push(101);
    out.push(115);
    out.push(116);
    out.push(97);
    out.push(109);
    out.push(112);
    out.push(34);
    out.push(58);
    proof {
        assert(out@ =~= old(out)@ + lit_sel_ts());
    }
}

/// Consumes the literal, exactly when it stands at `pos`.
fn eat_sel_ts(b: &Vec<u8>, pos: usize) -> (r: Option<usize>)
    ensures
        match r {
            Some(p) => spec_expect(b@, pos as int, lit_sel_ts()) == Some(p as int),
            None => spec_expect(b@, pos as int, lit_sel_ts()) is None,
        },
{
    if b.len() >= 14 && pos <= b.len() - 14 && b[pos + 0] == 34 && b[pos + 1] == 44 && b[pos + 2] == 34 && b[pos + 3] == 116 && b[pos + 4] == 105 && b[pos + 5] == 109 && b[pos + 6] == 101 && b[pos + 7] == 115 && b[pos + 8] == 116 && b[pos + 9] == 97 && b[pos + 10] == 109 && b[pos + 11] == 112 && b[pos + 12] == 34 && b[pos + 13] == 58 {
        proof {
            assert(b@.subrange(pos as int, pos as int + 14) =~= lit_sel_ts());
        }
        Some(pos + 14)
    } else {
        proof {
            if pos as int + 14 <= b@.len() && b@.subrange(pos as int, pos as int + 14)
                == lit_sel_ts() {
                assert(b@.subrange(pos as int, pos as int + 14)[0] == b@[pos as int + 0]);
                assert(b@.subrange(pos as int, pos as int + 14)[1] == b@[pos as int + 1]);
                assert(b@.subrange(pos as int, pos as int + 14)[2] == b@[pos as int + 2]);
                assert(b@.subrange(pos as int, pos as int + 14)[3] == b@[pos as int + 3]);
                assert(b@.subrange(pos as int, pos as int + 14)[4] == b@[pos as int + 4]);
                assert(b@.subrange(pos as int, pos as int + 14)[5] == b@[pos as int + 5]);
                assert(b@.subrange(pos as int, pos as int + 14)[6] == b@[pos as int + 6]);
                assert(b@.subrange(pos as int, pos as int + 14)[7] == b@[pos as int + 7]);
                assert(b@.subrange(pos as int, pos as int + 14)[8] == b@[pos as int + 8]);
                assert(b@.subrange(pos as int, pos as int + 14)[9] == b@[pos as int + 9]);
                assert(b@.subrange(pos as int, pos as int + 14)[10] == b@[pos as int + 10]);
                assert(b@.subrange(pos as int, pos as int + 14)[11] == b@[pos as int + 11]);
                assert(b@.subrange(pos as int, pos as int + 14)[12] == b@[pos as int + 12]);
                assert(b@.subrange(pos as int, pos as int + 14)[13] == b@[pos as int + 13]);
            }
        }
        None
    }
}

/// The bytes of `,"paths":[` in the wire format.
pub open spec fn lit_sel_paths() -> Seq<u8> {
    seq![44u8, 34u8, 112u8, 97u8, 116u8, 104u8, 115u8, 34u8, 58u8, 91u8]
}

/// Appends the literal to the output.
fn write_sel_paths(out: &mut Vec<u8>)
    ensures
        final (out)@ == old(out)@ + lit_sel_paths(),
{
    out.push(44);
    out.push(34);
    out.push(112);
    out.push(97);
    out.push(116);
    out.push(104);
    out.push(115);
    out.push(34);
    out.push(58);
    out.push(91);
    proof {
        assert(out@ =~= old(out)@ + lit_sel_paths());
    }
}

/// Consumes the literal, exactly when it stands at `pos`.
fn eat_sel_paths(b: &Vec<u8>, pos: usize) -> (r: Option<usize>)
    ensures
        match r {
            Some(p) => spec_expect(b@, pos as int, lit_sel_paths()) == Some(p as int),
            None => spec_expect(b@, pos as int, lit_sel_paths()) is None,
        },
{
    if b.len() >= 10 && pos <= b.len() - 10 && b[pos + 0] == 44 && b[pos + 1] == 34 && b[pos + 2] == 112 && b[pos + 3] == 97 && b[pos + 4] == 116 && b[pos + 5] == 104 && b[pos + 6] == 115 && b[pos + 7] == 34 && b[pos + 8] == 58 && b[pos + 9] == 91 {
        proof {
            assert(b@.subrange(pos as int, pos as int + 10) =~= lit_sel_paths());
        }
        Some(pos + 10)
    } else {
        proof {
            if pos as int + 10 <= b@.len() && b@.subrange(pos as int, pos as int + 10)
                == lit_sel_paths() {
                assert(b@.subrange(pos as int, pos as int + 10)[0] == b@[pos as int + 0]);
                assert(b@.subrange(pos as int, pos as int + 10)[1] == b@[pos as int + 1]);
                assert(b@.subrange(pos as int, pos as int + 10)[2] == b@[pos as int + 2]);
                assert(b@.subrange(pos as int, pos as int + 10)[3] == b@[pos as int + 3]);
                assert(b@.subrange(pos as int, pos as int + 10)[4] == b@[pos as int + 4]);
                assert(b@.subrange(pos as int, pos as int + 10)[5] == b@[pos as int + 5]);
                assert(b@.subrange(pos as int, pos as int + 10)[6] == b@[pos as int + 6]);
                assert(b@.subrange(pos as int, pos as int + 10)[7] == b@[pos as int + 7]);
                assert(b@.subrange(pos as int, pos as int + 10)[8] == b@[pos as int + 8]);
                assert(b@.subrange(pos as int, pos as int + 10)[9] == b@[pos as int + 9]);
            }
        }
        None
    }
}

/// The bytes of `{"hops":[` in the wire format.
pub open spec fn lit_res_open() -> Seq<u8> {
    seq![123u8, 34u8, 104u8, 111u8, 112u8, 115u8, 34u8, 58u8, 91u8]
}

/// Appends the literal to the output.
fn write_res_open(out: &mut Vec<u8>)
    ensures
        final (out)@ == old(out)@ + lit_res_open(),
{
    out.push(123);
    out.push(34);
    out.push(104);
    out.push(111);
    out.push(112);
    out.push(115);
    out.push(34);
    out.push(58);
    out.push(91);
    proof {
        assert(out@ =~= old(out)@ + lit_res_open());
    }
}

/// Consumes the literal, exactly when it stands at `pos`.
fn eat_res_open(b: &Vec<u8>, pos: usize) -> (r: Option<usize>)
    ensures
        match r {
            Some(p) => spec_expect(b@, pos as int, lit_res_open()) == Some(p as int),
            None => spec_expect(b@, pos as int, lit_res_open()) is None,
        },
{
    if b.len() >= 9 && pos <= b.len() - 9 && b[pos + 0] == 123 && b[pos + 1] == 34 && b[pos + 2] == 104 && b[pos + 3] == 111 && b[pos + 4] == 112 && b[pos + 5] == 115 && b[pos + 6] == 34 && b[pos + 7] == 58 && b[pos + 8] == 91 {
        proof {
            assert(b@.subrange(pos as int, pos as int + 9) =~= lit_res_open());
        }
        Some(pos + 9)
    } else {
        proof {
            if pos as int + 9 <= b@.len() && b@.subrange(pos as int, pos as int + 9)
                == lit_res_open() {
                assert(b@.subrange(pos as int, pos as int + 9)[0] == b@[pos as int + 0]);
                assert(b@.subrange(pos as int, pos as int + 9)[1] == b@[pos as int + 1]);
                assert(b@.subrange(pos as int, pos as int + 9)[2] == b@[pos as int + 2]);
                assert(b@.subrange(pos as int, pos as int + 9)[3] == b@[pos as int + 3]);
                assert(b@.subrange(pos as int, pos as int + 9)[4] == b@[pos as int + 4]);
                assert(b@.subrange(pos as int, pos as int + 9)[5] == b@[pos as int + 5]);
                assert(b@.subrange(pos as int, pos as int + 9)[6] == b@[pos as int + 6]);
                assert(b@.subrange(pos as int, pos as int + 9)[7] == b@[pos as int + 7]);
                assert(b@.subrange(pos as int, pos as int + 9)[8] == b@[pos as int + 8]);
            }
        }
        None
    }
}

/// The bytes of `],"amount_in":` in the wire format.
pub open spec fn lit_res_ain() -> Seq<u8> {
    seq![93u8, 44u8, 34u8, 97u8, 109u8, 111u8, 117u8, 110u8, 116u8, 95u8, 105u8, 110u8, 34u8, 58u8]
}

/// Appends the literal to the output.
fn write_res_ain(out: &mut Vec<u8>)
    ensures
        final (out)@ == old(out)@ + lit_res_ain(),
{
    out.push(93);
    out.push(44);
    out.push(34);
    out.push(97);
    out.push(109);
    out.push(111);
    out.push(117);
    out.push(110);
    out.push(116);
    out.push(95);
    out.push(105);
    out.push(110);
    out.push(34);
    out.push(58);
    proof {
        assert(out@ =~= old(out)@ + lit_res_ain());
    }
}

/// Consumes the literal, exactly when it stands at `pos`.
fn eat_res_ain(b: &Vec<u8>, pos: usize) -> (r: Option<usize>)
    ensures
        match r {
            Some(p) => spec_expect(b@, pos as int, lit_res_ain()) == Some(p as int),
            None => spec_expect(b@, pos as int, lit_res_ain()) is None,
        },
{
    if b.len() >= 14 && pos <= b.len() - 14 && b[pos + 0] == 93 && b[pos + 1] == 44 && b[pos + 2] == 34 && b[pos + 3] == 97 && b[pos + 4] == 109 && b[pos + 5] == 111 && b[pos + 6] == 117 && b[pos + 7] == 110 && b[pos + 8] == 116 && b[pos + 9] == 95 && b[pos + 10] == 105 && b[pos + 11] == 110 && b[pos + 12] == 34 && b[pos + 13] == 58 {
        proof {
            assert(b@.subrange(pos as int, pos as int + 14) =~= lit_res_ain());
        }
        Some(pos + 14)
    } else {
        proof {
            if pos as int + 14 <= b@.len() && b@.subrange(pos as int, pos as int + 14)
                == lit_res_ain() {
                assert(b@.subrange(pos as int, pos as int + 14)[0] == b@[pos as int + 0]);
                assert(b@.subrange(pos as int, pos as int + 14)[1] == b@[pos as int + 1]);
                assert(b@.subrange(pos as int, pos as int + 14)[2] == b@[pos as int + 2]);
                assert(b@.subrange(pos as int, pos as int + 14)[3] == b@[pos as int + 3]);
                assert(b@.subrange(pos as int, pos as int + 14)[4] == b@[pos as int + 4]);
                assert(b@.subrange(pos as int, pos as int + 14)[5] == b@[pos as int + 5]);
                assert(b@.subrange(pos as int, pos as int + 14)[6] == b@[pos as int + 6]);
                assert(b@.subrange(pos as int, pos as int + 14)[7] == b@[pos as int + 7]);
                assert(b@.subrange(pos as int, pos as int + 14)[8] == b@[pos as int + 8]);
                assert(b@.subrange(pos as int, pos as int + 14)[9] == b@[pos as int + 9]);
                assert(b@.subrange(pos as int, pos as int + 14)[10] == b@[pos as int + 10]);
                assert(b@.subrange(pos as int, pos as int + 14)[11] == b@[pos as int + 11]);
                assert(b@.subrange(pos as int, pos as int + 14)[12] == b@[pos as int + 12]);
                assert(b@.subrange(pos as int, pos as int + 14)[13] == b@[pos as int + 13]);
            }
        }
        None
    }
}

/// The bytes of `,"amount_out":` in the wire format.
pub open spec fn lit_res_aout() -> Seq<u8> {
    seq![44u8, 34u8, 97u8, 109u8, 111u8, 117u8, 110u8, 116u8, 95u8, 111u8, 117u8, 116u8, 34u8, 58u8]
}

/// Appends the literal to the output.
fn write_res_aout(out: &mut Vec<u8>)
    ensures
        final (out)@ == old(out)@ + lit_res_aout(),
{
    out.push(44);
    out.push(34);
    out.push(97);
    out.push(109);
    out.push(111);
    out.push(117);
    out.push(110);
    out.push(116);
    out.push(95);
    out.push(111);
    out.push(117);
    out.push(116);
    out.push(34);
    out.push(58);
    proof {
        assert(out@ =~= old(out)@ + lit_res_aout());
    }
}

/// Consumes the literal, exactly when it stands at `pos`.
fn eat_res_aout(b: &Vec<u8>, pos: usize) -> (r: Option<usize>)
    ensures
        match r {
            Some(p) => spec_expect(b@, pos as int, lit_res_aout()) == Some(p as int),
            None => spec_expect(b@, pos as int, lit_res_aout()) is None,
        },
{
    if b.len() >= 14 && pos <= b.len() - 14 && b[pos + 0] == 44 && b[pos + 1] == 34 && b[pos + 2] == 97 && b[pos + 3] == 109 && b[pos + 4] == 111 && b[pos + 5] == 117 && b[pos + 6] == 110 && b[pos + 7] == 116 && b[pos + 8] == 95 && b[pos + 9] == 111 && b[pos + 10] == 117 && b[pos + 11] == 116 && b[pos + 12] == 34 && b[pos + 13] == 58 {
        proof {
            assert(b@.subrange(pos as int, pos as int + 14) =~= lit_res_aout());
        }
        Some(pos + 14)
    } else {
        proof {
            if pos as int + 14 <= b@.len() && b@.subrange(pos as int, pos as int + 14)
                == lit_res_aout() {
                assert(b@.subrange(pos as int, pos as int + 14)[0] == b@[pos as int + 0]);
                assert(b@.subrange(pos as int, pos as int + 14)[1] == b@[pos as int + 1]);
                assert(b@.subrange(pos as int, pos as int + 14)[2] == b@[pos as int + 2]);
                assert(b@.subrange(pos as int, pos as int + 14)[3] == b@[pos as int + 3]);
                assert(b@.subrange(pos as int, pos as int + 14)[4] == b@[pos as int + 4]);
                assert(b@.subrange(pos as int, pos as int + 14)[5] == b@[pos as int + 5]);
                assert(b@.subrange(pos as int, pos as int + 14)[6] == b@[pos as int + 6]);
                assert(b@.subrange(pos as int, pos as int + 14)[7] == b@[pos as int + 7]);
                assert(b@.subrange(pos as int, pos as int + 14)[8] == b@[pos as int + 8]);
                assert(b@.subrange(pos as int, pos as int + 14)[9] == b@[pos as int + 9]);
                assert(b@.subrange(pos as int, pos as int + 14)[10] == b@[pos as int + 10]);
                assert(b@.subrange(pos as int, pos as int + 14)[11] == b@[pos as int + 11]);
                assert(b@.subrange(pos as int, pos as int + 14)[12] == b@[pos as int + 12]);
                assert(b@.subrange(pos as int, pos as int + 14)[13] == b@[pos as int + 13]);
            }
        }
        None
    }
}

/// The bytes of `,"profit":` in the wire format.
pub open spec fn lit_res_profit() -> Seq<u8> {
    seq![44u8, 34u8, 112u8, 114u8, 111u8, 102u8, 105u8, 116u8, 34u8, 58u8]
}

/// Appends the literal to the output.
fn write_res_profit(out: &mut Vec<u8>)
    ensures
        final (out)@ == old(out)@ + lit_res_profit(),
{
    out.push(44);
    out.push(34);
    out.push(112);
    out.push(114);
    out.push(111);
    out.push(102);
    out.push(105);
    out.push(116);
    out.push(34);
    out.push(58);
    proof {
        assert(out@ =~= old(out)@ + lit_res_profit());
    }
}

/// Consumes the literal, exactly when it stands at `pos`.
fn eat_res_profit(b: &Vec<u8>, pos: usize) -> (r: Option<usize>)
    ensures
        match r {
            Some(p) => spec_expect(b@, pos as int, lit_res_profit()) == Some(p as int),
            None => spec_expect(b@, pos as int, lit_res_profit()) is None,
        },
{
    if b.len() >= 10 && pos <= b.len() - 10 && b[pos + 0] == 44 && b[pos + 1] == 34 && b[pos + 2] == 112 && b[pos + 3] == 114 && b[pos + 4] == 111 && b[pos + 5] == 102 && b[pos + 6] == 105 && b[pos + 7] == 116 && b[pos + 8] == 34 && b[pos + 9] == 58 {
        proof {
            assert(b@.subrange(pos as int, pos as int + 10) =~= lit_res_profit());
        }
        Some(pos + 10)
    } else {
        proof {
            if pos as int + 10 <= b@.len() && b@.subrange(pos as int, pos as int + 10)
                == lit_res_profit() {
                assert(b@.subrange(pos as int, pos as int + 10)[0] == b@[pos as int + 0]);
                assert(b@.subrange(pos as int, pos as int + 10)[1] == b@[pos as int + 1]);
                assert(b@.subrange(pos as int, pos as int + 10)[2] == b@[pos as int + 2]);
                assert(b@.subrange(pos as int, pos as int + 10)[3] == b@[pos as int + 3]);
                assert(b@.subrange(pos as int, pos as int + 10)[4] == b@[pos as int + 4]);
                assert(b@.subrange(pos as int, pos as int + 10)[5] == b@[pos as int + 5]);
                assert(b@.subrange(pos as int, pos as int + 10)[6] == b@[pos as int + 6]);
                assert(b@.subrange(pos as int, pos as int + 10)[7] == b@[pos as int + 7]);
                assert(b@.subrange(pos as int, pos as int + 10)[8] == b@[pos as int + 8]);
                assert(b@.subrange(pos as int, pos as int + 10)[9] == b@[pos as int + 9]);
            }
        }
        None
    }
}

/// The bytes of `,"profit_bps":` in the wire format.
pub open spec fn lit_res_pbps() -> Seq<u8> {
    seq![44u8, 34u8, 112u8, 114u8, 111u8, 102u8, 105u8, 116u8, 95u8, 98u8, 112u8, 115u8, 34u8, 58u8]
}

/// Appends the literal to the output.
fn write_res_pbps(out: &mut Vec<u8>)
    ensures
        final (out)@ == old(out)@ + lit_res_pbps(),
{
    out.push(44);
    out.push(34);
    out.push(112);
    out.push(114);
    out.push(111);
    out.push(102);
    out.push(105);
    out.push(116);
    out.push(95);
    out.push(98);
    out.push(112);
    out.push(115);
    out.push(34);
    out.push(58);
    proof {
        assert(out@ =~= old(out)@ + lit_res_pbps());
    }
}

/// Consumes the literal, exactly when it stands at `pos`.
fn eat_res_pbps(b: &Vec<u8>, pos: usize) -> (r: Option<usize>)
    ensures
        match r {
            Some(p) => spec_expect(b@, pos as int, lit_res_pbps()) == Some(p as int),
            None => spec_expect(b@, pos as int, lit_res_pbps()) is None,
        },
{
    if b.len() >= 14 && pos <= b.len() - 14 && b[pos + 0] == 44 && b[pos + 1] == 34 && b[pos + 2] == 112 && b[pos + 3] == 114 && b[pos + 4] == 111 && b[pos + 5] == 102 && b[pos + 6] == 105 && b[pos + 7] == 116 && b[pos + 8] == 95 && b[pos + 9] == 98 && b[pos + 10] == 112 && b[pos + 11] == 115 && b[pos + 12] == 34 && b[pos + 13] == 58 {
        proof {
            assert(b@.subrange(pos as int, pos as int + 14) =~= lit_res_pbps());
        }
        Some(pos + 14)
    } else {
        proof {
            if pos as int + 14 <= b@.len() && b@.subrange(pos as int, pos as int + 14)
                == lit_res_pbps() {
                assert(b@.subrange(pos as int, pos as int + 14)[0] == b@[pos as int + 0]);
                assert(b@.subrange(pos as int, pos as int + 14)[1] == b@[pos as int + 1]);
                assert(b@.subrange(pos as int, pos as int + 14)[2] == b@[pos as int + 2]);
                assert(b@.subrange(pos as int, pos as int + 14)[3] == b@[pos as int + 3]);
                assert(b@.subrange(pos as int, pos as int + 14)[4] == b@[pos as int + 4]);
                assert(b@.subrange(pos as int, pos as int + 14)[5] == b@[pos as int + 5]);
                assert(b@.subrange(pos as int, pos as int + 14)[6] == b@[pos as int + 6]);
                assert(b@.subrange(pos as int, pos as int + 14)[7] == b@[pos as int + 7]);
                assert(b@.subrange(pos as int, pos as int + 14)[8] == b@[pos as int + 8]);
                assert(b@.subrange(pos as int, pos as int + 14)[9] == b@[pos as int + 9]);
                assert(b@.subrange(pos as int, pos as int + 14)[10] == b@[pos as int + 10]);
                assert(b@.subrange(pos as int, pos as int + 14)[11] == b@[pos as int + 11]);
                assert(b@.subrange(pos as int, pos as int + 14)[12] == b@[pos as int + 12]);
                assert(b@.subrange(pos as int, pos as int + 14)[13] == b@[pos as int + 13]);
            }
        }
        None
    }
}

/// The bytes of `,"hop_impacts":[` in the wire format.
pub open spec fn lit_res_impacts() -> Seq<u8> {
    seq![44u8, 34u8, 104u8, 111u8, 112u8, 95u8, 105u8, 109u8, 112u8, 97u8, 99u8, 116u8, 115u8, 34u8, 58u8, 91u8]
}

/// Appends the literal to the output.
fn write_res_impacts(out: &mut Vec<u8>)
    ensures
        final (out)@ == old(out)@ + lit_res_impacts(),
{
    out.push(44);
    out.push(34);
    out.push(104);
    out.push(111);
    out.push(112);
    out.push(95);
    out.push(105);
    out.push(109);
    out.push(112);
    out.push(97);
    out.push(99);
    out.push(116);
    out.push(115);
    out.push(34);
    out.push(58);
    out.push(91);
    proof {
        assert(out@ =~= old(out)@ + lit_res_impacts());
    }
}

/// Consumes the literal, exactly when it stands at `pos`.
fn eat_res_impacts(b: &Vec<u8>, pos: usize) -> (r: Option<usize>)
    ensures
        match r {
            Some(p) => spec_expect(b@, pos as int, lit_res_impacts()) == Some(p as int),
            None => spec_expect(b@, pos as int, lit_res_impacts()) is None,
        },
{
    if b.len() >= 16 && pos <= b.len() - 16 && b[pos + 0] == 44 && b[pos + 1] == 34 && b[pos + 2] == 104 && b[pos + 3] == 111 && b[pos + 4] == 112 && b[pos + 5] == 95 && b[pos + 6] == 105 && b[pos + 7] == 109 && b[pos + 8] == 112 && b[pos + 9] == 97 && b[pos + 10] == 99 && b[pos + 11] == 116 && b[pos + 12] == 115 && b[pos + 13] == 34 && b[pos + 14] == 58 && b[pos + 15] == 91 {
        proof {
            assert(b@.subrange(pos as int, pos as int + 16) =~= lit_res_impacts());
        }
        Some(pos + 16)
    } else {
        proof {
            if pos as int + 16 <= b@.len() && b@.subrange(pos as int, pos as int + 16)
                == lit_res_impacts() {
                assert(b@.subrange(pos as int, pos as int + 16)[0] == b@[pos as int + 0]);
                assert(b@.subrange(pos as int, pos as int + 16)[1] == b@[pos as int + 1]);
                assert(b@.subrange(pos as int, pos as int + 16)[2] == b@[pos as int + 2]);
                assert(b@.subrange(pos as int, pos as int + 16)[3] == b@[pos as int + 3]);
                assert(b@.subrange(pos as int, pos as int + 16)[4] == b@[pos as int + 4]);
                assert(b@.subrange(pos as int, pos as int + 16)[5] == b@[pos as int + 5]);
                assert(b@.subrange(pos as int, pos as int + 16)[6] == b@[pos as int + 6]);
                assert(b@.subrange(pos as int, pos as int + 16)[7] == b@[pos as int + 7]);
                assert(b@.subrange(pos as int, pos as int + 16)[8] == b@[pos as int + 8]);
                assert(b@.subrange(pos as int, pos as int + 16)[9] == b@[pos as int + 9]);
                assert(b@.subrange(pos as int, pos as int + 16)[10] == b@[pos as int + 10]);
                assert(b@.subrange(pos as int, pos as int + 16)[11] == b@[pos as int + 11]);
                assert(b@.subrange(pos as int, pos as int + 16)[12] == b@[pos as int + 12]);
                assert(b@.subrange(pos as int, pos as int + 16)[13] == b@[pos as int + 13]);
                assert(b@.subrange(pos as int, pos as int + 16)[14] == b@[pos as int + 14]);
                assert(b@.subrange(pos as int, pos as int + 16)[15] == b@[pos as int + 15]);
            }
        }
        None
    }
}

/// The bytes of `],"total_impact_bps":` in the wire format.
pub open spec fn lit_res_timp() -> Seq<u8> {
    seq![93u8, 44u8, 34u8, 116u8, 111u8, 116u8, 97u8, 108u8, 95u8, 105u8, 109u8, 112u8, 97u8, 99u8, 116u8, 95u8, 98u8, 112u8, 115u8, 34u8, 58u8]
}

/// Appends the literal to the output.
fn write_res_timp(out: &mut Vec<u8>)
    ensures
        final (out)@ == old(out)@ + lit_res_timp(),
{
    out.push(93);
    out.push(44);
    out.push(34);
    out.push(116);
    out.push(111);
    out.push(116);
    out.push(97);
    out.push(108);
    out.push(95);
    out.push(105);
    out.push(109);
    out.push(112);
    out.push(97);
    out.push(99);
    out.push(116);
    out.push(95);
    out.push(98);
    out.push(112);
    out.push(115);
    out.push(34);
    out.push(58);
    proof {
        assert(out@ =~= old(out)@ + lit_res_timp());
    }
}

/// Consumes the literal, exactly when it stands at `pos`.
fn eat_res_timp(b: &Vec<u8>, pos: usize) -> (r: Option<usize>)
    ensures
        match r {
            Some(p) => spec_expect(b@, pos as int, lit_res_timp()) == Some(p as int),
            None => spec_expect(b@, pos as int, lit_res_timp()) is None,
        },
{
    if b.len() >= 21 && pos <= b.len() - 21 && b[pos + 0] == 93 && b[pos + 1] == 44 && b[pos + 2] == 34 && b[pos + 3] == 116 && b[pos + 4] == 111 && b[pos + 5] == 116 && b[pos + 6] == 97 && b[pos + 7] == 108 && b[pos + 8] == 95 && b[pos + 9] == 105 && b[pos + 10] == 109 && b[pos + 11] == 112 && b[pos + 12] == 97 && b[pos + 13] == 99 && b[pos + 14] == 116 && b[pos + 15] == 95 && b[pos + 16] == 98 && b[pos + 17] == 112 && b[pos + 18] == 115 && b[pos + 19] == 34 && b[pos + 20] == 58 {
        proof {
            assert(b@.subrange(pos as int, pos as int + 21) =~= lit_res_timp());
        }
        Some(pos + 21)
    } else {
        proof {
            if pos as int + 21 <= b@.len() && b@.subrange(pos as int, pos as int + 21)
                == lit_res_timp() {
                assert(b@.subrange(pos as int, pos as int + 21)[0] == b@[pos as int + 0]);
                assert(b@.subrange(pos as int, pos as int + 21)[1] == b@[pos as int + 1]);
                assert(b@.subrange(pos as int, pos as int + 21)[2] == b@[pos as int + 2]);
                assert(b@.subrange(pos as int, pos as int + 21)[3] == b@[pos as int + 3]);
                assert(b@.subrange(pos as int, pos as int + 21)[4] == b@[pos as int + 4]);
                assert(b@.subrange(pos as int, pos as int + 21)[5] == b@[pos as int + 5]);
                assert(b@.subrange(pos as int, pos as int + 21)[6] == b@[pos as int + 6]);
                assert(b@.subrange(pos as int, pos as int + 21)[7] == b@[pos as int + 7]);
                assert(b@.subrange(pos as int, pos as int + 21)[8] == b@[pos as int + 8]);
                assert(b@.subrange(pos as int, pos as int + 21)[9] == b@[pos as int + 9]);
                assert(b@.subrange(pos as int, pos as int + 21)[10] == b@[pos as int + 10]);
                assert(b@.subrange(pos as int, pos as int + 21)[11] == b@[pos as int + 11]);
                assert(b@.subrange(pos as int, pos as int + 21)[12] == b@[pos as int + 12]);
                assert(b@.subrange(pos as int, pos as int + 21)[13] == b@[pos as int + 13]);
                assert(b@.subrange(pos as int, pos as int + 21)[14] == b@[pos as int + 14]);
                assert(b@.subrange(pos as int, pos as int + 21)[15] == b@[pos as int + 15]);
                assert(b@.subrange(pos as int, pos as int + 21)[16] == b@[pos as int + 16]);
                assert(b@.subrange(pos as int, pos as int + 21)[17] == b@[pos as int + 17]);
                assert(b@.subrange(pos as int, pos as int + 21)[18] == b@[pos as int + 18]);
                assert(b@.subrange(pos as int, pos as int + 21)[19] == b@[pos as int + 19]);
                assert(b@.subrange(pos as int, pos as int + 21)[20] == b@[pos as int + 20]);
            }
        }
        None
    }
}

/// The bytes of `,"order":` in the wire format.
pub open spec fn lit_res_order() -> Seq<u8> {
    seq![44u8, 34u8, 111u8, 114u8, 100u8, 101u8, 114u8, 34u8, 58u8]
}

/// Appends the literal to the output.
fn write_res_order(out: &mut Vec<u8>)
    ensures
        final (out)@ == old(out)@ + lit_res_order(),
{
    out.push(44);
    out.push(34);
    out.push(111);
    out.push(114);
    out.push(100);
    out.push(101);
    out.push(114);
    out.push(34);
    out.push(58);
    proof {
        assert(out@ =~= old(out)@ + lit_res_order());
    }
}

/// Consumes the literal, exactly when it stands at `pos`.
fn eat_res_order(b: &Vec<u8>, pos: usize) -> (r: Option<usize>)
    ensures
        match r {
            Some(p) => spec_expect(b@, pos as int, lit_res_order()) == Some(p as int),
            None => spec_expect(b@, pos as int, lit_res_order()) is None,
        },
{
    if b.len() >= 9 && pos <= b.len() - 9 && b[pos + 0] == 44 && b[pos + 1] == 34 && b[pos + 2] == 111 && b[pos + 3] == 114 && b[pos + 4] == 100 && b[pos + 5] == 101 && b[pos + 6] == 114 && b[pos + 7] == 34 && b[pos + 8] == 58 {
        proof {
            assert(b@.subrange(pos as int, pos as int + 9) =~= lit_res_order());
        }
        Some(pos + 9)
    } else {
        proof {
            if pos as int + 9 <= b@.len() && b@.subrange(pos as int, pos as int + 9)
                == lit_res_order() {
                assert(b@.subrange(pos as int, pos as int + 9)[0] == b@[pos as int + 0]);
                assert(b@.subrange(pos as int, pos as int + 9)[1] == b@[pos as int + 1]);
                assert(b@.subrange(pos as int, pos as int + 9)[2] == b@[pos as int + 2]);
                assert(b@.subrange(pos as int, pos as int + 9)[3] == b@[pos as int + 3]);
                assert(b@.subrange(pos as int, pos as int + 9)[4] == b@[pos as int + 4]);
                assert(b@.subrange(pos as int, pos as int + 9)[5] == b@[pos as int + 5]);
                assert(b@.subrange(pos as int, pos as int + 9)[6] == b@[pos as int + 6]);
                assert(b@.subrange(pos as int, pos as int + 9)[7] == b@[pos as int + 7]);
                assert(b@.subrange(pos as int, pos as int + 9)[8] == b@[pos as int + 8]);
            }
        }
        None
    }
}

/// The bytes of `{"pool_id":` in the wire format.
pub open spec fn lit_hop_open() -> Seq<u8> {
    seq![123u8, 34u8, 112u8, 111u8, 111u8, 108u8, 95u8, 105u8, 100u8, 34u8, 58u8]
}

/// Appends the literal to the output.
fn write_hop_open(out: &mut Vec<u8>)
    ensures
        final (out)@ == old(out)@ + lit_hop_open(),
{
    out.push(123);
    out.push(34);
    out.push(112);
    out.push(111);
    out.push(111);
    out.push(108);
    out.push(95);
    out.push(105);
    out.push(100);
    out.push(34);
    out.push(58);
    proof {
        assert(out@ =~= old(out)@ + lit_hop_open());
    }
}

/// Consumes the literal, exactly when it stands at `pos`.
fn eat_hop_open(b: &Vec<u8>, pos: usize) -> (r: Option<usize>)
    ensures
        match r {
            Some(p) => spec_expect(b@, pos as int, lit_hop_open()) == Some(p as int),
            None => spec_expect(b@, pos as int, lit_hop_open()) is None,
        },
{
    if b.len() >= 11 && pos <= b.len() - 11 && b[pos + 0] == 123 && b[pos + 1] == 34 && b[pos + 2] == 112 && b[pos + 3] == 111 && b[pos + 4] == 111 && b[pos + 5] == 108 && b[pos + 6] == 95 && b[pos + 7] == 105 && b[pos + 8] == 100 && b[pos + 9] == 34 && b[pos + 10] == 58 {
        proof {
            assert(b@.subrange(pos as int, pos as int + 11) =~= lit_hop_open());
        }
        Some(pos + 11)
    } else {
        proof {
            if pos as int + 11 <= b@.len() && b@.subrange(pos as int, pos as int + 11)
                == lit_hop_open() {
                assert(b@.subrange(pos as int, pos as int + 11)[0] == b@[pos as int + 0]);
                assert(b@.subrange(pos as int, pos as int + 11)[1] == b@[pos as int + 1]);
                assert(b@.subrange(pos as int, pos as int + 11)[2] == b@[pos as int + 2]);
                assert(b@.subrange(pos as int, pos as int + 11)[3] == b@[pos as int + 3]);
                assert(b@.subrange(pos as int, pos as int + 11)[4] == b@[pos as int + 4]);
                assert(b@.subrange(pos as int, pos as int + 11)[5] == b@[pos as int + 5]);
                assert(b@.subrange(pos as int, pos as int + 11)[6] == b@[pos as int + 6]);
                assert(b@.subrange(pos as int, pos as int + 11)[7] == b@[pos as int + 7]);
                assert(b@.subrange(pos as int, pos as int + 11)[8] == b@[pos as int + 8]);
                assert(b@.subrange(pos as int, pos as int + 11)[9] == b@[pos as int + 9]);
                assert(b@.subrange(pos as int, pos as int + 11)[10] == b@[pos as int + 10]);
            }
        }
        None
    }
}

/// The bytes of `,"a_to_b":` in the wire format.
pub open spec fn lit_hop_atb() -> Seq<u8> {
    seq![44u8, 34u8, 97u8, 95u8, 116u8, 111u8, 95u8, 98u8, 34u8, 58u8]
}

/// Appends the literal to the output.
fn write_hop_atb(out: &mut Vec<u8>)
    ensures
        final (out)@ == old(out)@ + lit_hop_atb(),
{
    out.push(44);
    out.push(34);
    out.push(97);
    out.push(95);
    out.push(116);
    out.push(111);
    out.push(95);
    out.push(98);
    out.push(34);
    out.push(58);
    proof {
        assert(out@ =~= old(out)@ + lit_hop_atb());
    }
}

/// Consumes the literal, exactly when it stands at `pos`.
fn eat_hop_atb(b: &Vec<u8>, pos: usize) -> (r: Option<usize>)
    ensures
        match r {
            Some(p) => spec_expect(b@, pos as int, lit_hop_atb()) == Some(p as int),
            None => spec_expect(b@, pos as int, lit_hop_atb()) is None,
        },
{
    if b.len() >= 10 && pos <= b.len() - 10 && b[pos + 0] == 44 && b[pos + 1] == 34 && b[pos + 2] == 97 && b[pos + 3] == 95 && b[pos + 4] == 116 && b[pos + 5] == 111 && b[pos + 6] == 95 && b[pos + 7] == 98 && b[pos + 8] == 34 && b[pos + 9] == 58 {
        proof {
            assert(b@.subrange(pos as int, pos as int + 10) =~= lit_hop_atb());
        }
        Some(pos + 10)
    } else {
        proof {
            if pos as int + 10 <= b@.len() && b@.subrange(pos as int, pos as int + 10)
                == lit_hop_atb() {
                assert(b@.subrange(pos as int, pos as int + 10)[0] == b@[pos as int + 0]);
                assert(b@.subrange(pos as int, pos as int + 10)[1] == b@[pos as int + 1]);
                assert(b@.subrange(pos as int, pos as int + 10)[2] == b@[pos as int + 2]);
                assert(b@.subrange(pos as int, pos as int + 10)[3] == b@[pos as int + 3]);
                assert(b@.subrange(pos as int, pos as int + 10)[4] == b@[pos as int + 4]);
                assert(b@.subrange(pos as int, pos as int + 10)[5] == b@[pos as int + 5]);
                assert(b@.subrange(pos as int, pos as int + 10)[6] == b@[pos as int + 6]);
                assert(b@.subrange(pos as int, pos as int + 10)[7] == b@[pos as int + 7]);
                assert(b@.subrange(pos as int, pos as int + 10)[8] == b@[pos as int + 8]);
                assert(b@.subrange(pos as int, pos as int + 10)[9] == b@[pos as int + 9]);
            }
        }
        None
    }
}

/// The bytes of `true` in the wire format.
pub open spec fn lit_lit_true() -> Seq<u8> {
    seq![116u8, 114u8, 117u8, 101u8]
}

/// Appends the literal to the output.
fn write_lit_true(out: &mut Vec<u8>)
    ensures
        final (out)@ == old(out)@ + lit_lit_true(),
{
    out.push(116);
    out.push(114);
    out.push(117);
    out.push(101);
    proof {
        assert(out@ =~= old(out)@ + lit_lit_true());
    }
}

/// Consumes the literal, exactly when it stands at `pos`.
fn eat_lit_true(b: &Vec<u8>, pos: usize) -> (r: Option<usize>)
    ensures
        match r {
            Some(p) => spec_expect(b@, pos as int, lit_lit_true()) == Some(p as int),
            None => spec_expect(b@, pos as int, lit_lit_true()) is None,
        },
{
    if b.len() >= 4 && pos <= b.len() - 4 && b[pos + 0] == 116 && b[pos + 1] == 114 && b[pos + 2] == 117 && b[pos + 3] == 101 {
        proof {
            assert(b@.subrange(pos as int, pos as int + 4) =~= lit_lit_true());
        }
        Some(pos + 4)
    } else {
        proof {
            if pos as int + 4 <= b@.len() && b@.subrange(pos as int, pos as int + 4)
                == lit_lit_true() {
                assert(b@.subrange(pos as int, pos as int + 4)[0] == b@[pos as int + 0]);
                assert(b@.subrange(pos as int, pos as int + 4)[1] == b@[pos as int + 1]);
                assert(b@.subrange(pos as int, pos as int + 4)[2] == b@[pos as int + 2]);
                assert(b@.subrange(pos as int, pos as int + 4)[3] == b@[pos as int + 3]);
            }
        }
        None
    }
}

/// The bytes of `false` in the wire format.
pub open spec fn lit_lit_false() -> Seq<u8> {
    seq![102u8, 97u8, 108u8, 115u8, 101u8]
}

/// Appends the literal to the output.
fn write_lit_false(out: &mut Vec<u8>)
    ensures
        final (out)@ == old(out)@ + lit_lit_false(),
{
    out.push(102);
    out.push(97);
    out.push(108);
    out.push(115);
    out.push(101);
    proof {
        assert(out@ =~= old(out)@ + lit_lit_false());
    }
}

/// Consumes the literal, exactly when it stands at `pos`.
fn eat_lit_false(b: &Vec<u8>, pos: usize) -> (r: Option<usize>)
    ensures
        match r {
            Some(p) => spec_expect(b@, pos as int, lit_lit_false()) == Some(p as int),
            None => spec_expect(b@, pos as int, lit_lit_false()) is None,
        },
{
    if b.len() >= 5 && pos <= b.len() - 5 && b[pos + 0] == 102 && b[pos + 1] == 97 && b[pos + 2] == 108 && b[pos + 3] == 115 && b[pos + 4] == 101 {
        proof {
            assert(b@.subrange(pos as int, pos as int + 5) =~= lit_lit_false());
        }
        Some(pos + 5)
    } else {
        proof {
            if pos as int + 5 <= b@.len() && b@.subrange(pos as int, pos as int + 5)
                == lit_lit_false() {
                assert(b@.subrange(pos as int, pos as int + 5)[0] == b@[pos as int + 0]);
                assert(b@.subrange(pos as int, pos as int + 5)[1] == b@[pos as int + 1]);
                assert(b@.subrange(pos as int, pos as int + 5)[2] == b@[pos as int + 2]);
                assert(b@.subrange(pos as int, pos as int + 5)[3] == b@[pos as int + 3]);
                assert(b@.subrange(pos as int, pos as int + 5)[4] == b@[pos as int + 4]);
            }
        }
        None
    }
}

/// The bytes of `}` in the wire format.
pub open spec fn lit_close_obj() -> Seq<u8> {
    seq![125u8]
}

/// Appends the literal to the output.
fn write_close_obj(out: &mut Vec<u8>)
    ensures
        final (out)@ == old(out)@ + lit_close_obj(),
{
    out.push(125);
    proof {
        assert(out@ =~= old(out)@ + lit_close_obj());
    }
}

/// Consumes the literal, exactly when it stands at `pos`.
fn eat_close_obj(b: &Vec<u8>, pos: usize) -> (r: Option<usize>)
    ensures
        match r {
            Some(p) => spec_expect(b@, pos as int, lit_close_obj()) == Some(p as int),
            None => spec_expect(b@, pos as int, lit_close_obj()) is None,
        },
{
    if b.len() >= 1 && pos <= b.len() - 1 && b[pos + 0] == 125 {
        proof {
            assert(b@.subrange(pos as int, pos as int + 1) =~= lit_close_obj());
        }
        Some(pos + 1)
    } else {
        proof {
            if pos as int + 1 <= b@.len() && b@.subrange(pos as int, pos as int + 1)
                == lit_close_obj() {
                assert(b@.subrange(pos as int, pos as int + 1)[0] == b@[pos as int + 0]);
            }
        }
        None
    }
}

/// The bytes of `,` in the wire format.
pub open spec fn lit_comma() -> Seq<u8> {
    seq![44u8]
}

/// Appends the literal to the output.
fn write_comma(out: &mut Vec<u8>)
    ensures
        final (out)@ == old(out)@ + lit_comma(),
{
    out.push(44);
    proof {
        assert(out@ =~= old(out)@ + lit_comma());
    }
}

/// Consumes the literal, exactly when it stands at `pos`.
fn eat_comma(b: &Vec<u8>, pos: usize) -> (r: Option<usize>)
    ensures
        match r {
            Some(p) => spec_expect(b@, pos as int, lit_comma()) == Some(p as int),
            None => spec_expect(b@, pos as int, lit_comma()) is None,
        },
{
    if b.len() >= 1 && pos <= b.len() - 1 && b[pos + 0] == 44 {
        proof {
            assert(b@.subrange(pos as int, pos as int + 1) =~= lit_comma());
        }
        Some(pos + 1)
    } else {
        proof {
            if pos as int + 1 <= b@.len() && b@.subrange(pos as int, pos as int + 1)
                == lit_comma() {
                assert(b@.subrange(pos as int, pos as int + 1)[0] == b@[pos as int + 0]);
            }
        }
        None
    }
}

/// The bytes of `]` in the wire format.
pub open spec fn lit_close_list() -> Seq<u8> {
    seq![93u8]
}

/// Appends the literal to the output.
fn write_close_list(out: &mut Vec<u8>)
    ensures
        final (out)@ == old(out)@ + lit_close_list(),
{
    out.push(93);
    proof {
        assert(out@ =~= old(out)@ + lit_close_list());
    }
}

/// Consumes the literal, exactly when it stands at `pos`.
fn eat_close_list(b: &Vec<u8>, pos: usize) -> (r: Option<usize>)
    ensures
        match r {
            Some(p) => spec_expect(b@, pos as int, lit_close_list()) == Some(p as int),
            None => spec_expect(b@, pos as int, lit_close_list()) is None,
        },
{
    if b.len() >= 1 && pos <= b.len() - 1 && b[pos + 0] == 93 {
        proof {
            assert(b@.subrange(pos as int, pos as int + 1) =~= lit_close_list());
        }
        Some(pos + 1)
    } else {
        proof {
            if pos as int + 1 <= b@.len() && b@.subrange(pos as int, pos as int + 1)
                == lit_close_list() {
                assert(b@.subrange(pos as int, pos as int + 1)[0] == b@[pos as int + 0]);
            }
        }
        None
    }
}


/// Position of the closing quote: the first quote at or after `pos`, with
/// only plain bytes before it.
pub open spec fn spec_find_quote(s: Seq<u8>, pos: int) -> Option<int>
    decreases s.len() - pos,
{
    if pos < 0 || pos >= s.len() {
        None
    } else if s[pos] == 34 {
        Some(pos)
    } else if plain_byte(s[pos]) {
        spec_find_quote(s, pos + 1)
    } else {
        None
    }
}

/// A name parses as the bytes up to the closing quote, which stays
/// unconsumed (the following key literal owns it).
pub open spec fn spec_parse_name(s: Seq<u8>, pos: int) -> Option<(Seq<u8>, int)> {
    match spec_find_quote(s, pos) {
        None => None,
        Some(q) => Some((s.subrange(pos, q), q)),
    }
}

/// Scans a serialized name up to its closing quote.
fn parse_name(b: &Vec<u8>, pos: usize) -> (r: Option<(Vec<u8>, usize)>)
    ensures
        match r {
            Some((v, p)) => spec_parse_name(b@, pos as int) == Some((v@, p as int)),
            None => spec_parse_name(b@, pos as int) is None,
        },
{
    let n = b.len();
    if pos > n {
        return None;
    }
    let mut p = pos;
    let mut out: Vec<u8> = Vec::new();
    proof {
        assert(out@ =~= b@.subrange(pos as int, pos as int));
    }
    loop
        invariant
            pos <= p <= n,
            n == b@.len(),
            out@ == b@.subrange(pos as int, p as int),
            spec_find_quote(b@, pos as int) == spec_find_quote(b@, p as int),
        ensures
            (p == n || (p < n && !(b@[p as int] == 34) && !plain_byte(b@[p as int]))) || (p < n
                && b@[p as int] == 34),
            spec_find_quote(b@, pos as int) == spec_find_quote(b@, p as int),
            out@ == b@.subrange(pos as int, p as int),
            p < n && b@[p as int] == 34 ==> spec_find_quote(b@, p as int) == Some(p as int),
            !(p < n && b@[p as int] == 34) ==> spec_find_quote(b@, p as int) is None,
        decreases n - p,
    {
        if p >= n {
            break ;
        }
        let c = b[p];
        if c == 34 {
            break ;
        }
        if !(0x20 <= c && c <= 0x7E && c != 0x5C) {
            break ;
        }
        out.push(c);
        proof {
            assert(out@ =~= b@.subrange(pos as int, p + 1));
        }
        p = p + 1;
    }
    if p < n {
        let c = b[p];
        if c == 34 {
            return Some((out, p));
        }
    }
    None
}

/// The serialized form of a truth value.
pub open spec fn spec_ser_bool(v: bool) -> Seq<u8> {
    if v {
        lit_lit_true()
    } else {
        lit_lit_false()
    }
}

/// Parses a serialized truth value.
pub open spec fn spec_parse_bool(s: Seq<u8>, pos: int) -> Option<(bool, int)> {
    match spec_expect(s, pos, lit_lit_true()) {
        Some(p) => Some((true, p)),
        None => match spec_expect(s, pos, lit_lit_false()) {
            Some(p) => Some((false, p)),
            None => None,
        },
    }
}

/// A serialized truth value parses back to itself.
proof fn lemma_rt_bool(v: bool, pre: Seq<u8>, post: Seq<u8>)
    ensures
        spec_parse_bool(pre + spec_ser_bool(v) + post, pre.len() as int) == Some(
            (v, pre.len() + spec_ser_bool(v).len() as int),
        ),
{
    let s = pre + spec_ser_bool(v) + post;
    let pos = pre.len() as int;
    if v {
        lemma_rt_expect(lit_lit_true(), pre, post);
    } else {
        lemma_rt_expect(lit_lit_false(), pre, post);
        assert(s[pos] == lit_lit_false()[0]);
        if pos + lit_lit_true().len() <= s.len() && s.subrange(
            pos,
            pos + lit_lit_true().len() as int,
        ) == lit_lit_true() {
            assert(s.subrange(pos, pos + lit_lit_true().len() as int)[0] == s[pos]);
        }
    }
}

/// Parses a serialized truth value.
fn parse_bool(b: &Vec<u8>, pos: usize) -> (r: Option<(bool, usize)>)
    ensures
        match r {
            Some((v, p)) => spec_parse_bool(b@, pos as int) == Some((v, p as int)),
            None => spec_parse_bool(b@, pos as int) is None,
        },
{
    match eat_lit_true(b, pos) {
        Some(p) => Some((true, p)),
        None => match eat_lit_false(b, pos) {
            Some(p) => Some((false, p)),
            None => None,
        },
    }
}

/// The serialized form of a signed number: a minus sign before the
/// magnitude when it is negative.
pub open spec fn spec_ser_i128(n: int) -> Seq<u8> {
    if n < 0 {
        seq![45u8] + spec_dec(-n)
    } else {
        spec_dec(n)
    }
}

/// Parses a serialized signed number within the signed machine range.
pub open spec fn spec_parse_i128(s: Seq<u8>, pos: int) -> Option<(int, int)> {
    if pos < 0 || pos >= s.len() {
        None
    } else if s[pos] == 45 {
        match spec_parse_dec(s, pos + 1, 170141183460469231731687303715884105728int) {
            Some((v, p)) => if v >= 1 {
                Some((-v, p))
            } else {
                None
            },
            None => None,
        }
    } else {
        spec_parse_dec(s, pos, 170141183460469231731687303715884105727int)
    }
}

/// A serialized signed number parses back to itself when no digit
/// follows it.
proof fn lemma_rt_i128(n: int, pre: Seq<u8>, post: Seq<u8>)
    requires
        -170141183460469231731687303715884105728 <= n <= 170141183460469231731687303715884105727,
        post.len() > 0 ==> !is_digit(post[0]),
    ensures
        spec_parse_i128(pre + spec_ser_i128(n) + post, pre.len() as int) == Some(
            (n, pre.len() + spec_ser_i128(n).len() as int),
        ),
{
    let s = pre + spec_ser_i128(n) + post;
    let pos = pre.len() as int;
    if n < 0 {
        let pre2 = pre + seq![45u8];
        assert(s =~= pre2 + spec_dec(-n) + post);
        lemma_rt_dec(-n, 170141183460469231731687303715884105728int, pre2, post);
        assert(s[pos] == 45);
    } else {
        lemma_dec_digits(n);
        assert(s[pos] == spec_dec(n)[0]);
        assert(s[pos] != 45);
        lemma_rt_dec(n, 170141183460469231731687303715884105727int, pre, post);
    }
}

/// Appends the serialized form of a signed number.
fn push_i128(out: &mut Vec<u8>, n: i128)
    ensures
        final (out)@ == old(out)@ + spec_ser_i128(n as int),
{
    if n < 0 {
        out.push(45);
        let mag: u128 = ((-(n + 1)) as u128) + 1;
        proof {
            assert(mag as int == -(n as int));
        }
        let ghost mid = out@;
        push_dec(out, mag);
        proof {
            assert(out@ =~= old(out)@ + spec_ser_i128(n as int));
        }
    } else {
        push_dec(out, n as u128);
    }
}

/// Parses a serialized signed number.
fn parse_i128(b: &Vec<u8>, pos: usize) -> (r: Option<(i128, usize)>)
    ensures
        match r {
            Some((v, p)) => spec_parse_i128(b@, pos as int) == Some((v as int, p as int)),
            None => spec_parse_i128(b@, pos as int) is None,
        },
{
    if pos >= b.len() {
        return None;
    }
    if b[pos] == 45 {
        match parse_dec(b, pos + 1, 170141183460469231731687303715884105728u128) {
            None => None,
            Some((v, p)) => {
                if v >= 1 {
                    let sv: i128 = if v == 170141183460469231731687303715884105728u128 {
                        i128::MIN
                    } else {
                        -((v as i128))
                    };
                    proof {
                        assert(sv as int == -(v as int));
                    }
                    Some((sv, p))
                } else {
                    None
                }
            },
        }
    } else {
        match parse_dec(b, pos, 170141183460469231731687303715884105727u128) {
            None => None,
            Some((v, p)) => Some((v as i128, p)),
        }
    }
}

/// A hop in range of the machine representation.
pub open spec fn wf_hop(h: HopData) -> bool {
    0 <= h.pool_id <= 0xFFFF_FFFF_FFFF_FFFFint
}

/// The serialized form of one hop.
pub open spec fn spec_ser_hop(h: HopData) -> Seq<u8> {
    lit_hop_open() + spec_dec(h.pool_id) + lit_hop_atb() + spec_ser_bool(h.a_to_b)
        + lit_close_obj()
}

/// Parses one serialized hop.
pub open spec fn spec_parse_hop(s: Seq<u8>, pos: int) -> Option<(HopData, int)> {
    match spec_expect(s, pos, lit_hop_open()) {
        None => None,
        Some(p1) => match spec_parse_dec(s, p1, 0xFFFF_FFFF_FFFF_FFFFint) {
            None => None,
            Some((id, p2)) => match spec_expect(s, p2, lit_hop_atb()) {
                None => None,
                Some(p3) => match spec_parse_bool(s, p3) {
                    None => None,
                    Some((atb, p4)) => match spec_expect(s, p4, lit_close_obj()) {
                        None => None,
                        Some(p5) => Some((HopData { pool_id: id, a_to_b: atb }, p5)),
                    },
                },
            },
        },
    }
}

/// A serialized hop parses back to itself.
#[verifier::rlimit(60)]
proof fn lemma_rt_hop(h: HopData, pre: Seq<u8>, post: Seq<u8>)
    requires
        wf_hop(h),
    ensures
        spec_parse_hop(pre + spec_ser_hop(h) + post, pre.len() as int) == Some(
            (h, pre.len() + spec_ser_hop(h).len() as int),
        ),
{
    let s = pre + spec_ser_hop(h) + post;
    let c1 = lit_hop_open();
    let c2 = spec_dec(h.pool_id);
    let c3 = lit_hop_atb();
    let c4 = spec_ser_bool(h.a_to_b);
    let c5 = lit_close_obj();
    assert(s =~= pre + c1 + (c2 + c3 + c4 + c5 + post));
    lemma_rt_expect(c1, pre, c2 + c3 + c4 + c5 + post);
    assert(s =~= (pre + c1) + c2 + (c3 + c4 + c5 + post));
    assert((c3 + c4 + c5 + post)[0] == c3[0]);
    lemma_rt_dec(h.pool_id, 0xFFFF_FFFF_FFFF_FFFFint, pre + c1, c3 + c4 + c5 + post);
    assert(s =~= (pre + c1 + c2) + c3 + (c4 + c5 + post));
    lemma_rt_expect(c3, pre + c1 + c2, c4 + c5 + post);
    assert(s =~= (pre + c1 + c2 + c3) + c4 + (c5 + post));
    lemma_rt_bool(h.a_to_b, pre + c1 + c2 + c3, c5 + post);
    assert(s =~= (pre + c1 + c2 + c3 + c4) + c5 + post);
    lemma_rt_expect(c5, pre + c1 + c2 + c3 + c4, post);
    assert(pre.len() + spec_ser_hop(h).len() as int == pre.len() + c1.len() + c2.len() + c3.len()
        + c4.len() + c5.len());
}

/// Appends the serialized form of one hop.
fn write_hop(out: &mut Vec<u8>, h: &Hop)
    ensures
        final (out)@ == old(out)@ + spec_ser_hop(h@),
{
    write_hop_open(out);
    push_dec(out, h.pool_id as u128);
    write_hop_atb(out);
    if h.a_to_b {
        write_lit_true(out);
    } else {
        write_lit_false(out);
    }
    write_close_obj(out);
    proof {
        assert(out@ =~= old(out)@ + spec_ser_hop(h@));
    }
}

/// Parses one serialized hop.
fn parse_hop(b: &Vec<u8>, pos: usize) -> (r: Option<(Hop, usize)>)
    ensures
        match r {
            Some((h, p)) => spec_parse_hop(b@, pos as int) == Some((h@, p as int)),
            None => spec_parse_hop(b@, pos as int) is None,
        },
{
    match eat_hop_open(b, pos) {
        None => None,
        Some(p1) => match parse_dec(b, p1, 0xFFFF_FFFF_FFFF_FFFFu128) {
            None => None,
            Some((id, p2)) => match eat_hop_atb(b, p2) {
                None => None,
                Some(p3) => match parse_bool(b, p3) {
                    None => None,
                    Some((atb, p4)) => match eat_close_obj(b, p4) {
                        None => None,
                        Some(p5) => Some((Hop { pool_id: id as u64, a_to_b: atb }, p5)),
                    },
                },
            },
        },
    }
}


/// A machine-word value.
pub open spec fn wf_u64(n: int) -> bool {
    0 <= n <= 0xFFFF_FFFF_FFFF_FFFFint
}

/// Serialized items after the first: each prefixed by a comma.
pub open spec fn spec_ser_hops_tail(xs: Seq<HopData>) -> Seq<u8>
    decreases xs.len(),
{
    if xs.len() == 0 {
        Seq::empty()
    } else {
        lit_comma() + spec_ser_hop(xs[0]) + spec_ser_hops_tail(xs.skip(1))
    }
}

/// The serialized list body, without its surrounding brackets.
pub open spec fn spec_ser_hops(xs: Seq<HopData>) -> Seq<u8> {
    if xs.len() == 0 {
        Seq::empty()
    } else {
        spec_ser_hop(xs[0]) + spec_ser_hops_tail(xs.skip(1))
    }
}

/// Parses the items after the first, up to the unconsumed closing bracket.
pub open spec fn spec_parse_hops_more(s: Seq<u8>, pos: int) -> Option<(Seq<HopData>, int)>
    decreases s.len() - pos,
{
    if pos < 0 || pos >= s.len() {
        None
    } else if s[pos] == 93 {
        Some((Seq::empty(), pos))
    } else if s[pos] == 44 {
        match spec_parse_hop(s, pos + 1) {
            None => None,
            Some((x, p)) => if p <= pos + 1 || p > s.len() {
                None
            } else {
                match spec_parse_hops_more(s, p) {
                    None => None,
                    Some((rest, q)) => Some((seq![x] + rest, q)),
                }
            },
        }
    } else {
        None
    }
}

/// Parses a serialized list body, up to the unconsumed closing bracket.
pub open spec fn spec_parse_hops(s: Seq<u8>, pos: int) -> Option<(Seq<HopData>, int)> {
    if pos < 0 || pos >= s.len() {
        None
    } else if s[pos] == 93 {
        Some((Seq::empty(), pos))
    } else {
        match spec_parse_hop(s, pos) {
            None => None,
            Some((x, p)) => if p <= pos || p > s.len() {
                None
            } else {
                match spec_parse_hops_more(s, p) {
                    None => None,
                    Some((rest, q)) => Some((seq![x] + rest, q)),
                }
            },
        }
    }
}

/// A serialized list tail parses back to itself before a closing bracket.
#[verifier::rlimit(100)]
proof fn lemma_rt_hops_tail(xs: Seq<HopData>, pre: Seq<u8>, post: Seq<u8>)
    requires
        forall|i: int| 0 <= i < xs.len() ==> wf_hop(#[trigger] xs[i]),
        post.len() > 0,
        post[0] == 93,
    ensures
        spec_parse_hops_more(pre + spec_ser_hops_tail(xs) + post, pre.len() as int) == Some(
            (xs, pre.len() + spec_ser_hops_tail(xs).len() as int),
        ),
    decreases xs.len(),
{
    let s = pre + spec_ser_hops_tail(xs) + post;
    let pos = pre.len() as int;
    if xs.len() == 0 {
        assert(s =~= pre + post);
        assert(s[pos] == post[0]);
        assert(Seq::<HopData>::empty() =~= xs);
    } else {
        let c1 = lit_comma();
        let c2 = spec_ser_hop(xs[0]);
        let c3 = spec_ser_hops_tail(xs.skip(1));
        assert(c2[0] == lit_hop_open()[0]);
        assert(c2.len() >= 1);
        assert(s[pos] == c1[0]);
        assert(s =~= (pre + c1) + c2 + (c3 + post));
        if xs.len() > 1 {
            assert(c3[0] == lit_comma()[0]);
            assert((c3 + post)[0] == 44u8);
        } else {
            assert(c3 =~= Seq::<u8>::empty());
            assert((c3 + post)[0] == 93u8);
        }
        lemma_rt_hop(xs[0], pre + c1, c3 + post);
        assert(s =~= (pre + c1 + c2) + c3 + post);
        lemma_rt_hops_tail(xs.skip(1), pre + c1 + c2, post);
        assert(seq![xs[0]] + xs.skip(1) =~= xs);
    }
}

/// A serialized list body parses back to itself before a closing bracket.
#[verifier::rlimit(100)]
proof fn lemma_rt_hops(xs: Seq<HopData>, pre: Seq<u8>, post: Seq<u8>)
    requires
        forall|i: int| 0 <= i < xs.len() ==> wf_hop(#[trigger] xs[i]),
        post.len() > 0,
        post[0] == 93,
    ensures
        spec_parse_hops(pre + spec_ser_hops(xs) + post, pre.len() as int) == Some(
            (xs, pre.len() + spec_ser_hops(xs).len() as int),
        ),
{
    let s = pre + spec_ser_hops(xs) + post;
    let pos = pre.len() as int;
    if xs.len() == 0 {
        assert(s =~= pre + post);
        assert(s[pos] == post[0]);
        assert(Seq::<HopData>::empty() =~= xs);
    } else {
        let c2 = spec_ser_hop(xs[0]);
        let c3 = spec_ser_hops_tail(xs.skip(1));
        assert(c2[0] == lit_hop_open()[0]);
        assert(c2.len() >= 1);
        assert(s =~= pre + c2 + (c3 + post));
        assert(s[pos] == c2[0]);
        assert(s[pos] != 93);
        if xs.len() > 1 {
            assert(c3[0] == lit_comma()[0]);
            assert((c3 + post)[0] == 44u8);
        } else {
            assert(c3 =~= Seq::<u8>::empty());
            assert((c3 + post)[0] == 93u8);
        }
        lemma_rt_hop(xs[0], pre, c3 + post);
        assert(s =~= (pre + c2) + c3 + post);
        lemma_rt_hops_tail(xs.skip(1), pre + c2, post);
        assert(seq![xs[0]] + xs.skip(1) =~= xs);
    }
}

/// Serialized items after the first: each prefixed by a comma.
pub open spec fn spec_ser_imps_tail(xs: Seq<int>) -> Seq<u8>
    decreases xs.len(),
{
    if xs.len() == 0 {
        Seq::empty()
    } else {
        lit_comma() + spec_dec(xs[0]) + spec_ser_imps_tail(xs.skip(1))
    }
}

/// The serialized list body, without its surrounding brackets.
pub open spec fn spec_ser_imps(xs: Seq<int>) -> Seq<u8> {
    if xs.len() == 0 {
        Seq::empty()
    } else {
        spec_dec(xs[0]) + spec_ser_imps_tail(xs.skip(1))
    }
}

/// Parses the items after the first, up to the unconsumed closing bracket.
pub open spec fn spec_parse_imps_more(s: Seq<u8>, pos: int) -> Option<(Seq<int>, int)>
    decreases s.len() - pos,
{
    if pos < 0 || pos >= s.len() {
        None
    } else if s[pos] == 93 {
        Some((Seq::empty(), pos))
    } else if s[pos] == 44 {
        match spec_parse_dec(s, pos + 1, 0xFFFF_FFFF_FFFF_FFFFint) {
            None => None,
            Some((x, p)) => if p <= pos + 1 || p > s.len() {
                None
            } else {
                match spec_parse_imps_more(s, p) {
                    None => None,
                    Some((rest, q)) => Some((seq![x] + rest, q)),
                }
            },
        }
    } else {
        None
    }
}

/// Parses a serialized list body, up to the unconsumed closing bracket.
pub open spec fn spec_parse_imps(s: Seq<u8>, pos: int) -> Option<(Seq<int>, int)> {
    if pos < 0 || pos >= s.len() {
        None
    } else if s[pos] == 93 {
        Some((Seq::empty(), pos))
    } else {
        match spec_parse_dec(s, pos, 0xFFFF_FFFF_FFFF_FFFFint) {
            None => None,
            Some((x, p)) => if p <= pos || p > s.len() {
                None
            } else {
                match spec_parse_imps_more(s, p) {
                    None => None,
                    Some((rest, q)) => Some((seq![x] + rest, q)),
                }
            },
        }
    }
}

/// A serialized list tail parses back to itself before a closing bracket.
#[verifier::rlimit(100)]
proof fn lemma_rt_imps_tail(xs: Seq<int>, pre: Seq<u8>, post: Seq<u8>)
    requires
        forall|i: int| 0 <= i < xs.len() ==> wf_u64(#[trigger] xs[i]),
        post.len() > 0,
        post[0] == 93,
    ensures
        spec_parse_imps_more(pre + spec_ser_imps_tail(xs) + post, pre.len() as int) == Some(
            (xs, pre.len() + spec_ser_imps_tail(xs).len() as int),
        ),
    decreases xs.len(),
{
    let s = pre + spec_ser_imps_tail(xs) + post;
    let pos = pre.len() as int;
    if xs.len() == 0 {
        assert(s =~= pre + post);
        assert(s[pos] == post[0]);
        assert(Seq::<int>::empty() =~= xs);
    } else {
        let c1 = lit_comma();
        let c2 = spec_dec(xs[0]);
        let c3 = spec_ser_imps_tail(xs.skip(1));
        lemma_dec_digits(xs[0]);
        assert(c2[0] == spec_dec(xs[0])[0]);
        assert(is_digit(c2[0]));
        assert(s[pos] == c1[0]);
        assert(s =~= (pre + c1) + c2 + (c3 + post));
        if xs.len() > 1 {
            assert(c3[0] == lit_comma()[0]);
            assert((c3 + post)[0] == 44u8);
        } else {
            assert(c3 =~= Seq::<u8>::empty());
            assert((c3 + post)[0] == 93u8);
        }
        lemma_rt_dec(xs[0], 0xFFFF_FFFF_FFFF_FFFFint, pre + c1, c3 + post);
        assert(s =~= (pre + c1 + c2) + c3 + post);
        lemma_rt_imps_tail(xs.skip(1), pre + c1 + c2, post);
        assert(seq![xs[0]] + xs.skip(1) =~= xs);
    }
}

/// A serialized list body parses back to itself before a closing bracket.
#[verifier::rlimit(100)]
proof fn lemma_rt_imps(xs: Seq<int>, pre: Seq<u8>, post: Seq<u8>)
    requires
        forall|i: int| 0 <= i < xs.len() ==> wf_u64(#[trigger] xs[i]),
        post.len() > 0,
        post[0] == 93,
    ensures
        spec_parse_imps(pre + spec_ser_imps(xs) + post, pre.len() as int) == Some(
            (xs, pre.len() + spec_ser_imps(xs).len() as int),
        ),
{
    let s = pre + spec_ser_imps(xs) + post;
    let pos = pre.len() as int;
    if xs.len() == 0 {
        assert(s =~= pre + post);
        assert(s[pos] == post[0]);
        assert(Seq::<int>::empty() =~= xs);
    } else {
        let c2 = spec_dec(xs[0]);
        let c3 = spec_ser_imps_tail(xs.skip(1));
        lemma_dec_digits(xs[0]);
        assert(c2[0] == spec_dec(xs[0])[0]);
        assert(is_digit(c2[0]));
        assert(s =~= pre + c2 + (c3 + post));
        assert(s[pos] == c2[0]);
        assert(s[pos] != 93);
        if xs.len() > 1 {
            assert(c3[0] == lit_comma()[0]);
            assert((c3 + post)[0] == 44u8);
        } else {
            assert(c3 =~= Seq::<u8>::empty());
            assert((c3 + post)[0] == 93u8);
        }
        lemma_rt_dec(xs[0], 0xFFFF_FFFF_FFFF_FFFFint, pre, c3 + post);
        assert(s =~= (pre + c2) + c3 + post);
        lemma_rt_imps_tail(xs.skip(1), pre + c2, post);
        assert(seq![xs[0]] + xs.skip(1) =~= xs);
    }
}


/// A signed value inside the machine range.
pub open spec fn wf_i128(n: int) -> bool {
    -170141183460469231731687303715884105728 <= n <= 170141183460469231731687303715884105727int
}

/// A priced result whose fields all fit their machine representations.
pub open spec fn wf_result(r: ResultData) -> bool {
    &&& wf_u64(r.amount_in)
    &&& wf_u64(r.amount_out)
    &&& wf_i128(r.profit)
    &&& wf_i128(r.profit_bps)
    &&& wf_u64(r.total_impact_bps)
    &&& wf_u64(r.order)
    &&& forall|i: int| 0 <= i < r.hops.len() ==> wf_hop(#[trigger] r.hops[i])
    &&& forall|i: int| 0 <= i < r.hop_impacts.len() ==> wf_u64(#[trigger] r.hop_impacts[i])
}

/// A selection whose name is plain and whose fields fit.
pub open spec fn wf_selected(s: SelectedData) -> bool {
    &&& plain_bytes(s.name)
    &&& wf_u64(s.timestamp)
    &&& forall|i: int| 0 <= i < s.paths.len() ==> wf_result(#[trigger] s.paths[i])
}

/// Every selection of a collection is serializable.
pub open spec fn wf_selecteds(v: Seq<SelectedData>) -> bool {
    forall|i: int| 0 <= i < v.len() ==> wf_selected(#[trigger] v[i])
}

/// The first half of a serialized result: up to and including the
/// absolute profit.
#[verifier::opaque]
pub open spec fn spec_ser_result_a(x: ResultData) -> Seq<u8> {
    lit_res_open() + spec_ser_hops(x.hops) + lit_res_ain() + spec_dec(x.amount_in) + lit_res_aout() + spec_dec(x.amount_out) + lit_res_profit() + spec_ser_i128(x.profit)
}

/// The second half of a serialized result.
#[verifier::opaque]
pub open spec fn spec_ser_result_b(x: ResultData) -> Seq<u8> {
    spec_ser_result_b1(x) + spec_ser_result_b2(x)
}

/// The serialized form of one priced result.
#[verifier::opaque]
pub open spec fn spec_ser_result(x: ResultData) -> Seq<u8> {
    spec_ser_result_a(x) + spec_ser_result_b(x)
}

/// Parses the first half of a serialized result.
pub open spec fn spec_parse_result_a(s: Seq<u8>, pos: int) -> Option<
    ((Seq<HopData>, int, int, int), int),
> {
    match spec_expect(s, pos, lit_res_open()) {
        None => None,
        Some(p1) => match spec_parse_hops(s, p1) {
            None => None,
            Some((hops, p2)) => match spec_expect(s, p2, lit_res_ain()) {
                None => None,
                Some(p3) => match spec_parse_dec(s, p3, 0xFFFF_FFFF_FFFF_FFFFint) {
                    None => None,
                    Some((ain, p4)) => match spec_expect(s, p4, lit_res_aout()) {
                        None => None,
                        Some(p5) => match spec_parse_dec(s, p5, 0xFFFF_FFFF_FFFF_FFFFint) {
                            None => None,
                            Some((aout, p6)) => match spec_expect(s, p6, lit_res_profit()) {
                                None => None,
                                Some(p7) => match spec_parse_i128(s, p7) {
                                    None => None,
                                    Some((profit, p8)) => Some(((hops, ain, aout, profit), p8)),
                                },
                            },
                        },
                    },
                },
            },
        },
    }
}

/// The first part of the second half: relative profit and impacts.
#[verifier::opaque]
pub open spec fn spec_ser_result_b1(x: ResultData) -> Seq<u8> {
    lit_res_pbps() + spec_ser_i128(x.profit_bps) + lit_res_impacts() + spec_ser_imps(
        x.hop_impacts,
    )
}

/// The tail of a serialized result: total impact and enumeration order.
#[verifier::opaque]
pub open spec fn spec_ser_result_b2(x: ResultData) -> Seq<u8> {
    lit_res_timp() + spec_dec(x.total_impact_bps) + lit_res_order() + spec_dec(x.order)
        + lit_close_obj()
}

/// Parses relative profit and impacts.
pub open spec fn spec_parse_result_b1(s: Seq<u8>, pos: int) -> Option<((int, Seq<int>), int)> {
    match spec_expect(s, pos, lit_res_pbps()) {
        None => None,
        Some(p9) => match spec_parse_i128(s, p9) {
            None => None,
            Some((pbps, p10)) => match spec_expect(s, p10, lit_res_impacts()) {
                None => None,
                Some(p11) => match spec_parse_imps(s, p11) {
                    None => None,
                    Some((imps, p12)) => Some(((pbps, imps), p12)),
                },
            },
        },
    }
}

/// Parses the tail of a serialized result.
pub open spec fn spec_parse_result_b2(s: Seq<u8>, pos: int) -> Option<((int, int), int)> {
    match spec_expect(s, pos, lit_res_timp()) {
        None => None,
        Some(p13) => match spec_parse_dec(s, p13, 0xFFFF_FFFF_FFFF_FFFFint) {
            None => None,
            Some((timp, p14)) => match spec_expect(s, p14, lit_res_order()) {
                None => None,
                Some(p15) => match spec_parse_dec(s, p15, 0xFFFF_FFFF_FFFF_FFFFint) {
                    None => None,
                    Some((ord, p16)) => match spec_expect(s, p16, lit_close_obj()) {
                        None => None,
                        Some(p17) => Some(((timp, ord), p17)),
                    },
                },
            },
        },
    }
}

/// Parses the second half of a serialized result.
pub open spec fn spec_parse_result_b(s: Seq<u8>, pos: int) -> Option<
    ((int, Seq<int>, int, int), int),
> {
    match spec_parse_result_b1(s, pos) {
        None => None,
        Some(((pbps, imps), p12)) => match spec_parse_result_b2(s, p12) {
            None => None,
            Some(((timp, ord), p17)) => Some(((pbps, imps, timp, ord), p17)),
        },
    }
}

/// Parses one serialized priced result.
pub open spec fn spec_parse_result(s: Seq<u8>, pos: int) -> Option<(ResultData, int)> {
    match spec_parse_result_a(s, pos) {
        None => None,
        Some(((hops, ain, aout, profit), p8)) => match spec_parse_result_b(s, p8) {
            None => None,
            Some(((pbps, imps, timp, ord), p17)) => Some(
                (
                    ResultData {
                        hops,
                        amount_in: ain,
                        amount_out: aout,
                        profit,
                        profit_bps: pbps,
                        hop_impacts: imps,
                        total_impact_bps: timp,
                        order: ord,
                    },
                    p17,
                ),
            ),
        },
    }
}

/// The first half of a serialized result parses back to its fields.
#[verifier::rlimit(100)]
#[verifier::spinoff_prover]
proof fn lemma_rt_result_a(x: ResultData, pre: Seq<u8>, post: Seq<u8>)
    requires
        wf_result(x),
        post.len() > 0,
        post[0] == 44u8,
    ensures
        spec_parse_result_a(pre + spec_ser_result_a(x) + post, pre.len() as int) == Some(
            ((x.hops, x.amount_in, x.amount_out, x.profit), pre.len() + spec_ser_result_a(
                x,
            ).len() as int),
        ),
{
    reveal(spec_ser_result_a);
    let s = pre + spec_ser_result_a(x) + post;
    let c1 = lit_res_open();
    let c2 = spec_ser_hops(x.hops);
    let c3 = lit_res_ain();
    let c4 = spec_dec(x.amount_in);
    let c5 = lit_res_aout();
    let c6 = spec_dec(x.amount_out);
    let c7 = lit_res_profit();
    let c8 = spec_ser_i128(x.profit);
    let l1 = c1;
    let l2 = l1 + c2;
    let l3 = l2 + c3;
    let l4 = l3 + c4;
    let l5 = l4 + c5;
    let l6 = l5 + c6;
    let l7 = l6 + c7;
    let l8 = l7 + c8;
    assert(spec_ser_result_a(x) == l8);
    let m0 = pre;
    let m1 = m0 + c1;
    let m2 = m1 + c2;
    let m3 = m2 + c3;
    let m4 = m3 + c4;
    let m5 = m4 + c5;
    let m6 = m5 + c6;
    let m7 = m6 + c7;
    let m8 = m7 + c8;
    assert(m1 == pre + l1);
    lemma_shift(pre, l1, c2);
    assert(m2 == pre + l2);
    lemma_shift(pre, l2, c3);
    assert(m3 == pre + l3);
    lemma_shift(pre, l3, c4);
    assert(m4 == pre + l4);
    lemma_shift(pre, l4, c5);
    assert(m5 == pre + l5);
    lemma_shift(pre, l5, c6);
    assert(m6 == pre + l6);
    lemma_shift(pre, l6, c7);
    assert(m7 == pre + l7);
    lemma_shift(pre, l7, c8);
    assert(m8 == pre + l8);
    assert(s == m8 + post);
    let u8 = post;
    let u7 = c8 + u8;
    let u6 = c7 + u7;
    let u5 = c6 + u6;
    let u4 = c5 + u5;
    let u3 = c4 + u4;
    let u2 = c3 + u3;
    let u1 = c2 + u2;
    let u0 = c1 + u1;
    lemma_shift(m7, c8, u8);
    assert(m8 + u8 == m7 + u7);
    lemma_shift(m6, c7, u7);
    assert(m7 + u7 == m6 + u6);
    lemma_shift(m5, c6, u6);
    assert(m6 + u6 == m5 + u5);
    lemma_shift(m4, c5, u5);
    assert(m5 + u5 == m4 + u4);
    lemma_shift(m3, c4, u4);
    assert(m4 + u4 == m3 + u3);
    lemma_shift(m2, c3, u3);
    assert(m3 + u3 == m2 + u2);
    lemma_shift(m1, c2, u2);
    assert(m2 + u2 == m1 + u1);
    lemma_shift(m0, c1, u1);
    assert(m1 + u1 == m0 + u0);
    assert(s == m0 + u0);
    let q0 = pre.len() as int;
    let q1 = q0 + c1.len() as int;
    assert(q1 == m1.len() as int);
    let q2 = q1 + c2.len() as int;
    assert(q2 == m2.len() as int);
    let q3 = q2 + c3.len() as int;
    assert(q3 == m3.len() as int);
    let q4 = q3 + c4.len() as int;
    assert(q4 == m4.len() as int);
    let q5 = q4 + c5.len() as int;
    assert(q5 == m5.len() as int);
    let q6 = q5 + c6.len() as int;
    assert(q6 == m6.len() as int);
    let q7 = q6 + c7.len() as int;
    assert(q7 == m7.len() as int);
    let q8 = q7 + c8.len() as int;
    assert(q8 == m8.len() as int);
    assert(spec_expect(s, q0, lit_res_open()) == Some(q1)) by {
        lemma_rt_expect(c1, m0, u1);
    }
    assert(spec_parse_hops(s, q1) == Some((x.hops, q2))) by {
        assert(u2[0] == 93u8);
        lemma_rt_hops(x.hops, m1, u2);
    }
    assert(spec_expect(s, q2, lit_res_ain()) == Some(q3)) by {
        lemma_rt_expect(c3, m2, u3);
    }
    assert(spec_parse_dec(s, q3, 0xFFFF_FFFF_FFFF_FFFFint) == Some((x.amount_in, q4))) by {
        assert(u4[0] == 44u8);
        lemma_rt_dec(x.amount_in, 0xFFFF_FFFF_FFFF_FFFFint, m3, u4);
    }
    assert(spec_expect(s, q4, lit_res_aout()) == Some(q5)) by {
        lemma_rt_expect(c5, m4, u5);
    }
    assert(spec_parse_dec(s, q5, 0xFFFF_FFFF_FFFF_FFFFint) == Some((x.amount_out, q6))) by {
        assert(u6[0] == 44u8);
        lemma_rt_dec(x.amount_out, 0xFFFF_FFFF_FFFF_FFFFint, m5, u6);
    }
    assert(spec_expect(s, q6, lit_res_profit()) == Some(q7)) by {
        lemma_rt_expect(c7, m6, u7);
    }
    assert(spec_parse_i128(s, q7) == Some((x.profit, q8))) by {
        assert(u8[0] == 44u8);
        lemma_rt_i128(x.profit, m7, u8);
    }
    assert(q8 == pre.len() + spec_ser_result_a(x).len() as int);
}

/// Relative profit and impacts parse back to their fields.
#[verifier::rlimit(100)]
#[verifier::spinoff_prover]
proof fn lemma_rt_result_b1(x: ResultData, pre: Seq<u8>, post: Seq<u8>)
    requires
        wf_result(x),
        post.len() > 0,
        post[0] == 93u8,
    ensures
        spec_parse_result_b1(pre + spec_ser_result_b1(x) + post, pre.len() as int) == Some(
            ((x.profit_bps, x.hop_impacts), pre.len() + spec_ser_result_b1(x).len() as int),
        ),
{
    reveal(spec_ser_result_b1);
    let s = pre + spec_ser_result_b1(x) + post;
    let c1 = lit_res_pbps();
    let c2 = spec_ser_i128(x.profit_bps);
    let c3 = lit_res_impacts();
    let c4 = spec_ser_imps(x.hop_impacts);
    let l1 = c1;
    let l2 = l1 + c2;
    let l3 = l2 + c3;
    let l4 = l3 + c4;
    assert(spec_ser_result_b1(x) == l4);
    let m0 = pre;
    let m1 = m0 + c1;
    let m2 = m1 + c2;
    let m3 = m2 + c3;
    let m4 = m3 + c4;
    assert(m1 == pre + l1);
    lemma_shift(pre, l1, c2);
    assert(m2 == pre + l2);
    lemma_shift(pre, l2, c3);
    assert(m3 == pre + l3);
    lemma_shift(pre, l3, c4);
    assert(m4 == pre + l4);
    assert(s == m4 + post);
    let u4 = post;
    let u3 = c4 + u4;
    let u2 = c3 + u3;
    let u1 = c2 + u2;
    let u0 = c1 + u1;
    lemma_shift(m3, c4, u4);
    assert(m4 + u4 == m3 + u3);
    lemma_shift(m2, c3, u3);
    assert(m3 + u3 == m2 + u2);
    lemma_shift(m1, c2, u2);
    assert(m2 + u2 == m1 + u1);
    lemma_shift(m0, c1, u1);
    assert(m1 + u1 == m0 + u0);
    assert(s == m0 + u0);
    let q0 = pre.len() as int;
    let q1 = q0 + c1.len() as int;
    assert(q1 == m1.len() as int);
    let q2 = q1 + c2.len() as int;
    assert(q2 == m2.len() as int);
    let q3 = q2 + c3.len() as int;
    assert(q3 == m3.len() as int);
    let q4 = q3 + c4.len() as int;
    assert(q4 == m4.len() as int);
    assert(spec_expect(s, q0, lit_res_pbps()) == Some(q1)) by {
        lemma_rt_expect(c1, m0, u1);
    }
    assert(spec_parse_i128(s, q1) == Some((x.profit_bps, q2))) by {
        assert(u2[0] == 44u8);
        lemma_rt_i128(x.profit_bps, m1, u2);
    }
    assert(spec_expect(s, q2, lit_res_impacts()) == Some(q3)) by {
        lemma_rt_expect(c3, m2, u3);
    }
    assert(spec_parse_imps(s, q3) == Some((x.hop_impacts, q4))) by {
        assert(u4[0] == 93u8);
        lemma_rt_imps(x.hop_impacts, m3, u4);
    }
    assert(q4 == pre.len() + spec_ser_result_b1(x).len() as int);
}

/// The serialized result tail parses back to its fields.
#[verifier::rlimit(100)]
#[verifier::spinoff_prover]
proof fn lemma_rt_result_b2(x: ResultData, pre: Seq<u8>, post: Seq<u8>)
    requires
        wf_result(x),
    ensures
        spec_parse_result_b2(pre + spec_ser_result_b2(x) + post, pre.len() as int) == Some(
            ((x.total_impact_bps, x.order), pre.len() + spec_ser_result_b2(x).len() as int),
        ),
{
    reveal(spec_ser_result_b2);
    let s = pre + spec_ser_result_b2(x) + post;
    let c1 = lit_res_timp();
    let c2 = spec_dec(x.total_impact_bps);
    let c3 = lit_res_order();
    let c4 = spec_dec(x.order);
    let c5 = lit_close_obj();
    let l1 = c1;
    let l2 = l1 + c2;
    let l3 = l2 + c3;
    let l4 = l3 + c4;
    let l5 = l4 + c5;
    assert(spec_ser_result_b2(x) == l5);
    let m0 = pre;
    let m1 = m0 + c1;
    let m2 = m1 + c2;
    let m3 = m2 + c3;
    let m4 = m3 + c4;
    let m5 = m4 + c5;
    assert(m1 == pre + l1);
    lemma_shift(pre, l1, c2);
    assert(m2 == pre + l2);
    lemma_shift(pre, l2, c3);
    assert(m3 == pre + l3);
    lemma_shift(pre, l3, c4);
    assert(m4 == pre + l4);
    lemma_shift(pre, l4, c5);
    assert(m5 == pre + l5);
    assert(s == m5 + post);
    let u5 = post;
    let u4 = c5 + u5;
    let u3 = c4 + u4;
    let u2 = c3 + u3;
    let u1 = c2 + u2;
    let u0 = c1 + u1;
    lemma_shift(m4, c5, u5);
    assert(m5 + u5 == m4 + u4);
    lemma_shift(m3, c4, u4);
    assert(m4 + u4 == m3 + u3);
    lemma_shift(m2, c3, u3);
    assert(m3 + u3 == m2 + u2);
    lemma_shift(m1, c2, u2);
    assert(m2 + u2 == m1 + u1);
    lemma_shift(m0, c1, u1);
    assert(m1 + u1 == m0 + u0);
    assert(s == m0 + u0);
    let q0 = pre.len() as int;
    let q1 = q0 + c1.len() as int;
    assert(q1 == m1.len() as int);
    let q2 = q1 + c2.len() as int;
    assert(q2 == m2.len() as int);
    let q3 = q2 + c3.len() as int;
    assert(q3 == m3.len() as int);
    let q4 = q3 + c4.len() as int;
    assert(q4 == m4.len() as int);
    let q5 = q4 + c5.len() as int;
    assert(q5 == m5.len() as int);
    assert(spec_expect(s, q0, lit_res_timp()) == Some(q1)) by {
        lemma_rt_expect(c1, m0, u1);
    }
    assert(spec_parse_dec(s, q1, 0xFFFF_FFFF_FFFF_FFFFint) == Some((x.total_impact_bps, q2))) by {
        assert(u2[0] == 44u8);
        lemma_rt_dec(x.total_impact_bps, 0xFFFF_FFFF_FFFF_FFFFint, m1, u2);
    }
    assert(spec_expect(s, q2, lit_res_order()) == Some(q3)) by {
        lemma_rt_expect(c3, m2, u3);
    }
    assert(spec_parse_dec(s, q3, 0xFFFF_FFFF_FFFF_FFFFint) == Some((x.order, q4))) by {
        assert(u4[0] == 125u8);
        lemma_rt_dec(x.order, 0xFFFF_FFFF_FFFF_FFFFint, m3, u4);
    }
    assert(spec_expect(s, q4, lit_close_obj()) == Some(q5)) by {
        lemma_rt_expect(c5, m4, u5);
    }
    assert(q5 == pre.len() + spec_ser_result_b2(x).len() as int);
}

/// The second half of a serialized result parses back to its fields.
#[verifier::rlimit(60)]
#[verifier::spinoff_prover]
proof fn lemma_rt_result_b(x: ResultData, pre: Seq<u8>, post: Seq<u8>)
    requires
        wf_result(x),
    ensures
        spec_parse_result_b(pre + spec_ser_result_b(x) + post, pre.len() as int) == Some(
            ((x.profit_bps, x.hop_impacts, x.total_impact_bps, x.order), pre.len()
                + spec_ser_result_b(x).len() as int),
        ),
{
    reveal(spec_ser_result_b);
    let s = pre + spec_ser_result_b(x) + post;
    let sa = spec_ser_result_b1(x);
    let sb = spec_ser_result_b2(x);
    lemma_shift(pre, sa + sb, post);
    lemma_shift(sa, sb, post);
    lemma_shift(pre, sa, sb + post);
    assert(s == (pre + sa) + (sb + post));
    assert((sb + post).len() > 0 && (sb + post)[0] == 93u8) by {
        reveal(spec_ser_result_b2);
        assert(sb[0] == lit_res_timp()[0]);
        assert(lit_res_timp()[0] == 93u8);
    }
    lemma_rt_result_b1(x, pre, sb + post);
    lemma_shift(pre + sa, sb, post);
    assert(s == ((pre + sa) + sb) + post);
    lemma_rt_result_b2(x, pre + sa, post);
}


/// Round trip of the wire format at the record level: one serialized
/// priced result, wherever it stands in a byte stream, parses back to an
/// equal value, consuming exactly its own serialization.
#[verifier::rlimit(100)]
#[verifier::spinoff_prover]
pub proof fn lemma_rt_result(x: ResultData, pre: Seq<u8>, post: Seq<u8>)
    requires
        wf_result(x),
    ensures
        spec_parse_result(pre + spec_ser_result(x) + post, pre.len() as int) == Some(
            (x, pre.len() + spec_ser_result(x).len() as int),
        ),
{
    reveal(spec_ser_result);
    let s = pre + spec_ser_result(x) + post;
    let sa = spec_ser_result_a(x);
    let sb = spec_ser_result_b(x);
    let q0 = pre.len() as int;
    let q8 = q0 + sa.len() as int;
    let q17 = q8 + sb.len() as int;
    assert(spec_parse_result_a(s, q0) == Some(((x.hops, x.amount_in, x.amount_out, x.profit), q8)))
        by {
        lemma_shift(pre, sa + sb, post);
        lemma_shift(sa, sb, post);
        lemma_shift(pre, sa, sb + post);
        assert(s == (pre + sa) + (sb + post));
        assert((sb + post).len() > 0 && (sb + post)[0] == 44u8) by {
            reveal(spec_ser_result_b);
            reveal(spec_ser_result_b1);
            assert(sb[0] == spec_ser_result_b1(x)[0]);
            assert(spec_ser_result_b1(x)[0] == lit_res_pbps()[0]);
            assert(lit_res_pbps()[0] == 44u8);
        }
        lemma_rt_result_a(x, pre, sb + post);
        assert(q8 == (pre + sa).len() as int);
    }
    assert(spec_parse_result_b(s, q8) == Some(
        ((x.profit_bps, x.hop_impacts, x.total_impact_bps, x.order), q17),
    )) by {
        lemma_shift(pre, sa + sb, post);
        lemma_shift(sa, sb, post);
        lemma_shift(pre, sa, sb + post);
        lemma_shift(pre + sa, sb, post);
        assert(s == ((pre + sa) + sb) + post);
        lemma_rt_result_b(x, pre + sa, post);
        assert(q8 == (pre + sa).len() as int);
        assert(q17 == (pre + sa).len() + sb.len() as int);
    }
    assert(q17 == pre.len() + spec_ser_result(x).len() as int);
}



/// Serialized items after the first: each prefixed by a comma.
#[verifier::opaque]
pub open spec fn spec_ser_results_tail(xs: Seq<ResultData>) -> Seq<u8>
    decreases xs.len(),
{
    if xs.len() == 0 {
        Seq::empty()
    } else {
        lit_comma() + spec_ser_result(xs[0]) + spec_ser_results_tail(xs.skip(1))
    }
}

/// The serialized list body, without its surrounding brackets.
#[verifier::opaque]
pub open spec fn spec_ser_results(xs: Seq<ResultData>) -> Seq<u8> {
    if xs.len() == 0 {
        Seq::empty()
    } else {
        spec_ser_result(xs[0]) + spec_ser_results_tail(xs.skip(1))
    }
}


/// A serialized result-list tail parses back to itself before a closing
/// bracket.
#[verifier::rlimit(100)]
#[verifier::spinoff_prover]
proof fn lemma_rt_results_tail(xs: Seq<ResultData>, pre: Seq<u8>, post: Seq<u8>)
    requires
        forall|i: int| 0 <= i < xs.len() ==> wf_result(#[trigger] xs[i]),
        post.len() > 0,
        post[0] == 93,
    ensures
        spec_parse_results_more(pre + spec_ser_results_tail(xs) + post, pre.len() as int) == Some(
            (xs, pre.len() + spec_ser_results_tail(xs).len() as int),
        ),
    decreases xs.len(),
{
    reveal(spec_parse_results_more);
    reveal(spec_ser_results_tail);
    let s = pre + spec_ser_results_tail(xs) + post;
    let pos = pre.len() as int;
    if xs.len() == 0 {
        assert(s =~= pre + post);
        assert(s[pos] == post[0]);
        assert(Seq::<ResultData>::empty() =~= xs);
    } else {
        let c1 = lit_comma();
        let c2 = spec_ser_result(xs[0]);
        let c3 = spec_ser_results_tail(xs.skip(1));
        assert(spec_ser_results_tail(xs) == (c1 + c2) + c3);
        lemma_shift(pre, (c1 + c2) + c3, post);
        lemma_shift(c1 + c2, c3, post);
        lemma_shift(pre, c1 + c2, c3 + post);
        lemma_shift(pre, c1, c2);
        lemma_shift(pre + c1, c2, c3 + post);
        assert(s == ((pre + c1) + c2) + (c3 + post));
        assert(s[pos] == c1[0]);
        assert(c2.len() >= 1) by {
            reveal(spec_ser_result);
            reveal(spec_ser_result_a);
        }
        if xs.len() > 1 {
            assert((c3 + post)[0] == 44u8) by {
                assert(c3[0] == lit_comma()[0]);
            }
        } else {
            assert(c3 =~= Seq::<u8>::empty());
            assert((c3 + post)[0] == 93u8);
        }
        lemma_rt_result(xs[0], pre + c1, c3 + post);
        lemma_shift((pre + c1) + c2, c3, post);
        assert(s == (((pre + c1) + c2) + c3) + post);
        assert(pre + c1 + c2 == (pre + c1) + c2);
        lemma_rt_results_tail(xs.skip(1), pre + c1 + c2, post);
        assert(seq![xs[0]] + xs.skip(1) =~= xs);
    }
}

/// A serialized result-list body parses back to itself before a closing
/// bracket.
#[verifier::rlimit(100)]
#[verifier::spinoff_prover]
proof fn lemma_rt_results(xs: Seq<ResultData>, pre: Seq<u8>, post: Seq<u8>)
    requires
        forall|i: int| 0 <= i < xs.len() ==> wf_result(#[trigger] xs[i]),
        post.len() > 0,
        post[0] == 93,
    ensures
        spec_parse_results(pre + spec_ser_results(xs) + post, pre.len() as int) == Some(
            (xs, pre.len() + spec_ser_results(xs).len() as int),
        ),
{
    reveal(spec_parse_results);
    reveal(spec_parse_results_more);
    reveal(spec_ser_results);
    let s = pre + spec_ser_results(xs) + post;
    let pos = pre.len() as int;
    if xs.len() == 0 {
        assert(s =~= pre + post);
        assert(s[pos] == post[0]);
        assert(Seq::<ResultData>::empty() =~= xs);
    } else {
        let c2 = spec_ser_result(xs[0]);
        let c3 = spec_ser_results_tail(xs.skip(1));
        assert(spec_ser_results(xs) == c2 + c3);
        lemma_shift(pre, c2 + c3, post);
        lemma_shift(c2, c3, post);
        lemma_shift(pre, c2, c3 + post);
        assert(s == (pre + c2) + (c3 + post));
        assert(c2.len() >= 1 && c2[0] == 123u8) by {
            reveal(spec_ser_result);
            reveal(spec_ser_result_a);
            assert(c2[0] == lit_res_open()[0]);
        }
        assert(s[pos] == c2[0]);
        assert(s[pos] != 93);
        if xs.len() > 1 {
            assert((c3 + post)[0] == 44u8) by {
                reveal(spec_ser_results_tail);
                assert(c3[0] == lit_comma()[0]);
            }
        } else {
            assert(c3 =~= Seq::<u8>::empty()) by {
                reveal(spec_ser_results_tail);
            }
            assert((c3 + post)[0] == 93u8);
        }
        assert(spec_parse_result(s, pos) == Some((xs[0], pos + c2.len() as int))) by {
            lemma_rt_result(xs[0], pre, c3 + post);
        }
        lemma_shift(pre + c2, c3, post);
        assert(s == ((pre + c2) + c3) + post);
        assert(spec_parse_results_more(s, pos + c2.len() as int) == Some(
            (xs.skip(1), pos + c2.len() + c3.len() as int),
        )) by {
            lemma_rt_results_tail(xs.skip(1), pre + c2, post);
            assert((pre + c2).len() as int == pos + c2.len() as int);
        }
        assert(seq![xs[0]] + xs.skip(1) =~= xs);
        assert(spec_ser_results(xs).len() == c2.len() + c3.len());
    }
}

/// The serialized form of one selection.
#[verifier::opaque]
pub open spec fn spec_ser_selected(x: SelectedData) -> Seq<u8> {
    lit_sel_open() + x.name + lit_sel_ts() + spec_dec(x.timestamp) + lit_sel_paths()
        + spec_ser_results(x.paths) + lit_close_list_obj()
}

/// Serialized items after the first: each prefixed by a comma.
#[verifier::opaque]
pub open spec fn spec_ser_sels_tail(xs: Seq<SelectedData>) -> Seq<u8>
    decreases xs.len(),
{
    if xs.len() == 0 {
        Seq::empty()
    } else {
        lit_comma() + spec_ser_selected(xs[0]) + spec_ser_sels_tail(xs.skip(1))
    }
}

/// The serialized list body, without its surrounding brackets.
#[verifier::opaque]
pub open spec fn spec_ser_sels(xs: Seq<SelectedData>) -> Seq<u8> {
    if xs.len() == 0 {
        Seq::empty()
    } else {
        spec_ser_selected(xs[0]) + spec_ser_sels_tail(xs.skip(1))
    }
}


/// Parses the items after the first, up to the unconsumed closing bracket.
#[verifier::opaque]
pub open spec fn spec_parse_results_more(s: Seq<u8>, pos: int) -> Option<(Seq<ResultData>, int)>
    decreases s.len() - pos,
{
    if pos < 0 || pos >= s.len() {
        None
    } else if s[pos] == 93 {
        Some((Seq::empty(), pos))
    } else if s[pos] == 44 {
        match spec_parse_result(s, pos + 1) {
            None => None,
            Some((x, p)) => if p <= pos + 1 || p > s.len() {
                None
            } else {
                match spec_parse_results_more(s, p) {
                    None => None,
                    Some((rest, q)) => Some((seq![x] + rest, q)),
                }
            },
        }
    } else {
        None
    }
}

/// Parses a serialized list body, up to the unconsumed closing bracket.
#[verifier::opaque]
pub open spec fn spec_parse_results(s: Seq<u8>, pos: int) -> Option<(Seq<ResultData>, int)> {
    if pos < 0 || pos >= s.len() {
        None
    } else if s[pos] == 93 {
        Some((Seq::empty(), pos))
    } else {
        match spec_parse_result(s, pos) {
            None => None,
            Some((x, p)) => if p <= pos || p > s.len() {
                None
            } else {
                match spec_parse_results_more(s, p) {
                    None => None,
                    Some((rest, q)) => Some((seq![x] + rest, q)),
                }
            },
        }
    }
}

/// Parses one serialized selection.
#[verifier::opaque]
pub open spec fn spec_parse_selected(s: Seq<u8>, pos: int) -> Option<(SelectedData, int)> {
    match spec_expect(s, pos, lit_sel_open()) {
        None => None,
        Some(p1) => match spec_parse_name(s, p1) {
            None => None,
            Some((name, p2)) => match spec_expect(s, p2, lit_sel_ts()) {
                None => None,
                Some(p3) => match spec_parse_dec(s, p3, 0xFFFF_FFFF_FFFF_FFFFint) {
                    None => None,
                    Some((ts, p4)) => match spec_expect(s, p4, lit_sel_paths()) {
                        None => None,
                        Some(p5) => match spec_parse_results(s, p5) {
                            None => None,
                            Some((paths, p6)) => match spec_expect(s, p6, lit_close_list_obj()) {
                                None => None,
                                Some(p7) => Some(
                                    (SelectedData { name, timestamp: ts, paths }, p7),
                                ),
                            },
                        },
                    },
                },
            },
        },
    }
}

/// Parses the items after the first, up to the unconsumed closing bracket.
#[verifier::opaque]
pub open spec fn spec_parse_sels_more(s: Seq<u8>, pos: int) -> Option<(Seq<SelectedData>, int)>
    decreases s.len() - pos,
{
    if pos < 0 || pos >= s.len() {
        None
    } else if s[pos] == 93 {
        Some((Seq::empty(), pos))
    } else if s[pos] == 44 {
        match spec_parse_selected(s, pos + 1) {
            None => None,
            Some((x, p)) => if p <= pos + 1 || p > s.len() {
                None
            } else {
                match spec_parse_sels_more(s, p) {
                    None => None,
                    Some((rest, q)) => Some((seq![x] + rest, q)),
                }
            },
        }
    } else {
        None
    }
}

/// Parses a serialized list body, up to the unconsumed closing bracket.
#[verifier::opaque]
pub open spec fn spec_parse_sels(s: Seq<u8>, pos: int) -> Option<(Seq<SelectedData>, int)> {
    if pos < 0 || pos >= s.len() {
        None
    } else if s[pos] == 93 {
        Some((Seq::empty(), pos))
    } else {
        match spec_parse_selected(s, pos) {
            None => None,
            Some((x, p)) => if p <= pos || p > s.len() {
                None
            } else {
                match spec_parse_sels_more(s, p) {
                    None => None,
                    Some((rest, q)) => Some((seq![x] + rest, q)),
                }
            },
        }
    }
}



/// The quote scan lands exactly on a known closing quote.
proof fn lemma_find_quote(s: Seq<u8>, pos: int, q: int)
    requires
        0 <= pos <= q < s.len(),
        forall|i: int| pos <= i < q ==> plain_byte(#[trigger] s[i]),
        s[q] == 34,
    ensures
        spec_find_quote(s, pos) == Some(q),
    decreases q - pos,
{
    if pos == q {
    } else {
        assert(plain_byte(s[pos]));
        lemma_find_quote(s, pos + 1, q);
    }
}

/// A serialized name parses back to itself when a quote follows it.
proof fn lemma_rt_name(name: Seq<u8>, pre: Seq<u8>, post: Seq<u8>)
    requires
        plain_bytes(name),
        post.len() > 0,
        post[0] == 34,
    ensures
        spec_parse_name(pre + name + post, pre.len() as int) == Some(
            (name, pre.len() + name.len() as int),
        ),
{
    let s = pre + name + post;
    let pos = pre.len() as int;
    let q = pre.len() + name.len() as int;
    assert(forall|i: int| pos <= i < q ==> s[i] == #[trigger] name[i - pos]);
    assert(forall|i: int| pos <= i < q ==> plain_byte(#[trigger] s[i]));
    assert(s[q] == post[0]);
    lemma_find_quote(s, pos, q);
    assert(s.subrange(pos, q) =~= name);
}

/// A serialized selection parses back to itself.
#[verifier::rlimit(100)]
#[verifier::spinoff_prover]
proof fn lemma_rt_selected(x: SelectedData, pre: Seq<u8>, post: Seq<u8>)
    requires
        wf_selected(x),
    ensures
        spec_parse_selected(pre + spec_ser_selected(x) + post, pre.len() as int) == Some(
            (x, pre.len() + spec_ser_selected(x).len() as int),
        ),
{
    reveal(spec_parse_selected);
    reveal(spec_ser_selected);
    let s = pre + spec_ser_selected(x) + post;
    let c1 = lit_sel_open();
    let c2 = x.name;
    let c3 = lit_sel_ts();
    let c4 = spec_dec(x.timestamp);
    let c5 = lit_sel_paths();
    let c6 = spec_ser_results(x.paths);
    let c7 = lit_close_list_obj();
    let l1 = c1;
    let l2 = l1 + c2;
    let l3 = l2 + c3;
    let l4 = l3 + c4;
    let l5 = l4 + c5;
    let l6 = l5 + c6;
    let l7 = l6 + c7;
    assert(spec_ser_selected(x) == l7);
    let m0 = pre;
    let m1 = m0 + c1;
    let m2 = m1 + c2;
    let m3 = m2 + c3;
    let m4 = m3 + c4;
    let m5 = m4 + c5;
    let m6 = m5 + c6;
    let m7 = m6 + c7;
    assert(m1 == pre + l1);
    lemma_shift(pre, l1, c2);
    assert(m2 == pre + l2);
    lemma_shift(pre, l2, c3);
    assert(m3 == pre + l3);
    lemma_shift(pre, l3, c4);
    assert(m4 == pre + l4);
    lemma_shift(pre, l4, c5);
    assert(m5 == pre + l5);
    lemma_shift(pre, l5, c6);
    assert(m6 == pre + l6);
    lemma_shift(pre, l6, c7);
    assert(m7 == pre + l7);
    assert(s == m7 + post);
    let u7 = post;
    let u6 = c7 + u7;
    let u5 = c6 + u6;
    let u4 = c5 + u5;
    let u3 = c4 + u4;
    let u2 = c3 + u3;
    let u1 = c2 + u2;
    let u0 = c1 + u1;
    lemma_shift(m6, c7, u7);
    assert(m7 + u7 == m6 + u6);
    lemma_shift(m5, c6, u6);
    assert(m6 + u6 == m5 + u5);
    lemma_shift(m4, c5, u5);
    assert(m5 + u5 == m4 + u4);
    lemma_shift(m3, c4, u4);
    assert(m4 + u4 == m3 + u3);
    lemma_shift(m2, c3, u3);
    assert(m3 + u3 == m2 + u2);
    lemma_shift(m1, c2, u2);
    assert(m2 + u2 == m1 + u1);
    lemma_shift(m0, c1, u1);
    assert(m1 + u1 == m0 + u0);
    assert(s == m0 + u0);
    let q0 = pre.len() as int;
    let q1 = q0 + c1.len() as int;
    let q2 = q1 + c2.len() as int;
    let q3 = q2 + c3.len() as int;
    let q4 = q3 + c4.len() as int;
    let q5 = q4 + c5.len() as int;
    let q6 = q5 + c6.len() as int;
    let q7 = q6 + c7.len() as int;
    assert(q1 == m1.len() as int);
    assert(q2 == m2.len() as int);
    assert(q3 == m3.len() as int);
    assert(q4 == m4.len() as int);
    assert(q5 == m5.len() as int);
    assert(q6 == m6.len() as int);
    assert(q7 == m7.len() as int);
    assert(spec_expect(s, q0, lit_sel_open()) == Some(q1)) by {
        lemma_rt_expect(c1, m0, u1);
    }
    assert(spec_parse_name(s, q1) == Some((x.name, q2))) by {
        assert(u2[0] == 34u8);
        lemma_rt_name(c2, m1, u2);
    }
    assert(spec_expect(s, q2, lit_sel_ts()) == Some(q3)) by {
        lemma_rt_expect(c3, m2, u3);
    }
    assert(spec_parse_dec(s, q3, 0xFFFF_FFFF_FFFF_FFFFint) == Some((x.timestamp, q4))) by {
        assert(u4[0] == 44u8);
        lemma_rt_dec(x.timestamp, 0xFFFF_FFFF_FFFF_FFFFint, m3, u4);
    }
    assert(spec_expect(s, q4, lit_sel_paths()) == Some(q5)) by {
        lemma_rt_expect(c5, m4, u5);
    }
    assert(spec_parse_results(s, q5) == Some((x.paths, q6))) by {
        assert(u6[0] == 93u8);
        lemma_rt_results(x.paths, m5, u6);
    }
    assert(spec_expect(s, q6, lit_close_list_obj()) == Some(q7)) by {
        lemma_rt_expect(c7, m6, u7);
    }
    assert(q7 == pre.len() + spec_ser_selected(x).len() as int);
}


/// A serialized selection-list tail parses back to itself before a
/// closing bracket.
#[verifier::rlimit(100)]
#[verifier::spinoff_prover]
proof fn lemma_rt_sels_tail(xs: Seq<SelectedData>, pre: Seq<u8>, post: Seq<u8>)
    requires
        forall|i: int| 0 <= i < xs.len() ==> wf_selected(#[trigger] xs[i]),
        post.len() > 0,
        post[0] == 93,
    ensures
        spec_parse_sels_more(pre + spec_ser_sels_tail(xs) + post, pre.len() as int) == Some(
            (xs, pre.len() + spec_ser_sels_tail(xs).len() as int),
        ),
    decreases xs.len(),
{
    reveal(spec_parse_sels_more);
    reveal(spec_ser_sels_tail);
    let s = pre + spec_ser_sels_tail(xs) + post;
    let pos = pre.len() as int;
    if xs.len() == 0 {
        assert(s =~= pre + post);
        assert(s[pos] == post[0]);
        assert(Seq::<SelectedData>::empty() =~= xs);
    } else {
        let c1 = lit_comma();
        let c2 = spec_ser_selected(xs[0]);
        let c3 = spec_ser_sels_tail(xs.skip(1));
        assert(spec_ser_sels_tail(xs) == (c1 + c2) + c3);
        lemma_shift(pre, (c1 + c2) + c3, post);
        lemma_shift(c1 + c2, c3, post);
        lemma_shift(pre, c1 + c2, c3 + post);
        lemma_shift(pre, c1, c2);
        lemma_shift(pre + c1, c2, c3 + post);
        assert(s == ((pre + c1) + c2) + (c3 + post));
        assert(s[pos] == c1[0]);
        assert(c2.len() >= 1) by {
            reveal(spec_ser_selected);
        }
        if xs.len() > 1 {
            assert((c3 + post)[0] == 44u8) by {
                assert(c3[0] == lit_comma()[0]);
            }
        } else {
            assert(c3 =~= Seq::<u8>::empty());
            assert((c3 + post)[0] == 93u8);
        }
        assert(spec_parse_selected(s, pos + 1) == Some((xs[0], pos + 1 + c2.len() as int))) by {
            assert(c1.len() == 1);
            lemma_rt_selected(xs[0], pre + c1, c3 + post);
        }
        lemma_shift((pre + c1) + c2, c3, post);
        assert(s == (((pre + c1) + c2) + c3) + post);
        assert(spec_parse_sels_more(s, pos + 1 + c2.len() as int) == Some(
            (xs.skip(1), pos + 1 + c2.len() + c3.len() as int),
        )) by {
            lemma_rt_sels_tail(xs.skip(1), (pre + c1) + c2, post);
            assert(((pre + c1) + c2).len() as int == pos + 1 + c2.len() as int);
        }
        assert(seq![xs[0]] + xs.skip(1) =~= xs);
        assert(spec_ser_sels_tail(xs).len() == 1 + c2.len() + c3.len());
    }
}

/// A serialized selection-list body parses back to itself before a
/// closing bracket.
#[verifier::rlimit(100)]
#[verifier::spinoff_prover]
proof fn lemma_rt_sels(xs: Seq<SelectedData>, pre: Seq<u8>, post: Seq<u8>)
    requires
        forall|i: int| 0 <= i < xs.len() ==> wf_selected(#[trigger] xs[i]),
        post.len() > 0,
        post[0] == 93,
    ensures
        spec_parse_sels(pre + spec_ser_sels(xs) + post, pre.len() as int) == Some(
            (xs, pre.len() + spec_ser_sels(xs).len() as int),
        ),
{
    reveal(spec_parse_sels);
    reveal(spec_parse_sels_more);
    reveal(spec_ser_sels);
    let s = pre + spec_ser_sels(xs) + post;
    let pos = pre.len() as int;
    if xs.len() == 0 {
        assert(s =~= pre + post);
        assert(s[pos] == post[0]);
        assert(Seq::<SelectedData>::empty() =~= xs);
    } else {
        let c2 = spec_ser_selected(xs[0]);
        let c3 = spec_ser_sels_tail(xs.skip(1));
        assert(spec_ser_sels(xs) == c2 + c3);
        lemma_shift(pre, c2 + c3, post);
        lemma_shift(c2, c3, post);
        lemma_shift(pre, c2, c3 + post);
        assert(s == (pre + c2) + (c3 + post));
        assert(c2.len() >= 1 && c2[0] == 123u8) by {
            reveal(spec_ser_selected);
            assert(c2[0] == lit_sel_open()[0]);
        }
        assert(s[pos] == c2[0]);
        assert(s[pos] != 93);
        if xs.len() > 1 {
            assert((c3 + post)[0] == 44u8) by {
                reveal(spec_ser_sels_tail);
                assert(c3[0] == lit_comma()[0]);
            }
        } else {
            assert(c3 =~= Seq::<u8>::empty()) by {
                reveal(spec_ser_sels_tail);
            }
            assert((c3 + post)[0] == 93u8);
        }
        assert(spec_parse_selected(s, pos) == Some((xs[0], pos + c2.len() as int))) by {
            lemma_rt_selected(xs[0], pre, c3 + post);
        }
        lemma_shift(pre + c2, c3, post);
        assert(s == ((pre + c2) + c3) + post);
        assert(spec_parse_sels_more(s, pos + c2.len() as int) == Some(
            (xs.skip(1), pos + c2.len() + c3.len() as int),
        )) by {
            lemma_rt_sels_tail(xs.skip(1), pre + c2, post);
            assert((pre + c2).len() as int == pos + c2.len() as int);
        }
        assert(seq![xs[0]] + xs.skip(1) =~= xs);
        assert(spec_ser_sels(xs).len() == c2.len() + c3.len());
    }
}

/// Serializing a selection collection and parsing the bytes back yields
/// an equal value: the round trip of the persistence format.
#[verifier::rlimit(100)]
#[verifier::spinoff_prover]
pub proof fn lemma_selection_round_trip(v: Seq<SelectedData>)
    requires
        wf_selecteds(v),
    ensures
        spec_parse_vec(spec_ser_vec(v), 0) == Some((v, spec_ser_vec(v).len() as int)),
{
    reveal(spec_ser_vec);
    let s = spec_ser_vec(v);
    let c1 = lit_open_value();
    let c2 = spec_ser_sels(v);
    let c3 = lit_close_list_obj();
    let pre = Seq::<u8>::empty();
    let post = Seq::<u8>::empty();
    assert(s == (c1 + c2) + c3);
    assert(s =~= ((pre + c1) + c2) + (c3 + post)) by {
        assert(pre + c1 =~= c1);
        assert(c3 + post =~= c3);
    }
    assert(pre + c1 =~= c1);
    assert(c3 + post =~= c3);
    assert(spec_expect(s, 0, lit_open_value()) == Some(c1.len() as int)) by {
        lemma_rt_expect(c1, pre, c2 + c3);
        assert(s =~= pre + c1 + (c2 + c3));
    }
    assert(spec_parse_sels(s, c1.len() as int) == Some(
        (v, c1.len() + c2.len() as int),
    )) by {
        assert((c3 + post)[0] == 93u8);
        lemma_rt_sels(v, c1, c3 + post);
        assert(s =~= c1 + c2 + (c3 + post));
        assert(c1.len() + c2.len() as int == (c1 + c2).len() as int);
    }
    assert(spec_expect(s, c1.len() + c2.len() as int, lit_close_list_obj()) == Some(
        s.len() as int,
    )) by {
        lemma_rt_expect(c3, c1 + c2, post);
        assert(s =~= (c1 + c2) + c3 + post);
    }
}

/// The serialized form of a whole selection collection: the unit of file
/// persistence.
#[verifier::opaque]
pub open spec fn spec_ser_vec(v: Seq<SelectedData>) -> Seq<u8> {
    lit_open_value() + spec_ser_sels(v) + lit_close_list_obj()
}

/// Parses a whole serialized selection collection.
pub open spec fn spec_parse_vec(s: Seq<u8>, pos: int) -> Option<(Seq<SelectedData>, int)> {
    match spec_expect(s, pos, lit_open_value()) {
        None => None,
        Some(p1) => match spec_parse_sels(s, p1) {
            None => None,
            Some((v, p2)) => match spec_expect(s, p2, lit_close_list_obj()) {
                None => None,
                Some(p3) => Some((v, p3)),
            },
        },
    }
}


/// Appends the serialized items after the first.
fn write_hops_tail(out: &mut Vec<u8>, v: &Vec<Hop>, i: usize)
    requires
        i <= v.len(),
    ensures
        final (out)@ == old(out)@ + spec_ser_hops_tail(hops_view(v@).skip(i as int)),
    decreases v.len() - i,
{
    let ghost xs = hops_view(v@).skip(i as int);
    if i >= v.len() {
        proof {
            assert(xs =~= Seq::empty());
            assert(out@ + spec_ser_hops_tail(xs) =~= out@);
        }
    } else {
        write_comma(out);
        write_hop(out, &v[i]);
        write_hops_tail(out, v, i + 1);
        proof {
            assert(xs[0] == hops_view(v@)[i as int]);
            assert(xs.skip(1) =~= hops_view(v@).skip(i + 1));
            assert(out@ =~= old(out)@ + spec_ser_hops_tail(xs));
        }
    }
}

/// Appends the serialized list body.
fn write_hops(out: &mut Vec<u8>, v: &Vec<Hop>)
    ensures
        final (out)@ == old(out)@ + spec_ser_hops(hops_view(v@)),
{
    let ghost xs = hops_view(v@);
    if v.len() == 0 {
        proof {
            assert(out@ + spec_ser_hops(xs) =~= out@);
        }
    } else {
        write_hop(out, &v[0]);
        write_hops_tail(out, v, 1);
        proof {
            assert(xs[0] == hops_view(v@)[0]);
            assert(xs.skip(1) =~= hops_view(v@).skip(1));
            assert(out@ =~= old(out)@ + spec_ser_hops(xs));
        }
    }
}

/// Appends the serialized items after the first.
fn write_imps_tail(out: &mut Vec<u8>, v: &Vec<u64>, i: usize)
    requires
        i <= v.len(),
    ensures
        final (out)@ == old(out)@ + spec_ser_imps_tail(impacts_view(v@).skip(i as int)),
    decreases v.len() - i,
{
    let ghost xs = impacts_view(v@).skip(i as int);
    if i >= v.len() {
        proof {
            assert(xs =~= Seq::empty());
            assert(out@ + spec_ser_imps_tail(xs) =~= out@);
        }
    } else {
        write_comma(out);
        push_dec(out, v[i] as u128);
        write_imps_tail(out, v, i + 1);
        proof {
            assert(xs[0] == impacts_view(v@)[i as int]);
            assert(xs.skip(1) =~= impacts_view(v@).skip(i + 1));
            assert(out@ =~= old(out)@ + spec_ser_imps_tail(xs));
        }
    }
}

/// Appends the serialized list body.
fn write_imps(out: &mut Vec<u8>, v: &Vec<u64>)
    ensures
        final (out)@ == old(out)@ + spec_ser_imps(impacts_view(v@)),
{
    let ghost xs = impacts_view(v@);
    if v.len() == 0 {
        proof {
            assert(out@ + spec_ser_imps(xs) =~= out@);
        }
    } else {
        push_dec(out, v[0] as u128);
        write_imps_tail(out, v, 1);
        proof {
            assert(xs[0] == impacts_view(v@)[0]);
            assert(xs.skip(1) =~= impacts_view(v@).skip(1));
            assert(out@ =~= old(out)@ + spec_ser_imps(xs));
        }
    }
}


/// Parses one machine-word list item.
pub fn parse_u64_at(b: &Vec<u8>, pos: usize) -> (r: Option<(u64, usize)>)
    ensures
        match r {
            Some((v, p)) => spec_parse_dec(b@, pos as int, 0xFFFF_FFFF_FFFF_FFFFint) == Some(
                (v as int, p as int),
            ),
            None => spec_parse_dec(b@, pos as int, 0xFFFF_FFFF_FFFF_FFFFint) is None,
        },
{
    match parse_dec(b, pos, 0xFFFF_FFFF_FFFF_FFFFu128) {
        None => None,
        Some((v, p)) => Some((v as u64, p)),
    }
}

/// Parses the items after the first, mirroring the specification.
fn parse_hops_more(b: &Vec<u8>, pos: usize) -> (r: Option<(Vec<Hop>, usize)>)
    ensures
        match r {
            Some((v, p)) => spec_parse_hops_more(b@, pos as int) == Some((hops_view(v@), p as int)),
            None => spec_parse_hops_more(b@, pos as int) is None,
        },
    decreases b@.len() - pos,
{
    if pos >= b.len() {
        return None;
    }
    let c = b[pos];
    if c == 93 {
        let v: Vec<Hop> = Vec::new();
        proof {
            assert(hops_view(v@) =~= Seq::empty());
        }
        return Some((v, pos));
    }
    if c != 44 {
        return None;
    }
    match parse_hop(b, pos + 1) {
        None => None,
        Some((x, p)) => {
            if p <= pos + 1 || p > b.len() {
                return None;
            }
            match parse_hops_more(b, p) {
                None => None,
                Some((rest, q)) => {
                    let ghost restv = hops_view(rest@);
                    let mut rest2 = rest;
                    rest2.insert(0, x);
                    proof {
                        assert(hops_view(rest2@) =~= seq![hops_view(rest2@)[0]] + restv);
                    }
                    Some((rest2, q))
                },
            }
        },
    }
}

/// Parses a serialized list body, mirroring the specification.
fn parse_hops_list(b: &Vec<u8>, pos: usize) -> (r: Option<(Vec<Hop>, usize)>)
    ensures
        match r {
            Some((v, p)) => spec_parse_hops(b@, pos as int) == Some((hops_view(v@), p as int)),
            None => spec_parse_hops(b@, pos as int) is None,
        },
{
    if pos >= b.len() {
        return None;
    }
    let c = b[pos];
    if c == 93 {
        let v: Vec<Hop> = Vec::new();
        proof {
            assert(hops_view(v@) =~= Seq::empty());
        }
        return Some((v, pos));
    }
    match parse_hop(b, pos) {
        None => None,
        Some((x, p)) => {
            if p <= pos || p > b.len() {
                return None;
            }
            match parse_hops_more(b, p) {
                None => None,
                Some((rest, q)) => {
                    let ghost restv = hops_view(rest@);
                    let mut rest2 = rest;
                    rest2.insert(0, x);
                    proof {
                        assert(hops_view(rest2@) =~= seq![hops_view(rest2@)[0]] + restv);
                    }
                    Some((rest2, q))
                },
            }
        },
    }
}

/// Parses the items after the first, mirroring the specification.
fn parse_imps_more(b: &Vec<u8>, pos: usize) -> (r: Option<(Vec<u64>, usize)>)
    ensures
        match r {
            Some((v, p)) => spec_parse_imps_more(b@, pos as int) == Some((impacts_view(v@), p as int)),
            None => spec_parse_imps_more(b@, pos as int) is None,
        },
    decreases b@.len() - pos,
{
    if pos >= b.len() {
        return None;
    }
    let c = b[pos];
    if c == 93 {
        let v: Vec<u64> = Vec::new();
        proof {
            assert(impacts_view(v@) =~= Seq::empty());
        }
        return Some((v, pos));
    }
    if c != 44 {
        return None;
    }
    match parse_u64_at(b, pos + 1) {
        None => None,
        Some((x, p)) => {
            if p <= pos + 1 || p > b.len() {
                return None;
            }
            match parse_imps_more(b, p) {
                None => None,
                Some((rest, q)) => {
                    let ghost restv = impacts_view(rest@);
                    let mut rest2 = rest;
                    rest2.insert(0, x);
                    proof {
                        assert(impacts_view(rest2@) =~= seq![impacts_view(rest2@)[0]] + restv);
                    }
                    Some((rest2, q))
                },
            }
        },
    }
}

/// Parses a serialized list body, mirroring the specification.
fn parse_imps_list(b: &Vec<u8>, pos: usize) -> (r: Option<(Vec<u64>, usize)>)
    ensures
        match r {
            Some((v, p)) => spec_parse_imps(b@, pos as int) == Some((impacts_view(v@), p as int)),
            None => spec_parse_imps(b@, pos as int) is None,
        },
{
    if pos >= b.len() {
        return None;
    }
    let c = b[pos];
    if c == 93 {
        let v: Vec<u64> = Vec::new();
        proof {
            assert(impacts_view(v@) =~= Seq::empty());
        }
        return Some((v, pos));
    }
    match parse_u64_at(b, pos) {
        None => None,
        Some((x, p)) => {
            if p <= pos || p > b.len() {
                return None;
            }
            match parse_imps_more(b, p) {
                None => None,
                Some((rest, q)) => {
                    let ghost restv = impacts_view(rest@);
                    let mut rest2 = rest;
                    rest2.insert(0, x);
                    proof {
                        assert(impacts_view(rest2@) =~= seq![impacts_view(rest2@)[0]] + restv);
                    }
                    Some((rest2, q))
                },
            }
        },
    }
}

/// Appends the serialized form of one priced result.
#[verifier::rlimit(100)]
#[verifier::spinoff_prover]
pub fn write_result(out: &mut Vec<u8>, r: &SwapPathResult)
    ensures
        final (out)@ == old(out)@ + spec_ser_result(r@),
{
    write_res_open(out);
    write_hops(out, &r.path.hops);
    write_res_ain(out);
    push_dec(out, r.amount_in as u128);
    write_res_aout(out);
    push_dec(out, r.amount_out as u128);
    write_res_profit(out);
    push_i128(out, r.profit);
    write_res_pbps(out);
    push_i128(out, r.profit_bps);
    write_res_impacts(out);
    write_imps(out, &r.hop_impacts);
    write_res_timp(out);
    push_dec(out, r.total_impact_bps as u128);
    write_res_order(out);
    push_dec(out, r.order as u128);
    write_close_obj(out);
    proof {
        reveal(spec_ser_result);
        reveal(spec_ser_result_a);
        reveal(spec_ser_result_b);
        reveal(spec_ser_result_b1);
        reveal(spec_ser_result_b2);
        assert(out@ =~= old(out)@ + spec_ser_result(r@));
    }
}

/// Parses the first half of a serialized result.
#[verifier::rlimit(100)]
#[verifier::spinoff_prover]
fn parse_result_a(b: &Vec<u8>, pos: usize) -> (r: Option<((Vec<Hop>, u64, u64, i128), usize)>)
    ensures
        match r {
            Some(((hops, ain, aout, profit), p)) => spec_parse_result_a(b@, pos as int) == Some(
                ((hops_view(hops@), ain as int, aout as int, profit as int), p as int),
            ),
            None => spec_parse_result_a(b@, pos as int) is None,
        },
{
    match eat_res_open(b, pos) {
        None => None,
        Some(p1) => match parse_hops_list(b, p1) {
            None => None,
            Some((hops, p2)) => match eat_res_ain(b, p2) {
                None => None,
                Some(p3) => match parse_dec(b, p3, 0xFFFF_FFFF_FFFF_FFFFu128) {
                    None => None,
                    Some((ain, p4)) => match eat_res_aout(b, p4) {
                        None => None,
                        Some(p5) => match parse_dec(b, p5, 0xFFFF_FFFF_FFFF_FFFFu128) {
                            None => None,
                            Some((aout, p6)) => match eat_res_profit(b, p6) {
                                None => None,
                                Some(p7) => match parse_i128(b, p7) {
                                    None => None,
                                    Some((profit, p8)) => Some(
                                        ((hops, ain as u64, aout as u64, profit), p8),
                                    ),
                                },
                            },
                        },
                    },
                },
            },
        },
    }
}

/// Parses the second half of a serialized result.
#[verifier::rlimit(100)]
#[verifier::spinoff_prover]
fn parse_result_b(b: &Vec<u8>, pos: usize) -> (r: Option<((i128, Vec<u64>, u64, u64), usize)>)
    ensures
        match r {
            Some(((pbps, imps, timp, ord), p)) => spec_parse_result_b(b@, pos as int) == Some(
                ((pbps as int, impacts_view(imps@), timp as int, ord as int), p as int),
            ),
            None => spec_parse_result_b(b@, pos as int) is None,
        },
{
    match eat_res_pbps(b, pos) {
        None => None,
        Some(p9) => match parse_i128(b, p9) {
            None => None,
            Some((pbps, p10)) => match eat_res_impacts(b, p10) {
                None => None,
                Some(p11) => match parse_imps_list(b, p11) {
                    None => None,
                    Some((imps, p12)) => match eat_res_timp(b, p12) {
                        None => None,
                        Some(p13) => match parse_dec(b, p13, 0xFFFF_FFFF_FFFF_FFFFu128) {
                            None => None,
                            Some((timp, p14)) => match eat_res_order(b, p14) {
                                None => None,
                                Some(p15) => match parse_dec(b, p15, 0xFFFF_FFFF_FFFF_FFFFu128) {
                                    None => None,
                                    Some((ord, p16)) => match eat_close_obj(b, p16) {
                                        None => None,
                                        Some(p17) => Some(
                                            ((pbps, imps, timp as u64, ord as u64), p17),
                                        ),
                                    },
                                },
                            },
                        },
                    },
                },
            },
        },
    }
}

/// Parses one serialized priced result.
#[verifier::rlimit(100)]
#[verifier::spinoff_prover]
pub fn parse_result(b: &Vec<u8>, pos: usize) -> (r: Option<(SwapPathResult, usize)>)
    ensures
        match r {
            Some((res, p)) => spec_parse_result(b@, pos as int) == Some((res@, p as int)),
            None => spec_parse_result(b@, pos as int) is None,
        },
{
    match parse_result_a(b, pos) {
        None => None,
        Some(((hops, ain, aout, profit), p8)) => match parse_result_b(b, p8) {
            None => None,
            Some(((pbps, imps, timp, ord), p17)) => Some(
                (
                    SwapPathResult {
                        path: SwapPath { hops },
                        amount_in: ain,
                        amount_out: aout,
                        profit,
                        profit_bps: pbps,
                        hop_impacts: imps,
                        total_impact_bps: timp,
                        order: ord,
                    },
                    p17,
                ),
            ),
        },
    }
}

/// Appends the serialized items after the first.
fn write_results_tail(out: &mut Vec<u8>, v: &Vec<SwapPathResult>, i: usize)
    requires
        i <= v.len(),
    ensures
        final (out)@ == old(out)@ + spec_ser_results_tail(results_view(v@).skip(i as int)),
    decreases v.len() - i,
{
    proof {
        reveal(spec_ser_results_tail);
    }
    let ghost xs = results_view(v@).skip(i as int);
    if i >= v.len() {
        proof {
            assert(xs =~= Seq::empty());
            assert(out@ + spec_ser_results_tail(xs) =~= out@);
        }
    } else {
        write_comma(out);
        write_result(out, &v[i]);
        write_results_tail(out, v, i + 1);
        proof {
            assert(xs[0] == results_view(v@)[i as int]);
            assert(xs.skip(1) =~= results_view(v@).skip(i + 1));
            assert(out@ =~= old(out)@ + spec_ser_results_tail(xs));
        }
    }
}

/// Appends the serialized list body.
fn write_results(out: &mut Vec<u8>, v: &Vec<SwapPathResult>)
    ensures
        final (out)@ == old(out)@ + spec_ser_results(results_view(v@)),
{
    proof {
        reveal(spec_ser_results);
    }
    let ghost xs = results_view(v@);
    if v.len() == 0 {
        proof {
            assert(out@ + spec_ser_results(xs) =~= out@);
        }
    } else {
        write_result(out, &v[0]);
        write_results_tail(out, v, 1);
        proof {
            assert(xs[0] == results_view(v@)[0]);
            assert(xs.skip(1) =~= results_view(v@).skip(1));
            assert(out@ =~= old(out)@ + spec_ser_results(xs));
        }
    }
}

/// Parses the items after the first, mirroring the specification.
#[verifier::rlimit(100)]
#[verifier::spinoff_prover]
fn parse_results_more(b: &Vec<u8>, pos: usize) -> (r: Option<(Vec<SwapPathResult>, usize)>)
    ensures
        match r {
            Some((v, p)) => spec_parse_results_more(b@, pos as int) == Some((results_view(v@), p as int)),
            None => spec_parse_results_more(b@, pos as int) is None,
        },
    decreases b@.len() - pos,
{
    proof {
        reveal(spec_parse_results_more);
    }
    if pos >= b.len() {
        return None;
    }
    let c = b[pos];
    if c == 93 {
        let v: Vec<SwapPathResult> = Vec::new();
        proof {
            assert(results_view(v@) =~= Seq::empty());
        }
        return Some((v, pos));
    }
    if c != 44 {
        return None;
    }
    match parse_result(b, pos + 1) {
        None => None,
        Some((x, p)) => {
            if p <= pos + 1 || p > b.len() {
                return None;
            }
            match parse_results_more(b, p) {
                None => None,
                Some((rest, q)) => {
                    let ghost restv = results_view(rest@);
                    let mut rest2 = rest;
                    rest2.insert(0, x);
                    proof {
                        assert(results_view(rest2@) =~= seq![results_view(rest2@)[0]] + restv);
                    }
                    Some((rest2, q))
                },
            }
        },
    }
}

/// Parses a serialized list body, mirroring the specification.
#[verifier::rlimit(100)]
#[verifier::spinoff_prover]
fn parse_results_list(b: &Vec<u8>, pos: usize) -> (r: Option<(Vec<SwapPathResult>, usize)>)
    ensures
        match r {
            Some((v, p)) => spec_parse_results(b@, pos as int) == Some((results_view(v@), p as int)),
            None => spec_parse_results(b@, pos as int) is None,
        },
{
    proof {
        reveal(spec_parse_results);
        reveal(spec_parse_results_more);
    }
    if pos >= b.len() {
        return None;
    }
    let c = b[pos];
    if c == 93 {
        let v: Vec<SwapPathResult> = Vec::new();
        proof {
            assert(results_view(v@) =~= Seq::empty());
        }
        return Some((v, pos));
    }
    match parse_result(b, pos) {
        None => None,
        Some((x, p)) => {
            if p <= pos || p > b.len() {
                return None;
            }
            match parse_results_more(b, p) {
                None => None,
                Some((rest, q)) => {
                    let ghost restv = results_view(rest@);
                    let mut rest2 = rest;
                    rest2.insert(0, x);
                    proof {
                        assert(results_view(rest2@) =~= seq![results_view(rest2@)[0]] + restv);
                    }
                    Some((rest2, q))
                },
            }
        },
    }
}

/// Appends the serialized form of one selection.
#[verifier::rlimit(100)]
#[verifier::spinoff_prover]
pub fn write_selected(out: &mut Vec<u8>, s: &SwapPathSelected)
    ensures
        final (out)@ == old(out)@ + spec_ser_selected(s@),
{
    write_sel_open(out);
    let ghost before = out@;
    let n = s.name.len();
    let mut i: usize = 0;
    while i < n
        invariant
            n == s.name.len(),
            0 <= i <= n,
            out@ == before + s.name@.take(i as int),
        decreases n - i,
    {
        out.push(s.name[i]);
        proof {
            assert(s.name@.take(i + 1) =~= s.name@.take(i as int).push(s.name@[i as int]));
            assert(out@ =~= before + s.name@.take(i + 1));
        }
        i += 1;
    }
    proof {
        assert(s.name@.take(n as int) =~= s.name@);
    }
    write_sel_ts(out);
    push_dec(out, s.timestamp as u128);
    write_sel_paths(out);
    write_results(out, &s.paths);
    write_close_list_obj(out);
    proof {
        reveal(spec_ser_selected);
        assert(out@ =~= old(out)@ + spec_ser_selected(s@));
    }
}

/// Parses one serialized selection.
#[verifier::rlimit(100)]
#[verifier::spinoff_prover]
pub fn parse_selected(b: &Vec<u8>, pos: usize) -> (r: Option<(SwapPathSelected, usize)>)
    ensures
        match r {
            Some((s, p)) => spec_parse_selected(b@, pos as int) == Some((s@, p as int)),
            None => spec_parse_selected(b@, pos as int) is None,
        },
{
    proof {
        reveal(spec_parse_selected);
    }
    match eat_sel_open(b, pos) {
        None => None,
        Some(p1) => match parse_name(b, p1) {
            None => None,
            Some((name, p2)) => match eat_sel_ts(b, p2) {
                None => None,
                Some(p3) => match parse_dec(b, p3, 0xFFFF_FFFF_FFFF_FFFFu128) {
                    None => None,
                    Some((ts, p4)) => match eat_sel_paths(b, p4) {
                        None => None,
                        Some(p5) => match parse_results_list(b, p5) {
                            None => None,
                            Some((paths, p6)) => match eat_close_list_obj(b, p6) {
                                None => None,
                                Some(p7) => Some(
                                    (
                                        SwapPathSelected {
                                            name,
                                            timestamp: ts as u64,
                                            paths,
                                        },
                                        p7,
                                    ),
                                ),
                            },
                        },
                    },
                },
            },
        },
    }
}

/// Appends the serialized items after the first.
fn write_sels_tail(out: &mut Vec<u8>, v: &Vec<SwapPathSelected>, i: usize)
    requires
        i <= v.len(),
    ensures
        final (out)@ == old(out)@ + spec_ser_sels_tail(selecteds_view(v@).skip(i as int)),
    decreases v.len() - i,
{
    proof {
        reveal(spec_ser_sels_tail);
    }
    let ghost xs = selecteds_view(v@).skip(i as int);
    if i >= v.len() {
        proof {
            assert(xs =~= Seq::empty());
            assert(out@ + spec_ser_sels_tail(xs) =~= out@);
        }
    } else {
        write_comma(out);
        write_selected(out, &v[i]);
        write_sels_tail(out, v, i + 1);
        proof {
            assert(xs[0] == selecteds_view(v@)[i as int]);
            assert(xs.skip(1) =~= selecteds_view(v@).skip(i + 1));
            assert(out@ =~= old(out)@ + spec_ser_sels_tail(xs));
        }
    }
}

/// Appends the serialized list body.
fn write_sels(out: &mut Vec<u8>, v: &Vec<SwapPathSelected>)
    ensures
        final (out)@ == old(out)@ + spec_ser_sels(selecteds_view(v@)),
{
    proof {
        reveal(spec_ser_sels);
    }
    let ghost xs = selecteds_view(v@);
    if v.len() == 0 {
        proof {
            assert(out@ + spec_ser_sels(xs) =~= out@);
        }
    } else {
        write_selected(out, &v[0]);
        write_sels_tail(out, v, 1);
        proof {
            assert(xs[0] == selecteds_view(v@)[0]);
            assert(xs.skip(1) =~= selecteds_view(v@).skip(1));
            assert(out@ =~= old(out)@ + spec_ser_sels(xs));
        }
    }
}

/// Parses the items after the first, mirroring the specification.
#[verifier::rlimit(100)]
#[verifier::spinoff_prover]
fn parse_sels_more(b: &Vec<u8>, pos: usize) -> (r: Option<(Vec<SwapPathSelected>, usize)>)
    ensures
        match r {
            Some((v, p)) => spec_parse_sels_more(b@, pos as int) == Some((selecteds_view(v@), p as int)),
            None => spec_parse_sels_more(b@, pos as int) is None,
        },
    decreases b@.len() - pos,
{
    proof {
        reveal(spec_parse_sels_more);
    }
    if pos >= b.len() {
        return None;
    }
    let c = b[pos];
    if c == 93 {
        let v: Vec<SwapPathSelected> = Vec::new();
        proof {
            assert(selecteds_view(v@) =~= Seq::empty());
        }
        return Some((v, pos));
    }
    if c != 44 {
        return None;
    }
    match parse_selected(b, pos + 1) {
        None => None,
        Some((x, p)) => {
            if p <= pos + 1 || p > b.len() {
                return None;
            }
            match parse_sels_more(b, p) {
                None => None,
                Some((rest, q)) => {
                    let ghost restv = selecteds_view(rest@);
                    let mut rest2 = rest;
                    rest2.insert(0, x);
                    proof {
                        assert(selecteds_view(rest2@) =~= seq![selecteds_view(rest2@)[0]] + restv);
                    }
                    Some((rest2, q))
                },
            }
        },
    }
}

/// Parses a serialized list body, mirroring the specification.
#[verifier::rlimit(100)]
#[verifier::spinoff_prover]
fn parse_sels_list(b: &Vec<u8>, pos: usize) -> (r: Option<(Vec<SwapPathSelected>, usize)>)
    ensures
        match r {
            Some((v, p)) => spec_parse_sels(b@, pos as int) == Some((selecteds_view(v@), p as int)),
            None => spec_parse_sels(b@, pos as int) is None,
        },
{
    proof {
        reveal(spec_parse_sels);
        reveal(spec_parse_sels_more);
    }
    if pos >= b.len() {
        return None;
    }
    let c = b[pos];
    if c == 93 {
        let v: Vec<SwapPathSelected> = Vec::new();
        proof {
            assert(selecteds_view(v@) =~= Seq::empty());
        }
        return Some((v, pos));
    }
    match parse_selected(b, pos) {
        None => None,
        Some((x, p)) => {
            if p <= pos || p > b.len() {
                return None;
            }
            match parse_sels_more(b, p) {
                None => None,
                Some((rest, q)) => {
                    let ghost restv = selecteds_view(rest@);
                    let mut rest2 = rest;
                    rest2.insert(0, x);
                    proof {
                        assert(selecteds_view(rest2@) =~= seq![selecteds_view(rest2@)[0]] + restv);
                    }
                    Some((rest2, q))
                },
            }
        },
    }
}

/// Serializes a selection collection to its canonical wire form.
pub fn serialize_selection(v: &VecSwapPathSelected) -> (r: Vec<u8>)
    ensures
        r@ == spec_ser_vec(v@),
{
    let mut out: Vec<u8> = Vec::new();
    write_open_value(&mut out);
    write_sels(&mut out, &v.value);
    write_close_list_obj(&mut out);
    proof {
        reveal(spec_ser_vec);
        assert(out@ =~= spec_ser_vec(v@));
    }
    out
}

/// Parses a whole serialized selection collection; the entire input must
/// be one canonical serialization.
#[verifier::rlimit(100)]
#[verifier::spinoff_prover]
pub fn parse_selection(b: &Vec<u8>) -> (r: Option<VecSwapPathSelected>)
    ensures
        match r {
            Some(v) => spec_parse_vec(b@, 0) == Some((v@, b@.len() as int)),
            None => spec_parse_vec(b@, 0) is None || spec_parse_vec(b@, 0).unwrap().1
                != b@.len() as int,
        },
{
    match eat_open_value(b, 0) {
        None => None,
        Some(p1) => match parse_sels_list(b, p1) {
            None => None,
            Some((value, p2)) => match eat_close_list_obj(b, p2) {
                None => None,
                Some(p3) => {
                    if p3 == b.len() {
                        Some(VecSwapPathSelected { value })
                    } else {
                        None
                    }
                },
            },
        },
    }
}

} // verus!
