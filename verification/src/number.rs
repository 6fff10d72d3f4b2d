//! Number literals: decimal integers and fractions with exponents, and
//! hexadecimal, octal and binary integers, with `_` digit separators.

use vstd::prelude::*;
use crate::document::SpecValue;
use crate::error::KdlError;
use crate::validation::{is_digit, spec_is_digit, spec_is_sign};

verus! {

pub open spec fn spec_is_radix_digit(c: char, radix: int) -> bool {
    if radix == 16 {
        ('0' <= c && c <= '9') || ('a' <= c && c <= 'f') || ('A' <= c && c <= 'F')
    } else if radix == 8 {
        '0' <= c && c <= '7'
    } else if radix == 2 {
        c == '0' || c == '1'
    } else {
        '0' <= c && c <= '9'
    }
}

pub open spec fn spec_digit_value(c: char) -> int {
    if '0' <= c && c <= '9' {
        (c as int) - ('0' as int)
    } else if 'a' <= c && c <= 'f' {
        (c as int) - ('a' as int) + 10
    } else {
        (c as int) - ('A' as int) + 10
    }
}

/// A group of digits: it starts and ends with a digit of the radix, and each
/// `_` stands between two digits.
pub open spec fn spec_valid_group(g: Seq<char>, radix: int) -> bool {
    &&& g.len() > 0
    &&& spec_is_radix_digit(g[0], radix)
    &&& forall|k: int|
        0 <= k < g.len() ==> (#[trigger] spec_is_radix_digit(g[k], radix) || (g[k] == '_' && k + 1
            < g.len() && spec_is_radix_digit(g[k + 1], radix)))
}

/// The number written by the digits of `g` (separators skipped).
pub open spec fn spec_group_value(g: Seq<char>, radix: int) -> int
    decreases g.len(),
{
    if g.len() == 0 {
        0
    } else if g.last() == '_' {
        spec_group_value(g.drop_last(), radix)
    } else {
        spec_group_value(g.drop_last(), radix) * radix + spec_digit_value(g.last())
    }
}

/// `t` without its `_` characters.
pub open spec fn spec_strip_underscores(t: Seq<char>) -> Seq<char>
    decreases t.len(),
{
    if t.len() == 0 {
        Seq::empty()
    } else if t.last() == '_' {
        spec_strip_underscores(t.drop_last())
    } else {
        spec_strip_underscores(t.drop_last()).push(t.last())
    }
}

/// The first index at or after `i` that holds neither a decimal digit nor `_`.
pub open spec fn spec_decimal_run_end(t: Seq<char>, i: int) -> int
    decreases t.len() - i,
{
    if i < t.len() && (spec_is_digit(t[i]) || t[i] == '_') {
        spec_decimal_run_end(t, i + 1)
    } else {
        i
    }
}

pub open spec fn spec_i64_min_magnitude() -> int {
    0x8000_0000_0000_0000
}

/// The integer with sign `neg` and magnitude `v`, where it fits in `i64`.
pub open spec fn spec_integer(neg: bool, v: int) -> Result<SpecValue, KdlError> {
    if neg && v <= spec_i64_min_magnitude() {
        Ok(SpecValue::Integer(-v))
    } else if !neg && v < spec_i64_min_magnitude() {
        Ok(SpecValue::Integer(v))
    } else {
        Err(KdlError::IntegerOutOfRange)
    }
}

/// The radix given by the prefix letter after `0`, if any.
pub open spec fn spec_radix_of(c: char) -> int {
    if c == 'x' {
        16
    } else if c == 'o' {
        8
    } else if c == 'b' {
        2
    } else {
        10
    }
}

/// The end of the decimal fraction that may start at `i` (`i` itself where
/// there is none), or `None` where a `.` is not followed by digits.
pub open spec fn spec_fraction_end(t: Seq<char>, i: int) -> Option<int> {
    if i < t.len() && t[i] == '.' {
        let e = spec_decimal_run_end(t, i + 1);
        if spec_valid_group(t.subrange(i + 1, e), 10) {
            Some(e)
        } else {
            None
        }
    } else {
        Some(i)
    }
}

/// The end of the exponent that may start at `i` (`i` itself where there is
/// none), or `None` where an `e` is not followed by digits.
pub open spec fn spec_exponent_end(t: Seq<char>, i: int) -> Option<int> {
    if i < t.len() && (t[i] == 'e' || t[i] == 'E') {
        let j = if i + 1 < t.len() && spec_is_sign(t[i + 1]) {
            i + 2
        } else {
            i + 1
        };
        let e = spec_decimal_run_end(t, j);
        if spec_valid_group(t.subrange(j, e), 10) {
            Some(e)
        } else {
            None
        }
    } else {
        Some(i)
    }
}

/// The value of the number literal `t` (a word that starts with a digit or
/// with a sign and a digit).
pub open spec fn spec_number(t: Seq<char>) -> Result<SpecValue, KdlError> {
    let neg = t.len() > 0 && t[0] == '-';
    let st: int = if t.len() > 0 && spec_is_sign(t[0]) {
        1
    } else {
        0
    };
    if st + 1 < t.len() && t[st] == '0' && spec_radix_of(t[st + 1]) != 10 {
        let radix = spec_radix_of(t[st + 1]);
        let g = t.subrange(st + 2, t.len() as int);
        if spec_valid_group(g, radix) {
            spec_integer(neg, spec_group_value(g, radix))
        } else {
            Err(KdlError::InvalidNumber)
        }
    } else {
        let i1 = spec_decimal_run_end(t, st);
        let g = t.subrange(st, i1);
        if !spec_valid_group(g, 10) {
            Err(KdlError::InvalidNumber)
        } else {
            match spec_fraction_end(t, i1) {
                None => Err(KdlError::InvalidNumber),
                Some(i2) => match spec_exponent_end(t, i2) {
                    None => Err(KdlError::InvalidNumber),
                    Some(i3) => if i3 != t.len() {
                        Err(KdlError::InvalidNumber)
                    } else if i3 == i1 {
                        spec_integer(neg, spec_group_value(g, 10))
                    } else {
                        Ok(SpecValue::Float(spec_strip_underscores(t)))
                    },
                },
            }
        }
    }
}

fn is_radix_digit(c: char, radix: u64) -> (r: bool)
    ensures
        r == spec_is_radix_digit(c, radix as int),
{
    if radix == 16 {
        ('0' <= c && c <= '9') || ('a' <= c && c <= 'f') || ('A' <= c && c <= 'F')
    } else if radix == 8 {
        '0' <= c && c <= '7'
    } else if radix == 2 {
        c == '0' || c == '1'
    } else {
        '0' <= c && c <= '9'
    }
}

fn digit_value(c: char, radix: u64) -> (r: u64)
    requires
        spec_is_radix_digit(c, radix as int),
    ensures
        r as int == spec_digit_value(c),
        r < 16,
{
    if '0' <= c && c <= '9' {
        (c as u64) - ('0' as u64)
    } else if 'a' <= c && c <= 'f' {
        (c as u64) - ('a' as u64) + 10
    } else {
        (c as u64) - ('A' as u64) + 10
    }
}

/// Whether `t[i..end]` is a valid group of digits.
fn valid_group(t: &Vec<char>, i: usize, end: usize, radix: u64) -> (r: bool)
    requires
        i <= end <= t@.len(),
    ensures
        r == spec_valid_group(t@.subrange(i as int, end as int), radix as int),
{
    let ghost g = t@.subrange(i as int, end as int);
    if i >= end || !is_radix_digit(t[i], radix) {
        return false;
    }
    let mut k = i;
    while k < end
        invariant
            i <= k <= end <= t@.len(),
            g == t@.subrange(i as int, end as int),
            forall|j: int|
                0 <= j < k - i ==> (#[trigger] spec_is_radix_digit(g[j], radix as int) || (g[j]
                    == '_' && j + 1 < g.len() && spec_is_radix_digit(g[j + 1], radix as int))),
        decreases end - k,
    {
        let c = t[k];
        assert(g[k - i] == c);
        if !is_radix_digit(c, radix) {
            if c != '_' || end - k < 2 || !is_radix_digit(t[k + 1], radix) {
                assert(!(spec_is_radix_digit(g[k - i], radix as int) || (g[k - i] == '_' && k - i
                    + 1 < g.len() && spec_is_radix_digit(g[k - i + 1], radix as int))));
                return false;
            }
            assert(g[k - i + 1] == t@[k + 1]);
        }
        k = k + 1;
    }
    true
}

proof fn lemma_group_value_nonneg(g: Seq<char>, radix: int)
    requires
        radix >= 2,
        forall|k: int| 0 <= k < g.len() ==> #[trigger] spec_is_radix_digit(g[k], radix) || g[k]
            == '_',
    ensures
        spec_group_value(g, radix) >= 0,
    decreases g.len(),
{
    if g.len() > 0 {
        assert forall|k: int| 0 <= k < g.drop_last().len() implies #[trigger] spec_is_radix_digit(
            g.drop_last()[k],
            radix,
        ) || g.drop_last()[k] == '_' by {
            assert(g.drop_last()[k] == g[k]);
        }
        lemma_group_value_nonneg(g.drop_last(), radix);
        assert(spec_is_radix_digit(g[g.len() - 1], radix) || g[g.len() - 1] == '_');
        let v = spec_group_value(g.drop_last(), radix);
        assert(v * radix >= 0) by (nonlinear_arith)
            requires
                v >= 0,
                radix >= 2,
        ;
    }
}

/// The value of the digits `t[i..end]`, or `None` where it exceeds 2^63.
fn group_value(t: &Vec<char>, i: usize, end: usize, radix: u64) -> (r: Option<u64>)
    requires
        i <= end <= t@.len(),
        radix == 2 || radix == 8 || radix == 10 || radix == 16,
        spec_valid_group(t@.subrange(i as int, end as int), radix as int),
    ensures
        match r {
            Some(v) => v as int == spec_group_value(t@.subrange(i as int, end as int), radix as int)
                && v as int <= spec_i64_min_magnitude(),
            None => spec_group_value(t@.subrange(i as int, end as int), radix as int)
                > spec_i64_min_magnitude(),
        },
{
    let ghost g = t@.subrange(i as int, end as int);
    let bound: u64 = 0x8000_0000_0000_0000;
    let mut acc: u64 = 0;
    let mut k = i;
    proof {
        assert(t@.subrange(i as int, i as int) =~= Seq::<char>::empty());
    }
    while k < end
        invariant
            i <= k <= end <= t@.len(),
            radix == 2 || radix == 8 || radix == 10 || radix == 16,
            bound as int == spec_i64_min_magnitude(),
            g == t@.subrange(i as int, end as int),
            spec_valid_group(g, radix as int),
            acc as int == spec_group_value(t@.subrange(i as int, k as int), radix as int),
            acc <= bound,
        decreases end - k,
    {
        let ghost pre = t@.subrange(i as int, k as int + 1);
        proof {
            assert(pre.drop_last() =~= t@.subrange(i as int, k as int));
            assert(g[k - i] == t@[k as int]);
        }
        let c = t[k];
        if c != '_' {
            let d = digit_value(c, radix);
            let q = (bound - d) / radix;
            if acc > q {
                proof {
                    assert(acc * radix + d > bound) by (nonlinear_arith)
                        requires
                            acc > q,
                            q as int == (bound as int - d as int) / (radix as int),
                            radix >= 2,
                            d < 16,
                            bound > 16,
                    ;
                    lemma_group_prefix_grows(g, (k - i + 1) as nat, radix as int);
                    assert(g.subrange(0, k - i + 1) =~= pre);
                }
                return None;
            }
            proof {
                assert(acc * radix + d <= bound) by (nonlinear_arith)
                    requires
                        acc <= q,
                        q as int == (bound as int - d as int) / (radix as int),
                        radix >= 2,
                        d < 16,
                        bound > 16,
                ;
            }
            acc = acc * radix + d;
        }
        k = k + 1;
    }
    proof {
        assert(t@.subrange(i as int, end as int) =~= g);
    }
    Some(acc)
}

/// The value of a valid group is at least the value of any of its prefixes.
proof fn lemma_group_prefix_grows(g: Seq<char>, n: nat, radix: int)
    requires
        radix >= 2,
        n <= g.len(),
        spec_valid_group(g, radix),
    ensures
        spec_group_value(g, radix) >= spec_group_value(g.subrange(0, n as int), radix),
    decreases g.len(),
{
    if n < g.len() {
        let d = g.drop_last();
        assert forall|k: int| 0 <= k < d.len() implies #[trigger] spec_is_radix_digit(d[k], radix)
            || d[k] == '_' by {
            assert(d[k] == g[k]);
        }
        assert(d.subrange(0, n as int) =~= g.subrange(0, n as int));
        if n > 0 {
            lemma_group_prefix_grows_loose(d, n, radix);
        } else {
            lemma_group_value_nonneg(d, radix);
            assert(g.subrange(0, 0) =~= Seq::<char>::empty());
        }
        let v = spec_group_value(d, radix);
        lemma_group_value_nonneg(d, radix);
        assert(spec_is_radix_digit(g[g.len() - 1], radix) || g[g.len() - 1] == '_');
        assert(v * radix >= v) by (nonlinear_arith)
            requires
                v >= 0,
                radix >= 2,
        ;
    } else {
        assert(g.subrange(0, n as int) =~= g);
    }
}

/// Prefix growth for sequences of digits and separators (not necessarily a
/// valid group).
proof fn lemma_group_prefix_grows_loose(g: Seq<char>, n: nat, radix: int)
    requires
        radix >= 2,
        n <= g.len(),
        forall|k: int| 0 <= k < g.len() ==> #[trigger] spec_is_radix_digit(g[k], radix) || g[k]
            == '_',
    ensures
        spec_group_value(g, radix) >= spec_group_value(g.subrange(0, n as int), radix),
    decreases g.len(),
{
    if n < g.len() {
        let d = g.drop_last();
        assert forall|k: int| 0 <= k < d.len() implies #[trigger] spec_is_radix_digit(d[k], radix)
            || d[k] == '_' by {
            assert(d[k] == g[k]);
        }
        assert(d.subrange(0, n as int) =~= g.subrange(0, n as int));
        lemma_group_prefix_grows_loose(d, n, radix);
        let v = spec_group_value(d, radix);
        lemma_group_value_nonneg(d, radix);
        assert(spec_is_radix_digit(g[g.len() - 1], radix) || g[g.len() - 1] == '_');
        assert(v * radix >= v) by (nonlinear_arith)
            requires
                v >= 0,
                radix >= 2,
        ;
    } else {
        assert(g.subrange(0, n as int) =~= g);
    }
}

fn decimal_run_end(t: &Vec<char>, i: usize) -> (r: usize)
    requires
        i <= t@.len(),
    ensures
        r as int == spec_decimal_run_end(t@, i as int),
        i <= r <= t@.len(),
{
    let mut k = i;
    while k < t.len() && (is_digit(t[k]) || t[k] == '_')
        invariant
            i <= k <= t@.len(),
            spec_decimal_run_end(t@, i as int) == spec_decimal_run_end(t@, k as int),
        decreases t@.len() - k,
    {
        k = k + 1;
    }
    k
}

fn strip_underscores(t: &Vec<char>) -> (r: String)
    ensures
        r@ == spec_strip_underscores(t@),
{
    let mut acc: Vec<char> = Vec::new();
    let mut k: usize = 0;
    proof {
        assert(t@.subrange(0, 0) =~= Seq::<char>::empty());
    }
    while k < t.len()
        invariant
            k <= t@.len(),
            acc@ == spec_strip_underscores(t@.subrange(0, k as int)),
        decreases t@.len() - k,
    {
        proof {
            assert(t@.subrange(0, k as int + 1).drop_last() =~= t@.subrange(0, k as int));
        }
        if t[k] != '_' {
            acc.push(t[k]);
        }
        k = k + 1;
    }
    proof {
        assert(t@.subrange(0, t@.len() as int) =~= t@);
    }
    crate::text::chars_to_string(&acc, 0, acc.len())
}

fn integer(neg: bool, v: Option<u64>) -> (r: Result<crate::document::KdlValue, KdlError>)
    requires
        v matches Some(x) ==> x as int <= spec_i64_min_magnitude(),
    ensures
        forall|m: int|
            (match v {
                Some(x) => m == x as int,
                None => m > spec_i64_min_magnitude(),
            }) ==> match (r, #[trigger] spec_integer(neg, m)) {
                (Ok(a), Ok(b)) => a@ == b,
                (Err(a), Err(b)) => a == b,
                _ => false,
            },
{
    match v {
        None => Err(KdlError::IntegerOutOfRange),
        Some(x) => {
            if neg {
                if x == 0x8000_0000_0000_0000 {
                    Ok(crate::document::KdlValue::Integer(i64::MIN))
                } else {
                    Ok(crate::document::KdlValue::Integer(-(x as i64)))
                }
            } else if x < 0x8000_0000_0000_0000 {
                Ok(crate::document::KdlValue::Integer(x as i64))
            } else {
                Err(KdlError::IntegerOutOfRange)
            }
        },
    }
}

/// The value of the number literal `t`; see `spec_number`.
pub fn number(t: &Vec<char>) -> (r: Result<crate::document::KdlValue, KdlError>)
    ensures
        match (r, spec_number(t@)) {
            (Ok(a), Ok(b)) => a@ == b,
            (Err(a), Err(b)) => a == b,
            _ => false,
        },
{
    let n = t.len();
    let neg = n > 0 && t[0] == '-';
    let st: usize = if n > 0 && (t[0] == '+' || t[0] == '-') {
        1
    } else {
        0
    };
    if st + 1 < n && t[st] == '0' && (t[st + 1] == 'x' || t[st + 1] == 'o' || t[st + 1] == 'b') {
        let radix: u64 = if t[st + 1] == 'x' {
            16
        } else if t[st + 1] == 'o' {
            8
        } else {
            2
        };
        if valid_group(t, st + 2, n, radix) {
            let v = group_value(t, st + 2, n, radix);
            return integer(neg, v);
        } else {
            return Err(KdlError::InvalidNumber);
        }
    }
    let i1 = decimal_run_end(t, st);
    if !valid_group(t, st, i1, 10) {
        return Err(KdlError::InvalidNumber);
    }
    let mut i2 = i1;
    if i1 < n && t[i1] == '.' {
        let e = decimal_run_end(t, i1 + 1);
        if !valid_group(t, i1 + 1, e, 10) {
            return Err(KdlError::InvalidNumber);
        }
        i2 = e;
    }
    let mut i3 = i2;
    if i2 < n && (t[i2] == 'e' || t[i2] == 'E') {
        let j = if i2 + 1 < n && (t[i2 + 1] == '+' || t[i2 + 1] == '-') {
            i2 + 2
        } else {
            i2 + 1
        };
        let e = decimal_run_end(t, j);
        if !valid_group(t, j, e, 10) {
            return Err(KdlError::InvalidNumber);
        }
        i3 = e;
    }
    if i3 != n {
        return Err(KdlError::InvalidNumber);
    }
    if i3 == i1 {
        let v = group_value(t, st, i1, 10);
        return integer(neg, v);
    }
    Ok(crate::document::KdlValue::Float(strip_underscores(t)))
}

/// Digit separators do not change the value of a run of digits: the digits
/// of `g` are worth as much with their `_`s as without them.
pub proof fn lemma_separators_do_not_change_value(g: Seq<char>, radix: int)
    ensures
        spec_group_value(g, radix) == spec_group_value(spec_strip_underscores(g), radix),
    decreases g.len(),
{
    if g.len() > 0 {
        lemma_separators_do_not_change_value(g.drop_last(), radix);
        if g.last() != '_' {
            let s = spec_strip_underscores(g.drop_last()).push(g.last());
            assert(s.drop_last() =~= spec_strip_underscores(g.drop_last()));
            assert(s.last() == g.last());
        }
    }
}

/// Whether every character of `d` is a decimal digit.
pub open spec fn spec_all_decimal(d: Seq<char>) -> bool {
    forall|k: int| 0 <= k < d.len() ==> '0' <= #[trigger] d[k] && d[k] <= '9'
}

/// The number that the decimal digits `d` write in base ten.
pub open spec fn spec_decimal_value(d: Seq<char>) -> int
    decreases d.len(),
{
    if d.len() == 0 {
        0
    } else {
        spec_decimal_value(d.drop_last()) * 10 + ((d.last() as int) - ('0' as int))
    }
}

proof fn lemma_decimal_group(d: Seq<char>)
    requires
        spec_all_decimal(d),
    ensures
        spec_group_value(d, 10) == spec_decimal_value(d),
    decreases d.len(),
{
    if d.len() > 0 {
        assert(spec_all_decimal(d.drop_last())) by {
            assert forall|k: int| 0 <= k < d.drop_last().len() implies '0' <= #[trigger] d.drop_last()[k]
                && d.drop_last()[k] <= '9' by {
                assert(d.drop_last()[k] == d[k]);
            }
        }
        lemma_decimal_group(d.drop_last());
        assert('0' <= d[d.len() - 1] <= '9');
    }
}

proof fn lemma_decimal_run(t: Seq<char>, i: int)
    requires
        0 <= i <= t.len(),
        forall|k: int| i <= k < t.len() ==> '0' <= #[trigger] t[k] && t[k] <= '9',
    ensures
        spec_decimal_run_end(t, i) == t.len(),
    decreases t.len() - i,
{
    if i < t.len() {
        assert('0' <= t[i] <= '9');
        lemma_decimal_run(t, i + 1);
    }
}

/// A decimal integer literal (digits only, no prefix, fraction or exponent)
/// has the base-ten value of its digits, a leading zero included, as long as
/// it fits in `i64`; with a `-` in front, it is that value negated.
pub proof fn lemma_decimal_integer_value(d: Seq<char>)
    requires
        d.len() > 0,
        spec_all_decimal(d),
    ensures
        spec_number(d) == spec_integer(false, spec_decimal_value(d)),
        spec_decimal_value(d) < spec_i64_min_magnitude() ==> spec_number(d) == Ok::<
            SpecValue,
            KdlError,
        >(SpecValue::Integer(spec_decimal_value(d))),
        spec_number(seq!['-'] + d) == spec_integer(true, spec_decimal_value(d)),
        spec_decimal_value(d) <= spec_i64_min_magnitude() ==> spec_number(seq!['-'] + d) == Ok::<
            SpecValue,
            KdlError,
        >(SpecValue::Integer(-spec_decimal_value(d))),
{
    lemma_decimal_group(d);
    lemma_decimal_run(d, 0);
    assert(d.subrange(0, d.len() as int) =~= d);
    assert('0' <= d[0] <= '9');
    if d.len() > 1 {
        assert('0' <= d[1] <= '9');
    }
    let m = seq!['-'] + d;
    assert forall|k: int| 1 <= k < m.len() implies '0' <= #[trigger] m[k] && m[k] <= '9' by {
        assert(m[k] == d[k - 1]);
    }
    lemma_decimal_run(m, 1);
    assert(m.subrange(1, m.len() as int) =~= d);
    assert(m[0] == '-');
    assert(m[1] == d[0]);
    if d.len() > 1 {
        assert(m[2] == d[1]);
    }
}

proof fn lemma_leading_zero_value(d: Seq<char>)
    requires
        spec_all_decimal(d),
    ensures
        spec_decimal_value(seq!['0'] + d) == spec_decimal_value(d),
    decreases d.len(),
{
    let z = seq!['0'] + d;
    if d.len() == 0 {
        assert(z.drop_last() =~= Seq::<char>::empty());
        assert(z.last() == '0');
        assert(spec_decimal_value(z) == spec_decimal_value(z.drop_last()) * 10 + ((z.last() as int)
            - ('0' as int)));
    } else {
        assert(spec_all_decimal(d.drop_last())) by {
            assert forall|k: int| 0 <= k < d.drop_last().len() implies '0' <= #[trigger] d.drop_last()[k]
                && d.drop_last()[k] <= '9' by {
                assert(d.drop_last()[k] == d[k]);
            }
        }
        lemma_leading_zero_value(d.drop_last());
        assert(z.drop_last() =~= seq!['0'] + d.drop_last());
        assert(z.last() == d.last());
        assert(spec_decimal_value(z) == spec_decimal_value(z.drop_last()) * 10 + ((z.last() as int)
            - ('0' as int)));
    }
}

/// Leading zeros do not change a decimal integer: `0` followed by the
/// digits `d` reads as `d` alone (octal needs the `0o` prefix).
pub proof fn lemma_leading_zero_keeps_decimal_value(d: Seq<char>)
    requires
        d.len() > 0,
        spec_all_decimal(d),
    ensures
        spec_number(seq!['0'] + d) == spec_number(d),
{
    let z = seq!['0'] + d;
    assert(spec_all_decimal(z)) by {
        assert forall|k: int| 0 <= k < z.len() implies '0' <= #[trigger] z[k] && z[k] <= '9' by {
            if k > 0 {
                assert(z[k] == d[k - 1]);
            }
        }
    }
    lemma_decimal_integer_value(z);
    lemma_decimal_integer_value(d);
    lemma_leading_zero_value(d);
}

/// The digit worth `n` (`0 <= n < 16`), in upper or lower case.
pub open spec fn spec_digit_char(n: int, upper: bool) -> char {
    if upper {
        seq!['0', '1', '2', '3', '4', '5', '6', '7', '8', '9', 'A', 'B', 'C', 'D', 'E', 'F'][n]
    } else {
        seq!['0', '1', '2', '3', '4', '5', '6', '7', '8', '9', 'a', 'b', 'c', 'd', 'e', 'f'][n]
    }
}

/// The number `v` written in base `radix` (2 to 16), most significant digit
/// first, with no leading zero (`0` itself is written `0`).
pub open spec fn spec_radix_digits(v: nat, radix: nat, upper: bool) -> Seq<char>
    decreases v,
{
    if radix < 2 || v < radix {
        seq![spec_digit_char(v as int, upper)]
    } else {
        proof {
            assert(v / radix < v) by (nonlinear_arith)
                requires
                    radix >= 2,
                    v >= radix,
            ;
        }
        spec_radix_digits(v / radix, radix, upper).push(spec_digit_char((v % radix) as int, upper))
    }
}

/// The prefix that marks a number written in base `radix`: `0x`, `0o`, `0b`,
/// and none for base ten.
pub open spec fn spec_radix_prefix(radix: nat) -> Seq<char> {
    if radix == 16 {
        seq!['0', 'x']
    } else if radix == 8 {
        seq!['0', 'o']
    } else if radix == 2 {
        seq!['0', 'b']
    } else {
        Seq::empty()
    }
}

pub proof fn lemma_digit_char(n: int, upper: bool)
    requires
        0 <= n < 16,
    ensures
        spec_digit_value(spec_digit_char(n, upper)) == n,
        ('0' <= spec_digit_char(n, upper) && spec_digit_char(n, upper) <= '9') <==> n < 10,
        ('0' <= spec_digit_char(n, upper) && spec_digit_char(n, upper) <= '7') <==> n < 8,
        (spec_digit_char(n, upper) == '0' || spec_digit_char(n, upper) == '1') <==> n < 2,
        spec_is_radix_digit(spec_digit_char(n, upper), 16),
        spec_digit_char(n, upper) != '_',
{
    let lo = seq!['0', '1', '2', '3', '4', '5', '6', '7', '8', '9', 'a', 'b', 'c', 'd', 'e', 'f'];
    let up = seq!['0', '1', '2', '3', '4', '5', '6', '7', '8', '9', 'A', 'B', 'C', 'D', 'E', 'F'];
    assert(lo[0] == '0' && lo[1] == '1' && lo[2] == '2' && lo[3] == '3' && lo[4] == '4');
    assert(lo[5] == '5' && lo[6] == '6' && lo[7] == '7' && lo[8] == '8' && lo[9] == '9');
    assert(lo[10] == 'a' && lo[11] == 'b' && lo[12] == 'c' && lo[13] == 'd' && lo[14] == 'e');
    assert(lo[15] == 'f');
    assert(up[0] == '0' && up[1] == '1' && up[2] == '2' && up[3] == '3' && up[4] == '4');
    assert(up[5] == '5' && up[6] == '6' && up[7] == '7' && up[8] == '8' && up[9] == '9');
    assert(up[10] == 'A' && up[11] == 'B' && up[12] == 'C' && up[13] == 'D' && up[14] == 'E');
    assert(up[15] == 'F');
}

proof fn lemma_radix_digit_at(v: nat, radix: nat, upper: bool, j: int)
    requires
        radix == 2 || radix == 8 || radix == 10 || radix == 16,
        0 <= j < spec_radix_digits(v, radix, upper).len(),
    ensures
        spec_is_radix_digit(spec_radix_digits(v, radix, upper)[j], radix as int),
    decreases v,
{
    let d = spec_radix_digits(v, radix, upper);
    if v < radix {
        lemma_digit_char(v as int, upper);
    } else {
        let f = spec_radix_digits(v / radix, radix, upper);
        let c = spec_digit_char((v % radix) as int, upper);
        assert(d == f.push(c));
        if j < f.len() {
            lemma_radix_digit_at(v / radix, radix, upper, j);
            assert(d[j] == f[j]);
        } else {
            lemma_digit_char((v % radix) as int, upper);
            assert(d[j] == c);
        }
    }
}

proof fn lemma_radix_digits_value(v: nat, radix: nat, upper: bool)
    requires
        radix == 2 || radix == 8 || radix == 10 || radix == 16,
    ensures
        spec_radix_digits(v, radix, upper).len() >= 1,
        spec_group_value(spec_radix_digits(v, radix, upper), radix as int) == v,
        spec_valid_group(spec_radix_digits(v, radix, upper), radix as int),
    decreases v,
{
    let d = spec_radix_digits(v, radix, upper);
    if v < radix {
        lemma_digit_char(v as int, upper);
        assert(d.drop_last() =~= Seq::<char>::empty());
        assert(d.last() == spec_digit_char(v as int, upper));
        assert(spec_group_value(d, radix as int) == spec_group_value(d.drop_last(), radix as int)
            * radix + spec_digit_value(d.last()));
    } else {
        let f = spec_radix_digits(v / radix, radix, upper);
        let c = spec_digit_char((v % radix) as int, upper);
        assert(d == f.push(c));
        assert(0 <= v % radix < radix);
        lemma_digit_char((v % radix) as int, upper);
        lemma_radix_digits_value(v / radix, radix, upper);
        assert(d.drop_last() =~= f);
        assert(d.last() == c);
        assert(c != '_');
        assert(spec_group_value(d, radix as int) == spec_group_value(f, radix as int) * radix + (v
            % radix));
        assert(v == (v / radix) * radix + v % radix) by (nonlinear_arith)
            requires
                radix >= 2,
        ;
    }
    assert forall|k: int| 0 <= k < d.len() implies #[trigger] spec_is_radix_digit(d[k], radix as int)
        || (d[k] == '_' && k + 1 < d.len() && spec_is_radix_digit(d[k + 1], radix as int)) by {
        lemma_radix_digit_at(v, radix, upper, k);
    }
    lemma_radix_digit_at(v, radix, upper, 0);
}

/// An integer reads back in every base it can be written in: `v` (fitting
/// in `i64`) written in base 2, 8, 10 or 16, with the prefix of its base and
/// digits of either case, is read as `v`; with a `-` in front, as `-v`.
pub proof fn lemma_integer_in_any_radix(v: nat, radix: nat, upper: bool)
    requires
        radix == 2 || radix == 8 || radix == 10 || radix == 16,
        v < spec_i64_min_magnitude(),
    ensures
        spec_number(spec_radix_prefix(radix) + spec_radix_digits(v, radix, upper)) == Ok::<
            SpecValue,
            KdlError,
        >(SpecValue::Integer(v as int)),
        spec_number(seq!['-'] + spec_radix_prefix(radix) + spec_radix_digits(v, radix, upper))
            == Ok::<SpecValue, KdlError>(SpecValue::Integer(-v)),
{
    let d = spec_radix_digits(v, radix, upper);
    lemma_radix_digits_value(v, radix, upper);
    if radix == 10 {
        assert(spec_all_decimal(d)) by {
            assert forall|k: int| 0 <= k < d.len() implies '0' <= #[trigger] d[k] && d[k] <= '9' by {
                lemma_radix_digit_at(v, radix, upper, k);
            }
        }
        assert(spec_radix_prefix(radix) + d =~= d);
        assert(seq!['-'] + spec_radix_prefix(radix) + d =~= seq!['-'] + d);
        lemma_decimal_integer_value(d);
        lemma_decimal_group(d);
    } else {
        let t = spec_radix_prefix(radix) + d;
        assert(t[0] == '0');
        assert(spec_radix_of(t[1]) == radix);
        assert(t.subrange(2, t.len() as int) =~= d);
        let m = seq!['-'] + spec_radix_prefix(radix) + d;
        assert(m[0] == '-' && m[1] == '0');
        assert(spec_radix_of(m[2]) == radix);
        assert(m.subrange(3, m.len() as int) =~= d);
    }
}

proof fn lemma_all_decimal_parts(d1: Seq<char>, d2: Seq<char>, mid: Seq<char>)
    requires
        spec_all_decimal(d1),
        spec_all_decimal(d2),
    ensures
        forall|k: int| 0 <= k < d1.len() ==> (d1 + mid + d2)[k] == #[trigger] d1[k],
        forall|k: int| 0 <= k < mid.len() ==> (d1 + mid + d2)[d1.len() + k] == #[trigger] mid[k],
        forall|k: int|
            0 <= k < d2.len() ==> (d1 + mid + d2)[d1.len() + mid.len() + k] == #[trigger] d2[k],
{
}

proof fn lemma_group_value_separator(d1: Seq<char>, d2: Seq<char>, radix: int)
    requires
        forall|k: int| 0 <= k < d2.len() ==> #[trigger] d2[k] != '_',
    ensures
        spec_group_value(d1 + seq!['_'] + d2, radix) == spec_group_value(d1 + d2, radix),
    decreases d2.len(),
{
    if d2.len() == 0 {
        assert(d1 + seq!['_'] + d2 =~= d1.push('_'));
        assert(d1.push('_').drop_last() =~= d1);
        assert(d1 + d2 =~= d1);
    } else {
        assert forall|k: int| 0 <= k < d2.drop_last().len() implies #[trigger] d2.drop_last()[k] != '_' by {
            assert(d2.drop_last()[k] == d2[k]);
        }
        lemma_group_value_separator(d1, d2.drop_last(), radix);
        assert((d1 + seq!['_'] + d2).drop_last() =~= d1 + seq!['_'] + d2.drop_last());
        assert((d1 + d2).drop_last() =~= d1 + d2.drop_last());
        assert((d1 + seq!['_'] + d2).last() == d2.last());
        assert((d1 + d2).last() == d2.last());
        assert(d2.last() != '_');
    }
}

/// A digit separator between two runs of decimal digits does not change the
/// number: `d1_d2` reads as `d1d2`.
pub proof fn lemma_separator_keeps_decimal_value(d1: Seq<char>, d2: Seq<char>)
    requires
        d1.len() > 0,
        d2.len() > 0,
        spec_all_decimal(d1),
        spec_all_decimal(d2),
    ensures
        spec_number(d1 + seq!['_'] + d2) == spec_number(d1 + d2),
{
    let t = d1 + seq!['_'] + d2;
    let u = d1 + d2;
    lemma_all_decimal_parts(d1, d2, seq!['_']);
    lemma_all_decimal_parts(d1, d2, Seq::empty());
    assert(d1 + Seq::<char>::empty() + d2 =~= u);
    assert(spec_all_decimal(u)) by {
        assert forall|k: int| 0 <= k < u.len() implies '0' <= #[trigger] u[k] && u[k] <= '9' by {
            if k < d1.len() {
                assert(u[k] == d1[k]);
            } else {
                assert(u[k] == d2[k - d1.len()]);
            }
        }
    }
    lemma_decimal_integer_value(u);
    lemma_decimal_group(u);
    assert forall|k: int| 0 <= k < d2.len() implies #[trigger] d2[k] != '_' by {
        assert('0' <= d2[k] <= '9');
    }
    lemma_group_value_separator(d1, d2, 10);
    // reading `t`
    assert forall|k: int| 0 <= k < t.len() implies spec_is_digit(#[trigger] t[k]) || t[k] == '_' by {
        if k < d1.len() {
            assert(t[k] == d1[k]);
        } else if k > d1.len() {
            assert(t[k] == d2[k - d1.len() - 1]);
        }
    }
    lemma_decimal_or_separator_run(t, 0);
    assert(t.subrange(0, t.len() as int) =~= t);
    assert(spec_valid_group(t, 10)) by {
        assert forall|k: int| 0 <= k < t.len() implies #[trigger] spec_is_radix_digit(t[k], 10) || (t[k]
            == '_' && k + 1 < t.len() && spec_is_radix_digit(t[k + 1], 10)) by {
            if k < d1.len() {
                assert(t[k] == d1[k]);
            } else if k > d1.len() {
                assert(t[k] == d2[k - d1.len() - 1]);
            } else {
                assert(t[k + 1] == d2[0]);
            }
        }
        assert(t[0] == d1[0]);
    }
    assert(t[0] == d1[0]);
    if d1.len() > 1 {
        assert(t[1] == d1[1]);
    } else {
        assert(t[1] == '_');
    }
}

proof fn lemma_decimal_or_separator_run(t: Seq<char>, i: int)
    requires
        0 <= i <= t.len(),
        forall|k: int| 0 <= k < t.len() ==> spec_is_digit(#[trigger] t[k]) || t[k] == '_',
    ensures
        spec_decimal_run_end(t, i) == t.len(),
    decreases t.len() - i,
{
    if i < t.len() {
        assert(spec_is_digit(t[i]) || t[i] == '_');
        lemma_decimal_or_separator_run(t, i + 1);
    }
}

proof fn lemma_strip_without_separators(t: Seq<char>)
    requires
        forall|k: int| 0 <= k < t.len() ==> #[trigger] t[k] != '_',
    ensures
        spec_strip_underscores(t) == t,
    decreases t.len(),
{
    if t.len() > 0 {
        assert forall|k: int| 0 <= k < t.drop_last().len() implies #[trigger] t.drop_last()[k] != '_' by {
            assert(t.drop_last()[k] == t[k]);
        }
        lemma_strip_without_separators(t.drop_last());
        assert(t.last() != '_');
        assert(t.drop_last().push(t.last()) =~= t);
    }
}

/// A decimal fraction keeps its text: digits `d1`, a `.` and digits `d2`
/// read as the fraction written `d1.d2`.
pub proof fn lemma_decimal_fraction_keeps_text(d1: Seq<char>, d2: Seq<char>)
    requires
        d1.len() > 0,
        d2.len() > 0,
        spec_all_decimal(d1),
        spec_all_decimal(d2),
    ensures
        spec_number(d1 + seq!['.'] + d2) == Ok::<SpecValue, KdlError>(
            SpecValue::Float(d1 + seq!['.'] + d2),
        ),
{
    let t = d1 + seq!['.'] + d2;
    let l1 = d1.len() as int;
    lemma_all_decimal_parts(d1, d2, seq!['.']);
    assert forall|k: int| 0 <= k < l1 implies '0' <= #[trigger] t[k] && t[k] <= '9' by {
        assert(t[k] == d1[k]);
    }
    assert(t[l1] == '.');
    lemma_decimal_run_to(t, 0, l1);
    assert forall|k: int| l1 + 1 <= k < t.len() implies '0' <= #[trigger] t[k] && t[k] <= '9' by {
        assert(t[k] == d2[k - l1 - 1]);
    }
    lemma_decimal_run(t, l1 + 1);
    assert(t.subrange(0, l1) =~= d1);
    assert(t.subrange(l1 + 1, t.len() as int) =~= d2);
    assert(spec_valid_group(d1, 10)) by {
        assert('0' <= d1[0] <= '9');
        assert forall|k: int| 0 <= k < d1.len() implies #[trigger] spec_is_radix_digit(d1[k], 10) || (
        d1[k] == '_' && k + 1 < d1.len() && spec_is_radix_digit(d1[k + 1], 10)) by {
            assert('0' <= d1[k] <= '9');
        }
    }
    assert(spec_valid_group(d2, 10)) by {
        assert('0' <= d2[0] <= '9');
        assert forall|k: int| 0 <= k < d2.len() implies #[trigger] spec_is_radix_digit(d2[k], 10) || (
        d2[k] == '_' && k + 1 < d2.len() && spec_is_radix_digit(d2[k + 1], 10)) by {
            assert('0' <= d2[k] <= '9');
        }
    }
    assert forall|k: int| 0 <= k < t.len() implies #[trigger] t[k] != '_' by {
        if k < l1 {
            assert(t[k] == d1[k]);
        } else if k > l1 {
            assert(t[k] == d2[k - l1 - 1]);
        }
    }
    lemma_strip_without_separators(t);
    assert(t[0] == d1[0]);
    if l1 > 1 {
        assert(t[1] == d1[1]);
    }
}

proof fn lemma_decimal_run_to(t: Seq<char>, i: int, m: int)
    requires
        0 <= i <= m < t.len(),
        forall|k: int| i <= k < m ==> '0' <= #[trigger] t[k] && t[k] <= '9',
        !spec_is_digit(t[m]) && t[m] != '_',
    ensures
        spec_decimal_run_end(t, i) == m,
    decreases m - i,
{
    if i < m {
        assert('0' <= t[i] <= '9');
        lemma_decimal_run_to(t, i + 1, m);
    }
}

} // verus!
