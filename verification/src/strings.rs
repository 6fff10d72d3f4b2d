//! Decoding of string literals: escapes, quoted strings and multi-line
//! strings (newline normalisation, whitespace escapes and indentation
//! removal).

use vstd::prelude::*;
use crate::error::KdlError;
use crate::lexer::{raw_close, raw_ml_close, spec_raw_close, spec_raw_ml_close};
use crate::text::{chars_to_string, str_to_chars};
use crate::validation::{is_newline, is_whitespace, spec_is_newline, spec_is_whitespace};

verus! {

/// Puts `a` in front of a successful result.
pub open spec fn prepend(a: Seq<char>, r: Result<Seq<char>, KdlError>) -> Result<
    Seq<char>,
    KdlError,
> {
    match r {
        Ok(x) => Ok(a + x),
        Err(e) => Err(e),
    }
}

pub open spec fn spec_is_space(c: char) -> bool {
    spec_is_whitespace(c) || spec_is_newline(c)
}

pub open spec fn spec_is_hex(c: char) -> bool {
    ('0' <= c && c <= '9') || ('a' <= c && c <= 'f') || ('A' <= c && c <= 'F')
}

pub open spec fn spec_hex_val(c: char) -> int {
    if '0' <= c && c <= '9' {
        (c as int) - ('0' as int)
    } else if 'a' <= c && c <= 'f' {
        (c as int) - ('a' as int) + 10
    } else {
        (c as int) - ('A' as int) + 10
    }
}

/// The first index at or after `i` (and before `end`) that holds no
/// whitespace or newline.
pub open spec fn spec_space_run_end(s: Seq<char>, i: int, end: int) -> int
    decreases end - i,
{
    if i < end && spec_is_space(s[i]) {
        spec_space_run_end(s, i + 1, end)
    } else {
        i
    }
}

/// The first index at or after `i` (and before `end`) that holds no hex digit.
pub open spec fn spec_hex_run_end(s: Seq<char>, i: int, end: int) -> int
    decreases end - i,
{
    if i < end && spec_is_hex(s[i]) {
        spec_hex_run_end(s, i + 1, end)
    } else {
        i
    }
}

/// The number written in hex digits by `d`.
pub open spec fn spec_hex_value(d: Seq<char>) -> int
    decreases d.len(),
{
    if d.len() == 0 {
        0
    } else {
        spec_hex_value(d.drop_last()) * 16 + spec_hex_val(d.last())
    }
}

pub open spec fn spec_is_scalar(v: int) -> bool {
    0 <= v <= 0x10FFFF && !(0xD800 <= v <= 0xDFFF)
}

/// The escape whose letter stands at `i` (after a backslash), within
/// `s[..end]`: the characters it stands for and the index after it. A
/// backslash followed by whitespace or newlines stands for nothing, and
/// swallows all of them.
pub open spec fn spec_escape(s: Seq<char>, i: int, end: int) -> Result<(Seq<char>, int), KdlError> {
    if i >= end {
        Err(KdlError::TrailingBackslash)
    } else {
        let c = s[i];
        if c == 'n' {
            Ok((seq!['\n'], i + 1))
        } else if c == 'r' {
            Ok((seq!['\r'], i + 1))
        } else if c == 't' {
            Ok((seq!['\t'], i + 1))
        } else if c == '\\' {
            Ok((seq!['\\'], i + 1))
        } else if c == '"' {
            Ok((seq!['"'], i + 1))
        } else if c == 'b' {
            Ok((seq!['\u{8}'], i + 1))
        } else if c == 'f' {
            Ok((seq!['\u{c}'], i + 1))
        } else if c == 's' {
            Ok((seq![' '], i + 1))
        } else if c == 'u' {
            spec_unicode_escape(s, i, end)
        } else if spec_is_space(c) {
            Ok((Seq::empty(), spec_space_run_end(s, i, end)))
        } else {
            Err(KdlError::InvalidEscape)
        }
    }
}

/// A `\u{..}` escape whose `u` stands at `i`: one to six hex digits in
/// braces that name a Unicode scalar value.
pub open spec fn spec_unicode_escape(s: Seq<char>, i: int, end: int) -> Result<
    (Seq<char>, int),
    KdlError,
> {
    let h = spec_hex_run_end(s, i + 2, end);
    if !(i + 1 < end && s[i + 1] == '{') {
        Err(KdlError::InvalidUnicodeEscape)
    } else if h == i + 2 && h < end && s[h] == '}' {
        Err(KdlError::EmptyUnicodeEscape)
    } else if h <= i + 8 && h < end && s[h] == '}' && spec_is_scalar(
        spec_hex_value(s.subrange(i + 2, h)),
    ) {
        Ok((seq![spec_hex_value(s.subrange(i + 2, h)) as char], h + 1))
    } else {
        Err(KdlError::InvalidUnicodeEscape)
    }
}

/// The characters that `s[i..end]` stands for, with escapes decoded.
pub open spec fn spec_decode(s: Seq<char>, i: int, end: int) -> Result<Seq<char>, KdlError>
    decreases end - i,
{
    if i >= end {
        Ok(Seq::empty())
    } else if s[i] == '\\' {
        match spec_escape(s, i + 1, end) {
            Ok((cs, k)) => if k <= i || k > end {
                Err(KdlError::InvalidEscape)
            } else {
                prepend(cs, spec_decode(s, k, end))
            },
            Err(e) => Err(e),
        }
    } else {
        prepend(seq![s[i]], spec_decode(s, i + 1, end))
    }
}

/// The index of the closing quote of a string whose content starts at `i`.
pub open spec fn spec_quote_end(s: Seq<char>, i: int) -> Option<int>
    decreases s.len() - i,
{
    if i >= s.len() {
        None
    } else if s[i] == '\\' {
        if i + 2 > s.len() {
            None
        } else {
            spec_quote_end(s, i + 2)
        }
    } else if s[i] == '"' {
        Some(i)
    } else {
        spec_quote_end(s, i + 1)
    }
}

/// A quoted string whose content starts at `i`: its value and the index after
/// the closing quote.
pub open spec fn spec_quoted(s: Seq<char>, i: int) -> Result<(Seq<char>, int), KdlError> {
    match spec_quote_end(s, i) {
        None => Err(KdlError::UnterminatedString),
        Some(e) => match spec_decode(s, i, e) {
            Ok(v) => Ok((v, e + 1)),
            Err(err) => Err(err),
        },
    }
}

/// Whether `s[i..i + 3]` is `"""`.
pub open spec fn spec_triple_at(s: Seq<char>, i: int) -> bool {
    i + 3 <= s.len() && s[i] == '"' && s[i + 1] == '"' && s[i + 2] == '"'
}

/// The index of the closing `"""` of a multi-line string whose content
/// starts at `i`.
pub open spec fn spec_triple_end(s: Seq<char>, i: int) -> Option<int>
    decreases s.len() - i,
{
    if i >= s.len() {
        None
    } else if s[i] == '\\' {
        if i + 2 > s.len() {
            None
        } else {
            spec_triple_end(s, i + 2)
        }
    } else if spec_triple_at(s, i) {
        Some(i)
    } else {
        spec_triple_end(s, i + 1)
    }
}

/// `v[i..]` with every newline (a CRLF pair counting as one) replaced by LF.
pub open spec fn spec_normalize(v: Seq<char>, i: int) -> Seq<char>
    decreases v.len() - i,
{
    if i >= v.len() {
        Seq::empty()
    } else if v[i] == '\r' && i + 1 < v.len() && v[i + 1] == '\n' {
        seq!['\n'] + spec_normalize(v, i + 2)
    } else if spec_is_newline(v[i]) {
        seq!['\n'] + spec_normalize(v, i + 1)
    } else {
        seq![v[i]] + spec_normalize(v, i + 1)
    }
}

/// `v[i..]` with the whitespace escapes of a multi-line string removed: a
/// backslash followed by whitespace or newlines is dropped together with all
/// of them, so that an escaped line break joins two lines before they are
/// dedented. Any other escape is kept as written, so that an escaped
/// backslash never starts one.
pub open spec fn spec_ws_escapes(v: Seq<char>, i: int) -> Seq<char>
    decreases v.len() - i,
{
    if i >= v.len() {
        Seq::empty()
    } else if v[i] == '\\' && i + 1 < v.len() && spec_is_space(v[i + 1]) {
        proof {
            lemma_space_run_bounds(v, i + 1, v.len() as int);
        }
        spec_ws_escapes(v, spec_space_run_end(v, i + 1, v.len() as int))
    } else if v[i] == '\\' && i + 1 < v.len() {
        seq![v[i], v[i + 1]] + spec_ws_escapes(v, i + 2)
    } else {
        seq![v[i]] + spec_ws_escapes(v, i + 1)
    }
}

pub open spec fn spec_all_whitespace(x: Seq<char>) -> bool {
    forall|k: int| 0 <= k < x.len() ==> #[trigger] spec_is_whitespace(x[k])
}

/// The first index at or after `i`, before `end`, that holds LF; `end` if none.
pub open spec fn spec_next_lf(v: Seq<char>, i: int, end: int) -> int
    decreases end - i,
{
    if i >= end {
        end
    } else if v[i] == '\n' {
        i
    } else {
        spec_next_lf(v, i + 1, end)
    }
}

/// The index of the last LF in `v[..end]`, if any.
pub open spec fn spec_last_lf(v: Seq<char>, end: int) -> Option<int>
    decreases end,
{
    if end <= 0 {
        None
    } else if v[end - 1] == '\n' {
        Some(end - 1)
    } else {
        spec_last_lf(v, end - 1)
    }
}

/// One line of a multi-line string with the closing line's whitespace
/// `prefix` removed; a line of whitespace only becomes empty.
pub open spec fn spec_dedent_line(line: Seq<char>, prefix: Seq<char>) -> Result<
    Seq<char>,
    KdlError,
> {
    if spec_all_whitespace(line) {
        Ok(Seq::empty())
    } else if prefix.len() <= line.len() && line.subrange(0, prefix.len() as int) == prefix {
        Ok(line.subrange(prefix.len() as int, line.len() as int))
    } else {
        Err(KdlError::MultilinePrefix)
    }
}

/// The lines of `v[i..end]` (separated by LF), each dedented, joined by LF.
pub open spec fn spec_dedent_lines(v: Seq<char>, i: int, end: int, prefix: Seq<char>) -> Result<
    Seq<char>,
    KdlError,
>
    decreases end - i,
{
    let e = spec_next_lf(v, i, end);
    match spec_dedent_line(v.subrange(i, e), prefix) {
        Err(err) => Err(err),
        Ok(line) => if e >= end || e < i {
            Ok(line)
        } else {
            prepend(line + seq!['\n'], spec_dedent_lines(v, e + 1, end, prefix))
        },
    }
}

/// The dedented text of a multi-line string from its normalised text `v`:
/// `v` starts with a newline, its last line (the indentation of the closing
/// quotes) is whitespace only, and that whitespace is removed from each line
/// between.
pub open spec fn spec_dedent(v: Seq<char>) -> Result<Seq<char>, KdlError> {
    if v.len() == 0 {
        Err(KdlError::MultilineEmpty)
    } else if v[0] != '\n' {
        Err(KdlError::MultilineNoNewline)
    } else {
        match spec_last_lf(v, v.len() as int) {
            None => Err(KdlError::MultilineNoNewline),
            Some(last) => {
                let prefix = v.subrange(last + 1, v.len() as int);
                if !spec_all_whitespace(prefix) {
                    Err(KdlError::MultilineFinalLine)
                } else if last == 0 {
                    Ok(Seq::empty())
                } else {
                    spec_dedent_lines(v, 1, last, prefix)
                }
            },
        }
    }
}

/// The value of a multi-line string from its content `c` (between the
/// `"""`s): newlines normalised, whitespace escapes removed, lines dedented,
/// then the other escapes decoded.
pub open spec fn spec_multiline_value(c: Seq<char>) -> Result<Seq<char>, KdlError> {
    match spec_dedent(spec_ws_escapes(spec_normalize(c, 0), 0)) {
        Err(e) => Err(e),
        Ok(d) => spec_decode(d, 0, d.len() as int),
    }
}

/// The value of a raw multi-line string from its content: newlines
/// normalised and lines dedented; nothing is an escape.
pub open spec fn spec_raw_multiline_value(c: Seq<char>) -> Result<Seq<char>, KdlError> {
    spec_dedent(spec_normalize(c, 0))
}

/// A multi-line string whose content starts at `i` (after the opening
/// `"""`): its value and the index after the closing `"""`.
pub open spec fn spec_multiline(s: Seq<char>, i: int) -> Result<(Seq<char>, int), KdlError> {
    match spec_triple_end(s, i) {
        None => Err(KdlError::UnterminatedString),
        Some(e) => match spec_multiline_value(s.subrange(i, e)) {
            Err(err) => Err(err),
            Ok(v) => Ok((v, e + 3)),
        },
    }
}

/// `char::from_u32` from std: the character whose scalar value is `v`, or
/// `None` where `v` is no Unicode scalar value.
#[verifier::external_body]
fn char_from_u32(v: u32) -> (r: Option<char>)
    ensures
        r is Some <==> spec_is_scalar(v as int),
        r matches Some(c) ==> c == (v as char),
{
    char::from_u32(v)
}

fn is_space(c: char) -> (r: bool)
    ensures
        r == spec_is_space(c),
{
    is_whitespace(c) || is_newline(c)
}

fn is_hex(c: char) -> (r: bool)
    ensures
        r == spec_is_hex(c),
{
    ('0' <= c && c <= '9') || ('a' <= c && c <= 'f') || ('A' <= c && c <= 'F')
}

fn hex_val(c: char) -> (r: u32)
    requires
        spec_is_hex(c),
    ensures
        r as int == spec_hex_val(c),
        r < 16,
{
    if '0' <= c && c <= '9' {
        (c as u32) - ('0' as u32)
    } else if 'a' <= c && c <= 'f' {
        (c as u32) - ('a' as u32) + 10
    } else {
        (c as u32) - ('A' as u32) + 10
    }
}

pub fn space_run_end(s: &Vec<char>, i: usize, end: usize) -> (r: usize)
    requires
        i <= end <= s@.len(),
    ensures
        r as int == spec_space_run_end(s@, i as int, end as int),
        i <= r <= end,
{
    let mut k = i;
    while k < end && is_space(s[k])
        invariant
            i <= k <= end <= s@.len(),
            spec_space_run_end(s@, i as int, end as int) == spec_space_run_end(
                s@,
                k as int,
                end as int,
            ),
        decreases end - k,
    {
        k = k + 1;
    }
    k
}

fn hex_run_end(s: &Vec<char>, i: usize, end: usize) -> (r: usize)
    requires
        i <= end <= s@.len(),
    ensures
        r as int == spec_hex_run_end(s@, i as int, end as int),
        i <= r <= end,
{
    let mut k = i;
    while k < end && is_hex(s[k])
        invariant
            i <= k <= end <= s@.len(),
            spec_hex_run_end(s@, i as int, end as int) == spec_hex_run_end(
                s@,
                k as int,
                end as int,
            ),
        decreases end - k,
    {
        k = k + 1;
    }
    k
}

pub open spec fn pow16(n: nat) -> int
    decreases n,
{
    if n == 0 {
        1
    } else {
        16 * pow16((n - 1) as nat)
    }
}

proof fn lemma_pow16_mono(a: nat, b: nat)
    requires
        a <= b,
    ensures
        1 <= pow16(a) <= pow16(b),
    decreases b,
{
    if b > 0 {
        if a < b {
            lemma_pow16_mono(a, (b - 1) as nat);
        } else {
            lemma_pow16_mono((b - 1) as nat, (b - 1) as nat);
        }
    }
}

proof fn lemma_hex_value_bound(d: Seq<char>)
    requires
        forall|k: int| 0 <= k < d.len() ==> #[trigger] spec_is_hex(d[k]),
    ensures
        0 <= spec_hex_value(d) < pow16(d.len()),
    decreases d.len(),
{
    if d.len() > 0 {
        assert forall|k: int| 0 <= k < d.drop_last().len() implies #[trigger] spec_is_hex(
            d.drop_last()[k],
        ) by {
            assert(spec_is_hex(d[k]));
        }
        lemma_hex_value_bound(d.drop_last());
        assert(spec_is_hex(d[d.len() - 1]));
        let p = pow16((d.len() - 1) as nat);
        let h = spec_hex_value(d.drop_last());
        assert(h * 16 + spec_hex_val(d.last()) < p * 16) by (nonlinear_arith)
            requires
                0 <= h < p,
                0 <= spec_hex_val(d.last()) < 16,
        ;
    }
}

proof fn lemma_hex_run_all_hex(s: Seq<char>, i: int, end: int)
    requires
        0 <= i <= end <= s.len(),
    ensures
        i <= spec_hex_run_end(s, i, end) <= end,
        forall|k: int|
            i <= k < spec_hex_run_end(s, i, end) ==> #[trigger] spec_is_hex(s[k]),
    decreases end - i,
{
    if i < end && spec_is_hex(s[i]) {
        lemma_hex_run_all_hex(s, i + 1, end);
    }
}

/// The value of the hex digits `s[i..e]`.
fn hex_value(s: &Vec<char>, i: usize, e: usize) -> (r: u32)
    requires
        i <= e <= s@.len(),
        e - i <= 6,
        forall|k: int| i <= k < e ==> #[trigger] spec_is_hex(s@[k]),
    ensures
        r as int == spec_hex_value(s@.subrange(i as int, e as int)),
{
    let mut acc: u32 = 0;
    let mut k = i;
    proof {
        assert(s@.subrange(i as int, i as int) =~= Seq::<char>::empty());
    }
    while k < e
        invariant
            i <= k <= e <= s@.len(),
            e - i <= 6,
            forall|j: int| i <= j < e ==> #[trigger] spec_is_hex(s@[j]),
            acc as int == spec_hex_value(s@.subrange(i as int, k as int)),
        decreases e - k,
    {
        let ghost d = s@.subrange(i as int, k as int + 1);
        proof {
            assert(d.drop_last() =~= s@.subrange(i as int, k as int));
            assert forall|j: int| 0 <= j < d.len() implies #[trigger] spec_is_hex(d[j]) by {
                assert(d[j] == s@[i + j]);
            }
            assert forall|j: int| 0 <= j < d.drop_last().len() implies #[trigger] spec_is_hex(
                d.drop_last()[j],
            ) by {
                assert(d.drop_last()[j] == s@[i + j]);
            }
            lemma_hex_value_bound(d.drop_last());
            lemma_pow16_mono(d.drop_last().len(), 5);
            reveal_with_fuel(pow16, 6);
            assert(pow16(5) == 1048576);
        }
        let v = hex_val(s[k]);
        acc = acc * 16 + v;
        k = k + 1;
    }
    acc
}

/// Decodes a `\u{..}` escape; see `spec_unicode_escape`.
fn unicode_escape(s: &Vec<char>, i: usize, end: usize) -> (r: Result<(Vec<char>, usize), KdlError>)
    requires
        i < end <= s@.len(),
    ensures
        match (r, spec_unicode_escape(s@, i as int, end as int)) {
            (Ok((cs, k)), Ok((scs, sk))) => cs@ == scs && k as int == sk,
            (Err(e), Err(se)) => e == se,
            _ => false,
        },
        r matches Ok((_, k)) ==> i < k <= end,
{
    if !(end - i > 1 && s[i + 1] == '{') {
        return Err(KdlError::InvalidUnicodeEscape);
    }
    let h = hex_run_end(s, i + 2, end);
    if h == i + 2 && h < end && s[h] == '}' {
        return Err(KdlError::EmptyUnicodeEscape);
    }
    if h - i <= 8 && h < end && s[h] == '}' {
        proof {
            lemma_hex_run_all_hex(s@, i as int + 2, end as int);
        }
        let v = hex_value(s, i + 2, h);
        match char_from_u32(v) {
            Some(ch) => {
                let mut out: Vec<char> = Vec::new();
                out.push(ch);
                proof {
                    assert(out@ =~= seq![spec_hex_value(s@.subrange(i as int + 2, h as int)) as char]);
                }
                return Ok((out, h + 1));
            },
            None => {
                return Err(KdlError::InvalidUnicodeEscape);
            },
        }
    }
    Err(KdlError::InvalidUnicodeEscape)
}

/// Decodes the escape whose letter stands at `i`; see `spec_escape`.
pub fn escape(s: &Vec<char>, i: usize, end: usize) -> (r: Result<(Vec<char>, usize), KdlError>)
    requires
        i <= end <= s@.len(),
    ensures
        match (r, spec_escape(s@, i as int, end as int)) {
            (Ok((cs, k)), Ok((scs, sk))) => cs@ == scs && k as int == sk,
            (Err(e), Err(se)) => e == se,
            _ => false,
        },
        r matches Ok((_, k)) ==> k <= end,
{
    if i >= end {
        return Err(KdlError::TrailingBackslash);
    }
    let c = s[i];
    let mut out: Vec<char> = Vec::new();
    if c == 'n' {
        out.push('\n');
    } else if c == 'r' {
        out.push('\r');
    } else if c == 't' {
        out.push('\t');
    } else if c == '\\' {
        out.push('\\');
    } else if c == '"' {
        out.push('"');
    } else if c == 'b' {
        out.push('\u{8}');
    } else if c == 'f' {
        out.push('\u{c}');
    } else if c == 's' {
        out.push(' ');
    } else if c == 'u' {
        return unicode_escape(s, i, end);
    } else if is_space(c) {
        let k = space_run_end(s, i, end);
        proof {
            assert(out@ =~= Seq::<char>::empty());
        }
        return Ok((out, k));
    } else {
        return Err(KdlError::InvalidEscape);
    }
    proof {
        assert(out@ =~= seq![out@[0]]);
    }
    Ok((out, i + 1))
}

/// The characters that `s[i..end]` stands for; see `spec_decode`.
pub fn decode(s: &Vec<char>, i: usize, end: usize) -> (r: Result<Vec<char>, KdlError>)
    requires
        i <= end <= s@.len(),
    ensures
        match (r, spec_decode(s@, i as int, end as int)) {
            (Ok(v), Ok(sv)) => v@ == sv,
            (Err(e), Err(se)) => e == se,
            _ => false,
        },
{
    let mut acc: Vec<char> = Vec::new();
    let mut k = i;
    while k < end
        invariant
            i <= k <= end <= s@.len(),
            spec_decode(s@, i as int, end as int) == prepend(
                acc@,
                spec_decode(s@, k as int, end as int),
            ),
        decreases end - k,
    {
        let ghost old_acc = acc@;
        if s[k] == '\\' {
            match escape(s, k + 1, end) {
                Ok((cs, nk)) => {
                    if nk <= k || nk > end {
                        return Err(KdlError::InvalidEscape);
                    }
                    let mut j: usize = 0;
                    while j < cs.len()
                        invariant
                            j <= cs@.len(),
                            acc@ == old_acc + cs@.subrange(0, j as int),
                        decreases cs@.len() - j,
                    {
                        acc.push(cs[j]);
                        j = j + 1;
                        assert(acc@ =~= old_acc + cs@.subrange(0, j as int));
                    }
                    proof {
                        assert(cs@.subrange(0, cs@.len() as int) =~= cs@);
                        match spec_decode(s@, nk as int, end as int) {
                            Ok(x) => {
                                assert(old_acc + (cs@ + x) =~= acc@ + x);
                            },
                            Err(_) => {},
                        }
                    }
                    k = nk;
                },
                Err(e) => {
                    return Err(e);
                },
            }
        } else {
            acc.push(s[k]);
            proof {
                match spec_decode(s@, k as int + 1, end as int) {
                    Ok(x) => {
                        assert(old_acc + (seq![s@[k as int]] + x) =~= acc@ + x);
                    },
                    Err(_) => {},
                }
            }
            k = k + 1;
        }
    }
    proof {
        assert(acc@ + Seq::<char>::empty() =~= acc@);
    }
    Ok(acc)
}

/// The index of the closing quote; see `spec_quote_end`.
fn quote_end(s: &Vec<char>, i: usize) -> (r: Option<usize>)
    requires
        i <= s@.len(),
    ensures
        match (r, spec_quote_end(s@, i as int)) {
            (Some(e), Some(se)) => e as int == se,
            (None, None) => true,
            _ => false,
        },
        r matches Some(e) ==> i <= e < s@.len(),
{
    let mut k = i;
    while k < s.len()
        invariant
            i <= k <= s@.len(),
            spec_quote_end(s@, i as int) == spec_quote_end(s@, k as int),
        decreases s@.len() - k,
    {
        if s[k] == '\\' {
            if s.len() - k < 2 {
                return None;
            }
            k = k + 2;
        } else if s[k] == '"' {
            return Some(k);
        } else {
            k = k + 1;
        }
    }
    None
}

/// Decodes a quoted string whose content starts at `i`; see `spec_quoted`.
pub fn quoted(s: &Vec<char>, i: usize) -> (r: Result<(Vec<char>, usize), KdlError>)
    requires
        i <= s@.len(),
    ensures
        match (r, spec_quoted(s@, i as int)) {
            (Ok((v, k)), Ok((sv, sk))) => v@ == sv && k as int == sk,
            (Err(e), Err(se)) => e == se,
            _ => false,
        },
        r matches Ok((_, k)) ==> i < k <= s@.len(),
{
    let _n = s.len();
    match quote_end(s, i) {
        None => Err(KdlError::UnterminatedString),
        Some(e) => match decode(s, i, e) {
            Ok(v) => Ok((v, e + 1)),
            Err(err) => Err(err),
        },
    }
}

fn triple_at(s: &Vec<char>, i: usize) -> (r: bool)
    requires
        i <= s@.len(),
    ensures
        r == spec_triple_at(s@, i as int),
{
    s.len() - i >= 3 && s[i] == '"' && s[i + 1] == '"' && s[i + 2] == '"'
}

fn triple_end(s: &Vec<char>, i: usize) -> (r: Option<usize>)
    requires
        i <= s@.len(),
    ensures
        match (r, spec_triple_end(s@, i as int)) {
            (Some(e), Some(se)) => e as int == se,
            (None, None) => true,
            _ => false,
        },
        r matches Some(e) ==> i <= e && e + 3 <= s@.len(),
{
    let mut k = i;
    while k < s.len()
        invariant
            i <= k <= s@.len(),
            spec_triple_end(s@, i as int) == spec_triple_end(s@, k as int),
        decreases s@.len() - k,
    {
        if s[k] == '\\' {
            if s.len() - k < 2 {
                return None;
            }
            k = k + 2;
        } else if triple_at(s, k) {
            return Some(k);
        } else {
            k = k + 1;
        }
    }
    None
}

/// Newlines of `v` replaced by LF; see `spec_normalize`.
pub fn normalize(v: &Vec<char>) -> (r: Vec<char>)
    ensures
        r@ == spec_normalize(v@, 0),
{
    let mut acc: Vec<char> = Vec::new();
    let mut k: usize = 0;
    while k < v.len()
        invariant
            k <= v@.len(),
            spec_normalize(v@, 0) == acc@ + spec_normalize(v@, k as int),
        decreases v@.len() - k,
    {
        let ghost old_acc = acc@;
        if v[k] == '\r' && v.len() - k >= 2 && v[k + 1] == '\n' {
            acc.push('\n');
            proof {
                assert(old_acc + (seq!['\n'] + spec_normalize(v@, k + 2)) =~= acc@
                    + spec_normalize(v@, k + 2));
            }
            k = k + 2;
        } else if is_newline(v[k]) {
            acc.push('\n');
            proof {
                assert(old_acc + (seq!['\n'] + spec_normalize(v@, k + 1)) =~= acc@
                    + spec_normalize(v@, k + 1));
            }
            k = k + 1;
        } else {
            acc.push(v[k]);
            proof {
                assert(old_acc + (seq![v@[k as int]] + spec_normalize(v@, k + 1)) =~= acc@
                    + spec_normalize(v@, k + 1));
            }
            k = k + 1;
        }
    }
    proof {
        assert(acc@ + Seq::<char>::empty() =~= acc@);
    }
    acc
}

/// Whitespace escapes of `v` removed; see `spec_ws_escapes`.
pub fn ws_escapes(v: &Vec<char>) -> (r: Vec<char>)
    ensures
        r@ == spec_ws_escapes(v@, 0),
{
    let mut acc: Vec<char> = Vec::new();
    let mut k: usize = 0;
    while k < v.len()
        invariant
            k <= v@.len(),
            spec_ws_escapes(v@, 0) == acc@ + spec_ws_escapes(v@, k as int),
        decreases v@.len() - k,
    {
        let ghost old_acc = acc@;
        if v[k] == '\\' && v.len() - k >= 2 && is_space(v[k + 1]) {
            k = space_run_end(v, k + 1, v.len());
        } else if v[k] == '\\' && v.len() - k >= 2 {
            acc.push(v[k]);
            acc.push(v[k + 1]);
            proof {
                assert(old_acc + (seq![v@[k as int], v@[k + 1]] + spec_ws_escapes(v@, k + 2))
                    =~= acc@ + spec_ws_escapes(v@, k + 2));
            }
            k = k + 2;
        } else {
            acc.push(v[k]);
            proof {
                assert(old_acc + (seq![v@[k as int]] + spec_ws_escapes(v@, k + 1)) =~= acc@
                    + spec_ws_escapes(v@, k + 1));
            }
            k = k + 1;
        }
    }
    proof {
        assert(acc@ + Seq::<char>::empty() =~= acc@);
    }
    acc
}

fn next_lf(v: &Vec<char>, i: usize, end: usize) -> (r: usize)
    requires
        i <= end <= v@.len(),
    ensures
        r as int == spec_next_lf(v@, i as int, end as int),
        i <= r <= end,
{
    let mut k = i;
    while k < end && v[k] != '\n'
        invariant
            i <= k <= end <= v@.len(),
            spec_next_lf(v@, i as int, end as int) == spec_next_lf(v@, k as int, end as int),
        decreases end - k,
    {
        k = k + 1;
    }
    k
}

fn last_lf(v: &Vec<char>) -> (r: Option<usize>)
    ensures
        match (r, spec_last_lf(v@, v@.len() as int)) {
            (Some(e), Some(se)) => e as int == se,
            (None, None) => true,
            _ => false,
        },
        r matches Some(e) ==> e < v@.len(),
{
    let mut k = v.len();
    while k > 0
        invariant
            k <= v@.len(),
            spec_last_lf(v@, v@.len() as int) == spec_last_lf(v@, k as int),
        decreases k,
    {
        if v[k - 1] == '\n' {
            return Some(k - 1);
        }
        k = k - 1;
    }
    None
}

fn all_whitespace(v: &Vec<char>, i: usize, end: usize) -> (r: bool)
    requires
        i <= end <= v@.len(),
    ensures
        r == spec_all_whitespace(v@.subrange(i as int, end as int)),
{
    let mut k = i;
    while k < end
        invariant
            i <= k <= end <= v@.len(),
            forall|j: int| i <= j < k ==> #[trigger] spec_is_whitespace(v@[j]),
        decreases end - k,
    {
        if !is_whitespace(v[k]) {
            assert(!spec_is_whitespace(v@.subrange(i as int, end as int)[k - i]));
            return false;
        }
        k = k + 1;
    }
    assert forall|j: int| 0 <= j < end - i implies #[trigger] spec_is_whitespace(
        v@.subrange(i as int, end as int)[j],
    ) by {
        assert(spec_is_whitespace(v@[i + j]));
    }
    true
}

/// Whether `v[i..end]` starts with `v[p..pend]`.
fn starts_with_at(v: &Vec<char>, i: usize, end: usize, p: usize, pend: usize) -> (r: bool)
    requires
        i <= end <= v@.len(),
        p <= pend <= v@.len(),
    ensures
        r == (pend - p <= end - i && v@.subrange(i as int, end as int).subrange(
            0,
            pend - p,
        ) == v@.subrange(p as int, pend as int)),
{
    let n = pend - p;
    if n > end - i {
        return false;
    }
    let ghost a = v@.subrange(i as int, end as int);
    let ghost b = v@.subrange(p as int, pend as int);
    let mut k: usize = 0;
    while k < n
        invariant
            n == pend - p,
            n <= end - i,
            i <= end <= v@.len(),
            p <= pend <= v@.len(),
            k <= n,
            a == v@.subrange(i as int, end as int),
            b == v@.subrange(p as int, pend as int),
            forall|j: int| 0 <= j < k ==> #[trigger] a[j] == b[j],
        decreases n - k,
    {
        assert(a[k as int] == v@[i + k]);
        assert(b[k as int] == v@[p + k]);
        if v[i + k] != v[p + k] {
            assert(a.subrange(0, n as int)[k as int] != b[k as int]);
            return false;
        }
        k = k + 1;
    }
    assert(v@.subrange(i as int, end as int).subrange(0, n as int) =~= v@.subrange(
        p as int,
        pend as int,
    ));
    true
}

/// Removes the indentation of one line; see `spec_dedent_line`.
fn dedent_line(v: &Vec<char>, i: usize, e: usize, p: usize, pend: usize, acc: &mut Vec<char>) -> (r:
    Result<(), KdlError>)
    requires
        i <= e <= v@.len(),
        p <= pend <= v@.len(),
    ensures
        match (r, spec_dedent_line(v@.subrange(i as int, e as int), v@.subrange(p as int, pend as int))) {
            (Ok(()), Ok(line)) => final(acc)@ == old(acc)@ + line,
            (Err(x), Err(y)) => x == y,
            _ => false,
        },
{
    let ghost line = v@.subrange(i as int, e as int);
    let ghost prefix = v@.subrange(p as int, pend as int);
    if all_whitespace(v, i, e) {
        assert(old(acc)@ + Seq::<char>::empty() =~= acc@);
        return Ok(());
    }
    if starts_with_at(v, i, e, p, pend) {
        let start = i + (pend - p);
        let mut k = start;
        while k < e
            invariant
                i <= start <= k <= e <= v@.len(),
                start == i + (pend - p),
                acc@ == old(acc)@ + v@.subrange(start as int, k as int),
            decreases e - k,
        {
            acc.push(v[k]);
            k = k + 1;
            assert(acc@ =~= old(acc)@ + v@.subrange(start as int, k as int));
        }
        assert(line.subrange(prefix.len() as int, line.len() as int) =~= v@.subrange(
            start as int,
            e as int,
        ));
        return Ok(());
    }
    Err(KdlError::MultilinePrefix)
}

/// The dedented lines of `v[i..end]`; see `spec_dedent_lines`.
fn dedent_lines(v: &Vec<char>, i: usize, end: usize, p: usize, pend: usize) -> (r: Result<
    Vec<char>,
    KdlError,
>)
    requires
        i <= end <= v@.len(),
        p <= pend <= v@.len(),
    ensures
        match (r, spec_dedent_lines(v@, i as int, end as int, v@.subrange(p as int, pend as int))) {
            (Ok(x), Ok(y)) => x@ == y,
            (Err(x), Err(y)) => x == y,
            _ => false,
        },
{
    let ghost prefix = v@.subrange(p as int, pend as int);
    let mut acc: Vec<char> = Vec::new();
    let mut k = i;
    loop
        invariant
            i <= k <= end <= v@.len(),
            p <= pend <= v@.len(),
            prefix == v@.subrange(p as int, pend as int),
            spec_dedent_lines(v@, i as int, end as int, prefix) == prepend(
                acc@,
                spec_dedent_lines(v@, k as int, end as int, prefix),
            ),
        decreases end - k,
    {
        let ghost old_acc = acc@;
        let e = next_lf(v, k, end);
        match dedent_line(v, k, e, p, pend, &mut acc) {
            Err(x) => {
                return Err(x);
            },
            Ok(()) => {},
        }
        let ghost line = spec_dedent_line(v@.subrange(k as int, e as int), prefix)->Ok_0;
        if e >= end {
            return Ok(acc);
        }
        acc.push('\n');
        proof {
            match spec_dedent_lines(v@, e + 1, end as int, prefix) {
                Ok(rest) => {
                    assert(old_acc + (line + seq!['\n'] + rest) =~= acc@ + rest);
                },
                Err(_) => {},
            }
        }
        k = e + 1;
    }
}

/// The dedented text of a multi-line string from its normalised text; see
/// `spec_dedent`.
pub fn dedent(v: &Vec<char>) -> (r: Result<Vec<char>, KdlError>)
    ensures
        match (r, spec_dedent(v@)) {
            (Ok(x), Ok(y)) => x@ == y,
            (Err(x), Err(y)) => x == y,
            _ => false,
        },
{
    if v.len() == 0 {
        return Err(KdlError::MultilineEmpty);
    }
    if v[0] != '\n' {
        return Err(KdlError::MultilineNoNewline);
    }
    match last_lf(v) {
        None => Err(KdlError::MultilineNoNewline),
        Some(last) => {
            if !all_whitespace(v, last + 1, v.len()) {
                return Err(KdlError::MultilineFinalLine);
            }
            if last == 0 {
                return Ok(Vec::new());
            }
            dedent_lines(v, 1, last, last + 1, v.len())
        },
    }
}

/// The value of a multi-line string from its content; see
/// `spec_multiline_value`.
pub fn multiline_value(c: &Vec<char>) -> (r: Result<Vec<char>, KdlError>)
    ensures
        match (r, spec_multiline_value(c@)) {
            (Ok(x), Ok(y)) => x@ == y,
            (Err(x), Err(y)) => x == y,
            _ => false,
        },
{
    let n = normalize(c);
    let w = ws_escapes(&n);
    match dedent(&w) {
        Err(e) => Err(e),
        Ok(d) => decode(&d, 0, d.len()),
    }
}

/// The value of a raw multi-line string from its content; see
/// `spec_raw_multiline_value`.
pub fn raw_multiline_value(c: &Vec<char>) -> (r: Result<Vec<char>, KdlError>)
    ensures
        match (r, spec_raw_multiline_value(c@)) {
            (Ok(x), Ok(y)) => x@ == y,
            (Err(x), Err(y)) => x == y,
            _ => false,
        },
{
    let n = normalize(c);
    dedent(&n)
}

/// Decodes a multi-line string whose content starts at `i`; see
/// `spec_multiline`.
pub fn multiline(s: &Vec<char>, i: usize) -> (r: Result<(Vec<char>, usize), KdlError>)
    requires
        i <= s@.len(),
    ensures
        match (r, spec_multiline(s@, i as int)) {
            (Ok((v, k)), Ok((sv, sk))) => v@ == sv && k as int == sk,
            (Err(e), Err(se)) => e == se,
            _ => false,
        },
        r matches Ok((_, k)) ==> i < k <= s@.len(),
{
    let _n = s.len();
    match triple_end(s, i) {
        None => Err(KdlError::UnterminatedString),
        Some(e) => {
            let c = crate::text::sub_chars(s, i, e);
            match multiline_value(&c) {
                Err(err) => Err(err),
                Ok(v) => Ok((v, e + 3)),
            }
        },
    }
}

fn whole_string(v: &Vec<char>) -> (r: String)
    ensures
        r@ == v@,
{
    let r = chars_to_string(v, 0, v.len());
    proof {
        assert(v@.subrange(0, v@.len() as int) =~= v@);
    }
    r
}

/// The value of a quoted string whose content (between the quotes) is
/// `input`: its escapes decoded.
pub fn process_string_escapes(input: &str) -> (r: Result<String, KdlError>)
    ensures
        match (r, spec_decode(input@, 0, input@.len() as int)) {
            (Ok(a), Ok(b)) => a@ == b,
            (Err(a), Err(b)) => a == b,
            _ => false,
        },
{
    let v = str_to_chars(input);
    match decode(&v, 0, v.len()) {
        Ok(d) => Ok(whole_string(&d)),
        Err(e) => Err(e),
    }
}

/// The value of a multi-line string whose content (between the `"""`s) is
/// `input`.
pub fn process_multiline_string(input: &str) -> (r: Result<String, KdlError>)
    ensures
        match (r, spec_multiline_value(input@)) {
            (Ok(a), Ok(b)) => a@ == b,
            (Err(a), Err(b)) => a == b,
            _ => false,
        },
{
    let v = str_to_chars(input);
    match multiline_value(&v) {
        Ok(d) => Ok(whole_string(&d)),
        Err(e) => Err(e),
    }
}

/// The value of a raw string delimited by `hash_count` hashes whose content
/// is `input`: the content itself, which may not hold the closing quote
/// followed by as many hashes.
pub fn process_raw_string(input: &str, hash_count: usize) -> (r: Result<String, KdlError>)
    ensures
        spec_raw_close(input@, 0, hash_count as int) is None ==> (r matches Ok(x) && x@ == input@),
        spec_raw_close(input@, 0, hash_count as int) is Some ==> r == Err::<String, KdlError>(
            KdlError::InvalidRawString,
        ),
{
    let v = str_to_chars(input);
    match raw_close(&v, 0, hash_count) {
        Some(_) => Err(KdlError::InvalidRawString),
        None => Ok(whole_string(&v)),
    }
}

/// The value of a raw multi-line string delimited by `hash_count` hashes
/// whose content is `input`: newlines normalised and lines dedented, with no
/// escapes. The content may not hold the closing `"""` followed by as many
/// hashes.
pub fn process_raw_multiline_string(input: &str, hash_count: usize) -> (r: Result<String, KdlError>)
    ensures
        spec_raw_ml_close(input@, 0, hash_count as int) is Some ==> r == Err::<String, KdlError>(
            KdlError::InvalidRawString,
        ),
        spec_raw_ml_close(input@, 0, hash_count as int) is None ==> match (
            r,
            spec_raw_multiline_value(input@),
        ) {
            (Ok(a), Ok(b)) => a@ == b,
            (Err(a), Err(b)) => a == b,
            _ => false,
        },
{
    let v = str_to_chars(input);
    match raw_ml_close(&v, 0, hash_count) {
        Some(_) => Err(KdlError::InvalidRawString),
        None => match raw_multiline_value(&v) {
            Ok(d) => Ok(whole_string(&d)),
            Err(e) => Err(e),
        },
    }
}

/// Whether `s[i..end]` holds no backslash.
pub open spec fn spec_no_backslash(s: Seq<char>, i: int, end: int) -> bool {
    forall|k: int| i <= k < end ==> #[trigger] s[k] != '\\'
}

proof fn lemma_normalize_newlines_lf(v: Seq<char>, i: int)
    requires
        0 <= i <= v.len(),
    ensures
        forall|k: int|
            0 <= k < spec_normalize(v, i).len() && spec_is_newline(#[trigger] spec_normalize(v, i)[k])
                ==> spec_normalize(v, i)[k] == '\n',
    decreases v.len() - i,
{
    if i < v.len() {
        if v[i] == '\r' && i + 1 < v.len() && v[i + 1] == '\n' {
            lemma_normalize_newlines_lf(v, i + 2);
        } else {
            lemma_normalize_newlines_lf(v, i + 1);
        }
        let r = spec_normalize(v, i);
        assert forall|k: int| 0 <= k < r.len() && spec_is_newline(#[trigger] r[k]) implies r[k]
            == '\n' by {
            if k > 0 {
                if v[i] == '\r' && i + 1 < v.len() && v[i + 1] == '\n' {
                    assert(r[k] == spec_normalize(v, i + 2)[k - 1]);
                } else {
                    assert(r[k] == spec_normalize(v, i + 1)[k - 1]);
                }
            }
        }
    }
}

/// After newline normalisation every newline is a line feed: a CRLF pair,
/// a lone CR and the other newline characters all become LF.
pub proof fn lemma_normalized_newlines_are_lf(v: Seq<char>, k: int)
    requires
        0 <= k < spec_normalize(v, 0).len(),
        spec_is_newline(spec_normalize(v, 0)[k]),
    ensures
        spec_normalize(v, 0)[k] == '\n',
{
    lemma_normalize_newlines_lf(v, 0);
}

proof fn lemma_decode_plain(s: Seq<char>, i: int, end: int)
    requires
        0 <= i <= end <= s.len(),
        spec_no_backslash(s, i, end),
    ensures
        spec_decode(s, i, end) == Ok::<Seq<char>, KdlError>(s.subrange(i, end)),
    decreases end - i,
{
    if i < end {
        lemma_decode_plain(s, i + 1, end);
        assert(seq![s[i]] + s.subrange(i + 1, end) =~= s.subrange(i, end));
    } else {
        assert(s.subrange(i, end) =~= Seq::<char>::empty());
    }
}

/// A string with no backslash has no escapes: it decodes to itself.
pub proof fn lemma_decode_without_backslash(s: Seq<char>)
    requires
        spec_no_backslash(s, 0, s.len() as int),
    ensures
        spec_decode(s, 0, s.len() as int) == Ok::<Seq<char>, KdlError>(s),
{
    lemma_decode_plain(s, 0, s.len() as int);
    assert(s.subrange(0, s.len() as int) =~= s);
}

proof fn lemma_normalize_plain(v: Seq<char>, i: int)
    requires
        0 <= i <= v.len(),
        spec_no_backslash(v, 0, v.len() as int),
    ensures
        spec_no_backslash(spec_normalize(v, i), 0, spec_normalize(v, i).len() as int),
    decreases v.len() - i,
{
    if i < v.len() {
        if v[i] == '\r' && i + 1 < v.len() && v[i + 1] == '\n' {
            lemma_normalize_plain(v, i + 2);
        } else {
            lemma_normalize_plain(v, i + 1);
        }
        let r = spec_normalize(v, i);
        assert forall|k: int| 0 <= k < r.len() implies #[trigger] r[k] != '\\' by {
            if k > 0 {
                if v[i] == '\r' && i + 1 < v.len() && v[i + 1] == '\n' {
                    assert(r[k] == spec_normalize(v, i + 2)[k - 1]);
                } else {
                    assert(r[k] == spec_normalize(v, i + 1)[k - 1]);
                }
            }
        }
    }
}

proof fn lemma_ws_escapes_plain(v: Seq<char>, i: int)
    requires
        0 <= i <= v.len(),
        spec_no_backslash(v, 0, v.len() as int),
    ensures
        spec_ws_escapes(v, i) == v.subrange(i, v.len() as int),
    decreases v.len() - i,
{
    if i < v.len() {
        lemma_ws_escapes_plain(v, i + 1);
        assert(seq![v[i]] + v.subrange(i + 1, v.len() as int) =~= v.subrange(i, v.len() as int));
    } else {
        assert(v.subrange(i, v.len() as int) =~= Seq::<char>::empty());
    }
}

proof fn lemma_dedent_lines_plain(v: Seq<char>, i: int, end: int, prefix: Seq<char>)
    requires
        0 <= i <= end <= v.len(),
        spec_no_backslash(v, 0, v.len() as int),
    ensures
        spec_dedent_lines(v, i, end, prefix) matches Ok(x) ==> spec_no_backslash(
            x,
            0,
            x.len() as int,
        ),
    decreases end - i,
{
    let e = spec_next_lf(v, i, end);
    lemma_next_lf_bounds(v, i, end);
    let line = v.subrange(i, e);
    match spec_dedent_line(line, prefix) {
        Err(_) => {},
        Ok(l) => {
            assert(spec_no_backslash(l, 0, l.len() as int)) by {
                if !spec_all_whitespace(line) {
                    assert forall|k: int| 0 <= k < l.len() implies #[trigger] l[k] != '\\' by {
                        assert(l[k] == v[i + prefix.len() + k]);
                    }
                }
            }
            if !(e >= end || e < i) {
                lemma_dedent_lines_plain(v, e + 1, end, prefix);
                match spec_dedent_lines(v, e + 1, end, prefix) {
                    Ok(rest) => {
                        let x = l + seq!['\n'] + rest;
                        assert forall|k: int| 0 <= k < x.len() implies #[trigger] x[k] != '\\' by {
                            if k < l.len() {
                                assert(x[k] == l[k]);
                            } else if k > l.len() {
                                assert(x[k] == rest[k - l.len() - 1]);
                            }
                        }
                    },
                    Err(_) => {},
                }
            }
        },
    }
}

proof fn lemma_next_lf_bounds(v: Seq<char>, i: int, end: int)
    requires
        0 <= i <= end,
    ensures
        i <= spec_next_lf(v, i, end) <= end,
    decreases end - i,
{
    if i < end && v[i] != '\n' {
        lemma_next_lf_bounds(v, i + 1, end);
    }
}

/// Where its content holds no backslash, a multi-line string and a raw
/// multi-line string with the same content have the same value (or fail
/// with the same error): both normalise newlines and remove the indentation
/// in the same way.
pub proof fn lemma_multiline_without_backslash_is_raw(c: Seq<char>)
    requires
        spec_no_backslash(c, 0, c.len() as int),
    ensures
        spec_multiline_value(c) == spec_raw_multiline_value(c),
{
    let n = spec_normalize(c, 0);
    lemma_normalize_plain(c, 0);
    lemma_ws_escapes_plain(n, 0);
    assert(n.subrange(0, n.len() as int) =~= n);
    match spec_dedent(n) {
        Err(_) => {},
        Ok(d) => {
            if n.len() > 0 && n[0] == '\n' {
                match spec_last_lf(n, n.len() as int) {
                    Some(last) => {
                        if last != 0 && spec_all_whitespace(n.subrange(last + 1, n.len() as int)) {
                            lemma_last_lf_bounds(n, n.len() as int);
                            lemma_dedent_lines_plain(n, 1, last, n.subrange(last + 1, n.len() as int));
                        }
                    },
                    None => {},
                }
            }
            lemma_decode_without_backslash(d);
        },
    }
}

proof fn lemma_last_lf_bounds(v: Seq<char>, end: int)
    requires
        0 <= end <= v.len(),
    ensures
        spec_last_lf(v, end) matches Some(k) ==> 0 <= k < end,
    decreases end,
{
    if end > 0 && v[end - 1] != '\n' {
        lemma_last_lf_bounds(v, end - 1);
    }
}

/// A run of whitespace and newlines found from `i` ends between `i` and
/// `end`.
pub proof fn lemma_space_run_bounds(s: Seq<char>, i: int, end: int)
    requires
        i <= end,
    ensures
        i <= spec_space_run_end(s, i, end) <= end,
    decreases end - i,
{
    if i < end && spec_is_space(s[i]) {
        lemma_space_run_bounds(s, i + 1, end);
    }
}

/// A backslash followed by whitespace or newlines stands for nothing and
/// swallows all the whitespace and newlines that follow it: decoding from
/// the backslash is decoding from the first character after that run.
pub proof fn lemma_whitespace_escape_swallows_whitespace(s: Seq<char>, i: int, end: int)
    requires
        0 <= i,
        i + 1 < end <= s.len(),
        s[i] == '\\',
        spec_is_space(s[i + 1]),
    ensures
        spec_decode(s, i, end) == spec_decode(s, spec_space_run_end(s, i + 1, end), end),
{
    lemma_space_run_bounds(s, i + 1, end);
    let k = spec_space_run_end(s, i + 1, end);
    match spec_decode(s, k, end) {
        Ok(x) => {
            assert(Seq::<char>::empty() + x =~= x);
        },
        Err(_) => {},
    }
}

} // verus!
