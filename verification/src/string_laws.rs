//! Laws of string reading, stated over texts built for the purpose: a text
//! with its backslashes and quotes escaped reads back as the text, in a
//! quoted string and line by line in a multi-line string; a whitespace
//! escape joins two lines of a multi-line string; a `\u{..}` escape stands
//! for the code point that its hex digits write; and a raw string keeps its
//! content, a raw multi-line string its lines without their indentation,
//! whatever the line ends.

use vstd::prelude::*;
use crate::error::KdlError;
use crate::number::{spec_digit_char, spec_radix_digits};
use crate::lexer::{spec_hashes_at, spec_raw, spec_raw_ml_close};
use crate::strings::{
    spec_decode, spec_dedent, spec_is_hex, spec_is_scalar, spec_is_space, spec_multiline_value,
    spec_next_lf, spec_normalize, spec_quote_end, spec_quoted, spec_raw_multiline_value,
    spec_triple_at, spec_ws_escapes,
};
use crate::validation::{spec_is_newline, spec_is_whitespace};

verus! {

/// How the character `c` is written inside a quoted string: a backslash
/// and a quote behind a backslash, any other character as itself.
pub open spec fn spec_escape_char(c: char) -> Seq<char> {
    if c == '\\' || c == '"' {
        seq!['\\', c]
    } else {
        seq![c]
    }
}

/// The text `t` with each backslash and quote escaped.
pub open spec fn spec_escaped(t: Seq<char>) -> Seq<char>
    decreases t.len(),
{
    if t.len() == 0 {
        Seq::empty()
    } else {
        spec_escape_char(t[0]) + spec_escaped(t.drop_first())
    }
}

/// The escaped text `t`, standing between `pre` and `post`, decodes to `t`;
/// removing whitespace escapes leaves it as it is; and where a quote follows
/// it, that quote closes the string.
#[verifier::spinoff_prover]
#[verifier::rlimit(40)]
pub proof fn lemma_escaped_reads_back(pre: Seq<char>, t: Seq<char>, post: Seq<char>)
    ensures
        ({
            let s = pre + spec_escaped(t) + post;
            let i = pre.len() as int;
            let e = i + spec_escaped(t).len();
            &&& spec_decode(s, i, e) == Ok::<Seq<char>, KdlError>(t)
            &&& spec_ws_escapes(s, i) == spec_escaped(t) + spec_ws_escapes(s, e)
            &&& post.len() > 0 && post[0] == '"' ==> spec_quote_end(s, i) == Some(e)
        }),
    decreases t.len(),
{
    let s = pre + spec_escaped(t) + post;
    let i = pre.len() as int;
    if t.len() == 0 {
        assert(t =~= Seq::<char>::empty());
        assert(spec_escaped(t) =~= Seq::<char>::empty());
        assert(Seq::<char>::empty() + spec_ws_escapes(s, i) =~= spec_ws_escapes(s, i));
        if post.len() > 0 {
            assert(s[i] == post[0]);
        }
    } else {
        let c = t[0];
        let t2 = t.drop_first();
        let pre2 = pre + spec_escape_char(c);
        lemma_escaped_reads_back(pre2, t2, post);
        assert(spec_escaped(t) == spec_escape_char(c) + spec_escaped(t2));
        assert(s =~= pre2 + spec_escaped(t2) + post);
        let e = i + spec_escaped(t).len();
        let rest = spec_ws_escapes(s, e);
        assert(seq![c] + t2 =~= t);
        let i2 = pre2.len() as int;
        assert(spec_decode(s, i2, e) == Ok::<Seq<char>, KdlError>(t2));
        assert(spec_ws_escapes(s, i2) == spec_escaped(t2) + rest);
        if c == '\\' || c == '"' {
            assert(i2 == i + 2);
            assert(s[i] == '\\');
            assert(s[i + 1] == c);
            assert(!spec_is_space(c));
            assert(seq![s[i], s[i + 1]] + (spec_escaped(t2) + rest) =~= spec_escaped(t) + rest);
            assert(spec_ws_escapes(s, i) == seq![s[i], s[i + 1]] + spec_ws_escapes(s, i + 2));
            if c == '\\' {
                assert(crate::strings::spec_escape(s, i + 1, e) == Ok::<(Seq<char>, int), KdlError>(
                    (seq!['\\'], i + 2),
                ));
            } else {
                assert(crate::strings::spec_escape(s, i + 1, e) == Ok::<(Seq<char>, int), KdlError>(
                    (seq!['"'], i + 2),
                ));
            }
            assert(spec_decode(s, i, e) == Ok::<Seq<char>, KdlError>(seq![c] + t2));
            if post.len() > 0 && post[0] == '"' {
                assert(spec_quote_end(s, i) == spec_quote_end(s, i + 2));
            }
        } else {
            assert(i2 == i + 1);
            assert(s[i] == c);
            assert(seq![s[i]] + (spec_escaped(t2) + rest) =~= spec_escaped(t) + rest);
            assert(spec_decode(s, i, e) == Ok::<Seq<char>, KdlError>(seq![c] + t2));
            if post.len() > 0 && post[0] == '"' {
                assert(spec_quote_end(s, i) == spec_quote_end(s, i + 1));
            }
        }
    }
}

/// A quoted string holding any text `t` with its backslashes and quotes
/// escaped reads back as `t`: the first quote not paired with a backslash
/// closes it, and its value is `t`.
pub proof fn lemma_escaped_quoted_string_reads_back(t: Seq<char>)
    ensures
        ({
            let s = seq!['"'] + spec_escaped(t) + seq!['"'];
            spec_quoted(s, 1) == Ok::<(Seq<char>, int), KdlError>((t, s.len() as int))
        }),
{
    lemma_escaped_reads_back(seq!['"'], t, seq!['"']);
}

/// Removing the whitespace escapes of a multi-line string leaves a text
/// whose every backslash is escaped as it is: an escaped backslash never
/// starts a whitespace escape, whatever follows it.
pub proof fn lemma_escaped_backslashes_are_no_whitespace_escapes(t: Seq<char>)
    ensures
        spec_ws_escapes(spec_escaped(t), 0) == spec_escaped(t),
{
    let e = spec_escaped(t);
    lemma_escaped_reads_back(Seq::empty(), t, Seq::empty());
    assert(Seq::<char>::empty() + e + Seq::<char>::empty() =~= e);
    assert(e + Seq::<char>::empty() =~= e);
}

proof fn lemma_escaped_line(t: Seq<char>)
    requires
        forall|k: int| 0 <= k < t.len() ==> !spec_is_newline(#[trigger] t[k]),
    ensures
        forall|k: int|
            0 <= k < spec_escaped(t).len() ==> !spec_is_newline(#[trigger] spec_escaped(t)[k]),
        !spec_all_ws(t) ==> !spec_all_ws(spec_escaped(t)),
    decreases t.len(),
{
    if t.len() > 0 {
        let t2 = t.drop_first();
        assert forall|k: int| 0 <= k < t2.len() implies !spec_is_newline(#[trigger] t2[k]) by {
            assert(t2[k] == t[k + 1]);
        }
        lemma_escaped_line(t2);
        let a = spec_escape_char(t[0]);
        let e = spec_escaped(t);
        assert(e == a + spec_escaped(t2));
        assert(!spec_is_newline(t[0]));
        assert forall|k: int| 0 <= k < e.len() implies !spec_is_newline(#[trigger] e[k]) by {
            if k >= a.len() {
                assert(e[k] == spec_escaped(t2)[k - a.len()]);
            }
        }
        if !spec_all_ws(t) && spec_all_ws(e) {
            assert(spec_is_whitespace(e[0]));
            assert(spec_is_whitespace(t[0]));
            assert forall|k: int| 0 <= k < spec_escaped(t2).len() implies #[trigger] spec_is_whitespace(
                spec_escaped(t2)[k],
            ) by {
                assert(e[k + a.len()] == spec_escaped(t2)[k]);
            }
            assert forall|k: int| 0 <= k < t.len() implies #[trigger] spec_is_whitespace(t[k]) by {
                if k > 0 {
                    assert(t[k] == t2[k - 1]);
                }
            }
        }
    }
}

/// Whether every character of `x` is whitespace.
pub open spec fn spec_all_ws(x: Seq<char>) -> bool {
    forall|k: int| 0 <= k < x.len() ==> #[trigger] spec_is_whitespace(x[k])
}

proof fn lemma_normalize_lf_only(v: Seq<char>, i: int)
    requires
        0 <= i <= v.len(),
        forall|k: int| 0 <= k < v.len() && spec_is_newline(#[trigger] v[k]) ==> v[k] == '\n',
    ensures
        spec_normalize(v, i) == v.subrange(i, v.len() as int),
    decreases v.len() - i,
{
    if i < v.len() {
        lemma_normalize_lf_only(v, i + 1);
        assert(seq![v[i]] + v.subrange(i + 1, v.len() as int) =~= v.subrange(i, v.len() as int));
        if spec_is_newline(v[i]) {
            assert(v[i] == '\n');
        }
    } else {
        assert(v.subrange(i, v.len() as int) =~= Seq::<char>::empty());
    }
}

proof fn lemma_hex_digit_char(n: int, upper: bool)
    requires
        0 <= n < 16,
    ensures
        spec_is_hex(spec_digit_char(n, upper)),
        crate::strings::spec_hex_val(spec_digit_char(n, upper)) == n,
        spec_digit_char(n, upper) != '}',
{
    crate::number::lemma_digit_char(n, upper);
}

proof fn lemma_hex_digit_at(v: nat, upper: bool, j: int)
    requires
        0 <= j < spec_radix_digits(v, 16, upper).len(),
    ensures
        spec_is_hex(spec_radix_digits(v, 16, upper)[j]),
        spec_radix_digits(v, 16, upper)[j] != '}',
    decreases v,
{
    let d = spec_radix_digits(v, 16, upper);
    if v < 16 {
        lemma_hex_digit_char(v as int, upper);
    } else {
        let f = spec_radix_digits(v / 16, 16, upper);
        let c = spec_digit_char((v % 16) as int, upper);
        assert(d == f.push(c));
        if j < f.len() {
            lemma_hex_digit_at(v / 16, upper, j);
            assert(d[j] == f[j]);
        } else {
            lemma_hex_digit_char((v % 16) as int, upper);
            assert(d[j] == c);
        }
    }
}

proof fn lemma_hex_digits(v: nat, upper: bool, k: nat)
    requires
        1 <= k,
        v < crate::strings::pow16(k),
    ensures
        1 <= spec_radix_digits(v, 16, upper).len() <= k,
        crate::strings::spec_hex_value(spec_radix_digits(v, 16, upper)) == v,
    decreases v,
{
    let d = spec_radix_digits(v, 16, upper);
    if v < 16 {
        lemma_hex_digit_char(v as int, upper);
        assert(d.len() == 1);
        assert(d.drop_last() =~= Seq::<char>::empty());
        assert(d.last() == spec_digit_char(v as int, upper));
        assert(crate::strings::spec_hex_value(d) == crate::strings::spec_hex_value(d.drop_last())
            * 16 + crate::strings::spec_hex_val(d.last()));
    } else {
        let p = crate::strings::pow16((k - 1) as nat);
        if k == 1 {
            assert(crate::strings::pow16(1) == 16);
        } else {
            assert(v / 16 < p);
            lemma_hex_digits(v / 16, upper, (k - 1) as nat);
        }
        lemma_hex_digit_char((v % 16) as int, upper);
        let f = spec_radix_digits(v / 16, 16, upper);
        assert(d == f.push(spec_digit_char((v % 16) as int, upper)));
        assert(d.len() == f.len() + 1);
        assert(d.drop_last() =~= f);
        assert(d.last() == spec_digit_char((v % 16) as int, upper));
        assert(crate::strings::spec_hex_value(d) == crate::strings::spec_hex_value(f) * 16
            + crate::strings::spec_hex_val(d.last()));
        assert(v == (v / 16) * 16 + v % 16);
    }
}

proof fn lemma_hex_run(s: Seq<char>, i: int, end: int, h: int)
    requires
        0 <= i <= h < end <= s.len(),
        forall|k: int| i <= k < h ==> #[trigger] spec_is_hex(s[k]),
        !spec_is_hex(s[h]),
    ensures
        crate::strings::spec_hex_run_end(s, i, end) == h,
    decreases h - i,
{
    if i < h {
        lemma_hex_run(s, i + 1, end, h);
    }
}

proof fn lemma_hex_value_leading_zeros(z: Seq<char>, d: Seq<char>)
    requires
        forall|k: int| 0 <= k < z.len() ==> #[trigger] z[k] == '0',
    ensures
        crate::strings::spec_hex_value(z + d) == crate::strings::spec_hex_value(d),
    decreases d.len() + z.len(),
{
    if d.len() > 0 {
        lemma_hex_value_leading_zeros(z, d.drop_last());
        assert((z + d).drop_last() =~= z + d.drop_last());
        assert((z + d).last() == d.last());
    } else if z.len() > 0 {
        assert(z + d =~= z);
        assert forall|k: int| 0 <= k < z.drop_last().len() implies #[trigger] z.drop_last()[k] == '0' by {
            assert(z.drop_last()[k] == z[k]);
        }
        lemma_hex_value_leading_zeros(z.drop_last(), d);
        assert(z.drop_last() + d =~= z.drop_last());
        assert(z.last() == '0');
    } else {
        assert(z + d =~= d);
    }
}

/// A `\u{..}` escape stands for the code point that its digits write in
/// hexadecimal, `a`..`f` and `A`..`F` alike being worth ten to fifteen, and
/// leading zeros being worth nothing: for every Unicode scalar value `v`,
/// the escape holding `zeros` zeros and then `v` written in hex digits (of
/// either case), six digits at most, decodes to the one character whose
/// code point is `v`.
pub proof fn lemma_unicode_escape_is_hexadecimal(v: nat, upper: bool, zeros: nat)
    requires
        spec_is_scalar(v as int),
        zeros + spec_radix_digits(v, 16, upper).len() <= 6,
    ensures
        ({
            let s = seq!['\\', 'u', '{'] + Seq::new(zeros, |k: int| '0') + spec_radix_digits(
                v,
                16,
                upper,
            ) + seq!['}'];
            spec_decode(s, 0, s.len() as int) == Ok::<Seq<char>, KdlError>(seq![v as char])
        }),
        (v as char) as int == v,
{
    let z = Seq::new(zeros, |k: int| '0');
    let d = spec_radix_digits(v, 16, upper);
    let zd = z + d;
    let s = seq!['\\', 'u', '{'] + z + d + seq!['}'];
    assert(s =~= seq!['\\', 'u', '{'] + zd + seq!['}']);
    let n = s.len() as int;
    assert(crate::strings::pow16(6) == 0x1000000) by {
        reveal_with_fuel(crate::strings::pow16, 7);
    }
    lemma_hex_digits(v, upper, 6);
    lemma_hex_value_leading_zeros(z, d);
    let h: int = 3 + zd.len() as int;
    assert(s[h] == '}');
    assert(s[0] == '\\' && s[1] == 'u' && s[2] == '{');
    assert forall|k: int| 3 <= k < h implies #[trigger] spec_is_hex(s[k]) by {
        assert(s[k] == zd[k - 3]);
        if k - 3 >= zeros {
            lemma_hex_digit_at(v, upper, k - 3 - zeros);
            assert(zd[k - 3] == d[k - 3 - zeros]);
        } else {
            assert(zd[k - 3] == '0');
        }
    }
    lemma_hex_run(s, 3, n, h);
    assert(s.subrange(3, h) =~= zd);
    assert(crate::strings::spec_unicode_escape(s, 1, n) == Ok::<(Seq<char>, int), KdlError>(
        (seq![v as char], n),
    ));
    assert(crate::strings::spec_escape(s, 1, n) == Ok::<(Seq<char>, int), KdlError>(
        (seq![v as char], n),
    ));
    assert(spec_decode(s, n, n) == Ok::<Seq<char>, KdlError>(Seq::empty()));
    assert(seq![v as char] + Seq::<char>::empty() =~= seq![v as char]);
}

/// A run of `h` hashes.
pub open spec fn spec_hashes(h: nat) -> Seq<char> {
    Seq::new(h, |k: int| '#')
}

/// The raw multi-line string with `h` hashes and content `c`:
/// `#"""c"""#` for one hash.
pub open spec fn spec_raw_multiline_literal(c: Seq<char>, h: nat) -> Seq<char> {
    spec_hashes(h) + seq!['"', '"', '"'] + c + seq!['"', '"', '"'] + spec_hashes(h)
}

/// The text `c` with each line feed written as a carriage return and a line
/// feed.
pub open spec fn spec_crlf(c: Seq<char>) -> Seq<char>
    decreases c.len(),
{
    if c.len() == 0 {
        Seq::empty()
    } else {
        (if c[0] == '\n' {
            seq!['\r', '\n']
        } else {
            seq![c[0]]
        }) + spec_crlf(c.drop_first())
    }
}

/// Whether the only line break that `c` holds is the line feed.
pub open spec fn spec_lf_only(c: Seq<char>) -> bool {
    forall|k: int| 0 <= k < c.len() && spec_is_newline(#[trigger] c[k]) ==> c[k] == '\n'
}

proof fn lemma_no_close_inside(c: Seq<char>, i: int, h: int)
    requires
        0 <= i <= c.len(),
        spec_raw_ml_close(c, i, h) is None,
    ensures
        forall|k: int|
            i <= k < c.len() ==> !(#[trigger] spec_triple_at(c, k) && spec_hashes_at(c, k + 3, h)),
    decreases c.len() - i,
{
    if i < c.len() {
        lemma_no_close_inside(c, i + 1, h);
    }
}

proof fn lemma_close_at_end(c: Seq<char>, h: nat, i: int)
    requires
        h >= 1,
        h + 3 <= i <= h + 3 + c.len(),
        forall|k: int| 0 <= k < c.len() ==> !(#[trigger] spec_triple_at(c, k) && spec_hashes_at(c, k + 3, h as int)),
    ensures
        spec_raw_ml_close(spec_raw_multiline_literal(c, h), i, h as int) == Some(h + 3 + c.len() as int),
    decreases h + 3 + c.len() - i,
{
    let s = spec_raw_multiline_literal(c, h);
    let b: int = h as int + 3;
    let ce: int = b + c.len() as int;
    let hi = h as int;
    assert(s.len() == ce + 3 + hi);
    assert forall|k: int| b <= k < ce implies s[k] == #[trigger] c[k - b] by {}
    assert(s[ce] == '"' && s[ce + 1] == '"' && s[ce + 2] == '"');
    assert forall|k: int| ce + 3 <= k < ce + 3 + hi implies #[trigger] s[k] == '#' by {}
    if i < ce {
        lemma_close_at_end(c, h, i + 1);
        if spec_triple_at(s, i) && spec_hashes_at(s, i + 3, h as int) {
            if i + 3 + hi <= ce {
                assert(spec_triple_at(c, i - b)) by {
                    assert(s[i] == c[i - b] && s[i + 1] == c[i + 1 - b] && s[i + 2] == c[i + 2 - b]);
                }
                assert(spec_hashes_at(c, i - b + 3, h as int)) by {
                    assert forall|k: int| i - b + 3 <= k < i - b + 3 + hi implies #[trigger] c[k] == '#' by {
                        assert(s[k + b] == '#');
                    }
                }
                assert(false);
            } else if ce < i + 3 {
                assert(s[i + 3] == '#');
            } else {
                assert(s[ce] == '#');
            }
        }
    } else {
        assert(spec_hashes_at(s, ce + 3, h as int));
    }
}

/// A raw multi-line string in a document has the value that
/// `process_raw_multiline_string` gives for its content: where the content
/// `c` holds no closing `"""` with `h` hashes, reading the literal gives
/// that value (or that error) and ends after the literal.
pub proof fn lemma_raw_multiline_literal_value(c: Seq<char>, h: nat)
    requires
        h >= 1,
        spec_raw_ml_close(c, 0, h as int) is None,
    ensures
        spec_raw(spec_raw_multiline_literal(c, h), 0, true) == match spec_raw_multiline_value(c) {
            Ok(v) => Ok((v, spec_raw_multiline_literal(c, h).len() as int)),
            Err(e) => Err::<(Seq<char>, int), KdlError>(e),
        },
{
    let s = spec_raw_multiline_literal(c, h);
    let hi = h as int;
    lemma_no_close_inside(c, 0, hi);
    lemma_close_at_end(c, h, hi + 3);
    assert forall|k: int| 0 <= k < hi implies #[trigger] s[k] == '#' by {}
    assert(s[hi] == '"' && s[hi + 1] == '"' && s[hi + 2] == '"');
    lemma_hash_run(s, 0, hi);
    assert(s.subrange(hi + 3, hi + 3 + c.len()) =~= c);
}

proof fn lemma_hash_run(s: Seq<char>, i: int, h: int)
    requires
        0 <= i <= h < s.len(),
        forall|k: int| i <= k < h ==> #[trigger] s[k] == '#',
        s[h] != '#',
    ensures
        crate::lexer::spec_hash_end(s, i) == h,
    decreases h - i,
{
    if i < h {
        lemma_hash_run(s, i + 1, h);
    }
}

proof fn lemma_normalize_crlf(pre: Seq<char>, c: Seq<char>)
    requires
        spec_lf_only(c),
    ensures
        spec_normalize(pre + spec_crlf(c), pre.len() as int) == c,
    decreases c.len(),
{
    let s = pre + spec_crlf(c);
    let i = pre.len() as int;
    if c.len() == 0 {
        assert(c =~= Seq::<char>::empty());
    } else {
        let c2 = c.drop_first();
        let a = if c[0] == '\n' {
            seq!['\r', '\n']
        } else {
            seq![c[0]]
        };
        assert(spec_lf_only(c2)) by {
            assert forall|k: int| 0 <= k < c2.len() && spec_is_newline(#[trigger] c2[k]) implies c2[k] == '\n' by {
                assert(c2[k] == c[k + 1]);
            }
        }
        lemma_normalize_crlf(pre + a, c2);
        assert(s =~= (pre + a) + spec_crlf(c2));
        assert(seq![c[0]] + c2 =~= c);
        if c[0] == '\n' {
            assert(s[i] == '\r' && s[i + 1] == '\n');
        } else {
            assert(s[i] == c[0]);
            if spec_is_newline(c[0]) {
                assert(c[0] == '\n');
            }
            if c[0] == '\r' {
                assert(spec_is_newline(c[0]));
            }
        }
    }
}

/// A raw multi-line string keeps its value when its line feeds are written
/// as carriage return and line feed: where the content `c` breaks lines
/// with line feeds only, the literal with content `c` and the literal with
/// every line feed of `c` written CRLF read the same value (or fail alike).
pub proof fn lemma_raw_multiline_crlf_reads_as_lf(c: Seq<char>, h: nat)
    requires
        h >= 1,
        spec_lf_only(c),
        spec_raw_ml_close(c, 0, h as int) is None,
        spec_raw_ml_close(spec_crlf(c), 0, h as int) is None,
    ensures
        match (
            spec_raw(spec_raw_multiline_literal(spec_crlf(c), h), 0, true),
            spec_raw(spec_raw_multiline_literal(c, h), 0, true),
        ) {
            (Ok((a, _)), Ok((b, _))) => a == b,
            (Err(a), Err(b)) => a == b,
            _ => false,
        },
        spec_raw_multiline_value(spec_crlf(c)) == spec_raw_multiline_value(c),
{
    lemma_raw_multiline_literal_value(c, h);
    lemma_raw_multiline_literal_value(spec_crlf(c), h);
    lemma_normalize_crlf(Seq::empty(), c);
    assert(Seq::<char>::empty() + spec_crlf(c) =~= spec_crlf(c));
    lemma_normalize_lf_only(c, 0);
    assert(c.subrange(0, c.len() as int) =~= c);
}

/// How the line `x` is written in a multi-line string: with its backslashes
/// and quotes escaped (`escaped`), or as it is (in a raw one).
pub open spec fn spec_line_text(x: Seq<char>, escaped: bool) -> Seq<char> {
    if escaped {
        spec_escaped(x)
    } else {
        x
    }
}

/// The lines `xs`, each indented by `p`, written as `spec_line_text` says,
/// and ended by a line feed.
pub open spec fn spec_indented_lines(xs: Seq<Seq<char>>, p: Seq<char>, escaped: bool) -> Seq<char>
    decreases xs.len(),
{
    if xs.len() == 0 {
        Seq::empty()
    } else {
        p + spec_line_text(xs[0], escaped) + seq!['\n'] + spec_indented_lines(
            xs.drop_first(),
            p,
            escaped,
        )
    }
}

/// The lines `xs` joined by line feeds.
pub open spec fn spec_join_lines(xs: Seq<Seq<char>>) -> Seq<char>
    decreases xs.len(),
{
    if xs.len() == 0 {
        Seq::empty()
    } else if xs.len() == 1 {
        xs[0]
    } else {
        xs[0] + seq!['\n'] + spec_join_lines(xs.drop_first())
    }
}

/// The lines `xs`, each written as `spec_line_text` says, joined by line
/// feeds.
pub open spec fn spec_join_line_texts(xs: Seq<Seq<char>>, escaped: bool) -> Seq<char>
    decreases xs.len(),
{
    if xs.len() == 0 {
        Seq::empty()
    } else if xs.len() == 1 {
        spec_line_text(xs[0], escaped)
    } else {
        spec_line_text(xs[0], escaped) + seq!['\n'] + spec_join_line_texts(xs.drop_first(), escaped)
    }
}

proof fn lemma_line_text(t: Seq<char>, escaped: bool)
    requires
        forall|k: int| 0 <= k < t.len() ==> !spec_is_newline(#[trigger] t[k]),
    ensures
        forall|k: int|
            0 <= k < spec_line_text(t, escaped).len() ==> !spec_is_newline(
                #[trigger] spec_line_text(t, escaped)[k],
            ),
        !spec_all_ws(t) ==> !spec_all_ws(spec_line_text(t, escaped)),
        t.len() == 0 ==> spec_line_text(t, escaped).len() == 0,
{
    if escaped {
        lemma_escaped_line(t);
        if t.len() == 0 {
            assert(spec_escaped(t) =~= Seq::<char>::empty());
        }
    }
}

/// Whether the lines `xs` hold no line break, and each is empty or holds
/// something besides whitespace.
pub open spec fn spec_plain_lines(xs: Seq<Seq<char>>) -> bool {
    &&& forall|i: int, k: int|
        0 <= i < xs.len() && 0 <= k < xs[i].len() ==> !spec_is_newline(#[trigger] xs[i][k])
    &&& forall|i: int| 0 <= i < xs.len() ==> (#[trigger] xs[i]).len() == 0 || !spec_all_ws(xs[i])
}

proof fn lemma_plain_lines_rest(xs: Seq<Seq<char>>)
    requires
        xs.len() > 0,
        spec_plain_lines(xs),
    ensures
        spec_plain_lines(xs.drop_first()),
        forall|k: int| 0 <= k < xs[0].len() ==> !spec_is_newline(#[trigger] xs[0][k]),
        xs[0].len() == 0 || !spec_all_ws(xs[0]),
{
    let r = xs.drop_first();
    assert forall|i: int, k: int| 0 <= i < r.len() && 0 <= k < r[i].len() implies !spec_is_newline(
        #[trigger] r[i][k],
    ) by {
        assert(r[i] == xs[i + 1]);
        assert(!spec_is_newline(xs[i + 1][k]));
    }
    assert forall|i: int| 0 <= i < r.len() implies (#[trigger] r[i]).len() == 0 || !spec_all_ws(r[i]) by {
        assert(r[i] == xs[i + 1]);
    }
    assert forall|k: int| 0 <= k < xs[0].len() implies !spec_is_newline(#[trigger] xs[0][k]) by {
        assert(!spec_is_newline(xs[0][k]));
    }
}

proof fn lemma_plain_ws(pre: Seq<char>, q: Seq<char>, post: Seq<char>)
    requires
        forall|k: int| 0 <= k < q.len() ==> #[trigger] q[k] != '\\',
    ensures
        spec_ws_escapes(pre + q + post, pre.len() as int) == q + spec_ws_escapes(
            pre + q + post,
            pre.len() + q.len() as int,
        ),
    decreases q.len(),
{
    let s = pre + q + post;
    let i = pre.len() as int;
    if q.len() == 0 {
        assert(q =~= Seq::<char>::empty());
        assert(Seq::<char>::empty() + spec_ws_escapes(s, i) =~= spec_ws_escapes(s, i));
    } else {
        let pre2 = pre + seq![q[0]];
        let q2 = q.drop_first();
        assert forall|k: int| 0 <= k < q2.len() implies #[trigger] q2[k] != '\\' by {
            assert(q2[k] == q[k + 1]);
        }
        lemma_plain_ws(pre2, q2, post);
        assert(s =~= pre2 + q2 + post);
        assert(s[i] == q[0]);
        assert(q[0] != '\\');
        let r = spec_ws_escapes(s, i + q.len());
        assert(seq![q[0]] + (q2 + r) =~= q + r);
    }
}

#[verifier::spinoff_prover]
#[verifier::rlimit(40)]
proof fn lemma_lines_ws(pre: Seq<char>, xs: Seq<Seq<char>>, p: Seq<char>, post: Seq<char>)
    requires
        forall|k: int| 0 <= k < p.len() ==> #[trigger] p[k] != '\\',
    ensures
        ({
            let l = spec_indented_lines(xs, p, true);
            let s = pre + l + post;
            spec_ws_escapes(s, pre.len() as int) == l + spec_ws_escapes(s, pre.len() + l.len() as int)
        }),
    decreases xs.len(),
{
    let l = spec_indented_lines(xs, p, true);
    let s = pre + l + post;
    let i = pre.len() as int;
    if xs.len() == 0 {
        assert(l =~= Seq::<char>::empty());
        assert(Seq::<char>::empty() + spec_ws_escapes(s, i) =~= spec_ws_escapes(s, i));
    } else {
        let e = spec_escaped(xs[0]);
        let rest = spec_indented_lines(xs.drop_first(), p, true);
        let nl = seq!['\n'];
        assert(l == p + e + nl + rest);
        assert(s =~= pre + p + (e + nl + rest + post));
        lemma_plain_ws(pre, p, e + nl + rest + post);
        assert(s =~= (pre + p) + e + (nl + rest + post));
        lemma_escaped_reads_back(pre + p, xs[0], nl + rest + post);
        assert(s =~= (pre + p + e) + nl + (rest + post));
        assert(nl[0] != '\\');
        lemma_plain_ws(pre + p + e, nl, rest + post);
        assert(s =~= (pre + p + e + nl) + rest + post);
        lemma_lines_ws(pre + p + e + nl, xs.drop_first(), p, post);
        let z = spec_ws_escapes(s, i + l.len());
        assert(p + (e + (nl + (rest + z))) =~= l + z);
    }
}

#[verifier::spinoff_prover]
#[verifier::rlimit(40)]
proof fn lemma_escaped_decode_prefix(pre: Seq<char>, t: Seq<char>, post: Seq<char>, end: int)
    requires
        pre.len() + spec_escaped(t).len() <= end <= pre.len() + spec_escaped(t).len() + post.len(),
    ensures
        spec_decode(pre + spec_escaped(t) + post, pre.len() as int, end) == crate::strings::prepend(
            t,
            spec_decode(pre + spec_escaped(t) + post, pre.len() + spec_escaped(t).len() as int, end),
        ),
    decreases t.len(),
{
    let s = pre + spec_escaped(t) + post;
    let i = pre.len() as int;
    let e = i + spec_escaped(t).len();
    if t.len() == 0 {
        assert(t =~= Seq::<char>::empty());
        assert(spec_escaped(t) =~= Seq::<char>::empty());
        match spec_decode(s, i, end) {
            Ok(x) => {
                assert(Seq::<char>::empty() + x =~= x);
            },
            Err(_) => {},
        }
    } else {
        let c = t[0];
        let t2 = t.drop_first();
        let pre2 = pre + spec_escape_char(c);
        lemma_escaped_decode_prefix(pre2, t2, post, end);
        assert(spec_escaped(t) == spec_escape_char(c) + spec_escaped(t2));
        assert(s =~= pre2 + spec_escaped(t2) + post);
        assert(seq![c] + t2 =~= t);
        let r = spec_decode(s, e, end);
        match r {
            Ok(x) => {
                assert(seq![c] + (t2 + x) =~= t + x);
            },
            Err(_) => {},
        }
        if c == '\\' || c == '"' {
            assert(s[i] == '\\');
            assert(s[i + 1] == c);
            if c == '\\' {
                assert(crate::strings::spec_escape(s, i + 1, end) == Ok::<(Seq<char>, int), KdlError>(
                    (seq!['\\'], i + 2),
                ));
            } else {
                assert(crate::strings::spec_escape(s, i + 1, end) == Ok::<(Seq<char>, int), KdlError>(
                    (seq!['"'], i + 2),
                ));
            }
        } else {
            assert(s[i] == c);
        }
    }
}

#[verifier::spinoff_prover]
#[verifier::rlimit(40)]
proof fn lemma_decode_escaped_lines(pre: Seq<char>, xs: Seq<Seq<char>>, post: Seq<char>)
    requires
        xs.len() > 0,
    ensures
        ({
            let d = spec_join_line_texts(xs, true);
            spec_decode(pre + d + post, pre.len() as int, pre.len() + d.len() as int) == Ok::<
                Seq<char>,
                KdlError,
            >(spec_join_lines(xs))
        }),
    decreases xs.len(),
{
    let d = spec_join_line_texts(xs, true);
    let s = pre + d + post;
    let i = pre.len() as int;
    let end = i + d.len();
    let e = spec_escaped(xs[0]);
    if xs.len() == 1 {
        assert(d == e);
        lemma_escaped_reads_back(pre, xs[0], post);
    } else {
        let nl = seq!['\n'];
        let rest = spec_join_line_texts(xs.drop_first(), true);
        assert(d == e + nl + rest);
        assert(s =~= pre + e + (nl + rest + post));
        lemma_escaped_decode_prefix(pre, xs[0], nl + rest + post, end);
        let j = i + e.len();
        assert(s[j] == '\n');
        assert(s =~= (pre + e + nl) + rest + post);
        lemma_decode_escaped_lines(pre + e + nl, xs.drop_first(), post);
        let x = spec_join_lines(xs.drop_first());
        assert(spec_decode(s, j + 1, end) == Ok::<Seq<char>, KdlError>(x));
        assert(spec_decode(s, j, end) == Ok::<Seq<char>, KdlError>(seq!['\n'] + x));
        assert(xs[0] + (seq!['\n'] + x) =~= spec_join_lines(xs));
    }
}

proof fn lemma_next_lf_at(v: Seq<char>, i: int, end: int, m: int)
    requires
        i <= m <= end,
        forall|k: int| i <= k < m ==> #[trigger] v[k] != '\n',
        m == end || v[m] == '\n',
    ensures
        spec_next_lf(v, i, end) == m,
    decreases m - i,
{
    if i < m {
        lemma_next_lf_at(v, i + 1, end, m);
    }
}

proof fn lemma_last_lf_at(v: Seq<char>, end: int, m: int)
    requires
        0 <= m < end <= v.len(),
        v[m] == '\n',
        forall|k: int| m < k < end ==> #[trigger] v[k] != '\n',
    ensures
        crate::strings::spec_last_lf(v, end) == Some(m),
    decreases end - m,
{
    if end - 1 > m {
        lemma_last_lf_at(v, end - 1, m);
    }
}

#[verifier::spinoff_prover]
#[verifier::rlimit(40)]
proof fn lemma_dedent_lines_indented(
    pre: Seq<char>,
    xs: Seq<Seq<char>>,
    p: Seq<char>,
    post: Seq<char>,
    escaped: bool,
)
    requires
        xs.len() > 0,
        spec_all_ws(p),
        spec_plain_lines(xs),
    ensures
        ({
            let l = spec_indented_lines(xs, p, escaped);
            crate::strings::spec_dedent_lines(
                pre + l + post,
                pre.len() as int,
                pre.len() + l.len() - 1,
                p,
            ) == Ok::<Seq<char>, KdlError>(spec_join_line_texts(xs, escaped))
        }),
    decreases xs.len(),
{
    let l = spec_indented_lines(xs, p, escaped);
    let v = pre + l + post;
    let i = pre.len() as int;
    let end = i + l.len() - 1;
    let e = spec_line_text(xs[0], escaped);
    let nl = seq!['\n'];
    let rest = spec_indented_lines(xs.drop_first(), p, escaped);
    lemma_plain_lines_rest(xs);
    lemma_line_text(xs[0], escaped);
    assert(l == p + e + nl + rest);
    assert(v =~= pre + p + e + nl + rest + post);
    let m = i + p.len() + e.len();
    assert forall|k: int| i <= k < m implies #[trigger] v[k] != '\n' by {
        if k < i + p.len() {
            assert(v[k] == p[k - i]);
            assert(spec_is_whitespace(p[k - i]));
        } else {
            assert(v[k] == e[k - i - p.len()]);
            assert(!spec_is_newline(e[k - i - p.len()]));
        }
    }
    assert(v[m] == '\n');
    lemma_next_lf_at(v, i, end, m);
    let line = v.subrange(i, m);
    assert(line =~= p + e);
    assert(line.subrange(0, p.len() as int) =~= p);
    assert(line.subrange(p.len() as int, line.len() as int) =~= e);
    if crate::strings::spec_all_whitespace(line) {
        assert(spec_all_ws(e)) by {
            assert forall|k: int| 0 <= k < e.len() implies #[trigger] spec_is_whitespace(e[k]) by {
                assert(line[k + p.len()] == e[k]);
            }
        }
        assert(xs[0].len() == 0);
        assert(e =~= Seq::<char>::empty());
    }
    assert(crate::strings::spec_dedent_line(line, p) == Ok::<Seq<char>, KdlError>(e));
    if xs.len() == 1 {
        assert(rest =~= Seq::<char>::empty());
        assert(m == end);
    } else {
        assert(rest.len() > 0);
        assert(v =~= (pre + p + e + nl) + rest + post);
        lemma_dedent_lines_indented(pre + p + e + nl, xs.drop_first(), p, post, escaped);
        assert(e + nl + spec_join_line_texts(xs.drop_first(), escaped) == spec_join_line_texts(xs, escaped));
    }
}

proof fn lemma_indented_lines_lf(xs: Seq<Seq<char>>, p: Seq<char>, escaped: bool)
    requires
        spec_all_ws(p),
        spec_plain_lines(xs),
    ensures
        spec_lf_only(spec_indented_lines(xs, p, escaped)),
        xs.len() > 0 ==> spec_indented_lines(xs, p, escaped).len() > 0 && spec_indented_lines(xs, p, escaped).last()
            == '\n',
    decreases xs.len(),
{
    if xs.len() > 0 {
        let l = spec_indented_lines(xs, p, escaped);
        let e = spec_line_text(xs[0], escaped);
        let rest = spec_indented_lines(xs.drop_first(), p, escaped);
        lemma_plain_lines_rest(xs);
        lemma_line_text(xs[0], escaped);
        lemma_indented_lines_lf(xs.drop_first(), p, escaped);
        assert(l == p + e + seq!['\n'] + rest);
        let a = p.len() as int;
        let b = a + e.len();
        assert forall|k: int| 0 <= k < l.len() && spec_is_newline(#[trigger] l[k]) implies l[k] == '\n' by {
            if k < a {
                assert(l[k] == p[k]);
                assert(spec_is_whitespace(p[k]));
                crate::validation::lemma_character_classes_disjoint(p[k]);
            } else if k < b {
                assert(l[k] == e[k - a]);
            } else if k > b {
                assert(l[k] == rest[k - b - 1]);
            }
        }
    }
}

/// The content of a multi-line string made of the lines `xs`, indented by
/// the whitespace `p` (also the indentation of the closing quotes): its line
/// breaks are line feeds already, and removing the indentation gives the
/// lines as written, joined by line feeds.
#[verifier::spinoff_prover]
#[verifier::rlimit(40)]
proof fn lemma_indented_content(xs: Seq<Seq<char>>, p: Seq<char>, escaped: bool)
    requires
        spec_all_ws(p),
        spec_plain_lines(xs),
    ensures
        ({
            let c = seq!['\n'] + spec_indented_lines(xs, p, escaped) + p;
            &&& spec_normalize(c, 0) == c
            &&& spec_dedent(c) == Ok::<Seq<char>, KdlError>(spec_join_line_texts(xs, escaped))
        }),
{
    let l = spec_indented_lines(xs, p, escaped);
    let nl = seq!['\n'];
    let c = nl + l + p;
    let n = c.len() as int;
    lemma_indented_lines_lf(xs, p, escaped);
    assert(spec_lf_only(c)) by {
        assert forall|k: int| 0 <= k < n && spec_is_newline(#[trigger] c[k]) implies c[k] == '\n' by {
            if 1 <= k < 1 + l.len() {
                assert(c[k] == l[k - 1]);
            } else if k >= 1 + l.len() {
                assert(c[k] == p[k - 1 - l.len()]);
                assert(spec_is_whitespace(p[k - 1 - l.len()]));
                crate::validation::lemma_character_classes_disjoint(p[k - 1 - l.len()]);
            }
        }
    }
    lemma_normalize_lf_only(c, 0);
    assert(c.subrange(0, n) =~= c);
    let last = l.len() as int;
    assert(c[last] == '\n') by {
        if l.len() > 0 {
            assert(c[last] == l[l.len() - 1]);
        }
    }
    assert forall|k: int| last < k < n implies #[trigger] c[k] != '\n' by {
        assert(c[k] == p[k - 1 - l.len()]);
        assert(spec_is_whitespace(p[k - 1 - l.len()]));
    }
    lemma_last_lf_at(c, n, last);
    assert(c.subrange(last + 1, n) =~= p);
    if xs.len() == 0 {
        assert(l =~= Seq::<char>::empty());
        assert(spec_join_line_texts(xs, escaped) =~= Seq::<char>::empty());
    } else {
        lemma_dedent_lines_indented(nl, xs, p, p, escaped);
    }
}

/// A multi-line string keeps its escaped backslashes and its line breaks:
/// lines `xs` holding no line break, each indented by the whitespace `p`
/// (the indentation of the closing quotes) with its backslashes and quotes
/// escaped, have the value `xs` joined by line feeds. An escaped backslash
/// stands for one backslash whatever follows it, at the end of a line too.
#[verifier::spinoff_prover]
#[verifier::rlimit(40)]
pub proof fn lemma_escaped_multiline_reads_back(xs: Seq<Seq<char>>, p: Seq<char>)
    requires
        spec_all_ws(p),
        spec_plain_lines(xs),
    ensures
        spec_multiline_value(seq!['\n'] + spec_indented_lines(xs, p, true) + p) == Ok::<
            Seq<char>,
            KdlError,
        >(spec_join_lines(xs)),
{
    let l = spec_indented_lines(xs, p, true);
    let nl = seq!['\n'];
    let c = nl + l + p;
    let n = c.len() as int;
    lemma_indented_content(xs, p, true);
    assert forall|k: int| 0 <= k < p.len() implies #[trigger] p[k] != '\\' by {
        assert(spec_is_whitespace(p[k]));
    }
    assert(nl[0] != '\\');
    lemma_plain_ws(Seq::empty(), nl, l + p);
    assert(c =~= Seq::<char>::empty() + nl + (l + p));
    lemma_lines_ws(nl, xs, p, p);
    lemma_plain_ws(nl + l, p, Seq::empty());
    assert(c =~= (nl + l) + p + Seq::<char>::empty());
    assert(spec_ws_escapes(c, n) == Seq::<char>::empty());
    assert(spec_ws_escapes(c, 0) =~= c);
    let d = spec_join_line_texts(xs, true);
    if xs.len() == 0 {
        assert(d =~= Seq::<char>::empty());
        assert(spec_decode(d, 0, 0) == Ok::<Seq<char>, KdlError>(Seq::empty()));
        assert(spec_join_lines(xs) =~= Seq::<char>::empty());
    } else {
        lemma_decode_escaped_lines(Seq::empty(), xs, Seq::empty());
        assert(Seq::<char>::empty() + d + Seq::<char>::empty() =~= d);
    }
}

proof fn lemma_join_raw_lines(xs: Seq<Seq<char>>)
    ensures
        spec_join_line_texts(xs, false) == spec_join_lines(xs),
    decreases xs.len(),
{
    if xs.len() > 1 {
        lemma_join_raw_lines(xs.drop_first());
    }
}

/// A raw multi-line string keeps its lines as written, without their
/// indentation: lines `xs` holding no line break, each indented by the
/// whitespace `p` (the indentation of the closing quotes), have the value
/// `xs` joined by line feeds, whatever backslashes and quotes they hold.
pub proof fn lemma_raw_multiline_keeps_lines(xs: Seq<Seq<char>>, p: Seq<char>)
    requires
        spec_all_ws(p),
        spec_plain_lines(xs),
    ensures
        spec_raw_multiline_value(seq!['\n'] + spec_indented_lines(xs, p, false) + p) == Ok::<
            Seq<char>,
            KdlError,
        >(spec_join_lines(xs)),
{
    lemma_indented_content(xs, p, false);
    lemma_join_raw_lines(xs);
}

/// A raw multi-line string in a document keeps its lines as written, without
/// their indentation: where the content made of the lines `xs`, indented by
/// the whitespace `p`, holds no closing `"""` with `h` hashes, reading the
/// literal gives `xs` joined by line feeds.
pub proof fn lemma_raw_multiline_literal_keeps_lines(xs: Seq<Seq<char>>, p: Seq<char>, h: nat)
    requires
        h >= 1,
        spec_all_ws(p),
        spec_plain_lines(xs),
        spec_raw_ml_close(seq!['\n'] + spec_indented_lines(xs, p, false) + p, 0, h as int) is None,
    ensures
        ({
            let c = seq!['\n'] + spec_indented_lines(xs, p, false) + p;
            spec_raw(spec_raw_multiline_literal(c, h), 0, true) == Ok::<(Seq<char>, int), KdlError>(
                (spec_join_lines(xs), spec_raw_multiline_literal(c, h).len() as int),
            )
        }),
{
    let c = seq!['\n'] + spec_indented_lines(xs, p, false) + p;
    lemma_raw_multiline_literal_value(c, h);
    lemma_raw_multiline_keeps_lines(xs, p);
}

/// The raw string with `h` hashes and content `c`: `#"c"#` for one hash,
/// `"c"` (after an `r`) for none.
pub open spec fn spec_raw_literal(c: Seq<char>, h: nat) -> Seq<char> {
    spec_hashes(h) + seq!['"'] + c + seq!['"'] + spec_hashes(h)
}

proof fn lemma_no_raw_close_inside(c: Seq<char>, i: int, h: int)
    requires
        0 <= i <= c.len(),
        crate::lexer::spec_raw_close(c, i, h) is None,
    ensures
        forall|k: int| i <= k < c.len() ==> !(#[trigger] c[k] == '"' && spec_hashes_at(c, k + 1, h)),
    decreases c.len() - i,
{
    if i < c.len() {
        lemma_no_raw_close_inside(c, i + 1, h);
    }
}

proof fn lemma_raw_close_at_end(c: Seq<char>, h: nat, i: int)
    requires
        h + 1 <= i <= h + 1 + c.len(),
        forall|k: int| 0 <= k < c.len() ==> !(#[trigger] c[k] == '"' && spec_hashes_at(c, k + 1, h as int)),
    ensures
        crate::lexer::spec_raw_close(spec_raw_literal(c, h), i, h as int) == Some(
            h + 1 + c.len() as int,
        ),
    decreases h + 1 + c.len() - i,
{
    let s = spec_raw_literal(c, h);
    let hi = h as int;
    let b: int = hi + 1;
    let ce: int = b + c.len() as int;
    assert(s.len() == ce + 1 + hi);
    assert forall|k: int| b <= k < ce implies s[k] == #[trigger] c[k - b] by {}
    assert(s[ce] == '"');
    assert forall|k: int| ce + 1 <= k < ce + 1 + hi implies #[trigger] s[k] == '#' by {}
    if i < ce {
        lemma_raw_close_at_end(c, h, i + 1);
        if s[i] == '"' && spec_hashes_at(s, i + 1, hi) {
            if i + 1 + hi <= ce {
                assert(c[i - b] == '"');
                assert(spec_hashes_at(c, i - b + 1, hi)) by {
                    assert forall|k: int| i - b + 1 <= k < i - b + 1 + hi implies #[trigger] c[k] == '#' by {
                        assert(s[k + b] == '#');
                    }
                }
                assert(false);
            } else {
                assert(s[ce] == '#');
            }
        }
    } else {
        assert(spec_hashes_at(s, ce + 1, hi));
    }
}

/// A raw string keeps its content exactly: where the content `c` holds no
/// quote followed by `h` hashes (and, where three quotes would open a raw
/// multi-line string, the literal does not begin so), reading the literal
/// gives `c` itself, backslashes, quotes and line breaks included, and ends
/// after the literal.
pub proof fn lemma_raw_literal_keeps_content(c: Seq<char>, h: nat, multiline: bool)
    requires
        crate::lexer::spec_raw_close(c, 0, h as int) is None,
        multiline ==> !spec_triple_at(spec_raw_literal(c, h), h as int),
    ensures
        spec_raw(spec_raw_literal(c, h), 0, multiline) == Ok::<(Seq<char>, int), KdlError>(
            (c, spec_raw_literal(c, h).len() as int),
        ),
{
    let s = spec_raw_literal(c, h);
    let hi = h as int;
    lemma_no_raw_close_inside(c, 0, hi);
    lemma_raw_close_at_end(c, h, hi + 1);
    assert forall|k: int| 0 <= k < hi implies #[trigger] s[k] == '#' by {}
    assert(s[hi] == '"');
    lemma_hash_run(s, 0, hi);
    assert(s.subrange(hi + 1, hi + 1 + c.len()) =~= c);
}

proof fn lemma_lf_only_concat(x: Seq<char>, y: Seq<char>)
    requires
        spec_lf_only(x),
        spec_lf_only(y),
    ensures
        spec_lf_only(x + y),
{
    assert forall|k: int| 0 <= k < (x + y).len() && spec_is_newline(#[trigger] (x + y)[k]) implies (x
        + y)[k] == '\n' by {
        if k < x.len() {
            assert((x + y)[k] == x[k]);
        } else {
            assert((x + y)[k] == y[k - x.len()]);
        }
    }
}

proof fn lemma_lf_only_of(x: Seq<char>)
    requires
        forall|k: int| 0 <= k < x.len() ==> !spec_is_newline(#[trigger] x[k]) || x[k] == '\n',
    ensures
        spec_lf_only(x),
{
}

proof fn lemma_ws_not_newline(p: Seq<char>)
    requires
        spec_all_ws(p),
    ensures
        forall|k: int| 0 <= k < p.len() ==> !spec_is_newline(#[trigger] p[k]) && p[k] != '\\',
{
    assert forall|k: int| 0 <= k < p.len() implies !spec_is_newline(#[trigger] p[k]) && p[k] != '\\' by {
        assert(spec_is_whitespace(p[k]));
        crate::validation::lemma_character_classes_disjoint(p[k]);
    }
}

proof fn lemma_escaped_concat(a: Seq<char>, b: Seq<char>)
    ensures
        spec_escaped(a + b) == spec_escaped(a) + spec_escaped(b),
    decreases a.len(),
{
    if a.len() == 0 {
        assert(a + b =~= b);
        assert(spec_escaped(a) =~= Seq::<char>::empty());
        assert(Seq::<char>::empty() + spec_escaped(b) =~= spec_escaped(b));
    } else {
        lemma_escaped_concat(a.drop_first(), b);
        assert((a + b).drop_first() =~= a.drop_first() + b);
        assert((a + b)[0] == a[0]);
        assert(spec_escape_char(a[0]) + (spec_escaped(a.drop_first()) + spec_escaped(b))
            =~= (spec_escape_char(a[0]) + spec_escaped(a.drop_first())) + spec_escaped(b));
    }
}

proof fn lemma_space_run_at(s: Seq<char>, i: int, end: int, m: int)
    requires
        i <= m <= end,
        forall|k: int| i <= k < m ==> #[trigger] spec_is_space(s[k]),
        m == end || !spec_is_space(s[m]),
    ensures
        crate::strings::spec_space_run_end(s, i, end) == m,
    decreases m - i,
{
    if i < m {
        lemma_space_run_at(s, i + 1, end, m);
    }
}

/// A whitespace escape joins two lines of a multi-line string: where a
/// line holding `a` ends in a backslash, the line break, the indentation
/// `p` of the next line holding `b` (which does not begin with whitespace)
/// and the backslash are dropped, so that the string, closed at the
/// indentation `p`, has the value `a` followed by `b`. The backslashes and
/// quotes of `a` and `b` are escaped, and an escaped backslash never joins
/// lines.
#[verifier::spinoff_prover]
#[verifier::rlimit(60)]
pub proof fn lemma_whitespace_escape_joins_lines(a: Seq<char>, b: Seq<char>, p: Seq<char>)
    requires
        spec_all_ws(p),
        forall|k: int| 0 <= k < a.len() ==> !spec_is_newline(#[trigger] a[k]),
        forall|k: int| 0 <= k < b.len() ==> !spec_is_newline(#[trigger] b[k]),
        b.len() > 0,
        !spec_is_whitespace(b[0]),
    ensures
        spec_multiline_value(
            seq!['\n'] + p + spec_escaped(a) + seq!['\\', '\n'] + p + spec_escaped(b) + seq!['\n']
                + p,
        ) == Ok::<Seq<char>, KdlError>(a + b),
{
    let nl = seq!['\n'];
    let ea = spec_escaped(a);
    let eb = spec_escaped(b);
    let bs = seq!['\\', '\n'];
    let c = nl + p + ea + bs + p + eb + nl + p;
    let x = a + b;
    let ex = spec_escaped(x);
    let c2 = nl + p + ex + nl + p;
    lemma_escaped_line(a);
    lemma_escaped_line(b);
    lemma_ws_not_newline(p);
    assert(spec_normalize(c, 0) == c) by {
        lemma_lf_only_of(nl);
        lemma_lf_only_of(bs);
        lemma_lf_only_of(p);
        lemma_lf_only_of(ea);
        lemma_lf_only_of(eb);
        lemma_lf_only_concat(nl, p);
        lemma_lf_only_concat(nl + p, ea);
        lemma_lf_only_concat(nl + p + ea, bs);
        lemma_lf_only_concat(nl + p + ea + bs, p);
        lemma_lf_only_concat(nl + p + ea + bs + p, eb);
        lemma_lf_only_concat(nl + p + ea + bs + p + eb, nl);
        lemma_lf_only_concat(nl + p + ea + bs + p + eb + nl, p);
        lemma_normalize_lf_only(c, 0);
        assert(c.subrange(0, c.len() as int) =~= c);
    }
    assert(spec_ws_escapes(c, 0) == c2) by {
        lemma_whitespace_escape_removed(a, b, p);
    }
    let xs = seq![x];
    assert(xs.drop_first() =~= Seq::<Seq<char>>::empty());
    assert(xs[0] == x);
    assert(spec_line_text(x, true) == ex);
    assert(spec_indented_lines(xs.drop_first(), p, true) =~= Seq::<char>::empty());
    assert(spec_indented_lines(xs, p, true) == p + ex + nl + Seq::<char>::empty());
    assert(spec_indented_lines(xs, p, true) =~= p + ex + nl);
    assert(c2 =~= nl + spec_indented_lines(xs, p, true) + p);
    assert(spec_plain_lines(xs)) by {
        assert forall|i: int, k: int| 0 <= i < xs.len() && 0 <= k < xs[i].len() implies !spec_is_newline(
            #[trigger] xs[i][k],
        ) by {
            assert(i == 0);
            if k < a.len() {
                assert(x[k] == a[k]);
            } else {
                assert(x[k] == b[k - a.len()]);
            }
        }
        assert(x[a.len() as int] == b[0]);
        assert(!spec_all_ws(x));
    }
    assert(spec_dedent(c2) == Ok::<Seq<char>, KdlError>(ex)) by {
        lemma_indented_content(xs, p, true);
    }
    assert(spec_decode(ex, 0, ex.len() as int) == Ok::<Seq<char>, KdlError>(x)) by {
        lemma_escaped_reads_back(Seq::empty(), x, Seq::empty());
        assert(Seq::<char>::empty() + ex + Seq::<char>::empty() =~= ex);
    }
}

/// The whitespace escapes of the content in `lemma_whitespace_escape_joins_lines`:
/// only the backslash at the end of the line of `a` starts one, and it
/// swallows the line break and the indentation after it.
#[verifier::spinoff_prover]
#[verifier::rlimit(60)]
proof fn lemma_whitespace_escape_removed(a: Seq<char>, b: Seq<char>, p: Seq<char>)
    requires
        spec_all_ws(p),
        forall|k: int| 0 <= k < b.len() ==> !spec_is_newline(#[trigger] b[k]),
        b.len() > 0,
        !spec_is_whitespace(b[0]),
    ensures
        spec_ws_escapes(
            seq!['\n'] + p + spec_escaped(a) + seq!['\\', '\n'] + p + spec_escaped(b) + seq!['\n']
                + p,
            0,
        ) == seq!['\n'] + p + spec_escaped(a + b) + seq!['\n'] + p,
{
    let nl = seq!['\n'];
    let ea = spec_escaped(a);
    let eb = spec_escaped(b);
    let bs = seq!['\\', '\n'];
    let c = nl + p + ea + bs + p + eb + nl + p;
    let n = c.len() as int;
    lemma_ws_not_newline(p);
    lemma_escaped_concat(a, b);
    assert(forall|k: int| 0 <= k < (nl + p).len() ==> #[trigger] (nl + p)[k] != '\\') by {
        assert forall|k: int| 0 <= k < (nl + p).len() implies #[trigger] (nl + p)[k] != '\\' by {
            if k > 0 {
                assert((nl + p)[k] == p[k - 1]);
            }
        }
    }
    assert(spec_ws_escapes(c, 0) == (nl + p) + spec_ws_escapes(c, 1 + p.len() as int)) by {
        lemma_plain_ws(Seq::empty(), nl + p, ea + bs + p + eb + nl + p);
        assert(c =~= Seq::<char>::empty() + (nl + p) + (ea + bs + p + eb + nl + p));
    }
    let j: int = 1 + p.len() as int + ea.len() as int;
    assert(spec_ws_escapes(c, 1 + p.len() as int) == ea + spec_ws_escapes(c, j)) by {
        lemma_escaped_reads_back(nl + p, a, bs + p + eb + nl + p);
        assert(c =~= (nl + p) + ea + (bs + p + eb + nl + p));
    }
    let m: int = j + 2 + p.len() as int;
    assert(spec_ws_escapes(c, j) == spec_ws_escapes(c, m)) by {
        assert(c[j] == '\\' && c[j + 1] == '\n');
        assert(eb.len() > 0 && eb[0] == spec_escape_char(b[0])[0]);
        assert forall|k: int| j + 1 <= k < m implies #[trigger] spec_is_space(c[k]) by {
            if k > j + 1 {
                assert(c[k] == p[k - j - 2]);
                assert(spec_is_whitespace(p[k - j - 2]));
            }
        }
        assert(c[m] == eb[0]);
        assert(!spec_is_space(c[m])) by {
            crate::validation::lemma_character_classes_disjoint(b[0]);
            assert(!spec_is_newline(b[0]));
        }
        lemma_space_run_at(c, j + 1, n, m);
        assert(spec_is_space(c[j + 1]));
    }
    let q: int = m + eb.len() as int;
    assert(spec_ws_escapes(c, m) == eb + spec_ws_escapes(c, q)) by {
        lemma_escaped_reads_back(nl + p + ea + bs + p, b, nl + p);
        assert(c =~= (nl + p + ea + bs + p) + eb + (nl + p));
    }
    assert(spec_ws_escapes(c, q) == nl + p) by {
        lemma_plain_ws(nl + p + ea + bs + p + eb, nl + p, Seq::empty());
        assert(c =~= (nl + p + ea + bs + p + eb) + (nl + p) + Seq::<char>::empty());
        assert(spec_ws_escapes(c, n) == Seq::<char>::empty());
        assert((nl + p) + Seq::<char>::empty() =~= nl + p);
    }
    assert((nl + p) + (ea + (eb + (nl + p))) =~= nl + p + spec_escaped(a + b) + nl + p);
}

} // verus!
