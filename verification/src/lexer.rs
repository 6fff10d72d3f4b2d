//! Splits a document's characters into tokens, skipping whitespace,
//! comments and line continuations, and records for each token whether it
//! is the first on a new line and at which column it stands.

use vstd::prelude::*;
use crate::error::KdlError;
use crate::strings::{
    multiline, quoted, raw_multiline_value, spec_multiline, spec_quoted, spec_raw_multiline_value,
    spec_triple_at,
};
use crate::validation::{
    is_disallowed_code_point, is_newline, is_valid_identifier_character, is_whitespace,
    spec_is_disallowed, spec_is_identifier_char, spec_is_newline, spec_is_whitespace,
};

verus! {

pub enum Tok {
    LBrace,
    RBrace,
    LParen,
    RParen,
    Semi,
    Equals,
    /// `/-`, which comments out the next node, entry or children block.
    SlashDash,
    /// A quoted, raw or multi-line string, decoded.
    Str(Vec<char>),
    /// A bare word: an identifier or a number literal.
    Word(Vec<char>),
    /// The word after a `#`.
    Keyword(Vec<char>),
}

pub enum SpecTok {
    LBrace,
    RBrace,
    LParen,
    RParen,
    Semi,
    Equals,
    SlashDash,
    Str(Seq<char>),
    Word(Seq<char>),
    Keyword(Seq<char>),
}

pub struct Token {
    pub tok: Tok,
    /// Whether a newline (not a line continuation) separates this token from
    /// the one before; true for the first token.
    pub line_start: bool,
    /// The column at which the token stands: the width of what precedes it on
    /// its line, a tab counting 8.
    pub col: usize,
}

pub struct SpecToken {
    pub tok: SpecTok,
    pub line_start: bool,
    pub col: int,
}

impl Tok {
    pub open spec fn view(&self) -> SpecTok {
        match self {
            Tok::LBrace => SpecTok::LBrace,
            Tok::RBrace => SpecTok::RBrace,
            Tok::LParen => SpecTok::LParen,
            Tok::RParen => SpecTok::RParen,
            Tok::Semi => SpecTok::Semi,
            Tok::Equals => SpecTok::Equals,
            Tok::SlashDash => SpecTok::SlashDash,
            Tok::Str(v) => SpecTok::Str(v@),
            Tok::Word(v) => SpecTok::Word(v@),
            Tok::Keyword(v) => SpecTok::Keyword(v@),
        }
    }
}

impl Token {
    pub open spec fn view(&self) -> SpecToken {
        SpecToken { tok: self.tok@, line_start: self.line_start, col: self.col as int }
    }
}

pub open spec fn tokens_view(v: Seq<Token>) -> Seq<SpecToken> {
    v.map_values(|t: Token| t@)
}

/// The width of `s[lb..j]`: a tab counts 8, any other character 1, capped at
/// `usize::MAX`.
pub open spec fn spec_width(s: Seq<char>, lb: int, j: int) -> int
    decreases j - lb,
{
    if j <= lb {
        0
    } else {
        let w = spec_width(s, lb, j - 1);
        let d = if s[j - 1] == '\t' {
            8int
        } else {
            1int
        };
        if w + d > usize::MAX {
            usize::MAX as int
        } else {
            w + d
        }
    }
}

/// The index after the newline at `i` (a CRLF pair counting as one).
pub open spec fn spec_after_newline(s: Seq<char>, i: int) -> int {
    if s[i] == '\r' && i + 1 < s.len() && s[i + 1] == '\n' {
        i + 2
    } else {
        i + 1
    }
}

/// The index of the newline that ends a `//` comment whose text starts at
/// `i`, or the end of the input.
pub open spec fn spec_line_comment_end(s: Seq<char>, i: int) -> int
    decreases s.len() - i,
{
    if i >= s.len() || spec_is_newline(s[i]) {
        i
    } else {
        spec_line_comment_end(s, i + 1)
    }
}

/// The index after the `*/` that closes a block comment opened `depth`
/// times, whose text continues at `i`; block comments nest.
pub open spec fn spec_block_comment_end(s: Seq<char>, i: int, depth: nat) -> Option<int>
    decreases s.len() - i,
{
    if i >= s.len() {
        None
    } else if s[i] == '*' && i + 1 < s.len() && s[i + 1] == '/' {
        if depth <= 1 {
            Some(i + 2)
        } else {
            spec_block_comment_end(s, i + 2, (depth - 1) as nat)
        }
    } else if s[i] == '/' && i + 1 < s.len() && s[i + 1] == '*' {
        spec_block_comment_end(s, i + 2, depth + 1)
    } else {
        spec_block_comment_end(s, i + 1, depth)
    }
}

/// After a `\` whose next character is at `i`: whitespace and block
/// comments, an optional `//` comment, then a newline or the end of input.
/// The index after that newline.
pub open spec fn spec_continuation_end(s: Seq<char>, i: int) -> Option<int>
    decreases s.len() - i,
{
    if i >= s.len() {
        Some(i)
    } else if spec_is_whitespace(s[i]) {
        spec_continuation_end(s, i + 1)
    } else if s[i] == '/' && i + 1 < s.len() && s[i + 1] == '*' {
        match spec_block_comment_end(s, i + 2, 1) {
            Some(e) => if e <= i || e > s.len() {
                None
            } else {
                spec_continuation_end(s, e)
            },
            None => None,
        }
    } else if s[i] == '/' && i + 1 < s.len() && s[i + 1] == '/' {
        let e = spec_line_comment_end(s, i + 2);
        if e >= s.len() {
            Some(e)
        } else {
            Some(spec_after_newline(s, e))
        }
    } else if spec_is_newline(s[i]) {
        Some(spec_after_newline(s, i))
    } else {
        None
    }
}

/// Skips whitespace, newlines, comments and line continuations from `i`.
/// `ls` tells whether a newline has been seen since the last token and `lb`
/// where the current line begins; the result gives the index of the next
/// token (or the end) with both updated.
pub open spec fn spec_skip(s: Seq<char>, i: int, ls: bool, lb: int) -> Result<
    (int, bool, int),
    KdlError,
>
    decreases s.len() - i,
{
    if i >= s.len() {
        Ok((i, ls, lb))
    } else if spec_is_newline(s[i]) {
        let k = spec_after_newline(s, i);
        spec_skip(s, k, true, k)
    } else if spec_is_whitespace(s[i]) || (i == 0 && s[i] == '\u{FEFF}') {
        spec_skip(s, i + 1, ls, lb)
    } else if s[i] == '/' && i + 1 < s.len() && s[i + 1] == '/' {
        let e = spec_line_comment_end(s, i + 2);
        if e <= i || e > s.len() {
            Err(KdlError::UnterminatedComment)
        } else {
            spec_skip(s, e, ls, lb)
        }
    } else if s[i] == '/' && i + 1 < s.len() && s[i + 1] == '*' {
        match spec_block_comment_end(s, i + 2, 1) {
            Some(e) => if e <= i || e > s.len() {
                Err(KdlError::UnterminatedComment)
            } else {
                spec_skip(s, e, ls, lb)
            },
            None => Err(KdlError::UnterminatedComment),
        }
    } else if s[i] == '\\' {
        match spec_continuation_end(s, i + 1) {
            Some(e) => if e <= i || e > s.len() {
                Err(KdlError::InvalidLineContinuation)
            } else {
                spec_skip(s, e, ls, lb)
            },
            None => Err(KdlError::InvalidLineContinuation),
        }
    } else {
        Ok((i, ls, lb))
    }
}

/// The first index at or after `i` that holds no identifier character.
pub open spec fn spec_word_end(s: Seq<char>, i: int) -> int
    decreases s.len() - i,
{
    if i < s.len() && spec_is_identifier_char(s[i]) {
        spec_word_end(s, i + 1)
    } else {
        i
    }
}

/// The first index at or after `i` that holds no `#`.
pub open spec fn spec_hash_end(s: Seq<char>, i: int) -> int
    decreases s.len() - i,
{
    if i < s.len() && s[i] == '#' {
        spec_hash_end(s, i + 1)
    } else {
        i
    }
}

/// Whether `s[i..i + h]` are all `#`.
pub open spec fn spec_hashes_at(s: Seq<char>, i: int, h: int) -> bool {
    i + h <= s.len() && forall|k: int| i <= k < i + h ==> #[trigger] s[k] == '#'
}

/// The index of the `"` that, followed by `h` hashes, closes a raw string
/// whose content continues at `i`.
pub open spec fn spec_raw_close(s: Seq<char>, i: int, h: int) -> Option<int>
    decreases s.len() - i,
{
    if i >= s.len() {
        None
    } else if s[i] == '"' && spec_hashes_at(s, i + 1, h) {
        Some(i)
    } else {
        spec_raw_close(s, i + 1, h)
    }
}

/// The index of the `"""` that, followed by `h` hashes, closes a raw
/// multi-line string whose content continues at `i`.
pub open spec fn spec_raw_ml_close(s: Seq<char>, i: int, h: int) -> Option<int>
    decreases s.len() - i,
{
    if i >= s.len() {
        None
    } else if spec_triple_at(s, i) && spec_hashes_at(s, i + 3, h) {
        Some(i)
    } else {
        spec_raw_ml_close(s, i + 1, h)
    }
}

/// A raw string whose hashes start at `j`: `#`s, `"`, the content, `"` and
/// as many `#`s; or, where `multiline` allows it and the `#`s are followed by
/// `"""`, a raw multi-line string up to `"""` and as many `#`s. Its value
/// and the index after it.
pub open spec fn spec_raw(s: Seq<char>, j: int, multiline: bool) -> Result<(Seq<char>, int), KdlError> {
    let q = spec_hash_end(s, j);
    let h = q - j;
    if multiline && spec_triple_at(s, q) {
        match spec_raw_ml_close(s, q + 3, h) {
            Some(k) => match spec_raw_multiline_value(s.subrange(q + 3, k)) {
                Ok(v) => Ok((v, k + 3 + h)),
                Err(e) => Err(e),
            },
            None => Err(KdlError::InvalidRawString),
        }
    } else if q < s.len() && s[q] == '"' {
        match spec_raw_close(s, q + 1, h) {
            Some(k) => Ok((s.subrange(q + 1, k), k + 1 + h)),
            None => Err(KdlError::InvalidRawString),
        }
    } else {
        Err(KdlError::InvalidRawString)
    }
}

pub open spec fn spec_next_is(s: Seq<char>, j: int, x: char) -> bool {
    j + 1 < s.len() && s[j + 1] == x
}

/// A token that starts with `"`: a multi-line or a quoted string.
pub open spec fn spec_scan_quote(s: Seq<char>, j: int) -> Result<(SpecTok, int), KdlError> {
    if spec_triple_at(s, j) {
        match spec_multiline(s, j + 3) {
            Ok((v, k)) => Ok((SpecTok::Str(v), k)),
            Err(e) => Err(e),
        }
    } else {
        match spec_quoted(s, j + 1) {
            Ok((v, k)) => Ok((SpecTok::Str(v), k)),
            Err(e) => Err(e),
        }
    }
}

/// A token that starts with `#`: a raw string or a keyword.
pub open spec fn spec_scan_hash(s: Seq<char>, j: int) -> Result<(SpecTok, int), KdlError> {
    if spec_next_is(s, j, '"') || spec_next_is(s, j, '#') {
        match spec_raw(s, j, true) {
            Ok((v, k)) => Ok((SpecTok::Str(v), k)),
            Err(e) => Err(e),
        }
    } else {
        let e = spec_word_end(s, j + 1);
        Ok((SpecTok::Keyword(s.subrange(j + 1, e)), e))
    }
}

/// The token that starts at `j`, and the index after it.
#[verifier::opaque]
pub open spec fn spec_scan(s: Seq<char>, j: int) -> Result<(SpecTok, int), KdlError> {
    let c = s[j];
    if c == '{' {
        Ok((SpecTok::LBrace, j + 1))
    } else if c == '}' {
        Ok((SpecTok::RBrace, j + 1))
    } else if c == '(' {
        Ok((SpecTok::LParen, j + 1))
    } else if c == ')' {
        Ok((SpecTok::RParen, j + 1))
    } else if c == ';' {
        Ok((SpecTok::Semi, j + 1))
    } else if c == '=' {
        Ok((SpecTok::Equals, j + 1))
    } else if c == '/' {
        if spec_next_is(s, j, '-') {
            Ok((SpecTok::SlashDash, j + 2))
        } else {
            Err(KdlError::UnexpectedCharacter)
        }
    } else if c == '"' {
        spec_scan_quote(s, j)
    } else if c == '#' {
        spec_scan_hash(s, j)
    } else if c == 'r' && (spec_next_is(s, j, '"') || spec_next_is(s, j, '#')) {
        match spec_raw(s, j + 1, false) {
            Ok((v, k)) => Ok((SpecTok::Str(v), k)),
            Err(e) => Err(e),
        }
    } else if spec_is_identifier_char(c) {
        let e = spec_word_end(s, j);
        Ok((SpecTok::Word(s.subrange(j, e)), e))
    } else {
        Err(KdlError::UnexpectedCharacter)
    }
}

pub open spec fn prepend_token(t: SpecToken, r: Result<Seq<SpecToken>, KdlError>) -> Result<
    Seq<SpecToken>,
    KdlError,
> {
    match r {
        Ok(x) => Ok(seq![t] + x),
        Err(e) => Err(e),
    }
}

pub open spec fn prepend_tokens(a: Seq<SpecToken>, r: Result<Seq<SpecToken>, KdlError>) -> Result<
    Seq<SpecToken>,
    KdlError,
> {
    match r {
        Ok(x) => Ok(a + x),
        Err(e) => Err(e),
    }
}

/// The tokens of `s[i..]`, given the state `ls`, `lb` of `spec_skip`.
pub open spec fn spec_lex_from(s: Seq<char>, i: int, ls: bool, lb: int) -> Result<
    Seq<SpecToken>,
    KdlError,
>
    decreases s.len() - i,
{
    match spec_skip(s, i, ls, lb) {
        Err(e) => Err(e),
        Ok((j, ls2, lb2)) => if j >= s.len() {
            Ok(Seq::empty())
        } else if j < i {
            Err(KdlError::UnexpectedCharacter)
        } else {
            match spec_scan(s, j) {
                Err(e) => Err(e),
                Ok((tok, k)) => if k <= j || k > s.len() {
                    Err(KdlError::UnexpectedCharacter)
                } else {
                    prepend_token(
                        SpecToken { tok, line_start: ls2, col: spec_width(s, lb2, j) },
                        spec_lex_from(s, k, false, lb2),
                    )
                },
            }
        },
    }
}

/// Whether the character at `k` may not appear in a document: a disallowed
/// code point, other than a byte order mark at the very start.
pub open spec fn spec_disallowed_at(s: Seq<char>, k: int) -> bool {
    spec_is_disallowed(s[k]) && !(k == 0 && s[k] == '\u{FEFF}')
}

/// Whether the input holds a code point that may not appear in a document.
pub open spec fn spec_has_disallowed(s: Seq<char>) -> bool {
    exists|k: int| 0 <= k < s.len() && #[trigger] spec_disallowed_at(s, k)
}

/// The tokens of the whole input.
pub open spec fn spec_lex(s: Seq<char>) -> Result<Seq<SpecToken>, KdlError> {
    if spec_has_disallowed(s) {
        Err(KdlError::DisallowedCodePoint)
    } else {
        spec_lex_from(s, 0, true, 0)
    }
}

fn has_disallowed(s: &Vec<char>) -> (r: bool)
    ensures
        r == spec_has_disallowed(s@),
{
    let mut k: usize = 0;
    while k < s.len()
        invariant
            k <= s@.len(),
            forall|j: int| 0 <= j < k ==> !#[trigger] spec_disallowed_at(s@, j),
        decreases s@.len() - k,
    {
        if is_disallowed_code_point(s[k]) && !(k == 0 && s[k] == '\u{FEFF}') {
            assert(spec_disallowed_at(s@, k as int));
            return true;
        }
        k = k + 1;
    }
    false
}

fn width(s: &Vec<char>, lb: usize, j: usize) -> (r: usize)
    requires
        lb <= j <= s@.len(),
    ensures
        r as int == spec_width(s@, lb as int, j as int),
{
    let mut w: usize = 0;
    let mut k = lb;
    while k < j
        invariant
            lb <= k <= j <= s@.len(),
            w as int == spec_width(s@, lb as int, k as int),
        decreases j - k,
    {
        let d: usize = if s[k] == '\t' {
            8
        } else {
            1
        };
        if w > usize::MAX - d {
            w = usize::MAX;
        } else {
            w = w + d;
        }
        k = k + 1;
    }
    w
}

fn after_newline(s: &Vec<char>, i: usize) -> (r: usize)
    requires
        i < s@.len(),
    ensures
        r as int == spec_after_newline(s@, i as int),
        i < r <= s@.len(),
{
    let _n = s.len();
    if s[i] == '\r' && s.len() - i >= 2 && s[i + 1] == '\n' {
        i + 2
    } else {
        i + 1
    }
}

fn line_comment_end(s: &Vec<char>, i: usize) -> (r: usize)
    requires
        i <= s@.len(),
    ensures
        r as int == spec_line_comment_end(s@, i as int),
        i <= r <= s@.len(),
{
    let mut k = i;
    while k < s.len() && !is_newline(s[k])
        invariant
            i <= k <= s@.len(),
            spec_line_comment_end(s@, i as int) == spec_line_comment_end(s@, k as int),
        decreases s@.len() - k,
    {
        k = k + 1;
    }
    k
}

fn block_comment_end(s: &Vec<char>, i: usize) -> (r: Option<usize>)
    requires
        2 <= i <= s@.len(),
    ensures
        match (r, spec_block_comment_end(s@, i as int, 1)) {
            (Some(e), Some(se)) => e as int == se,
            (None, None) => true,
            _ => false,
        },
        r matches Some(e) ==> i < e <= s@.len(),
{
    let mut k = i;
    let mut depth: usize = 1;
    while k < s.len()
        invariant
            i <= k <= s@.len(),
            1 <= depth <= k,
            spec_block_comment_end(s@, i as int, 1) == spec_block_comment_end(
                s@,
                k as int,
                depth as nat,
            ),
        decreases s@.len() - k,
    {
        if s[k] == '*' && s.len() - k >= 2 && s[k + 1] == '/' {
            if depth <= 1 {
                return Some(k + 2);
            }
            depth = depth - 1;
            k = k + 2;
        } else if s[k] == '/' && s.len() - k >= 2 && s[k + 1] == '*' {
            depth = depth + 1;
            k = k + 2;
        } else {
            k = k + 1;
        }
    }
    None
}

fn continuation_end(s: &Vec<char>, i: usize) -> (r: Option<usize>)
    requires
        i <= s@.len(),
    ensures
        match (r, spec_continuation_end(s@, i as int)) {
            (Some(e), Some(se)) => e as int == se,
            (None, None) => true,
            _ => false,
        },
        r matches Some(e) ==> i <= e <= s@.len(),
{
    let mut k = i;
    while k < s.len()
        invariant
            i <= k <= s@.len(),
            spec_continuation_end(s@, i as int) == spec_continuation_end(s@, k as int),
        decreases s@.len() - k,
    {
        let c = s[k];
        if is_whitespace(c) {
            k = k + 1;
        } else if c == '/' && s.len() - k >= 2 && s[k + 1] == '*' {
            match block_comment_end(s, k + 2) {
                Some(e) => {
                    k = e;
                },
                None => {
                    return None;
                },
            }
        } else if c == '/' && s.len() - k >= 2 && s[k + 1] == '/' {
            let e = line_comment_end(s, k + 2);
            if e >= s.len() {
                return Some(e);
            }
            return Some(after_newline(s, e));
        } else if is_newline(c) {
            return Some(after_newline(s, k));
        } else {
            return None;
        }
    }
    Some(k)
}

/// See `spec_skip`.
fn skip(s: &Vec<char>, i: usize, ls0: bool, lb0: usize) -> (r: Result<(usize, bool, usize), KdlError>)
    requires
        i <= s@.len(),
        lb0 <= i,
    ensures
        match (r, spec_skip(s@, i as int, ls0, lb0 as int)) {
            (Ok((a, b, c)), Ok((x, y, z))) => a as int == x && b == y && c as int == z,
            (Err(a), Err(b)) => a == b,
            _ => false,
        },
        r matches Ok((a, _, c)) ==> i <= a <= s@.len() && c <= a,
{
    let mut k = i;
    let mut ls = ls0;
    let mut lb = lb0;
    while k < s.len()
        invariant
            i <= k <= s@.len(),
            lb <= k,
            spec_skip(s@, i as int, ls0, lb0 as int) == spec_skip(s@, k as int, ls, lb as int),
        decreases s@.len() - k,
    {
        let c = s[k];
        if is_newline(c) {
            let n = after_newline(s, k);
            k = n;
            ls = true;
            lb = n;
        } else if is_whitespace(c) || (k == 0 && c == '\u{FEFF}') {
            k = k + 1;
        } else if c == '/' && s.len() - k >= 2 && s[k + 1] == '/' {
            let e = line_comment_end(s, k + 2);
            k = e;
        } else if c == '/' && s.len() - k >= 2 && s[k + 1] == '*' {
            match block_comment_end(s, k + 2) {
                Some(e) => {
                    k = e;
                },
                None => {
                    return Err(KdlError::UnterminatedComment);
                },
            }
        } else if c == '\\' {
            match continuation_end(s, k + 1) {
                Some(e) => {
                    if e <= k {
                        return Err(KdlError::InvalidLineContinuation);
                    }
                    k = e;
                },
                None => {
                    return Err(KdlError::InvalidLineContinuation);
                },
            }
        } else {
            return Ok((k, ls, lb));
        }
    }
    Ok((k, ls, lb))
}

fn word_end(s: &Vec<char>, i: usize) -> (r: usize)
    requires
        i <= s@.len(),
    ensures
        r as int == spec_word_end(s@, i as int),
        i <= r <= s@.len(),
        i < s@.len() && spec_is_identifier_char(s@[i as int]) ==> i < r,
{
    let mut k = i;
    while k < s.len() && is_valid_identifier_character(s[k])
        invariant
            i <= k <= s@.len(),
            spec_word_end(s@, i as int) == spec_word_end(s@, k as int),
        decreases s@.len() - k,
    {
        k = k + 1;
    }
    k
}

fn hash_end(s: &Vec<char>, i: usize) -> (r: usize)
    requires
        i <= s@.len(),
    ensures
        r as int == spec_hash_end(s@, i as int),
        i <= r <= s@.len(),
{
    let mut k = i;
    while k < s.len() && s[k] == '#'
        invariant
            i <= k <= s@.len(),
            spec_hash_end(s@, i as int) == spec_hash_end(s@, k as int),
        decreases s@.len() - k,
    {
        k = k + 1;
    }
    k
}

fn hashes_at(s: &Vec<char>, i: usize, h: usize) -> (r: bool)
    requires
        i <= s@.len(),
    ensures
        r == spec_hashes_at(s@, i as int, h as int),
{
    let n = s.len();
    if h > n - i {
        return false;
    }
    let mut k: usize = 0;
    while k < h
        invariant
            n == s@.len(),
            i + h <= s@.len(),
            k <= h,
            forall|m: int| i <= m < i + k ==> #[trigger] s@[m] == '#',
        decreases h - k,
    {
        if s[i + k] != '#' {
            return false;
        }
        k = k + 1;
    }
    true
}

pub fn raw_close(s: &Vec<char>, i: usize, h: usize) -> (r: Option<usize>)
    requires
        i <= s@.len(),
    ensures
        match (r, spec_raw_close(s@, i as int, h as int)) {
            (Some(e), Some(se)) => e as int == se,
            (None, None) => true,
            _ => false,
        },
        r matches Some(e) ==> i <= e && e + 1 + h <= s@.len(),
{
    let mut k = i;
    while k < s.len()
        invariant
            i <= k <= s@.len(),
            spec_raw_close(s@, i as int, h as int) == spec_raw_close(s@, k as int, h as int),
        decreases s@.len() - k,
    {
        if s[k] == '"' && hashes_at(s, k + 1, h) {
            return Some(k);
        }
        k = k + 1;
    }
    None
}

pub fn raw_ml_close(s: &Vec<char>, i: usize, h: usize) -> (r: Option<usize>)
    requires
        i <= s@.len(),
    ensures
        match (r, spec_raw_ml_close(s@, i as int, h as int)) {
            (Some(e), Some(se)) => e as int == se,
            (None, None) => true,
            _ => false,
        },
        r matches Some(e) ==> i <= e && e + 3 + h <= s@.len(),
{
    let mut k = i;
    while k < s.len()
        invariant
            i <= k <= s@.len(),
            spec_raw_ml_close(s@, i as int, h as int) == spec_raw_ml_close(s@, k as int, h as int),
        decreases s@.len() - k,
    {
        if s.len() - k >= 3 && s[k] == '"' && s[k + 1] == '"' && s[k + 2] == '"' && hashes_at(
            s,
            k + 3,
            h,
        ) {
            return Some(k);
        }
        k = k + 1;
    }
    None
}

fn raw(s: &Vec<char>, j: usize, multiline: bool) -> (r: Result<(Vec<char>, usize), KdlError>)
    requires
        j <= s@.len(),
    ensures
        match (r, spec_raw(s@, j as int, multiline)) {
            (Ok((v, k)), Ok((sv, sk))) => v@ == sv && k as int == sk,
            (Err(e), Err(se)) => e == se,
            _ => false,
        },
        r matches Ok((_, k)) ==> j < k <= s@.len(),
{
    let q = hash_end(s, j);
    let h = q - j;
    if multiline && s.len() - q >= 3 && s[q] == '"' && s[q + 1] == '"' && s[q + 2] == '"' {
        match raw_ml_close(s, q + 3, h) {
            Some(k) => {
                let c = crate::text::sub_chars(s, q + 3, k);
                match raw_multiline_value(&c) {
                    Ok(v) => Ok((v, k + 3 + h)),
                    Err(e) => Err(e),
                }
            },
            None => Err(KdlError::InvalidRawString),
        }
    } else if q < s.len() && s[q] == '"' {
        match raw_close(s, q + 1, h) {
            Some(k) => Ok((crate::text::sub_chars(s, q + 1, k), k + 1 + h)),
            None => Err(KdlError::InvalidRawString),
        }
    } else {
        Err(KdlError::InvalidRawString)
    }
}

fn scan_quote(s: &Vec<char>, j: usize) -> (r: Result<(Tok, usize), KdlError>)
    requires
        j < s@.len(),
        s@[j as int] == '"',
    ensures
        match (r, spec_scan_quote(s@, j as int)) {
            (Ok((t, k)), Ok((st, sk))) => t@ == st && k as int == sk,
            (Err(e), Err(se)) => e == se,
            _ => false,
        },
        r matches Ok((_, k)) ==> j < k <= s@.len(),
{
    let n = s.len();
    if n - j >= 3 && s[j + 1] == '"' && s[j + 2] == '"' {
        match multiline(s, j + 3) {
            Ok((v, k)) => Ok((Tok::Str(v), k)),
            Err(e) => Err(e),
        }
    } else {
        match quoted(s, j + 1) {
            Ok((v, k)) => Ok((Tok::Str(v), k)),
            Err(e) => Err(e),
        }
    }
}

fn next_is(s: &Vec<char>, j: usize, x: char) -> (r: bool)
    requires
        j < s@.len(),
    ensures
        r == spec_next_is(s@, j as int, x),
{
    s.len() - j > 1 && s[j + 1] == x
}

fn scan_hash(s: &Vec<char>, j: usize) -> (r: Result<(Tok, usize), KdlError>)
    requires
        j < s@.len(),
    ensures
        match (r, spec_scan_hash(s@, j as int)) {
            (Ok((t, k)), Ok((st, sk))) => t@ == st && k as int == sk,
            (Err(e), Err(se)) => e == se,
            _ => false,
        },
        r matches Ok((_, k)) ==> j < k <= s@.len(),
{
    let _n = s.len();
    if next_is(s, j, '"') || next_is(s, j, '#') {
        match raw(s, j, true) {
            Ok((v, k)) => Ok((Tok::Str(v), k)),
            Err(e) => Err(e),
        }
    } else {
        let e = word_end(s, j + 1);
        Ok((Tok::Keyword(crate::text::sub_chars(s, j + 1, e)), e))
    }
}

/// See `spec_scan`.
fn scan(s: &Vec<char>, j: usize) -> (r: Result<(Tok, usize), KdlError>)
    requires
        j < s@.len(),
    ensures
        match (r, spec_scan(s@, j as int)) {
            (Ok((t, k)), Ok((st, sk))) => t@ == st && k as int == sk,
            (Err(e), Err(se)) => e == se,
            _ => false,
        },
        r matches Ok((_, k)) ==> j < k <= s@.len(),
{
    reveal(spec_scan);
    let _n = s.len();
    let c = s[j];
    if c == '{' {
        Ok((Tok::LBrace, j + 1))
    } else if c == '}' {
        Ok((Tok::RBrace, j + 1))
    } else if c == '(' {
        Ok((Tok::LParen, j + 1))
    } else if c == ')' {
        Ok((Tok::RParen, j + 1))
    } else if c == ';' {
        Ok((Tok::Semi, j + 1))
    } else if c == '=' {
        Ok((Tok::Equals, j + 1))
    } else if c == '/' {
        if next_is(s, j, '-') {
            Ok((Tok::SlashDash, j + 2))
        } else {
            Err(KdlError::UnexpectedCharacter)
        }
    } else if c == '"' {
        scan_quote(s, j)
    } else if c == '#' {
        scan_hash(s, j)
    } else if c == 'r' && (next_is(s, j, '"') || next_is(s, j, '#')) {
        match raw(s, j + 1, false) {
            Ok((v, k)) => Ok((Tok::Str(v), k)),
            Err(e) => Err(e),
        }
    } else if is_valid_identifier_character(c) {
        let e = word_end(s, j);
        Ok((Tok::Word(crate::text::sub_chars(s, j, e)), e))
    } else {
        Err(KdlError::UnexpectedCharacter)
    }
}

/// The tokens of the input; see `spec_lex`.
pub fn lex(s: &Vec<char>) -> (r: Result<Vec<Token>, KdlError>)
    ensures
        match (r, spec_lex(s@)) {
            (Ok(t), Ok(st)) => tokens_view(t@) == st,
            (Err(e), Err(se)) => e == se,
            _ => false,
        },
{
    if has_disallowed(s) {
        return Err(KdlError::DisallowedCodePoint);
    }
    let mut acc: Vec<Token> = Vec::new();
    let mut i: usize = 0;
    let mut ls = true;
    let mut lb: usize = 0;
    loop
        invariant
            i <= s@.len(),
            lb <= i,
            !spec_has_disallowed(s@),
            spec_lex(s@) == prepend_tokens(tokens_view(acc@), spec_lex_from(s@, i as int, ls, lb as int)),
        decreases s@.len() - i,
    {
        let ghost old_acc = tokens_view(acc@);
        match skip(s, i, ls, lb) {
            Err(e) => {
                return Err(e);
            },
            Ok((j, ls2, lb2)) => {
                if j >= s.len() {
                    proof {
                        assert(tokens_view(acc@) + Seq::<SpecToken>::empty() =~= tokens_view(acc@));
                    }
                    return Ok(acc);
                }
                match scan(s, j) {
                    Err(e) => {
                        return Err(e);
                    },
                    Ok((tok, k)) => {
                        let col = width(s, lb2, j);
                        let t = Token { tok, line_start: ls2, col };
                        let ghost tv = t@;
                        acc.push(t);
                        proof {
                            assert(tokens_view(acc@) =~= old_acc.push(tv));
                            match spec_lex_from(s@, k as int, false, lb2 as int) {
                                Ok(rest) => {
                                    assert(old_acc + (seq![tv] + rest) =~= tokens_view(acc@)
                                        + rest);
                                },
                                Err(_) => {},
                            }
                        }
                        i = k;
                        ls = false;
                        lb = lb2;
                    },
                }
            },
        }
    }
}

} // verus!
