//! Character classes of the KDL grammar: whitespace, newlines, code points
//! that may not appear literally, and the characters allowed in identifiers.

use vstd::prelude::*;
use crate::error::KdlError;
use crate::text::str_to_chars;

verus! {

/// Unicode whitespace that separates tokens (newlines excluded).
pub open spec fn spec_is_whitespace(c: char) -> bool {
    let u = c as u32;
    u == 0x09 || u == 0x20 || u == 0xA0 || u == 0x1680 || (0x2000 <= u && u <= 0x200A)
        || u == 0x202F || u == 0x205F || u == 0x3000
}

/// Characters that end a line.
pub open spec fn spec_is_newline(c: char) -> bool {
    let u = c as u32;
    (0x0A <= u && u <= 0x0D) || u == 0x85 || u == 0x2028 || u == 0x2029
}

/// Code points that may not appear literally in a document.
pub open spec fn spec_is_disallowed(c: char) -> bool {
    let u = c as u32;
    u <= 0x08 || (0x0E <= u && u <= 0x1F) || u == 0x7F || (0xD800 <= u && u <= 0xDFFF)
        || u == 0x200E || u == 0x200F || (0x202A <= u && u <= 0x202E) || (0x2066 <= u && u
        <= 0x2069) || u == 0xFEFF
}

/// Characters with a meaning of their own in the grammar.
pub open spec fn spec_is_reserved_punct(c: char) -> bool {
    c == '\\' || c == '/' || c == '(' || c == ')' || c == '{' || c == '}' || c == ';' || c
        == '[' || c == ']' || c == '"' || c == '#' || c == '='
}

/// Characters that may appear in a bare identifier.
pub open spec fn spec_is_identifier_char(c: char) -> bool {
    !spec_is_whitespace(c) && !spec_is_newline(c) && !spec_is_disallowed(c)
        && !spec_is_reserved_punct(c)
}

pub open spec fn spec_is_digit(c: char) -> bool {
    '0' <= c && c <= '9'
}

pub open spec fn spec_is_sign(c: char) -> bool {
    c == '+' || c == '-'
}

/// A bare word that must be read as a number: it starts with a digit,
/// or with a sign followed by a digit.
pub open spec fn spec_starts_numeric(s: Seq<char>) -> bool {
    (s.len() > 0 && spec_is_digit(s[0])) || (s.len() > 1 && spec_is_sign(s[0]) && spec_is_digit(
        s[1],
    ))
}

/// A bare word that looks like a number with no leading digit (`.5`, `-.5`).
pub open spec fn spec_starts_dotted_numeric(s: Seq<char>) -> bool {
    (s.len() > 1 && s[0] == '.' && spec_is_digit(s[1])) || (s.len() > 2 && spec_is_sign(s[0])
        && s[1] == '.' && spec_is_digit(s[2]))
}

/// Bare words that are keywords or reserved, and so are no identifier.
pub open spec fn spec_is_reserved_word(s: Seq<char>) -> bool {
    s == seq!['t', 'r', 'u', 'e'] || s == seq!['f', 'a', 'l', 's', 'e'] || s == seq![
        'n',
        'u',
        'l',
        'l',
    ] || s == seq!['i', 'n', 'f'] || s == seq!['-', 'i', 'n', 'f'] || s == seq!['n', 'a', 'n']
}

/// A valid identifier string: non-empty, made of identifier characters, not
/// shaped like a number and not a reserved word.
pub open spec fn spec_is_identifier(s: Seq<char>) -> bool {
    &&& s.len() > 0
    &&& forall|i: int| 0 <= i < s.len() ==> #[trigger] spec_is_identifier_char(s[i])
    &&& !spec_starts_numeric(s)
    &&& !spec_starts_dotted_numeric(s)
    &&& !spec_is_reserved_word(s)
}

pub fn is_whitespace(c: char) -> (r: bool)
    ensures
        r == spec_is_whitespace(c),
{
    let u = c as u32;
    u == 0x09 || u == 0x20 || u == 0xA0 || u == 0x1680 || (0x2000 <= u && u <= 0x200A) || u
        == 0x202F || u == 0x205F || u == 0x3000
}

pub fn is_newline(c: char) -> (r: bool)
    ensures
        r == spec_is_newline(c),
{
    let u = c as u32;
    (0x0A <= u && u <= 0x0D) || u == 0x85 || u == 0x2028 || u == 0x2029
}

pub fn is_disallowed_code_point(c: char) -> (r: bool)
    ensures
        r == spec_is_disallowed(c),
{
    let u = c as u32;
    u <= 0x08 || (0x0E <= u && u <= 0x1F) || u == 0x7F || (0xD800 <= u && u <= 0xDFFF) || u
        == 0x200E || u == 0x200F || (0x202A <= u && u <= 0x202E) || (0x2066 <= u && u <= 0x2069)
        || u == 0xFEFF
}

pub fn is_valid_identifier_character(c: char) -> (r: bool)
    ensures
        r == spec_is_identifier_char(c),
{
    !is_whitespace(c) && !is_newline(c) && !is_disallowed_code_point(c) && !(c == '\\' || c
        == '/' || c == '(' || c == ')' || c == '{' || c == '}' || c == ';' || c == '[' || c
        == ']' || c == '"' || c == '#' || c == '=')
}

pub fn is_digit(c: char) -> (r: bool)
    ensures
        r == spec_is_digit(c),
{
    '0' <= c && c <= '9'
}

pub fn starts_numeric(s: &Vec<char>) -> (r: bool)
    ensures
        r == spec_starts_numeric(s@),
{
    (s.len() > 0 && is_digit(s[0])) || (s.len() > 1 && (s[0] == '+' || s[0] == '-') && is_digit(
        s[1],
    ))
}

pub fn starts_dotted_numeric(s: &Vec<char>) -> (r: bool)
    ensures
        r == spec_starts_dotted_numeric(s@),
{
    (s.len() > 1 && s[0] == '.' && is_digit(s[1])) || (s.len() > 2 && (s[0] == '+' || s[0]
        == '-') && s[1] == '.' && is_digit(s[2]))
}

/// Whether `s` equals the word given by `w`.
pub fn chars_eq(s: &Vec<char>, w: &[char]) -> (r: bool)
    ensures
        r == (s@ == w@),
{
    if s.len() != w.len() {
        return false;
    }
    let mut i: usize = 0;
    while i < s.len()
        invariant
            s@.len() == w@.len(),
            i <= s@.len(),
            forall|k: int| 0 <= k < i ==> s@[k] == w@[k],
        decreases s@.len() - i,
    {
        if s[i] != w[i] {
            return false;
        }
        i = i + 1;
    }
    assert(s@ =~= w@);
    true
}

pub fn is_reserved_word(s: &Vec<char>) -> (r: bool)
    ensures
        r == spec_is_reserved_word(s@),
{
    let t = ['t', 'r', 'u', 'e'];
    let f = ['f', 'a', 'l', 's', 'e'];
    let n = ['n', 'u', 'l', 'l'];
    let i = ['i', 'n', 'f'];
    let mi = ['-', 'i', 'n', 'f'];
    let na = ['n', 'a', 'n'];
    let r = chars_eq(s, &t) || chars_eq(s, &f) || chars_eq(s, &n) || chars_eq(s, &i) || chars_eq(
        s,
        &mi,
    ) || chars_eq(s, &na);
    proof {
        assert(t@ =~= seq!['t', 'r', 'u', 'e']);
        assert(f@ =~= seq!['f', 'a', 'l', 's', 'e']);
        assert(n@ =~= seq!['n', 'u', 'l', 'l']);
        assert(i@ =~= seq!['i', 'n', 'f']);
        assert(mi@ =~= seq!['-', 'i', 'n', 'f']);
        assert(na@ =~= seq!['n', 'a', 'n']);
    }
    r
}

/// Whether `s` is a valid identifier string.
pub fn is_identifier(s: &Vec<char>) -> (r: bool)
    ensures
        r == spec_is_identifier(s@),
{
    if s.len() == 0 {
        return false;
    }
    let mut i: usize = 0;
    while i < s.len()
        invariant
            i <= s@.len(),
            forall|k: int| 0 <= k < i ==> #[trigger] spec_is_identifier_char(s@[k]),
        decreases s@.len() - i,
    {
        if !is_valid_identifier_character(s[i]) {
            return false;
        }
        i = i + 1;
    }
    !starts_numeric(s) && !starts_dotted_numeric(s) && !is_reserved_word(s)
}

/// Checks that `s` may stand as a bare identifier: it is not empty, holds
/// only identifier characters (no whitespace, newline, disallowed code point
/// or grammar punctuation), does not start like a number and is no keyword.
pub fn validate_identifier_string(s: &str) -> (r: Result<(), KdlError>)
    ensures
        r is Ok <==> spec_is_identifier(s@),
        r matches Err(e) ==> e == KdlError::InvalidIdentifier,
{
    let v = str_to_chars(s);
    if is_identifier(&v) {
        Ok(())
    } else {
        Err(KdlError::InvalidIdentifier)
    }
}

/// The character classes do not overlap: no character is both whitespace
/// and a newline, neither whitespace nor a newline is a disallowed code
/// point, and an identifier character is none of the three.
pub proof fn lemma_character_classes_disjoint(c: char)
    ensures
        !(spec_is_whitespace(c) && spec_is_newline(c)),
        !(spec_is_whitespace(c) && spec_is_disallowed(c)),
        !(spec_is_newline(c) && spec_is_disallowed(c)),
        spec_is_identifier_char(c) ==> !spec_is_whitespace(c) && !spec_is_newline(c)
            && !spec_is_disallowed(c),
{
}

/// A valid identifier holds no whitespace, no newline and no disallowed
/// code point, anywhere.
pub proof fn lemma_identifier_has_no_separators(s: Seq<char>, i: int)
    requires
        spec_is_identifier(s),
        0 <= i < s.len(),
    ensures
        !spec_is_whitespace(s[i]),
        !spec_is_newline(s[i]),
        !spec_is_disallowed(s[i]),
{
    assert(spec_is_identifier_char(s[i]));
}

} // verus!
