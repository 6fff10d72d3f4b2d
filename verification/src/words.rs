//! Bare words and `#` keywords: what a word means as a value and as a name.

use vstd::prelude::*;
use crate::document::{KdlValue, SpecValue};
use crate::error::KdlError;
use crate::number::{number, spec_number};
use crate::text::chars_to_string;
use crate::validation::{
    chars_eq, is_reserved_word, spec_is_identifier, spec_is_reserved_word, spec_starts_dotted_numeric,
    spec_starts_numeric, starts_dotted_numeric, starts_numeric,
};

verus! {

/// The value of a bare word: a number where it starts like one, the
/// keywords `true`, `false`, `null`, and otherwise the word as a string.
/// `inf`, `-inf` and `nan` are reserved and need a `#`.
pub open spec fn spec_word_value(w: Seq<char>) -> Result<SpecValue, KdlError> {
    if spec_starts_numeric(w) {
        spec_number(w)
    } else if spec_starts_dotted_numeric(w) {
        Err(KdlError::InvalidNumber)
    } else if w == seq!['t', 'r', 'u', 'e'] {
        Ok(SpecValue::Bool(true))
    } else if w == seq!['f', 'a', 'l', 's', 'e'] {
        Ok(SpecValue::Bool(false))
    } else if w == seq!['n', 'u', 'l', 'l'] {
        Ok(SpecValue::Null)
    } else if spec_is_reserved_word(w) {
        Err(KdlError::InvalidIdentifier)
    } else {
        Ok(SpecValue::String(w))
    }
}

/// A bare word used as a name: it must be an identifier.
pub open spec fn spec_word_name(w: Seq<char>) -> Result<Seq<char>, KdlError> {
    if spec_is_identifier(w) {
        Ok(w)
    } else {
        Err(KdlError::InvalidIdentifier)
    }
}

/// The value of the keyword `#k`.
pub open spec fn spec_keyword_value(k: Seq<char>) -> Result<SpecValue, KdlError> {
    if k == seq!['t', 'r', 'u', 'e'] {
        Ok(SpecValue::Bool(true))
    } else if k == seq!['f', 'a', 'l', 's', 'e'] {
        Ok(SpecValue::Bool(false))
    } else if k == seq!['n', 'u', 'l', 'l'] {
        Ok(SpecValue::Null)
    } else if k == seq!['i', 'n', 'f'] || k == seq!['-', 'i', 'n', 'f'] || k == seq!['n', 'a', 'n'] {
        Ok(SpecValue::Float(k))
    } else {
        Err(KdlError::InvalidKeyword)
    }
}

pub fn word_value(w: &Vec<char>) -> (r: Result<KdlValue, KdlError>)
    ensures
        match (r, spec_word_value(w@)) {
            (Ok(a), Ok(b)) => a@ == b,
            (Err(a), Err(b)) => a == b,
            _ => false,
        },
{
    if starts_numeric(w) {
        return number(w);
    }
    if starts_dotted_numeric(w) {
        return Err(KdlError::InvalidNumber);
    }
    let t = ['t', 'r', 'u', 'e'];
    let f = ['f', 'a', 'l', 's', 'e'];
    let n = ['n', 'u', 'l', 'l'];
    proof {
        assert(t@ =~= seq!['t', 'r', 'u', 'e']);
        assert(f@ =~= seq!['f', 'a', 'l', 's', 'e']);
        assert(n@ =~= seq!['n', 'u', 'l', 'l']);
    }
    if chars_eq(w, &t) {
        Ok(KdlValue::Bool(true))
    } else if chars_eq(w, &f) {
        Ok(KdlValue::Bool(false))
    } else if chars_eq(w, &n) {
        Ok(KdlValue::Null)
    } else if is_reserved_word(w) {
        Err(KdlError::InvalidIdentifier)
    } else {
        let s = chars_to_string(w, 0, w.len());
        proof {
            assert(w@.subrange(0, w@.len() as int) =~= w@);
        }
        Ok(KdlValue::String(s))
    }
}

pub fn keyword_value(k: &Vec<char>) -> (r: Result<KdlValue, KdlError>)
    ensures
        match (r, spec_keyword_value(k@)) {
            (Ok(a), Ok(b)) => a@ == b,
            (Err(a), Err(b)) => a == b,
            _ => false,
        },
{
    let t = ['t', 'r', 'u', 'e'];
    let f = ['f', 'a', 'l', 's', 'e'];
    let n = ['n', 'u', 'l', 'l'];
    let i = ['i', 'n', 'f'];
    let mi = ['-', 'i', 'n', 'f'];
    let na = ['n', 'a', 'n'];
    proof {
        assert(t@ =~= seq!['t', 'r', 'u', 'e']);
        assert(f@ =~= seq!['f', 'a', 'l', 's', 'e']);
        assert(n@ =~= seq!['n', 'u', 'l', 'l']);
        assert(i@ =~= seq!['i', 'n', 'f']);
        assert(mi@ =~= seq!['-', 'i', 'n', 'f']);
        assert(na@ =~= seq!['n', 'a', 'n']);
        assert(k@.subrange(0, k@.len() as int) =~= k@);
    }
    if chars_eq(k, &t) {
        Ok(KdlValue::Bool(true))
    } else if chars_eq(k, &f) {
        Ok(KdlValue::Bool(false))
    } else if chars_eq(k, &n) {
        Ok(KdlValue::Null)
    } else if chars_eq(k, &i) || chars_eq(k, &mi) || chars_eq(k, &na) {
        Ok(KdlValue::Float(chars_to_string(k, 0, k.len())))
    } else {
        Err(KdlError::InvalidKeyword)
    }
}

} // verus!
