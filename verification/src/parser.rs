//! Builds the document from the tokens.
//!
//! A node is an optional type annotation, a name, then arguments and
//! properties, then an optional children block. It ends at a `;`, at the `}`
//! of the block that holds it, at the end of the input, or at the first token
//! that begins a new line at a column no greater than the node's own: a line
//! indented deeper continues the node. `/-` comments out the node, entry or
//! children block that follows it.

use vstd::prelude::*;
use crate::document::{
    entries_view, ident_opt_view, node_view, nodes_view, KdlDocument, KdlEntry, KdlIdentifier,
    KdlNode, KdlValue, SpecEntry, SpecNode, SpecValue,
};
use crate::error::KdlError;
use crate::lexer::{SpecTok, SpecToken, Tok, Token, tokens_view};
use crate::text::chars_to_string;
use crate::words::{keyword_value, spec_keyword_value, spec_word_name, spec_word_value, word_value};

verus! {

/// The name a token stands for: a string, or a bare identifier.
#[verifier::opaque]
pub open spec fn spec_name_of(tok: SpecTok) -> Result<Seq<char>, KdlError> {
    match tok {
        SpecTok::Str(s) => Ok(s),
        SpecTok::Word(w) => spec_word_name(w),
        _ => Err(KdlError::UnexpectedToken),
    }
}

/// The value a token stands for.
#[verifier::opaque]
pub open spec fn spec_value_of(tok: SpecTok) -> Result<SpecValue, KdlError> {
    match tok {
        SpecTok::Str(s) => Ok(SpecValue::String(s)),
        SpecTok::Word(w) => spec_word_value(w),
        SpecTok::Keyword(k) => spec_keyword_value(k),
        _ => Err(KdlError::UnexpectedToken),
    }
}

/// An optional type annotation `(name)` at `p`, and the index after it.
pub open spec fn spec_type_annotation(t: Seq<SpecToken>, p: int) -> Result<
    (Option<Seq<char>>, int),
    KdlError,
> {
    if 0 <= p < t.len() && t[p].tok is LParen {
        if p + 2 < t.len() && t[p + 2].tok is RParen {
            match spec_name_of(t[p + 1].tok) {
                Ok(n) => Ok((Some(n), p + 3)),
                Err(e) => Err(e),
            }
        } else {
            Err(KdlError::UnexpectedToken)
        }
    } else {
        Ok((None, p))
    }
}

/// An argument `(type)value` or a property `key=(type)value` at `p`, and the
/// index after it.
pub open spec fn spec_parse_entry(t: Seq<SpecToken>, p: int) -> Result<(SpecEntry, int), KdlError> {
    match spec_type_annotation(t, p) {
        Err(e) => Err(e),
        Ok((ty, p1)) => if p1 < 0 || p1 >= t.len() {
            Err(KdlError::UnexpectedToken)
        } else if ty is None && p1 + 1 < t.len() && t[p1 + 1].tok is Equals {
            match spec_name_of(t[p1].tok) {
                Err(e) => Err(e),
                Ok(key) => match spec_type_annotation(t, p1 + 2) {
                    Err(e) => Err(e),
                    Ok((ty2, p3)) => if p3 >= t.len() {
                        Err(KdlError::UnexpectedToken)
                    } else {
                        match spec_value_of(t[p3].tok) {
                            Err(e) => Err(e),
                            Ok(v) => Ok((SpecEntry { ty: ty2, name: Some(key), value: v }, p3 + 1)),
                        }
                    },
                },
            }
        } else {
            match spec_value_of(t[p1].tok) {
                Err(e) => Err(e),
                Ok(v) => Ok((SpecEntry { ty, name: None, value: v }, p1 + 1)),
            }
        },
    }
}

pub open spec fn opt_cons(n: Option<SpecNode>, rest: Seq<SpecNode>) -> Seq<SpecNode> {
    match n {
        Some(x) => seq![x] + rest,
        None => rest,
    }
}

/// Whether the token `tk` ends a node that started at column `col`: it
/// begins a new line no deeper than the node.
pub open spec fn spec_ends_node(tk: SpecToken, col: int) -> bool {
    tk.line_start && tk.col <= col
}

/// The nodes from `p` up to the end of the input (at the top level) or up to
/// the `}` that closes the block (`in_block`), and the index where they end.
pub open spec fn spec_parse_nodes(t: Seq<SpecToken>, p: int, in_block: bool) -> Result<
    (Seq<SpecNode>, int),
    KdlError,
>
    decreases t.len() - p, 2int,
{
    if p < 0 {
        Err(KdlError::UnexpectedToken)
    } else if p >= t.len() {
        if in_block {
            Err(KdlError::UnclosedChildren)
        } else {
            Ok((Seq::empty(), p))
        }
    } else if t[p].tok is Semi {
        Err(KdlError::UnexpectedToken)
    } else if t[p].tok is RBrace {
        if in_block {
            Ok((Seq::empty(), p))
        } else {
            Err(KdlError::UnmatchedCloseBrace)
        }
    } else {
        match spec_parse_node(t, p) {
            Err(e) => Err(e),
            Ok((n, q)) => if q <= p || q > t.len() {
                Err(KdlError::UnexpectedToken)
            } else {
                match spec_parse_nodes(t, q, in_block) {
                    Err(e) => Err(e),
                    Ok((rest, r)) => Ok((opt_cons(n, rest), r)),
                }
            },
        }
    }
}

/// The node at `p` (`None` where it is commented out with `/-`), and the
/// index after it.
pub open spec fn spec_parse_node(t: Seq<SpecToken>, p: int) -> Result<
    (Option<SpecNode>, int),
    KdlError,
>
    decreases t.len() - p, 1int,
{
    if p < 0 || p >= t.len() {
        Err(KdlError::UnexpectedToken)
    } else {
        let sd = t[p].tok is SlashDash;
        let p0 = if sd {
            p + 1
        } else {
            p
        };
        match spec_type_annotation(t, p0) {
            Err(e) => Err(e),
            Ok((ty, p1)) => if p1 < p || p1 >= t.len() {
                Err(KdlError::UnexpectedToken)
            } else {
                match spec_name_of(t[p1].tok) {
                    Err(e) => Err(e),
                    Ok(name) => match spec_node_tail(t, p1 + 1, t[p].col, None) {
                        Err(e) => Err(e),
                        Ok((entries, kids, q)) => Ok(
                            (
                                if sd {
                                    None
                                } else {
                                    Some(SpecNode { ty, name, entries, children: kids })
                                },
                                q,
                            ),
                        ),
                    },
                }
            },
        }
    }
}

/// The entries and children block of a node that started at column `col`,
/// from `p` on (`kids` being the block already read, if any), and the index
/// after the node.
pub open spec fn spec_node_tail(
    t: Seq<SpecToken>,
    p: int,
    col: int,
    kids: Option<Seq<SpecNode>>,
) -> Result<(Seq<SpecEntry>, Option<Seq<SpecNode>>, int), KdlError>
    decreases t.len() - p, 0int,
{
    if p < 0 {
        Err(KdlError::UnexpectedToken)
    } else if p >= t.len() {
        Ok((Seq::empty(), kids, p))
    } else if spec_ends_node(t[p], col) {
        Ok((Seq::empty(), kids, p))
    } else if t[p].tok is Semi {
        Ok((Seq::empty(), kids, p + 1))
    } else if t[p].tok is RBrace {
        Ok((Seq::empty(), kids, p))
    } else if t[p].tok is LBrace {
        if kids is Some {
            Err(KdlError::UnexpectedToken)
        } else {
            match spec_parse_nodes(t, p + 1, true) {
                Err(e) => Err(e),
                Ok((block, q)) => if q < p + 1 || q >= t.len() {
                    Err(KdlError::UnclosedChildren)
                } else {
                    spec_node_tail(t, q + 1, col, Some(block))
                },
            }
        }
    } else if t[p].tok is SlashDash {
        if p + 1 < t.len() && t[p + 1].tok is LBrace {
            match spec_parse_nodes(t, p + 2, true) {
                Err(e) => Err(e),
                Ok((_, q)) => if q < p + 2 || q >= t.len() {
                    Err(KdlError::UnclosedChildren)
                } else {
                    spec_node_tail(t, q + 1, col, kids)
                },
            }
        } else if kids is Some {
            Err(KdlError::UnexpectedToken)
        } else {
            match spec_parse_entry(t, p + 1) {
                Err(e) => Err(e),
                Ok((_, q)) => if q <= p || q > t.len() {
                    Err(KdlError::UnexpectedToken)
                } else {
                    spec_node_tail(t, q, col, kids)
                },
            }
        }
    } else if kids is Some {
        Err(KdlError::UnexpectedToken)
    } else {
        match spec_parse_entry(t, p) {
            Err(e) => Err(e),
            Ok((e, q)) => if q <= p || q > t.len() {
                Err(KdlError::UnexpectedToken)
            } else {
                match spec_node_tail(t, q, col, kids) {
                    Err(err) => Err(err),
                    Ok((es, k2, r)) => Ok((seq![e] + es, k2, r)),
                }
            },
        }
    }
}

/// The document that the tokens `t` describe.
pub open spec fn spec_parse(t: Seq<SpecToken>) -> Result<Seq<SpecNode>, KdlError> {
    match spec_parse_nodes(t, 0, false) {
        Ok((nodes, _)) => Ok(nodes),
        Err(e) => Err(e),
    }
}

fn ident(v: &Vec<char>) -> (r: KdlIdentifier)
    ensures
        r.value@ == v@,
{
    let s = chars_to_string(v, 0, v.len());
    proof {
        assert(v@.subrange(0, v@.len() as int) =~= v@);
    }
    KdlIdentifier { value: s }
}

fn name_of(tok: &Tok) -> (r: Result<KdlIdentifier, KdlError>)
    ensures
        match (r, spec_name_of(tok@)) {
            (Ok(a), Ok(b)) => a.value@ == b,
            (Err(a), Err(b)) => a == b,
            _ => false,
        },
{
    proof {
        reveal(spec_name_of);
    }
    match tok {
        Tok::Str(v) => Ok(ident(v)),
        Tok::Word(w) => {
            if crate::validation::is_identifier(w) {
                Ok(ident(w))
            } else {
                Err(KdlError::InvalidIdentifier)
            }
        },
        _ => Err(KdlError::UnexpectedToken),
    }
}

fn value_of(tok: &Tok) -> (r: Result<KdlValue, KdlError>)
    ensures
        match (r, spec_value_of(tok@)) {
            (Ok(a), Ok(b)) => a@ == b,
            (Err(a), Err(b)) => a == b,
            _ => false,
        },
{
    proof {
        reveal(spec_value_of);
    }
    match tok {
        Tok::Str(v) => {
            let s = chars_to_string(v, 0, v.len());
            proof {
                assert(v@.subrange(0, v@.len() as int) =~= v@);
            }
            Ok(KdlValue::String(s))
        },
        Tok::Word(w) => word_value(w),
        Tok::Keyword(k) => keyword_value(k),
        _ => Err(KdlError::UnexpectedToken),
    }
}

fn type_annotation(t: &Vec<Token>, p: usize) -> (r: Result<(Option<KdlIdentifier>, usize), KdlError>)
    requires
        p <= t@.len(),
    ensures
        match (r, spec_type_annotation(tokens_view(t@), p as int)) {
            (Ok((a, q)), Ok((b, sq))) => ident_opt_view(a) == b && q as int == sq,
            (Err(a), Err(b)) => a == b,
            _ => false,
        },
        r matches Ok((_, q)) ==> p <= q <= t@.len(),
{
    let n = t.len();
    if p < n && matches!(t[p].tok, Tok::LParen) {
        if n - p > 2 && matches!(t[p + 2].tok, Tok::RParen) {
            match name_of(&t[p + 1].tok) {
                Ok(id) => Ok((Some(id), p + 3)),
                Err(e) => Err(e),
            }
        } else {
            Err(KdlError::UnexpectedToken)
        }
    } else {
        Ok((None, p))
    }
}

fn parse_entry(t: &Vec<Token>, p: usize) -> (r: Result<(KdlEntry, usize), KdlError>)
    requires
        p <= t@.len(),
    ensures
        match (r, spec_parse_entry(tokens_view(t@), p as int)) {
            (Ok((a, q)), Ok((b, sq))) => a@ == b && q as int == sq,
            (Err(a), Err(b)) => a == b,
            _ => false,
        },
        r matches Ok((_, q)) ==> p < q <= t@.len(),
{
    let n = t.len();
    match type_annotation(t, p) {
        Err(e) => Err(e),
        Ok((ty, p1)) => {
            if p1 >= n {
                return Err(KdlError::UnexpectedToken);
            }
            if ty.is_none() && n - p1 > 1 && matches!(t[p1 + 1].tok, Tok::Equals) {
                match name_of(&t[p1].tok) {
                    Err(e) => Err(e),
                    Ok(key) => match type_annotation(t, p1 + 2) {
                        Err(e) => Err(e),
                        Ok((ty2, p3)) => {
                            if p3 >= n {
                                return Err(KdlError::UnexpectedToken);
                            }
                            match value_of(&t[p3].tok) {
                                Err(e) => Err(e),
                                Ok(v) => Ok((KdlEntry { ty: ty2, name: Some(key), value: v }, p3 + 1)),
                            }
                        },
                    },
                }
            } else {
                match value_of(&t[p1].tok) {
                    Err(e) => Err(e),
                    Ok(v) => Ok((KdlEntry { ty, name: None, value: v }, p1 + 1)),
                }
            }
        },
    }
}

proof fn lemma_nodes_cons(n: KdlNode, v: Seq<KdlNode>)
    ensures
        nodes_view(seq![n] + v) == seq![node_view(n)] + nodes_view(v),
{
    assert(nodes_view(seq![n] + v) =~= seq![node_view(n)] + nodes_view(v)) by {
        assert forall|i: int| 0 <= i < v.len() + 1 implies nodes_view(seq![n] + v)[i] == (seq![
            node_view(n),
        ] + nodes_view(v))[i] by {
            if i > 0 {
                assert((seq![n] + v)[i] == v[i - 1]);
            }
        }
    }
}

/// See `spec_parse_nodes`.
fn parse_nodes(t: &Vec<Token>, p: usize, in_block: bool) -> (r: Result<(Vec<KdlNode>, usize), KdlError>)
    requires
        p <= t@.len(),
    ensures
        match (r, spec_parse_nodes(tokens_view(t@), p as int, in_block)) {
            (Ok((a, q)), Ok((b, sq))) => nodes_view(a@) == b && q as int == sq,
            (Err(a), Err(b)) => a == b,
            _ => false,
        },
        r matches Ok((_, q)) ==> p <= q <= t@.len(),
        in_block ==> (r matches Ok((_, q)) ==> q < t@.len()),
    decreases t@.len() - p, 2int,
{
    let ghost tv = tokens_view(t@);
    let n = t.len();
    if p >= n {
        if in_block {
            return Err(KdlError::UnclosedChildren);
        } else {
            proof {
                assert(nodes_view(Seq::<KdlNode>::empty()) =~= Seq::<SpecNode>::empty());
            }
            return Ok((Vec::new(), p));
        }
    }
    assert(tv[p as int] == t@[p as int]@);
    if matches!(t[p].tok, Tok::Semi) {
        return Err(KdlError::UnexpectedToken);
    }
    if matches!(t[p].tok, Tok::RBrace) {
        if in_block {
            proof {
                assert(nodes_view(Seq::<KdlNode>::empty()) =~= Seq::<SpecNode>::empty());
            }
            return Ok((Vec::new(), p));
        } else {
            return Err(KdlError::UnmatchedCloseBrace);
        }
    }
    match parse_node(t, p) {
        Err(e) => Err(e),
        Ok((node, q)) => {
            match parse_nodes(t, q, in_block) {
                Err(e) => Err(e),
                Ok((rest, r)) => {
                    let ghost rest_v = rest@;
                    match node {
                        Some(nd) => {
                            let ghost ndv = nd;
                            let mut out = rest;
                            out.insert(0, nd);
                            proof {
                                assert(out@ =~= seq![ndv] + rest_v);
                                lemma_nodes_cons(ndv, rest_v);
                            }
                            Ok((out, r))
                        },
                        None => Ok((rest, r)),
                    }
                },
            }
        },
    }
}

/// See `spec_parse_node`.
fn parse_node(t: &Vec<Token>, p: usize) -> (r: Result<(Option<KdlNode>, usize), KdlError>)
    requires
        p < t@.len(),
    ensures
        match (r, spec_parse_node(tokens_view(t@), p as int)) {
            (Ok((a, q)), Ok((b, sq))) => (match (a, b) {
                (Some(x), Some(y)) => node_view(x) == y,
                (None, None) => true,
                _ => false,
            }) && q as int == sq,
            (Err(a), Err(b)) => a == b,
            _ => false,
        },
        r matches Ok((_, q)) ==> p < q <= t@.len(),
    decreases t@.len() - p, 1int,
{
    let ghost tv = tokens_view(t@);
    let n = t.len();
    assert(tv[p as int] == t@[p as int]@);
    let sd = matches!(t[p].tok, Tok::SlashDash);
    let p0 = if sd {
        p + 1
    } else {
        p
    };
    let col = t[p].col;
    match type_annotation(t, p0) {
        Err(e) => Err(e),
        Ok((ty, p1)) => {
            if p1 >= n {
                return Err(KdlError::UnexpectedToken);
            }
            assert(tv[p1 as int] == t@[p1 as int]@);
            match name_of(&t[p1].tok) {
                Err(e) => Err(e),
                Ok(name) => {
                    let ghost sname = name.value@;
                    proof {
                        assert(kids_view(None) == None::<Seq<SpecNode>>);
                    }
                    match node_tail(t, p1 + 1, col, None) {
                        Err(e) => Err(e),
                        Ok((entries, kids, q)) => {
                            if sd {
                                Ok((None, q))
                            } else {
                                let node = KdlNode { ty, name, entries, children: kids };
                                proof {
                                    assert(node_view(node).children == kids_view(node.children));
                                }
                                Ok((Some(node), q))
                            }
                        },
                    }
                },
            }
        },
    }
}

pub open spec fn kids_view(k: Option<KdlDocument>) -> Option<Seq<SpecNode>> {
    match k {
        Some(d) => Some(nodes_view(d.nodes@)),
        None => None,
    }
}

/// See `spec_node_tail`.
fn node_tail(t: &Vec<Token>, p: usize, col: usize, kids: Option<KdlDocument>) -> (r: Result<
    (Vec<KdlEntry>, Option<KdlDocument>, usize),
    KdlError,
>)
    requires
        p <= t@.len(),
    ensures
        match (r, spec_node_tail(tokens_view(t@), p as int, col as int, kids_view(kids))) {
            (Ok((a, k, q)), Ok((b, sk, sq))) => entries_view(a@) == b && kids_view(k) == sk && q
                as int == sq,
            (Err(a), Err(b)) => a == b,
            _ => false,
        },
        r matches Ok((_, _, q)) ==> p <= q <= t@.len(),
    decreases t@.len() - p, 0int,
{
    let ghost tv = tokens_view(t@);
    let n = t.len();
    if p >= n {
        proof {
            assert(entries_view(Seq::<KdlEntry>::empty()) =~= Seq::<SpecEntry>::empty());
        }
        return Ok((Vec::new(), kids, p));
    }
    assert(tv[p as int] == t@[p as int]@);
    if t[p].line_start && t[p].col <= col {
        proof {
            assert(entries_view(Seq::<KdlEntry>::empty()) =~= Seq::<SpecEntry>::empty());
        }
        return Ok((Vec::new(), kids, p));
    }
    if matches!(t[p].tok, Tok::Semi) {
        proof {
            assert(entries_view(Seq::<KdlEntry>::empty()) =~= Seq::<SpecEntry>::empty());
        }
        return Ok((Vec::new(), kids, p + 1));
    }
    if matches!(t[p].tok, Tok::RBrace) {
        proof {
            assert(entries_view(Seq::<KdlEntry>::empty()) =~= Seq::<SpecEntry>::empty());
        }
        return Ok((Vec::new(), kids, p));
    }
    if matches!(t[p].tok, Tok::LBrace) {
        if kids.is_some() {
            return Err(KdlError::UnexpectedToken);
        }
        match parse_nodes(t, p + 1, true) {
            Err(e) => {
                return Err(e);
            },
            Ok((block, q)) => {
                return node_tail(t, q + 1, col, Some(KdlDocument { nodes: block }));
            },
        }
    }
    if matches!(t[p].tok, Tok::SlashDash) {
        if n - p > 1 && matches!(t[p + 1].tok, Tok::LBrace) {
            assert(tv[p + 1] == t@[p + 1]@);
            match parse_nodes(t, p + 2, true) {
                Err(e) => {
                    return Err(e);
                },
                Ok((_, q)) => {
                    return node_tail(t, q + 1, col, kids);
                },
            }
        }
        if n - p > 1 {
            assert(tv[p + 1] == t@[p + 1]@);
        }
        if kids.is_some() {
            return Err(KdlError::UnexpectedToken);
        }
        match parse_entry(t, p + 1) {
            Err(e) => {
                return Err(e);
            },
            Ok((_, q)) => {
                return node_tail(t, q, col, kids);
            },
        }
    }
    if kids.is_some() {
        return Err(KdlError::UnexpectedToken);
    }
    match parse_entry(t, p) {
        Err(e) => Err(e),
        Ok((e, q)) => match node_tail(t, q, col, kids) {
            Err(err) => Err(err),
            Ok((es, k2, r)) => {
                let ghost ev = e;
                let ghost es_v = es@;
                let mut out = es;
                out.insert(0, e);
                proof {
                    assert(out@ =~= seq![ev] + es_v);
                    assert(entries_view(out@) =~= seq![ev@] + entries_view(es_v));
                }
                Ok((out, k2, r))
            },
        },
    }
}

/// Builds the document from the tokens; see `spec_parse`.
pub fn parse(t: &Vec<Token>) -> (r: Result<KdlDocument, KdlError>)
    ensures
        match (r, spec_parse(tokens_view(t@))) {
            (Ok(d), Ok(b)) => d@ == b,
            (Err(a), Err(b)) => a == b,
            _ => false,
        },
{
    match parse_nodes(t, 0, false) {
        Ok((nodes, _)) => Ok(KdlDocument { nodes }),
        Err(e) => Err(e),
    }
}

} // verus!
