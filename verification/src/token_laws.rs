//! Laws of the parser over token sequences.
//!
//! The parser reads what follows a position without looking back, so a run
//! of tokens reads the same wherever it stands (the shift lemmas). A complete
//! run of tokens reads the same when more tokens follow, up to the point
//! where it ended (the extension lemmas). From these follow the laws: nodes
//! joined by `;` are read one after another, and `/-` removes exactly the
//! node, entry or children block that it comments out.

use vstd::prelude::*;
use crate::document::{SpecEntry, SpecNode};
use crate::error::KdlError;
use crate::lexer::{SpecTok, SpecToken};
use crate::parser::{
    opt_cons, spec_ends_node, spec_name_of, spec_node_tail, spec_parse, spec_parse_entry,
    spec_parse_node, spec_parse_nodes, spec_type_annotation, spec_value_of,
};

verus! {

/// `r` with the index it ends at moved by `o`.
pub open spec fn shift_ty(r: Result<(Option<Seq<char>>, int), KdlError>, o: int) -> Result<
    (Option<Seq<char>>, int),
    KdlError,
> {
    match r {
        Ok((ty, q)) => Ok((ty, q + o)),
        Err(e) => Err(e),
    }
}

/// `r` with the index it ends at moved by `o`.
pub open spec fn shift_entry(r: Result<(SpecEntry, int), KdlError>, o: int) -> Result<
    (SpecEntry, int),
    KdlError,
> {
    match r {
        Ok((e, q)) => Ok((e, q + o)),
        Err(e) => Err(e),
    }
}

/// `r` with the index it ends at moved by `o`.
pub open spec fn shift_tail(
    r: Result<(Seq<SpecEntry>, Option<Seq<SpecNode>>, int), KdlError>,
    o: int,
) -> Result<(Seq<SpecEntry>, Option<Seq<SpecNode>>, int), KdlError> {
    match r {
        Ok((es, kids, q)) => Ok((es, kids, q + o)),
        Err(e) => Err(e),
    }
}

/// `r` with the index it ends at moved by `o`.
pub open spec fn shift_node(r: Result<(Option<SpecNode>, int), KdlError>, o: int) -> Result<
    (Option<SpecNode>, int),
    KdlError,
> {
    match r {
        Ok((n, q)) => Ok((n, q + o)),
        Err(e) => Err(e),
    }
}

/// `r` with the index it ends at moved by `o`.
pub open spec fn shift_nodes(r: Result<(Seq<SpecNode>, int), KdlError>, o: int) -> Result<
    (Seq<SpecNode>, int),
    KdlError,
> {
    match r {
        Ok((ns, q)) => Ok((ns, q + o)),
        Err(e) => Err(e),
    }
}

/// A type annotation reads the same after any tokens `pre`.
pub proof fn lemma_shift_type_annotation(pre: Seq<SpecToken>, t: Seq<SpecToken>, p: int)
    requires
        0 <= p,
    ensures
        spec_type_annotation(pre + t, pre.len() + p) == shift_ty(
            spec_type_annotation(t, p),
            pre.len() as int,
        ),
        spec_type_annotation(t, p) matches Ok((_, q)) ==> p <= q,
{
    let u = pre + t;
    let o = pre.len() as int;
    if p < t.len() {
        assert(u[o + p] == t[p]);
        if p + 2 < t.len() {
            assert(u[o + p + 1] == t[p + 1]);
            assert(u[o + p + 2] == t[p + 2]);
        }
    }
}

/// An entry reads the same after any tokens `pre`.
pub proof fn lemma_shift_entry(pre: Seq<SpecToken>, t: Seq<SpecToken>, p: int)
    requires
        0 <= p,
    ensures
        spec_parse_entry(pre + t, pre.len() + p) == shift_entry(
            spec_parse_entry(t, p),
            pre.len() as int,
        ),
        spec_parse_entry(t, p) matches Ok((_, q)) ==> p < q,
{
    let u = pre + t;
    let o = pre.len() as int;
    lemma_shift_type_annotation(pre, t, p);
    match spec_type_annotation(t, p) {
        Err(_) => {},
        Ok((ty, p1)) => {
            if p1 < t.len() {
                assert(u[o + p1] == t[p1]);
                if p1 + 1 < t.len() {
                    assert(u[o + p1 + 1] == t[p1 + 1]);
                }
                lemma_shift_type_annotation(pre, t, p1 + 2);
                match spec_type_annotation(t, p1 + 2) {
                    Err(_) => {},
                    Ok((_, p3)) => {
                        if p3 < t.len() {
                            assert(u[o + p3] == t[p3]);
                        }
                    },
                }
            }
        },
    }
}

/// The nodes from `p` on read the same after any tokens `pre`.
#[verifier::spinoff_prover]
#[verifier::rlimit(50)]
pub proof fn lemma_shift_nodes(pre: Seq<SpecToken>, t: Seq<SpecToken>, p: int, in_block: bool)
    requires
        0 <= p,
    ensures
        spec_parse_nodes(pre + t, pre.len() + p, in_block) == shift_nodes(
            spec_parse_nodes(t, p, in_block),
            pre.len() as int,
        ),
        spec_parse_nodes(t, p, in_block) matches Ok((_, q)) ==> p <= q,
    decreases t.len() - p, 2int, 0int,
{
    let u = pre + t;
    let o = pre.len() as int;
    if p < t.len() {
        assert(u[o + p] == t[p]);
        if !(t[p].tok is Semi) && !(t[p].tok is RBrace) {
            lemma_shift_node(pre, t, p);
            match spec_parse_node(t, p) {
                Err(_) => {},
                Ok((_, q)) => {
                    if p < q <= t.len() {
                        lemma_shift_nodes(pre, t, q, in_block);
                    }
                },
            }
        }
    }
}

/// A node reads the same after any tokens `pre`.
#[verifier::spinoff_prover]
#[verifier::rlimit(50)]
pub proof fn lemma_shift_node(pre: Seq<SpecToken>, t: Seq<SpecToken>, p: int)
    requires
        0 <= p,
    ensures
        spec_parse_node(pre + t, pre.len() + p) == shift_node(
            spec_parse_node(t, p),
            pre.len() as int,
        ),
        spec_parse_node(t, p) matches Ok((_, q)) ==> p < q,
    decreases t.len() - p, 1int, 0int,
{
    let u = pre + t;
    let o = pre.len() as int;
    if p < t.len() {
        assert(u[o + p] == t[p]);
        let p0 = if t[p].tok is SlashDash {
            p + 1
        } else {
            p
        };
        lemma_shift_type_annotation(pre, t, p0);
        match spec_type_annotation(t, p0) {
            Err(_) => {},
            Ok((_, p1)) => {
                if p <= p1 < t.len() {
                    assert(u[o + p1] == t[p1]);
                    lemma_shift_tail(pre, t, p1 + 1, t[p].col, None);
                }
            },
        }
    }
}

/// What `lemma_shift_tail` states, for `p` and its arguments.
pub open spec fn tail_shifts(
    pre: Seq<SpecToken>,
    t: Seq<SpecToken>,
    p: int,
    col: int,
    kids: Option<Seq<SpecNode>>,
) -> bool {
    &&& spec_node_tail(pre + t, pre.len() + p, col, kids) == shift_tail(
        spec_node_tail(t, p, col, kids),
        pre.len() as int,
    )
    &&& spec_node_tail(t, p, col, kids) matches Ok((_, _, q)) ==> p <= q
}

/// The rest of a node reads the same after any tokens `pre`.
pub proof fn lemma_shift_tail(
    pre: Seq<SpecToken>,
    t: Seq<SpecToken>,
    p: int,
    col: int,
    kids: Option<Seq<SpecNode>>,
)
    requires
        0 <= p,
    ensures
        tail_shifts(pre, t, p, col, kids),
    decreases t.len() - p, 0int, 1int,
{
    let u = pre + t;
    let o = pre.len() as int;
    if p < t.len() {
        assert(u[o + p] == t[p]);
        if spec_ends_node(t[p], col) || t[p].tok is Semi || t[p].tok is RBrace {
        } else if t[p].tok is LBrace {
            lemma_shift_tail_block(pre, t, p, col, kids);
        } else if t[p].tok is SlashDash {
            lemma_shift_tail_slashdash(pre, t, p, col, kids);
        } else {
            lemma_shift_tail_entry(pre, t, p, col, kids);
        }
    }
}

proof fn lemma_shift_tail_block(
    pre: Seq<SpecToken>,
    t: Seq<SpecToken>,
    p: int,
    col: int,
    kids: Option<Seq<SpecNode>>,
)
    requires
        0 <= p < t.len(),
        !spec_ends_node(t[p], col),
        t[p].tok is LBrace,
    ensures
        tail_shifts(pre, t, p, col, kids),
    decreases t.len() - p, 0int, 0int,
{
    let u = pre + t;
    let o = pre.len() as int;
    assert(u[o + p] == t[p]);
    if kids is None {
        lemma_shift_nodes(pre, t, p + 1, true);
        match spec_parse_nodes(t, p + 1, true) {
            Err(_) => {},
            Ok((block, q)) => {
                if p + 1 <= q < t.len() {
                    lemma_shift_tail(pre, t, q + 1, col, Some(block));
                }
            },
        }
    }
}

proof fn lemma_shift_tail_slashdash(
    pre: Seq<SpecToken>,
    t: Seq<SpecToken>,
    p: int,
    col: int,
    kids: Option<Seq<SpecNode>>,
)
    requires
        0 <= p < t.len(),
        !spec_ends_node(t[p], col),
        t[p].tok is SlashDash,
    ensures
        tail_shifts(pre, t, p, col, kids),
    decreases t.len() - p, 0int, 0int,
{
    let u = pre + t;
    let o = pre.len() as int;
    assert(u[o + p] == t[p]);
    if p + 1 < t.len() {
        assert(u[o + p + 1] == t[p + 1]);
    }
    if p + 1 < t.len() && t[p + 1].tok is LBrace {
        lemma_shift_nodes(pre, t, p + 2, true);
        match spec_parse_nodes(t, p + 2, true) {
            Err(_) => {},
            Ok((_, q)) => {
                if p + 2 <= q < t.len() {
                    lemma_shift_tail(pre, t, q + 1, col, kids);
                }
            },
        }
    } else if kids is None {
        lemma_shift_entry(pre, t, p + 1);
        match spec_parse_entry(t, p + 1) {
            Err(_) => {},
            Ok((_, q)) => {
                if p < q <= t.len() {
                    lemma_shift_tail(pre, t, q, col, kids);
                }
            },
        }
    }
}

proof fn lemma_shift_tail_entry(
    pre: Seq<SpecToken>,
    t: Seq<SpecToken>,
    p: int,
    col: int,
    kids: Option<Seq<SpecNode>>,
)
    requires
        0 <= p < t.len(),
        !spec_ends_node(t[p], col),
        !(t[p].tok is Semi),
        !(t[p].tok is RBrace),
        !(t[p].tok is LBrace),
        !(t[p].tok is SlashDash),
    ensures
        tail_shifts(pre, t, p, col, kids),
    decreases t.len() - p, 0int, 0int,
{
    let u = pre + t;
    let o = pre.len() as int;
    assert(u[o + p] == t[p]);
    if kids is None {
        lemma_shift_entry(pre, t, p);
        match spec_parse_entry(t, p) {
            Err(_) => {},
            Ok((_, q)) => {
                if p < q <= t.len() {
                    lemma_shift_tail(pre, t, q, col, kids);
                }
            },
        }
    }
}

/// Whether tokens `s` may follow the tokens `t1` without changing how the
/// parser reads `t1` up to its end: `s` does not begin with `=` (which would
/// turn a last argument into a property), and `t1` does not end with `;`.
pub open spec fn extends_cleanly(t1: Seq<SpecToken>, s: Seq<SpecToken>) -> bool {
    &&& (s.len() > 0 ==> !(s[0].tok is Equals))
    &&& (t1.len() > 0 ==> !(t1[t1.len() - 1].tok is Semi))
}

/// `r` with the entries `es` read before it.
pub open spec fn cont_tail(
    es: Seq<SpecEntry>,
    r: Result<(Seq<SpecEntry>, Option<Seq<SpecNode>>, int), KdlError>,
) -> Result<(Seq<SpecEntry>, Option<Seq<SpecNode>>, int), KdlError> {
    match r {
        Ok((es2, kids, q)) => Ok((es + es2, kids, q)),
        Err(e) => Err(e),
    }
}

/// `r` with the nodes `ns` read before it.
pub open spec fn cont_nodes(ns: Seq<SpecNode>, r: Result<(Seq<SpecNode>, int), KdlError>) -> Result<
    (Seq<SpecNode>, int),
    KdlError,
> {
    match r {
        Ok((ns2, q)) => Ok((ns + ns2, q)),
        Err(e) => Err(e),
    }
}

/// A type annotation read within `t1` reads the same with `s` after it.
pub proof fn lemma_extend_type_annotation(t1: Seq<SpecToken>, s: Seq<SpecToken>, p: int)
    requires
        0 <= p < t1.len(),
    ensures
        spec_type_annotation(t1, p) matches Ok((_, q)) ==> q <= t1.len()
            && spec_type_annotation(t1 + s, p) == spec_type_annotation(t1, p),
{
    let u = t1 + s;
    assert(u[p] == t1[p]);
    if p + 2 < t1.len() {
        assert(u[p + 1] == t1[p + 1]);
        assert(u[p + 2] == t1[p + 2]);
    }
}

/// An entry read within `t1` reads the same with `s` after it.
pub proof fn lemma_extend_entry(t1: Seq<SpecToken>, s: Seq<SpecToken>, p: int)
    requires
        0 <= p < t1.len(),
        extends_cleanly(t1, s),
    ensures
        spec_parse_entry(t1, p) matches Ok((_, q)) ==> q <= t1.len()
            && spec_parse_entry(t1 + s, p) == spec_parse_entry(t1, p),
{
    let u = t1 + s;
    let l = t1.len() as int;
    lemma_extend_type_annotation(t1, s, p);
    match spec_type_annotation(t1, p) {
        Err(_) => {},
        Ok((_, p1)) => {
            if p1 < l {
                assert(u[p1] == t1[p1]);
                if p1 + 1 < l {
                    assert(u[p1 + 1] == t1[p1 + 1]);
                } else if s.len() > 0 {
                    assert(u[p1 + 1] == s[0]);
                }
                if p1 + 2 < l {
                    lemma_extend_type_annotation(t1, s, p1 + 2);
                    match spec_type_annotation(t1, p1 + 2) {
                        Err(_) => {},
                        Ok((_, p3)) => {
                            if p3 < l {
                                assert(u[p3] == t1[p3]);
                            }
                        },
                    }
                }
            }
        },
    }
}

/// What `lemma_extend_tail` states: the rest of a node read within `t1`
/// reads the same with `s` after it, and where it reached the end of `t1`,
/// it goes on with what follows there.
pub open spec fn tail_extends(
    t1: Seq<SpecToken>,
    s: Seq<SpecToken>,
    p: int,
    col: int,
    kids: Option<Seq<SpecNode>>,
) -> bool {
    match spec_node_tail(t1, p, col, kids) {
        Ok((es, kk, q)) => {
            &&& q <= t1.len()
            &&& q < t1.len() ==> spec_node_tail(t1 + s, p, col, kids) == spec_node_tail(
                t1,
                p,
                col,
                kids,
            )
            &&& q == t1.len() ==> spec_node_tail(t1 + s, p, col, kids) == cont_tail(
                es,
                spec_node_tail(t1 + s, t1.len() as int, col, kk),
            )
        },
        Err(_) => true,
    }
}

/// The rest of a node read within `t1`, with `s` after it.
pub proof fn lemma_extend_tail(
    t1: Seq<SpecToken>,
    s: Seq<SpecToken>,
    p: int,
    col: int,
    kids: Option<Seq<SpecNode>>,
)
    requires
        0 <= p <= t1.len(),
        extends_cleanly(t1, s),
    ensures
        tail_extends(t1, s, p, col, kids),
    decreases t1.len() - p, 0int, 1int,
{
    let u = t1 + s;
    let l = t1.len() as int;
    if p == l {
        match spec_node_tail(u, l, col, kids) {
            Ok((es2, _, _)) => {
                assert(Seq::<SpecEntry>::empty() + es2 =~= es2);
            },
            Err(_) => {},
        }
    } else {
        assert(u[p] == t1[p]);
        if spec_ends_node(t1[p], col) || t1[p].tok is Semi || t1[p].tok is RBrace {
        } else if t1[p].tok is LBrace {
            lemma_extend_tail_block(t1, s, p, col, kids);
        } else if t1[p].tok is SlashDash {
            lemma_extend_tail_slashdash(t1, s, p, col, kids);
        } else {
            lemma_extend_tail_entry(t1, s, p, col, kids);
        }
    }
}

proof fn lemma_extend_tail_block(
    t1: Seq<SpecToken>,
    s: Seq<SpecToken>,
    p: int,
    col: int,
    kids: Option<Seq<SpecNode>>,
)
    requires
        0 <= p < t1.len(),
        extends_cleanly(t1, s),
        !spec_ends_node(t1[p], col),
        t1[p].tok is LBrace,
    ensures
        tail_extends(t1, s, p, col, kids),
    decreases t1.len() - p, 0int, 0int,
{
    let u = t1 + s;
    assert(u[p] == t1[p]);
    if kids is None {
        lemma_extend_nodes(t1, s, p + 1, true, false);
        match spec_parse_nodes(t1, p + 1, true) {
            Err(_) => {},
            Ok((block, q)) => {
                if p + 1 <= q < t1.len() {
                    lemma_extend_tail(t1, s, q + 1, col, Some(block));
                }
            },
        }
    }
}

proof fn lemma_extend_tail_slashdash(
    t1: Seq<SpecToken>,
    s: Seq<SpecToken>,
    p: int,
    col: int,
    kids: Option<Seq<SpecNode>>,
)
    requires
        0 <= p < t1.len(),
        extends_cleanly(t1, s),
        !spec_ends_node(t1[p], col),
        t1[p].tok is SlashDash,
    ensures
        tail_extends(t1, s, p, col, kids),
    decreases t1.len() - p, 0int, 0int,
{
    let u = t1 + s;
    let l = t1.len() as int;
    assert(u[p] == t1[p]);
    if p + 1 < l {
        assert(u[p + 1] == t1[p + 1]);
        if t1[p + 1].tok is LBrace {
            lemma_extend_nodes(t1, s, p + 2, true, false);
            match spec_parse_nodes(t1, p + 2, true) {
                Err(_) => {},
                Ok((_, q)) => {
                    if p + 2 <= q < l {
                        lemma_extend_tail(t1, s, q + 1, col, kids);
                    }
                },
            }
        } else if kids is None {
            lemma_extend_entry(t1, s, p + 1);
            match spec_parse_entry(t1, p + 1) {
                Err(_) => {},
                Ok((_, q)) => {
                    if p < q <= l {
                        lemma_extend_tail(t1, s, q, col, kids);
                    }
                },
            }
        }
    }
}

proof fn lemma_extend_tail_entry(
    t1: Seq<SpecToken>,
    s: Seq<SpecToken>,
    p: int,
    col: int,
    kids: Option<Seq<SpecNode>>,
)
    requires
        0 <= p < t1.len(),
        extends_cleanly(t1, s),
        !spec_ends_node(t1[p], col),
        !(t1[p].tok is Semi),
        !(t1[p].tok is RBrace),
        !(t1[p].tok is LBrace),
        !(t1[p].tok is SlashDash),
    ensures
        tail_extends(t1, s, p, col, kids),
    decreases t1.len() - p, 0int, 0int,
{
    let u = t1 + s;
    let l = t1.len() as int;
    assert(u[p] == t1[p]);
    if kids is None {
        lemma_extend_entry(t1, s, p);
        match spec_parse_entry(t1, p) {
            Err(_) => {},
            Ok((e, q)) => {
                if p < q <= l {
                    lemma_extend_tail(t1, s, q, col, kids);
                    match spec_node_tail(t1, q, col, kids) {
                        Err(_) => {},
                        Ok((es, kk, r)) => {
                            if r == l {
                                match spec_node_tail(u, l, col, kk) {
                                    Err(_) => {},
                                    Ok((es2, _, _)) => {
                                        assert(seq![e] + (es + es2) =~= (seq![e] + es) + es2);
                                    },
                                }
                            }
                        },
                    }
                }
            },
        }
    }
}

/// Whether `s` begins with a `;` on the line of what precedes it.
pub open spec fn starts_with_semicolon(s: Seq<SpecToken>) -> bool {
    s.len() > 0 && s[0].tok is Semi && !s[0].line_start
}

/// A node read within `t1`, with `s` after it.
pub proof fn lemma_extend_node(t1: Seq<SpecToken>, s: Seq<SpecToken>, p: int, semi: bool)
    requires
        0 <= p < t1.len(),
        extends_cleanly(t1, s),
        semi ==> starts_with_semicolon(s),
    ensures
        spec_parse_node(t1, p) matches Ok((n, q)) ==> {
            &&& q <= t1.len()
            &&& q < t1.len() ==> spec_parse_node(t1 + s, p) == spec_parse_node(t1, p)
            &&& q == t1.len() && semi ==> spec_parse_node(t1 + s, p) == Ok::<
                (Option<SpecNode>, int),
                KdlError,
            >((n, t1.len() + 1 as int))
        },
    decreases t1.len() - p, 1int, 0int,
{
    let u = t1 + s;
    let l = t1.len() as int;
    assert(u[p] == t1[p]);
    let p0 = if t1[p].tok is SlashDash {
        p + 1
    } else {
        p
    };
    if p0 < l {
        lemma_extend_type_annotation(t1, s, p0);
        match spec_type_annotation(t1, p0) {
            Err(_) => {},
            Ok((_, p1)) => {
                if p <= p1 < l {
                    assert(u[p1] == t1[p1]);
                    lemma_extend_tail(t1, s, p1 + 1, t1[p].col, None);
                    match spec_node_tail(t1, p1 + 1, t1[p].col, None) {
                        Err(_) => {},
                        Ok((es, kk, q)) => {
                            if q == l && semi {
                                assert(u[l] == s[0]);
                                assert(es + Seq::<SpecEntry>::empty() =~= es);
                            }
                        },
                    }
                }
            },
        }
    }
}

/// The nodes read within `t1`, with `s` after it: a block reads the same;
/// at the top level, where `s` begins with `;`, the nodes of `t1` are
/// followed by those read after that `;`.
#[verifier::spinoff_prover]
#[verifier::rlimit(40)]
pub proof fn lemma_extend_nodes(
    t1: Seq<SpecToken>,
    s: Seq<SpecToken>,
    p: int,
    in_block: bool,
    semi: bool,
)
    requires
        0 <= p <= t1.len(),
        extends_cleanly(t1, s),
        semi ==> starts_with_semicolon(s),
        in_block || semi,
    ensures
        spec_parse_nodes(t1, p, in_block) matches Ok((ns, r)) ==> {
            &&& in_block ==> r < t1.len() && spec_parse_nodes(t1 + s, p, in_block)
                == spec_parse_nodes(t1, p, in_block)
            &&& !in_block && p < t1.len() ==> r == t1.len() && spec_parse_nodes(
                t1 + s,
                p,
                false,
            ) == cont_nodes(ns, spec_parse_nodes(t1 + s, t1.len() + 1 as int, false))
        },
    decreases t1.len() - p, 2int, 0int,
{
    let u = t1 + s;
    let l = t1.len() as int;
    if p < l {
        assert(u[p] == t1[p]);
        if !(t1[p].tok is Semi) && !(t1[p].tok is RBrace) {
            lemma_extend_node(t1, s, p, semi);
            match spec_parse_node(t1, p) {
                Err(_) => {},
                Ok((n, q)) => {
                    if p < q <= l {
                        if q < l {
                            lemma_extend_nodes(t1, s, q, in_block, semi);
                            if !in_block {
                                match spec_parse_nodes(t1, q, false) {
                                    Err(_) => {},
                                    Ok((rest, _)) => {
                                        match spec_parse_nodes(u, l + 1, false) {
                                            Err(_) => {},
                                            Ok((more, _)) => {
                                                assert(opt_cons(n, rest + more) =~= opt_cons(
                                                    n,
                                                    rest,
                                                ) + more);
                                            },
                                        }
                                    },
                                }
                            }
                        } else if !in_block {
                            match spec_parse_nodes(u, l + 1, false) {
                                Err(_) => {},
                                Ok((more, _)) => {
                                    assert(opt_cons(n, more) =~= opt_cons(
                                        n,
                                        Seq::<SpecNode>::empty(),
                                    ) + more);
                                },
                            }
                        }
                    }
                },
            }
        }
    }
}

/// Nodes joined by `;`: where `t1` reads as a document and does not end
/// with `;`, the tokens of `t1`, a `;` on the same line, and `t2` read as the
/// nodes of `t1` followed by the nodes of `t2`; where `t2` is no document,
/// neither is the whole, for the same reason.
pub proof fn lemma_semicolon_joins_documents(
    t1: Seq<SpecToken>,
    semi: SpecToken,
    t2: Seq<SpecToken>,
)
    requires
        t1.len() > 0,
        !(t1[t1.len() - 1].tok is Semi),
        semi.tok is Semi,
        !semi.line_start,
        spec_parse(t1) is Ok,
    ensures
        spec_parse(t1 + seq![semi] + t2) == match spec_parse(t2) {
            Ok(ns2) => Ok(spec_parse(t1)->Ok_0 + ns2),
            Err(e) => Err(e),
        },
{
    let s = seq![semi] + t2;
    let u = t1 + s;
    assert(t1 + seq![semi] + t2 =~= u);
    assert(u[t1.len() as int] == semi);
    lemma_extend_nodes(t1, s, 0, false, true);
    lemma_shift_nodes(t1 + seq![semi], t2, 0, false);
}

/// The token sequences `ts` joined, each from the next, by the token `sep`.
pub open spec fn joined_by(ts: Seq<Seq<SpecToken>>, sep: SpecToken) -> Seq<SpecToken>
    decreases ts.len(),
{
    if ts.len() == 0 {
        Seq::empty()
    } else if ts.len() == 1 {
        ts[0]
    } else {
        joined_by(ts.drop_last(), sep) + seq![sep] + ts.last()
    }
}

proof fn lemma_joined_last(ts: Seq<Seq<SpecToken>>, sep: SpecToken)
    requires
        ts.len() > 0,
        ts.last().len() > 0,
    ensures
        joined_by(ts, sep).len() > 0,
        joined_by(ts, sep).last() == ts.last().last(),
{
}

/// `k` nodes joined by `;` are read as those `k` nodes, in order: where each
/// token sequence `ts[i]` reads as the document of the one node `ns[i]` and
/// does not end with `;`, the sequences joined by a `;` on the line of what
/// precedes it read as the nodes `ns`. With no sequence at all, the document
/// is empty.
pub proof fn lemma_semicolon_separated_nodes(
    ts: Seq<Seq<SpecToken>>,
    ns: Seq<SpecNode>,
    semi: SpecToken,
)
    requires
        ts.len() == ns.len(),
        semi.tok is Semi,
        !semi.line_start,
        forall|i: int|
            0 <= i < ts.len() ==> {
                &&& #[trigger] ts[i].len() > 0
                &&& !(ts[i].last().tok is Semi)
                &&& spec_parse(ts[i]) == Ok::<Seq<SpecNode>, KdlError>(seq![ns[i]])
            },
    ensures
        spec_parse(joined_by(ts, semi)) == Ok::<Seq<SpecNode>, KdlError>(ns),
    decreases ts.len(),
{
    if ts.len() == 0 {
        assert(ns =~= Seq::<SpecNode>::empty());
    } else if ts.len() == 1 {
        assert(ts[0].len() > 0);
        assert(ns =~= seq![ns[0]]);
    } else {
        let k = ts.len() - 1;
        let front = ts.drop_last();
        assert forall|i: int| 0 <= i < front.len() implies {
            &&& #[trigger] front[i].len() > 0
            &&& !(front[i].last().tok is Semi)
            &&& spec_parse(front[i]) == Ok::<Seq<SpecNode>, KdlError>(seq![ns.drop_last()[i]])
        } by {
            assert(front[i] == ts[i]);
        }
        lemma_semicolon_separated_nodes(front, ns.drop_last(), semi);
        assert(ts[k - 1].len() > 0);
        assert(ts[k].len() > 0);
        lemma_joined_last(front, semi);
        lemma_semicolon_joins_documents(joined_by(front, semi), semi, ts.last());
        assert(ns.drop_last() + seq![ns[k]] =~= ns);
    }
}

/// `/-` before the first node removes exactly that node: where the `/-`
/// token `sd` comments out the node made of the tokens `n`, the tokens
/// `sd`, `n`, `t2` read as the document of `t2` alone.
pub proof fn lemma_slashdash_node_removed(sd: SpecToken, n: Seq<SpecToken>, t2: Seq<SpecToken>)
    requires
        sd.tok is SlashDash,
        spec_parse_node(seq![sd] + n + t2, 0) matches Ok((_, q)) && q == n.len() + 1,
    ensures
        spec_parse(seq![sd] + n + t2) == spec_parse(t2),
{
    let u = seq![sd] + n + t2;
    assert(u[0] == sd);
    lemma_shift_nodes(seq![sd] + n, t2, 0, false);
}

/// `/-` before a node that follows a `;` removes exactly that node: the
/// document is the one without the `/-` and the tokens `n` of the node.
pub proof fn lemma_slashdash_node_removed_after_semicolon(
    t1: Seq<SpecToken>,
    semi: SpecToken,
    sd: SpecToken,
    n: Seq<SpecToken>,
    t2: Seq<SpecToken>,
)
    requires
        t1.len() > 0,
        !(t1[t1.len() - 1].tok is Semi),
        semi.tok is Semi,
        !semi.line_start,
        spec_parse(t1) is Ok,
        sd.tok is SlashDash,
        spec_parse_node(seq![sd] + n + t2, 0) matches Ok((_, q)) && q == n.len() + 1,
    ensures
        spec_parse(t1 + seq![semi] + (seq![sd] + n + t2)) == spec_parse(t1 + seq![semi] + t2),
{
    lemma_slashdash_node_removed(sd, n, t2);
    lemma_semicolon_joins_documents(t1, semi, seq![sd] + n + t2);
    lemma_semicolon_joins_documents(t1, semi, t2);
}

/// The children block of the node that the tokens `a` make, read to their
/// end.
pub open spec fn head_kids(a: Seq<SpecToken>) -> Option<Seq<SpecNode>> {
    match spec_parse_node(a, 0) {
        Ok((Some(n), _)) => n.children,
        _ => None,
    }
}

/// Whether the tokens `a` make one node (not commented out), read to their
/// end, that does not end with `;`.
pub open spec fn open_node(a: Seq<SpecToken>) -> bool {
    &&& a.len() > 0
    &&& !(a[a.len() - 1].tok is Semi)
    &&& spec_parse_node(a, 0) matches Ok((Some(_), q)) && q == a.len()
}

/// Where the tokens `m`, standing after the open node `a`, are passed over
/// by the rest of that node, the node reads as if `m` were not there.
#[verifier::spinoff_prover]
#[verifier::rlimit(100)]
proof fn lemma_node_skips(a: Seq<SpecToken>, m: Seq<SpecToken>, t2: Seq<SpecToken>)
    requires
        open_node(a),
        m.len() > 0,
        !(m[0].tok is Equals),
        t2.len() > 0 ==> !(t2[0].tok is Equals),
        spec_node_tail(a + m + t2, a.len() as int, a[0].col, head_kids(a)) == spec_node_tail(
            a + m + t2,
            a.len() + m.len() as int,
            a[0].col,
            head_kids(a),
        ),
    ensures
        spec_parse_node(a + m + t2, 0) == shift_node(spec_parse_node(a + t2, 0), m.len() as int),
        spec_parse_node(a + t2, 0) matches Ok((_, q)) ==> a.len() <= q,
{
    let l = a.len() as int;
    let d = m.len() as int;
    let s = m + t2;
    let u = a + m + t2;
    let v = a + t2;
    let col = a[0].col;
    let kids = head_kids(a);
    assert(a + s =~= u);
    assert(u[0] == a[0]);
    assert(v[0] == a[0]);
    assert(spec_type_annotation(u, 0) == spec_type_annotation(a, 0)) by {
        lemma_extend_type_annotation(a, s, 0);
    }
    assert(spec_type_annotation(v, 0) == spec_type_annotation(a, 0)) by {
        lemma_extend_type_annotation(a, t2, 0);
    }
    let p1 = spec_type_annotation(a, 0)->Ok_0.1;
    assert(u[p1] == a[p1]);
    assert(v[p1] == a[p1]);
    let es = spec_node_tail(a, p1 + 1, col, None)->Ok_0.0;
    assert(spec_node_tail(a, p1 + 1, col, None) == Ok::<
        (Seq<SpecEntry>, Option<Seq<SpecNode>>, int),
        KdlError,
    >((es, kids, l)));
    assert(spec_node_tail(u, p1 + 1, col, None) == cont_tail(
        es,
        spec_node_tail(u, l, col, kids),
    )) by {
        lemma_extend_tail(a, s, p1 + 1, col, None);
    }
    assert(spec_node_tail(v, p1 + 1, col, None) == cont_tail(
        es,
        spec_node_tail(v, l, col, kids),
    )) by {
        lemma_extend_tail(a, t2, p1 + 1, col, None);
    }
    assert(spec_node_tail(u, l + d, col, kids) == shift_tail(
        spec_node_tail(t2, 0, col, kids),
        l + d,
    )) by {
        lemma_shift_tail(a + m, t2, 0, col, kids);
    }
    assert(spec_node_tail(v, l, col, kids) == shift_tail(spec_node_tail(t2, 0, col, kids), l))
        by {
        lemma_shift_tail(a, t2, 0, col, kids);
    }
    let name = spec_name_of(a[p1].tok);
    assert(!(a[0].tok is SlashDash));
    match spec_node_tail(t2, 0, col, kids) {
        Err(err) => {
            assert(spec_node_tail(u, p1 + 1, col, None) == Err::<
                (Seq<SpecEntry>, Option<Seq<SpecNode>>, int),
                KdlError,
            >(err));
            assert(spec_node_tail(v, p1 + 1, col, None) == Err::<
                (Seq<SpecEntry>, Option<Seq<SpecNode>>, int),
                KdlError,
            >(err));
            assert(spec_parse_node(u, 0) == Err::<(Option<SpecNode>, int), KdlError>(err));
            assert(spec_parse_node(v, 0) == Err::<(Option<SpecNode>, int), KdlError>(err));
        },
        Ok((es2, k2, r)) => {
            assert(0 <= r) by {
                lemma_shift_tail(a, t2, 0, col, kids);
            }
            assert(spec_node_tail(u, p1 + 1, col, None) == Ok::<
                (Seq<SpecEntry>, Option<Seq<SpecNode>>, int),
                KdlError,
            >((es + es2, k2, r + l + d)));
            assert(spec_node_tail(v, p1 + 1, col, None) == Ok::<
                (Seq<SpecEntry>, Option<Seq<SpecNode>>, int),
                KdlError,
            >((es + es2, k2, r + l)));
            let ty = spec_type_annotation(a, 0)->Ok_0.0;
            let nm = spec_name_of(a[p1].tok)->Ok_0;
            let node = SpecNode { ty, name: nm, entries: es + es2, children: k2 };
            assert(spec_parse_node(u, 0) == Ok::<(Option<SpecNode>, int), KdlError>(
                (Some(node), r + l + d),
            ));
            assert(spec_parse_node(v, 0) == Ok::<(Option<SpecNode>, int), KdlError>(
                (Some(node), r + l),
            ));
        },
    }
}

/// Where the tokens `m`, standing after the open node `a`, are passed over
/// by the rest of that node, the document reads as if `m` were not there.
#[verifier::spinoff_prover]
#[verifier::rlimit(100)]
proof fn lemma_skipped_within_node(a: Seq<SpecToken>, m: Seq<SpecToken>, t2: Seq<SpecToken>)
    requires
        open_node(a),
        m.len() > 0,
        !(m[0].tok is Equals),
        t2.len() > 0 ==> !(t2[0].tok is Equals),
        spec_node_tail(a + m + t2, a.len() as int, a[0].col, head_kids(a)) == spec_node_tail(
            a + m + t2,
            a.len() + m.len() as int,
            a[0].col,
            head_kids(a),
        ),
    ensures
        spec_parse(a + m + t2) == spec_parse(a + t2),
{
    let l = a.len() as int;
    let d = m.len() as int;
    let u = a + m + t2;
    let v = a + t2;
    lemma_node_skips(a, m, t2);
    assert(u[0] == a[0]);
    assert(v[0] == a[0]);
    match spec_parse_node(v, 0) {
        Err(_) => {},
        Ok((_, q)) => {
            assert(spec_parse_nodes(u, q + d, false) == shift_nodes(
                spec_parse_nodes(t2, q - l, false),
                l + d,
            )) by {
                lemma_shift_nodes(a + m, t2, q - l, false);
            }
            assert(spec_parse_nodes(v, q, false) == shift_nodes(
                spec_parse_nodes(t2, q - l, false),
                l,
            )) by {
                lemma_shift_nodes(a, t2, q - l, false);
            }
        },
    }
}

/// `/-` before an argument or a property removes exactly that entry: where
/// the tokens `a` are a node with no children block so far, `sd` is a `/-`
/// on the same line, the tokens `e` are one entry (followed by `t2`), and
/// `t2` does not begin with `=`, the tokens `a`, `sd`, `e`, `t2` read as the
/// document of `a` followed by `t2`.
#[verifier::spinoff_prover]
#[verifier::rlimit(100)]
pub proof fn lemma_slashdash_entry_removed(
    a: Seq<SpecToken>,
    sd: SpecToken,
    e: Seq<SpecToken>,
    t2: Seq<SpecToken>,
)
    requires
        open_node(a),
        head_kids(a) is None,
        sd.tok is SlashDash,
        !sd.line_start,
        spec_parse_entry(e + t2, 0) matches Ok((_, q)) && q == e.len(),
        t2.len() > 0 ==> !(t2[0].tok is Equals),
    ensures
        spec_parse(a + seq![sd] + e + t2) == spec_parse(a + t2),
{
    reveal(spec_name_of);
    reveal(spec_value_of);
    let l = a.len() as int;
    let m = seq![sd] + e;
    let u = a + m + t2;
    assert(a + seq![sd] + e + t2 =~= u);
    assert(e.len() > 0);
    assert(u[l] == sd);
    assert(u[l + 1] == (e + t2)[0]);
    lemma_shift_entry(a + seq![sd], e + t2, 0);
    assert((a + seq![sd]) + (e + t2) =~= u);
    assert(a + m + t2 =~= (a + m) + t2);
    lemma_skipped_within_node(a, m, t2);
}

/// `/-` before a children block removes exactly that block: where the tokens
/// `a` are a node, `sd` is a `/-` on the same line, and the tokens `blk` are
/// a block from its `{` to its `}`, the tokens `a`, `sd`, `blk`, `t2` read as
/// the document of `a` followed by `t2`.
#[verifier::spinoff_prover]
#[verifier::rlimit(100)]
pub proof fn lemma_slashdash_children_removed(
    a: Seq<SpecToken>,
    sd: SpecToken,
    blk: Seq<SpecToken>,
    t2: Seq<SpecToken>,
)
    requires
        open_node(a),
        sd.tok is SlashDash,
        !sd.line_start,
        blk.len() > 0,
        blk[0].tok is LBrace,
        spec_parse_nodes(blk + t2, 1, true) matches Ok((_, q)) && q == blk.len() - 1,
        t2.len() > 0 ==> !(t2[0].tok is Equals),
    ensures
        spec_parse(a + seq![sd] + blk + t2) == spec_parse(a + t2),
{
    let l = a.len() as int;
    let m = seq![sd] + blk;
    let u = a + m + t2;
    assert(a + seq![sd] + blk + t2 =~= u);
    assert(u[l] == sd);
    assert(u[l + 1] == blk[0]);
    lemma_shift_nodes(a + seq![sd], blk + t2, 1, true);
    assert((a + seq![sd]) + (blk + t2) =~= u);
    assert(a + m + t2 =~= (a + m) + t2);
    lemma_skipped_within_node(a, m, t2);
}

} // verus!
