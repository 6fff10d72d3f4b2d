//! A verified reader for KDL documents written as text: it turns the text of
//! a document into its nodes, entries and values, or says why the text is no
//! valid document.

pub mod document;
pub mod error;
pub mod lexer;
pub mod number;
pub mod parser;
pub mod string_laws;
pub mod strings;
pub mod text;
pub mod token_laws;
pub mod validation;
pub mod words;

pub use document::{KdlDocument, KdlEntry, KdlIdentifier, KdlNode, KdlValue};
pub use error::KdlError;

use vstd::prelude::*;
use crate::document::{SpecEntry, SpecNode, SpecValue};
use crate::lexer::{
    lex, spec_continuation_end, spec_disallowed_at, spec_hash_end, spec_raw, spec_raw_close, spec_has_disallowed, spec_lex, spec_lex_from,
    spec_scan, spec_skip, spec_width, spec_word_end, SpecTok, SpecToken,
};
use crate::parser::{
    opt_cons, parse, spec_name_of, spec_value_of, spec_node_tail, spec_parse, spec_parse_entry, spec_parse_node,
    spec_parse_nodes, spec_type_annotation,
};
use crate::validation::{
    spec_is_disallowed, spec_is_identifier, spec_is_identifier_char, spec_is_newline, spec_is_whitespace,
};
use crate::text::str_to_chars;
use crate::words::spec_word_value;

verus! {

/// The document that the text `s` holds: its tokens, read as nodes.
pub open spec fn spec_document(s: Seq<char>) -> Result<Seq<SpecNode>, KdlError> {
    match spec_lex(s) {
        Ok(t) => spec_parse(t),
        Err(e) => Err(e),
    }
}

/// Reads the text of a KDL document.
pub fn kdl_impl2(input: &str) -> (r: Result<KdlDocument, KdlError>)
    ensures
        match (r, spec_document(input@)) {
            (Ok(d), Ok(nodes)) => d@ == nodes,
            (Err(e), Err(se)) => e == se,
            _ => false,
        },
{
    let chars = str_to_chars(input);
    match lex(&chars) {
        Ok(tokens) => parse(&tokens),
        Err(e) => Err(e),
    }
}

/// A valid identifier, written alone, is a document of one node that bears
/// it as its name, with no type annotation, no entries and no children.
pub proof fn lemma_identifier_is_single_node(s: Seq<char>)
    requires
        spec_is_identifier(s),
    ensures
        spec_document(s) == Ok::<Seq<SpecNode>, KdlError>(
            seq![SpecNode { ty: None, name: s, entries: Seq::empty(), children: None }],
        ),
{
    reveal(spec_name_of);
    reveal(spec_value_of);
    assert(spec_is_identifier_char(s[0]));
    if s.len() > 1 {
        assert(spec_is_identifier_char(s[1]));
    }
    assert(spec_skip(s, 0, true, 0) == Ok::<(int, bool, int), KdlError>((0, true, 0)));
    assert(s.subrange(0, s.len() as int) =~= s);
    lemma_word_end_at(s, 0, s.len() as int);
    assert(spec_scan(s, 0) == Ok::<(SpecTok, int), KdlError>((SpecTok::Word(s), s.len() as int)))
        by {
        reveal(spec_scan);
    }
    assert(spec_skip(s, s.len() as int, false, 0) == Ok::<(int, bool, int), KdlError>(
        (s.len() as int, false, 0),
    ));
    assert(spec_lex_from(s, s.len() as int, false, 0) == Ok::<Seq<SpecToken>, KdlError>(
        Seq::empty(),
    ));
    assert(spec_width(s, 0, 0) == 0);
    let tk = SpecToken { tok: SpecTok::Word(s), line_start: true, col: 0 };
    let t = seq![tk];
    assert(seq![tk] + Seq::<SpecToken>::empty() =~= t);
    assert forall|k: int| 0 <= k < s.len() implies !#[trigger] spec_disallowed_at(s, k) by {
        assert(spec_is_identifier_char(s[k]));
    }
    assert(spec_lex(s) == Ok::<Seq<SpecToken>, KdlError>(t));
    assert(spec_type_annotation(t, 0) == Ok::<(Option<Seq<char>>, int), KdlError>((None, 0)));
    assert(spec_node_tail(t, 1, 0, None) == Ok::<
        (Seq<SpecEntry>, Option<Seq<SpecNode>>, int),
        KdlError,
    >((Seq::empty(), None, 1)));
    let node = SpecNode { ty: None, name: s, entries: Seq::empty(), children: None };
    assert(spec_parse_node(t, 0) == Ok::<(Option<SpecNode>, int), KdlError>((Some(node), 1)));
    assert(spec_parse_nodes(t, 1, false) == Ok::<(Seq<SpecNode>, int), KdlError>(
        (Seq::empty(), 1),
    ));
    assert(opt_cons(Some(node), Seq::empty()) =~= seq![node]);
}

/// Whether every character of `s` is whitespace or a newline.
pub open spec fn spec_is_blank(s: Seq<char>) -> bool {
    forall|k: int| 0 <= k < s.len() ==> spec_is_whitespace(#[trigger] s[k]) || spec_is_newline(s[k])
}

proof fn lemma_skip_blank(s: Seq<char>, i: int, ls: bool, lb: int)
    requires
        0 <= i <= s.len(),
        spec_is_blank(s),
    ensures
        spec_skip(s, i, ls, lb) matches Ok((j, _, _)) && j == s.len(),
    decreases s.len() - i,
{
    if i < s.len() {
        let c = s[i];
        if spec_is_newline(c) {
            let k = if c == '\r' && i + 1 < s.len() && s[i + 1] == '\n' {
                i + 2
            } else {
                i + 1
            };
            lemma_skip_blank(s, k, true, k);
        } else {
            lemma_skip_blank(s, i + 1, ls, lb);
        }
    }
}

/// A text made only of whitespace and newlines is a document with no nodes.
pub proof fn lemma_blank_document_is_empty(s: Seq<char>)
    requires
        spec_is_blank(s),
    ensures
        spec_document(s) == Ok::<Seq<SpecNode>, KdlError>(Seq::empty()),
{
    lemma_skip_blank(s, 0, true, 0);
    assert(spec_lex(s) == Ok::<Seq<SpecToken>, KdlError>(Seq::empty()));
    assert(spec_parse_nodes(Seq::<SpecToken>::empty(), 0, false) == Ok::<
        (Seq<SpecNode>, int),
        KdlError,
    >((Seq::empty(), 0)));
}

/// `/-` comments out the node that follows it: `/-` directly followed by a
/// valid identifier is a document with no nodes.
pub proof fn lemma_slashdash_removes_node(s: Seq<char>)
    requires
        spec_is_identifier(s),
    ensures
        spec_document(seq!['/', '-'] + s) == Ok::<Seq<SpecNode>, KdlError>(Seq::empty()),
{
    reveal(spec_name_of);
    reveal(spec_value_of);
    let d = seq!['/', '-'] + s;
    assert(d.len() == s.len() + 2);
    assert(d[0] == '/' && d[1] == '-');
    assert forall|k: int| 2 <= k < d.len() implies d[k] == s[k - 2] by {}
    assert forall|k: int| 0 <= k < d.len() implies !#[trigger] spec_disallowed_at(d, k) by {
        if k >= 2 {
            assert(spec_is_identifier_char(s[k - 2]));
        }
    }
    assert(spec_skip(d, 0, true, 0) == Ok::<(int, bool, int), KdlError>((0, true, 0)));
    assert(spec_scan(d, 0) == Ok::<(SpecTok, int), KdlError>((SpecTok::SlashDash, 2))) by {
        reveal(spec_scan);
    }
    assert(spec_is_identifier_char(s[0]));
    if s.len() > 1 {
        assert(spec_is_identifier_char(s[1]));
    }
    assert(spec_skip(d, 2, false, 0) == Ok::<(int, bool, int), KdlError>((2, false, 0)));
    assert forall|k: int| 2 <= k < d.len() implies #[trigger] spec_is_identifier_char(d[k]) by {
        assert(spec_is_identifier_char(s[k - 2]));
    }
    lemma_word_end_at(d, 2, d.len() as int);
    assert(d.subrange(2, d.len() as int) =~= s);
    assert(spec_scan(d, 2) == Ok::<(SpecTok, int), KdlError>((SpecTok::Word(s), d.len() as int)))
        by {
        reveal(spec_scan);
    }
    assert(spec_skip(d, d.len() as int, false, 0) == Ok::<(int, bool, int), KdlError>(
        (d.len() as int, false, 0),
    ));
    assert(spec_lex_from(d, d.len() as int, false, 0) == Ok::<Seq<SpecToken>, KdlError>(
        Seq::empty(),
    ));
    assert(spec_width(d, 0, 0) == 0);
    let t0 = SpecToken { tok: SpecTok::SlashDash, line_start: true, col: 0 };
    let t1 = SpecToken { tok: SpecTok::Word(s), line_start: false, col: spec_width(d, 0, 2) };
    assert(seq![t1] + Seq::<SpecToken>::empty() =~= seq![t1]);
    assert(spec_lex_from(d, 2, false, 0) == Ok::<Seq<SpecToken>, KdlError>(seq![t1]));
    let t = seq![t0, t1];
    assert(seq![t0] + seq![t1] =~= t);
    assert(spec_lex(d) == Ok::<Seq<SpecToken>, KdlError>(t));
    assert(spec_type_annotation(t, 1) == Ok::<(Option<Seq<char>>, int), KdlError>((None, 1)));
    assert(spec_node_tail(t, 2, 0, None) == Ok::<
        (Seq<SpecEntry>, Option<Seq<SpecNode>>, int),
        KdlError,
    >((Seq::empty(), None, 2)));
    assert(spec_parse_node(t, 0) == Ok::<(Option<SpecNode>, int), KdlError>((None, 2)));
    assert(spec_parse_nodes(t, 2, false) == Ok::<(Seq<SpecNode>, int), KdlError>(
        (Seq::empty(), 2),
    ));
}

proof fn lemma_word_end_at(d: Seq<char>, j: int, e: int)
    requires
        0 <= j <= e <= d.len(),
        forall|k: int| j <= k < e ==> #[trigger] spec_is_identifier_char(d[k]),
        e == d.len() || !spec_is_identifier_char(d[e]),
    ensures
        spec_word_end(d, j) == e,
    decreases e - j,
{
    if j < e {
        lemma_word_end_at(d, j + 1, e);
    }
}

/// Facts about the valid identifier `w` standing at `j` in the text `d` and
/// ending at the end of `d` or before a space, a newline or a `;`.
proof fn lemma_identifier_at(d: Seq<char>, j: int, w: Seq<char>)
    requires
        spec_is_identifier(w),
        0 <= j,
        j + w.len() <= d.len(),
        forall|k: int| 0 <= k < w.len() ==> d[j + k] == #[trigger] w[k],
        j + w.len() == d.len() || ({
            let c = d[j + w.len()];
            c == ' ' || c == '\n' || c == ';'
        }),
    ensures
        forall|k: int| j <= k < j + w.len() ==> !#[trigger] spec_disallowed_at(d, k),
        d.subrange(j, j + w.len()) == w,
        spec_word_end(d, j) == j + w.len(),
        spec_scan(d, j) == Ok::<(SpecTok, int), KdlError>((SpecTok::Word(w), j + w.len())),
{
    let e = j + w.len();
    assert forall|k: int| j <= k < e implies #[trigger] spec_is_identifier_char(d[k]) by {
        assert(d[j + (k - j)] == w[k - j]);
        assert(spec_is_identifier_char(w[k - j]));
    }
    assert forall|k: int| j <= k < e implies !#[trigger] spec_disallowed_at(d, k) by {
        assert(spec_is_identifier_char(d[k]));
    }
    assert(d[j] == w[0]);
    assert(spec_is_identifier_char(w[0]));
    if w.len() > 1 {
        assert(d[j + 1] == w[1]);
        assert(spec_is_identifier_char(w[1]));
    }
    if e < d.len() {
        assert(!spec_is_identifier_char(d[e]));
    }
    lemma_word_end_at(d, j, e);
    assert(d.subrange(j, e) =~= w);
    assert(spec_scan(d, j) == Ok::<(SpecTok, int), KdlError>((SpecTok::Word(w), e))) by {
        reveal(spec_scan);
    }
}

/// The text `a`, `sep`, `b`, and facts about its characters.
proof fn lemma_joined_chars(a: Seq<char>, b: Seq<char>, sep: char)
    requires
        spec_is_identifier(a),
        spec_is_identifier(b),
        sep == '\n' || sep == ';',
    ensures
        ({
            let d = a + seq![sep] + b;
            let la = a.len() as int;
            &&& d.len() == la + 1 + b.len()
            &&& d[la] == sep
            &&& d.subrange(0, la) == a
            &&& d.subrange(la + 1, d.len() as int) == b
            &&& !spec_has_disallowed(d)
            &&& spec_word_end(d, 0) == la
            &&& spec_word_end(d, la + 1) == d.len()
            &&& spec_skip(d, 0, true, 0) == Ok::<(int, bool, int), KdlError>((0, true, 0))
            &&& spec_scan(d, 0) == Ok::<(SpecTok, int), KdlError>((SpecTok::Word(a), la))
            &&& spec_scan(d, la + 1) == Ok::<(SpecTok, int), KdlError>(
                (SpecTok::Word(b), d.len() as int),
            )
            &&& forall|ls: bool, lb: int| #[trigger]
                spec_skip(d, d.len() as int, ls, lb) == Ok::<(int, bool, int), KdlError>(
                    (d.len() as int, ls, lb),
                )
            &&& forall|ls: bool, lb: int| #[trigger]
                spec_skip(d, la + 1, ls, lb) == Ok::<(int, bool, int), KdlError>((la + 1, ls, lb))
        }),
{
    let d = a + seq![sep] + b;
    let la = a.len() as int;
    let n = d.len() as int;
    assert(d[la] == sep);
    lemma_identifier_at(d, 0, a);
    lemma_identifier_at(d, la + 1, b);
    assert forall|k: int| 0 <= k < n implies !#[trigger] spec_disallowed_at(d, k) by {}
}

/// The tokens of `a`, newline, `b`: two words, each first on its line.
proof fn lemma_lex_newline(a: Seq<char>, b: Seq<char>)
    requires
        spec_is_identifier(a),
        spec_is_identifier(b),
    ensures
        spec_lex(a + seq!['\n'] + b) == Ok::<Seq<SpecToken>, KdlError>(
            seq![
                SpecToken { tok: SpecTok::Word(a), line_start: true, col: 0 },
                SpecToken { tok: SpecTok::Word(b), line_start: true, col: 0 },
            ],
        ),
{
    lemma_joined_chars(a, b, '\n');
    let d = a + seq!['\n'] + b;
    let la = a.len() as int;
    let n = d.len() as int;
    let jb = la + 1;
    assert(spec_skip(d, n, false, jb) == Ok::<(int, bool, int), KdlError>((n, false, jb)));
    assert(spec_lex_from(d, n, false, jb) == Ok::<Seq<SpecToken>, KdlError>(Seq::empty()));
    assert(spec_skip(d, jb, true, jb) == Ok::<(int, bool, int), KdlError>((jb, true, jb)));
    assert(spec_skip(d, la, false, 0) == Ok::<(int, bool, int), KdlError>((jb, true, jb)));
    assert(spec_width(d, jb, jb) == 0);
    assert(spec_width(d, 0, 0) == 0);
    let ta = SpecToken { tok: SpecTok::Word(a), line_start: true, col: 0 };
    let tb = SpecToken { tok: SpecTok::Word(b), line_start: true, col: 0 };
    assert(seq![tb] + Seq::<SpecToken>::empty() =~= seq![tb]);
    assert(spec_lex_from(d, la, false, 0) == Ok::<Seq<SpecToken>, KdlError>(seq![tb]));
    assert(seq![ta] + seq![tb] =~= seq![ta, tb]);
}

/// The tokens of `a`, `;`, `b`: a word, a semicolon and a word on one line.
proof fn lemma_lex_semicolon(a: Seq<char>, b: Seq<char>)
    requires
        spec_is_identifier(a),
        spec_is_identifier(b),
    ensures
        spec_lex(a + seq![';'] + b) == Ok::<Seq<SpecToken>, KdlError>(
            seq![
                SpecToken { tok: SpecTok::Word(a), line_start: true, col: 0 },
                SpecToken {
                    tok: SpecTok::Semi,
                    line_start: false,
                    col: spec_width(a + seq![';'] + b, 0, a.len() as int),
                },
                SpecToken {
                    tok: SpecTok::Word(b),
                    line_start: false,
                    col: spec_width(a + seq![';'] + b, 0, (a.len() + 1) as int),
                },
            ],
        ),
{
    lemma_joined_chars(a, b, ';');
    let d = a + seq![';'] + b;
    let la = a.len() as int;
    let n = d.len() as int;
    let jb = la + 1;
    assert(spec_skip(d, n, false, 0) == Ok::<(int, bool, int), KdlError>((n, false, 0)));
    assert(spec_lex_from(d, n, false, 0) == Ok::<Seq<SpecToken>, KdlError>(Seq::empty()));
    assert(spec_skip(d, la, false, 0) == Ok::<(int, bool, int), KdlError>((la, false, 0)));
    assert(spec_scan(d, la) == Ok::<(SpecTok, int), KdlError>((SpecTok::Semi, jb))) by {
        reveal(spec_scan);
    }
    assert(spec_skip(d, jb, false, 0) == Ok::<(int, bool, int), KdlError>((jb, false, 0)));
    assert(spec_width(d, 0, 0) == 0);
    let ta = SpecToken { tok: SpecTok::Word(a), line_start: true, col: 0 };
    let ts = SpecToken { tok: SpecTok::Semi, line_start: false, col: spec_width(d, 0, la) };
    let tb = SpecToken { tok: SpecTok::Word(b), line_start: false, col: spec_width(d, 0, jb) };
    assert(seq![tb] + Seq::<SpecToken>::empty() =~= seq![tb]);
    assert(spec_lex_from(d, jb, false, 0) == Ok::<Seq<SpecToken>, KdlError>(seq![tb]));
    assert(seq![ts] + seq![tb] =~= seq![ts, tb]);
    assert(spec_lex_from(d, la, false, 0) == Ok::<Seq<SpecToken>, KdlError>(seq![ts, tb]));
    assert(seq![ta] + seq![ts, tb] =~= seq![ta, ts, tb]);
}

/// The node of one word token at `p`, ending where `q` says.
proof fn lemma_parse_word_node(t: Seq<SpecToken>, p: int, name: Seq<char>, q: int)
    requires
        0 <= p < t.len(),
        t[p].tok == SpecTok::Word(name),
        spec_is_identifier(name),
        p + 1 <= q <= t.len(),
        spec_node_tail(t, p + 1, t[p].col, None) == Ok::<
            (Seq<SpecEntry>, Option<Seq<SpecNode>>, int),
            KdlError,
        >((Seq::empty(), None, q)),
    ensures
        spec_parse_node(t, p) == Ok::<(Option<SpecNode>, int), KdlError>(
            (Some(SpecNode { ty: None, name, entries: Seq::empty(), children: None }), q),
        ),
{
    reveal(spec_name_of);
    reveal(spec_value_of);
    assert(spec_type_annotation(t, p) == Ok::<(Option<Seq<char>>, int), KdlError>((None, p)));
}

/// A newline and a semicolon both end a node: two valid identifiers
/// separated by either are a document of two nodes, in order, each bearing
/// one of them as its name.
pub proof fn lemma_newline_or_semicolon_separates_nodes(a: Seq<char>, b: Seq<char>, sep: char)
    requires
        spec_is_identifier(a),
        spec_is_identifier(b),
        sep == '\n' || sep == ';',
    ensures
        spec_document(a + seq![sep] + b) == Ok::<Seq<SpecNode>, KdlError>(
            seq![
                SpecNode { ty: None, name: a, entries: Seq::empty(), children: None },
                SpecNode { ty: None, name: b, entries: Seq::empty(), children: None },
            ],
        ),
{
    let na = SpecNode { ty: None, name: a, entries: Seq::empty(), children: None };
    let nb = SpecNode { ty: None, name: b, entries: Seq::empty(), children: None };
    assert(opt_cons(Some(nb), Seq::empty()) =~= seq![nb]);
    assert(opt_cons(Some(na), seq![nb]) =~= seq![na, nb]);
    if sep == '\n' {
        lemma_lex_newline(a, b);
        let t = seq![
            SpecToken { tok: SpecTok::Word(a), line_start: true, col: 0 },
            SpecToken { tok: SpecTok::Word(b), line_start: true, col: 0 },
        ];
        assert(spec_node_tail(t, 1, 0, None) == Ok::<
            (Seq<SpecEntry>, Option<Seq<SpecNode>>, int),
            KdlError,
        >((Seq::empty(), None, 1)));
        assert(spec_node_tail(t, 2, 0, None) == Ok::<
            (Seq<SpecEntry>, Option<Seq<SpecNode>>, int),
            KdlError,
        >((Seq::empty(), None, 2)));
        lemma_parse_word_node(t, 0, a, 1);
        lemma_parse_word_node(t, 1, b, 2);
        assert(spec_parse_nodes(t, 2, false) == Ok::<(Seq<SpecNode>, int), KdlError>(
            (Seq::empty(), 2),
        ));
        assert(spec_parse_nodes(t, 1, false) == Ok::<(Seq<SpecNode>, int), KdlError>(
            (seq![nb], 2),
        ));
        assert(spec_parse_nodes(t, 0, false) == Ok::<(Seq<SpecNode>, int), KdlError>(
            (seq![na, nb], 2),
        ));
    } else {
        lemma_lex_semicolon(a, b);
        let d = a + seq![';'] + b;
        let t = seq![
            SpecToken { tok: SpecTok::Word(a), line_start: true, col: 0 },
            SpecToken { tok: SpecTok::Semi, line_start: false, col: spec_width(d, 0, a.len() as int) },
            SpecToken { tok: SpecTok::Word(b), line_start: false, col: spec_width(d, 0, (a.len() + 1) as int) },
        ];
        assert(spec_node_tail(t, 1, 0, None) == Ok::<
            (Seq<SpecEntry>, Option<Seq<SpecNode>>, int),
            KdlError,
        >((Seq::empty(), None, 2)));
        assert(spec_node_tail(t, 3, t[2].col, None) == Ok::<
            (Seq<SpecEntry>, Option<Seq<SpecNode>>, int),
            KdlError,
        >((Seq::empty(), None, 3)));
        lemma_parse_word_node(t, 0, a, 2);
        lemma_parse_word_node(t, 2, b, 3);
        assert(spec_parse_nodes(t, 3, false) == Ok::<(Seq<SpecNode>, int), KdlError>(
            (Seq::empty(), 3),
        ));
        assert(spec_parse_nodes(t, 2, false) == Ok::<(Seq<SpecNode>, int), KdlError>(
            (seq![nb], 3),
        ));
        assert(spec_parse_nodes(t, 0, false) == Ok::<(Seq<SpecNode>, int), KdlError>(
            (seq![na, nb], 3),
        ));
    }
}

/// The tokens of `a`, space, backslash, newline, `b`: two words on one
/// logical line.
proof fn lemma_lex_continuation(a: Seq<char>, b: Seq<char>)
    requires
        spec_is_identifier(a),
        spec_is_identifier(b),
    ensures
        spec_lex(a + seq![' ', '\\', '\n'] + b) == Ok::<Seq<SpecToken>, KdlError>(
            seq![
                SpecToken { tok: SpecTok::Word(a), line_start: true, col: 0 },
                SpecToken {
                    tok: SpecTok::Word(b),
                    line_start: false,
                    col: spec_width(a + seq![' ', '\\', '\n'] + b, 0, (a.len() + 3) as int),
                },
            ],
        ),
{
    let d = a + seq![' ', '\\', '\n'] + b;
    let la = a.len() as int;
    let n = d.len() as int;
    let jb = la + 3;
    assert(n == la + 3 + b.len());
    assert(d[la] == ' ' && d[la + 1] == '\\' && d[la + 2] == '\n');
    lemma_identifier_at(d, 0, a);
    lemma_identifier_at(d, jb, b);
    assert forall|k: int| 0 <= k < n implies !#[trigger] spec_disallowed_at(d, k) by {}
    assert(spec_skip(d, 0, true, 0) == Ok::<(int, bool, int), KdlError>((0, true, 0)));
    assert(spec_continuation_end(d, la + 2) == Some(jb));
    assert(spec_skip(d, jb, false, 0) == Ok::<(int, bool, int), KdlError>((jb, false, 0)));
    assert(spec_skip(d, la + 1, false, 0) == Ok::<(int, bool, int), KdlError>((jb, false, 0)));
    assert(spec_skip(d, la, false, 0) == Ok::<(int, bool, int), KdlError>((jb, false, 0)));
    assert(spec_skip(d, n, false, 0) == Ok::<(int, bool, int), KdlError>((n, false, 0)));
    assert(spec_lex_from(d, n, false, 0) == Ok::<Seq<SpecToken>, KdlError>(Seq::empty()));
    assert(spec_width(d, 0, 0) == 0);
    let ta = SpecToken { tok: SpecTok::Word(a), line_start: true, col: 0 };
    let tb = SpecToken { tok: SpecTok::Word(b), line_start: false, col: spec_width(d, 0, jb) };
    assert(seq![tb] + Seq::<SpecToken>::empty() =~= seq![tb]);
    assert(spec_lex_from(d, la, false, 0) == Ok::<Seq<SpecToken>, KdlError>(seq![tb]));
    assert(seq![ta] + seq![tb] =~= seq![ta, tb]);
}

/// A line continuation joins two lines into one node: a valid identifier,
/// a space, a backslash, a newline and a second valid identifier are a
/// document of one node, named by the first, whose one argument is the
/// second as a string.
#[verifier::rlimit(30)]
pub proof fn lemma_line_continuation_joins_lines(a: Seq<char>, b: Seq<char>)
    requires
        spec_is_identifier(a),
        spec_is_identifier(b),
    ensures
        spec_document(a + seq![' ', '\\', '\n'] + b) == Ok::<Seq<SpecNode>, KdlError>(
            seq![
                SpecNode {
                    ty: None,
                    name: a,
                    entries: seq![SpecEntry { ty: None, name: None, value: SpecValue::String(b) }],
                    children: None,
                },
            ],
        ),
{
    reveal(spec_name_of);
    reveal(spec_value_of);
    lemma_lex_continuation(a, b);
    let d = a + seq![' ', '\\', '\n'] + b;
    let ta = SpecToken { tok: SpecTok::Word(a), line_start: true, col: 0 };
    let tb = SpecToken { tok: SpecTok::Word(b), line_start: false, col: spec_width(d, 0, (a.len() + 3) as int) };
    let t = seq![ta, tb];
    assert(spec_word_value(b) == Ok::<SpecValue, KdlError>(SpecValue::String(b)));
    let e = SpecEntry { ty: None, name: None, value: SpecValue::String(b) };
    assert(spec_type_annotation(t, 1) == Ok::<(Option<Seq<char>>, int), KdlError>((None, 1)));
    assert(spec_parse_entry(t, 1) == Ok::<(SpecEntry, int), KdlError>((e, 2)));
    assert(spec_node_tail(t, 2, 0, None) == Ok::<
        (Seq<SpecEntry>, Option<Seq<SpecNode>>, int),
        KdlError,
    >((Seq::empty(), None, 2)));
    assert(seq![e] + Seq::<SpecEntry>::empty() =~= seq![e]);
    assert(spec_node_tail(t, 1, 0, None) == Ok::<
        (Seq<SpecEntry>, Option<Seq<SpecNode>>, int),
        KdlError,
    >((seq![e], None, 2)));
    assert(spec_type_annotation(t, 0) == Ok::<(Option<Seq<char>>, int), KdlError>((None, 0)));
    let na = SpecNode { ty: None, name: a, entries: seq![e], children: None };
    assert(spec_parse_node(t, 0) == Ok::<(Option<SpecNode>, int), KdlError>((Some(na), 2)));
    assert(spec_parse_nodes(t, 2, false) == Ok::<(Seq<SpecNode>, int), KdlError>(
        (Seq::empty(), 2),
    ));
    assert(opt_cons(Some(na), Seq::empty()) =~= seq![na]);
}

/// Whether a quote followed by a hash occurs nowhere in `c`.
pub open spec fn spec_no_quote_hash(c: Seq<char>) -> bool {
    forall|k: int| 0 <= k < c.len() - 1 ==> !(#[trigger] c[k] == '"' && c[k + 1] == '#')
}

proof fn lemma_raw_close_scan(d: Seq<char>, i: int, e: int)
    requires
        0 <= i <= e,
        e + 2 <= d.len(),
        d[e] == '"',
        d[e + 1] == '#',
        forall|k: int| i <= k < e ==> !(#[trigger] d[k] == '"' && d[k + 1] == '#'),
    ensures
        spec_raw_close(d, i, 1) == Some(e),
    decreases e - i,
{
    if i < e {
        assert(!(d[i] == '"' && d[i + 1] == '#'));
        lemma_raw_close_scan(d, i + 1, e);
    }
}

proof fn lemma_lex_raw(a: Seq<char>, c: Seq<char>)
    requires
        spec_is_identifier(a),
        spec_no_quote_hash(c),
        forall|k: int| 0 <= k < c.len() ==> !spec_is_disallowed(#[trigger] c[k]),
    ensures
        spec_lex(a + seq![' ', 'r', '#', '"'] + c + seq!['"', '#']) == Ok::<Seq<SpecToken>, KdlError>(
            seq![
                SpecToken { tok: SpecTok::Word(a), line_start: true, col: 0 },
                SpecToken {
                    tok: SpecTok::Str(c),
                    line_start: false,
                    col: spec_width(a + seq![' ', 'r', '#', '"'] + c + seq!['"', '#'], 0, (a.len() + 1) as int),
                },
            ],
        ),
{
    let d = a + seq![' ', 'r', '#', '"'] + c + seq!['"', '#'];
    let la = a.len() as int;
    let n = d.len() as int;
    let cs = la + 4;
    let ce = cs + c.len();
    assert(n == ce + 2);
    assert(d[la] == ' ' && d[la + 1] == 'r' && d[la + 2] == '#' && d[la + 3] == '"');
    assert(d[ce] == '"' && d[ce + 1] == '#');
    assert forall|k: int| cs <= k < ce implies d[k] == c[k - cs] by {}
    lemma_identifier_at(d, 0, a);
    assert forall|k: int| 0 <= k < n implies !#[trigger] spec_disallowed_at(d, k) by {
        if cs <= k < ce {
            assert(!spec_is_disallowed(c[k - cs]));
        }
    }
    assert(spec_skip(d, 0, true, 0) == Ok::<(int, bool, int), KdlError>((0, true, 0)));
    assert(spec_skip(d, la + 1, false, 0) == Ok::<(int, bool, int), KdlError>((la + 1, false, 0)));
    assert(spec_skip(d, la, false, 0) == Ok::<(int, bool, int), KdlError>((la + 1, false, 0)));
    assert(spec_hash_end(d, la + 3) == la + 3);
    assert(spec_hash_end(d, la + 2) == la + 3);
    assert forall|k: int| cs <= k < ce implies !(#[trigger] d[k] == '"' && d[k + 1] == '#') by {
        if k + 1 < ce {
            assert(d[k] == c[k - cs] && d[k + 1] == c[k + 1 - cs]);
        }
    }
    lemma_raw_close_scan(d, cs, ce);
    assert(d.subrange(cs, ce) =~= c);
    assert(spec_raw(d, la + 2, false) == Ok::<(Seq<char>, int), KdlError>((c, n)));
    assert(spec_scan(d, la + 1) == Ok::<(SpecTok, int), KdlError>((SpecTok::Str(c), n))) by {
        reveal(spec_scan);
    }
    assert(spec_skip(d, n, false, 0) == Ok::<(int, bool, int), KdlError>((n, false, 0)));
    assert(spec_lex_from(d, n, false, 0) == Ok::<Seq<SpecToken>, KdlError>(Seq::empty()));
    assert(spec_width(d, 0, 0) == 0);
    let ta = SpecToken { tok: SpecTok::Word(a), line_start: true, col: 0 };
    let tb = SpecToken { tok: SpecTok::Str(c), line_start: false, col: spec_width(d, 0, la + 1) };
    assert(seq![tb] + Seq::<SpecToken>::empty() =~= seq![tb]);
    assert(spec_lex_from(d, la, false, 0) == Ok::<Seq<SpecToken>, KdlError>(seq![tb]));
    assert(seq![ta] + seq![tb] =~= seq![ta, tb]);
}

/// A raw string keeps its content exactly, escapes included: a valid
/// identifier, a space and `r#"`, content holding no quote followed by a
/// hash and no disallowed code point, then `"#`, is a document of one node
/// whose one argument is that content.
#[verifier::rlimit(40)]
pub proof fn lemma_raw_string_keeps_content(a: Seq<char>, c: Seq<char>)
    requires
        spec_is_identifier(a),
        spec_no_quote_hash(c),
        forall|k: int| 0 <= k < c.len() ==> !spec_is_disallowed(#[trigger] c[k]),
    ensures
        spec_document(a + seq![' ', 'r', '#', '"'] + c + seq!['"', '#']) == Ok::<
            Seq<SpecNode>,
            KdlError,
        >(
            seq![
                SpecNode {
                    ty: None,
                    name: a,
                    entries: seq![SpecEntry { ty: None, name: None, value: SpecValue::String(c) }],
                    children: None,
                },
            ],
        ),
{
    reveal(spec_name_of);
    reveal(spec_value_of);
    lemma_lex_raw(a, c);
    let d = a + seq![' ', 'r', '#', '"'] + c + seq!['"', '#'];
    let ta = SpecToken { tok: SpecTok::Word(a), line_start: true, col: 0 };
    let tb = SpecToken { tok: SpecTok::Str(c), line_start: false, col: spec_width(d, 0, (a.len() + 1) as int) };
    let t = seq![ta, tb];
    let e = SpecEntry { ty: None, name: None, value: SpecValue::String(c) };
    assert(spec_type_annotation(t, 1) == Ok::<(Option<Seq<char>>, int), KdlError>((None, 1)));
    assert(spec_parse_entry(t, 1) == Ok::<(SpecEntry, int), KdlError>((e, 2)));
    assert(spec_node_tail(t, 2, 0, None) == Ok::<
        (Seq<SpecEntry>, Option<Seq<SpecNode>>, int),
        KdlError,
    >((Seq::empty(), None, 2)));
    assert(seq![e] + Seq::<SpecEntry>::empty() =~= seq![e]);
    assert(spec_node_tail(t, 1, 0, None) == Ok::<
        (Seq<SpecEntry>, Option<Seq<SpecNode>>, int),
        KdlError,
    >((seq![e], None, 2)));
    assert(spec_type_annotation(t, 0) == Ok::<(Option<Seq<char>>, int), KdlError>((None, 0)));
    let na = SpecNode { ty: None, name: a, entries: seq![e], children: None };
    assert(spec_parse_node(t, 0) == Ok::<(Option<SpecNode>, int), KdlError>((Some(na), 2)));
    assert(spec_parse_nodes(t, 2, false) == Ok::<(Seq<SpecNode>, int), KdlError>(
        (Seq::empty(), 2),
    ));
    assert(opt_cons(Some(na), Seq::empty()) =~= seq![na]);
}

} // verus!
