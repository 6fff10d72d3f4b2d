# serde_kdl_macro

A reader for KDL documents written as text, verified with Verus. `kdl_impl2`
turns the text of a document into its nodes (type annotation, name,
arguments and properties, children) or reports why the text is not a valid
document. Every function of the library carries a contract over a
mathematical model of its input and result, and Verus proves that the code
meets it.

## Layout

- `src/validation.rs`: the character classes (whitespace, newlines,
  disallowed code points, identifier characters) and identifier validity.
- `src/strings.rs`: escapes, quoted strings, multi-line strings (newline
  normalisation, whitespace escapes, dedentation) and raw strings.
- `src/number.rs`: decimal, hexadecimal, octal and binary numbers with digit
  separators.
- `src/words.rs`: bare words and `#` keywords as values and as names.
- `src/lexer.rs`: tokens, comments, line continuations, and where each token
  stands on its line.
- `src/parser.rs`: nodes, entries, type annotations, children blocks and `/-`.
- `src/token_laws.rs`: laws of the parser over token sequences: a run of
  tokens reads the same wherever it stands and whatever follows its end,
  nodes joined by `;` are read one after another, and `/-` removes exactly
  the node, entry or children block it comments out.
- `src/document.rs`: the document types, their views and accessors.
- `src/lib.rs`: `kdl_impl2` and the laws that tie the layers together.

## Laws

Beside the contracts, the library proves, among others: that the character
classes do not overlap; that a valid identifier alone is a document of one
node; that blank text is an empty document; that `/-` removes the node it
precedes, and over tokens in general that `/-` before a node, an argument,
a property or a children block reads as if that item were deleted; that any
number of nodes joined by `;` are read as those nodes in order; that a newline and a semicolon both separate nodes; that a line
continuation joins two lines into one node; that a whitespace escape in a
quoted string swallows the whitespace and line breaks after it; that a raw
string keeps its content; that normalised newlines are line feeds; that
text without a backslash decodes to itself; that a multi-line string
without backslashes equals the raw one; and that digit separators do not
change a value. A multi-line string removes its whitespace escapes, line
breaks included, before its lines are dedented.

## Tests

`tests/` holds the scenario tests of each section and `tests/library_laws.rs`
exercises the laws and every error on concrete inputs.
