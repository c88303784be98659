//! Which tokens the formatter leaves bare, and which comments it reads as commented-out
//! pairs, stated by the characters the tokens are made of.

use vstd::prelude::*;

use crate::formatter::{flush, push_body, push_comment, Body, Line, Options, State};
use crate::idempotence::{bare_word, lemma_bare_value_word, lemma_pair_then_tail, quoted_word, tail};
use crate::syntax::{
    disabled_body, ends_bare, is_disabled_key, is_disabled_value, join_words, quote_close,
    spec_is_bare_value, spec_normalize_key, spec_normalize_one_value, spec_normalize_value_tokens,
    spec_parse_disabled_pair, spec_parse_line, starts_comment, strip_minus, without_quotes,
    Disabled, Parsed, Token,
};
use crate::text::{is_control, is_ws, spaces};

verus! {

// ---------------------------------------------------------------------------
// Character classes, written out
// ---------------------------------------------------------------------------

/// An ASCII digit `0` to `9`.
pub open spec fn digit(c: char) -> bool {
    '0' <= c <= '9'
}

/// An ASCII letter.
pub open spec fn letter(c: char) -> bool {
    ('a' <= c <= 'z') || ('A' <= c <= 'Z')
}

/// A sign, if any, then one or more digits: `m` is empty or a single `-`.
pub open spec fn integer_literal(m: Seq<char>, d: Seq<char>) -> bool {
    &&& (m.len() == 0 || m == seq!['-'])
    &&& d.len() > 0
    &&& forall|i: int| 0 <= i < d.len() ==> digit(#[trigger] d[i])
}

/// A letter or `_`, then letters, digits, `_`, `.`, `:` and `-`.
pub open spec fn key_word(k: Seq<char>) -> bool {
    &&& k.len() > 0
    &&& (letter(k[0]) || k[0] == '_')
    &&& forall|i: int|
        1 <= i < k.len() ==> {
            let c = #[trigger] k[i];
            letter(c) || digit(c) || c == '_' || c == '.' || c == ':' || c == '-'
        }
}

/// A value token of a commented-out pair: `true`, `false`, an integer, or text between
/// two quotes that holds no quote and no backslash.
pub open spec fn simple_value(v: Seq<char>) -> bool {
    ||| v == seq!['t', 'r', 'u', 'e']
    ||| v == seq!['f', 'a', 'l', 's', 'e']
    ||| exists|m: Seq<char>, d: Seq<char>| integer_literal(m, d) && v == #[trigger] (m + d)
    ||| {
        &&& v.len() >= 2
        &&& v[0] == '"'
        &&& v.last() == '"'
        &&& forall|i: int| 1 <= i < v.len() - 1 ==> #[trigger] v[i] != '"' && v[i] != '\\'
    }
}

/// `//`, an optional space, the key, spaces, the value, and then, if there is a note, spaces
/// and the note.
pub open spec fn commented_pair(
    space: bool,
    k: Seq<char>,
    a: nat,
    v: Seq<char>,
    note: Option<Seq<char>>,
    b: nat,
) -> Seq<char> {
    seq!['/', '/'] + (if space {
        seq![' ']
    } else {
        Seq::<char>::empty()
    }) + k + spaces(a + 1) + v + match note {
        Some(n) => spaces(b + 1) + n,
        None => Seq::<char>::empty(),
    }
}

/// A trailing note: `//` and then text that does not end in whitespace.
pub open spec fn note_text(n: Seq<char>) -> bool {
    n.len() >= 2 && n[0] == '/' && n[1] == '/' && !is_ws(n.last())
}

/// A sign, if any, then digits, a point, and digits, with at least one digit in all.
pub open spec fn decimal_literal(m: Seq<char>, a: Seq<char>, b: Seq<char>) -> bool {
    &&& (m.len() == 0 || m == seq!['-'])
    &&& a.len() + b.len() > 0
    &&& forall|i: int| 0 <= i < a.len() ==> digit(#[trigger] a[i])
    &&& forall|i: int| 0 <= i < b.len() ==> digit(#[trigger] b[i])
}

/// `true`, `false`, an integer, or a decimal number.
pub open spec fn literal_text(v: Seq<char>) -> bool {
    ||| v == seq!['t', 'r', 'u', 'e']
    ||| v == seq!['f', 'a', 'l', 's', 'e']
    ||| exists|m: Seq<char>, d: Seq<char>| integer_literal(m, d) && v == #[trigger] (m + d)
    ||| exists|m: Seq<char>, a: Seq<char>, b: Seq<char>|
        decimal_literal(m, a, b) && v == #[trigger] (m + a + seq!['.'] + b)
}

/// Text that a key may have without quotes: not empty, no `//`, and no whitespace, control
/// character, `"`, `{` or `}`.
pub open spec fn plain_key_text(u: Seq<char>) -> bool {
    &&& u.len() > 0
    &&& forall|i: int|
        0 <= i < u.len() ==> {
            let c = #[trigger] u[i];
            !is_ws(c) && !is_control(c) && c != '"' && c != '{' && c != '}'
        }
    &&& forall|i: int| 0 <= i < u.len() - 1 ==> !(#[trigger] u[i] == '/' && u[i + 1] == '/')
}

// ---------------------------------------------------------------------------
// Integer literals stay bare
// ---------------------------------------------------------------------------

pub proof fn lemma_integer_is_bare_value(m: Seq<char>, d: Seq<char>)
    requires
        integer_literal(m, d),
    ensures
        spec_is_bare_value(m + d),
        without_quotes(m + d) is None,
{
    let t = m + d;
    if m.len() == 0 {
        assert(t =~= d);
        assert(t[0] != '-');
    } else {
        assert(t[0] == '-');
        assert(t.skip(1) =~= d);
    }
    assert(strip_minus(t) =~= d);
    assert(crate::syntax::all_digits(d));
}

/// With bare literals on, an integer (an optional `-`, then one or more digits) is a value
/// that stays bare: written bare, quoted, or as the one value token of a pair, it comes out
/// as the integer itself.
pub proof fn law_integer_literals_stay_bare(
    m: Seq<char>,
    d: Seq<char>,
    key: Seq<char>,
    st: State,
    opts: Options,
)
    requires
        integer_literal(m, d),
        opts.bare_literals,
    ensures
        spec_normalize_one_value(m + d, true) == m + d,
        spec_normalize_one_value(seq!['"'] + (m + d) + seq!['"'], true) == m + d,
        spec_normalize_value_tokens(seq![m + d], true) == m + d,
        flush(st, opts, seq![key, m + d]).0 == push_body(
            st,
            (Body::ActivePair { key: spec_normalize_key(key), value: m + d }),
        ),
{
    let t = m + d;
    lemma_integer_is_bare_value(m, d);
    let q = seq!['"'] + t + seq!['"'];
    assert(q.subrange(1, q.len() - 1) =~= t);
    assert(without_quotes(q) == Some(t));
    assert(join_words(seq![t]) == t);
    assert(seq![key, t].skip(1) =~= seq![t]);
}

pub proof fn lemma_decimal_is_bare_value(m: Seq<char>, a: Seq<char>, b: Seq<char>)
    requires
        decimal_literal(m, a, b),
    ensures
        spec_is_bare_value(m + a + seq!['.'] + b),
{
    let w = a + seq!['.'] + b;
    let t = m + w;
    assert(m + a + seq!['.'] + b =~= t);
    if m.len() == 0 {
        assert(t =~= w);
        assert(t[0] != '-');
    } else {
        assert(t[0] == '-');
        assert(t.skip(1) =~= w);
    }
    assert(strip_minus(t) =~= w);
    let k = a.len() as int;
    assert(w[k] == '.');
    assert(w.take(k) =~= a);
    assert(w.skip(k + 1) =~= b);
    assert(crate::syntax::all_digits(w.take(k)));
    assert(crate::syntax::all_digits(w.skip(k + 1)));
}

/// A bare value is exactly `true`, `false`, an integer (an optional `-`, then digits) or a
/// decimal number (an optional `-`, digits, a point, digits, with at least one digit).
pub proof fn law_bare_values_are_exactly_literals(v: Seq<char>)
    ensures
        spec_is_bare_value(v) <==> literal_text(v),
{
    if literal_text(v) {
        if v == seq!['t', 'r', 'u', 'e'] || v == seq!['f', 'a', 'l', 's', 'e'] {
        } else if exists|m: Seq<char>, d: Seq<char>| integer_literal(m, d) && v == #[trigger] (m
            + d) {
            let (m, d) = choose|m: Seq<char>, d: Seq<char>|
                integer_literal(m, d) && v == #[trigger] (m + d);
            lemma_integer_is_bare_value(m, d);
        } else {
            let (m, a, b) = choose|m: Seq<char>, a: Seq<char>, b: Seq<char>|
                decimal_literal(m, a, b) && v == #[trigger] (m + a + seq!['.'] + b);
            lemma_decimal_is_bare_value(m, a, b);
        }
    }
    if spec_is_bare_value(v) {
        if v == seq!['t', 'r', 'u', 'e'] || v == seq!['f', 'a', 'l', 's', 'e'] {
        } else {
            let w = strip_minus(v);
            let m = if v.len() > 0 && v[0] == '-' {
                seq!['-']
            } else {
                Seq::<char>::empty()
            };
            assert(v =~= m + w);
            if crate::syntax::all_digits(w) {
                assert(integer_literal(m, w));
                assert(v == m + w);
            } else {
                let k = choose|k: int|
                    0 <= k < w.len() && w.len() > 1 && #[trigger] w[k] == '.'
                        && crate::syntax::all_digits(w.take(k)) && crate::syntax::all_digits(
                        w.skip(k + 1),
                    );
                let a = w.take(k);
                let b = w.skip(k + 1);
                assert(w =~= a + seq!['.'] + b);
                assert(decimal_literal(m, a, b));
                assert(v =~= m + a + seq!['.'] + b);
            }
        }
    }
}

/// With bare literals on, a value token is left bare exactly when it is a literal, written
/// bare or between quotes; every other token is quoted, and a quoted token keeps its quotes.
/// With bare literals off, nothing is left bare.
pub proof fn law_values_are_bare_exactly_when_literal(t: Seq<char>, bare_literals: bool)
    ensures
        without_quotes(t) matches Some(u) ==> spec_normalize_one_value(t, bare_literals) == (if bare_literals
            && literal_text(u) {
            u
        } else {
            t
        }),
        without_quotes(t) is None ==> spec_normalize_one_value(t, bare_literals) == (if bare_literals
            && literal_text(t) {
            t
        } else {
            seq!['"'] + crate::syntax::escape(t) + seq!['"']
        }),
{
    law_bare_values_are_exactly_literals(t);
    if let Some(u) = without_quotes(t) {
        law_bare_values_are_exactly_literals(u);
    }
}

// ---------------------------------------------------------------------------
// Keys that need no quotes
// ---------------------------------------------------------------------------

/// A quoted key loses its quotes when its text is not empty, holds no `//`, and none of its
/// characters is whitespace, a control character, `"`, `{` or `}`: digits included, so a
/// numeric key such as `"0"` comes out as `0`. A pair with such a key keeps it so.
pub proof fn law_plain_keys_lose_their_quotes(
    u: Seq<char>,
    value: Seq<char>,
    st: State,
    opts: Options,
)
    requires
        u.len() > 0,
        forall|i: int|
            0 <= i < u.len() ==> {
                let c = #[trigger] u[i];
                !is_ws(c) && !is_control(c) && c != '"' && c != '{' && c != '}'
            },
        forall|i: int| 0 <= i < u.len() - 1 ==> !(#[trigger] u[i] == '/' && u[i + 1] == '/'),
    ensures
        spec_normalize_key(seq!['"'] + u + seq!['"']) == u,
        flush(st, opts, seq![seq!['"'] + u + seq!['"'], value]).0 == push_body(
            st,
            (Body::ActivePair {
                key: u,
                value: spec_normalize_value_tokens(seq![value], opts.bare_literals),
            }),
        ),
{
    let q = seq!['"'] + u + seq!['"'];
    assert(q.subrange(1, q.len() - 1) =~= u);
    assert(without_quotes(q) == Some(u));
    assert forall|i: int| 0 <= i < u.len() implies crate::syntax::bare_char(#[trigger] u[i]) by {}
    assert(!crate::syntax::contains_comment_start(u)) by {
        if crate::syntax::contains_comment_start(u) {
            let i = choose|i: int| #[trigger] starts_comment(u, i);
            assert(u[i] == '/' && u[i + 1] == '/');
        }
    }
    assert(seq![q, value].skip(1) =~= seq![value]);
}

/// A key keeps its quotes unless it has them on both sides and the text between them is
/// plain key text; then the quotes go. A key without surrounding quotes is left as it is.
pub proof fn law_key_quotes_go_exactly_when_plain(t: Seq<char>)
    ensures
        spec_normalize_key(t) == (if t.len() >= 2 && t[0] == '"' && t.last() == '"'
            && plain_key_text(t.subrange(1, t.len() - 1)) {
            t.subrange(1, t.len() - 1)
        } else {
            t
        }),
{
    if let Some(u) = without_quotes(t) {
        if plain_key_text(u) {
            assert forall|i: int| 0 <= i < u.len() implies crate::syntax::bare_char(
                #[trigger] u[i],
            ) by {}
            assert(!crate::syntax::contains_comment_start(u)) by {
                if crate::syntax::contains_comment_start(u) {
                    let i = choose|i: int| #[trigger] starts_comment(u, i);
                    assert(u[i] == '/' && u[i + 1] == '/');
                }
            }
        } else if crate::syntax::can_be_bare(u) {
            assert forall|i: int| 0 <= i < u.len() implies {
                let c = #[trigger] u[i];
                !is_ws(c) && !is_control(c) && c != '"' && c != '{' && c != '}'
            } by {
                assert(crate::syntax::bare_char(u[i]));
            }
            assert forall|i: int| 0 <= i < u.len() - 1 implies !(#[trigger] u[i] == '/' && u[i + 1]
                == '/') by {
                if u[i] == '/' && u[i + 1] == '/' {
                    assert(starts_comment(u, i));
                }
            }
        }
    }
}

// ---------------------------------------------------------------------------
// Commented-out pairs
// ---------------------------------------------------------------------------

pub proof fn lemma_key_word_is_bare(k: Seq<char>)
    requires
        key_word(k),
    ensures
        bare_word(k),
        without_quotes(k) is None,
        is_disabled_key(k),
        spec_normalize_key(k) == k,
{
    assert(!starts_comment(k, 0));
    assert forall|j: int| 1 <= j < k.len() implies !#[trigger] ends_bare(k, j) by {
        assert(k[j] != '/');
    }
    assert(crate::syntax::unquoted(k) == k);
    assert forall|i: int| 1 <= i < k.len() implies crate::syntax::key_char(#[trigger] k[i]) by {}
}

/// The closing quote of a quoted text without inner quotes or backslashes is its last
/// character.
pub proof fn lemma_simple_quote_close(v: Seq<char>, j: int)
    requires
        v.len() >= 2,
        1 <= j <= v.len() - 1,
        v.last() == '"',
        forall|i: int| 1 <= i < v.len() - 1 ==> #[trigger] v[i] != '"' && v[i] != '\\',
    ensures
        quote_close(v, j, false) == Some((v.len() - 1) as int),
    decreases v.len() - j,
{
    if j < v.len() - 1 {
        assert(v[j] != '"' && v[j] != '\\');
        lemma_simple_quote_close(v, j + 1);
    }
}

pub proof fn lemma_simple_value_word(v: Seq<char>)
    requires
        simple_value(v),
    ensures
        bare_word(v) || quoted_word(v),
        is_disabled_value(v),
{
    if v == seq!['t', 'r', 'u', 'e'] || v == seq!['f', 'a', 'l', 's', 'e'] {
        lemma_bare_value_word(v);
    } else if exists|m: Seq<char>, d: Seq<char>| integer_literal(m, d) && v == #[trigger] (m + d) {
        let (m, d) = choose|m: Seq<char>, d: Seq<char>| integer_literal(m, d) && v == #[trigger] (m + d);
        lemma_integer_is_bare_value(m, d);
        lemma_bare_value_word(v);
    } else {
        lemma_simple_quote_close(v, 1);
        assert(without_quotes(v) is Some);
    }
}

/// With comment reflow on, a comment made of `//`, an optional space, a key and a value,
/// and maybe a trailing note, reads as a commented-out pair with that very key, whenever the
/// key is a letter or `_` followed by letters, digits, `_`, `.`, `:` or `-`, and the value is
/// `true`, `false`, an integer, or quoted text without inner quotes or backslashes. It
/// becomes a line of its own at the current depth, with the key as written, the value
/// normalized, and the note as its trailing comment.
pub proof fn law_commented_out_pairs_are_recognized(
    space: bool,
    k: Seq<char>,
    a: nat,
    v: Seq<char>,
    note: Option<Seq<char>>,
    b: nat,
    st: State,
    opts: Options,
)
    requires
        key_word(k),
        simple_value(v),
        note matches Some(n) ==> note_text(n),
    ensures
        spec_parse_disabled_pair(commented_pair(space, k, a, v, note, b), opts.bare_literals) == (
        Some(
            Disabled {
                key: k,
                value: spec_normalize_one_value(v, opts.bare_literals),
                comment: note,
            },
        )),
        opts.reflow_comments ==> push_comment(st, opts, commented_pair(space, k, a, v, note, b))
            == (State {
            lines: st.lines.push(
                Line {
                    indent: st.indent,
                    body: Body::DisabledPair {
                        key: k,
                        value: spec_normalize_one_value(v, opts.bare_literals),
                    },
                    comment: note,
                },
            ),
            indent: st.indent,
        }),
{
    lemma_commented_body(space, k, a, v, note, b);
    let body = k + spaces(a + 1) + v + tail(note, b);
    lemma_key_word_is_bare(k);
    lemma_simple_value_word(v);
    if let Some(n) = note {
        assert(starts_comment(n, 0));
    }
    assert(body.subrange(0, body.len() as int) =~= body);
    lemma_pair_then_tail(body, 0, k, a, v, note, b, Seq::empty());
    let toks = Seq::<Token>::empty().push(Token::Word(k)).push(Token::Word(v));
    assert(toks[0] == Token::Word(k));
    assert(toks[1] == Token::Word(v));
}

pub proof fn lemma_commented_body(
    space: bool,
    k: Seq<char>,
    a: nat,
    v: Seq<char>,
    note: Option<Seq<char>>,
    b: nat,
)
    requires
        key_word(k),
    ensures
        disabled_body(commented_pair(space, k, a, v, note, b)) == Some(
            k + spaces(a + 1) + v + tail(note, b),
        ),
{
    let c = commented_pair(space, k, a, v, note, b);
    let rest = match note {
        Some(n) => spaces(b + 1) + n,
        None => Seq::<char>::empty(),
    };
    assert(rest =~= tail(note, b));
    let body = k + spaces(a + 1) + v + rest;
    let sp = if space {
        seq![' ']
    } else {
        Seq::<char>::empty()
    };
    assert(c =~= seq!['/', '/'] + (sp + body));
    assert(c.skip(2) =~= sp + body);
    if space {
        assert((sp + body).skip(1) =~= body);
    } else {
        assert(sp + body =~= body);
        assert(body[0] == k[0]);
    }
}

/// Conversely, whatever comment reads as a commented-out pair has a key made of a letter or
/// `_` and then letters, digits, `_`, `.`, `:` and `-`, written without quotes, and a value
/// that is quoted or a literal.
pub proof fn law_recognized_pairs_have_key_words(c: Seq<char>, bare_literals: bool)
    ensures
        spec_parse_disabled_pair(c, bare_literals) matches Some(p) ==> key_word(p.key) && (
        without_quotes(p.value) is Some || literal_text(p.value)),
{
    crate::idempotence::lemma_disabled_word(c, bare_literals);
    if let Some(p) = spec_parse_disabled_pair(c, bare_literals) {
        let b = disabled_body(c)->Some_0;
        let parsed = spec_parse_line(b)->Ok_0;
        let w = parsed.tokens[0]->Word_0;
        let u = crate::syntax::unquoted(w);
        assert(crate::syntax::is_key_text(u));
        if let Some(x) = without_quotes(w) {
            assert(u == x);
            assert forall|i: int| 0 <= i < x.len() implies crate::syntax::bare_char(
                #[trigger] x[i],
            ) by {
                if i > 0 {
                    assert(crate::syntax::key_char(x[i]));
                }
            }
            assert(!crate::syntax::contains_comment_start(x)) by {
                if crate::syntax::contains_comment_start(x) {
                    let i = choose|i: int| #[trigger] starts_comment(x, i);
                    if i > 0 {
                        assert(crate::syntax::key_char(x[i]));
                    }
                    assert(false);
                }
            }
        }
        assert(p.key == u);
        assert forall|i: int| 1 <= i < u.len() implies {
            let ch = #[trigger] u[i];
            letter(ch) || digit(ch) || ch == '_' || ch == '.' || ch == ':' || ch == '-'
        } by {
            assert(crate::syntax::key_char(u[i]));
        }
        law_bare_values_are_exactly_literals(p.value);
    }
}

/// Quoting a value puts a backslash before each backslash and each `"` and leaves every other
/// character as it is: it works character by character.
pub proof fn law_quoting_escapes_only_backslashes_and_quotes(a: Seq<char>, b: Seq<char>, c: char)
    ensures
        crate::syntax::escape(a + b) == crate::syntax::escape(a) + crate::syntax::escape(b),
        crate::syntax::escape(seq![c]) == (if c == '\\' || c == '"' {
            seq!['\\', c]
        } else {
            seq![c]
        }),
        crate::syntax::spec_quote_value(a) == seq!['"'] + crate::syntax::escape(a) + seq!['"'],
        (forall|i: int| 0 <= i < a.len() ==> #[trigger] a[i] != '\\' && a[i] != '"')
            ==> crate::syntax::escape(a) == a,
{
    crate::properties::lemma_escape_concat(a, b);
    assert(seq![c].drop_last() =~= Seq::<char>::empty());
    assert(crate::syntax::escape(Seq::<char>::empty()) == Seq::<char>::empty());
    assert(crate::syntax::escape(seq![c]) =~= (if c == '\\' || c == '"' {
        seq!['\\', c]
    } else {
        seq![c]
    }));
    if forall|i: int| 0 <= i < a.len() ==> #[trigger] a[i] != '\\' && a[i] != '"' {
        lemma_escape_verbatim(a);
    }
}

pub proof fn lemma_escape_verbatim(a: Seq<char>)
    requires
        forall|i: int| 0 <= i < a.len() ==> #[trigger] a[i] != '\\' && a[i] != '"',
    ensures
        crate::syntax::escape(a) == a,
    decreases a.len(),
{
    if a.len() > 0 {
        let p = a.drop_last();
        assert forall|i: int| 0 <= i < p.len() implies #[trigger] p[i] != '\\' && p[i] != '"' by {
            assert(p[i] == a[i]);
        }
        lemma_escape_verbatim(p);
        assert(a.last() == a[a.len() - 1]);
        assert(p + seq![a.last()] =~= a);
    }
}

} // verus!
