//! Formatting formatted text changes nothing: the output reads back as the lines that made it.

use vstd::prelude::*;

use crate::formatter::{
    align_comments, can_align, collect_lines, collect_tokens, comment_run, ends_with_newline,
    finish_source_line, flush, initial_state, is_pair, key_width, lemma_comment_run_bounds,
    lemma_comment_run_members, lemma_max_key_width, lemma_pair_run_bounds, lemma_pair_run_members,
    line_text, max_code_width, max_key_width, pad_code, pad_group, pair_run, push_body,
    push_comment, render_code, render_pair, render_pairs, render_single, spec_collect_line,
    spec_format, spec_render_lines, spec_split_lines, trim_blank_tail, Body, Line, Options,
    Rendered, State,
};
use crate::properties::{
    law_normalize_key_idempotent, law_normalize_value_idempotent, lemma_bare_end_interior,
    lemma_bare_value_plain, lemma_collect_lines_ok, lemma_escape_plain, lemma_normalize_fixes,
    lemma_normalize_no_cr, lemma_output_shape, lemma_quote_close_escape, lemma_render_lines_ok,
    lemma_split_from_no_breaks, line_ok,
};
use crate::syntax::{
    all_digits, bare_char, bare_end, can_be_bare, contains_comment_start, disabled_body, ends_bare,
    escape, is_disabled_key, is_disabled_value, join_words, lemma_bare_end_bounds,
    lemma_quote_close_bounds, parse_from, quote_close, spec_is_bare_value, spec_normalize_key,
    spec_normalize_newlines, spec_normalize_one_value, spec_normalize_value_tokens,
    spec_parse_disabled_pair, spec_parse_line, spec_quote_value, starts_comment, strip_minus,
    trim_end, unquoted, without_quotes, Parsed, Token,
};
use crate::text::{is_ascii_digit, is_ws, join_with, spaces};

verus! {

// ---------------------------------------------------------------------------
// Words that read back as themselves
// ---------------------------------------------------------------------------

/// A bare token: it reads as one word up to the next whitespace.
pub open spec fn bare_word(x: Seq<char>) -> bool {
    &&& x.len() > 0
    &&& !is_ws(x[0]) && x[0] != '"' && x[0] != '{' && x[0] != '}'
    &&& !starts_comment(x, 0)
    &&& forall|j: int| 1 <= j < x.len() ==> !#[trigger] ends_bare(x, j)
}

/// A quoted token whose closing quote is its last character.
pub open spec fn quoted_word(x: Seq<char>) -> bool {
    x.len() >= 2 && x[0] == '"' && quote_close(x, 1, false) == Some(x.len() - 1)
}

pub open spec fn word_form(x: Seq<char>) -> bool {
    bare_word(x) || quoted_word(x)
}

pub open spec fn tokens_words(toks: Seq<Token>) -> bool {
    forall|j: int| 0 <= j < toks.len() && (#[trigger] toks[j]) is Word ==> word_form(toks[j]->Word_0)
}

pub proof fn lemma_quote_close_sub(l: Seq<char>, s: int, j: int, escaped: bool)
    requires
        0 <= s < j,
        quote_close(l, j, escaped) is Some,
    ensures
        quote_close(l.subrange(s, quote_close(l, j, escaped)->Some_0 + 1), j - s, escaped)
            == Some(quote_close(l, j, escaped)->Some_0 - s),
    decreases l.len() - j,
{
    lemma_quote_close_bounds(l, j, escaped);
    let k = quote_close(l, j, escaped)->Some_0;
    let x = l.subrange(s, k + 1);
    assert(x[j - s] == l[j]);
    if escaped {
        lemma_quote_close_sub(l, s, j + 1, false);
    } else if l[j] == '\\' {
        lemma_quote_close_sub(l, s, j + 1, true);
    } else if l[j] == '"' {
    } else {
        lemma_quote_close_sub(l, s, j + 1, false);
    }
}

pub proof fn lemma_trim_end_keeps(s: Seq<char>, m: int)
    requires
        0 <= m < s.len(),
        !is_ws(s[m]),
    ensures
        trim_end(s).len() > m,
        trim_end(s).len() <= s.len(),
        trim_end(s) == s.take(trim_end(s).len() as int),
    decreases s.len(),
{
    if s.len() > 0 && is_ws(s.last()) {
        assert(m < s.len() - 1);
        assert(s.drop_last()[m] == s[m]);
        lemma_trim_end_keeps(s.drop_last(), m);
        let t = trim_end(s.drop_last());
        assert(s.drop_last().take(t.len() as int) =~= s.take(t.len() as int));
    } else {
        assert(s.take(s.len() as int) =~= s);
    }
}

pub proof fn lemma_parse_from_words(l: Seq<char>, i: int, toks: Seq<Token>)
    requires
        tokens_words(toks),
    ensures
        parse_from(l, i, toks) matches Ok(p) ==> tokens_words(p.tokens) && (p.comment matches Some(
            c,
        ) ==> starts_comment(c, 0)),
    decreases l.len() - i,
{
    if i < 0 || i >= l.len() {
    } else if is_ws(l[i]) {
        lemma_parse_from_words(l, i + 1, toks);
    } else if starts_comment(l, i) {
        let rest = l.skip(i);
        assert(rest[1] == l[i + 1]);
        lemma_trim_end_keeps(rest, 1);
        let c = trim_end(rest);
        assert(c[0] == rest[0] && c[1] == rest[1]);
    } else if l[i] == '"' {
        lemma_quote_close_bounds(l, i + 1, false);
        match quote_close(l, i + 1, false) {
            Some(k) => {
                let w = l.subrange(i, k + 1);
                lemma_quote_close_sub(l, i, i + 1, false);
                assert(quoted_word(w));
                let t2 = toks.push(Token::Word(w));
                assert forall|j: int| 0 <= j < t2.len() && (#[trigger] t2[j]) is Word implies word_form(
                    t2[j]->Word_0,
                ) by {
                    if j < toks.len() {
                        assert(t2[j] == toks[j]);
                    }
                }
                lemma_parse_from_words(l, k + 1, t2);
            },
            None => {},
        }
    } else if l[i] == '{' {
        let t2 = toks.push(Token::Open);
        assert forall|j: int| 0 <= j < t2.len() && (#[trigger] t2[j]) is Word implies word_form(
            t2[j]->Word_0,
        ) by {
            if j < toks.len() {
                assert(t2[j] == toks[j]);
            }
        }
        lemma_parse_from_words(l, i + 1, t2);
    } else if l[i] == '}' {
        let t2 = toks.push(Token::Close);
        assert forall|j: int| 0 <= j < t2.len() && (#[trigger] t2[j]) is Word implies word_form(
            t2[j]->Word_0,
        ) by {
            if j < toks.len() {
                assert(t2[j] == toks[j]);
            }
        }
        lemma_parse_from_words(l, i + 1, t2);
    } else {
        lemma_bare_end_bounds(l, i + 1);
        let e = bare_end(l, i + 1);
        let w = l.subrange(i, e);
        assert(w[0] == l[i]);
        if e > i + 1 {
            assert(w[1] == l[i + 1]);
        }
        assert forall|j: int| 1 <= j < w.len() implies !#[trigger] ends_bare(w, j) by {
            assert(w[j] == l[i + j]);
            lemma_bare_end_interior(l, i + 1, i + j);
            if j + 1 < w.len() {
                assert(w[j + 1] == l[i + j + 1]);
            }
        }
        assert(bare_word(w));
        let t2 = toks.push(Token::Word(w));
        assert forall|j: int| 0 <= j < t2.len() && (#[trigger] t2[j]) is Word implies word_form(
            t2[j]->Word_0,
        ) by {
            if j < toks.len() {
                assert(t2[j] == toks[j]);
            }
        }
        lemma_parse_from_words(l, e, t2);
    }
}


pub proof fn lemma_normalize_key_word(w: Seq<char>)
    requires
        word_form(w),
    ensures
        word_form(spec_normalize_key(w)),
        spec_normalize_key(spec_normalize_key(w)) == spec_normalize_key(w),
        spec_normalize_key(w) != seq!['{'],
        spec_normalize_key(w) != seq!['}'],
        unquoted(spec_normalize_key(w)) == unquoted(w),
{
    law_normalize_key_idempotent(w);
    if let Some(k) = without_quotes(w) {
        if can_be_bare(k) {
            assert(bare_char(k[0]));
            assert(!contains_comment_start(k));
            assert(!starts_comment(k, 0));
            assert forall|j: int| 1 <= j < k.len() implies !#[trigger] ends_bare(k, j) by {
                assert(bare_char(k[j]));
                assert(!starts_comment(k, j));
            }
            assert(without_quotes(k) is None);
        }
    }
    let n = spec_normalize_key(w);
    if n == seq!['{'] || n == seq!['}'] {
        assert(n[0] == '{' || n[0] == '}');
        assert(!quoted_word(n));
    }
}

pub proof fn lemma_bare_value_word(u: Seq<char>)
    requires
        spec_is_bare_value(u),
    ensures
        bare_word(u),
        forall|i: int| 0 <= i < u.len() ==> !is_ws(#[trigger] u[i]),
{
    let lit = |c: char| is_ascii_digit(c) || c == '.' || c == '-' || c == 't' || c == 'r' || c == 'u'
        || c == 'e' || c == 'f' || c == 'a' || c == 'l' || c == 's';
    assert forall|i: int| 0 <= i < u.len() implies #[trigger] lit(u[i]) by {
        if u == seq!['t', 'r', 'u', 'e'] || u == seq!['f', 'a', 'l', 's', 'e'] {
        } else {
            let w = strip_minus(u);
            let off: int = if u.len() > 0 && u[0] == '-' {
                1
            } else {
                0
            };
            if i >= off {
                assert(u[i] == w[i - off]);
                if all_digits(w) {
                    assert(is_ascii_digit(w[i - off]));
                } else {
                    let k = choose|k: int|
                        0 <= k < w.len() && w.len() > 1 && #[trigger] w[k] == '.' && all_digits(
                            w.take(k),
                        ) && all_digits(w.skip(k + 1));
                    if i - off < k {
                        assert(w.take(k)[i - off] == w[i - off]);
                        assert(is_ascii_digit(w.take(k)[i - off]));
                    } else if i - off > k {
                        assert(w.skip(k + 1)[i - off - k - 1] == w[i - off]);
                        assert(is_ascii_digit(w.skip(k + 1)[i - off - k - 1]));
                    }
                }
            }
        }
    }
    assert(u.len() > 0) by {
        if !(u == seq!['t', 'r', 'u', 'e'] || u == seq!['f', 'a', 'l', 's', 'e']) {
            assert(strip_minus(u).len() > 0);
        }
    }
    assert(lit(u[0]));
    assert forall|j: int| 1 <= j < u.len() implies !#[trigger] ends_bare(u, j) by {
        assert(lit(u[j]));
    }
    assert forall|i: int| 0 <= i < u.len() implies !is_ws(#[trigger] u[i]) by {
        assert(lit(u[i]));
    }
}

pub proof fn lemma_quote_word(t: Seq<char>)
    ensures
        quoted_word(spec_quote_value(t)),
{
    let q = spec_quote_value(t);
    let n = escape(t).len() as int;
    assert(q.subrange(1, 1 + n) =~= escape(t));
    assert(q[1 + n] == '"');
    lemma_quote_close_escape(q, 1, t);
}

pub proof fn lemma_one_value_word(t: Seq<char>, bare_literals: bool)
    requires
        word_form(t),
    ensures
        word_form(spec_normalize_one_value(t, bare_literals)),
        spec_normalize_one_value(spec_normalize_one_value(t, bare_literals), bare_literals)
            == spec_normalize_one_value(t, bare_literals),
        is_disabled_value(spec_normalize_one_value(t, bare_literals)),
{
    law_normalize_value_idempotent(t, bare_literals);
    match without_quotes(t) {
        Some(u) => {
            if bare_literals && spec_is_bare_value(u) {
                lemma_bare_value_word(u);
            }
        },
        None => {
            if !(bare_literals && spec_is_bare_value(t)) {
                lemma_quote_word(t);
                let q = spec_quote_value(t);
                assert(q.subrange(1, q.len() - 1) =~= escape(t));
            }
        },
    }
}

pub proof fn lemma_value_tokens_word(ws: Seq<Seq<char>>, bare_literals: bool)
    requires
        ws.len() >= 1,
        forall|k: int| 0 <= k < ws.len() ==> word_form(#[trigger] ws[k]),
    ensures
        word_form(spec_normalize_value_tokens(ws, bare_literals)),
        spec_normalize_one_value(spec_normalize_value_tokens(ws, bare_literals), bare_literals)
            == spec_normalize_value_tokens(ws, bare_literals),
{
    if ws.len() == 1 {
        assert(join_words(ws) == ws[0]);
        lemma_one_value_word(ws[0], bare_literals);
    } else {
        let j = join_words(ws);
        let q = spec_quote_value(j);
        lemma_quote_word(j);
        let e = escape(j);
        assert(q.subrange(1, q.len() - 1) =~= e);
        assert(without_quotes(q) == Some(e));
        if bare_literals && spec_is_bare_value(e) {
            lemma_bare_value_plain(e);
            lemma_escape_plain(j);
            lemma_bare_value_word(j);
            let a = join_with(ws.drop_last(), ' ');
            assert(j == a + seq![' '] + ws.last());
            assert(j[a.len() as int] == ' ');
            assert(false);
        }
    }
}

pub proof fn lemma_disabled_word(c: Seq<char>, bare_literals: bool)
    ensures
        spec_parse_disabled_pair(c, bare_literals) matches Some(p) ==> {
            &&& word_form(p.key)
            &&& spec_normalize_key(p.key) == p.key
            &&& word_form(p.value)
            &&& spec_normalize_one_value(p.value, bare_literals) == p.value
            &&& is_disabled_key(p.key)
            &&& is_disabled_value(p.value)
            &&& p.comment matches Some(cc) ==> starts_comment(cc, 0)
        },
{
    if let Some(b) = disabled_body(c) {
        lemma_parse_from_words(b, 0, Seq::empty());
        if let Ok(p) = spec_parse_line(b) {
            if p.tokens.len() == 2 && p.tokens[0] is Word && p.tokens[1] is Word {
                lemma_normalize_key_word(p.tokens[0]->Word_0);
                lemma_one_value_word(p.tokens[1]->Word_0, bare_literals);
            }
        }
    }
}


// ---------------------------------------------------------------------------
// Lines that the formatter can read back
// ---------------------------------------------------------------------------

pub open spec fn is_open_line(l: Line) -> bool {
    l.body == Body::StandaloneText(seq!['{'])
}

pub open spec fn is_close_line(l: Line) -> bool {
    l.body == Body::StandaloneText(seq!['}'])
}

pub open spec fn step(l: Line) -> int {
    if is_open_line(l) {
        1
    } else if is_close_line(l) {
        -1
    } else {
        0
    }
}

/// Brace depth after the lines.
pub open spec fn depth(ls: Seq<Line>) -> int
    decreases ls.len(),
{
    if ls.len() == 0 {
        0
    } else {
        depth(ls.drop_last()) + step(ls.last())
    }
}

/// The line holds words, comments and braces as a second reading would produce them.
pub open spec fn stable_line(l: Line, opts: Options) -> bool {
    &&& l.body is Blank ==> l.indent == 0 && l.comment is None
    &&& l.comment matches Some(c) ==> starts_comment(c, 0)
    &&& match l.body {
        Body::StandaloneText(x) => x == seq!['{'] || x == seq!['}'] || (word_form(x)
            && spec_normalize_key(x) == x),
        Body::ActivePair { key, value } => word_form(key) && spec_normalize_key(key) == key
            && word_form(value) && spec_normalize_one_value(value, opts.bare_literals) == value,
        Body::DisabledPair { key, value } => opts.reflow_comments && word_form(key)
            && spec_normalize_key(key) == key && word_form(value) && spec_normalize_one_value(
            value,
            opts.bare_literals,
        ) == value && is_disabled_key(key) && is_disabled_value(value),
        Body::PlainComment(c) => starts_comment(c, 0) && l.comment is None && (opts.reflow_comments
            ==> spec_parse_disabled_pair(c, opts.bare_literals) is None),
        Body::Blank => true,
    }
}

/// Line `i` sits at the depth that the braces before it give.
pub open spec fn indent_ok(ls: Seq<Line>, i: int) -> bool {
    ls[i].body is Blank || ls[i].indent == depth(ls.take(i)) + if is_close_line(ls[i]) {
        -1int
    } else {
        0int
    }
}

pub open spec fn stable_lines(ls: Seq<Line>, opts: Options) -> bool {
    &&& forall|i: int| 0 <= i < ls.len() ==> stable_line(#[trigger] ls[i], opts)
    &&& forall|i: int| 0 <= i < ls.len() ==> #[trigger] indent_ok(ls, i)
    &&& forall|i: int| 0 <= i <= ls.len() ==> depth(#[trigger] ls.take(i)) >= 0
}

pub open spec fn stable_state(st: State, opts: Options) -> bool {
    stable_lines(st.lines, opts) && st.indent == depth(st.lines)
}

/// The last line holds a word, a pair or a brace: a comment on its source line follows it.
pub open spec fn ends_in_code(st: State) -> bool {
    st.lines.len() > 0 && (st.lines.last().body is StandaloneText || st.lines.last().body is ActivePair)
}

pub proof fn lemma_braces_differ()
    ensures
        seq!['{'] != seq!['}'],
{
    assert(seq!['{'][0] == '{');
    assert(seq!['}'][0] == '}');
}

pub proof fn lemma_depth_push(ls: Seq<Line>, l: Line)
    ensures
        depth(ls.push(l)) == depth(ls) + step(l),
{
    assert(ls.push(l).drop_last() =~= ls);
}

pub proof fn lemma_push_stable(ls: Seq<Line>, l: Line, opts: Options)
    requires
        stable_lines(ls, opts),
        stable_line(l, opts),
        l.body is Blank || l.indent == depth(ls) + if is_close_line(l) {
            -1int
        } else {
            0int
        },
        depth(ls) + step(l) >= 0,
    ensures
        stable_lines(ls.push(l), opts),
        depth(ls.push(l)) == depth(ls) + step(l),
{
    let n = ls.push(l);
    lemma_depth_push(ls, l);
    assert forall|i: int| 0 <= i <= ls.len() implies #[trigger] n.take(i) == ls.take(i) by {
        assert(n.take(i) =~= ls.take(i));
    }
    assert(ls.take(ls.len() as int) =~= ls);
    assert(n.take(n.len() as int) =~= n);
    assert forall|i: int| 0 <= i < n.len() implies stable_line(#[trigger] n[i], opts) by {
        if i < ls.len() {
            assert(n[i] == ls[i]);
        }
    }
    assert forall|i: int| 0 <= i < n.len() implies #[trigger] indent_ok(n, i) by {
        if i < ls.len() {
            assert(n[i] == ls[i]);
            assert(indent_ok(ls, i));
            assert(n.take(i) == ls.take(i));
        } else {
            assert(n.take(i) == ls.take(ls.len() as int));
        }
    }
    assert forall|i: int| 0 <= i <= n.len() implies depth(#[trigger] n.take(i)) >= 0 by {
        if i <= ls.len() {
            assert(n.take(i) == ls.take(i));
        }
    }
}

pub proof fn lemma_update_last_stable(ls: Seq<Line>, l: Line, opts: Options)
    requires
        stable_lines(ls, opts),
        ls.len() > 0,
        l.body == ls.last().body,
        l.indent == ls.last().indent,
        stable_line(l, opts),
    ensures
        stable_lines(ls.update(ls.len() - 1, l), opts),
        depth(ls.update(ls.len() - 1, l)) == depth(ls),
{
    let m = ls.len() - 1;
    let n = ls.update(m, l);
    assert(n.drop_last() =~= ls.drop_last());
    assert forall|i: int| 0 <= i <= m implies #[trigger] n.take(i) == ls.take(i) by {
        assert(n.take(i) =~= ls.take(i));
    }
    assert(n.take(n.len() as int) =~= n);
    assert(ls.take(ls.len() as int) =~= ls);
    assert forall|i: int| 0 <= i < n.len() implies stable_line(#[trigger] n[i], opts) by {
        if i < m {
            assert(n[i] == ls[i]);
        }
    }
    assert forall|i: int| 0 <= i < n.len() implies #[trigger] indent_ok(n, i) by {
        assert(indent_ok(ls, i));
        assert(n.take(i) == ls.take(i));
        if i < m {
            assert(n[i] == ls[i]);
        }
    }
    assert forall|i: int| 0 <= i <= n.len() implies depth(#[trigger] n.take(i)) >= 0 by {
        if i <= m {
            assert(n.take(i) == ls.take(i));
        } else {
            assert(depth(ls.take(ls.len() as int)) >= 0);
        }
    }
}

pub open spec fn words_formed(ws: Seq<Seq<char>>) -> bool {
    forall|k: int| 0 <= k < ws.len() ==> word_form(#[trigger] ws[k])
}

pub proof fn lemma_flush_stable(st: State, opts: Options, words: Seq<Seq<char>>)
    requires
        stable_state(st, opts),
        words_formed(words),
    ensures
        stable_state(flush(st, opts, words).0, opts),
        flush(st, opts, words).1 ==> ends_in_code(flush(st, opts, words).0),
        !flush(st, opts, words).1 ==> flush(st, opts, words).0 == st,
{
    if words.len() > 0 {
        lemma_normalize_key_word(words[0]);
        if words.len() > 1 {
            assert forall|k: int| 0 <= k < words.skip(1).len() implies word_form(
                #[trigger] words.skip(1)[k],
            ) by {
                assert(words.skip(1)[k] == words[k + 1]);
            }
            lemma_value_tokens_word(words.skip(1), opts.bare_literals);
        }
        let r = flush(st, opts, words).0;
        let l = r.lines.last();
        assert(r.lines == st.lines.push(l));
        assert(!is_open_line(l) && !is_close_line(l));
        lemma_push_stable(st.lines, l, opts);
    }
}

pub proof fn lemma_collect_tokens_stable(
    st: State,
    opts: Options,
    toks: Seq<Token>,
    words: Seq<Seq<char>>,
    emitted: bool,
)
    requires
        stable_state(st, opts),
        tokens_words(toks),
        words_formed(words),
        emitted ==> ends_in_code(st),
    ensures
        collect_tokens(st, opts, toks, words, emitted) matches Ok((s1, w, e)) ==> stable_state(
            s1,
            opts,
        ) && words_formed(w) && (e ==> ends_in_code(s1)),
    decreases toks.len(),
{
    if toks.len() > 0 {
        let rest = toks.skip(1);
        assert forall|j: int| 0 <= j < rest.len() && (#[trigger] rest[j]) is Word implies word_form(
            rest[j]->Word_0,
        ) by {
            assert(rest[j] == toks[j + 1]);
        }
        lemma_flush_stable(st, opts, words);
        match toks[0] {
            Token::Word(w) => {
                let w2 = words.push(w);
                assert forall|k: int| 0 <= k < w2.len() implies word_form(#[trigger] w2[k]) by {
                    if k < words.len() {
                        assert(w2[k] == words[k]);
                    }
                }
                lemma_collect_tokens_stable(st, opts, rest, w2, emitted);
            },
            Token::Open => {
                let s1 = flush(st, opts, words).0;
                let s2 = push_body(s1, Body::StandaloneText(seq!['{']));
                let l = s2.lines.last();
                assert(s2.lines == s1.lines.push(l));
                lemma_braces_differ();
                lemma_push_stable(s1.lines, l, opts);
                lemma_collect_tokens_stable(
                    State { lines: s2.lines, indent: s2.indent + 1 },
                    opts,
                    rest,
                    Seq::empty(),
                    true,
                );
            },
            Token::Close => {
                let s1 = flush(st, opts, words).0;
                if s1.indent != 0 {
                    let s2 = State { lines: s1.lines, indent: (s1.indent - 1) as nat };
                    let s3 = push_body(s2, Body::StandaloneText(seq!['}']));
                    let l = s3.lines.last();
                    assert(s3.lines == s2.lines.push(l));
                    lemma_braces_differ();
                    assert(!is_open_line(l));
                    lemma_push_stable(s2.lines, l, opts);
                    lemma_collect_tokens_stable(s3, opts, rest, Seq::empty(), true);
                }
            },
        }
    }
}

pub proof fn lemma_push_comment_stable(st: State, opts: Options, c: Seq<char>)
    requires
        stable_state(st, opts),
        starts_comment(c, 0),
    ensures
        stable_state(push_comment(st, opts, c), opts),
{
    let r = push_comment(st, opts, c);
    lemma_disabled_word(c, opts.bare_literals);
    let l = r.lines.last();
    assert(r.lines == st.lines.push(l));
    assert(!is_open_line(l) && !is_close_line(l));
    lemma_push_stable(st.lines, l, opts);
}

pub proof fn lemma_finish_source_line_stable(
    st: State,
    opts: Options,
    emitted: bool,
    comment: Option<Seq<char>>,
)
    requires
        stable_state(st, opts),
        comment matches Some(c) ==> starts_comment(c, 0),
        emitted ==> ends_in_code(st),
    ensures
        stable_state(finish_source_line(st, opts, emitted, comment), opts),
{
    let r = finish_source_line(st, opts, emitted, comment);
    match comment {
        Some(c) => {
            if emitted {
                let last = st.lines.last();
                let l = Line { indent: last.indent, body: last.body, comment: Some(c) };
                assert(stable_line(st.lines[st.lines.len() - 1], opts));
                lemma_update_last_stable(st.lines, l, opts);
            } else {
                lemma_push_comment_stable(st, opts, c);
            }
        },
        None => {
            if !emitted {
                let l = r.lines.last();
                assert(r.lines == st.lines.push(l));
                lemma_push_stable(st.lines, l, opts);
            }
        },
    }
}

pub proof fn lemma_collect_line_stable(st: State, opts: Options, p: Parsed)
    requires
        stable_state(st, opts),
        tokens_words(p.tokens),
        p.comment matches Some(c) ==> starts_comment(c, 0),
    ensures
        spec_collect_line(st, opts, p) matches Ok(s1) ==> stable_state(s1, opts),
{
    lemma_collect_tokens_stable(st, opts, p.tokens, Seq::empty(), false);
    if let Ok((s1, words, emitted)) = collect_tokens(st, opts, p.tokens, Seq::empty(), false) {
        lemma_flush_stable(s1, opts, words);
        let (s2, flushed) = flush(s1, opts, words);
        lemma_finish_source_line_stable(s2, opts, emitted || flushed, p.comment);
    }
}

pub proof fn lemma_collect_lines_stable(st: State, opts: Options, ls: Seq<Seq<char>>)
    requires
        stable_state(st, opts),
    ensures
        collect_lines(st, opts, ls) matches Ok(s1) ==> stable_state(s1, opts),
    decreases ls.len(),
{
    if ls.len() > 0 {
        lemma_parse_from_words(ls[0], 0, Seq::empty());
        if let Ok(p) = spec_parse_line(ls[0]) {
            lemma_collect_line_stable(st, opts, p);
            if let Ok(s1) = spec_collect_line(st, opts, p) {
                lemma_collect_lines_stable(s1, opts, ls.skip(1));
            }
        }
    }
}


// ---------------------------------------------------------------------------
// Reading a rendered line
// ---------------------------------------------------------------------------

/// What follows the code of a line: padding, a space and the comment, if it has one.
pub open spec fn tail(comment: Option<Seq<char>>, b: nat) -> Seq<char> {
    match comment {
        Some(c) => spaces(b) + seq![' '] + c,
        None => Seq::empty(),
    }
}

/// The code of a line after its indentation; `a` is the padding after a key.
pub open spec fn line_code(l: Line, a: nat) -> Seq<char> {
    match l.body {
        Body::ActivePair { key, value } => key + spaces(a + 1) + value,
        Body::DisabledPair { key, value } => seq!['/', '/', ' '] + key + spaces(a + 1) + value,
        Body::StandaloneText(x) => x,
        Body::PlainComment(x) => x,
        Body::Blank => Seq::empty(),
    }
}

/// The text of a rendered line, with padding `a` after a key and `b` before a comment.
pub open spec fn line_shape(l: Line, a: nat, b: nat) -> Seq<char> {
    if l.body is Blank {
        Seq::empty()
    } else {
        spaces(4 * l.indent) + line_code(l, a) + tail(l.comment, b)
    }
}

pub open spec fn comment_ok(c: Seq<char>) -> bool {
    c.len() > 0 && starts_comment(c, 0) && !is_ws(c.last())
}

pub proof fn lemma_parse_skip(l: Seq<char>, i: int, n: int, toks: Seq<Token>)
    requires
        0 <= i,
        0 <= n,
        i + n <= l.len(),
        forall|m: int| i <= m < i + n ==> is_ws(#[trigger] l[m]),
    ensures
        parse_from(l, i, toks) == parse_from(l, i + n, toks),
    decreases n,
{
    if n > 0 {
        assert(is_ws(l[i]));
        lemma_parse_skip(l, i + 1, n - 1, toks);
    }
}

pub proof fn lemma_bare_end_exact(l: Seq<char>, j: int, e: int)
    requires
        0 <= j <= e <= l.len(),
        forall|m: int| j <= m < e ==> !#[trigger] ends_bare(l, m),
        e == l.len() || ends_bare(l, e),
    ensures
        bare_end(l, j) == e,
    decreases e - j,
{
    if j < e {
        lemma_bare_end_exact(l, j + 1, e);
    }
}

pub proof fn lemma_quote_close_shift(x: Seq<char>, l: Seq<char>, i: int, j: int, escaped: bool)
    requires
        0 <= i,
        0 <= j,
        i + x.len() <= l.len(),
        l.subrange(i, i + x.len()) == x,
        quote_close(x, j, escaped) is Some,
    ensures
        quote_close(l, i + j, escaped) == Some(i + quote_close(x, j, escaped)->Some_0),
    decreases x.len() - j,
{
    lemma_quote_close_bounds(x, j, escaped);
    assert(l[i + j] == x[j]);
    if escaped {
        lemma_quote_close_shift(x, l, i, j + 1, false);
    } else if x[j] == '\\' {
        lemma_quote_close_shift(x, l, i, j + 1, true);
    } else if x[j] == '"' {
    } else {
        lemma_quote_close_shift(x, l, i, j + 1, false);
    }
}

pub proof fn lemma_parse_word(l: Seq<char>, i: int, x: Seq<char>, toks: Seq<Token>)
    requires
        word_form(x),
        0 <= i,
        i + x.len() <= l.len(),
        l.subrange(i, i + x.len()) == x,
        i + x.len() == l.len() || is_ws(l[i + x.len()]),
    ensures
        parse_from(l, i, toks) == parse_from(l, i + x.len(), toks.push(Token::Word(x))),
{
    let e = i + x.len();
    assert(l[i] == x[0]);
    if x.len() > 1 {
        assert(l[i + 1] == x[1]);
    }
    if bare_word(x) {
        assert forall|m: int| i + 1 <= m < e implies !#[trigger] ends_bare(l, m) by {
            assert(l[m] == x[m - i]);
            assert(!ends_bare(x, m - i));
            if m + 1 < e {
                assert(l[m + 1] == x[m - i + 1]);
            }
        }
        lemma_bare_end_exact(l, i + 1, e);
        assert(!starts_comment(l, i));
    } else {
        lemma_quote_close_shift(x, l, i, 1, false);
    }
}

pub proof fn lemma_parse_comment_end(l: Seq<char>, i: int, c: Seq<char>, toks: Seq<Token>)
    requires
        0 <= i <= l.len(),
        comment_ok(c),
        l.subrange(i, l.len() as int) == c,
    ensures
        parse_from(l, i, toks) == Ok::<Parsed, crate::formatter::FormatError>(
            Parsed { tokens: toks, comment: Some(c) },
        ),
{
    assert(c[0] == l.subrange(i, l.len() as int)[0]);
    assert(c[1] == l.subrange(i, l.len() as int)[1]);
    assert(l.skip(i) =~= c);
    assert(trim_end(c) == c);
}

pub proof fn lemma_parse_tail(
    l: Seq<char>,
    i: int,
    comment: Option<Seq<char>>,
    b: nat,
    toks: Seq<Token>,
)
    requires
        0 <= i <= l.len(),
        l.subrange(i, l.len() as int) == tail(comment, b),
        comment matches Some(c) ==> comment_ok(c),
    ensures
        parse_from(l, i, toks) == Ok::<Parsed, crate::formatter::FormatError>(
            Parsed { tokens: toks, comment },
        ),
{
    match comment {
        Some(c) => {
            let t = l.subrange(i, l.len() as int);
            assert forall|m: int| i <= m < i + b + 1 implies is_ws(#[trigger] l[m]) by {
                assert(l[m] == t[m - i]);
                assert(t[m - i] == tail(comment, b)[m - i]);
            }
            assert(l.subrange(i + b + 1, l.len() as int) =~= t.subrange((b + 1) as int, t.len() as int));
            lemma_parse_skip(l, i, (b + 1) as int, toks);
            assert(l.subrange(i + b + 1, l.len() as int) =~= c);
            lemma_parse_comment_end(l, i + b + 1, c, toks);
        },
        None => {},
    }
}

/// The first character of a tail is whitespace, unless the tail is empty.
pub proof fn lemma_tail_starts_ws(comment: Option<Seq<char>>, b: nat)
    ensures
        tail(comment, b).len() > 0 ==> is_ws(tail(comment, b)[0]),
{
}

pub proof fn lemma_word_then_tail(
    l: Seq<char>,
    i: int,
    x: Seq<char>,
    comment: Option<Seq<char>>,
    b: nat,
    toks: Seq<Token>,
)
    requires
        word_form(x),
        0 <= i <= l.len(),
        l.subrange(i, l.len() as int) == x + tail(comment, b),
        comment matches Some(c) ==> comment_ok(c),
    ensures
        parse_from(l, i, toks) == Ok::<Parsed, crate::formatter::FormatError>(
            Parsed { tokens: toks.push(Token::Word(x)), comment },
        ),
{
    let e = i + x.len();
    let rest = l.subrange(i, l.len() as int);
    assert(l.subrange(i, e) =~= rest.subrange(0, x.len() as int));
    assert(rest.subrange(0, x.len() as int) =~= x);
    lemma_tail_starts_ws(comment, b);
    if e < l.len() {
        assert(l[e] == rest[x.len() as int]);
        assert(rest[x.len() as int] == tail(comment, b)[0]);
    }
    lemma_parse_word(l, i, x, toks);
    assert(l.subrange(e, l.len() as int) =~= rest.subrange(x.len() as int, rest.len() as int));
    assert(rest.subrange(x.len() as int, rest.len() as int) =~= tail(comment, b));
    lemma_parse_tail(l, e, comment, b, toks.push(Token::Word(x)));
}

pub proof fn lemma_pair_then_tail(
    l: Seq<char>,
    i: int,
    k: Seq<char>,
    a: nat,
    v: Seq<char>,
    comment: Option<Seq<char>>,
    b: nat,
    toks: Seq<Token>,
)
    requires
        word_form(k),
        word_form(v),
        0 <= i <= l.len(),
        l.subrange(i, l.len() as int) == k + spaces(a + 1) + v + tail(comment, b),
        comment matches Some(c) ==> comment_ok(c),
    ensures
        parse_from(l, i, toks) == Ok::<Parsed, crate::formatter::FormatError>(
            Parsed { tokens: toks.push(Token::Word(k)).push(Token::Word(v)), comment },
        ),
{
    let rest = l.subrange(i, l.len() as int);
    let e = i + k.len();
    assert(l.subrange(i, e) =~= k);
    assert(l[e] == rest[k.len() as int]);
    lemma_parse_word(l, i, k, toks);
    let t1 = toks.push(Token::Word(k));
    assert forall|m: int| e <= m < e + a + 1 implies is_ws(#[trigger] l[m]) by {
        assert(l[m] == rest[m - i]);
    }
    lemma_parse_skip(l, e, (a + 1) as int, t1);
    let f = e + a + 1;
    let ks = k + spaces(a + 1);
    assert(rest =~= ks + (v + tail(comment, b)));
    assert(rest.subrange(ks.len() as int, rest.len() as int) =~= v + tail(comment, b));
    assert(l.subrange(f, l.len() as int) =~= rest.subrange(ks.len() as int, rest.len() as int));
    lemma_word_then_tail(l, f, v, comment, b, t1);
}


/// What reading the rendered text of `l` gives back.
pub open spec fn reread(l: Line, a: nat, b: nat) -> Parsed {
    match l.body {
        Body::StandaloneText(x) => Parsed {
            tokens: if x == seq!['{'] {
                seq![Token::Open]
            } else if x == seq!['}'] {
                seq![Token::Close]
            } else {
                seq![Token::Word(x)]
            },
            comment: l.comment,
        },
        Body::ActivePair { key, value } => Parsed {
            tokens: seq![Token::Word(key), Token::Word(value)],
            comment: l.comment,
        },
        Body::DisabledPair { .. } => Parsed {
            tokens: Seq::empty(),
            comment: Some(line_code(l, a) + tail(l.comment, b)),
        },
        Body::PlainComment(c) => Parsed { tokens: Seq::empty(), comment: Some(c) },
        Body::Blank => Parsed { tokens: Seq::empty(), comment: None },
    }
}

pub proof fn lemma_parse_shape(l: Line, a: nat, b: nat, opts: Options)
    requires
        stable_line(l, opts),
        line_ok(l),
    ensures
        spec_parse_line(line_shape(l, a, b)) == Ok::<Parsed, crate::formatter::FormatError>(
            reread(l, a, b),
        ),
{
    let t = line_shape(l, a, b);
    let empty = Seq::<Token>::empty();
    if !(l.body is Blank) {
        let n: int = (4 * l.indent) as int;
        let code = line_code(l, a) + tail(l.comment, b);
        assert(t =~= spaces(n as nat) + code);
        assert forall|m: int| 0 <= m < n implies is_ws(#[trigger] t[m]) by {
            assert(t[m] == spaces(n as nat)[m]);
        }
        lemma_parse_skip(t, 0, n, empty);
        assert(t.subrange(n as int, t.len() as int) =~= code);
        match l.comment {
            Some(c) => {
                assert(comment_ok(c));
            },
            None => {},
        }
        match l.body {
            Body::StandaloneText(x) => {
                if x == seq!['{'] || x == seq!['}'] {
                    assert(t[n as int] == x[0]);
                    assert(t.subrange(n + 1, t.len() as int) =~= tail(l.comment, b));
                    lemma_parse_tail(t, n + 1, l.comment, b, empty.push(reread(l, a, b).tokens[0]));
                    assert(empty.push(reread(l, a, b).tokens[0]) =~= reread(l, a, b).tokens);
                } else {
                    lemma_word_then_tail(t, n as int, x, l.comment, b, empty);
                    assert(empty.push(Token::Word(x)) =~= reread(l, a, b).tokens);
                }
            },
            Body::ActivePair { key, value } => {
                assert(code =~= key + spaces(a + 1) + value + tail(l.comment, b));
                lemma_pair_then_tail(t, n as int, key, a, value, l.comment, b, empty);
                assert(empty.push(Token::Word(key)).push(Token::Word(value)) =~= reread(
                    l,
                    a,
                    b,
                ).tokens);
            },
            Body::DisabledPair { key, value } => {
                assert(code[0] == '/' && code[1] == '/');
                assert(code.len() > 0);
                match l.comment {
                    Some(c) => {
                        assert(code.last() == c.last());
                    },
                    None => {
                        assert(code.last() == value.last());
                    },
                }
                lemma_parse_comment_end(t, n as int, code, empty);
            },
            Body::PlainComment(c) => {
                assert(comment_ok(c));
                assert(code =~= c);
                lemma_parse_comment_end(t, n as int, c, empty);
            },
            Body::Blank => {},
        }
    }
}


/// The depth after a line, given the depth before it.
pub open spec fn next_state(st: State, l: Line) -> State {
    State { lines: st.lines.push(l), indent: (st.indent + step(l)) as nat }
}

/// Line `l` sits where a line read at depth `d` lands.
pub open spec fn fits_depth(l: Line, d: nat) -> bool {
    &&& is_close_line(l) ==> d >= 1
    &&& l.body is Blank || l.indent == d + if is_close_line(l) {
        -1int
    } else {
        0int
    }
}

pub proof fn lemma_collect_reread(st: State, opts: Options, l: Line, a: nat, b: nat)
    requires
        stable_line(l, opts),
        line_ok(l),
        fits_depth(l, st.indent),
    ensures
        spec_collect_line(st, opts, reread(l, a, b)) == Ok::<State, crate::formatter::FormatError>(
            next_state(st, l),
        ),
{
    let p = reread(l, a, b);
    let empty_words = Seq::<Seq<char>>::empty();
    lemma_braces_differ();
    match l.body {
        Body::StandaloneText(x) => {
            let pushed = push_body(st, Body::StandaloneText(x));
            if x == seq!['{'] {
                let s2 = State { lines: pushed.lines, indent: pushed.indent + 1 };
                assert(p.tokens.skip(1) =~= Seq::<Token>::empty());
                assert(p.tokens[0] == Token::Open);
                assert(flush(st, opts, empty_words) == (st, false));
                assert(collect_tokens(s2, opts, Seq::empty(), empty_words, true) == Ok::<
                    (State, Seq<Seq<char>>, bool),
                    crate::formatter::FormatError,
                >((s2, empty_words, true)));
                assert(collect_tokens(st, opts, p.tokens, empty_words, false) == Ok::<
                    (State, Seq<Seq<char>>, bool),
                    crate::formatter::FormatError,
                >((s2, empty_words, true)));
            } else if x == seq!['}'] {
                let s2 = State { lines: st.lines, indent: (st.indent - 1) as nat };
                let s3 = push_body(s2, Body::StandaloneText(x));
                assert(p.tokens.skip(1) =~= Seq::<Token>::empty());
                assert(p.tokens[0] == Token::Close);
                assert(flush(st, opts, empty_words) == (st, false));
                assert(collect_tokens(s3, opts, Seq::empty(), empty_words, true) == Ok::<
                    (State, Seq<Seq<char>>, bool),
                    crate::formatter::FormatError,
                >((s3, empty_words, true)));
                assert(collect_tokens(st, opts, p.tokens, empty_words, false) == Ok::<
                    (State, Seq<Seq<char>>, bool),
                    crate::formatter::FormatError,
                >((s3, empty_words, true)));
            } else {
                assert(p.tokens.skip(1) =~= Seq::<Token>::empty());
                let w = empty_words.push(x);
                assert(collect_tokens(st, opts, p.tokens, empty_words, false) == collect_tokens(
                    st,
                    opts,
                    Seq::empty(),
                    w,
                    false,
                ));
                assert(w[0] == x);
                assert(flush(st, opts, w) == (pushed, true));
            }
            let r = spec_collect_line(st, opts, p)->Ok_0;
            match l.comment {
                Some(c) => {
                    assert(r.lines =~= next_state(st, l).lines);
                },
                None => {
                    assert(r.lines =~= next_state(st, l).lines);
                },
            }
        },
        Body::ActivePair { key, value } => {
            let w = empty_words.push(key).push(value);
            assert(p.tokens.skip(1).skip(1) =~= Seq::<Token>::empty());
            assert(p.tokens.skip(1)[0] == Token::Word(value));
            assert(collect_tokens(st, opts, p.tokens, empty_words, false) == collect_tokens(
                st,
                opts,
                p.tokens.skip(1),
                empty_words.push(key),
                false,
            ));
            assert(collect_tokens(st, opts, p.tokens.skip(1), empty_words.push(key), false)
                == collect_tokens(st, opts, Seq::empty(), w, false));
            assert(w[0] == key);
            assert(w.skip(1) =~= seq![value]);
            assert(join_words(seq![value]) == value);
            assert(spec_normalize_value_tokens(w.skip(1), opts.bare_literals) == value);
            let pushed = push_body(st, Body::ActivePair { key, value });
            assert(flush(st, opts, w) == (pushed, true));
            let r = spec_collect_line(st, opts, p)->Ok_0;
            assert(r.lines =~= next_state(st, l).lines);
        },
        Body::DisabledPair { key, value } => {
            let cc = line_code(l, a) + tail(l.comment, b);
            let body = key + spaces(a + 1) + value + tail(l.comment, b);
            assert(cc[0] == '/' && cc[1] == '/');
            assert(cc.skip(2)[0] == ' ');
            assert(cc.skip(2).skip(1) =~= body);
            assert(disabled_body(cc) == Some(body));
            match l.comment {
                Some(c) => {
                    assert(comment_ok(c));
                },
                None => {},
            }
            assert(body.subrange(0, body.len() as int) =~= body);
            lemma_pair_then_tail(body, 0, key, a, value, l.comment, b, Seq::empty());
            let toks = Seq::<Token>::empty().push(Token::Word(key)).push(Token::Word(value));
            assert(toks[0] == Token::Word(key));
            assert(toks[1] == Token::Word(value));
            assert(spec_parse_disabled_pair(cc, opts.bare_literals) == Some(
                crate::syntax::Disabled { key, value, comment: l.comment },
            ));
            assert(p.tokens.len() == 0);
            let r = spec_collect_line(st, opts, p)->Ok_0;
            assert(r.lines =~= next_state(st, l).lines);
        },
        Body::PlainComment(c) => {
            let r = spec_collect_line(st, opts, p)->Ok_0;
            assert(r.lines =~= next_state(st, l).lines);
        },
        Body::Blank => {
            let r = spec_collect_line(st, opts, p)->Ok_0;
            assert(r.lines =~= next_state(st, l).lines);
        },
    }
}


// ---------------------------------------------------------------------------
// The shape of rendered lines
// ---------------------------------------------------------------------------

/// The indented code of `l`, with padding `a` after its key.
pub open spec fn indented_code(l: Line, a: nat) -> Seq<char> {
    if l.body is Blank {
        Seq::<char>::empty()
    } else {
        spaces(4 * l.indent) + line_code(l, a)
    }
}

/// As `indented_code`, with padding `b` before a comment.
pub open spec fn padded_code(l: Line, a: nat, b: nat) -> Seq<char> {
    if l.body is Blank {
        Seq::<char>::empty()
    } else {
        spaces(4 * l.indent) + line_code(l, a) + if l.comment is Some {
            spaces(b)
        } else {
            Seq::<char>::empty()
        }
    }
}

/// The code of `r` is the indented code of `l` with some padding after its key.
pub open spec fn code_shaped(r: Rendered, l: Line) -> bool {
    &&& r.comment == l.comment
    &&& r.indent == l.indent
    &&& exists|a: nat| r.code == #[trigger] indented_code(l, a)
}

/// As `code_shaped`, and padded before a comment.
pub open spec fn padded_shaped(r: Rendered, l: Line) -> bool {
    &&& r.comment == l.comment
    &&& r.indent == l.indent
    &&& exists|a: nat, b: nat| r.code == #[trigger] padded_code(l, a, b)
}

pub proof fn lemma_render_code_shapes(ls: Seq<Line>)
    ensures
        render_code(ls).len() == ls.len(),
        forall|i: int| 0 <= i < ls.len() ==> code_shaped(#[trigger] render_code(ls)[i], ls[i]),
    decreases ls.len(),
{
    if ls.len() > 0 {
        let r = render_code(ls);
        if is_pair(ls[0].body) {
            lemma_pair_run_bounds(ls, ls[0].indent);
            let n = pair_run(ls, ls[0].indent);
            let group = ls.take(n as int);
            let rest = ls.skip(n as int);
            lemma_render_code_shapes(rest);
            assert forall|i: int| 0 <= i < ls.len() implies code_shaped(#[trigger] r[i], ls[i]) by {
                if i < n {
                    lemma_pair_run_members(ls, ls[0].indent, i);
                    assert(group[i] == ls[i]);
                    lemma_max_key_width(group, i);
                    let w = max_key_width(group);
                    let l = ls[i];
                    assert(r[i] == render_pairs(group)[i]);
                    assert(r[i] == render_pair(l, w));
                    let a = (w - key_width(l.body)) as nat;
                    assert(r[i].code =~= indented_code(l, a));
                } else {
                    assert(r[i] == render_code(rest)[i - n]);
                    assert(rest[i - n] == ls[i]);
                }
            }
        } else {
            let rest = ls.skip(1);
            lemma_render_code_shapes(rest);
            assert forall|i: int| 0 <= i < ls.len() implies code_shaped(#[trigger] r[i], ls[i]) by {
                if i > 0 {
                    assert(r[i] == render_code(rest)[i - 1]);
                    assert(rest[i - 1] == ls[i]);
                } else {
                    let l = ls[0];
                    assert(r[0] == render_single(l));
                    assert(r[0].code =~= indented_code(l, 0));
                }
            }
        }
    }
}

pub proof fn lemma_align_shapes(rs: Seq<Rendered>, ls: Seq<Line>)
    requires
        rs.len() == ls.len(),
        forall|i: int| 0 <= i < rs.len() ==> code_shaped(#[trigger] rs[i], ls[i]),
    ensures
        align_comments(rs).len() == rs.len(),
        forall|i: int| 0 <= i < rs.len() ==> padded_shaped(#[trigger] align_comments(rs)[i], ls[i]),
    decreases rs.len(),
{
    if rs.len() > 0 {
        let al = align_comments(rs);
        let n: int = if !can_align(rs[0]) {
            1
        } else {
            lemma_comment_run_bounds(rs, rs[0].indent);
            comment_run(rs, rs[0].indent) as int
        };
        let rest = rs.skip(n);
        let lrest = ls.skip(n);
        assert forall|i: int| 0 <= i < rest.len() implies code_shaped(#[trigger] rest[i], lrest[i]) by {
            assert(rest[i] == rs[i + n]);
            assert(lrest[i] == ls[i + n]);
        }
        lemma_align_shapes(rest, lrest);
        assert forall|i: int| 0 <= i < rs.len() implies padded_shaped(#[trigger] al[i], ls[i]) by {
            if i < n {
                let l = ls[i];
                assert(code_shaped(rs[i], l));
                let a = choose|a: nat| rs[i].code == #[trigger] indented_code(l, a);
                let group = rs.take(n);
                if !can_align(rs[0]) {
                    assert(al[0] == rs[0]);
                    assert(al[i].code =~= padded_code(l, a, 0));
                } else {
                    assert(al[i] == pad_group(group)[i]);
                    assert(group[i] == rs[i]);
                    lemma_comment_run_members(rs, rs[0].indent, i);
                    assert(rs[i].comment is Some);
                    if group.len() > 1 {
                        let w = max_code_width(group);
                        let pad = (w - crate::text::text_width(rs[i].code)) as nat;
                        assert(al[i] == pad_code(rs[i], w));
                        assert(al[i].code =~= padded_code(l, a, pad));
                    } else {
                        assert(al[i] == rs[i]);
                        assert(al[i].code =~= padded_code(l, a, 0));
                    }
                }
            } else {
                assert(al[i] == align_comments(rest)[i - n]);
                assert(lrest[i - n] == ls[i]);
            }
        }
    }
}

/// Text `t` is line `l` rendered with some padding.
pub open spec fn shaped(t: Seq<char>, l: Line) -> bool {
    exists|a: nat, b: nat| t == #[trigger] line_shape(l, a, b)
}

pub proof fn lemma_render_lines_shapes(ls: Seq<Line>, opts: Options)
    requires
        crate::properties::lines_ok(ls),
        forall|i: int| 0 <= i < ls.len() ==> stable_line(#[trigger] ls[i], opts),
    ensures
        spec_render_lines(ls).len() == ls.len(),
        forall|i: int| 0 <= i < ls.len() ==> shaped(#[trigger] spec_render_lines(ls)[i], ls[i]),
{
    lemma_render_code_shapes(ls);
    lemma_align_shapes(render_code(ls), ls);
    let al = align_comments(render_code(ls));
    assert forall|i: int| 0 <= i < ls.len() implies shaped(#[trigger] spec_render_lines(ls)[i], ls[i]) by {
        let l = ls[i];
        let r = al[i];
        assert(padded_shaped(r, l));
        assert(line_ok(l));
        assert(stable_line(l, opts));
        let (a, b) = choose|a: nat, b: nat| r.code == #[trigger] padded_code(l, a, b);
        assert(spec_render_lines(ls)[i] == line_text(r));
        if !(l.body is Blank) {
            assert(line_code(l, a).len() > 0);
            match l.comment {
                Some(c) => {
                    assert(line_text(r) =~= line_shape(l, a, b));
                },
                None => {
                    assert(line_text(r) =~= line_shape(l, a, b));
                },
            }
        } else {
            assert(line_text(r) =~= line_shape(l, a, b));
        }
    }
}


// ---------------------------------------------------------------------------
// Reading the output back
// ---------------------------------------------------------------------------

pub proof fn lemma_replay(ls: Seq<Line>, ts: Seq<Seq<char>>, k: int, opts: Options)
    requires
        stable_lines(ls, opts),
        crate::properties::lines_ok(ls),
        ts.len() == ls.len(),
        forall|i: int| 0 <= i < ls.len() ==> shaped(#[trigger] ts[i], ls[i]),
        0 <= k <= ls.len(),
    ensures
        collect_lines(
            State { lines: ls.take(k), indent: depth(ls.take(k)) as nat },
            opts,
            ts.skip(k),
        ) == Ok::<State, crate::formatter::FormatError>(
            State { lines: ls, indent: depth(ls) as nat },
        ),
    decreases ls.len() - k,
{
    if k == ls.len() {
        assert(ls.take(k) =~= ls);
        assert(ts.skip(k).len() == 0);
    } else {
        let st = State { lines: ls.take(k), indent: depth(ls.take(k)) as nat };
        let l = ls[k];
        assert(shaped(ts[k], l));
        let (a, b) = choose|a: nat, b: nat| ts[k] == #[trigger] line_shape(l, a, b);
        assert(stable_line(l, opts));
        assert(line_ok(l));
        assert(indent_ok(ls, k));
        assert(depth(ls.take(k)) >= 0);
        lemma_parse_shape(l, a, b, opts);
        lemma_collect_reread(st, opts, l, a, b);
        assert(ls.take(k + 1) =~= ls.take(k).push(l));
        lemma_depth_push(ls.take(k), l);
        assert(depth(ls.take(k + 1)) >= 0);
        assert(ts.skip(k)[0] == ts[k]);
        assert(ts.skip(k).skip(1) =~= ts.skip(k + 1));
        assert(next_state(st, l) == State {
            lines: ls.take(k + 1),
            indent: depth(ls.take(k + 1)) as nat,
        });
        lemma_replay(ls, ts, k + 1, opts);
    }
}

pub proof fn lemma_trim_prefix(ls: Seq<Line>)
    ensures
        crate::formatter::trim_blank_tail(ls) == ls.take(
            crate::formatter::trim_blank_tail(ls).len() as int,
        ),
        crate::formatter::trim_blank_tail(ls).len() <= ls.len(),
        forall|j: int|
            crate::formatter::trim_blank_tail(ls).len() <= j < ls.len() ==> (#[trigger] ls[j]).body is Blank,
        crate::formatter::trim_blank_tail(crate::formatter::trim_blank_tail(ls))
            == crate::formatter::trim_blank_tail(ls),
    decreases ls.len(),
{
    if ls.len() > 0 && ls.last().body is Blank && ls.last().comment is None {
        lemma_trim_prefix(ls.drop_last());
        let t = crate::formatter::trim_blank_tail(ls.drop_last());
        assert(ls.drop_last().take(t.len() as int) =~= ls.take(t.len() as int));
        assert forall|j: int| t.len() <= j < ls.len() implies (#[trigger] ls[j]).body is Blank by {
            if j < ls.len() - 1 {
                assert(ls.drop_last()[j] == ls[j]);
            }
        }
    } else {
        assert(ls.take(ls.len() as int) =~= ls);
    }
}

pub proof fn lemma_prefix_stable(ls: Seq<Line>, m: int, opts: Options)
    requires
        stable_lines(ls, opts),
        crate::properties::lines_ok(ls),
        0 <= m <= ls.len(),
        forall|j: int| m <= j < ls.len() ==> (#[trigger] ls[j]).body is Blank,
    ensures
        stable_lines(ls.take(m), opts),
        crate::properties::lines_ok(ls.take(m)),
        depth(ls.take(m)) == depth(ls),
    decreases ls.len() - m,
{
    let p = ls.take(m);
    assert forall|i: int| 0 <= i <= m implies #[trigger] p.take(i) == ls.take(i) by {
        assert(p.take(i) =~= ls.take(i));
    }
    assert forall|i: int| 0 <= i < p.len() implies stable_line(#[trigger] p[i], opts) by {
        assert(p[i] == ls[i]);
    }
    assert forall|i: int| 0 <= i < p.len() implies line_ok(#[trigger] p[i]) by {
        assert(p[i] == ls[i]);
    }
    assert forall|i: int| 0 <= i < p.len() implies #[trigger] indent_ok(p, i) by {
        assert(p[i] == ls[i]);
        assert(indent_ok(ls, i));
        assert(p.take(i) == ls.take(i));
    }
    assert forall|i: int| 0 <= i <= p.len() implies depth(#[trigger] p.take(i)) >= 0 by {
        assert(p.take(i) == ls.take(i));
    }
    if m < ls.len() {
        let d = ls.drop_last();
        assert(ls.last().body is Blank);
        assert(stable_lines(d, opts)) by {
            assert forall|i: int| 0 <= i <= d.len() implies #[trigger] d.take(i) == ls.take(i) by {
                assert(d.take(i) =~= ls.take(i));
            }
            assert forall|i: int| 0 <= i < d.len() implies stable_line(#[trigger] d[i], opts) by {
                assert(d[i] == ls[i]);
            }
            assert forall|i: int| 0 <= i < d.len() implies #[trigger] indent_ok(d, i) by {
                assert(d[i] == ls[i]);
                assert(indent_ok(ls, i));
                assert(d.take(i) == ls.take(i));
            }
            assert forall|i: int| 0 <= i <= d.len() implies depth(#[trigger] d.take(i)) >= 0 by {
                assert(d.take(i) == ls.take(i));
            }
        }
        assert(crate::properties::lines_ok(d)) by {
            assert forall|i: int| 0 <= i < d.len() implies line_ok(#[trigger] d[i]) by {
                assert(d[i] == ls[i]);
            }
        }
        assert forall|j: int| m <= j < d.len() implies (#[trigger] d[j]).body is Blank by {
            assert(d[j] == ls[j]);
        }
        lemma_prefix_stable(d, m, opts);
        assert(d.take(m) =~= p);
        assert(!is_open_line(ls.last()) && !is_close_line(ls.last()));
    } else {
        assert(p =~= ls);
    }
}

pub proof fn lemma_split_no_newline(x: Seq<char>, s: Seq<char>, cur: Seq<char>)
    requires
        forall|i: int| 0 <= i < x.len() ==> #[trigger] x[i] != '\n',
    ensures
        crate::formatter::split_from(x + s, cur) == crate::formatter::split_from(s, cur + x),
    decreases x.len(),
{
    if x.len() == 0 {
        assert(x + s =~= s);
        assert(cur + x =~= cur);
    } else {
        let x1 = x.skip(1);
        assert((x + s).skip(1) =~= x1 + s);
        assert((x + s)[0] == x[0]);
        assert forall|i: int| 0 <= i < x1.len() implies #[trigger] x1[i] != '\n' by {
            assert(x1[i] == x[i + 1]);
        }
        lemma_split_no_newline(x1, s, cur.push(x[0]));
        assert(cur.push(x[0]) + x1 =~= cur + x);
    }
}

pub proof fn lemma_split_join(ts: Seq<Seq<char>>, tl: Seq<char>)
    requires
        ts.len() > 0,
        forall|k: int| 0 <= k < ts.len() ==> crate::properties::no_breaks(#[trigger] ts[k]),
    ensures
        crate::formatter::split_from(join_with(ts, '\n') + tl, Seq::empty()) == ts.drop_last()
            + crate::formatter::split_from(tl, ts.last()),
    decreases ts.len(),
{
    assert(crate::properties::no_breaks(ts[ts.len() - 1]));
    assert forall|i: int| 0 <= i < ts.last().len() implies #[trigger] ts.last()[i] != '\n' by {}
    if ts.len() == 1 {
        lemma_split_no_newline(ts[0], tl, Seq::empty());
        assert(Seq::<char>::empty() + ts[0] =~= ts[0]);
        assert(ts.drop_last() =~= Seq::<Seq<char>>::empty());
        assert(ts.drop_last() + crate::formatter::split_from(tl, ts.last()) =~= crate::formatter::split_from(tl, ts.last()));
    } else {
        let d = ts.drop_last();
        assert forall|k: int| 0 <= k < d.len() implies crate::properties::no_breaks(#[trigger] d[k]) by {
            assert(d[k] == ts[k]);
        }
        let tl2 = seq!['\n'] + ts.last() + tl;
        lemma_split_join(d, tl2);
        assert(join_with(ts, '\n') + tl =~= join_with(d, '\n') + tl2);
        assert(tl2[0] == '\n');
        assert(tl2.skip(1) =~= ts.last() + tl);
        lemma_split_no_newline(ts.last(), tl, Seq::empty());
        assert(Seq::<char>::empty() + ts.last() =~= ts.last());
        assert(crate::formatter::split_from(tl2, d.last()) =~= seq![d.last()]
            + crate::formatter::split_from(tl, ts.last()));
        assert(d.drop_last() + (seq![d.last()] + crate::formatter::split_from(tl, ts.last()))
            =~= ts.drop_last() + crate::formatter::split_from(tl, ts.last()));
    }
}

pub proof fn lemma_split_ends_blank(s: Seq<char>, cur: Seq<char>)
    requires
        s.len() > 0,
        s.last() == '\n',
    ensures
        crate::formatter::split_from(s, cur).len() > 0,
        crate::formatter::split_from(s, cur).last() == Seq::<char>::empty(),
    decreases s.len(),
{
    let r = crate::formatter::split_from(s, cur);
    if s[0] == '\n' {
        if s.len() == 1 {
            assert(s.skip(1).len() == 0);
            assert(crate::formatter::split_from(s.skip(1), Seq::empty()) == seq![
                Seq::<char>::empty(),
            ]);
            assert(r =~= seq![cur] + seq![Seq::<char>::empty()]);
        } else {
            assert(s.skip(1).last() == s.last());
            lemma_split_ends_blank(s.skip(1), Seq::empty());
            let q = crate::formatter::split_from(s.skip(1), Seq::empty());
            assert(r == seq![cur] + q);
            assert(r.last() == q.last());
        }
    } else {
        assert(s.len() > 1);
        assert(s.skip(1).last() == s.last());
        lemma_split_ends_blank(s.skip(1), cur.push(s[0]));
    }
}

pub open spec fn blank_line() -> Line {
    Line { indent: 0, body: Body::Blank, comment: None }
}

pub proof fn lemma_collect_ends_blank(st: State, opts: Options, ls: Seq<Seq<char>>)
    requires
        ls.len() > 0,
        ls.last() == Seq::<char>::empty(),
    ensures
        collect_lines(st, opts, ls) matches Ok(s1) ==> s1.lines.len() > 0 && s1.lines.last()
            == blank_line(),
    decreases ls.len(),
{
    if let Ok(p) = spec_parse_line(ls[0]) {
        if let Ok(s1) = spec_collect_line(st, opts, p) {
            if ls.len() == 1 {
                assert(ls[0] == Seq::<char>::empty());
                assert(p == Parsed { tokens: Seq::empty(), comment: None });
                assert(collect_lines(s1, opts, ls.skip(1)) == Ok::<State, crate::formatter::FormatError>(s1));
            } else {
                assert(ls.skip(1).last() == ls.last());
                lemma_collect_ends_blank(s1, opts, ls.skip(1));
            }
        }
    }
}


proof fn lemma_blank_line_ok(opts: Options)
    ensures
        stable_line(blank_line(), opts),
        line_ok(blank_line()),
        shaped(Seq::<char>::empty(), blank_line()),
{
    assert(Seq::<char>::empty() == line_shape(blank_line(), 0, 0));
}

/// Formatting text that was formatted with the same options changes nothing.
pub proof fn law_format_is_idempotent(input: Seq<char>, opts: Options)
    ensures
        spec_format(input, opts) matches Ok(out) ==> spec_format(out, opts) == Ok::<
            Seq<char>,
            crate::formatter::FormatError,
        >(out),
{
    let text = spec_normalize_newlines(input);
    let src = spec_split_lines(text);
    lemma_output_shape(input, opts);
    if let Ok(st) = collect_lines(initial_state(), opts, src) {
        let had = ends_with_newline(text);
        if st.indent == 0 {
            let out = spec_format(input, opts)->Ok_0;
            // What the first pass collected.
            lemma_normalize_no_cr(input);
            assert(crate::properties::no_breaks(Seq::<char>::empty()));
            lemma_split_from_no_breaks(text, Seq::empty());
            assert(crate::properties::lines_ok(initial_state().lines));
            lemma_collect_lines_ok(initial_state(), opts, src);
            assert(initial_state().lines.take(0) =~= initial_state().lines);
            assert(stable_state(initial_state(), opts));
            lemma_collect_lines_stable(initial_state(), opts, src);
            let l1 = if had && st.lines.len() > 0 {
                st.lines.drop_last()
            } else {
                st.lines
            };
            if had {
                lemma_split_ends_blank(text, Seq::empty());
                lemma_collect_ends_blank(initial_state(), opts, src);
            }
            assert forall|j: int| l1.len() <= j < st.lines.len() implies (
            #[trigger] st.lines[j]).body is Blank by {}
            assert(l1 =~= st.lines.take(l1.len() as int));
            let ls = trim_blank_tail(l1);
            lemma_trim_prefix(l1);
            let m = ls.len() as int;
            assert(ls =~= st.lines.take(m));
            assert forall|j: int| m <= j < st.lines.len() implies (#[trigger] st.lines[j]).body is Blank by {
                if j < l1.len() {
                    assert(l1[j] == st.lines[j]);
                }
            }
            lemma_prefix_stable(st.lines, m, opts);
            assert(depth(ls) == 0);
            let ts = spec_render_lines(ls);
            lemma_render_lines_shapes(ls, opts);
            lemma_render_lines_ok(ls);
            let j = join_with(ts, '\n');
            assert(out == if had {
                j.push('\n')
            } else {
                j
            });
            // The second pass reads the same lines back.
            lemma_normalize_fixes(out);
            assert(spec_normalize_newlines(out) == out);
            assert(ends_with_newline(out) == had);
            let e = Seq::<char>::empty();
            let base_l = if ls.len() == 0 {
                seq![blank_line()]
            } else {
                ls
            };
            let base_t = if ls.len() == 0 {
                seq![e]
            } else {
                ts
            };
            let l2 = if had {
                base_l.push(blank_line())
            } else {
                base_l
            };
            let t2 = if had {
                base_t.push(e)
            } else {
                base_t
            };
            lemma_blank_line_ok(opts);
            // The lines of the output text.
            if ts.len() > 0 {
                assert forall|k: int| 0 <= k < ts.len() implies crate::properties::no_breaks(
                    #[trigger] ts[k],
                ) by {
                    assert(crate::properties::text_ok(ts[k]));
                }
                if had {
                    lemma_split_join(ts, seq!['\n']);
                    assert(j.push('\n') =~= j + seq!['\n']);
                    assert(seq!['\n'].skip(1) =~= e);
                    assert(crate::formatter::split_from(seq!['\n'], ts.last()) =~= seq![ts.last()]
                        + crate::formatter::split_from(e, e));
                    assert(ts.drop_last() + (seq![ts.last()] + seq![e]) =~= ts.push(e));
                } else {
                    lemma_split_join(ts, e);
                    assert(j + e =~= j);
                    assert(ts.drop_last() + seq![ts.last()] =~= ts);
                }
            } else {
                assert(j =~= e);
                if had {
                    assert(j.push('\n') =~= seq!['\n']);
                    assert(seq!['\n'].skip(1) =~= e);
                    assert(crate::formatter::split_from(seq!['\n'], e) =~= seq![e]
                        + crate::formatter::split_from(e, e));
                    assert(seq![e] + seq![e] =~= seq![e].push(e));
                }
            }
            assert(spec_split_lines(out) == t2);
            // The lines that the second pass collects.
            let empty_lines = Seq::<Line>::empty();
            assert(stable_lines(empty_lines, opts)) by {
                assert(empty_lines.take(0) =~= empty_lines);
            }
            assert(crate::properties::lines_ok(empty_lines));
            if ls.len() == 0 {
                lemma_push_stable(empty_lines, blank_line(), opts);
                crate::properties::lemma_push_ok(empty_lines, blank_line());
                assert(empty_lines.push(blank_line()) =~= base_l);
                assert(depth(empty_lines) == 0);
            }
            assert(stable_lines(base_l, opts));
            assert(crate::properties::lines_ok(base_l));
            assert(depth(base_l) == 0);
            if had {
                lemma_push_stable(base_l, blank_line(), opts);
                crate::properties::lemma_push_ok(base_l, blank_line());
            }
            assert(depth(l2) == 0);
            assert(t2.len() == l2.len());
            assert forall|i: int| 0 <= i < l2.len() implies shaped(#[trigger] t2[i], l2[i]) by {
                if i < base_l.len() {
                    if ls.len() > 0 {
                        assert(t2[i] == ts[i]);
                        assert(l2[i] == ls[i]);
                    } else {
                        assert(t2[i] == e);
                        assert(l2[i] == blank_line());
                    }
                } else {
                    assert(t2[i] == e);
                    assert(l2[i] == blank_line());
                }
            }
            lemma_replay(l2, t2, 0, opts);
            assert(l2.take(0) =~= empty_lines);
            assert(t2.skip(0) =~= t2);
            assert(State { lines: l2.take(0), indent: depth(l2.take(0)) as nat } == initial_state());
            assert(collect_lines(initial_state(), opts, t2) == Ok::<
                State,
                crate::formatter::FormatError,
            >(State { lines: l2, indent: 0 }));
            // Finishing gives the same text.
            let l3 = if had && l2.len() > 0 {
                l2.drop_last()
            } else {
                l2
            };
            assert(l3 == base_l) by {
                if had {
                    assert(l2.drop_last() =~= base_l);
                }
            }
            if ls.len() == 0 {
                assert(seq![blank_line()].drop_last() =~= empty_lines);
                assert(trim_blank_tail(base_l) == trim_blank_tail(empty_lines));
                assert(trim_blank_tail(empty_lines) == empty_lines);
                assert(ls =~= empty_lines);
            }
            assert(trim_blank_tail(l3) == ls);
        }
    }
}


/// Every line that holds something sits at the depth of the braces before it (a closing
/// brace one less), and the depth ends where the collected lines leave it.
pub proof fn law_lines_sit_at_brace_depth(input: Seq<char>, opts: Options)
    ensures
        crate::properties::formatted_lines(input, opts) matches Ok(st) ==> {
            &&& st.indent == depth(st.lines)
            &&& forall|i: int| 0 <= i < st.lines.len() ==> #[trigger] indent_ok(st.lines, i)
        },
{
    let empty_lines = Seq::<Line>::empty();
    assert(empty_lines.take(0) =~= empty_lines);
    assert(stable_state(initial_state(), opts));
    lemma_collect_lines_stable(
        initial_state(),
        opts,
        spec_split_lines(spec_normalize_newlines(input)),
    );
}

} // verus!
