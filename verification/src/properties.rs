//! Properties of the output that hold for every input: line breaks, trailing whitespace,
//! quoting and alignment.

use vstd::prelude::*;

use crate::formatter::{
    align_comments, can_align, collect_lines, collect_tokens, comment_run, finish_source_line,
    flush, initial_state, is_pair, lemma_comment_run_bounds, lemma_comment_run_members,
    lemma_pair_run_bounds, lemma_pair_run_members, line_text, max_code_width, max_key_width,
    pad_code, pad_group, pair_key, pair_prefix, pair_run, pair_value, push_body, push_comment,
    render_code, render_pair, render_pairs, render_single, spec_collect_line, spec_finish,
    spec_format, spec_render_lines, spec_split_lines, split_from, trim_blank_tail, Body,
    FormatError, Line, Options, Rendered, State,
};
use crate::syntax::{
    all_digits, bare_char, bare_end, can_be_bare, disabled_body, ends_bare, escape, join_words,
    lemma_bare_end_bounds, lemma_quote_close_bounds, parse_from, quote_close, spec_is_bare_value,
    spec_normalize_key, spec_normalize_newlines, spec_normalize_one_value,
    spec_normalize_value_tokens, spec_parse_disabled_pair, spec_parse_line, spec_quote_value,
    starts_comment, strip_minus, trim_end, without_quotes, Parsed, Token,
};
use crate::text::{is_ascii_digit, is_ws, join_with, spaces};

verus! {

// ---------------------------------------------------------------------------
// Text without line breaks
// ---------------------------------------------------------------------------

/// `t` holds neither `\n` nor `\r`.
pub open spec fn no_breaks(t: Seq<char>) -> bool {
    forall|i: int| 0 <= i < t.len() ==> #[trigger] t[i] != '\n' && t[i] != '\r'
}

/// `t` holds no `\r`.
pub open spec fn no_cr(t: Seq<char>) -> bool {
    forall|i: int| 0 <= i < t.len() ==> #[trigger] t[i] != '\r'
}

/// A non-empty piece of one line that does not end in whitespace.
pub open spec fn clean(t: Seq<char>) -> bool {
    t.len() > 0 && no_breaks(t) && !is_ws(t.last())
}

pub proof fn lemma_no_breaks_subrange(t: Seq<char>, lo: int, hi: int)
    requires
        no_breaks(t),
        0 <= lo <= hi <= t.len(),
    ensures
        no_breaks(t.subrange(lo, hi)),
{
    assert forall|i: int| 0 <= i < hi - lo implies #[trigger] t.subrange(lo, hi)[i] != '\n'
        && t.subrange(lo, hi)[i] != '\r' by {
        assert(t.subrange(lo, hi)[i] == t[lo + i]);
    }
}

pub proof fn lemma_no_breaks_concat(a: Seq<char>, b: Seq<char>)
    requires
        no_breaks(a),
        no_breaks(b),
    ensures
        no_breaks(a + b),
{
    assert forall|i: int| 0 <= i < (a + b).len() implies #[trigger] (a + b)[i] != '\n' && (a
        + b)[i] != '\r' by {
        if i < a.len() {
            assert((a + b)[i] == a[i]);
        } else {
            assert((a + b)[i] == b[i - a.len()]);
        }
    }
}

// ---------------------------------------------------------------------------
// Newlines
// ---------------------------------------------------------------------------

pub proof fn lemma_normalize_no_cr(s: Seq<char>)
    ensures
        no_cr(spec_normalize_newlines(s)),
    decreases s.len(),
{
    if s.len() > 0 {
        let rest = if s[0] == '\r' && s.len() > 1 && s[1] == '\n' {
            s.skip(2)
        } else {
            s.skip(1)
        };
        lemma_normalize_no_cr(rest);
        let r = spec_normalize_newlines(s);
        assert forall|i: int| 0 <= i < r.len() implies #[trigger] r[i] != '\r' by {
            if i > 0 {
                assert(r[i] == spec_normalize_newlines(rest)[i - 1]);
            }
        }
    }
}

pub proof fn lemma_normalize_fixes(s: Seq<char>)
    requires
        no_cr(s),
    ensures
        spec_normalize_newlines(s) == s,
    decreases s.len(),
{
    if s.len() > 0 {
        assert(s[0] != '\r');
        assert(no_cr(s.skip(1))) by {
            assert forall|i: int| 0 <= i < s.skip(1).len() implies #[trigger] s.skip(1)[i]
                != '\r' by {
                assert(s.skip(1)[i] == s[i + 1]);
            }
        }
        lemma_normalize_fixes(s.skip(1));
        assert(seq![s[0]] + s.skip(1) =~= s);
    }
}

/// Law: normalized text holds no `\r`, so normalizing it again changes nothing.
pub proof fn law_normalize_newlines_idempotent(s: Seq<char>)
    ensures
        no_cr(spec_normalize_newlines(s)),
        spec_normalize_newlines(spec_normalize_newlines(s)) == spec_normalize_newlines(s),
{
    lemma_normalize_no_cr(s);
    lemma_normalize_fixes(spec_normalize_newlines(s));
}

pub proof fn lemma_split_from_no_breaks(s: Seq<char>, cur: Seq<char>)
    requires
        no_cr(s),
        no_breaks(cur),
    ensures
        forall|k: int|
            0 <= k < split_from(s, cur).len() ==> no_breaks(#[trigger] split_from(s, cur)[k]),
    decreases s.len(),
{
    if s.len() > 0 {
        assert(no_cr(s.skip(1))) by {
            assert forall|i: int| 0 <= i < s.skip(1).len() implies #[trigger] s.skip(1)[i]
                != '\r' by {
                assert(s.skip(1)[i] == s[i + 1]);
            }
        }
        if s[0] == '\n' {
            lemma_split_from_no_breaks(s.skip(1), Seq::empty());
            let r = split_from(s, cur);
            assert forall|k: int| 0 <= k < r.len() implies no_breaks(#[trigger] r[k]) by {
                if k > 0 {
                    assert(r[k] == split_from(s.skip(1), Seq::empty())[k - 1]);
                } else {
                    assert(r[k] == cur);
                }
            }
        } else {
            assert(s[0] != '\r');
            lemma_no_breaks_concat(cur, seq![s[0]]);
            assert(cur + seq![s[0]] =~= cur.push(s[0]));
            lemma_split_from_no_breaks(s.skip(1), cur.push(s[0]));
            assert(split_from(s, cur) == split_from(s.skip(1), cur.push(s[0])));
        }
    } else {
        assert(split_from(s, cur) == seq![cur]);
        assert(split_from(s, cur)[0] == cur);
    }
}


// ---------------------------------------------------------------------------
// Tokens
// ---------------------------------------------------------------------------

pub open spec fn tokens_clean(toks: Seq<Token>) -> bool {
    forall|j: int| 0 <= j < toks.len() && (#[trigger] toks[j]) is Word ==> clean(toks[j]->Word_0)
}

pub proof fn lemma_trim_end(s: Seq<char>)
    ensures
        trim_end(s).len() <= s.len(),
        trim_end(s) == s.take(trim_end(s).len() as int),
        trim_end(s).len() > 0 ==> !is_ws(trim_end(s).last()),
        s.len() > 0 && !is_ws(s[0]) ==> trim_end(s).len() > 0,
    decreases s.len(),
{
    if s.len() > 0 && is_ws(s.last()) {
        lemma_trim_end(s.drop_last());
        let t = trim_end(s.drop_last());
        assert(s.drop_last().take(t.len() as int) =~= s.take(t.len() as int));
        if s.len() > 1 {
            assert(s.drop_last()[0] == s[0]);
        }
    } else {
        assert(s.take(s.len() as int) =~= s);
    }
}

pub proof fn lemma_bare_end_interior(l: Seq<char>, j: int, m: int)
    requires
        0 <= j <= m < bare_end(l, j),
        m < l.len(),
    ensures
        !ends_bare(l, m),
    decreases m - j,
{
    if j < l.len() && !ends_bare(l, j) {
        if m > j {
            lemma_bare_end_interior(l, j + 1, m);
        }
    }
}

pub proof fn lemma_parse_from_clean(l: Seq<char>, i: int, toks: Seq<Token>)
    requires
        no_breaks(l),
        tokens_clean(toks),
    ensures
        parse_from(l, i, toks) matches Ok(p) ==> tokens_clean(p.tokens) && (p.comment matches Some(
            c,
        ) ==> clean(c)),
    decreases l.len() - i,
{
    if i < 0 || i >= l.len() {
    } else if is_ws(l[i]) {
        lemma_parse_from_clean(l, i + 1, toks);
    } else if starts_comment(l, i) {
        let rest = l.skip(i);
        lemma_no_breaks_subrange(l, i, l.len() as int);
        assert(rest =~= l.subrange(i, l.len() as int));
        lemma_trim_end(rest);
        let c = trim_end(rest);
        lemma_no_breaks_subrange(rest, 0, c.len() as int);
        assert(c =~= rest.subrange(0, c.len() as int));
    } else if l[i] == '"' {
        lemma_quote_close_bounds(l, i + 1, false);
        match quote_close(l, i + 1, false) {
            Some(k) => {
                let w = l.subrange(i, k + 1);
                lemma_no_breaks_subrange(l, i, k + 1);
                assert(w.last() == l[k]);
                let t2 = toks.push(Token::Word(w));
                assert(tokens_clean(t2)) by {
                    assert forall|j: int| 0 <= j < t2.len() && (#[trigger] t2[j]) is Word implies clean(
                        t2[j]->Word_0,
                    ) by {
                        if j < toks.len() {
                            assert(t2[j] == toks[j]);
                        }
                    }
                }
                lemma_parse_from_clean(l, k + 1, t2);
            },
            None => {},
        }
    } else if l[i] == '{' {
        let t2 = toks.push(Token::Open);
        assert(tokens_clean(t2)) by {
            assert forall|j: int| 0 <= j < t2.len() && (#[trigger] t2[j]) is Word implies clean(
                t2[j]->Word_0,
            ) by {
                if j < toks.len() {
                    assert(t2[j] == toks[j]);
                }
            }
        }
        lemma_parse_from_clean(l, i + 1, t2);
    } else if l[i] == '}' {
        let t2 = toks.push(Token::Close);
        assert(tokens_clean(t2)) by {
            assert forall|j: int| 0 <= j < t2.len() && (#[trigger] t2[j]) is Word implies clean(
                t2[j]->Word_0,
            ) by {
                if j < toks.len() {
                    assert(t2[j] == toks[j]);
                }
            }
        }
        lemma_parse_from_clean(l, i + 1, t2);
    } else {
        lemma_bare_end_bounds(l, i + 1);
        let e = bare_end(l, i + 1);
        let w = l.subrange(i, e);
        lemma_no_breaks_subrange(l, i, e);
        assert(w.last() == l[e - 1]);
        if e - 1 > i {
            lemma_bare_end_interior(l, i + 1, e - 1);
        }
        let t2 = toks.push(Token::Word(w));
        assert(tokens_clean(t2)) by {
            assert forall|j: int| 0 <= j < t2.len() && (#[trigger] t2[j]) is Word implies clean(
                t2[j]->Word_0,
            ) by {
                if j < toks.len() {
                    assert(t2[j] == toks[j]);
                }
            }
        }
        lemma_parse_from_clean(l, e, t2);
    }
}

pub proof fn lemma_parse_line_clean(l: Seq<char>)
    requires
        no_breaks(l),
    ensures
        spec_parse_line(l) matches Ok(p) ==> tokens_clean(p.tokens) && (p.comment matches Some(c)
            ==> clean(c)),
{
    lemma_parse_from_clean(l, 0, Seq::empty());
}


// ---------------------------------------------------------------------------
// Keys and values
// ---------------------------------------------------------------------------

pub proof fn lemma_escape_no_breaks(v: Seq<char>)
    requires
        no_breaks(v),
    ensures
        no_breaks(escape(v)),
    decreases v.len(),
{
    if v.len() > 0 {
        lemma_no_breaks_subrange(v, 0, v.len() - 1);
        assert(v.drop_last() =~= v.subrange(0, v.len() - 1));
        lemma_escape_no_breaks(v.drop_last());
        let c = v.last();
        let tail = if c == '\\' || c == '"' {
            seq!['\\', c]
        } else {
            seq![c]
        };
        assert(no_breaks(tail));
        lemma_no_breaks_concat(escape(v.drop_last()), tail);
    }
}

pub proof fn lemma_quote_clean(v: Seq<char>)
    requires
        no_breaks(v),
    ensures
        clean(spec_quote_value(v)),
{
    lemma_escape_no_breaks(v);
    assert(no_breaks(seq!['"']));
    lemma_no_breaks_concat(seq!['"'], escape(v));
    lemma_no_breaks_concat(seq!['"'] + escape(v), seq!['"']);
}

pub proof fn lemma_normalize_key_clean(t: Seq<char>)
    requires
        clean(t),
    ensures
        clean(spec_normalize_key(t)),
{
    if let Some(k) = without_quotes(t) {
        if can_be_bare(k) {
            lemma_no_breaks_subrange(t, 1, t.len() - 1);
            assert(bare_char(k[k.len() - 1]));
        }
    }
}

pub proof fn lemma_bare_value_clean(u: Seq<char>)
    requires
        spec_is_bare_value(u),
        no_breaks(u),
    ensures
        clean(u),
{
    if u == seq!['t', 'r', 'u', 'e'] {
        assert(u.last() == 'e');
    } else if u == seq!['f', 'a', 'l', 's', 'e'] {
        assert(u.last() == 'e');
    } else {
        let w = strip_minus(u);
        assert(w.len() > 0);
        assert(w.last() == u.last());
        if all_digits(w) {
            assert(is_ascii_digit(w[w.len() - 1]));
        } else {
            let k = choose|k: int|
                0 <= k < w.len() && w.len() > 1 && #[trigger] w[k] == '.' && all_digits(w.take(k))
                    && all_digits(w.skip(k + 1));
            if k < w.len() - 1 {
                assert(w.skip(k + 1)[w.len() - k - 2] == w[w.len() - 1]);
                assert(is_ascii_digit(w.skip(k + 1)[w.len() - k - 2]));
            }
        }
    }
}

pub proof fn lemma_normalize_one_clean(t: Seq<char>, bare_literals: bool)
    requires
        clean(t),
    ensures
        clean(spec_normalize_one_value(t, bare_literals)),
{
    match without_quotes(t) {
        Some(u) => {
            if bare_literals && spec_is_bare_value(u) {
                lemma_no_breaks_subrange(t, 1, t.len() - 1);
                lemma_bare_value_clean(u);
            }
        },
        None => {
            if !(bare_literals && spec_is_bare_value(t)) {
                lemma_quote_clean(t);
            }
        },
    }
}

pub proof fn lemma_join_no_breaks(ws: Seq<Seq<char>>, sep: char)
    requires
        forall|k: int| 0 <= k < ws.len() ==> no_breaks(#[trigger] ws[k]),
        sep != '\n' && sep != '\r',
    ensures
        no_breaks(join_with(ws, sep)),
    decreases ws.len(),
{
    if ws.len() > 1 {
        assert forall|k: int| 0 <= k < ws.drop_last().len() implies no_breaks(
            #[trigger] ws.drop_last()[k],
        ) by {
            assert(ws.drop_last()[k] == ws[k]);
        }
        lemma_join_no_breaks(ws.drop_last(), sep);
        assert(no_breaks(seq![sep]));
        lemma_no_breaks_concat(join_with(ws.drop_last(), sep), seq![sep]);
        assert(no_breaks(ws[ws.len() - 1]));
        lemma_no_breaks_concat(join_with(ws.drop_last(), sep) + seq![sep], ws.last());
    } else if ws.len() == 1 {
        assert(no_breaks(ws[0]));
    }
}

pub proof fn lemma_value_tokens_clean(ws: Seq<Seq<char>>, bare_literals: bool)
    requires
        ws.len() >= 1,
        forall|k: int| 0 <= k < ws.len() ==> clean(#[trigger] ws[k]),
    ensures
        clean(spec_normalize_value_tokens(ws, bare_literals)),
{
    if ws.len() == 1 {
        assert(join_words(ws) == ws[0]);
        lemma_normalize_one_clean(ws[0], bare_literals);
    } else {
        assert forall|k: int| 0 <= k < ws.len() implies no_breaks(#[trigger] ws[k]) by {
            assert(clean(ws[k]));
        }
        lemma_join_no_breaks(ws, ' ');
        lemma_quote_clean(join_words(ws));
    }
}

pub proof fn lemma_disabled_clean(c: Seq<char>, bare_literals: bool)
    requires
        clean(c),
    ensures
        spec_parse_disabled_pair(c, bare_literals) matches Some(p) ==> clean(p.key) && clean(
            p.value,
        ) && (p.comment matches Some(cc) ==> clean(cc)),
{
    if let Some(b) = disabled_body(c) {
        let r = c.skip(2);
        lemma_no_breaks_subrange(c, 2, c.len() as int);
        assert(r =~= c.subrange(2, c.len() as int));
        if r.len() > 0 && r[0] == ' ' {
            lemma_no_breaks_subrange(r, 1, r.len() as int);
            assert(r.skip(1) =~= r.subrange(1, r.len() as int));
        }
        lemma_parse_line_clean(b);
        if let Ok(p) = spec_parse_line(b) {
            if p.tokens.len() == 2 && p.tokens[0] is Word && p.tokens[1] is Word {
                lemma_normalize_key_clean(p.tokens[0]->Word_0);
                lemma_normalize_one_clean(p.tokens[1]->Word_0, bare_literals);
            }
        }
    }
}


// ---------------------------------------------------------------------------
// Collected lines
// ---------------------------------------------------------------------------

pub open spec fn body_ok(b: Body) -> bool {
    match b {
        Body::ActivePair { key, value } => clean(key) && clean(value),
        Body::DisabledPair { key, value } => clean(key) && clean(value),
        Body::StandaloneText(t) => clean(t),
        Body::PlainComment(t) => clean(t),
        Body::Blank => true,
    }
}

/// Every part of the line is clean, and a blank line has no comment.
pub open spec fn line_ok(l: Line) -> bool {
    &&& body_ok(l.body)
    &&& l.comment matches Some(c) ==> clean(c)
    &&& l.body is Blank ==> l.comment is None
}

pub open spec fn lines_ok(ls: Seq<Line>) -> bool {
    forall|i: int| 0 <= i < ls.len() ==> line_ok(#[trigger] ls[i])
}

pub open spec fn words_clean(ws: Seq<Seq<char>>) -> bool {
    forall|k: int| 0 <= k < ws.len() ==> clean(#[trigger] ws[k])
}

/// The last line exists and is not blank.
pub open spec fn ends_in_content(st: State) -> bool {
    st.lines.len() > 0 && !(st.lines.last().body is Blank)
}

pub proof fn lemma_push_ok(ls: Seq<Line>, l: Line)
    requires
        lines_ok(ls),
        line_ok(l),
    ensures
        lines_ok(ls.push(l)),
{
    assert forall|i: int| 0 <= i < ls.push(l).len() implies line_ok(#[trigger] ls.push(l)[i]) by {
        if i < ls.len() {
            assert(ls.push(l)[i] == ls[i]);
        }
    }
}

pub proof fn lemma_flush_ok(st: State, opts: Options, words: Seq<Seq<char>>)
    requires
        lines_ok(st.lines),
        words_clean(words),
    ensures
        lines_ok(flush(st, opts, words).0.lines),
        flush(st, opts, words).1 ==> ends_in_content(flush(st, opts, words).0),
        !flush(st, opts, words).1 ==> flush(st, opts, words).0 == st,
{
    if words.len() > 0 {
        lemma_normalize_key_clean(words[0]);
        if words.len() > 1 {
            assert(words_clean(words.skip(1))) by {
                assert forall|k: int| 0 <= k < words.skip(1).len() implies clean(
                    #[trigger] words.skip(1)[k],
                ) by {
                    assert(words.skip(1)[k] == words[k + 1]);
                }
            }
            lemma_value_tokens_clean(words.skip(1), opts.bare_literals);
        }
        let r = flush(st, opts, words).0;
        lemma_push_ok(st.lines, r.lines.last());
        assert(r.lines == st.lines.push(r.lines.last()));
    }
}

pub proof fn lemma_braces_clean()
    ensures
        clean(seq!['{']),
        clean(seq!['}']),
{
    assert(!is_ws('{'));
    assert(!is_ws('}'));
}

pub proof fn lemma_collect_tokens_ok(
    st: State,
    opts: Options,
    toks: Seq<Token>,
    words: Seq<Seq<char>>,
    emitted: bool,
)
    requires
        lines_ok(st.lines),
        tokens_clean(toks),
        words_clean(words),
        emitted ==> ends_in_content(st),
    ensures
        collect_tokens(st, opts, toks, words, emitted) matches Ok((s1, w, e)) ==> lines_ok(s1.lines)
            && words_clean(w) && (e ==> ends_in_content(s1)),
    decreases toks.len(),
{
    if toks.len() > 0 {
        let rest = toks.skip(1);
        assert(tokens_clean(rest)) by {
            assert forall|j: int| 0 <= j < rest.len() && (#[trigger] rest[j]) is Word implies clean(
                rest[j]->Word_0,
            ) by {
                assert(rest[j] == toks[j + 1]);
            }
        }
        lemma_flush_ok(st, opts, words);
        lemma_braces_clean();
        match toks[0] {
            Token::Word(w) => {
                assert(clean(w));
                let w2 = words.push(w);
                assert(words_clean(w2)) by {
                    assert forall|k: int| 0 <= k < w2.len() implies clean(#[trigger] w2[k]) by {
                        if k < words.len() {
                            assert(w2[k] == words[k]);
                        }
                    }
                }
                lemma_collect_tokens_ok(st, opts, rest, w2, emitted);
            },
            Token::Open => {
                let s1 = flush(st, opts, words).0;
                let s2 = push_body(s1, Body::StandaloneText(seq!['{']));
                lemma_push_ok(s1.lines, s2.lines.last());
                assert(s2.lines == s1.lines.push(s2.lines.last()));
                assert(words_clean(Seq::<Seq<char>>::empty()));
                lemma_collect_tokens_ok(
                    State { lines: s2.lines, indent: s2.indent + 1 },
                    opts,
                    rest,
                    Seq::empty(),
                    true,
                );
            },
            Token::Close => {
                let s1 = flush(st, opts, words).0;
                if s1.indent != 0 {
                    let s2 = State { lines: s1.lines, indent: (s1.indent - 1) as nat };
                    let s3 = push_body(s2, Body::StandaloneText(seq!['}']));
                    lemma_push_ok(s2.lines, s3.lines.last());
                    assert(s3.lines == s2.lines.push(s3.lines.last()));
                    assert(words_clean(Seq::<Seq<char>>::empty()));
                    lemma_collect_tokens_ok(s3, opts, rest, Seq::empty(), true);
                }
            },
        }
    }
}

pub proof fn lemma_push_comment_ok(st: State, opts: Options, c: Seq<char>)
    requires
        lines_ok(st.lines),
        clean(c),
    ensures
        lines_ok(push_comment(st, opts, c).lines),
{
    let r = push_comment(st, opts, c);
    lemma_disabled_clean(c, opts.bare_literals);
    lemma_push_ok(st.lines, r.lines.last());
    assert(r.lines == st.lines.push(r.lines.last()));
}

pub proof fn lemma_finish_source_line_ok(
    st: State,
    opts: Options,
    emitted: bool,
    comment: Option<Seq<char>>,
)
    requires
        lines_ok(st.lines),
        comment matches Some(c) ==> clean(c),
        emitted ==> ends_in_content(st),
    ensures
        lines_ok(finish_source_line(st, opts, emitted, comment).lines),
{
    let r = finish_source_line(st, opts, emitted, comment);
    match comment {
        Some(c) => {
            if emitted {
                let i = st.lines.len() - 1;
                assert forall|j: int| 0 <= j < r.lines.len() implies line_ok(#[trigger] r.lines[j]) by {
                    if j != i {
                        assert(r.lines[j] == st.lines[j]);
                    } else {
                        assert(line_ok(st.lines[i]));
                    }
                }
            } else {
                lemma_push_comment_ok(st, opts, c);
            }
        },
        None => {
            if !emitted {
                lemma_push_ok(st.lines, r.lines.last());
                assert(r.lines == st.lines.push(r.lines.last()));
            }
        },
    }
}

pub proof fn lemma_collect_line_ok(st: State, opts: Options, p: Parsed)
    requires
        lines_ok(st.lines),
        tokens_clean(p.tokens),
        p.comment matches Some(c) ==> clean(c),
    ensures
        spec_collect_line(st, opts, p) matches Ok(s1) ==> lines_ok(s1.lines),
{
    assert(words_clean(Seq::<Seq<char>>::empty()));
    lemma_collect_tokens_ok(st, opts, p.tokens, Seq::empty(), false);
    if let Ok((s1, words, emitted)) = collect_tokens(st, opts, p.tokens, Seq::empty(), false) {
        lemma_flush_ok(s1, opts, words);
        let (s2, flushed) = flush(s1, opts, words);
        lemma_finish_source_line_ok(s2, opts, emitted || flushed, p.comment);
    }
}

pub proof fn lemma_collect_lines_ok(st: State, opts: Options, ls: Seq<Seq<char>>)
    requires
        lines_ok(st.lines),
        forall|k: int| 0 <= k < ls.len() ==> no_breaks(#[trigger] ls[k]),
    ensures
        collect_lines(st, opts, ls) matches Ok(s1) ==> lines_ok(s1.lines),
    decreases ls.len(),
{
    if ls.len() > 0 {
        assert(no_breaks(ls[0]));
        lemma_parse_line_clean(ls[0]);
        if let Ok(p) = spec_parse_line(ls[0]) {
            lemma_collect_line_ok(st, opts, p);
            if let Ok(s1) = spec_collect_line(st, opts, p) {
                assert forall|k: int| 0 <= k < ls.skip(1).len() implies no_breaks(
                    #[trigger] ls.skip(1)[k],
                ) by {
                    assert(ls.skip(1)[k] == ls[k + 1]);
                }
                lemma_collect_lines_ok(s1, opts, ls.skip(1));
            }
        }
    }
}


// ---------------------------------------------------------------------------
// Rendered lines
// ---------------------------------------------------------------------------

/// The code has no line break and, unless a comment follows, does not end in whitespace.
pub open spec fn rend_ok(r: Rendered) -> bool {
    &&& no_breaks(r.code)
    &&& r.comment matches Some(c) ==> clean(c)
    &&& r.comment is None ==> (r.code.len() == 0 || !is_ws(r.code.last()))
}

/// `r` renders `l`: it is well formed, has code unless `l` is blank, and keeps its comment.
pub open spec fn renders(r: Rendered, l: Line) -> bool {
    &&& rend_ok(r)
    &&& (r.code.len() > 0 <==> !(l.body is Blank))
    &&& r.comment == l.comment
}

pub proof fn lemma_render_pair_ok(l: Line, w: nat)
    requires
        line_ok(l),
        is_pair(l.body),
    ensures
        renders(render_pair(l, w), l),
{
    let r = render_pair(l, w);
    let a = spaces(4 * l.indent);
    let b = pair_prefix(l.body);
    let c = pair_key(l.body);
    let d = spaces((w - (crate::formatter::key_width(l.body)) + 1) as nat);
    let e = pair_value(l.body);
    assert(no_breaks(b));
    lemma_no_breaks_concat(a, b);
    lemma_no_breaks_concat(a + b, c);
    lemma_no_breaks_concat(a + b + c, d);
    lemma_no_breaks_concat(a + b + c + d, e);
    assert(r.code.last() == e.last());
}

pub proof fn lemma_text_after_indent(ind: nat, t: Seq<char>)
    requires
        clean(t),
    ensures
        no_breaks(spaces(4 * ind) + t),
        (spaces(4 * ind) + t).len() > 0,
        !is_ws((spaces(4 * ind) + t).last()),
{
    lemma_no_breaks_concat(spaces(4 * ind), t);
    assert((spaces(4 * ind) + t).last() == t.last());
}

pub proof fn lemma_render_single_ok(l: Line)
    requires
        line_ok(l),
        !is_pair(l.body),
    ensures
        renders(render_single(l), l),
{
    let r = render_single(l);
    if let Body::StandaloneText(t) = l.body {
        assert(r.code == spaces(4 * l.indent) + t);
        lemma_text_after_indent(l.indent, t);
    } else if let Body::PlainComment(t) = l.body {
        assert(r.code == spaces(4 * l.indent) + t);
        lemma_text_after_indent(l.indent, t);
    } else {
        assert(l.body is Blank);
        assert(r.code.len() == 0);
    }
}

pub proof fn lemma_render_code_ok(ls: Seq<Line>)
    requires
        lines_ok(ls),
    ensures
        render_code(ls).len() == ls.len(),
        forall|i: int| 0 <= i < ls.len() ==> renders(#[trigger] render_code(ls)[i], ls[i]),
    decreases ls.len(),
{
    if ls.len() > 0 {
        let r = render_code(ls);
        assert(line_ok(ls[0]));
        if is_pair(ls[0].body) {
            lemma_pair_run_bounds(ls, ls[0].indent);
            let n = pair_run(ls, ls[0].indent);
            let group = ls.take(n as int);
            let rest = ls.skip(n as int);
            assert(lines_ok(rest)) by {
                assert forall|i: int| 0 <= i < rest.len() implies line_ok(#[trigger] rest[i]) by {
                    assert(rest[i] == ls[i + n]);
                }
            }
            lemma_render_code_ok(rest);
            assert forall|i: int| 0 <= i < ls.len() implies renders(#[trigger] r[i], ls[i]) by {
                if i < n {
                    lemma_pair_run_members(ls, ls[0].indent, i);
                    assert(group[i] == ls[i]);
                    assert(line_ok(ls[i]));
                    lemma_render_pair_ok(ls[i], max_key_width(group));
                    assert(r[i] == render_pairs(group)[i]);
                } else {
                    assert(r[i] == render_code(rest)[i - n]);
                    assert(rest[i - n] == ls[i]);
                }
            }
        } else {
            let rest = ls.skip(1);
            assert(lines_ok(rest)) by {
                assert forall|i: int| 0 <= i < rest.len() implies line_ok(#[trigger] rest[i]) by {
                    assert(rest[i] == ls[i + 1]);
                }
            }
            lemma_render_code_ok(rest);
            lemma_render_single_ok(ls[0]);
            assert forall|i: int| 0 <= i < ls.len() implies renders(#[trigger] r[i], ls[i]) by {
                if i > 0 {
                    assert(r[i] == render_code(rest)[i - 1]);
                    assert(rest[i - 1] == ls[i]);
                }
            }
        }
    }
}

pub proof fn lemma_align_ok(rs: Seq<Rendered>, ls: Seq<Line>)
    requires
        rs.len() == ls.len(),
        forall|i: int| 0 <= i < rs.len() ==> renders(#[trigger] rs[i], ls[i]),
    ensures
        align_comments(rs).len() == rs.len(),
        forall|i: int| 0 <= i < rs.len() ==> renders(#[trigger] align_comments(rs)[i], ls[i]),
    decreases rs.len(),
{
    if rs.len() > 0 {
        let a = align_comments(rs);
        let n: int = if !can_align(rs[0]) {
            1
        } else {
            lemma_comment_run_bounds(rs, rs[0].indent);
            comment_run(rs, rs[0].indent) as int
        };
        let rest = rs.skip(n);
        let lrest = ls.skip(n);
        assert forall|i: int| 0 <= i < rest.len() implies renders(#[trigger] rest[i], lrest[i]) by {
            assert(rest[i] == rs[i + n]);
            assert(lrest[i] == ls[i + n]);
        }
        lemma_align_ok(rest, lrest);
        if !can_align(rs[0]) {
            assert forall|i: int| 0 <= i < rs.len() implies renders(#[trigger] a[i], ls[i]) by {
                if i > 0 {
                    assert(a[i] == align_comments(rest)[i - 1]);
                    assert(lrest[i - 1] == ls[i]);
                }
            }
        } else {
            let group = rs.take(n);
            assert forall|i: int| 0 <= i < rs.len() implies renders(#[trigger] a[i], ls[i]) by {
                if i < n {
                    assert(a[i] == pad_group(group)[i]);
                    assert(group[i] == rs[i]);
                    if group.len() > 1 {
                        lemma_comment_run_members(rs, rs[0].indent, i);
                        let w = max_code_width(group);
                        let p = pad_code(rs[i], w);
                        assert(a[i] == p);
                        lemma_no_breaks_concat(rs[i].code, spaces((w - crate::text::text_width(rs[i].code)) as nat));
                    }
                } else {
                    assert(a[i] == align_comments(rest)[i - n]);
                    assert(lrest[i - n] == ls[i]);
                }
            }
        }
    }
}

/// A line of output text: no line break in it, and no whitespace at its end.
pub open spec fn text_ok(t: Seq<char>) -> bool {
    no_breaks(t) && (t.len() == 0 || !is_ws(t.last()))
}

pub proof fn lemma_line_text_ok(r: Rendered)
    requires
        rend_ok(r),
    ensures
        text_ok(line_text(r)),
        line_text(r).len() > 0 <==> (r.code.len() > 0 || r.comment is Some),
{
    if let Some(c) = r.comment {
        if r.code.len() > 0 {
            lemma_no_breaks_concat(r.code, seq![' ']);
            lemma_no_breaks_concat(r.code + seq![' '], c);
            assert(line_text(r).last() == c.last());
        }
    }
}

pub proof fn lemma_render_lines_ok(ls: Seq<Line>)
    requires
        lines_ok(ls),
    ensures
        spec_render_lines(ls).len() == ls.len(),
        forall|i: int|
            0 <= i < ls.len() ==> text_ok(#[trigger] spec_render_lines(ls)[i]) && (
            spec_render_lines(ls)[i].len() > 0 <==> !(ls[i].body is Blank)),
{
    lemma_render_code_ok(ls);
    lemma_align_ok(render_code(ls), ls);
    let a = align_comments(render_code(ls));
    assert forall|i: int| 0 <= i < ls.len() implies text_ok(#[trigger] spec_render_lines(ls)[i])
        && (spec_render_lines(ls)[i].len() > 0 <==> !(ls[i].body is Blank)) by {
        assert(renders(a[i], ls[i]));
        assert(line_ok(ls[i]));
        lemma_line_text_ok(a[i]);
        assert(spec_render_lines(ls)[i] == line_text(a[i]));
    }
}


// ---------------------------------------------------------------------------
// The output text
// ---------------------------------------------------------------------------

/// No whitespace stands right before a line break or at the end: no line of `s` ends in
/// whitespace.
pub open spec fn no_trailing_whitespace(s: Seq<char>) -> bool {
    forall|i: int|
        0 <= i < s.len() && is_ws(#[trigger] s[i]) && s[i] != '\n' ==> i + 1 < s.len() && s[i + 1]
            != '\n'
}

/// `s` ends with a character that is no whitespace, or with a line break.
pub open spec fn ends_cleanly(s: Seq<char>) -> bool {
    s.len() == 0 || !is_ws(s.last()) || s.last() == '\n'
}

pub proof fn lemma_join_lines(ts: Seq<Seq<char>>)
    requires
        forall|k: int| 0 <= k < ts.len() ==> text_ok(#[trigger] ts[k]),
    ensures
        no_cr(join_with(ts, '\n')),
        no_trailing_whitespace(join_with(ts, '\n')),
        ends_cleanly(join_with(ts, '\n')),
        ts.len() == 0 ==> join_with(ts, '\n').len() == 0,
        ts.len() > 0 && ts.last().len() > 0 ==> join_with(ts, '\n').len() > 0 && join_with(
            ts,
            '\n',
        ).last() == ts.last().last(),
    decreases ts.len(),
{
    let j = join_with(ts, '\n');
    if ts.len() == 1 {
        assert(j == ts[0]);
        assert(text_ok(ts[0]));
        assert forall|i: int| 0 <= i < j.len() implies #[trigger] j[i] != '\r' by {
            assert(j[i] == ts[0][i]);
        }
        assert forall|i: int|
            0 <= i < j.len() && is_ws(#[trigger] j[i]) && j[i] != '\n' implies i + 1 < j.len()
                && j[i + 1] != '\n' by {
            if i + 1 < j.len() {
                assert(j[i + 1] == ts[0][i + 1]);
            }
        }
    } else if ts.len() > 1 {
        let init = ts.drop_last();
        assert forall|k: int| 0 <= k < init.len() implies text_ok(#[trigger] init[k]) by {
            assert(init[k] == ts[k]);
        }
        lemma_join_lines(init);
        let a = join_with(init, '\n');
        let b = ts.last();
        assert(text_ok(ts[ts.len() - 1]));
        assert(j == a + seq!['\n'] + b);
        let m = a.len();
        assert forall|i: int| 0 <= i < j.len() implies #[trigger] j[i] != '\r' by {
            if i < m {
                assert(j[i] == a[i]);
            } else if i > m {
                assert(j[i] == b[i - m - 1]);
            }
        }
        assert forall|i: int|
            0 <= i < j.len() && is_ws(#[trigger] j[i]) && j[i] != '\n' implies i + 1 < j.len()
                && j[i + 1] != '\n' by {
            if i < m {
                assert(j[i] == a[i]);
                if i + 1 < m {
                    assert(j[i + 1] == a[i + 1]);
                } else {
                    assert(a.last() == a[i]);
                }
            } else if i > m {
                assert(j[i] == b[i - m - 1]);
                if i + 1 < j.len() {
                    assert(j[i + 1] == b[i - m]);
                } else {
                    assert(b.last() == b[i - m - 1]);
                }
            }
        }
        if b.len() > 0 {
            assert(j.last() == b.last());
        } else {
            assert(j.last() == '\n');
        }
    }
}

pub proof fn lemma_trim_blank_tail_ok(ls: Seq<Line>)
    requires
        lines_ok(ls),
    ensures
        lines_ok(trim_blank_tail(ls)),
        trim_blank_tail(ls).len() > 0 ==> !(trim_blank_tail(ls).last().body is Blank),
    decreases ls.len(),
{
    if ls.len() > 0 && ls.last().body is Blank && ls.last().comment is None {
        assert(lines_ok(ls.drop_last())) by {
            assert forall|i: int| 0 <= i < ls.drop_last().len() implies line_ok(
                #[trigger] ls.drop_last()[i],
            ) by {
                assert(ls.drop_last()[i] == ls[i]);
            }
        }
        lemma_trim_blank_tail_ok(ls.drop_last());
    } else if ls.len() > 0 {
        assert(line_ok(ls[ls.len() - 1]));
    }
}

/// The facts about the output that the laws below state, in one place.
pub proof fn lemma_output_shape(input: Seq<char>, opts: Options)
    ensures
        spec_format(input, opts) matches Ok(out) ==> {
            let text = spec_normalize_newlines(input);
            &&& no_cr(out)
            &&& no_trailing_whitespace(out)
            &&& (out.len() > 0 && out.last() == '\n') == (text.len() > 0 && text.last() == '\n')
            &&& !(out.len() >= 2 && out[out.len() - 1] == '\n' && out[out.len() - 2] == '\n')
        },
{
    let text = spec_normalize_newlines(input);
    lemma_normalize_no_cr(text);
    law_normalize_newlines_idempotent(input);
    let source = spec_split_lines(text);
    assert(no_breaks(Seq::<char>::empty()));
    lemma_split_from_no_breaks(text, Seq::empty());
    assert(lines_ok(initial_state().lines));
    lemma_collect_lines_ok(initial_state(), opts, source);
    if let Ok(st) = collect_lines(initial_state(), opts, source) {
        let had = text.len() > 0 && text.last() == '\n';
        if st.indent == 0 {
            let l1 = if had && st.lines.len() > 0 {
                st.lines.drop_last()
            } else {
                st.lines
            };
            assert(lines_ok(l1)) by {
                assert forall|i: int| 0 <= i < l1.len() implies line_ok(#[trigger] l1[i]) by {
                    assert(l1[i] == st.lines[i]);
                }
            }
            let l2 = trim_blank_tail(l1);
            lemma_trim_blank_tail_ok(l1);
            lemma_render_lines_ok(l2);
            let ts = spec_render_lines(l2);
            assert forall|k: int| 0 <= k < ts.len() implies text_ok(#[trigger] ts[k]) by {}
            lemma_join_lines(ts);
            let j = join_with(ts, '\n');
            if ts.len() > 0 {
                assert(ts[ts.len() - 1].len() > 0);
                assert(ts.last() == ts[ts.len() - 1]);
                assert(text_ok(ts.last()));
            }
            let out = spec_finish(st, had)->Ok_0;
            if had {
                assert(out == j.push('\n'));
                assert forall|i: int| 0 <= i < out.len() implies #[trigger] out[i] != '\r' by {
                    if i < j.len() {
                        assert(out[i] == j[i]);
                    }
                }
                assert forall|i: int|
                    0 <= i < out.len() && is_ws(#[trigger] out[i]) && out[i] != '\n' implies i + 1
                        < out.len() && out[i + 1] != '\n' by {
                    assert(out[i] == j[i]);
                    if i + 1 < j.len() {
                        assert(out[i + 1] == j[i + 1]);
                    } else {
                        assert(j.last() == j[i]);
                    }
                }
                if out.len() >= 2 {
                    assert(out[out.len() - 2] == j.last());
                }
            } else {
                assert(out == j);
            }
        }
    }
}

/// The output uses `\n` alone for line breaks: it holds no `\r`.
pub proof fn law_output_has_no_carriage_return(input: Seq<char>, opts: Options)
    ensures
        spec_format(input, opts) matches Ok(out) ==> no_cr(out),
{
    lemma_output_shape(input, opts);
}

/// No line of the output ends in whitespace.
pub proof fn law_output_has_no_trailing_whitespace(input: Seq<char>, opts: Options)
    ensures
        spec_format(input, opts) matches Ok(out) ==> no_trailing_whitespace(out),
{
    lemma_output_shape(input, opts);
}

/// The output ends with a line break exactly when the input does (`\n`, `\r\n` or `\r`).
pub proof fn law_output_keeps_final_line_break(input: Seq<char>, opts: Options)
    ensures
        spec_format(input, opts) matches Ok(out) ==> ((out.len() > 0 && out.last() == '\n') == (
        input.len() > 0 && (input.last() == '\n' || input.last() == '\r'))),
{
    lemma_output_shape(input, opts);
    lemma_normalize_ends(input);
}

/// The output never ends with an empty line: blank lines at the end of the input are dropped.
pub proof fn law_output_has_no_blank_lines_at_end(input: Seq<char>, opts: Options)
    ensures
        spec_format(input, opts) matches Ok(out) ==> !(out.len() >= 2 && out[out.len() - 1] == '\n'
            && out[out.len() - 2] == '\n'),
{
    lemma_output_shape(input, opts);
}

pub proof fn lemma_normalize_ends(s: Seq<char>)
    ensures
        (spec_normalize_newlines(s).len() > 0 && spec_normalize_newlines(s).last() == '\n') == (
        s.len() > 0 && (s.last() == '\n' || s.last() == '\r')),
    decreases s.len(),
{
    if s.len() > 0 {
        let two = s[0] == '\r' && s.len() > 1 && s[1] == '\n';
        let rest = if two {
            s.skip(2)
        } else {
            s.skip(1)
        };
        lemma_normalize_ends(rest);
        let r = spec_normalize_newlines(rest);
        let n = spec_normalize_newlines(s);
        if r.len() > 0 {
            assert(n.last() == r.last());
            assert(rest.last() == s.last());
        } else {
            assert(rest.len() == 0) by {
                if rest.len() > 0 {
                    lemma_normalize_len(rest);
                }
            }
            if two {
                assert(s.last() == '\n');
            }
        }
    }
}

pub proof fn lemma_normalize_len(s: Seq<char>)
    requires
        s.len() > 0,
    ensures
        spec_normalize_newlines(s).len() > 0,
{
}


// ---------------------------------------------------------------------------
// How keys, values and comments come out
// ---------------------------------------------------------------------------

/// A value is a quoted token, or, when literals may stay bare, `true`, `false` or a number.
pub open spec fn value_form(v: Seq<char>, bare_literals: bool) -> bool {
    without_quotes(v) is Some || (bare_literals && spec_is_bare_value(v))
}

/// A key keeps its quotes only when its text could not stand bare.
pub open spec fn key_form(k: Seq<char>) -> bool {
    without_quotes(k) matches Some(u) ==> !can_be_bare(u)
}

pub open spec fn form_ok(l: Line, opts: Options) -> bool {
    &&& is_pair(l.body) ==> key_form(pair_key(l.body)) && value_form(
        pair_value(l.body),
        opts.bare_literals,
    )
    &&& !opts.reflow_comments ==> !(l.body is DisabledPair)
}

pub open spec fn forms_ok(ls: Seq<Line>, opts: Options) -> bool {
    forall|i: int| 0 <= i < ls.len() ==> form_ok(#[trigger] ls[i], opts)
}

pub proof fn lemma_push_form(ls: Seq<Line>, l: Line, opts: Options)
    requires
        forms_ok(ls, opts),
        form_ok(l, opts),
    ensures
        forms_ok(ls.push(l), opts),
{
    assert forall|i: int| 0 <= i < ls.push(l).len() implies form_ok(#[trigger] ls.push(l)[i], opts) by {
        if i < ls.len() {
            assert(ls.push(l)[i] == ls[i]);
        }
    }
}

pub proof fn lemma_key_form(t: Seq<char>)
    ensures
        key_form(spec_normalize_key(t)),
{
    if let Some(k) = without_quotes(t) {
        if can_be_bare(k) {
            assert(bare_char(k[0]));
        }
    }
}

pub proof fn lemma_value_form_one(t: Seq<char>, bare_literals: bool)
    ensures
        value_form(spec_normalize_one_value(t, bare_literals), bare_literals),
{
}

pub proof fn lemma_value_form(ws: Seq<Seq<char>>, bare_literals: bool)
    ensures
        value_form(spec_normalize_value_tokens(ws, bare_literals), bare_literals),
{
}

pub proof fn lemma_flush_form(st: State, opts: Options, words: Seq<Seq<char>>)
    requires
        forms_ok(st.lines, opts),
    ensures
        forms_ok(flush(st, opts, words).0.lines, opts),
{
    if words.len() > 0 {
        lemma_key_form(words[0]);
        lemma_value_form(words.skip(1), opts.bare_literals);
        let r = flush(st, opts, words).0;
        lemma_push_form(st.lines, r.lines.last(), opts);
        assert(r.lines == st.lines.push(r.lines.last()));
    }
}

pub proof fn lemma_collect_tokens_form(
    st: State,
    opts: Options,
    toks: Seq<Token>,
    words: Seq<Seq<char>>,
    emitted: bool,
)
    requires
        forms_ok(st.lines, opts),
    ensures
        collect_tokens(st, opts, toks, words, emitted) matches Ok((s1, w, e)) ==> forms_ok(
            s1.lines,
            opts,
        ),
    decreases toks.len(),
{
    if toks.len() > 0 {
        let rest = toks.skip(1);
        lemma_flush_form(st, opts, words);
        match toks[0] {
            Token::Word(w) => {
                lemma_collect_tokens_form(st, opts, rest, words.push(w), emitted);
            },
            Token::Open => {
                let s1 = flush(st, opts, words).0;
                let s2 = push_body(s1, Body::StandaloneText(seq!['{']));
                lemma_push_form(s1.lines, s2.lines.last(), opts);
                assert(s2.lines == s1.lines.push(s2.lines.last()));
                lemma_collect_tokens_form(
                    State { lines: s2.lines, indent: s2.indent + 1 },
                    opts,
                    rest,
                    Seq::empty(),
                    true,
                );
            },
            Token::Close => {
                let s1 = flush(st, opts, words).0;
                if s1.indent != 0 {
                    let s2 = State { lines: s1.lines, indent: (s1.indent - 1) as nat };
                    let s3 = push_body(s2, Body::StandaloneText(seq!['}']));
                    lemma_push_form(s2.lines, s3.lines.last(), opts);
                    assert(s3.lines == s2.lines.push(s3.lines.last()));
                    lemma_collect_tokens_form(s3, opts, rest, Seq::empty(), true);
                }
            },
        }
    }
}

pub proof fn lemma_collect_line_form(st: State, opts: Options, p: Parsed)
    requires
        forms_ok(st.lines, opts),
    ensures
        spec_collect_line(st, opts, p) matches Ok(s1) ==> forms_ok(s1.lines, opts),
{
    lemma_collect_tokens_form(st, opts, p.tokens, Seq::empty(), false);
    if let Ok((s1, words, emitted)) = collect_tokens(st, opts, p.tokens, Seq::empty(), false) {
        lemma_flush_form(s1, opts, words);
        let (s2, flushed) = flush(s1, opts, words);
        let r = finish_source_line(s2, opts, emitted || flushed, p.comment);
        match p.comment {
            Some(c) => {
                if emitted || flushed {
                    if s2.lines.len() > 0 {
                        let i = s2.lines.len() - 1;
                        assert forall|j: int| 0 <= j < r.lines.len() implies form_ok(
                            #[trigger] r.lines[j],
                            opts,
                        ) by {
                            if j != i {
                                assert(r.lines[j] == s2.lines[j]);
                            } else {
                                assert(form_ok(s2.lines[i], opts));
                            }
                        }
                    }
                } else {
                    let q = push_comment(s2, opts, c);
                    if let Some(d) = spec_parse_disabled_pair(c, opts.bare_literals) {
                        if opts.reflow_comments {
                            let b = spec_parse_line(disabled_body(c)->Some_0)->Ok_0;
                            lemma_key_form(b.tokens[0]->Word_0);
                            lemma_value_form_one(b.tokens[1]->Word_0, opts.bare_literals);
                        }
                    }
                    lemma_push_form(s2.lines, q.lines.last(), opts);
                    assert(q.lines == s2.lines.push(q.lines.last()));
                }
            },
            None => {
                if !(emitted || flushed) {
                    lemma_push_form(s2.lines, r.lines.last(), opts);
                    assert(r.lines == s2.lines.push(r.lines.last()));
                }
            },
        }
    }
}

pub proof fn lemma_collect_lines_form(st: State, opts: Options, ls: Seq<Seq<char>>)
    requires
        forms_ok(st.lines, opts),
    ensures
        collect_lines(st, opts, ls) matches Ok(s1) ==> forms_ok(s1.lines, opts),
    decreases ls.len(),
{
    if ls.len() > 0 {
        if let Ok(p) = spec_parse_line(ls[0]) {
            lemma_collect_line_form(st, opts, p);
            if let Ok(s1) = spec_collect_line(st, opts, p) {
                lemma_collect_lines_form(s1, opts, ls.skip(1));
            }
        }
    }
}

/// The lines that `format` lays out for `input`, before they are rendered.
pub open spec fn formatted_lines(input: Seq<char>, opts: Options) -> Result<State, FormatError> {
    collect_lines(initial_state(), opts, spec_split_lines(spec_normalize_newlines(input)))
}

/// Every value is written as a quoted token; with `bare_literals`, `true`, `false` and
/// numbers may stand bare instead.
pub proof fn law_values_are_quoted_unless_literal(input: Seq<char>, opts: Options)
    ensures
        formatted_lines(input, opts) matches Ok(st) ==> forall|i: int|
            0 <= i < st.lines.len() && is_pair(#[trigger] st.lines[i].body) ==> value_form(
                pair_value(st.lines[i].body),
                opts.bare_literals,
            ),
{
    assert(forms_ok(initial_state().lines, opts));
    lemma_collect_lines_form(initial_state(), opts, spec_split_lines(spec_normalize_newlines(input)));
    if let Ok(st) = formatted_lines(input, opts) {
        assert forall|i: int| 0 <= i < st.lines.len() && is_pair(#[trigger] st.lines[i].body) implies value_form(
            pair_value(st.lines[i].body),
            opts.bare_literals,
        ) by {
            assert(form_ok(st.lines[i], opts));
        }
    }
}

/// A key keeps its quotes only when its text could not stand bare.
pub proof fn law_keys_are_quoted_only_when_needed(input: Seq<char>, opts: Options)
    ensures
        formatted_lines(input, opts) matches Ok(st) ==> forall|i: int|
            0 <= i < st.lines.len() && is_pair(#[trigger] st.lines[i].body) ==> key_form(
                pair_key(st.lines[i].body),
            ),
{
    assert(forms_ok(initial_state().lines, opts));
    lemma_collect_lines_form(initial_state(), opts, spec_split_lines(spec_normalize_newlines(input)));
    if let Ok(st) = formatted_lines(input, opts) {
        assert forall|i: int| 0 <= i < st.lines.len() && is_pair(#[trigger] st.lines[i].body) implies key_form(
            pair_key(st.lines[i].body),
        ) by {
            assert(form_ok(st.lines[i], opts));
        }
    }
}

/// Without `reflow_comments`, no comment is rewritten as a commented-out pair.
pub proof fn law_comments_stay_plain_without_reflow(input: Seq<char>, opts: Options)
    requires
        !opts.reflow_comments,
    ensures
        formatted_lines(input, opts) matches Ok(st) ==> forall|i: int|
            0 <= i < st.lines.len() ==> !(#[trigger] st.lines[i].body is DisabledPair),
{
    assert(forms_ok(initial_state().lines, opts));
    lemma_collect_lines_form(initial_state(), opts, spec_split_lines(spec_normalize_newlines(input)));
    if let Ok(st) = formatted_lines(input, opts) {
        assert forall|i: int| 0 <= i < st.lines.len() implies !(
        #[trigger] st.lines[i].body is DisabledPair) by {
            assert(form_ok(st.lines[i], opts));
        }
    }
}


// ---------------------------------------------------------------------------
// Quoting and normalizing again
// ---------------------------------------------------------------------------

/// The escaped form of one character.
pub open spec fn escape_char(c: char) -> Seq<char> {
    if c == '\\' || c == '"' {
        seq!['\\', c]
    } else {
        seq![c]
    }
}

pub proof fn lemma_escape_concat(a: Seq<char>, b: Seq<char>)
    ensures
        escape(a + b) == escape(a) + escape(b),
    decreases b.len(),
{
    if b.len() == 0 {
        assert(a + b =~= a);
        assert(escape(a) + escape(b) =~= escape(a));
    } else {
        assert((a + b).drop_last() =~= a + b.drop_last());
        assert((a + b).last() == b.last());
        lemma_escape_concat(a, b.drop_last());
        assert(escape(a + b) =~= escape(a) + escape(b));
    }
}

pub proof fn lemma_escape_front(v: Seq<char>)
    requires
        v.len() > 0,
    ensures
        escape(v) == escape_char(v[0]) + escape(v.skip(1)),
{
    assert(v =~= seq![v[0]] + v.skip(1));
    lemma_escape_concat(seq![v[0]], v.skip(1));
    assert(seq![v[0]].drop_last() =~= Seq::<char>::empty());
    assert(escape(Seq::<char>::empty()) == Seq::<char>::empty());
    assert(seq![v[0]].last() == v[0]);
    assert(escape(seq![v[0]]) =~= Seq::<char>::empty() + escape_char(v[0]));
    assert(escape(seq![v[0]]) =~= escape_char(v[0]));
}

pub proof fn lemma_quote_close_escape(l: Seq<char>, j: int, v: Seq<char>)
    requires
        0 <= j,
        j + escape(v).len() < l.len(),
        l.subrange(j, j + escape(v).len()) == escape(v),
        l[j + escape(v).len()] == '"',
    ensures
        quote_close(l, j, false) == Some(j + escape(v).len()),
    decreases v.len(),
{
    if v.len() > 0 {
        lemma_escape_front(v);
        let e = escape(v);
        let rest = v.skip(1);
        let c = v[0];
        assert(l[j] == e[0]);
        if c == '\\' || c == '"' {
            assert(l[j + 1] == e[1]);
            assert(l.subrange(j + 2, j + 2 + escape(rest).len()) =~= escape(rest)) by {
                assert forall|i: int| 0 <= i < escape(rest).len() implies #[trigger] l.subrange(
                    j + 2,
                    j + 2 + escape(rest).len(),
                )[i] == escape(rest)[i] by {
                    assert(l[j + 2 + i] == l.subrange(j, j + e.len())[2 + i]);
                }
            }
            lemma_quote_close_escape(l, j + 2, rest);
            assert(quote_close(l, j + 1, true) == quote_close(l, j + 2, false));
        } else {
            assert(l.subrange(j + 1, j + 1 + escape(rest).len()) =~= escape(rest)) by {
                assert forall|i: int| 0 <= i < escape(rest).len() implies #[trigger] l.subrange(
                    j + 1,
                    j + 1 + escape(rest).len(),
                )[i] == escape(rest)[i] by {
                    assert(l[j + 1 + i] == l.subrange(j, j + e.len())[1 + i]);
                }
            }
            lemma_quote_close_escape(l, j + 1, rest);
        }
    } else {
        assert(escape(v) == v);
    }
}

/// A quoted value reads back as one quoted token, the value itself.
pub proof fn law_quoted_value_reads_back(v: Seq<char>)
    ensures
        spec_parse_line(spec_quote_value(v)) == Ok::<Parsed, FormatError>(
            Parsed { tokens: seq![Token::Word(spec_quote_value(v))], comment: None },
        ),
{
    let q = spec_quote_value(v);
    let n = escape(v).len() as int;
    assert(q.subrange(1, 1 + n) =~= escape(v));
    assert(q[1 + n] == '"');
    lemma_quote_close_escape(q, 1, v);
    assert(!is_ws(q[0]));
    assert(q.subrange(0, n + 2) =~= q);
    assert(seq![Token::Word(q)] =~= Seq::<Token>::empty().push(Token::Word(q)));
    assert(parse_from(q, 0, Seq::empty()) == parse_from(q, n + 2, seq![Token::Word(q)]));
}

pub proof fn lemma_bare_value_plain(u: Seq<char>)
    requires
        spec_is_bare_value(u),
    ensures
        forall|i: int| 0 <= i < u.len() ==> #[trigger] u[i] != '\\' && u[i] != '"',
{
    if u == seq!['t', 'r', 'u', 'e'] || u == seq!['f', 'a', 'l', 's', 'e'] {
    } else {
        let w = strip_minus(u);
        let off: int = if u.len() > 0 && u[0] == '-' {
            1
        } else {
            0
        };
        assert forall|i: int| 0 <= i < u.len() implies #[trigger] u[i] != '\\' && u[i] != '"' by {
            if i >= off {
                assert(u[i] == w[i - off]);
                if all_digits(w) {
                    assert(is_ascii_digit(w[i - off]));
                } else {
                    let k = choose|k: int|
                        0 <= k < w.len() && w.len() > 1 && #[trigger] w[k] == '.' && all_digits(
                            w.take(k),
                        ) && all_digits(w.skip(k + 1));
                    if i - off < k {
                        assert(w.take(k)[i - off] == w[i - off]);
                        assert(is_ascii_digit(w.take(k)[i - off]));
                    } else if i - off > k {
                        assert(w.skip(k + 1)[i - off - k - 1] == w[i - off]);
                        assert(is_ascii_digit(w.skip(k + 1)[i - off - k - 1]));
                    }
                }
            }
        }
    }
}

pub proof fn lemma_escape_plain(t: Seq<char>)
    requires
        forall|i: int| 0 <= i < escape(t).len() ==> #[trigger] escape(t)[i] != '\\',
    ensures
        escape(t) == t,
    decreases t.len(),
{
    if t.len() > 0 {
        let a = escape(t.drop_last());
        let c = t.last();
        assert(escape(t) == a + escape_char(c));
        if c == '\\' || c == '"' {
            assert(escape(t)[a.len() as int] == '\\');
        }
        assert forall|i: int| 0 <= i < a.len() implies #[trigger] a[i] != '\\' by {
            assert(escape(t)[i] == a[i]);
        }
        lemma_escape_plain(t.drop_last());
        assert(t.drop_last().push(c) =~= t);
    }
}

/// Normalizing a key that was normalized changes nothing.
pub proof fn law_normalize_key_idempotent(t: Seq<char>)
    ensures
        spec_normalize_key(spec_normalize_key(t)) == spec_normalize_key(t),
{
    if let Some(k) = without_quotes(t) {
        if can_be_bare(k) {
            assert(bare_char(k[0]));
        }
    }
}

/// Normalizing a value that was normalized changes nothing.
pub proof fn law_normalize_value_idempotent(t: Seq<char>, bare_literals: bool)
    ensures
        spec_normalize_one_value(spec_normalize_one_value(t, bare_literals), bare_literals)
            == spec_normalize_one_value(t, bare_literals),
{
    match without_quotes(t) {
        Some(u) => {
            if bare_literals && spec_is_bare_value(u) {
                lemma_bare_value_plain(u);
                assert(u[0] != '"');
            }
        },
        None => {
            if bare_literals && spec_is_bare_value(t) {
            } else {
                let q = spec_quote_value(t);
                let e = escape(t);
                assert(q.subrange(1, q.len() - 1) =~= e);
                assert(without_quotes(q) == Some(e));
                if bare_literals && spec_is_bare_value(e) {
                    lemma_bare_value_plain(e);
                    lemma_escape_plain(t);
                    assert(false);
                }
            }
        },
    }
}


// ---------------------------------------------------------------------------
// Columns
// ---------------------------------------------------------------------------

pub proof fn lemma_spaces_width(n: nat)
    ensures
        crate::text::text_width(spaces(n)) == n,
    decreases n,
{
    if n > 0 {
        assert(spaces(n).drop_last() =~= spaces((n - 1) as nat));
        lemma_spaces_width((n - 1) as nat);
    }
}

/// In a run of pairs, every value starts at the same byte column: four per depth, then the
/// widest key of the run and one space.
pub proof fn law_pair_values_share_a_column(group: Seq<Line>, i: int)
    requires
        0 <= i < group.len(),
        is_pair(group[i].body),
    ensures
        ({
            let code = render_pairs(group)[i].code;
            let v = pair_value(group[i].body);
            let lead = code.len() - v.len();
            &&& 0 <= lead
            &&& code.skip(lead) == v
            &&& crate::text::text_width(code.take(lead)) == 4 * group[i].indent + max_key_width(
                group,
            ) + 1
        }),
{
    let l = group[i];
    let w = max_key_width(group);
    crate::formatter::lemma_max_key_width(group, i);
    let a = spaces(4 * l.indent);
    let b = pair_prefix(l.body);
    let c = pair_key(l.body);
    let d = spaces((w - crate::formatter::key_width(l.body) + 1) as nat);
    let v = pair_value(l.body);
    let lead = a + b + c + d;
    let code = render_pairs(group)[i].code;
    assert(code == render_pair(l, w).code);
    assert(code =~= lead + v);
    assert(code.skip(lead.len() as int) =~= v);
    assert(code.take(lead.len() as int) =~= lead);
    lemma_spaces_width(4 * l.indent);
    lemma_spaces_width((w - crate::formatter::key_width(l.body) + 1) as nat);
    crate::text::lemma_text_width_concat(a, b);
    crate::text::lemma_text_width_concat(a + b, c);
    crate::text::lemma_text_width_concat(a + b + c, d);
}

/// In a run of two or more commented lines, every code is padded to the widest, so every
/// comment starts at the same byte column.
pub proof fn law_comments_share_a_column(group: Seq<Rendered>, i: int)
    requires
        group.len() > 1,
        0 <= i < group.len(),
    ensures
        crate::text::text_width(pad_group(group)[i].code) == max_code_width(group),
        pad_group(group)[i].comment == group[i].comment,
{
    let r = group[i];
    let w = max_code_width(group);
    crate::formatter::lemma_max_code_width(group, i);
    assert(pad_group(group)[i] == pad_code(r, w));
    lemma_spaces_width((w - crate::text::text_width(r.code)) as nat);
    crate::text::lemma_text_width_concat(r.code, spaces((w - crate::text::text_width(r.code)) as nat));
}


// ---------------------------------------------------------------------------
// When formatting succeeds
// ---------------------------------------------------------------------------

/// `t` holds no quote and no brace.
pub open spec fn plain(t: Seq<char>) -> bool {
    forall|i: int| 0 <= i < t.len() ==> #[trigger] t[i] != '"' && t[i] != '{' && t[i] != '}'
}

pub open spec fn only_words(toks: Seq<Token>) -> bool {
    forall|j: int| 0 <= j < toks.len() ==> (#[trigger] toks[j]) is Word
}

pub proof fn lemma_normalize_plain(s: Seq<char>)
    requires
        plain(s),
    ensures
        plain(spec_normalize_newlines(s)),
    decreases s.len(),
{
    if s.len() > 0 {
        let rest = if s[0] == '\r' && s.len() > 1 && s[1] == '\n' {
            s.skip(2)
        } else {
            s.skip(1)
        };
        assert forall|i: int| 0 <= i < rest.len() implies #[trigger] rest[i] != '"' && rest[i]
            != '{' && rest[i] != '}' by {
            assert(rest[i] == s[i + s.len() - rest.len()]);
        }
        lemma_normalize_plain(rest);
        let r = spec_normalize_newlines(s);
        assert forall|i: int| 0 <= i < r.len() implies #[trigger] r[i] != '"' && r[i] != '{' && r[i]
            != '}' by {
            if i > 0 {
                assert(r[i] == spec_normalize_newlines(rest)[i - 1]);
            }
        }
    }
}

pub proof fn lemma_split_from_plain(s: Seq<char>, cur: Seq<char>)
    requires
        plain(s),
        plain(cur),
    ensures
        forall|k: int| 0 <= k < split_from(s, cur).len() ==> plain(#[trigger] split_from(s, cur)[k]),
    decreases s.len(),
{
    if s.len() > 0 {
        assert forall|i: int| 0 <= i < s.skip(1).len() implies #[trigger] s.skip(1)[i] != '"'
            && s.skip(1)[i] != '{' && s.skip(1)[i] != '}' by {
            assert(s.skip(1)[i] == s[i + 1]);
        }
        if s[0] == '\n' {
            lemma_split_from_plain(s.skip(1), Seq::empty());
            let r = split_from(s, cur);
            assert forall|k: int| 0 <= k < r.len() implies plain(#[trigger] r[k]) by {
                if k > 0 {
                    assert(r[k] == split_from(s.skip(1), Seq::empty())[k - 1]);
                } else {
                    assert(r[k] == cur);
                }
            }
        } else {
            let c2 = cur.push(s[0]);
            assert forall|i: int| 0 <= i < c2.len() implies #[trigger] c2[i] != '"' && c2[i] != '{'
                && c2[i] != '}' by {
                if i < cur.len() {
                    assert(c2[i] == cur[i]);
                }
            }
            lemma_split_from_plain(s.skip(1), c2);
            assert(split_from(s, cur) == split_from(s.skip(1), c2));
        }
    } else {
        assert(split_from(s, cur) == seq![cur]);
        assert(split_from(s, cur)[0] == cur);
    }
}

pub proof fn lemma_parse_plain(l: Seq<char>, i: int, toks: Seq<Token>)
    requires
        plain(l),
        only_words(toks),
    ensures
        parse_from(l, i, toks) matches Ok(p) && only_words(p.tokens),
    decreases l.len() - i,
{
    if 0 <= i < l.len() && !is_ws(l[i]) && !starts_comment(l, i) {
        assert(l[i] != '"' && l[i] != '{' && l[i] != '}');
        lemma_bare_end_bounds(l, i + 1);
        let e = bare_end(l, i + 1);
        let t2 = toks.push(Token::Word(l.subrange(i, e)));
        assert forall|j: int| 0 <= j < t2.len() implies (#[trigger] t2[j]) is Word by {
            if j < toks.len() {
                assert(t2[j] == toks[j]);
            }
        }
        lemma_parse_plain(l, e, t2);
    } else if 0 <= i < l.len() && is_ws(l[i]) {
        lemma_parse_plain(l, i + 1, toks);
    }
}

pub proof fn lemma_collect_words(
    st: State,
    opts: Options,
    toks: Seq<Token>,
    words: Seq<Seq<char>>,
    emitted: bool,
)
    requires
        only_words(toks),
    ensures
        collect_tokens(st, opts, toks, words, emitted) matches Ok((s1, w, e)) && s1 == st,
    decreases toks.len(),
{
    if toks.len() > 0 {
        assert(toks[0] is Word);
        assert forall|j: int| 0 <= j < toks.skip(1).len() implies (#[trigger] toks.skip(1)[j]) is Word by {
            assert(toks.skip(1)[j] == toks[j + 1]);
        }
        lemma_collect_words(st, opts, toks.skip(1), words.push(toks[0]->Word_0), emitted);
    }
}

pub proof fn lemma_collect_lines_plain(st: State, opts: Options, ls: Seq<Seq<char>>)
    requires
        forall|k: int| 0 <= k < ls.len() ==> plain(#[trigger] ls[k]),
    ensures
        collect_lines(st, opts, ls) matches Ok(s1) && s1.indent == st.indent,
    decreases ls.len(),
{
    if ls.len() > 0 {
        assert(plain(ls[0]));
        lemma_parse_plain(ls[0], 0, Seq::empty());
        let p = spec_parse_line(ls[0])->Ok_0;
        lemma_collect_words(st, opts, p.tokens, Seq::empty(), false);
        let (s1, words, emitted) = collect_tokens(st, opts, p.tokens, Seq::empty(), false)->Ok_0;
        let s2 = flush(s1, opts, words).0;
        assert(s2.indent == st.indent);
        let s3 = spec_collect_line(st, opts, p)->Ok_0;
        assert(s3.indent == st.indent);
        assert forall|k: int| 0 <= k < ls.skip(1).len() implies plain(#[trigger] ls.skip(1)[k]) by {
            assert(ls.skip(1)[k] == ls[k + 1]);
        }
        lemma_collect_lines_plain(s3, opts, ls.skip(1));
    }
}

/// Formatting fails only on quotes and braces: text without `"`, `{` and `}` always formats.
pub proof fn law_plain_text_always_formats(input: Seq<char>, opts: Options)
    requires
        plain(input),
    ensures
        spec_format(input, opts) is Ok,
{
    let text = spec_normalize_newlines(input);
    lemma_normalize_plain(input);
    assert(plain(Seq::<char>::empty()));
    lemma_split_from_plain(text, Seq::empty());
    lemma_collect_lines_plain(initial_state(), opts, spec_split_lines(text));
}

} // verus!
