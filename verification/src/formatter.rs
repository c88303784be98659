//! The formatter: collecting output lines from source lines, laying out pairs and comments,
//! and the public `format` and `format_with_options`.

use vstd::prelude::*;

use crate::syntax::{
    normalize_key, normalize_newlines, normalize_value_tokens, parse_disabled_pair, parse_line,
    spec_normalize_key, spec_normalize_newlines, spec_normalize_value_tokens,
    spec_parse_disabled_pair, spec_parse_line, view_opt, view_tokens, LineToken, Parsed, ParsedLine,
    Token,
};
use crate::text::{
    append_chars, chars_of, join_chars, join_with, lemma_text_width_bound, push_repeat, spaces,
    string_of, text_width, view_words, width_of,
};

verus! {

/// Why a source cannot be formatted.
#[derive(Debug, Clone, Copy, PartialEq, Eq)]
pub enum FormatError {
    UnterminatedQuotedToken,
    UnmatchedClosingBrace,
    UnclosedOpeningBrace,
}

impl FormatError {
    /// What the error says.
    pub open spec fn message(self) -> Seq<char> {
        match self {
            FormatError::UnterminatedQuotedToken => "unterminated quoted token"@,
            FormatError::UnmatchedClosingBrace => "unmatched closing brace"@,
            FormatError::UnclosedOpeningBrace => "unclosed opening brace"@,
        }
    }

    /// The error as text.
    pub fn to_string(&self) -> (s: String)
        ensures
            s@ == self.message(),
    {
        match self {
            FormatError::UnterminatedQuotedToken => "unterminated quoted token".to_owned(),
            FormatError::UnmatchedClosingBrace => "unmatched closing brace".to_owned(),
            FormatError::UnclosedOpeningBrace => "unclosed opening brace".to_owned(),
        }
    }
}

/// The two switches of the formatter.
#[derive(Debug, Clone, Copy, PartialEq, Eq, Structural)]
pub struct Options {
    /// Rewrite comments that read as commented-out key/value pairs like pairs.
    pub reflow_comments: bool,
    /// Leave `true`, `false` and numbers unquoted.
    pub bare_literals: bool,
}

// ---------------------------------------------------------------------------
// Model of the output
// ---------------------------------------------------------------------------

/// What an output line holds before it is rendered.
pub enum Body {
    ActivePair { key: Seq<char>, value: Seq<char> },
    DisabledPair { key: Seq<char>, value: Seq<char> },
    StandaloneText(Seq<char>),
    PlainComment(Seq<char>),
    Blank,
}

/// An output line: its depth, what it holds and the comment that follows it.
pub struct Line {
    pub indent: nat,
    pub body: Body,
    pub comment: Option<Seq<char>>,
}

/// The lines collected so far and the current brace depth.
pub struct State {
    pub lines: Seq<Line>,
    pub indent: nat,
}

/// A line whose code is laid out, before its comment is attached.
pub struct Rendered {
    pub indent: nat,
    pub code: Seq<char>,
    pub comment: Option<Seq<char>>,
}

pub open spec fn push_body(st: State, body: Body) -> State {
    State { lines: st.lines.push(Line { indent: st.indent, body, comment: None }), indent: st.indent }
}

/// Emits the pending words of a line as a standalone word or a key/value pair.
pub open spec fn flush(st: State, opts: Options, words: Seq<Seq<char>>) -> (State, bool) {
    if words.len() == 0 {
        (st, false)
    } else {
        let key = spec_normalize_key(words[0]);
        let body = if words.len() == 1 {
            Body::StandaloneText(key)
        } else {
            Body::ActivePair {
                key,
                value: spec_normalize_value_tokens(words.skip(1), opts.bare_literals),
            }
        };
        (push_body(st, body), true)
    }
}

/// Reads the tokens of a line; words wait until a brace or the end of the line.
pub open spec fn collect_tokens(
    st: State,
    opts: Options,
    toks: Seq<Token>,
    words: Seq<Seq<char>>,
    emitted: bool,
) -> Result<(State, Seq<Seq<char>>, bool), FormatError>
    decreases toks.len(),
{
    if toks.len() == 0 {
        Ok((st, words, emitted))
    } else {
        match toks[0] {
            Token::Word(w) => collect_tokens(st, opts, toks.skip(1), words.push(w), emitted),
            Token::Open => {
                let s1 = flush(st, opts, words).0;
                let s2 = push_body(s1, Body::StandaloneText(seq!['{']));
                collect_tokens(
                    State { lines: s2.lines, indent: s2.indent + 1 },
                    opts,
                    toks.skip(1),
                    Seq::empty(),
                    true,
                )
            },
            Token::Close => {
                let s1 = flush(st, opts, words).0;
                if s1.indent == 0 {
                    Err(FormatError::UnmatchedClosingBrace)
                } else {
                    let s2 = State { lines: s1.lines, indent: (s1.indent - 1) as nat };
                    collect_tokens(
                        push_body(s2, Body::StandaloneText(seq!['}'])),
                        opts,
                        toks.skip(1),
                        Seq::empty(),
                        true,
                    )
                }
            },
        }
    }
}

/// A comment on a line of its own.
pub open spec fn push_comment(st: State, opts: Options, c: Seq<char>) -> State {
    if !opts.reflow_comments {
        push_body(st, Body::PlainComment(c))
    } else {
        match spec_parse_disabled_pair(c, opts.bare_literals) {
            Some(p) => State {
                lines: st.lines.push(
                    Line {
                        indent: st.indent,
                        body: Body::DisabledPair { key: p.key, value: p.value },
                        comment: p.comment,
                    },
                ),
                indent: st.indent,
            },
            None => push_body(st, Body::PlainComment(c)),
        }
    }
}

/// The end of a source line: its comment follows the last line it emitted, stands on
/// its own, or the line was blank.
pub open spec fn finish_source_line(
    st: State,
    opts: Options,
    emitted: bool,
    comment: Option<Seq<char>>,
) -> State {
    match comment {
        Some(c) => if emitted {
            if st.lines.len() > 0 {
                let last = st.lines.last();
                State {
                    lines: st.lines.update(
                        st.lines.len() - 1,
                        Line { indent: last.indent, body: last.body, comment: Some(c) },
                    ),
                    indent: st.indent,
                }
            } else {
                st
            }
        } else {
            push_comment(st, opts, c)
        },
        None => if emitted {
            st
        } else {
            State {
                lines: st.lines.push(Line { indent: 0, body: Body::Blank, comment: None }),
                indent: st.indent,
            }
        },
    }
}

pub open spec fn spec_collect_line(st: State, opts: Options, p: Parsed) -> Result<State, FormatError> {
    match collect_tokens(st, opts, p.tokens, Seq::empty(), false) {
        Err(e) => Err(e),
        Ok((s1, words, emitted)) => {
            let (s2, flushed) = flush(s1, opts, words);
            Ok(finish_source_line(s2, opts, emitted || flushed, p.comment))
        },
    }
}

/// Splits `s` at each `\n`; `cur` is the line read so far.
pub open spec fn split_from(s: Seq<char>, cur: Seq<char>) -> Seq<Seq<char>>
    decreases s.len(),
{
    if s.len() == 0 {
        seq![cur]
    } else if s[0] == '\n' {
        seq![cur] + split_from(s.skip(1), Seq::empty())
    } else {
        split_from(s.skip(1), cur.push(s[0]))
    }
}

/// The lines of `s`: one more than it has `\n`.
pub open spec fn spec_split_lines(s: Seq<char>) -> Seq<Seq<char>> {
    split_from(s, Seq::empty())
}

/// Parses and collects the source lines in order; the first error stops it.
pub open spec fn collect_lines(st: State, opts: Options, ls: Seq<Seq<char>>) -> Result<
    State,
    FormatError,
>
    decreases ls.len(),
{
    if ls.len() == 0 {
        Ok(st)
    } else {
        match spec_parse_line(ls[0]) {
            Err(e) => Err(e),
            Ok(p) => match spec_collect_line(st, opts, p) {
                Err(e) => Err(e),
                Ok(s1) => collect_lines(s1, opts, ls.skip(1)),
            },
        }
    }
}

// ---------------------------------------------------------------------------
// Model of the layout
// ---------------------------------------------------------------------------

pub open spec fn is_pair(b: Body) -> bool {
    b is ActivePair || b is DisabledPair
}

pub open spec fn pair_prefix(b: Body) -> Seq<char> {
    match b {
        Body::DisabledPair { .. } => seq!['/', '/', ' '],
        _ => Seq::empty(),
    }
}

pub open spec fn pair_key(b: Body) -> Seq<char> {
    match b {
        Body::ActivePair { key, .. } => key,
        Body::DisabledPair { key, .. } => key,
        _ => Seq::empty(),
    }
}

pub open spec fn pair_value(b: Body) -> Seq<char> {
    match b {
        Body::ActivePair { value, .. } => value,
        Body::DisabledPair { value, .. } => value,
        _ => Seq::empty(),
    }
}

/// Width of the prefix and key of a pair.
pub open spec fn key_width(b: Body) -> nat {
    text_width(pair_prefix(b)) + text_width(pair_key(b))
}

/// Length of the run of pairs at depth `ind` that starts `ls`.
pub open spec fn pair_run(ls: Seq<Line>, ind: nat) -> nat
    decreases ls.len(),
{
    if ls.len() > 0 && ls[0].indent == ind && is_pair(ls[0].body) {
        1 + pair_run(ls.skip(1), ind)
    } else {
        0
    }
}

pub open spec fn max_key_width(ls: Seq<Line>) -> nat
    decreases ls.len(),
{
    if ls.len() == 0 {
        0
    } else {
        let w = key_width(ls[0].body);
        let rest = max_key_width(ls.skip(1));
        if w >= rest {
            w
        } else {
            rest
        }
    }
}

/// A pair laid out with its value in the column after the widest key of its group.
pub open spec fn render_pair(l: Line, widest: nat) -> Rendered {
    Rendered {
        indent: l.indent,
        code: spaces(4 * l.indent) + pair_prefix(l.body) + pair_key(l.body) + spaces(
            (widest - key_width(l.body) + 1) as nat,
        ) + pair_value(l.body),
        comment: l.comment,
    }
}

pub open spec fn render_pairs(group: Seq<Line>) -> Seq<Rendered> {
    group.map_values(|l: Line| render_pair(l, max_key_width(group)))
}

pub open spec fn render_single(l: Line) -> Rendered {
    Rendered {
        indent: l.indent,
        code: match l.body {
            Body::StandaloneText(t) => spaces(4 * l.indent) + t,
            Body::PlainComment(t) => spaces(4 * l.indent) + t,
            _ => Seq::empty(),
        },
        comment: l.comment,
    }
}

pub proof fn lemma_pair_run_bounds(ls: Seq<Line>, ind: nat)
    ensures
        pair_run(ls, ind) <= ls.len(),
        ls.len() > 0 && ls[0].indent == ind && is_pair(ls[0].body) ==> pair_run(ls, ind) >= 1,
    decreases ls.len(),
{
    if ls.len() > 0 && ls[0].indent == ind && is_pair(ls[0].body) {
        lemma_pair_run_bounds(ls.skip(1), ind);
    }
}

/// Lays out each line's code; adjacent pairs at one depth share a value column.
pub open spec fn render_code(ls: Seq<Line>) -> Seq<Rendered>
    decreases ls.len(),
{
    if ls.len() == 0 {
        Seq::empty()
    } else if is_pair(ls[0].body) {
        proof {
            lemma_pair_run_bounds(ls, ls[0].indent);
        }
        let n = pair_run(ls, ls[0].indent);
        render_pairs(ls.take(n as int)) + render_code(ls.skip(n as int))
    } else {
        seq![render_single(ls[0])] + render_code(ls.skip(1))
    }
}

pub open spec fn can_align(r: Rendered) -> bool {
    r.comment is Some && r.code.len() > 0
}

/// Length of the run of lines with code and a comment at depth `ind` that starts `rs`.
pub open spec fn comment_run(rs: Seq<Rendered>, ind: nat) -> nat
    decreases rs.len(),
{
    if rs.len() > 0 && rs[0].indent == ind && can_align(rs[0]) {
        1 + comment_run(rs.skip(1), ind)
    } else {
        0
    }
}

pub open spec fn max_code_width(rs: Seq<Rendered>) -> nat
    decreases rs.len(),
{
    if rs.len() == 0 {
        0
    } else {
        let w = text_width(rs[0].code);
        let rest = max_code_width(rs.skip(1));
        if w >= rest {
            w
        } else {
            rest
        }
    }
}

pub open spec fn pad_code(r: Rendered, widest: nat) -> Rendered {
    Rendered {
        indent: r.indent,
        code: r.code + spaces((widest - text_width(r.code)) as nat),
        comment: r.comment,
    }
}

/// A run of two or more commented lines is padded to its widest code.
pub open spec fn pad_group(group: Seq<Rendered>) -> Seq<Rendered> {
    if group.len() > 1 {
        group.map_values(|r: Rendered| pad_code(r, max_code_width(group)))
    } else {
        group
    }
}

pub proof fn lemma_comment_run_bounds(rs: Seq<Rendered>, ind: nat)
    ensures
        comment_run(rs, ind) <= rs.len(),
        rs.len() > 0 && rs[0].indent == ind && can_align(rs[0]) ==> comment_run(rs, ind) >= 1,
    decreases rs.len(),
{
    if rs.len() > 0 && rs[0].indent == ind && can_align(rs[0]) {
        lemma_comment_run_bounds(rs.skip(1), ind);
    }
}

/// Aligns the comments of adjacent lines at one depth into one column.
pub open spec fn align_comments(rs: Seq<Rendered>) -> Seq<Rendered>
    decreases rs.len(),
{
    if rs.len() == 0 {
        Seq::empty()
    } else if !can_align(rs[0]) {
        seq![rs[0]] + align_comments(rs.skip(1))
    } else {
        proof {
            lemma_comment_run_bounds(rs, rs[0].indent);
        }
        let n = comment_run(rs, rs[0].indent);
        pad_group(rs.take(n as int)) + align_comments(rs.skip(n as int))
    }
}

/// The text of a rendered line: its code, then a space and its comment.
pub open spec fn line_text(r: Rendered) -> Seq<char> {
    match r.comment {
        Some(c) => if r.code.len() > 0 {
            r.code + seq![' '] + c
        } else {
            c
        },
        None => r.code,
    }
}

pub open spec fn spec_render_lines(ls: Seq<Line>) -> Seq<Seq<char>> {
    align_comments(render_code(ls)).map_values(|r: Rendered| line_text(r))
}

/// Drops the blank lines at the end.
pub open spec fn trim_blank_tail(ls: Seq<Line>) -> Seq<Line>
    decreases ls.len(),
{
    if ls.len() > 0 && ls.last().body is Blank && ls.last().comment is None {
        trim_blank_tail(ls.drop_last())
    } else {
        ls
    }
}

pub open spec fn spec_finish(st: State, had_final_newline: bool) -> Result<Seq<char>, FormatError> {
    if st.indent != 0 {
        Err(FormatError::UnclosedOpeningBrace)
    } else {
        let l1 = if had_final_newline && st.lines.len() > 0 {
            st.lines.drop_last()
        } else {
            st.lines
        };
        let out = join_with(spec_render_lines(trim_blank_tail(l1)), '\n');
        Ok(
            if had_final_newline {
                out.push('\n')
            } else {
                out
            },
        )
    }
}

pub open spec fn ends_with_newline(s: Seq<char>) -> bool {
    s.len() > 0 && s.last() == '\n'
}

pub open spec fn initial_state() -> State {
    State { lines: Seq::empty(), indent: 0 }
}

/// The formatted text of `input`, or why it cannot be formatted.
pub open spec fn spec_format(input: Seq<char>, opts: Options) -> Result<Seq<char>, FormatError> {
    let text = spec_normalize_newlines(input);
    match collect_lines(initial_state(), opts, spec_split_lines(text)) {
        Err(e) => Err(e),
        Ok(st) => spec_finish(st, ends_with_newline(text)),
    }
}


// ---------------------------------------------------------------------------
// Executable formatter
// ---------------------------------------------------------------------------

impl Default for Options {
    fn default() -> (r: Self)
        ensures
            r == (Options { reflow_comments: false, bare_literals: false }),
    {
        Options { reflow_comments: false, bare_literals: false }
    }
}

/// What an output line holds.
pub enum OutputBody {
    ActivePair { key: Vec<char>, value: Vec<char> },
    DisabledPair { key: Vec<char>, value: Vec<char> },
    StandaloneText(Vec<char>),
    PlainComment(Vec<char>),
    Blank,
}

impl View for OutputBody {
    type V = Body;

    open spec fn view(&self) -> Body {
        match self {
            OutputBody::ActivePair { key, value } => Body::ActivePair { key: key@, value: value@ },
            OutputBody::DisabledPair { key, value } => Body::DisabledPair {
                key: key@,
                value: value@,
            },
            OutputBody::StandaloneText(t) => Body::StandaloneText(t@),
            OutputBody::PlainComment(t) => Body::PlainComment(t@),
            OutputBody::Blank => Body::Blank,
        }
    }
}

/// An output line with its depth and trailing comment.
pub struct OutputLine {
    pub indent: usize,
    pub body: OutputBody,
    pub trailing_comment: Option<Vec<char>>,
}

impl View for OutputLine {
    type V = Line;

    open spec fn view(&self) -> Line {
        Line {
            indent: self.indent as nat,
            body: self.body@,
            comment: view_opt(self.trailing_comment),
        }
    }
}

pub open spec fn view_lines(s: Seq<OutputLine>) -> Seq<Line> {
    s.map_values(|l: OutputLine| l@)
}

/// Collects output lines from source lines, keeping the brace depth.
pub struct Formatter {
    pub lines: Vec<OutputLine>,
    pub indent: usize,
    pub options: Options,
}

impl Formatter {
    pub open spec fn state(&self) -> State {
        State { lines: view_lines(self.lines@), indent: self.indent as nat }
    }

    /// Every `{` emitted a line before the depth grew, so the depth never exceeds the lines.
    pub open spec fn wf(&self) -> bool {
        self.indent <= self.lines@.len()
    }

    fn new(options: Options) -> (f: Self)
        ensures
            f.state() == initial_state(),
            f.options == options,
            f.wf(),
    {
        let f = Formatter { lines: Vec::new(), indent: 0, options };
        assert(view_lines(f.lines@) =~= Seq::<Line>::empty());
        f
    }

    fn push_output_line(&mut self, body: OutputBody)
        requires
            old(self).wf(),
        ensures
            final(self).state() == push_body(old(self).state(), body@),
            final(self).options == old(self).options,
            final(self).lines@.len() == old(self).lines@.len() + 1,
            final(self).wf(),
    {
        let ghost before = view_lines(self.lines@);
        self.lines.push(OutputLine { indent: self.indent, body, trailing_comment: None });
        assert(view_lines(self.lines@) =~= before.push(
            Line { indent: self.indent as nat, body: body@, comment: None },
        ));
    }

    fn flush_pending_words(&mut self, words: &mut Vec<Vec<char>>) -> (emitted: bool)
        requires
            old(self).wf(),
        ensures
            (final(self).state(), emitted) == flush(
                old(self).state(),
                old(self).options,
                view_words(old(words)@),
            ),
            final(words)@.len() == 0,
            final(self).options == old(self).options,
            final(self).wf(),
    {
        if words.len() == 0 {
            return false;
        }
        let ghost all = view_words(words@);
        let first = words.remove(0);
        assert(view_words(words@) =~= all.skip(1));
        let key = normalize_key(&first);
        let body = if words.len() == 0 {
            OutputBody::StandaloneText(key)
        } else {
            OutputBody::ActivePair {
                key,
                value: normalize_value_tokens(words, self.options.bare_literals),
            }
        };
        words.clear();
        self.push_output_line(body);
        true
    }

    fn push_comment_line(&mut self, comment: Vec<char>)
        requires
            old(self).wf(),
        ensures
            final(self).state() == push_comment(old(self).state(), old(self).options, comment@),
            final(self).options == old(self).options,
            final(self).wf(),
    {
        if !self.options.reflow_comments {
            self.push_output_line(OutputBody::PlainComment(comment));
            return ;
        }
        if let Some(pair) = parse_disabled_pair(&comment, self.options.bare_literals) {
            let ghost before = view_lines(self.lines@);
            let line = OutputLine {
                indent: self.indent,
                body: OutputBody::DisabledPair { key: pair.key, value: pair.value },
                trailing_comment: pair.trailing_comment,
            };
            self.lines.push(line);
            assert(view_lines(self.lines@) =~= before.push(line@));
            return ;
        }
        self.push_output_line(OutputBody::PlainComment(comment));
    }

    fn finish_source_line(&mut self, emitted_line: bool, comment: Option<Vec<char>>)
        requires
            old(self).wf(),
        ensures
            final(self).state() == finish_source_line(
                old(self).state(),
                old(self).options,
                emitted_line,
                view_opt(comment),
            ),
            final(self).options == old(self).options,
            final(self).wf(),
    {
        let ghost before = view_lines(self.lines@);
        match comment {
            Some(c) => {
                if emitted_line {
                    if self.lines.len() > 0 {
                        let last = self.lines.pop().unwrap();
                        let line = OutputLine {
                            indent: last.indent,
                            body: last.body,
                            trailing_comment: Some(c),
                        };
                        self.lines.push(line);
                        assert(view_lines(self.lines@) =~= before.update(
                            before.len() - 1,
                            line@,
                        ));
                    }
                } else {
                    self.push_comment_line(c);
                }
            },
            None => {
                if !emitted_line {
                    let line = OutputLine {
                        indent: 0,
                        body: OutputBody::Blank,
                        trailing_comment: None,
                    };
                    self.lines.push(line);
                    assert(view_lines(self.lines@) =~= before.push(line@));
                }
            },
        }
    }

    fn collect_line(&mut self, line: ParsedLine) -> (r: Result<(), FormatError>)
        requires
            old(self).wf(),
        ensures
            match r {
                Ok(()) => spec_collect_line(old(self).state(), old(self).options, line@) == Ok::<
                    State,
                    FormatError,
                >(final(self).state()),
                Err(e) => spec_collect_line(old(self).state(), old(self).options, line@) == Err::<
                    State,
                    FormatError,
                >(e),
            },
            final(self).options == old(self).options,
            final(self).wf(),
    {
        let ghost toks = view_tokens(line.tokens@);
        let ghost opts = self.options;
        let mut pending_words: Vec<Vec<char>> = Vec::new();
        let mut emitted_line = false;
        let n = line.tokens.len();
        let mut i: usize = 0;
        assert(toks.skip(0) =~= toks);
        assert(view_words(pending_words@) =~= Seq::<Seq<char>>::empty());
        while i < n
            invariant
                n == line.tokens.len(),
                i <= n,
                toks == view_tokens(line.tokens@),
                self.wf(),
                self.options == opts,
                opts == old(self).options,
                line@.tokens == toks,
                collect_tokens(old(self).state(), opts, toks, Seq::empty(), false) == collect_tokens(
                    self.state(),
                    opts,
                    toks.skip(i as int),
                    view_words(pending_words@),
                    emitted_line,
                ),
            decreases n - i,
        {
            assert(toks.skip(i as int).skip(1) =~= toks.skip(i + 1));
            assert(toks.skip(i as int)[0] == line.tokens@[i as int]@);
            match &line.tokens[i] {
                LineToken::Word(word) => {
                    let ghost before = view_words(pending_words@);
                    let w = word.clone();
                    assert(w@ == word@);
                    pending_words.push(w);
                    assert(view_words(pending_words@) =~= before.push(word@));
                    assert(toks.skip(i as int)[0] == Token::Word(word@));
                },
                LineToken::OpenBrace => {
                    self.flush_pending_words(&mut pending_words);
                    let open_text = vec!['{'];
                    assert(open_text@ =~= seq!['{']);
                    self.push_output_line(OutputBody::StandaloneText(open_text));
                    let len = self.lines.len();
                    assert(self.indent < len);
                    self.indent += 1;
                    emitted_line = true;
                    assert(view_words(pending_words@) =~= Seq::<Seq<char>>::empty());
                },
                LineToken::CloseBrace => {
                    self.flush_pending_words(&mut pending_words);
                    if self.indent == 0 {
                        return Err(FormatError::UnmatchedClosingBrace);
                    }
                    self.indent -= 1;
                    let close_text = vec!['}'];
                    assert(close_text@ =~= seq!['}']);
                    self.push_output_line(OutputBody::StandaloneText(close_text));
                    emitted_line = true;
                    assert(view_words(pending_words@) =~= Seq::<Seq<char>>::empty());
                },
            }
            i += 1;
        }
        assert(toks.skip(n as int) =~= Seq::<Token>::empty());
        let flushed = self.flush_pending_words(&mut pending_words);
        emitted_line = emitted_line || flushed;
        self.finish_source_line(emitted_line, line.trailing_comment);
        Ok(())
    }
}


// ---------------------------------------------------------------------------
// Facts about runs and widths
// ---------------------------------------------------------------------------

pub proof fn lemma_pair_run_members(ls: Seq<Line>, ind: nat, k: int)
    requires
        0 <= k < pair_run(ls, ind),
    ensures
        ls[k].indent == ind,
        is_pair(ls[k].body),
    decreases k,
{
    lemma_pair_run_bounds(ls, ind);
    if k > 0 {
        lemma_pair_run_members(ls.skip(1), ind, k - 1);
    }
}

pub proof fn lemma_comment_run_members(rs: Seq<Rendered>, ind: nat, k: int)
    requires
        0 <= k < comment_run(rs, ind),
    ensures
        rs[k].indent == ind,
        can_align(rs[k]),
    decreases k,
{
    lemma_comment_run_bounds(rs, ind);
    if k > 0 {
        lemma_comment_run_members(rs.skip(1), ind, k - 1);
    }
}

pub proof fn lemma_max_key_width(ls: Seq<Line>, k: int)
    requires
        0 <= k < ls.len(),
    ensures
        key_width(ls[k].body) <= max_key_width(ls),
    decreases k,
{
    if k > 0 {
        lemma_max_key_width(ls.skip(1), k - 1);
    }
}

pub proof fn lemma_max_code_width(rs: Seq<Rendered>, k: int)
    requires
        0 <= k < rs.len(),
    ensures
        text_width(rs[k].code) <= max_code_width(rs),
    decreases k,
{
    if k > 0 {
        lemma_max_code_width(rs.skip(1), k - 1);
    }
}

// ---------------------------------------------------------------------------
// Executable layout
// ---------------------------------------------------------------------------

/// An output line with its code laid out.
pub struct RenderedLine {
    pub indent: usize,
    pub code: Vec<char>,
    pub trailing_comment: Option<Vec<char>>,
}

impl View for RenderedLine {
    type V = Rendered;

    open spec fn view(&self) -> Rendered {
        Rendered {
            indent: self.indent as nat,
            code: self.code@,
            comment: view_opt(self.trailing_comment),
        }
    }
}

pub open spec fn view_rendered(s: Seq<RenderedLine>) -> Seq<Rendered> {
    s.map_values(|r: RenderedLine| r@)
}

/// The prefix, key and value of a pair line.
pub struct PairParts {
    pub prefix: Vec<char>,
    pub key: Vec<char>,
    pub value: Vec<char>,
}

fn clone_comment(c: &Option<Vec<char>>) -> (r: Option<Vec<char>>)
    ensures
        view_opt(r) == view_opt(*c),
{
    match c {
        Some(v) => Some(v.clone()),
        None => None,
    }
}

impl OutputBody {
    fn is_pair(&self) -> (r: bool)
        ensures
            r == is_pair(self@),
    {
        match self {
            OutputBody::ActivePair { .. } | OutputBody::DisabledPair { .. } => true,
            _ => false,
        }
    }

    fn pair_parts(&self) -> (p: PairParts)
        requires
            is_pair(self@),
        ensures
            p.prefix@ == pair_prefix(self@),
            p.key@ == pair_key(self@),
            p.value@ == pair_value(self@),
    {
        match self {
            OutputBody::ActivePair { key, value } => PairParts {
                prefix: Vec::new(),
                key: key.clone(),
                value: value.clone(),
            },
            OutputBody::DisabledPair { key, value } => {
                let prefix = vec!['/', '/', ' '];
                assert(prefix@ =~= seq!['/', '/', ' ']);
                PairParts { prefix, key: key.clone(), value: value.clone() }
            },
            _ => {
                assert(false);
                PairParts { prefix: Vec::new(), key: Vec::new(), value: Vec::new() }
            },
        }
    }
}

impl PairParts {
    fn visible_key_width(&self) -> (w: u128)
        requires
            self.prefix@.len() <= 3,
        ensures
            w == text_width(self.prefix@) + text_width(self.key@),
            w <= 12 + 4 * usize::MAX,
    {
        proof {
            lemma_text_width_bound(self.prefix@);
            lemma_text_width_bound(self.key@);
        }
        width_of(&self.prefix) + width_of(&self.key)
    }
}

impl RenderedLine {
    fn into_text(&self) -> (t: Vec<char>)
        ensures
            t@ == line_text(self@),
    {
        let mut text = self.code.clone();
        match &self.trailing_comment {
            Some(comment) => {
                if self.code.len() > 0 {
                    text.push(' ');
                }
                append_chars(&mut text, comment);
                if self.code.len() == 0 {
                    assert(text@ =~= comment@);
                }
            },
            None => {},
        }
        text
    }
}

fn indent_text(indent: usize, text: &Vec<char>) -> (line: Vec<char>)
    ensures
        line@ == spaces(4 * indent as nat) + text@,
{
    let mut line: Vec<char> = Vec::new();
    for i in 0..indent
        invariant
            line@ == spaces(4 * i as nat),
    {
        line.push(' ');
        line.push(' ');
        line.push(' ');
        line.push(' ');
        assert(line@ =~= spaces(4 * (i + 1) as nat));
    }
    append_chars(&mut line, text);
    line
}

fn find_pair_group_end(lines: &Vec<OutputLine>, start: usize) -> (end: usize)
    requires
        start < lines.len(),
        is_pair(lines@[start as int]@.body),
    ensures
        end == start + pair_run(view_lines(lines@).skip(start as int), lines@[start as int].indent as nat),
        start < end <= lines.len(),
{
    let ghost vl = view_lines(lines@);
    let ghost ind = lines@[start as int].indent as nat;
    let indent = lines[start].indent;
    let mut end = start;
    while end < lines.len() && lines[end].indent == indent && lines[end].body.is_pair()
        invariant
            start <= end <= lines.len(),
            vl == view_lines(lines@),
            indent == ind,
            pair_run(vl.skip(start as int), ind) == (end - start) + pair_run(vl.skip(end as int), ind),
        decreases lines.len() - end,
    {
        assert(vl.skip(end as int).skip(1) =~= vl.skip(end + 1));
        assert(vl.skip(end as int)[0] == lines@[end as int]@);
        end += 1;
    }
    if end < lines.len() {
        assert(vl.skip(end as int)[0] == lines@[end as int]@);
    }
    assert(pair_run(vl.skip(end as int), ind) == 0);
    assert(vl.skip(start as int)[0] == lines@[start as int]@);
    proof {
        lemma_pair_run_bounds(vl.skip(start as int), ind);
    }
    end
}

fn render_pair_group(lines: &Vec<OutputLine>, start: usize, rendered: &mut Vec<RenderedLine>) -> (end:
    usize)
    requires
        start < lines.len(),
        is_pair(lines@[start as int]@.body),
    ensures
        end == start + pair_run(view_lines(lines@).skip(start as int), lines@[start as int].indent as nat),
        start < end <= lines.len(),
        view_rendered(final(rendered)@) == view_rendered(old(rendered)@) + render_pairs(
            view_lines(lines@).subrange(start as int, end as int),
        ),
{
    let end = find_pair_group_end(lines, start);
    let ghost vl = view_lines(lines@);
    let ghost group = vl.subrange(start as int, end as int);
    let ghost ind = lines@[start as int].indent as nat;
    assert forall|j: int| 0 <= j < group.len() implies is_pair(#[trigger] group[j].body) by {
        assert(group[j] == vl.skip(start as int)[j]);
        lemma_pair_run_members(vl.skip(start as int), ind, j);
    }
    let mut widest: u128 = 0;
    let mut k = start;
    assert(group =~= vl.subrange(k as int, end as int));
    while k < end
        invariant
            start <= k <= end <= lines.len(),
            vl == view_lines(lines@),
            group == vl.subrange(start as int, end as int),
            forall|j: int| 0 <= j < group.len() ==> is_pair(#[trigger] group[j].body),
            widest <= 12 + 4 * usize::MAX,
            max_key_width(group) == if widest >= max_key_width(vl.subrange(k as int, end as int)) {
                widest as nat
            } else {
                max_key_width(vl.subrange(k as int, end as int))
            },
        decreases end - k,
    {
        assert(vl.subrange(k as int, end as int).skip(1) =~= vl.subrange(k + 1, end as int));
        assert(vl.subrange(k as int, end as int)[0] == lines@[k as int]@);
        assert(group[k - start] == lines@[k as int]@);
        let parts = lines[k].body.pair_parts();
        let w = parts.visible_key_width();
        if w > widest {
            widest = w;
        }
        k += 1;
    }
    assert(vl.subrange(end as int, end as int).len() == 0);
    let ghost before = view_rendered(rendered@);
    let mut k = start;
    while k < end
        invariant
            start <= k <= end <= lines.len(),
            vl == view_lines(lines@),
            group == vl.subrange(start as int, end as int),
            forall|j: int| 0 <= j < group.len() ==> is_pair(#[trigger] group[j].body),
            widest == max_key_width(group),
            widest <= 12 + 4 * usize::MAX,
            view_rendered(rendered@) == before + Seq::new(
                (k - start) as nat,
                |j: int| render_pair(group[j], widest as nat),
            ),
        decreases end - k,
    {
        let line = &lines[k];
        assert(group[k - start] == line@);
        let parts = line.body.pair_parts();
        let w = parts.visible_key_width();
        proof {
            lemma_max_key_width(group, k - start);
        }
        let spaces_after_key = widest - w + 1;
        let mut code = indent_text(line.indent, &parts.prefix);
        append_chars(&mut code, &parts.key);
        push_repeat(&mut code, ' ', spaces_after_key);
        append_chars(&mut code, &parts.value);
        let r = RenderedLine {
            indent: line.indent,
            code,
            trailing_comment: clone_comment(&line.trailing_comment),
        };
        assert(r@ == render_pair(group[k - start], widest as nat));
        let ghost prev = view_rendered(rendered@);
        rendered.push(r);
        assert(view_rendered(rendered@) =~= prev.push(r@));
        k += 1;
        assert(view_rendered(rendered@) =~= before + Seq::new(
            (k - start) as nat,
            |j: int| render_pair(group[j], widest as nat),
        ));
    }
    assert(render_pairs(group) =~= Seq::new(
        (end - start) as nat,
        |j: int| render_pair(group[j], widest as nat),
    ));
    end
}

fn render_single_line(line: &OutputLine) -> (r: RenderedLine)
    requires
        !is_pair(line@.body),
    ensures
        r@ == render_single(line@),
{
    let code = match &line.body {
        OutputBody::StandaloneText(text) => indent_text(line.indent, text),
        OutputBody::PlainComment(text) => indent_text(line.indent, text),
        _ => Vec::new(),
    };
    RenderedLine {
        indent: line.indent,
        code,
        trailing_comment: clone_comment(&line.trailing_comment),
    }
}

fn render_code_columns(lines: &Vec<OutputLine>) -> (rendered: Vec<RenderedLine>)
    ensures
        view_rendered(rendered@) == render_code(view_lines(lines@)),
{
    let ghost vl = view_lines(lines@);
    let mut rendered: Vec<RenderedLine> = Vec::new();
    let mut index: usize = 0;
    assert(vl.skip(0) =~= vl);
    assert(view_rendered(rendered@) =~= Seq::<Rendered>::empty());
    while index < lines.len()
        invariant
            index <= lines.len(),
            vl == view_lines(lines@),
            render_code(vl) == view_rendered(rendered@) + render_code(vl.skip(index as int)),
        decreases lines.len() - index,
    {
        let ghost rest = vl.skip(index as int);
        let ghost prev = view_rendered(rendered@);
        assert(rest[0] == lines@[index as int]@);
        if lines[index].body.is_pair() {
            let end = render_pair_group(lines, index, &mut rendered);
            let ghost n = pair_run(rest, rest[0].indent);
            assert(rest.take(n as int) =~= vl.subrange(index as int, end as int));
            assert(rest.skip(n as int) =~= vl.skip(end as int));
            assert(view_rendered(rendered@) + render_code(vl.skip(end as int)) =~= prev + render_code(rest));
            index = end;
        } else {
            let r = render_single_line(&lines[index]);
            rendered.push(r);
            assert(view_rendered(rendered@) =~= prev.push(r@));
            assert(rest.skip(1) =~= vl.skip(index + 1));
            assert(view_rendered(rendered@) + render_code(vl.skip(index + 1)) =~= prev + render_code(rest));
            index += 1;
        }
    }
    assert(vl.skip(index as int) =~= Seq::<Line>::empty());
    assert(view_rendered(rendered@) + Seq::<Rendered>::empty() =~= view_rendered(rendered@));
    rendered
}


fn can_align_trailing_comment(line: &RenderedLine) -> (r: bool)
    ensures
        r == can_align(line@),
{
    line.trailing_comment.is_some() && line.code.len() > 0
}

fn find_trailing_comment_group_end(lines: &Vec<RenderedLine>, start: usize) -> (end: usize)
    requires
        start < lines.len(),
        can_align(lines@[start as int]@),
    ensures
        end == start + comment_run(
            view_rendered(lines@).skip(start as int),
            lines@[start as int].indent as nat,
        ),
        start < end <= lines.len(),
{
    let ghost vr = view_rendered(lines@);
    let ghost ind = lines@[start as int].indent as nat;
    let indent = lines[start].indent;
    let mut end = start;
    while end < lines.len() && lines[end].indent == indent && can_align_trailing_comment(
        &lines[end],
    )
        invariant
            start <= end <= lines.len(),
            vr == view_rendered(lines@),
            indent == ind,
            comment_run(vr.skip(start as int), ind) == (end - start) + comment_run(
                vr.skip(end as int),
                ind,
            ),
        decreases lines.len() - end,
    {
        assert(vr.skip(end as int).skip(1) =~= vr.skip(end + 1));
        assert(vr.skip(end as int)[0] == lines@[end as int]@);
        end += 1;
    }
    if end < lines.len() {
        assert(vr.skip(end as int)[0] == lines@[end as int]@);
    }
    assert(comment_run(vr.skip(end as int), ind) == 0);
    assert(vr.skip(start as int)[0] == lines@[start as int]@);
    proof {
        lemma_comment_run_bounds(vr.skip(start as int), ind);
    }
    end
}

fn pad_code_to_widest_line(lines: &mut Vec<RenderedLine>, start: usize, end: usize)
    requires
        start < end <= old(lines).len(),
    ensures
        final(lines)@.len() == old(lines)@.len(),
        forall|j: int|
            0 <= j < final(lines)@.len() && !(start <= j < end) ==> #[trigger] final(lines)@[j]
                == old(lines)@[j],
        forall|j: int|
            start <= j < end ==> #[trigger] final(lines)@[j]@ == pad_code(
                old(lines)@[j]@,
                max_code_width(view_rendered(old(lines)@).subrange(start as int, end as int)),
            ),
{
    let ghost vr = view_rendered(lines@);
    let ghost group = vr.subrange(start as int, end as int);
    let mut widest: u128 = 0;
    let mut k = start;
    while k < end
        invariant
            start <= k <= end <= lines.len(),
            vr == view_rendered(lines@),
            group == vr.subrange(start as int, end as int),
            widest <= 4 * usize::MAX,
            max_code_width(group) == if widest >= max_code_width(vr.subrange(k as int, end as int)) {
                widest as nat
            } else {
                max_code_width(vr.subrange(k as int, end as int))
            },
        decreases end - k,
    {
        assert(vr.subrange(k as int, end as int).skip(1) =~= vr.subrange(k + 1, end as int));
        assert(vr.subrange(k as int, end as int)[0] == lines@[k as int]@);
        let w = width_of(&lines[k].code);
        if w > widest {
            widest = w;
        }
        k += 1;
    }
    assert(vr.subrange(end as int, end as int).len() == 0);
    let ghost old_lines = lines@;
    let mut k = start;
    while k < end
        invariant
            start <= k <= end <= lines.len(),
            old_lines.len() == lines@.len(),
            vr == view_rendered(old_lines),
            group == vr.subrange(start as int, end as int),
            widest == max_code_width(group),
            forall|j: int|
                0 <= j < lines@.len() && !(start <= j < k) ==> #[trigger] lines@[j] == old_lines[j],
            forall|j: int|
                start <= j < k ==> #[trigger] lines@[j]@ == pad_code(old_lines[j]@, widest as nat),
        decreases end - k,
    {
        let w = width_of(&lines[k].code);
        proof {
            assert(group[k - start] == old_lines[k as int]@);
            lemma_max_code_width(group, k - start);
        }
        push_repeat(&mut lines[k].code, ' ', widest - w);
        k += 1;
    }
}

fn align_trailing_comments(lines: &mut Vec<RenderedLine>)
    ensures
        view_rendered(final(lines)@) == align_comments(view_rendered(old(lines)@)),
{
    let ghost orig = view_rendered(lines@);
    let mut index: usize = 0;
    assert(orig.skip(0) =~= orig);
    assert(orig.take(0) + align_comments(orig) =~= align_comments(orig));
    while index < lines.len()
        invariant
            index <= lines.len(),
            lines@.len() == orig.len(),
            view_rendered(lines@).skip(index as int) == orig.skip(index as int),
            align_comments(orig) == view_rendered(lines@).take(index as int) + align_comments(
                orig.skip(index as int),
            ),
        decreases lines.len() - index,
    {
        let ghost cur = view_rendered(lines@);
        let ghost rest = orig.skip(index as int);
        assert(rest[0] == cur[index as int]);
        assert(cur[index as int] == lines@[index as int]@);
        if !can_align_trailing_comment(&lines[index]) {
            assert(rest.skip(1) =~= orig.skip(index + 1));
            assert(cur.take(index + 1) =~= cur.take(index as int).push(rest[0]));
            assert(cur.skip(index + 1) =~= orig.skip(index + 1));
            index += 1;
            continue;
        }
        let start = index;
        let end = find_trailing_comment_group_end(lines, start);
        let ghost n = comment_run(rest, rest[0].indent);
        assert(cur.skip(start as int) =~= rest);
        assert(rest.take(n as int) =~= cur.subrange(start as int, end as int));
        assert(rest.skip(n as int) =~= orig.skip(end as int));
        if end - start > 1 {
            pad_code_to_widest_line(lines, start, end);
            let ghost now = view_rendered(lines@);
            assert(now.take(end as int) =~= cur.take(start as int) + pad_group(
                rest.take(n as int),
            ));
            assert(now.skip(end as int) =~= cur.skip(end as int));
        } else {
            assert(pad_group(rest.take(n as int)) =~= cur.subrange(start as int, end as int));
            assert(cur.take(end as int) =~= cur.take(start as int) + cur.subrange(
                start as int,
                end as int,
            ));
        }
        assert(cur.skip(end as int) =~= orig.skip(end as int));
        index = end;
    }
    assert(orig.skip(index as int) =~= Seq::<Rendered>::empty());
    assert(view_rendered(lines@).take(index as int) =~= view_rendered(lines@));
}

fn render_lines(lines: &Vec<OutputLine>) -> (texts: Vec<Vec<char>>)
    ensures
        view_words(texts@) == spec_render_lines(view_lines(lines@)),
{
    let mut rendered = render_code_columns(lines);
    align_trailing_comments(&mut rendered);
    let ghost aligned = view_rendered(rendered@);
    let mut texts: Vec<Vec<char>> = Vec::new();
    for i in 0..rendered.len()
        invariant
            aligned == view_rendered(rendered@),
            view_words(texts@) == aligned.take(i as int).map_values(|r: Rendered| line_text(r)),
    {
        let t = rendered[i].into_text();
        let ghost prev = view_words(texts@);
        texts.push(t);
        assert(view_words(texts@) =~= prev.push(t@));
        assert(aligned.take(i + 1).map_values(|r: Rendered| line_text(r)) =~= prev.push(
            line_text(aligned[i as int]),
        ));
    }
    assert(aligned.take(rendered.len() as int) =~= aligned);
    texts
}

/// Splits `text` at each `\n`.
fn split_lines(text: &Vec<char>) -> (lines: Vec<Vec<char>>)
    ensures
        view_words(lines@) == spec_split_lines(text@),
{
    let mut lines: Vec<Vec<char>> = Vec::new();
    let mut cur: Vec<char> = Vec::new();
    let n = text.len();
    assert(text@.skip(0) =~= text@);
    assert(view_words(lines@) + spec_split_lines(text@) =~= spec_split_lines(text@));
    for i in 0..n
        invariant
            n == text.len(),
            spec_split_lines(text@) == view_words(lines@) + split_from(text@.skip(i as int), cur@),
    {
        let ghost rest = text@.skip(i as int);
        assert(rest.skip(1) =~= text@.skip(i + 1));
        let ghost prev = view_words(lines@);
        if text[i] == '\n' {
            let done = cur;
            lines.push(done);
            cur = Vec::new();
            assert(view_words(lines@) =~= prev.push(done@));
            assert(view_words(lines@) + split_from(text@.skip(i + 1), cur@) =~= prev + (seq![done@]
                + split_from(rest.skip(1), Seq::empty())));
        } else {
            cur.push(text[i]);
        }
    }
    assert(text@.skip(n as int) =~= Seq::<char>::empty());
    let ghost prev = view_words(lines@);
    let last = cur;
    lines.push(last);
    assert(view_words(lines@) =~= prev + seq![last@]);
    lines
}

/// The last line is blank, with no comment.
fn ends_with_blank_line(lines: &Vec<OutputLine>) -> (r: bool)
    ensures
        r == (view_lines(lines@).len() > 0 && view_lines(lines@).last().body is Blank && view_lines(
            lines@,
        ).last().comment is None),
{
    if lines.len() == 0 {
        return false;
    }
    let last = &lines[lines.len() - 1];
    match &last.body {
        OutputBody::Blank => last.trailing_comment.is_none(),
        _ => false,
    }
}

impl Formatter {
    fn finish(self, had_final_newline: bool) -> (r: Result<String, FormatError>)
        ensures
            match r {
                Ok(s) => spec_finish(self.state(), had_final_newline) == Ok::<
                    Seq<char>,
                    FormatError,
                >(s@),
                Err(e) => spec_finish(self.state(), had_final_newline) == Err::<
                    Seq<char>,
                    FormatError,
                >(e),
            },
    {
        if self.indent != 0 {
            return Err(FormatError::UnclosedOpeningBrace);
        }
        let mut lines = self.lines;
        if had_final_newline {
            let ghost before = view_lines(lines@);
            lines.pop();
            proof {
                if before.len() > 0 {
                    assert(view_lines(lines@) =~= before.drop_last());
                }
            }
        }
        let ghost l1 = view_lines(lines@);
        while ends_with_blank_line(&lines)
            invariant
                trim_blank_tail(l1) == trim_blank_tail(view_lines(lines@)),
            decreases lines.len(),
        {
            let ghost before = view_lines(lines@);
            lines.pop();
            assert(view_lines(lines@) =~= before.drop_last());
        }
        let texts = render_lines(&lines);
        let mut output = join_chars(&texts, '\n');
        if had_final_newline {
            output.push('\n');
        }
        Ok(string_of(&output))
    }
}

/// Formats `input` with the default options.
pub fn format(input: &str) -> (r: Result<String, FormatError>)
    ensures
        match r {
            Ok(s) => spec_format(input@, Options::default_options()) == Ok::<Seq<char>, FormatError>(s@),
            Err(e) => spec_format(input@, Options::default_options()) == Err::<Seq<char>, FormatError>(e),
        },
{
    format_with_options(input, Options::default())
}

/// Formats `input`: one token or brace per line, four spaces per depth, values quoted and
/// aligned, comments kept and aligned, newlines made `\n`.
pub fn format_with_options(input: &str, options: Options) -> (r: Result<String, FormatError>)
    ensures
        match r {
            Ok(s) => spec_format(input@, options) == Ok::<Seq<char>, FormatError>(s@),
            Err(e) => spec_format(input@, options) == Err::<Seq<char>, FormatError>(e),
        },
{
    let chars = chars_of(input);
    let text = normalize_newlines(&chars);
    let had_final_newline = text.len() > 0 && text[text.len() - 1] == '\n';
    let source_lines = split_lines(&text);
    let ghost all = view_words(source_lines@);
    let mut formatter = Formatter::new(options);
    assert(all.skip(0) =~= all);
    for i in 0..source_lines.len()
        invariant
            all == view_words(source_lines@),
            all == spec_split_lines(spec_normalize_newlines(input@)),
            formatter.wf(),
            formatter.options == options,
            collect_lines(initial_state(), options, all) == collect_lines(
                formatter.state(),
                options,
                all.skip(i as int),
            ),
    {
        assert(all.skip(i as int).skip(1) =~= all.skip(i + 1));
        assert(all.skip(i as int)[0] == source_lines@[i as int]@);
        let parsed = match parse_line(&source_lines[i]) {
            Ok(p) => p,
            Err(e) => return Err(e),
        };
        match formatter.collect_line(parsed) {
            Ok(()) => {},
            Err(e) => return Err(e),
        }
    }
    assert(all.skip(source_lines.len() as int) =~= Seq::<Seq<char>>::empty());
    formatter.finish(had_final_newline)
}

impl Options {
    pub open spec fn default_options() -> Options {
        Options { reflow_comments: false, bare_literals: false }
    }
}

} // verus!
