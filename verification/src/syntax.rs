//! Reading one source line: tokens, trailing comments, and how keys and values are normalized.

use vstd::prelude::*;

use crate::formatter::FormatError;
use crate::text::{
    char_is_ascii_alnum, char_is_ascii_alpha, char_is_ascii_digit, char_is_control, char_is_ws,
    is_ascii_alnum, is_ascii_alpha, is_ascii_digit, is_control, is_ws, join_chars, join_with,
    slice_chars, view_words,
};

verus! {

// ---------------------------------------------------------------------------
// Model
// ---------------------------------------------------------------------------

/// A token of one source line.
pub enum Token {
    Word(Seq<char>),
    Open,
    Close,
}

/// One source line after tokenizing: its tokens and the `//` comment that ends it.
pub struct Parsed {
    pub tokens: Seq<Token>,
    pub comment: Option<Seq<char>>,
}

/// A comment that reads as a key/value pair that was commented out.
pub struct Disabled {
    pub key: Seq<char>,
    pub value: Seq<char>,
    pub comment: Option<Seq<char>>,
}

/// `s` with every `\r\n` and every other `\r` turned into `\n`.
pub open spec fn spec_normalize_newlines(s: Seq<char>) -> Seq<char>
    decreases s.len(),
{
    if s.len() == 0 {
        s
    } else if s[0] == '\r' && s.len() > 1 && s[1] == '\n' {
        seq!['\n'] + spec_normalize_newlines(s.skip(2))
    } else if s[0] == '\r' {
        seq!['\n'] + spec_normalize_newlines(s.skip(1))
    } else {
        seq![s[0]] + spec_normalize_newlines(s.skip(1))
    }
}

/// A `//` starts at position `i` of `l`.
pub open spec fn starts_comment(l: Seq<char>, i: int) -> bool {
    0 <= i && i + 1 < l.len() && l[i] == '/' && l[i + 1] == '/'
}

/// `s` without its trailing whitespace.
pub open spec fn trim_end(s: Seq<char>) -> Seq<char>
    decreases s.len(),
{
    if s.len() > 0 && is_ws(s.last()) {
        trim_end(s.drop_last())
    } else {
        s
    }
}

/// Position of the `"` that closes a quoted token whose body is scanned from `j`;
/// a backslash escapes the character after it.
pub open spec fn quote_close(l: Seq<char>, j: int, escaped: bool) -> Option<int>
    decreases l.len() - j,
{
    if j < 0 || j >= l.len() {
        None
    } else if escaped {
        quote_close(l, j + 1, false)
    } else if l[j] == '\\' {
        quote_close(l, j + 1, true)
    } else if l[j] == '"' {
        Some(j)
    } else {
        quote_close(l, j + 1, false)
    }
}

/// Position `j` ends a bare token: whitespace, a brace, a quote or a `//` stands there.
pub open spec fn ends_bare(l: Seq<char>, j: int) -> bool {
    is_ws(l[j]) || l[j] == '{' || l[j] == '}' || l[j] == '"' || starts_comment(l, j)
}

/// End of a bare token whose rest is scanned from `j`.
pub open spec fn bare_end(l: Seq<char>, j: int) -> int
    decreases l.len() - j,
{
    if j < 0 || j >= l.len() {
        l.len() as int
    } else if ends_bare(l, j) {
        j
    } else {
        bare_end(l, j + 1)
    }
}

pub proof fn lemma_quote_close_bounds(l: Seq<char>, j: int, escaped: bool)
    ensures
        quote_close(l, j, escaped) matches Some(k) ==> j <= k < l.len() && l[k] == '"',
    decreases l.len() - j,
{
    if 0 <= j < l.len() {
        if escaped || l[j] != '"' {
            lemma_quote_close_bounds(l, j + 1, escaped == false && l[j] == '\\');
        }
    }
}

pub proof fn lemma_bare_end_bounds(l: Seq<char>, j: int)
    requires
        0 <= j,
    ensures
        j <= bare_end(l, j) <= l.len() || (j > l.len() && bare_end(l, j) == l.len()),
    decreases l.len() - j,
{
    if j < l.len() && !ends_bare(l, j) {
        lemma_bare_end_bounds(l, j + 1);
    }
}

/// Tokenizes `l` from position `i`, after the tokens `toks` already read.
pub open spec fn parse_from(l: Seq<char>, i: int, toks: Seq<Token>) -> Result<Parsed, FormatError>
    decreases l.len() - i,
{
    if i < 0 || i >= l.len() {
        Ok(Parsed { tokens: toks, comment: None })
    } else if is_ws(l[i]) {
        parse_from(l, i + 1, toks)
    } else if starts_comment(l, i) {
        Ok(Parsed { tokens: toks, comment: Some(trim_end(l.skip(i))) })
    } else if l[i] == '"' {
        proof {
            lemma_quote_close_bounds(l, i + 1, false);
        }
        match quote_close(l, i + 1, false) {
            Some(k) => parse_from(l, k + 1, toks.push(Token::Word(l.subrange(i, k + 1)))),
            None => Err(FormatError::UnterminatedQuotedToken),
        }
    } else if l[i] == '{' {
        parse_from(l, i + 1, toks.push(Token::Open))
    } else if l[i] == '}' {
        parse_from(l, i + 1, toks.push(Token::Close))
    } else {
        proof {
            lemma_bare_end_bounds(l, i + 1);
        }
        let e = bare_end(l, i + 1);
        parse_from(l, e, toks.push(Token::Word(l.subrange(i, e))))
    }
}

/// Tokenizes one source line.
pub open spec fn spec_parse_line(l: Seq<char>) -> Result<Parsed, FormatError> {
    parse_from(l, 0, Seq::empty())
}

/// `t` between a leading and a trailing `"`, if it has both.
pub open spec fn without_quotes(t: Seq<char>) -> Option<Seq<char>> {
    if t.len() >= 2 && t[0] == '"' && t.last() == '"' {
        Some(t.subrange(1, t.len() - 1))
    } else {
        None
    }
}

pub open spec fn all_digits(s: Seq<char>) -> bool {
    forall|i: int| 0 <= i < s.len() ==> is_ascii_digit(#[trigger] s[i])
}

pub open spec fn strip_minus(v: Seq<char>) -> Seq<char> {
    if v.len() > 0 && v[0] == '-' {
        v.skip(1)
    } else {
        v
    }
}

/// Digits with at most one decimal point, not the point alone, after an optional `-`.
pub open spec fn spec_is_number(v: Seq<char>) -> bool {
    let w = strip_minus(v);
    &&& w.len() > 0
    &&& {
        ||| all_digits(w)
        ||| exists|k: int|
            0 <= k < w.len() && w.len() > 1 && #[trigger] w[k] == '.' && all_digits(w.take(k))
                && all_digits(w.skip(k + 1))
    }
}

pub open spec fn spec_is_bare_value(v: Seq<char>) -> bool {
    v == seq!['t', 'r', 'u', 'e'] || v == seq!['f', 'a', 'l', 's', 'e'] || spec_is_number(v)
}

/// `v` with a backslash before every backslash and every `"`.
pub open spec fn escape(v: Seq<char>) -> Seq<char>
    decreases v.len(),
{
    if v.len() == 0 {
        v
    } else {
        let c = v.last();
        escape(v.drop_last()) + if c == '\\' || c == '"' {
            seq!['\\', c]
        } else {
            seq![c]
        }
    }
}

pub open spec fn spec_quote_value(v: Seq<char>) -> Seq<char> {
    seq!['"'] + escape(v) + seq!['"']
}

pub open spec fn bare_char(c: char) -> bool {
    !is_ws(c) && !is_control(c) && c != '"' && c != '{' && c != '}'
}

pub open spec fn contains_comment_start(t: Seq<char>) -> bool {
    exists|i: int| #[trigger] starts_comment(t, i)
}

pub open spec fn can_be_bare(t: Seq<char>) -> bool {
    &&& t.len() > 0
    &&& !contains_comment_start(t)
    &&& forall|i: int| 0 <= i < t.len() ==> bare_char(#[trigger] t[i])
}

pub open spec fn spec_normalize_key(t: Seq<char>) -> Seq<char> {
    match without_quotes(t) {
        Some(k) => if can_be_bare(k) {
            k
        } else {
            t
        },
        None => t,
    }
}

pub open spec fn spec_normalize_one_value(t: Seq<char>, bare_literals: bool) -> Seq<char> {
    match without_quotes(t) {
        Some(u) => if bare_literals && spec_is_bare_value(u) {
            u
        } else {
            t
        },
        None => if bare_literals && spec_is_bare_value(t) {
            t
        } else {
            spec_quote_value(t)
        },
    }
}

/// The words joined by single spaces.
pub open spec fn join_words(ws: Seq<Seq<char>>) -> Seq<char> {
    join_with(ws, ' ')
}

pub open spec fn spec_normalize_value_tokens(ws: Seq<Seq<char>>, bare_literals: bool) -> Seq<char> {
    if ws.len() == 1 {
        spec_normalize_one_value(join_words(ws), bare_literals)
    } else {
        spec_quote_value(join_words(ws))
    }
}

/// The text after `//` and one optional space.
pub open spec fn disabled_body(c: Seq<char>) -> Option<Seq<char>> {
    if c.len() >= 2 && c[0] == '/' && c[1] == '/' {
        let r = c.skip(2);
        Some(
            if r.len() > 0 && r[0] == ' ' {
                r.skip(1)
            } else {
                r
            },
        )
    } else {
        None
    }
}

pub open spec fn key_char(c: char) -> bool {
    is_ascii_alnum(c) || c == '_' || c == '.' || c == ':' || c == '-'
}

/// `t` without its surrounding quotes, if it has them.
pub open spec fn unquoted(t: Seq<char>) -> Seq<char> {
    match without_quotes(t) {
        Some(u) => u,
        None => t,
    }
}

/// A letter or `_`, then letters, digits and `_ . : -`.
pub open spec fn is_key_text(k: Seq<char>) -> bool {
    &&& k.len() > 0
    &&& (is_ascii_alpha(k[0]) || k[0] == '_')
    &&& forall|i: int| 1 <= i < k.len() ==> key_char(#[trigger] k[i])
}

pub open spec fn is_disabled_key(t: Seq<char>) -> bool {
    is_key_text(unquoted(t))
}

pub open spec fn is_disabled_value(t: Seq<char>) -> bool {
    without_quotes(t) is Some || spec_is_bare_value(t)
}

pub open spec fn spec_parse_disabled_pair(c: Seq<char>, bare_literals: bool) -> Option<Disabled> {
    match disabled_body(c) {
        None => None,
        Some(b) => match spec_parse_line(b) {
            Err(_) => None,
            Ok(p) => if p.tokens.len() == 2 && p.tokens[0] is Word && p.tokens[1] is Word
                && is_disabled_key(p.tokens[0]->Word_0) && is_disabled_value(
                p.tokens[1]->Word_0,
            ) {
                Some(
                    Disabled {
                        key: spec_normalize_key(p.tokens[0]->Word_0),
                        value: spec_normalize_one_value(p.tokens[1]->Word_0, bare_literals),
                        comment: p.comment,
                    },
                )
            } else {
                None
            },
        },
    }
}


// ---------------------------------------------------------------------------
// Executable tokens and lines
// ---------------------------------------------------------------------------

/// A token of a line: a word, quoted or bare, or a brace.
pub enum LineToken {
    Word(Vec<char>),
    OpenBrace,
    CloseBrace,
}

impl View for LineToken {
    type V = Token;

    open spec fn view(&self) -> Token {
        match self {
            LineToken::Word(w) => Token::Word(w@),
            LineToken::OpenBrace => Token::Open,
            LineToken::CloseBrace => Token::Close,
        }
    }
}

pub open spec fn view_tokens(s: Seq<LineToken>) -> Seq<Token> {
    s.map_values(|t: LineToken| t@)
}

pub open spec fn view_opt(o: Option<Vec<char>>) -> Option<Seq<char>> {
    match o {
        Some(v) => Some(v@),
        None => None,
    }
}

/// A tokenized line and the comment at its end.
pub struct ParsedLine {
    pub tokens: Vec<LineToken>,
    pub trailing_comment: Option<Vec<char>>,
}

impl View for ParsedLine {
    type V = Parsed;

    open spec fn view(&self) -> Parsed {
        Parsed { tokens: view_tokens(self.tokens@), comment: view_opt(self.trailing_comment) }
    }
}

/// A commented-out pair, with its key and value normalized.
pub struct DisabledPair {
    pub key: Vec<char>,
    pub value: Vec<char>,
    pub trailing_comment: Option<Vec<char>>,
}

impl View for DisabledPair {
    type V = Disabled;

    open spec fn view(&self) -> Disabled {
        Disabled { key: self.key@, value: self.value@, comment: view_opt(self.trailing_comment) }
    }
}

// ---------------------------------------------------------------------------
// Executable functions
// ---------------------------------------------------------------------------

/// Turns `\r\n` and lone `\r` into `\n`.
pub fn normalize_newlines(input: &Vec<char>) -> (r: Vec<char>)
    ensures
        r@ == spec_normalize_newlines(input@),
{
    let mut out: Vec<char> = Vec::new();
    let mut i: usize = 0;
    let n = input.len();
    assert(input@.skip(0) =~= input@);
    assert(out@ + spec_normalize_newlines(input@) =~= spec_normalize_newlines(input@));
    while i < n
        invariant
            n == input.len(),
            i <= n,
            spec_normalize_newlines(input@) == out@ + spec_normalize_newlines(input@.skip(i as int)),
        decreases n - i,
    {
        let ghost rest = input@.skip(i as int);
        let c = input[i];
        if c == '\r' && i + 1 < n && input[i + 1] == '\n' {
            assert(rest.skip(2) =~= input@.skip(i + 2));
            out.push('\n');
            i += 2;
        } else if c == '\r' {
            assert(rest.skip(1) =~= input@.skip(i + 1));
            out.push('\n');
            i += 1;
        } else {
            assert(rest.skip(1) =~= input@.skip(i + 1));
            out.push(c);
            i += 1;
        }
        assert(out@ + spec_normalize_newlines(input@.skip(i as int)) =~= out@.drop_last() + (
        seq![out@.last()] + spec_normalize_newlines(input@.skip(i as int))));
    }
    assert(input@.skip(n as int) =~= Seq::<char>::empty());
    assert(out@ + Seq::<char>::empty() =~= out@);
    out
}

/// A `//` starts at position `i`.
pub fn starts_line_comment(line: &Vec<char>, i: usize) -> (r: bool)
    ensures
        r == starts_comment(line@, i as int),
{
    i < line.len() && i + 1 < line.len() && line[i] == '/' && line[i + 1] == '/'
}

/// The characters without their trailing whitespace.
pub fn trim_end_chars(s: &Vec<char>) -> (r: Vec<char>)
    ensures
        r@ == trim_end(s@),
{
    let mut j = s.len();
    assert(s@.take(j as int) =~= s@);
    while j > 0 && char_is_ws(s[j - 1])
        invariant
            j <= s.len(),
            trim_end(s@) == trim_end(s@.take(j as int)),
        decreases j,
    {
        assert(s@.take(j as int).drop_last() =~= s@.take(j - 1));
        j -= 1;
    }
    assert(s@.take(j as int) =~= s@.subrange(0, j as int));
    slice_chars(s, 0, j)
}

fn read_quoted_token(line: &Vec<char>, start: usize) -> (r: Result<usize, FormatError>)
    requires
        start < line.len(),
    ensures
        match r {
            Ok(k) => quote_close(line@, start + 1, false) == Some(k as int),
            Err(e) => quote_close(line@, start + 1, false) is None && e
                == FormatError::UnterminatedQuotedToken,
        },
{
    let mut escaped = false;
    let mut j = start + 1;
    while j < line.len()
        invariant
            start < j <= line.len(),
            quote_close(line@, start + 1, false) == quote_close(line@, j as int, escaped),
        decreases line.len() - j,
    {
        let ch = line[j];
        if escaped {
            escaped = false;
        } else if ch == '\\' {
            escaped = true;
        } else if ch == '"' {
            return Ok(j);
        }
        j += 1;
    }
    Err(FormatError::UnterminatedQuotedToken)
}

fn ends_bare_token(line: &Vec<char>, index: usize) -> (r: bool)
    requires
        index < line.len(),
    ensures
        r == ends_bare(line@, index as int),
{
    let ch = line[index];
    char_is_ws(ch) || ch == '{' || ch == '}' || ch == '"' || starts_line_comment(line, index)
}

fn read_bare_token(line: &Vec<char>, start: usize) -> (r: usize)
    requires
        start < line.len(),
    ensures
        r == bare_end(line@, start + 1),
        start < r <= line.len(),
{
    let mut j = start + 1;
    while j < line.len()
        invariant
            start < j <= line.len(),
            bare_end(line@, start + 1) == bare_end(line@, j as int),
        decreases line.len() - j,
    {
        if ends_bare_token(line, j) {
            return j;
        }
        j += 1;
    }
    j
}

/// Tokenizes one line; a quote left open is an error.
pub fn parse_line(line: &Vec<char>) -> (r: Result<ParsedLine, FormatError>)
    ensures
        match r {
            Ok(p) => spec_parse_line(line@) == Ok::<Parsed, FormatError>(p@),
            Err(e) => spec_parse_line(line@) == Err::<Parsed, FormatError>(e),
        },
{
    let mut tokens: Vec<LineToken> = Vec::new();
    let mut i: usize = 0;
    let n = line.len();
    assert(view_tokens(tokens@) =~= Seq::<Token>::empty());
    while i < n
        invariant
            n == line.len(),
            i <= n,
            spec_parse_line(line@) == parse_from(line@, i as int, view_tokens(tokens@)),
        decreases n - i,
    {
        let ghost old_tokens = tokens@;
        let ch = line[i];
        if char_is_ws(ch) {
            i += 1;
        } else if ch == '/' && starts_line_comment(line, i) {
            let rest = slice_chars(line, i, n);
            assert(rest@ =~= line@.skip(i as int));
            let comment = trim_end_chars(&rest);
            return Ok(ParsedLine { tokens, trailing_comment: Some(comment) });
        } else if ch == '"' {
            match read_quoted_token(line, i) {
                Ok(k) => {
                    proof {
                        lemma_quote_close_bounds(line@, i + 1, false);
                    }
                    let w = slice_chars(line, i, k + 1);
                    tokens.push(LineToken::Word(w));
                    assert(view_tokens(tokens@) =~= view_tokens(old_tokens).push(
                        Token::Word(line@.subrange(i as int, k + 1)),
                    ));
                    i = k + 1;
                },
                Err(e) => {
                    return Err(e);
                },
            }
        } else if ch == '{' {
            tokens.push(LineToken::OpenBrace);
            assert(view_tokens(tokens@) =~= view_tokens(old_tokens).push(Token::Open));
            i += 1;
        } else if ch == '}' {
            tokens.push(LineToken::CloseBrace);
            assert(view_tokens(tokens@) =~= view_tokens(old_tokens).push(Token::Close));
            i += 1;
        } else {
            let e = read_bare_token(line, i);
            let w = slice_chars(line, i, e);
            tokens.push(LineToken::Word(w));
            assert(view_tokens(tokens@) =~= view_tokens(old_tokens).push(
                Token::Word(line@.subrange(i as int, e as int)),
            ));
            i = e;
        }
    }
    Ok(ParsedLine { tokens, trailing_comment: None })
}

fn without_surrounding_quotes(token: &Vec<char>) -> (r: Option<Vec<char>>)
    ensures
        view_opt(r) == without_quotes(token@),
{
    let n = token.len();
    if n >= 2 && token[0] == '"' && token[n - 1] == '"' {
        Some(slice_chars(token, 1, n - 1))
    } else {
        None
    }
}

fn is_quoted_token(token: &Vec<char>) -> (r: bool)
    ensures
        r == (without_quotes(token@) is Some),
{
    let n = token.len();
    n >= 2 && token[0] == '"' && token[n - 1] == '"'
}

fn all_ascii_digits(v: &Vec<char>, lo: usize, hi: usize) -> (r: bool)
    requires
        lo <= hi <= v.len(),
    ensures
        r == all_digits(v@.subrange(lo as int, hi as int)),
{
    let mut i = lo;
    while i < hi
        invariant
            lo <= i <= hi <= v.len(),
            forall|j: int| lo <= j < i ==> is_ascii_digit(#[trigger] v@[j]),
        decreases hi - i,
    {
        if !char_is_ascii_digit(v[i]) {
            assert(v@.subrange(lo as int, hi as int)[i - lo] == v@[i as int]);
            return false;
        }
        i += 1;
    }
    assert forall|j: int| 0 <= j < hi - lo implies is_ascii_digit(
        #[trigger] v@.subrange(lo as int, hi as int)[j],
    ) by {
        assert(v@.subrange(lo as int, hi as int)[j] == v@[lo + j]);
    }
    true
}

/// With its first `.` at `m`, `w` is a decimal exactly when the digits before and after it are.
proof fn lemma_decimal_at_first_dot(w: Seq<char>, m: int)
    requires
        0 <= m < w.len(),
        w[m] == '.',
        forall|j: int| 0 <= j < m ==> w[j] != '.',
    ensures
        !all_digits(w),
        (exists|k: int|
            0 <= k < w.len() && w.len() > 1 && #[trigger] w[k] == '.' && all_digits(w.take(k))
                && all_digits(w.skip(k + 1))) <==> (w.len() > 1 && all_digits(w.take(m))
            && all_digits(w.skip(m + 1))),
{
    assert(!is_ascii_digit(w[m]));
    if exists|k: int|
        0 <= k < w.len() && w.len() > 1 && #[trigger] w[k] == '.' && all_digits(w.take(k))
            && all_digits(w.skip(k + 1)) {
        let k = choose|k: int|
            0 <= k < w.len() && w.len() > 1 && #[trigger] w[k] == '.' && all_digits(w.take(k))
                && all_digits(w.skip(k + 1));
        if k < m {
            assert(w.skip(k + 1)[m - k - 1] == '.');
        } else if k > m {
            assert(w.take(k)[m] == '.');
        }
    }
}

/// Without a `.`, `w` is no decimal with a point.
proof fn lemma_no_dot(w: Seq<char>)
    requires
        forall|j: int| 0 <= j < w.len() ==> w[j] != '.',
    ensures
        !(exists|k: int|
            0 <= k < w.len() && w.len() > 1 && #[trigger] w[k] == '.' && all_digits(w.take(k))
                && all_digits(w.skip(k + 1))),
{
}

fn is_number(value: &Vec<char>) -> (r: bool)
    ensures
        r == spec_is_number(value@),
{
    let n = value.len();
    let lo: usize = if n > 0 && value[0] == '-' {
        1
    } else {
        0
    };
    let ghost w = strip_minus(value@);
    assert(w =~= value@.subrange(lo as int, n as int));
    if lo == n {
        return false;
    }
    let mut k = lo;
    while k < n && value[k] != '.'
        invariant
            lo <= k <= n == value.len(),
            forall|j: int| lo <= j < k ==> value@[j] != '.',
        decreases n - k,
    {
        k += 1;
    }
    if k == n {
        proof {
            assert forall|j: int| 0 <= j < w.len() implies w[j] != '.' by {
                assert(w[j] == value@[lo + j]);
            }
            lemma_no_dot(w);
        }
        all_ascii_digits(value, lo, n)
    } else {
        let whole = all_ascii_digits(value, lo, k);
        let fraction = all_ascii_digits(value, k + 1, n);
        proof {
            let m = k - lo;
            assert(w.take(m) =~= value@.subrange(lo as int, k as int));
            assert(w.skip(m + 1) =~= value@.subrange(k + 1, n as int));
            assert forall|j: int| 0 <= j < m implies w[j] != '.' by {
                assert(w[j] == value@[lo + j]);
            }
            lemma_decimal_at_first_dot(w, m);
        }
        (k > lo || k + 1 < n) && whole && fraction
    }
}

fn is_bare_value(value: &Vec<char>) -> (r: bool)
    ensures
        r == spec_is_bare_value(value@),
{
    let n = value.len();
    let is_true = n == 4 && value[0] == 't' && value[1] == 'r' && value[2] == 'u' && value[3]
        == 'e';
    let is_false = n == 5 && value[0] == 'f' && value[1] == 'a' && value[2] == 'l' && value[3]
        == 's' && value[4] == 'e';
    proof {
        if is_true {
            assert(value@ =~= seq!['t', 'r', 'u', 'e']);
        }
        if is_false {
            assert(value@ =~= seq!['f', 'a', 'l', 's', 'e']);
        }
        if value@ == seq!['t', 'r', 'u', 'e'] {
            assert(value@[3] == 'e');
        }
        if value@ == seq!['f', 'a', 'l', 's', 'e'] {
            assert(value@[4] == 'e');
        }
    }
    is_true || is_false || is_number(value)
}

fn quote_value(value: &Vec<char>) -> (r: Vec<char>)
    ensures
        r@ == spec_quote_value(value@),
{
    let mut quoted: Vec<char> = Vec::new();
    quoted.push('"');
    for i in 0..value.len()
        invariant
            quoted@ == seq!['"'] + escape(value@.take(i as int)),
    {
        let ch = value[i];
        assert(value@.take(i + 1).drop_last() =~= value@.take(i as int));
        if ch == '\\' || ch == '"' {
            quoted.push('\\');
        }
        quoted.push(ch);
        assert(quoted@ =~= seq!['"'] + escape(value@.take(i + 1)));
    }
    assert(value@.take(value.len() as int) =~= value@);
    quoted.push('"');
    quoted
}

fn can_be_bare_token(token: &Vec<char>) -> (r: bool)
    ensures
        r == can_be_bare(token@),
{
    let n = token.len();
    if n == 0 {
        return false;
    }
    let mut i: usize = 0;
    while i < n
        invariant
            n == token.len(),
            i <= n,
            forall|j: int| 0 <= j < i ==> bare_char(#[trigger] token@[j]),
            forall|j: int| 0 <= j < i ==> !(#[trigger] starts_comment(token@, j)),
        decreases n - i,
    {
        let ch = token[i];
        if starts_line_comment(token, i) {
            assert(starts_comment(token@, i as int));
            return false;
        }
        if char_is_ws(ch) || char_is_control(ch) || ch == '"' || ch == '{' || ch == '}' {
            assert(!bare_char(token@[i as int]));
            return false;
        }
        i += 1;
    }
    assert(!contains_comment_start(token@));
    true
}

/// Drops the quotes of a key whose text can stand bare.
pub fn normalize_key(token: &Vec<char>) -> (r: Vec<char>)
    ensures
        r@ == spec_normalize_key(token@),
{
    match without_surrounding_quotes(token) {
        Some(k) => if can_be_bare_token(&k) {
            k
        } else {
            token.clone()
        },
        None => token.clone(),
    }
}

fn normalize_one_value_token(token: &Vec<char>, bare_literals: bool) -> (r: Vec<char>)
    ensures
        r@ == spec_normalize_one_value(token@, bare_literals),
{
    if let Some(unquoted) = without_surrounding_quotes(token) {
        if bare_literals && is_bare_value(&unquoted) {
            unquoted
        } else {
            token.clone()
        }
    } else if bare_literals && is_bare_value(token) {
        token.clone()
    } else {
        quote_value(token)
    }
}

/// The value of a pair: one token normalized, or several joined by spaces and quoted.
pub fn normalize_value_tokens(tokens: &Vec<Vec<char>>, bare_literals: bool) -> (r: Vec<char>)
    ensures
        r@ == spec_normalize_value_tokens(view_words(tokens@), bare_literals),
{
    let value = join_chars(tokens, ' ');
    if tokens.len() == 1 {
        normalize_one_value_token(&value, bare_literals)
    } else {
        quote_value(&value)
    }
}

fn disabled_pair_body(comment: &Vec<char>) -> (r: Option<Vec<char>>)
    ensures
        view_opt(r) == disabled_body(comment@),
{
    let n = comment.len();
    if n >= 2 && comment[0] == '/' && comment[1] == '/' {
        let ghost rest = comment@.skip(2);
        if n > 2 && comment[2] == ' ' {
            let r = slice_chars(comment, 3, n);
            assert(r@ =~= rest.skip(1));
            Some(r)
        } else {
            let r = slice_chars(comment, 2, n);
            assert(r@ =~= rest);
            Some(r)
        }
    } else {
        None
    }
}

fn is_disabled_pair_key(token: &Vec<char>) -> (r: bool)
    ensures
        r == is_disabled_key(token@),
{
    let k = match without_surrounding_quotes(token) {
        Some(u) => u,
        None => token.clone(),
    };
    let n = k.len();
    if n == 0 {
        return false;
    }
    if !(char_is_ascii_alpha(k[0]) || k[0] == '_') {
        return false;
    }
    let mut i: usize = 1;
    while i < n
        invariant
            n == k.len(),
            1 <= i <= n,
            k@ == unquoted(token@),
            forall|j: int| 1 <= j < i ==> key_char(#[trigger] k@[j]),
        decreases n - i,
    {
        let ch = k[i];
        if !(char_is_ascii_alnum(ch) || ch == '_' || ch == '.' || ch == ':' || ch == '-') {
            assert(!key_char(k@[i as int]));
            return false;
        }
        i += 1;
    }
    true
}

fn is_disabled_pair_value(token: &Vec<char>) -> (r: bool)
    ensures
        r == is_disabled_value(token@),
{
    is_quoted_token(token) || is_bare_value(token)
}

fn two_word_tokens(tokens: &Vec<LineToken>) -> (r: Option<(&Vec<char>, &Vec<char>)>)
    ensures
        match r {
            Some((a, b)) => view_tokens(tokens@).len() == 2 && view_tokens(tokens@)[0] == Token::Word(
                a@,
            ) && view_tokens(tokens@)[1] == Token::Word(b@),
            None => !(view_tokens(tokens@).len() == 2 && view_tokens(tokens@)[0] is Word
                && view_tokens(tokens@)[1] is Word),
        },
{
    if tokens.len() != 2 {
        return None;
    }
    match (&tokens[0], &tokens[1]) {
        (LineToken::Word(first), LineToken::Word(second)) => Some((first, second)),
        _ => None,
    }
}

/// Reads a comment such as `//key "value"` as a pair, if it is one.
pub fn parse_disabled_pair(comment: &Vec<char>, bare_literals: bool) -> (r: Option<DisabledPair>)
    ensures
        match r {
            Some(p) => spec_parse_disabled_pair(comment@, bare_literals) == Some(p@),
            None => spec_parse_disabled_pair(comment@, bare_literals) is None,
        },
{
    let body = match disabled_pair_body(comment) {
        Some(b) => b,
        None => return None,
    };
    let parsed = match parse_line(&body) {
        Ok(p) => p,
        Err(_) => return None,
    };
    let (key, value) = match two_word_tokens(&parsed.tokens) {
        Some(kv) => kv,
        None => return None,
    };
    if !is_disabled_pair_key(key) || !is_disabled_pair_value(value) {
        return None;
    }
    Some(
        DisabledPair {
            key: normalize_key(key),
            value: normalize_one_value_token(value, bare_literals),
            trailing_comment: parsed.trailing_comment,
        },
    )
}

} // verus!
