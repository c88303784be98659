//! Columns: every maximal run of adjacent pairs at one depth puts its values into one
//! column, and every maximal run of adjacent lines at one depth that have code and a comment
//! puts its comments into one column.

use vstd::prelude::*;

use crate::formatter::{
    align_comments, comment_run, is_pair, key_width, lemma_comment_run_bounds,
    lemma_max_code_width, lemma_max_key_width, lemma_pair_run_bounds, line_text, max_code_width,
    max_key_width, pad_code, pad_group, pair_run, render_code, render_pair, render_pairs,
    render_single, spec_render_lines, Body, Line, Rendered,
};
use crate::properties::lemma_spaces_width;
use crate::text::{lemma_text_width_concat, spaces, text_width};

verus! {

/// A line with code before its trailing comment.
pub open spec fn code_and_comment(r: Rendered) -> bool {
    r.comment is Some && r.code.len() > 0
}

/// `rs[s..e]` is a run of lines at one depth that each have code and a comment, and neither
/// the line before nor the line after could join it.
pub open spec fn whole_run(rs: Seq<Rendered>, s: int, e: int) -> bool {
    &&& 0 <= s
    &&& s + 1 <= e <= rs.len()
    &&& forall|k: int| s <= k < e ==> code_and_comment(#[trigger] rs[k]) && rs[k].indent == rs[s].indent
    &&& s == 0 || !(code_and_comment(rs[s - 1]) && rs[s - 1].indent == rs[s].indent)
    &&& e == rs.len() || !(code_and_comment(rs[e]) && rs[e].indent == rs[s].indent)
}

/// Such a run of two or more lines.
pub open spec fn maximal_run(rs: Seq<Rendered>, s: int, e: int) -> bool {
    whole_run(rs, s, e) && s + 2 <= e
}

pub proof fn lemma_align_len(rs: Seq<Rendered>)
    ensures
        align_comments(rs).len() == rs.len(),
    decreases rs.len(),
{
    if rs.len() > 0 {
        if !crate::formatter::can_align(rs[0]) {
            lemma_align_len(rs.skip(1));
        } else {
            lemma_comment_run_bounds(rs, rs[0].indent);
            let n = comment_run(rs, rs[0].indent);
            lemma_align_len(rs.skip(n as int));
        }
    }
}

pub proof fn lemma_comment_run_exact(rs: Seq<Rendered>, ind: nat, e: int)
    requires
        0 <= e <= rs.len(),
        forall|k: int| 0 <= k < e ==> code_and_comment(#[trigger] rs[k]) && rs[k].indent == ind,
        e == rs.len() || !(code_and_comment(rs[e]) && rs[e].indent == ind),
    ensures
        comment_run(rs, ind) == e,
    decreases e,
{
    if e > 0 {
        assert(code_and_comment(rs[0]) && rs[0].indent == ind);
        let t = rs.skip(1);
        assert forall|k: int| 0 <= k < e - 1 implies code_and_comment(#[trigger] t[k]) && t[k].indent
            == ind by {
            assert(t[k] == rs[k + 1]);
        }
        if e < rs.len() {
            assert(t[e - 1] == rs[e]);
        }
        lemma_comment_run_exact(t, ind, e - 1);
    }
}

/// The widest code of a nonempty list is the code of one of its lines.
pub proof fn lemma_max_code_width_attained(g: Seq<Rendered>) -> (j: int)
    requires
        g.len() > 0,
    ensures
        0 <= j < g.len(),
        max_code_width(g) == text_width(g[j].code),
    decreases g.len(),
{
    if g.len() == 1 {
        assert(g.skip(1).len() == 0);
        assert(max_code_width(g.skip(1)) == 0);
        0
    } else {
        let j = lemma_max_code_width_attained(g.skip(1));
        if text_width(g[0].code) >= max_code_width(g.skip(1)) {
            0
        } else {
            assert(g.skip(1)[j] == g[j + 1]);
            j + 1
        }
    }
}

/// Inside a whole run, the aligned lines are the run's lines padded to its widest code.
#[verifier::spinoff_prover]
#[verifier::rlimit(40)]
pub proof fn lemma_align_run(rs: Seq<Rendered>, s: int, e: int)
    requires
        whole_run(rs, s, e),
    ensures
        align_comments(rs).len() == rs.len(),
        forall|k: int|
            s <= k < e ==> #[trigger] align_comments(rs)[k] == pad_code(
                rs[k],
                max_code_width(rs.subrange(s, e)),
            ),
    decreases rs.len(),
{
    lemma_align_len(rs);
    let al = align_comments(rs);
    let ind = rs[s].indent;
    assert(code_and_comment(rs[s]));
    if s == 0 {
        lemma_comment_run_exact(rs, ind, e);
        assert(comment_run(rs, rs[0].indent) == e);
        let g = rs.take(e);
        assert(g =~= rs.subrange(0, e));
        lemma_align_len(rs.skip(e));
        assert(al =~= pad_group(g) + align_comments(rs.skip(e)));
        if e == 1 {
            let g1 = rs.subrange(0, 1);
            assert(g1.skip(1).len() == 0);
            assert(max_code_width(g1.skip(1)) == 0);
            assert(g1[0] == rs[0]);
            assert(max_code_width(g1) == text_width(rs[0].code));
            assert(rs[0].code + spaces(0) =~= rs[0].code);
        }
        assert forall|k: int| s <= k < e implies #[trigger] al[k] == pad_code(
            rs[k],
            max_code_width(rs.subrange(s, e)),
        ) by {
            assert(al[k] == pad_group(g)[k]);
            assert(g[k] == rs[k]);
        }
    } else {
        let n: int = if !code_and_comment(rs[0]) {
            1
        } else {
            lemma_comment_run_bounds(rs, rs[0].indent);
            comment_run(rs, rs[0].indent) as int
        };
        let first = if !code_and_comment(rs[0]) {
            seq![rs[0]]
        } else {
            pad_group(rs.take(n))
        };
        if code_and_comment(rs[0]) {
            if n > s {
                crate::formatter::lemma_comment_run_members(rs, rs[0].indent, s - 1);
                crate::formatter::lemma_comment_run_members(rs, rs[0].indent, s);
                assert(false);
            }
        }
        assert(1 <= n <= s);
        assert(first.len() == n);
        let t = rs.skip(n);
        assert(al =~= first + align_comments(t));
        assert forall|k: int| s - n <= k < e - n implies code_and_comment(#[trigger] t[k]) && t[k].indent
            == t[s - n].indent by {
            assert(t[k] == rs[k + n]);
            assert(t[s - n] == rs[s]);
        }
        assert(t[s - n] == rs[s]);
        if s - n > 0 {
            assert(t[s - n - 1] == rs[s - 1]);
        }
        if e - n < t.len() {
            assert(t[e - n] == rs[e]);
        }
        assert(whole_run(t, s - n, e - n));
        lemma_align_run(t, s - n, e - n);
        assert(t.subrange(s - n, e - n) =~= rs.subrange(s, e));
        assert forall|k: int| s <= k < e implies #[trigger] al[k] == pad_code(
            rs[k],
            max_code_width(rs.subrange(s, e)),
        ) by {
            assert(al[k] == align_comments(t)[k - n]);
            assert(t[k - n] == rs[k]);
        }
    }
}

pub proof fn lemma_align_keeps_uncommented(rs: Seq<Rendered>, k: int)
    requires
        0 <= k < rs.len(),
        !code_and_comment(rs[k]),
    ensures
        align_comments(rs)[k] == rs[k],
    decreases rs.len(),
{
    let al = align_comments(rs);
    if !code_and_comment(rs[0]) {
        lemma_align_len(rs.skip(1));
        assert(al =~= seq![rs[0]] + align_comments(rs.skip(1)));
        if k > 0 {
            lemma_align_keeps_uncommented(rs.skip(1), k - 1);
            assert(al[k] == align_comments(rs.skip(1))[k - 1]);
        }
    } else {
        lemma_comment_run_bounds(rs, rs[0].indent);
        let n = comment_run(rs, rs[0].indent) as int;
        if k < n {
            crate::formatter::lemma_comment_run_members(rs, rs[0].indent, k);
        }
        let first = pad_group(rs.take(n));
        assert(first.len() == n);
        lemma_align_len(rs.skip(n));
        assert(al =~= first + align_comments(rs.skip(n)));
        lemma_align_keeps_uncommented(rs.skip(n), k - n);
        assert(al[k] == align_comments(rs.skip(n))[k - n]);
    }
}

/// A line without code or without a comment, and a commented line that no neighbour at its
/// depth could join, is laid out as it was: only runs of two or more lines are padded.
pub proof fn law_lone_lines_are_not_padded(rs: Seq<Rendered>, k: int)
    requires
        0 <= k < rs.len(),
        !code_and_comment(rs[k]) || whole_run(rs, k, k + 1),
    ensures
        align_comments(rs).len() == rs.len(),
        align_comments(rs)[k] == rs[k],
{
    lemma_align_len(rs);
    if code_and_comment(rs[k]) {
        lemma_align_run(rs, k, k + 1);
        let g = rs.subrange(k, k + 1);
        assert(g.skip(1).len() == 0);
        assert(max_code_width(g.skip(1)) == 0);
        assert(max_code_width(g) == text_width(g[0].code));
        assert(g[0] == rs[k]);
        assert(rs[k].code + spaces(0) =~= rs[k].code);
    } else {
        lemma_align_keeps_uncommented(rs, k);
    }
}

/// Every maximal run of two or more adjacent lines at one depth that each have code and a
/// trailing comment keeps its lines' code and comments, pads each code to the run's widest
/// code, and so starts every comment at the same byte column, one space after that width;
/// the widest line itself gets no padding.
pub proof fn law_trailing_comments_share_a_column(rs: Seq<Rendered>, s: int, e: int)
    requires
        maximal_run(rs, s, e),
    ensures
        align_comments(rs).len() == rs.len(),
        forall|k: int|
            s <= k < e ==> {
                let out = #[trigger] align_comments(rs)[k];
                &&& out.indent == rs[k].indent
                &&& out.comment == rs[k].comment
                &&& out.code.take(rs[k].code.len() as int) == rs[k].code
                &&& text_width(rs[k].code) <= text_width(out.code)
                &&& text_width(out.code) == max_code_width(rs.subrange(s, e))
                &&& line_text(out) == out.code + seq![' '] + rs[k].comment->Some_0
            },
        forall|k1: int, k2: int|
            s <= k1 < e && s <= k2 < e ==> text_width(#[trigger] align_comments(rs)[k1].code)
                == text_width(#[trigger] align_comments(rs)[k2].code),
        exists|j: int| s <= j < e && #[trigger] align_comments(rs)[j] == rs[j],
{
    lemma_align_run(rs, s, e);
    let g = rs.subrange(s, e);
    let w = max_code_width(g);
    let j = lemma_max_code_width_attained(g);
    assert(g[j] == rs[s + j]);
    assert(rs[s + j].code + spaces(0) =~= rs[s + j].code);
    assert(align_comments(rs)[s + j] == rs[s + j]);
    assert forall|k: int| s <= k < e implies {
        let out = #[trigger] align_comments(rs)[k];
        &&& out.indent == rs[k].indent
        &&& out.comment == rs[k].comment
        &&& out.code.take(rs[k].code.len() as int) == rs[k].code
        &&& text_width(rs[k].code) <= text_width(out.code)
        &&& text_width(out.code) == w
        &&& line_text(out) == out.code + seq![' '] + rs[k].comment->Some_0
    } by {
        let r = rs[k];
        assert(g[k - s] == r);
        lemma_max_code_width(g, k - s);
        let pad = spaces((w - text_width(r.code)) as nat);
        lemma_spaces_width((w - text_width(r.code)) as nat);
        lemma_text_width_concat(r.code, pad);
        let out = align_comments(rs)[k];
        assert(out.code == r.code + pad);
        assert(out.code.take(r.code.len() as int) =~= r.code);
        assert(code_and_comment(r));
    }
}

/// The same column in the rendered text: for lines laid out from `ls`, each line of such a
/// run reads as a prefix of one common byte width, a space, and the line's own comment.
pub proof fn law_rendered_comments_share_a_column(ls: Seq<Line>, s: int, e: int)
    requires
        maximal_run(render_code(ls), s, e),
    ensures
        spec_render_lines(ls).len() == render_code(ls).len(),
        forall|k: int|
            s <= k < e ==> {
                let t = #[trigger] spec_render_lines(ls)[k];
                let c = render_code(ls)[k].comment->Some_0;
                &&& t.len() >= c.len() + 1
                &&& t.skip(t.len() - c.len()) == c
                &&& t[t.len() - c.len() - 1] == ' '
                &&& text_width(t.take(t.len() - c.len() - 1)) == max_code_width(
                    render_code(ls).subrange(s, e),
                )
            },
{
    let rs = render_code(ls);
    law_trailing_comments_share_a_column(rs, s, e);
    assert forall|k: int| s <= k < e implies {
        let t = #[trigger] spec_render_lines(ls)[k];
        let c = render_code(ls)[k].comment->Some_0;
        &&& t.len() >= c.len() + 1
        &&& t.skip(t.len() - c.len()) == c
        &&& t[t.len() - c.len() - 1] == ' '
        &&& text_width(t.take(t.len() - c.len() - 1)) == max_code_width(
            render_code(ls).subrange(s, e),
        )
    } by {
        let out = align_comments(rs)[k];
        let c = rs[k].comment->Some_0;
        let t = spec_render_lines(ls)[k];
        assert(t == line_text(out));
        assert(t == out.code + seq![' '] + c);
        assert(t.skip(t.len() - c.len()) =~= c);
        assert(t.take(t.len() - c.len() - 1) =~= out.code);
    }
}

// ---------------------------------------------------------------------------
// Values of adjacent pairs
// ---------------------------------------------------------------------------

/// A key/value line, active or commented out.
pub open spec fn pair_line(l: Line) -> bool {
    l.body is ActivePair || l.body is DisabledPair
}

/// What a pair's key is preceded by: `// ` when it is commented out, nothing otherwise.
pub open spec fn lead_of(l: Line) -> Seq<char> {
    if l.body is DisabledPair {
        seq!['/', '/', ' ']
    } else {
        Seq::empty()
    }
}

pub open spec fn key_of(l: Line) -> Seq<char> {
    match l.body {
        Body::ActivePair { key, .. } => key,
        Body::DisabledPair { key, .. } => key,
        _ => Seq::empty(),
    }
}

pub open spec fn value_of(l: Line) -> Seq<char> {
    match l.body {
        Body::ActivePair { value, .. } => value,
        Body::DisabledPair { value, .. } => value,
        _ => Seq::empty(),
    }
}

/// Byte width of what precedes a pair's value: its lead and its key.
pub open spec fn lead_key_width(l: Line) -> nat {
    text_width(lead_of(l)) + text_width(key_of(l))
}

/// `ls[s..e]` is a run of pairs at one depth that neither the line before nor the line after
/// could join.
pub open spec fn whole_pair_run(ls: Seq<Line>, s: int, e: int) -> bool {
    &&& 0 <= s
    &&& s + 1 <= e <= ls.len()
    &&& forall|k: int| s <= k < e ==> pair_line(#[trigger] ls[k]) && ls[k].indent == ls[s].indent
    &&& s == 0 || !(pair_line(ls[s - 1]) && ls[s - 1].indent == ls[s].indent)
    &&& e == ls.len() || !(pair_line(ls[e]) && ls[e].indent == ls[s].indent)
}

pub proof fn lemma_render_code_len(ls: Seq<Line>)
    ensures
        render_code(ls).len() == ls.len(),
    decreases ls.len(),
{
    if ls.len() > 0 {
        if is_pair(ls[0].body) {
            lemma_pair_run_bounds(ls, ls[0].indent);
            lemma_render_code_len(ls.skip(pair_run(ls, ls[0].indent) as int));
        } else {
            lemma_render_code_len(ls.skip(1));
        }
    }
}

pub proof fn lemma_pair_run_exact(ls: Seq<Line>, ind: nat, e: int)
    requires
        0 <= e <= ls.len(),
        forall|k: int| 0 <= k < e ==> pair_line(#[trigger] ls[k]) && ls[k].indent == ind,
        e == ls.len() || !(pair_line(ls[e]) && ls[e].indent == ind),
    ensures
        pair_run(ls, ind) == e,
    decreases e,
{
    if e > 0 {
        assert(pair_line(ls[0]) && ls[0].indent == ind);
        let t = ls.skip(1);
        assert forall|k: int| 0 <= k < e - 1 implies pair_line(#[trigger] t[k]) && t[k].indent
            == ind by {
            assert(t[k] == ls[k + 1]);
        }
        if e < ls.len() {
            assert(t[e - 1] == ls[e]);
        }
        lemma_pair_run_exact(t, ind, e - 1);
    }
}

/// Inside a whole run of pairs, each line is laid out against the run's widest key; every
/// other line is laid out on its own.
#[verifier::spinoff_prover]
#[verifier::rlimit(40)]
pub proof fn lemma_render_run(ls: Seq<Line>, s: int, e: int)
    requires
        whole_pair_run(ls, s, e),
    ensures
        render_code(ls).len() == ls.len(),
        forall|k: int|
            s <= k < e ==> #[trigger] render_code(ls)[k] == render_pair(
                ls[k],
                max_key_width(ls.subrange(s, e)),
            ),
    decreases ls.len(),
{
    lemma_render_code_len(ls);
    let rc = render_code(ls);
    let ind = ls[s].indent;
    assert(pair_line(ls[s]));
    if s == 0 {
        lemma_pair_run_exact(ls, ind, e);
        let g = ls.take(e);
        assert(g =~= ls.subrange(0, e));
        lemma_render_code_len(ls.skip(e));
        assert(rc =~= render_pairs(g) + render_code(ls.skip(e)));
        assert forall|k: int| s <= k < e implies #[trigger] rc[k] == render_pair(
            ls[k],
            max_key_width(ls.subrange(s, e)),
        ) by {
            assert(rc[k] == render_pairs(g)[k]);
            assert(g[k] == ls[k]);
        }
    } else {
        let n: int = if !pair_line(ls[0]) {
            1
        } else {
            lemma_pair_run_bounds(ls, ls[0].indent);
            pair_run(ls, ls[0].indent) as int
        };
        let first = if !pair_line(ls[0]) {
            seq![render_single(ls[0])]
        } else {
            render_pairs(ls.take(n))
        };
        if pair_line(ls[0]) {
            if n > s {
                crate::formatter::lemma_pair_run_members(ls, ls[0].indent, s - 1);
                crate::formatter::lemma_pair_run_members(ls, ls[0].indent, s);
                assert(false);
            }
        }
        assert(1 <= n <= s);
        assert(first.len() == n);
        let t = ls.skip(n);
        lemma_render_code_len(t);
        assert(rc =~= first + render_code(t));
        assert forall|k: int| s - n <= k < e - n implies pair_line(#[trigger] t[k]) && t[k].indent
            == t[s - n].indent by {
            assert(t[k] == ls[k + n]);
            assert(t[s - n] == ls[s]);
        }
        assert(t[s - n] == ls[s]);
        if s - n > 0 {
            assert(t[s - n - 1] == ls[s - 1]);
        }
        if e - n < t.len() {
            assert(t[e - n] == ls[e]);
        }
        assert(whole_pair_run(t, s - n, e - n));
        lemma_render_run(t, s - n, e - n);
        assert(t.subrange(s - n, e - n) =~= ls.subrange(s, e));
        assert forall|k: int| s <= k < e implies #[trigger] rc[k] == render_pair(
            ls[k],
            max_key_width(ls.subrange(s, e)),
        ) by {
            assert(rc[k] == render_code(t)[k - n]);
            assert(t[k - n] == ls[k]);
        }
    }
}

/// The widest key of a nonempty list of lines is the key of one of them.
pub proof fn lemma_max_key_width_attained(g: Seq<Line>) -> (j: int)
    requires
        g.len() > 0,
    ensures
        0 <= j < g.len(),
        max_key_width(g) == key_width(g[j].body),
    decreases g.len(),
{
    if g.len() == 1 {
        assert(g.skip(1).len() == 0);
        assert(max_key_width(g.skip(1)) == 0);
        0
    } else {
        let j = lemma_max_key_width_attained(g.skip(1));
        if key_width(g[0].body) >= max_key_width(g.skip(1)) {
            0
        } else {
            assert(g.skip(1)[j] == g[j + 1]);
            j + 1
        }
    }
}

/// Every maximal run of adjacent pairs at one depth, active and commented-out pairs alike,
/// lays each pair out as its indentation, `// ` if it is commented out, its key, spaces, and
/// its value, with one common width `w` for the run: no pair's lead and key are wider than
/// `w`, one pair's are exactly `w` wide, and every value starts `w` plus one bytes after the
/// indentation. Comments stay with their lines.
pub proof fn law_pair_values_share_a_column_in_runs(ls: Seq<Line>, s: int, e: int)
    requires
        whole_pair_run(ls, s, e),
    ensures
        render_code(ls).len() == ls.len(),
        ({
            let w = max_key_width(ls.subrange(s, e));
            &&& forall|k: int| s <= k < e ==> lead_key_width(#[trigger] ls[k]) <= w
            &&& exists|j: int| s <= j < e && lead_key_width(#[trigger] ls[j]) == w
            &&& forall|k: int|
                s <= k < e ==> {
                    let r = #[trigger] render_code(ls)[k];
                    let l = ls[k];
                    &&& r.indent == l.indent
                    &&& r.comment == l.comment
                    &&& r.code == spaces(4 * l.indent) + lead_of(l) + key_of(l) + spaces(
                        (w - lead_key_width(l) + 1) as nat,
                    ) + value_of(l)
                    &&& text_width(r.code.take(r.code.len() - value_of(l).len())) == 4 * l.indent
                        + w + 1
                }
        }),
{
    lemma_render_run(ls, s, e);
    let g = ls.subrange(s, e);
    let w = max_key_width(g);
    assert forall|k: int| s <= k < e implies lead_key_width(#[trigger] ls[k]) <= w by {
        assert(g[k - s] == ls[k]);
        lemma_max_key_width(g, k - s);
        assert(pair_line(ls[k]));
    }
    let j = lemma_max_key_width_attained(g);
    assert(g[j] == ls[s + j]);
    assert(pair_line(ls[s + j]));
    assert(lead_key_width(ls[s + j]) == w);
    assert forall|k: int| s <= k < e implies {
        let r = #[trigger] render_code(ls)[k];
        let l = ls[k];
        &&& r.indent == l.indent
        &&& r.comment == l.comment
        &&& r.code == spaces(4 * l.indent) + lead_of(l) + key_of(l) + spaces(
            (w - lead_key_width(l) + 1) as nat,
        ) + value_of(l)
        &&& text_width(r.code.take(r.code.len() - value_of(l).len())) == 4 * l.indent + w + 1
    } by {
        let l = ls[k];
        assert(pair_line(l));
        assert(g[k - s] == l);
        lemma_max_key_width(g, k - s);
        let r = render_code(ls)[k];
        let a = spaces(4 * l.indent);
        let b = lead_of(l);
        let c = key_of(l);
        let d = spaces((w - lead_key_width(l) + 1) as nat);
        let v = value_of(l);
        let lead = a + b + c + d;
        assert(r.code =~= lead + v);
        assert(r.code.take(r.code.len() - v.len()) =~= lead);
        crate::properties::lemma_spaces_width(4 * l.indent);
        crate::properties::lemma_spaces_width((w - lead_key_width(l) + 1) as nat);
        lemma_text_width_concat(a, b);
        lemma_text_width_concat(a + b, c);
        lemma_text_width_concat(a + b + c, d);
    }
}

} // verus!
