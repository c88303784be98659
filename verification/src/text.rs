//! Characters and text: Unicode whitespace and control classes, UTF-8 byte widths, and the
//! conversions between `&str`, `String` and the character vectors the formatter works on.

use vstd::prelude::*;

verus! {

/// Unicode `White_Space` code points: the characters that `char::is_whitespace` accepts.
pub open spec fn is_ws(c: char) -> bool {
    let v = c as u32;
    ||| 0x09 <= v <= 0x0d
    ||| v == 0x20
    ||| v == 0x85
    ||| v == 0xa0
    ||| v == 0x1680
    ||| 0x2000 <= v <= 0x200a
    ||| v == 0x2028
    ||| v == 0x2029
    ||| v == 0x202f
    ||| v == 0x205f
    ||| v == 0x3000
}

/// Unicode general category `Cc`: the characters that `char::is_control` accepts.
pub open spec fn is_control(c: char) -> bool {
    let v = c as u32;
    v <= 0x1f || (0x7f <= v <= 0x9f)
}

pub open spec fn is_ascii_digit(c: char) -> bool {
    '0' <= c <= '9'
}

pub open spec fn is_ascii_alpha(c: char) -> bool {
    ('a' <= c <= 'z') || ('A' <= c <= 'Z')
}

pub open spec fn is_ascii_alnum(c: char) -> bool {
    is_ascii_alpha(c) || is_ascii_digit(c)
}

/// Number of bytes of the UTF-8 encoding of `c`.
pub open spec fn char_width(c: char) -> nat {
    let v = c as u32;
    if v < 0x80 {
        1
    } else if v < 0x800 {
        2
    } else if v < 0x10000 {
        3
    } else {
        4
    }
}

/// Number of bytes of the UTF-8 encoding of `s`: the width by which lines are aligned.
pub open spec fn text_width(s: Seq<char>) -> nat
    decreases s.len(),
{
    if s.len() == 0 {
        0
    } else {
        text_width(s.drop_last()) + char_width(s.last())
    }
}

pub proof fn lemma_text_width_bound(s: Seq<char>)
    ensures
        text_width(s) <= 4 * s.len(),
    decreases s.len(),
{
    if s.len() > 0 {
        lemma_text_width_bound(s.drop_last());
    }
}

pub proof fn lemma_text_width_concat(a: Seq<char>, b: Seq<char>)
    ensures
        text_width(a + b) == text_width(a) + text_width(b),
    decreases b.len(),
{
    if b.len() == 0 {
        assert(a + b =~= a);
    } else {
        assert((a + b).drop_last() =~= a + b.drop_last());
        lemma_text_width_concat(a, b.drop_last());
    }
}

pub proof fn lemma_text_width_empty_iff(s: Seq<char>)
    ensures
        (text_width(s) == 0) <==> (s.len() == 0),
    decreases s.len(),
{
    if s.len() > 0 {
        lemma_text_width_empty_iff(s.drop_last());
    }
}

pub fn char_is_ws(c: char) -> (r: bool)
    ensures
        r == is_ws(c),
{
    let v = c as u32;
    (0x09 <= v && v <= 0x0d) || v == 0x20 || v == 0x85 || v == 0xa0 || v == 0x1680 || (0x2000
        <= v && v <= 0x200a) || v == 0x2028 || v == 0x2029 || v == 0x202f || v == 0x205f || v
        == 0x3000
}

pub fn char_is_control(c: char) -> (r: bool)
    ensures
        r == is_control(c),
{
    let v = c as u32;
    v <= 0x1f || (0x7f <= v && v <= 0x9f)
}

pub fn char_is_ascii_digit(c: char) -> (r: bool)
    ensures
        r == is_ascii_digit(c),
{
    '0' <= c && c <= '9'
}

pub fn char_is_ascii_alpha(c: char) -> (r: bool)
    ensures
        r == is_ascii_alpha(c),
{
    ('a' <= c && c <= 'z') || ('A' <= c && c <= 'Z')
}

pub fn char_is_ascii_alnum(c: char) -> (r: bool)
    ensures
        r == is_ascii_alnum(c),
{
    char_is_ascii_alpha(c) || char_is_ascii_digit(c)
}

pub fn char_width_of(c: char) -> (r: u128)
    ensures
        r == char_width(c),
{
    let v = c as u32;
    if v < 0x80 {
        1
    } else if v < 0x800 {
        2
    } else if v < 0x10000 {
        3
    } else {
        4
    }
}

/// Byte width of the UTF-8 encoding of `v`.
pub fn width_of(v: &Vec<char>) -> (r: u128)
    ensures
        r == text_width(v@),
        r <= 4 * v@.len(),
        v@.len() <= usize::MAX,
{
    let mut w: u128 = 0;
    for i in 0..v.len()
        invariant
            w == text_width(v@.take(i as int)),
            i <= v.len(),
    {
        proof {
            assert(v@.take(i + 1).drop_last() =~= v@.take(i as int));
            lemma_text_width_bound(v@.take(i as int));
        }
        w = w + char_width_of(v[i]);
    }
    assert(v@.take(v.len() as int) =~= v@);
    proof {
        lemma_text_width_bound(v@);
    }
    w
}

/// The characters of a string slice, in order.
pub fn chars_of(s: &str) -> (v: Vec<char>)
    ensures
        v@ == s@,
{
    let mut v: Vec<char> = Vec::new();
    for c in it: s.chars()
        invariant
            v@ == it.seq().take(it.index() as int),
    {
        v.push(c);
    }
    v
}

/// `String::push`: appends one character.
#[verifier::external_body]
fn string_push(s: &mut String, c: char)
    ensures
        final(s)@ == old(s)@.push(c),
{
    s.push(c);
}

/// The string whose characters are those of `v`.
pub fn string_of(v: &Vec<char>) -> (s: String)
    ensures
        s@ == v@,
{
    let mut s = String::new();
    for i in 0..v.len()
        invariant
            s@ == v@.take(i as int),
    {
        string_push(&mut s, v[i]);
        assert(v@.take(i + 1) == v@.take(i as int).push(v@[i as int]));
    }
    assert(v@.take(v.len() as int) == v@);
    s
}

/// The characters `v[lo..hi]`.
pub fn slice_chars(v: &Vec<char>, lo: usize, hi: usize) -> (r: Vec<char>)
    requires
        lo <= hi <= v.len(),
    ensures
        r@ == v@.subrange(lo as int, hi as int),
{
    let mut r: Vec<char> = Vec::new();
    let mut i = lo;
    while i < hi
        invariant
            lo <= i <= hi <= v.len(),
            r@ == v@.subrange(lo as int, i as int),
        decreases hi - i,
    {
        r.push(v[i]);
        i += 1;
        assert(r@ =~= v@.subrange(lo as int, i as int));
    }
    r
}

/// Appends the characters of `src` to `dst`.
pub fn append_chars(dst: &mut Vec<char>, src: &Vec<char>)
    ensures
        final(dst)@ == old(dst)@ + src@,
{
    for i in 0..src.len()
        invariant
            dst@ == old(dst)@ + src@.take(i as int),
    {
        dst.push(src[i]);
        assert(old(dst)@ + src@.take(i + 1) =~= old(dst)@ + src@.take(i as int) + seq![src@[i as int]]);
    }
    assert(src@.take(src.len() as int) =~= src@);
}

/// Appends `n` copies of `c` to `dst`.
pub fn push_repeat(dst: &mut Vec<char>, c: char, n: u128)
    ensures
        final(dst)@ == old(dst)@ + Seq::new(n as nat, |_i: int| c),
{
    let mut k: u128 = 0;
    while k < n
        invariant
            k <= n,
            dst@ == old(dst)@ + Seq::new(k as nat, |_i: int| c),
        decreases n - k,
    {
        dst.push(c);
        k += 1;
        assert(dst@ =~= old(dst)@ + Seq::new(k as nat, |_i: int| c));
    }
}


pub open spec fn view_words(s: Seq<Vec<char>>) -> Seq<Seq<char>> {
    s.map_values(|w: Vec<char>| w@)
}

/// The pieces joined, with `sep` between each two.
pub open spec fn join_with(ws: Seq<Seq<char>>, sep: char) -> Seq<char>
    decreases ws.len(),
{
    if ws.len() == 0 {
        Seq::empty()
    } else if ws.len() == 1 {
        ws[0]
    } else {
        join_with(ws.drop_last(), sep) + seq![sep] + ws.last()
    }
}

/// `n` spaces.
pub open spec fn spaces(n: nat) -> Seq<char> {
    Seq::new(n, |_i: int| ' ')
}

pub fn join_chars(pieces: &Vec<Vec<char>>, sep: char) -> (r: Vec<char>)
    ensures
        r@ == join_with(view_words(pieces@), sep),
{
    let mut out: Vec<char> = Vec::new();
    for i in 0..pieces.len()
        invariant
            out@ == join_with(view_words(pieces@).take(i as int), sep),
    {
        let ghost before = view_words(pieces@).take(i as int);
        let ghost after = view_words(pieces@).take(i + 1);
        assert(after.drop_last() =~= before);
        if i > 0 {
            out.push(sep);
        }
        append_chars(&mut out, &pieces[i]);
        proof {
            if i == 0 {
                assert(out@ =~= after[0]);
            } else {
                assert(out@ =~= join_with(before, sep) + seq![sep] + after.last());
            }
        }
    }
    assert(view_words(pieces@).take(pieces.len() as int) =~= view_words(pieces@));
    out
}

} // verus!
