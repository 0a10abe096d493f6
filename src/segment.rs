//! Splitting text into word and punctuation tokens.

use vstd::prelude::*;

verus! {

/// Unicode `White_Space` characters: the separators that split text and
/// are dropped from the output.
pub open spec fn is_space(c: char) -> bool {
    let u = c as u32;
    (0x09 <= u && u <= 0x0D) || u == 0x20 || u == 0x85 || u == 0xA0 || u == 0x1680
        || (0x2000 <= u && u <= 0x200A) || u == 0x2028 || u == 0x2029 || u == 0x202F
        || u == 0x205F || u == 0x3000
}

/// Punctuation marks that stand as tokens of their own.
pub open spec fn is_mark(c: char) -> bool {
    c == ',' || c == '.' || c == ':' || c == ';' || c == '?' || c == '_' || c == '!' || c == '"'
        || c == '(' || c == ')' || c == '\''
}

/// Length of the delimiter that starts at `i`: one for a mark or a space,
/// two for the dash pair `--`, zero where no delimiter starts.
pub open spec fn delimiter_len(s: Seq<char>, i: int) -> int {
    if is_mark(s[i]) || is_space(s[i]) {
        1
    } else if s[i] == '-' && i + 1 < s.len() && s[i + 1] == '-' {
        2
    } else {
        0
    }
}

/// The word `s[a..b)`, or nothing where the span is empty.
pub open spec fn word(s: Seq<char>, a: int, b: int) -> Seq<Seq<char>> {
    if a < b {
        seq![s.subrange(a, b)]
    } else {
        Seq::empty()
    }
}

/// Tokens of `s` from position `i` on, where the current word began at `start`.
pub open spec fn segment_from(s: Seq<char>, start: int, i: int) -> Seq<Seq<char>>
    decreases s.len() - i,
{
    if i >= s.len() || i < 0 {
        word(s, start, s.len() as int)
    } else if delimiter_len(s, i) == 0 {
        segment_from(s, start, i + 1)
    } else {
        let d = delimiter_len(s, i);
        let mark = if is_space(s[i]) {
            Seq::empty()
        } else {
            seq![s.subrange(i, i + d)]
        };
        word(s, start, i) + mark + segment_from(s, i + d, i + d)
    }
}

/// The tokens of `s` in order: each maximal run between delimiters, and
/// each delimiter that is not a space.
pub open spec fn segment(s: Seq<char>) -> Seq<Seq<char>> {
    segment_from(s, 0, 0)
}

pub open spec fn str_views<'a>(v: Seq<&'a str>) -> Seq<Seq<char>> {
    v.map_values(|t: &'a str| t@)
}

pub fn is_space_char(c: char) -> (r: bool)
    ensures
        r == is_space(c),
{
    let u = c as u32;
    (0x09 <= u && u <= 0x0D) || u == 0x20 || u == 0x85 || u == 0xA0 || u == 0x1680 || (0x2000
        <= u && u <= 0x200A) || u == 0x2028 || u == 0x2029 || u == 0x202F || u == 0x205F || u
        == 0x3000
}

pub fn is_mark_char(c: char) -> (r: bool)
    ensures
        r == is_mark(c),
{
    c == ',' || c == '.' || c == ':' || c == ';' || c == '?' || c == '_' || c == '!' || c == '"'
        || c == '(' || c == ')' || c == '\''
}

/// The characters of `s`, in order.
pub fn chars_of(s: &str) -> (r: Vec<char>)
    ensures
        r@ == s@,
{
    let n = s.unicode_len();
    let mut r: Vec<char> = Vec::new();
    let mut i: usize = 0;
    while i < n
        invariant
            n == s@.len(),
            i <= n,
            r@ == s@.subrange(0, i as int),
        decreases n - i,
    {
        r.push(s.get_char(i));
        i += 1;
    }
    assert(r@ =~= s@);
    r
}

fn delimiter_at(cs: &Vec<char>, i: usize) -> (d: usize)
    requires
        i < cs@.len(),
    ensures
        d as int == delimiter_len(cs@, i as int),
{
    let c = cs[i];
    if is_mark_char(c) || is_space_char(c) {
        1
    } else if c == '-' && i < cs.len() - 1 && cs[i + 1] == '-' {
        2
    } else {
        0
    }
}

/// Splits `s` into tokens: words, punctuation marks and `--`, in order;
/// runs of whitespace separate tokens and are dropped.
pub fn tokenize<'a>(s: &'a str) -> (r: Vec<&'a str>)
    ensures
        str_views(r@) == segment(s@),
{
    let cs = chars_of(s);
    let n = cs.len();
    let mut out: Vec<&'a str> = Vec::new();
    let mut start: usize = 0;
    let mut i: usize = 0;
    while i < n
        invariant
            n == cs@.len(),
            cs@ == s@,
            start <= i <= n,
            str_views(out@) + segment_from(s@, start as int, i as int) == segment(s@),
        decreases n - i,
    {
        let d = delimiter_at(&cs, i);
        if d == 0 {
            i += 1;
        } else {
            let ghost before = out@;
            let ghost old_start = start as int;
            let ghost old_i = i as int;
            if start < i {
                out.push(s.substring_char(start, i));
            }
            if !is_space_char(cs[i]) {
                out.push(s.substring_char(i, i + d));
            }
            let ghost mark = if is_space(s@[old_i]) {
                Seq::<Seq<char>>::empty()
            } else {
                seq![s@.subrange(old_i, old_i + d)]
            };
            assert(str_views(out@) =~= str_views(before) + word(s@, old_start, old_i) + mark);
            i += d;
            start = i;
            assert(segment_from(s@, old_start, old_i) == word(s@, old_start, old_i) + mark
                + segment_from(s@, i as int, i as int));
            assert(str_views(out@) + segment_from(s@, start as int, i as int) =~= str_views(before)
                + segment_from(s@, old_start, old_i));
        }
    }
    let ghost before = out@;
    if start < n {
        out.push(s.substring_char(start, n));
    }
    assert(str_views(out@) =~= str_views(before) + segment_from(s@, start as int, n as int));
    out
}

/// Segmenting depends on the text alone: two tokenizations of the same
/// text hold the same tokens in the same order.
pub proof fn lemma_tokenize_deterministic<'a, 'b>(s: Seq<char>, a: Seq<&'a str>, b: Seq<&'b str>)
    requires
        str_views(a) == segment(s),
        str_views(b) == segment(s),
    ensures
        str_views(a) == str_views(b),
{
}

} // verus!
