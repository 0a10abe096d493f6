//! Turning a token sequence back into text: tokens joined by single
//! spaces, then the spaces before closing punctuation taken out.

use crate::segment::{chars_of, is_space, is_space_char};
use vstd::prelude::*;

verus! {

/// Punctuation that no whitespace should precede in decoded text.
pub open spec fn is_closing(c: char) -> bool {
    c == ',' || c == '.' || c == '?' || c == '!' || c == '"' || c == '(' || c == ')' || c == '\''
}

/// The tokens joined, with one space between neighbours.
pub open spec fn join_spaced(ts: Seq<Seq<char>>) -> Seq<char>
    decreases ts.len(),
{
    if ts.len() == 0 {
        Seq::empty()
    } else if ts.len() == 1 {
        ts[0]
    } else {
        join_spaced(ts.drop_last()) + seq![' '] + ts.last()
    }
}

/// From `j` on, `s` holds a run of whitespace (maybe empty) and then a
/// closing mark.
pub open spec fn spaces_then_closing(s: Seq<char>, j: int) -> bool
    decreases s.len() - j,
{
    if j < 0 || j >= s.len() {
        false
    } else if is_closing(s[j]) {
        true
    } else if is_space(s[j]) {
        spaces_then_closing(s, j + 1)
    } else {
        false
    }
}

/// `s` from `i` on, without the whitespace that leads up to a closing mark.
pub open spec fn tightened_from(s: Seq<char>, i: int) -> Seq<char>
    decreases s.len() - i,
{
    if i < 0 || i >= s.len() {
        Seq::empty()
    } else if is_space(s[i]) && spaces_then_closing(s, i + 1) {
        tightened_from(s, i + 1)
    } else {
        seq![s[i]] + tightened_from(s, i + 1)
    }
}

/// `s` without the whitespace runs that directly precede a closing mark.
pub open spec fn tighten(s: Seq<char>) -> Seq<char> {
    tightened_from(s, 0)
}

pub fn is_closing_char(c: char) -> (r: bool)
    ensures
        r == is_closing(c),
{
    c == ',' || c == '.' || c == '?' || c == '!' || c == '"' || c == '(' || c == ')' || c == '\''
}

fn spaces_then_closing_at(cs: &Vec<char>, j: usize) -> (r: bool)
    ensures
        r == spaces_then_closing(cs@, j as int),
{
    let mut m: usize = j;
    while m < cs.len() && is_space_char(cs[m]) && !is_closing_char(cs[m])
        invariant
            j <= m,
            spaces_then_closing(cs@, j as int) == spaces_then_closing(cs@, m as int),
        decreases cs@.len() - m,
    {
        m += 1;
    }
    m < cs.len() && is_closing_char(cs[m])
}

/// Takes out of `s` the whitespace that leads up to a closing mark.
pub fn tighten_spacing(s: &str) -> (r: String)
    ensures
        r@ == tighten(s@),
{
    let cs = chars_of(s);
    let n = cs.len();
    let mut out = String::new();
    let mut run: usize = 0;
    let mut i: usize = 0;
    while i < n
        invariant
            n == cs@.len(),
            cs@ == s@,
            run <= i <= n,
            out@ + s@.subrange(run as int, i as int) + tightened_from(s@, i as int) == tighten(
                s@,
            ),
        decreases n - i,
    {
        let ghost before = out@;
        let ghost old_run = run as int;
        if is_space_char(cs[i]) && spaces_then_closing_at(&cs, i + 1) {
            out.append(s.substring_char(run, i));
            run = i + 1;
            assert(out@ + s@.subrange(run as int, i + 1) =~= before + s@.subrange(
                old_run,
                i as int,
            ));
        } else {
            assert(s@.subrange(old_run, i + 1) =~= s@.subrange(old_run, i as int) + seq![
                s@[i as int],
            ]);
            assert(out@ + s@.subrange(run as int, i + 1) + tightened_from(s@, i + 1) =~= out@
                + s@.subrange(run as int, i as int) + (seq![s@[i as int]] + tightened_from(
                s@,
                i + 1,
            )));
        }
        i += 1;
    }
    let ghost before = out@;
    out.append(s.substring_char(run, n));
    assert(out@ =~= before + s@.subrange(run as int, n as int) + tightened_from(s@, n as int));
    out
}

} // verus!
