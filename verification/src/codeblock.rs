//! What a code block of the preview shows: its header and its rows.

use vstd::prelude::*;
use crate::text::{chars_of, split_lines, string_of};

verus! {

/// Row `i` (counted from 0) of a code block lies in one of the highlighted line ranges,
/// which count lines from 1 and include both ends.
pub open spec fn row_highlighted(highlight: Seq<(usize, usize)>, i: int) -> bool {
    exists|j: int| 0 <= j < highlight.len() && #[trigger] highlight[j].0 <= i + 1 <= highlight[j].1
}

/// The header of a code block: its title, or else its language when it has one.
pub open spec fn code_header_of(title: Option<Seq<char>>, lang: Seq<char>) -> Option<Seq<char>> {
    match title {
        Some(t) => Some(t),
        None => if lang.len() == 0 {
            None
        } else {
            Some(lang)
        },
    }
}

/// The header of a code block: its title, or else its language when it has one.
pub fn code_header(title: &Option<String>, lang: &str) -> (r: Option<String>)
    ensures
        crate::markdown::opt_v(r) == code_header_of(crate::markdown::opt_v(*title), lang@),
{
    match title {
        Some(t) => Some(string_of(&chars_of(t.as_str()))),
        None => {
            let lc = chars_of(lang);
            if lc.len() == 0 {
                None
            } else {
                Some(string_of(&lc))
            }
        },
    }
}

/// Whether row `i` (from 0) lies in one of the highlighted ranges.
fn is_highlighted(highlight: &[(usize, usize)], i: usize) -> (r: bool)
    requires
        i < usize::MAX,
    ensures
        r == row_highlighted(highlight@, i as int),
{
    let mut j: usize = 0;
    while j < highlight.len()
        invariant
            j <= highlight@.len(),
            i < usize::MAX,
            forall|q: int| 0 <= q < j ==> !(#[trigger] highlight@[q].0 <= i + 1 <= highlight@[q].1),
        decreases highlight@.len() - j,
    {
        let (a, b) = highlight[j];
        if a <= i + 1 && i + 1 <= b {
            assert(highlight@[j as int].0 <= i + 1 <= highlight@[j as int].1);
            return true;
        }
        j = j + 1;
    }
    false
}

/// The rows of a code block: one per line of its text, each with whether it lies in one
/// of the highlighted line ranges (counted from 1).
pub fn code_rows(text: &str, highlight: &[(usize, usize)]) -> (r: Vec<(String, bool)>)
    ensures
        r@.len() == split_lines(text@).len(),
        forall|i: int| 0 <= i < r@.len() ==> (#[trigger] r@[i]).0@ == split_lines(text@)[i]
            && r@[i].1 == row_highlighted(highlight@, i),
{
    let parts = crate::text::split_chars(&chars_of(text));
    let ghost pv = parts@.map_values(|v: Vec<char>| v@);
    let mut out: Vec<(String, bool)> = Vec::new();
    let mut i: usize = 0;
    while i < parts.len()
        invariant
            i <= parts@.len(),
            pv == parts@.map_values(|v: Vec<char>| v@),
            pv == split_lines(text@),
            out@.len() == i,
            forall|q: int| 0 <= q < i ==> (#[trigger] out@[q]).0@ == pv[q] && out@[q].1 == row_highlighted(highlight@, q),
        decreases parts@.len() - i,
    {
        let h = is_highlighted(highlight, i);
        out.push((string_of(&parts[i]), h));
        i = i + 1;
    }
    out
}

} // verus!
