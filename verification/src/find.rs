//! Find in the editor: the positions where a query occurs, line by line.

use vstd::prelude::*;
use crate::editor::{Editor, EditorView};
use crate::text::{chars_of, matches_at, starts_at};

verus! {

/// The character columns of `s`, from character `k` on, where `q` occurs (overlapping
/// occurrences included), in order.
pub open spec fn find_run(s: Seq<char>, q: Seq<char>, k: int) -> Seq<usize>
    decreases s.len() - k,
{
    if k < 0 || k >= s.len() {
        Seq::empty()
    } else {
        let here: Seq<usize> = if matches_at(s, k, q) {
            seq![k as usize]
        } else {
            Seq::empty()
        };
        here + find_run(s, q, k + 1)
    }
}

/// The `(line, column)` matches of `q` over `lines`, in order.
pub open spec fn find_in_lines(lines: Seq<Seq<char>>, q: Seq<char>) -> Seq<(usize, usize)>
    decreases lines.len(),
{
    if lines.len() == 0 {
        Seq::empty()
    } else {
        find_in_lines(lines.drop_last(), q) + find_run(lines.last(), q, 0).map_values(
            |c: usize| ((lines.len() - 1) as usize, c),
        )
    }
}

/// The editor after a search for `q`: its matches, the length of the query in
/// characters, and the current match kept within range.
pub open spec fn find_view(v: EditorView, q: Seq<char>) -> EditorView {
    if q.len() == 0 {
        EditorView { find_matches: Seq::empty(), find_len: 0, find_index: 0, ..v }
    } else {
        let m = find_in_lines(v.lines, q);
        EditorView {
            find_matches: m,
            find_len: q.len() as usize,
            find_index: if v.find_index >= m.len() {
                if m.len() > 0 {
                    (m.len() - 1) as usize
                } else {
                    0
                }
            } else {
                v.find_index
            },
            ..v
        }
    }
}

/// The columns of `s` where `q` occurs.
fn find_in_line(s: &[char], q: &[char]) -> (r: Vec<usize>)
    ensures
        r@ == find_run(s@, q@, 0),
{
    let n = s.len();
    let mut out: Vec<usize> = Vec::new();
    let mut k: usize = 0;
    assert(out@ + find_run(s@, q@, 0) =~= find_run(s@, q@, 0));
    while k < n
        invariant
            k <= n == s@.len(),
            out@ + find_run(s@, q@, k as int) == find_run(s@, q@, 0),
        decreases n - k,
    {
        let ghost o0 = out@;
        if starts_at(s, k, q) {
            out.push(k);
            assert(o0 + find_run(s@, q@, k as int) =~= out@ + find_run(s@, q@, k + 1));
        } else {
            assert(o0 + find_run(s@, q@, k as int) =~= out@ + find_run(s@, q@, k + 1));
        }
        k = k + 1;
    }
    assert(out@ + find_run(s@, q@, k as int) =~= out@);
    out
}

impl Editor {
    /// Searches every line for `query`, keeps the matches and the query's length in
    /// characters, and keeps the current match within range.
    pub fn find_all(&mut self, query: &str)
        ensures
            final(self)@ == find_view(old(self)@, query@),
            final(self).last_op_at == old(self).last_op_at,
    {
        let q = chars_of(query);
        self.find_matches = Vec::new();
        if q.len() == 0 {
            self.find_len = 0;
            self.find_index = 0;
            return;
        }
        self.find_len = q.len();
        let ghost lines = self@.lines;
        let mut li: usize = 0;
        assert(lines.take(0) =~= Seq::<Seq<char>>::empty());
        while li < self.lines.len()
            invariant
                li <= self@.lines.len(),
                lines == self@.lines,
                lines == old(self)@.lines,
                q@ == query@,
                q@.len() > 0,
                self.find_matches@ == find_in_lines(lines.take(li as int), q@),
                self@ == (EditorView { find_matches: self.find_matches@, find_len: q@.len() as usize, ..old(self)@ }),
                self.last_op_at == old(self).last_op_at,
            decreases self@.lines.len() - li,
        {
            assert(lines.take(li + 1).drop_last() =~= lines.take(li as int));
            let s = chars_of(self.lines[li].as_str());
            assert(s@ == lines[li as int]);
            let found = find_in_line(&s, &q);
            let mut j: usize = 0;
            let ghost m0 = self.find_matches@;
            let ghost mapped = found@.map_values(|c: usize| (li, c));
            while j < found.len()
                invariant
                    j <= found@.len(),
                    self.find_matches@ == m0 + mapped.take(j as int),
                    mapped == found@.map_values(|c: usize| (li, c)),
                    li < self@.lines.len(),
                    lines == self@.lines,
                    self@ == (EditorView { find_matches: self.find_matches@, find_len: q@.len() as usize, ..old(self)@ }),
                    self.last_op_at == old(self).last_op_at,
                decreases found@.len() - j,
            {
                self.find_matches.push((li, found[j]));
                assert(mapped.take(j + 1) =~= mapped.take(j as int).push((li, found@[j as int])));
                j = j + 1;
            }
            assert(mapped.take(found@.len() as int) =~= mapped);
            proof {
                assert(lines.take(li + 1).last() == lines[li as int]);
                assert((lines.take(li + 1).len() - 1) as usize == li);
            }
            li = li + 1;
        }
        assert(lines.take(lines.len() as int) =~= lines);
        let n = self.find_matches.len();
        if self.find_index >= n {
            self.find_index = if n > 0 { n - 1 } else { 0 };
        }
    }
}

} // verus!
