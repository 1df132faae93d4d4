//! Small decisions of an editing session: the text a save writes, stepping through find
//! matches, and the query that the selection gives.

use vstd::prelude::*;
use crate::editor::{sel_bounds, Editor, EditorView};
use crate::text::{
    byte_len, char_index, char_pos, chars_of, is_boundary, lemma_byte_at_mono, lemma_char_pos,
    slice_vec, string_of,
};

verus! {

/// What a save writes: the edited text, with the final line break of the file as it was
/// loaded kept when the edit lost it.
pub open spec fn saved_text(raw: Seq<char>, edited: Seq<char>) -> Seq<char> {
    if raw.len() > 0 && raw.last() == '\n' && !(edited.len() > 0 && edited.last() == '\n') {
        edited.push('\n')
    } else {
        edited
    }
}

/// The text to save for `edited`, given the text `raw` that was loaded.
pub fn saved_source(raw: &str, edited: &str) -> (r: String)
    ensures
        r@ == saved_text(raw@, edited@),
{
    let rv = chars_of(raw);
    let mut ev = chars_of(edited);
    let rn = rv.len();
    let en = ev.len();
    if rn > 0 && rv[rn - 1] == '\n' && !(en > 0 && ev[en - 1] == '\n') {
        ev.push('\n');
    }
    string_of(&ev)
}

/// The editor after stepping `dir` matches from the current one (wrapping around): the
/// cursor goes to that match's line, at the byte offset of its character column.
pub open spec fn find_jump_view(v: EditorView, dir: int, query_len: usize) -> EditorView {
    let n = v.find_matches.len() as int;
    if n == 0 {
        v
    } else {
        let i = (v.find_index + dir) % n;
        EditorView {
            find_index: i as usize,
            cursor_line: v.find_matches[i].0,
            cursor_col: match_col(v, v.find_matches[i]) as usize,
            find_len: query_len,
            ..v
        }
    }
}

/// The byte offset of a match at (line, character column), the column clamped to the line.
pub open spec fn match_col(v: EditorView, m: (usize, usize)) -> int {
    let l = line_or_empty(v, m.0 as int);
    crate::text::byte_at(l, if m.1 < l.len() { m.1 as int } else { l.len() as int })
}

/// The characters of `s` between byte offsets `a` and `b`.
pub open spec fn bytes_sub(s: Seq<char>, a: int, b: int) -> Seq<char> {
    s.subrange(char_pos(s, a), char_pos(s, b))
}

/// Line `i` of `v`, empty when out of range.
pub open spec fn line_or_empty(v: EditorView, i: int) -> Seq<char> {
    if 0 <= i < v.lines.len() {
        v.lines[i]
    } else {
        Seq::empty()
    }
}

pub open spec fn min_u(a: usize, b: usize) -> usize {
    if a < b {
        a
    } else {
        b
    }
}

/// The find query that a non-empty selection gives: its start line from the start column
/// up to the column that the *end line number* names (or the line's end); when the
/// selection spans lines, the rest of the start line and the start of the end line.
pub open spec fn selection_query_of(v: EditorView) -> Option<Seq<char>> {
    match sel_bounds(v) {
        Some(((sl, sc), (el, ec))) => {
            let a = line_or_empty(v, sl as int);
            if el > sl {
                let b = line_or_empty(v, el as int);
                Some(bytes_sub(a, sc as int, byte_len(a) as int) + bytes_sub(b, 0, min_u(ec, byte_len(b) as usize) as int))
            } else {
                Some(bytes_sub(a, sc as int, min_u(el, byte_len(a) as usize) as int))
            }
        },
        None => None,
    }
}

/// The selection's query can be cut out of the lines: its byte offsets fall on
/// character boundaries, in order (the slicing that computes it would panic otherwise).
pub open spec fn selection_query_ok(v: EditorView) -> bool {
    match sel_bounds(v) {
        Some(((sl, sc), (el, ec))) => {
            let a = line_or_empty(v, sl as int);
            let b = line_or_empty(v, el as int);
            &&& byte_len(a) <= usize::MAX
            &&& byte_len(b) <= usize::MAX
            &&& sc <= min_u(el, byte_len(a) as usize)
            &&& is_boundary(a, sc as int)
            &&& is_boundary(a, min_u(el, byte_len(a) as usize) as int)
            &&& (el > sl ==> is_boundary(b, min_u(ec, byte_len(b) as usize) as int))
        },
        None => true,
    }
}

/// The characters of `s` between byte offsets `a <= b`, both on boundaries.
fn byte_range(s: &[char], a: usize, b: usize) -> (r: Vec<char>)
    requires
        a <= b,
        is_boundary(s@, a as int),
        is_boundary(s@, b as int),
    ensures
        r@ == bytes_sub(s@, a as int, b as int),
{
    proof {
        lemma_char_pos(s@, a as int);
        lemma_char_pos(s@, b as int);
    }
    let i = char_index(s, a).unwrap();
    let j = char_index(s, b).unwrap();
    proof {
        if i > j {
            lemma_byte_at_mono(s@, j as int, i as int);
            assert(a == b);
        }
    }
    slice_vec(s, i, j)
}

/// Euclidean remainder of a negative number through the remainder of its magnitude.
proof fn lemma_neg_mod(s: int, n: int)
    requires
        s < 0,
        n >= 1,
    ensures
        ((-s) % n == 0 ==> s % n == 0),
        ((-s) % n != 0 ==> s % n == n - (-s) % n),
{
    let t = -s;
    let q = t / n;
    let m = t % n;
    vstd::arithmetic::div_mod::lemma_fundamental_div_mod(t, n);
    assert(0 <= m < n);
    assert(t == n * q + m);
    if m == 0 {
        assert(s == (-q) * n + 0) by (nonlinear_arith)
            requires
                t == n * q + m,
                m == 0,
                s == -t;
        vstd::arithmetic::div_mod::lemma_fundamental_div_mod_converse(s, n, -q, 0);
    } else {
        assert(s == (-q - 1) * n + (n - m)) by (nonlinear_arith)
            requires
                t == n * q + m,
                s == -t;
        vstd::arithmetic::div_mod::lemma_fundamental_div_mod_converse(s, n, -q - 1, n - m);
    }
}

impl Editor {
    /// Steps `dir` matches from the current one (wrapping around) and puts the cursor
    /// there; `query` is the current query.
    pub fn find_jump(&mut self, dir: i32, query: &str)
        requires
            old(self).find_matches@.len() <= i32::MAX,
            i32::MIN <= old(self).find_index + dir <= i32::MAX,
        ensures
            final(self)@ == find_jump_view(old(self)@, dir as int, query@.len() as usize),
            final(self).last_op_at == old(self).last_op_at,
    {
        let n = self.find_matches.len();
        if n == 0 {
            return;
        }
        let fi = self.find_index as i64;
        let s: i64 = fi + dir as i64;
        let nn = n as u64;
        let i: u64 = if s >= 0 {
            (s as u64) % nn
        } else {
            let m = ((-s) as u64) % nn;
            if m == 0 {
                0
            } else {
                nn - m
            }
        };
        proof {
            if s < 0 {
                lemma_neg_mod(s as int, nn as int);
            }
        }
        let idx = i as usize;
        self.find_index = idx;
        let (line, col) = self.find_matches[idx];
        let lc: Vec<char> = if line < self.lines.len() {
            self.line_chars(line)
        } else {
            Vec::new()
        };
        let k = if col < lc.len() {
            col
        } else {
            lc.len()
        };
        let b = crate::text::byte_offset(&lc, k);
        self.cursor_line = line;
        self.cursor_col = b;
        self.find_len = chars_of(query).len();
    }

    /// Whether the selection's query can be cut out of the lines (the condition
    /// `selection_query` needs).
    pub fn selection_query_safe(&self) -> (r: bool)
        ensures
            r == selection_query_ok(self@),
    {
        match self.selection_bounds() {
            Some(((sl, sc), (el, ec))) => {
                let a = chars_of(self.line(sl));
                let b = chars_of(self.line(el));
                crate::text::str_fits(self.line(sl));
                crate::text::str_fits(self.line(el));
                let la = self.line_len(sl);
                let lb = self.line_len(el);
                let ma = if el < la { el } else { la };
                let mb = if ec < lb { ec } else { lb };
                sc <= ma && char_index(&a, sc).is_some() && char_index(&a, ma).is_some() && (el <= sl
                    || char_index(&b, mb).is_some())
            },
            None => true,
        }
    }

    /// The find query that the selection gives (`None` without a selection).
    pub fn selection_query(&self) -> (r: Option<String>)
        requires
            selection_query_ok(self@),
        ensures
            crate::markdown::opt_v(r) == selection_query_of(self@),
    {
        match self.selection_bounds() {
            Some(((sl, sc), (el, ec))) => {
                let a = chars_of(self.line(sl));
                let la = self.line_len(sl);
                let first = byte_range(&a, sc, if el < la { el } else { la });
                if el > sl {
                    let b = chars_of(self.line(el));
                    let lb = self.line_len(el);
                    proof {
                        crate::text::lemma_boundary_at(a@, a@.len() as int);
                        assert(a@.take(a@.len() as int) =~= a@);
                        assert(b@.take(0) =~= Seq::<char>::empty());
                        crate::text::lemma_boundary_at(b@, 0);
                        assert(crate::text::byte_at(b@, 0) == 0);
                    }
                    let mut q = byte_range(&a, sc, la);
                    let rest = byte_range(&b, 0, if ec < lb { ec } else { lb });
                    crate::text::extend_all(&mut q, &rest);
                    Some(string_of(&q))
                } else {
                    Some(string_of(&first))
                }
            },
            None => None,
        }
    }
}

} // verus!
