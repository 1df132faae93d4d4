//! Drag and drop: moving or copying a range of text to another position.

use vstd::prelude::*;
use crate::editor::{
    Editor, EditorView, cut, insert_view, pos_ok, remove_range, snap_ok, wf,
};
use crate::text::{byte_at, byte_len, char_pos, is_boundary, join_lines, split_lines};

verus! {

/// `a` comes at or before `b` (tuple order).
pub open spec fn pos_le(a: (int, int), b: (int, int)) -> bool {
    a.0 < b.0 || (a.0 == b.0 && a.1 <= b.1)
}

/// The range `from` is empty or reversed.
pub open spec fn range_reversed(f: (usize, usize, usize, usize)) -> bool {
    f.0 > f.2 || (f.0 == f.2 && f.1 > f.3)
}

/// The text of the range `from`.
pub open spec fn range_text(v: EditorView, f: (usize, usize, usize, usize)) -> Seq<char> {
    join_lines(cut(v.lines, f.0 as int, char_pos(v.lines[f.0 as int], f.1 as int), f.2 as int,
        char_pos(v.lines[f.2 as int], f.3 as int)))
}

/// The target column, clamped to its line.
pub open spec fn target_col(v: EditorView, to: (usize, usize)) -> int {
    let n = byte_len(v.lines[to.0 as int]) as int;
    if to.1 < n { to.1 as int } else { n }
}

/// The target lies inside the range (a move there does nothing).
pub open spec fn target_inside(v: EditorView, f: (usize, usize, usize, usize), to: (usize, usize)) -> bool {
    let t = (to.0 as int, target_col(v, to));
    pos_le((f.0 as int, f.1 as int), t) && pos_le(t, (f.2 as int, f.3 as int))
}

/// The target after removing the range: a target after it on the range's last line
/// follows the text after the range onto the range's first line; one on a later line
/// moves up by the range's number of line breaks.
pub open spec fn moved_target(v: EditorView, f: (usize, usize, usize, usize), to: (usize, usize), copy: bool) -> (int, int) {
    let tc = target_col(v, to);
    let tl = to.0 as int;
    if !copy && !pos_le((tl, tc), (f.2 as int, f.3 as int)) {
        if tl == f.2 {
            (f.0 as int, f.1 + (tc - f.3))
        } else {
            (tl - (f.2 - f.0), tc)
        }
    } else {
        (tl, tc)
    }
}

/// The document after removing the range (unless copying).
pub open spec fn after_removal(v: EditorView, f: (usize, usize, usize, usize), copy: bool) -> EditorView {
    if copy {
        v
    } else {
        EditorView {
            lines: remove_range(v.lines, f.0 as int, char_pos(v.lines[f.0 as int], f.1 as int), f.2 as int,
                char_pos(v.lines[f.2 as int], f.3 as int)),
            ..v
        }
    }
}

/// The state after dropping the range `from` at `to`: the text is removed (unless
/// copying) and inserted at the target; the cursor goes to the last inserted line, as many
/// characters in as that line of the text has.
pub open spec fn move_range_view(v: EditorView, f: (usize, usize, usize, usize), to: (usize, usize), copy: bool) -> EditorView {
    if range_reversed(f) {
        v
    } else {
        let text = range_text(v, f);
        if text.len() == 0 || (!copy && target_inside(v, f, to)) {
            v
        } else {
            let t = moved_target(v, f, to, copy);
            let v2 = EditorView { sel_start: None, cursor_line: t.0 as usize, cursor_col: t.1 as usize, ..after_removal(v, f, copy) };
            let v3 = insert_view(v2, text);
            let parts = split_lines(text);
            let cl = t.0 + parts.len() - 1;
            EditorView {
                cursor_line: cl as usize,
                cursor_col: byte_at(v3.lines[cl], parts.last().len() as int) as usize,
                sel_start: None,
                dirty: true,
                ..v3
            }
        }
    }
}

/// Dropping does not stop: the range and the target name existing positions (the target
/// column clamped to its line).
pub open spec fn move_range_ok(v: EditorView, f: (usize, usize, usize, usize), to: (usize, usize), copy: bool) -> bool {
    !range_reversed(f) ==> {
        &&& pos_ok(v.lines, (f.0, f.1))
        &&& pos_ok(v.lines, (f.2, f.3))
        &&& (range_text(v, f).len() > 0 ==> {
            &&& to.0 < v.lines.len()
            &&& is_boundary(v.lines[to.0 as int], target_col(v, to))
        })
    }
}

/// A boundary of a prefix is one of the whole.
proof fn lemma_boundary_left(a: Seq<char>, b: Seq<char>, x: int)
    requires
        is_boundary(a, x),
    ensures
        is_boundary(a + b, x),
{
    let k = choose|k: int| 0 <= k <= a.len() && #[trigger] byte_len(a.take(k)) == x;
    assert((a + b).take(k) =~= a.take(k));
}

/// A boundary of a suffix, shifted by the prefix's bytes, is one of the whole.
proof fn lemma_boundary_right(a: Seq<char>, b: Seq<char>, x: int)
    requires
        is_boundary(b, x),
    ensures
        is_boundary(a + b, byte_len(a) + x),
{
    let k = choose|k: int| 0 <= k <= b.len() && #[trigger] byte_len(b.take(k)) == x;
    assert((a + b).take(a.len() + k) =~= a + b.take(k));
    crate::text::lemma_byte_len_append(a, b.take(k));
}

/// A boundary at or after character `m` is one of the suffix from `m`, shifted back.
proof fn lemma_boundary_skip(s: Seq<char>, m: int, x: int)
    requires
        0 <= m <= s.len(),
        is_boundary(s, x),
        x >= byte_at(s, m),
    ensures
        is_boundary(s.skip(m), x - byte_at(s, m)),
{
    let k = choose|k: int| 0 <= k <= s.len() && #[trigger] byte_len(s.take(k)) == x;
    if k < m {
        crate::text::lemma_byte_at_mono(s, k, m);
    }
    assert(s.take(k) =~= s.take(m) + s.skip(m).take(k - m));
    crate::text::lemma_byte_len_append(s.take(m), s.skip(m).take(k - m));
    assert(byte_len(s.skip(m).take(k - m)) == x - byte_at(s, m));
}

/// A boundary before character `m` is one of the prefix up to `m`.
proof fn lemma_boundary_take(s: Seq<char>, m: int, x: int)
    requires
        0 <= m <= s.len(),
        is_boundary(s, x),
        x < byte_at(s, m),
    ensures
        is_boundary(s.take(m), x),
{
    let k = choose|k: int| 0 <= k <= s.len() && #[trigger] byte_len(s.take(k)) == x;
    if k >= m {
        crate::text::lemma_byte_at_mono(s, m, k);
    }
    assert(s.take(m).take(k) =~= s.take(k));
}

/// The moved target is a position of the document after the removal.
proof fn lemma_moved_target(v: EditorView, f: (usize, usize, usize, usize), to: (usize, usize), copy: bool)
    requires
        wf(v),
        !range_reversed(f),
        pos_ok(v.lines, (f.0, f.1)),
        pos_ok(v.lines, (f.2, f.3)),
        to.0 < v.lines.len(),
        is_boundary(v.lines[to.0 as int], target_col(v, to)),
        copy || !target_inside(v, f, to),
    ensures
        ({
            let t = moved_target(v, f, to, copy);
            let ls = after_removal(v, f, copy).lines;
            &&& 0 <= t.0 < ls.len()
            &&& t.1 >= 0
            &&& is_boundary(ls[t.0], t.1)
            &&& t.1 <= byte_len(ls[t.0])
        }),
{
    let t = moved_target(v, f, to, copy);
    let ls = after_removal(v, f, copy).lines;
    let tl = to.0 as int;
    let tc = target_col(v, to);
    crate::text::lemma_char_pos(v.lines[f.0 as int], f.1 as int);
    crate::text::lemma_char_pos(v.lines[f.2 as int], f.3 as int);
    let ks = char_pos(v.lines[f.0 as int], f.1 as int);
    let ke = char_pos(v.lines[f.2 as int], f.3 as int);
    let a = v.lines[f.0 as int].take(ks);
    let z = v.lines[f.2 as int].skip(ke);
    crate::text::lemma_byte_at_mono(v.lines[tl], 0, v.lines[tl].len() as int);
    assert(v.lines[tl].take(v.lines[tl].len() as int) =~= v.lines[tl]);
    if copy || pos_le((tl, tc), (f.2 as int, f.3 as int)) {
        if !copy {
            assert(!pos_le((f.0 as int, f.1 as int), (tl, tc)));
            if tl < f.0 {
                assert(ls[tl] == v.lines[tl]);
            } else {
                assert(tl == f.0 && tc < f.1);
                lemma_boundary_take(v.lines[tl], ks, tc);
                lemma_boundary_left(a, z, tc);
                assert(ls[tl] == a + z);
                crate::text::lemma_byte_len_append(a, z);
                crate::text::lemma_byte_at_mono(v.lines[tl], ks, v.lines[tl].len() as int);
            }
        }
    } else if tl == f.2 {
        lemma_boundary_skip(v.lines[tl], ke, tc);
        lemma_boundary_right(a, z, tc - f.3);
        assert(byte_len(a) == f.1);
        assert(ls[f.0 as int] == a + z);
        crate::text::lemma_byte_len_append(a, z);
        crate::text::lemma_byte_len_append(v.lines[tl].take(ke), z);
        assert(v.lines[tl].take(ke) + z =~= v.lines[tl]);
    } else {
        assert(tl > f.2);
        assert(ls[t.0] == v.lines[tl]);
    }
}

impl Editor {
    /// The text from `(sl, sc)` to `(el, ec)`.
    pub fn text_between(&self, sl: usize, sc: usize, el: usize, ec: usize) -> (r: Vec<char>)
        requires
            pos_ok(self@.lines, (sl, sc)),
            pos_ok(self@.lines, (el, ec)),
            sl < el || (sl == el && sc <= ec),
        ensures
            r@ == range_text(self@, (sl, sc, el, ec)),
    {
        let ks = self.char_k(sl, sc);
        let ke = self.char_k(el, ec);
        let ghost c = cut(self@.lines, sl as int, ks as int, el as int, ke as int);
        if sl == el {
            if ke < ks {
                proof {
                    crate::text::lemma_byte_at_mono(self@.lines[sl as int], ke as int, ks as int);
                }
            }
            let s = self.line_chars(sl);
            let out = crate::text::slice_vec(&s, ks, ke);
            assert(join_lines(c) == c[0]);
            return out;
        }
        let mut out: Vec<char> = Vec::new();
        let first = self.line_chars(sl);
        crate::text::extend_from(&mut out, &first, ks, first.len());
        let mut l = sl + 1;
        proof {
            assert(c.take(1) =~= seq![self@.lines[sl as int].skip(ks as int)]);
            assert(join_lines(c.take(1)) == c[0]);
            assert(out@ =~= c[0]);
        }
        while l < el
            invariant
                sl < l <= el < self@.lines.len(),
                c == cut(self@.lines, sl as int, ks as int, el as int, ke as int),
                c.len() == el - sl + 1,
                out@ == join_lines(c.take(l - sl)),
            decreases el - l,
        {
            out.push('\n');
            let s = self.line_chars(l);
            crate::text::extend_all(&mut out, &s);
            proof {
                let t = c.take(l - sl + 1);
                assert(t.drop_last() =~= c.take(l - sl));
                assert(t.last() == self@.lines[l as int]);
                assert(out@ =~= join_lines(t.drop_last()) + seq!['\n'] + t.last());
            }
            l = l + 1;
        }
        out.push('\n');
        let last = self.line_chars(el);
        crate::text::extend_from(&mut out, &last, 0, ke);
        proof {
            let t = c.take(c.len() as int);
            assert(t =~= c);
            assert(t.drop_last() =~= c.take(el - sl));
            assert(c.last() =~= last@.subrange(0, ke as int));
            assert(out@ =~= join_lines(t.drop_last()) + seq!['\n'] + t.last());
        }
        out
    }

    /// Whether dropping the range `from` at `to` names existing positions
    /// (`move_range_ok`).
    pub fn can_move_range(&self, from: (usize, usize, usize, usize), to: (usize, usize), copy: bool) -> (r: bool)
        requires
            wf(self@),
        ensures
            r == move_range_ok(self@, from, to, copy),
    {
        let (sl, sc, el, ec) = from;
        if sl > el || (sl == el && sc > ec) {
            return true;
        }
        let n = self.lines.len();
        if sl >= n || el >= n {
            return false;
        }
        let first = self.line_chars(sl);
        let last = self.line_chars(el);
        if crate::text::char_index(&first, sc).is_none() || crate::text::char_index(&last, ec).is_none() {
            return false;
        }
        let text = self.text_between(sl, sc, el, ec);
        if text.len() == 0 {
            return true;
        }
        if to.0 >= n {
            return false;
        }
        let tline = self.line_chars(to.0);
        let len = self.line_len(to.0);
        let tc = if to.1 < len {
            to.1
        } else {
            len
        };
        crate::text::char_index(&tline, tc).is_some()
    }

    /// Drag and drop: moves (or copies) the range `from` to `to`.
    #[verifier::rlimit(50)]
    pub(crate) fn move_range(&mut self, from: (usize, usize, usize, usize), to: (usize, usize), copy: bool)
        requires
            wf(old(self)@),
            move_range_ok(old(self)@, from, to, copy),
        ensures
            final(self)@ == move_range_view(old(self)@, from, to, copy),
            wf(final(self)@),
            final(self).last_op_at == old(self).last_op_at,
    {
        let ghost v0 = self@;
        let (sl, sc, el, ec) = from;
        if sl > el || (sl == el && sc > ec) {
            return;
        }
        let text = self.text_between(sl, sc, el, ec);
        if text.len() == 0 {
            return;
        }
        let (to_line, to_col) = to;
        let mut tl = to_line;
        let line_len = self.line_len(tl);
        let mut tc = if to_col < line_len {
            to_col
        } else {
            line_len
        };
        let ghost tc0 = tc;
        if !copy {
            let ge = sl < tl || (sl == tl && sc <= tc);
            let le = tl < el || (tl == el && tc <= ec);
            if ge && le {
                return;
            }
            proof {
                lemma_moved_target(v0, from, to, copy);
            }
            let empty: Vec<char> = Vec::new();
            let _c = self.put_range(sl, sc, el, ec, &empty);
            proof {
                let ks = char_pos(v0.lines[sl as int], sc as int);
                let ke = char_pos(v0.lines[el as int], ec as int);
                assert(v0.lines[sl as int].take(ks) + Seq::<char>::empty() + v0.lines[el as int].skip(ke)
                    =~= v0.lines[sl as int].take(ks) + v0.lines[el as int].skip(ke));
                assert(self@.lines =~= after_removal(v0, from, copy).lines);
            }
            if !le {
                if tl == el {
                    let nlen = self.line_len(sl);
                    let d = tc - ec;
                    assert(sc + d <= nlen);
                    tl = sl;
                    tc = sc + d;
                } else {
                    tl = tl - (el - sl);
                }
            }
        } else {
            proof {
                lemma_moved_target(v0, from, to, copy);
            }
        }
        assert(tl == moved_target(v0, from, to, copy).0);
        assert(tc == moved_target(v0, from, to, copy).1);
        self.sel_start = None;
        self.cursor_line = tl;
        self.cursor_col = tc;
        proof {
            let w = self@;
            lemma_removal_doc(v0, from, copy);
            assert forall|i: int| 0 <= i < w.undo_stack.len() implies snap_ok(#[trigger] w.undo_stack[i]) by {
                assert(w.undo_stack[i] == v0.undo_stack[i]);
            }
            assert forall|i: int| 0 <= i < w.redo_stack.len() implies snap_ok(#[trigger] w.redo_stack[i]) by {
                assert(w.redo_stack[i] == v0.redo_stack[i]);
            }
        }
        let ghost v2 = self@;
        let ts = crate::text::string_of(&text);
        self.insert_text(ts.as_str());
        let parts = crate::text::split_chars(&text);
        let np = parts.len();
        let last = &parts[np - 1];
        let cl = self.cursor_line;
        let lc = self.line_chars(cl);
        assert(self.lines.len() == self@.lines.len());
        proof {
            lemma_insert_last(v2, text@);
        }
        assert(parts@.map_values(|x: Vec<char>| x@).last() == last@);
        let lb = crate::text::byte_offset(&lc, last.len());
        self.cursor_col = lb;
        self.sel_start = None;
        self.dirty = true;
        proof {
            let w = self@;
            assert(lc@.take(last@.len() as int).len() == last@.len());
            assert(byte_len(lc@.take(last@.len() as int)) == lb);
        }
    }
}

/// After inserting text at a valid position, the last inserted line holds at least as many
/// characters as the text's last line.
proof fn lemma_insert_last(v: EditorView, t: Seq<char>)
    requires
        wf(v),
        v.sel_start is None,
        insert_view(v, t).lines.len() <= usize::MAX,
    ensures
        ({
            let w = insert_view(v, t);
            let parts = split_lines(t);
            &&& w.cursor_line == v.cursor_line + parts.len() - 1
            &&& parts.last().len() <= w.lines[w.cursor_line as int].len()
        }),
{
    crate::editor::lemma_wf_cursor(v);
    crate::text::lemma_split_nonempty(t);
    let l = v.cursor_line as int;
    let line = crate::editor::cur_line(v);
    let k = crate::editor::cur_k(v);
    let parts = split_lines(t);
    let n = parts.len() - 1;
    let b1 = parts.update(0, line.take(k) + parts[0]);
    let blk = crate::editor::ins_block(line.take(k), parts, line.skip(k));
    let w = insert_view(v, t);
    assert(blk.len() == parts.len());
    assert(w.lines == v.lines.take(l) + blk + v.lines.skip(l + 1));
    assert((v.lines.take(l) + blk)[l + n] == blk[n]);
    assert(blk[n] == b1[n] + line.skip(k));
    assert(w.lines.len() == v.lines.len() + n);
    assert(w.cursor_line == l + n);
}

/// Removing a range keeps the document free of line breaks inside lines.
proof fn lemma_removal_doc(v: EditorView, f: (usize, usize, usize, usize), copy: bool)
    requires
        wf(v),
        pos_ok(v.lines, (f.0, f.1)),
        pos_ok(v.lines, (f.2, f.3)),
        !range_reversed(f),
    ensures
        crate::editor::doc_ok(after_removal(v, f, copy).lines),
{
    if !copy {
        let sl = f.0 as int;
        let el = f.2 as int;
        let ks = char_pos(v.lines[sl], f.1 as int);
        let ke = char_pos(v.lines[el], f.3 as int);
        crate::text::lemma_char_pos(v.lines[sl], f.1 as int);
        crate::text::lemma_char_pos(v.lines[el], f.3 as int);
        crate::newline::lemma_take_skip_nl(v.lines[sl], ks);
        crate::newline::lemma_take_skip_nl(v.lines[el], ke);
        crate::editor::lemma_concat_no_newline(v.lines[sl].take(ks), v.lines[el].skip(ke));
        crate::editor::lemma_splice_doc(v.lines, sl, el, seq![v.lines[sl].take(ks) + v.lines[el].skip(ke)]);
    }
}

} // verus!
