//! Formatting: inline marks, links, block types and lists.

use vstd::prelude::*;
use crate::editor::{
    Editor, EditorView, cur_k, cur_line, delsel_view, insert_view, lemma_concat_no_newline, lemma_sel_bounds,
    lemma_splice_doc, lemma_wf_cursor, pos_ok, sel_bounds, sel_text, snap_ok, wf,
};
use crate::erase::marker_len;
use crate::line::{LineStyle, detect, fence_line};
use crate::newline::{blank, is_blank, lemma_boundary_zero, lemma_prefix_boundary, lemma_take_skip_nl};
use crate::ops::{ListKind, BlockType, Mark, delim, toggled};
use crate::text::{byte_at, byte_len, char_pos, dec_str, is_boundary, join_lines, lemma_boundary_at};

verus! {

/// `s` without the delimiter `d` on both ends, when it has them and something between.
pub open spec fn strip_of(s: Seq<char>, d: Seq<char>) -> Option<Seq<char>> {
    if s.len() > 2 * d.len() && s.take(d.len() as int) == d && s.skip(s.len() - d.len()) == d {
        Some(s.subrange(d.len() as int, s.len() - d.len()))
    } else {
        None
    }
}

/// The document with the selection `b` replaced by `mid`.
pub open spec fn replace_sel(v: EditorView, b: ((usize, usize), (usize, usize)), mid: Seq<char>) -> Seq<Seq<char>> {
    let sl = b.0.0 as int;
    let el = b.1.0 as int;
    let ks = char_pos(v.lines[sl], b.0.1 as int);
    let ke = char_pos(v.lines[el], b.1.1 as int);
    v.lines.take(sl) + seq![v.lines[sl].take(ks) + mid + v.lines[el].skip(ke)] + v.lines.skip(el + 1)
}

/// A mark toggled on the selection: unwrapped when the selected text is wrapped in its
/// delimiter, wrapped otherwise; the new text takes the selection's place (its line
/// breaks kept) and the cursor goes after it.
pub open spec fn wrap_view(v: EditorView, m: Mark) -> EditorView {
    match sel_bounds(v) {
        None => v,
        Some(b) => {
            let t = sel_text(v)->0;
            let mid = match strip_of(t, delim(m)) {
                Some(inner) => inner,
                None => delim(m) + t + delim(m),
            };
            insert_view(v, mid)
        },
    }
}

pub open spec fn toggle_view(v: EditorView, m: Mark) -> EditorView {
    if v.sel_start is Some {
        wrap_view(v, m)
    } else {
        EditorView { pending_marks: toggled(v.pending_marks, m), ..v }
    }
}

/// `[text](url)`.
pub open spec fn link_template() -> Seq<char> {
    seq!['[', 't', 'e', 'x', 't', ']', '(', 'u', 'r', 'l', ')']
}

/// Cmd+K: the selection becomes `[selection](url)` with the cursor before `)`; without a
/// selection `[text](url)` is inserted with the cursor before `l)`.
pub open spec fn link_view(v: EditorView) -> EditorView {
    if v.sel_start is Some {
        match sel_bounds(v) {
            None => EditorView { dirty: true, ..v },
            Some(b) => {
                let text = seq!['['] + sel_text(v)->0 + seq![']', '(', 'u', 'r', 'l', ')'];
                let w = insert_view(v, text);
                EditorView { cursor_col: (w.cursor_col - 1) as usize, ..w }
            },
        }
    } else {
        let w = insert_view(v, link_template());
        EditorView { cursor_col: (if w.cursor_col >= 2 { w.cursor_col - 2 } else { 0 }) as usize, dirty: true, ..w }
    }
}

/// The line without its block marker; the indentation before the marker stays.
pub open spec fn strip_prefix_of(line: Seq<char>) -> Seq<char> {
    match marker_len(line, detect(line).0) {
        Some(m) => line.take(crate::text::lead_ws(line)) + crate::text::trim_start(line).skip(m),
        None => line,
    }
}

/// `n` copies of `#` and a space.
pub open spec fn heading_marker(n: int) -> Seq<char> {
    Seq::new(n as nat, |i: int| '#').push(' ')
}

/// Three backticks.
pub open spec fn fence3() -> Seq<char> {
    seq!['`', '`', '`']
}

/// The state after giving the cursor line a block type; the cursor goes to the end of
/// the line (into the new block for a code block) and a selection is dropped.
pub open spec fn block_type_view(v: EditorView, t: BlockType) -> EditorView {
    let l = v.cursor_line as int;
    let cur = cur_line(v);
    let nl: Seq<char> = match t {
        BlockType::Paragraph => strip_prefix_of(cur),
        BlockType::Heading(level) => {
            let n: int = if level < 1 { 1 } else if level > 6 { 6 } else { level as int };
            let body = strip_prefix_of(cur);
            if blank(body) { heading_marker(n) } else { heading_marker(n) + body }
        },
        BlockType::Quote => if cur.len() > 0 && cur[0] == '>' { cur } else { seq!['>', ' '] + cur },
        BlockType::CodeBlock => cur,
    };
    if t == BlockType::CodeBlock && !fence_line(cur) {
        let body = strip_prefix_of(cur);
        EditorView {
            lines: v.lines.take(l) + seq![fence3(), body, fence3()] + v.lines.skip(l + 1),
            cursor_line: (l + 1) as usize,
            cursor_col: byte_len(body) as usize,
            sel_start: None,
            dirty: true,
            ..v
        }
    } else {
        EditorView {
            lines: v.lines.update(l, nl),
            cursor_col: byte_len(nl) as usize,
            sel_start: None,
            dirty: true,
            ..v
        }
    }
}


/// List marker of a kind for the item with number `n`.
pub open spec fn list_marker(kind: ListKind, n: nat) -> Seq<char> {
    match kind {
        ListKind::Bullet => seq!['-', ' '],
        ListKind::Ordered => dec_str(n) + seq!['.', ' '],
        ListKind::Task => seq!['-', ' ', '[', ' ', ']', ' '],
    }
}

/// The last line a selection touches: its end line, or the line before when the
/// selection ends at the start of a later line.
pub open spec fn wrap_end(b: ((usize, usize), (usize, usize))) -> int {
    if b.1.0 > b.0.0 && b.1.1 == 0 {
        b.1.0 - 1
    } else {
        b.1.0 as int
    }
}

/// Lines `sl..=last` as list items, numbered from 1.
pub open spec fn wrap_items(v: EditorView, kind: ListKind, sl: int, last: int) -> Seq<Seq<char>> {
    Seq::new((last - sl + 1) as nat, |i: int| list_marker(kind, (i + 1) as nat) + v.lines[sl + i])
}

/// Without a selection the cursor line becomes an item unless it already starts with the
/// marker; with one, each line the selection touches becomes a whole item and the cursor
/// goes to the end of the last of them.
pub open spec fn wrap_list_view(v: EditorView, kind: ListKind) -> EditorView {
    match sel_bounds(v) {
        None => {
            let cur = cur_line(v);
            let m = list_marker(kind, 1);
            if cur.len() >= m.len() && cur.take(m.len() as int) == m {
                v
            } else {
                EditorView {
                    lines: v.lines.update(v.cursor_line as int, m + cur),
                    cursor_col: (v.cursor_col + byte_len(m)) as usize,
                    sel_start: None,
                    dirty: true,
                    ..v
                }
            }
        },
        Some(b) => {
            let sl = b.0.0 as int;
            let last = wrap_end(b);
            let items = wrap_items(v, kind, sl, last);
            EditorView {
                lines: v.lines.take(sl) + items + v.lines.skip(last + 1),
                cursor_line: last as usize,
                cursor_col: byte_len(items.last()) as usize,
                sel_start: None,
                dirty: true,
                ..v
            }
        },
    }
}


/// `s` without the delimiter `d` on both ends, when it has them and something between.
fn strip_wrapped(s: &Vec<char>, d: &Vec<char>) -> (r: Option<Vec<char>>)
    ensures
        r matches Some(x) ==> strip_of(s@, d@) == Some(x@),
        r is None ==> strip_of(s@, d@) is None,
{
    let n = s.len();
    let m = d.len();
    if n < m || n - m <= m {
        proof {
            assert(!(s@.len() > 2 * d@.len()));
        }
        return None;
    }
    let mut i: usize = 0;
    while i < m
        invariant
            i <= m == d@.len(),
            2 * m < n == s@.len(),
            forall|j: int| 0 <= j < i ==> s@[j] == d@[j] && s@[n - m + j] == d@[j],
        decreases m - i,
    {
        if s[i] != d[i] || s[n - m + i] != d[i] {
            proof {
                if s@[i as int] != d@[i as int] {
                    assert(s@.take(m as int)[i as int] != d@[i as int]);
                } else {
                    assert(s@.skip(n - m)[i as int] != d@[i as int]);
                }
            }
            return None;
        }
        i = i + 1;
    }
    assert(s@.take(m as int) =~= d@);
    assert(s@.skip(n - m) =~= d@);
    Some(crate::text::slice_vec(s, m, n - m))
}

impl Editor {
    /// Replaces the range from `(sl, sc)` to `(el, ec)` by `mid`; returns the byte column
    /// right after `mid`.
    pub(crate) fn put_range(&mut self, sl: usize, sc: usize, el: usize, ec: usize, mid: &Vec<char>) -> (c: usize)
        requires
            sl <= el,
            pos_ok(old(self)@.lines, (sl, sc)),
            pos_ok(old(self)@.lines, (el, ec)),
        ensures
            final(self)@ == (EditorView { lines: replace_sel(old(self)@, ((sl, sc), (el, ec)), mid@), ..old(self)@ }),
            c == sc + byte_len(mid@),
            final(self).last_op_at == old(self).last_op_at,
    {
        let ghost v0 = self@;
        let ks = self.char_k(sl, sc);
        let ke = self.char_k(el, ec);
        let first = self.line_chars(sl);
        let last = self.line_chars(el);
        let mut joined = crate::text::slice_vec(&first, 0, ks);
        crate::text::extend_all(&mut joined, mid);
        let pre = joined.len();
        crate::text::extend_from(&mut joined, &last, ke, last.len());
        let js = crate::text::string_of(&joined);
        crate::text::str_fits(js.as_str());
        let c = crate::text::byte_offset(&joined, pre);
        let ghost a = v0.lines[sl as int].take(ks as int);
        let ghost z = v0.lines[el as int].skip(ke as int);
        proof {
            assert(joined@ =~= a + mid@ + z);
            assert(joined@.take(pre as int) =~= a + mid@);
            crate::text::lemma_byte_len_append(a, mid@);
            assert(a.take(ks as int) =~= a);
            assert(byte_at(v0.lines[sl as int], ks as int) == sc);
        }
        let mut block: Vec<Vec<char>> = Vec::new();
        block.push(joined);
        assert(block@.map_values(|x: Vec<char>| x@) =~= seq![a + mid@ + z]);
        self.replace_lines(sl, el, block);
        c
    }

    /// Toggles `mark` on the selection.
    fn wrap_or_unwrap_selection(&mut self, mark: Mark)
        requires
            wf(old(self)@),
        ensures
            final(self)@ == wrap_view(old(self)@, mark),
            wf(final(self)@),
            final(self).last_op_at == old(self).last_op_at,
    {
        let ghost v0 = self@;
        proof {
            lemma_sel_bounds(v0);
        }
        let b = self.selection_bounds();
        let ((sl, sc), (el, ec)) = match b {
            None => {
                return;
            },
            Some(x) => x,
        };
        let d = crate::text::chars_of(crate::ops::mark_delim(mark));
        let selected = self.selected_text().unwrap();
        let t = crate::text::chars_of(selected.as_str());
        let sw = strip_wrapped(&t, &d);
        let ghost stripped = sw is Some;
        let mid = match sw {
            Some(inner) => inner,
            None => {
                let mut w = d.clone();
                crate::text::extend_all(&mut w, &t);
                crate::text::extend_all(&mut w, &d);
                w
            },
        };
        let ms = crate::text::string_of(&mid);
        self.insert_text(ms.as_str());
    }

    /// Toggles `mark`: on the selection, or as a pending mark for the next typed text.
    pub(crate) fn toggle_mark(&mut self, mark: Mark)
        requires
            wf(old(self)@),
        ensures
            final(self)@ == toggle_view(old(self)@, mark),
            wf(final(self)@),
            final(self).last_op_at == old(self).last_op_at,
    {
        if self.sel_start.is_some() {
            self.wrap_or_unwrap_selection(mark);
        } else {
            let mut marks: Vec<Mark> = Vec::new();
            std::mem::swap(&mut marks, &mut self.pending_marks);
            self.pending_marks = crate::ops::toggle_pending(marks, mark);
        }
    }
}


/// The line without its block marker.
fn strip_block_prefix(line: &Vec<char>) -> (r: Vec<char>)
    ensures
        r@ == strip_prefix_of(line@),
{
    let (style, _pc) = crate::line::detect_line_style(line);
    let (t, ls) = crate::erase::trimmed_chars(line);
    match crate::erase::marker_chars(&t, style) {
        Some(m) => {
            let mut r = crate::text::slice_vec(line, 0, ls);
            crate::text::extend_from(&mut r, &t, m, t.len());
            assert(t@.subrange(m as int, t@.len() as int) =~= t@.skip(m as int));
            assert(r@ =~= line@.take(ls as int) + t@.skip(m as int));
            r
        },
        None => {
            let mut r: Vec<char> = Vec::new();
            crate::text::extend_all(&mut r, line);
            r
        },
    }
}

/// The list marker of `kind` for item number `n`.
fn list_marker_chars(kind: ListKind, n: usize) -> (r: Vec<char>)
    ensures
        r@ == list_marker(kind, n as nat),
{
    match kind {
        ListKind::Bullet => {
            let r = vec!['-', ' '];
            assert(r@ =~= seq!['-', ' ']);
            r
        },
        ListKind::Ordered => {
            let mut r = crate::text::dec_chars(n as u128);
            r.push('.');
            r.push(' ');
            r
        },
        ListKind::Task => {
            let r = vec!['-', ' ', '[', ' ', ']', ' '];
            assert(r@ =~= seq!['-', ' ', '[', ' ', ']', ' ']);
            r
        },
    }
}

proof fn lemma_no_nl_lit(s: Seq<char>)
    requires
        forall|i: int| 0 <= i < s.len() ==> #[trigger] s[i] != '\n',
    ensures
        !s.contains('\n'),
{
}

/// Text ending in a piece without line breaks: its last line ends in that piece.
pub proof fn lemma_split_append(p: Seq<char>, x: Seq<char>)
    requires
        !x.contains('\n'),
    ensures
        crate::text::split_lines(p + x).len() == crate::text::split_lines(p).len(),
        crate::text::split_lines(p + x).last() == crate::text::split_lines(p).last() + x,
        forall|i: int| 0 <= i < crate::text::split_lines(p).len() - 1 ==> #[trigger] crate::text::split_lines(p + x)[i] == crate::text::split_lines(p)[i],
    decreases p.len(),
{
    let q = p + x;
    crate::text::lemma_first_from(p, 0, p.len() as int, '\n');
    crate::text::lemma_first_from(q, 0, q.len() as int, '\n');
    match crate::text::first_from(p, 0, p.len() as int, '\n') {
        None => {
            if let Some(k) = crate::text::first_from(q, 0, q.len() as int, '\n') {
                if k < p.len() {
                    assert(q[k] == p[k]);
                } else {
                    assert(x[k - p.len()] == '\n');
                    assert(x.contains('\n'));
                }
            }
        },
        Some(k) => {
            assert(q[k] == '\n');
            if let Some(k2) = crate::text::first_from(q, 0, q.len() as int, '\n') {
                if k2 < k {
                    assert(q[k2] == p[k2]);
                }
                assert(k2 == k);
            }
            assert(q.skip(k + 1) =~= p.skip(k + 1) + x);
            assert(q.take(k) =~= p.take(k));
            lemma_split_append(p.skip(k + 1), x);
            crate::text::lemma_split_nonempty(p.skip(k + 1));
        },
    }
}

/// A line without line breaks is split into itself alone.
pub proof fn lemma_split_single(t: Seq<char>)
    requires
        !t.contains('\n'),
    ensures
        crate::text::split_lines(t) == seq![t],
{
    crate::text::lemma_first_from(t, 0, t.len() as int, '\n');
    if let Some(k) = crate::text::first_from(t, 0, t.len() as int, '\n') {
        assert(t[k] == '\n');
    }
}

/// After inserting text without line breaks, the cursor line is the text between the old
/// line's head and tail, and the cursor sits right after the text.
pub proof fn lemma_insert_single(v: EditorView, t: Seq<char>)
    requires
        wf(v),
        v.sel_start is None,
        !t.contains('\n'),
    ensures
        insert_view(v, t).cursor_line == v.cursor_line,
        insert_view(v, t).lines[v.cursor_line as int] == cur_line(v).take(cur_k(v)) + t + cur_line(v).skip(cur_k(v)),
        insert_view(v, t).cursor_col == byte_len(cur_line(v).take(cur_k(v)) + t) as usize,
{
    lemma_split_single(t);
    lemma_wf_cursor(v);
}

/// Inserting text that ends in `](url)` leaves the cursor after its `)`, with a
/// character boundary one byte before.
proof fn lemma_link_cursor(v: EditorView, p: Seq<char>)
    requires
        wf(v),
        insert_view(v, p + seq![']', '(', 'u', 'r', 'l', ')']).lines.len() <= usize::MAX,
        ({
            let w = insert_view(v, p + seq![']', '(', 'u', 'r', 'l', ')']);
            byte_len(w.lines[w.cursor_line as int]) <= usize::MAX
        }),
    ensures
        ({
            let w = insert_view(v, p + seq![']', '(', 'u', 'r', 'l', ')']);
            &&& w.cursor_col >= 1
            &&& is_boundary(w.lines[w.cursor_line as int], w.cursor_col - 1)
        }),
{
    let x = seq![']', '(', 'u', 'r', 'l', ')'];
    let t = p + x;
    lemma_no_nl_lit(x);
    lemma_split_append(p, x);
    crate::text::lemma_split_nonempty(p);
    let v0 = if v.sel_start is Some { delsel_view(v) } else { v };
    crate::newline::lemma_delsel_empty(v);
    lemma_wf_cursor(v0);
    let l = v0.cursor_line as int;
    let line = cur_line(v0);
    let k = cur_k(v0);
    let parts = crate::text::split_lines(t);
    let n = parts.len() - 1;
    let b1 = parts.update(0, line.take(k) + parts[0]);
    let ps = crate::text::split_lines(p);
    let body = if n == 0 { line.take(k) + ps.last() + seq![']', '(', 'u', 'r', 'l'] } else { ps.last() + seq![']', '(', 'u', 'r', 'l'] };
    assert(b1[n] =~= body + seq![')']);
    let blk = crate::editor::ins_block(line.take(k), parts, line.skip(k));
    assert(blk[n] == b1[n] + line.skip(k));
    let w = insert_view(v, t);
    assert(blk.len() == parts.len());
    assert(v0.lines.take(l).len() == l);
    assert(w.lines == v0.lines.take(l) + blk + v0.lines.skip(l + 1));
    assert(w.cursor_line == l + n);
    assert((v0.lines.take(l) + blk)[l + n] == blk[n]);
    assert(w.lines[w.cursor_line as int] == blk[n]);
    crate::text::lemma_byte_len_append(b1[n], line.skip(k));
    assert(w.cursor_col == byte_len(b1[n]));
    assert(b1[n] + line.skip(k) =~= body + (seq![')'] + line.skip(k)));
    lemma_prefix_boundary(body, seq![')'] + line.skip(k));
    crate::text::lemma_byte_len_append(body, seq![')']);
    crate::text::lemma_byte_len_single(')');
}

impl Editor {
    /// Cmd+K: inserts a link.
    pub(crate) fn insert_link(&mut self)
        requires
            wf(old(self)@),
        ensures
            final(self)@ == link_view(old(self)@),
            wf(final(self)@),
            final(self).last_op_at == old(self).last_op_at,
    {
        if self.sel_start.is_some() {
            self.link_selection();
        } else {
            self.link_at_cursor();
        }
    }

    /// `[selection](url)` in place of the selection.
    fn link_selection(&mut self)
        requires
            wf(old(self)@),
            old(self)@.sel_start is Some,
        ensures
            final(self)@ == link_view(old(self)@),
            wf(final(self)@),
            final(self).last_op_at == old(self).last_op_at,
    {
        let ghost v0 = self@;
        proof {
            lemma_sel_bounds(v0);
        }
        if self.selection_bounds().is_none() {
            self.dirty = true;
            return;
        }
        let selected = match self.selected_text() {
            Some(t) => crate::text::chars_of(t.as_str()),
            None => Vec::new(),
        };
        let mut text: Vec<char> = vec!['['];
        crate::text::extend_all(&mut text, &selected);
        text.push(']');
        text.push('(');
        text.push('u');
        text.push('r');
        text.push('l');
        text.push(')');
        assert(text@ =~= seq!['['] + sel_text(v0)->0 + seq![']', '(', 'u', 'r', 'l', ')']);
        let ts = crate::text::string_of(&text);
        self.insert_text(ts.as_str());
        assert(self.lines.len() == self@.lines.len());
        crate::text::str_fits(self.lines[self.cursor_line].as_str());
        proof {
            lemma_link_cursor(v0, seq!['['] + sel_text(v0)->0);
        }
        let c = self.cursor_col;
        self.cursor_col = c - 1;
        self.dirty = true;
    }

    /// `[text](url)` at the cursor, with the cursor before `l)`.
    fn link_at_cursor(&mut self)
        requires
            wf(old(self)@),
            old(self)@.sel_start is None,
        ensures
            final(self)@ == link_view(old(self)@),
            wf(final(self)@),
            final(self).last_op_at == old(self).last_op_at,
    {
        let ghost v0 = self@;
        proof {
            reveal_strlit("[text](url)");
            assert("[text](url)"@ =~= link_template());
        }
        self.insert_text("[text](url)");
        let ghost w = self@;
        let c = self.cursor_col;
        let l = self.cursor_line;
        crate::text::str_fits(self.lines[l].as_str());
        self.cursor_col = if c >= 2 {
            c - 2
        } else {
            0
        };
        self.dirty = true;
        proof {
            let t = link_template();
            lemma_no_nl_lit(t);
            lemma_insert_single(v0, t);
            let head = cur_line(v0).take(cur_k(v0));
            let tail = cur_line(v0).skip(cur_k(v0));
            let t2 = seq!['[', 't', 'e', 'x', 't', ']', '(', 'u', 'r'];
            assert(t =~= t2 + seq!['l', ')']);
            assert(head + t + tail =~= (head + t2) + (seq!['l', ')'] + tail));
            assert(head + t =~= (head + t2) + seq!['l', ')']);
            crate::text::lemma_byte_len_append(head + t2, seq!['l', ')']);
            crate::newline::lemma_ascii_prefix2(seq!['l', ')']);
            assert(seq!['l', ')'].take(2) =~= seq!['l', ')']);
            lemma_prefix_boundary(head + t2, seq!['l', ')'] + tail);
            lemma_prefix_boundary(head + t, tail);
            assert(w.lines[l as int] == head + t + tail);
            assert forall|i: int| 0 <= i < w.undo_stack.len() implies snap_ok(#[trigger] w.undo_stack[i]) by {}
            assert forall|i: int| 0 <= i < w.redo_stack.len() implies snap_ok(#[trigger] w.redo_stack[i]) by {}
        }
    }

    /// Gives the cursor line a block type.
    #[verifier::rlimit(40)]
    pub(crate) fn set_block_type(&mut self, t: BlockType)
        requires
            wf(old(self)@),
        ensures
            final(self)@ == block_type_view(old(self)@, t),
            wf(final(self)@),
            final(self).last_op_at == old(self).last_op_at,
    {
        self.sel_start = None;
        let ghost v0 = self@;
        proof {
            lemma_wf_cursor(v0);
        }
        let line = self.cursor_line;
        let cur = self.line_chars(line);
        let ghost nlv: Seq<char>;
        match t {
            BlockType::Paragraph => {
                let body = strip_block_prefix(&cur);
                proof {
                    nlv = body@;
                }
                self.set_line(line, &body);
            },
            BlockType::Heading(level) => {
                let n: usize = if level < 1 {
                    1
                } else if level > 6 {
                    6
                } else {
                    level as usize
                };
                let mut marker: Vec<char> = Vec::new();
                let mut i: usize = 0;
                while i < n
                    invariant
                        i <= n <= 6,
                        marker@ == Seq::new(i as nat, |j: int| '#'),
                    decreases n - i,
                {
                    marker.push('#');
                    i = i + 1;
                    assert(marker@ =~= Seq::new(i as nat, |j: int| '#'));
                }
                marker.push(' ');
                let body = strip_block_prefix(&cur);
                let bl = is_blank(&body, 0, body.len());
                assert(body@.subrange(0, body@.len() as int) =~= body@);
                if bl {
                    proof {
                        nlv = marker@;
                    }
                    self.set_line(line, &marker);
                } else {
                    crate::text::extend_all(&mut marker, &body);
                    proof {
                        nlv = marker@;
                    }
                    self.set_line(line, &marker);
                }
            },
            BlockType::Quote => {
                if cur.len() > 0 && cur[0] == '>' {
                    proof {
                        nlv = cur@;
                    }
                } else {
                    let mut q: Vec<char> = vec!['>', ' '];
                    crate::text::extend_all(&mut q, &cur);
                    assert(q@ =~= seq!['>', ' '] + cur@);
                    proof {
                        nlv = q@;
                    }
                    self.set_line(line, &q);
                }
            },
            BlockType::CodeBlock => {
                if crate::line::is_fence_chars(&cur) {
                    proof {
                        nlv = cur@;
                    }
                } else {
                    let body = strip_block_prefix(&cur);
                    let bs = crate::text::string_of(&body);
                    crate::text::str_fits(bs.as_str());
                    let blen = crate::text::byte_offset(&body, body.len());
                    let mut block: Vec<Vec<char>> = Vec::new();
                    block.push(vec!['`', '`', '`']);
                    let ghost bv = body@;
                    block.push(body);
                    block.push(vec!['`', '`', '`']);
                    assert(block@.map_values(|x: Vec<char>| x@) =~= seq![fence3(), bv, fence3()]);
                    self.replace_lines(line, line, block);
                    let total = self.lines.len();
                    assert(self@.lines.len() == v0.lines.len() + 2);
                    assert(line + 1 < total);
                    self.cursor_line = line + 1;
                    self.cursor_col = blen;
                    self.dirty = true;
                    proof {
                        assert(bv.take(bv.len() as int) =~= bv);
                        if v0.sel_start is None {
                            strip_no_nl(cur@);
                            lemma_no_nl_lit(fence3());
                            lemma_splice_doc(v0.lines, line as int, line as int, seq![fence3(), bv, fence3()]);
                            assert(self@.lines[line + 1] == bv);
                            lemma_boundary_at(bv, bv.len() as int);
                            let w = self@;
                            assert forall|i: int| 0 <= i < w.undo_stack.len() implies snap_ok(#[trigger] w.undo_stack[i]) by {
                                assert(w.undo_stack[i] == v0.undo_stack[i]);
                            }
                            assert forall|i: int| 0 <= i < w.redo_stack.len() implies snap_ok(#[trigger] w.redo_stack[i]) by {
                                assert(w.redo_stack[i] == v0.redo_stack[i]);
                            }
                        }
                    }
                    return;
                }
            },
        }
        assert(self@.lines == v0.lines.update(line as int, nlv));
        self.cursor_line = line;
        self.cursor_col = self.line_len(line);
        self.dirty = true;
        proof {
            assert(self@.lines[line as int] == nlv);
            if v0.sel_start is None {
                assert(!nlv.contains('\n')) by {
                    lemma_no_nl_lit(seq!['>', ' ']);
                    lemma_concat_no_newline(seq!['>', ' '], cur@);
                    match t {
                        BlockType::Heading(level) => {
                            strip_no_nl(cur@);
                            let n: int = if level < 1 { 1 } else if level > 6 { 6 } else { level as int };
                            lemma_no_nl_lit(heading_marker(n));
                            lemma_concat_no_newline(heading_marker(n), strip_prefix_of(cur@));
                        },
                        BlockType::Paragraph => {
                            strip_no_nl(cur@);
                        },
                        _ => {},
                    }
                }
                assert(nlv.take(nlv.len() as int) =~= nlv);
                lemma_boundary_at(nlv, nlv.len() as int);
                crate::erase::lemma_line_edit_wf(v0, self@, nlv);
            }
        }
    }
}

/// Stripping a block marker keeps a line free of line breaks.
proof fn strip_no_nl(line: Seq<char>)
    requires
        !line.contains('\n'),
    ensures
        !strip_prefix_of(line).contains('\n'),
{
    if let Some(m) = marker_len(line, detect(line).0) {
        let l = crate::text::lead_ws(line);
        crate::text::lemma_ws_run(line, 0);
        let t = crate::text::trim_start(line);
        lemma_take_skip_nl(line, l);
        if 0 <= m <= t.len() {
            lemma_take_skip_nl(t, m);
        }
        lemma_concat_no_newline(line.take(l), t.skip(m));
    }
}


impl Editor {
    /// Turns the selection (or the cursor line) into a list.
    pub(crate) fn wrap_list(&mut self, kind: ListKind)
        requires
            wf(old(self)@),
        ensures
            final(self)@ == wrap_list_view(old(self)@, kind),
            wf(final(self)@),
            final(self).last_op_at == old(self).last_op_at,
    {
        proof {
            lemma_sel_bounds(self@);
        }
        match self.selection_bounds() {
            None => self.list_line(kind),
            Some(((sl, sc), (el, ec))) => self.list_selection(kind, sl, sc, el, ec),
        }
    }

    /// The cursor line becomes a list item unless it already starts with the marker.
    fn list_line(&mut self, kind: ListKind)
        requires
            wf(old(self)@),
            sel_bounds(old(self)@) is None,
        ensures
            final(self)@ == wrap_list_view(old(self)@, kind),
            wf(final(self)@),
            final(self).last_op_at == old(self).last_op_at,
    {
        let ghost v0 = self@;
        proof {
            lemma_wf_cursor(v0);
        }
        let line = self.cursor_line;
        let cur = self.line_chars(line);
        let m = list_marker_chars(kind, 1);
        let starts = crate::text::starts_at(&cur, 0, &m);
        proof {
            if starts {
                assert(cur@.take(m@.len() as int) =~= cur@.subrange(0, m@.len() as int));
            } else if cur@.len() >= m@.len() && cur@.take(m@.len() as int) == m@ {
                assert(cur@.take(m@.len() as int) =~= cur@.subrange(0, m@.len() as int));
            }
        }
        if !starts {
            let mut nl = m.clone();
            assert(nl@ == m@);
            crate::text::extend_all(&mut nl, &cur);
            let ns = crate::text::string_of(&nl);
            crate::text::str_fits(ns.as_str());
            let k = self.char_k(line, self.cursor_col);
            proof {
                assert(m@.take(m@.len() as int) =~= m@);
                assert(nl@ =~= m@ + cur@);
                lemma_prefix_boundary(m@, cur@);
                crate::text::lemma_byte_len_append(m@, cur@.take(k as int));
                crate::text::lemma_byte_at_mono(cur@, k as int, cur@.len() as int);
                assert(cur@.take(cur@.len() as int) =~= cur@);
            }
            let ml = crate::text::byte_offset(&m, m.len());
            let ghost nv = nl@;
            self.set_line(line, &nl);
            self.cursor_col = self.cursor_col + ml;
            self.sel_start = None;
            self.dirty = true;
            proof {
                assert(nv.take(m@.len() + k) =~= m@ + cur@.take(k as int));
                lemma_boundary_at(nv, m@.len() + k);
                lemma_list_marker_no_nl(kind, 1);
                lemma_concat_no_newline(m@, cur@);
                crate::erase::lemma_line_edit_wf(v0, self@, nv);
            }
        }
        }

    /// Lines `sl..=last` as list items, numbered from 1.
    fn list_items(&self, kind: ListKind, sl: usize, last: usize) -> (r: Vec<Vec<char>>)
        requires
            sl <= last < self@.lines.len(),
        ensures
            r@.map_values(|x: Vec<char>| x@) == wrap_items(self@, kind, sl as int, last as int),
    {
        let ghost items = wrap_items(self@, kind, sl as int, last as int);
        let mut out: Vec<Vec<char>> = Vec::new();
        let mut l = sl;
        let n = self.lines.len();
        assert(last < n);
        assert(out@.map_values(|x: Vec<char>| x@) =~= items.take(0));
        while l <= last
            invariant
                sl <= l <= last + 1,
                last < n,
                last < self@.lines.len(),
                items == wrap_items(self@, kind, sl as int, last as int),
                out@.map_values(|x: Vec<char>| x@) == items.take(l - sl),
            decreases last + 1 - l,
        {
            let lc = self.line_chars(l);
            let mut item = list_marker_chars(kind, l - sl + 1);
            crate::text::extend_all(&mut item, &lc);
            let ghost prev = out@.map_values(|x: Vec<char>| x@);
            out.push(item);
            assert(out@.map_values(|x: Vec<char>| x@) =~= prev.push(item@));
            assert(items.take(l - sl + 1) =~= items.take(l - sl).push(items[l - sl]));
            l = l + 1;
        }
        assert(items.take(l - sl) =~= items);
        out
    }

    /// Each line the selection touches becomes a whole list item.
    fn list_selection(&mut self, kind: ListKind, sl: usize, sc: usize, el: usize, ec: usize)
        requires
            wf(old(self)@),
            sel_bounds(old(self)@) == Some(((sl, sc), (el, ec))),
        ensures
            final(self)@ == wrap_list_view(old(self)@, kind),
            wf(final(self)@),
            final(self).last_op_at == old(self).last_op_at,
    {
        let ghost v0 = self@;
        proof {
            lemma_sel_bounds(v0);
        }
        let last = if el > sl && ec == 0 {
            el - 1
        } else {
            el
        };
        let items = self.list_items(kind, sl, last);
        let ghost iv = items@.map_values(|x: Vec<char>| x@);
        proof {
            assert forall|i: int| 0 <= i < iv.len() implies !(#[trigger] iv[i]).contains('\n') by {
                lemma_list_marker_no_nl(kind, (i + 1) as nat);
                lemma_concat_no_newline(list_marker(kind, (i + 1) as nat), v0.lines[sl + i]);
            }
            lemma_splice_doc(v0.lines, sl as int, last as int, iv);
        }
        self.replace_lines(sl, last, items);
        self.cursor_line = last;
        self.cursor_col = self.line_len(last);
        self.sel_start = None;
        self.dirty = true;
        proof {
            let w = self@;
            assert(w.lines[last as int] == iv.last());
            assert(iv.last().take(iv.last().len() as int) =~= iv.last());
            lemma_boundary_at(iv.last(), iv.last().len() as int);
            assert forall|i: int| 0 <= i < w.undo_stack.len() implies snap_ok(#[trigger] w.undo_stack[i]) by {
                assert(w.undo_stack[i] == v0.undo_stack[i]);
            }
            assert forall|i: int| 0 <= i < w.redo_stack.len() implies snap_ok(#[trigger] w.redo_stack[i]) by {
                assert(w.redo_stack[i] == v0.redo_stack[i]);
            }
        }
    }
}

proof fn lemma_list_marker_no_nl(kind: ListKind, n: nat)
    ensures
        !list_marker(kind, n).contains('\n'),
{
    match kind {
        ListKind::Ordered => {
            crate::newline::lemma_dec_no_nl(n);
            lemma_no_nl_lit(seq!['.', ' ']);
            lemma_concat_no_newline(dec_str(n), seq!['.', ' ']);
        },
        ListKind::Bullet => {
            lemma_no_nl_lit(seq!['-', ' ']);
        },
        ListKind::Task => {
            lemma_no_nl_lit(seq!['-', ' ', '[', ' ', ']', ' ']);
        },
    }
}

} // verus!
