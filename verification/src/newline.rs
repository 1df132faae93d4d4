//! Enter, Shift+Enter and Tab, which depend on the kind of the cursor line.

use vstd::prelude::*;
use crate::editor::{
    fence_parity,
    Editor, EditorView, cur_k, cur_line, delsel_view, doc_ok, insert_view, lemma_concat_no_newline,
    lemma_sel_bounds, lemma_splice_doc, lemma_sub_no_newline, lemma_wf_cursor, pos_ok, sel_bounds,
    snap_ok, wf,
};
use crate::line::{LineStyle, detect, line_prefix};
use crate::text::{
    byte_at, byte_len, char_pos, dec_str, dec_value, digit_run, is_boundary, is_digit, is_ws,
    lead_ws, lemma_boundary_at, run_of, trim, trim_end, trim_start,
};

verus! {

/// Every character is whitespace (`str::trim` leaves nothing).
pub open spec fn blank(s: Seq<char>) -> bool {
    forall|i: int| 0 <= i < s.len() ==> is_ws(#[trigger] s[i])
}

/// The cursor line before the cursor.
pub open spec fn head_of(v: EditorView) -> Seq<char> {
    cur_line(v).take(cur_k(v))
}

/// The cursor line after the cursor.
pub open spec fn tail_of(v: EditorView) -> Seq<char> {
    cur_line(v).skip(cur_k(v))
}

/// The document with the cursor line replaced by `block`.
pub open spec fn splice(v: EditorView, block: Seq<Seq<char>>) -> Seq<Seq<char>> {
    v.lines.take(v.cursor_line as int) + block + v.lines.skip(v.cursor_line + 1)
}

/// Splits the cursor line at the cursor; the cursor goes to the start of the new line.
pub open spec fn plain_nl(v: EditorView) -> EditorView {
    EditorView {
        lines: splice(v, seq![head_of(v), tail_of(v)]),
        cursor_line: (v.cursor_line + 1) as usize,
        cursor_col: 0,
        ..v
    }
}

/// Enter in a paragraph: in the middle, a new paragraph after an empty line; at the end
/// with text on the next line, an empty line; at the start, an empty line above.
pub open spec fn paragraph_nl(v: EditorView) -> EditorView {
    let l = v.cursor_line as int;
    let head = head_of(v);
    let tail = tail_of(v);
    let next_nonempty = l + 1 < v.lines.len() && !blank(v.lines[l + 1]);
    if !blank(head) && !blank(tail) {
        EditorView {
            lines: splice(v, seq![head, Seq::empty(), tail]),
            cursor_line: (l + 2) as usize,
            cursor_col: 0,
            ..v
        }
    } else if tail.len() == 0 && next_nonempty {
        EditorView { lines: splice(v, seq![cur_line(v), Seq::empty()]), cursor_line: (l + 1) as usize, cursor_col: 0, ..v }
    } else if head.len() == 0 && !blank(tail) {
        EditorView { lines: splice(v, seq![Seq::empty(), cur_line(v)]), cursor_line: (l + 1) as usize, cursor_col: 0, ..v }
    } else {
        plain_nl(v)
    }
}

/// `s` ends with two spaces.
pub open spec fn ends_two_spaces(s: Seq<char>) -> bool {
    s.len() >= 2 && s[s.len() - 1] == ' ' && s[s.len() - 2] == ' '
}

/// Shift+Enter: the line before the cursor gets two trailing spaces (unless it has them),
/// then the line is split; at the end of the line the cursor stays on it.
pub open spec fn hard_nl(v: EditorView) -> EditorView {
    let l = v.cursor_line as int;
    let head = head_of(v);
    let nh = if ends_two_spaces(head) { head } else { head + seq![' ', ' '] };
    let w = EditorView { lines: splice(v, seq![nh, tail_of(v)]), ..v };
    if tail_of(v).len() == 0 {
        EditorView { cursor_line: l as usize, cursor_col: byte_len(nh) as usize, ..w }
    } else {
        EditorView { cursor_line: (l + 1) as usize, cursor_col: 0, ..w }
    }
}

/// Enter in a quote: the new line continues the quote; on an empty quote line the quote ends.
pub open spec fn quote_nl(v: EditorView) -> EditorView {
    let l = v.cursor_line as int;
    let cur = cur_line(v);
    let head = head_of(v);
    let marker = if trim_end(head) == seq!['>'] { seq!['>'] } else { seq!['>', ' '] };
    let t = trim(cur);
    let empty = blank(t.skip(run_of(t, 0, '>')));
    if empty && v.cursor_col >= byte_len(cur.skip(run_of(cur, 0, '>'))) {
        EditorView {
            lines: splice(v, seq![head, Seq::empty()]),
            cursor_line: (l + 1) as usize,
            cursor_col: 0,
            ..v
        }
    } else {
        EditorView {
            lines: splice(v, seq![head, marker + tail_of(v)]),
            cursor_line: (l + 1) as usize,
            cursor_col: byte_len(marker) as usize,
            ..v
        }
    }
}

/// The list item of the cursor line has nothing after its own marker.
pub open spec fn item_empty(cur: Seq<char>) -> bool {
    match crate::erase::marker_len(cur, detect(cur).0) {
        Some(m) => blank(trim_start(cur).skip(m)),
        None => true,
    }
}

/// The marker of the next ordered item (`n + 1` after the number that starts the line,
/// `1. ` when the line does not start with one).
pub open spec fn next_ordered(cur: Seq<char>) -> Seq<char> {
    let i = digit_run(cur, 0);
    if i > 0 && i < cur.len() && (cur[i] == '.' || cur[i] == ')') {
        let d = dec_value(cur.take(i));
        let n: nat = if d <= u64::MAX { d } else { 1 };
        dec_str(n + 1) + (if cur[i] == '.' { seq!['.', ' '] } else { seq![')', ' '] })
    } else {
        seq!['1', '.', ' ']
    }
}

/// The number that starts the line after its indentation, when it fits in `u64`.
pub open spec fn ordered_start_of(cur: Seq<char>) -> Option<u64> {
    let t = trim_start(cur);
    let i = digit_run(t, 0);
    if i > 0 && dec_value(t.take(i)) <= u64::MAX {
        Some(dec_value(t.take(i)) as u64)
    } else {
        None
    }
}

/// The delimiter after the number of an ordered item: `)` when the item uses it, else `.`.
pub open spec fn ordered_delim(cur: Seq<char>) -> char {
    let l = lead_ws(cur);
    let i = digit_run(cur, l);
    if l + i < cur.len() && cur[l + i] == ')' {
        ')'
    } else {
        '.'
    }
}

/// Enter in a list item: an empty item ends the list; otherwise a new item with the same
/// indentation and the next marker.
pub open spec fn list_nl(v: EditorView, marker: Seq<char>, start: Option<u64>) -> EditorView {
    let l = v.cursor_line as int;
    let cur = cur_line(v);
    if item_empty(cur) {
        EditorView { lines: splice(v, seq![cur, Seq::empty()]), cursor_line: (l + 1) as usize, cursor_col: 0, ..v }
    } else {
        let indent = cur.take(lead_ws(cur));
        let nm = match start {
            Some(s) => dec_str((s + 1) as nat) + seq![ordered_delim(cur), ' '],
            None => marker,
        };
        EditorView {
            lines: splice(v, seq![head_of(v), indent + nm + tail_of(v)]),
            cursor_line: (l + 1) as usize,
            cursor_col: (byte_len(indent) + byte_len(nm)) as usize,
            ..v
        }
    }
}

/// The state after Enter (`hard` for Shift+Enter).
pub open spec fn newline_view(v: EditorView, hard: bool) -> EditorView {
    let v1 = if v.sel_start is Some { delsel_view(v) } else { v };
    let cur = cur_line(v1);
    if fence_parity(v1.lines, v1.cursor_line as int) {
        plain_nl(v1)
    } else {
        match detect(cur).0 {
            LineStyle::Quote => quote_nl(v1),
            LineStyle::Bullet => list_nl(v1, seq!['-', ' '], None),
            LineStyle::Ordered => list_nl(v1, next_ordered(cur), ordered_start_of(cur)),
            LineStyle::Plain => if hard { hard_nl(v1) } else { paragraph_nl(v1) },
            _ => plain_nl(v1),
        }
    }
}




/// Four spaces.
pub open spec fn spaces4() -> Seq<char> {
    seq![' ', ' ', ' ', ' ']
}

/// The state after Tab (`shift`: Shift+Tab): on a list item, at its start or right after
/// its marker, the item is indented; Shift+Tab removes one level of indentation; elsewhere
/// four spaces are inserted.
pub open spec fn tab_view(v: EditorView, shift: bool) -> EditorView {
    let l = v.cursor_line as int;
    let cur = cur_line(v);
    let st = detect(cur).0;
    if v.sel_start is Some {
        insert_view(v, spaces4())
    } else if st is Bullet || st is Ordered {
        if shift {
            if cur.len() >= 4 && cur.take(4) == spaces4() {
                EditorView {
                    lines: v.lines.update(l, cur.skip(4)),
                    cursor_col: (if v.cursor_col >= 4 { v.cursor_col - 4 } else { 0 }) as usize,
                    ..v
                }
            } else if cur.len() >= 1 && cur[0] == '\t' {
                EditorView {
                    lines: v.lines.update(l, cur.skip(1)),
                    cursor_col: (if v.cursor_col >= 1 { v.cursor_col - 1 } else { 0 }) as usize,
                    ..v
                }
            } else {
                v
            }
        } else if v.cursor_col == 0 || v.cursor_col == line_prefix(cur) {
            EditorView { lines: v.lines.update(l, spaces4() + cur), cursor_col: (v.cursor_col + 4) as usize, ..v }
        } else {
            insert_view(v, spaces4())
        }
    } else {
        insert_view(v, spaces4())
    }
}

/// Dropping `n` one-byte characters from the front moves every later boundary back by `n`.
pub proof fn lemma_drop_ascii(cur: Seq<char>, n: int, k: int)
    requires
        0 <= n <= k <= cur.len(),
        forall|i: int| 0 <= i < n ==> (#[trigger] cur[i] as u32) < 0x80,
    ensures
        byte_at(cur, k) == n + byte_at(cur.skip(n), k - n),
        byte_at(cur, n) == n,
    decreases n,
{
    if n > 0 {
        lemma_drop_ascii(cur.skip(1), n - 1, k - 1);
        assert forall|i: int| 0 <= i < n - 1 implies (#[trigger] cur.skip(1)[i] as u32) < 0x80 by {
            assert(cur.skip(1)[i] == cur[i + 1]);
        }
        assert(cur.skip(1).skip(n - 1) =~= cur.skip(n));
        assert(cur.take(k) =~= seq![cur[0]] + cur.skip(1).take(k - 1));
        crate::text::lemma_byte_len_append(seq![cur[0]], cur.skip(1).take(k - 1));
        crate::text::lemma_byte_len_single(cur[0]);
        assert(cur.take(n) =~= seq![cur[0]] + cur.skip(1).take(n - 1));
        crate::text::lemma_byte_len_append(seq![cur[0]], cur.skip(1).take(n - 1));
    } else {
        assert(cur.skip(0) =~= cur);
        assert(cur.take(0) =~= Seq::<char>::empty());
    }
}

pub proof fn lemma_spaces4()
    ensures
        byte_len(spaces4()) == 4,
        !spaces4().contains('\n'),
        forall|i: int| 0 <= i < 4 ==> (#[trigger] spaces4()[i] as u32) < 0x80,
{
    let s = spaces4();
    lemma_drop_ascii(s, 4, 4);
    assert(s.take(4) =~= s);
}

pub proof fn lemma_boundary_zero(s: Seq<char>)
    ensures
        is_boundary(s, 0),
{
    assert(s.take(0) =~= Seq::<char>::empty());
    lemma_boundary_at(s, 0);
}

/// The end of a prefix is a character boundary of the whole.
pub proof fn lemma_prefix_boundary(a: Seq<char>, b: Seq<char>)
    ensures
        is_boundary(a + b, byte_len(a) as int),
        byte_len(a + b) == byte_len(a) + byte_len(b),
{
    assert((a + b).take(a.len() as int) =~= a);
    lemma_boundary_at(a + b, a.len() as int);
    crate::text::lemma_byte_len_append(a, b);
}

pub proof fn lemma_take_skip_nl(s: Seq<char>, k: int)
    requires
        !s.contains('\n'),
        0 <= k <= s.len(),
    ensures
        !s.take(k).contains('\n'),
        !s.skip(k).contains('\n'),
{
    lemma_sub_no_newline(s, 0, k);
    lemma_sub_no_newline(s, k, s.len() as int);
    assert(s.take(k) =~= s.subrange(0, k));
    assert(s.skip(k) =~= s.subrange(k, s.len() as int));
}

pub proof fn lemma_dec_no_nl(n: nat)
    ensures
        !dec_str(n).contains('\n'),
        forall|i: int| 0 <= i < dec_str(n).len() ==> is_digit(#[trigger] dec_str(n)[i]),
    decreases n,
{
    if n >= 10 {
        lemma_dec_no_nl(n / 10);
    }
}

/// Replacing the cursor line by lines without line breaks whose first line keeps the text
/// before the cursor keeps a state valid when the selection is empty.
pub proof fn lemma_splice_wf(v: EditorView, block: Seq<Seq<char>>, w: EditorView)
    requires
        wf(v),
        v.sel_start is None || v.sel_start == Some((v.cursor_line, v.cursor_col)),
        block.len() >= 1,
        forall|i: int| 0 <= i < block.len() ==> !(#[trigger] block[i]).contains('\n'),
        cur_k(v) <= block[0].len(),
        block[0].take(cur_k(v)) == head_of(v),
        w.lines == splice(v, block),
        w.sel_start == v.sel_start,
        w.undo_stack == v.undo_stack,
        w.redo_stack == v.redo_stack,
        pos_ok(w.lines, (w.cursor_line, w.cursor_col)),
    ensures
        wf(w),
{
    lemma_wf_cursor(v);
    lemma_splice_doc(v.lines, v.cursor_line as int, v.cursor_line as int, block);
    let l = v.cursor_line as int;
    assert(w.lines[l] == block[0]);
    if v.sel_start is Some {
        let k = cur_k(v);
        assert(block[0].take(k) == cur_line(v).take(k));
        crate::text::lemma_boundary_at(block[0], k);
    }
    assert forall|i: int| 0 <= i < w.undo_stack.len() implies snap_ok(#[trigger] w.undo_stack[i]) by {
        assert(w.undo_stack[i] == v.undo_stack[i]);
    }
    assert forall|i: int| 0 <= i < w.redo_stack.len() implies snap_ok(#[trigger] w.redo_stack[i]) by {
        assert(w.redo_stack[i] == v.redo_stack[i]);
    }
}

pub proof fn lemma_splice_len(v: EditorView, block: Seq<Seq<char>>)
    requires
        v.cursor_line < v.lines.len(),
    ensures
        splice(v, block).len() == v.lines.len() - 1 + block.len(),
        forall|i: int| 0 <= i < block.len() ==> #[trigger] splice(v, block)[v.cursor_line + i] == block[i],
{
}

/// Every character of `s[lo..hi]` is whitespace.
pub fn is_blank(s: &[char], lo: usize, hi: usize) -> (r: bool)
    requires
        lo <= hi <= s@.len(),
    ensures
        r == blank(s@.subrange(lo as int, hi as int)),
{
    let mut i = lo;
    while i < hi
        invariant
            lo <= i <= hi <= s@.len(),
            forall|j: int| lo <= j < i ==> is_ws(#[trigger] s@[j]),
        decreases hi - i,
    {
        if !crate::text::is_whitespace(s[i]) {
            assert(s@.subrange(lo as int, hi as int)[i - lo] == s@[i as int]);
            return false;
        }
        i = i + 1;
    }
    assert forall|j: int| 0 <= j < hi - lo implies is_ws(#[trigger] s@.subrange(lo as int, hi as int)[j]) by {
        assert(s@.subrange(lo as int, hi as int)[j] == s@[lo + j]);
    }
    true
}

impl Editor {
    /// Replaces the cursor line by `block`.
    fn splice_line(&mut self, block: Vec<Vec<char>>)
        requires
            old(self)@.cursor_line < old(self)@.lines.len(),
        ensures
            final(self)@ == (EditorView { lines: splice(old(self)@, block@.map_values(|x: Vec<char>| x@)), ..old(self)@ }),
            final(self)@.lines.len() == old(self)@.lines.len() - 1 + block@.len(),
            final(self).last_op_at == old(self).last_op_at,
    {
        let l = self.cursor_line;
        self.replace_lines(l, l, block);
        proof {
            lemma_splice_len(old(self)@, block@.map_values(|x: Vec<char>| x@));
        }
    }

    /// Splits the cursor line at the cursor.
    fn plain_newline(&mut self, line: usize, col: usize)
        requires
            wf(old(self)@),
            old(self)@.sel_start is None || old(self)@.sel_start == Some((line, col)),
            line == old(self)@.cursor_line,
            col == old(self)@.cursor_col,
        ensures
            final(self)@ == plain_nl(old(self)@),
            wf(final(self)@),
            final(self).last_op_at == old(self).last_op_at,
    {
        let ghost v0 = self@;
        proof {
            lemma_wf_cursor(v0);
        }
        let k = self.char_k(line, col);
        let s = self.line_chars(line);
        let head = crate::text::slice_vec(&s, 0, k);
        let tail = crate::text::slice_vec(&s, k, s.len());
        let ghost block = seq![head@, tail@];
        proof {
            assert(head@ =~= head_of(v0));
            assert(tail@ =~= tail_of(v0));
            lemma_take_skip_nl(s@, k as int);
            assert(head@.take(k as int) =~= head@);
        }
        let mut b: Vec<Vec<char>> = Vec::new();
        b.push(head);
        b.push(tail);
        assert(b@.map_values(|x: Vec<char>| x@) =~= block);
        self.splice_line(b);
        let n = self.lines.len();
        assert(line + 1 < n);
        self.cursor_line = line + 1;
        self.cursor_col = 0;
        proof {
            assert(self@.lines[line + 1] == tail@);
            lemma_boundary_zero(tail@);
            lemma_splice_wf(v0, block, self@);
        }
    }

    /// Enter in a paragraph.
    fn paragraph_newline(&mut self, line: usize, col: usize)
        requires
            wf(old(self)@),
            old(self)@.sel_start is None || old(self)@.sel_start == Some((line, col)),
            line == old(self)@.cursor_line,
            col == old(self)@.cursor_col,
        ensures
            final(self)@ == paragraph_nl(old(self)@),
            wf(final(self)@),
            final(self).last_op_at == old(self).last_op_at,
    {
        let ghost v0 = self@;
        proof {
            lemma_wf_cursor(v0);
        }
        let k = self.char_k(line, col);
        let s = self.line_chars(line);
        let n = s.len();
        let count = self.lines.len();
        assert(line < count);
        let next_nonempty = if line + 1 < count {
            let nx = self.line_chars(line + 1);
            let b = is_blank(&nx, 0, nx.len());
            assert(nx@.subrange(0, nx@.len() as int) =~= nx@);
            !b
        } else {
            false
        };
        let head_blank = is_blank(&s, 0, k);
        let tail_blank = is_blank(&s, k, n);
        proof {
            assert(s@.subrange(0, k as int) =~= head_of(v0));
            assert(s@.subrange(k as int, n as int) =~= tail_of(v0));
            lemma_take_skip_nl(s@, k as int);
        }
        if !head_blank && !tail_blank {
            let head = crate::text::slice_vec(&s, 0, k);
            let tail = crate::text::slice_vec(&s, k, n);
            let ghost block = seq![head@, Seq::<char>::empty(), tail@];
            let mut b: Vec<Vec<char>> = Vec::new();
            b.push(head);
            b.push(Vec::new());
            b.push(tail);
            assert(b@.map_values(|x: Vec<char>| x@) =~= block);
            self.splice_line(b);
            let total = self.lines.len();
            assert(line + 2 < total);
            self.cursor_line = line + 2;
            self.cursor_col = 0;
            proof {
                assert(block[0].take(k as int) =~= block[0]);
                lemma_boundary_zero(block[2]);
                assert(!Seq::<char>::empty().contains('\n'));
                lemma_splice_wf(v0, block, self@);
            }
        } else if k == n && next_nonempty {
            let ghost block = seq![s@, Seq::<char>::empty()];
            let mut b: Vec<Vec<char>> = Vec::new();
            b.push(s);
            b.push(Vec::new());
            assert(b@.map_values(|x: Vec<char>| x@) =~= block);
            self.splice_line(b);
            let total = self.lines.len();
            assert(line + 1 < total);
            self.cursor_line = line + 1;
            self.cursor_col = 0;
            proof {
                assert(tail_of(v0) =~= Seq::<char>::empty());
                assert(block[0].take(k as int) =~= block[0].take(k as int));
                lemma_boundary_zero(block[1]);
                assert(!Seq::<char>::empty().contains('\n'));
                lemma_splice_wf(v0, block, self@);
            }
        } else if k == 0 && !tail_blank {
            let ghost block = seq![Seq::<char>::empty(), s@];
            let mut b: Vec<Vec<char>> = Vec::new();
            b.push(Vec::new());
            b.push(s);
            assert(b@.map_values(|x: Vec<char>| x@) =~= block);
            self.splice_line(b);
            let total = self.lines.len();
            assert(line + 1 < total);
            self.cursor_line = line + 1;
            self.cursor_col = 0;
            proof {
                assert(head_of(v0) =~= Seq::<char>::empty());
                assert(block[0].take(0) =~= Seq::<char>::empty());
                lemma_boundary_zero(block[1]);
                assert(!Seq::<char>::empty().contains('\n'));
                lemma_splice_wf(v0, block, self@);
            }
        } else {
            proof {
                if k == n {
                    assert(tail_of(v0).len() == 0);
                } else {
                    assert(tail_of(v0).len() != 0);
                }
                if k == 0 {
                    assert(head_of(v0).len() == 0);
                } else {
                    assert(head_of(v0).len() != 0);
                }
            }
            self.plain_newline(line, col);
        }
    }

    /// Shift+Enter: hard line break.
    fn hard_break(&mut self, line: usize, col: usize)
        requires
            wf(old(self)@),
            old(self)@.sel_start is None || old(self)@.sel_start == Some((line, col)),
            line == old(self)@.cursor_line,
            col == old(self)@.cursor_col,
        ensures
            final(self)@ == hard_nl(old(self)@),
            wf(final(self)@),
            final(self).last_op_at == old(self).last_op_at,
    {
        let ghost v0 = self@;
        proof {
            lemma_wf_cursor(v0);
        }
        let k = self.char_k(line, col);
        let s = self.line_chars(line);
        let n = s.len();
        let mut head = crate::text::slice_vec(&s, 0, k);
        let tail = crate::text::slice_vec(&s, k, n);
        proof {
            assert(head@ =~= head_of(v0));
            assert(tail@ =~= tail_of(v0));
            lemma_take_skip_nl(s@, k as int);
        }
        let ends = k >= 2 && head[k - 1] == ' ' && head[k - 2] == ' ';
        if !ends {
            head.push(' ');
            head.push(' ');
            proof {
                assert(!seq![' ', ' '].contains('\n'));
                lemma_concat_no_newline(head_of(v0), seq![' ', ' ']);
                assert(head@ =~= head_of(v0) + seq![' ', ' ']);
            }
        }
        let ghost nh = head@;
        let at_end = k == n;
        let nh_str = crate::text::string_of(&head);
        crate::text::str_fits(nh_str.as_str());
        let ghost block = seq![nh, tail@];
        let mut b: Vec<Vec<char>> = Vec::new();
        b.push(head);
        b.push(tail);
        assert(b@.map_values(|x: Vec<char>| x@) =~= block);
        self.splice_line(b);
        proof {
            assert(nh.take(k as int) =~= head_of(v0));
        }
        if at_end {
            let nc = crate::text::chars_of(nh_str.as_str());
            let len = crate::text::byte_offset(&nc, nc.len());
            self.cursor_col = len;
            proof {
                assert(nh.take(nh.len() as int) =~= nh);
                lemma_boundary_at(nh, nh.len() as int);
                lemma_splice_wf(v0, block, self@);
            }
        } else {
            let total = self.lines.len();
            assert(line + 1 < total);
            self.cursor_line = line + 1;
            self.cursor_col = 0;
            proof {
                lemma_boundary_zero(tail@);
                lemma_splice_wf(v0, block, self@);
            }
        }
    }
}



proof fn lemma_skip_bytes_le(t: Seq<char>, m: int)
    requires
        0 <= m <= t.len(),
    ensures
        byte_len(t) == byte_at(t, m) + byte_len(t.skip(m)),
        byte_len(t.skip(m)) <= byte_len(t),
{
    assert(t.take(m) + t.skip(m) =~= t);
    crate::text::lemma_byte_len_append(t.take(m), t.skip(m));
}


/// `trim_end(head) == ">"`.
fn gt_only(head: &Vec<char>) -> (r: bool)
    ensures
        r == (trim_end(head@) == seq!['>']),
{
    let k = head.len();
    let he = crate::text::trim_end_len(head, k);
    let is_gt = he == 1 && head[0] == '>';
    proof {
        crate::text::lemma_trail_ws(head@, k as int);
        assert(head@.take(k as int) =~= head@);
        if is_gt {
            assert(trim_end(head@) =~= seq!['>']);
        } else {
            assert(trim_end(head@) != seq!['>']) by {
                if trim_end(head@) == seq!['>'] {
                    assert(trim_end(head@).len() == 1);
                    assert(trim_end(head@)[0] == head@[0]);
                }
            }
        }
    }
    is_gt
}

/// Enter on this quote line ends the quote: nothing but `>` and whitespace, and the
/// cursor is not inside the leading `>` run.
fn quote_exit(s: &Vec<char>, col: usize) -> (r: bool)
    requires
        byte_len(s@) <= usize::MAX,
    ensures
        r == ({
            let t = trim(s@);
            blank(t.skip(run_of(t, 0, '>'))) && col >= byte_len(s@.skip(run_of(s@, 0, '>')))
        }),
{
    let n = s.len();
    let ls = crate::text::skip_ws(s, 0);
    proof {
        crate::text::lemma_ws_run(s@, 0);
    }
    let ts = crate::text::slice_vec(s, ls, n);
    let te = crate::text::trim_end_len(&ts, ts.len());
    proof {
        crate::text::lemma_trail_ws(ts@, ts@.len() as int);
    }
    let t = crate::text::slice_vec(&ts, 0, te);
    proof {
        assert(ts@ =~= trim_start(s@));
        assert(ts@.take(ts@.len() as int) =~= ts@);
        assert(t@ =~= trim(s@));
    }
    let r = crate::text::count_run(&t, 0, '>');
    let empty = is_blank(&t, r, t.len());
    assert(t@.subrange(r as int, t@.len() as int) =~= t@.skip(r as int));
    let r2 = crate::text::count_run(s, 0, '>');
    let total_b = crate::text::byte_offset(s, n);
    let pre_b = crate::text::byte_offset(s, r2);
    proof {
        assert(s@.take(n as int) =~= s@);
        lemma_skip_bytes_le(s@, r2 as int);
        crate::text::lemma_byte_at_mono(s@, r2 as int, n as int);
    }
    let rest_b = total_b - pre_b;
    empty && col >= rest_b
}

/// Whether the list item `s` has nothing after its own marker.
fn item_is_empty(s: &Vec<char>) -> (r: bool)
    ensures
        r == item_empty(s@),
{
    let (style, _pc) = crate::line::detect_line_style(s);
    let (t, _ls) = crate::erase::trimmed_chars(s);
    match crate::erase::marker_chars(&t, style) {
        Some(m) => {
            let b = is_blank(&t, m, t.len());
            assert(t@.subrange(m as int, t@.len() as int) =~= t@.skip(m as int));
            b
        },
        None => true,
    }
}

/// The line of the next list item: the indentation of `s`, the next marker, then `tail`;
/// with the byte length of indentation and marker.
fn next_item_line(s: &Vec<char>, ls: usize, marker: &[char], start: Option<u64>, dl: char, tail: &Vec<char>) -> (r: (Vec<char>, usize))
    requires
        dl == '.' || dl == ')',
        ls <= s@.len(),
        !marker@.contains('\n'),
        !s@.contains('\n'),
        !tail@.contains('\n'),
    ensures
        ({
            let nm = match start {
                Some(st) => dec_str((st + 1) as nat) + seq![dl, ' '],
                None => marker@,
            };
            &&& r.0@ == s@.take(ls as int) + nm + tail@
            &&& r.1 == byte_len(s@.take(ls as int) + nm)
            &&& !r.0@.contains('\n')
        }),
{
    let mut second = crate::text::slice_vec(s, 0, ls);
    let ghost indent = second@;
    match start {
        Some(st) => {
            let digits = crate::text::dec_chars(st as u128 + 1);
            crate::text::extend_all(&mut second, &digits);
            second.push(dl);
            second.push(' ');
            proof {
                lemma_dec_no_nl((st + 1) as nat);
            }
        },
        None => {
            crate::text::extend_all(&mut second, marker);
        },
    }
    let pre_len = second.len();
    let ghost nm = second@.skip(indent.len() as int);
    proof {
        assert(indent =~= s@.take(ls as int));
        assert(second@ =~= indent + nm);
        lemma_take_skip_nl(s@, ls as int);
        match start {
            Some(st) => {
                assert(nm =~= dec_str((st + 1) as nat) + seq![dl, ' ']);
                assert(!seq![dl, ' '].contains('\n'));
                lemma_concat_no_newline(dec_str((st + 1) as nat), seq![dl, ' ']);
            },
            None => {
                assert(nm =~= marker@);
            },
        }
        lemma_concat_no_newline(indent, nm);
        lemma_concat_no_newline(indent + nm, tail@);
    }
    crate::text::extend_all(&mut second, tail);
    let line_str = crate::text::string_of(&second);
    crate::text::str_fits(line_str.as_str());
    let mcol = crate::text::byte_offset(&second, pre_len);
    proof {
        assert(second@.take(pre_len as int) =~= indent + nm);
    }
    (second, mcol)
}

impl Editor {
    /// Enter in a quote.
    fn quote_newline(&mut self, line: usize, col: usize)
        requires
            wf(old(self)@),
            old(self)@.sel_start is None || old(self)@.sel_start == Some((line, col)),
            line == old(self)@.cursor_line,
            col == old(self)@.cursor_col,
        ensures
            final(self)@ == quote_nl(old(self)@),
            wf(final(self)@),
            final(self).last_op_at == old(self).last_op_at,
    {
        let ghost v0 = self@;
        proof {
            lemma_wf_cursor(v0);
        }
        let k = self.char_k(line, col);
        let s = self.line_chars(line);
        let n = s.len();
        let head = crate::text::slice_vec(&s, 0, k);
        let tail = crate::text::slice_vec(&s, k, n);
        proof {
            assert(head@ =~= head_of(v0));
            assert(tail@ =~= tail_of(v0));
            lemma_take_skip_nl(s@, k as int);
        }
        let is_gt = gt_only(&head);
        let exit = quote_exit(&s, col);
        if exit {
            let ghost block = seq![head@, Seq::<char>::empty()];
            let mut b: Vec<Vec<char>> = Vec::new();
            b.push(head);
            b.push(Vec::new());
            assert(b@.map_values(|x: Vec<char>| x@) =~= block);
            self.splice_line(b);
            let total = self.lines.len();
            assert(line + 1 < total);
            self.cursor_line = line + 1;
            self.cursor_col = 0;
            proof {
                assert(block[0].take(k as int) =~= block[0]);
                lemma_boundary_zero(block[1]);
                assert(!Seq::<char>::empty().contains('\n'));
                lemma_splice_wf(v0, block, self@);
            }
            return;
        }
        let mut second: Vec<char> = Vec::new();
        second.push('>');
        if !is_gt {
            second.push(' ');
        }
        let ml = second.len();
        let ghost marker = second@;
        proof {
            if is_gt {
                assert(marker =~= seq!['>']);
            } else {
                assert(marker =~= seq!['>', ' ']);
            }
            assert(!marker.contains('\n'));
            lemma_concat_no_newline(marker, tail@);
        }
        crate::text::extend_all(&mut second, &tail);
        let line_str = crate::text::string_of(&second);
        crate::text::str_fits(line_str.as_str());
        let mcol = crate::text::byte_offset(&second, ml);
        let ghost block = seq![head@, second@];
        let mut b: Vec<Vec<char>> = Vec::new();
        b.push(head);
        b.push(second);
        assert(b@.map_values(|x: Vec<char>| x@) =~= block);
        self.splice_line(b);
        let total = self.lines.len();
        assert(line + 1 < total);
        self.cursor_line = line + 1;
        self.cursor_col = mcol;
        proof {
            assert(block[0].take(k as int) =~= block[0]);
            assert(block[1] =~= marker + tail@);
            assert(block[1].take(ml as int) =~= marker);
            lemma_prefix_boundary(marker, tail@);
            lemma_splice_wf(v0, block, self@);
        }
    }

    /// Enter in a list item with `marker` (and, for an ordered item, its number `start`).
    fn list_newline(&mut self, line: usize, col: usize, marker: &[char], start: Option<u64>)
        requires
            wf(old(self)@),
            old(self)@.sel_start is None || old(self)@.sel_start == Some((line, col)),
            line == old(self)@.cursor_line,
            col == old(self)@.cursor_col,
            byte_len(marker@) <= usize::MAX,
            !marker@.contains('\n'),
        ensures
            final(self)@ == list_nl(old(self)@, marker@, start),
            wf(final(self)@),
            final(self).last_op_at == old(self).last_op_at,
    {
        let ghost v0 = self@;
        proof {
            lemma_wf_cursor(v0);
        }
        let k = self.char_k(line, col);
        let s = self.line_chars(line);
        let n = s.len();
        let ls = crate::text::skip_ws(&s, 0);
        proof {
            crate::text::lemma_ws_run(s@, 0);
            lemma_skip_bytes_le(s@, ls as int);
            lemma_take_skip_nl(s@, k as int);
            lemma_take_skip_nl(s@, ls as int);
        }
        let is_empty = item_is_empty(&s);
        if is_empty {
            let ghost block = seq![s@, Seq::<char>::empty()];
            let mut b: Vec<Vec<char>> = Vec::new();
            b.push(s);
            b.push(Vec::new());
            assert(b@.map_values(|x: Vec<char>| x@) =~= block);
            self.splice_line(b);
            let total = self.lines.len();
            assert(line + 1 < total);
            self.cursor_line = line + 1;
            self.cursor_col = 0;
            proof {
                lemma_boundary_zero(block[1]);
                assert(!Seq::<char>::empty().contains('\n'));
                lemma_splice_wf(v0, block, self@);
            }
            return;
        }
        let head = crate::text::slice_vec(&s, 0, k);
        let tail = crate::text::slice_vec(&s, k, n);
        let d = crate::text::count_digits(&s, ls);
        let dl = if ls + d < n && s[ls + d] == ')' {
            ')'
        } else {
            '.'
        };
        assert(dl == ordered_delim(s@));
        let (second, mcol) = next_item_line(&s, ls, marker, start, dl, &tail);
        let ghost indent = s@.take(ls as int);
        let ghost nm = match start {
            Some(st) => dec_str((st + 1) as nat) + seq![dl, ' '],
            None => marker@,
        };
        proof {
            assert(tail@ =~= tail_of(v0));
        }
        let ghost block = seq![head@, second@];
        let mut b: Vec<Vec<char>> = Vec::new();
        b.push(head);
        b.push(second);
        assert(b@.map_values(|x: Vec<char>| x@) =~= block);
        self.splice_line(b);
        let total = self.lines.len();
        assert(line + 1 < total);
        self.cursor_line = line + 1;
        self.cursor_col = mcol;
        proof {
            assert(block[0] =~= head_of(v0));
            assert(block[0].take(k as int) =~= block[0]);
            lemma_prefix_boundary(indent + nm, tail@);
            lemma_prefix_boundary(indent, nm);
            lemma_splice_wf(v0, block, self@);
        }
    }

    /// The marker of the next ordered item after `line`.
    fn ordered_marker(&self, line: &str) -> (r: Vec<char>)
        ensures
            r@ == next_ordered(line@),
    {
        let s = crate::text::chars_of(line);
        let i = crate::text::count_digits(&s, 0);
        proof {
            crate::text::lemma_digit_run(s@, 0);
        }
        if i > 0 && i < s.len() && (s[i] == '.' || s[i] == ')') {
            let p = crate::text::parse_u64(&s, 0, i);
            assert(s@.subrange(0, i as int) =~= s@.take(i as int));
            let n: u64 = match p {
                Some(x) => x,
                None => 1,
            };
            let mut out = crate::text::dec_chars(n as u128 + 1);
            if s[i] == '.' {
                out.push('.');
            } else {
                out.push(')');
            }
            out.push(' ');
            out
        } else {
            let mut out: Vec<char> = Vec::new();
            out.push('1');
            out.push('.');
            out.push(' ');
            assert(out@ =~= seq!['1', '.', ' ']);
            out
        }
    }
}

/// The number that starts `line` after its indentation, when it fits in `u64`.
fn ordered_start(line: &str) -> (r: Option<u64>)
    ensures
        r == ordered_start_of(line@),
{
    let s = crate::text::chars_of(line);
    let ls = crate::text::skip_ws(&s, 0);
    proof {
        crate::text::lemma_ws_run(s@, 0);
    }
    let t = crate::text::slice_vec(&s, ls, s.len());
    assert(t@ =~= trim_start(line@));
    let i = crate::text::count_digits(&t, 0);
    proof {
        crate::text::lemma_digit_run(t@, 0);
    }
    if i > 0 {
        assert(t@.subrange(0, i as int) =~= t@.take(i as int));
        crate::text::parse_u64(&t, 0, i)
    } else {
        None
    }
}


/// After Backspace-free selection handling the selection is empty: none, or at the cursor.
pub proof fn lemma_delsel_empty(v: EditorView)
    requires
        wf(v),
    ensures
        wf(if v.sel_start is Some { delsel_view(v) } else { v }),
        ({
            let v1 = if v.sel_start is Some { delsel_view(v) } else { v };
            v1.sel_start is None || v1.sel_start == Some((v1.cursor_line, v1.cursor_col))
        }),
{
    lemma_sel_bounds(v);
    if v.sel_start is Some && sel_bounds(v) is Some {
        let b = sel_bounds(v)->0;
        let ks = char_pos(v.lines[b.0.0 as int], b.0.1 as int);
        let ke = char_pos(v.lines[b.1.0 as int], b.1.1 as int);
        let j = v.lines[b.0.0 as int].take(ks) + v.lines[b.1.0 as int].skip(ke);
        let w = delsel_view(v);
        lemma_take_skip_nl(v.lines[b.0.0 as int], ks);
        lemma_take_skip_nl(v.lines[b.1.0 as int], ke);
        lemma_concat_no_newline(v.lines[b.0.0 as int].take(ks), v.lines[b.1.0 as int].skip(ke));
        lemma_splice_doc(v.lines, b.0.0 as int, b.1.0 as int, seq![j]);
        assert(w.lines[b.0.0 as int] == j);
        assert(j.take(ks) =~= v.lines[b.0.0 as int].take(ks));
        lemma_boundary_at(j, ks);
        assert forall|i: int| 0 <= i < w.undo_stack.len() implies snap_ok(#[trigger] w.undo_stack[i]) by {
            assert(w.undo_stack[i] == v.undo_stack[i]);
        }
        assert forall|i: int| 0 <= i < w.redo_stack.len() implies snap_ok(#[trigger] w.redo_stack[i]) by {
            assert(w.redo_stack[i] == v.redo_stack[i]);
        }
    }
}

/// Two one-byte characters at the start end at byte 2, a character boundary.
pub proof fn lemma_ascii_prefix2(t: Seq<char>)
    requires
        t.len() >= 2,
        (t[0] as u32) < 0x80,
        (t[1] as u32) < 0x80,
    ensures
        is_boundary(t, 2),
        byte_at(t, 2) == 2,
{
    crate::text::lemma_take_push(t, 0);
    crate::text::lemma_take_push(t, 1);
    assert(t.take(0) =~= Seq::<char>::empty());
    crate::text::lemma_byte_len_push(t.take(0), t[0]);
    crate::text::lemma_byte_len_push(t.take(1), t[1]);
    lemma_boundary_at(t, 2);
}

pub proof fn lemma_next_ordered_chars(cur: Seq<char>)
    ensures
        !next_ordered(cur).contains('\n'),
{
    let i = digit_run(cur, 0);
    if i > 0 && i < cur.len() && (cur[i] == '.' || cur[i] == ')') {
        let d = dec_value(cur.take(i));
        let n: nat = if d <= u64::MAX { d } else { 1 };
        lemma_dec_no_nl(n + 1);
        let sep = if cur[i] == '.' { seq!['.', ' '] } else { seq![')', ' '] };
        assert(!sep.contains('\n'));
        lemma_concat_no_newline(dec_str(n + 1), sep);
    } else {
        assert(!seq!['1', '.', ' '].contains('\n'));
    }
}

impl Editor {
    /// Enter (`hard`: Shift+Enter), after deleting the selection.
    pub(crate) fn do_newline(&mut self, hard: bool)
        requires
            wf(old(self)@),
        ensures
            final(self)@ == newline_view(old(self)@, hard),
            wf(final(self)@),
            final(self).last_op_at == old(self).last_op_at,
    {
        proof {
            lemma_delsel_empty(self@);
        }
        if self.sel_start.is_some() {
            self.delete_selection();
        }
        let line = self.cursor_line;
        let col = self.cursor_col;
        if self.in_fence_at(line) {
            self.plain_newline(line, col);
            return;
        }
        let cs = self.line_chars(line);
        let cur = crate::text::string_of(&cs);
        let style = crate::line::parse_line(cur.as_str(), false).line_style;
        match style {
            LineStyle::Quote => self.quote_newline(line, col),
            LineStyle::Bullet => {
                let m = vec!['-', ' '];
                proof {
                    crate::text::lemma_byte_len_bound(m@);
                    assert(!m@.contains('\n'));
                    assert(m@ =~= seq!['-', ' ']);
                    assert(m@.take(2) =~= m@);
                    lemma_ascii_prefix2(m@);
                    let l = lead_ws(cs@);
                    crate::text::lemma_ws_run(cs@, 0);
                    let t = trim_start(cs@);
                    if t.len() >= 2 {
                        assert(t[0] == cs@[l]);
                        assert(t[1] == cs@[l + 1]);
                        lemma_ascii_prefix2(t);
                    }
                }
                self.list_newline(line, col, &m, None);
            },
            LineStyle::Ordered => {
                let marker = self.ordered_marker(cur.as_str());
                let start = ordered_start(cur.as_str());
                let ms = crate::text::string_of(&marker);
                crate::text::str_fits(ms.as_str());
                proof {
                    lemma_next_ordered_chars(cs@);
                }
                self.list_newline(line, col, &marker, start);
            },
            LineStyle::Plain => {
                if hard {
                    self.hard_break(line, col);
                } else {
                    self.paragraph_newline(line, col);
                }
            },
            _ => self.plain_newline(line, col),
        }
    }
}


impl Editor {
    /// Tab (`shift`: Shift+Tab).
    pub(crate) fn do_tab(&mut self, shift: bool)
        requires
            wf(old(self)@),
        ensures
            final(self)@ == tab_view(old(self)@, shift),
            wf(final(self)@),
            final(self).last_op_at == old(self).last_op_at,
    {
        proof {
            reveal_strlit("    ");
            assert("    "@ =~= spaces4());
        }
        if self.sel_start.is_some() {
            self.insert_text("    ");
            return;
        }
        let ghost v0 = self@;
        proof {
            lemma_wf_cursor(v0);
            lemma_spaces4();
        }
        let line = self.cursor_line;
        let col = self.cursor_col;
        let cs = self.line_chars(line);
        let cur = crate::text::string_of(&cs);
        let parsed = crate::line::parse_line(cur.as_str(), false);
        let style = parsed.line_style;
        let k = self.char_k(line, col);
        if style == LineStyle::Bullet || style == LineStyle::Ordered {
            if shift {
                if cs.len() >= 4 && cs[0] == ' ' && cs[1] == ' ' && cs[2] == ' ' && cs[3] == ' ' {
                    let rest = crate::text::slice_vec(&cs, 4, cs.len());
                    assert(cs@.take(4) =~= spaces4());
                    assert(rest@ =~= cs@.skip(4));
                    self.set_line(line, &rest);
                    self.cursor_col = if col >= 4 {
                        col - 4
                    } else {
                        0
                    };
                    proof {
                        lemma_take_skip_nl(cs@, 4);
                        lemma_drop_ascii(cs@, 4, 4);
                        if col >= 4 {
                            if k < 4 {
                                crate::text::lemma_byte_at_mono(cs@, k as int, 4);
                            }
                            lemma_drop_ascii(cs@, 4, k as int);
                            lemma_boundary_at(rest@, k - 4);
                        } else {
                            lemma_boundary_zero(rest@);
                        }
                        self.lemma_update_wf(v0, rest@);
                    }
                } else if cs.len() >= 1 && cs[0] == '\t' {
                    let rest = crate::text::slice_vec(&cs, 1, cs.len());
                    assert(rest@ =~= cs@.skip(1));
                    proof {
                        if cs@.len() >= 4 && cs@.take(4) == spaces4() {
                            assert(cs@[0] == cs@.take(4)[0]);
                        }
                    }
                    self.set_line(line, &rest);
                    self.cursor_col = if col >= 1 {
                        col - 1
                    } else {
                        0
                    };
                    proof {
                        lemma_take_skip_nl(cs@, 1);
                        lemma_drop_ascii(cs@, 1, 1);
                        if col >= 1 {
                            if k < 1 {
                                crate::text::lemma_byte_at_mono(cs@, k as int, 1);
                            }
                            lemma_drop_ascii(cs@, 1, k as int);
                            lemma_boundary_at(rest@, k - 1);
                        } else {
                            lemma_boundary_zero(rest@);
                        }
                        self.lemma_update_wf(v0, rest@);
                    }
                } else {
                    proof {
                        if cs@.len() >= 4 && cs@.take(4) == spaces4() {
                            assert(cs@[0] == cs@.take(4)[0]);
                            assert(cs@[1] == cs@.take(4)[1]);
                            assert(cs@[2] == cs@.take(4)[2]);
                            assert(cs@[3] == cs@.take(4)[3]);
                        }
                    }
                }
            } else if col == 0 || col == parsed.prefix_len {
                let mut nl: Vec<char> = vec![' ', ' ', ' ', ' '];
                assert(nl@ =~= spaces4());
                crate::text::extend_all(&mut nl, &cs);
                let ns = crate::text::string_of(&nl);
                crate::text::str_fits(ns.as_str());
                proof {
                    lemma_drop_ascii(nl@, 4, k + 4);
                    assert(nl@.skip(4) =~= cs@);
                    crate::text::lemma_byte_at_mono(nl@, k + 4, nl@.len() as int);
                    assert(nl@.take(nl@.len() as int) =~= nl@);
                }
                let ghost nv = nl@;
                self.set_line(line, &nl);
                self.cursor_col = col + 4;
                proof {
                    lemma_concat_no_newline(spaces4(), cs@);
                    lemma_boundary_at(nv, k + 4);
                    self.lemma_update_wf(v0, nv);
                }
            } else {
                self.insert_text("    ");
            }
        } else {
            self.insert_text("    ");
        }
    }

    /// Replacing the cursor line (no selection) keeps the state valid when the cursor
    /// lands on a boundary of the new line.
    pub(crate) proof fn lemma_update_wf(&self, v0: EditorView, nl: Seq<char>)
        requires
            wf(v0),
            v0.sel_start is None,
            !nl.contains('\n'),
            self@.lines == v0.lines.update(v0.cursor_line as int, nl),
            self@.cursor_line == v0.cursor_line,
            self@.sel_start == v0.sel_start,
            self@.undo_stack == v0.undo_stack,
            self@.redo_stack == v0.redo_stack,
            is_boundary(nl, self@.cursor_col as int),
        ensures
            wf(self@),
    {
        let w = self@;
        assert forall|i: int| 0 <= i < w.lines.len() implies !(#[trigger] w.lines[i]).contains('\n') by {
            if i != v0.cursor_line {
                assert(w.lines[i] == v0.lines[i]);
            }
        }
        assert forall|i: int| 0 <= i < w.undo_stack.len() implies snap_ok(#[trigger] w.undo_stack[i]) by {
            assert(w.undo_stack[i] == v0.undo_stack[i]);
        }
        assert forall|i: int| 0 <= i < w.redo_stack.len() implies snap_ok(#[trigger] w.redo_stack[i]) by {
            assert(w.redo_stack[i] == v0.redo_stack[i]);
        }
    }
}

} // verus!
