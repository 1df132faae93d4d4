//! Backspace with its special cases, and the line and word deletions.

use vstd::prelude::*;
use crate::editor::{
    Editor, EditorView, backspace_view, cur_k, cur_line, delsel_view, fence_parity, lemma_wf_cursor,
    pos_ok, sel_bounds, wf, word_end, word_start, ws_start,
};
use crate::line::LineStyle;
use crate::newline::{blank, is_blank, lemma_boundary_zero, lemma_prefix_boundary, lemma_take_skip_nl};
use crate::ops::RuleState;
use crate::text::{
    byte_at, byte_len, char_pos, digit_run, is_boundary, is_ws, lemma_boundary_at, trim_start,
    ws_run,
};

verus! {

/// The number of characters of the block marker for `style` at the start of `t`
/// (`None` when `t` does not start with one).
pub open spec fn marker_in(t: Seq<char>, style: LineStyle) -> Option<int> {
    match style {
        LineStyle::Heading(n) => {
            let n = n as int;
            if t.len() >= n && (forall|i: int| 0 <= i < n ==> #[trigger] t[i] == '#') {
                Some(n + (if n < t.len() && t[n] == ' ' { 1int } else { 0 }))
            } else {
                None
            }
        },
        LineStyle::Bullet => {
            if t.len() >= 2 && (t[0] == '-' || t[0] == '*' || t[0] == '+') && t[1] == ' ' {
                Some(2)
            } else {
                None
            }
        },
        LineStyle::Ordered => {
            let i = digit_run(t, 0);
            if i > 0 && i < t.len() && (t[i] == '.' || t[i] == ')') {
                Some(i + (if i + 1 < t.len() && t[i + 1] == ' ' { 2int } else { 1 }))
            } else {
                None
            }
        },
        LineStyle::Quote => {
            if t.len() == 0 {
                Some(0)
            } else if t.len() >= 2 && t[1] == ' ' {
                Some(2)
            } else {
                Some(1)
            }
        },
        _ => None,
    }
}

/// The number of characters of the block marker for `style` at the start of the line's
/// text after its indentation.
pub open spec fn marker_len(line: Seq<char>, style: LineStyle) -> Option<int> {
    marker_in(trim_start(line), style)
}

/// Backspace removes a block marker just created by an input rule: the rule's line is the
/// cursor line and nothing but whitespace follows its marker.
pub open spec fn bs_rule_taken(v: EditorView) -> bool {
    let cur = cur_line(v);
    match v.rule_state {
        RuleState::Block { line, style } => line == v.cursor_line && match marker_len(cur, style) {
            Some(m) => blank(trim_start(cur).skip(m)),
            None => false,
        },
        RuleState::Inactive => false,
    }
}

/// Backspace right after `**`, `~~` or `==` outside a fence removes both characters.
pub open spec fn bs_pair(v: EditorView) -> bool {
    let cur = cur_line(v);
    let k = cur_k(v);
    !fence_parity(v.lines, v.cursor_line as int) && k >= 2 && cur[k - 1] == cur[k - 2]
        && (cur[k - 1] == '*' || cur[k - 1] == '~' || cur[k - 1] == '=')
}

/// Backspace right after a single `` ` `` or `*` outside a fence removes it.
pub open spec fn bs_single(v: EditorView) -> bool {
    let cur = cur_line(v);
    let k = cur_k(v);
    !fence_parity(v.lines, v.cursor_line as int) && k >= 1 && (cur[k - 1] == '`' || cur[k - 1] == '*')
        && !(k >= 2 && cur[k - 2] == cur[k - 1])
}

/// The state after Backspace: a non-empty selection is deleted first; then a block marker
/// just made by an input rule is undone (the line becomes empty); then `**`, `~~`, `==`,
/// `` ` `` or `*` before the cursor goes as a whole; otherwise a plain Backspace.
pub open spec fn do_backspace_view(v: EditorView) -> EditorView {
    let l = v.cursor_line as int;
    let cur = cur_line(v);
    let k = cur_k(v);
    if sel_bounds(v) is Some {
        backspace_view(v)
    } else if bs_rule_taken(v) {
        EditorView {
            lines: v.lines.update(l, Seq::empty()),
            cursor_col: 0,
            sel_start: None,
            dirty: true,
            ..v
        }
    } else if bs_pair(v) {
        EditorView {
            lines: v.lines.update(l, cur.take(k - 2) + cur.skip(k)),
            cursor_col: (v.cursor_col - 2) as usize,
            sel_start: None,
            dirty: true,
            ..v
        }
    } else if bs_single(v) {
        EditorView {
            lines: v.lines.update(l, cur.remove(k - 1)),
            cursor_col: (v.cursor_col - 1) as usize,
            sel_start: None,
            dirty: true,
            ..v
        }
    } else {
        backspace_view(v)
    }
}

/// The number of characters of the block marker for `style` at the start of `t`.
pub(crate) fn marker_chars(t: &Vec<char>, style: LineStyle) -> (r: Option<usize>)
    ensures
        match r {
            Some(m) => marker_in(t@, style) == Some(m as int),
            None => marker_in(t@, style) is None,
        },
        r matches Some(m) ==> m <= t@.len(),
{
    match style {
        LineStyle::Heading(h) => {
            let c = h as usize;
            if t.len() < c {
                return None;
            }
            let mut i: usize = 0;
            while i < c
                invariant
                    i <= c <= t@.len(),
                    c == h as int,
                    style == LineStyle::Heading(h),
                    forall|j: int| 0 <= j < i ==> #[trigger] t@[j] == '#',
                decreases c - i,
            {
                if t[i] != '#' {
                    proof {
                        assert(t@[i as int] != '#');
                        assert(!(forall|j: int| 0 <= j < h as int ==> #[trigger] t@[j] == '#'));
                    }
                    return None;
                }
                i = i + 1;
            }
            Some(c + if c < t.len() && t[c] == ' ' {
                1
            } else {
                0
            })
        },
        LineStyle::Bullet => {
            if t.len() >= 2 && (t[0] == '-' || t[0] == '*' || t[0] == '+') && t[1] == ' ' {
                Some(2)
            } else {
                None
            }
        },
        LineStyle::Ordered => {
            let i = crate::text::count_digits(t, 0);
            if i > 0 && i < t.len() && (t[i] == '.' || t[i] == ')') {
                Some(i + if i + 1 < t.len() && t[i + 1] == ' ' {
                    2
                } else {
                    1
                })
            } else {
                None
            }
        },
        LineStyle::Quote => {
            if t.len() == 0 {
                Some(0)
            } else if t.len() >= 2 && t[1] == ' ' {
                Some(2)
            } else {
                Some(1)
            }
        },
        _ => None,
    }
}

/// The text of a line after its indentation.
pub(crate) fn trimmed_chars(line: &Vec<char>) -> (r: (Vec<char>, usize))
    ensures
        r.0@ == trim_start(line@),
        r.1 == crate::text::lead_ws(line@),
        r.1 <= line@.len(),
        r.0@ == line@.skip(r.1 as int),
{
    let ls = crate::text::skip_ws(line, 0);
    proof {
        crate::text::lemma_ws_run(line@, 0);
    }
    let t = crate::text::slice_vec(line, ls, line.len());
    assert(t@ =~= trim_start(line@));
    (t, ls)
}

/// Removing two one-byte characters before character `k` moves its boundary back two bytes.
proof fn lemma_two_ascii(cur: Seq<char>, k: int)
    requires
        2 <= k <= cur.len(),
        (cur[k - 1] as u32) < 0x80,
        (cur[k - 2] as u32) < 0x80,
    ensures
        byte_at(cur, k) == byte_at(cur, k - 2) + 2,
        byte_at(cur, k - 1) == byte_at(cur, k - 2) + 1,
{
    crate::text::lemma_take_push(cur, k - 2);
    crate::text::lemma_take_push(cur, k - 1);
    crate::text::lemma_byte_len_push(cur.take(k - 2), cur[k - 2]);
    crate::text::lemma_byte_len_push(cur.take(k - 1), cur[k - 1]);
}

proof fn lemma_one_ascii(cur: Seq<char>, k: int)
    requires
        1 <= k <= cur.len(),
        (cur[k - 1] as u32) < 0x80,
    ensures
        byte_at(cur, k) == byte_at(cur, k - 1) + 1,
{
    crate::text::lemma_take_push(cur, k - 1);
    crate::text::lemma_byte_len_push(cur.take(k - 1), cur[k - 1]);
}

impl Editor {
    /// Removes the marker of a block just created by an input rule when nothing follows it:
    /// the line becomes empty.
    fn rule_backspace(&mut self) -> (done: bool)
        requires
            wf(old(self)@),
        ensures
            done == bs_rule_taken(old(self)@),
            done ==> final(self)@ == (EditorView {
                lines: old(self)@.lines.update(old(self)@.cursor_line as int, Seq::empty()),
                cursor_col: 0,
                sel_start: None,
                dirty: true,
                ..old(self)@
            }),
            done ==> wf(final(self)@),
            !done ==> final(self)@ == old(self)@,
            final(self).last_op_at == old(self).last_op_at,
    {
        let ghost v0 = self@;
        proof {
            lemma_wf_cursor(v0);
        }
        let l = self.cursor_line;
        let cs = self.line_chars(l);
        if let RuleState::Block { line, style } = self.rule_state {
            if line == l {
                let (t, _ls) = trimmed_chars(&cs);
                if let Some(m) = marker_chars(&t, style) {
                    let blank_rest = is_blank(&t, m, t.len());
                    assert(t@.subrange(m as int, t@.len() as int) =~= t@.skip(m as int));
                    if blank_rest {
                        let nl: Vec<char> = Vec::new();
                        self.set_line(l, &nl);
                        self.cursor_col = 0;
                        self.sel_start = None;
                        self.dirty = true;
                        proof {
                            assert(!nl@.contains('\n'));
                            lemma_boundary_zero(nl@);
                            lemma_line_edit_wf(v0, self@, nl@);
                        }
                        return true;
                    }
                }
            }
        }
        false
    }

    /// Removes `**` / `~~` / `==`, or a single `` ` `` / `*`, right before the cursor.
    fn marker_backspace(&mut self) -> (done: bool)
        requires
            wf(old(self)@),
            sel_bounds(old(self)@) is None,
            !bs_rule_taken(old(self)@),
        ensures
            done == (bs_pair(old(self)@) || bs_single(old(self)@)),
            done ==> final(self)@ == do_backspace_view(old(self)@),
            done ==> wf(final(self)@),
            !done ==> final(self)@ == old(self)@,
            final(self).last_op_at == old(self).last_op_at,
    {
        let ghost v0 = self@;
        proof {
            lemma_wf_cursor(v0);
        }
        let l = self.cursor_line;
        let col = self.cursor_col;
        let cs = self.line_chars(l);
        let n = cs.len();
        let in_fence = self.in_fence_at(l);
        if in_fence || col == 0 {
            proof {
                if col == 0 {
                    assert(cur_k(v0) == 0) by {
                        crate::text::lemma_boundary_zero_pos(cs@);
                    }
                }
            }
            return false;
        }
        let k = self.char_k(l, col);
        if k >= 2 && cs[k - 1] == cs[k - 2] && (cs[k - 1] == '*' || cs[k - 1] == '~' || cs[k - 1] == '=') {
            let mut nl = crate::text::slice_vec(&cs, 0, k - 2);
            crate::text::extend_from(&mut nl, &cs, k, n);
            assert(nl@ =~= cs@.take(k - 2) + cs@.skip(k as int));
            self.set_line(l, &nl);
            proof {
                lemma_two_ascii(cs@, k as int);
            }
            self.cursor_col = col - 2;
            self.sel_start = None;
            self.dirty = true;
            proof {
                lemma_take_skip_nl(cs@, k - 2);
                lemma_take_skip_nl(cs@, k as int);
                crate::editor::lemma_concat_no_newline(cs@.take(k - 2), cs@.skip(k as int));
                lemma_prefix_boundary(cs@.take(k - 2), cs@.skip(k as int));
                lemma_line_edit_wf(v0, self@, nl@);
            }
            return true;
        }
        if k >= 1 && (cs[k - 1] == '`' || cs[k - 1] == '*') && !(k >= 2 && cs[k - 2] == cs[k - 1]) {
            self.remove_char(l, k - 1);
            proof {
                lemma_one_ascii(cs@, k as int);
            }
            self.cursor_col = col - 1;
            self.sel_start = None;
            self.dirty = true;
            proof {
                crate::editor::lemma_remove_no_newline(cs@, k - 1);
                let r = cs@.remove(k - 1);
                assert(r.take(k - 1) =~= cs@.take(k - 1));
                lemma_boundary_at(r, k - 1);
                lemma_line_edit_wf(v0, self@, r);
            }
            return true;
        }
        false
    }

    /// Backspace: deletes a non-empty selection; otherwise removes a marker just created
    /// by an input rule, or `**` / `~~` / `==` / `` ` `` / `*` right before the cursor as a
    /// whole; otherwise a plain Backspace.
    pub(crate) fn do_backspace(&mut self)
        requires
            wf(old(self)@),
        ensures
            final(self)@ == do_backspace_view(old(self)@),
            wf(final(self)@),
            final(self).last_op_at == old(self).last_op_at,
    {
        let has_sel = match self.sel_start {
            Some(p) => p.0 != self.cursor_line || p.1 != self.cursor_col,
            None => false,
        };
        assert(has_sel == (sel_bounds(self@) is Some));
        if has_sel {
            self.backspace();
            return;
        }
        if self.rule_backspace() {
            return;
        }
        if self.marker_backspace() {
            return;
        }
        self.backspace();
    }
}


/// CJK ideographs: each one is a word of its own.
pub open spec fn cjk(c: char) -> bool {
    let u = c as u32;
    (0x4E00 <= u <= 0x9FFF) || (0x3400 <= u <= 0x4DBF) || (0xF900 <= u <= 0xFAFF)
}

/// `u8::is_ascii_whitespace`: space, tab, line feed, form feed, carriage return.
pub open spec fn ascii_ws(c: char) -> bool {
    c == ' ' || c == '\t' || c == '\n' || c == '\x0C' || c == '\r'
}

/// Start of the word that ends at `j`; a CJK character ends the word.
pub open spec fn word_left_from(s: Seq<char>, j: int) -> int
    decreases j,
{
    if 0 < j <= s.len() && !is_ws(s[j - 1]) {
        if cjk(s[j - 1]) {
            j - 1
        } else {
            word_left_from(s, j - 1)
        }
    } else {
        j
    }
}

/// End of the word that starts at `j`; a CJK character ends the word.
pub open spec fn word_right_from(s: Seq<char>, j: int) -> int
    decreases s.len() - j,
{
    if 0 <= j < s.len() && !is_ws(s[j]) {
        if cjk(s[j]) {
            j + 1
        } else {
            word_right_from(s, j + 1)
        }
    } else {
        j
    }
}

/// Character position Alt+Left moves to: over the whitespace, then over the word.
pub open spec fn word_left_pos(s: Seq<char>, k: int) -> int {
    word_left_from(s, ws_start(s, k))
}

/// Character position Alt+Right moves to: over the word, then over the whitespace.
pub open spec fn word_right_pos(s: Seq<char>, k: int) -> int {
    let e = word_right_from(s, k);
    e + ws_run(s, e)
}

/// Character position from which Ctrl+W deletes: the whitespace right before the cursor,
/// the word before it and the whitespace before that, keeping one ASCII whitespace
/// character as a separator.
pub open spec fn del_back_pos(s: Seq<char>, k: int) -> int {
    let kw = word_start(s, ws_start(s, k));
    let kws = ws_start(s, kw);
    if kws < kw && ascii_ws(s[kws]) { kws + 1 } else { kws }
}

/// Character position up to which Alt+Delete deletes: the whitespace, then the word.
pub open spec fn del_fwd_pos(s: Seq<char>, k: int) -> int {
    word_end(s, k + ws_run(s, k))
}

pub open spec fn del_to_end_view(v: EditorView) -> EditorView {
    EditorView {
        lines: v.lines.update(v.cursor_line as int, cur_line(v).take(cur_k(v))),
        sel_start: None,
        dirty: true,
        ..v
    }
}

pub open spec fn del_to_start_view(v: EditorView) -> EditorView {
    EditorView {
        lines: v.lines.update(v.cursor_line as int, cur_line(v).skip(cur_k(v))),
        cursor_col: 0,
        sel_start: None,
        dirty: true,
        ..v
    }
}

pub open spec fn del_word_back_view(v: EditorView) -> EditorView {
    if v.sel_start is Some {
        EditorView { dirty: true, ..delsel_view(v) }
    } else {
        let cur = cur_line(v);
        let kd = del_back_pos(cur, cur_k(v));
        EditorView {
            lines: v.lines.update(v.cursor_line as int, cur.take(kd) + cur.skip(cur_k(v))),
            cursor_col: byte_at(cur, kd) as usize,
            dirty: true,
            ..v
        }
    }
}

pub open spec fn del_word_fwd_view(v: EditorView) -> EditorView {
    if v.sel_start is Some {
        EditorView { dirty: true, ..delsel_view(v) }
    } else {
        let cur = cur_line(v);
        let k = cur_k(v);
        EditorView {
            lines: v.lines.update(v.cursor_line as int, cur.take(k) + cur.skip(del_fwd_pos(cur, k))),
            dirty: true,
            ..v
        }
    }
}

pub proof fn lemma_word_left(s: Seq<char>, j: int)
    requires
        0 <= j <= s.len(),
    ensures
        0 <= word_left_from(s, j) <= j,
    decreases j,
{
    if 0 < j && !is_ws(s[j - 1]) && !cjk(s[j - 1]) {
        lemma_word_left(s, j - 1);
    }
}

pub proof fn lemma_word_right(s: Seq<char>, j: int)
    requires
        0 <= j <= s.len(),
    ensures
        j <= word_right_from(s, j) <= s.len(),
    decreases s.len() - j,
{
    if j < s.len() && !is_ws(s[j]) && !cjk(s[j]) {
        lemma_word_right(s, j + 1);
    }
}

fn is_cjk(c: char) -> (r: bool)
    ensures
        r == cjk(c),
{
    let u = c as u32;
    (0x4E00 <= u && u <= 0x9FFF) || (0x3400 <= u && u <= 0x4DBF) || (0xF900 <= u && u <= 0xFAFF)
}

/// Copy of the whole-line valid-state frame for edits of the cursor line without selection.
pub proof fn lemma_line_edit_wf(v0: EditorView, w: EditorView, nl: Seq<char>)
    requires
        wf(v0),
        !nl.contains('\n'),
        w.lines == v0.lines.update(v0.cursor_line as int, nl),
        w.cursor_line == v0.cursor_line,
        w.sel_start is None,
        w.undo_stack == v0.undo_stack,
        w.redo_stack == v0.redo_stack,
        is_boundary(nl, w.cursor_col as int),
    ensures
        wf(w),
{
    assert forall|i: int| 0 <= i < w.lines.len() implies !(#[trigger] w.lines[i]).contains('\n') by {
        if i != v0.cursor_line {
            assert(w.lines[i] == v0.lines[i]);
        }
    }
    assert forall|i: int| 0 <= i < w.undo_stack.len() implies crate::editor::snap_ok(#[trigger] w.undo_stack[i]) by {
        assert(w.undo_stack[i] == v0.undo_stack[i]);
    }
    assert forall|i: int| 0 <= i < w.redo_stack.len() implies crate::editor::snap_ok(#[trigger] w.redo_stack[i]) by {
        assert(w.redo_stack[i] == v0.redo_stack[i]);
    }
}

impl Editor {
    /// Ctrl+K: deletes from the cursor to the end of the line.
    pub(crate) fn delete_to_line_end(&mut self)
        requires
            wf(old(self)@),
        ensures
            final(self)@ == del_to_end_view(old(self)@),
            wf(final(self)@),
            final(self).last_op_at == old(self).last_op_at,
    {
        let ghost v0 = self@;
        proof {
            lemma_wf_cursor(v0);
        }
        let l = self.cursor_line;
        let k = self.char_k(l, self.cursor_col);
        let cs = self.line_chars(l);
        let nl = crate::text::slice_vec(&cs, 0, k);
        assert(nl@ =~= cs@.take(k as int));
        self.set_line(l, &nl);
        self.sel_start = None;
        self.dirty = true;
        proof {
            lemma_take_skip_nl(cs@, k as int);
            assert(nl@.take(k as int) =~= nl@);
            lemma_boundary_at(nl@, k as int);
            assert(byte_at(nl@, k as int) == byte_at(cs@, k as int));
            lemma_line_edit_wf(v0, self@, nl@);
        }
    }

    /// Ctrl+U: deletes from the start of the line to the cursor.
    pub(crate) fn delete_to_line_start(&mut self)
        requires
            wf(old(self)@),
        ensures
            final(self)@ == del_to_start_view(old(self)@),
            wf(final(self)@),
            final(self).last_op_at == old(self).last_op_at,
    {
        let ghost v0 = self@;
        proof {
            lemma_wf_cursor(v0);
        }
        let l = self.cursor_line;
        let k = self.char_k(l, self.cursor_col);
        let cs = self.line_chars(l);
        let nl = crate::text::slice_vec(&cs, k, cs.len());
        assert(nl@ =~= cs@.skip(k as int));
        self.set_line(l, &nl);
        self.cursor_col = 0;
        self.sel_start = None;
        self.dirty = true;
        proof {
            lemma_take_skip_nl(cs@, k as int);
            lemma_boundary_zero(nl@);
            lemma_line_edit_wf(v0, self@, nl@);
        }
    }

    /// Alt+Left: to the start of the previous word (a CJK character is a word).
    pub fn move_word_left(&mut self)
        requires
            wf(old(self)@),
        ensures
            final(self)@ == (EditorView {
                cursor_col: byte_at(cur_line(old(self)@), word_left_pos(cur_line(old(self)@), cur_k(old(self)@))) as usize,
                stick_col: None,
                ..old(self)@
            }),
            final(self).last_op_at == old(self).last_op_at,
    {
        proof {
            lemma_wf_cursor(self@);
        }
        let l = self.cursor_line;
        let k = self.char_k(l, self.cursor_col);
        let s = self.line_chars(l);
        let mut i = k;
        while i > 0 && crate::text::is_whitespace(s[i - 1])
            invariant
                i <= k <= s@.len(),
                ws_start(s@, i as int) == ws_start(s@, k as int),
            decreases i,
        {
            i = i - 1;
        }
        let ghost w = i;
        let mut stop = false;
        while !stop && i > 0 && !crate::text::is_whitespace(s[i - 1])
            invariant
                i <= w <= s@.len(),
                stop ==> i == word_left_from(s@, w as int),
                !stop ==> word_left_from(s@, i as int) == word_left_from(s@, w as int),
            decreases i,
        {
            if is_cjk(s[i - 1]) {
                stop = true;
            }
            i = i - 1;
        }
        self.cursor_col = crate::text::byte_offset(&s, i);
        self.stick_col = None;
    }

    /// Alt+Right: over the word (a CJK character is a word), then over the whitespace.
    pub fn move_word_right(&mut self)
        requires
            wf(old(self)@),
        ensures
            final(self)@ == (EditorView {
                cursor_col: byte_at(cur_line(old(self)@), word_right_pos(cur_line(old(self)@), cur_k(old(self)@))) as usize,
                stick_col: None,
                ..old(self)@
            }),
            final(self).last_op_at == old(self).last_op_at,
    {
        proof {
            lemma_wf_cursor(self@);
        }
        let l = self.cursor_line;
        let k = self.char_k(l, self.cursor_col);
        let s = self.line_chars(l);
        let n = s.len();
        let mut i = k;
        let mut stop = false;
        while !stop && i < n && !crate::text::is_whitespace(s[i])
            invariant
                k <= i <= n == s@.len(),
                stop ==> i == word_right_from(s@, k as int),
                !stop ==> word_right_from(s@, i as int) == word_right_from(s@, k as int),
            decreases n - i,
        {
            if is_cjk(s[i]) {
                stop = true;
            }
            i = i + 1;
        }
        let e = i;
        let j = crate::text::skip_ws(&s, e);
        proof {
            crate::text::lemma_ws_run(s@, e as int);
        }
        self.cursor_col = crate::text::byte_offset(&s, j);
        self.stick_col = None;
    }

    /// Ctrl+W / Alt+Backspace: deletes the word before the cursor (or the selection).
    pub(crate) fn delete_word_back(&mut self)
        requires
            wf(old(self)@),
        ensures
            final(self)@ == del_word_back_view(old(self)@),
            wf(final(self)@),
            final(self).last_op_at == old(self).last_op_at,
    {
        if self.sel_start.is_some() {
            self.delete_selection();
            self.dirty = true;
            return;
        }
        let ghost v0 = self@;
        proof {
            lemma_wf_cursor(v0);
        }
        let l = self.cursor_line;
        let k = self.char_k(l, self.cursor_col);
        let s = self.line_chars(l);
        let n = s.len();
        let mut i = k;
        while i > 0 && crate::text::is_whitespace(s[i - 1])
            invariant
                i <= k <= n == s@.len(),
                ws_start(s@, i as int) == ws_start(s@, k as int),
            decreases i,
        {
            i = i - 1;
        }
        let k0 = i;
        assert(k0 == ws_start(s@, k as int));
        while i > 0 && !crate::text::is_whitespace(s[i - 1])
            invariant
                i <= k0 <= k <= n == s@.len(),
                word_start(s@, i as int) == word_start(s@, k0 as int),
            decreases i,
        {
            i = i - 1;
        }
        let kw = i;
        proof {
            crate::editor::lemma_word_start(s@, k0 as int);
        }
        while i > 0 && crate::text::is_whitespace(s[i - 1])
            invariant
                i <= kw <= n == s@.len(),
                ws_start(s@, i as int) == ws_start(s@, kw as int),
            decreases i,
        {
            i = i - 1;
        }
        let kws = i;
        let kd = if kws < kw && (s[kws] == ' ' || s[kws] == '\t' || s[kws] == '\n' || s[kws] == '\x0C' || s[kws] == '\r') {
            kws + 1
        } else {
            kws
        };
        let mut nl = crate::text::slice_vec(&s, 0, kd);
        crate::text::extend_from(&mut nl, &s, k, n);
        assert(nl@ =~= s@.take(kd as int) + s@.skip(k as int));
        self.set_line(l, &nl);
        self.cursor_col = crate::text::byte_offset(&s, kd);
        self.dirty = true;
        proof {
            lemma_take_skip_nl(s@, kd as int);
            lemma_take_skip_nl(s@, k as int);
            crate::editor::lemma_concat_no_newline(s@.take(kd as int), s@.skip(k as int));
            lemma_prefix_boundary(s@.take(kd as int), s@.skip(k as int));
            crate::text::lemma_byte_len_bound(s@);
            lemma_line_edit_wf(v0, self@, nl@);
        }
    }

    /// Alt+Delete: deletes the whitespace and the word after the cursor (or the selection).
    pub(crate) fn delete_word_forward(&mut self)
        requires
            wf(old(self)@),
        ensures
            final(self)@ == del_word_fwd_view(old(self)@),
            wf(final(self)@),
            final(self).last_op_at == old(self).last_op_at,
    {
        if self.sel_start.is_some() {
            self.delete_selection();
            self.dirty = true;
            return;
        }
        let ghost v0 = self@;
        proof {
            lemma_wf_cursor(v0);
        }
        let l = self.cursor_line;
        let k = self.char_k(l, self.cursor_col);
        let s = self.line_chars(l);
        let n = s.len();
        let w = crate::text::skip_ws(&s, k);
        proof {
            crate::text::lemma_ws_run(s@, k as int);
        }
        let mut i = w;
        while i < n && !crate::text::is_whitespace(s[i])
            invariant
                w <= i <= n == s@.len(),
                word_end(s@, i as int) == word_end(s@, w as int),
            decreases n - i,
        {
            i = i + 1;
        }
        let mut nl = crate::text::slice_vec(&s, 0, k);
        crate::text::extend_from(&mut nl, &s, i, n);
        assert(nl@ =~= s@.take(k as int) + s@.skip(i as int));
        self.set_line(l, &nl);
        self.dirty = true;
        proof {
            lemma_take_skip_nl(s@, k as int);
            lemma_take_skip_nl(s@, i as int);
            crate::editor::lemma_concat_no_newline(s@.take(k as int), s@.skip(i as int));
            lemma_prefix_boundary(s@.take(k as int), s@.skip(i as int));
            assert(s@.take(k as int).len() == k);
            lemma_line_edit_wf(v0, self@, nl@);
        }
    }
}

} // verus!
