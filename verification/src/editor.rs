//! Editor state: source lines, cursor and selection (byte offsets within a line),
//! undo history and input state, with the cursor / selection / insertion primitives.

use vstd::prelude::*;
use crate::ops::{LastOp, Mark, RuleState};
use crate::line::{LineStyle, ParsedLine, count_lt, detect, disp_col, line_display, line_map, line_prefix, src_col};
use crate::text::{
    byte_at, byte_len, char_width, is_whitespace, is_ws, char_pos, chars_of, is_boundary, join_lines, lemma_boundary_at,
    lemma_u16_pos_from, split_chars, split_lines, string_of, u16_at, u16_pos_from, utf16_len,
};

verus! {

/// A snapshot of the document and cursor (for undo / redo).
#[derive(Clone, Debug, PartialEq)]
pub struct EditorSnapshot {
    pub lines: Vec<String>,
    pub cursor_line: usize,
    pub cursor_col: usize,
    pub sel_start: Option<(usize, usize)>,
    pub marked: Option<(usize, usize)>,
}

/// Spec form of a snapshot.
pub struct SnapView {
    pub lines: Seq<Seq<char>>,
    pub cursor_line: usize,
    pub cursor_col: usize,
    pub sel_start: Option<(usize, usize)>,
    pub marked: Option<(usize, usize)>,
}

pub open spec fn text_of(lines: Seq<String>) -> Seq<Seq<char>> {
    lines.map_values(|s: String| s@)
}

impl View for EditorSnapshot {
    type V = SnapView;

    open spec fn view(&self) -> SnapView {
        SnapView {
            lines: text_of(self.lines@),
            cursor_line: self.cursor_line,
            cursor_col: self.cursor_col,
            sel_start: self.sel_start,
            marked: self.marked,
        }
    }
}

/// The editor state.
pub struct Editor {
    pub lines: Vec<String>,
    pub cursor_line: usize,
    /// Byte offset within the cursor line.
    pub cursor_col: usize,
    pub sel_start: Option<(usize, usize)>,
    pub dirty: bool,
    /// IME composition range within the cursor line (byte offsets).
    pub marked: Option<(usize, usize)>,
    pub undo_stack: Vec<EditorSnapshot>,
    pub redo_stack: Vec<EditorSnapshot>,
    pub merge_undo: bool,
    pub last_op: Option<LastOp>,
    pub last_op_at: Option<std::time::Instant>,
    pub rule_state: RuleState,
    pub pending_marks: Vec<Mark>,
    /// Remembered display column for vertical movement.
    pub stick_col: Option<usize>,
    /// Drag-selection anchor.
    pub drag_anchor: Option<(usize, usize)>,
    /// Caret blink phase.
    pub blink_on: bool,
    /// Find matches: (line, character column); `find_index` is the current one.
    pub find_matches: Vec<(usize, usize)>,
    pub find_index: usize,
    pub find_len: usize,
}

/// Spec form of the editor (everything but the time of the last edit).
pub struct EditorView {
    pub lines: Seq<Seq<char>>,
    pub cursor_line: usize,
    pub cursor_col: usize,
    pub sel_start: Option<(usize, usize)>,
    pub dirty: bool,
    pub marked: Option<(usize, usize)>,
    pub undo_stack: Seq<SnapView>,
    pub redo_stack: Seq<SnapView>,
    pub merge_undo: bool,
    pub last_op: Option<LastOp>,
    pub rule_state: RuleState,
    pub pending_marks: Seq<Mark>,
    pub stick_col: Option<usize>,
    pub drag_anchor: Option<(usize, usize)>,
    pub blink_on: bool,
    pub find_matches: Seq<(usize, usize)>,
    pub find_index: usize,
    pub find_len: usize,
}

impl View for Editor {
    type V = EditorView;

    open spec fn view(&self) -> EditorView {
        EditorView {
            lines: text_of(self.lines@),
            cursor_line: self.cursor_line,
            cursor_col: self.cursor_col,
            sel_start: self.sel_start,
            dirty: self.dirty,
            marked: self.marked,
            undo_stack: self.undo_stack@.map_values(|s: EditorSnapshot| s@),
            redo_stack: self.redo_stack@.map_values(|s: EditorSnapshot| s@),
            merge_undo: self.merge_undo,
            last_op: self.last_op,
            rule_state: self.rule_state,
            pending_marks: self.pending_marks@,
            stick_col: self.stick_col,
            drag_anchor: self.drag_anchor,
            blink_on: self.blink_on,
            find_matches: self.find_matches@,
            find_index: self.find_index,
            find_len: self.find_len,
        }
    }
}

/// `(line, byte column)` names a character boundary of an existing line.
pub open spec fn pos_ok(lines: Seq<Seq<char>>, p: (usize, usize)) -> bool {
    p.0 < lines.len() && is_boundary(lines[p.0 as int], p.1 as int)
}

/// A document: at least one line, and no line holds a line break.
pub open spec fn doc_ok(lines: Seq<Seq<char>>) -> bool {
    lines.len() >= 1 && forall|i: int| 0 <= i < lines.len() ==> !(#[trigger] lines[i]).contains('\n')
}

pub open spec fn snap_ok(s: SnapView) -> bool {
    &&& doc_ok(s.lines)
    &&& pos_ok(s.lines, (s.cursor_line, s.cursor_col))
    &&& s.sel_start matches Some(p) ==> pos_ok(s.lines, p)
}

/// A valid editor state.
pub open spec fn wf(v: EditorView) -> bool {
    &&& doc_ok(v.lines)
    &&& pos_ok(v.lines, (v.cursor_line, v.cursor_col))
    &&& v.sel_start matches Some(p) ==> pos_ok(v.lines, p)
    &&& forall|i: int| 0 <= i < v.undo_stack.len() ==> snap_ok(#[trigger] v.undo_stack[i])
    &&& forall|i: int| 0 <= i < v.redo_stack.len() ==> snap_ok(#[trigger] v.redo_stack[i])
}

/// The cursor line.
pub open spec fn cur_line(v: EditorView) -> Seq<char> {
    v.lines[v.cursor_line as int]
}

/// Character position of the cursor within its line.
pub open spec fn cur_k(v: EditorView) -> int {
    char_pos(cur_line(v), v.cursor_col as int)
}

/// Byte column of character position `k` of `line`.
pub open spec fn col(line: Seq<char>, k: int) -> usize {
    byte_at(line, k) as usize
}

/// The state `Editor::new` builds from `source`.
pub open spec fn new_view(source: Seq<char>) -> EditorView {
    EditorView {
        lines: split_lines(source),
        cursor_line: 0,
        cursor_col: 0,
        sel_start: None,
        dirty: false,
        marked: None,
        undo_stack: Seq::empty(),
        redo_stack: Seq::empty(),
        merge_undo: false,
        last_op: None,
        rule_state: RuleState::Inactive,
        pending_marks: Seq::empty(),
        stick_col: None,
        drag_anchor: None,
        blink_on: true,
        find_matches: Seq::empty(),
        find_index: 0,
        find_len: 0,
    }
}

pub fn strings_of(v: Vec<Vec<char>>) -> (r: Vec<String>)
    ensures
        text_of(r@) == v@.map_values(|x: Vec<char>| x@),
{
    let mut r: Vec<String> = Vec::new();
    let mut i: usize = 0;
    while i < v.len()
        invariant
            i <= v@.len(),
            text_of(r@) == v@.take(i as int).map_values(|x: Vec<char>| x@),
        decreases v@.len() - i,
    {
        let ghost before = r@;
        let st = string_of(&v[i]);
        r.push(st);
        assert(r@ == before.push(st));
        assert(text_of(r@) =~= text_of(before).push(st@));
        i = i + 1;
        assert(text_of(r@) =~= v@.take(i as int).map_values(|x: Vec<char>| x@));
    }
    assert(v@.take(v@.len() as int) =~= v@);
    r
}

impl Editor {
    /// Splits `source` into lines; cursor at the start, empty history.
    pub fn new(source: &str) -> (r: Self)
        ensures
            r@ == new_view(source@),
            r.last_op_at is None,
            wf(r@),
    {
        let s = chars_of(source);
        let parts = split_chars(&s);
        let lines = strings_of(parts);
        proof {
            crate::text::lemma_split_no_newline(source@);
            crate::text::lemma_split_nonempty(source@);
            crate::text::lemma_boundary_at(split_lines(source@)[0], 0);
            assert(split_lines(source@)[0].take(0) =~= Seq::<char>::empty());
        }
        let r = Editor {
            lines,
            cursor_line: 0,
            cursor_col: 0,
            sel_start: None,
            dirty: false,
            marked: None,
            undo_stack: Vec::new(),
            redo_stack: Vec::new(),
            merge_undo: false,
            last_op: None,
            last_op_at: None,
            rule_state: RuleState::Inactive,
            pending_marks: Vec::new(),
            stick_col: None,
            drag_anchor: None,
            blink_on: true,
            find_matches: Vec::new(),
            find_index: 0,
            find_len: 0,
        };
        assert(r@.undo_stack =~= Seq::<SnapView>::empty());
        assert(r@.redo_stack =~= Seq::<SnapView>::empty());
        assert(r@ =~= new_view(source@));
        r
    }

    /// The source text: the lines joined with `'\n'`.
    pub fn to_source(&self) -> (r: String)
        ensures
            r@ == join_lines(self@.lines),
    {
        let mut out: Vec<char> = Vec::new();
        let mut i: usize = 0;
        while i < self.lines.len()
            invariant
                i <= self.lines@.len(),
                out@ == join_lines(self@.lines.take(i as int)),
            decreases self.lines@.len() - i,
        {
            if i > 0 {
                out.push('\n');
            }
            let l = chars_of(self.lines[i].as_str());
            crate::text::extend_all(&mut out, &l);
            proof {
                let t = self@.lines.take(i + 1);
                assert(t.drop_last() =~= self@.lines.take(i as int));
                if i == 0 {
                    assert(self@.lines.take(0) =~= Seq::<Seq<char>>::empty());
                    assert(out@ =~= t[0]);
                } else {
                    assert(out@ =~= join_lines(t.drop_last()) + seq!['\n'] + t.last());
                }
            }
            i = i + 1;
        }
        assert(self@.lines.take(self.lines@.len() as int) =~= self@.lines);
        string_of(&out)
    }

    /// Line `i` (empty when out of range).
    pub fn line(&self, i: usize) -> (r: &str)
        ensures
            r@ == (if i < self@.lines.len() { self@.lines[i as int] } else { Seq::<char>::empty() }),
    {
        if i < self.lines.len() {
            self.lines[i].as_str()
        } else {
            proof {
                reveal_strlit("");
            }
            ""
        }
    }

    /// Byte length of line `i` (0 when out of range).
    pub fn line_len(&self, i: usize) -> (r: usize)
        ensures
            r == (if i < self@.lines.len() { byte_len(self@.lines[i as int]) } else { 0 }),
    {
        let s = self.line(i);
        crate::text::str_fits(s);
        let c = chars_of(s);
        proof {
            assert(c@.take(c@.len() as int) =~= c@);
        }
        crate::text::byte_offset(&c, c.len())
    }
}

/// Building an editor from a source and reading the source back gives the same text.
pub proof fn law_new_to_source(source: Seq<char>)
    ensures
        join_lines(new_view(source).lines) == source,
{
    crate::text::lemma_join_split(source);
}


/// The selection anchor after a movement: dropped unless extending; set to the cursor
/// when extending from no selection.
pub open spec fn anchor(v: EditorView, extend: bool) -> Option<(usize, usize)> {
    if !extend {
        None
    } else if v.sel_start is None {
        Some((v.cursor_line, v.cursor_col))
    } else {
        v.sel_start
    }
}

pub open spec fn move_left_view(v: EditorView, extend: bool) -> EditorView {
    let v1 = EditorView { sel_start: anchor(v, extend), stick_col: None, ..v };
    let k = cur_k(v);
    if k > 0 {
        EditorView { cursor_col: col(cur_line(v), k - 1), ..v1 }
    } else if v.cursor_line > 0 {
        EditorView {
            cursor_line: (v.cursor_line - 1) as usize,
            cursor_col: byte_len(v.lines[v.cursor_line - 1]) as usize,
            ..v1
        }
    } else {
        v1
    }
}

pub open spec fn move_right_view(v: EditorView, extend: bool) -> EditorView {
    let v1 = EditorView { sel_start: anchor(v, extend), stick_col: None, ..v };
    let k = cur_k(v);
    if k < cur_line(v).len() {
        EditorView { cursor_col: col(cur_line(v), k + 1), ..v1 }
    } else if v.cursor_line + 1 < v.lines.len() {
        EditorView { cursor_line: (v.cursor_line + 1) as usize, cursor_col: 0, ..v1 }
    } else {
        v1
    }
}

pub open spec fn move_home_view(v: EditorView, extend: bool) -> EditorView {
    EditorView { sel_start: anchor(v, extend), cursor_col: 0, stick_col: None, ..v }
}

pub open spec fn move_end_view(v: EditorView, extend: bool) -> EditorView {
    EditorView {
        sel_start: anchor(v, extend),
        cursor_col: byte_len(cur_line(v)) as usize,
        stick_col: None,
        ..v
    }
}

/// `a` comes before `b` in the document.
pub open spec fn pos_lt(a: (usize, usize), b: (usize, usize)) -> bool {
    a.0 < b.0 || (a.0 == b.0 && a.1 < b.1)
}

/// The ordered selection, when there is a non-empty one.
pub open spec fn sel_bounds(v: EditorView) -> Option<((usize, usize), (usize, usize))> {
    match v.sel_start {
        None => None,
        Some(s) => {
            let c = (v.cursor_line, v.cursor_col);
            if s == c {
                None
            } else if pos_lt(s, c) {
                Some((s, c))
            } else {
                Some((c, s))
            }
        },
    }
}

/// Whether an odd number of fence lines precede line `n`.
pub open spec fn fence_parity(lines: Seq<Seq<char>>, n: int) -> bool
    decreases n,
{
    if n <= 0 || n > lines.len() {
        false
    } else {
        let p = fence_parity(lines, n - 1);
        if crate::line::fence_line(lines[n - 1]) {
            !p
        } else {
            p
        }
    }
}

pub proof fn lemma_wf_cursor(v: EditorView)
    requires
        wf(v),
    ensures
        0 <= cur_k(v) <= cur_line(v).len(),
        byte_at(cur_line(v), cur_k(v)) == v.cursor_col,
{
    crate::text::lemma_char_pos(cur_line(v), v.cursor_col as int);
}


/// The state after selecting everything.
pub open spec fn select_all_view(v: EditorView) -> EditorView {
    EditorView {
        sel_start: Some((0, 0)),
        cursor_line: (v.lines.len() - 1) as usize,
        cursor_col: byte_len(v.lines.last()) as usize,
        ..v
    }
}

/// The end of a line is a character boundary.
pub proof fn lemma_boundary_end(s: Seq<char>)
    ensures
        is_boundary(s, byte_len(s) as int),
{
    assert(s.take(s.len() as int) =~= s);
    lemma_boundary_at(s, s.len() as int);
}

/// Horizontal movements and selecting everything keep a state valid.
pub proof fn lemma_move_wf(v: EditorView, extend: bool)
    requires
        wf(v),
        byte_len(cur_line(v)) <= usize::MAX,
        v.cursor_line > 0 ==> byte_len(v.lines[v.cursor_line - 1]) <= usize::MAX,
        byte_len(v.lines.last()) <= usize::MAX,
        v.lines.len() <= usize::MAX,
    ensures
        wf(move_left_view(v, extend)),
        wf(move_right_view(v, extend)),
        wf(move_home_view(v, extend)),
        wf(move_end_view(v, extend)),
        wf(select_all_view(v)),
{
    lemma_wf_cursor(v);
    let k = cur_k(v);
    let line = cur_line(v);
    if k > 0 {
        lemma_boundary_at(line, k - 1);
    }
    if k < line.len() {
        lemma_boundary_at(line, k + 1);
        crate::text::lemma_byte_at_mono(line, k + 1, line.len() as int);
        let w = move_right_view(v, extend);
        assert(pos_ok(w.lines, (w.cursor_line, w.cursor_col)));
    } else if v.cursor_line + 1 < v.lines.len() {
        let w = move_right_view(v, extend);
        assert(v.lines[v.cursor_line + 1].take(0) =~= Seq::<char>::empty());
        lemma_boundary_at(v.lines[v.cursor_line + 1], 0);
        assert(pos_ok(w.lines, (w.cursor_line, w.cursor_col)));
    }
    if v.cursor_line > 0 {
        lemma_boundary_end(v.lines[v.cursor_line - 1]);
    }
    if v.cursor_line + 1 < v.lines.len() {
        assert(v.lines[v.cursor_line + 1].take(0) =~= Seq::<char>::empty());
        lemma_boundary_at(v.lines[v.cursor_line + 1], 0);
    }
    assert(line.take(0) =~= Seq::<char>::empty());
    lemma_boundary_at(line, 0);
    lemma_boundary_end(line);
    crate::text::lemma_byte_len_bound(line);
    crate::text::lemma_byte_at_mono(line, k, line.len() as int);
    assert(v.lines[0].take(0) =~= Seq::<char>::empty());
    lemma_boundary_at(v.lines[0], 0);
    lemma_boundary_end(v.lines.last());
    assert(v.lines.last() == v.lines[v.lines.len() - 1]);
    if k > 0 {
        crate::text::lemma_byte_at_mono(line, k - 1, k);
        let w = move_left_view(v, extend);
        assert(pos_ok(w.lines, (w.cursor_line, w.cursor_col)));
    } else if v.cursor_line > 0 {
        let w = move_left_view(v, extend);
        assert(pos_ok(w.lines, (w.cursor_line, w.cursor_col)));
    }
    let w = select_all_view(v);
    assert(pos_ok(w.lines, (w.cursor_line, w.cursor_col)));
    assert(pos_ok(w.lines, (0, 0)));
}


impl Editor {
    /// The cursor line, the line above it and the last line fit in memory.
    fn fits_for_moves(&self)
        requires
            self@.cursor_line < self@.lines.len(),
        ensures
            byte_len(cur_line(self@)) <= usize::MAX,
            self@.cursor_line > 0 ==> byte_len(self@.lines[self@.cursor_line - 1]) <= usize::MAX,
            byte_len(self@.lines.last()) <= usize::MAX,
            self@.lines.len() <= usize::MAX,
    {
        let _n = self.lines.len();
        let _a = self.line_len(self.cursor_line);
        if self.cursor_line > 0 {
            let _b = self.line_len(self.cursor_line - 1);
        }
        let _c = self.line_len(self.lines.len() - 1);
    }
}

impl Editor {
    /// Characters of line `i`.
    pub fn line_chars(&self, i: usize) -> (r: Vec<char>)
        requires
            i < self@.lines.len(),
        ensures
            r@ == self@.lines[i as int],
            byte_len(r@) <= usize::MAX,
    {
        crate::text::str_fits(self.lines[i].as_str());
        chars_of(self.lines[i].as_str())
    }

    /// Character position of byte column `c` of line `l`.
    pub fn char_k(&self, l: usize, c: usize) -> (r: usize)
        requires
            pos_ok(self@.lines, (l, c)),
        ensures
            r == char_pos(self@.lines[l as int], c as int),
            r <= self@.lines[l as int].len(),
            byte_at(self@.lines[l as int], r as int) == c,
    {
        let s = self.line_chars(l);
        let k = crate::text::char_index(&s, c);
        proof {
            crate::text::lemma_char_pos(s@, c as int);
        }
        k.unwrap()
    }

    /// Replaces line `i`.
    pub fn set_line(&mut self, i: usize, v: &[char])
        requires
            i < old(self)@.lines.len(),
        ensures
            final(self)@ == (EditorView { lines: old(self)@.lines.update(i as int, v@), ..old(self)@ }),
            final(self).last_op_at == old(self).last_op_at,
    {
        let st = string_of(v);
        let ghost l0 = self.lines@;
        self.lines.set(i, st);
        assert(text_of(self.lines@) =~= text_of(l0).update(i as int, v@));
    }

    pub fn move_left(&mut self, extend: bool)
        requires
            wf(old(self)@),
        ensures
            final(self)@ == move_left_view(old(self)@, extend),
            wf(final(self)@),
            final(self).last_op_at == old(self).last_op_at,
    {
        self.fits_for_moves();
        proof {
            lemma_move_wf(old(self)@, extend);
        }
        proof {
            lemma_wf_cursor(self@);
        }
        if !extend {
            self.sel_start = None;
        } else if self.sel_start.is_none() {
            self.sel_start = Some((self.cursor_line, self.cursor_col));
        }
        self.stick_col = None;
        let k = self.char_k(self.cursor_line, self.cursor_col);
        if k > 0 {
            let s = self.line_chars(self.cursor_line);
            self.cursor_col = crate::text::byte_offset(&s, k - 1);
        } else if self.cursor_line > 0 {
            self.cursor_line = self.cursor_line - 1;
            self.cursor_col = self.line_len(self.cursor_line);
        }
    }

    pub fn move_right(&mut self, extend: bool)
        requires
            wf(old(self)@),
        ensures
            final(self)@ == move_right_view(old(self)@, extend),
            wf(final(self)@),
            final(self).last_op_at == old(self).last_op_at,
    {
        self.fits_for_moves();
        proof {
            lemma_move_wf(old(self)@, extend);
        }
        proof {
            lemma_wf_cursor(self@);
        }
        if !extend {
            self.sel_start = None;
        } else if self.sel_start.is_none() {
            self.sel_start = Some((self.cursor_line, self.cursor_col));
        }
        self.stick_col = None;
        let k = self.char_k(self.cursor_line, self.cursor_col);
        let s = self.line_chars(self.cursor_line);
        if k < s.len() {
            self.cursor_col = crate::text::byte_offset(&s, k + 1);
        } else if self.cursor_line < self.lines.len() - 1 {
            self.cursor_line = self.cursor_line + 1;
            self.cursor_col = 0;
        }
    }

    pub fn move_home(&mut self, extend: bool)
        ensures
            final(self)@ == move_home_view(old(self)@, extend),
            wf(old(self)@) ==> wf(final(self)@),
            final(self).last_op_at == old(self).last_op_at,
    {
        if self.cursor_line < self.lines.len() {
            self.fits_for_moves();
        }
        proof {
            if wf(old(self)@) {
                lemma_move_wf(old(self)@, extend);
            }
        }
        if !extend {
            self.sel_start = None;
        } else if self.sel_start.is_none() {
            self.sel_start = Some((self.cursor_line, self.cursor_col));
        }
        self.cursor_col = 0;
        self.stick_col = None;
    }

    pub fn move_end(&mut self, extend: bool)
        requires
            wf(old(self)@),
        ensures
            final(self)@ == move_end_view(old(self)@, extend),
            wf(final(self)@),
            final(self).last_op_at == old(self).last_op_at,
    {
        self.fits_for_moves();
        proof {
            lemma_move_wf(old(self)@, extend);
        }
        if !extend {
            self.sel_start = None;
        } else if self.sel_start.is_none() {
            self.sel_start = Some((self.cursor_line, self.cursor_col));
        }
        self.cursor_col = self.line_len(self.cursor_line);
        self.stick_col = None;
    }

    /// Forgets the remembered column for vertical movement.
    pub fn clear_stick_col(&mut self)
        ensures
            final(self)@ == (EditorView { stick_col: None, ..old(self)@ }),
            final(self).last_op_at == old(self).last_op_at,
    {
        self.stick_col = None;
    }

    /// Whether line `line` lies inside a code fence (its own fence line not counted).
    pub fn in_fence_at(&self, line: usize) -> (r: bool)
        ensures
            r == fence_parity(self@.lines, if line < self@.lines.len() { line as int } else { self@.lines.len() as int }),
    {
        let mut in_fence = false;
        let mut i: usize = 0;
        while i < self.lines.len() && i < line
            invariant
                i <= self@.lines.len(),
                i <= line,
                in_fence == fence_parity(self@.lines, i as int),
            decreases self@.lines.len() - i,
        {
            if crate::line::is_fence_line(self.lines[i].as_str()) {
                in_fence = !in_fence;
            }
            i = i + 1;
        }
        in_fence
    }

    /// Selects line `line` from its start to its end.
    pub fn select_line_at(&mut self, line: usize)
        ensures
            final(self)@ == (EditorView {
                sel_start: Some((line, 0)),
                cursor_line: line,
                cursor_col: (if line < old(self)@.lines.len() { byte_len(old(self)@.lines[line as int]) } else { 0 }) as usize,
                ..old(self)@
            }),
            final(self).last_op_at == old(self).last_op_at,
    {
        let len = self.line_len(line);
        self.sel_start = Some((line, 0));
        self.cursor_line = line;
        self.cursor_col = len;
    }

    /// The ordered selection bounds, when the selection is not empty.
    pub fn selection_bounds(&self) -> (r: Option<((usize, usize), (usize, usize))>)
        ensures
            r == sel_bounds(self@),
    {
        match self.sel_start {
            None => None,
            Some((sl, sc)) => {
                let cl = self.cursor_line;
                let cc = self.cursor_col;
                if sl == cl && sc == cc {
                    None
                } else if sl < cl || (sl == cl && sc < cc) {
                    Some(((sl, sc), (cl, cc)))
                } else {
                    Some(((cl, cc), (sl, sc)))
                }
            },
        }
    }

    /// Selects the whole document.
    pub fn select_all(&mut self)
        requires
            old(self)@.lines.len() >= 1,
        ensures
            final(self)@ == select_all_view(old(self)@),
            wf(old(self)@) ==> wf(final(self)@),
            final(self).last_op_at == old(self).last_op_at,
    {
        if self.cursor_line < self.lines.len() {
            self.fits_for_moves();
        }
        proof {
            if wf(old(self)@) {
                lemma_move_wf(old(self)@, false);
            }
        }
        let last = self.lines.len() - 1;
        self.sel_start = Some((0, 0));
        self.cursor_line = last;
        self.cursor_col = self.line_len(last);
    }
}


/// The column remembered for vertical movement.
pub open spec fn stick_of(v: EditorView) -> usize {
    match v.stick_col {
        Some(c) => c,
        None => disp_col(cur_line(v), v.cursor_col as int) as usize,
    }
}

pub open spec fn move_up_view(v: EditorView, extend: bool) -> EditorView {
    let d = stick_of(v);
    let v1 = EditorView { sel_start: anchor(v, extend), stick_col: Some(d), ..v };
    if v.cursor_line > 0 {
        let l = (v.cursor_line - 1) as usize;
        EditorView { cursor_line: l, cursor_col: src_col(v.lines[l as int], d as int) as usize, ..v1 }
    } else {
        EditorView { cursor_col: 0, ..v1 }
    }
}

pub open spec fn move_down_view(v: EditorView, extend: bool) -> EditorView {
    let d = stick_of(v);
    let v1 = EditorView { sel_start: anchor(v, extend), stick_col: Some(d), ..v };
    if v.cursor_line + 1 < v.lines.len() {
        let l = (v.cursor_line + 1) as usize;
        EditorView { cursor_line: l, cursor_col: src_col(v.lines[l as int], d as int) as usize, ..v1 }
    } else {
        EditorView { cursor_col: byte_len(cur_line(v)) as usize, ..v1 }
    }
}

/// Entries of a strictly increasing map are below the line's byte length.
pub open spec fn map_ok(p: ParsedLine) -> bool {
    forall|a: int, b: int| 0 <= a < b < p.map@.len() ==> #[trigger] p.map@[a] < #[trigger] p.map@[b]
}

/// Display column of byte column `c` given a parsed line.
pub open spec fn disp_col_of(p: ParsedLine, c: int) -> int {
    if c <= p.prefix_len {
        0
    } else {
        count_lt(p.map@.map_values(|x: usize| x as int), c)
    }
}

/// A vertical move keeps a valid state: the text is unchanged, the anchor was valid, and
/// the new column is a character boundary of the new line.
proof fn lemma_move_vert_wf(v0: EditorView, w: EditorView)
    requires
        wf(v0),
        w.lines == v0.lines,
        w.undo_stack == v0.undo_stack,
        w.redo_stack == v0.redo_stack,
        w.sel_start is None || w.sel_start == v0.sel_start || w.sel_start == Some((v0.cursor_line, v0.cursor_col)),
        w.cursor_line < w.lines.len(),
        w.cursor_col == 0 || w.cursor_col == byte_len(w.lines[w.cursor_line as int])
            || exists|d: int| d >= 0 && #[trigger] crate::line::src_col(w.lines[w.cursor_line as int], d) == w.cursor_col,
    ensures
        wf(w),
{
    let s = w.lines[w.cursor_line as int];
    if w.cursor_col == 0 {
        assert(byte_len(s.take(0)) == 0);
    } else if w.cursor_col == byte_len(s) {
        assert(s.take(s.len() as int) =~= s);
    } else {
        let d = choose|d: int| d >= 0 && #[trigger] crate::line::src_col(s, d) == w.cursor_col;
        crate::line::lemma_src_col_boundary(s, d);
    }
}

impl Editor {
    /// Display column of the cursor on `parsed` (its line's parse).
    pub fn cursor_display_col(&self, parsed: &ParsedLine) -> (r: usize)
        requires
            map_ok(*parsed),
        ensures
            r == disp_col_of(*parsed, if self@.cursor_line < self@.lines.len() && self@.cursor_col > byte_len(cur_line(self@)) { byte_len(cur_line(self@)) as int } else if self@.cursor_line < self@.lines.len() { self@.cursor_col as int } else { 0 }),
    {
        let len = self.line_len(self.cursor_line);
        let c = if self.cursor_col < len {
            self.cursor_col
        } else {
            len
        };
        if c <= parsed.prefix_len {
            return 0;
        }
        crate::line::lower_bound(&parsed.map, c)
    }

    /// Display column of byte column `src_col` given a parsed line.
    pub fn display_col_for_source(&self, parsed: &ParsedLine, src_col: usize) -> (r: usize)
        requires
            map_ok(*parsed),
        ensures
            r == disp_col_of(*parsed, src_col as int),
    {
        if src_col <= parsed.prefix_len {
            return 0;
        }
        crate::line::lower_bound(&parsed.map, src_col)
    }

    /// Byte column of display column `display_col` on line `line`.
    pub fn source_col_for_display(&self, line: usize, display_col: usize) -> (r: usize)
        ensures
            r == src_col(if line < self@.lines.len() { self@.lines[line as int] } else { Seq::<char>::empty() }, display_col as int),
    {
        let s = self.line(line);
        let parsed = crate::line::parse_line(s, false);
        proof {
            crate::line::lemma_parsed_map(parsed, s@);
        }
        if display_col == 0 {
            return parsed.prefix_len;
        }
        if display_col >= parsed.map.len() {
            return self.line_len(line);
        }
        parsed.map[display_col]
    }

    /// The remembered column for vertical movement, computed and kept on first use.
    fn stick_col(&mut self) -> (r: usize)
        requires
            wf(old(self)@),
        ensures
            r == stick_of(old(self)@),
            final(self)@ == (EditorView { stick_col: Some(r), ..old(self)@ }),
            final(self).last_op_at == old(self).last_op_at,
    {
        if let Some(c) = self.stick_col {
            return c;
        }
        let parsed = crate::line::parse_line(self.line(self.cursor_line), false);
        proof {
            crate::line::lemma_parsed_map(parsed, cur_line(self@));
        }
        let dcol = self.cursor_display_col(&parsed);
        self.stick_col = Some(dcol);
        dcol
    }

    pub fn move_up(&mut self, extend: bool)
        requires
            wf(old(self)@),
        ensures
            final(self)@ == move_up_view(old(self)@, extend),
            wf(final(self)@),
            final(self).last_op_at == old(self).last_op_at,
    {
        let ghost v0 = self@;
        if !extend {
            self.sel_start = None;
        } else if self.sel_start.is_none() {
            self.sel_start = Some((self.cursor_line, self.cursor_col));
        }
        let dcol = self.stick_col();
        if self.cursor_line > 0 {
            self.cursor_line = self.cursor_line - 1;
            self.cursor_col = self.source_col_for_display(self.cursor_line, dcol);
        } else {
            self.cursor_col = 0;
        }        proof {
            let w = self@;
            lemma_move_vert_wf(v0, w);
        }
    }

    pub fn move_down(&mut self, extend: bool)
        requires
            wf(old(self)@),
        ensures
            final(self)@ == move_down_view(old(self)@, extend),
            wf(final(self)@),
            final(self).last_op_at == old(self).last_op_at,
    {
        let ghost v0 = self@;
        if !extend {
            self.sel_start = None;
        } else if self.sel_start.is_none() {
            self.sel_start = Some((self.cursor_line, self.cursor_col));
        }
        let dcol = self.stick_col();
        if self.cursor_line < self.lines.len() - 1 {
            self.cursor_line = self.cursor_line + 1;
            self.cursor_col = self.source_col_for_display(self.cursor_line, dcol);
        } else {
            self.cursor_col = self.line_len(self.cursor_line);
        }        proof {
            let w = self@;
            lemma_move_vert_wf(v0, w);
        }
    }
}


/// The lines `sl..=el` cut to the range from character `ks` of line `sl` to character `ke` of line `el`.
pub open spec fn cut(lines: Seq<Seq<char>>, sl: int, ks: int, el: int, ke: int) -> Seq<Seq<char>> {
    if sl == el {
        seq![lines[sl].subrange(ks, ke)]
    } else {
        seq![lines[sl].skip(ks)] + lines.subrange(sl + 1, el) + seq![lines[el].take(ke)]
    }
}

/// The document with the range from (`sl`, character `ks`) to (`el`, character `ke`) removed.
pub open spec fn remove_range(lines: Seq<Seq<char>>, sl: int, ks: int, el: int, ke: int) -> Seq<Seq<char>> {
    lines.take(sl) + seq![lines[sl].take(ks) + lines[el].skip(ke)] + lines.skip(el + 1)
}

/// Text of the selection.
pub open spec fn sel_text(v: EditorView) -> Option<Seq<char>> {
    match sel_bounds(v) {
        None => None,
        Some(b) => Some(join_lines(cut(v.lines, b.0.0 as int, char_pos(v.lines[b.0.0 as int], b.0.1 as int),
            b.1.0 as int, char_pos(v.lines[b.1.0 as int], b.1.1 as int)))),
    }
}

/// The state after deleting the selection (unchanged when it is empty).
pub open spec fn delsel_view(v: EditorView) -> EditorView {
    match sel_bounds(v) {
        None => v,
        Some(b) => EditorView {
            lines: remove_range(v.lines, b.0.0 as int, char_pos(v.lines[b.0.0 as int], b.0.1 as int),
                b.1.0 as int, char_pos(v.lines[b.1.0 as int], b.1.1 as int)),
            cursor_line: b.0.0,
            cursor_col: b.0.1,
            sel_start: None,
            ..v
        },
    }
}

/// The block of lines replacing the cursor line when `parts` (the pieces of the
/// inserted text) go between `head` and `tail`.
pub open spec fn ins_block(head: Seq<char>, parts: Seq<Seq<char>>, tail: Seq<char>) -> Seq<Seq<char>> {
    let n = parts.len() - 1;
    let b1 = parts.update(0, head + parts[0]);
    b1.update(n, b1[n] + tail)
}

/// The state after inserting `t` (which may hold line breaks) at the cursor.
pub open spec fn insert_view(v: EditorView, t: Seq<char>) -> EditorView {
    let v0 = if v.sel_start is Some { delsel_view(v) } else { v };
    let l = v0.cursor_line as int;
    let line = cur_line(v0);
    let k = cur_k(v0);
    let parts = split_lines(t);
    let n = parts.len() - 1;
    let b1 = parts.update(0, line.take(k) + parts[0]);
    EditorView {
        lines: v0.lines.take(l) + ins_block(line.take(k), parts, line.skip(k)) + v0.lines.skip(l + 1),
        cursor_line: (l + n) as usize,
        cursor_col: byte_len(b1[n]) as usize,
        marked: None,
        stick_col: None,
        dirty: true,
        ..v0
    }
}

/// The state after Backspace without the input-rule and marker special cases.
pub open spec fn backspace_view(v: EditorView) -> EditorView {
    if v.sel_start is Some {
        EditorView { dirty: sel_bounds(v) is Some, ..delsel_view(v) }
    } else {
        let v1 = EditorView { marked: None, stick_col: None, ..v };
        let l = v.cursor_line as int;
        let k = cur_k(v);
        if k > 0 {
            EditorView {
                lines: v.lines.update(l, cur_line(v).remove(k - 1)),
                cursor_col: col(cur_line(v), k - 1),
                dirty: true,
                ..v1
            }
        } else if l > 0 {
            EditorView {
                lines: v.lines.take(l - 1) + seq![v.lines[l - 1] + v.lines[l]] + v.lines.skip(l + 1),
                cursor_line: (l - 1) as usize,
                cursor_col: byte_len(v.lines[l - 1]) as usize,
                dirty: true,
                ..v1
            }
        } else {
            v1
        }
    }
}

/// The state after Delete.
pub open spec fn delete_view(v: EditorView) -> EditorView {
    if v.sel_start is Some {
        EditorView { dirty: sel_bounds(v) is Some, ..delsel_view(v) }
    } else {
        let v1 = EditorView { marked: None, stick_col: None, ..v };
        let l = v.cursor_line as int;
        let k = cur_k(v);
        if k < cur_line(v).len() {
            EditorView { lines: v.lines.update(l, cur_line(v).remove(k)), dirty: true, ..v1 }
        } else if l + 1 < v.lines.len() {
            EditorView {
                lines: v.lines.take(l) + seq![v.lines[l] + v.lines[l + 1]] + v.lines.skip(l + 2),
                dirty: true,
                ..v1
            }
        } else {
            v1
        }
    }
}

pub proof fn lemma_sel_bounds(v: EditorView)
    requires
        wf(v),
    ensures
        sel_bounds(v) matches Some(b) ==> {
            let ks = char_pos(v.lines[b.0.0 as int], b.0.1 as int);
            let ke = char_pos(v.lines[b.1.0 as int], b.1.1 as int);
            &&& b.0.0 <= b.1.0 < v.lines.len()
            &&& 0 <= ks <= v.lines[b.0.0 as int].len()
            &&& 0 <= ke <= v.lines[b.1.0 as int].len()
            &&& byte_at(v.lines[b.0.0 as int], ks) == b.0.1
            &&& byte_at(v.lines[b.1.0 as int], ke) == b.1.1
            &&& (b.0.0 == b.1.0 ==> ks < ke)
            &&& pos_ok(v.lines, b.0)
        },
{
    if let Some(b) = sel_bounds(v) {
        let s = v.sel_start->0;
        crate::text::lemma_char_pos(v.lines[s.0 as int], s.1 as int);
        crate::text::lemma_char_pos(cur_line(v), v.cursor_col as int);
        let ks = char_pos(v.lines[b.0.0 as int], b.0.1 as int);
        let ke = char_pos(v.lines[b.1.0 as int], b.1.1 as int);
        if b.0.0 == b.1.0 && ks >= ke {
            crate::text::lemma_byte_at_mono(v.lines[b.0.0 as int], ke, ks);
        }
    }
}

impl Editor {
    /// Text of the selection (`None` when it is empty).
    pub fn selected_text(&self) -> (r: Option<String>)
        requires
            wf(self@),
        ensures
            r is Some <==> sel_text(self@) is Some,
            r matches Some(t) ==> t@ == sel_text(self@)->0,
    {
        proof {
            lemma_sel_bounds(self@);
        }
        let b = self.selection_bounds();
        match b {
            None => None,
            Some(((sl, sc), (el, ec))) => {
                let ks = self.char_k(sl, sc);
                let ke = self.char_k(el, ec);
                let ghost c = cut(self@.lines, sl as int, ks as int, el as int, ke as int);
                let mut out: Vec<char> = Vec::new();
                if sl == el {
                    let s = self.line_chars(sl);
                    out = crate::text::slice_vec(&s, ks, ke);
                    proof {
                        assert(c.len() == 1);
                        assert(join_lines(c) == c[0]);
                    }
                    return Some(string_of(&out));
                }
                let first = self.line_chars(sl);
                crate::text::extend_from(&mut out, &first, ks, first.len());
                let mut l = sl + 1;
                proof {
                    assert(c.take(1) =~= seq![self@.lines[sl as int].skip(ks as int)]);
                    assert(join_lines(c.take(1)) == c[0]);
                    assert(out@ =~= c[0]);
                }
                while l < el
                    invariant
                        sl < l <= el < self@.lines.len(),
                        c == cut(self@.lines, sl as int, ks as int, el as int, ke as int),
                        c.len() == el - sl + 1,
                        out@ == join_lines(c.take(l - sl)),
                    decreases el - l,
                {
                    out.push('\n');
                    let s = self.line_chars(l);
                    crate::text::extend_all(&mut out, &s);
                    proof {
                        let t = c.take(l - sl + 1);
                        assert(t.drop_last() =~= c.take(l - sl));
                        assert(t.last() == self@.lines[l as int]);
                        assert(out@ =~= join_lines(t.drop_last()) + seq!['\n'] + t.last());
                    }
                    l = l + 1;
                }
                out.push('\n');
                let last = self.line_chars(el);
                crate::text::extend_from(&mut out, &last, 0, ke);
                proof {
                    let t = c.take(c.len() as int);
                    assert(t =~= c);
                    assert(t.drop_last() =~= c.take(el - sl));
                    assert(c.last() =~= last@.subrange(0, ke as int));
                    assert(out@ =~= join_lines(t.drop_last()) + seq!['\n'] + t.last());
                }
                Some(string_of(&out))
            },
        }
    }
}


pub proof fn lemma_splice_doc(lines: Seq<Seq<char>>, sl: int, el: int, block: Seq<Seq<char>>)
    requires
        doc_ok(lines),
        0 <= sl <= el < lines.len(),
        block.len() >= 1,
        forall|i: int| 0 <= i < block.len() ==> !(#[trigger] block[i]).contains('\n'),
    ensures
        doc_ok(lines.take(sl) + block + lines.skip(el + 1)),
{
    let r = lines.take(sl) + block + lines.skip(el + 1);
    assert forall|i: int| 0 <= i < r.len() implies !(#[trigger] r[i]).contains('\n') by {
        if i < sl {
            assert(r[i] == lines[i]);
        } else if i < sl + block.len() {
            assert(r[i] == block[i - sl]);
        } else {
            assert(r[i] == lines[i - sl - block.len() + el + 1]);
        }
    }
}

pub proof fn lemma_concat_no_newline(a: Seq<char>, b: Seq<char>)
    requires
        !a.contains('\n'),
        !b.contains('\n'),
    ensures
        !(a + b).contains('\n'),
{
    if (a + b).contains('\n') {
        let j = choose|j: int| 0 <= j < (a + b).len() && (a + b)[j] == '\n';
        if j < a.len() {
            assert(a[j] == '\n');
        } else {
            assert(b[j - a.len()] == '\n');
        }
    }
}

pub proof fn lemma_sub_no_newline(a: Seq<char>, i: int, j: int)
    requires
        !a.contains('\n'),
        0 <= i <= j <= a.len(),
    ensures
        !a.subrange(i, j).contains('\n'),
{
    if a.subrange(i, j).contains('\n') {
        let q = choose|q: int| 0 <= q < a.subrange(i, j).len() && a.subrange(i, j)[q] == '\n';
        assert(a[i + q] == '\n');
    }
}

impl Editor {
    /// Replaces lines `sl..=el` with `block`.
    pub(crate) fn replace_lines(&mut self, sl: usize, el: usize, block: Vec<Vec<char>>)
        requires
            sl <= el < old(self)@.lines.len(),
        ensures
            final(self)@ == (EditorView {
                lines: old(self)@.lines.take(sl as int) + block@.map_values(|x: Vec<char>| x@)
                    + old(self)@.lines.skip(el + 1),
                ..old(self)@
            }),
            final(self).last_op_at == old(self).last_op_at,
    {
        let ghost l0 = self@.lines;
        let n = self.lines.len();
        assert(l0.take(sl as int) + l0.skip(sl as int) =~= l0);
        let mut i = sl;
        while i <= el
            invariant
                sl <= i <= el + 1,
                el < n == l0.len(),
                self.lines@.len() == sl + (n - i),
                self@ == (EditorView { lines: l0.take(sl as int) + l0.skip(i as int), ..old(self)@ }),
                self.last_op_at == old(self).last_op_at,
            decreases el + 1 - i,
        {
            let ghost before = self.lines@;
            self.lines.remove(sl);
            assert(text_of(self.lines@) =~= text_of(before).remove(sl as int));
            assert(text_of(before).remove(sl as int) =~= l0.take(sl as int) + l0.skip(i + 1));
            i = i + 1;
        }
        let bv = strings_of(block);
        let mut j: usize = 0;
        let ghost bs = text_of(bv@);
        assert(bs.take(0) =~= Seq::<Seq<char>>::empty());
        assert(l0.take(sl as int) + bs.take(0) + l0.skip(el + 1) =~= l0.take(sl as int) + l0.skip(el + 1));
        while j < bv.len()
            invariant
                j <= bv@.len(),
                el < n == l0.len(),
                bs == text_of(bv@),
                self.lines@.len() == sl + j + (n - el - 1),
                self@ == (EditorView {
                    lines: l0.take(sl as int) + bs.take(j as int) + l0.skip(el + 1),
                    ..old(self)@
                }),
                self.last_op_at == old(self).last_op_at,
            decreases bv@.len() - j,
        {
            let ghost before = self.lines@;
            let _cur_n = self.lines.len();
            let st = bv[j].clone();
            self.lines.insert(sl + j, st);
            assert(text_of(self.lines@) =~= text_of(before).insert(sl + j, st@));
            assert(text_of(before).insert(sl + j, st@) =~= l0.take(sl as int) + bs.take(j + 1) + l0.skip(el + 1));
            j = j + 1;
        }
        assert(bs.take(bv@.len() as int) =~= bs);
    }

    /// Deletes the selection; false (and nothing changes) when it is empty.
    pub fn delete_selection(&mut self) -> (r: bool)
        requires
            wf(old(self)@),
        ensures
            r == (sel_bounds(old(self)@) is Some),
            final(self)@ == delsel_view(old(self)@),
            wf(final(self)@),
            final(self).last_op_at == old(self).last_op_at,
    {
        proof {
            lemma_sel_bounds(self@);
        }
        let b = self.selection_bounds();
        match b {
            None => false,
            Some(((sl, sc), (el, ec))) => {
                let ks = self.char_k(sl, sc);
                let ke = self.char_k(el, ec);
                let first = self.line_chars(sl);
                let last = self.line_chars(el);
                let mut joined = crate::text::slice_vec(&first, 0, ks);
                crate::text::extend_from(&mut joined, &last, ke, last.len());
                assert(joined@ =~= self@.lines[sl as int].take(ks as int) + self@.lines[el as int].skip(ke as int));
                let mut block: Vec<Vec<char>> = Vec::new();
                block.push(joined);
                let ghost v0 = self@;
                proof {
                    assert(block@.map_values(|x: Vec<char>| x@) =~= seq![joined@]);
                    lemma_sub_no_newline(v0.lines[sl as int], 0, ks as int);
                    lemma_sub_no_newline(v0.lines[el as int], ke as int, v0.lines[el as int].len() as int);
                    assert(v0.lines[sl as int].take(ks as int) =~= v0.lines[sl as int].subrange(0, ks as int));
                    assert(v0.lines[el as int].skip(ke as int) =~= v0.lines[el as int].subrange(ke as int, v0.lines[el as int].len() as int));
                    lemma_concat_no_newline(v0.lines[sl as int].take(ks as int), v0.lines[el as int].skip(ke as int));
                    lemma_splice_doc(v0.lines, sl as int, el as int, seq![joined@]);
                }
                self.replace_lines(sl, el, block);
                self.cursor_line = sl;
                self.cursor_col = sc;
                self.sel_start = None;
                proof {
                    let nl = self@.lines;
                    assert(nl[sl as int] == joined@);
                    assert(joined@.take(ks as int) =~= v0.lines[sl as int].take(ks as int));
                    crate::text::lemma_boundary_at(joined@, ks as int);
                }
                true
            },
        }
    }
}


impl Editor {
    /// Inserts `text` (which may hold line breaks) at the cursor, replacing the selection.
    pub fn insert_text(&mut self, text: &str)
        requires
            wf(old(self)@),
        ensures
            final(self)@ == insert_view(old(self)@, text@),
            wf(final(self)@),
            final(self).last_op_at == old(self).last_op_at,
    {
        if self.sel_start.is_some() {
            self.delete_selection();
        }
        let ghost v0 = self@;
        self.marked = None;
        self.stick_col = None;
        proof {
            lemma_wf_cursor(v0);
        }
        let l = self.cursor_line;
        let k = self.char_k(l, self.cursor_col);
        let line = self.line_chars(l);
        let t = chars_of(text);
        let parts = split_chars(&t);
        let ghost ps = parts@.map_values(|x: Vec<char>| x@);
        proof {
            crate::text::lemma_split_no_newline(text@);
        }
        let np = parts.len();
        let n = np - 1;
        let tail_len = line.len() - k;
        let mut block: Vec<Vec<char>> = Vec::new();
        let mut j: usize = 0;
        let ghost head = line@.take(k as int);
        let ghost tail = line@.skip(k as int);
        let ghost want = ins_block(head, ps, tail);
        while j <= n
            invariant
                j <= n + 1,
                n + 1 == np,
                np == parts@.len() == ps.len(),
                ps == parts@.map_values(|x: Vec<char>| x@),
                ps == split_lines(text@),
                head == line@.take(k as int),
                tail == line@.skip(k as int),
                k <= line@.len(),
                tail_len == line@.len() - k,
                want == ins_block(head, ps, tail),
                block@.len() == j,
                forall|q: int| 0 <= q < j ==> (#[trigger] block@[q])@ == want[q],
            decreases n + 1 - j,
        {
            let mut piece: Vec<char> = Vec::new();
            if j == 0 {
                crate::text::extend_from(&mut piece, &line, 0, k);
            }
            crate::text::extend_all(&mut piece, &parts[j]);
            if j == n {
                crate::text::extend_from(&mut piece, &line, k, line.len());
            }
            proof {
                assert(line@.subrange(0, k as int) =~= head);
                assert(line@.subrange(k as int, line@.len() as int) =~= tail);
                assert(parts@[j as int]@ == ps[j as int]);
                assert(piece@ =~= want[j as int]);
            }
            block.push(piece);
            j = j + 1;
        }
        let ghost bv = block@.map_values(|x: Vec<char>| x@);
        proof {
            assert(bv =~= want);
            assert forall|q: int| 0 <= q < want.len() implies !(#[trigger] want[q]).contains('\n') by {
                let h2 = line@.subrange(0, k as int);
                let t2 = line@.subrange(k as int, line@.len() as int);
                lemma_sub_no_newline(line@, 0, k as int);
                lemma_sub_no_newline(line@, k as int, line@.len() as int);
                assert(h2 =~= head);
                assert(t2 =~= tail);
                let b1 = ps.update(0, head + ps[0]);
                lemma_concat_no_newline(head, ps[0]);
                assert(!b1[q].contains('\n'));
                if q == n {
                    lemma_concat_no_newline(b1[q], tail);
                }
            }
            lemma_splice_doc(v0.lines, l as int, l as int, want);
        }
        self.replace_lines(l, l, block);
        let _total = self.lines.len();
        assert(self@.lines.len() == v0.lines.len() + n);
        self.cursor_line = l + n;
        let last = self.line_chars(l + n);
        proof {
            assert(last@ == want[n as int]);
            assert(last@.len() >= tail_len);
        }
        let m = last.len() - tail_len;
        self.cursor_col = crate::text::byte_offset(&last, m);
        self.dirty = true;
        proof {
            let b1 = ps.update(0, head + ps[0]);
            assert(last@.take(m as int) =~= b1[n as int]);
            crate::text::lemma_boundary_at(last@, m as int);
            let nv = self@;
            if let Some(p) = nv.sel_start {
                assert(p == (v0.cursor_line, v0.cursor_col));
                assert(nv.lines[l as int] == want[0]);
                let w0 = want[0];
                assert(w0.take(k as int) =~= head) by {
                    if n == 0 {
                        assert(w0 =~= head + ps[0] + tail);
                    } else {
                        assert(w0 =~= head + ps[0]);
                    }
                }
                assert(head =~= line@.take(k as int));
                crate::text::lemma_boundary_at(w0, k as int);
            }
            assert(nv.lines =~= v0.lines.take(l as int) + want + v0.lines.skip(l + 1));
            assert forall|i: int| 0 <= i < nv.undo_stack.len() implies snap_ok(#[trigger] nv.undo_stack[i]) by {
                assert(nv.undo_stack[i] == v0.undo_stack[i]);
            }
            assert forall|i: int| 0 <= i < nv.redo_stack.len() implies snap_ok(#[trigger] nv.redo_stack[i]) by {
                assert(nv.redo_stack[i] == v0.redo_stack[i]);
            }
        }
    }
}


pub proof fn lemma_remove_no_newline(a: Seq<char>, k: int)
    requires
        !a.contains('\n'),
        0 <= k < a.len(),
    ensures
        !a.remove(k).contains('\n'),
{
    if a.remove(k).contains('\n') {
        let q = choose|q: int| 0 <= q < a.remove(k).len() && a.remove(k)[q] == '\n';
        if q < k {
            assert(a[q] == '\n');
        } else {
            assert(a[q + 1] == '\n');
        }
    }
}

/// Frame for the undo / redo stacks: every snapshot stays valid when they do not change.
pub proof fn lemma_stacks_same(a: EditorView, b: EditorView)
    requires
        wf(a),
        a.undo_stack == b.undo_stack,
        a.redo_stack == b.redo_stack,
    ensures
        forall|i: int| 0 <= i < b.undo_stack.len() ==> snap_ok(#[trigger] b.undo_stack[i]),
        forall|i: int| 0 <= i < b.redo_stack.len() ==> snap_ok(#[trigger] b.redo_stack[i]),
{
}

impl Editor {
    /// Removes character `k` of line `l`.
    pub(crate) fn remove_char(&mut self, l: usize, k: usize)
        requires
            l < old(self)@.lines.len(),
            k < old(self)@.lines[l as int].len(),
        ensures
            final(self)@ == (EditorView {
                lines: old(self)@.lines.update(l as int, old(self)@.lines[l as int].remove(k as int)),
                ..old(self)@
            }),
            final(self).last_op_at == old(self).last_op_at,
    {
        let s = self.line_chars(l);
        let n = s.len();
        assert(k < n);
        let mut t = crate::text::slice_vec(&s, 0, k);
        crate::text::extend_from(&mut t, &s, k + 1, n);
        assert(t@ =~= s@.remove(k as int));
        self.set_line(l, &t);
    }

    /// Joins line `l` with the line after it.
    pub(crate) fn join_with_next(&mut self, l: usize)
        requires
            l + 1 < old(self)@.lines.len(),
        ensures
            final(self)@ == (EditorView {
                lines: old(self)@.lines.take(l as int) + seq![old(self)@.lines[l as int] + old(self)@.lines[l + 1]]
                    + old(self)@.lines.skip(l + 2),
                ..old(self)@
            }),
            final(self).last_op_at == old(self).last_op_at,
    {
        let count = self.lines.len();
        assert(l + 1 < count);
        let mut a = self.line_chars(l);
        let b = self.line_chars(l + 1);
        crate::text::extend_all(&mut a, &b);
        let mut block: Vec<Vec<char>> = Vec::new();
        block.push(a);
        assert(block@.map_values(|x: Vec<char>| x@) =~= seq![self@.lines[l as int] + self@.lines[l + 1]]);
        self.replace_lines(l, l + 1, block);
    }

    pub fn backspace(&mut self)
        requires
            wf(old(self)@),
        ensures
            final(self)@ == backspace_view(old(self)@),
            wf(final(self)@),
            final(self).last_op_at == old(self).last_op_at,
    {
        if self.sel_start.is_some() {
            self.dirty = self.delete_selection();
            return;
        }
        let ghost v0 = self@;
        proof {
            lemma_wf_cursor(v0);
        }
        self.marked = None;
        self.stick_col = None;
        let l = self.cursor_line;
        let k = self.char_k(l, self.cursor_col);
        if k > 0 {
            let s = self.line_chars(l);
            let prev = crate::text::byte_offset(&s, k - 1);
            self.remove_char(l, k - 1);
            self.cursor_col = prev;
            self.dirty = true;
            proof {
                lemma_remove_no_newline(s@, k - 1);
                let r = s@.remove(k - 1);
                assert(r.take(k - 1) =~= s@.take(k - 1));
                crate::text::lemma_boundary_at(r, k - 1);
                let nv = self@;
                assert forall|i: int| 0 <= i < nv.lines.len() implies !(#[trigger] nv.lines[i]).contains('\n') by {
                    if i != l {
                        assert(nv.lines[i] == v0.lines[i]);
                    }
                }
                lemma_stacks_same(v0, nv);
            }
        } else if l > 0 {
            let prev_len = self.line_len(l - 1);
            proof {
                lemma_concat_no_newline(v0.lines[l - 1], v0.lines[l as int]);
                lemma_splice_doc(v0.lines, l - 1, l as int, seq![v0.lines[l - 1] + v0.lines[l as int]]);
            }
            self.join_with_next(l - 1);
            self.cursor_line = l - 1;
            self.cursor_col = prev_len;
            self.dirty = true;
            proof {
                let nv = self@;
                let j = v0.lines[l - 1] + v0.lines[l as int];
                assert(nv.lines =~= v0.lines.take(l - 1) + seq![j] + v0.lines.skip(l + 1));
                assert(nv.lines[l - 1] == j);
                assert(j.take(v0.lines[l - 1].len() as int) =~= v0.lines[l - 1]);
                assert(v0.lines[l - 1].take(v0.lines[l - 1].len() as int) =~= v0.lines[l - 1]);
                crate::text::lemma_boundary_at(j, v0.lines[l - 1].len() as int);
                lemma_stacks_same(v0, nv);
            }
        }
    }

    pub fn delete(&mut self)
        requires
            wf(old(self)@),
        ensures
            final(self)@ == delete_view(old(self)@),
            wf(final(self)@),
            final(self).last_op_at == old(self).last_op_at,
    {
        if self.sel_start.is_some() {
            self.dirty = self.delete_selection();
            return;
        }
        let ghost v0 = self@;
        proof {
            lemma_wf_cursor(v0);
        }
        self.marked = None;
        self.stick_col = None;
        let l = self.cursor_line;
        let k = self.char_k(l, self.cursor_col);
        let s = self.line_chars(l);
        if k < s.len() {
            self.remove_char(l, k);
            self.dirty = true;
            proof {
                lemma_remove_no_newline(s@, k as int);
                let r = s@.remove(k as int);
                assert(r.take(k as int) =~= s@.take(k as int));
                crate::text::lemma_boundary_at(r, k as int);
                let nv = self@;
                assert forall|i: int| 0 <= i < nv.lines.len() implies !(#[trigger] nv.lines[i]).contains('\n') by {
                    if i != l {
                        assert(nv.lines[i] == v0.lines[i]);
                    }
                }
                lemma_stacks_same(v0, nv);
            }
        } else if l < self.lines.len() - 1 {
            proof {
                lemma_concat_no_newline(v0.lines[l as int], v0.lines[l + 1]);
                lemma_splice_doc(v0.lines, l as int, l + 1, seq![v0.lines[l as int] + v0.lines[l + 1]]);
            }
            self.join_with_next(l);
            self.dirty = true;
            proof {
                let nv = self@;
                let j = v0.lines[l as int] + v0.lines[l + 1];
                assert(nv.lines =~= v0.lines.take(l as int) + seq![j] + v0.lines.skip(l + 2));
                assert(nv.lines[l as int] == j);
                assert(j.take(k as int) =~= s@);
                assert(s@.take(k as int) =~= s@);
                crate::text::lemma_boundary_at(j, k as int);
                lemma_stacks_same(v0, nv);
            }
        }
    }
}



/// UTF-16 offset of the start of line `i` in the whole document (each earlier line
/// counts one more unit for its line break).
pub open spec fn line_start16(lines: Seq<Seq<char>>, i: int) -> int
    decreases i,
{
    if i <= 0 {
        0
    } else {
        line_start16(lines, i - 1) + utf16_len(lines[i - 1]) + 1
    }
}

/// `(line, byte column)` of the position `u` UTF-16 units after the start of line `i`;
/// past the end, the end of the last line.
pub open spec fn pos16_from(lines: Seq<Seq<char>>, i: int, u: int) -> (usize, usize)
    decreases lines.len() - i,
{
    if i < 0 || i >= lines.len() {
        let last: int = if lines.len() > 0 { lines.len() - 1 } else { 0 };
        (last as usize, (if last < lines.len() { byte_len(lines[last]) } else { 0 }) as usize)
    } else if u <= utf16_len(lines[i]) {
        (i as usize, byte_at(lines[i], u16_pos_from(lines[i], 0, u)) as usize)
    } else {
        pos16_from(lines, i + 1, u - utf16_len(lines[i]) - 1)
    }
}

/// Global UTF-16 offset of `(line, col)`; the column is clamped to the line, and a line
/// past the end gives the length of the whole document plus one.
pub open spec fn off16(lines: Seq<Seq<char>>, line: int, col: int) -> int {
    if 0 <= line < lines.len() {
        let s = lines[line];
        let c = if col < byte_len(s) { col } else { byte_len(s) as int };
        line_start16(lines, line) + u16_at(s, char_pos(s, c))
    } else {
        line_start16(lines, lines.len() as int)
    }
}

/// The state after deleting the text between global UTF-16 offsets `a` and `b`.
pub open spec fn replace16_view(v: EditorView, a: int, b: int) -> EditorView {
    let p = pos16_from(v.lines, 0, a);
    let q = pos16_from(v.lines, 0, b);
    let (sl, sc, el, ec) = (p.0 as int, p.1 as int, q.0 as int, q.1 as int);
    let ks = char_pos(v.lines[sl], sc);
    let ke = char_pos(v.lines[el], ec);
    let lines = if sl == el && ec <= sc {
        v.lines
    } else if sl <= el {
        remove_range(v.lines, sl, ks, el, ke)
    } else {
        v.lines.update(sl, v.lines[sl].take(ks) + v.lines[el].skip(ke))
    };
    EditorView { lines, cursor_line: p.0, cursor_col: p.1, sel_start: None, ..v }
}

pub proof fn lemma_line_start16_mono(lines: Seq<Seq<char>>, i: int, j: int)
    requires
        0 <= i <= j,
    ensures
        line_start16(lines, i) <= line_start16(lines, j),
        i < j ==> line_start16(lines, i) + utf16_len(lines[i]) + 1 <= line_start16(lines, j),
    decreases j - i,
{
    if i < j {
        lemma_line_start16_mono(lines, i, j - 1);
    }
}

/// Within a line, the UTF-16 offset of a character position leads back to that position.
proof fn lemma_u16_back(s: Seq<char>, k: int)
    requires
        0 <= k <= s.len(),
    ensures
        u16_pos_from(s, 0, u16_at(s, k)) == k,
        u16_at(s, k) <= utf16_len(s),
{
    let u = u16_at(s, k);
    crate::text::lemma_u16_pos_from(s, 0, u);
    let p = u16_pos_from(s, 0, u);
    if p < k {
        crate::text::lemma_u16_mono(s, p + 1, k);
        crate::text::lemma_u16_mono(s, p, p + 1);
    } else if p > k {
        assert(u16_at(s, k) < u);
    }
    crate::text::lemma_u16_mono(s, k, s.len() as int);
    assert(s.take(s.len() as int) =~= s);
}

proof fn lemma_pos16_back(lines: Seq<Seq<char>>, i: int, l: usize, c: usize)
    requires
        0 <= i <= l,
        pos_ok(lines, (l, c)),
    ensures
        pos16_from(lines, i, off16(lines, l as int, c as int) - line_start16(lines, i)) == (l, c),
    decreases l - i,
{
    let s = lines[l as int];
    crate::text::lemma_char_pos(s, c as int);
    let k = char_pos(s, c as int);
    crate::text::lemma_byte_at_mono(s, k, s.len() as int);
    lemma_u16_back(s, k);
    if i < l {
        lemma_line_start16_mono(lines, i, l as int);
        lemma_pos16_back(lines, i + 1, l, c);
    }
}

/// Converting a valid position to a global UTF-16 offset and back gives the same position.
pub proof fn law_utf16_roundtrip(lines: Seq<Seq<char>>, line: usize, col: usize)
    requires
        pos_ok(lines, (line, col)),
    ensures
        pos16_from(lines, 0, off16(lines, line as int, col as int)) == (line, col),
{
    lemma_pos16_back(lines, 0, line, col);
}

impl Editor {
    /// Global UTF-16 offset to `(line, byte column)`; offsets past the end give the end.
    pub fn pos_from_utf16(&self, utf16: usize) -> (r: (usize, usize))
        ensures
            r == pos16_from(self@.lines, 0, utf16 as int),
            self@.lines.len() >= 1 ==> pos_ok(self@.lines, r),
    {
        let mut u = utf16;
        let mut i: usize = 0;
        while i < self.lines.len()
            invariant
                i <= self@.lines.len(),
                pos16_from(self@.lines, 0, utf16 as int) == pos16_from(self@.lines, i as int, u as int),
            decreases self@.lines.len() - i,
        {
            let l = self.line_chars(i);
            let l16 = crate::text::utf16_count(&l, l.len());
            assert(l@.take(l@.len() as int) =~= l@);
            if u <= l16 {
                let b = crate::text::utf16_to_byte(&l, u);
                proof {
                    lemma_u16_pos_from(l@, 0, u as int);
                    lemma_boundary_at(l@, u16_pos_from(l@, 0, u as int));
                }
                return (i, b);
            }
            u = u - l16 - 1;
            i = i + 1;
        }
        let last = if self.lines.len() > 0 {
            self.lines.len() - 1
        } else {
            0
        };
        let n = self.line_len(last);
        proof {
            if self@.lines.len() >= 1 {
                let s = self@.lines[last as int];
                assert(s.take(s.len() as int) =~= s);
                lemma_boundary_at(s, s.len() as int);
            }
        }
        (last, n)
    }

    /// `(line, byte column)` to a global UTF-16 offset.
    pub fn utf16_from_pos(&self, line: usize, col: usize) -> (r: usize)
        requires
            line < self@.lines.len() ==> is_boundary(self@.lines[line as int],
                if col < byte_len(self@.lines[line as int]) { col as int } else { byte_len(self@.lines[line as int]) as int }),
            line_start16(self@.lines, self@.lines.len() as int) <= usize::MAX,
        ensures
            r == off16(self@.lines, line as int, col as int),
    {
        let mut off: usize = 0;
        let mut i: usize = 0;
        while i < self.lines.len()
            invariant
                i <= self@.lines.len(),
                line < self@.lines.len() ==> i <= line,
                off == line_start16(self@.lines, i as int),
                line_start16(self@.lines, self@.lines.len() as int) <= usize::MAX,
                line < self@.lines.len() ==> is_boundary(self@.lines[line as int],
                    if col < byte_len(self@.lines[line as int]) { col as int } else { byte_len(self@.lines[line as int]) as int }),
            decreases self@.lines.len() - i,
        {
            let l = self.line_chars(i);
            assert(l@.take(l@.len() as int) =~= l@);
            proof {
                lemma_line_start16_mono(self@.lines, i + 1, self@.lines.len() as int);
            }
            if i == line {
                let n = self.line_len(i);
                let c = if col < n { col } else { n };
                let k = self.char_k(i, c);
                let x = crate::text::utf16_count(&l, k);
                proof {
                    crate::text::lemma_u16_mono(l@, k as int, l@.len() as int);
                }
                return off + x;
            }
            let l16 = crate::text::utf16_count(&l, l.len());
            off = off + l16 + 1;
            i = i + 1;
        }
        off
    }

    /// Deletes the text between two global UTF-16 offsets and puts the cursor at the first.
    pub fn replace_utf16_range(&mut self, r: std::ops::Range<usize>)
        requires
            wf(old(self)@),
        ensures
            final(self)@ == replace16_view(old(self)@, r.start as int, r.end as int),
            wf(final(self)@),
            final(self).last_op_at == old(self).last_op_at,
    {
        let ghost v0 = self@;
        let (sl, sc) = self.pos_from_utf16(r.start);
        let (el, ec) = self.pos_from_utf16(r.end);
        let ks = self.char_k(sl, sc);
        let ke = self.char_k(el, ec);
        let first = self.line_chars(sl);
        let last = self.line_chars(el);
        let mut joined = crate::text::slice_vec(&first, 0, ks);
        crate::text::extend_from(&mut joined, &last, ke, last.len());
        let ghost j = v0.lines[sl as int].take(ks as int) + v0.lines[el as int].skip(ke as int);
        assert(joined@ =~= j);
        proof {
            lemma_sub_no_newline(v0.lines[sl as int], 0, ks as int);
            lemma_sub_no_newline(v0.lines[el as int], ke as int, v0.lines[el as int].len() as int);
            assert(v0.lines[sl as int].take(ks as int) =~= v0.lines[sl as int].subrange(0, ks as int));
            assert(v0.lines[el as int].skip(ke as int) =~= v0.lines[el as int].subrange(ke as int, v0.lines[el as int].len() as int));
            lemma_concat_no_newline(v0.lines[sl as int].take(ks as int), v0.lines[el as int].skip(ke as int));
            assert(j.take(ks as int) =~= v0.lines[sl as int].take(ks as int));
            lemma_boundary_at(j, ks as int);
        }
        if sl == el && ec <= sc {
        } else if sl <= el {
            let mut block: Vec<Vec<char>> = Vec::new();
            block.push(joined);
            assert(block@.map_values(|x: Vec<char>| x@) =~= seq![j]);
            proof {
                lemma_splice_doc(v0.lines, sl as int, el as int, seq![j]);
            }
            self.replace_lines(sl, el, block);
            proof {
                assert(self@.lines =~= remove_range(v0.lines, sl as int, ks as int, el as int, ke as int));
                assert(self@.lines[sl as int] == j);
            }
        } else {
            self.set_line(sl, &joined);
            proof {
                let nl = self@.lines;
                assert forall|i: int| 0 <= i < nl.len() implies !(#[trigger] nl[i]).contains('\n') by {
                    if i != sl {
                        assert(nl[i] == v0.lines[i]);
                    }
                }
            }
        }
        self.cursor_line = sl;
        self.cursor_col = sc;
        self.sel_start = None;
        proof {
            lemma_stacks_same(v0, self@);
        }
    }
}



/// Start of the run of whitespace that ends at `j`.
pub open spec fn ws_start(c: Seq<char>, j: int) -> int
    decreases j,
{
    if 0 < j <= c.len() && is_ws(c[j - 1]) {
        ws_start(c, j - 1)
    } else {
        j
    }
}

/// Start of the run of non-whitespace that ends at `j`.
pub open spec fn word_start(c: Seq<char>, j: int) -> int
    decreases j,
{
    if 0 < j <= c.len() && !is_ws(c[j - 1]) {
        word_start(c, j - 1)
    } else {
        j
    }
}

/// End of the run of non-whitespace that starts at `e`.
pub open spec fn word_end(c: Seq<char>, e: int) -> int
    decreases c.len() - e,
{
    if 0 <= e < c.len() && !is_ws(c[e]) {
        word_end(c, e + 1)
    } else {
        e
    }
}

/// Displayed range of the word at displayed character `d`: on whitespace, the word
/// before it; `None` when only whitespace precedes `d`.
pub open spec fn word_range(c: Seq<char>, d: int) -> Option<(int, int)> {
    if is_ws(c[d]) {
        let j = ws_start(c, d);
        if j == 0 {
            None
        } else {
            Some((word_start(c, j), j))
        }
    } else {
        Some((word_start(c, d), word_end(c, d)))
    }
}

/// The state after a double click at display column `dcol` of line `line`.
pub open spec fn select_word_view(v: EditorView, line: usize, dcol: usize) -> EditorView {
    let src = if line < v.lines.len() { v.lines[line as int] } else { Seq::<char>::empty() };
    let disp = line_display(src);
    let map = line_map(src);
    let pre = line_prefix(src);
    if disp.len() == 0 {
        EditorView { cursor_line: line, cursor_col: pre as usize, sel_start: None, ..v }
    } else {
        let d: int = if dcol < disp.len() - 1 { dcol as int } else { disp.len() - 1 };
        match word_range(disp, d) {
            None => EditorView { cursor_line: line, cursor_col: (pre + d) as usize, sel_start: None, ..v },
            Some(w) => {
                let st = w.0;
                let e = if w.1 <= st { st + 1 } else { w.1 };
                let ss = if st < map.len() { map[st] } else { pre };
                let se = if e > map.len() {
                    byte_len(src) as int
                } else if e == 0 {
                    pre
                } else {
                    map[e - 1] + char_width(disp[e - 1])
                };
                EditorView {
                    sel_start: Some((line, ss as usize)),
                    cursor_line: line,
                    cursor_col: (if se > ss { se } else { ss }) as usize,
                    ..v
                }
            },
        }
    }
}

/// A strictly increasing sequence of offsets that starts at or after `lo` has its
/// `q`-th entry at or after `lo + q`.
proof fn lemma_map_step(m: Seq<usize>, lo: int, q: int)
    requires
        0 <= q < m.len(),
        forall|a: int, b: int| 0 <= a < b < m.len() ==> #[trigger] m[a] < #[trigger] m[b],
        forall|a: int| 0 <= a < m.len() ==> #[trigger] m[a] >= lo,
    ensures
        m[q] >= lo + q,
    decreases q,
{
    if q > 0 {
        lemma_map_step(m, lo, q - 1);
        assert(m[q - 1] < m[q]);
    }
}

pub proof fn lemma_ws_start(c: Seq<char>, j: int)
    requires
        0 <= j <= c.len(),
    ensures
        0 <= ws_start(c, j) <= j,
    decreases j,
{
    if 0 < j && is_ws(c[j - 1]) {
        lemma_ws_start(c, j - 1);
    }
}

pub proof fn lemma_word_start(c: Seq<char>, j: int)
    requires
        0 <= j <= c.len(),
    ensures
        0 <= word_start(c, j) <= j,
    decreases j,
{
    if 0 < j && !is_ws(c[j - 1]) {
        lemma_word_start(c, j - 1);
    }
}

pub proof fn lemma_word_end(c: Seq<char>, e: int)
    requires
        0 <= e <= c.len(),
    ensures
        e <= word_end(c, e) <= c.len(),
    decreases c.len() - e,
{
    if e < c.len() && !is_ws(c[e]) {
        lemma_word_end(c, e + 1);
    }
}

/// The word range at displayed character `d` of `chars`.
fn word_bounds(chars: &[char], d: usize) -> (r: Option<(usize, usize)>)
    requires
        d < chars@.len(),
    ensures
        r is None <==> word_range(chars@, d as int) is None,
        r matches Some(w) ==> word_range(chars@, d as int) == Some((w.0 as int, w.1 as int)),
        r matches Some(w) ==> w.0 <= d && w.0 < w.1 <= chars@.len(),
{
    let n = chars.len();
    if is_whitespace(chars[d]) {
        let mut j = d;
        while j > 0 && is_whitespace(chars[j - 1])
            invariant
                j <= d < n == chars@.len(),
                ws_start(chars@, j as int) == ws_start(chars@, d as int),
            decreases j,
        {
            j = j - 1;
        }
        if j == 0 {
            return None;
        }
        let mut st = j;
        while st > 0 && !is_whitespace(chars[st - 1])
            invariant
                st <= j <= d < n == chars@.len(),
                word_start(chars@, st as int) == word_start(chars@, j as int),
            decreases st,
        {
            st = st - 1;
        }
        Some((st, j))
    } else {
        let mut st = d;
        while st > 0 && !is_whitespace(chars[st - 1])
            invariant
                st <= d < n == chars@.len(),
                word_start(chars@, st as int) == word_start(chars@, d as int),
            decreases st,
        {
            st = st - 1;
        }
        let mut e = d;
        while e < n && !is_whitespace(chars[e])
            invariant
                d <= e <= n == chars@.len(),
                word_end(chars@, e as int) == word_end(chars@, d as int),
            decreases n - e,
        {
            e = e + 1;
        }
        Some((st, e))
    }
}

impl Editor {
    /// Selects the word at display column `dcol` of line `line` (double click).
    pub fn select_word_at(&mut self, line: usize, dcol: usize)
        ensures
            final(self)@ == select_word_view(old(self)@, line, dcol),
            final(self).last_op_at == old(self).last_op_at,
    {
        let ghost v0 = self@;
        let src = self.line(line);
        crate::text::str_fits(src);
        let src_len = self.line_len(line);
        let parsed = crate::line::parse_line(src, false);
        proof {
            crate::line::lemma_parsed_map(parsed, src@);
            crate::line::lemma_parsed_display(parsed, src@);
        }
        let chars = chars_of(parsed.display.as_str());
        let ghost map = line_map(src@);
        assert(forall|q: int| 0 <= q < parsed.map@.len() ==> parsed.map@[q] as int == map[q]);
        if chars.len() == 0 {
            self.cursor_line = line;
            self.cursor_col = parsed.prefix_len;
            self.sel_start = None;
            return;
        }
        let n = chars.len();
        let d = if dcol < n - 1 {
            dcol
        } else {
            n - 1
        };
        let w = word_bounds(&chars, d);
        let (start, mut end) = match w {
            None => {
                proof {
                    assert forall|a: int| 0 <= a < parsed.map@.len() implies #[trigger] parsed.map@[a] >= parsed.prefix_len by {
                        assert(map[a] >= line_prefix(src@));
                    }
                    lemma_map_step(parsed.map@, parsed.prefix_len as int, d as int);
                }
                self.cursor_line = line;
                self.cursor_col = parsed.prefix_len + d;
                self.sel_start = None;
                return;
            },
            Some(p) => p,
        };
        if end <= start {
            end = start + 1;
        }
        let src_start = if start < parsed.map.len() {
            parsed.map[start]
        } else {
            parsed.prefix_len
        };
        let src_end = if end > parsed.map.len() {
            src_len
        } else if end == 0 {
            parsed.prefix_len
        } else {
            let w = crate::text::utf8_width(chars[end - 1]);
            proof {
                crate::line::lemma_map_width(src@, end - 1);
            }
            parsed.map[end - 1] + w
        };
        self.sel_start = Some((line, src_start));
        self.cursor_line = line;
        self.cursor_col = if src_end > src_start {
            src_end
        } else {
            src_start
        };
        proof {
            let disp = line_display(src@);
            assert(disp == chars@);
            let wr = word_range(disp, d as int);
            assert(wr is Some);
            let w2 = wr->0;
            assert(w2.0 == start);
            assert(w2.1 == end);
            let ss = if start < map.len() { map[start as int] } else { line_prefix(src@) };
            assert(ss == src_start);
            let se = if end > map.len() {
                byte_len(src@) as int
            } else if end == 0 {
                line_prefix(src@)
            } else {
                map[end - 1] + char_width(disp[end - 1])
            };
            assert(se == src_end);
        }
    }
}

/// Whether `lines` form a document: at least one line, none holding a line break.
fn lines_ok(lines: &Vec<String>) -> (r: bool)
    ensures
        r == doc_ok(text_of(lines@)),
{
    if lines.len() == 0 {
        return false;
    }
    let mut i: usize = 0;
    while i < lines.len()
        invariant
            i <= lines@.len(),
            forall|j: int| 0 <= j < i ==> !(#[trigger] text_of(lines@)[j]).contains('\n'),
        decreases lines@.len() - i,
    {
        let c = chars_of(lines[i].as_str());
        let f = crate::text::find_char(&c, 0, c.len(), '\n');
        proof {
            crate::text::lemma_first_from(c@, 0, c@.len() as int, '\n');
        }
        if f.is_some() {
            proof {
                let k = f->0 as int;
                assert(text_of(lines@)[i as int][k] == '\n');
            }
            return false;
        }
        i = i + 1;
    }
    true
}

/// Whether `p` names a line of `lines` and a character boundary in it.
fn pos_valid(lines: &Vec<String>, p: (usize, usize)) -> (r: bool)
    ensures
        r == pos_ok(text_of(lines@), p),
{
    if p.0 >= lines.len() {
        return false;
    }
    let c = chars_of(lines[p.0].as_str());
    crate::text::char_index(&c, p.1).is_some()
}

/// Whether a snapshot is a valid state.
fn snap_valid(s: &EditorSnapshot) -> (r: bool)
    ensures
        r == snap_ok(s@),
{
    lines_ok(&s.lines) && pos_valid(&s.lines, (s.cursor_line, s.cursor_col)) && match s.sel_start {
        Some(p) => pos_valid(&s.lines, p),
        None => true,
    }
}

/// Every snapshot is a valid state.
pub open spec fn snaps_ok(s: Seq<SnapView>) -> bool {
    forall|i: int| 0 <= i < s.len() ==> snap_ok(#[trigger] s[i])
}

/// Whether every snapshot of `v` is a valid state.
fn snaps_valid(v: &Vec<EditorSnapshot>) -> (r: bool)
    ensures
        r == snaps_ok(v@.map_values(|s: EditorSnapshot| s@)),
{
    let ghost sv = v@.map_values(|s: EditorSnapshot| s@);
    let mut i: usize = 0;
    while i < v.len()
        invariant
            i <= v@.len(),
            sv == v@.map_values(|s: EditorSnapshot| s@),
            forall|j: int| 0 <= j < i ==> snap_ok(#[trigger] sv[j]),
        decreases v@.len() - i,
    {
        if !snap_valid(&v[i]) {
            assert(!snap_ok(sv[i as int]));
            return false;
        }
        i = i + 1;
    }
    true
}

impl Editor {
    /// Whether the editor is in a valid state: the document is a list of lines without
    /// line breaks, the cursor and the selection anchor sit on character boundaries of
    /// existing lines, and so do those of every undo and redo step.
    pub fn is_valid(&self) -> (r: bool)
        ensures
            r == wf(self@),
    {
        let a = lines_ok(&self.lines);
        let b = pos_valid(&self.lines, (self.cursor_line, self.cursor_col));
        let c = match self.sel_start {
            Some(p) => pos_valid(&self.lines, p),
            None => true,
        };
        let d = snaps_valid(&self.undo_stack);
        let e = snaps_valid(&self.redo_stack);
        assert(d == snaps_ok(self@.undo_stack));
        assert(e == snaps_ok(self@.redo_stack));
        assert(c == (self@.sel_start matches Some(p) ==> pos_ok(self@.lines, p)));
        a && b && c && d && e
    }
}

} // verus!
