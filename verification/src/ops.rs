//! Editing operations: every change to the document goes through `Editor::apply`,
//! which records undo history and keeps the input-rule state.

use vstd::prelude::*;
use crate::editor::{
    Editor, EditorSnapshot, EditorView, SnapView, cur_line, cur_k, delete_view, insert_view,
    move_down_view, move_end_view, move_home_view, move_left_view, move_right_view, move_up_view,
    sel_bounds, select_all_view, snap_ok, text_of, wf,
};
use crate::drag::{move_range_ok, move_range_view};
use crate::erase::{
    del_to_end_view, del_to_start_view, del_word_back_view,
    del_word_fwd_view, do_backspace_view,
};
use crate::format::{block_type_view, link_view, toggle_view, wrap_list_view};
use crate::newline::{newline_view, tab_view};
use crate::line::{LineStyle, detect};
use crate::text::{byte_len, chars_of, string_of};

verus! {

/// Cursor movement direction.
#[derive(Clone, Copy, Debug, PartialEq, Eq, Structural)]
pub enum Direction {
    Left,
    Right,
    Up,
    Down,
    Home,
    End,
}

/// Inline marks that can be toggled.
#[derive(Clone, Copy, Debug, PartialEq, Eq, Structural)]
pub enum Mark {
    Bold,
    Italic,
    Code,
    Strike,
}

/// Block types a line can be given.
#[derive(Clone, Copy, Debug, PartialEq, Eq, Structural)]
pub enum BlockType {
    Paragraph,
    Heading(u8),
    Quote,
    CodeBlock,
}

/// List kinds a selection can be turned into.
#[derive(Clone, Copy, Debug, PartialEq, Eq, Structural)]
pub enum ListKind {
    Bullet,
    Ordered,
    Task,
}

/// One editing operation.
#[derive(Debug, PartialEq)]
pub enum Op {
    /// Typed text (may hold line breaks); input rules apply.
    Type(String),
    /// Enter (depends on the kind of line).
    Newline,
    /// Shift+Enter: hard line break.
    HardBreak,
    Tab,
    ShiftTab,
    Backspace,
    Delete,
    /// Cursor movement; `true` extends the selection.
    Move(Direction, bool),
    SelectAll,
    /// Wraps / unwraps the selection, or toggles the pending mark at the cursor.
    ToggleMark(Mark),
    InsertLink,
    SetBlockType(BlockType),
    WrapList(ListKind),
    Undo,
    Redo,
    /// Pasted text: like `Type`, but no input rule applies.
    Paste(String),
    DeleteToLineEnd,
    DeleteToLineStart,
    DeleteWordBack,
    DeleteWordForward,
    /// Drag and drop: moves (or copies) the range `from` to the position `to`.
    MoveRange { from: (usize, usize, usize, usize), to: (usize, usize), copy: bool },
}

/// Input-rule state: the block marker most recently created by typing.
#[derive(Clone, Copy, Debug, PartialEq, Eq, Structural)]
pub enum RuleState {
    Inactive,
    Block { line: usize, style: LineStyle },
}

/// Kind of the last edit (for grouping typing into one undo step).
#[derive(Clone, Copy, Debug, PartialEq, Eq, Structural)]
pub enum LastOp {
    Typing,
    Other,
}

/// Most undo steps kept; older ones are dropped.
pub const MAX_UNDO: usize = 100;

/// Typing within this many milliseconds of the last typing joins its undo step.
pub const MERGE_WINDOW_MS: u128 = 1200;

/// An edit joins the typing before it when there was no earlier edit or it came less than
/// `MERGE_WINDOW_MS` milliseconds after it.
pub open spec fn in_merge_window(elapsed: Option<u128>) -> bool {
    match elapsed {
        None => true,
        Some(ms) => ms < MERGE_WINDOW_MS,
    }
}

/// The snapshot of a state.
pub open spec fn snap_of(v: EditorView) -> SnapView {
    SnapView {
        lines: v.lines,
        cursor_line: v.cursor_line,
        cursor_col: v.cursor_col,
        sel_start: v.sel_start,
        marked: v.marked,
    }
}

/// The state with a snapshot restored.
pub open spec fn restore_view(v: EditorView, s: SnapView) -> EditorView {
    EditorView {
        lines: s.lines,
        cursor_line: s.cursor_line,
        cursor_col: s.cursor_col,
        sel_start: s.sel_start,
        marked: s.marked,
        ..v
    }
}

pub open spec fn undo_view(v: EditorView) -> EditorView {
    if v.undo_stack.len() == 0 {
        v
    } else {
        EditorView {
            undo_stack: v.undo_stack.drop_last(),
            redo_stack: v.redo_stack.push(snap_of(v)),
            dirty: true,
            last_op: None,
            ..restore_view(v, v.undo_stack.last())
        }
    }
}

pub open spec fn redo_view(v: EditorView) -> EditorView {
    if v.redo_stack.len() == 0 {
        v
    } else {
        EditorView {
            redo_stack: v.redo_stack.drop_last(),
            undo_stack: v.undo_stack.push(snap_of(v)),
            dirty: true,
            last_op: None,
            ..restore_view(v, v.redo_stack.last())
        }
    }
}

/// Whether an edit joins the current undo step: consecutive typing, within the time
/// window, with no selection.
pub open spec fn merges(v: EditorView, mergeable: bool, recent: bool) -> bool {
    mergeable && v.last_op == Some(LastOp::Typing) && recent && v.sel_start is None
}

/// The state when an edit starts: unless it merges, the current state is pushed on the
/// undo stack (dropping the oldest step at the limit) and the redo stack is cleared.
pub open spec fn begin_view(v: EditorView, mergeable: bool, recent: bool) -> EditorView {
    let m = merges(v, mergeable, recent);
    if m {
        EditorView { merge_undo: true, ..v }
    } else {
        let u = if v.undo_stack.len() >= MAX_UNDO { v.undo_stack.skip(1) } else { v.undo_stack };
        EditorView { undo_stack: u.push(snap_of(v)), redo_stack: Seq::empty(), merge_undo: false, ..v }
    }
}

/// The state when an edit ends.
pub open spec fn end_view(v: EditorView, typing: bool) -> EditorView {
    EditorView {
        merge_undo: false,
        last_op: Some(if typing { LastOp::Typing } else { LastOp::Other }),
        ..v
    }
}

pub open spec fn move_view(v: EditorView, dir: Direction, extend: bool) -> EditorView {
    match dir {
        Direction::Left => move_left_view(v, extend),
        Direction::Right => move_right_view(v, extend),
        Direction::Up => move_up_view(v, extend),
        Direction::Down => move_down_view(v, extend),
        Direction::Home => move_home_view(v, extend),
        Direction::End => move_end_view(v, extend),
    }
}

/// Opening (and closing) delimiter of a mark.
pub open spec fn delim(m: Mark) -> Seq<char> {
    match m {
        Mark::Bold => seq!['*', '*'],
        Mark::Italic => seq!['*'],
        Mark::Code => seq!['`'],
        Mark::Strike => seq!['~', '~'],
    }
}

/// `t` wrapped in the delimiters of `marks` in turn, the first mark outermost.
pub open spec fn wrap_seq(t: Seq<char>, marks: Seq<Mark>) -> Seq<char>
    decreases marks.len(),
{
    if marks.len() == 0 {
        t
    } else {
        delim(marks[0]) + wrap_seq(t, marks.skip(1)) + delim(marks[0])
    }
}

/// The bold marks of `marks` (when `bold`), or the others, in their order.
pub open spec fn marks_where(marks: Seq<Mark>, bold: bool) -> Seq<Mark>
    decreases marks.len(),
{
    if marks.len() == 0 {
        Seq::empty()
    } else {
        let r = marks_where(marks.drop_last(), bold);
        if (marks.last() == Mark::Bold) == bold {
            r.push(marks.last())
        } else {
            r
        }
    }
}

/// `t` wrapped in the pending marks: bold outermost, then the others in the order they
/// were set, the first outermost.
pub open spec fn wrap_marks(t: Seq<char>, marks: Seq<Mark>) -> Seq<char> {
    wrap_seq(t, marks_where(marks, true) + marks_where(marks, false))
}

/// The input-rule state after typing: the block style of the cursor line when it is a
/// heading, list item or quote.
pub open spec fn rules_view(v: EditorView) -> EditorView {
    let st = detect(cur_line(v)).0;
    EditorView {
        rule_state: if st is Heading || st is Bullet || st is Ordered || st is Quote {
            RuleState::Block { line: v.cursor_line, style: st }
        } else {
            RuleState::Inactive
        },
        ..v
    }
}

/// Undo history of a valid state stays valid when it gains a snapshot of a valid state.
proof fn lemma_begin_wf(v: EditorView, mergeable: bool, recent: bool)
    requires
        wf(v),
    ensures
        wf(begin_view(v, mergeable, recent)),
{
    let b = begin_view(v, mergeable, recent);
    if !merges(v, mergeable, recent) {
        let u = if v.undo_stack.len() >= MAX_UNDO { v.undo_stack.skip(1) } else { v.undo_stack };
        assert forall|i: int| 0 <= i < b.undo_stack.len() implies snap_ok(#[trigger] b.undo_stack[i]) by {
            if i < u.len() {
                if v.undo_stack.len() >= MAX_UNDO {
                    assert(b.undo_stack[i] == v.undo_stack[i + 1]);
                } else {
                    assert(b.undo_stack[i] == v.undo_stack[i]);
                }
            }
        }
    }
}

fn clone_lines(v: &Vec<String>) -> (r: Vec<String>)
    ensures
        text_of(r@) == text_of(v@),
{
    let mut r: Vec<String> = Vec::new();
    let mut i: usize = 0;
    while i < v.len()
        invariant
            i <= v@.len(),
            text_of(r@) == text_of(v@.take(i as int)),
        decreases v@.len() - i,
    {
        let ghost before = r@;
        let s = v[i].clone();
        r.push(s);
        assert(text_of(r@) =~= text_of(before).push(s@));
        i = i + 1;
        assert(text_of(v@.take(i as int)) =~= text_of(v@.take(i - 1)).push(v@[i - 1]@));
    }
    assert(v@.take(v@.len() as int) =~= v@);
    r
}

impl Editor {
    /// A snapshot of the document, cursor, selection and composition range.
    pub fn snapshot(&self) -> (r: EditorSnapshot)
        ensures
            r@ == snap_of(self@),
    {
        EditorSnapshot {
            lines: clone_lines(&self.lines),
            cursor_line: self.cursor_line,
            cursor_col: self.cursor_col,
            sel_start: self.sel_start,
            marked: self.marked,
        }
    }

    /// Restores a snapshot.
    pub fn restore(&mut self, snap: &EditorSnapshot)
        ensures
            final(self)@ == restore_view(old(self)@, snap@),
            final(self).last_op_at == old(self).last_op_at,
    {
        self.lines = clone_lines(&snap.lines);
        self.cursor_line = snap.cursor_line;
        self.cursor_col = snap.cursor_col;
        self.sel_start = snap.sel_start;
        self.marked = snap.marked;
    }

    /// Number of undo steps.
    pub fn undo_depth(&self) -> (r: usize)
        ensures
            r == self@.undo_stack.len(),
    {
        self.undo_stack.len()
    }

    /// Number of redo steps.
    pub fn redo_depth(&self) -> (r: usize)
        ensures
            r == self@.redo_stack.len(),
    {
        self.redo_stack.len()
    }

    /// Forgets the undo and redo history.
    pub fn reset_history(&mut self)
        ensures
            final(self)@ == (EditorView { undo_stack: Seq::empty(), redo_stack: Seq::empty(), ..old(self)@ }),
            final(self).last_op_at == old(self).last_op_at,
    {
        self.undo_stack.clear();
        self.redo_stack.clear();
        assert(self@.undo_stack =~= Seq::<SnapView>::empty());
        assert(self@.redo_stack =~= Seq::<SnapView>::empty());
    }

    fn undo(&mut self)
        ensures
            final(self)@ == undo_view(old(self)@),
            old(self)@.undo_stack.len() > 0 ==> final(self).last_op_at is None,
            old(self)@.undo_stack.len() == 0 ==> final(self).last_op_at == old(self).last_op_at,
    {
        if self.undo_stack.len() > 0 {
            let ghost v0 = self@;
            let cur = self.snapshot();
            let snap = self.undo_stack.pop().unwrap();
            assert(self@.undo_stack =~= v0.undo_stack.drop_last());
            self.redo_stack.push(cur);
            assert(self@.redo_stack =~= v0.redo_stack.push(snap_of(v0)));
            self.restore(&snap);
            self.dirty = true;
            self.last_op = None;
            self.last_op_at = None;
            assert(self@ =~= undo_view(v0));
        }
    }

    fn redo(&mut self)
        ensures
            final(self)@ == redo_view(old(self)@),
            old(self)@.redo_stack.len() > 0 ==> final(self).last_op_at is None,
            old(self)@.redo_stack.len() == 0 ==> final(self).last_op_at == old(self).last_op_at,
    {
        if self.redo_stack.len() > 0 {
            let ghost v0 = self@;
            let cur = self.snapshot();
            let snap = self.redo_stack.pop().unwrap();
            assert(self@.redo_stack =~= v0.redo_stack.drop_last());
            self.undo_stack.push(cur);
            assert(self@.undo_stack =~= v0.undo_stack.push(snap_of(v0)));
            self.restore(&snap);
            self.dirty = true;
            self.last_op = None;
            self.last_op_at = None;
            assert(self@ =~= redo_view(v0));
        }
    }

    /// Starts an edit; `recent` tells whether the last edit lies within the merge window.
    fn begin_edit(&mut self, mergeable: bool, recent: bool)
        ensures
            final(self)@ == begin_view(old(self)@, mergeable, recent),
            final(self).last_op_at == old(self).last_op_at,
    {
        let merge = mergeable && matches!(self.last_op, Some(LastOp::Typing)) && recent
            && self.sel_start.is_none();
        if !merge {
            let ghost v0 = self@;
            if self.undo_stack.len() >= MAX_UNDO {
                self.undo_stack.remove(0);
                assert(self@.undo_stack =~= v0.undo_stack.skip(1));
            }
            let ghost u = self@.undo_stack;
            let snap = self.snapshot();
            self.undo_stack.push(snap);
            assert(self@.undo_stack =~= u.push(snap_of(v0)));
            self.redo_stack.clear();
            assert(self@.redo_stack =~= Seq::<SnapView>::empty());
        }
        self.merge_undo = merge;
    }

    /// Ends an edit: records its kind and time.
    fn end_edit(&mut self, is_typing: bool)
        ensures
            final(self)@ == end_view(old(self)@, is_typing),
            final(self).last_op_at is Some,
    {
        self.merge_undo = false;
        self.last_op = if is_typing {
            Some(LastOp::Typing)
        } else {
            Some(LastOp::Other)
        };
        self.last_op_at = Some(crate::clock::instant_now());
    }

    fn move_dir(&mut self, dir: Direction, extend: bool)
        requires
            wf(old(self)@),
        ensures
            final(self)@ == move_view(old(self)@, dir, extend),
            wf(final(self)@),
            final(self).last_op_at == old(self).last_op_at,
    {
        match dir {
            Direction::Left => self.move_left(extend),
            Direction::Right => self.move_right(extend),
            Direction::Up => self.move_up(extend),
            Direction::Down => self.move_down(extend),
            Direction::Home => self.move_home(extend),
            Direction::End => self.move_end(extend),
        }
    }

    /// Records the input-rule state after typing.
    fn check_input_rules(&mut self)
        requires
            old(self)@.cursor_line < old(self)@.lines.len(),
        ensures
            final(self)@ == rules_view(old(self)@),
            final(self).last_op_at == old(self).last_op_at,
    {
        let line = self.cursor_line;
        let style = crate::line::parse_line(self.line(line), false).line_style;
        match style {
            LineStyle::Heading(_) | LineStyle::Bullet | LineStyle::Ordered | LineStyle::Quote => {
                self.rule_state = RuleState::Block { line, style };
            },
            _ => {
                self.rule_state = RuleState::Inactive;
            },
        }
    }

    /// Inserts `text`; input rules apply unless it was pasted.
    fn type_text(&mut self, text: &str, is_paste: bool)
        requires
            wf(old(self)@),
        ensures
            final(self)@ == (if is_paste { insert_view(old(self)@, text@) } else { rules_view(insert_view(old(self)@, text@)) }),
            wf(final(self)@),
            final(self).last_op_at == old(self).last_op_at,
    {
        self.insert_text(text);
        if !is_paste {
            self.check_input_rules();
        }
    }
}

/// The delimiter of a mark.
pub(crate) fn mark_delim(m: Mark) -> (r: &'static str)
    ensures
        r@ == delim(m),
{
    match m {
        Mark::Bold => {
            proof {
                reveal_strlit("**");
            }
            "**"
        },
        Mark::Italic => {
            proof {
                reveal_strlit("*");
            }
            "*"
        },
        Mark::Code => {
            proof {
                reveal_strlit("`");
            }
            "`"
        },
        Mark::Strike => {
            proof {
                reveal_strlit("~~");
            }
            "~~"
        },
    }
}

/// Wraps typed text in the pending marks: bold outermost, then the others in the order
/// they were set.
pub fn apply_pending_marks(text: &str, marks: &[Mark]) -> (r: String)
    ensures
        r@ == wrap_marks(text@, marks@),
{
    let mut ord: Vec<Mark> = Vec::new();
    let mut rest: Vec<Mark> = Vec::new();
    let mut j: usize = 0;
    while j < marks.len()
        invariant
            j <= marks@.len(),
            ord@ == marks_where(marks@.take(j as int), true),
            rest@ == marks_where(marks@.take(j as int), false),
        decreases marks@.len() - j,
    {
        assert(marks@.take(j + 1).drop_last() =~= marks@.take(j as int));
        let m = marks[j];
        match m {
            Mark::Bold => ord.push(m),
            _ => rest.push(m),
        }
        j = j + 1;
    }
    assert(marks@.take(marks@.len() as int) =~= marks@);
    ord.append(&mut rest);
    let mut out = chars_of(text);
    let mut i = ord.len();
    assert(ord@.skip(i as int) =~= Seq::<Mark>::empty());
    while i > 0
        invariant
            i <= ord@.len(),
            out@ == wrap_seq(text@, ord@.skip(i as int)),
        decreases i,
    {
        i = i - 1;
        let d = chars_of(mark_delim(ord[i]));
        let mut next = d.clone();
        crate::text::extend_all(&mut next, &out);
        crate::text::extend_all(&mut next, &d);
        assert(ord@.skip(i as int).skip(1) =~= ord@.skip(i + 1));
        assert(next@ =~= delim(ord@[i as int]) + out@ + delim(ord@[i as int]));
        out = next;
    }
    assert(ord@.skip(0) =~= ord@);
    string_of(&out)
}

/// First position of `m` in `marks`.
pub open spec fn mark_pos(marks: Seq<Mark>, m: Mark) -> Option<int>
    decreases marks.len(),
{
    if marks.len() == 0 {
        None
    } else if marks[0] == m {
        Some(0)
    } else {
        match mark_pos(marks.skip(1), m) {
            None => None,
            Some(p) => Some(p + 1),
        }
    }
}

/// The pending marks with `m` removed when present, added when absent.
pub open spec fn toggled(marks: Seq<Mark>, m: Mark) -> Seq<Mark> {
    match mark_pos(marks, m) {
        Some(p) => marks.remove(p),
        None => marks.push(m),
    }
}

proof fn lemma_mark_pos(marks: Seq<Mark>, m: Mark, i: int)
    requires
        0 <= i <= marks.len(),
        forall|j: int| 0 <= j < i ==> marks[j] != m,
    ensures
        mark_pos(marks, m) == (match mark_pos(marks.skip(i), m) {
            None => None,
            Some(p) => Some(p + i),
        }),
    decreases i,
{
    if i > 0 {
        assert(marks.skip(1).skip(i - 1) =~= marks.skip(i));
        lemma_mark_pos(marks.skip(1), m, i - 1);
    } else {
        assert(marks.skip(0) =~= marks);
    }
}

pub(crate) fn toggle_pending(marks: Vec<Mark>, mark: Mark) -> (r: Vec<Mark>)
    ensures
        r@ == toggled(marks@, mark),
{
    let ghost m0 = marks@;
    let mut out = marks;
    let mut i: usize = 0;
    while i < out.len()
        invariant
            out@ == m0,
            m0 == marks@,
            i <= m0.len(),
            forall|j: int| 0 <= j < i ==> m0[j] != mark,
        decreases m0.len() - i,
    {
        if out[i] == mark {
            proof {
                lemma_mark_pos(m0, mark, i as int);
                assert(m0.skip(i as int)[0] == mark);
                assert(mark_pos(m0.skip(i as int), mark) == Some(0int));
                assert(mark_pos(m0, mark) == Some(i as int));
            }
            out.remove(i);
            assert(out@ == m0.remove(i as int));

            return out;
        }
        i = i + 1;
    }
    proof {
        lemma_mark_pos(m0, mark, i as int);
        assert(m0.skip(i as int) =~= Seq::<Mark>::empty());
    }
    out.push(mark);
    out
}


/// The state after the body of a structural edit.
pub open spec fn body_view(b: EditorView, op: Op) -> EditorView {
    match op {
        Op::Newline => newline_view(b, false),
        Op::HardBreak => newline_view(b, true),
        Op::Tab => tab_view(b, false),
        Op::ShiftTab => tab_view(b, true),
        Op::Backspace => do_backspace_view(b),
        Op::Delete => delete_view(b),
        Op::ToggleMark(m) => toggle_view(b, m),
        Op::InsertLink => link_view(b),
        Op::SetBlockType(t) => block_type_view(b, t),
        Op::WrapList(k) => wrap_list_view(b, k),
        Op::DeleteToLineEnd => del_to_end_view(b),
        Op::DeleteToLineStart => del_to_start_view(b),
        Op::DeleteWordBack => del_word_back_view(b),
        Op::DeleteWordForward => del_word_fwd_view(b),
        Op::MoveRange { from, to, copy } => move_range_view(b, from, to, copy),
        _ => b,
    }
}

/// The state after an operation; `recent` tells whether the last edit lies within the
/// typing merge window.
pub open spec fn apply_view(v: EditorView, op: Op, recent: bool) -> EditorView {
    match op {
        Op::Move(d, e) => move_view(v, d, e),
        Op::SelectAll => select_all_view(v),
        Op::Undo => undo_view(v),
        Op::Redo => redo_view(v),
        Op::Type(t) => end_view(rules_view(insert_view(begin_view(v, true, recent), wrap_marks(t@, v.pending_marks))), true),
        Op::Paste(t) => end_view(insert_view(begin_view(v, true, recent), t@), false),
        _ => end_view(body_view(begin_view(v, false, recent), op), false),
    }
}

/// The operation does not stop on the state (see the conditions of each operation).
pub open spec fn op_ok(v: EditorView, op: Op) -> bool {
    match op {
        Op::MoveRange { from, to, copy } => move_range_ok(v, from, to, copy),
        _ => true,
    }
}

/// The operation is an edit: it records the time of the edit.
pub open spec fn is_edit(op: Op) -> bool {
    !(op is Move || op is SelectAll || op is Undo || op is Redo)
}

/// Starting an edit leaves what the operations read unchanged.
pub proof fn lemma_begin_same(v: EditorView, op: Op, recent: bool)
    requires
        wf(v),
    ensures
        wf(begin_view(v, false, recent)),
        op_ok(begin_view(v, false, recent), op) == op_ok(v, op),
{
    lemma_begin_wf(v, false, recent);
    let b = begin_view(v, false, recent);
    assert(b.lines == v.lines && b.cursor_line == v.cursor_line && b.cursor_col == v.cursor_col
        && b.sel_start == v.sel_start && b.rule_state == v.rule_state);
    assert(EditorView { undo_stack: v.undo_stack, redo_stack: v.redo_stack, merge_undo: v.merge_undo, ..b } == v);
}

/// Undo and redo keep a state valid.
pub proof fn lemma_history_wf(v: EditorView)
    requires
        wf(v),
    ensures
        wf(undo_view(v)),
        wf(redo_view(v)),
{
    if v.undo_stack.len() > 0 {
        let w = undo_view(v);
        assert(snap_ok(v.undo_stack[v.undo_stack.len() - 1]));
        assert forall|i: int| 0 <= i < w.undo_stack.len() implies snap_ok(#[trigger] w.undo_stack[i]) by {
            assert(w.undo_stack[i] == v.undo_stack[i]);
        }
        assert forall|i: int| 0 <= i < w.redo_stack.len() implies snap_ok(#[trigger] w.redo_stack[i]) by {
            if i < v.redo_stack.len() {
                assert(w.redo_stack[i] == v.redo_stack[i]);
            }
        }
    }
    if v.redo_stack.len() > 0 {
        let w = redo_view(v);
        assert(snap_ok(v.redo_stack[v.redo_stack.len() - 1]));
        assert forall|i: int| 0 <= i < w.redo_stack.len() implies snap_ok(#[trigger] w.redo_stack[i]) by {
            assert(w.redo_stack[i] == v.redo_stack[i]);
        }
        assert forall|i: int| 0 <= i < w.undo_stack.len() implies snap_ok(#[trigger] w.undo_stack[i]) by {
            if i < v.undo_stack.len() {
                assert(w.undo_stack[i] == v.undo_stack[i]);
            }
        }
    }
}

impl Editor {
    /// Runs one operation, given whether the last edit lies within the typing merge window.
    #[verifier::rlimit(60)]
    pub fn apply_at(&mut self, op: &Op, recent: bool)
        requires
            wf(old(self)@),
            op_ok(old(self)@, *op),
        ensures
            final(self)@ == apply_view(old(self)@, *op, recent),
            wf(final(self)@),
            is_edit(*op) ==> final(self).last_op_at is Some,
            (op is Move || op is SelectAll) ==> final(self).last_op_at == old(self).last_op_at,
            op is Undo ==> final(self).last_op_at == (if old(self)@.undo_stack.len() > 0 {
                None
            } else {
                old(self).last_op_at
            }),
            op is Redo ==> final(self).last_op_at == (if old(self)@.redo_stack.len() > 0 {
                None
            } else {
                old(self).last_op_at
            }),
    {
        match op {
            Op::Move(dir, extend) => self.move_dir(*dir, *extend),
            Op::SelectAll => self.select_all(),
            Op::Undo => {
                proof {
                    lemma_history_wf(self@);
                }
                self.undo();
            },
            Op::Redo => {
                proof {
                    lemma_history_wf(self@);
                }
                self.redo();
            },
            Op::Type(text) => self.typing(text, false, recent),
            Op::Paste(text) => self.typing(text, true, recent),
            _ => {
                proof {
                    lemma_begin_same(self@, *op, recent);
                }
                self.begin_edit(false, recent);
                self.edit_body(op);
                self.end_edit(false);
            },
        }
    }

    /// Typed (with the pending marks) or pasted text, as one undo step with earlier typing
    /// when it merges.
    fn typing(&mut self, text: &String, is_paste: bool, recent: bool)
        requires
            wf(old(self)@),
        ensures
            final(self)@ == (if is_paste {
                end_view(insert_view(begin_view(old(self)@, true, recent), text@), false)
            } else {
                end_view(rules_view(insert_view(begin_view(old(self)@, true, recent), wrap_marks(text@, old(self)@.pending_marks))), true)
            }),
            wf(final(self)@),
            final(self).last_op_at is Some,
    {
        proof {
            lemma_begin_wf(self@, true, recent);
        }
        self.begin_edit(true, recent);
        if is_paste {
            self.type_text(text.as_str(), true);
            self.end_edit(false);
        } else {
            let t = apply_pending_marks(text.as_str(), &self.pending_marks);
            self.type_text(t.as_str(), false);
            self.end_edit(true);
        }
    }

    /// The body of a structural edit.
    fn edit_body(&mut self, op: &Op)
        requires
            wf(old(self)@),
            op_ok(old(self)@, *op),
        ensures
            final(self)@ == body_view(old(self)@, *op),
            wf(final(self)@),
    {
        match op {
            Op::Newline => self.do_newline(false),
            Op::HardBreak => self.do_newline(true),
            Op::Tab => self.do_tab(false),
            Op::ShiftTab => self.do_tab(true),
            Op::Backspace => self.do_backspace(),
            Op::Delete => self.delete(),
            Op::ToggleMark(mark) => self.toggle_mark(*mark),
            Op::InsertLink => self.insert_link(),
            Op::SetBlockType(t) => self.set_block_type(*t),
            Op::WrapList(kind) => self.wrap_list(*kind),
            Op::DeleteToLineEnd => self.delete_to_line_end(),
            Op::DeleteToLineStart => self.delete_to_line_start(),
            Op::DeleteWordBack => self.delete_word_back(),
            Op::DeleteWordForward => self.delete_word_forward(),
            Op::MoveRange { from, to, copy } => self.move_range(*from, *to, *copy),
            _ => {},
        }
    }

    /// Whether `op` can run on this state (`op_ok`).
    pub fn allows(&self, op: &Op) -> (r: bool)
        requires
            wf(self@),
        ensures
            r == op_ok(self@, *op),
    {
        match op {
            Op::MoveRange { from, to, copy } => self.can_move_range(*from, *to, *copy),
            _ => true,
        }
    }

    /// Runs one operation, given the milliseconds since the last edit (`None` when there
    /// was none): the edit lies within the typing merge window when there was no earlier
    /// edit or it came less than `MERGE_WINDOW_MS` ago.
    pub fn apply_after(&mut self, op: &Op, elapsed: Option<u128>)
        requires
            wf(old(self)@),
            op_ok(old(self)@, *op),
        ensures
            final(self)@ == apply_view(old(self)@, *op, in_merge_window(elapsed)),
            wf(final(self)@),
            is_edit(*op) ==> final(self).last_op_at is Some,
            (op is Move || op is SelectAll) ==> final(self).last_op_at == old(self).last_op_at,
    {
        let recent = match elapsed {
            None => true,
            Some(ms) => ms < MERGE_WINDOW_MS,
        };
        self.apply_at(op, recent);
    }

    /// Runs one operation; consecutive typing within the merge window joins one undo step.
    /// The milliseconds since the last edit come from the clock.
    pub fn apply(&mut self, op: &Op)
        requires
            wf(old(self)@),
            op_ok(old(self)@, *op),
        ensures
            old(self).last_op_at is None ==> final(self)@ == apply_view(old(self)@, *op, true),
            old(self).last_op_at is Some ==> exists|ms: u128| final(self)@ == #[trigger] apply_view(old(self)@, *op, in_merge_window(Some(ms))),
            wf(final(self)@),
            is_edit(*op) ==> final(self).last_op_at is Some,
            (op is Move || op is SelectAll) ==> final(self).last_op_at == old(self).last_op_at,
    {
        let elapsed = match &self.last_op_at {
            None => None,
            Some(t) => {
                let now = crate::clock::instant_now();
                let d = crate::clock::instant_duration_since(&now, t);
                Some(crate::clock::duration_millis(&d))
            },
        };
        self.apply_after(op, elapsed);
    }
}

} // verus!
