//! Laws of the editor and of parsed inline content, stated over the functions' own
//! specifications.

use vstd::prelude::*;
use crate::editor::{EditorView, delsel_view, insert_view, wf};
use crate::inline::inline_of;
use crate::editor::disp_col_of;
use crate::line::{
    detect, empty_out, lemma_count_lt_split, lemma_detect, lemma_parse_wf,
    lemma_parsed_map, line_map, line_prefix, parse_into, parsed_laws, parsed_ok, src_col,
    LineStyle, ParsedLine,
};
use crate::markdown::{plain_style, InlineStyle};
use crate::text::{byte_len, is_boundary, lemma_byte_len_append};
use crate::ops::{
    MAX_UNDO, Op, apply_view, begin_view, body_view, end_view, is_edit, merges, redo_view,
    rules_view, snap_of, undo_view, wrap_marks,
};

verus! {

/// Whether an operation may join the current undo step (typing and pasting).
pub open spec fn mergeable(op: Op) -> bool {
    op is Type || op is Paste
}

/// The document, cursor, selection and composition range of a state.
pub open spec fn doc_state(v: EditorView) -> (Seq<Seq<char>>, usize, usize, Option<(usize, usize)>, Option<(usize, usize)>) {
    (v.lines, v.cursor_line, v.cursor_col, v.sel_start, v.marked)
}

/// Both stacks of two states are the same.
pub open spec fn same_stacks(a: EditorView, b: EditorView) -> bool {
    a.undo_stack == b.undo_stack && a.redo_stack == b.redo_stack
}

proof fn lemma_newline_stacks(b: EditorView, hard: bool)
    ensures
        same_stacks(crate::newline::newline_view(b, hard), b),
{
    let v1 = if b.sel_start is Some { delsel_view(b) } else { b };
    assert(same_stacks(v1, b));
    let cur = crate::editor::cur_line(v1);
    assert(same_stacks(crate::newline::plain_nl(v1), b));
    assert(same_stacks(crate::newline::quote_nl(v1), b));
    assert(same_stacks(crate::newline::hard_nl(v1), b));
    assert(same_stacks(crate::newline::paragraph_nl(v1), b));
    assert(same_stacks(crate::newline::list_nl(v1, seq!['-', ' '], None), b));
    assert(same_stacks(crate::newline::list_nl(v1, crate::newline::next_ordered(cur), crate::newline::ordered_start_of(cur)), b));
}

proof fn lemma_format_stacks(b: EditorView, op: Op)
    ensures
        same_stacks(body_view(b, op), b),
{
    match op {
        Op::Newline => lemma_newline_stacks(b, false),
        Op::HardBreak => lemma_newline_stacks(b, true),
        Op::Tab => {
            assert(same_stacks(insert_view(b, crate::newline::spaces4()), b));
        },
        Op::ShiftTab => {
            assert(same_stacks(insert_view(b, crate::newline::spaces4()), b));
        },
        Op::Backspace => {
            assert(same_stacks(delsel_view(b), b));
            assert(same_stacks(crate::editor::backspace_view(b), b));
        },
        Op::Delete => {
            assert(same_stacks(delsel_view(b), b));
        },
        Op::InsertLink => {
            assert(same_stacks(insert_view(b, crate::format::link_template()), b));
        },
        Op::DeleteWordBack | Op::DeleteWordForward => {
            assert(same_stacks(delsel_view(b), b));
        },
        Op::MoveRange { from, to, copy } => {
            let t = crate::drag::moved_target(b, from, to, copy);
            let v2 = EditorView { sel_start: None, cursor_line: t.0 as usize, cursor_col: t.1 as usize, ..crate::drag::after_removal(b, from, copy) };
            assert(same_stacks(v2, b));
            assert(same_stacks(insert_view(v2, crate::drag::range_text(b, from)), b));
        },
        _ => {},
    }
}

/// The body of an edit leaves the undo and redo stacks alone.
pub proof fn lemma_body_stacks(b: EditorView, op: Op)
    ensures
        body_view(b, op).undo_stack == b.undo_stack,
        body_view(b, op).redo_stack == b.redo_stack,
{
    lemma_format_stacks(b, op);
}

/// An edit that starts a new undo step pushes the state before it, and clears the redo
/// stack; an edit that joins the current step leaves both stacks alone.
pub proof fn lemma_edit_stacks(v: EditorView, op: Op, recent: bool)
    requires
        is_edit(op),
    ensures
        ({
            let w = apply_view(v, op, recent);
            let m = merges(v, mergeable(op), recent);
            let u = if v.undo_stack.len() >= MAX_UNDO { v.undo_stack.skip(1) } else { v.undo_stack };
            &&& !m ==> w.undo_stack == u.push(snap_of(v)) && w.redo_stack == Seq::<crate::editor::SnapView>::empty()
            &&& m ==> w.undo_stack == v.undo_stack && w.redo_stack == v.redo_stack
        }),
{
    let b = begin_view(v, mergeable(op), recent);
    lemma_body_stacks(b, op);
    match op {
        Op::Type(t) => {
            assert(insert_view(b, wrap_marks(t@, v.pending_marks)).undo_stack == b.undo_stack);
        },
        Op::Paste(t) => {
            assert(insert_view(b, t@).undo_stack == b.undo_stack);
        },
        _ => {},
    }
}

/// Undoing an edit that started a new undo step brings back the document, cursor,
/// selection and composition range from before the edit.
pub proof fn law_undo_restores(v: EditorView, op: Op, recent: bool)
    requires
        is_edit(op),
        !merges(v, mergeable(op), recent),
    ensures
        doc_state(undo_view(apply_view(v, op, recent))) == doc_state(v),
{
    lemma_edit_stacks(v, op, recent);
}

/// Redoing right after an undo brings back the document, cursor, selection and
/// composition range from before the undo.
pub proof fn law_redo_after_undo(v: EditorView)
    requires
        v.undo_stack.len() > 0,
    ensures
        doc_state(redo_view(undo_view(v))) == doc_state(v),
        redo_view(undo_view(v)).undo_stack == v.undo_stack.drop_last().push(snap_of(undo_view(v))),
{
}

/// An edit that starts a new undo step empties the redo stack.
pub proof fn law_edit_clears_redo(v: EditorView, op: Op, recent: bool)
    requires
        is_edit(op),
        !merges(v, mergeable(op), recent),
    ensures
        apply_view(v, op, recent).redo_stack.len() == 0,
{
    lemma_edit_stacks(v, op, recent);
}

/// Typing right after typing, within the merge window and with no selection, joins the
/// current undo step: the undo stack does not grow.
pub proof fn law_typing_merges(v: EditorView, t: String, recent: bool)
    requires
        v.last_op == Some(crate::ops::LastOp::Typing),
        recent,
        v.sel_start is None,
    ensures
        apply_view(v, Op::Type(t), recent).undo_stack == v.undo_stack,
{
    lemma_edit_stacks(v, Op::Type(t), recent);
}

/// The undo and redo stacks together never hold more than `MAX_UNDO` steps, so the undo
/// history is capped.
pub proof fn law_history_cap(v: EditorView, op: Op, recent: bool)
    requires
        v.undo_stack.len() + v.redo_stack.len() <= MAX_UNDO,
    ensures
        apply_view(v, op, recent).undo_stack.len() + apply_view(v, op, recent).redo_stack.len() <= MAX_UNDO,
{
    if is_edit(op) {
        lemma_edit_stacks(v, op, recent);
    } else {
        match op {
            Op::Move(d, e) => {
                assert(crate::ops::move_view(v, d, e).undo_stack == v.undo_stack);
                assert(crate::ops::move_view(v, d, e).redo_stack == v.redo_stack);
            },
            _ => {},
        }
    }
}

/// Every highlight of inline content is a byte range of its text, starting and ending on
/// character boundaries, and the highlights come in order without overlapping.
pub proof fn law_inline_ranges(m: Seq<(Seq<char>, InlineStyle)>)
    requires
        byte_len(inline_of(m).0) <= usize::MAX,
    ensures
        forall|k: int|
            0 <= k < inline_of(m).1.len() ==> {
                let r = #[trigger] inline_of(m).1[k].0;
                &&& r.0 <= r.1 <= byte_len(inline_of(m).0)
                &&& is_boundary(inline_of(m).0, r.0 as int)
                &&& is_boundary(inline_of(m).0, r.1 as int)
            },
        forall|k: int|
            0 <= k < inline_of(m).1.len() - 1 ==> (#[trigger] inline_of(m).1[k]).0.1 <= inline_of(m).1[k + 1].0.0,
    decreases m.len(),
{
    if m.len() > 0 {
        let p = m.drop_last();
        let x = m.last();
        let prev = inline_of(p);
        lemma_byte_len_append(prev.0, x.0);
        law_inline_ranges(p);
        let text = prev.0 + x.0;
        assert(text.take(prev.0.len() as int) =~= prev.0);
        assert(text.take(text.len() as int) =~= text);
        assert forall|k: int| 0 <= k < prev.1.len() implies is_boundary(text, #[trigger] prev.1[k].0.0 as int)
            && is_boundary(text, prev.1[k].0.1 as int) by {
            let r = prev.1[k].0;
            let a = choose|j: int| 0 <= j <= prev.0.len() && #[trigger] byte_len(prev.0.take(j)) == r.0;
            let b = choose|j: int| 0 <= j <= prev.0.len() && #[trigger] byte_len(prev.0.take(j)) == r.1;
            assert(text.take(a) =~= prev.0.take(a));
            assert(text.take(b) =~= prev.0.take(b));
        }
    }
}

/// Going from a display column to its source column and back gives the same display
/// column, for every column from the start of the displayed text to its end.
pub proof fn law_display_source_roundtrip(p: ParsedLine, s: Seq<char>, d: int)
    requires
        parsed_ok(p, s, false),
        parsed_laws(p, s),
        0 <= d <= p.map@.len(),
    ensures
        disp_col_of(p, src_col(s, d)) == d,
{
    lemma_parsed_map(p, s);
    lemma_detect(s);
    let m = line_map(s);
    let pre = line_prefix(s);
    assert(m == p.map@.map_values(|x: usize| x as int));
    assert forall|k: int| 0 <= k < m.len() implies #[trigger] m[k] >= pre by {
        let (st, pc) = detect(s);
        if st != LineStyle::Fence {
            lemma_parse_wf(s, pc, s.len() as int, empty_out());
            let o = parse_into(s, pc, s.len() as int, empty_out());
            crate::text::lemma_byte_at_mono(s, pc, o.1[k]);
        }
    }
    if d > 0 {
        if d < m.len() {
            assert(m[d] > m[0]);
            assert forall|k: int| d <= k < m.len() implies m[k] >= m[d] by {
                if k > d {
                    assert(p.map@[d] < p.map@[k]);
                }
            }
            assert forall|k: int| 0 <= k < d implies m[k] < m[d] by {
                assert(p.map@[k] < p.map@[d]);
            }
            lemma_count_lt_split(m, m[d], d);
        } else {
            assert(m[0] < crate::text::byte_len(s));
            lemma_count_lt_split(m, crate::text::byte_len(s) as int, m.len() as int);
        }
    }
}

/// Every displayed character is the source character at its mapped byte offset, inside
/// a fence or out of it.
pub proof fn law_map_chars(p: ParsedLine, s: Seq<char>, in_fence: bool, k: int)
    requires
        parsed_ok(p, s, in_fence),
        0 <= k < p.map@.len(),
    ensures
        is_boundary(s, p.map@[k] as int),
        0 <= crate::text::char_pos(s, p.map@[k] as int) < s.len(),
        s[crate::text::char_pos(s, p.map@[k] as int)] == p.display@[k],
{
    lemma_detect(s);
    let st = detect(s).0;
    let pc = crate::line::line_prefix_chars(s, in_fence);
    let j: int;
    if in_fence || st == LineStyle::Fence {
        let disp = crate::line::code_display(s, st, pc);
        let t = s.skip(pc);
        crate::text::lemma_run_of(t, 0, '`');
        let d1 = t.skip(crate::text::run_of(t, 0, '`'));
        crate::text::lemma_run_of(d1, 0, '~');
        let b = s.len() - disp.len();
        if st == LineStyle::Fence {
            assert(disp =~= s.skip(pc + crate::text::run_of(t, 0, '`') + crate::text::run_of(d1, 0, '~')));
        } else {
            assert(disp =~= s.skip(pc));
        }
        assert(disp =~= s.skip(b));
        j = b + k;
        assert(s[j] == disp[k]);
    } else {
        assert(crate::line::flat(empty_out().2) =~= empty_out().0);
        lemma_parse_wf(s, pc, s.len() as int, empty_out());
        let o = parse_into(s, pc, s.len() as int, empty_out());
        j = o.1[k];
        assert(s[j] == o.0[k]);
    }
    assert(p.map@[k] as int == crate::text::byte_at(s, j));
    assert(byte_len(s.take(j)) == p.map@[k] as int);
    crate::text::lemma_char_pos(s, p.map@[k] as int);
}

/// Position `i` of `full` starts nothing the inline parser acts on before `hi`: no
/// backslash, no link that closes, no emphasis or code span that closes.
pub open spec fn plain_at(full: Seq<char>, i: int, hi: int) -> bool {
    full[i] != '\\' && !(full[i] == '[' && crate::line::link_ok(full, i, hi)) && !crate::line::emph_ok(full, i, hi)
}

proof fn lemma_scan_plain(full: Seq<char>, lo: int, hi: int, i: int, o: crate::line::InlineOut)
    requires
        0 <= lo <= i <= hi <= full.len(),
        forall|j: int| i <= j < hi ==> #[trigger] plain_at(full, j, hi),
    ensures
        crate::line::scan(full, lo, hi, i, lo, o) == crate::line::flush_out(full, lo, hi, o),
    decreases hi - i,
{
    if i < hi {
        assert(plain_at(full, i, hi));
        lemma_scan_plain(full, lo, hi, i + 1, o);
    }
}

/// Markers that nothing closes are shown as written: when no character of a line's text
/// after its block marker is a backslash or opens a link or emphasis that closes, the
/// displayed text is that text unchanged.
pub proof fn law_unclosed_literal(p: ParsedLine, s: Seq<char>)
    requires
        parsed_ok(p, s, false),
        detect(s).0 != LineStyle::Fence,
        forall|i: int| detect(s).1 <= i < s.len() ==> #[trigger] plain_at(s, i, s.len() as int),
    ensures
        p.display@ == s.skip(detect(s).1),
{
    lemma_detect(s);
    let pc = detect(s).1;
    lemma_scan_plain(s, pc, s.len() as int, pc, empty_out());
    assert(s.subrange(pc, s.len() as int) =~= s.skip(pc));
    assert(Seq::<char>::empty() + s.skip(pc) =~= s.skip(pc));
}

/// The shape of converted Markdown: empty, or starting with something other than a line
/// break and ending in one; never three line breaks in a row; and no line ending in
/// whitespace (so no line is whitespace only).
pub open spec fn md_shape(t: Seq<char>) -> bool {
    &&& (t.len() == 0 || (t[0] != '\n' && t.last() == '\n'))
    &&& forall|i: int| 0 <= i && i + 2 < t.len() ==> !(#[trigger] t[i] == '\n' && t[i + 1] == '\n' && t[i + 2] == '\n')
    &&& forall|j: int| 0 < j < t.len() && #[trigger] t[j] == '\n' && t[j - 1] != '\n' ==> !crate::text::is_ws(t[j - 1])
}

/// What `tidy` keeps of its text: the shape, and whether it ends in an empty line matches
/// its flag.
pub open spec fn tidy_inv(r: (Seq<char>, bool)) -> bool {
    &&& md_shape(r.0)
    &&& r.1 ==> (r.0.len() == 0 || crate::html2md::ends_nn(r.0))
    &&& !r.1 ==> !crate::html2md::ends_nn(r.0)
}

/// A line with text left after trimming keeps text after trimming its end, ending in a
/// character that is not whitespace.
proof fn lemma_trim_end_text(line: Seq<char>)
    requires
        crate::text::trim(line).len() > 0,
    ensures
        crate::text::trim_end(line).len() > 0,
        !crate::text::is_ws(crate::text::trim_end(line).last()),
{
    let n = line.len() as int;
    crate::text::lemma_trail_ws(line, n);
    crate::text::lemma_ws_run(line, 0);
    let te = crate::text::trim_end(line);
    if te.len() == 0 {
        let l = crate::text::lead_ws(line);
        if l < n {
            assert(crate::text::is_ws(line[l]));
        }
        let ts = crate::text::trim_start(line);
        assert(ts.len() == 0);
        crate::text::lemma_trail_ws(ts, 0);
        assert(crate::text::trim(line).len() == 0);
    }
}

proof fn lemma_tidy_shape(lines: Seq<Seq<char>>)
    requires
        forall|i: int| 0 <= i < lines.len() ==> !(#[trigger] lines[i]).contains('\n'),
    ensures
        tidy_inv(crate::html2md::tidy(lines)),
    decreases lines.len(),
{
    reveal_strlit("\n");
    assert("\n"@ =~= seq!['\n']);
    if lines.len() > 0 {
        let prev = lines.drop_last();
        assert forall|i: int| 0 <= i < prev.len() implies !(#[trigger] prev[i]).contains('\n') by {
            assert(prev[i] == lines[i]);
        }
        lemma_tidy_shape(prev);
        let r = crate::html2md::tidy(prev);
        let line = lines.last();
        assert(!line.contains('\n'));
        if crate::text::trim(line).len() == 0 {
            if !r.1 && r.0.len() > 0 {
                let t = r.0 + "\n"@;
                assert(t.len() == r.0.len() + 1);
                assert(t[t.len() - 1] == '\n');
                assert(t[t.len() - 2] == '\n');
                assert forall|i: int| 0 <= i && i + 2 < t.len() implies !(#[trigger] t[i] == '\n' && t[i + 1] == '\n' && t[i + 2] == '\n') by {
                    if i + 2 < r.0.len() {
                        assert(t[i] == r.0[i] && t[i + 1] == r.0[i + 1] && t[i + 2] == r.0[i + 2]);
                    } else {
                        assert(t[i] == r.0[i] && t[i + 1] == r.0[i + 1]);
                    }
                }
                assert forall|j: int| 0 < j < t.len() && #[trigger] t[j] == '\n' && t[j - 1] != '\n' implies !crate::text::is_ws(t[j - 1]) by {
                    if j < r.0.len() {
                        assert(t[j] == r.0[j] && t[j - 1] == r.0[j - 1]);
                    }
                }
            }
        } else {
            lemma_trim_end_text(line);
            let te = crate::text::trim_end(line);
            let n = line.len() as int;
            crate::text::lemma_trail_ws(line, n);
            assert forall|k: int| 0 <= k < te.len() implies #[trigger] te[k] != '\n' by {
                assert(te[k] == line[k]);
            }
            let t = r.0 + te + "\n"@;
            assert(t.len() == r.0.len() + te.len() + 1);
            assert(t[t.len() - 1] == '\n');
            assert(t[t.len() - 2] == te.last());
            assert(te.last() != '\n') by {
                assert(te[te.len() - 1] != '\n');
            }
            if r.0.len() == 0 {
                assert(t[0] == te[0]);
            } else {
                assert(t[0] == r.0[0]);
            }
            assert forall|i: int| 0 <= i && i + 2 < t.len() implies !(#[trigger] t[i] == '\n' && t[i + 1] == '\n' && t[i + 2] == '\n') by {
                if i + 2 < r.0.len() {
                    assert(t[i] == r.0[i] && t[i + 1] == r.0[i + 1] && t[i + 2] == r.0[i + 2]);
                } else if i + 2 < r.0.len() + te.len() {
                    assert(t[i + 2] == te[i + 2 - r.0.len()]);
                } else {
                    assert(i + 2 == t.len() - 1);
                    if te.len() >= 2 {
                        assert(t[i + 1] == te[i + 1 - r.0.len()]);
                    } else {
                        assert(t[i + 1] == te[0]);
                    }
                }
            }
            assert forall|j: int| 0 < j < t.len() && #[trigger] t[j] == '\n' && t[j - 1] != '\n' implies !crate::text::is_ws(t[j - 1]) by {
                if j < r.0.len() {
                    assert(t[j] == r.0[j] && t[j - 1] == r.0[j - 1]);
                } else if j < r.0.len() + te.len() {
                    assert(t[j] == te[j - r.0.len()]);
                } else {
                    assert(t[j - 1] == te.last());
                }
            }
        }
    }
}

proof fn lemma_drop_nn_shape(t: Seq<char>)
    requires
        md_shape(t),
    ensures
        md_shape(crate::html2md::drop_nn(t)),
        !crate::html2md::ends_nn(crate::html2md::drop_nn(t)),
    decreases t.len(),
{
    if crate::html2md::ends_nn(t) {
        let u = t.drop_last();
        assert(u.last() == '\n');
        assert(u[0] == t[0]);
        assert forall|i: int| 0 <= i && i + 2 < u.len() implies !(#[trigger] u[i] == '\n' && u[i + 1] == '\n' && u[i + 2] == '\n') by {
            assert(u[i] == t[i] && u[i + 1] == t[i + 1] && u[i + 2] == t[i + 2]);
        }
        assert forall|j: int| 0 < j < u.len() && #[trigger] u[j] == '\n' && u[j - 1] != '\n' implies !crate::text::is_ws(u[j - 1]) by {
            assert(u[j] == t[j] && u[j - 1] == t[j - 1]);
        }
        lemma_drop_nn_shape(u);
    }
}

/// Converted HTML comes out in the shape of `md_shape` and never ends in an empty line.
pub proof fn law_html_md_shape(html: Seq<char>)
    ensures
        md_shape(crate::html2md::html_md(html)),
        !crate::html2md::ends_nn(crate::html2md::html_md(html)),
{
    let out = crate::html2md::blocks_loop(crate::html2md::body_of(html), 0, 0, Seq::empty()).0;
    crate::text::lemma_split_no_newline(out);
    lemma_tidy_shape(crate::text::split_lines(out));
    lemma_drop_nn_shape(crate::html2md::tidy(crate::text::split_lines(out)).0);
}

/// The delimiters of `ms`, in order.
pub open spec fn delims(ms: Seq<crate::ops::Mark>) -> Seq<char>
    decreases ms.len(),
{
    if ms.len() == 0 {
        Seq::empty()
    } else {
        crate::ops::delim(ms[0]) + delims(ms.skip(1))
    }
}

/// The delimiters of `ms`, last first.
pub open spec fn delims_rev(ms: Seq<crate::ops::Mark>) -> Seq<char>
    decreases ms.len(),
{
    if ms.len() == 0 {
        Seq::empty()
    } else {
        delims_rev(ms.skip(1)) + crate::ops::delim(ms[0])
    }
}

/// The number of characters of the delimiters of `ms`.
pub open spec fn delims_len(ms: Seq<crate::ops::Mark>) -> nat
    decreases ms.len(),
{
    if ms.len() == 0 {
        0
    } else {
        crate::ops::delim(ms[0]).len() + delims_len(ms.skip(1))
    }
}

proof fn lemma_wrap_seq(t: Seq<char>, ms: Seq<crate::ops::Mark>)
    ensures
        crate::ops::wrap_seq(t, ms) == delims(ms) + t + delims_rev(ms),
        delims(ms).len() == delims_len(ms),
        delims_rev(ms).len() == delims_len(ms),
    decreases ms.len(),
{
    if ms.len() > 0 {
        lemma_wrap_seq(t, ms.skip(1));
        let d = crate::ops::delim(ms[0]);
        assert(d + (delims(ms.skip(1)) + t + delims_rev(ms.skip(1))) + d =~= (d + delims(ms.skip(1))) + t + (delims_rev(ms.skip(1)) + d));
    }
}

proof fn lemma_delims_len_append(a: Seq<crate::ops::Mark>, b: Seq<crate::ops::Mark>)
    ensures
        delims_len(a + b) == delims_len(a) + delims_len(b),
    decreases a.len(),
{
    if a.len() == 0 {
        assert(a + b =~= b);
    } else {
        assert((a + b).skip(1) =~= a.skip(1) + b);
        assert((a + b)[0] == a[0]);
        lemma_delims_len_append(a.skip(1), b);
    }
}

proof fn lemma_marks_split(m: Seq<crate::ops::Mark>)
    ensures
        (crate::ops::marks_where(m, true) + crate::ops::marks_where(m, false)).to_multiset() =~= m.to_multiset(),
        delims_len(crate::ops::marks_where(m, true)) + delims_len(crate::ops::marks_where(m, false)) == delims_len(m),
    decreases m.len(),
{
    broadcast use vstd::seq_lib::group_to_multiset_ensures;
    broadcast use vstd::multiset::group_multiset_axioms;
    broadcast use vstd::seq_lib::lemma_multiset_commutative;
    let a = crate::ops::marks_where(m, true);
    let b = crate::ops::marks_where(m, false);
    if m.len() == 0 {
        assert(m.to_multiset() =~= vstd::multiset::Multiset::empty());
        assert(a + b =~= Seq::<crate::ops::Mark>::empty());
    } else {
        let p = m.drop_last();
        let x = m.last();
        lemma_marks_split(p);
        let a0 = crate::ops::marks_where(p, true);
        let b0 = crate::ops::marks_where(p, false);
        assert(m =~= p.push(x));
        assert(seq![x].skip(1) =~= Seq::<crate::ops::Mark>::empty());
        assert(delims_len(seq![x].skip(1)) == 0);
        assert(seq![x][0] == x);
        assert(delims_len(seq![x]) == crate::ops::delim(x).len());
        lemma_delims_len_append(p, seq![x]);
        assert(p + seq![x] =~= m);
        if x == crate::ops::Mark::Bold {
            assert(a == a0.push(x));
            assert(b == b0);
            lemma_delims_len_append(a0, seq![x]);
            assert(a0 + seq![x] =~= a);
            assert((a + b).to_multiset() =~= (a0 + b0).to_multiset().insert(x));
        } else {
            assert(a == a0);
            assert(b == b0.push(x));
            lemma_delims_len_append(b0, seq![x]);
            assert(b0 + seq![x] =~= b);
            assert((a + b).to_multiset() =~= (a0 + b0).to_multiset().insert(x));
        }
    }
}

/// Typing with pending marks wraps the text in the delimiters of a reordering of the
/// marks, opened in one order and closed in the reverse one; so the text grows by twice
/// the delimiters' length, and without marks it stays as it is.
pub proof fn law_pending_marks(t: Seq<char>, marks: Seq<crate::ops::Mark>)
    ensures
        exists|ord: Seq<crate::ops::Mark>| #[trigger] ord.to_multiset() == marks.to_multiset()
            && wrap_marks(t, marks) == delims(ord) + t + delims_rev(ord),
        wrap_marks(t, marks).len() == t.len() + 2 * delims_len(marks),
        marks.len() == 0 ==> wrap_marks(t, marks) == t,
{
    let ord = crate::ops::marks_where(marks, true) + crate::ops::marks_where(marks, false);
    lemma_wrap_seq(t, ord);
    lemma_marks_split(marks);
    lemma_delims_len_append(crate::ops::marks_where(marks, true), crate::ops::marks_where(marks, false));
    if marks.len() == 0 {
        assert(ord =~= Seq::<crate::ops::Mark>::empty());
        assert(delims(ord) + t + delims_rev(ord) =~= t);
    }
}

/// Lines, each followed by a line break, one after the other.
pub open spec fn lines_nl(ls: Seq<Seq<char>>) -> Seq<char>
    decreases ls.len(),
{
    if ls.len() == 0 {
        Seq::empty()
    } else {
        ls[0] + seq!['\n'] + lines_nl(ls.skip(1))
    }
}

proof fn lemma_lines_nl_push(ls: Seq<Seq<char>>, l: Seq<char>)
    ensures
        lines_nl(ls.push(l)) == lines_nl(ls) + l + seq!['\n'],
    decreases ls.len(),
{
    if ls.len() == 0 {
        assert(ls.push(l).skip(1) =~= Seq::<Seq<char>>::empty());
        assert(lines_nl(ls.push(l).skip(1)) == Seq::<char>::empty());
        assert(ls.push(l)[0] == l);
        assert(lines_nl(ls.push(l)) =~= l + seq!['\n']);
        assert(lines_nl(ls) + l + seq!['\n'] =~= l + seq!['\n']);
    } else {
        assert(ls.push(l).skip(1) =~= ls.skip(1).push(l));
        lemma_lines_nl_push(ls.skip(1), l);
        assert(ls.push(l)[0] == ls[0]);
        assert(lines_nl(ls.push(l)) =~= ls[0] + seq!['\n'] + (lines_nl(ls.skip(1)) + l + seq!['\n']));
        assert(lines_nl(ls) + l + seq!['\n'] =~= ls[0] + seq!['\n'] + (lines_nl(ls.skip(1)) + l + seq!['\n']));
    }
}

proof fn lemma_lines_span(lines: Seq<Seq<char>>, a: int, b: int)
    requires
        1 <= a,
        a - 1 <= b <= lines.len(),
    ensures
        crate::preprocess::lines_span(lines, a, b) == lines_nl(lines.subrange(a - 1, b)),
    decreases b - a + 1,
{
    if a > b {
        assert(lines.subrange(a - 1, b) =~= Seq::<Seq<char>>::empty());
    } else {
        lemma_lines_span(lines, a, b - 1);
        assert(lines.subrange(a - 1, b) =~= lines.subrange(a - 1, b - 1).push(lines[b - 1]));
        lemma_lines_nl_push(lines.subrange(a - 1, b - 1), lines[b - 1]);
    }
}

/// An import range `(a, b)` with `1 <= a <= b <=` the number of lines selects lines `a`
/// through `b`, both included, each followed by a line break, after what the ranges before
/// it selected; the code block of a single such range holds exactly those lines.
pub proof fn law_import_range(lines: Seq<Seq<char>>, rs: Seq<(usize, usize)>, a: usize, b: usize)
    requires
        1 <= a <= b <= lines.len(),
    ensures
        crate::preprocess::select_ranges(lines, rs.push((a, b)))
            == crate::preprocess::select_ranges(lines, rs) + lines_nl(lines.subrange(a - 1, b as int)),
        crate::preprocess::select_ranges(lines, seq![(a, b)]) == lines_nl(lines.subrange(a - 1, b as int)),
{
    lemma_lines_span(lines, a as int, b as int);
    assert(rs.push((a, b)).drop_last() =~= rs);
    assert(seq![(a, b)].drop_last() =~= Seq::<(usize, usize)>::empty());
    assert(seq![(a, b)].last() == (a, b));
    assert(crate::preprocess::select_ranges(lines, Seq::<(usize, usize)>::empty()) == Seq::<char>::empty());
    assert(Seq::<char>::empty() + lines_nl(lines.subrange(a - 1, b as int)) =~= lines_nl(lines.subrange(a - 1, b as int)));
}

/// The code block of a file imported with one line range `(a, b)`, `1 <= a <= b <=` its
/// number of lines: the fence with the language, then exactly lines `a` through `b`, then
/// the closing fence.
pub proof fn law_import_block(content: Seq<char>, ext: Seq<char>, a: usize, b: usize, title: Option<Seq<char>>)
    requires
        1 <= a <= b <= crate::preprocess::std_lines(content).len(),
    ensures
        crate::preprocess::import_block(content, ext, seq![(a, b)], title)
            == "```"@ + ext + crate::preprocess::title_attr(title) + "\n"@
                + lines_nl(crate::preprocess::std_lines(content).subrange(a - 1, b as int)) + "```\n"@,
{
    let lines = crate::preprocess::std_lines(content);
    law_import_range(lines, Seq::empty(), a, b);
    let sub = lines.subrange(a - 1, b as int);
    assert(sub =~= lines.subrange(a - 1, b - 1).push(lines[b - 1]));
    lemma_lines_nl_push(lines.subrange(a - 1, b - 1), lines[b - 1]);
    let sel = lines_nl(sub);
    assert(sel.len() > 0 && sel.last() == '\n');
    assert(sel + Seq::<char>::empty() =~= sel);
}

/// Toggling a pending mark: it is pending afterwards exactly when it was not before, the
/// other marks stay as they were, and no mark is pending twice.
pub proof fn law_toggle_pending(marks: Seq<crate::ops::Mark>, m: crate::ops::Mark)
    requires
        marks.no_duplicates(),
    ensures
        crate::ops::toggled(marks, m).contains(m) == !marks.contains(m),
        forall|x: crate::ops::Mark| x != m ==> (#[trigger] crate::ops::toggled(marks, m).contains(x) == marks.contains(x)),
        crate::ops::toggled(marks, m).no_duplicates(),
{
    lemma_mark_pos_found(marks, m);
    let t = crate::ops::toggled(marks, m);
    match crate::ops::mark_pos(marks, m) {
        Some(p) => {
            assert(t == marks.remove(p));
            assert forall|x: crate::ops::Mark| #[trigger] t.contains(x) == (marks.contains(x) && x != m) by {
                if t.contains(x) {
                    let j = choose|j: int| 0 <= j < t.len() && t[j] == x;
                    if j < p {
                        assert(marks[j] == x);
                    } else {
                        assert(marks[j + 1] == x);
                        assert(j + 1 != p);
                    }
                }
                if marks.contains(x) && x != m {
                    let j = choose|j: int| 0 <= j < marks.len() && marks[j] == x;
                    assert(j != p);
                    if j < p {
                        assert(t[j] == x);
                    } else {
                        assert(t[j - 1] == x);
                    }
                }
            }
            assert forall|i: int, j: int| 0 <= i < t.len() && 0 <= j < t.len() && i != j implies t[i] != t[j] by {
                let ii = if i < p { i } else { i + 1 };
                let jj = if j < p { j } else { j + 1 };
                assert(t[i] == marks[ii] && t[j] == marks[jj]);
            }
        },
        None => {
            assert(t == marks.push(m));
            assert(t[marks.len() as int] == m);
            assert forall|x: crate::ops::Mark| x != m implies #[trigger] t.contains(x) == marks.contains(x) by {
                if t.contains(x) {
                    let j = choose|j: int| 0 <= j < t.len() && t[j] == x;
                    assert(j < marks.len());
                    assert(marks[j] == x);
                }
                if marks.contains(x) {
                    let j = choose|j: int| 0 <= j < marks.len() && marks[j] == x;
                    assert(t[j] == x);
                }
            }
            assert forall|i: int, j: int| 0 <= i < t.len() && 0 <= j < t.len() && i != j implies t[i] != t[j] by {
                if i < marks.len() && j < marks.len() {
                } else if i == marks.len() {
                    assert(marks[j] != m);
                } else {
                    assert(marks[i] != m);
                }
            }
        },
    }
}

proof fn lemma_mark_pos_found(marks: Seq<crate::ops::Mark>, m: crate::ops::Mark)
    ensures
        crate::ops::mark_pos(marks, m) matches Some(p) ==> 0 <= p < marks.len() && marks[p] == m,
        crate::ops::mark_pos(marks, m) is None ==> !marks.contains(m),
    decreases marks.len(),
{
    if marks.len() > 0 && marks[0] != m {
        lemma_mark_pos_found(marks.skip(1), m);
        if crate::ops::mark_pos(marks, m) is None {
            assert forall|j: int| 0 <= j < marks.len() implies marks[j] != m by {
                if j > 0 {
                    assert(marks[j] == marks.skip(1)[j - 1]);
                }
            }
        }
    }
}

/// The style inside a span of the document: struck through exactly inside a
/// strikethrough span (or when already struck through), underlined exactly inside a link
/// (or when already underlined), and bold and italic kept unless the span adds them.
pub proof fn law_span_lines(tag: crate::markdown::MdTag, s: InlineStyle)
    ensures
        crate::inline::span_style(tag, s) matches Some(r) ==> {
            &&& r.strikethrough == (s.strikethrough || tag == crate::markdown::MdTag::Strikethrough)
            &&& r.underline == (s.underline || tag == crate::markdown::MdTag::Link)
            &&& r.bold == (s.bold || tag == crate::markdown::MdTag::Strong)
        },
        (tag == crate::markdown::MdTag::Strikethrough || tag == crate::markdown::MdTag::Link
            || tag == crate::markdown::MdTag::Strong || tag == crate::markdown::MdTag::Emphasis)
            ==> crate::inline::span_style(tag, s) is Some,
{
}

/// Two styles agree on strikethrough and underline.
pub open spec fn same_lines(p: InlineStyle, s: InlineStyle) -> bool {
    p.strikethrough == s.strikethrough && p.underline == s.underline
}

proof fn lemma_mark_spans_lines(r: Seq<char>, base: InlineStyle)
    ensures
        forall|k: int| 0 <= k < crate::spans::mark_spans(r, base).len() ==> same_lines(#[trigger] crate::spans::mark_spans(r, base)[k].1, base),
    decreases r.len(),
{
    let ms = crate::spans::mark_spans(r, base);
    match crate::text::find_from(r, 0, seq!['=', '=']) {
        None => {},
        Some(i) => if 0 <= i && i + 2 <= r.len() {
            let after = r.skip(i + 2);
            match crate::text::find_from(after, 0, seq!['=', '=']) {
                Some(j) => {
                    let inner = after.take(j);
                    if 0 < j && j + 2 <= after.len() && !inner.contains('=') {
                        lemma_mark_spans_lines(after.skip(j + 2), base);
                        let head: Seq<(Seq<char>, InlineStyle)> = if i > 0 { seq![(r.take(i), base)] } else { Seq::empty() };
                        let rest = crate::spans::mark_spans(after.skip(j + 2), base);
                        assert(ms == head + seq![(inner, crate::spans::marked(base))] + rest);
                        assert forall|k: int| 0 <= k < ms.len() implies same_lines(#[trigger] ms[k].1, base) by {
                            if k >= head.len() + 1 {
                                assert(ms[k] == rest[k - head.len() - 1]);
                            }
                        }
                    }
                },
                None => {},
            }
        },
    }
}

proof fn lemma_supsub_lines(s: Seq<char>, i: int, cur: Seq<char>, acc: Seq<(Seq<char>, InlineStyle)>, base: InlineStyle)
    requires
        forall|k: int| 0 <= k < acc.len() ==> same_lines(#[trigger] acc[k].1, base),
    ensures
        forall|k: int| 0 <= k < crate::spans::supsub_loop(s, i, cur, acc, base).len() ==> same_lines(#[trigger] crate::spans::supsub_loop(s, i, cur, acc, base)[k].1, base),
    decreases s.len() - i,
{
    if i < 0 || i >= s.len() {
        if cur.len() > 0 {
            let r = acc.push((cur, base));
            assert forall|q: int| 0 <= q < r.len() implies same_lines(#[trigger] r[q].1, base) by {
                if q < acc.len() {
                    assert(r[q] == acc[q]);
                }
            }
            assert(crate::spans::supsub_loop(s, i, cur, acc, base) == r);
        } else {
            assert(crate::spans::supsub_loop(s, i, cur, acc, base) == acc);
        }
    } else if s[i] == '~' && i + 1 < s.len() && s[i + 1] == '~' {
        lemma_supsub_lines(s, i + 2, cur + seq!['~', '~'], acc, base);
        assert(crate::spans::supsub_loop(s, i, cur, acc, base) == crate::spans::supsub_loop(s, i + 2, cur + seq!['~', '~'], acc, base));
    } else if (s[i] == '^' || s[i] == '~') && crate::spans::supsub_close(s, i) is Some {
        let k = crate::spans::supsub_close(s, i)->0;
        if i < k < s.len() {
            let acc2 = if cur.len() > 0 { acc.push((cur, base)) } else { acc };
            let acc3 = acc2.push((s.subrange(i + 1, k), crate::spans::raised(base)));
            assert forall|q: int| 0 <= q < acc3.len() implies same_lines(#[trigger] acc3[q].1, base) by {
                if q < acc.len() {
                    assert(acc3[q] == acc[q]);
                }
            }
            lemma_supsub_lines(s, k + 1, Seq::empty(), acc3, base);
            assert(crate::spans::supsub_loop(s, i, cur, acc, base) == crate::spans::supsub_loop(s, k + 1, Seq::empty(), acc3, base));
        }
    } else {
        lemma_supsub_lines(s, i + 1, cur.push(s[i]), acc, base);
        assert(crate::spans::supsub_loop(s, i, cur, acc, base) == crate::spans::supsub_loop(s, i + 1, cur.push(s[i]), acc, base));
    }
}

proof fn lemma_text_pieces_lines(m: Seq<(Seq<char>, InlineStyle)>, base: InlineStyle)
    requires
        forall|k: int| 0 <= k < m.len() ==> same_lines(#[trigger] m[k].1, base),
    ensures
        forall|k: int| 0 <= k < crate::inline::text_pieces(m).len() ==> same_lines(#[trigger] crate::inline::text_pieces(m)[k].1, base),
    decreases m.len(),
{
    if m.len() > 0 {
        let p = m.drop_last();
        assert forall|k: int| 0 <= k < p.len() implies same_lines(#[trigger] p[k].1, base) by {
            assert(p[k] == m[k]);
        }
        lemma_text_pieces_lines(p, base);
        let last = m.last();
        let sp = crate::spans::supsub_spans(last.0, last.1);
        if !last.0.contains('^') && !last.0.contains('~') {
        } else {
            lemma_supsub_lines(last.0, 0, Seq::empty(), Seq::empty(), last.1);
        }
        let mapped = sp.map_values(|q: (Seq<char>, InlineStyle)| (crate::spans::emoji_text(q.0), q.1));
        let tp = crate::inline::text_pieces(m);
        assert(tp == crate::inline::text_pieces(p) + mapped);
        assert forall|k: int| 0 <= k < tp.len() implies same_lines(#[trigger] tp[k].1, base) by {
            if k >= crate::inline::text_pieces(p).len() {
                let q = k - crate::inline::text_pieces(p).len();
                assert(tp[k] == mapped[q]);
                assert(mapped[q].1 == sp[q].1);
            }
        }
    }
}

/// Text inside a strikethrough span of the document: every piece that a text event adds
/// is struck through and underlined exactly when the text around the span is, and the end
/// of the span brings back the style from before it.
pub proof fn law_strikethrough_text(st: crate::inline::InlineState, t: String)
    ensures
        ({
            let st1 = crate::inline::inline_event(st, crate::markdown::MdEvent::Start(crate::markdown::MdTag::Strikethrough))->0;
            let st2 = crate::inline::inline_event(st1, crate::markdown::MdEvent::Text(t))->0;
            let st3 = crate::inline::inline_event(st2, crate::markdown::MdEvent::End(crate::markdown::MdTagEnd::Span))->0;
            &&& st2.segs.len() >= st.segs.len()
            &&& st2.segs.take(st.segs.len() as int) == st.segs
            &&& forall|k: int| st.segs.len() <= k < st2.segs.len() ==> (#[trigger] st2.segs[k]).1.strikethrough
                && st2.segs[k].1.underline == st.style.underline
            &&& st3.style == st.style
        }),
{
    let st1 = crate::inline::inline_event(st, crate::markdown::MdEvent::Start(crate::markdown::MdTag::Strikethrough))->0;
    let base = st1.style;
    assert(base.strikethrough && base.underline == st.style.underline);
    lemma_mark_spans_lines(t@, base);
    lemma_text_pieces_lines(crate::spans::mark_spans(t@, base), base);
    let st2 = crate::inline::inline_event(st1, crate::markdown::MdEvent::Text(t))->0;
    let add = crate::inline::text_pieces(crate::spans::mark_spans(t@, base));
    assert(st2.segs == st.segs + add);
    assert(st2.segs.take(st.segs.len() as int) =~= st.segs);
    assert forall|k: int| st.segs.len() <= k < st2.segs.len() implies (#[trigger] st2.segs[k]).1.strikethrough
        && st2.segs[k].1.underline == st.style.underline by {
        assert(st2.segs[k] == add[k - st.segs.len()]);
    }
    assert(st2.stack == st.stack.push(st.style));
}

/// A character that opens no inline markup in an editor line.
pub open spec fn inert(c: char) -> bool {
    c != '*' && c != '`' && c != '~' && c != '^' && c != '=' && c != '[' && c != '\\'
}

/// `n` tildes.
pub open spec fn tildes(n: int) -> Seq<char> {
    Seq::new(n as nat, |k: int| '~')
}

proof fn lemma_tilde_closer(t: Seq<char>, n: int, j: int)
    requires
        n == 1 || n == 2,
        t.len() >= 1,
        forall|k: int| 0 <= k < t.len() ==> inert(#[trigger] t[k]),
        n <= j <= n + t.len(),
    ensures
        crate::line::closer_from(tildes(n) + t + tildes(n), n, n + t.len() + n, '~', n, j) == Some(n + t.len()),
    decreases n + t.len() - j,
{
    let s = tildes(n) + t + tildes(n);
    let m = t.len() as int;
    if j < n + m {
        assert(s[j] == t[j - n]);
        assert(inert(t[j - n]));
        lemma_tilde_closer(t, n, j + 1);
    } else {
        assert(s[j] == '~');
        if n == 1 {
            assert(s[j - 1] == t[m - 1]);
            assert(inert(t[m - 1]));
        } else {
            assert(s[j + 1] == '~');
        }
    }
}

/// In an editor line, text between a closed pair of double tildes is shown without the
/// tildes as one struck-through run, and text between single tildes as one subscript run
/// (the text holding no other markup).
pub proof fn law_tilde_spans(p: ParsedLine, t: Seq<char>, n: int)
    requires
        n == 1 || n == 2,
        t.len() > 0,
        forall|k: int| 0 <= k < t.len() ==> inert(#[trigger] t[k]),
        parsed_ok(p, tildes(n) + t + tildes(n), false),
    ensures
        p.display@ == t,
        p.segs@.len() == 1,
        p.segs@[0].text@ == t,
        p.segs@[0].style == (if n == 2 { crate::line::TextStyle::Strike } else { crate::line::TextStyle::Subscript }),
{
    let s = tildes(n) + t + tildes(n);
    let hi = s.len() as int;
    let m = t.len() as int;
    assert forall|k: int| n <= k < n + m implies inert(#[trigger] s[k]) by {
        assert(s[k] == t[k - n]);
    }
    assert(s[0] == '~');
    assert(s[n] == t[0]);
    assert(inert(s[n]));
    if n == 2 {
        assert(s[1] == '~');
    }
    crate::text::lemma_ws_run(s, 0);
    crate::text::lemma_run_of(s, 0, '#');
    crate::text::lemma_digit_run(s, 0);
    assert(crate::text::lead_ws(s) == 0) by {
        assert(!crate::text::is_ws(s[0]));
    }
    assert(crate::text::run_of(s, 0, '#') == 0);
    assert(crate::text::digit_run(s, 0) == 0);
    assert(detect(s) == (LineStyle::Plain, 0int));
    lemma_tilde_closer(t, n, n);
    assert(crate::line::open_len_at(s, 0, hi) == n);
    assert(crate::line::emph_ok(s, 0, hi));
    let j = n + m;
    assert forall|k: int| n <= k < j implies #[trigger] plain_at(s, k, j) by {
        assert(inert(s[k]));
        assert(crate::line::open_len_at(s, k, j) == 0);
    }
    lemma_scan_plain(s, n, j, n, empty_out());
    let inner = parse_into(s, n, j, empty_out());
    assert(s.subrange(n, j) =~= t);
    assert(inner.0 =~= t);
    assert(inner.2 =~= seq![(t, crate::line::TextStyle::Plain)]);
    let st = crate::line::style_for('~', n);
    assert(!(exists|q: int| 0 <= q < inner.2.len() && inner.2[q].1 == crate::line::TextStyle::Italic));
    assert(crate::line::restyle(inner.2, st) =~= seq![(t, st)]);
    let o1 = crate::line::flush_out(s, 0, 0, empty_out());
    assert(o1.0 =~= Seq::<char>::empty());
    assert(o1.2 =~= Seq::<(Seq<char>, crate::line::TextStyle)>::empty());
    let o = parse_into(s, 0, hi, empty_out());
    assert(crate::line::closer_from(s, n, hi, s[0], n, n) == Some(j));
    let o2 = (o1.0 + inner.0, o1.1 + inner.1, o1.2 + crate::line::restyle(inner.2, crate::line::style_for(s[0], n)));
    assert(!(s[0] == '\\' && 1 < hi));
    assert(!(s[0] == '[' && crate::line::link_ok(s, 0, hi)));
    assert(crate::line::scan(s, 0, hi, 0, 0, empty_out()) == crate::line::scan(s, 0, hi, j + n, j + n, o2));
    assert(j + n == hi);
    assert(crate::line::scan(s, 0, hi, hi, hi, o2) == crate::line::flush_out(s, hi, hi, o2));
    assert(o == crate::line::flush_out(s, hi, hi, o2));
    assert(o.0 =~= t);
    assert(o.2 =~= seq![(t, st)]);
}

/// The tag name `h` followed by a digit 1 to 6 names a heading of that level.
proof fn lemma_heading_kind(d: char)
    requires
        '1' <= d <= '6',
    ensures
        crate::html2md::kind_of(seq!['h', d]) == crate::html2md::TagKind::Heading((d as u32 - 48) as u8),
{
    reveal_strlit("br");
    reveal_strlit("strong");
    reveal_strlit("b");
    reveal_strlit("em");
    reveal_strlit("i");
    reveal_strlit("del");
    reveal_strlit("s");
    reveal_strlit("strike");
    reveal_strlit("code");
    reveal_strlit("mark");
    reveal_strlit("sub");
    reveal_strlit("sup");
    reveal_strlit("u");
    reveal_strlit("a");
    reveal_strlit("img");
    reveal_strlit("p");
    reveal_strlit("div");
    reveal_strlit("section");
    reveal_strlit("article");
    reveal_strlit("span");
    reveal_strlit("font");
    reveal_strlit("center");
    reveal_strlit("h1");
    reveal_strlit("h2");
    reveal_strlit("h3");
    reveal_strlit("h4");
    reveal_strlit("h5");
    reveal_strlit("h6");
    let n = seq!['h', d];
    assert(n.len() == 2 && n[0] == 'h' && n[1] == d);
    assert(n != "br"@ && n != "em"@) by {
        assert("br"@[0] != n[0] && "em"@[0] != n[0]);
    }
    assert(n.len() != "strong"@.len() && n.len() != "b"@.len() && n.len() != "i"@.len());
    assert(n.len() != "del"@.len() && n.len() != "s"@.len() && n.len() != "strike"@.len());
    assert(n.len() != "code"@.len() && n.len() != "mark"@.len() && n.len() != "sub"@.len());
    assert(n.len() != "sup"@.len() && n.len() != "u"@.len() && n.len() != "a"@.len());
    assert(n.len() != "img"@.len() && n.len() != "p"@.len() && n.len() != "div"@.len());
    assert(n.len() != "section"@.len() && n.len() != "article"@.len() && n.len() != "span"@.len());
    assert(n.len() != "font"@.len() && n.len() != "center"@.len());
    if d == '1' {
        assert(n =~= "h1"@);
    } else if d == '2' {
        assert(n != "h1"@) by { assert("h1"@[1] != n[1]); }
        assert(n =~= "h2"@);
    } else if d == '3' {
        assert(n != "h1"@ && n != "h2"@) by { assert("h1"@[1] != n[1] && "h2"@[1] != n[1]); }
        assert(n =~= "h3"@);
    } else if d == '4' {
        assert(n != "h1"@ && n != "h2"@ && n != "h3"@) by {
            assert("h1"@[1] != n[1] && "h2"@[1] != n[1] && "h3"@[1] != n[1]);
        }
        assert(n =~= "h4"@);
    } else if d == '5' {
        assert(n != "h1"@ && n != "h2"@ && n != "h3"@ && n != "h4"@) by {
            assert("h1"@[1] != n[1] && "h2"@[1] != n[1] && "h3"@[1] != n[1] && "h4"@[1] != n[1]);
        }
        assert(n =~= "h5"@);
    } else {
        assert(n != "h1"@ && n != "h2"@ && n != "h3"@ && n != "h4"@ && n != "h5"@) by {
            assert("h1"@[1] != n[1] && "h2"@[1] != n[1] && "h3"@[1] != n[1] && "h4"@[1] != n[1]);
            assert("h5"@[1] != n[1]);
        }
        assert(n =~= "h6"@);
    }
}

/// An opening heading tag `<hN>` (N from 1 to 6, `h` in either case) in block context
/// writes a line of exactly N `#` characters, a space and the trimmed content up to the
/// closing tag, then a blank line, and the block loop goes on after the content.
pub proof fn law_heading_step(s: Seq<char>, i: int, depth: nat, out: Seq<char>)
    requires
        0 <= i,
        i + 3 < s.len(),
        s[i] == '<',
        s[i + 1] == 'h' || s[i + 1] == 'H',
        '1' <= s[i + 2] <= '6',
        s[i + 3] == '>',
    ensures
        ({
            let n = s[i + 2] as int - 48;
            let r = crate::html2md::inline_at(s, i + 4);
            crate::html2md::block_step(s, i, depth, out) == (
                crate::html2md::sep(out) + Seq::new(n as nat, |q: int| '#') + " "@ + crate::text::trim(r.0) + "\n\n"@,
                crate::html2md::clamp(r.1, i + 4, s.len() as int),
                false,
            )
        }),
{
    let d = s[i + 2];
    assert(!crate::html2md::ws_b(s[i + 1]));
    assert(!crate::html2md::ws_b(d));
    assert(crate::html2md::name_end(s, i + 3) == i + 3);
    assert(crate::html2md::name_end(s, i + 2) == i + 3);
    assert(crate::html2md::name_end(s, i + 1) == i + 3);
    assert(crate::html2md::char_from(s, i + 3, '>') == i + 3);
    let t = crate::html2md::tag_at(s, i);
    assert(crate::html2md::lower_s(s.subrange(i + 1, i + 3)) =~= seq!['h', d]);
    assert(t.0 == seq!['h', d]);
    assert(!t.1);
    assert(t.3 == i + 4);
    lemma_heading_kind(d);
    let k = crate::html2md::kind_of(t.0);
    assert(k == crate::html2md::TagKind::Heading((d as u32 - 48) as u8));
    assert(k->0 as int == d as int - 48);
}


proof fn lemma_char_from_at(s: Seq<char>, i: int, j: int, c: char)
    requires
        0 <= i <= j <= s.len(),
        forall|k: int| i <= k < j ==> s[k] != c,
        j == s.len() || s[j] == c,
    ensures
        crate::html2md::char_from(s, i, c) == j,
    decreases j - i,
{
    if i < j {
        lemma_char_from_at(s, i + 1, j, c);
    }
}

proof fn lemma_decode_plain(t: Seq<char>, ext: bool)
    requires
        forall|k: int| 0 <= k < t.len() ==> t[k] != '&',
    ensures
        crate::html2md::decode(t, ext) == t,
{
    crate::text::lemma_first_from(t, 0, t.len() as int, '&');
}

/// `s` split at its line breaks, for a line `l` without one followed by two breaks.
proof fn lemma_split_two_breaks(l: Seq<char>)
    requires
        forall|k: int| 0 <= k < l.len() ==> l[k] != '\n',
    ensures
        crate::text::split_lines(l + "\n\n"@) == seq![l, Seq::<char>::empty(), Seq::<char>::empty()],
{
    reveal_strlit("\n\n");
    let x = l + "\n\n"@;
    let n = l.len() as int;
    assert(x[n] == '\n');
    crate::text::lemma_first_from(x, 0, x.len() as int, '\n');
    let f = crate::text::first_from(x, 0, x.len() as int, '\n');
    assert(f == Some(n)) by {
        if let Some(k) = f {
            if k < n {
                assert(x[k] == l[k]);
            }
        }
    }
    assert(x.take(n) =~= l);
    let y = x.skip(n + 1);
    assert(y =~= seq!['\n']);
    crate::text::lemma_first_from(y, 0, y.len() as int, '\n');
    assert(crate::text::first_from(y, 0, y.len() as int, '\n') == Some(0int));
    assert(y.take(0) =~= Seq::<char>::empty());
    let z = y.skip(1);
    assert(z =~= Seq::<char>::empty());
    assert(crate::text::first_from(z, 0, z.len() as int, '\n') is None);
    assert(crate::text::split_lines(z) == seq![z]);
    assert(crate::text::split_lines(y) == seq![Seq::<char>::empty()] + seq![z]);
    assert(crate::text::split_lines(x) =~= seq![l] + crate::text::split_lines(y));
}

/// A line that starts and ends with a character that is not whitespace is its own trim.
proof fn lemma_trim_solid(l: Seq<char>)
    requires
        l.len() > 0,
        !crate::text::is_ws(l[0]),
        !crate::text::is_ws(l[l.len() - 1]),
    ensures
        crate::text::trim(l) == l,
        crate::text::trim_end(l) == l,
{
    assert(crate::text::ws_run(l, 0) == 0);
    assert(crate::text::trim_start(l) =~= l);
    assert(crate::text::trail_ws(l, l.len() as int) == 0);
    assert(crate::text::trim_end(l) =~= l);
}

/// The trim of `t`, when it is not empty, starts and ends with a character that is not
/// whitespace and is made of characters of `t`.
proof fn lemma_trim_parts(t: Seq<char>)
    requires
        crate::text::trim(t).len() > 0,
    ensures
        !crate::text::is_ws(crate::text::trim(t)[0]),
        !crate::text::is_ws(crate::text::trim(t)[crate::text::trim(t).len() - 1]),
        forall|k: int| 0 <= k < crate::text::trim(t).len() ==> t.contains(#[trigger] crate::text::trim(t)[k]),
{
    let a = crate::text::lead_ws(t);
    crate::text::lemma_ws_run(t, 0);
    let u = t.skip(a);
    crate::text::lemma_trail_ws(u, u.len() as int);
    let m = u.len() - crate::text::trail_ws(u, u.len() as int);
    let r = crate::text::trim(t);
    assert(r =~= u.take(m));
    assert(r[0] == t[a]);
    assert forall|k: int| 0 <= k < r.len() implies t.contains(#[trigger] r[k]) by {
        assert(r[k] == t[a + k]);
    }
}

/// `lower` leaves `<` and the characters that are not ASCII capitals as they are, and
/// gives `<` only for `<`.
proof fn lemma_lower_lt(c: char)
    ensures
        crate::html2md::lower(c) == '<' <==> c == '<',
        !('A' <= c <= 'Z') ==> crate::html2md::lower(c) == c,
{
}

/// Converting `<hN>text</hN>` (N from 1 to 6) gives one line: exactly N `#` characters, a
/// space and the trimmed text, then a line break.
pub proof fn law_html_heading(d: char, t: Seq<char>)
    requires
        '1' <= d <= '6',
        crate::text::trim(t).len() > 0,
        forall|k: int| 0 <= k < t.len() ==> t[k] != '<' && t[k] != '&' && t[k] != '\n',
    ensures
        crate::html2md::html_md(seq!['<', 'h', d, '>'] + t + seq!['<', '/', 'h', d, '>'])
            == Seq::new((d as int - 48) as nat, |q: int| '#') + " "@ + crate::text::trim(t) + "\n"@,
{
    reveal_strlit(" ");
    reveal_strlit("\n");
    reveal_strlit("<body");
    let open = seq!['<', 'h', d, '>'];
    let close = seq!['<', '/', 'h', d, '>'];
    let s = open + t + close;
    let e = 4 + t.len() as int;
    let len = s.len() as int;
    assert(len == e + 5);
    assert forall|k: int| 4 <= k < e implies s[k] == t[k - 4] by {}
    assert(s[0] == '<' && s[1] == 'h' && s[2] == d && s[3] == '>');
    assert(s[e] == '<' && s[e + 1] == '/' && s[e + 2] == 'h' && s[e + 3] == d && s[e + 4] == '>');
    let tt = crate::text::trim(t);
    lemma_trim_parts(t);
    assert(t.len() > 0) by {
        if t.len() == 0 {
            assert(crate::text::lead_ws(t) == 0);
        }
    }
    // The body is the whole input.
    let low = crate::html2md::lower_s(s);
    crate::text::lemma_find_from(low, 0, "<body"@);
    assert(crate::text::find_from(low, 0, "<body"@) is None) by {
        if let Some(k) = crate::text::find_from(low, 0, "<body"@) {
            assert(low.subrange(k, k + 5) == "<body"@);
            assert(low[k] == "<body"@[0] && low[k + 1] == "<body"@[1]);
            lemma_lower_lt(s[k]);
            lemma_lower_lt(s[k + 1]);
            if 4 <= k < e {
                assert(s[k] == t[k - 4]);
            }
        }
    }
    assert(crate::html2md::body_of(s) == s);
    // The text up to the closing tag.
    lemma_char_from_at(s, 4, e, '<');
    assert(s.subrange(4, e) =~= t);
    lemma_decode_plain(t, false);
    assert(crate::html2md::name_end(s, e + 4) == e + 4);
    assert(crate::html2md::name_end(s, e + 3) == e + 4);
    assert(crate::html2md::name_end(s, e + 2) == e + 4);
    assert(crate::html2md::char_from(s, e + 4, '>') == e + 4);
    let tg = crate::html2md::tag_at(s, e);
    assert(s.subrange(e + 2, e + 4) =~= seq!['h', d]);
    assert(crate::html2md::lower_s(seq!['h', d]) =~= seq!['h', d]);
    assert(tg.0 == seq!['h', d]);
    assert(tg.1);
    assert(tg.3 == len);
    lemma_heading_kind(d);
    assert(crate::html2md::inline_loop(s, e, t) == (t, len));
    assert(crate::html2md::inline_loop(s, 4, Seq::empty()) == (t, len)) by {
        assert(Seq::<char>::empty() + t =~= t);
    }
    assert(crate::html2md::inline_at(s, 4) == (t, len));
    // The block loop.
    law_heading_step(s, 0, 0, Seq::empty());
    let hashes = Seq::new((d as int - 48) as nat, |q: int| '#');
    let l = hashes + " "@ + tt;
    let out = l + "\n\n"@;
    assert(crate::html2md::sep(Seq::empty()) == Seq::<char>::empty());
    assert(Seq::<char>::empty() + hashes + " "@ + tt + "\n\n"@ =~= out);
    assert(crate::html2md::ws_from(s, 0) == 0);
    assert(crate::html2md::ws_from(s, len) == len);
    assert(crate::html2md::blocks_loop(s, len, 0, out) == (out, len));
    assert(crate::html2md::blocks_loop(s, 0, 0, Seq::empty()).0 == out);
    // Tidying the lines.
    assert forall|k: int| 0 <= k < l.len() implies l[k] != '\n' by {
        if k >= hashes.len() + 1 {
            assert(l[k] == tt[k - hashes.len() - 1]);
            assert(t.contains(tt[k - hashes.len() - 1]));
        }
    }
    lemma_split_two_breaks(l);
    assert(hashes.len() >= 1);
    assert(l[0] == '#');
    assert(l[l.len() - 1] == tt[tt.len() - 1]);
    lemma_trim_solid(l);
    let em = Seq::<char>::empty();
    assert(crate::text::trim(em).len() == 0);
    let ls = seq![l, em, em];
    assert(ls.drop_last() =~= seq![l, em]);
    assert(seq![l, em].drop_last() =~= seq![l]);
    assert(seq![l].drop_last() =~= Seq::<Seq<char>>::empty());
    assert(crate::html2md::tidy(seq![l]) == (l + "\n"@, false)) by {
        assert(seq![l].last() == l);
        assert(crate::html2md::tidy(Seq::<Seq<char>>::empty()) == (Seq::<char>::empty(), false));
        assert(crate::text::trim(l).len() > 0);
        assert(Seq::<char>::empty() + l + "\n"@ =~= l + "\n"@);
    }
    assert(crate::html2md::tidy(seq![l, em]) == (l + "\n"@ + "\n"@, true));
    assert(crate::html2md::tidy(ls) == (l + "\n"@ + "\n"@, true));
    let u = l + "\n"@ + "\n"@;
    assert(crate::html2md::ends_nn(u));
    assert(u.drop_last() =~= l + "\n"@);
    assert(!crate::html2md::ends_nn(l + "\n"@));
    assert(crate::html2md::drop_nn(l + "\n"@) == l + "\n"@);
    assert(crate::html2md::drop_nn(u) == l + "\n"@);
}

} // verus!
