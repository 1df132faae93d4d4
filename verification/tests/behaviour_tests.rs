use mkd::spans::emoji_step;
use mkd::editor::Editor;
use mkd::html2md::html_to_md;
use mkd::line::{parse_line, LineStyle};
use mkd::ops::{apply_pending_marks, BlockType, Direction, ListKind, Mark, Op};

fn editor(lines: &[&str], cursor: (usize, usize)) -> Editor {
    let mut e = Editor::new(&lines.join("\n"));
    e.cursor_line = cursor.0;
    e.cursor_col = cursor.1;
    e
}

fn lines_of(e: &Editor) -> Vec<&str> {
    e.lines.iter().map(|l| l.as_str()).collect()
}

#[test]
fn fence_line_map_points_into_the_line() {
    let p = parse_line("```rust", false);
    assert_eq!(p.line_style, LineStyle::Fence);
    assert_eq!(p.display, "rust");
    assert_eq!(p.map, vec![3, 4, 5, 6]);
}

#[test]
fn line_inside_fence_is_shown_as_written() {
    let p = parse_line("# comment", true);
    assert_eq!(p.line_style, LineStyle::CodeLine);
    assert_eq!(p.display, "# comment");
    assert_eq!(p.prefix_len, 0);
    assert_eq!(p.map, (0..9).collect::<Vec<usize>>());
    let q = parse_line("  - item", true);
    assert_eq!(q.display, "  - item");
    assert_eq!(q.prefix_len, 0);
}

#[test]
fn pending_marks_put_bold_outermost() {
    assert_eq!(apply_pending_marks("hi", &[Mark::Code, Mark::Bold]), "**`hi`**");
    assert_eq!(apply_pending_marks("hi", &[Mark::Bold, Mark::Code]), "**`hi`**");
    assert_eq!(apply_pending_marks("hi", &[Mark::Italic, Mark::Code]), "*`hi`*");
    assert_eq!(apply_pending_marks("hi", &[]), "hi");
}

#[test]
fn word_moves_keep_the_unsaved_mark() {
    let mut e = editor(&["hello world"], (0, 11));
    e.dirty = true;
    e.move_word_left();
    assert_eq!(e.cursor_col, 6);
    assert!(e.dirty);
    e.move_word_right();
    assert_eq!(e.cursor_col, 11);
    assert!(e.dirty);
    assert_eq!(lines_of(&e), vec!["hello world"]);
}

#[test]
fn line_end_forgets_the_remembered_column() {
    let mut e = editor(&["abcdef", "abcdef", "abcdef"], (0, 3));
    e.move_down(false);
    assert_eq!((e.cursor_line, e.cursor_col), (1, 3));
    e.move_end(false);
    assert_eq!((e.cursor_line, e.cursor_col), (1, 6));
    assert!(e.stick_col.is_none());
    e.move_down(false);
    assert_eq!((e.cursor_line, e.cursor_col), (2, 6));
    e.move_home(false);
    assert!(e.stick_col.is_none());
}

#[test]
fn table_cells_keep_their_text() {
    let md = html_to_md("<table><tr><td>x</td></tr></table>");
    assert!(md.contains('x'), "{md:?}");
    let md2 = html_to_md("<p>a</p><table><tr><td>one</td><td>two</td></tr></table><p>b</p>");
    assert!(md2.contains("one") && md2.contains("two") && md2.contains('a') && md2.contains('b'), "{md2:?}");
}

#[test]
fn attribute_values_keep_their_case() {
    let md = html_to_md(r#"<p><a HREF="https://X.com/Path">x</a></p>"#);
    assert!(md.contains("[x](https://X.com/Path)"), "{md:?}");
    let md2 = html_to_md(r#"<p><img SRC='A.PNG' alt="Big Cat"></p>"#);
    assert!(md2.contains("A.PNG") && md2.contains("Big Cat"), "{md2:?}");
}

#[test]
fn backspace_deletes_a_selection_before_markers() {
    let mut e = editor(&["a**"], (0, 3));
    e.sel_start = Some((0, 0));
    e.apply(&Op::Backspace);
    assert_eq!(lines_of(&e), vec![""]);
    assert_eq!((e.cursor_line, e.cursor_col), (0, 0));
    assert!(e.sel_start.is_none());
}

#[test]
fn undoing_a_list_rule_keeps_the_cursor_on_the_line() {
    let mut e = Editor::new("");
    e.apply(&Op::Type("- ".to_string()));
    e.apply(&Op::Type("   ".to_string()));
    assert_eq!(lines_of(&e), vec!["-    "]);
    assert_eq!(e.cursor_col, 5);
    e.apply(&Op::Backspace);
    assert_eq!(lines_of(&e), vec![""]);
    assert_eq!(e.cursor_col, 0);
    e.apply(&Op::Type("x".to_string()));
    assert_eq!(lines_of(&e), vec!["x"]);
}

#[test]
fn backspace_after_multibyte_text() {
    let mut e = editor(&["你好"], (0, 6));
    e.apply(&Op::Backspace);
    assert_eq!(lines_of(&e), vec!["你"]);
    assert_eq!(e.cursor_col, 3);
}

#[test]
fn enter_inside_a_fence_only_splits() {
    let mut e = editor(&["```", "let x", "```"], (1, 3));
    e.apply(&Op::Newline);
    assert_eq!(lines_of(&e), vec!["```", "let", " x", "```"]);
    assert_eq!((e.cursor_line, e.cursor_col), (2, 0));
    let mut f = editor(&["```", "- item", "```"], (1, 6));
    f.apply(&Op::Newline);
    assert_eq!(lines_of(&f), vec!["```", "- item", "", "```"]);
}

#[test]
fn ordered_list_keeps_its_delimiter() {
    let mut e = editor(&["1) item"], (0, 7));
    e.apply(&Op::Newline);
    assert_eq!(lines_of(&e), vec!["1) item", "2) "]);
    assert_eq!((e.cursor_line, e.cursor_col), (1, 3));
    let mut f = editor(&["  3) a"], (0, 6));
    f.apply(&Op::Newline);
    assert_eq!(lines_of(&f), vec!["  3) a", "  4) "]);
    let mut g = editor(&["1. item"], (0, 7));
    g.apply(&Op::Newline);
    assert_eq!(lines_of(&g), vec!["1. item", "2. "]);
}

#[test]
fn wrapping_a_selection_as_a_list_keeps_whole_lines() {
    let mut e = editor(&["xa", "by"], (1, 1));
    e.sel_start = Some((0, 1));
    e.apply(&Op::WrapList(ListKind::Bullet));
    assert_eq!(lines_of(&e), vec!["- xa", "- by"]);
    assert_eq!((e.cursor_line, e.cursor_col), (1, 4));
    let mut f = editor(&["top", "a", "b", "end"], (2, 1));
    f.sel_start = Some((1, 0));
    f.apply(&Op::WrapList(ListKind::Ordered));
    assert_eq!(lines_of(&f), vec!["top", "1. a", "2. b", "end"]);
    let mut g = editor(&["one", "two", "three"], (1, 0));
    g.sel_start = Some((0, 1));
    g.apply(&Op::WrapList(ListKind::Bullet));
    assert_eq!(lines_of(&g), vec!["- one", "two", "three"]);
}

#[test]
fn paragraph_type_keeps_the_indentation() {
    let mut e = editor(&["  - item"], (0, 8));
    e.apply(&Op::SetBlockType(BlockType::Paragraph));
    assert_eq!(lines_of(&e), vec!["  item"]);
    let mut f = editor(&["## title"], (0, 8));
    f.apply(&Op::SetBlockType(BlockType::Paragraph));
    assert_eq!(lines_of(&f), vec!["title"]);
}

#[test]
fn second_ctrl_w_deletes_the_previous_word() {
    let mut e = editor(&["hello world"], (0, 11));
    e.apply(&Op::DeleteWordBack);
    assert_eq!(lines_of(&e), vec!["hello "]);
    e.apply(&Op::DeleteWordBack);
    assert_eq!(lines_of(&e), vec![""]);
    assert_eq!(e.cursor_col, 0);
}

#[test]
fn double_click_stops_before_a_closing_marker() {
    let mut e = editor(&["hello **world**"], (0, 0));
    e.select_word_at(0, 8);
    assert_eq!(e.selected_text().unwrap(), "world");
}

#[test]
fn marking_a_multi_line_selection_keeps_lines_apart() {
    let mut e = editor(&["ab", "cd"], (1, 1));
    e.sel_start = Some((0, 1));
    e.apply(&Op::ToggleMark(Mark::Bold));
    assert_eq!(lines_of(&e), vec!["a**b", "c**d"]);
    assert!(e.lines.iter().all(|l| !l.contains('\n')));
    assert_eq!((e.cursor_line, e.cursor_col), (1, 3));
    let mut f = editor(&["ab", "cd"], (1, 1));
    f.sel_start = Some((0, 1));
    f.apply(&Op::InsertLink);
    assert_eq!(lines_of(&f), vec!["a[b", "c](url)d"]);
    assert_eq!((f.cursor_line, f.cursor_col), (1, 6));
}

#[test]
fn block_edits_with_a_selection_drop_it() {
    let mut e = editor(&["abc", "def"], (1, 2));
    e.sel_start = Some((0, 1));
    e.apply(&Op::DeleteToLineEnd);
    assert_eq!(lines_of(&e), vec!["abc", "de"]);
    assert!(e.sel_start.is_none());
    let mut f = editor(&["abc"], (0, 2));
    f.sel_start = Some((0, 3));
    f.apply(&Op::DeleteToLineStart);
    assert_eq!(lines_of(&f), vec!["c"]);
    assert!(f.sel_start.is_none());
}

#[test]
fn moving_lines_into_a_later_line() {
    let mut e = editor(&["ab", "cdef"], (0, 0));
    e.apply(&Op::MoveRange { from: (0, 0, 1, 2), to: (1, 3), copy: false });
    assert_eq!(lines_of(&e), vec!["eab", "cdf"]);
    assert_eq!(e.cursor_line, 1);
    let mut f = editor(&["ab", "cd", "ef"], (0, 0));
    f.apply(&Op::MoveRange { from: (0, 0, 1, 2), to: (2, 1), copy: false });
    assert_eq!(lines_of(&f), vec!["", "eab", "cdf"]);
}

#[test]
fn vertical_moves_through_a_fence_land_on_boundaries() {
    let mut e = editor(&["中文字", "```rust", "x"], (0, 9));
    e.move_down(false);
    e.move_down(false);
    e.move_up(false);
    let l = &e.lines[e.cursor_line];
    assert!(l.is_char_boundary(e.cursor_col));
    e.apply(&Op::Type("z".to_string()));
}

#[test]
fn ordered_list_after_multibyte_text_and_large_numbers() {
    let mut e = editor(&["9. 中"], (0, 6));
    e.apply(&Op::Newline);
    assert_eq!(lines_of(&e), vec!["9. 中", "10. "]);
    let mut f = editor(&["18446744073709551615. x"], (0, 23));
    f.apply(&Op::Newline);
    assert_eq!(lines_of(&f), vec!["18446744073709551615. x", "18446744073709551616. "]);
}

#[test]
fn every_operation_keeps_the_line_model() {
    let mut e = editor(&["- a", "```", "# b", "```", "1) c"], (4, 4));
    e.sel_start = Some((0, 1));
    let ops = vec![
        Op::ToggleMark(Mark::Strike),
        Op::Move(Direction::Up, false),
        Op::Move(Direction::Down, true),
        Op::InsertLink,
        Op::SetBlockType(BlockType::Quote),
        Op::WrapList(ListKind::Task),
        Op::Newline,
        Op::Backspace,
        Op::Undo,
        Op::Redo,
    ];
    for op in ops {
        e.apply(&op);
        assert!(e.is_valid(), "{op:?}");
    }
}

#[test]
fn unclosed_markers_are_shown_as_written() {
    assert_eq!(parse_line("**abc", false).display, "**abc");
    assert_eq!(parse_line("*a `b ~~c", false).display, "*a `b ~~c");
    assert_eq!(parse_line("- [x y", false).display, "[x y");
}

#[test]
fn unclosed_markers_from_the_spec_examples() {
    assert_eq!(parse_line("**bold", false).display, "**bold");
    assert_eq!(parse_line("`code", false).display, "`code");
    assert_eq!(parse_line("[text](url", false).display, "[text](url");
}

#[test]
fn typing_joins_the_undo_step_only_inside_the_window() {
    let mut e = Editor::new("");
    e.apply_after(&Op::Type("a".to_string()), None);
    assert_eq!(e.undo_depth(), 1);
    e.apply_after(&Op::Type("b".to_string()), Some(1199));
    assert_eq!(e.undo_depth(), 1);
    e.apply_after(&Op::Type("c".to_string()), Some(1200));
    assert_eq!(e.undo_depth(), 2);
    assert_eq!(lines_of(&e), vec!["abc"]);
    e.apply_after(&Op::Undo, Some(5));
    assert_eq!(lines_of(&e), vec!["ab"]);
}

#[test]
fn undo_then_redo_restores_both_states() {
    let mut e = editor(&["hello"], (0, 5));
    let s0 = e.snapshot();
    e.apply(&Op::Newline);
    let s1 = e.snapshot();
    e.apply(&Op::Undo);
    assert_eq!(e.snapshot(), s0);
    assert!(e.dirty);
    e.apply(&Op::Redo);
    assert_eq!(e.snapshot(), s1);
}

#[test]
fn moves_keep_the_history_depths() {
    let mut e = editor(&["ab", "cd"], (0, 0));
    e.apply(&Op::Type("x".to_string()));
    e.apply(&Op::Newline);
    let (u, r) = (e.undo_depth(), e.redo_depth());
    e.apply(&Op::Move(Direction::Down, true));
    e.apply(&Op::SelectAll);
    assert_eq!((e.undo_depth(), e.redo_depth()), (u, r));
}

#[test]
fn utf16_positions_round_trip() {
    let e = Editor::new("你好\nworld");
    assert_eq!(e.pos_from_utf16(2), (0, 6));
    assert_eq!(e.utf16_from_pos(1, 0), 3);
    for (l, c) in [(0, 0), (0, 3), (0, 6), (1, 0), (1, 5)] {
        assert_eq!(e.pos_from_utf16(e.utf16_from_pos(l, c)), (l, c));
    }
}

#[test]
fn code_block_rows_and_header() {
    let rows = mkd::codeblock::code_rows("a\nb\nc\nd", &[(2, 3)]);
    let flags: Vec<bool> = rows.iter().map(|r| r.1).collect();
    assert_eq!(flags, vec![false, true, true, false]);
    assert_eq!(rows[3].0, "d");
    assert_eq!(mkd::codeblock::code_rows("x", &[]), vec![("x".to_string(), false)]);
    assert_eq!(mkd::codeblock::code_header(&Some("T".to_string()), "rs"), Some("T".to_string()));
    assert_eq!(mkd::codeblock::code_header(&None, "rs"), Some("rs".to_string()));
    assert_eq!(mkd::codeblock::code_header(&None, ""), None);
}

#[test]
fn emoji_steps_with_given_lookups() {
    assert_eq!(emoji_step("a :x: b", Some("X".to_string())), ("a X".to_string(), " b".to_string()));
    assert_eq!(emoji_step("a :x: b", None), ("a :".to_string(), "x: b".to_string()));
    assert_eq!(emoji_step("a :x y: b", Some("X".to_string())), ("a :".to_string(), "x y: b".to_string()));
    assert_eq!(emoji_step("no colon", None), ("no colon".to_string(), String::new()));
}

#[test]
fn html_to_md_has_a_tidy_shape() {
    for html in ["<p>a</p><p></p><br><br><br><p>b  </p>", "<h1>x</h1>\n\n\n<ul><li>y</li></ul>", ""] {
        let r = html_to_md(html);
        assert!(!r.starts_with('\n'), "{r:?}");
        assert!(!r.contains("\n\n\n"), "{r:?}");
        assert!(!r.ends_with("\n\n"), "{r:?}");
        assert!(r.is_empty() || r.ends_with('\n'), "{r:?}");
        assert!(r.lines().all(|l| l.is_empty() || !l.trim().is_empty()), "{r:?}");
    }
}

#[test]
fn pending_marks_grow_the_text_by_their_delimiters() {
    let r = apply_pending_marks("hi", &[Mark::Strike, Mark::Bold, Mark::Italic]);
    assert_eq!(r, "**~~*hi*~~**");
    assert_eq!(r.len(), 2 + 2 * (2 + 2 + 1));
}
