use mkd::editor::Editor;
use mkd::line::{parse_line, LineStyle, TextStyle};
use mkd::ops::Op;

#[test]
fn plain_line_map() {
    let p = parse_line("hello 世界", false);
    assert_eq!(p.display, "hello 世界");
    assert_eq!(p.map.len(), p.display.chars().count());
    assert_eq!(p.map[0], 0);
    assert_eq!(*p.map.last().unwrap(), 9);
}

#[test]
fn bold_removed_from_display() {
    let p = parse_line("**加粗** 和 *斜体*", false);
    assert_eq!(p.display, "加粗 和 斜体");
    assert_eq!(p.map[0], 2);
}

#[test]
fn heading_prefix() {
    let p = parse_line("## 标题", false);
    assert_eq!(p.line_style, LineStyle::Heading(2));
    assert_eq!(p.prefix_len, 3);
    assert_eq!(p.display, "标题");
}

#[test]
fn bullet_prefix() {
    let p = parse_line("- 项目", false);
    assert_eq!(p.line_style, LineStyle::Bullet);
    assert_eq!(p.prefix_len, 2);
    assert_eq!(p.display, "项目");
}

#[test]
fn code_span() {
    let p = parse_line("用 `x = 1` 表示", false);
    assert_eq!(p.display, "用 x = 1 表示");
    assert_eq!(p.map[2], 5);
}

#[test]
fn link_removed() {
    let p = parse_line("看[文档](https://a.b)", false);
    assert_eq!(p.display, "看文档");
}

#[test]
fn bold_italic_triple() {
    let p = parse_line("***粗斜体***", false);
    assert_eq!(p.display, "粗斜体");
    assert_eq!(p.segs[0].style, TextStyle::BoldItalic);
}

#[test]
fn mark_removed() {
    let p = parse_line("==重点==", false);
    assert_eq!(p.display, "重点");
}

#[test]
fn display_col_roundtrip() {
    let src = "**bold** text";
    let p = parse_line(src, false);
    let mut e = Editor::new(src);
    e.cursor_col = 4;
    assert_eq!(e.cursor_display_col(&p), 2);
    assert_eq!(e.source_col_for_display(0, 2), 4);
}

#[test]
fn insert_mid_bold() {
    let mut e = Editor::new("**bold**");
    e.cursor_col = 4;
    e.insert_text("X");
    assert_eq!(e.to_source(), "**boXld**");
    assert!(e.dirty);
}

#[test]
fn insert_newline_splits() {
    let mut e = Editor::new("ab\ncd");
    e.cursor_line = 0;
    e.cursor_col = 1;
    e.apply(&Op::Newline);
    assert_eq!(e.lines, vec!["a", "", "b", "cd"]);
    assert_eq!((e.cursor_line, e.cursor_col), (2, 0));
}

#[test]
fn backspace_joins_lines() {
    let mut e = Editor::new("abc\ndef");
    e.cursor_line = 1;
    e.cursor_col = 0;
    e.backspace();
    assert_eq!(e.to_source(), "abcdef");
    assert_eq!((e.cursor_line, e.cursor_col), (0, 3));
}

#[test]
fn selection_delete_and_text() {
    let mut e = Editor::new("hello world");
    e.sel_start = Some((0, 0));
    e.cursor_line = 0;
    e.cursor_col = 5;
    assert_eq!(e.selected_text().as_deref(), Some("hello"));
    e.delete_selection();
    assert_eq!(e.to_source(), " world");
}

#[test]
fn utf16_pos_roundtrip() {
    let e = Editor::new("你好\nworld");
    let (l, c) = e.pos_from_utf16(2);
    assert_eq!((l, c), (0, 6));
    let off = e.utf16_from_pos(1, 0);
    assert_eq!(off, 3);
}
