use mkd::editor::Editor;
use mkd::session::saved_source;
use mkd::text::{utf16_to_utf8, utf8_to_utf16};

#[test]
fn utf16_offsets_of_strings() {
    assert_eq!(utf8_to_utf16("a你b", 4), 2);
    assert_eq!(utf8_to_utf16("🚀x", 4), 2);
    assert_eq!(utf16_to_utf8("a你b", 2), 4);
    assert_eq!(utf16_to_utf8("🚀x", 1), 4);
    assert_eq!(utf16_to_utf8("ab", 10), 2);
}

#[test]
fn find_reports_every_occurrence() {
    let mut e = Editor::new("aaa\nab a\nx");
    e.find_all("a");
    assert_eq!(e.find_matches, vec![(0, 0), (0, 1), (0, 2), (1, 0), (1, 3)]);
    assert_eq!(e.find_len, 1);
    assert_eq!(e.find_index, 0);
    e.find_jump(-1, "a");
    assert_eq!(e.find_index, 4);
    assert_eq!((e.cursor_line, e.cursor_col), (1, 3));
    e.find_jump(2, "a");
    assert_eq!(e.find_index, 1);
    assert_eq!((e.cursor_line, e.cursor_col), (0, 1));
    e.find_all("");
    assert!(e.find_matches.is_empty());
    assert_eq!((e.find_len, e.find_index), (0, 0));
}

#[test]
fn find_index_kept_in_range() {
    let mut e = Editor::new("ab");
    e.find_index = 5;
    e.find_all("a");
    assert_eq!(e.find_matches, vec![(0, 0)]);
    assert_eq!(e.find_index, 0);
    e.find_index = 5;
    e.find_all("zz");
    assert!(e.find_matches.is_empty());
    assert_eq!(e.find_index, 0);
}

#[test]
fn find_in_multibyte_text() {
    let mut e = Editor::new("中a中\nx中");
    e.find_all("中");
    assert_eq!(e.find_matches, vec![(0, 0), (0, 2), (1, 1)]);
    e.find_jump(1, "中");
    assert_eq!((e.cursor_line, e.cursor_col), (0, 4));
    e.find_jump(1, "中");
    assert_eq!((e.cursor_line, e.cursor_col), (1, 1));
    e.find_all("aa");
    assert!(e.find_matches.is_empty());
    let mut f = Editor::new("aaaa");
    f.find_all("aa");
    assert_eq!(f.find_matches, vec![(0, 0), (0, 1), (0, 2)]);
}

#[test]
fn selection_queries() {
    let mut e = Editor::new("hello\nworld");
    e.sel_start = Some((0, 1));
    e.cursor_line = 1;
    e.cursor_col = 3;
    assert!(e.selection_query_safe());
    assert_eq!(e.selection_query().as_deref(), Some("ellowor"));
    let mut e2 = Editor::new("hello");
    e2.sel_start = Some((0, 0));
    e2.cursor_col = 3;
    assert_eq!(e2.selection_query().as_deref(), Some(""));
    e2.sel_start = Some((0, 2));
    e2.cursor_col = 4;
    assert!(!e2.selection_query_safe());
    e2.sel_start = None;
    assert_eq!(e2.selection_query(), None);
}

#[test]
fn save_keeps_final_newline() {
    assert_eq!(saved_source("a\n", "b"), "b\n");
    assert_eq!(saved_source("a", "b"), "b");
    assert_eq!(saved_source("a\n", "b\n"), "b\n");
    assert_eq!(saved_source("", ""), "");
}

#[test]
fn display_and_source_columns_round_trip() {
    let src = "## **粗** 和 `码`";
    let e = Editor::new(src);
    let p = mkd::line::parse_line(src, false);
    for d in 0..=p.map.len() {
        let s = e.source_col_for_display(0, d);
        assert_eq!(e.display_col_for_source(&p, s), d);
    }
}

#[test]
fn percent_decode_safety_check() {
    assert!(mkd::filedrop::percent_decode_safe("a%20b"));
    assert!(!mkd::filedrop::percent_decode_safe("%4\u{4e2d}"));
}
