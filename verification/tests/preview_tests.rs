use mkd::document::{build_document, parse_document, parse_document_with};
use mkd::filedrop;
use mkd::markdown::{Block, InlineStyle, MdEvent, MdTag, MdTagEnd};
use mkd::preprocess::{preprocess, resolve_path, Preprocessed, SourceFile};
use mkd::spans::{replace_emoji, split_mark, split_supsub};
use mkd::urls::{percent_decode, url_to_path};
use mkd::vitepress::{
    decode_entities, extract_attrs, html_to_text, is_list_item_line, parse_code_info,
    parse_container_tag, parse_import_spec, parse_line_ranges, tokenize_info, unquote,
};

fn file(path: &str, content: Option<&str>, ext: &str) -> SourceFile {
    SourceFile {
        path: path.to_string(),
        content: content.map(|c| c.to_string()),
        ext: ext.to_string(),
    }
}

#[test]
fn list_item_lines() {
    assert!(is_list_item_line("- x"));
    assert!(is_list_item_line("*\tx"));
    assert!(is_list_item_line("12. a"));
    assert!(is_list_item_line("1) b"));
    assert!(!is_list_item_line("-x"));
    assert!(!is_list_item_line("12.a"));
    assert!(!is_list_item_line("1"));
    assert!(!is_list_item_line("a. b"));
    assert!(!is_list_item_line(""));
}

#[test]
fn unquote_strips_one_pair_each() {
    assert_eq!(unquote("  \"hi\"  "), "hi");
    assert_eq!(unquote("'a'"), "a");
    assert_eq!(unquote("\"'x'\""), "x");
    assert_eq!(unquote("\""), "");
}

#[test]
fn info_tokens_keep_quoted_spaces() {
    assert_eq!(
        tokenize_info("js {1,3-5}  title=\"a b\"\t:line-numbers"),
        vec!["js", "{1,3-5}", "title=\"a b\"", ":line-numbers"]
    );
    assert!(tokenize_info("   ").is_empty());
}

#[test]
fn line_ranges_parts() {
    assert_eq!(parse_line_ranges("1,3-5,8"), vec![(1, 1), (3, 5), (8, 8)]);
    assert_eq!(parse_line_ranges(" 2 , x, 0, 5-3, 4-"), vec![(2, 2), (4, 4)]);
    assert_eq!(parse_line_ranges("+7"), vec![(7, 7)]);
    assert!(parse_line_ranges("").is_empty());
}

#[test]
fn import_spec_parts() {
    assert_eq!(
        parse_import_spec("@/snippets/a.js{2,4-5} title=\"Demo\""),
        ("@/snippets/a.js".to_string(), vec![(2, 2), (4, 5)], Some("Demo".to_string()))
    );
    assert_eq!(parse_import_spec("foo.rs"), ("foo.rs".to_string(), vec![], None));
}

#[test]
fn code_info_settings() {
    let ci = parse_code_info("ts {1,3-5} :line-numbers title=\"x.ts\" extra");
    assert_eq!(ci.lang, "ts");
    assert_eq!(ci.highlight, vec![(1, 1), (3, 5)]);
    assert!(ci.line_numbers);
    assert_eq!(ci.title.as_deref(), Some("x.ts"));
    let plain = parse_code_info("");
    assert_eq!(plain.lang, "");
    assert!(!plain.line_numbers);
}

#[test]
fn attributes_of_marker() {
    let tag = "<vp-container type=\"tip\" title='Hi there'>";
    assert_eq!(
        extract_attrs(tag),
        vec![
            ("type".to_string(), "tip".to_string()),
            ("title".to_string(), "Hi there".to_string())
        ]
    );
    assert_eq!(parse_container_tag(tag), ("tip".to_string(), Some("Hi there".to_string())));
    assert_eq!(parse_container_tag("<x a=\"1\" b=unquoted>"), (String::new(), None));
}

#[test]
fn html_text_breaks_and_entities() {
    assert_eq!(html_to_text("<p>a &amp; b</p><br/>c"), "\na & b\n\nc");
    assert_eq!(html_to_text("<SPAN>x</SPAN><DIV class=\"k\">y"), "x\ny");
}

#[test]
fn entities_typographic_and_numeric() {
    assert_eq!(decode_entities("&hellip; &#x41;&#66; &bogus; &"), "\u{2026} AB &bogus; &");
    assert_eq!(decode_entities("&mdash;&ndash;&copy;&reg;&times;&divide;&nbsp;"), "\u{2014}\u{2013}\u{a9}\u{ae}\u{d7}\u{f7} ");
    assert_eq!(decode_entities("&#xD800;"), "&#xD800;");
}

#[test]
fn emoji_shortcodes_replaced() {
    assert_eq!(replace_emoji(":rocket: and :notanemoji: x:y"), "\u{1f680} and :notanemoji: x:y");
    assert_eq!(replace_emoji("no colon"), "no colon");
}

#[test]
fn mark_and_supsub_spans() {
    let plain = InlineStyle::default();
    let m = split_mark("a ==b== c", plain);
    assert_eq!(m.len(), 3);
    assert_eq!(m[0], ("a ".to_string(), plain));
    assert_eq!(m[1].0, "b");
    assert!(m[1].1.background.is_some());
    assert_eq!(m[2], (" c".to_string(), plain));
    let s = split_supsub("x^2^ y~~z", plain);
    assert_eq!(s.len(), 3);
    assert_eq!(s[0], ("x".to_string(), plain));
    assert_eq!(s[1].0, "2");
    assert!(s[1].1.italic);
    assert_eq!(s[1].1.fade, Some(25));
    assert_eq!(s[2], (" y~~z".to_string(), plain));
}

#[test]
fn preprocess_asks_for_files_then_includes() {
    let src = "<!--@include: ./part.md-->\n<<< @/a.js{2}\n";
    let none: Vec<SourceFile> = Vec::new();
    assert_eq!(preprocess(src, true, &none, 0), Preprocessed::NeedsFile("part.md".to_string()));
    let one = vec![file("part.md", Some("hello\n"), "md")];
    assert_eq!(preprocess(src, true, &one, 0), Preprocessed::NeedsFile("a.js".to_string()));
    let both = vec![file("part.md", Some("hello\n"), "md"), file("a.js", Some("l1\nl2\nl3\n"), "js")];
    assert_eq!(
        preprocess(src, true, &both, 0),
        Preprocessed::Done("hello\n\n```js\nl2\n```\n".to_string())
    );
    let doc = parse_document_with(src, &both).unwrap();
    assert!(matches!(doc.blocks.as_slice(), [Block::Paragraph { .. }, Block::Code { lang, text, .. }] if lang == "js" && text == "l2\n"));
    assert_eq!(parse_document_with(src, &none).err(), Some("part.md".to_string()));
}

#[test]
fn preprocess_unreadable_file_keeps_line() {
    let src = "<<< ./gone.txt\n";
    let files = vec![file("gone.txt", None, "txt")];
    assert_eq!(preprocess(src, true, &files, 0), Preprocessed::Done("<<< ./gone.txt\n".to_string()));
    assert_eq!(preprocess(src, false, &Vec::new(), 0), Preprocessed::Done("<<< ./gone.txt\n".to_string()));
}

#[test]
fn preprocess_depth_limit() {
    assert_eq!(preprocess("x\n", false, &Vec::new(), 11), Preprocessed::Done(String::new()));
    let files = vec![file("self.md", Some("<!--@include: self.md-->\n"), "md")];
    assert_eq!(
        preprocess("<!--@include: self.md-->\n", true, &files, 0),
        Preprocessed::Done("\n".repeat(11))
    );
}

#[test]
fn preprocess_containers_lists_and_fences() {
    assert_eq!(
        preprocess("::: tip Hello \"x\"\nbody\n:::\n", false, &Vec::new(), 0),
        Preprocessed::Done("<vp-container type=\"tip\" title=\"Hello &quot;x&quot;\">\n\nbody\n\n</vp-container>\n".to_string())
    );
    assert_eq!(preprocess("- a\n- b\n", false, &Vec::new(), 0), Preprocessed::Done("- a\n\n- b\n".to_string()));
    assert_eq!(preprocess("```\n::: tip\n```\n", false, &Vec::new(), 0), Preprocessed::Done("```\n::: tip\n```\n".to_string()));
    assert_eq!(preprocess("a\r\nb", false, &Vec::new(), 0), Preprocessed::Done("a\nb\n".to_string()));
}

#[test]
fn resolved_paths() {
    assert_eq!(resolve_path("@/snippets/x.js", true), Some("snippets/x.js".to_string()));
    assert_eq!(resolve_path(" ./a ", true), Some("a".to_string()));
    assert_eq!(resolve_path("a", false), None);
    assert_eq!(resolve_path("  ", true), None);
}

#[test]
fn percent_decoding() {
    assert_eq!(percent_decode("a%20b%2Bc%zz%4"), "a b+c%zz%4");
    assert_eq!(percent_decode("%+f"), "%+f");
    assert_eq!(percent_decode("%FF"), "\u{fffd}");
    assert_eq!(filedrop::percent_decode("a%20b"), "a b");
    assert_eq!(filedrop::percent_decode("%+f"), "\u{f}");
    assert_eq!(filedrop::percent_decode("%e4%b8%ad"), "\u{4e2d}");
}

#[test]
fn file_urls_to_paths() {
    assert_eq!(url_to_path("file:///Users/a%20b/x.md"), Some("/Users/a b/x.md".to_string()));
    assert_eq!(url_to_path("file://localhost/tmp/x"), Some("/tmp/x".to_string()));
    assert_eq!(url_to_path("file://"), None);
    assert_eq!(url_to_path("http://x"), None);
}

#[test]
fn document_from_events() {
    let ev = vec![
        MdEvent::Start(MdTag::Heading(2)),
        MdEvent::Text("T".to_string()),
        MdEvent::End(MdTagEnd::Other),
        MdEvent::Start(MdTag::Paragraph),
        MdEvent::Text("x ".to_string()),
        MdEvent::Start(MdTag::Strong),
        MdEvent::Text("y".to_string()),
        MdEvent::End(MdTagEnd::Span),
        MdEvent::End(MdTagEnd::Other),
        MdEvent::Rule,
    ];
    let doc = build_document(&ev);
    assert_eq!(doc.headings, vec![(2, "T".to_string())]);
    assert_eq!(doc.blocks.len(), 3);
    let Block::Paragraph { inline, task } = &doc.blocks[1] else {
        panic!("expected paragraph");
    };
    assert_eq!(inline.0, "x y");
    assert_eq!(inline.1.len(), 1);
    assert_eq!(inline.1[0].0, (2, 3));
    assert!(inline.1[0].1.bold);
    assert_eq!(*task, None);
    assert!(matches!(doc.blocks[2], Block::Rule));
}

#[test]
fn document_stops_at_stray_closing_marker() {
    let doc = parse_document("a\n\n:::\n\nb\n");
    assert_eq!(doc.blocks.len(), 1);
}

#[test]
fn highlight_ranges_on_boundaries() {
    let doc = parse_document("中 **粗** 和 `码` 文\n");
    let Block::Paragraph { inline, .. } = &doc.blocks[0] else {
        panic!("expected paragraph");
    };
    assert_eq!(inline.0, "中 粗 和 码 文");
    assert_eq!(inline.1.len(), 2);
    let mut last = 0;
    for ((a, b), _) in &inline.1 {
        assert!(last <= *a && a <= b && *b <= inline.0.len());
        assert!(inline.0.is_char_boundary(*a) && inline.0.is_char_boundary(*b));
        last = *b;
    }
    assert_eq!(&inline.0[inline.1[0].0 .0..inline.1[0].0 .1], "粗");
}

#[test]
fn tables_definition_lists_and_math() {
    let doc = parse_document("| a | b |\n|---|---|\n| 1 | 2 |\n\nTerm\n: Def\n\n$$x^2$$\n");
    assert!(matches!(&doc.blocks[0], Block::Table { head, rows } if head.len() == 2 && rows.len() == 1 && rows[0][1].0 == "2"));
    assert!(matches!(&doc.blocks[1], Block::DefinitionList(items) if items.len() == 1 && items[0].0 .0 == "Term"));
}
