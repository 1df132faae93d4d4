use mkd::document::parse_document;
use mkd::commonmark::markdown_events;
use mkd::markdown::{MdEvent, MdTag, MdTagEnd};
use mkd::markdown::Block;

fn dbg_doc(src: &str) -> Vec<Block> {
    parse_document(src).blocks
}

#[test]
fn container_parses() {
    let blocks = dbg_doc("::: tip\n\n内容\n\n:::\n");
    assert!(matches!(
        blocks.as_slice(),
        [Block::Container { kind, inner, .. }]
            if kind == "tip" && inner.len() == 1
    ));
}

#[test]
fn container_with_title() {
    let blocks = dbg_doc("::: warning 标题\n\n内容\n\n:::\n");
    assert!(matches!(
        blocks.as_slice(),
        [Block::Container { kind, title, .. }]
            if kind == "warning" && title.as_deref() == Some("标题")
    ));
}

#[test]
fn nested_containers() {
    let blocks = dbg_doc("::: tip\n\n内层\n\n::: info\n\n深层\n\n:::\n\n结尾\n\n:::\n");
    assert!(matches!(
        blocks.as_slice(),
        [Block::Container { inner, .. }] if inner.len() == 3
    ));
}

#[test]
fn fence_keeps_container_marker_literal() {
    let blocks = dbg_doc("```rs\n::: tip\n```\n\n普通文本\n");
    assert!(matches!(
        blocks.as_slice(),
        [Block::Code { text, .. }, Block::Paragraph { .. }]
            if text.trim() == "::: tip"
    ));
}

#[test]
fn subscript_superscript_intraword() {
    let blocks = dbg_doc("H~2~O 和 E=mc^2^\n");
    let Block::Paragraph { inline, .. } = &blocks[0] else {
        panic!("expected paragraph");
    };
    assert_eq!(inline.0, "H2O 和 E=mc2");
    assert_eq!(inline.1.len(), 2, "both sub and sup styled");
}

#[test]
fn mark_highlight() {
    let blocks = dbg_doc("这是 ==重点== 内容\n");
    let Block::Paragraph { inline, .. } = &blocks[0] else {
        panic!("expected paragraph");
    };
    assert_eq!(inline.0, "这是 重点 内容");
    assert!(inline.1[0].1.background.is_some());
}

#[test]
fn emoji_shortcodes() {
    let blocks = dbg_doc(":tada: 庆祝\n");
    let Block::Paragraph { inline, .. } = &blocks[0] else {
        panic!("expected paragraph");
    };
    assert!(inline.0.contains('🎉'));
}

#[test]
fn tight_list_items_keep_content() {
    let blocks = dbg_doc("- 甲\n- 乙\n- 丙\n");
    assert!(matches!(
        blocks.as_slice(),
        [Block::List { items, .. }] if items.len() == 3
    ));
    let Block::List { items, .. } = &blocks[0] else {
        unreachable!()
    };
    assert!(matches!(&items[0][0], Block::Paragraph { .. }));
}

#[test]
fn task_list_marker() {
    let blocks = dbg_doc("- [x] 完成\n- [ ] 待办\n");
    let Block::List { items, .. } = &blocks[0] else {
        panic!("expected list");
    };
    let Block::Paragraph { task, .. } = &items[0][0] else {
        panic!("expected paragraph");
    };
    assert_eq!(*task, Some(true));
    let Block::Paragraph { task, .. } = &items[1][0] else {
        panic!("expected paragraph");
    };
    assert_eq!(*task, Some(false));
}

#[test]
fn frontmatter_title() {
    let src = "---\ntitle: 我的文档\ndescription: 说明\n---\n\n正文\n";
    let doc = parse_document(src);
    assert_eq!(doc.title.as_deref(), Some("我的文档"));
    assert_eq!(doc.description.as_deref(), Some("说明"));
    assert_eq!(doc.blocks.len(), 1);
}

#[test]
fn code_info_highlight_and_lines() {
    let blocks = dbg_doc("```ts {1,3-5} :line-numbers title=\"x.ts\"\na\nb\nc\n```\n");
    let Block::Code {
        lang,
        highlight,
        line_numbers,
        title,
        ..
    } = &blocks[0]
    else {
        panic!("expected code");
    };
    assert_eq!(lang, "ts");
    assert_eq!(title.as_deref(), Some("x.ts"));
    assert!(line_numbers);
    assert!(highlight.contains(&(1, 1)));
    assert!(highlight.contains(&(3, 5)));
}

#[test]
fn toc_paragraph_preserved() {
    let blocks = dbg_doc("[[toc]]\n");
    assert!(matches!(
        blocks.as_slice(),
        [Block::Paragraph { inline, .. }] if inline.0.trim() == "[[toc]]"
    ));
}

#[test]
fn footnote_collected() {
    let src = "正文[^1]\n\n[^1]: 脚注内容\n";
    let doc = parse_document(src);
    assert_eq!(doc.footnotes.len(), 1);
    assert_eq!(doc.footnotes[0].0, "1");
}

#[test]
fn commonmark_events_of_heading_and_list() {
    let ev = markdown_events("# Hi\n\n- a\n");
    assert_eq!(ev.len(), 8);
    assert!(matches!(ev[0], MdEvent::Start(MdTag::Heading(1))));
    assert!(matches!(&ev[1], MdEvent::Text(t) if t == "Hi"));
    assert!(matches!(ev[2], MdEvent::End(MdTagEnd::Other)));
    assert!(matches!(ev[3], MdEvent::Start(MdTag::List(None))));
    assert!(matches!(ev[4], MdEvent::Start(MdTag::Item)));
    assert!(matches!(&ev[5], MdEvent::Text(t) if t == "a"));
    assert!(matches!(ev[6], MdEvent::End(MdTagEnd::Other)));
    assert!(matches!(ev[7], MdEvent::End(MdTagEnd::List)));
}
