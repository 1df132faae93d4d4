use mkd::html2md::html_to_md;

#[test]
fn basic_paragraph_and_emphasis() {
    let md = html_to_md("<p>Hello <b>world</b> and <i>italic</i></p>");
    assert!(md.contains("**world**"));
    assert!(md.contains("*italic*"));
    assert!(md.contains("Hello"));
}

#[test]
fn headings_and_lists() {
    let md = html_to_md("<h1>Title</h1><ul><li>a</li><li>b</li></ul>");
    assert!(md.contains("# Title"));
    assert!(md.contains("- a"));
    assert!(md.contains("- b"));
}

#[test]
fn links_and_images() {
    let md = html_to_md(r#"<p><a href="https://x.com">link</a> <img src="i.png" alt="pic"></p>"#);
    println!("OUT: {:?}", md);
    assert!(md.contains("[link](https://x.com)"), "md={md:?}");
    assert!(md.contains("![pic](i.png)"), "md={md:?}");
}

#[test]
fn code_pre_and_quote() {
    let md = html_to_md("<pre>fn main() {}</pre><blockquote>hi</blockquote>");
    assert!(md.contains("```"));
    assert!(md.contains("fn main() {}"));
    assert!(md.contains("> hi"));
}

#[test]
fn entities_decoded() {
    let md = html_to_md("<p>a &amp; b &lt; c</p>");
    assert!(md.contains("a & b < c"));
}

#[test]
fn strip_scripts_and_head() {
    let md = html_to_md("<html><head><style>.x{}</style></head><body><p>ok</p></body></html>");
    assert!(md.contains("ok"));
    assert!(!md.contains("style"));
}

#[test]
fn strikethrough_and_code() {
    let md = html_to_md("<p><del>gone</del> <code>x=1</code></p>");
    assert!(md.contains("~~gone~~"));
    assert!(md.contains("`x=1`"));
}
