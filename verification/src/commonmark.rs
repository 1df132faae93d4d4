//! The CommonMark parse of `pulldown-cmark`, read as a sequence of library events.

use vstd::prelude::*;
use crate::markdown::{MdEvent, MdTag, MdTagEnd};
use pulldown_cmark::{CodeBlockKind, Event, Options, Parser, Tag, TagEnd};

verus! {

/// The events of one parse, held as `pulldown-cmark` gave them so that each can be read
/// by its position.
#[verifier::external_body]
pub struct MarkdownParse {
    events: Vec<Event<'static>>,
}

/// The events that a parse holds, each read as a library event: a text, code, math, HTML
/// or footnote-reference event as the same kind with its text; a break, rule or task-list
/// marker as itself; a start event as `Start` of its tag (heading level, list start,
/// fenced info string or `None` for an indented block, footnote label), where a tag that
/// the document does not use (such as an HTML block) is `Other`; an end event as `End` of
/// a code block, front matter, list, table, table head, table row or definition list, of
/// `Span` for a span, and `Other` for the rest.
pub uninterp spec fn held_events(p: MarkdownParse) -> Seq<MdEvent>;

/// The events, read as library events, of the CommonMark parse of a text with the
/// extensions that VitePress pages use.
pub uninterp spec fn commonmark_events(source: Seq<char>) -> Seq<MdEvent>;

/// `pulldown_cmark::Parser::new_ext` with tables, footnotes, strikethrough, task lists,
/// heading attributes, YAML front matter, math, GFM and definition lists enabled, run to
/// the end; the parse depends on the text alone.
#[verifier::external_body]
fn parse_markdown(source: &str) -> (r: MarkdownParse)
    ensures
        held_events(r) == commonmark_events(source@),
{
    let opts = Options::ENABLE_TABLES | Options::ENABLE_FOOTNOTES | Options::ENABLE_STRIKETHROUGH
        | Options::ENABLE_TASKLISTS | Options::ENABLE_HEADING_ATTRIBUTES
        | Options::ENABLE_YAML_STYLE_METADATA_BLOCKS | Options::ENABLE_MATH | Options::ENABLE_GFM
        | Options::ENABLE_DEFINITION_LIST;
    MarkdownParse { events: Parser::new_ext(source, opts).map(Event::into_static).collect() }
}

/// The number of events a parse holds (`Vec::len`).
#[verifier::external_body]
fn event_count(p: &MarkdownParse) -> (r: usize)
    ensures
        r == held_events(*p).len(),
{
    p.events.len()
}

/// An event that carries text.
pub open spec fn is_text_event(e: MdEvent) -> bool {
    ||| e is Text
    ||| e is Code
    ||| e is InlineMath
    ||| e is DisplayMath
    ||| e is Html
    ||| e is InlineHtml
    ||| e is FootnoteReference
}

/// A break, a rule or a task-list marker.
pub open spec fn is_mark_event(e: MdEvent) -> bool {
    e is SoftBreak || e is HardBreak || e is Rule || e is TaskListMarker
}

/// A start event of a leaf block.
pub open spec fn is_leaf_start(e: MdEvent) -> bool {
    match e {
        MdEvent::Start(t) => t is Paragraph || t is Heading || t is List || t is CodeBlock
            || t is FootnoteDefinition,
        _ => false,
    }
}

/// A start event of a container block.
pub open spec fn is_container_start(e: MdEvent) -> bool {
    match e {
        MdEvent::Start(t) => t is BlockQuote || t is Table || t is MetadataBlock
            || t is DefinitionList,
        _ => false,
    }
}

/// A start event of a list, table or definition-list part.
pub open spec fn is_part_start(e: MdEvent) -> bool {
    match e {
        MdEvent::Start(t) => t is Item || t is TableHead || t is TableRow || t is TableCell
            || t is DefinitionListTitle || t is DefinitionListDefinition,
        _ => false,
    }
}

/// A start event of a span.
pub open spec fn is_span_start(e: MdEvent) -> bool {
    match e {
        MdEvent::Start(t) => t is Emphasis || t is Strong || t is Strikethrough
            || t is Superscript || t is Subscript || t is Link || t is Image,
        _ => false,
    }
}

/// The event at position `i` of a parse, if it carries text, as a library event with that
/// text (`None` for other events).
#[verifier::external_body]
fn text_event(p: &MarkdownParse, i: usize) -> (r: Option<MdEvent>)
    requires
        i < held_events(*p).len(),
    ensures
        match r {
            Some(x) => x == held_events(*p)[i as int],
            None => !is_text_event(held_events(*p)[i as int]),
        },
{
    match &p.events[i] {
        Event::Text(t) => Some(MdEvent::Text(t.to_string())),
        Event::Code(t) => Some(MdEvent::Code(t.to_string())),
        Event::InlineMath(t) => Some(MdEvent::InlineMath(t.to_string())),
        Event::DisplayMath(t) => Some(MdEvent::DisplayMath(t.to_string())),
        Event::Html(t) => Some(MdEvent::Html(t.to_string())),
        Event::InlineHtml(t) => Some(MdEvent::InlineHtml(t.to_string())),
        Event::FootnoteReference(t) => Some(MdEvent::FootnoteReference(t.to_string())),
        _ => None,
    }
}

/// The event at position `i` of a parse, if it is a break, a rule or a task-list marker, as
/// a library event (`None` for other events).
#[verifier::external_body]
fn mark_event(p: &MarkdownParse, i: usize) -> (r: Option<MdEvent>)
    requires
        i < held_events(*p).len(),
    ensures
        match r {
            Some(x) => x == held_events(*p)[i as int],
            None => !is_mark_event(held_events(*p)[i as int]),
        },
{
    match &p.events[i] {
        Event::SoftBreak => Some(MdEvent::SoftBreak),
        Event::HardBreak => Some(MdEvent::HardBreak),
        Event::Rule => Some(MdEvent::Rule),
        Event::TaskListMarker(b) => Some(MdEvent::TaskListMarker(*b)),
        _ => None,
    }
}

/// The leaf block that the event at position `i` of a parse opens, with its level, start
/// number, info string or label (`None` for other events and tags).
#[verifier::external_body]
fn leaf_tag(p: &MarkdownParse, i: usize) -> (r: Option<MdTag>)
    requires
        i < held_events(*p).len(),
    ensures
        match r {
            Some(t) => held_events(*p)[i as int] == MdEvent::Start(t),
            None => !is_leaf_start(held_events(*p)[i as int]),
        },
{
    match &p.events[i] {
        Event::Start(Tag::Paragraph) => Some(MdTag::Paragraph),
        Event::Start(Tag::Heading { level, .. }) => Some(MdTag::Heading(*level as u32)),
        Event::Start(Tag::List(s)) => Some(MdTag::List(*s)),
        Event::Start(Tag::CodeBlock(CodeBlockKind::Fenced(l))) => Some(MdTag::CodeBlock(Some(l.to_string()))),
        Event::Start(Tag::CodeBlock(CodeBlockKind::Indented)) => Some(MdTag::CodeBlock(None)),
        Event::Start(Tag::FootnoteDefinition(l)) => Some(MdTag::FootnoteDefinition(l.to_string())),
        _ => None,
    }
}

/// The container block that the event at position `i` of a parse opens (`None` for other
/// events and tags).
#[verifier::external_body]
fn container_tag(p: &MarkdownParse, i: usize) -> (r: Option<MdTag>)
    requires
        i < held_events(*p).len(),
    ensures
        match r {
            Some(t) => held_events(*p)[i as int] == MdEvent::Start(t),
            None => !is_container_start(held_events(*p)[i as int]),
        },
{
    match &p.events[i] {
        Event::Start(Tag::BlockQuote(_)) => Some(MdTag::BlockQuote),
        Event::Start(Tag::Table(_)) => Some(MdTag::Table),
        Event::Start(Tag::MetadataBlock(_)) => Some(MdTag::MetadataBlock),
        Event::Start(Tag::DefinitionList) => Some(MdTag::DefinitionList),
        _ => None,
    }
}

/// The list, table or definition-list part that the event at position `i` of a parse
/// opens (`None` for other events and tags).
#[verifier::external_body]
fn part_tag(p: &MarkdownParse, i: usize) -> (r: Option<MdTag>)
    requires
        i < held_events(*p).len(),
    ensures
        match r {
            Some(t) => held_events(*p)[i as int] == MdEvent::Start(t),
            None => !is_part_start(held_events(*p)[i as int]),
        },
{
    match &p.events[i] {
        Event::Start(Tag::Item) => Some(MdTag::Item),
        Event::Start(Tag::TableHead) => Some(MdTag::TableHead),
        Event::Start(Tag::TableRow) => Some(MdTag::TableRow),
        Event::Start(Tag::TableCell) => Some(MdTag::TableCell),
        Event::Start(Tag::DefinitionListTitle) => Some(MdTag::DefinitionListTitle),
        Event::Start(Tag::DefinitionListDefinition) => Some(MdTag::DefinitionListDefinition),
        _ => None,
    }
}

/// The span that the event at position `i` of a parse opens (`None` for other events and
/// tags).
#[verifier::external_body]
fn span_tag(p: &MarkdownParse, i: usize) -> (r: Option<MdTag>)
    requires
        i < held_events(*p).len(),
    ensures
        match r {
            Some(t) => held_events(*p)[i as int] == MdEvent::Start(t),
            None => !is_span_start(held_events(*p)[i as int]),
        },
{
    match &p.events[i] {
        Event::Start(Tag::Emphasis) => Some(MdTag::Emphasis),
        Event::Start(Tag::Strong) => Some(MdTag::Strong),
        Event::Start(Tag::Strikethrough) => Some(MdTag::Strikethrough),
        Event::Start(Tag::Superscript) => Some(MdTag::Superscript),
        Event::Start(Tag::Subscript) => Some(MdTag::Subscript),
        Event::Start(Tag::Link { .. }) => Some(MdTag::Link),
        Event::Start(Tag::Image { .. }) => Some(MdTag::Image),
        _ => None,
    }
}

/// What the event at position `i` of a parse closes, if it is an end event (`None` for
/// other events).
#[verifier::external_body]
fn end_tag(p: &MarkdownParse, i: usize) -> (r: Option<MdTagEnd>)
    requires
        i < held_events(*p).len(),
    ensures
        match r {
            Some(t) => held_events(*p)[i as int] == MdEvent::End(t),
            None => !(held_events(*p)[i as int] is End),
        },
{
    match &p.events[i] {
        Event::End(TagEnd::CodeBlock) => Some(MdTagEnd::CodeBlock),
        Event::End(TagEnd::MetadataBlock(_)) => Some(MdTagEnd::MetadataBlock),
        Event::End(TagEnd::List(_)) => Some(MdTagEnd::List),
        Event::End(TagEnd::Table) => Some(MdTagEnd::Table),
        Event::End(TagEnd::TableHead) => Some(MdTagEnd::TableHead),
        Event::End(TagEnd::TableRow) => Some(MdTagEnd::TableRow),
        Event::End(TagEnd::DefinitionList) => Some(MdTagEnd::DefinitionList),
        Event::End(
            TagEnd::Emphasis | TagEnd::Strong | TagEnd::Strikethrough | TagEnd::Superscript
            | TagEnd::Subscript | TagEnd::Link | TagEnd::Image,
        ) => Some(MdTagEnd::Span),
        Event::End(_) => Some(MdTagEnd::Other),
        _ => None,
    }
}

/// The event at position `i` of a parse, as a library event.
fn md_event(p: &MarkdownParse, i: usize) -> (r: MdEvent)
    requires
        i < held_events(*p).len(),
    ensures
        r == held_events(*p)[i as int],
{
    if let Some(x) = text_event(p, i) {
        return x;
    }
    if let Some(x) = mark_event(p, i) {
        return x;
    }
    if let Some(t) = end_tag(p, i) {
        return MdEvent::End(t);
    }
    if let Some(t) = leaf_tag(p, i) {
        return MdEvent::Start(t);
    }
    if let Some(t) = container_tag(p, i) {
        return MdEvent::Start(t);
    }
    if let Some(t) = part_tag(p, i) {
        return MdEvent::Start(t);
    }
    match span_tag(p, i) {
        Some(t) => MdEvent::Start(t),
        None => MdEvent::Start(MdTag::Other),
    }
}

/// The CommonMark events of `source` (with the extensions that VitePress pages use), in
/// order.
pub fn markdown_events(source: &str) -> (r: Vec<MdEvent>)
    ensures
        r@ == commonmark_events(source@),
{
    let p = parse_markdown(source);
    let n = event_count(&p);
    let mut out: Vec<MdEvent> = Vec::new();
    let mut i: usize = 0;
    while i < n
        invariant
            n == held_events(p).len(),
            i <= n,
            out@ == held_events(p).take(i as int),
        decreases n - i,
    {
        let e = md_event(&p, i);
        out.push(e);
        i = i + 1;
    }
    assert(held_events(p).take(n as int) =~= held_events(p));
    out
}

} // verus!
