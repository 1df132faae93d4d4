//! The document model of rendered Markdown, the event stream it is built from, and the
//! mathematical view of both.

use vstd::prelude::*;

verus! {

broadcast use vstd::std_specs::vec::group_vec_axioms;

/// Background of inline code (RGB).
pub const INLINE_CODE_BG: u32 = 0xeff1f3;

/// Foreground of inline code (RGB).
pub const INLINE_CODE_FG: u32 = 0xad3da4;

/// Colour of links and footnote references (RGB).
pub const LINK_COLOR: u32 = 0x0a66c2;

/// Background of `==marked==` text (RGB).
pub const MARK_BG: u32 = 0xfff3a0;

/// Fade-out, in percent, of superscript and subscript text.
pub const SUPSUB_FADE: u32 = 25;

/// Fade-out, in percent, of image alt text.
pub const IMAGE_FADE: u32 = 15;

/// The highlighting of a run of inline text.
#[derive(Clone, Copy, Debug, PartialEq, Eq, Structural)]
pub struct InlineStyle {
    pub italic: bool,
    pub bold: bool,
    pub strikethrough: bool,
    pub underline: bool,
    /// Text colour (RGB).
    pub color: Option<u32>,
    /// Background colour (RGB).
    pub background: Option<u32>,
    /// Fade-out in percent.
    pub fade: Option<u32>,
}

/// The style of unstyled text.
pub open spec fn plain_style() -> InlineStyle {
    InlineStyle {
        italic: false,
        bold: false,
        strikethrough: false,
        underline: false,
        color: None,
        background: None,
        fade: None,
    }
}

impl Default for InlineStyle {
    fn default() -> (r: Self)
        ensures
            r == plain_style(),
    {
        InlineStyle {
            italic: false,
            bold: false,
            strikethrough: false,
            underline: false,
            color: None,
            background: None,
            fade: None,
        }
    }
}

/// Inline content: the full text plus the byte ranges to highlight, each with its style.
pub type Inline = (String, Vec<((usize, usize), InlineStyle)>);

/// The view of inline content: its characters and its highlights.
pub type InlineV = (Seq<char>, Seq<((usize, usize), InlineStyle)>);

pub open spec fn inline_v(x: Inline) -> InlineV {
    (x.0@, x.1@)
}

/// A block of a rendered document.
#[derive(Debug)]
pub enum Block {
    Heading { level: u32, inline: Inline },
    Paragraph { inline: Inline, task: Option<bool> },
    List { ordered: bool, start: u64, items: Vec<Vec<Block>> },
    Code {
        lang: String,
        text: String,
        highlight: Vec<(usize, usize)>,
        line_numbers: bool,
        title: Option<String>,
    },
    Quote(Vec<Block>),
    Table { head: Vec<Inline>, rows: Vec<Vec<Inline>> },
    Container { kind: String, title: Option<String>, inner: Vec<Block> },
    DefinitionList(Vec<(Inline, Vec<Vec<Block>>)>),
    Math { text: String },
    Rule,
    Html(String),
}

/// The mathematical view of a block.
pub enum BlockV {
    Heading { level: u32, inline: InlineV },
    Paragraph { inline: InlineV, task: Option<bool> },
    List { ordered: bool, start: u64, items: Seq<Seq<BlockV>> },
    Code {
        lang: Seq<char>,
        text: Seq<char>,
        highlight: Seq<(usize, usize)>,
        line_numbers: bool,
        title: Option<Seq<char>>,
    },
    Quote(Seq<BlockV>),
    Table { head: Seq<InlineV>, rows: Seq<Seq<InlineV>> },
    Container { kind: Seq<char>, title: Option<Seq<char>>, inner: Seq<BlockV> },
    DefinitionList(Seq<(InlineV, Seq<Seq<BlockV>>)>),
    Math { text: Seq<char> },
    Rule,
    Html(Seq<char>),
}

pub open spec fn opt_v(o: Option<String>) -> Option<Seq<char>> {
    match o {
        Some(x) => Some(x@),
        None => None,
    }
}

pub open spec fn block_v(b: Block) -> BlockV
    decreases b,
{
    match b {
        Block::Heading { level, inline } => BlockV::Heading { level, inline: inline_v(inline) },
        Block::Paragraph { inline, task } => BlockV::Paragraph { inline: inline_v(inline), task },
        Block::List { ordered, start, items } => BlockV::List {
            ordered,
            start,
            items: items_v(items@),
        },
        Block::Code { lang, text, highlight, line_numbers, title } => BlockV::Code {
            lang: lang@,
            text: text@,
            highlight: highlight@,
            line_numbers,
            title: opt_v(title),
        },
        Block::Quote(inner) => BlockV::Quote(blocks_v(inner@)),
        Block::Table { head, rows } => BlockV::Table { head: inlines_v(head@), rows: rows_v(rows@) },
        Block::Container { kind, title, inner } => BlockV::Container {
            kind: kind@,
            title: opt_v(title),
            inner: blocks_v(inner@),
        },
        Block::DefinitionList(entries) => BlockV::DefinitionList(defs_v(entries@)),
        Block::Math { text } => BlockV::Math { text: text@ },
        Block::Rule => BlockV::Rule,
        Block::Html(t) => BlockV::Html(t@),
    }
}

/// The views of a sequence of blocks.
pub open spec fn blocks_v(s: Seq<Block>) -> Seq<BlockV>
    decreases s,
{
    if s.len() == 0 {
        Seq::empty()
    } else {
        blocks_v(s.subrange(0, s.len() - 1)).push(block_v(s[s.len() - 1]))
    }
}

pub open spec fn items_v(s: Seq<Vec<Block>>) -> Seq<Seq<BlockV>>
    decreases s,
{
    if s.len() == 0 {
        Seq::empty()
    } else {
        items_v(s.subrange(0, s.len() - 1)).push(blocks_v(s[s.len() - 1]@))
    }
}

pub open spec fn defs_v(s: Seq<(Inline, Vec<Vec<Block>>)>) -> Seq<(InlineV, Seq<Seq<BlockV>>)>
    decreases s,
{
    if s.len() == 0 {
        Seq::empty()
    } else {
        let x = s[s.len() - 1];
        proof {
            assert(decreases_to!(s => x));
        }
        defs_v(s.subrange(0, s.len() - 1)).push((inline_v(x.0), items_v(x.1@)))
    }
}

pub proof fn lemma_blocks_v_push(s: Seq<Block>, b: Block)
    ensures
        blocks_v(s.push(b)) == blocks_v(s).push(block_v(b)),
{
    assert(s.push(b).subrange(0, s.len() as int) =~= s);
}

pub proof fn lemma_items_v_push(s: Seq<Vec<Block>>, b: Vec<Block>)
    ensures
        items_v(s.push(b)) == items_v(s).push(blocks_v(b@)),
{
    assert(s.push(b).subrange(0, s.len() as int) =~= s);
}

pub proof fn lemma_defs_v_push(s: Seq<(Inline, Vec<Vec<Block>>)>, x: (Inline, Vec<Vec<Block>>))
    ensures
        defs_v(s.push(x)) == defs_v(s).push((inline_v(x.0), items_v(x.1@))),
{
    assert(s.push(x).subrange(0, s.len() as int) =~= s);
}

pub open spec fn inlines_v(v: Seq<Inline>) -> Seq<InlineV> {
    v.map_values(|x: Inline| inline_v(x))
}

pub open spec fn rows_v(v: Seq<Vec<Inline>>) -> Seq<Seq<InlineV>> {
    v.map_values(|r: Vec<Inline>| inlines_v(r@))
}

/// A parsed document: front-matter title and description, blocks, footnotes, and the
/// headings (level and plain text) for a table of contents.
#[derive(Debug)]
pub struct Doc {
    pub title: Option<String>,
    pub description: Option<String>,
    pub blocks: Vec<Block>,
    pub footnotes: Vec<(String, Vec<Block>)>,
    pub headings: Vec<(u32, String)>,
}

/// The kind of a block or span that an event opens, with what the document needs of it.
#[derive(Debug)]
pub enum MdTag {
    Paragraph,
    /// Heading level, 1 to 6.
    Heading(u32),
    /// The start number of an ordered list; `None` for a bullet list.
    List(Option<u64>),
    /// The info string of a fenced block; `None` for an indented block.
    CodeBlock(Option<String>),
    BlockQuote,
    Table,
    MetadataBlock,
    DefinitionList,
    DefinitionListTitle,
    DefinitionListDefinition,
    /// The footnote's label.
    FootnoteDefinition(String),
    Item,
    TableHead,
    TableRow,
    TableCell,
    Emphasis,
    Strong,
    Strikethrough,
    Superscript,
    Subscript,
    Link,
    Image,
    Other,
}

/// The kind of a block or span that an event closes.
#[derive(Debug)]
pub enum MdTagEnd {
    CodeBlock,
    MetadataBlock,
    List,
    Table,
    TableHead,
    TableRow,
    DefinitionList,
    /// The end of emphasis, strong, strikethrough, superscript, subscript, link or image.
    Span,
    Other,
}

/// One event of a CommonMark parse, as the document builder reads it.
#[derive(Debug)]
pub enum MdEvent {
    Start(MdTag),
    End(MdTagEnd),
    Text(String),
    Code(String),
    InlineMath(String),
    DisplayMath(String),
    Html(String),
    InlineHtml(String),
    FootnoteReference(String),
    SoftBreak,
    HardBreak,
    Rule,
    TaskListMarker(bool),
}

} // verus!
