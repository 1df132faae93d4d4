//! Blocks of a document, built from a CommonMark event stream: paragraphs, headings,
//! lists, code, quotes, tables, containers, definition lists, math, rules and HTML, with
//! front matter, footnotes and headings gathered on the way.

use vstd::prelude::*;
use crate::inline::{inline_at, lemma_inline_at, parse_inline};
use crate::markdown::{
    block_v, blocks_v, defs_v, inline_v, items_v, lemma_blocks_v_push, lemma_defs_v_push,
    lemma_items_v_push, opt_v, Block, BlockV, Doc, Inline, InlineV, MdEvent, MdTag, MdTagEnd,
};
use crate::html2md::starts_lit;
use crate::markdown::{inlines_v, rows_v};
use crate::text::{chars_of, extend_all, slice_vec, split_chars, split_lines, string_of, trim};
use crate::vitepress::{
    attrs_of, code_info_of, container_of, html_text, info_tokens, parse_code_info,
    parse_container_tag, html_to_text, trimmed, unquote_chars, unquoted, CodeInfo,
};

verus! {

broadcast use vstd::std_specs::vec::group_vec_axioms;

/// What parsing gathers besides the blocks: front-matter title and description,
/// footnotes, headings.
pub struct ParseCtx {
    pub title: Option<String>,
    pub description: Option<String>,
    pub footnotes: Vec<(String, Vec<Block>)>,
    pub headings: Vec<(u32, String)>,
}

pub type CtxV = (
    Option<Seq<char>>,
    Option<Seq<char>>,
    Seq<(Seq<char>, Seq<BlockV>)>,
    Seq<(u32, Seq<char>)>,
);

pub open spec fn notes_v(s: Seq<(String, Vec<Block>)>) -> Seq<(Seq<char>, Seq<BlockV>)> {
    s.map_values(|x: (String, Vec<Block>)| (x.0@, blocks_v(x.1@)))
}

pub open spec fn heads_v(s: Seq<(u32, String)>) -> Seq<(u32, Seq<char>)> {
    s.map_values(|x: (u32, String)| (x.0, x.1@))
}

pub open spec fn ctx_v(c: ParseCtx) -> CtxV {
    (opt_v(c.title), opt_v(c.description), notes_v(c.footnotes@), heads_v(c.headings@))
}

/// The next position after `p` once a nested part ended at `q`.
pub open spec fn adv(q: int, p: int, n: int) -> int {
    if p < q <= n {
        q
    } else {
        p + 1
    }
}

/// The text of the `Text` events from `p` up to the end of a code block (`code`) or of a
/// metadata block, and the position after that end.
pub open spec fn text_until(ev: Seq<MdEvent>, p: int, code: bool, acc: Seq<char>) -> (Seq<char>, int)
    decreases ev.len() - p,
{
    if p < 0 || p >= ev.len() {
        (acc, p)
    } else {
        match ev[p] {
            MdEvent::Text(t) => text_until(ev, p + 1, code, acc + t@),
            MdEvent::End(e) => if (code && e is CodeBlock) || (!code && e is MetadataBlock) {
                (acc, p + 1)
            } else {
                text_until(ev, p + 1, code, acc)
            },
            _ => text_until(ev, p + 1, code, acc),
        }
    }
}

/// The cells of a table row (or of the head) from `p` on.
pub open spec fn row_run(ev: Seq<MdEvent>, p: int, cells: Seq<InlineV>) -> (Seq<InlineV>, int)
    decreases ev.len() - p,
{
    if p < 0 || p >= ev.len() {
        (cells, p)
    } else {
        match ev[p] {
            MdEvent::Start(MdTag::TableCell) => {
                let r = inline_at(ev, p + 1);
                row_run(ev, adv(r.2, p, ev.len() as int), cells.push(r.0))
            },
            MdEvent::End(MdTagEnd::TableRow) | MdEvent::End(MdTagEnd::TableHead) => (cells, p + 1),
            _ => row_run(ev, p + 1, cells),
        }
    }
}

/// The head and the rows of a table from `p` on.
pub open spec fn table_run(
    ev: Seq<MdEvent>,
    p: int,
    head: Seq<InlineV>,
    rows: Seq<Seq<InlineV>>,
) -> (Seq<InlineV>, Seq<Seq<InlineV>>, int)
    decreases ev.len() - p,
{
    if p < 0 || p >= ev.len() {
        (head, rows, p)
    } else {
        match ev[p] {
            MdEvent::Start(MdTag::TableHead) => {
                let r = row_run(ev, p + 1, Seq::empty());
                table_run(ev, adv(r.1, p, ev.len() as int), r.0, rows)
            },
            MdEvent::Start(MdTag::TableRow) => {
                let r = row_run(ev, p + 1, Seq::empty());
                table_run(ev, adv(r.1, p, ev.len() as int), head, rows.push(r.0))
            },
            MdEvent::End(MdTagEnd::Table) => (head, rows, p + 1),
            _ => table_run(ev, p + 1, head, rows),
        }
    }
}

/// The entries gathered so far, with the pending term and its definitions.
pub open spec fn close_term(
    items: Seq<(InlineV, Seq<Seq<BlockV>>)>,
    term: Option<InlineV>,
    defs: Seq<Seq<BlockV>>,
) -> Seq<(InlineV, Seq<Seq<BlockV>>)> {
    match term {
        Some(t) => items.push((t, defs)),
        None => items,
    }
}

/// The entries of a definition list from `p` on; each definition is one paragraph.
pub open spec fn deflist_run(
    ev: Seq<MdEvent>,
    p: int,
    items: Seq<(InlineV, Seq<Seq<BlockV>>)>,
    term: Option<InlineV>,
    defs: Seq<Seq<BlockV>>,
) -> (Seq<(InlineV, Seq<Seq<BlockV>>)>, int)
    decreases ev.len() - p,
{
    if p < 0 || p >= ev.len() {
        (close_term(items, term, defs), p)
    } else {
        match ev[p] {
            MdEvent::Start(MdTag::DefinitionListTitle) => {
                let r = inline_at(ev, p + 1);
                let items2 = close_term(items, term, defs);
                let defs2 = if term is Some {
                    Seq::empty()
                } else {
                    defs
                };
                deflist_run(ev, adv(r.2, p, ev.len() as int), items2, Some(r.0), defs2)
            },
            MdEvent::Start(MdTag::DefinitionListDefinition) => {
                let r = inline_at(ev, p + 1);
                deflist_run(
                    ev,
                    adv(r.2, p, ev.len() as int),
                    items,
                    term,
                    defs.push(seq![BlockV::Paragraph { inline: r.0, task: None }]),
                )
            },
            MdEvent::End(MdTagEnd::DefinitionList) => (close_term(items, term, defs), p + 1),
            _ => deflist_run(ev, p + 1, items, term, defs),
        }
    }
}

/// One line of YAML front matter applied to the context.
pub open spec fn meta_line(ctx: CtxV, l: Seq<char>) -> CtxV {
    let t = trim(l);
    if t.len() >= 6 && t.take(6) == "title:"@ {
        (Some(unquoted(t.skip(6))), ctx.1, ctx.2, ctx.3)
    } else if t.len() >= 12 && t.take(12) == "description:"@ {
        (ctx.0, Some(unquoted(t.skip(12))), ctx.2, ctx.3)
    } else {
        ctx
    }
}

pub open spec fn meta_lines(ctx: CtxV, ls: Seq<Seq<char>>) -> CtxV
    decreases ls.len(),
{
    if ls.len() == 0 {
        ctx
    } else {
        meta_line(meta_lines(ctx, ls.drop_last()), ls.last())
    }
}

/// The code block that an info string (`None`: an indented block) and a text give.
pub open spec fn code_block(info: Option<String>, text: Seq<char>) -> BlockV {
    let ci = match info {
        Some(l) => code_info_of(info_tokens(l@)),
        None => code_info_of(Seq::empty()),
    };
    BlockV::Code { lang: ci.0, text, highlight: ci.2, line_numbers: ci.3, title: ci.1 }
}

/// The blocks from `p` on, appended to `acc`, until an end event or a container's closing
/// marker; with the context that they leave and the position after them. `pending` is
/// a task marker seen before its paragraph.
pub open spec fn blocks_run(
    ev: Seq<MdEvent>,
    p: int,
    ctx: CtxV,
    acc: Seq<BlockV>,
    pending: Option<bool>,
) -> (Seq<BlockV>, CtxV, int)
    decreases ev.len() - p,
{
    let n = ev.len() as int;
    if p < 0 || p >= n {
        (acc, ctx, p)
    } else {
        match ev[p] {
            MdEvent::Start(tag) => match tag {
                MdTag::Paragraph => {
                    let r = inline_at(ev, p + 1);
                    let task = match r.1 {
                        Some(x) => Some(x),
                        None => pending,
                    };
                    blocks_run(
                        ev,
                        adv(r.2, p, n),
                        ctx,
                        acc.push(BlockV::Paragraph { inline: r.0, task }),
                        None,
                    )
                },
                MdTag::Heading(level) => {
                    let r = inline_at(ev, p + 1);
                    let ctx2 = (ctx.0, ctx.1, ctx.2, ctx.3.push((level, trim(r.0.0))));
                    blocks_run(
                        ev,
                        adv(r.2, p, n),
                        ctx2,
                        acc.push(BlockV::Heading { level, inline: r.0 }),
                        pending,
                    )
                },
                MdTag::List(start) => {
                    let r = list_run(ev, p + 1, ctx, Seq::empty());
                    let b = BlockV::List {
                        ordered: start is Some,
                        start: match start {
                            Some(s) => s,
                            None => 1,
                        },
                        items: r.0,
                    };
                    blocks_run(ev, adv(r.2, p, n), r.1, acc.push(b), pending)
                },
                MdTag::CodeBlock(info) => {
                    let r = text_until(ev, p + 1, true, Seq::empty());
                    blocks_run(ev, adv(r.1, p, n), ctx, acc.push(code_block(info, r.0)), pending)
                },
                MdTag::BlockQuote => {
                    let r = blocks_run(ev, p + 1, ctx, Seq::empty(), None);
                    blocks_run(ev, adv(r.2, p, n), r.1, acc.push(BlockV::Quote(r.0)), pending)
                },
                MdTag::Table => {
                    let r = table_run(ev, p + 1, Seq::empty(), Seq::empty());
                    blocks_run(
                        ev,
                        adv(r.2, p, n),
                        ctx,
                        acc.push(BlockV::Table { head: r.0, rows: r.1 }),
                        pending,
                    )
                },
                MdTag::MetadataBlock => {
                    let r = text_until(ev, p + 1, false, Seq::empty());
                    blocks_run(ev, adv(r.1, p, n), meta_lines(ctx, split_lines(r.0)), acc, pending)
                },
                MdTag::DefinitionList => {
                    let r = deflist_run(ev, p + 1, Seq::empty(), None, Seq::empty());
                    blocks_run(ev, adv(r.1, p, n), ctx, acc.push(BlockV::DefinitionList(r.0)), pending)
                },
                MdTag::FootnoteDefinition(label) => {
                    let r = blocks_run(ev, p + 1, ctx, Seq::empty(), None);
                    let ctx2 = (r.1.0, r.1.1, r.1.2.push((label@, r.0)), r.1.3);
                    blocks_run(ev, adv(r.2, p, n), ctx2, acc, pending)
                },
                _ => {
                    let r = blocks_run(ev, p + 1, ctx, Seq::empty(), None);
                    blocks_run(ev, adv(r.2, p, n), r.1, acc + r.0, pending)
                },
            },
            MdEvent::TaskListMarker(b) => blocks_run(ev, p + 1, ctx, acc, Some(b)),
            MdEvent::Html(h) => {
                let t = trim(h@);
                if t.len() >= 13 && t.take(13) == "<vp-container"@ {
                    let kt = container_of(attrs_of(t));
                    let p2 = if p + 1 < n {
                        p + 2
                    } else {
                        p + 1
                    };
                    let r = blocks_run(ev, p2, ctx, Seq::empty(), None);
                    let b = BlockV::Container { kind: kt.0, title: kt.1, inner: r.0 };
                    blocks_run(ev, adv(r.2, p, n), r.1, acc.push(b), pending)
                } else if t.len() >= 14 && t.take(14) == "</vp-container"@ {
                    (acc, ctx, p + 1)
                } else {
                    blocks_run(ev, p + 1, ctx, acc.push(BlockV::Html(html_text(h@))), pending)
                }
            },
            MdEvent::DisplayMath(m) => blocks_run(ev, p + 1, ctx, acc.push(BlockV::Math { text: m@ }), pending),
            MdEvent::End(_) => (acc, ctx, p + 1),
            MdEvent::Rule => blocks_run(ev, p + 1, ctx, acc.push(BlockV::Rule), pending),
            _ => blocks_run(ev, p + 1, ctx, acc, pending),
        }
    }
}

/// The items of a list from `p` on, with the context they leave and the position after
/// the list's end.
pub open spec fn list_run(ev: Seq<MdEvent>, p: int, ctx: CtxV, items: Seq<Seq<BlockV>>) -> (
    Seq<Seq<BlockV>>,
    CtxV,
    int,
)
    decreases ev.len() - p,
{
    let n = ev.len() as int;
    if p < 0 || p >= n {
        (items, ctx, p)
    } else {
        match ev[p] {
            MdEvent::Start(MdTag::Item) => {
                let r = blocks_run(ev, p + 1, ctx, Seq::empty(), None);
                list_run(ev, adv(r.2, p, n), r.1, items.push(r.0))
            },
            MdEvent::End(MdTagEnd::List) => (items, ctx, p + 1),
            _ => list_run(ev, p + 1, ctx, items),
        }
    }
}

pub proof fn lemma_text_until(ev: Seq<MdEvent>, p: int, code: bool, acc: Seq<char>)
    requires
        0 <= p <= ev.len(),
    ensures
        p <= text_until(ev, p, code, acc).1 <= ev.len(),
    decreases ev.len() - p,
{
    if p < ev.len() {
        match ev[p] {
            MdEvent::Text(t) => lemma_text_until(ev, p + 1, code, acc + t@),
            MdEvent::End(e) => if !((code && e is CodeBlock) || (!code && e is MetadataBlock)) {
                lemma_text_until(ev, p + 1, code, acc);
            },
            _ => lemma_text_until(ev, p + 1, code, acc),
        }
    }
}

pub proof fn lemma_row_run(ev: Seq<MdEvent>, p: int, cells: Seq<InlineV>)
    requires
        0 <= p <= ev.len(),
    ensures
        p <= row_run(ev, p, cells).1 <= ev.len(),
    decreases ev.len() - p,
{
    if p < ev.len() {
        match ev[p] {
            MdEvent::Start(MdTag::TableCell) => {
                let r = inline_at(ev, p + 1);
                lemma_inline_at(ev, p + 1);
                lemma_row_run(ev, adv(r.2, p, ev.len() as int), cells.push(r.0));
            },
            MdEvent::End(MdTagEnd::TableRow) | MdEvent::End(MdTagEnd::TableHead) => {},
            _ => lemma_row_run(ev, p + 1, cells),
        }
    }
}

pub proof fn lemma_table_run(ev: Seq<MdEvent>, p: int, head: Seq<InlineV>, rows: Seq<Seq<InlineV>>)
    requires
        0 <= p <= ev.len(),
    ensures
        p <= table_run(ev, p, head, rows).2 <= ev.len(),
    decreases ev.len() - p,
{
    if p < ev.len() {
        match ev[p] {
            MdEvent::Start(MdTag::TableHead) => {
                let r = row_run(ev, p + 1, Seq::empty());
                lemma_table_run(ev, adv(r.1, p, ev.len() as int), r.0, rows);
            },
            MdEvent::Start(MdTag::TableRow) => {
                let r = row_run(ev, p + 1, Seq::empty());
                lemma_table_run(ev, adv(r.1, p, ev.len() as int), head, rows.push(r.0));
            },
            MdEvent::End(MdTagEnd::Table) => {},
            _ => lemma_table_run(ev, p + 1, head, rows),
        }
    }
}

pub proof fn lemma_deflist_run(
    ev: Seq<MdEvent>,
    p: int,
    items: Seq<(InlineV, Seq<Seq<BlockV>>)>,
    term: Option<InlineV>,
    defs: Seq<Seq<BlockV>>,
)
    requires
        0 <= p <= ev.len(),
    ensures
        p <= deflist_run(ev, p, items, term, defs).1 <= ev.len(),
    decreases ev.len() - p,
{
    if p < ev.len() {
        match ev[p] {
            MdEvent::Start(MdTag::DefinitionListTitle) => {
                let r = inline_at(ev, p + 1);
                let items2 = close_term(items, term, defs);
                let defs2 = if term is Some {
                    Seq::empty()
                } else {
                    defs
                };
                lemma_deflist_run(ev, adv(r.2, p, ev.len() as int), items2, Some(r.0), defs2);
            },
            MdEvent::Start(MdTag::DefinitionListDefinition) => {
                let r = inline_at(ev, p + 1);
                lemma_deflist_run(
                    ev,
                    adv(r.2, p, ev.len() as int),
                    items,
                    term,
                    defs.push(seq![BlockV::Paragraph { inline: r.0, task: None }]),
                );
            },
            MdEvent::End(MdTagEnd::DefinitionList) => {},
            _ => lemma_deflist_run(ev, p + 1, items, term, defs),
        }
    }
}

pub proof fn lemma_blocks_run(
    ev: Seq<MdEvent>,
    p: int,
    ctx: CtxV,
    acc: Seq<BlockV>,
    pending: Option<bool>,
)
    requires
        0 <= p <= ev.len(),
    ensures
        p <= blocks_run(ev, p, ctx, acc, pending).2 <= ev.len(),
    decreases ev.len() - p,
{
    let n = ev.len() as int;
    if p < n {
        match ev[p] {
            MdEvent::Start(tag) => match tag {
                MdTag::Paragraph => {
                    let r = inline_at(ev, p + 1);
                    let task = match r.1 {
                        Some(x) => Some(x),
                        None => pending,
                    };
                    lemma_blocks_run(ev, adv(r.2, p, n), ctx, acc.push(BlockV::Paragraph { inline: r.0, task }), None);
                },
                MdTag::Heading(level) => {
                    let r = inline_at(ev, p + 1);
                    let ctx2 = (ctx.0, ctx.1, ctx.2, ctx.3.push((level, trim(r.0.0))));
                    lemma_blocks_run(ev, adv(r.2, p, n), ctx2, acc.push(BlockV::Heading { level, inline: r.0 }), pending);
                },
                MdTag::List(start) => {
                    let r = list_run(ev, p + 1, ctx, Seq::empty());
                    let b = BlockV::List {
                        ordered: start is Some,
                        start: match start {
                            Some(s) => s,
                            None => 1,
                        },
                        items: r.0,
                    };
                    lemma_blocks_run(ev, adv(r.2, p, n), r.1, acc.push(b), pending);
                },
                MdTag::CodeBlock(info) => {
                    let r = text_until(ev, p + 1, true, Seq::empty());
                    lemma_blocks_run(ev, adv(r.1, p, n), ctx, acc.push(code_block(info, r.0)), pending);
                },
                MdTag::BlockQuote => {
                    let r = blocks_run(ev, p + 1, ctx, Seq::empty(), None);
                    lemma_blocks_run(ev, adv(r.2, p, n), r.1, acc.push(BlockV::Quote(r.0)), pending);
                },
                MdTag::Table => {
                    let r = table_run(ev, p + 1, Seq::empty(), Seq::empty());
                    lemma_blocks_run(ev, adv(r.2, p, n), ctx, acc.push(BlockV::Table { head: r.0, rows: r.1 }), pending);
                },
                MdTag::MetadataBlock => {
                    let r = text_until(ev, p + 1, false, Seq::empty());
                    lemma_blocks_run(ev, adv(r.1, p, n), meta_lines(ctx, split_lines(r.0)), acc, pending);
                },
                MdTag::DefinitionList => {
                    let r = deflist_run(ev, p + 1, Seq::empty(), None, Seq::empty());
                    lemma_blocks_run(ev, adv(r.1, p, n), ctx, acc.push(BlockV::DefinitionList(r.0)), pending);
                },
                MdTag::FootnoteDefinition(label) => {
                    let r = blocks_run(ev, p + 1, ctx, Seq::empty(), None);
                    let ctx2 = (r.1.0, r.1.1, r.1.2.push((label@, r.0)), r.1.3);
                    lemma_blocks_run(ev, adv(r.2, p, n), ctx2, acc, pending);
                },
                _ => {
                    let r = blocks_run(ev, p + 1, ctx, Seq::empty(), None);
                    lemma_blocks_run(ev, adv(r.2, p, n), r.1, acc + r.0, pending);
                },
            },
            MdEvent::TaskListMarker(b) => lemma_blocks_run(ev, p + 1, ctx, acc, Some(b)),
            MdEvent::Html(h) => {
                let t = trim(h@);
                if t.len() >= 13 && t.take(13) == "<vp-container"@ {
                    let kt = container_of(attrs_of(t));
                    let p2 = if p + 1 < n {
                        p + 2
                    } else {
                        p + 1
                    };
                    let r = blocks_run(ev, p2, ctx, Seq::empty(), None);
                    let b = BlockV::Container { kind: kt.0, title: kt.1, inner: r.0 };
                    lemma_blocks_run(ev, adv(r.2, p, n), r.1, acc.push(b), pending);
                } else if t.len() >= 14 && t.take(14) == "</vp-container"@ {
                } else {
                    lemma_blocks_run(ev, p + 1, ctx, acc.push(BlockV::Html(html_text(h@))), pending);
                }
            },
            MdEvent::DisplayMath(m) => lemma_blocks_run(ev, p + 1, ctx, acc.push(BlockV::Math { text: m@ }), pending),
            MdEvent::End(_) => {},
            MdEvent::Rule => lemma_blocks_run(ev, p + 1, ctx, acc.push(BlockV::Rule), pending),
            _ => lemma_blocks_run(ev, p + 1, ctx, acc, pending),
        }
    }
}

pub proof fn lemma_list_run(ev: Seq<MdEvent>, p: int, ctx: CtxV, items: Seq<Seq<BlockV>>)
    requires
        0 <= p <= ev.len(),
    ensures
        p <= list_run(ev, p, ctx, items).2 <= ev.len(),
    decreases ev.len() - p,
{
    let n = ev.len() as int;
    if p < n {
        match ev[p] {
            MdEvent::Start(MdTag::Item) => {
                let r = blocks_run(ev, p + 1, ctx, Seq::empty(), None);
                lemma_list_run(ev, adv(r.2, p, n), r.1, items.push(r.0));
            },
            MdEvent::End(MdTagEnd::List) => {},
            _ => lemma_list_run(ev, p + 1, ctx, items),
        }
    }
}

/// The text of the `Text` events from `p` up to the end of a code block (`code`) or of a
/// metadata block, and the position after that end.
fn collect_text(ev: &[MdEvent], p: usize, code: bool) -> (r: (String, usize))
    requires
        p <= ev@.len(),
    ensures
        (r.0@, r.1 as int) == text_until(ev@, p as int, code, Seq::empty()),
{
    let mut acc: Vec<char> = Vec::new();
    let mut i = p;
    assert(acc@ =~= Seq::<char>::empty());
    loop
        invariant
            p <= i <= ev@.len(),
            text_until(ev@, i as int, code, acc@) == text_until(ev@, p as int, code, Seq::empty()),
        decreases ev@.len() - i,
    {
        if i >= ev.len() {
            return (string_of(&acc), i);
        }
        match &ev[i] {
            MdEvent::Text(t) => {
                let tv = chars_of(t.as_str());
                extend_all(&mut acc, &tv);
            },
            MdEvent::End(e) => {
                let stop = match e {
                    MdTagEnd::CodeBlock => code,
                    MdTagEnd::MetadataBlock => !code,
                    _ => false,
                };
                if stop {
                    return (string_of(&acc), i + 1);
                }
            },
            _ => {},
        }
        i = i + 1;
    }
}

/// The cells of a table row (or head) from `p` on, and the position after its end.
pub fn parse_table_row(ev: &[MdEvent], p: usize) -> (r: (Vec<Inline>, usize))
    requires
        p <= ev@.len(),
    ensures
        (inlines_v(r.0@), r.1 as int) == row_run(ev@, p as int, Seq::empty()),
{
    let mut cells: Vec<Inline> = Vec::new();
    let mut i = p;
    assert(inlines_v(cells@) =~= Seq::<InlineV>::empty());
    loop
        invariant
            p <= i <= ev@.len(),
            row_run(ev@, i as int, inlines_v(cells@)) == row_run(ev@, p as int, Seq::empty()),
        decreases ev@.len() - i,
    {
        if i >= ev.len() {
            return (cells, i);
        }
        match &ev[i] {
            MdEvent::Start(MdTag::TableCell) => {
                let (inl, _task, q) = parse_inline(ev, i + 1);
                proof {
                    lemma_inline_at(ev@, i + 1);
                }
                let ghost c0 = inlines_v(cells@);
                cells.push(inl);
                assert(inlines_v(cells@) =~= c0.push(inline_v(inl)));
                i = q;
                continue;
            },
            MdEvent::End(MdTagEnd::TableRow) | MdEvent::End(MdTagEnd::TableHead) => {
                return (cells, i + 1);
            },
            _ => {},
        }
        i = i + 1;
    }
}

/// A table from `p` on: head, rows, and the position after its end.
pub fn parse_table(ev: &[MdEvent], p: usize) -> (r: (Vec<Inline>, Vec<Vec<Inline>>, usize))
    requires
        p <= ev@.len(),
    ensures
        (inlines_v(r.0@), rows_v(r.1@), r.2 as int) == table_run(ev@, p as int, Seq::empty(), Seq::empty()),
{
    let mut head: Vec<Inline> = Vec::new();
    let mut rows: Vec<Vec<Inline>> = Vec::new();
    let mut i = p;
    assert(inlines_v(head@) =~= Seq::<InlineV>::empty());
    assert(rows_v(rows@) =~= Seq::<Seq<InlineV>>::empty());
    loop
        invariant
            p <= i <= ev@.len(),
            table_run(ev@, i as int, inlines_v(head@), rows_v(rows@)) == table_run(
                ev@,
                p as int,
                Seq::empty(),
                Seq::empty(),
            ),
        decreases ev@.len() - i,
    {
        if i >= ev.len() {
            return (head, rows, i);
        }
        match &ev[i] {
            MdEvent::Start(MdTag::TableHead) => {
                let (cells, q) = parse_table_row(ev, i + 1);
                proof {
                    lemma_row_run(ev@, i + 1, Seq::empty());
                }
                head = cells;
                i = q;
                continue;
            },
            MdEvent::Start(MdTag::TableRow) => {
                let (cells, q) = parse_table_row(ev, i + 1);
                proof {
                    lemma_row_run(ev@, i + 1, Seq::empty());
                }
                let ghost r0 = rows_v(rows@);
                rows.push(cells);
                assert(rows_v(rows@) =~= r0.push(inlines_v(cells@)));
                i = q;
                continue;
            },
            MdEvent::End(MdTagEnd::Table) => {
                return (head, rows, i + 1);
            },
            _ => {},
        }
        i = i + 1;
    }
}

pub open spec fn opt_inline_v(o: Option<Inline>) -> Option<InlineV> {
    match o {
        Some(x) => Some(inline_v(x)),
        None => None,
    }
}

fn close_term_exec(
    items: &mut Vec<(Inline, Vec<Vec<Block>>)>,
    term: Option<Inline>,
    defs: Vec<Vec<Block>>,
)
    ensures
        defs_v(final(items)@) == close_term(defs_v(old(items)@), opt_inline_v(term), items_v(defs@)),
{
    if let Some(t) = term {
        proof {
            lemma_defs_v_push(items@, (t, defs));
        }
        items.push((t, defs));
    }
}

/// A definition list from `p` on: its entries, and the position after its end.
pub fn parse_definition_list(ev: &[MdEvent], p: usize) -> (r: (
    Vec<(Inline, Vec<Vec<Block>>)>,
    usize,
))
    requires
        p <= ev@.len(),
    ensures
        (defs_v(r.0@), r.1 as int) == deflist_run(ev@, p as int, Seq::empty(), None, Seq::empty()),
{
    let mut items: Vec<(Inline, Vec<Vec<Block>>)> = Vec::new();
    let mut term: Option<Inline> = None;
    let mut defs: Vec<Vec<Block>> = Vec::new();
    let mut i = p;
    assert(defs_v(items@) =~= Seq::<(InlineV, Seq<Seq<BlockV>>)>::empty());
    assert(items_v(defs@) =~= Seq::<Seq<BlockV>>::empty());
    loop
        invariant
            p <= i <= ev@.len(),
            deflist_run(ev@, i as int, defs_v(items@), opt_inline_v(term), items_v(defs@))
                == deflist_run(ev@, p as int, Seq::empty(), None, Seq::empty()),
        decreases ev@.len() - i,
    {
        if i >= ev.len() {
            close_term_exec(&mut items, term, defs);
            return (items, i);
        }
        match &ev[i] {
            MdEvent::Start(MdTag::DefinitionListTitle) => {
                let (inl, _task, q) = parse_inline(ev, i + 1);
                proof {
                    lemma_inline_at(ev@, i + 1);
                }
                let had = term.is_some();
                let old_defs = if had {
                    let mut empty: Vec<Vec<Block>> = Vec::new();
                    std::mem::swap(&mut empty, &mut defs);
                    assert(items_v(defs@) =~= Seq::<Seq<BlockV>>::empty());
                    empty
                } else {
                    Vec::new()
                };
                close_term_exec(&mut items, term, old_defs);
                term = Some(inl);
                i = q;
                continue;
            },
            MdEvent::Start(MdTag::DefinitionListDefinition) => {
                let (inl, _task, q) = parse_inline(ev, i + 1);
                proof {
                    lemma_inline_at(ev@, i + 1);
                }
                let b = Block::Paragraph { inline: inl, task: None };
                let mut one: Vec<Block> = Vec::new();
                proof {
                    lemma_blocks_v_push(one@, b);
                    assert(one@.push(b) =~= seq![b]);
                }
                one.push(b);
                assert(blocks_v(one@) =~= seq![BlockV::Paragraph { inline: inline_v(inl), task: None }]);
                proof {
                    lemma_items_v_push(defs@, one);
                }
                defs.push(one);
                i = q;
                continue;
            },
            MdEvent::End(MdTagEnd::DefinitionList) => {
                close_term_exec(&mut items, term, defs);
                return (items, i + 1);
            },
            _ => {},
        }
        i = i + 1;
    }
}

proof fn lemma_blocks_v_concat(a: Seq<Block>, b: Seq<Block>)
    ensures
        blocks_v(a + b) == blocks_v(a) + blocks_v(b),
    decreases b.len(),
{
    if b.len() == 0 {
        assert(a + b =~= a);
        assert(blocks_v(a) + blocks_v(b) =~= blocks_v(a));
    } else {
        let c = b.subrange(0, b.len() - 1);
        lemma_blocks_v_concat(a, c);
        assert((a + b).subrange(0, (a + b).len() - 1) =~= a + c);
        assert((a + b)[(a + b).len() - 1] == b[b.len() - 1]);
        assert(blocks_v(a + b) =~= blocks_v(a) + blocks_v(b));
    }
}

/// Applies the `title:` and `description:` lines of YAML front matter.
fn apply_front_matter(ctx: &mut ParseCtx, yaml: &String)
    ensures
        ctx_v(*final(ctx)) == meta_lines(ctx_v(*old(ctx)), split_lines(yaml@)),
        final(ctx).footnotes@ == old(ctx).footnotes@,
        final(ctx).headings@ == old(ctx).headings@,
{
    let y = chars_of(yaml.as_str());
    let lines = split_chars(&y);
    let ghost ls = lines@.map_values(|v: Vec<char>| v@);
    let ghost c0 = ctx_v(*ctx);
    let mut i: usize = 0;
    assert(ls.take(0) =~= Seq::<Seq<char>>::empty());
    while i < lines.len()
        invariant
            i <= lines@.len(),
            ls == lines@.map_values(|v: Vec<char>| v@),
            ls == split_lines(yaml@),
            ctx_v(*ctx) == meta_lines(c0, ls.take(i as int)),
            ctx.footnotes@ == old(ctx).footnotes@,
            ctx.headings@ == old(ctx).headings@,
        decreases lines@.len() - i,
    {
        assert(ls.take(i + 1).drop_last() =~= ls.take(i as int));
        let t = trimmed(&lines[i]);
        let n = t.len();
        proof {
            reveal_strlit("title:");
            reveal_strlit("description:");
        }
        assert(t@.subrange(0, n as int) =~= t@);
        if starts_lit(&t, 0, n, "title:") {
            let rest = slice_vec(&t, 6, n);
            assert(rest@ =~= t@.skip(6));
            ctx.title = Some(string_of(&unquote_chars(&rest)));
        } else if starts_lit(&t, 0, n, "description:") {
            let rest = slice_vec(&t, 12, n);
            assert(rest@ =~= t@.skip(12));
            ctx.description = Some(string_of(&unquote_chars(&rest)));
        }
        i = i + 1;
    }
    assert(ls.take(lines@.len() as int) =~= ls);
}

/// The block that the start event at `i` opens, appended to `acc` (front matter,
/// footnotes and headings go to `ctx`); the position after it and the pending task
/// marker.
fn start_block(
    ev: &[MdEvent],
    i: usize,
    ctx: &mut ParseCtx,
    acc: &mut Vec<Block>,
    pending: Option<bool>,
) -> (r: (usize, Option<bool>))
    requires
        i < ev@.len(),
        ev@[i as int] is Start,
    ensures
        i < r.0 <= ev@.len(),
        blocks_run(ev@, r.0 as int, ctx_v(*final(ctx)), blocks_v(final(acc)@), r.1) == blocks_run(
            ev@,
            i as int,
            ctx_v(*old(ctx)),
            blocks_v(old(acc)@),
            pending,
        ),
    decreases ev@.len() - i, 0int,
{
    let ghost cb = ctx_v(*ctx);
    let tag = match &ev[i] {
        MdEvent::Start(t) => t,
        _ => {
            return (i + 1, pending);
        },
    };
    match tag {
        MdTag::Paragraph => {
            let (inl, task, q) = parse_inline(ev, i + 1);
            proof {
                lemma_inline_at(ev@, i + 1);
            }
            let t = match task {
                Some(x) => Some(x),
                None => pending,
            };
            let b = Block::Paragraph { inline: inl, task: t };
            proof {
                lemma_blocks_v_push(acc@, b);
            }
            acc.push(b);
            (q, None)
        },
        MdTag::Heading(level) => {
            let (inl, _task, q) = parse_inline(ev, i + 1);
            proof {
                lemma_inline_at(ev@, i + 1);
            }
            let tv = chars_of(inl.0.as_str());
            let ht = string_of(&trimmed(&tv));
            let ghost h0 = heads_v(ctx.headings@);
            ctx.headings.push((*level, ht));
            assert(heads_v(ctx.headings@) =~= h0.push((*level, trim(inl.0@))));
            let b = Block::Heading { level: *level, inline: inl };
            proof {
                lemma_blocks_v_push(acc@, b);
            }
            acc.push(b);
            (q, pending)
        },
        MdTag::List(start) => {
            let (items, q) = parse_list(ev, i + 1, ctx);
            proof {
                lemma_list_run(ev@, i + 1, cb, Seq::empty());
            }
            let st = match start {
                Some(s) => *s,
                None => 1,
            };
            let b = Block::List { ordered: start.is_some(), start: st, items };
            proof {
                lemma_blocks_v_push(acc@, b);
            }
            acc.push(b);
            (q, pending)
        },
        MdTag::CodeBlock(info) => {
            let ci = match info {
                Some(l) => parse_code_info(l.as_str()),
                None => CodeInfo::default(),
            };
            let (text, q) = collect_text(ev, i + 1, true);
            proof {
                lemma_text_until(ev@, i + 1, true, Seq::empty());
            }
            let b = Block::Code {
                lang: ci.lang,
                text,
                highlight: ci.highlight,
                line_numbers: ci.line_numbers,
                title: ci.title,
            };
            proof {
                lemma_blocks_v_push(acc@, b);
            }
            acc.push(b);
            (q, pending)
        },
        MdTag::BlockQuote => {
            let (inner, q) = parse_blocks(ev, i + 1, ctx);
            proof {
                lemma_blocks_run(ev@, i + 1, cb, Seq::empty(), None);
            }
            let b = Block::Quote(inner);
            proof {
                lemma_blocks_v_push(acc@, b);
            }
            acc.push(b);
            (q, pending)
        },
        MdTag::Table => {
            let (head, rows, q) = parse_table(ev, i + 1);
            proof {
                lemma_table_run(ev@, i + 1, Seq::empty(), Seq::empty());
            }
            let b = Block::Table { head, rows };
            proof {
                lemma_blocks_v_push(acc@, b);
            }
            acc.push(b);
            (q, pending)
        },
        MdTag::MetadataBlock => {
            let (yaml, q) = collect_text(ev, i + 1, false);
            proof {
                lemma_text_until(ev@, i + 1, false, Seq::empty());
            }
            apply_front_matter(ctx, &yaml);
            (q, pending)
        },
        MdTag::DefinitionList => {
            let (items, q) = parse_definition_list(ev, i + 1);
            proof {
                lemma_deflist_run(ev@, i + 1, Seq::empty(), None, Seq::empty());
            }
            let b = Block::DefinitionList(items);
            proof {
                lemma_blocks_v_push(acc@, b);
            }
            acc.push(b);
            (q, pending)
        },
        MdTag::FootnoteDefinition(label) => {
            let (inner, q) = parse_blocks(ev, i + 1, ctx);
            proof {
                lemma_blocks_run(ev@, i + 1, cb, Seq::empty(), None);
            }
            let ghost f0 = notes_v(ctx.footnotes@);
            let ghost iv = blocks_v(inner@);
            ctx.footnotes.push((label.clone(), inner));
            assert(notes_v(ctx.footnotes@) =~= f0.push((label@, iv)));
            (q, pending)
        },
        _ => {
            let (mut inner, q) = parse_blocks(ev, i + 1, ctx);
            proof {
                lemma_blocks_run(ev@, i + 1, cb, Seq::empty(), None);
                lemma_blocks_v_concat(acc@, inner@);
            }
            acc.append(&mut inner);
            (q, pending)
        },
    }
}

/// The HTML event at `i`: a container (marker, then blocks up to the closing marker)
/// appended to `acc`, or the HTML's text; `None` at a closing marker.
fn html_block(
    ev: &[MdEvent],
    i: usize,
    ctx: &mut ParseCtx,
    acc: &mut Vec<Block>,
    pending: Option<bool>,
) -> (r: Option<usize>)
    requires
        i < ev@.len(),
        ev@[i as int] is Html,
    ensures
        r is None ==> blocks_run(ev@, i as int, ctx_v(*old(ctx)), blocks_v(old(acc)@), pending) == (
            blocks_v(old(acc)@),
            ctx_v(*old(ctx)),
            i + 1,
        ) && *final(ctx) == *old(ctx) && final(acc)@ == old(acc)@,
        r matches Some(q) ==> i < q <= ev@.len() && blocks_run(
            ev@,
            q as int,
            ctx_v(*final(ctx)),
            blocks_v(final(acc)@),
            pending,
        ) == blocks_run(ev@, i as int, ctx_v(*old(ctx)), blocks_v(old(acc)@), pending),
    decreases ev@.len() - i, 0int,
{
    let ghost cb = ctx_v(*ctx);
    let h = match &ev[i] {
        MdEvent::Html(h) => h,
        _ => {
            return None;
        },
    };
    let hv = chars_of(h.as_str());
    let t = trimmed(&hv);
    let m = t.len();
    proof {
        reveal_strlit("<vp-container");
        reveal_strlit("</vp-container");
    }
    assert(t@.subrange(0, m as int) =~= t@);
    if starts_lit(&t, 0, m, "<vp-container") {
        let ts = string_of(&t);
        let (kind, title) = parse_container_tag(ts.as_str());
        let p2 = if i + 1 < ev.len() {
            i + 2
        } else {
            i + 1
        };
        let (inner, q) = parse_blocks(ev, p2, ctx);
        proof {
            lemma_blocks_run(ev@, p2 as int, cb, Seq::empty(), None);
        }
        let b = Block::Container { kind, title, inner };
        proof {
            lemma_blocks_v_push(acc@, b);
        }
        acc.push(b);
        Some(q)
    } else if starts_lit(&t, 0, m, "</vp-container") {
        None
    } else {
        let b = Block::Html(html_to_text(h.as_str()));
        proof {
            lemma_blocks_v_push(acc@, b);
        }
        acc.push(b);
        Some(i + 1)
    }
}

/// The blocks from `p` on until an end event or a container's closing marker, and the
/// position after them; front matter, footnotes and headings go to `ctx`.
pub fn parse_blocks(ev: &[MdEvent], p: usize, ctx: &mut ParseCtx) -> (r: (Vec<Block>, usize))
    requires
        p <= ev@.len(),
    ensures
        (blocks_v(r.0@), ctx_v(*final(ctx)), r.1 as int) == blocks_run(
            ev@,
            p as int,
            ctx_v(*old(ctx)),
            Seq::empty(),
            None,
        ),
    decreases ev@.len() - p, 1int,
{
    let ghost c0 = ctx_v(*ctx);
    let mut acc: Vec<Block> = Vec::new();
    let mut pending: Option<bool> = None;
    let mut i = p;
    assert(blocks_v(acc@) =~= Seq::<BlockV>::empty());
    loop
        invariant
            p <= i <= ev@.len(),
            c0 == ctx_v(*old(ctx)),
            blocks_run(ev@, i as int, ctx_v(*ctx), blocks_v(acc@), pending) == blocks_run(
                ev@,
                p as int,
                c0,
                Seq::empty(),
                None,
            ),
        decreases ev@.len() - i,
    {
        if i >= ev.len() {
            return (acc, i);
        }
        match &ev[i] {
            MdEvent::Start(_) => {
                let (q, pd) = start_block(ev, i, ctx, &mut acc, pending);
                pending = pd;
                i = q;
                continue;
            },
            MdEvent::TaskListMarker(b) => {
                pending = Some(*b);
            },
            MdEvent::Html(_) => {
                match html_block(ev, i, ctx, &mut acc, pending) {
                    Some(q) => {
                        i = q;
                        continue;
                    },
                    None => {
                        return (acc, i + 1);
                    },
                }
            },
            MdEvent::DisplayMath(m) => {
                let b = Block::Math { text: m.clone() };
                proof {
                    lemma_blocks_v_push(acc@, b);
                }
                acc.push(b);
            },
            MdEvent::End(_) => {
                return (acc, i + 1);
            },
            MdEvent::Rule => {
                let b = Block::Rule;
                proof {
                    lemma_blocks_v_push(acc@, b);
                }
                acc.push(b);
            },
            _ => {},
        }
        i = i + 1;
    }
}

/// The items of a list from `p` on, and the position after the list's end.
pub fn parse_list(ev: &[MdEvent], p: usize, ctx: &mut ParseCtx) -> (r: (Vec<Vec<Block>>, usize))
    requires
        p <= ev@.len(),
    ensures
        (items_v(r.0@), ctx_v(*final(ctx)), r.1 as int) == list_run(
            ev@,
            p as int,
            ctx_v(*old(ctx)),
            Seq::empty(),
        ),
    decreases ev@.len() - p, 1int,
{
    let ghost c0 = ctx_v(*ctx);
    let mut items: Vec<Vec<Block>> = Vec::new();
    let mut i = p;
    assert(items_v(items@) =~= Seq::<Seq<BlockV>>::empty());
    loop
        invariant
            p <= i <= ev@.len(),
            c0 == ctx_v(*old(ctx)),
            list_run(ev@, i as int, ctx_v(*ctx), items_v(items@)) == list_run(
                ev@,
                p as int,
                c0,
                Seq::empty(),
            ),
        decreases ev@.len() - i,
    {
        if i >= ev.len() {
            return (items, i);
        }
        match &ev[i] {
            MdEvent::Start(MdTag::Item) => {
                let ghost cb = ctx_v(*ctx);
                let (inner, q) = parse_blocks(ev, i + 1, ctx);
                proof {
                    lemma_blocks_run(ev@, i + 1, cb, Seq::empty(), None);
                    lemma_items_v_push(items@, inner);
                }
                items.push(inner);
                i = q;
                continue;
            },
            MdEvent::End(MdTagEnd::List) => {
                return (items, i + 1);
            },
            _ => {},
        }
        i = i + 1;
    }
}

} // verus!
