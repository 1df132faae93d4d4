//! A whole document: preprocessing, the CommonMark parse, and the blocks built from it.

use vstd::prelude::*;
use crate::blocks::{blocks_run, ctx_v, parse_blocks, CtxV, ParseCtx};
use crate::commonmark::{commonmark_events, markdown_events};
use crate::markdown::{blocks_v, opt_v, BlockV, Doc, MdEvent};
use crate::preprocess::{
    files_v, pre_lines, pre_spec, preprocess, std_lines, FileV, PreV, Preprocessed, SourceFile,
};

verus! {

pub type DocV = (
    Option<Seq<char>>,
    Option<Seq<char>>,
    Seq<BlockV>,
    Seq<(Seq<char>, Seq<BlockV>)>,
    Seq<(u32, Seq<char>)>,
);

pub open spec fn doc_v(d: Doc) -> DocV {
    (
        opt_v(d.title),
        opt_v(d.description),
        blocks_v(d.blocks@),
        crate::blocks::notes_v(d.footnotes@),
        crate::blocks::heads_v(d.headings@),
    )
}

pub open spec fn empty_ctx() -> CtxV {
    (None, None, Seq::empty(), Seq::empty())
}

/// The document that an event stream gives: the blocks up to the first end event at the
/// top level, with the front matter, footnotes and headings met on the way.
pub open spec fn doc_of(ev: Seq<MdEvent>) -> DocV {
    let r = blocks_run(ev, 0, empty_ctx(), Seq::empty(), None);
    (r.1.0, r.1.1, r.0, r.1.2, r.1.3)
}

/// The document that the events `ev` give.
pub fn build_document(ev: &[MdEvent]) -> (r: Doc)
    ensures
        doc_v(r) == doc_of(ev@),
{
    let mut ctx = ParseCtx {
        title: None,
        description: None,
        footnotes: Vec::new(),
        headings: Vec::new(),
    };
    assert(ctx_v(ctx) == empty_ctx()) by {
        assert(crate::blocks::notes_v(ctx.footnotes@) =~= Seq::<(Seq<char>, Seq<BlockV>)>::empty());
        assert(crate::blocks::heads_v(ctx.headings@) =~= Seq::<(u32, Seq<char>)>::empty());
    }
    let (blocks, _end) = parse_blocks(ev, 0, &mut ctx);
    Doc {
        title: ctx.title,
        description: ctx.description,
        blocks,
        footnotes: ctx.footnotes,
        headings: ctx.headings,
    }
}

/// Without a directory, preprocessing never needs a file.
proof fn lemma_no_base_lines(
    ls: Seq<Seq<char>>,
    k: int,
    files: Seq<FileV>,
    depth: int,
    fence: Option<char>,
    flen: int,
    prev: bool,
    out: Seq<char>,
)
    ensures
        pre_lines(ls, k, false, files, depth, fence, flen, prev, out) is Done,
    decreases ls.len() - k,
{
    if 0 <= k < ls.len() && depth <= 10 {
        let l = ls[k];
        let t = crate::text::trim_start(l);
        let run = crate::preprocess::fence_run(t);
        if run >= 3 {
            let f = t[0];
            let (fence2, flen2) = match fence {
                Some(o) => if o == f && run >= flen {
                    (None, flen)
                } else {
                    (fence, flen)
                },
                None => (Some(f), run),
            };
            lemma_no_base_lines(ls, k + 1, files, depth, fence2, flen2, false, out + l + "\n"@);
        } else if fence is Some {
            lemma_no_base_lines(ls, k + 1, files, depth, fence, flen, prev, out + l + "\n"@);
        } else {
            let item = crate::vitepress::list_item_line(t);
            let out1 = if prev && item {
                out.push('\n')
            } else {
                out
            };
            let tail = crate::preprocess::line_tail(l, false, files);
            match tail {
                Ok(x) => lemma_no_base_lines(ls, k + 1, files, depth, fence, flen, item, out1 + x),
                Err(p) => {},
            }
        }
    }
}

/// The text that preprocessing gives (empty where a file is still needed).
pub open spec fn pre_text(p: PreV) -> Seq<char> {
    match p {
        PreV::Done(t) => t,
        PreV::NeedsFile(_) => Seq::empty(),
    }
}

/// The document of a page that has no directory (so nothing is included or imported).
///
/// Its blocks are those that `build_document` makes of the CommonMark events of the
/// preprocessed source.
pub fn parse_document(source: &str) -> (r: Doc)
    ensures
        pre_spec(source@, false, Seq::empty(), 0) is Done,
        doc_v(r) == doc_of(commonmark_events(pre_text(pre_spec(source@, false, Seq::empty(), 0)))),
{
    let files: Vec<SourceFile> = Vec::new();
    assert(files_v(files@) =~= Seq::<FileV>::empty());
    proof {
        lemma_no_base_lines(std_lines(source@), 0, files_v(files@), 0, None, 0, false, Seq::empty());
    }
    let text = match preprocess(source, false, &files, 0) {
        Preprocessed::Done(t) => t,
        Preprocessed::NeedsFile(_) => {
            assert(false);
            String::new()
        },
    };
    let ev = markdown_events(text.as_str());
    let d = build_document(&ev);
    assert(doc_v(d) == doc_of(ev@));
    d
}

/// The document of a page in a directory, given the files it includes or imports; when
/// a file is needed that `files` does not hold, its path (relative to the page's
/// directory) comes back instead.
pub fn parse_document_with(source: &str, files: &Vec<SourceFile>) -> (r: Result<Doc, String>)
    ensures
        match r {
            Ok(d) => (pre_spec(source@, true, files_v(files@), 0) is Done) && doc_v(d) == doc_of(
                commonmark_events(pre_text(pre_spec(source@, true, files_v(files@), 0))),
            ),
            Err(p) => pre_spec(source@, true, files_v(files@), 0) == PreV::NeedsFile(p@),
        },
{
    match preprocess(source, true, files, 0) {
        Preprocessed::Done(t) => {
            let ev = markdown_events(t.as_str());
            let d = build_document(&ev);
            assert(doc_v(d) == doc_of(ev@));
            Ok(d)
        },
        Preprocessed::NeedsFile(p) => Err(p),
    }
}

} // verus!
