//! Inline content of a block, built from the events between its start and its end: text
//! with the spans of styled runs.

use vstd::prelude::*;
use crate::markdown::{
    inline_v, plain_style, Inline, InlineStyle, InlineV, MdEvent, MdTag, MdTagEnd, IMAGE_FADE, INLINE_CODE_BG,
    INLINE_CODE_FG, LINK_COLOR, MARK_BG, SUPSUB_FADE,
};
use crate::spans::{
    emoji_text, marked, mark_spans, raised, replace_emoji, segs_v, split_mark, split_supsub,
    supsub_spans, Segment,
};
use crate::html2md::is_lit;
use crate::text::{byte_at, byte_len, byte_offset, chars_of, lemma_byte_len_append, string_of, trim};
use crate::vitepress::{html_text, html_to_text, trimmed};

verus! {

/// What inline parsing has gathered so far.
pub struct InlineState {
    pub task: Option<bool>,
    pub segs: Seq<(Seq<char>, InlineStyle)>,
    pub style: InlineStyle,
    pub stack: Seq<InlineStyle>,
}

pub open spec fn code_style(s: InlineStyle) -> InlineStyle {
    InlineStyle { background: Some(INLINE_CODE_BG), color: Some(INLINE_CODE_FG), ..s }
}

pub open spec fn italic(s: InlineStyle) -> InlineStyle {
    InlineStyle { italic: true, ..s }
}

pub open spec fn link_colored(s: InlineStyle) -> InlineStyle {
    InlineStyle { color: Some(LINK_COLOR), ..s }
}

/// The style inside a span that `tag` opens (`None` when `tag` opens no styled span).
pub open spec fn span_style(tag: MdTag, s: InlineStyle) -> Option<InlineStyle> {
    match tag {
        MdTag::Emphasis => Some(InlineStyle { italic: true, ..s }),
        MdTag::Strong => Some(InlineStyle { bold: true, ..s }),
        MdTag::Strikethrough => Some(InlineStyle { strikethrough: true, ..s }),
        MdTag::Superscript | MdTag::Subscript => Some(raised(s)),
        MdTag::Link => Some(InlineStyle { underline: true, color: Some(LINK_COLOR), ..s }),
        MdTag::Image => Some(InlineStyle { fade: Some(IMAGE_FADE), ..s }),
        _ => None,
    }
}

/// The pieces of a text event: marks, then superscripts and subscripts split out, and
/// emoji shortcodes replaced in each piece.
pub open spec fn text_pieces(m: Seq<(Seq<char>, InlineStyle)>) -> Seq<(Seq<char>, InlineStyle)>
    decreases m.len(),
{
    if m.len() == 0 {
        Seq::empty()
    } else {
        text_pieces(m.drop_last()) + supsub_spans(m.last().0, m.last().1).map_values(
            |p: (Seq<char>, InlineStyle)| (emoji_text(p.0), p.1),
        )
    }
}

/// `st` with `x` appended to the pieces.
pub open spec fn with_seg(st: InlineState, x: (Seq<char>, InlineStyle)) -> InlineState {
    InlineState { segs: st.segs.push(x), ..st }
}

/// The style on top of the stack, or the plain style when it is empty (the stack then
/// stays empty).
pub open spec fn popped(st: InlineState) -> InlineState {
    if st.stack.len() > 0 {
        InlineState { style: st.stack.last(), stack: st.stack.drop_last(), ..st }
    } else {
        InlineState { style: plain_style(), ..st }
    }
}

/// One event applied to the state; `None` when the event ends the inline content.
pub open spec fn inline_event(st: InlineState, e: MdEvent) -> Option<InlineState> {
    match e {
        MdEvent::Text(t) => Some(
            InlineState { segs: st.segs + text_pieces(mark_spans(t@, st.style)), ..st },
        ),
        MdEvent::Code(c) => Some(with_seg(st, (c@, code_style(st.style)))),
        MdEvent::TaskListMarker(b) => Some(InlineState { task: Some(b), ..st }),
        MdEvent::SoftBreak => Some(with_seg(st, (seq![' '], st.style))),
        MdEvent::HardBreak => Some(with_seg(st, (seq!['\n'], st.style))),
        MdEvent::InlineMath(m) => Some(with_seg(st, (emoji_text(m@), italic(st.style)))),
        MdEvent::DisplayMath(m) => Some(with_seg(st, (emoji_text(m@), italic(st.style)))),
        MdEvent::FootnoteReference(l) => Some(
            with_seg(st, (seq!['['] + l@ + seq![']'], link_colored(st.style))),
        ),
        MdEvent::InlineHtml(h) => {
            let t = trim(h@);
            if t == "<mark>"@ || t == "<mark >"@ {
                Some(
                    InlineState {
                        style: InlineStyle { background: Some(MARK_BG), ..st.style },
                        stack: st.stack.push(st.style),
                        ..st
                    },
                )
            } else if t == "</mark>"@ || t == "</mark >"@ {
                Some(popped(st))
            } else if trim(html_text(h@)).len() > 0 {
                Some(with_seg(st, (html_text(h@), st.style)))
            } else {
                Some(st)
            }
        },
        MdEvent::Start(tag) => match span_style(tag, st.style) {
            Some(s) => Some(InlineState { style: s, stack: st.stack.push(st.style), ..st }),
            None => Some(st),
        },
        MdEvent::End(MdTagEnd::Span) => Some(popped(st)),
        _ => None,
    }
}

/// The state after the events from `p` on, and the position after the event that ended
/// the inline content (the end of the events if none did).
pub open spec fn inline_run(ev: Seq<MdEvent>, p: int, st: InlineState) -> (InlineState, int)
    decreases ev.len() - p,
{
    if p < 0 || p >= ev.len() {
        (st, p)
    } else {
        match inline_event(st, ev[p]) {
            Some(st2) => inline_run(ev, p + 1, st2),
            None => (st, p + 1),
        }
    }
}

/// Empty pieces dropped, and neighbours of the same style joined.
pub open spec fn merge_segs(v: Seq<(Seq<char>, InlineStyle)>) -> Seq<(Seq<char>, InlineStyle)>
    decreases v.len(),
{
    if v.len() == 0 {
        Seq::empty()
    } else {
        let m = merge_segs(v.drop_last());
        let x = v.last();
        if x.0.len() == 0 {
            m
        } else if m.len() > 0 && m.last().1 == x.1 {
            m.drop_last().push((m.last().0 + x.0, x.1))
        } else {
            m.push(x)
        }
    }
}

/// The text of the pieces, and the byte range of each styled piece with its style.
pub open spec fn inline_of(m: Seq<(Seq<char>, InlineStyle)>) -> InlineV
    decreases m.len(),
{
    if m.len() == 0 {
        (Seq::empty(), Seq::empty())
    } else {
        let prev = inline_of(m.drop_last());
        let x = m.last();
        let start = byte_len(prev.0);
        (
            prev.0 + x.0,
            if x.1 != plain_style() {
                prev.1.push(((start as usize, (start + byte_len(x.0)) as usize), x.1))
            } else {
                prev.1
            },
        )
    }
}

pub open spec fn inline_start() -> InlineState {
    InlineState { task: None, segs: Seq::empty(), style: plain_style(), stack: Seq::empty() }
}

/// The inline content that the events from `p` on give, the task marker among them, and
/// the position after the content.
pub open spec fn inline_at(ev: Seq<MdEvent>, p: int) -> (InlineV, Option<bool>, int) {
    let (st, q) = inline_run(ev, p, inline_start());
    (inline_of(merge_segs(st.segs)), st.task, q)
}

proof fn lemma_inline_run_pos(ev: Seq<MdEvent>, p: int, st: InlineState)
    requires
        0 <= p,
    ensures
        p <= inline_run(ev, p, st).1,
        p < ev.len() ==> p < inline_run(ev, p, st).1 <= ev.len(),
        p >= ev.len() ==> inline_run(ev, p, st).1 == p,
    decreases ev.len() - p,
{
    if p < ev.len() {
        if let Some(st2) = inline_event(st, ev[p]) {
            lemma_inline_run_pos(ev, p + 1, st2);
        }
    }
}

pub proof fn lemma_inline_at(ev: Seq<MdEvent>, p: int)
    requires
        0 <= p,
    ensures
        p <= inline_at(ev, p).2,
        p < ev.len() ==> p < inline_at(ev, p).2 <= ev.len(),
        p >= ev.len() ==> inline_at(ev, p).2 == p,
{
    lemma_inline_run_pos(ev, p, inline_start());
}

fn push_seg(v: &mut Vec<Segment>, t: Vec<char>, s: InlineStyle)
    ensures
        segs_v(final(v)@) == segs_v(old(v)@).push((t@, s)),
{
    v.push((string_of(&t), s));
    assert(segs_v(v@) =~= segs_v(old(v)@).push((t@, s)));
}

/// The pieces of one text event in style `s`.
fn text_segments(t: &str, s: InlineStyle) -> (r: Vec<Segment>)
    ensures
        segs_v(r@) == text_pieces(mark_spans(t@, s)),
{
    let marks = split_mark(t, s);
    let ghost mv = segs_v(marks@);
    let mut out: Vec<Segment> = Vec::new();
    let mut i: usize = 0;
    assert(mv.take(0) =~= Seq::<(Seq<char>, InlineStyle)>::empty());
    assert(segs_v(out@) =~= Seq::<(Seq<char>, InlineStyle)>::empty());
    while i < marks.len()
        invariant
            i <= marks@.len(),
            mv == segs_v(marks@),
            mv == mark_spans(t@, s),
            segs_v(out@) == text_pieces(mv.take(i as int)),
        decreases marks@.len() - i,
    {
        assert(mv.take(i + 1).drop_last() =~= mv.take(i as int));
        let pieces = split_supsub(marks[i].0.as_str(), marks[i].1);
        let ghost pv = segs_v(pieces@);
        let ghost out0 = segs_v(out@);
        let mut j: usize = 0;
        assert(pv.map_values(|p: (Seq<char>, InlineStyle)| (emoji_text(p.0), p.1)).take(0)
            =~= Seq::<(Seq<char>, InlineStyle)>::empty());
        while j < pieces.len()
            invariant
                j <= pieces@.len(),
                pv == segs_v(pieces@),
                segs_v(out@) == out0 + pv.map_values(
                    |p: (Seq<char>, InlineStyle)| (emoji_text(p.0), p.1),
                ).take(j as int),
            decreases pieces@.len() - j,
        {
            let e = replace_emoji(pieces[j].0.as_str());
            let ghost before = segs_v(out@);
            out.push((e, pieces[j].1));
            assert(segs_v(out@) =~= before.push((e@, pieces@[j as int].1)));
            assert(pv.map_values(|p: (Seq<char>, InlineStyle)| (emoji_text(p.0), p.1)).take(j + 1)
                =~= pv.map_values(|p: (Seq<char>, InlineStyle)| (emoji_text(p.0), p.1)).take(
                j as int,
            ).push((e@, pieces@[j as int].1)));
            j = j + 1;
        }
        assert(pv.map_values(|p: (Seq<char>, InlineStyle)| (emoji_text(p.0), p.1)).take(
            pieces@.len() as int,
        ) =~= pv.map_values(|p: (Seq<char>, InlineStyle)| (emoji_text(p.0), p.1)));
        i = i + 1;
    }
    assert(mv.take(marks@.len() as int) =~= mv);
    out
}

pub open spec fn pieces_v(v: Seq<(Vec<char>, InlineStyle)>) -> Seq<(Seq<char>, InlineStyle)> {
    v.map_values(|p: (Vec<char>, InlineStyle)| (p.0@, p.1))
}

/// `merge_segs` of `v`.
fn merge_pieces(v: &Vec<Segment>) -> (r: Vec<(Vec<char>, InlineStyle)>)
    ensures
        pieces_v(r@) == merge_segs(segs_v(v@)),
{
    let ghost sv = segs_v(v@);
    let mut m: Vec<(Vec<char>, InlineStyle)> = Vec::new();
    let mut i: usize = 0;
    assert(sv.take(0) =~= Seq::<(Seq<char>, InlineStyle)>::empty());
    assert(pieces_v(m@) =~= Seq::<(Seq<char>, InlineStyle)>::empty());
    while i < v.len()
        invariant
            i <= v@.len(),
            sv == segs_v(v@),
            pieces_v(m@) == merge_segs(sv.take(i as int)),
        decreases v@.len() - i,
    {
        assert(sv.take(i + 1).drop_last() =~= sv.take(i as int));
        let t = chars_of(v[i].0.as_str());
        let s = v[i].1;
        let ghost m0 = pieces_v(m@);
        if t.len() == 0 {
        } else {
            let n = m.len();
            if n > 0 && m[n - 1].1 == s {
                let last = m.pop().unwrap();
                let mut joined = last.0;
                crate::text::extend_all(&mut joined, &t);
                m.push((joined, s));
                assert(pieces_v(m@) =~= m0.drop_last().push((m0.last().0 + t@, s)));
            } else {
                m.push((t, s));
                assert(pieces_v(m@) =~= m0.push((t@, s)));
            }
        }
        i = i + 1;
    }
    assert(sv.take(v@.len() as int) =~= sv);
    m
}

/// Concatenation of the texts of the pieces.
pub open spec fn concat_pieces(m: Seq<(Seq<char>, InlineStyle)>) -> Seq<char>
    decreases m.len(),
{
    if m.len() == 0 {
        Seq::empty()
    } else {
        concat_pieces(m.drop_last()) + m.last().0
    }
}

proof fn lemma_inline_of_text(m: Seq<(Seq<char>, InlineStyle)>)
    ensures
        inline_of(m).0 == concat_pieces(m),
    decreases m.len(),
{
    if m.len() > 0 {
        lemma_inline_of_text(m.drop_last());
    }
}

proof fn lemma_concat_prefix(m: Seq<(Seq<char>, InlineStyle)>, j: int)
    requires
        0 <= j <= m.len(),
    ensures
        concat_pieces(m.take(j)).len() <= concat_pieces(m).len(),
        concat_pieces(m) == concat_pieces(m.take(j)) + concat_pieces(m).skip(
            concat_pieces(m.take(j)).len() as int,
        ),
    decreases m.len() - j,
{
    if j < m.len() {
        lemma_concat_prefix(m, j + 1);
        assert(m.take(j + 1).drop_last() =~= m.take(j));
        let a = concat_pieces(m.take(j));
        let b = concat_pieces(m.take(j + 1));
        assert(b == a + m[j].0);
        assert(concat_pieces(m) =~= a + concat_pieces(m).skip(a.len() as int));
    } else {
        assert(m.take(j) =~= m);
        assert(concat_pieces(m).skip(concat_pieces(m).len() as int) =~= Seq::<char>::empty());
    }
}

/// The inline value of the merged pieces.
fn inline_value(m: &Vec<(Vec<char>, InlineStyle)>) -> (r: Inline)
    ensures
        inline_v(r) == inline_of(pieces_v(m@)),
{
    let ghost mv = pieces_v(m@);
    let mut text: Vec<char> = Vec::new();
    let mut i: usize = 0;
    assert(mv.take(0) =~= Seq::<(Seq<char>, InlineStyle)>::empty());
    while i < m.len()
        invariant
            i <= m@.len(),
            mv == pieces_v(m@),
            text@ == concat_pieces(mv.take(i as int)),
        decreases m@.len() - i,
    {
        assert(mv.take(i + 1).drop_last() =~= mv.take(i as int));
        crate::text::extend_all(&mut text, &m[i].0);
        i = i + 1;
    }
    assert(mv.take(m@.len() as int) =~= mv);
    let s = string_of(&text);
    crate::text::str_fits(s.as_str());
    let mut hl: Vec<((usize, usize), InlineStyle)> = Vec::new();
    let mut pos: usize = 0;
    let mut j: usize = 0;
    let tl = text.len();
    proof {
        lemma_inline_of_text(mv.take(0));
    }
    while j < m.len()
        invariant
            j <= m@.len(),
            mv == pieces_v(m@),
            text@ == concat_pieces(mv),
            byte_len(text@) <= usize::MAX,
            pos == concat_pieces(mv.take(j as int)).len(),
            pos <= text@.len(),
            tl == text@.len(),
            inline_of(mv.take(j as int)).1 == hl@,
            inline_of(mv.take(j as int)).0 == concat_pieces(mv.take(j as int)),
            text@.take(pos as int) == concat_pieces(mv.take(j as int)),
        decreases m@.len() - j,
    {
        assert(mv.take(j + 1).drop_last() =~= mv.take(j as int));
        proof {
            lemma_concat_prefix(mv, j + 1);
            lemma_inline_of_text(mv.take(j + 1));
        }
        let k = m[j].0.len();
        let ghost prev = concat_pieces(mv.take(j as int));
        assert(concat_pieces(mv.take(j + 1)) == prev + mv[j as int].0);
        assert(pos + k <= text@.len());
        assert(text@.take(pos + k) =~= prev + mv[j as int].0) by {
            assert(text@ == concat_pieces(mv.take(j + 1)) + text@.skip(
                concat_pieces(mv.take(j + 1)).len() as int,
            ));
        }
        if m[j].1 != InlineStyle::default() {
            let a = byte_offset(&text, pos);
            let b = byte_offset(&text, pos + k);
            proof {
                lemma_byte_len_append(prev, mv[j as int].0);
            }
            hl.push(((a, b), m[j].1));
        }
        pos = pos + k;
        j = j + 1;
    }
    assert(mv.take(m@.len() as int) =~= mv);
    proof {
        lemma_inline_of_text(mv);
    }
    (s, hl)
}

/// Inline content from the events from `p` on: its text and styled ranges, the task
/// marker met on the way, and the position after the event that ended it.
pub fn parse_inline(ev: &[MdEvent], p: usize) -> (r: (Inline, Option<bool>, usize))
    requires
        p <= ev@.len(),
    ensures
        (inline_v(r.0), r.1, r.2 as int) == inline_at(ev@, p as int),
{
    let mut task: Option<bool> = None;
    let mut segs: Vec<Segment> = Vec::new();
    let mut style = InlineStyle::default();
    let mut stack: Vec<InlineStyle> = Vec::new();
    let mut i = p;
    assert(segs_v(segs@) =~= Seq::<(Seq<char>, InlineStyle)>::empty());
    assert(stack@ =~= Seq::<InlineStyle>::empty());
    loop
        invariant
            p <= i <= ev@.len(),
            inline_run(ev@, i as int, InlineState { task, segs: segs_v(segs@), style, stack: stack@ })
                == inline_run(ev@, p as int, inline_start()),
        decreases ev@.len() - i,
    {
        if i >= ev.len() {
            let merged = merge_pieces(&segs);
            return (inline_value(&merged), task, i);
        }
        let ghost st = InlineState { task, segs: segs_v(segs@), style, stack: stack@ };
        match &ev[i] {
            MdEvent::Text(t) => {
                let ts = text_segments(t.as_str(), style);
                let mut k: usize = 0;
                let ghost s0 = segs_v(segs@);
                assert(segs_v(ts@).take(0) =~= Seq::<(Seq<char>, InlineStyle)>::empty());
                while k < ts.len()
                    invariant
                        k <= ts@.len(),
                        segs_v(segs@) == s0 + segs_v(ts@).take(k as int),
                    decreases ts@.len() - k,
                {
                    let ghost before = segs_v(segs@);
                    segs.push((ts[k].0.clone(), ts[k].1));
                    assert(segs_v(segs@) =~= before.push((ts@[k as int].0@, ts@[k as int].1)));
                    assert(segs_v(ts@).take(k + 1) =~= segs_v(ts@).take(k as int).push((ts@[k as int].0@, ts@[k as int].1)));
                    k = k + 1;
                }
                assert(segs_v(ts@).take(ts@.len() as int) =~= segs_v(ts@));
            },
            MdEvent::Code(c) => {
                let cs = InlineStyle {
                    background: Some(INLINE_CODE_BG),
                    color: Some(INLINE_CODE_FG),
                    ..style
                };
                push_seg(&mut segs, chars_of(c.as_str()), cs);
            },
            MdEvent::TaskListMarker(b) => {
                task = Some(*b);
            },
            MdEvent::SoftBreak => {
                let mut v: Vec<char> = Vec::new();
                v.push(' ');
                assert(v@ =~= seq![' ']);
                push_seg(&mut segs, v, style);
            },
            MdEvent::HardBreak => {
                let mut v: Vec<char> = Vec::new();
                v.push('\n');
                assert(v@ =~= seq!['\n']);
                push_seg(&mut segs, v, style);
            },
            MdEvent::InlineMath(m) => {
                let t = replace_emoji(m.as_str());
                push_seg(&mut segs, chars_of(t.as_str()), InlineStyle { italic: true, ..style });
            },
            MdEvent::DisplayMath(m) => {
                let t = replace_emoji(m.as_str());
                push_seg(&mut segs, chars_of(t.as_str()), InlineStyle { italic: true, ..style });
            },
            MdEvent::FootnoteReference(l) => {
                let mut v: Vec<char> = Vec::new();
                v.push('[');
                let lv = chars_of(l.as_str());
                crate::text::extend_all(&mut v, &lv);
                v.push(']');
                assert(v@ =~= seq!['['] + l@ + seq![']']);
                push_seg(&mut segs, v, InlineStyle { color: Some(LINK_COLOR), ..style });
            },
            MdEvent::InlineHtml(h) => {
                let hv = chars_of(h.as_str());
                let t = trimmed(&hv);
                if is_lit(&t, "<mark>") || is_lit(&t, "<mark >") {
                    stack.push(style);
                    style = InlineStyle { background: Some(MARK_BG), ..style };
                } else if is_lit(&t, "</mark>") || is_lit(&t, "</mark >") {
                    match stack.pop() {
                        Some(s) => {
                            style = s;
                        },
                        None => {
                            style = InlineStyle::default();
                        },
                    }
                } else {
                    let text = html_to_text(h.as_str());
                    let tv = chars_of(text.as_str());
                    let tt = trimmed(&tv);
                    if tt.len() > 0 {
                        push_seg(&mut segs, tv, style);
                    }
                }
            },
            MdEvent::Start(tag) => {
                let ns: Option<InlineStyle> = match tag {
                    MdTag::Emphasis => Some(InlineStyle { italic: true, ..style }),
                    MdTag::Strong => Some(InlineStyle { bold: true, ..style }),
                    MdTag::Strikethrough => Some(InlineStyle { strikethrough: true, ..style }),
                    MdTag::Superscript | MdTag::Subscript => Some(
                        InlineStyle { italic: true, fade: Some(SUPSUB_FADE), ..style },
                    ),
                    MdTag::Link => Some(
                        InlineStyle { underline: true, color: Some(LINK_COLOR), ..style },
                    ),
                    MdTag::Image => Some(InlineStyle { fade: Some(IMAGE_FADE), ..style }),
                    _ => None,
                };
                if let Some(s) = ns {
                    stack.push(style);
                    style = s;
                }
            },
            MdEvent::End(MdTagEnd::Span) => {
                match stack.pop() {
                    Some(s) => {
                        style = s;
                    },
                    None => {
                        style = InlineStyle::default();
                    },
                }
            },
            _ => {
                assert(inline_event(st, ev@[i as int]) is None);
                i = i + 1;
                let merged = merge_pieces(&segs);
                return (inline_value(&merged), task, i);
            },
        }
        assert(inline_event(st, ev@[i as int]) == Some(
            InlineState { task, segs: segs_v(segs@), style, stack: stack@ },
        ));
        i = i + 1;
    }
}

} // verus!
