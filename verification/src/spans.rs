//! Inline text spans that the Markdown parser leaves literal: `==mark==`, intraword
//! `^sup^` / `~sub~`, and `:shortcode:` emoji.

use vstd::prelude::*;
use crate::markdown::{InlineStyle, MARK_BG, SUPSUB_FADE};
use crate::text::{
    chars_of, find_char, find_from, find_seq, first_from, lemma_find_from, lemma_first_from,
    slice_vec, string_of,
};

verus! {

/// Text with its style.
pub type Segment = (String, InlineStyle);

pub open spec fn segs_v(v: Seq<Segment>) -> Seq<(Seq<char>, InlineStyle)> {
    v.map_values(|p: Segment| (p.0@, p.1))
}

/// `base` with the mark background.
pub open spec fn marked(base: InlineStyle) -> InlineStyle {
    InlineStyle { background: Some(MARK_BG), ..base }
}

/// `base` in the superscript / subscript look: italic and faded.
pub open spec fn raised(base: InlineStyle) -> InlineStyle {
    InlineStyle { italic: true, fade: Some(SUPSUB_FADE), ..base }
}

/// The pieces of `r` with `==marked==` spans split out (markdown-it-mark).
pub open spec fn mark_spans(r: Seq<char>, base: InlineStyle) -> Seq<(Seq<char>, InlineStyle)>
    decreases r.len(),
{
    match find_from(r, 0, seq!['=', '=']) {
        None => if r.len() > 0 {
            seq![(r, base)]
        } else {
            Seq::empty()
        },
        Some(i) => if 0 <= i && i + 2 <= r.len() {
            let after = r.skip(i + 2);
            match find_from(after, 0, seq!['=', '=']) {
                Some(j) => {
                    let inner = after.take(j);
                    if 0 < j && j + 2 <= after.len() && !inner.contains('=') {
                        (if i > 0 {
                            seq![(r.take(i), base)]
                        } else {
                            Seq::empty()
                        }) + seq![(inner, marked(base))] + mark_spans(after.skip(j + 2), base)
                    } else {
                        seq![(r, base)]
                    }
                },
                None => seq![(r, base)],
            }
        } else {
            seq![(r, base)]
        },
    }
}

fn mark_style(base: InlineStyle) -> (r: InlineStyle)
    ensures
        r == marked(base),
{
    InlineStyle { background: Some(MARK_BG), ..base }
}

fn raise_style(base: InlineStyle) -> (r: InlineStyle)
    ensures
        r == raised(base),
{
    InlineStyle { italic: true, fade: Some(SUPSUB_FADE), ..base }
}

fn has_char(s: &[char], lo: usize, hi: usize, c: char) -> (r: bool)
    requires
        lo <= hi <= s@.len(),
    ensures
        r == s@.subrange(lo as int, hi as int).contains(c),
{
    proof {
        lemma_first_from(s@, lo as int, hi as int, c);
    }
    match find_char(s, lo, hi, c) {
        Some(k) => {
            assert(s@.subrange(lo as int, hi as int)[k - lo] == c);
            true
        },
        None => {
            assert forall|j: int| 0 <= j < hi - lo implies s@.subrange(lo as int, hi as int)[j] != c by {
                assert(s@[lo + j] != c);
            }
            false
        },
    }
}

/// Split `==text==` mark spans out of plain text (markdown-it-mark).
pub fn split_mark(text: &str, base: InlineStyle) -> (r: Vec<Segment>)
    ensures
        segs_v(r@) == mark_spans(text@, base),
{
    let mut rest = chars_of(text);
    let mut out: Vec<Segment> = Vec::new();
    let pat: Vec<char> = vec!['=', '='];
    assert(pat@ =~= seq!['=', '=']);
    loop
        invariant
            segs_v(out@) + mark_spans(rest@, base) == mark_spans(text@, base),
            pat@ == seq!['=', '='],
        decreases rest@.len(),
    {
        let n = rest.len();
        proof {
            lemma_find_from(rest@, 0, pat@);
        }
        match find_seq(&rest, 0, &pat) {
            None => {
                let ghost prev = out@;
                if n > 0 {
                    out.push((string_of(&rest), base));
                    assert(segs_v(out@) =~= segs_v(prev) + seq![(rest@, base)]);
                } else {
                    assert(segs_v(out@) =~= segs_v(prev) + Seq::<(Seq<char>, InlineStyle)>::empty());
                }
                return out;
            },
            Some(i) => {
                let after = slice_vec(&rest, i + 2, n);
                assert(after@ =~= rest@.skip(i + 2));
                proof {
                    lemma_find_from(after@, 0, pat@);
                }
                let m = after.len();
                if let Some(j) = find_seq(&after, 0, &pat) {
                    if j > 0 && !has_char(&after, 0, j, '=') {
                        let ghost prev = out@;
                        assert(after@.subrange(0, j as int) =~= after@.take(j as int));
                        if i > 0 {
                            let head = slice_vec(&rest, 0, i);
                            assert(head@ =~= rest@.take(i as int));
                            out.push((string_of(&head), base));
                        }
                        let inner = slice_vec(&after, 0, j);
                        assert(inner@ =~= after@.take(j as int));
                        out.push((string_of(&inner), mark_style(base)));
                        let next = slice_vec(&after, j + 2, m);
                        assert(next@ =~= after@.skip(j + 2));
                        assert(segs_v(prev) + mark_spans(rest@, base) =~= segs_v(out@) + mark_spans(next@, base));
                        rest = next;
                        continue;
                    }
                    assert(after@.subrange(0, j as int) =~= after@.take(j as int));
                }
                let ghost prev = out@;
                out.push((string_of(&rest), base));
                assert(segs_v(out@) =~= segs_v(prev) + seq![(rest@, base)]);
                return out;
            },
        }
    }
}

/// Characters that may not occur inside a superscript or subscript span.
pub open spec fn bad_in_supsub(c: char) -> bool {
    c == ' ' || c == '\t' || c == '^' || c == '~'
}

/// Where the `^sup^` / `~sub~` span that opens at `i` closes, if one does.
pub open spec fn supsub_close(s: Seq<char>, i: int) -> Option<int> {
    match first_from(s, i + 1, s.len() as int, s[i]) {
        Some(k) => if i + 1 < k && forall|j: int| i + 1 <= j < k ==> !bad_in_supsub(#[trigger] s[j]) {
            Some(k)
        } else {
            None
        },
        None => None,
    }
}

/// The pieces of `s[i..]`, given the plain text `cur` gathered before `i` and the pieces
/// `acc` finished before that.
pub open spec fn supsub_loop(
    s: Seq<char>,
    i: int,
    cur: Seq<char>,
    acc: Seq<(Seq<char>, InlineStyle)>,
    base: InlineStyle,
) -> Seq<(Seq<char>, InlineStyle)>
    decreases s.len() - i,
{
    if i < 0 || i >= s.len() {
        if cur.len() > 0 {
            acc.push((cur, base))
        } else {
            acc
        }
    } else if s[i] == '~' && i + 1 < s.len() && s[i + 1] == '~' {
        supsub_loop(s, i + 2, cur + seq!['~', '~'], acc, base)
    } else if (s[i] == '^' || s[i] == '~') && supsub_close(s, i) is Some {
        let k = supsub_close(s, i)->0;
        if i < k < s.len() {
            let acc2 = if cur.len() > 0 {
                acc.push((cur, base))
            } else {
                acc
            };
            supsub_loop(s, k + 1, Seq::empty(), acc2.push((s.subrange(i + 1, k), raised(base))), base)
        } else {
            acc
        }
    } else {
        supsub_loop(s, i + 1, cur.push(s[i]), acc, base)
    }
}

/// The pieces of `s` with intraword `^sup^` / `~sub~` spans split out.
pub open spec fn supsub_spans(s: Seq<char>, base: InlineStyle) -> Seq<(Seq<char>, InlineStyle)> {
    if !s.contains('^') && !s.contains('~') {
        seq![(s, base)]
    } else {
        supsub_loop(s, 0, Seq::empty(), Seq::empty(), base)
    }
}

proof fn lemma_supsub_close(s: Seq<char>, i: int)
    requires
        0 <= i < s.len(),
    ensures
        supsub_close(s, i) matches Some(k) ==> i + 1 < k < s.len() && s[k] == s[i],
{
    lemma_first_from(s, i + 1, s.len() as int, s[i]);
}

/// Where the span opening at `i` closes (`s[i]` is `^` or `~`).
fn close_at(s: &[char], i: usize) -> (r: Option<usize>)
    requires
        i < s@.len(),
    ensures
        r == (match supsub_close(s@, i as int) {
            Some(k) => Some(k as usize),
            None => None::<usize>,
        }),
{
    let n = s.len();
    let c = s[i];
    proof {
        lemma_first_from(s@, i + 1, n as int, c);
    }
    match find_char(s, i + 1, n, c) {
        Some(k) => {
            if k == i + 1 {
                return None;
            }
            let mut j = i + 1;
            while j < k
                invariant
                    i + 1 <= j <= k < n == s@.len(),
                    first_from(s@, i + 1, n as int, s@[i as int]) == Some(k as int),
                    forall|m: int| i + 1 <= m < j ==> !bad_in_supsub(#[trigger] s@[m]),
                decreases k - j,
            {
                let d = s[j];
                if d == ' ' || d == '\t' || d == '^' || d == '~' {
                    assert(bad_in_supsub(s@[j as int]));
                    assert(!(forall|m: int| i + 1 <= m < k ==> !bad_in_supsub(#[trigger] s@[m])));
                    return None;
                }
                j = j + 1;
            }
            Some(k)
        },
        None => None,
    }
}

/// Split intraword `^sup^` / `~sub~` spans (markdown-it-sup / markdown-it-sub); `~~` is
/// left as it is.
pub fn split_supsub(text: &str, base: InlineStyle) -> (r: Vec<Segment>)
    ensures
        segs_v(r@) == supsub_spans(text@, base),
{
    let s = chars_of(text);
    let n = s.len();
    if !has_char(&s, 0, n, '^') && !has_char(&s, 0, n, '~') {
        assert(s@.subrange(0, n as int) =~= s@);
        let mut out: Vec<Segment> = Vec::new();
        out.push((string_of(&s), base));
        assert(segs_v(out@) =~= seq![(text@, base)]);
        return out;
    }
    assert(s@.subrange(0, n as int) =~= s@);
    let mut out: Vec<Segment> = Vec::new();
    let mut cur: Vec<char> = Vec::new();
    let mut i: usize = 0;
    assert(segs_v(out@) =~= Seq::<(Seq<char>, InlineStyle)>::empty());
    assert(cur@ =~= Seq::<char>::empty());
    while i < n
        invariant
            i <= n == s@.len(),
            s@ == text@,
            s@.contains('^') || s@.contains('~'),
            supsub_loop(s@, i as int, cur@, segs_v(out@), base) == supsub_loop(
                s@,
                0,
                Seq::empty(),
                Seq::empty(),
                base,
            ),
        decreases n - i,
    {
        let c = s[i];
        if c == '~' && i + 1 < n && s[i + 1] == '~' {
            let ghost cur0 = cur@;
            cur.push('~');
            cur.push('~');
            assert(cur@ =~= cur0 + seq!['~', '~']);
            i = i + 2;
            continue;
        }
        if c == '^' || c == '~' {
            proof {
                lemma_supsub_close(s@, i as int);
            }
            if let Some(k) = close_at(&s, i) {
                let ghost acc0 = segs_v(out@);
                if cur.len() > 0 {
                    out.push((string_of(&cur), base));
                    assert(segs_v(out@) =~= acc0.push((cur@, base)));
                }
                let inner = slice_vec(&s, i + 1, k);
                let ghost acc1 = segs_v(out@);
                out.push((string_of(&inner), raise_style(base)));
                assert(segs_v(out@) =~= acc1.push((s@.subrange(i + 1, k as int), raised(base))));
                cur = Vec::new();
                assert(cur@ =~= Seq::<char>::empty());
                i = k + 1;
                continue;
            }
        }
        cur.push(c);
        i = i + 1;
    }
    if cur.len() > 0 {
        let ghost acc0 = segs_v(out@);
        out.push((string_of(&cur), base));
        assert(segs_v(out@) =~= acc0.push((cur@, base)));
    }
    out
}

/// The emoji that a GitHub `:shortcode:` names, as the `emojis` crate's table has it.
pub uninterp spec fn shortcode_emoji(name: Seq<char>) -> Option<Seq<char>>;

/// `emojis::get_by_shortcode`, then `Emoji::as_str`: the emoji that the shortcode `name`
/// names, looked up in the crate's fixed table (so the same name always gives the same
/// answer); nothing more is claimed of the table.
#[verifier::external_body]
fn emoji_by_shortcode(name: &str) -> (r: Option<String>)
    ensures
        crate::markdown::opt_v(r) == shortcode_emoji(name@),
{
    match emojis::get_by_shortcode(name) {
        Some(e) => Some(e.as_str().to_string()),
        None => None,
    }
}

/// Characters of a shortcode: ASCII letters and digits, `_`, `+` and `-`.
pub open spec fn shortcode_char(c: char) -> bool {
    ('a' <= c && c <= 'z') || ('A' <= c && c <= 'Z') || ('0' <= c && c <= '9') || c == '_' || c
        == '+' || c == '-'
}

/// A name that may be looked up: 1 to 64 shortcode characters.
pub open spec fn valid_shortcode(name: Seq<char>) -> bool {
    0 < name.len() <= 64 && forall|k: int| 0 <= k < name.len() ==> shortcode_char(#[trigger] name[k])
}

/// `s` with every `:shortcode:` that names an emoji replaced by the emoji.
pub open spec fn emoji_text(s: Seq<char>) -> Seq<char>
    decreases s.len(),
{
    match first_from(s, 0, s.len() as int, ':') {
        Some(i) => if 0 <= i < s.len() {
            let after = s.skip(i + 1);
            match first_from(after, 0, after.len() as int, ':') {
                Some(e) => if 0 <= e < after.len() {
                    let name = after.take(e);
                    if valid_shortcode(name) && shortcode_emoji(name) is Some {
                        s.take(i) + shortcode_emoji(name)->0 + emoji_text(after.skip(e + 1))
                    } else {
                        s.take(i + 1) + emoji_text(after)
                    }
                } else {
                    s
                },
                None => s,
            }
        } else {
            s
        },
        None => s,
    }
}

fn is_shortcode(name: &[char]) -> (r: bool)
    ensures
        r == valid_shortcode(name@),
{
    let n = name.len();
    if n == 0 || n > 64 {
        return false;
    }
    let mut k: usize = 0;
    while k < n
        invariant
            k <= n == name@.len(),
            forall|j: int| 0 <= j < k ==> shortcode_char(#[trigger] name@[j]),
        decreases n - k,
    {
        let c = name[k];
        if !(('a' <= c && c <= 'z') || ('A' <= c && c <= 'Z') || ('0' <= c && c <= '9') || c
            == '_' || c == '+' || c == '-') {
            assert(!shortcode_char(name@[k as int]));
            return false;
        }
        k = k + 1;
    }
    true
}

/// Where the next `:shortcode:` candidate of `s` lies: the first `:` and the number of
/// characters up to the `:` after it.
pub open spec fn colon_pair(s: Seq<char>) -> Option<(int, int)> {
    match first_from(s, 0, s.len() as int, ':') {
        Some(i) => if 0 <= i < s.len() {
            let after = s.skip(i + 1);
            match first_from(after, 0, after.len() as int, ':') {
                Some(e) => if 0 <= e < after.len() {
                    Some((i, e))
                } else {
                    None
                },
                None => None,
            }
        } else {
            None
        },
        None => None,
    }
}

/// The name that the next replacement step looks up: the candidate between the colons,
/// when it is a valid shortcode.
pub open spec fn step_name(s: Seq<char>) -> Option<Seq<char>> {
    match colon_pair(s) {
        Some(p) => {
            let name = s.skip(p.0 + 1).take(p.1);
            if valid_shortcode(name) {
                Some(name)
            } else {
                None
            }
        },
        None => None,
    }
}

/// One replacement step over `s`, given what the looked-up name stands for (`found`):
/// the text it is done with and the text still to scan. With an emoji, the candidate and
/// its colons become the emoji; otherwise the first colon is kept as text. Without a
/// candidate all of `s` is done.
pub open spec fn emoji_step_of(s: Seq<char>, found: Option<Seq<char>>) -> (Seq<char>, Seq<char>) {
    match colon_pair(s) {
        None => (s, Seq::empty()),
        Some(p) => {
            let after = s.skip(p.0 + 1);
            if step_name(s) is Some && found is Some {
                (s.take(p.0) + found->0, after.skip(p.1 + 1))
            } else {
                (s.take(p.0 + 1), after)
            }
        },
    }
}

/// What the table gives for the name that the next step looks up.
pub open spec fn step_lookup(s: Seq<char>) -> Option<Seq<char>> {
    match step_name(s) {
        Some(n) => shortcode_emoji(n),
        None => None,
    }
}

/// The replacement is its first step followed by the replacement of the rest, and the
/// rest is shorter.
pub proof fn lemma_emoji_step(s: Seq<char>)
    ensures
        colon_pair(s) is None ==> emoji_text(s) == s,
        colon_pair(s) is Some ==> {
            let st = emoji_step_of(s, step_lookup(s));
            &&& emoji_text(s) == st.0 + emoji_text(st.1)
            &&& st.1.len() < s.len()
        },
{
}

/// One replacement step over `rest`, given what the name it looks up stands for.
pub fn emoji_step(rest: &str, found: Option<String>) -> (r: (String, String))
    ensures
        (r.0@, r.1@) == emoji_step_of(rest@, crate::markdown::opt_v(found)),
{
    let s = chars_of(rest);
    let n = s.len();
    proof {
        lemma_first_from(s@, 0, n as int, ':');
    }
    let i = match find_char(&s, 0, n, ':') {
        Some(i) => i,
        None => {
            return (string_of(&s), String::new());
        },
    };
    let after = slice_vec(&s, i + 1, n);
    assert(after@ =~= s@.skip(i + 1));
    let m = after.len();
    proof {
        lemma_first_from(after@, 0, m as int, ':');
    }
    let e = match find_char(&after, 0, m, ':') {
        Some(e) => e,
        None => {
            return (string_of(&s), String::new());
        },
    };
    let name = slice_vec(&after, 0, e);
    assert(name@ =~= after@.take(e as int));
    let valid = is_shortcode(&name);
    match found {
        Some(emoji) => {
            if valid {
                let mut done = slice_vec(&s, 0, i);
                let ev = chars_of(emoji.as_str());
                crate::text::extend_all(&mut done, &ev);
                let next = slice_vec(&after, e + 1, m);
                assert(next@ =~= after@.skip(e + 1));
                assert(done@ =~= s@.take(i as int) + emoji@);
                return (string_of(&done), string_of(&next));
            }
        },
        None => {},
    }
    let done = slice_vec(&s, 0, i + 1);
    assert(done@ =~= s@.take(i + 1));
    (string_of(&done), string_of(&after))
}

/// The name that the next step over `rest` looks up, and whether there is a candidate.
fn next_candidate(rest: &str) -> (r: (bool, Option<String>))
    ensures
        r.0 == (colon_pair(rest@) is Some),
        crate::markdown::opt_v(r.1) == step_name(rest@),
{
    let s = chars_of(rest);
    let n = s.len();
    proof {
        lemma_first_from(s@, 0, n as int, ':');
    }
    let i = match find_char(&s, 0, n, ':') {
        Some(i) => i,
        None => {
            return (false, None);
        },
    };
    let after = slice_vec(&s, i + 1, n);
    assert(after@ =~= s@.skip(i + 1));
    let m = after.len();
    proof {
        lemma_first_from(after@, 0, m as int, ':');
    }
    let e = match find_char(&after, 0, m, ':') {
        Some(e) => e,
        None => {
            return (false, None);
        },
    };
    let name = slice_vec(&after, 0, e);
    assert(name@ =~= after@.take(e as int));
    if is_shortcode(&name) {
        (true, Some(string_of(&name)))
    } else {
        (true, None)
    }
}

/// Replace `:shortcode:` emoji tokens with their Unicode glyphs.
pub fn replace_emoji(text: &str) -> (r: String)
    ensures
        r@ == emoji_text(text@),
{
    let mut rest = string_of(&chars_of(text));
    let mut out: Vec<char> = Vec::new();
    loop
        invariant
            out@ + emoji_text(rest@) == emoji_text(text@),
        decreases rest@.len(),
    {
        proof {
            lemma_emoji_step(rest@);
        }
        let (more, name) = next_candidate(rest.as_str());
        if !more {
            let rc = chars_of(rest.as_str());
            crate::text::extend_all(&mut out, &rc);
            return string_of(&out);
        }
        let found = match name {
            Some(n) => emoji_by_shortcode(n.as_str()),
            None => None,
        };
        let (done, next) = emoji_step(rest.as_str(), found);
        let dc = chars_of(done.as_str());
        let ghost out0 = out@;
        crate::text::extend_all(&mut out, &dc);
        assert(out0 + emoji_text(rest@) =~= out@ + emoji_text(next@));
        rest = next;
    }
}

} // verus!
