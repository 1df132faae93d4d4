//! Per-line Markdown parsing for the editing view: the text a line displays once its
//! markers are hidden, the source position of each displayed character, and the
//! style runs that cover the displayed text.

use vstd::prelude::*;
use crate::text::{
    byte_at, byte_len, byte_offsets, chars_of, count_digits, count_run, digit_run, extend_from,
    find_char, first_from, is_boundary, is_digit, lead_ws, run_of, skip_ws, string_of,
};

verus! {

/// Style of one run of displayed text.
#[derive(Clone, Copy, Debug, PartialEq, Eq, Structural)]
pub enum TextStyle {
    Plain,
    Bold,
    Italic,
    BoldItalic,
    Code,
    Strike,
    Mark,
    Link,
    Superscript,
    Subscript,
}

/// One styled run of displayed text.
#[derive(Clone, Debug)]
pub struct Seg {
    pub text: String,
    pub style: TextStyle,
}

/// Block-level style of a source line.
#[derive(Clone, Copy, Debug, PartialEq, Eq, Structural)]
pub enum LineStyle {
    Plain,
    Heading(u8),
    Quote,
    Bullet,
    Ordered,
    Fence,
    CodeLine,
    Rule,
}

/// A parsed source line.
#[derive(Clone, Debug)]
pub struct ParsedLine {
    /// Displayed text (markers removed).
    pub display: String,
    /// Source byte offset of every displayed character (strictly increasing).
    pub map: Vec<usize>,
    /// Byte length of the line-start marker (`# `, `- `, `> ` ...), which is not displayed.
    pub prefix_len: usize,
    pub line_style: LineStyle,
    /// Style runs; their texts, concatenated, are the displayed text.
    pub segs: Vec<Seg>,
}

/// Spec form of an inline parse result: displayed characters, the source character
/// position of each, and the style runs.
pub type InlineOut = (Seq<char>, Seq<int>, Seq<(Seq<char>, TextStyle)>);

pub open spec fn empty_out() -> InlineOut {
    (Seq::empty(), Seq::empty(), Seq::empty())
}

/// Appends `full[from..to]` as plain displayed text.
pub open spec fn flush_out(full: Seq<char>, from: int, to: int, o: InlineOut) -> InlineOut {
    (
        o.0 + full.subrange(from, to),
        o.1 + Seq::new((to - from) as nat, |k: int| from + k),
        if from < to {
            o.2.push((full.subrange(from, to), TextStyle::Plain))
        } else {
            o.2
        },
    )
}

/// Start of the trailing run of plain segments among the first `n`.
pub open spec fn plain_run_start(segs: Seq<(Seq<char>, TextStyle)>, n: int) -> int
    decreases n,
{
    if n <= 0 || n > segs.len() {
        0
    } else if segs[n - 1].1 == TextStyle::Plain {
        plain_run_start(segs, n - 1)
    } else {
        n
    }
}

/// The trailing plain segments become link segments.
pub open spec fn mark_link(segs: Seq<(Seq<char>, TextStyle)>) -> Seq<(Seq<char>, TextStyle)> {
    let st = plain_run_start(segs, segs.len() as int);
    Seq::new(segs.len(), |j: int| if j >= st { (segs[j].0, TextStyle::Link) } else { segs[j] })
}

/// Plain segments of an emphasis body take the emphasis style (bold around italic
/// text counts as bold-italic).
pub open spec fn restyle(segs: Seq<(Seq<char>, TextStyle)>, style: TextStyle) -> Seq<
    (Seq<char>, TextStyle),
> {
    let has_italic = exists|j: int| 0 <= j < segs.len() && segs[j].1 == TextStyle::Italic;
    let st = if has_italic && style == TextStyle::Bold {
        TextStyle::BoldItalic
    } else {
        style
    };
    Seq::new(
        segs.len(),
        |j: int| if segs[j].1 == TextStyle::Plain { (segs[j].0, st) } else { segs[j] },
    )
}

pub open spec fn style_for(c: char, ol: int) -> TextStyle {
    if c == '*' && ol == 3 {
        TextStyle::BoldItalic
    } else if c == '*' && ol == 2 {
        TextStyle::Bold
    } else if c == '*' && ol == 1 {
        TextStyle::Italic
    } else if c == '`' {
        TextStyle::Code
    } else if c == '~' && ol == 2 {
        TextStyle::Strike
    } else if c == '~' && ol == 1 {
        TextStyle::Subscript
    } else if c == '^' && ol == 1 {
        TextStyle::Superscript
    } else if c == '=' && ol == 2 {
        TextStyle::Mark
    } else {
        TextStyle::Plain
    }
}

/// Length of the emphasis opener at `i` (0 when there is none).
pub open spec fn open_len_at(full: Seq<char>, i: int, hi: int) -> int {
    let c = full[i];
    if c == '*' && hi - i > 2 && full[i + 1] == '*' && full[i + 2] == '*' {
        3
    } else if c == '*' && hi - i > 1 && full[i + 1] == '*' {
        2
    } else if c == '`' {
        1
    } else if c == '~' && hi - i > 1 && full[i + 1] == '~' {
        2
    } else if c == '~' {
        1
    } else if c == '^' {
        1
    } else if c == '=' && hi - i > 1 && full[i + 1] == '=' {
        2
    } else if c == '*' {
        1
    } else {
        0
    }
}

/// `delim` at `j` closes an opener of length `ol` whose body starts at `start`.
pub open spec fn closer_ok(full: Seq<char>, start: int, hi: int, delim: char, ol: int, j: int) -> bool {
    if ol == 3 {
        j + 2 < hi && full[j + 1] == delim && full[j + 2] == delim
    } else if ol == 2 {
        j + 1 < hi && full[j + 1] == delim
    } else if delim == '~' || delim == '*' {
        !(j > start && full[j - 1] == delim) && !(j + 1 < hi && full[j + 1] == delim)
    } else {
        true
    }
}

/// Position of the closer in `start..hi`, scanning from `j` (a backslash skips the next character).
pub open spec fn closer_from(full: Seq<char>, start: int, hi: int, delim: char, ol: int, j: int) -> Option<int>
    decreases hi - j,
{
    if j < start || j >= hi || hi > full.len() || start < 0 {
        None
    } else if full[j] == '\\' {
        if j + 2 <= hi {
            closer_from(full, start, hi, delim, ol, j + 2)
        } else {
            None
        }
    } else if full[j] == delim && closer_ok(full, start, hi, delim, ol, j) {
        Some(j)
    } else {
        closer_from(full, start, hi, delim, ol, j + 1)
    }
}

pub proof fn lemma_closer_from(full: Seq<char>, start: int, hi: int, delim: char, ol: int, j: int)
    ensures
        closer_from(full, start, hi, delim, ol, j) matches Some(k) ==> start <= j <= k < hi,
    decreases hi - j,
{
    if j < start || j >= hi || hi > full.len() || start < 0 {
    } else if full[j] == '\\' {
        if j + 2 <= hi {
            lemma_closer_from(full, start, hi, delim, ol, j + 2);
        }
    } else if full[j] == delim && closer_ok(full, start, hi, delim, ol, j) {
    } else {
        lemma_closer_from(full, start, hi, delim, ol, j + 1);
    }
}

/// `[text](url)` at `i`: (length of `text`, total length).
pub open spec fn link_at(full: Seq<char>, i: int, hi: int) -> Option<(int, int)> {
    match first_from(full, i + 1, hi, ']') {
        None => None,
        Some(k) => if k + 1 < hi && full[k + 1] == '(' {
            match first_from(full, k + 2, hi, ')') {
                Some(m) => Some((k - i - 1, m + 1 - i)),
                None => None,
            }
        } else {
            None
        },
    }
}

pub open spec fn link_ok(full: Seq<char>, i: int, hi: int) -> bool {
    link_at(full, i, hi) matches Some(lt) && 0 <= lt.0 && i + 1 + lt.0 < i + lt.1 && i + lt.1 <= hi
}

pub open spec fn emph_ok(full: Seq<char>, i: int, hi: int) -> bool {
    let ol = open_len_at(full, i, hi);
    &&& ol > 0
    &&& closer_from(full, i + ol, hi, full[i], ol, i + ol) matches Some(j)
    &&& i + ol <= j
    &&& j + ol <= hi
}

/// The inline scanner from position `i` (plain text pending since `ps`), on `full[lo..hi]`.
pub open spec fn scan(full: Seq<char>, lo: int, hi: int, i: int, ps: int, o: InlineOut) -> InlineOut
    decreases hi - lo, hi - i,
{
    if !(0 <= lo <= ps <= i <= hi <= full.len()) {
        o
    } else if i == hi {
        flush_out(full, ps, hi, o)
    } else if full[i] == '\\' && i + 1 < hi {
        scan(full, lo, hi, i + 2, ps, o)
    } else if full[i] == '[' && link_ok(full, i, hi) {
        let lt = link_at(full, i, hi)->0;
        let tl = lt.0;
        let total = lt.1;
        let o1 = flush_out(full, ps, i, o);
        let o2 = parse_into(full, i + 1, i + 1 + tl, o1);
        scan(full, lo, hi, i + total, i + total, (o2.0, o2.1, mark_link(o2.2)))
    } else if emph_ok(full, i, hi) {
        let ol = open_len_at(full, i, hi);
        let j = closer_from(full, i + ol, hi, full[i], ol, i + ol)->0;
        let o1 = flush_out(full, ps, i, o);
        let inner = parse_into(full, i + ol, j, empty_out());
        let o2 = (o1.0 + inner.0, o1.1 + inner.1, o1.2 + restyle(inner.2, style_for(full[i], ol)));
        scan(full, lo, hi, j + ol, j + ol, o2)
    } else {
        scan(full, lo, hi, i + 1, ps, o)
    }
}

/// Inline parse of `full[lo..hi]`, appended to `o`.
pub open spec fn parse_into(full: Seq<char>, lo: int, hi: int, o: InlineOut) -> InlineOut
    decreases hi - lo, hi - lo + 1,
{
    if 0 <= lo <= hi {
        scan(full, lo, hi, lo, lo, o)
    } else {
        o
    }
}


/// Inline parse accumulator: displayed characters, their source character positions,
/// and the style runs (texts and styles side by side).
pub struct InlineAcc {
    pub display: Vec<char>,
    pub map: Vec<usize>,
    pub texts: Vec<Vec<char>>,
    pub styles: Vec<TextStyle>,
}

impl InlineAcc {
    pub open spec fn runs(&self) -> Seq<(Seq<char>, TextStyle)> {
        Seq::new(self.styles@.len(), |j: int| (self.texts@[j]@, self.styles@[j]))
    }

    pub open spec fn out(&self) -> InlineOut {
        (self.display@, self.map@.map_values(|x: usize| x as int), self.runs())
    }

    pub open spec fn inv(&self) -> bool {
        self.texts@.len() == self.styles@.len()
    }

    pub fn new() -> (r: Self)
        ensures
            r.inv(),
            r.out() == empty_out(),
    {
        let r = InlineAcc { display: Vec::new(), map: Vec::new(), texts: Vec::new(), styles: Vec::new() };
        assert(r.out().1 =~= Seq::<int>::empty());
        assert(r.runs() =~= Seq::<(Seq<char>, TextStyle)>::empty());
        r
    }
}

fn open_len(full: &[char], i: usize, hi: usize) -> (r: usize)
    requires
        i < hi <= full@.len(),
    ensures
        r == open_len_at(full@, i as int, hi as int),
        r <= 3,
{
    let c = full[i];
    if c == '*' && hi - i > 2 && full[i + 1] == '*' && full[i + 2] == '*' {
        3
    } else if c == '*' && hi - i > 1 && full[i + 1] == '*' {
        2
    } else if c == '`' {
        1
    } else if c == '~' && hi - i > 1 && full[i + 1] == '~' {
        2
    } else if c == '~' {
        1
    } else if c == '^' {
        1
    } else if c == '=' && hi - i > 1 && full[i + 1] == '=' {
        2
    } else if c == '*' {
        1
    } else {
        0
    }
}

/// Finds the closer of an opener of length `ol` in `start..hi`.
fn find_closer(full: &[char], start: usize, hi: usize, delim: char, ol: usize) -> (r: Option<usize>)
    requires
        start <= hi <= full@.len(),
    ensures
        r == (match closer_from(full@, start as int, hi as int, delim, ol as int, start as int) {
            Some(j) => Some(j as usize),
            None => None::<usize>,
        }),
        r matches Some(j) ==> start <= j < hi,
        r matches Some(j) ==> closer_from(full@, start as int, hi as int, delim, ol as int, start as int) == Some(j as int),
        r is None ==> closer_from(full@, start as int, hi as int, delim, ol as int, start as int) is None,
{
    let mut j = start;
    while j < hi
        invariant
            start <= j <= hi + 1,
            hi <= full@.len(),
            closer_from(full@, start as int, hi as int, delim, ol as int, start as int)
                == closer_from(full@, start as int, hi as int, delim, ol as int, j as int),
        decreases hi + 1 - j,
    {
        let c = full[j];
        if c == '\\' {
            if hi - j < 2 {
                return None;
            }
            j = j + 2;
            continue;
        }
        if c == delim {
            let ok = if ol == 3 {
                hi - j > 2 && full[j + 1] == delim && full[j + 2] == delim
            } else if ol == 2 {
                hi - j > 1 && full[j + 1] == delim
            } else if delim == '~' || delim == '*' {
                let prev_same = j > start && full[j - 1] == delim;
                let next_same = hi - j > 1 && full[j + 1] == delim;
                !prev_same && !next_same
            } else {
                true
            };
            if ok {
                return Some(j);
            }
        }
        j = j + 1;
    }
    None
}

/// Finds `[text](url)` at `i`: (length of `text`, total length).
fn find_link(full: &[char], i: usize, hi: usize) -> (r: Option<(usize, usize)>)
    requires
        i < hi <= full@.len(),
    ensures
        r == (match link_at(full@, i as int, hi as int) {
            Some(lt) => Some((lt.0 as usize, lt.1 as usize)),
            None => None::<(usize, usize)>,
        }),
        r matches Some(lt) ==> link_ok(full@, i as int, hi as int),
{
    proof {
        crate::text::lemma_first_from(full@, i + 1, hi as int, ']');
    }
    match find_char(full, i + 1, hi, ']') {
        None => None,
        Some(k) => {
            if k + 1 < hi && full[k + 1] == '(' {
                proof {
                    crate::text::lemma_first_from(full@, k + 2, hi as int, ')');
                }
                match find_char(full, k + 2, hi, ')') {
                    Some(m) => Some((k - i - 1, m + 1 - i)),
                    None => None,
                }
            } else {
                None
            }
        },
    }
}

/// Appends `full[from..to]` as plain text.
fn flush(full: &[char], from: usize, to: usize, acc: &mut InlineAcc)
    requires
        from <= to <= full@.len(),
        old(acc).inv(),
    ensures
        final(acc).inv(),
        final(acc).out() == flush_out(full@, from as int, to as int, old(acc).out()),
{
    let ghost o = acc.out();
    let mut j = from;
    while j < to
        invariant
            from <= j <= to <= full@.len(),
            acc.inv(),
            acc.texts@ == old(acc).texts@,
            acc.styles@ == old(acc).styles@,
            acc.display@ == old(acc).display@ + full@.subrange(from as int, j as int),
            acc.map@.len() == o.1.len() + (j - from),
            forall|k: int| 0 <= k < o.1.len() ==> acc.map@[k] as int == o.1[k],
            forall|k: int| o.1.len() <= k < acc.map@.len() ==> #[trigger] acc.map@[k] as int == from + (k - o.1.len()),
        decreases to - j,
    {
        acc.display.push(full[j]);
        acc.map.push(j);
        j = j + 1;
        assert(acc.display@ =~= old(acc).display@ + full@.subrange(from as int, j as int));
    }
    assert(acc.map@.map_values(|x: usize| x as int) =~= o.1 + Seq::new(
        (to - from) as nat,
        |k: int| from + k,
    ));
    if from < to {
        let t = crate::text::slice_vec(full, from, to);
        acc.texts.push(t);
        acc.styles.push(TextStyle::Plain);
    }
    assert(acc.runs() =~= flush_out(full@, from as int, to as int, o).2);
}

/// Trailing plain runs become link runs.
fn mark_last_link(acc: &mut InlineAcc)
    requires
        old(acc).inv(),
    ensures
        final(acc).inv(),
        final(acc).display@ == old(acc).display@,
        final(acc).map@ == old(acc).map@,
        final(acc).runs() == mark_link(old(acc).runs()),
{
    let ghost r0 = acc.runs();
    let n = acc.styles.len();
    let mut k = n;
    while k > 0 && acc.styles[k - 1] == TextStyle::Plain
        invariant
            k <= n == acc.styles@.len() == r0.len(),
            acc.inv(),
            acc.display@ == old(acc).display@,
            acc.map@ == old(acc).map@,
            acc.texts@ == old(acc).texts@,
            plain_run_start(r0, n as int) == plain_run_start(r0, k as int),
            forall|j: int| 0 <= j < k ==> acc.styles@[j] == r0[j].1,
            forall|j: int| k <= j < n ==> acc.styles@[j] == TextStyle::Link,
        decreases k,
    {
        acc.styles.set(k - 1, TextStyle::Link);
        k = k - 1;
    }
    assert(acc.runs() =~= mark_link(r0));
}

/// Plain runs of `acc` take `style` (bold over an italic run counts as bold-italic).
fn restyle_runs(acc: &mut InlineAcc, style: TextStyle)
    requires
        old(acc).inv(),
    ensures
        final(acc).inv(),
        final(acc).display@ == old(acc).display@,
        final(acc).map@ == old(acc).map@,
        final(acc).runs() == restyle(old(acc).runs(), style),
{
    let ghost r0 = acc.runs();
    let n = acc.styles.len();
    let mut has_italic = false;
    let mut j: usize = 0;
    while j < n
        invariant
            j <= n == acc.styles@.len() == r0.len(),
            acc.inv(),
            acc.runs() == r0,
            has_italic == exists|q: int| 0 <= q < j && r0[q].1 == TextStyle::Italic,
        decreases n - j,
    {
        assert(r0[j as int].1 == acc.styles@[j as int]);
        if acc.styles[j] == TextStyle::Italic {
            has_italic = true;
        }
        j = j + 1;
    }
    let st = if has_italic && style == TextStyle::Bold {
        TextStyle::BoldItalic
    } else {
        style
    };
    let mut k: usize = 0;
    while k < n
        invariant
            k <= n == acc.styles@.len() == r0.len(),
            acc.inv(),
            acc.display@ == old(acc).display@,
            acc.map@ == old(acc).map@,
            acc.texts@ == old(acc).texts@,
            forall|q: int| 0 <= q < k ==> acc.styles@[q] == (if r0[q].1 == TextStyle::Plain {
                st
            } else {
                r0[q].1
            }),
            forall|q: int| k <= q < n ==> acc.styles@[q] == r0[q].1,
        decreases n - k,
    {
        if acc.styles[k] == TextStyle::Plain {
            acc.styles.set(k, st);
        }
        k = k + 1;
    }
    assert(acc.runs() =~= restyle(r0, style));
}

/// Appends everything of `inner` to `acc`.
fn append_acc(acc: &mut InlineAcc, inner: InlineAcc)
    requires
        old(acc).inv(),
        inner.inv(),
    ensures
        final(acc).inv(),
        final(acc).out() == (old(acc).out().0 + inner.out().0, old(acc).out().1 + inner.out().1,
            old(acc).out().2 + inner.out().2),
{
    let ghost o = acc.out();
    let ghost io = inner.out();
    let InlineAcc { display, map, texts, styles } = inner;
    let mut display = display;
    let mut map = map;
    let mut texts = texts;
    let mut styles = styles;
    acc.display.append(&mut display);
    acc.map.append(&mut map);
    acc.texts.append(&mut texts);
    acc.styles.append(&mut styles);
    assert(acc.map@.map_values(|x: usize| x as int) =~= o.1 + io.1);
    assert(acc.runs() =~= o.2 + io.2);
}


fn style_of(c: char, ol: usize) -> (r: TextStyle)
    ensures
        r == style_for(c, ol as int),
{
    if c == '*' && ol == 3 {
        TextStyle::BoldItalic
    } else if c == '*' && ol == 2 {
        TextStyle::Bold
    } else if c == '*' && ol == 1 {
        TextStyle::Italic
    } else if c == '`' {
        TextStyle::Code
    } else if c == '~' && ol == 2 {
        TextStyle::Strike
    } else if c == '~' && ol == 1 {
        TextStyle::Subscript
    } else if c == '^' && ol == 1 {
        TextStyle::Superscript
    } else if c == '=' && ol == 2 {
        TextStyle::Mark
    } else {
        TextStyle::Plain
    }
}

/// Inline-parses `full[lo..hi]` onto `acc`.
pub fn parse_inline_body(full: &[char], lo: usize, hi: usize, acc: &mut InlineAcc)
    requires
        lo <= hi <= full@.len(),
        old(acc).inv(),
    ensures
        final(acc).inv(),
        final(acc).out() == parse_into(full@, lo as int, hi as int, old(acc).out()),
    decreases hi - lo,
{
    let ghost o0 = acc.out();
    let mut i = lo;
    let mut ps = lo;
    while i < hi
        invariant
            lo <= ps <= i <= hi <= full@.len(),
            acc.inv(),
            parse_into(full@, lo as int, hi as int, o0) == scan(
                full@,
                lo as int,
                hi as int,
                i as int,
                ps as int,
                acc.out(),
            ),
        decreases hi - i,
    {
        let ghost oi = acc.out();
        let c = full[i];
        if c == '\\' && hi - i > 1 {
            i = i + 2;
            continue;
        }
        if c == '[' {
            match find_link(full, i, hi) {
                Some((tl, total)) => {
                    flush(full, ps, i, acc);
                    parse_inline_body(full, i + 1, i + 1 + tl, acc);
                    mark_last_link(acc);
                    i = i + total;
                    ps = i;
                    continue;
                },
                None => {},
            }
        }
        let ol = open_len(full, i, hi);
        if ol > 0 && ol <= hi - i {
            match find_closer(full, i + ol, hi, c, ol) {
                Some(j) => {
                    if ol <= hi - j {
                        flush(full, ps, i, acc);
                        let mut inner = InlineAcc::new();
                        parse_inline_body(full, i + ol, j, &mut inner);
                        restyle_runs(&mut inner, style_of(c, ol));
                        append_acc(acc, inner);
                        i = j + ol;
                        ps = i;
                        continue;
                    }
                },
                None => {},
            }
        }
        i = i + 1;
    }
    flush(full, ps, hi, acc);
}


/// A line is a code fence when, after leading whitespace, it starts with at least
/// three backticks or three tildes.
pub open spec fn fence_line(s: Seq<char>) -> bool {
    let l = lead_ws(s);
    l < s.len() && (s[l] == '`' || s[l] == '~') && run_of(s, l, s[l]) >= 3
}

/// Whether `line` is a code fence line (three or more backticks or tildes after indentation).
pub fn is_fence_line(line: &str) -> (r: bool)
    ensures
        r == fence_line(line@),
{
    let s = chars_of(line);
    is_fence_chars(&s)
}

pub fn is_fence_chars(s: &[char]) -> (r: bool)
    ensures
        r == fence_line(s@),
{
    proof {
        crate::text::lemma_ws_run(s@, 0);
    }
    let l = skip_ws(s, 0);
    if l < s.len() && (s[l] == '`' || s[l] == '~') {
        count_run(s, l, s[l]) >= 3
    } else {
        false
    }
}

/// Block style of a line and the number of characters of its line-start marker.
pub open spec fn detect(s: Seq<char>) -> (LineStyle, int) {
    let l = lead_ws(s);
    let n = run_of(s, 0, '#');
    let d = digit_run(s, l);
    if s.len() >= 3 && s[0] == '`' && s[1] == '`' && s[2] == '`' {
        (LineStyle::Fence, 0)
    } else if s.len() >= 3 && s[0] == '~' && s[1] == '~' && s[2] == '~' {
        (LineStyle::Fence, 0)
    } else if l + 3 <= s.len() && ((s[l] == '-' && s[l + 1] == '-' && s[l + 2] == '-') || (s[l]
        == '*' && s[l + 1] == '*' && s[l + 2] == '*') || (s[l] == '_' && s[l + 1] == '_' && s[l
        + 2] == '_')) {
        (LineStyle::Rule, 0)
    } else if 1 <= n <= 6 && (n == s.len() || s[n] == ' ') {
        (LineStyle::Heading(n as u8), if n == s.len() { n } else { n + 1 })
    } else if l < s.len() && s[l] == '>' {
        (LineStyle::Quote, if l + 1 < s.len() && s[l + 1] == ' ' { l + 2 } else { l + 1 })
    } else if l + 1 < s.len() && (s[l] == '-' || s[l] == '*' || s[l] == '+') && s[l + 1] == ' ' {
        (LineStyle::Bullet, l + 2)
    } else if d > 0 && l + d + 1 < s.len() && (s[l + d] == '.' || s[l + d] == ')') && s[l + d + 1]
        == ' ' {
        (LineStyle::Ordered, l + d + 2)
    } else {
        (LineStyle::Plain, 0)
    }
}

pub proof fn lemma_detect(s: Seq<char>)
    ensures
        0 <= detect(s).1 <= s.len(),
{
    crate::text::lemma_ws_run(s, 0);
    crate::text::lemma_run_of(s, 0, '#');
    crate::text::lemma_digit_run(s, lead_ws(s));
}

pub fn detect_line_style(s: &[char]) -> (r: (LineStyle, usize))
    ensures
        r.0 == detect(s@).0,
        r.1 == detect(s@).1,
        r.1 <= s@.len(),
{
    proof {
        lemma_detect(s@);
        crate::text::lemma_ws_run(s@, 0);
    }
    let len = s.len();
    if len >= 3 && s[0] == '`' && s[1] == '`' && s[2] == '`' {
        return (LineStyle::Fence, 0);
    }
    if len >= 3 && s[0] == '~' && s[1] == '~' && s[2] == '~' {
        return (LineStyle::Fence, 0);
    }
    let l = skip_ws(s, 0);
    if len - l >= 3 && ((s[l] == '-' && s[l + 1] == '-' && s[l + 2] == '-') || (s[l] == '*'
        && s[l + 1] == '*' && s[l + 2] == '*') || (s[l] == '_' && s[l + 1] == '_' && s[l + 2]
        == '_')) {
        return (LineStyle::Rule, 0);
    }
    let n = count_run(s, 0, '#');
    if 1 <= n && n <= 6 && (n == len || s[n] == ' ') {
        let extra = if n == len {
            0
        } else {
            1
        };
        return (LineStyle::Heading(n as u8), n + extra);
    }
    if l < len && s[l] == '>' {
        let plen = if len - l > 1 && s[l + 1] == ' ' {
            2
        } else {
            1
        };
        return (LineStyle::Quote, l + plen);
    }
    if len - l > 1 && (s[l] == '-' || s[l] == '*' || s[l] == '+') && s[l + 1] == ' ' {
        return (LineStyle::Bullet, l + 2);
    }
    let d = count_digits(s, l);
    if d > 0 && len - l - d > 1 && (s[l + d] == '.' || s[l + d] == ')') && s[l + d + 1] == ' ' {
        return (LineStyle::Ordered, l + d + 2);
    }
    (LineStyle::Plain, 0)
}

/// Drops the leading run of `c`.
pub open spec fn strip_lead(s: Seq<char>, c: char) -> Seq<char> {
    s.skip(run_of(s, 0, c))
}

/// The displayed text of a fence line or of a line inside a fence.
pub open spec fn code_display(s: Seq<char>, style: LineStyle, pc: int) -> Seq<char> {
    if style == LineStyle::Fence {
        strip_lead(strip_lead(s.skip(pc), '`'), '~')
    } else {
        s.skip(pc)
    }
}

/// The number of characters of a line's start marker: none inside a fence, where the
/// line is shown as written.
pub open spec fn line_prefix_chars(s: Seq<char>, in_fence: bool) -> int {
    if in_fence {
        0
    } else {
        detect(s).1
    }
}

/// The spec of `parse_line` over the characters of the line.
pub open spec fn parsed_ok(p: ParsedLine, s: Seq<char>, in_fence: bool) -> bool {
    let st = detect(s).0;
    let pc = line_prefix_chars(s, in_fence);
    &&& p.prefix_len == byte_at(s, pc)
    &&& if in_fence || st == LineStyle::Fence {
        let disp = code_display(s, st, pc);
        let b = s.len() - disp.len();
        &&& p.display@ == disp
        &&& p.map@.len() == disp.len()
        &&& forall|k: int| 0 <= k < disp.len() ==> #[trigger] p.map@[k] == byte_at(s, b + k)
        &&& p.line_style == (if in_fence { LineStyle::CodeLine } else { st })
        &&& p.segs@.len() == 1
        &&& p.segs@[0].text@ == disp
        &&& p.segs@[0].style == TextStyle::Code
    } else {
        let o = parse_into(s, pc, s.len() as int, empty_out());
        &&& p.display@ == o.0
        &&& p.map@.len() == o.1.len()
        &&& forall|k: int| 0 <= k < o.1.len() ==> #[trigger] p.map@[k] == byte_at(s, o.1[k])
        &&& p.line_style == st
        &&& p.segs@.len() == o.2.len()
        &&& forall|k: int| 0 <= k < o.2.len() ==> (#[trigger] p.segs@[k]).text@ == o.2[k].0
            && p.segs@[k].style == o.2[k].1
    }
}

/// Properties every parse of a line has: one source offset per displayed character,
/// offsets strictly increasing and inside the line, and style runs that tile the
/// displayed text.
pub open spec fn parsed_laws(p: ParsedLine, s: Seq<char>) -> bool {
    &&& p.map@.len() == p.display@.len()
    &&& forall|a: int, b: int| 0 <= a < b < p.map@.len() ==> #[trigger] p.map@[a] < #[trigger] p.map@[b]
    &&& forall|k: int| 0 <= k < p.map@.len() ==> #[trigger] p.map@[k] < byte_len(s)
    &&& flat(Seq::new(p.segs@.len(), |k: int| (p.segs@[k].text@, p.segs@[k].style))) == p.display@
}

/// Parses a source line into its displayed text, the byte offset of each displayed
/// character, and its style runs. Markers never span lines.
pub fn parse_line(src: &str, in_fence: bool) -> (r: ParsedLine)
    ensures
        parsed_ok(r, src@, in_fence),
        parsed_laws(r, src@),
{
    crate::text::str_fits(src);
    let s = chars_of(src);
    parse_line_chars(&s, in_fence)
}

pub fn parse_line_chars(s: &[char], in_fence: bool) -> (r: ParsedLine)
    requires
        byte_len(s@) <= usize::MAX,
    ensures
        parsed_ok(r, s@, in_fence),
        parsed_laws(r, s@),
{
    let (style, pc) = detect_line_style(s);
    if in_fence {
        parse_code_line(s, style, 0, in_fence)
    } else if style == LineStyle::Fence {
        parse_code_line(s, style, pc, in_fence)
    } else {
        parse_inline_line(s, style, pc)
    }
}

fn code_start(s: &[char], style: LineStyle, pc: usize) -> (b: usize)
    requires
        pc <= s@.len(),
        style == LineStyle::Fence ==> pc == 0,
    ensures
        pc <= b <= s@.len(),
        s@.skip(b as int) == code_display(s@, style, pc as int),
        style != LineStyle::Fence ==> b == pc,
{
    let mut b = pc;
    if style == LineStyle::Fence {
        proof {
            crate::text::lemma_run_of(s@, pc as int, '`');
        }
        let n1 = count_run(s, pc, '`');
        proof {
            crate::text::lemma_run_of(s@, (pc + n1) as int, '~');
            assert(s@.skip(pc as int).skip(n1 as int) =~= s@.skip((pc + n1) as int));
            lemma_run_shift(s@, pc as int, 0, '`');
            lemma_run_shift(s@, (pc + n1) as int, 0, '~');
        }
        let n2 = count_run(s, pc + n1, '~');
        let len = s.len();
        assert(pc + n1 <= len);
        let c1 = pc + n1;
        b = c1 + n2;
        proof {
            assert(strip_lead(strip_lead(s@.skip(pc as int), '`'), '~') =~= s@.skip(b as int));
        }
    }
    proof {
        if style != LineStyle::Fence {
            assert(s@.skip(b as int) =~= code_display(s@, style, pc as int));
        }
    }
    b
}

/// Byte offsets inside a suffix are those of the whole line shifted by the suffix start.
proof fn lemma_byte_at_skip(s: Seq<char>, b: int, k: int)
    requires
        0 <= b <= s.len(),
        0 <= k <= s.len() - b,
    ensures
        byte_at(s, b + k) == byte_at(s, b) + byte_at(s.skip(b), k),
{
    assert(s.take(b + k) =~= s.take(b) + s.skip(b).take(k));
    crate::text::lemma_byte_len_append(s.take(b), s.skip(b).take(k));
}

fn parse_code_line(s: &[char], style: LineStyle, pc: usize, in_fence: bool) -> (r: ParsedLine)
    requires
        byte_len(s@) <= usize::MAX,
        style == detect(s@).0,
        pc == line_prefix_chars(s@, in_fence),
        in_fence || style == LineStyle::Fence,
    ensures
        parsed_ok(r, s@, in_fence),
        parsed_laws(r, s@),
{
    proof {
        lemma_detect(s@);
    }
    let offs = byte_offsets(s);
    let prefix_len = offs[pc];
    let b = code_start(s, style, pc);
    let boff = offs[b];
    let disp = crate::text::slice_vec(s, b, s.len());
    assert(disp@ =~= code_display(s@, style, pc as int));
    assert(disp@ =~= s@.skip(b as int));
    proof {
        assert(s@.take(b as int) + disp@ =~= s@);
        crate::text::lemma_byte_len_append(s@.take(b as int), disp@);
    }
    let doffs = byte_offsets(&disp);
    let mut map: Vec<usize> = Vec::new();
    let mut k: usize = 0;
    while k < disp.len()
        invariant
            b <= s@.len(),
            k <= disp@.len(),
            disp@ == s@.skip(b as int),
            boff == byte_at(s@, b as int),
            byte_len(s@) <= usize::MAX,
            doffs@.len() == disp@.len() + 1,
            forall|q: int| 0 <= q <= disp@.len() ==> doffs@[q] as int == byte_at(disp@, q),
            map@.len() == k,
            forall|q: int| 0 <= q < k ==> map@[q] == byte_at(s@, b + q),
        decreases disp@.len() - k,
    {
        proof {
            lemma_byte_at_skip(s@, b as int, k as int);
            crate::text::lemma_byte_at_mono(s@, b as int + k as int, s@.len() as int);
        }
        map.push(boff + doffs[k]);
        k = k + 1;
    }
    let text = string_of(&disp);
    let text2 = string_of(&disp);
    let mut segs: Vec<Seg> = Vec::new();
    segs.push(Seg { text: text2, style: TextStyle::Code });
    proof {
        let sv = Seq::new(segs@.len(), |k: int| (segs@[k].text@, segs@[k].style));
        assert(sv =~= seq![(disp@, TextStyle::Code)]);
        lemma_flat_single(disp@, TextStyle::Code);
        assert forall|x: int, y: int| 0 <= x < y < map@.len() implies #[trigger] map@[x] < #[trigger] map@[y] by {
            crate::text::lemma_byte_at_mono(s@, b + x, b + y);
        }
        assert forall|q: int| 0 <= q < map@.len() implies #[trigger] map@[q] < byte_len(s@) by {
            crate::text::lemma_byte_at_mono(s@, b + q, b + q + 1);
            crate::text::lemma_byte_at_mono(s@, b + q + 1, s@.len() as int);
        }
    }
    ParsedLine {
        display: text,
        map,
        prefix_len,
        line_style: if in_fence {
            LineStyle::CodeLine
        } else {
            style
        },
        segs,
    }
}

fn parse_inline_line(s: &[char], style: LineStyle, pc: usize) -> (r: ParsedLine)
    requires
        byte_len(s@) <= usize::MAX,
        style == detect(s@).0,
        pc == detect(s@).1,
        style != LineStyle::Fence,
    ensures
        parsed_ok(r, s@, false),
        parsed_laws(r, s@),
{
    proof {
        lemma_detect(s@);
    }
    let offs = byte_offsets(s);
    let prefix_len = offs[pc];
    let mut acc = InlineAcc::new();
    parse_inline_body(s, pc, s.len(), &mut acc);
    let ghost o = acc.out();
    proof {
        assert(flat(empty_out().2) =~= empty_out().0);
        lemma_parse_wf(s@, pc as int, s@.len() as int, empty_out());
    }
    let InlineAcc { display, map: cmap, texts, styles } = acc;
    let mut map: Vec<usize> = Vec::new();
    let mut k: usize = 0;
    while k < cmap.len()
        invariant
            k <= cmap@.len(),
            o.1 == cmap@.map_values(|x: usize| x as int),
            offs@.len() == s@.len() + 1,
            forall|q: int| 0 <= q <= s@.len() ==> offs@[q] as int == byte_at(s@, q),
            forall|q: int| 0 <= q < o.1.len() ==> 0 <= #[trigger] o.1[q] < s@.len(),
            map@.len() == k,
            forall|q: int| 0 <= q < k ==> map@[q] == byte_at(s@, o.1[q]),
        decreases cmap@.len() - k,
    {
        assert(cmap@[k as int] as int == o.1[k as int]);
        map.push(offs[cmap[k]]);
        k = k + 1;
    }
    let mut segs: Vec<Seg> = Vec::new();
    let mut j: usize = 0;
    while j < styles.len()
        invariant
            j <= styles@.len() == texts@.len(),
            o.2 == Seq::new(styles@.len(), |q: int| (texts@[q]@, styles@[q])),
            segs@.len() == j,
            forall|q: int| 0 <= q < j ==> (#[trigger] segs@[q]).text@ == o.2[q].0 && segs@[q].style
                == o.2[q].1,
        decreases styles@.len() - j,
    {
        let t = string_of(&texts[j]);
        segs.push(Seg { text: t, style: styles[j] });
        j = j + 1;
    }
    let d = string_of(&display);
    proof {
        let sv = Seq::new(segs@.len(), |k: int| (segs@[k].text@, segs@[k].style));
        lemma_flat_texts(sv, o.2);
        assert forall|a: int, b: int| 0 <= a < b < map@.len() implies #[trigger] map@[a] < #[trigger] map@[b] by {
            assert(o.1[a] < o.1[b]);
            crate::text::lemma_byte_at_mono(s@, o.1[a], o.1[b]);
        }
        assert forall|k: int| 0 <= k < map@.len() implies #[trigger] map@[k] < byte_len(s@) by {
            crate::text::lemma_byte_at_mono(s@, o.1[k], o.1[k] + 1);
            crate::text::lemma_byte_at_mono(s@, o.1[k] + 1, s@.len() as int);
        }
    }
    ParsedLine { display: d, map, prefix_len, line_style: style, segs }
}

proof fn lemma_run_shift(s: Seq<char>, p: int, q: int, c: char)
    requires
        0 <= p <= s.len(),
        0 <= q <= s.len() - p,
    ensures
        run_of(s.skip(p), q, c) == run_of(s, p + q, c),
    decreases s.len() - p - q,
{
    if q < s.len() - p && s[p + q] == c {
        lemma_run_shift(s, p, q + 1, c);
    }
}


/// Concatenation of the texts of the runs.
pub open spec fn flat(segs: Seq<(Seq<char>, TextStyle)>) -> Seq<char>
    decreases segs.len(),
{
    if segs.len() == 0 {
        Seq::empty()
    } else {
        flat(segs.drop_last()) + segs.last().0
    }
}

/// A well-formed parse output over `full`: every displayed character is the source
/// character at its position, positions strictly increase and stay below `bound`,
/// and the runs tile the displayed text.
pub open spec fn out_wf(full: Seq<char>, o: InlineOut, bound: int) -> bool {
    &&& o.0.len() == o.1.len()
    &&& forall|k: int| 0 <= k < o.1.len() ==> 0 <= #[trigger] o.1[k] < bound && full[o.1[k]] == o.0[k]
    &&& forall|a: int, b: int| 0 <= a < b < o.1.len() ==> #[trigger] o.1[a] < #[trigger] o.1[b]
    &&& flat(o.2) == o.0
}

pub proof fn lemma_flat_append(a: Seq<(Seq<char>, TextStyle)>, b: Seq<(Seq<char>, TextStyle)>)
    ensures
        flat(a + b) == flat(a) + flat(b),
    decreases b.len(),
{
    if b.len() == 0 {
        assert(a + b =~= a);
        assert(flat(a) + flat(b) =~= flat(a));
    } else {
        lemma_flat_append(a, b.drop_last());
        assert((a + b).drop_last() =~= a + b.drop_last());
        assert(flat(a) + flat(b) =~= flat(a) + flat(b.drop_last()) + b.last().0);
    }
}

pub proof fn lemma_flat_single(t: Seq<char>, st: TextStyle)
    ensures
        flat(seq![(t, st)]) == t,
{
    assert(seq![(t, st)].drop_last() =~= Seq::<(Seq<char>, TextStyle)>::empty());
    assert(flat(Seq::<(Seq<char>, TextStyle)>::empty()) + t =~= t);
}

pub proof fn lemma_flat_texts(a: Seq<(Seq<char>, TextStyle)>, b: Seq<(Seq<char>, TextStyle)>)
    requires
        a.len() == b.len(),
        forall|k: int| 0 <= k < a.len() ==> a[k].0 == b[k].0,
    ensures
        flat(a) == flat(b),
    decreases a.len(),
{
    if a.len() > 0 {
        lemma_flat_texts(a.drop_last(), b.drop_last());
    }
}

proof fn lemma_flush_wf(full: Seq<char>, from: int, to: int, o: InlineOut)
    requires
        0 <= from <= to <= full.len(),
        out_wf(full, o, from),
    ensures
        out_wf(full, flush_out(full, from, to, o), to),
        flush_out(full, from, to, o).1.len() >= o.1.len(),
        flush_out(full, from, to, o).1.take(o.1.len() as int) == o.1,
{
    let r = flush_out(full, from, to, o);
    assert(r.1.take(o.1.len() as int) =~= o.1);
    if from < to {
        assert(r.2.drop_last() =~= o.2);
    } else {
        assert(r.0 =~= o.0);
    }
    assert forall|k: int| 0 <= k < r.1.len() implies 0 <= #[trigger] r.1[k] < to && full[r.1[k]]
        == r.0[k] by {
        if k >= o.1.len() {
            assert(r.0[k] == full.subrange(from, to)[k - o.1.len()]);
        }
    }
}

proof fn lemma_scan_wf(full: Seq<char>, lo: int, hi: int, i: int, ps: int, o: InlineOut)
    requires
        0 <= lo <= ps <= i <= hi <= full.len(),
        out_wf(full, o, ps),
    ensures
        out_wf(full, scan(full, lo, hi, i, ps, o), hi),
        scan(full, lo, hi, i, ps, o).1.len() >= o.1.len(),
        scan(full, lo, hi, i, ps, o).1.take(o.1.len() as int) == o.1,
        forall|k: int| o.1.len() <= k < scan(full, lo, hi, i, ps, o).1.len() ==> ps <= #[trigger] scan(full, lo, hi, i, ps, o).1[k],
    decreases hi - lo, hi - i,
{
    let r = scan(full, lo, hi, i, ps, o);
    if i == hi {
        lemma_flush_wf(full, ps, hi, o);
        assert forall|k: int| o.1.len() <= k < r.1.len() implies ps <= #[trigger] r.1[k] by {}
    } else if full[i] == '\\' && i + 1 < hi {
        lemma_scan_wf(full, lo, hi, i + 2, ps, o);
    } else if full[i] == '[' && link_ok(full, i, hi) {
        let lt = link_at(full, i, hi)->0;
        let tl = lt.0;
        let total = lt.1;
        let o1 = flush_out(full, ps, i, o);
        lemma_flush_wf(full, ps, i, o);
        let o2 = parse_into(full, i + 1, i + 1 + tl, o1);
        lemma_parse_wf(full, i + 1, i + 1 + tl, o1);
        let o3 = (o2.0, o2.1, mark_link(o2.2));
        lemma_flat_texts(o2.2, mark_link(o2.2));
        assert(out_wf(full, o3, i + total));
        lemma_scan_wf(full, lo, hi, i + total, i + total, o3);
        assert(r == scan(full, lo, hi, i + total, i + total, o3));
        assert(r.1.take(o.1.len() as int) =~= o.1) by {
            assert(r.1.take(o3.1.len() as int) == o3.1);
            assert(o2.1.take(o1.1.len() as int) == o1.1);
            assert(o1.1.take(o.1.len() as int) == o.1);
            assert(r.1.take(o.1.len() as int) =~= o3.1.take(o.1.len() as int));
            assert(o3.1.take(o.1.len() as int) =~= o1.1.take(o.1.len() as int));
        }
        assert forall|k: int| o.1.len() <= k < r.1.len() implies ps <= #[trigger] r.1[k] by {
            if k >= o3.1.len() {
            } else if k >= o1.1.len() {
                assert(r.1[k] == r.1.take(o3.1.len() as int)[k]);
                assert(o2.1[k] >= i + 1);
            } else {
                assert(r.1[k] == r.1.take(o3.1.len() as int)[k]);
                assert(o2.1[k] == o2.1.take(o1.1.len() as int)[k]);
                assert(o1.1[k] >= ps);
            }
        }
    } else if emph_ok(full, i, hi) {
        let ol = open_len_at(full, i, hi);
        let j = closer_from(full, i + ol, hi, full[i], ol, i + ol)->0;
        let o1 = flush_out(full, ps, i, o);
        lemma_flush_wf(full, ps, i, o);
        let inner = parse_into(full, i + ol, j, empty_out());
        assert(out_wf(full, empty_out(), i + ol)) by {
            assert(flat(empty_out().2) =~= empty_out().0);
        }
        lemma_parse_wf(full, i + ol, j, empty_out());
        let rs = restyle(inner.2, style_for(full[i], ol));
        lemma_flat_texts(inner.2, rs);
        lemma_flat_append(o1.2, rs);
        let o2 = (o1.0 + inner.0, o1.1 + inner.1, o1.2 + rs);
        assert(inner.1.take(0) =~= empty_out().1);
        assert forall|k: int| 0 <= k < o2.1.len() implies 0 <= #[trigger] o2.1[k] < j + ol && full[o2.1[k]] == o2.0[k] by {
            if k >= o1.1.len() {
                assert(o2.1[k] == inner.1[k - o1.1.len()]);
            }
        }
        assert forall|a: int, b: int| 0 <= a < b < o2.1.len() implies #[trigger] o2.1[a] < #[trigger] o2.1[b] by {
            if b >= o1.1.len() && a < o1.1.len() {
                assert(o2.1[b] == inner.1[b - o1.1.len()]);
                assert(inner.1[b - o1.1.len()] >= i + ol);
            } else if a >= o1.1.len() {
                assert(o2.1[b] == inner.1[b - o1.1.len()]);
                assert(o2.1[a] == inner.1[a - o1.1.len()]);
            }
        }
        assert(out_wf(full, o2, j + ol));
        lemma_scan_wf(full, lo, hi, j + ol, j + ol, o2);
        assert(r.1.take(o.1.len() as int) =~= o.1) by {
            assert(r.1.take(o2.1.len() as int) == o2.1);
            assert(o1.1.take(o.1.len() as int) == o.1);
            assert(r.1.take(o.1.len() as int) =~= o2.1.take(o.1.len() as int));
            assert(o2.1.take(o.1.len() as int) =~= o1.1.take(o.1.len() as int));
        }
        assert forall|k: int| o.1.len() <= k < r.1.len() implies ps <= #[trigger] r.1[k] by {
            if k >= o2.1.len() {
            } else {
                assert(r.1[k] == r.1.take(o2.1.len() as int)[k]);
                if k >= o1.1.len() {
                    assert(o2.1[k] == inner.1[k - o1.1.len()]);
                } else {
                    assert(o1.1[k] >= ps);
                }
            }
        }
    } else {
        lemma_scan_wf(full, lo, hi, i + 1, ps, o);
    }
}

/// The inline parse keeps the output well formed and only appends to it.
pub proof fn lemma_parse_wf(full: Seq<char>, lo: int, hi: int, o: InlineOut)
    requires
        0 <= lo <= hi <= full.len(),
        out_wf(full, o, lo),
    ensures
        out_wf(full, parse_into(full, lo, hi, o), hi),
        parse_into(full, lo, hi, o).1.len() >= o.1.len(),
        parse_into(full, lo, hi, o).1.take(o.1.len() as int) == o.1,
        forall|k: int| o.1.len() <= k < parse_into(full, lo, hi, o).1.len() ==> lo <= #[trigger] parse_into(full, lo, hi, o).1[k],
    decreases hi - lo, hi - lo + 1,
{
    lemma_scan_wf(full, lo, hi, lo, lo, o);
}


/// Byte offsets of the displayed characters of a line outside any fence.
pub open spec fn line_map(s: Seq<char>) -> Seq<int> {
    let (st, pc) = detect(s);
    if st == LineStyle::Fence {
        let disp = code_display(s, st, pc);
        Seq::new(disp.len(), |k: int| byte_at(s, s.len() - disp.len() + k))
    } else {
        let o = parse_into(s, pc, s.len() as int, empty_out());
        Seq::new(o.1.len(), |k: int| byte_at(s, o.1[k]))
    }
}

/// Byte length of the line-start marker of a line.
pub open spec fn line_prefix(s: Seq<char>) -> int {
    byte_at(s, detect(s).1)
}

/// The parse of a line outside fences has the map and prefix of `line_map` / `line_prefix`.
pub proof fn lemma_parsed_map(p: ParsedLine, s: Seq<char>)
    requires
        parsed_ok(p, s, false),
    ensures
        p.map@.map_values(|x: usize| x as int) == line_map(s),
        p.prefix_len == line_prefix(s),
{
    assert(p.map@.map_values(|x: usize| x as int) =~= line_map(s));
}

/// Number of entries of `m` below `x`.
pub open spec fn count_lt(m: Seq<int>, x: int) -> int
    decreases m.len(),
{
    if m.len() == 0 {
        0
    } else {
        count_lt(m.drop_last(), x) + if m.last() < x {
            1int
        } else {
            0int
        }
    }
}

pub proof fn lemma_count_lt_split(m: Seq<int>, x: int, j: int)
    requires
        0 <= j <= m.len(),
        forall|k: int| 0 <= k < j ==> m[k] < x,
        forall|k: int| j <= k < m.len() ==> m[k] >= x,
    ensures
        count_lt(m, x) == j,
    decreases m.len(),
{
    if m.len() > 0 {
        if j == m.len() {
            lemma_count_lt_split(m.drop_last(), x, j - 1);
        } else {
            lemma_count_lt_split(m.drop_last(), x, j);
        }
    }
}

/// Number of map entries below `target` (binary search over a strictly increasing map).
pub fn lower_bound(map: &[usize], target: usize) -> (r: usize)
    requires
        forall|a: int, b: int| 0 <= a < b < map@.len() ==> #[trigger] map@[a] < #[trigger] map@[b],
    ensures
        r == count_lt(map@.map_values(|x: usize| x as int), target as int),
        r <= map@.len(),
{
    let mut lo: usize = 0;
    let mut hi: usize = map.len();
    while lo < hi
        invariant
            lo <= hi <= map@.len(),
            forall|a: int, b: int| 0 <= a < b < map@.len() ==> #[trigger] map@[a] < #[trigger] map@[b],
            forall|k: int| 0 <= k < lo ==> map@[k] < target,
            forall|k: int| hi <= k < map@.len() ==> map@[k] >= target,
        decreases hi - lo,
    {
        let mid = lo + (hi - lo) / 2;
        if map[mid] < target {
            proof {
                assert forall|k: int| 0 <= k < mid + 1 implies map@[k] < target by {
                    if k < mid {
                        assert(map@[k] < map@[mid as int]);
                    }
                }
            }
            lo = mid + 1;
        } else {
            proof {
                assert forall|k: int| mid <= k < map@.len() implies map@[k] >= target by {
                    if k > mid {
                        assert(map@[mid as int] < map@[k]);
                    }
                }
            }
            hi = mid;
        }
    }
    proof {
        lemma_count_lt_split(map@.map_values(|x: usize| x as int), target as int, lo as int);
    }
    lo
}

/// Display column of byte column `c` on a line outside fences.
pub open spec fn disp_col(s: Seq<char>, c: int) -> int {
    let c2 = if c < byte_len(s) { c } else { byte_len(s) as int };
    if c2 <= line_prefix(s) {
        0
    } else {
        count_lt(line_map(s), c2)
    }
}

/// Byte column of display column `d` on a line outside fences.
pub open spec fn src_col(s: Seq<char>, d: int) -> int {
    if d == 0 {
        line_prefix(s)
    } else if d >= line_map(s).len() {
        byte_len(s) as int
    } else {
        line_map(s)[d]
    }
}

/// Every byte column that `src_col` gives falls on a character boundary of the line.
pub proof fn lemma_src_col_boundary(s: Seq<char>, d: int)
    requires
        d >= 0,
    ensures
        is_boundary(s, src_col(s, d)),
{
    lemma_detect(s);
    let (st, pc) = detect(s);
    if d == 0 {
        assert(byte_len(s.take(pc)) == src_col(s, d));
    } else if d >= line_map(s).len() {
        assert(s.take(s.len() as int) =~= s);
        assert(byte_len(s.take(s.len() as int)) == src_col(s, d));
    } else if st == LineStyle::Fence {
        let disp = code_display(s, st, pc);
        let t = s.skip(pc);
        crate::text::lemma_run_of(t, 0, '`');
        let d1 = t.skip(crate::text::run_of(t, 0, '`'));
        crate::text::lemma_run_of(d1, 0, '~');
        assert(disp.len() <= s.len());
        let k = s.len() - disp.len() + d;
        assert(byte_len(s.take(k)) == src_col(s, d));
    } else {
        assert(flat(empty_out().2) =~= empty_out().0);
        lemma_parse_wf(s, pc, s.len() as int, empty_out());
        let o = parse_into(s, pc, s.len() as int, empty_out());
        let k = o.1[d];
        assert(byte_len(s.take(k)) == src_col(s, d));
    }
}

/// Displayed text of a line outside any fence.
pub open spec fn line_display(s: Seq<char>) -> Seq<char> {
    let (st, pc) = detect(s);
    if st == LineStyle::Fence {
        code_display(s, st, pc)
    } else {
        parse_into(s, pc, s.len() as int, empty_out()).0
    }
}

/// The parse of a line outside fences shows `line_display`, and every displayed
/// character lies at or after the line-start marker.
pub proof fn lemma_parsed_display(p: ParsedLine, s: Seq<char>)
    requires
        parsed_ok(p, s, false),
    ensures
        p.display@ == line_display(s),
        forall|k: int| 0 <= k < line_map(s).len() ==> #[trigger] line_map(s)[k] >= line_prefix(s),
{
    lemma_detect(s);
    let (st, pc) = detect(s);
    if st != LineStyle::Fence {
        assert(flat(empty_out().2) =~= empty_out().0);
        lemma_parse_wf(s, pc, s.len() as int, empty_out());
        let o = parse_into(s, pc, s.len() as int, empty_out());
        assert forall|k: int| 0 <= k < line_map(s).len() implies #[trigger] line_map(s)[k] >= line_prefix(s) by {
            crate::text::lemma_byte_at_mono(s, pc, o.1[k]);
        }
    }
}



/// The source bytes of every displayed character lie inside the line.
pub proof fn lemma_map_width(s: Seq<char>, k: int)
    requires
        0 <= k < line_map(s).len(),
    ensures
        line_map(s)[k] + crate::text::char_width(line_display(s)[k]) <= byte_len(s),
{
    lemma_detect(s);
    let (st, pc) = detect(s);
    if st == LineStyle::Fence {
        let t = s.skip(pc);
        let r1 = crate::text::run_of(t, 0, '`');
        crate::text::lemma_run_of(t, 0, '`');
        let d1 = t.skip(r1);
        let r2 = crate::text::run_of(d1, 0, '~');
        crate::text::lemma_run_of(d1, 0, '~');
        let disp = d1.skip(r2);
        let b = pc + r1 + r2;
        assert(disp =~= s.skip(b));
        assert(disp[k] == s[b + k]);
        crate::text::lemma_take_push(s, b + k);
        crate::text::lemma_byte_len_push(s.take(b + k), s[b + k]);
        crate::text::lemma_byte_at_mono(s, b + k + 1, s.len() as int);
    } else {
        assert(flat(empty_out().2) =~= empty_out().0);
        lemma_parse_wf(s, pc, s.len() as int, empty_out());
        let o = parse_into(s, pc, s.len() as int, empty_out());
        let j = o.1[k];
        crate::text::lemma_take_push(s, j);
        crate::text::lemma_byte_len_push(s.take(j), s[j]);
        crate::text::lemma_byte_at_mono(s, j + 1, s.len() as int);
    }
}

} // verus!
