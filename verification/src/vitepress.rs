//! Small text helpers of VitePress-flavoured Markdown: list-item detection, code-fence info
//! strings, line ranges, import specs, HTML attributes and HTML-to-text.

use vstd::prelude::*;
use crate::html2md::{decode, decode_entities_with, digit_of, digits_value, is_lit, lower_chars, lower_s, starts_lit};
use crate::text::{
    chars_of, count_digits, digit_run, find_char, find_from, find_seq, first_from, is_digit,
    is_whitespace, is_ws, lemma_find_from, lemma_first_from, lemma_first_from_shift, skip_ws,
    slice_vec, string_of, trim, trim_end_len,
};

verus! {

/// `s` with one leading `c` removed, if it starts with `c`.
pub open spec fn strip_pre(s: Seq<char>, c: char) -> Seq<char> {
    if s.len() > 0 && s[0] == c {
        s.skip(1)
    } else {
        s
    }
}

/// `s` with one trailing `c` removed, if it ends with `c`.
pub open spec fn strip_suf(s: Seq<char>, c: char) -> Seq<char> {
    if s.len() > 0 && s.last() == c {
        s.drop_last()
    } else {
        s
    }
}

/// A line (already trimmed at its start) that opens a Markdown list item:
/// `- x`, `* x`, `+ x`, `1. x` or `1) x`.
pub open spec fn list_item_line(s: Seq<char>) -> bool {
    if s.len() == 0 {
        false
    } else if s[0] == '-' || s[0] == '*' || s[0] == '+' {
        s.len() >= 2 && is_ws(s[1])
    } else if is_digit(s[0]) {
        let k = 1 + digit_run(s, 1);
        k + 1 < s.len() && (s[k] == '.' || s[k] == ')') && is_ws(s[k + 1])
    } else {
        false
    }
}

/// Trimmed, then one pair of surrounding double quotes and one pair of single quotes
/// taken off (each side on its own).
pub open spec fn unquoted(s: Seq<char>) -> Seq<char> {
    strip_suf(strip_pre(strip_suf(strip_pre(trim(s), '"'), '"'), '\''), '\'')
}

/// Tokenizer state after some characters: finished tokens, current token, inside quotes.
pub open spec fn tok_step(st: (Seq<Seq<char>>, Seq<char>, bool), c: char) -> (
    Seq<Seq<char>>,
    Seq<char>,
    bool,
) {
    if c == '"' {
        (st.0, st.1.push(c), !st.2)
    } else if (c == ' ' || c == '\t') && !st.2 {
        if st.1.len() > 0 {
            (st.0.push(st.1), Seq::empty(), st.2)
        } else {
            st
        }
    } else {
        (st.0, st.1.push(c), st.2)
    }
}

pub open spec fn tok_state(s: Seq<char>) -> (Seq<Seq<char>>, Seq<char>, bool)
    decreases s.len(),
{
    if s.len() == 0 {
        (Seq::empty(), Seq::empty(), false)
    } else {
        tok_step(tok_state(s.drop_last()), s.last())
    }
}

/// The tokens of a code-fence info string: split at spaces and tabs outside `"..."`.
pub open spec fn info_tokens(s: Seq<char>) -> Seq<Seq<char>> {
    let st = tok_state(s);
    if st.1.len() > 0 {
        st.0.push(st.1)
    } else {
        st.0
    }
}

/// The characters of each string.
pub open spec fn strs_view(v: Seq<String>) -> Seq<Seq<char>> {
    v.map_values(|x: String| x@)
}

/// `s` trimmed of Unicode whitespace at both ends.
pub fn trimmed(v: &[char]) -> (r: Vec<char>)
    ensures
        r@ == trim(v@),
{
    let a = skip_ws(v, 0);
    proof {
        crate::text::lemma_ws_run(v@, 0);
    }
    let t = slice_vec(v, a, v.len());
    assert(t@ =~= v@.skip(a as int));
    let b = trim_end_len(&t, t.len());
    proof {
        crate::text::lemma_trail_ws(t@, t@.len() as int);
    }
    let r = slice_vec(&t, 0, b);
    assert(r@ =~= t@.take(b as int));
    r
}

/// True for lines that start a Markdown list item (`- x`, `* x`, `+ x`, `1. x`, `1) x`).
pub fn is_list_item_line(trimmed: &str) -> (r: bool)
    ensures
        r == list_item_line(trimmed@),
{
    let s = chars_of(trimmed);
    let n = s.len();
    if n == 0 {
        return false;
    }
    let c = s[0];
    if c == '-' || c == '*' || c == '+' {
        return n >= 2 && is_whitespace(s[1]);
    }
    if '0' <= c && c <= '9' {
        let d = count_digits(&s, 1);
        let k = 1 + d;
        return k < n - 1 && (s[k] == '.' || s[k] == ')') && is_whitespace(s[k + 1]);
    }
    false
}

fn strip_pre_vec(v: Vec<char>, c: char) -> (r: Vec<char>)
    ensures
        r@ == strip_pre(v@, c),
{
    if v.len() > 0 && v[0] == c {
        let r = slice_vec(&v, 1, v.len());
        assert(r@ =~= v@.skip(1));
        r
    } else {
        v
    }
}

fn strip_suf_vec(v: Vec<char>, c: char) -> (r: Vec<char>)
    ensures
        r@ == strip_suf(v@, c),
{
    let n = v.len();
    if n > 0 && v[n - 1] == c {
        let r = slice_vec(&v, 0, n - 1);
        assert(r@ =~= v@.drop_last());
        r
    } else {
        v
    }
}

/// The characters of `s`, trimmed and with surrounding quotes taken off.
pub fn unquote_chars(s: &[char]) -> (r: Vec<char>)
    ensures
        r@ == unquoted(s@),
{
    let t = trimmed(s);
    let t = strip_pre_vec(t, '"');
    let t = strip_suf_vec(t, '"');
    let t = strip_pre_vec(t, '\'');
    strip_suf_vec(t, '\'')
}

/// Trims `s` and takes one pair of surrounding double quotes and one pair of single
/// quotes off.
pub fn unquote(s: &str) -> (r: String)
    ensures
        r@ == unquoted(s@),
{
    let v = chars_of(s);
    string_of(&unquote_chars(&v))
}

/// Tokenize an info string, keeping `"..."` fragments intact.
pub fn tokenize_info(info: &str) -> (r: Vec<String>)
    ensures
        strs_view(r@) == info_tokens(info@),
{
    let s = chars_of(info);
    let mut tokens: Vec<String> = Vec::new();
    let mut cur: Vec<char> = Vec::new();
    let mut in_quote = false;
    let mut i: usize = 0;
    assert(s@.take(0) =~= Seq::<char>::empty());
    while i < s.len()
        invariant
            i <= s@.len(),
            s@ == info@,
            tok_state(s@.take(i as int)) == (strs_view(tokens@), cur@, in_quote),
        decreases s@.len() - i,
    {
        let c = s[i];
        assert(s@.take(i + 1).drop_last() =~= s@.take(i as int));
        assert(s@.take(i + 1).last() == c);
        if c == '"' {
            in_quote = !in_quote;
            cur.push(c);
        } else if (c == ' ' || c == '\t') && !in_quote {
            if cur.len() > 0 {
                let t = string_of(&cur);
                let ghost prev = tokens@;
                tokens.push(t);
                cur = Vec::new();
                assert(strs_view(tokens@) =~= strs_view(prev).push(t@));
            }
        } else {
            cur.push(c);
        }
        i = i + 1;
    }
    assert(s@.take(s@.len() as int) =~= s@);
    if cur.len() > 0 {
        let t = string_of(&cur);
        tokens.push(t);
        assert(strs_view(tokens@) =~= strs_view(tokens@.drop_last()).push(t@));
    }
    tokens
}

/// `usize::from_str` before its range check: an optional `+`, then at least one decimal
/// digit.
pub open spec fn parse_uint(s: Seq<char>) -> Option<nat> {
    let d = strip_pre(s, '+');
    if d.len() == 0 {
        None
    } else {
        digits_value(d, 10)
    }
}

/// `usize::from_str`.
pub open spec fn parse_usize(s: Seq<char>) -> Option<usize> {
    match parse_uint(s) {
        Some(v) => if v <= usize::MAX {
            Some(v as usize)
        } else {
            None
        },
        None => None,
    }
}

/// The line range that one comma-separated part of `1,3-5,8` stands for: `n` or `a-b`,
/// 1-based and inclusive; `None` for an empty, malformed or empty range.
pub open spec fn part_range(part: Seq<char>) -> Option<(usize, usize)> {
    let p = trim(part);
    if p.len() == 0 {
        None
    } else {
        match first_from(p, 0, p.len() as int, '-') {
            Some(k) => {
                let a: usize = match parse_usize(trim(p.take(k))) {
                    Some(x) => x,
                    None => 0,
                };
                let b: usize = match parse_usize(trim(p.skip(k + 1))) {
                    Some(x) => x,
                    None => a,
                };
                if a > 0 && b >= a {
                    Some((a, b))
                } else {
                    None
                }
            },
            None => match parse_usize(p) {
                Some(n) => if n > 0 {
                    Some((n, n))
                } else {
                    None
                },
                None => None,
            },
        }
    }
}

pub open spec fn opt_seq<A>(o: Option<A>) -> Seq<A> {
    match o {
        Some(x) => seq![x],
        None => Seq::empty(),
    }
}

/// The ranges of a comma-separated list such as `1,3-5,8`, in order.
pub open spec fn line_ranges(s: Seq<char>) -> Seq<(usize, usize)>
    decreases s.len(),
{
    match first_from(s, 0, s.len() as int, ',') {
        Some(k) => if 0 <= k < s.len() {
            opt_seq(part_range(s.take(k))) + line_ranges(s.skip(k + 1))
        } else {
            opt_seq(part_range(s))
        },
        None => opt_seq(part_range(s)),
    }
}

/// Every range of `line_ranges` starts at line 1 or later.
pub proof fn lemma_line_ranges_pos(s: Seq<char>)
    ensures
        forall|k: int| 0 <= k < line_ranges(s).len() ==> #[trigger] line_ranges(s)[k].0 >= 1,
    decreases s.len(),
{
    match first_from(s, 0, s.len() as int, ',') {
        Some(k) => if 0 <= k < s.len() {
            lemma_line_ranges_pos(s.skip(k + 1));
            let a = opt_seq(part_range(s.take(k)));
            let b = line_ranges(s.skip(k + 1));
            assert forall|j: int| 0 <= j < (a + b).len() implies #[trigger] (a + b)[j].0 >= 1 by {
                if j >= a.len() {
                    assert((a + b)[j] == b[j - a.len()]);
                }
            }
        },
        None => {},
    }
}

proof fn lemma_digits_none(d: Seq<char>, k: int)
    requires
        0 <= k <= d.len(),
        digits_value(d.take(k), 10) is None,
    ensures
        digits_value(d, 10) is None,
    decreases d.len() - k,
{
    if k < d.len() {
        assert(d.take(k + 1).drop_last() =~= d.take(k));
        lemma_digits_none(d, k + 1);
    } else {
        assert(d.take(k) =~= d);
    }
}

proof fn lemma_digits_big(d: Seq<char>, k: int)
    requires
        0 <= k <= d.len(),
        digits_value(d.take(k), 10) matches Some(v) && v > usize::MAX,
    ensures
        digits_value(d, 10) matches Some(v) ==> v > usize::MAX,
    decreases d.len() - k,
{
    if k < d.len() {
        assert(d.take(k + 1).drop_last() =~= d.take(k));
        if digits_value(d.take(k + 1), 10) is Some {
            lemma_digits_big(d, k + 1);
        } else {
            lemma_digits_none(d, k + 1);
        }
    } else {
        assert(d.take(k) =~= d);
    }
}

/// `usize::from_str` on `s[lo..hi]`.
pub fn parse_usize_at(s: &[char], lo: usize, hi: usize) -> (r: Option<usize>)
    requires
        lo <= hi <= s@.len(),
    ensures
        r == parse_usize(s@.subrange(lo as int, hi as int)),
{
    let ghost t = s@.subrange(lo as int, hi as int);
    let start = if lo < hi && s[lo] == '+' { lo + 1 } else { lo };
    let ghost d = s@.subrange(start as int, hi as int);
    assert(d =~= strip_pre(t, '+'));
    if start == hi {
        return None;
    }
    let mut v: usize = 0;
    let mut i = start;
    assert(d.take(0) =~= Seq::<char>::empty());
    while i < hi
        invariant
            start <= i <= hi <= s@.len(),
            start < hi,
            d == s@.subrange(start as int, hi as int),
            t == s@.subrange(lo as int, hi as int),
            d == strip_pre(t, '+'),
            digits_value(d.take(i - start), 10) == Some(v as nat),
        decreases hi - i,
    {
        let c = s[i];
        assert(d.take(i - start + 1).drop_last() =~= d.take(i - start));
        assert(d.take(i - start + 1).last() == c);
        let u = c as u32;
        if u < 0x30 || u > 0x39 {
            proof {
                assert(digit_of(c, 10) is None);
                lemma_digits_none(d, i - start + 1);
            }
            return None;
        }
        let x = (u - 48) as usize;
        assert(digit_of(c, 10) == Some(x as nat));
        match v.checked_mul(10) {
            None => {
                proof {
                    assert(v * 10 + x > usize::MAX);
                    lemma_digits_big(d, i - start + 1);
                }
                return None;
            },
            Some(m) => match m.checked_add(x) {
                None => {
                    proof {
                        lemma_digits_big(d, i - start + 1);
                    }
                    return None;
                },
                Some(nv) => {
                    v = nv;
                },
            },
        }
        i = i + 1;
    }
    assert(d.take(hi - start) =~= d);
    Some(v)
}

/// The range of one part `s[lo..hi]`.
fn part_range_at(s: &[char], lo: usize, hi: usize) -> (r: Option<(usize, usize)>)
    requires
        lo <= hi <= s@.len(),
    ensures
        r == part_range(s@.subrange(lo as int, hi as int)),
{
    let part = slice_vec(s, lo, hi);
    assert(part@ =~= s@.subrange(lo as int, hi as int));
    let p = trimmed(&part);
    let n = p.len();
    if n == 0 {
        return None;
    }
    proof {
        lemma_first_from(p@, 0, n as int, '-');
    }
    match find_char(&p, 0, n, '-') {
        Some(k) => {
            let left = slice_vec(&p, 0, k);
            let right = slice_vec(&p, k + 1, n);
            assert(left@ =~= p@.take(k as int));
            assert(right@ =~= p@.skip(k + 1));
            let lt = trimmed(&left);
            let rt = trimmed(&right);
            assert(lt@.subrange(0, lt@.len() as int) =~= lt@);
            assert(rt@.subrange(0, rt@.len() as int) =~= rt@);
            let a = match parse_usize_at(&lt, 0, lt.len()) {
                Some(x) => x,
                None => 0,
            };
            let b = match parse_usize_at(&rt, 0, rt.len()) {
                Some(x) => x,
                None => a,
            };
            if a > 0 && b >= a {
                Some((a, b))
            } else {
                None
            }
        },
        None => {
            assert(p@.subrange(0, n as int) =~= p@);
            match parse_usize_at(&p, 0, n) {
                Some(x) => if x > 0 {
                    Some((x, x))
                } else {
                    None
                },
                None => None,
            }
        },
    }
}

fn push_opt(out: &mut Vec<(usize, usize)>, o: Option<(usize, usize)>)
    ensures
        final(out)@ == old(out)@ + opt_seq(o),
{
    if let Some(x) = o {
        out.push(x);
        assert(out@ =~= old(out)@ + seq![x]);
    } else {
        assert(out@ =~= old(out)@ + Seq::<(usize, usize)>::empty());
    }
}

/// The ranges of `s[lo..]`.
fn line_ranges_from(s: &[char], lo: usize) -> (r: Vec<(usize, usize)>)
    requires
        lo <= s@.len(),
    ensures
        r@ == line_ranges(s@.skip(lo as int)),
{
    let n = s.len();
    let mut out: Vec<(usize, usize)> = Vec::new();
    let mut start = lo;
    loop
        invariant
            lo <= start <= n == s@.len(),
            out@ + line_ranges(s@.skip(start as int)) == line_ranges(s@.skip(lo as int)),
        decreases n - start,
    {
        let ghost rest = s@.skip(start as int);
        proof {
            lemma_first_from_shift(s@, start as int, 0, ',');
            lemma_first_from(s@, start as int, n as int, ',');
            assert(start + 0 == start);
        }
        match find_char(s, start, n, ',') {
            Some(k) => {
                let o = part_range_at(s, start, k);
                proof {
                    assert(rest.take(k - start) =~= s@.subrange(start as int, k as int));
                    assert(rest.skip(k - start + 1) =~= s@.skip(k + 1));
                }
                let ghost before = out@;
                push_opt(&mut out, o);
                assert(before + line_ranges(rest) =~= out@ + line_ranges(s@.skip(k + 1)));
                start = k + 1;
            },
            None => {
                let o = part_range_at(s, start, n);
                assert(rest =~= s@.subrange(start as int, n as int));
                push_opt(&mut out, o);
                return out;
            },
        }
    }
}

/// Parse `1,3-5,8` (1-based, inclusive) into (start, end) pairs.
pub fn parse_line_ranges(s: &str) -> (r: Vec<(usize, usize)>)
    ensures
        r@ == line_ranges(s@),
{
    let v = chars_of(s);
    assert(v@.skip(0) =~= v@);
    line_ranges_from(&v, 0)
}

pub open spec fn opt_str(o: Option<String>) -> Option<Seq<char>> {
    match o {
        Some(x) => Some(x@),
        None => None,
    }
}

/// The parts of a snippet import spec `path{2,5,7-9} title="..."`: the path, the line
/// ranges and the title.
pub open spec fn import_spec(s: Seq<char>) -> (Seq<char>, Seq<(usize, usize)>, Option<Seq<char>>) {
    let (p1, title) = match find_from(s, 0, "title="@) {
        Some(i) => (trim(s.take(i)), Some(strip_suf(strip_pre(trim(s.skip(i + 6)), '"'), '"'))),
        None => (s, None),
    };
    match first_from(s, 0, s.len() as int, '{') {
        Some(i) => match first_from(s, i, s.len() as int, '}') {
            Some(j) => (trim(s.take(i)), line_ranges(s.subrange(i + 1, j)), title),
            None => (p1, Seq::empty(), title),
        },
        None => (p1, Seq::empty(), title),
    }
}

/// Parse `path{2,5,7-9} title="..."` into (path, line ranges, title).
pub fn parse_import_spec(spec: &str) -> (r: (String, Vec<(usize, usize)>, Option<String>))
    ensures
        (r.0@, r.1@, opt_str(r.2)) == import_spec(spec@),
{
    let s = chars_of(spec);
    let n = s.len();
    let key = chars_of("title=");
    proof {
        reveal_strlit("title=");
        lemma_find_from(s@, 0, key@);
    }
    let mut path = string_of(&s);
    let mut title: Option<String> = None;
    match find_seq(&s, 0, &key) {
        Some(idx) => {
            let rest = slice_vec(&s, idx + 6, n);
            assert(rest@ =~= s@.skip(idx + 6));
            let t = trimmed(&rest);
            let t = strip_pre_vec(t, '"');
            let t = strip_suf_vec(t, '"');
            title = Some(string_of(&t));
            let head = slice_vec(&s, 0, idx);
            assert(head@ =~= s@.take(idx as int));
            path = string_of(&trimmed(&head));
        },
        None => {},
    }
    let mut ranges: Vec<(usize, usize)> = Vec::new();
    proof {
        lemma_first_from(s@, 0, n as int, '{');
    }
    if let Some(idx) = find_char(&s, 0, n, '{') {
        proof {
            lemma_first_from(s@, idx as int, n as int, '}');
        }
        if let Some(end) = find_char(&s, idx, n, '}') {
            let inner = slice_vec(&s, idx + 1, end);
            assert(inner@ =~= s@.subrange(idx + 1, end as int));
            assert(inner@.skip(0) =~= inner@);
            ranges = line_ranges_from(&inner, 0);
            let head = slice_vec(&s, 0, idx);
            assert(head@ =~= s@.take(idx as int));
            path = string_of(&trimmed(&head));
        }
    }
    (path, ranges, title)
}

/// The settings of a fenced code block's info string: language, title, highlighted line
/// ranges and whether lines are numbered.
#[derive(Debug)]
pub struct CodeInfo {
    pub lang: String,
    pub title: Option<String>,
    pub highlight: Vec<(usize, usize)>,
    pub line_numbers: bool,
}

impl CodeInfo {
    pub open spec fn parts(&self) -> (Seq<char>, Option<Seq<char>>, Seq<(usize, usize)>, bool) {
        (self.lang@, opt_str(self.title), self.highlight@, self.line_numbers)
    }
}

impl Default for CodeInfo {
    fn default() -> (r: Self)
        ensures
            r.parts() == (Seq::<char>::empty(), None::<Seq<char>>, Seq::<(usize, usize)>::empty(), false),
    {
        CodeInfo { lang: String::new(), title: None, highlight: Vec::new(), line_numbers: false }
    }
}

/// One token of an info string applied to the settings so far.
pub open spec fn info_step(
    ci: (Seq<char>, Option<Seq<char>>, Seq<(usize, usize)>, bool),
    t: Seq<char>,
) -> (Seq<char>, Option<Seq<char>>, Seq<(usize, usize)>, bool) {
    if t.len() >= 2 && t[0] == '{' && t.last() == '}' {
        (ci.0, ci.1, line_ranges(t.subrange(1, t.len() - 1)), ci.3)
    } else if t.len() >= 6 && t.take(6) == "title="@ {
        (ci.0, Some(unquoted(t.skip(6))), ci.2, ci.3)
    } else if t == ":line-numbers"@ {
        (ci.0, ci.1, ci.2, true)
    } else if ci.0.len() == 0 {
        (t, ci.1, ci.2, ci.3)
    } else {
        ci
    }
}

/// The settings that a sequence of info tokens gives.
pub open spec fn code_info_of(tokens: Seq<Seq<char>>) -> (Seq<char>, Option<Seq<char>>, Seq<(usize, usize)>, bool)
    decreases tokens.len(),
{
    if tokens.len() == 0 {
        (Seq::empty(), None, Seq::empty(), false)
    } else {
        info_step(code_info_of(tokens.drop_last()), tokens.last())
    }
}

/// Parse VitePress code info: `js {1,3-5} title="x" :line-numbers`.
pub fn parse_code_info(info: &str) -> (r: CodeInfo)
    ensures
        r.parts() == code_info_of(info_tokens(info@)),
{
    let tokens = tokenize_info(info);
    let mut out = CodeInfo::default();
    let ghost toks = strs_view(tokens@);
    let mut i: usize = 0;
    assert(toks.take(0) =~= Seq::<Seq<char>>::empty());
    while i < tokens.len()
        invariant
            i <= tokens@.len(),
            toks == strs_view(tokens@),
            out.parts() == code_info_of(toks.take(i as int)),
        decreases tokens@.len() - i,
    {
        let t = chars_of(tokens[i].as_str());
        let n = t.len();
        assert(toks.take(i + 1).drop_last() =~= toks.take(i as int));
        assert(toks.take(i + 1).last() == t@);
        proof {
            reveal_strlit("title=");
            reveal_strlit(":line-numbers");
        }
        assert(t@.subrange(0, n as int) =~= t@);
        if n >= 2 && t[0] == '{' && t[n - 1] == '}' {
            let inner = slice_vec(&t, 1, n - 1);
            assert(inner@ =~= t@.subrange(1, n - 1));
            assert(inner@.skip(0) =~= inner@);
            out.highlight = line_ranges_from(&inner, 0);
        } else if starts_lit(&t, 0, n, "title=") {
            assert(t@.subrange(0, n as int) =~= t@);
            let rest = slice_vec(&t, 6, n);
            assert(rest@ =~= t@.skip(6));
            out.title = Some(string_of(&unquote_chars(&rest)));
        } else if crate::html2md::is_lit(&t, ":line-numbers") {
            out.line_numbers = true;
        } else if out.lang.as_str().is_empty() {
            proof {
                assert(out.lang@.len() == 0);
            }
            out.lang = string_of(&t);
        } else {
            assert(out.lang@.len() != 0);
            assert(t@.subrange(0, n as int) =~= t@);
        }
        i = i + 1;
    }
    assert(toks.take(toks.len() as int) =~= toks);
    out
}

/// A character that ends an attribute key on its left: whitespace or an angle bracket.
pub open spec fn attr_sep(c: char) -> bool {
    is_ws(c) || c == '<' || c == '>'
}

/// Where the key before `=` starts: just after the last separator of `b`.
pub open spec fn key_start(b: Seq<char>) -> int
    decreases b.len(),
{
    if b.len() == 0 {
        0
    } else if attr_sep(b.last()) {
        b.len() as int
    } else {
        key_start(b.drop_last())
    }
}

/// First position at or after `i` of a double or single quote.
pub open spec fn first_quote(s: Seq<char>, i: int) -> Option<int>
    decreases s.len() - i,
{
    if i < 0 || i >= s.len() {
        None
    } else if s[i] == '"' || s[i] == '\'' {
        Some(i)
    } else {
        first_quote(s, i + 1)
    }
}

/// The `key="value"` (or `key='value'`) pairs of a tag, in order; the scan stops at the
/// first `=` that no complete quoted value follows.
pub open spec fn attrs_of(s: Seq<char>) -> Seq<(Seq<char>, Seq<char>)>
    decreases s.len(),
{
    match first_from(s, 0, s.len() as int, '=') {
        Some(eq) => if 0 <= eq < s.len() {
            let after = s.skip(eq + 1);
            match first_quote(after, 0) {
                Some(qs) => if 0 <= qs < after.len() {
                    match first_from(after, qs + 1, after.len() as int, after[qs]) {
                        Some(e) => if qs < e < after.len() {
                            let b = s.take(eq);
                            seq![(b.skip(key_start(b)), after.subrange(qs + 1, e))] + attrs_of(
                                after.skip(e + 1),
                            )
                        } else {
                            Seq::empty()
                        },
                        None => Seq::empty(),
                    }
                } else {
                    Seq::empty()
                },
                None => Seq::empty(),
            }
        } else {
            Seq::empty()
        },
        None => Seq::empty(),
    }
}

pub open spec fn pairs_view(v: Seq<(String, String)>) -> Seq<(Seq<char>, Seq<char>)> {
    v.map_values(|p: (String, String)| (p.0@, p.1@))
}

proof fn lemma_first_quote(s: Seq<char>, i: int)
    requires
        0 <= i,
    ensures
        first_quote(s, i) matches Some(k) ==> i <= k < s.len() && (s[k] == '"' || s[k] == '\''),
        first_quote(s, i) is None ==> forall|k: int| i <= k < s.len() ==> s[k] != '"' && s[k] != '\'',
    decreases s.len() - i,
{
    if i < s.len() && s[i] != '"' && s[i] != '\'' {
        lemma_first_quote(s, i + 1);
    }
}

/// The key that ends `b`.
fn key_of(b: &[char]) -> (r: Vec<char>)
    ensures
        r@ == b@.skip(key_start(b@)),
{
    let mut j = b.len();
    assert(b@.take(j as int) =~= b@);
    while j > 0 && !(is_whitespace(b[j - 1]) || b[j - 1] == '<' || b[j - 1] == '>')
        invariant
            j <= b@.len(),
            key_start(b@) == key_start(b@.take(j as int)),
        decreases j,
    {
        assert(b@.take(j as int).drop_last() =~= b@.take(j - 1));
        j = j - 1;
    }
    proof {
        if j > 0 {
            assert(b@.take(j as int).last() == b@[j - 1]);
        } else {
            assert(b@.take(0) =~= Seq::<char>::empty());
        }
    }
    let r = slice_vec(b, j, b.len());
    assert(r@ =~= b@.skip(j as int));
    r
}

fn quote_at(s: &[char]) -> (r: Option<usize>)
    ensures
        r == (match first_quote(s@, 0) {
            Some(k) => Some(k as usize),
            None => None::<usize>,
        }),
{
    let mut i: usize = 0;
    while i < s.len()
        invariant
            i <= s@.len(),
            first_quote(s@, 0) == first_quote(s@, i as int),
        decreases s@.len() - i,
    {
        if s[i] == '"' || s[i] == '\'' {
            return Some(i);
        }
        i = i + 1;
    }
    None
}

/// The `key="value"` pairs of an HTML tag.
pub fn extract_attrs(tag: &str) -> (r: Vec<(String, String)>)
    ensures
        pairs_view(r@) == attrs_of(tag@),
{
    let mut rest = chars_of(tag);
    let mut out: Vec<(String, String)> = Vec::new();
    loop
        invariant
            pairs_view(out@) + attrs_of(rest@) == attrs_of(tag@),
        decreases rest@.len(),
    {
        let n = rest.len();
        proof {
            lemma_first_from(rest@, 0, n as int, '=');
        }
        let eq = match find_char(&rest, 0, n, '=') {
            Some(e) => e,
            None => {
                assert(pairs_view(out@) + Seq::<(Seq<char>, Seq<char>)>::empty() =~= pairs_view(out@));
                return out;
            },
        };
        let before = slice_vec(&rest, 0, eq);
        let after = slice_vec(&rest, eq + 1, n);
        assert(before@ =~= rest@.take(eq as int));
        assert(after@ =~= rest@.skip(eq + 1));
        proof {
            lemma_first_quote(after@, 0);
        }
        let qs = match quote_at(&after) {
            Some(q) => q,
            None => {
                assert(pairs_view(out@) + Seq::<(Seq<char>, Seq<char>)>::empty() =~= pairs_view(out@));
                return out;
            },
        };
        let q = after[qs];
        let m = after.len();
        proof {
            lemma_first_from(after@, qs + 1, m as int, q);
        }
        let e = match find_char(&after, qs + 1, m, q) {
            Some(e) => e,
            None => {
                assert(pairs_view(out@) + Seq::<(Seq<char>, Seq<char>)>::empty() =~= pairs_view(out@));
                return out;
            },
        };
        let key = key_of(&before);
        let value = slice_vec(&after, qs + 1, e);
        assert(value@ =~= after@.subrange(qs + 1, e as int));
        let ghost prev = out@;
        let pair = (string_of(&key), string_of(&value));
        out.push(pair);
        let next = slice_vec(&after, e + 1, m);
        assert(next@ =~= after@.skip(e + 1));
        assert(pairs_view(out@) =~= pairs_view(prev).push((key@, value@)));
        assert(pairs_view(prev) + attrs_of(rest@) =~= pairs_view(out@) + attrs_of(next@));
        rest = next;
    }
}

/// The container kind and title that the attributes of a marker tag give (the last
/// `type` and the last `title` win).
pub open spec fn container_of(attrs: Seq<(Seq<char>, Seq<char>)>) -> (Seq<char>, Option<Seq<char>>)
    decreases attrs.len(),
{
    if attrs.len() == 0 {
        (Seq::empty(), None)
    } else {
        let prev = container_of(attrs.drop_last());
        let kv = attrs.last();
        if kv.0 == "type"@ {
            (kv.1, prev.1)
        } else if kv.0 == "title"@ {
            (prev.0, Some(kv.1))
        } else {
            prev
        }
    }
}

/// The `type` and `title` attributes of a `<vp-container ...>` marker.
pub fn parse_container_tag(tag: &str) -> (r: (String, Option<String>))
    ensures
        (r.0@, opt_str(r.1)) == container_of(attrs_of(tag@)),
{
    let attrs = extract_attrs(tag);
    let ghost av = pairs_view(attrs@);
    let mut kind = String::new();
    let mut title: Option<String> = None;
    let mut i: usize = 0;
    assert(av.take(0) =~= Seq::<(Seq<char>, Seq<char>)>::empty());
    while i < attrs.len()
        invariant
            i <= attrs@.len(),
            av == pairs_view(attrs@),
            (kind@, opt_str(title)) == container_of(av.take(i as int)),
        decreases attrs@.len() - i,
    {
        assert(av.take(i + 1).drop_last() =~= av.take(i as int));
        let k = chars_of(attrs[i].0.as_str());
        if is_lit(&k, "type") {
            kind = attrs[i].1.clone();
        } else if is_lit(&k, "title") {
            title = Some(attrs[i].1.clone());
        }
        i = i + 1;
    }
    assert(av.take(av.len() as int) =~= av);
    (kind, title)
}

/// Number of `c` at the end of `s.take(n)`.
pub open spec fn trail_run(s: Seq<char>, n: int, c: char) -> int
    decreases n,
{
    if n <= 0 || n > s.len() || s[n - 1] != c {
        0
    } else {
        1 + trail_run(s, n - 1, c)
    }
}

/// `b` with every leading and every trailing `/` taken off.
pub open spec fn trim_slashes(b: Seq<char>) -> Seq<char> {
    let t = b.skip(crate::text::run_of(b, 0, '/'));
    t.take(t.len() - trail_run(t, t.len() as int, '/'))
}

/// The first whitespace-separated word of `t` (empty when there is none).
pub open spec fn first_word(t: Seq<char>) -> Seq<char> {
    let a = crate::text::lead_ws(t);
    t.subrange(a, a + nonws_run(t, a))
}

/// Number of non-whitespace characters from `i` on.
pub open spec fn nonws_run(s: Seq<char>, i: int) -> int
    decreases s.len() - i,
{
    if i < 0 || i >= s.len() || is_ws(s[i]) {
        0
    } else {
        1 + nonws_run(s, i + 1)
    }
}

proof fn lemma_nonws_run(s: Seq<char>, i: int)
    requires
        0 <= i <= s.len(),
    ensures
        0 <= nonws_run(s, i) <= s.len() - i,
    decreases s.len() - i,
{
    if i < s.len() && !is_ws(s[i]) {
        lemma_nonws_run(s, i + 1);
    }
}

/// The lower-cased name of the tag whose text (between `<` and `>`) is `buf`.
///
/// Lowering only the ASCII letters decides membership in `breaks_line` exactly as full
/// Unicode lowering does: no other character lowers to one of the letters it tests.
pub open spec fn tag_word(buf: Seq<char>) -> Seq<char> {
    lower_s(first_word(trim(trim_slashes(buf))))
}

/// Tags whose end becomes a line break in text.
pub open spec fn breaks_line(w: Seq<char>) -> bool {
    w == "br"@ || w == "hr"@ || w == "p"@ || w == "div"@ || w == "li"@ || w == "h1"@ || w
        == "h2"@ || w == "h3"@ || w == "h4"@ || w == "h5"@ || w == "h6"@ || w == "tr"@ || w
        == "table"@
}

/// One character of HTML applied to (text so far, inside a tag, text of the last tag).
pub open spec fn html_step(st: (Seq<char>, bool, Seq<char>), c: char) -> (Seq<char>, bool, Seq<char>) {
    if c == '<' {
        (st.0, true, Seq::empty())
    } else if c == '>' {
        (if breaks_line(tag_word(st.2)) { st.0.push('\n') } else { st.0 }, false, st.2)
    } else if st.1 {
        (st.0, true, st.2.push(c))
    } else {
        (st.0.push(c), false, st.2)
    }
}

pub open spec fn html_state(s: Seq<char>) -> (Seq<char>, bool, Seq<char>)
    decreases s.len(),
{
    if s.len() == 0 {
        (Seq::empty(), false, Seq::empty())
    } else {
        html_step(html_state(s.drop_last()), s.last())
    }
}

/// The text of an HTML fragment: tags dropped (block tags ending a line), entities
/// decoded.
pub open spec fn html_text(s: Seq<char>) -> Seq<char> {
    decode(html_state(s).0, true)
}

fn tag_word_of(buf: &[char]) -> (r: Vec<char>)
    ensures
        r@ == tag_word(buf@),
{
    let a = crate::text::count_run(buf, 0, '/');
    let t = slice_vec(buf, a, buf.len());
    assert(t@ =~= buf@.skip(a as int));
    let mut e = t.len();
    assert(t@.take(e as int) =~= t@);
    while e > 0 && t[e - 1] == '/'
        invariant
            e <= t@.len(),
            trail_run(t@, t@.len() as int, '/') == (t@.len() - e) + trail_run(t@, e as int, '/'),
        decreases e,
    {
        e = e - 1;
    }
    let u = slice_vec(&t, 0, e);
    assert(u@ =~= t@.take(t@.len() - trail_run(t@, t@.len() as int, '/')));
    let w = trimmed(&u);
    let lead = skip_ws(&w, 0);
    proof {
        crate::text::lemma_ws_run(w@, 0);
        lemma_nonws_run(w@, lead as int);
    }
    let mut k = lead;
    while k < w.len() && !is_whitespace(w[k])
        invariant
            lead <= k <= w@.len(),
            nonws_run(w@, lead as int) == (k - lead) + nonws_run(w@, k as int),
        decreases w@.len() - k,
    {
        k = k + 1;
    }
    let word = slice_vec(&w, lead, k);
    assert(word@ =~= first_word(w@));
    lower_chars(&word)
}

fn breaks_line_of(w: &[char]) -> (r: bool)
    ensures
        r == breaks_line(w@),
{
    is_lit(w, "br") || is_lit(w, "hr") || is_lit(w, "p") || is_lit(w, "div") || is_lit(w, "li")
        || is_lit(w, "h1") || is_lit(w, "h2") || is_lit(w, "h3") || is_lit(w, "h4") || is_lit(
        w,
        "h5",
    ) || is_lit(w, "h6") || is_lit(w, "tr") || is_lit(w, "table")
}

/// Strip HTML tags, decode entities, and turn block tags into newlines.
pub fn html_to_text(html: &str) -> (r: String)
    ensures
        r@ == html_text(html@),
{
    let s = chars_of(html);
    let mut out: Vec<char> = Vec::new();
    let mut in_tag = false;
    let mut buf: Vec<char> = Vec::new();
    let mut i: usize = 0;
    assert(s@.take(0) =~= Seq::<char>::empty());
    while i < s.len()
        invariant
            i <= s@.len(),
            s@ == html@,
            html_state(s@.take(i as int)) == (out@, in_tag, buf@),
        decreases s@.len() - i,
    {
        let c = s[i];
        assert(s@.take(i + 1).drop_last() =~= s@.take(i as int));
        assert(s@.take(i + 1).last() == c);
        if c == '<' {
            in_tag = true;
            buf = Vec::new();
            assert(buf@ =~= Seq::<char>::empty());
        } else if c == '>' {
            in_tag = false;
            let w = tag_word_of(&buf);
            if breaks_line_of(&w) {
                out.push('\n');
            }
        } else if in_tag {
            buf.push(c);
        } else {
            out.push(c);
        }
        i = i + 1;
    }
    assert(s@.take(s@.len() as int) =~= s@);
    string_of(&decode_entities_with(&out, true))
}

/// Decodes HTML entities: the common named ones, the typographic ones and numeric
/// references; anything else stays as it is.
pub fn decode_entities(s: &str) -> (r: String)
    ensures
        r@ == decode(s@, true),
{
    let v = chars_of(s);
    string_of(&decode_entities_with(&v, true))
}

} // verus!
