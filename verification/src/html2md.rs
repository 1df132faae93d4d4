//! Clipboard HTML to Markdown: a small tag parser for the markup that rich-text copies
//! hold (paragraphs, headings, lists, quotes, code, links, images, emphasis).

use vstd::prelude::*;
use crate::text::{
    chars_of, first_from, find_from, lemma_first_from, lemma_find_from, string_of, trim,
    trim_end, trim_start,
};

verus! {

/// ASCII whitespace as the parser skips it: space, tab, line feed, carriage return.
pub open spec fn ws_b(c: char) -> bool {
    c == ' ' || c == '\t' || c == '\n' || c == '\r'
}

/// `char::to_ascii_lowercase`.
pub open spec fn lower(c: char) -> char {
    if 'A' <= c && c <= 'Z' { ((c as u32) + 32) as char } else { c }
}

/// `str::to_ascii_lowercase`.
pub open spec fn lower_s(s: Seq<char>) -> Seq<char> {
    s.map_values(|c: char| lower(c))
}

/// Value of a digit in base 10 or 16 (`None` when it is not one).
pub open spec fn digit_of(c: char, radix: nat) -> Option<nat> {
    let u = c as u32;
    if 0x30 <= u && u <= 0x39 {
        Some((u - 0x30) as nat)
    } else if radix == 16 && 0x61 <= u && u <= 0x66 {
        Some((u - 0x61 + 10) as nat)
    } else if radix == 16 && 0x41 <= u && u <= 0x46 {
        Some((u - 0x41 + 10) as nat)
    } else {
        None
    }
}

/// Value of a string of digits (`None` when a character is not a digit).
pub open spec fn digits_value(s: Seq<char>, radix: nat) -> Option<nat>
    decreases s.len(),
{
    if s.len() == 0 {
        Some(0)
    } else {
        match (digits_value(s.drop_last(), radix), digit_of(s.last(), radix)) {
            (Some(v), Some(d)) => Some(v * radix + d),
            _ => None,
        }
    }
}

/// `u32::from_str_radix`: an optional `+`, then at least one digit, value at most `u32::MAX`.
pub open spec fn parse_radix(s: Seq<char>, radix: nat) -> Option<u32> {
    let d = if s.len() > 0 && s[0] == '+' { s.skip(1) } else { s };
    if d.len() == 0 {
        None
    } else {
        match digits_value(d, radix) {
            Some(v) => if v <= u32::MAX { Some(v as u32) } else { None },
            None => None,
        }
    }
}

/// `char::from_u32`: a Unicode scalar value.
pub open spec fn scalar(cp: u32) -> Option<char> {
    if cp < 0xD800 || (0xE000 <= cp && cp <= 0x10FFFF) { Some(cp as char) } else { None }
}

/// The replacement of a named entity.
pub open spec fn named_entity(ent: Seq<char>, ext: bool) -> Option<Seq<char>> {
    if ent == "&amp;"@ {
        Some("&"@)
    } else if ent == "&lt;"@ {
        Some("<"@)
    } else if ent == "&gt;"@ {
        Some(">"@)
    } else if ent == "&quot;"@ {
        Some("\""@)
    } else if ent == "&apos;"@ || ent == "&#39;"@ {
        Some("'"@)
    } else if ent == "&nbsp;"@ {
        Some(" "@)
    } else if ent == "&#x27;"@ {
        Some("'"@)
    } else if ext {
        extra_entity(ent)
    } else {
        None
    }
}

/// The typographic entities that rendered Markdown text also decodes.
pub open spec fn extra_entity(ent: Seq<char>) -> Option<Seq<char>> {
    if ent == "&hellip;"@ {
        Some("\u{2026}"@)
    } else if ent == "&mdash;"@ {
        Some("\u{2014}"@)
    } else if ent == "&ndash;"@ {
        Some("\u{2013}"@)
    } else if ent == "&copy;"@ {
        Some("\u{a9}"@)
    } else if ent == "&reg;"@ {
        Some("\u{ae}"@)
    } else if ent == "&times;"@ {
        Some("\u{d7}"@)
    } else if ent == "&divide;"@ {
        Some("\u{f7}"@)
    } else {
        None
    }
}

/// The character of a numeric entity `&#x..;` (hexadecimal) or `&#..;` (decimal).
pub open spec fn numeric_entity(ent: Seq<char>) -> Option<char> {
    if ent.len() >= 4 && ent.take(3) == "&#x"@ && ent.last() == ';' {
        match parse_radix(ent.subrange(3, ent.len() - 1), 16) {
            Some(cp) => scalar(cp),
            None => None,
        }
    } else if ent.len() >= 3 && ent.take(2) == "&#"@ && ent.last() == ';' {
        match parse_radix(ent.subrange(2, ent.len() - 1), 10) {
            Some(cp) => scalar(cp),
            None => None,
        }
    } else {
        None
    }
}

/// Length of the entity that starts `after` (which starts with `&`): up to and with the
/// first `;`, or the `&` alone.
pub open spec fn entity_len(after: Seq<char>) -> int {
    match first_from(after, 0, after.len() as int, ';') {
        Some(e) => e + 1,
        None => 1,
    }
}

/// HTML entities decoded (`ext`: with the typographic entities too).
pub open spec fn decode(s: Seq<char>, ext: bool) -> Seq<char>
    decreases s.len(),
{
    match first_from(s, 0, s.len() as int, '&') {
        None => s,
        Some(p) => {
            if 0 <= p < s.len() {
                let after = s.skip(p);
                proof {
                    lemma_first_from(after, 0, after.len() as int, ';');
                }
                let end = entity_len(after);
                let ent = after.take(end);
                let rep = match named_entity(ent, ext) {
                    Some(r) => r,
                    None => match numeric_entity(ent) {
                        Some(c) => seq![c],
                        None => ent,
                    },
                };
                s.take(p) + rep + decode(after.skip(end), ext)
            } else {
                s
            }
        },
    }
}


/// `s` equals the literal `lit`.
pub(crate) fn is_lit(s: &[char], lit: &str) -> (r: bool)
    ensures
        r == (s@ == lit@),
{
    let l = chars_of(lit);
    if s.len() != l.len() {
        assert(s@.len() != lit@.len());
        return false;
    }
    let mut i: usize = 0;
    while i < s.len()
        invariant
            i <= s@.len() == l@.len(),
            l@ == lit@,
            forall|j: int| 0 <= j < i ==> s@[j] == l@[j],
        decreases s@.len() - i,
    {
        if s[i] != l[i] {
            assert(s@[i as int] != lit@[i as int]);
            return false;
        }
        i = i + 1;
    }
    assert(s@ =~= l@);
    true
}

/// `s[lo..hi]` starts with the literal `lit`.
pub(crate) fn starts_lit(s: &[char], lo: usize, hi: usize, lit: &str) -> (r: bool)
    requires
        lo <= hi <= s@.len(),
    ensures
        r == (hi - lo >= lit@.len() && s@.subrange(lo as int, hi as int).take(lit@.len() as int) == lit@),
{
    let l = chars_of(lit);
    if hi - lo < l.len() {
        return false;
    }
    let mut i: usize = 0;
    while i < l.len()
        invariant
            i <= l@.len() <= hi - lo,
            lo <= hi <= s@.len(),
            l@ == lit@,
            forall|j: int| 0 <= j < i ==> s@[lo + j] == l@[j],
        decreases l@.len() - i,
    {
        if s[lo + i] != l[i] {
            assert(s@.subrange(lo as int, hi as int).take(l@.len() as int)[i as int] != l@[i as int]);
            return false;
        }
        i = i + 1;
    }
    assert(s@.subrange(lo as int, hi as int).take(l@.len() as int) =~= l@);
    true
}

/// `u32::from_str_radix` on `s[lo..hi]`.
pub(crate) fn parse_radix_u32(s: &[char], lo: usize, hi: usize, radix: u32) -> (r: Option<u32>)
    requires
        lo <= hi <= s@.len(),
        radix == 10 || radix == 16,
    ensures
        r == parse_radix(s@.subrange(lo as int, hi as int), radix as nat),
{
    let ghost t = s@.subrange(lo as int, hi as int);
    let start = if lo < hi && s[lo] == '+' { lo + 1 } else { lo };
    let ghost d = s@.subrange(start as int, hi as int);
    assert(d =~= (if t.len() > 0 && t[0] == '+' { t.skip(1) } else { t }));
    if start == hi {
        return None;
    }
    let mut v: u64 = 0;
    let mut i = start;
    let ghost mut ok = true;
    assert(d.take(0) =~= Seq::<char>::empty());
    while i < hi
        invariant
            start <= i <= hi <= s@.len(),
            start < hi,
            t == s@.subrange(lo as int, hi as int),
            d == s@.subrange(start as int, hi as int),
            d == (if t.len() > 0 && t[0] == '+' { t.skip(1) } else { t }),
            radix == 10 || radix == 16,
            digits_value(d.take(i - start), radix as nat) == Some(v as nat),
            v <= u32::MAX,
        decreases hi - i,
    {
        let c = s[i];
        let u = c as u32;
        let dv: Option<u64> = if 0x30 <= u && u <= 0x39 {
            Some((u - 0x30) as u64)
        } else if radix == 16 && 0x61 <= u && u <= 0x66 {
            Some((u - 0x61 + 10) as u64)
        } else if radix == 16 && 0x41 <= u && u <= 0x46 {
            Some((u - 0x41 + 10) as u64)
        } else {
            None
        };
        assert(d.take(i - start + 1).drop_last() =~= d.take(i - start));
        assert(d.take(i - start + 1).last() == c);
        match dv {
            None => {
                proof {
                    assert(digit_of(c, radix as nat) is None);
                    assert(digits_value(d.take(i - start + 1), radix as nat) is None);
                    lemma_digits_none(d, radix as nat, i - start + 1);
                }
                return None;
            },
            Some(x) => {
                assert(x < 16);
                assert(digit_of(c, radix as nat) == Some(x as nat));
                assert(v * (radix as u64) <= 0xFFFF_FFFF * 16) by (nonlinear_arith)
                    requires
                        v <= 0xFFFF_FFFF,
                        radix <= 16;
                let nv = v * (radix as u64) + x;
                if nv > 0xFFFF_FFFF {
                    proof {
                        lemma_digits_big(d, radix as nat, i - start + 1);
                    }
                    return None;
                }
                v = nv;
            },
        }
        i = i + 1;
    }
    assert(d.take(hi - start) =~= d);
    Some(v as u32)
}

/// A prefix that is not all digits makes the whole not all digits.
proof fn lemma_digits_none(d: Seq<char>, radix: nat, k: int)
    requires
        0 <= k <= d.len(),
        digits_value(d.take(k), radix) is None,
    ensures
        digits_value(d, radix) is None,
    decreases d.len() - k,
{
    if k < d.len() {
        assert(d.take(k + 1).drop_last() =~= d.take(k));
        lemma_digits_none(d, radix, k + 1);
    } else {
        assert(d.take(k) =~= d);
    }
}

/// A prefix whose value exceeds `u32::MAX` makes the whole exceed it.
proof fn lemma_digits_big(d: Seq<char>, radix: nat, k: int)
    requires
        0 <= k <= d.len(),
        radix >= 1,
        digits_value(d.take(k), radix) matches Some(v) && v > u32::MAX,
    ensures
        digits_value(d, radix) matches Some(v) ==> v > u32::MAX,
    decreases d.len() - k,
{
    if k < d.len() {
        assert(d.take(k + 1).drop_last() =~= d.take(k));
        let v = digits_value(d.take(k), radix)->0;
        if let Some(w) = digits_value(d.take(k + 1), radix) {
            assert(w >= v * radix) by (nonlinear_arith)
                requires
                    w == v * radix + digit_of(d.take(k + 1).last(), radix)->0,
                    digit_of(d.take(k + 1).last(), radix) is Some;
            assert(v * radix >= v) by (nonlinear_arith)
                requires
                    radix >= 1;
            lemma_digits_big(d, radix, k + 1);
        } else {
            lemma_digits_none(d, radix, k + 1);
        }
    } else {
        assert(d.take(k) =~= d);
    }
}

/// `char::from_u32` of std: the character with code point `cp`, `None` for surrogates
/// and values above `0x10FFFF` (as its documentation states).
#[verifier::external_body]
fn char_from_u32(cp: u32) -> (r: Option<char>)
    ensures
        r == scalar(cp),
{
    char::from_u32(cp)
}

/// The replacement of the entity `s[p..p + end]`.
fn entity_rep(s: &[char], p: usize, end: usize, ext: bool) -> (r: Vec<char>)
    requires
        p + end <= s@.len(),
        end >= 1,
    ensures
        ({
            let ent = s@.subrange(p as int, p + end as int);
            r@ == match named_entity(ent, ext) {
                Some(x) => x,
                None => match numeric_entity(ent) {
                    Some(c) => seq![c],
                    None => ent,
                },
            }
        }),
{
    let total = s.len();
    assert(p + end <= total);
    let ent = crate::text::slice_vec(s, p, p + end);
    assert(ent@ =~= s@.subrange(p as int, p + end as int));
    let n = ent.len();
    proof {
        reveal_strlit("&#x");
        reveal_strlit("&#");
    }
    if is_lit(&ent, "&amp;") {
        return chars_of("&");
    } else if is_lit(&ent, "&lt;") {
        return chars_of("<");
    } else if is_lit(&ent, "&gt;") {
        return chars_of(">");
    } else if is_lit(&ent, "&quot;") {
        return chars_of("\"");
    } else if is_lit(&ent, "&apos;") || is_lit(&ent, "&#39;") {
        return chars_of("'");
    } else if is_lit(&ent, "&nbsp;") {
        return chars_of(" ");
    } else if is_lit(&ent, "&#x27;") {
        return chars_of("'");
    } else if ext {
        if is_lit(&ent, "&hellip;") {
            return chars_of("\u{2026}");
        } else if is_lit(&ent, "&mdash;") {
            return chars_of("\u{2014}");
        } else if is_lit(&ent, "&ndash;") {
            return chars_of("\u{2013}");
        } else if is_lit(&ent, "&copy;") {
            return chars_of("\u{a9}");
        } else if is_lit(&ent, "&reg;") {
            return chars_of("\u{ae}");
        } else if is_lit(&ent, "&times;") {
            return chars_of("\u{d7}");
        } else if is_lit(&ent, "&divide;") {
            return chars_of("\u{f7}");
        }
    }
    let semi = n >= 1 && ent[n - 1] == ';';
    if n >= 4 && starts_lit(&ent, 0, n, "&#x") && semi {
        assert(ent@.subrange(0, n as int) =~= ent@);
        let c = match parse_radix_u32(&ent, 3, n - 1, 16) {
            Some(cp) => char_from_u32(cp),
            None => None,
        };
        if let Some(ch) = c {
            let mut r: Vec<char> = Vec::new();
            r.push(ch);
            assert(r@ =~= seq![ch]);
            return r;
        }
        return ent;
    } else if n >= 3 && starts_lit(&ent, 0, n, "&#") && semi {
        assert(ent@.subrange(0, n as int) =~= ent@);
        let c = match parse_radix_u32(&ent, 2, n - 1, 10) {
            Some(cp) => char_from_u32(cp),
            None => None,
        };
        if let Some(ch) = c {
            let mut r: Vec<char> = Vec::new();
            r.push(ch);
            assert(r@ =~= seq![ch]);
            return r;
        }
        return ent;
    }
    proof {
        assert(ent@.subrange(0, n as int) =~= ent@);
    }
    ent
}

proof fn lemma_decode_step(s: Seq<char>, start: int, p: int, end: int, ext: bool)
    requires
        0 <= start <= p < s.len(),
        first_from(s.skip(start), 0, s.len() - start, '&') == Some(p - start),
        entity_len(s.skip(p)) == end,
        1 <= end <= s.len() - p,
    ensures
        decode(s.skip(start), ext) == s.subrange(start, p) + ({
            let ent = s.subrange(p, p + end);
            match named_entity(ent, ext) {
                Some(x) => x,
                None => match numeric_entity(ent) {
                    Some(c) => seq![c],
                    None => ent,
                },
            }
        }) + decode(s.skip(p + end), ext),
{
    let rest = s.skip(start);
    let pp = p - start;
    let after = rest.skip(pp);
    assert(after =~= s.skip(p));
    assert(rest.take(pp) =~= s.subrange(start, p));
    assert(after.take(end) =~= s.subrange(p, p + end));
    assert(after.skip(end) =~= s.skip(p + end));
}

/// One step of decoding from `start`: the text up to the next entity and that entity's
/// replacement, and where decoding goes on.
fn decode_step(s: &[char], start: usize, ext: bool) -> (r: (Vec<char>, usize))
    requires
        start < s@.len(),
    ensures
        start < r.1 <= s@.len(),
        decode(s@.skip(start as int), ext) == r.0@ + decode(s@.skip(r.1 as int), ext),
{
    let n = s.len();
    let ghost rest = s@.skip(start as int);
    proof {
        crate::text::lemma_first_from_shift(s@, start as int, 0, '&');
        lemma_first_from(s@, start as int, n as int, '&');
        assert(rest.len() == n - start);
    }
    match crate::text::find_char(s, start, n, '&') {
        None => {
            let chunk = crate::text::slice_vec(s, start, n);
            assert(chunk@ =~= rest);
            assert(s@.skip(n as int) =~= Seq::<char>::empty());
            assert(decode(Seq::<char>::empty(), ext) =~= Seq::<char>::empty());
            assert(first_from(rest, 0, rest.len() as int, '&') is None);
            assert(chunk@ + Seq::<char>::empty() =~= chunk@);
            (chunk, n)
        },
        Some(p) => {
            proof {
                crate::text::lemma_first_from_shift(s@, p as int, 0, ';');
                lemma_first_from(s@, p as int, n as int, ';');
            }
            let end = match crate::text::find_char(s, p, n, ';') {
                Some(e) => e - p + 1,
                None => 1,
            };
            proof {
                let after = s@.skip(p as int);
                assert(after.len() == n - p);
                assert(first_from(after, 0, (n - p) as int, ';') == (match first_from(s@, p + 0, n as int, ';') {
                    Some(k) => Some(k - p),
                    None => None,
                }));
                assert(p + 0 == p);
                lemma_first_from(after, 0, after.len() as int, ';');
                assert(entity_len(after) == end);
                assert(first_from(rest, 0, rest.len() as int, '&') == (match first_from(s@, start + 0, n as int, '&') {
                    Some(k) => Some(k - start),
                    None => None,
                }));
                assert(first_from(s@, start as int, n as int, '&') == Some(p as int));
            }
            let mut chunk = crate::text::slice_vec(s, start, p);
            let rep = entity_rep(s, p, end, ext);
            crate::text::extend_all(&mut chunk, &rep);
            proof {
                lemma_decode_step(s@, start as int, p as int, end as int, ext);
                assert(chunk@ =~= s@.subrange(start as int, p as int) + rep@);
            }
            (chunk, p + end)
        },
    }
}

/// Decodes HTML entities.
pub(crate) fn decode_entities_with(s: &[char], ext: bool) -> (r: Vec<char>)
    ensures
        r@ == decode(s@, ext),
{
    let n = s.len();
    let mut out: Vec<char> = Vec::new();
    let mut start: usize = 0;
    assert(s@.skip(0) =~= s@);
    while start < n
        invariant
            start <= n == s@.len(),
            out@ + decode(s@.skip(start as int), ext) == decode(s@, ext),
        decreases n - start,
    {
        let (chunk, next) = decode_step(s, start, ext);
        let ghost out0 = out@;
        crate::text::extend_all(&mut out, &chunk);
        assert(out0 + (chunk@ + decode(s@.skip(next as int), ext)) =~= out@ + decode(s@.skip(next as int), ext));
        start = next;
    }
    assert(s@.skip(n as int) =~= Seq::<char>::empty());
    assert(decode(Seq::<char>::empty(), ext) =~= Seq::<char>::empty());
    assert(out@ + Seq::<char>::empty() =~= out@);
    out
}


/// Position of the first character at or after `i` that is not parser whitespace.
pub open spec fn ws_from(s: Seq<char>, i: int) -> int
    decreases s.len() - i,
{
    if 0 <= i < s.len() && ws_b(s[i]) { ws_from(s, i + 1) } else { i }
}

/// Position of the first `>` or parser whitespace at or after `i` (the end of a tag name).
pub open spec fn name_end(s: Seq<char>, i: int) -> int
    decreases s.len() - i,
{
    if 0 <= i < s.len() && s[i] != '>' && !ws_b(s[i]) { name_end(s, i + 1) } else { i }
}

/// Position of the first `c` at or after `i`, or the end.
pub open spec fn char_from(s: Seq<char>, i: int, c: char) -> int
    decreases s.len() - i,
{
    if 0 <= i < s.len() && s[i] != c { char_from(s, i + 1, c) } else { i }
}

/// `x` kept within `lo..=hi`.
pub open spec fn clamp(x: int, lo: int, hi: int) -> int {
    if x < lo { lo } else if x > hi { hi } else { x }
}

/// The tag that starts at `i` (a `<`): lowercase name, closing, attribute text, and the
/// position after its `>`.
pub open spec fn tag_at(s: Seq<char>, i: int) -> (Seq<char>, bool, Seq<char>, int) {
    let j = i + 1;
    let closing = j < s.len() && s[j] == '/';
    let st = if closing { j + 1 } else { j };
    let ne = name_end(s, st);
    let ae = char_from(s, ne, '>');
    (lower_s(s.subrange(st, ne)), closing, s.subrange(ne, ae), if ae < s.len() { ae + 1 } else { ae })
}

/// The tags the parser tells apart.
#[derive(Clone, Copy, Debug, PartialEq, Eq, Structural)]
pub enum TagKind {
    Br,
    Strong,
    Em,
    Del,
    Code,
    Mark,
    Sub,
    Sup,
    U,
    A,
    Img,
    Para,
    Heading(u8),
    Ul,
    Ol,
    Li,
    Blockquote,
    Pre,
    Table,
    Cell,
    Hr,
    Raw,
    Other,
}

/// The kind of a lowercase tag name.
pub open spec fn kind_of(n: Seq<char>) -> TagKind {
    if n == "br"@ {
        TagKind::Br
    } else if n == "strong"@ || n == "b"@ {
        TagKind::Strong
    } else if n == "em"@ || n == "i"@ {
        TagKind::Em
    } else if n == "del"@ || n == "s"@ || n == "strike"@ {
        TagKind::Del
    } else if n == "code"@ {
        TagKind::Code
    } else if n == "mark"@ {
        TagKind::Mark
    } else if n == "sub"@ {
        TagKind::Sub
    } else if n == "sup"@ {
        TagKind::Sup
    } else if n == "u"@ {
        TagKind::U
    } else if n == "a"@ {
        TagKind::A
    } else if n == "img"@ {
        TagKind::Img
    } else if n == "p"@ || n == "div"@ || n == "section"@ || n == "article"@ || n == "span"@ || n == "font"@ || n == "center"@ {
        TagKind::Para
    } else if n == "h1"@ {
        TagKind::Heading(1)
    } else if n == "h2"@ {
        TagKind::Heading(2)
    } else if n == "h3"@ {
        TagKind::Heading(3)
    } else if n == "h4"@ {
        TagKind::Heading(4)
    } else if n == "h5"@ {
        TagKind::Heading(5)
    } else if n == "h6"@ {
        TagKind::Heading(6)
    } else if n == "ul"@ {
        TagKind::Ul
    } else if n == "ol"@ {
        TagKind::Ol
    } else if n == "li"@ {
        TagKind::Li
    } else if n == "blockquote"@ {
        TagKind::Blockquote
    } else if n == "pre"@ {
        TagKind::Pre
    } else if n == "table"@ {
        TagKind::Table
    } else if n == "tr"@ || n == "td"@ || n == "th"@ || n == "thead"@ || n == "tbody"@ || n == "tfoot"@ {
        TagKind::Cell
    } else if n == "hr"@ {
        TagKind::Hr
    } else if n == "script"@ || n == "style"@ {
        TagKind::Raw
    } else {
        TagKind::Other
    }
}

/// The Markdown delimiter of an inline emphasis tag.
pub open spec fn emphasis(k: TagKind) -> Option<Seq<char>> {
    match k {
        TagKind::Strong => Some("**"@),
        TagKind::Em => Some("*"@),
        TagKind::Del => Some("~~"@),
        TagKind::Code => Some("`"@),
        TagKind::Mark => Some("=="@),
        TagKind::Sub => Some("~"@),
        TagKind::Sup => Some("^"@),
        TagKind::U => Some(Seq::empty()),
        _ => None,
    }
}

/// The value of attribute `key` (lowercase) in attribute text `l`: after the first
/// occurrence of `key`, ASCII case ignored, followed by `=`, a quoted value as written.
pub open spec fn attr_from(l: Seq<char>, key: Seq<char>) -> Option<Seq<char>>
    decreases l.len(),
{
    if key.len() == 0 {
        None
    } else {
        match find_from(lower_s(l), 0, key) {
            None => None,
            Some(p) => if 0 <= p && p + key.len() <= l.len() {
                let after = trim_start(l.skip(p + key.len()));
                if after.len() > 0 && after[0] == '=' {
                    let q = trim_start(after.skip(1));
                    if q.len() > 0 && q[0] == '"' {
                        match first_from(q, 1, q.len() as int, '"') {
                            Some(e) => Some(q.subrange(1, e)),
                            None => None,
                        }
                    } else if q.len() > 0 && q[0] == '\'' {
                        match first_from(q, 1, q.len() as int, '\'') {
                            Some(e) => Some(q.subrange(1, e)),
                            None => None,
                        }
                    } else {
                        None
                    }
                } else {
                    attr_from(l.skip(p + 1), key)
                }
            } else {
                None
            },
        }
    }
}

/// Attribute `key` of a tag's attribute text (the key matched without regard to ASCII
/// case, the value as written), or empty.
pub open spec fn attr_or_empty(attrs: Seq<char>, key: Seq<char>) -> Seq<char> {
    match attr_from(attrs, lower_s(key)) {
        Some(v) => v,
        None => Seq::empty(),
    }
}

/// The text of a link: `[inner](href)`, or `inner` alone without an address or text.
pub open spec fn link_md(href: Seq<char>, inner: Seq<char>) -> Seq<char> {
    if href.len() == 0 || inner.len() == 0 {
        inner
    } else {
        "["@ + inner + "]("@ + href + ")"@
    }
}

/// Inline content from `i` up to the closing tag that ends it: `(markdown, position)`.
pub open spec fn inline_at(s: Seq<char>, i: int) -> (Seq<char>, int)
    decreases s.len() - i, 1int,
{
    inline_loop(s, i, Seq::empty())
}

pub open spec fn inline_loop(s: Seq<char>, i: int, acc: Seq<char>) -> (Seq<char>, int)
    decreases s.len() - i, 0int,
{
    if i < 0 || i >= s.len() {
        (acc, i)
    } else if s[i] != '<' {
        let e = clamp(char_from(s, i, '<'), i + 1, s.len() as int);
        inline_loop(s, e, acc + decode(s.subrange(i, e), false))
    } else {
        let t = tag_at(s, i);
        let next = clamp(t.3, i + 1, s.len() as int);
        let closing = t.1;
        let k = kind_of(t.0);
        if k == TagKind::Br || k == TagKind::Img {
            let piece = if k == TagKind::Br {
                "  \n"@
            } else {
                "!["@ + attr_or_empty(t.2, "alt"@) + "]("@ + attr_or_empty(t.2, "src"@) + ")"@
            };
            if closing { (acc + piece, next) } else { inline_loop(s, next, acc + piece) }
        } else if closing {
            (acc, next)
        } else {
            let r = inline_at(s, next);
            let j = clamp(r.1, next, s.len() as int);
            let piece = match emphasis(k) {
                Some(d) => d + trim(r.0) + d,
                None => if k == TagKind::A { link_md(attr_or_empty(t.2, "href"@), trim(r.0)) } else { r.0 },
            };
            inline_loop(s, j, acc + piece)
        }
    }
}



/// `s` ends with an empty line (`"\n\n"`).
pub open spec fn ends_nn(s: Seq<char>) -> bool {
    s.len() >= 2 && s[s.len() - 1] == '\n' && s[s.len() - 2] == '\n'
}

/// `out` with a line break added when it holds text that does not end a paragraph.
pub open spec fn sep(out: Seq<char>) -> Seq<char> {
    if out.len() > 0 && !ends_nn(out) { out + "\n"@ } else { out }
}

/// A paragraph `t` added to `out` (nothing when `t` is empty).
pub open spec fn para(out: Seq<char>, t: Seq<char>) -> Seq<char> {
    if t.len() > 0 { sep(out) + t + "\n\n"@ } else { out }
}

/// The non-blank lines of `lines`, trimmed and quoted.
pub open spec fn quote_lines(lines: Seq<Seq<char>>) -> Seq<char>
    decreases lines.len(),
{
    if lines.len() == 0 {
        Seq::empty()
    } else {
        let t = trim(lines.last());
        quote_lines(lines.drop_last()) + (if t.len() > 0 { "> "@ + t + "\n"@ } else { Seq::empty() })
    }
}

/// Raw text from `i` up to `end` (or to the end of the input) and the position after it.
pub open spec fn raw_until(s: Seq<char>, i: int, end: Seq<char>) -> (Seq<char>, int) {
    let rest = s.skip(i);
    match find_from(rest, 0, end) {
        Some(p) => (rest.take(p), i + p + end.len()),
        None => (rest, s.len() as int),
    }
}

/// Four spaces per list level below the first.
pub open spec fn list_indent(depth: nat) -> Seq<char> {
    Seq::new(if depth >= 1 { (4 * (depth - 1)) as nat } else { 0 }, |i: int| ' ')
}

/// The closing tags that do not end the block loop.
pub open spec fn keeps_going(k: TagKind) -> bool {
    k == TagKind::Li || k == TagKind::Ul || k == TagKind::Ol || k == TagKind::Blockquote
        || k == TagKind::Pre || k == TagKind::Table
}

/// Block content from `i` at list depth `depth`, appended to `out`:
/// `(markdown, position)`.
pub open spec fn blocks_loop(s: Seq<char>, i: int, depth: nat, out: Seq<char>) -> (Seq<char>, int)
    decreases s.len() - i, 2int,
{
    let i1 = clamp(ws_from(s, i), i, s.len() as int);
    if i < 0 || i1 >= s.len() {
        (out, i1)
    } else if s[i1] != '<' {
        let r = inline_at(s, i1);
        let j = clamp(r.1, i1 + 1, s.len() as int);
        blocks_loop(s, j, depth, para(out, trim(r.0)))
    } else {
        let st = block_step(s, i1, depth, out);
        if st.2 {
            (st.0, st.1)
        } else {
            blocks_loop(s, clamp(st.1, i1 + 1, s.len() as int), depth, st.0)
        }
    }
}

/// The tag at `i` handled in block context: `(markdown, position, whether the block
/// loop ends)`.
pub open spec fn block_step(s: Seq<char>, i: int, depth: nat, out: Seq<char>) -> (Seq<char>, int, bool)
    decreases s.len() - i, 1int,
{
    if i < 0 || i >= s.len() {
        (out, i, true)
    } else {
        let t = tag_at(s, i);
        let next = clamp(t.3, i + 1, s.len() as int);
        let closing = t.1;
        let k = kind_of(t.0);
        let step: (Seq<char>, int) = if k == TagKind::Br {
            (out + "  \n"@, next)
        } else if k is Heading {
            let r = inline_at(s, next);
            let n = k->0 as nat;
            (sep(out) + Seq::new(if n <= 6 { n } else { 6 }, |q: int| '#') + " "@ + trim(r.0) + "\n\n"@, clamp(r.1, next, s.len() as int))
        } else if closing {
            (out, next)
        } else if k == TagKind::Para {
            let r = inline_at(s, next);
            (para(out, trim(r.0)), clamp(r.1, next, s.len() as int))
        } else if k == TagKind::Ul || k == TagKind::Ol {
            let r = blocks_loop(s, next, depth + 1, out + "\n"@);
            (r.0 + "\n"@, clamp(r.1, next, s.len() as int))
        } else if k == TagKind::Li {
            let r = inline_at(s, next);
            (out + list_indent(depth) + "- "@ + trim(r.0) + "\n"@, clamp(r.1, next, s.len() as int))
        } else if k == TagKind::Blockquote {
            let r = blocks_loop(s, next, depth, Seq::empty());
            (out + quote_lines(crate::text::split_lines(r.0)) + "\n"@, clamp(r.1, next, s.len() as int))
        } else if k == TagKind::Pre {
            let r = raw_until(s, next, "</pre>"@);
            (out + "```\n"@ + trim_end(r.0) + "\n```\n\n"@, clamp(r.1, next, s.len() as int))
        } else if k == TagKind::Table {
            let r = blocks_loop(s, next, depth, out);
            (r.0, clamp(r.1, next, s.len() as int))
        } else if k == TagKind::Hr {
            (out + "---\n\n"@, next)
        } else if k == TagKind::Raw {
            let r = raw_until(s, next, "</"@ + t.0 + ">"@);
            (out, clamp(r.1, next, s.len() as int))
        } else {
            let r = blocks_loop(s, next, depth, out);
            (r.0, clamp(r.1, next, s.len() as int))
        };
        (step.0, step.1, closing && !keeps_going(k))
    }
}

/// The text from `<body` on (ASCII case ignored), or all of it.
pub open spec fn body_of(html: Seq<char>) -> Seq<char> {
    match find_from(lower_s(html), 0, "<body"@) {
        Some(p) => html.skip(p),
        None => html,
    }
}

/// Lines folded into Markdown: trailing whitespace cut, runs of blank lines kept as one
/// empty line and no leading blank line. Returns the text and whether the last line was
/// blank.
pub open spec fn tidy(lines: Seq<Seq<char>>) -> (Seq<char>, bool)
    decreases lines.len(),
{
    if lines.len() == 0 {
        (Seq::empty(), false)
    } else {
        let r = tidy(lines.drop_last());
        let line = lines.last();
        if trim(line).len() == 0 {
            (if !r.1 && r.0.len() > 0 { r.0 + "\n"@ } else { r.0 }, true)
        } else {
            (r.0 + trim_end(line) + "\n"@, false)
        }
    }
}

/// `s` without the line breaks that make it end with empty lines.
pub open spec fn drop_nn(s: Seq<char>) -> Seq<char>
    decreases s.len(),
{
    if ends_nn(s) { drop_nn(s.drop_last()) } else { s }
}

/// The Markdown of an HTML fragment.
pub open spec fn html_md(html: Seq<char>) -> Seq<char> {
    let out = blocks_loop(body_of(html), 0, 0, Seq::empty()).0;
    drop_nn(tidy(crate::text::split_lines(out)).0)
}



pub proof fn lemma_ws_from(s: Seq<char>, i: int)
    requires
        0 <= i <= s.len(),
    ensures
        i <= ws_from(s, i) <= s.len(),
        ws_from(s, i) < s.len() ==> !ws_b(s[ws_from(s, i)]),
    decreases s.len() - i,
{
    if i < s.len() && ws_b(s[i]) {
        lemma_ws_from(s, i + 1);
    }
}

pub proof fn lemma_name_end(s: Seq<char>, i: int)
    requires
        0 <= i <= s.len(),
    ensures
        i <= name_end(s, i) <= s.len(),
    decreases s.len() - i,
{
    if i < s.len() && s[i] != '>' && !ws_b(s[i]) {
        lemma_name_end(s, i + 1);
    }
}

pub proof fn lemma_char_from(s: Seq<char>, i: int, c: char)
    requires
        0 <= i <= s.len(),
    ensures
        i <= char_from(s, i, c) <= s.len(),
        i < s.len() && s[i] != c ==> char_from(s, i, c) > i,
        char_from(s, i, c) < s.len() ==> s[char_from(s, i, c)] == c,
    decreases s.len() - i,
{
    if i < s.len() && s[i] != c {
        lemma_char_from(s, i + 1, c);
    }
}

pub proof fn lemma_tag_at(s: Seq<char>, i: int)
    requires
        0 <= i < s.len(),
    ensures
        i < tag_at(s, i).3 <= s.len(),
{
    let j = i + 1;
    let closing = j < s.len() && s[j] == '/';
    let st = if closing { j + 1 } else { j };
    lemma_name_end(s, st);
    lemma_char_from(s, name_end(s, st), '>');
}

/// `str::to_ascii_lowercase`.
pub(crate) fn lower_chars(s: &[char]) -> (r: Vec<char>)
    ensures
        r@ == lower_s(s@),
{
    let mut r: Vec<char> = Vec::new();
    let mut i: usize = 0;
    while i < s.len()
        invariant
            i <= s@.len(),
            r@ == lower_s(s@.take(i as int)),
        decreases s@.len() - i,
    {
        let c = s[i];
        let l = if 'A' <= c && c <= 'Z' {
            ((c as u8) + 32) as char
        } else {
            c
        };
        assert(l == lower(c));
        r.push(l);
        i = i + 1;
        assert(r@ =~= lower_s(s@.take(i as int)));
    }
    assert(s@.take(s@.len() as int) =~= s@);
    r
}

/// `str::trim`.
pub fn trim_chars(s: &[char]) -> (r: Vec<char>)
    ensures
        r@ == trim(s@),
{
    let n = s.len();
    let ls = crate::text::skip_ws(s, 0);
    proof {
        crate::text::lemma_ws_run(s@, 0);
    }
    let t = crate::text::slice_vec(s, ls, n);
    let e = crate::text::trim_end_len(&t, t.len());
    proof {
        crate::text::lemma_trail_ws(t@, t@.len() as int);
        assert(t@ =~= trim_start(s@));
    }
    let r = crate::text::slice_vec(&t, 0, e);
    assert(r@ =~= trim(s@));
    r
}

/// `str::trim_end`.
fn trim_end_chars(s: &[char]) -> (r: Vec<char>)
    ensures
        r@ == trim_end(s@),
{
    let e = crate::text::trim_end_len(s, s.len());
    proof {
        crate::text::lemma_trail_ws(s@, s@.len() as int);
    }
    let r = crate::text::slice_vec(s, 0, e);
    assert(r@ =~= trim_end(s@));
    r
}

/// The text from `<body` on, or all of it.
fn strip_non_body(html: &[char]) -> (r: Vec<char>)
    ensures
        r@ == body_of(html@),
{
    let lower = lower_chars(html);
    let pat = chars_of("<body");
    proof {
        lemma_find_from(lower@, 0, pat@);
    }
    match crate::text::find_seq(&lower, 0, &pat) {
        Some(p) => crate::text::slice_vec(html, p, html.len()),
        None => {
            let mut r: Vec<char> = Vec::new();
            crate::text::extend_all(&mut r, html);
            r
        },
    }
}

/// Parser whitespace (`u8` space, tab, line feed, carriage return).
fn is_ws(c: char) -> (r: bool)
    ensures
        r == ws_b(c),
{
    c == ' ' || c == '\t' || c == '\n' || c == '\r'
}

/// The kind of a lowercase tag name.
fn tag_kind(n: &Vec<char>) -> (r: TagKind)
    ensures
        r == kind_of(n@),
{
    if is_lit(n, "br") {
        TagKind::Br
    } else if is_lit(n, "strong") || is_lit(n, "b") {
        TagKind::Strong
    } else if is_lit(n, "em") || is_lit(n, "i") {
        TagKind::Em
    } else if is_lit(n, "del") || is_lit(n, "s") || is_lit(n, "strike") {
        TagKind::Del
    } else if is_lit(n, "code") {
        TagKind::Code
    } else if is_lit(n, "mark") {
        TagKind::Mark
    } else if is_lit(n, "sub") {
        TagKind::Sub
    } else if is_lit(n, "sup") {
        TagKind::Sup
    } else if is_lit(n, "u") {
        TagKind::U
    } else if is_lit(n, "a") {
        TagKind::A
    } else if is_lit(n, "img") {
        TagKind::Img
    } else if is_lit(n, "p") || is_lit(n, "div") || is_lit(n, "section") || is_lit(n, "article")
        || is_lit(n, "span") || is_lit(n, "font") || is_lit(n, "center") {
        TagKind::Para
    } else if is_lit(n, "h1") {
        TagKind::Heading(1)
    } else if is_lit(n, "h2") {
        TagKind::Heading(2)
    } else if is_lit(n, "h3") {
        TagKind::Heading(3)
    } else if is_lit(n, "h4") {
        TagKind::Heading(4)
    } else if is_lit(n, "h5") {
        TagKind::Heading(5)
    } else if is_lit(n, "h6") {
        TagKind::Heading(6)
    } else if is_lit(n, "ul") {
        TagKind::Ul
    } else if is_lit(n, "ol") {
        TagKind::Ol
    } else if is_lit(n, "li") {
        TagKind::Li
    } else if is_lit(n, "blockquote") {
        TagKind::Blockquote
    } else if is_lit(n, "pre") {
        TagKind::Pre
    } else if is_lit(n, "table") {
        TagKind::Table
    } else if is_lit(n, "tr") || is_lit(n, "td") || is_lit(n, "th") || is_lit(n, "thead")
        || is_lit(n, "tbody") || is_lit(n, "tfoot") {
        TagKind::Cell
    } else if is_lit(n, "hr") {
        TagKind::Hr
    } else if is_lit(n, "script") || is_lit(n, "style") {
        TagKind::Raw
    } else {
        TagKind::Other
    }
}

/// The Markdown delimiter of an inline emphasis tag.
fn emphasis_chars(k: TagKind) -> (r: Option<Vec<char>>)
    ensures
        r matches Some(d) ==> emphasis(k) == Some(d@),
        r is None ==> emphasis(k) is None,
{
    match k {
        TagKind::Strong => Some(chars_of("**")),
        TagKind::Em => Some(chars_of("*")),
        TagKind::Del => Some(chars_of("~~")),
        TagKind::Code => Some(chars_of("`")),
        TagKind::Mark => Some(chars_of("==")),
        TagKind::Sub => Some(chars_of("~")),
        TagKind::Sup => Some(chars_of("^")),
        TagKind::U => Some(Vec::new()),
        _ => None,
    }
}

/// Value of attribute `key` (lowercase, not empty) in attribute text `a`, whose
/// lowercase form is `lo`.
fn attr_in(l: &Vec<char>, lo: &Vec<char>, key: &Vec<char>) -> (r: Option<Vec<char>>)
    requires
        key@.len() > 0,
        lo@ == lower_s(l@),
    ensures
        r matches Some(v) ==> attr_from(l@, key@) == Some(v@),
        r is None ==> attr_from(l@, key@) is None,
    decreases l@.len(),
{
    let found = crate::text::find_seq(lo, 0, key);
    proof {
        lemma_find_from(lo@, 0, key@);
    }
    match found {
        None => None,
        Some(p) => {
            let n = l.len();
            let kl = key.len();
            assert(lo@.len() == n);
            assert(p + kl <= n);
            let after0 = crate::text::slice_vec(l, p + kl, n);
            let a = crate::text::skip_ws(&after0, 0);
            proof {
                crate::text::lemma_ws_run(after0@, 0);
            }
            let after = crate::text::slice_vec(&after0, a, after0.len());
            assert(after0@ =~= l@.skip(p + key@.len()));
            assert(after@ =~= trim_start(l@.skip(p + key@.len())));
            if after.len() > 0 && after[0] == '=' {
                let q0 = crate::text::slice_vec(&after, 1, after.len());
                let b = crate::text::skip_ws(&q0, 0);
                proof {
                    crate::text::lemma_ws_run(q0@, 0);
                }
                let q = crate::text::slice_vec(&q0, b, q0.len());
                assert(q0@ =~= after@.skip(1));
                assert(q@ =~= trim_start(after@.skip(1)));
                if q.len() > 0 && (q[0] == '"' || q[0] == '\'') {
                    let quote = q[0];
                    proof {
                        lemma_first_from(q@, 1, q@.len() as int, quote);
                    }
                    match crate::text::find_char(&q, 1, q.len(), quote) {
                        Some(e) => Some(crate::text::slice_vec(&q, 1, e)),
                        None => None,
                    }
                } else {
                    None
                }
            } else {
                let rest = crate::text::slice_vec(l, p + 1, l.len());
                let lrest = crate::text::slice_vec(lo, p + 1, lo.len());
                assert(rest@ =~= l@.skip(p + 1));
                assert(lrest@ =~= lower_s(rest@));
                attr_in(&rest, &lrest, key)
            }
        },
    }
}

/// The parser state: the input, the position, and the Markdown written so far.
struct Parser {
    s: Vec<char>,
    i: usize,
    out: Vec<char>,
}

impl Parser {
    fn new(s: Vec<char>) -> (r: Parser)
        ensures
            r.s@ == s@,
            r.i == 0,
            r.out@ == Seq::<char>::empty(),
    {
        Parser { s, i: 0, out: Vec::new() }
    }

    /// Reads the tag at the position (a `<`): lowercase name, closing, attribute text.
    fn parse_tag(&mut self) -> (r: (Vec<char>, bool, Vec<char>))
        requires
            old(self).i < old(self).s@.len(),
        ensures
            final(self).s == old(self).s,
            final(self).out == old(self).out,
            tag_at(old(self).s@, old(self).i as int) == (r.0@, r.1, r.2@, final(self).i as int),
    {
        let n = self.s.len();
        self.i = self.i + 1;
        let mut closing = false;
        if self.i < n && self.s[self.i] == '/' {
            closing = true;
            self.i = self.i + 1;
        }
        let start = self.i;
        while self.i < n && self.s[self.i] != '>' && !is_ws(self.s[self.i])
            invariant
                start <= self.i <= n == self.s@.len(),
                self.s == old(self).s,
                self.out == old(self).out,
                name_end(self.s@, start as int) == name_end(self.s@, self.i as int),
            decreases n - self.i,
        {
            self.i = self.i + 1;
        }
        let raw = crate::text::slice_vec(&self.s, start, self.i);
        let name = lower_chars(&raw);
        let attr_start = self.i;
        while self.i < n && self.s[self.i] != '>'
            invariant
                attr_start <= self.i <= n == self.s@.len(),
                self.s == old(self).s,
                self.out == old(self).out,
                char_from(self.s@, attr_start as int, '>') == char_from(self.s@, self.i as int, '>'),
            decreases n - self.i,
        {
            self.i = self.i + 1;
        }
        let attrs = crate::text::slice_vec(&self.s, attr_start, self.i);
        if self.i < n {
            self.i = self.i + 1;
        }
        (name, closing, attrs)
    }

    /// Reads text up to the next `<`, with entities decoded.
    fn read_text(&mut self) -> (r: Vec<char>)
        requires
            old(self).i <= old(self).s@.len(),
        ensures
            final(self).s == old(self).s,
            final(self).out == old(self).out,
            final(self).i == char_from(old(self).s@, old(self).i as int, '<'),
            r@ == decode(old(self).s@.subrange(old(self).i as int, final(self).i as int), false),
    {
        let n = self.s.len();
        let start = self.i;
        while self.i < n && self.s[self.i] != '<'
            invariant
                start <= self.i <= n == self.s@.len(),
                self.s == old(self).s,
                self.out == old(self).out,
                char_from(self.s@, start as int, '<') == char_from(self.s@, self.i as int, '<'),
            decreases n - self.i,
        {
            self.i = self.i + 1;
        }
        let t = crate::text::slice_vec(&self.s, start, self.i);
        decode_entities_with(&t, false)
    }

    /// Value of attribute `key` in `attrs` (the key matched ignoring ASCII case, the value
    /// as written).
    fn attr(&self, attrs: &Vec<char>, key: &str) -> (r: Option<Vec<char>>)
        requires
            key@.len() > 0,
        ensures
            r matches Some(v) ==> attr_from(attrs@, lower_s(key@)) == Some(v@),
            r is None ==> attr_from(attrs@, lower_s(key@)) is None,
    {
        let lower = lower_chars(attrs);
        let k = lower_chars(&chars_of(key));
        attr_in(attrs, &lower, &k)
    }

    /// Attribute `key`, or empty.
    fn attr_or_default(&self, attrs: &Vec<char>, key: &str) -> (r: Vec<char>)
        requires
            key@.len() > 0,
        ensures
            r@ == attr_or_empty(attrs@, key@),
    {
        match self.attr(attrs, key) {
            Some(v) => v,
            None => Vec::new(),
        }
    }
}


impl Parser {
    /// Inline content up to the closing tag that ends it.
    fn inline(&mut self) -> (r: Vec<char>)
        requires
            old(self).i <= old(self).s@.len(),
        ensures
            final(self).s == old(self).s,
            final(self).out == old(self).out,
            old(self).i <= final(self).i <= final(self).s@.len(),
            (r@, final(self).i as int) == inline_at(old(self).s@, old(self).i as int),
        decreases old(self).s@.len() - old(self).i,
    {
        let ghost s0 = self.s@;
        let ghost i0 = self.i as int;
        let n = self.s.len();
        let mut acc: Vec<char> = Vec::new();
        let mut done = false;
        while !done && self.i < n
            invariant
                self.s == old(self).s,
                self.out == old(self).out,
                s0 == self.s@,
                n == s0.len(),
                i0 == old(self).i as int,
                i0 <= self.i <= n,
                !done ==> inline_loop(s0, self.i as int, acc@) == inline_at(s0, i0),
                done ==> (acc@, self.i as int) == inline_at(s0, i0),
            decreases n - self.i, if done { 0int } else { 1int },
        {
            let ghost ii = self.i as int;
            let ghost a0 = acc@;
            if self.s[self.i] != '<' {
                proof {
                    lemma_char_from(s0, ii, '<');
                }
                let t = self.read_text();
                crate::text::extend_all(&mut acc, &t);
            } else {
                proof {
                    lemma_tag_at(s0, ii);
                }
                let (name, closing, attrs) = self.parse_tag();
                let k = tag_kind(&name);
                let next = self.i;
                if k == TagKind::Br || k == TagKind::Img {
                    let piece = if k == TagKind::Br {
                        chars_of("  \n")
                    } else {
                        proof {
                            reveal_strlit("alt");
                            reveal_strlit("src");
                        }
                        let alt = self.attr_or_default(&attrs, "alt");
                        let src = self.attr_or_default(&attrs, "src");
                        let mut p = chars_of("![");
                        crate::text::extend_all(&mut p, &alt);
                        crate::text::extend_all(&mut p, &chars_of("]("));
                        crate::text::extend_all(&mut p, &src);
                        crate::text::extend_all(&mut p, &chars_of(")"));
                        p
                    };
                    crate::text::extend_all(&mut acc, &piece);
                    if closing {
                        done = true;
                    }
                } else if closing {
                    done = true;
                } else {
                    let inner = self.inline();
                    let j = self.i;
                    let piece = match emphasis_chars(k) {
                        Some(d) => {
                            let t = trim_chars(&inner);
                            let mut p = d.clone();
                            assert(p@ == d@);
                            crate::text::extend_all(&mut p, &t);
                            crate::text::extend_all(&mut p, &d);
                            p
                        },
                        None => {
                            if k == TagKind::A {
                                proof {
                                    reveal_strlit("href");
                                }
                                let href = self.attr_or_default(&attrs, "href");
                                let t = trim_chars(&inner);
                                if href.len() == 0 || t.len() == 0 {
                                    t
                                } else {
                                    let mut p = chars_of("[");
                                    crate::text::extend_all(&mut p, &t);
                                    crate::text::extend_all(&mut p, &chars_of("]("));
                                    crate::text::extend_all(&mut p, &href);
                                    crate::text::extend_all(&mut p, &chars_of(")"));
                                    p
                                }
                            } else {
                                inner
                            }
                        },
                    };
                    crate::text::extend_all(&mut acc, &piece);
                }
            }
        }
        acc
    }
}


/// `s` ends with an empty line.
fn ends_nn_chars(s: &Vec<char>) -> (r: bool)
    ensures
        r == ends_nn(s@),
{
    let n = s.len();
    n >= 2 && s[n - 1] == '\n' && s[n - 2] == '\n'
}

/// The non-blank lines of `text`, trimmed and quoted.
fn quoted(text: &Vec<char>) -> (r: Vec<char>)
    ensures
        r@ == quote_lines(crate::text::split_lines(text@)),
{
    let parts = crate::text::split_chars(text);
    let ghost ps = parts@.map_values(|x: Vec<char>| x@);
    let mut out: Vec<char> = Vec::new();
    let mut k: usize = 0;
    assert(ps.take(0) =~= Seq::<Seq<char>>::empty());
    while k < parts.len()
        invariant
            k <= parts@.len() == ps.len(),
            ps == parts@.map_values(|x: Vec<char>| x@),
            out@ == quote_lines(ps.take(k as int)),
        decreases parts@.len() - k,
    {
        let t = trim_chars(&parts[k]);
        if t.len() > 0 {
            crate::text::extend_all(&mut out, &chars_of("> "));
            crate::text::extend_all(&mut out, &t);
            out.push('\n');
        }
        proof {
            assert(ps.take(k + 1).drop_last() =~= ps.take(k as int));
            assert(ps.take(k + 1).last() == parts@[k as int]@);
        }
        k = k + 1;
        proof {
            reveal_strlit("\n");
            assert("\n"@ =~= seq!['\n']);
        }
    }
    assert(ps.take(ps.len() as int) =~= ps);
    out
}

impl Parser {
    /// Ends the current line unless the output is empty or ends with an empty line.
    fn push_sep(&mut self)
        ensures
            final(self).s == old(self).s,
            final(self).i == old(self).i,
            final(self).out@ == sep(old(self).out@),
    {
        if self.out.len() > 0 && !ends_nn_chars(&self.out) {
            self.out.push('\n');
            proof {
                reveal_strlit("\n");
            }
        }
    }

    /// Adds a paragraph.
    fn push_para(&mut self, t: &Vec<char>)
        ensures
            final(self).s == old(self).s,
            final(self).i == old(self).i,
            final(self).out@ == para(old(self).out@, t@),
    {
        if t.len() > 0 {
            self.push_sep();
            crate::text::extend_all(&mut self.out, t);
            crate::text::extend_all(&mut self.out, &chars_of("\n\n"));
        }
    }

    /// A heading of `level` from the inline content that follows.
    fn heading(&mut self, level: usize)
        requires
            old(self).i <= old(self).s@.len(),
            1 <= level <= 6,
        ensures
            final(self).s == old(self).s,
            old(self).i <= final(self).i <= final(self).s@.len(),
            ({
                let r = inline_at(old(self).s@, old(self).i as int);
                &&& final(self).out@ == sep(old(self).out@) + Seq::new(level as nat, |q: int| '#') + " "@ + trim(r.0) + "\n\n"@
                &&& final(self).i == r.1
            }),
    {
        self.push_sep();
        let text = self.inline();
        let t = trim_chars(&text);
        let mut k: usize = 0;
        let ghost o = self.out@;
        let ghost ia = self.i;
        while k < level
            invariant
                k <= level <= 6,
                self.s == old(self).s,
                self.i == ia,
                self.out@ == o + Seq::new(k as nat, |q: int| '#'),
            decreases level - k,
        {
            self.out.push('#');
            k = k + 1;
            assert(self.out@ =~= o + Seq::new(k as nat, |q: int| '#'));
        }
        crate::text::extend_all(&mut self.out, &chars_of(" "));
        crate::text::extend_all(&mut self.out, &t);
        crate::text::extend_all(&mut self.out, &chars_of("\n\n"));
    }

    /// Raw text up to `end` (or the end of the input); the position moves past `end`.
    fn raw_text_until(&mut self, end: &Vec<char>) -> (r: Vec<char>)
        requires
            old(self).i <= old(self).s@.len(),
        ensures
            final(self).s == old(self).s,
            final(self).out == old(self).out,
            (r@, final(self).i as int) == raw_until(old(self).s@, old(self).i as int, end@),
            old(self).i <= final(self).i <= final(self).s@.len(),
    {
        let n = self.s.len();
        let rest = crate::text::slice_vec(&self.s, self.i, n);
        assert(rest@ =~= self.s@.skip(self.i as int));
        proof {
            lemma_find_from(rest@, 0, end@);
        }
        match crate::text::find_seq(&rest, 0, end) {
            Some(p) => {
                let text = crate::text::slice_vec(&rest, 0, p);
                assert(text@ =~= rest@.take(p as int));
                self.i = self.i + p + end.len();
                text
            },
            None => {
                self.i = n;
                rest
            },
        }
    }
}


impl Parser {
    /// The tag at the position, handled in block context; returns whether the block loop
    /// ends.
    fn block_tag(&mut self, list_depth: usize) -> (stop: bool)
        requires
            old(self).i < old(self).s@.len(),
            list_depth <= old(self).i,
        ensures
            final(self).s == old(self).s,
            old(self).i < final(self).i <= final(self).s@.len(),
            ({
                let st = block_step(old(self).s@, old(self).i as int, list_depth as nat, old(self).out@);
                &&& final(self).out@ == st.0
                &&& final(self).i == st.1
                &&& stop == st.2
            }),
        decreases old(self).s@.len() - old(self).i, 1int,
    {
        let ghost s0 = self.s@;
        let ghost i0 = self.i as int;
        proof {
            lemma_tag_at(s0, i0);
        }
        let (name, closing, attrs) = self.parse_tag();
        let k = tag_kind(&name);
        let n = self.s.len();
        match k {
            TagKind::Br => {
                crate::text::extend_all(&mut self.out, &chars_of("  \n"));
            },
            TagKind::Heading(level) => {
                self.heading(level as usize);
            },
            _ => {
                if !closing {
                    self.block_open(k, &name, list_depth);
                }
            },
        }
        closing && !(k == TagKind::Li || k == TagKind::Ul || k == TagKind::Ol || k == TagKind::Blockquote
            || k == TagKind::Pre || k == TagKind::Table)
    }

    /// An opening block tag of kind `k` (not a line break or heading) whose `>` was read.
    fn block_open(&mut self, k: TagKind, name: &Vec<char>, list_depth: usize)
        requires
            old(self).i <= old(self).s@.len(),
            list_depth < old(self).i,
            !(k is Br || k is Heading),
        ensures
            final(self).s == old(self).s,
            old(self).i <= final(self).i <= final(self).s@.len(),
            ({
                let s = old(self).s@;
                let next = old(self).i as int;
                let out = old(self).out@;
                let depth = list_depth as nat;
                let step: (Seq<char>, int) = if k == TagKind::Para {
                    let r = inline_at(s, next);
                    (para(out, trim(r.0)), r.1)
                } else if k == TagKind::Ul || k == TagKind::Ol {
                    let r = blocks_loop(s, next, depth + 1, out + "\n"@);
                    (r.0 + "\n"@, r.1)
                } else if k == TagKind::Li {
                    let r = inline_at(s, next);
                    (out + list_indent(depth) + "- "@ + trim(r.0) + "\n"@, r.1)
                } else if k == TagKind::Blockquote {
                    let r = blocks_loop(s, next, depth, Seq::empty());
                    (out + quote_lines(crate::text::split_lines(r.0)) + "\n"@, r.1)
                } else if k == TagKind::Pre {
                    let r = raw_until(s, next, "</pre>"@);
                    (out + "```\n"@ + trim_end(r.0) + "\n```\n\n"@, r.1)
                } else if k == TagKind::Table {
                    let r = blocks_loop(s, next, depth, out);
                    (r.0, r.1)
                } else if k == TagKind::Hr {
                    (out + "---\n\n"@, next)
                } else if k == TagKind::Raw {
                    let r = raw_until(s, next, "</"@ + name@ + ">"@);
                    (out, r.1)
                } else {
                    let r = blocks_loop(s, next, depth, out);
                    (r.0, r.1)
                };
                &&& final(self).out@ == step.0
                &&& final(self).i == step.1
            }),
        decreases old(self).s@.len() - old(self).i + 1, 0int,
    {
        match k {
            TagKind::Para => {
                let text = self.inline();
                let t = trim_chars(&text);
                self.push_para(&t);
            },
            TagKind::Ul | TagKind::Ol => {
                let ghost o = self.out@;
                self.out.push('\n');
                proof {
                    reveal_strlit("\n");
                    assert(self.out@ =~= o + "\n"@);
                }
                self.blocks(list_depth + 1);
                let ghost o2 = self.out@;
                self.out.push('\n');
                assert(self.out@ =~= o2 + "\n"@);
            },
            TagKind::Li => {
                let mut k2: usize = 0;
                let reps = if list_depth >= 1 { list_depth - 1 } else { 0 };
                let ghost o = self.out@;
                let ghost ii = self.i;
                while k2 < reps
                    invariant
                        k2 <= reps,
                        reps as nat == (if list_depth >= 1 { (list_depth - 1) as nat } else { 0nat }),
                        self.s == old(self).s,
                        self.i == ii,
                        self.out@ == o + Seq::new((4 * k2) as nat, |q: int| ' '),
                    decreases reps - k2,
                {
                    crate::text::extend_all(&mut self.out, &chars_of("    "));
                    k2 = k2 + 1;
                    proof {
                        reveal_strlit("    ");
                    }
                    assert(self.out@ =~= o + Seq::new((4 * k2) as nat, |q: int| ' '));
                }
                assert(Seq::new((4 * k2) as nat, |q: int| ' ') =~= list_indent(list_depth as nat));
                let text = self.inline();
                let t = trim_chars(&text);
                crate::text::extend_all(&mut self.out, &chars_of("- "));
                crate::text::extend_all(&mut self.out, &t);
                crate::text::extend_all(&mut self.out, &chars_of("\n"));
            },
            TagKind::Blockquote => {
                let mut saved: Vec<char> = Vec::new();
                std::mem::swap(&mut saved, &mut self.out);
                self.blocks(list_depth);
                let mut quoted_text: Vec<char> = Vec::new();
                std::mem::swap(&mut quoted_text, &mut self.out);
                self.out = saved;
                let q = quoted(&quoted_text);
                crate::text::extend_all(&mut self.out, &q);
                crate::text::extend_all(&mut self.out, &chars_of("\n"));
            },
            TagKind::Pre => {
                let inner = self.raw_text_until(&chars_of("</pre>"));
                let t = trim_end_chars(&inner);
                crate::text::extend_all(&mut self.out, &chars_of("```\n"));
                crate::text::extend_all(&mut self.out, &t);
                crate::text::extend_all(&mut self.out, &chars_of("\n```\n\n"));
            },
            TagKind::Table => {
                self.blocks(list_depth);
            },
            TagKind::Hr => {
                crate::text::extend_all(&mut self.out, &chars_of("---\n\n"));
            },
            TagKind::Raw => {
                let mut end = chars_of("</");
                crate::text::extend_all(&mut end, name);
                crate::text::extend_all(&mut end, &chars_of(">"));
                self.raw_text_until(&end);
            },
            _ => {
                self.blocks(list_depth);
            },
        }
    }

    /// Block content until the closing tag that ends it.
    fn blocks(&mut self, list_depth: usize)
        requires
            old(self).i <= old(self).s@.len(),
            list_depth <= old(self).i,
        ensures
            final(self).s == old(self).s,
            old(self).i <= final(self).i <= final(self).s@.len(),
            (final(self).out@, final(self).i as int) == blocks_loop(old(self).s@, old(self).i as int, list_depth as nat, old(self).out@),
        decreases old(self).s@.len() - old(self).i, 2int,
    {
        let ghost s0 = self.s@;
        let ghost i0 = self.i as int;
        let ghost goal = blocks_loop(s0, i0, list_depth as nat, self.out@);
        let n = self.s.len();
        let mut done = false;
        while !done
            invariant
                self.s == old(self).s,
                s0 == self.s@,
                n == s0.len(),
                i0 == old(self).i as int,
                list_depth <= i0 <= self.i <= n,
                goal == blocks_loop(s0, i0, list_depth as nat, old(self).out@),
                !done ==> blocks_loop(s0, self.i as int, list_depth as nat, self.out@) == goal,
                done ==> (self.out@, self.i as int) == goal,
            decreases n - self.i, if done { 0int } else { 1int },
        {
            let ghost ib = self.i as int;
            let ghost ob = self.out@;
            proof {
                lemma_ws_from(s0, ib);
            }
            while self.i < n && is_ws(self.s[self.i])
                invariant
                    self.s == old(self).s,
                    self.out@ == ob,
                    s0 == self.s@,
                    n == s0.len(),
                    ib <= self.i <= n,
                    ws_from(s0, ib) == ws_from(s0, self.i as int),
                decreases n - self.i,
            {
                self.i = self.i + 1;
            }
            if self.i >= n {
                done = true;
            } else if self.s[self.i] != '<' {
                proof {
                    lemma_char_from(s0, self.i as int, '<');
                    lemma_inline_progress(s0, self.i as int);
                }
                let text = self.inline();
                let t = trim_chars(&text);
                self.push_para(&t);
            } else {
                let stop = self.block_tag(list_depth);
                if stop {
                    done = true;
                }
            }
        }
    }
}

/// Inline content that starts with text moves past at least one character.
proof fn lemma_inline_progress(s: Seq<char>, i: int)
    requires
        0 <= i < s.len(),
        s[i] != '<',
    ensures
        inline_at(s, i).1 > i,
{
    lemma_char_from(s, i, '<');
    lemma_inline_range(s, clamp(char_from(s, i, '<'), i + 1, s.len() as int), Seq::empty() + decode(s.subrange(i, clamp(char_from(s, i, '<'), i + 1, s.len() as int)), false));
}

/// Inline parsing never moves backwards or past the end.
proof fn lemma_inline_range(s: Seq<char>, i: int, acc: Seq<char>)
    requires
        0 <= i <= s.len(),
    ensures
        i <= inline_loop(s, i, acc).1 <= s.len(),
    decreases s.len() - i,
{
    if i < s.len() {
        if s[i] != '<' {
            let e = clamp(char_from(s, i, '<'), i + 1, s.len() as int);
            lemma_inline_range(s, e, acc + decode(s.subrange(i, e), false));
        } else {
            let t = tag_at(s, i);
            let next = clamp(t.3, i + 1, s.len() as int);
            let k = kind_of(t.0);
            if k == TagKind::Br || k == TagKind::Img {
                let piece = if k == TagKind::Br {
                    "  \n"@
                } else {
                    "!["@ + attr_or_empty(t.2, "alt"@) + "]("@ + attr_or_empty(t.2, "src"@) + ")"@
                };
                if !t.1 {
                    lemma_inline_range(s, next, acc + piece);
                }
            } else if !t.1 {
                let r = inline_at(s, next);
                let j = clamp(r.1, next, s.len() as int);
                let piece = match emphasis(k) {
                    Some(d) => d + trim(r.0) + d,
                    None => if k == TagKind::A { link_md(attr_or_empty(t.2, "href"@), trim(r.0)) } else { r.0 },
                };
                lemma_inline_range(s, j, acc + piece);
            }
        }
    }
}


/// Converts clipboard HTML to Markdown: paragraphs, headings, lists, quotes, code blocks,
/// rules, emphasis, links and images; runs of blank lines become one empty line.
pub fn html_to_md(html: &str) -> (r: String)
    ensures
        r@ == html_md(html@),
{
    let h = chars_of(html);
    let body = strip_non_body(&h);
    let mut p = Parser::new(body);
    p.blocks(0);
    let parts = crate::text::split_chars(&p.out);
    let ghost ps = parts@.map_values(|x: Vec<char>| x@);
    let mut out: Vec<char> = Vec::new();
    let mut prev_blank = false;
    let mut k: usize = 0;
    assert(ps.take(0) =~= Seq::<Seq<char>>::empty());
    while k < parts.len()
        invariant
            k <= parts@.len() == ps.len(),
            ps == parts@.map_values(|x: Vec<char>| x@),
            (out@, prev_blank) == tidy(ps.take(k as int)),
        decreases parts@.len() - k,
    {
        let t = trim_chars(&parts[k]);
        proof {
            assert(ps.take(k + 1).drop_last() =~= ps.take(k as int));
            assert(ps.take(k + 1).last() == parts@[k as int]@);
            reveal_strlit("\n");
        }
        if t.len() == 0 {
            if !prev_blank && out.len() > 0 {
                let ghost o = out@;
                out.push('\n');
                assert(out@ =~= o + "\n"@);
            }
            prev_blank = true;
        } else {
            let te = trim_end_chars(&parts[k]);
            let ghost o = out@;
            crate::text::extend_all(&mut out, &te);
            out.push('\n');
            assert(out@ =~= o + te@ + "\n"@);
            prev_blank = false;
        }
        k = k + 1;
    }
    assert(ps.take(ps.len() as int) =~= ps);
    let ghost full = out@;
    while ends_nn_chars(&out)
        invariant
            drop_nn(out@) == drop_nn(full),
        decreases out@.len(),
    {
        let ghost o = out@;
        out.pop();
        assert(out@ =~= o.drop_last());
    }
    string_of(&out)
}

} // verus!
