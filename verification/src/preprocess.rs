//! VitePress block-level preprocessing ahead of the CommonMark parse: `<!--@include: path-->`
//! file inclusion (recursive, depth-limited), `<<< path` code-snippet imports, and
//! `::: kind title` custom containers turned into `<vp-container>` markers; fenced code is
//! never touched, and consecutive list items are separated by a blank line.
//!
//! Reading files is left to the caller: the preprocessor works on the files it has been
//! given and, when it needs one more, says which.

use vstd::prelude::*;
use crate::html2md::starts_lit;
use crate::text::{
    chars_of, count_run, extend_all, find_seq, first_from, find_from, lemma_find_from,
    lead_ws, run_of, slice_vec, split_chars, split_lines, string_of, trim, trim_start,
};
use crate::vitepress::{
    import_spec, line_ranges, list_item_line, nonws_run, parse_import_spec, strip_suf, trail_run,
    trimmed,
};

verus! {

/// How deep includes may nest.
pub const MAX_INCLUDE_DEPTH: usize = 10;

/// A file that the preprocessor may read: its path as the page names it (after
/// resolution), its content (`None` when it cannot be read) and its extension (`txt` when
/// it has none).
#[derive(Debug)]
pub struct SourceFile {
    pub path: String,
    pub content: Option<String>,
    pub ext: String,
}

pub type FileV = (Seq<char>, Option<Seq<char>>, Seq<char>);

pub open spec fn files_v(s: Seq<SourceFile>) -> Seq<FileV> {
    s.map_values(|f: SourceFile| (f.path@, crate::markdown::opt_v(f.content), f.ext@))
}

/// The outcome of preprocessing: the text, or the path of a file that is needed first.
#[derive(Debug, PartialEq)]
pub enum Preprocessed {
    Done(String),
    NeedsFile(String),
}

pub enum PreV {
    Done(Seq<char>),
    NeedsFile(Seq<char>),
}

pub open spec fn pre_v(p: Preprocessed) -> PreV {
    match p {
        Preprocessed::Done(s) => PreV::Done(s@),
        Preprocessed::NeedsFile(s) => PreV::NeedsFile(s@),
    }
}

/// The lines of `s` as `str::lines` gives them: split at `\n`, a `\r` before the `\n`
/// dropped, no empty line after a final `\n`.
pub open spec fn std_lines(s: Seq<char>) -> Seq<Seq<char>> {
    let ps = split_lines(s);
    let body = if ps.len() > 0 && ps.last().len() == 0 {
        ps.drop_last()
    } else {
        ps
    };
    Seq::new(
        body.len(),
        |k: int|
            if k < ps.len() - 1 {
                strip_suf(body[k], '\r')
            } else {
                body[k]
            },
    )
}

/// `s` with the literal prefix `p` taken off, if it starts with it.
pub open spec fn strip_lit(s: Seq<char>, p: Seq<char>) -> Seq<char> {
    if s.len() >= p.len() && s.take(p.len() as int) == p {
        s.skip(p.len() as int)
    } else {
        s
    }
}

/// `str::trim_matches(c)`: every leading and trailing `c` taken off.
pub open spec fn trim_all(s: Seq<char>, c: char) -> Seq<char> {
    let a = run_of(s, 0, c);
    if a >= s.len() {
        Seq::empty()
    } else {
        s.subrange(a, s.len() - trail_run(s, s.len() as int, c))
    }
}

/// The path, relative to the page's directory, that a spec names: `@/x` and `./x` stand
/// for `x`; `None` for an empty spec or a page with no directory.
pub open spec fn resolved(spec: Seq<char>, has_base: bool) -> Option<Seq<char>> {
    let t = trim(spec);
    if t.len() == 0 || !has_base {
        None
    } else {
        Some(strip_lit(strip_lit(t, "@/"@), "./"@))
    }
}

/// The file an `<!--@include: path-->` line names.
pub open spec fn include_target(t: Seq<char>, has_base: bool) -> Option<Seq<char>> {
    if t.len() >= 13 && t.take(13) == "<!--@include:"@ {
        let rest = t.skip(13);
        match find_from(rest, 0, "-->"@) {
            Some(e) => resolved(trim_all(trim_all(trim(rest.take(e)), '"'), '\''), has_base),
            None => None,
        }
    } else {
        None
    }
}

/// The file, line ranges and title that a `<<< path{ranges} title="..."` line names.
pub open spec fn import_target(t: Seq<char>, has_base: bool) -> Option<
    (Seq<char>, Seq<(usize, usize)>, Option<Seq<char>>),
> {
    if t.len() >= 3 && t.take(3) == "<<<"@ {
        let sp = trim(t.skip(3));
        if sp.len() == 0 {
            None
        } else {
            let x = import_spec(sp);
            match resolved(x.0, has_base) {
                Some(rel) => Some((rel, x.1, x.2)),
                None => None,
            }
        }
    } else {
        None
    }
}

/// `t` with each `"` written `&quot;`.
pub open spec fn esc_quotes(t: Seq<char>) -> Seq<char>
    decreases t.len(),
{
    if t.len() == 0 {
        Seq::empty()
    } else {
        esc_quotes(t.drop_last()) + if t.last() == '"' {
            "&quot;"@
        } else {
            seq![t.last()]
        }
    }
}

/// ` title="..."`, or nothing.
pub open spec fn title_attr(title: Option<Seq<char>>) -> Seq<char> {
    match title {
        Some(t) => " title=\""@ + esc_quotes(t) + "\""@,
        None => Seq::empty(),
    }
}

/// What a `:::` line becomes: the closing marker for `:::` alone, else an opening
/// `<vp-container type="kind" title="...">` marker; `None` for other lines.
pub open spec fn container_marker(t: Seq<char>) -> Option<Seq<char>> {
    if t.len() >= 3 && t.take(3) == ":::"@ {
        let sp = trim(t.skip(3));
        if sp.len() == 0 {
            Some("\n</vp-container>\n"@)
        } else {
            let k = nonws_run(sp, 0);
            let kind = trim(sp.take(k));
            let title = if k < sp.len() && trim(sp.skip(k + 1)).len() > 0 {
                Some(trim(sp.skip(k + 1)))
            } else {
                None
            };
            Some("<vp-container type=\""@ + kind + "\""@ + title_attr(title) + ">\n\n"@)
        }
    } else {
        None
    }
}

/// Lines `a..=b` (1-based) of `lines`, each followed by `\n`; lines past the end are
/// skipped.
pub open spec fn lines_span(lines: Seq<Seq<char>>, a: int, b: int) -> Seq<char>
    decreases b - a + 1,
{
    if a > b {
        Seq::empty()
    } else {
        lines_span(lines, a, b - 1) + if 1 <= b && b - 1 < lines.len() {
            lines[b - 1] + seq!['\n']
        } else {
            Seq::empty()
        }
    }
}

pub open spec fn select_ranges(lines: Seq<Seq<char>>, rs: Seq<(usize, usize)>) -> Seq<char>
    decreases rs.len(),
{
    if rs.len() == 0 {
        Seq::empty()
    } else {
        select_ranges(lines, rs.drop_last()) + lines_span(lines, rs.last().0 as int, rs.last().1 as int)
    }
}

/// The fenced code block that an import becomes.
pub open spec fn import_block(
    content: Seq<char>,
    ext: Seq<char>,
    ranges: Seq<(usize, usize)>,
    title: Option<Seq<char>>,
) -> Seq<char> {
    let sel = if ranges.len() == 0 {
        content
    } else {
        select_ranges(std_lines(content), ranges)
    };
    "```"@ + ext + title_attr(title) + "\n"@ + sel + (if sel.len() > 0 && sel.last() == '\n' {
        Seq::empty()
    } else {
        "\n"@
    }) + "```\n"@
}

/// The first file of `files` with path `rel`: its content and extension.
pub open spec fn lookup(files: Seq<FileV>, rel: Seq<char>) -> Option<(Option<Seq<char>>, Seq<char>)>
    decreases files.len(),
{
    if files.len() == 0 {
        None
    } else if files[0].0 == rel {
        Some((files[0].1, files[0].2))
    } else {
        lookup(files.drop_first(), rel)
    }
}

/// A line that opens or closes a fence: after leading whitespace, three or more backticks
/// or tildes.
pub open spec fn fence_run(t: Seq<char>) -> int {
    if t.len() > 0 && (t[0] == '`' || t[0] == '~') {
        run_of(t, 0, t[0])
    } else {
        0
    }
}

/// What a line outside fences becomes when it includes no file: an import's code block,
/// a container marker, or the line itself; `Err` with the path of a needed file.
pub open spec fn line_tail(l: Seq<char>, has_base: bool, files: Seq<FileV>) -> Result<
    Seq<char>,
    Seq<char>,
> {
    let t = trim_start(l);
    let plain = match container_marker(t) {
        Some(m) => m,
        None => l + "\n"@,
    };
    match import_target(t, has_base) {
        Some(x) => match lookup(files, x.0) {
            None => Err(x.0),
            Some(f) => match f.0 {
                Some(c) => Ok(import_block(c, f.1, x.1, x.2)),
                None => Ok(plain),
            },
        },
        None => Ok(plain),
    }
}

/// Preprocessing of `s` at include depth `depth`.
pub open spec fn pre_spec(s: Seq<char>, has_base: bool, files: Seq<FileV>, depth: int) -> PreV
    decreases 11 - depth, 1int, 0int,
{
    if depth > 10 {
        PreV::Done(Seq::empty())
    } else {
        pre_lines(std_lines(s), 0, has_base, files, depth, None, 0, false, Seq::empty())
    }
}

/// Preprocessing of lines `k..` given the fence state, whether the previous line opened
/// a list item, and the text so far.
pub open spec fn pre_lines(
    ls: Seq<Seq<char>>,
    k: int,
    has_base: bool,
    files: Seq<FileV>,
    depth: int,
    fence: Option<char>,
    flen: int,
    prev: bool,
    out: Seq<char>,
) -> PreV
    decreases 11 - depth, 0int, ls.len() - k,
{
    if k < 0 || k >= ls.len() || depth > 10 {
        PreV::Done(out)
    } else {
        let l = ls[k];
        let t = trim_start(l);
        let run = fence_run(t);
        if run >= 3 {
            let f = t[0];
            let (fence2, flen2) = match fence {
                Some(o) => if o == f && run >= flen {
                    (None, flen)
                } else {
                    (fence, flen)
                },
                None => (Some(f), run),
            };
            pre_lines(ls, k + 1, has_base, files, depth, fence2, flen2, false, out + l + "\n"@)
        } else if fence is Some {
            pre_lines(ls, k + 1, has_base, files, depth, fence, flen, prev, out + l + "\n"@)
        } else {
            let item = list_item_line(t);
            let out1 = if prev && item {
                out.push('\n')
            } else {
                out
            };
            let tail = line_tail(l, has_base, files);
            let rest = match tail {
                Ok(x) => pre_lines(ls, k + 1, has_base, files, depth, fence, flen, item, out1 + x),
                Err(p) => PreV::NeedsFile(p),
            };
            match include_target(t, has_base) {
                Some(rel) => match lookup(files, rel) {
                    None => PreV::NeedsFile(rel),
                    Some(f) => match f.0 {
                        Some(c) => match pre_spec(c, has_base, files, depth + 1) {
                            PreV::Done(x) => pre_lines(
                                ls,
                                k + 1,
                                has_base,
                                files,
                                depth,
                                fence,
                                flen,
                                item,
                                out1 + x + "\n"@,
                            ),
                            PreV::NeedsFile(p) => PreV::NeedsFile(p),
                        },
                        None => rest,
                    },
                },
                None => rest,
            }
        }
    }
}

pub open spec fn vecs_v(v: Seq<Vec<char>>) -> Seq<Seq<char>> {
    v.map_values(|x: Vec<char>| x@)
}

/// The lines of `s` as `str::lines` gives them.
pub fn std_lines_of(s: &[char]) -> (r: Vec<Vec<char>>)
    ensures
        vecs_v(r@) == std_lines(s@),
{
    let ps = split_chars(s);
    let ghost pv = vecs_v(ps@);
    assert(pv == split_lines(s@));
    let np = ps.len();
    let keep = if np > 0 && ps[np - 1].len() == 0 { np - 1 } else { np };
    let ghost body = if pv.len() > 0 && pv.last().len() == 0 { pv.drop_last() } else { pv };
    assert(body.len() == keep);
    let mut out: Vec<Vec<char>> = Vec::new();
    let mut k: usize = 0;
    while k < keep
        invariant
            k <= keep <= np == ps@.len(),
            pv == vecs_v(ps@),
            body.len() == keep,
            forall|j: int| 0 <= j < keep ==> body[j] == pv[j],
            vecs_v(out@) == Seq::new(
                k as nat,
                |j: int|
                    if j < pv.len() - 1 {
                        strip_suf(body[j], '\r')
                    } else {
                        body[j]
                    },
            ),
        decreases keep - k,
    {
        let line = &ps[k];
        let m = line.len();
        let piece = if k + 1 < np && m > 0 && line[m - 1] == '\r' {
            let x = slice_vec(line, 0, m - 1);
            assert(x@ =~= line@.drop_last());
            x
        } else {
            slice_vec(line, 0, m)
        };
        assert(line@.subrange(0, m as int) =~= line@);
        let ghost o0 = vecs_v(out@);
        out.push(piece);
        assert(vecs_v(out@) =~= o0.push(piece@));
        k = k + 1;
    }
    out
}

fn strip_lit_vec(v: Vec<char>, p: &str) -> (r: Vec<char>)
    ensures
        r@ == strip_lit(v@, p@),
{
    let pv = chars_of(p);
    let n = v.len();
    if n >= pv.len() && starts_lit(&v, 0, n, p) {
        assert(v@.subrange(0, n as int) =~= v@);
        let r = slice_vec(&v, pv.len(), n);
        assert(r@ =~= v@.skip(p@.len() as int));
        r
    } else {
        assert(v@.subrange(0, n as int) =~= v@);
        v
    }
}

fn trim_all_vec(v: &[char], c: char) -> (r: Vec<char>)
    ensures
        r@ == trim_all(v@, c),
{
    let a = count_run(v, 0, c);
    let n = v.len();
    if a >= n {
        return Vec::new();
    }
    let mut e = n;
    assert(v@.take(n as int) =~= v@);
    while e > 0 && v[e - 1] == c
        invariant
            e <= n == v@.len(),
            trail_run(v@, n as int, c) == (n - e) + trail_run(v@, e as int, c),
        decreases e,
    {
        e = e - 1;
    }
    proof {
        crate::text::lemma_run_of(v@, 0, c);
        assert(v@[a as int] != c);
        if e <= a {
            assert(false) by {
                lemma_trail_stops(v@, n as int, c, a as int);
            }
        }
    }
    slice_vec(v, a, e)
}

proof fn lemma_trail_stops(s: Seq<char>, n: int, c: char, a: int)
    requires
        0 <= a < n <= s.len(),
        s[a] != c,
    ensures
        n - trail_run(s, n, c) > a,
    decreases n,
{
    if s[n - 1] == c {
        lemma_trail_stops(s, n - 1, c, a);
    }
}

/// Resolve `@/...` (the page's directory) or a relative path: the path relative to the
/// page's directory, when the page has one and the spec is not empty.
pub fn resolve_path(spec: &str, has_base: bool) -> (r: Option<String>)
    ensures
        crate::markdown::opt_v(r) == resolved(spec@, has_base),
{
    let v = chars_of(spec);
    let t = trimmed(&v);
    if t.len() == 0 || !has_base {
        return None;
    }
    let t = strip_lit_vec(t, "@/");
    let t = strip_lit_vec(t, "./");
    Some(string_of(&t))
}

fn esc_quotes_vec(t: &[char]) -> (r: Vec<char>)
    ensures
        r@ == esc_quotes(t@),
{
    let mut out: Vec<char> = Vec::new();
    let mut i: usize = 0;
    assert(t@.take(0) =~= Seq::<char>::empty());
    while i < t.len()
        invariant
            i <= t@.len(),
            out@ == esc_quotes(t@.take(i as int)),
        decreases t@.len() - i,
    {
        assert(t@.take(i + 1).drop_last() =~= t@.take(i as int));
        if t[i] == '"' {
            let q = chars_of("&quot;");
            extend_all(&mut out, &q);
        } else {
            let ghost o0 = out@;
            out.push(t[i]);
            assert(out@ =~= o0 + seq![t@[i as int]]);
        }
        i = i + 1;
    }
    assert(t@.take(t@.len() as int) =~= t@);
    out
}

fn push_lit(out: &mut Vec<char>, lit: &str)
    ensures
        final(out)@ == old(out)@ + lit@,
{
    let l = chars_of(lit);
    extend_all(out, &l);
}

fn title_attr_vec(out: &mut Vec<char>, title: &Option<Vec<char>>)
    ensures
        final(out)@ == old(out)@ + title_attr(match title {
            Some(t) => Some(t@),
            None => None,
        }),
{
    match title {
        Some(t) => {
            push_lit(out, " title=\"");
            let e = esc_quotes_vec(t);
            extend_all(out, &e);
            push_lit(out, "\"");
        },
        None => {
            assert(out@ =~= old(out)@ + Seq::<char>::empty());
        },
    }
}

/// What a `:::` line becomes (see `container_marker`).
fn container_marker_of(t: &[char]) -> (r: Option<Vec<char>>)
    ensures
        match r {
            Some(x) => container_marker(t@) == Some(x@),
            None => container_marker(t@) is None,
        },
{
    let n = t.len();
    proof {
        reveal_strlit(":::");
    }
    assert(t@.subrange(0, n as int) =~= t@);
    if !starts_lit(t, 0, n, ":::") {
        return None;
    }
    let rest = slice_vec(t, 3, n);
    assert(rest@ =~= t@.skip(3));
    let sp = trimmed(&rest);
    let m = sp.len();
    if m == 0 {
        return Some(chars_of("\n</vp-container>\n"));
    }
    let mut k: usize = 0;
    while k < m && !crate::text::is_whitespace(sp[k])
        invariant
            k <= m == sp@.len(),
            nonws_run(sp@, 0) == k + nonws_run(sp@, k as int),
        decreases m - k,
    {
        k = k + 1;
    }
    let kv = slice_vec(&sp, 0, k);
    assert(kv@ =~= sp@.take(k as int));
    let kind = trimmed(&kv);
    let mut title: Option<Vec<char>> = None;
    if k < m {
        let tv = slice_vec(&sp, k + 1, m);
        assert(tv@ =~= sp@.skip(k + 1));
        let tt = trimmed(&tv);
        if tt.len() > 0 {
            title = Some(tt);
        }
    }
    let mut out = chars_of("<vp-container type=\"");
    extend_all(&mut out, &kind);
    push_lit(&mut out, "\"");
    title_attr_vec(&mut out, &title);
    push_lit(&mut out, ">\n\n");
    Some(out)
}


/// The file an include line names (see `include_target`).
fn include_target_of(t: &[char], has_base: bool) -> (r: Option<String>)
    ensures
        crate::markdown::opt_v(r) == include_target(t@, has_base),
{
    let n = t.len();
    proof {
        reveal_strlit("<!--@include:");
    }
    assert(t@.subrange(0, n as int) =~= t@);
    if !starts_lit(t, 0, n, "<!--@include:") {
        return None;
    }
    let rest = slice_vec(t, 13, n);
    assert(rest@ =~= t@.skip(13));
    let pat = chars_of("-->");
    proof {
        lemma_find_from(rest@, 0, pat@);
    }
    match find_seq(&rest, 0, &pat) {
        Some(e) => {
            let raw = slice_vec(&rest, 0, e);
            assert(raw@ =~= rest@.take(e as int));
            let a = trimmed(&raw);
            let b = trim_all_vec(&a, '"');
            let c = trim_all_vec(&b, '\'');
            let cs = string_of(&c);
            resolve_path(cs.as_str(), has_base)
        },
        None => None,
    }
}

/// The file, ranges and title an import line names (see `import_target`).
fn import_target_of(t: &[char], has_base: bool) -> (r: Option<(String, Vec<(usize, usize)>, Option<String>)>)
    ensures
        match r {
            Some(x) => import_target(t@, has_base) == Some(
                (x.0@, x.1@, crate::markdown::opt_v(x.2)),
            ),
            None => import_target(t@, has_base) is None,
        },
{
    let n = t.len();
    proof {
        reveal_strlit("<<<");
    }
    assert(t@.subrange(0, n as int) =~= t@);
    if !starts_lit(t, 0, n, "<<<") {
        return None;
    }
    let rest = slice_vec(t, 3, n);
    assert(rest@ =~= t@.skip(3));
    let sp = trimmed(&rest);
    if sp.len() == 0 {
        return None;
    }
    let sps = string_of(&sp);
    let (ps, ranges, title) = parse_import_spec(sps.as_str());
    match resolve_path(ps.as_str(), has_base) {
        Some(rel) => Some((rel, ranges, title)),
        None => None,
    }
}

proof fn lemma_lines_span_past(lines: Seq<Seq<char>>, a: int, b: int)
    requires
        b > lines.len(),
        a >= 1,
    ensures
        lines_span(lines, a, b) == lines_span(lines, a, lines.len() as int),
    decreases b - lines.len(),
{
    if a <= b {
        if b - 1 > lines.len() {
            lemma_lines_span_past(lines, a, b - 1);
        } else {
            assert(b - 1 == lines.len());
        }
        assert(lines_span(lines, a, b) =~= lines_span(lines, a, b - 1));
    } else {
        assert(lines_span(lines, a, lines.len() as int) =~= Seq::<char>::empty());
    }
}

/// Lines `a..=b` of `lines`, each followed by `\n`.
fn lines_span_of(lines: &Vec<Vec<char>>, a: usize, b: usize, out: &mut Vec<char>)
    requires
        a >= 1,
    ensures
        final(out)@ == old(out)@ + lines_span(vecs_v(lines@), a as int, b as int),
{
    let ghost lv = vecs_v(lines@);
    let hi = if b > lines.len() { lines.len() } else { b };
    proof {
        if b > lines.len() {
            lemma_lines_span_past(lv, a as int, b as int);
        }
    }
    let ghost o0 = old(out)@;
    if hi < a {
        assert(lines_span(lv, a as int, hi as int) =~= Seq::<char>::empty());
        assert(out@ =~= o0 + Seq::<char>::empty());
        return;
    }
    let mut j = a - 1;
    assert(lines_span(lv, a as int, a - 1) =~= Seq::<char>::empty());
    assert(out@ =~= o0 + Seq::<char>::empty());
    while j < hi
        invariant
            1 <= a,
            a - 1 <= j <= hi <= lines@.len(),
            lv == vecs_v(lines@),
            o0 == old(out)@,
            out@ == o0 + lines_span(lv, a as int, j as int),
        decreases hi - j,
    {
        let ghost before = out@;
        extend_all(out, &lines[j]);
        out.push('\n');
        assert(out@ =~= before + (lv[j as int] + seq!['\n']));
        j = j + 1;
    }
}

/// The fenced code block an import becomes (see `import_block`).
fn import_block_of(
    content: &String,
    ext: &String,
    ranges: &Vec<(usize, usize)>,
    title: &Option<String>,
) -> (r: Vec<char>)
    requires
        forall|k: int| 0 <= k < ranges@.len() ==> ranges@[k].0 >= 1,
    ensures
        r@ == import_block(content@, ext@, ranges@, crate::markdown::opt_v(*title)),
{
    let cv = chars_of(content.as_str());
    let sel = if ranges.len() == 0 {
        cv
    } else {
        let lines = std_lines_of(&cv);
        let mut sel: Vec<char> = Vec::new();
        let mut i: usize = 0;
        assert(ranges@.take(0) =~= Seq::<(usize, usize)>::empty());
        while i < ranges.len()
            invariant
                i <= ranges@.len(),
                vecs_v(lines@) == std_lines(content@),
                forall|k: int| 0 <= k < ranges@.len() ==> ranges@[k].0 >= 1,
                sel@ == select_ranges(vecs_v(lines@), ranges@.take(i as int)),
            decreases ranges@.len() - i,
        {
            assert(ranges@.take(i + 1).drop_last() =~= ranges@.take(i as int));
            let (a, b) = ranges[i];
            lines_span_of(&lines, a, b, &mut sel);
            i = i + 1;
        }
        assert(ranges@.take(ranges@.len() as int) =~= ranges@);
        sel
    };
    let mut out = chars_of("```");
    let ev = chars_of(ext.as_str());
    extend_all(&mut out, &ev);
    let tv = match title {
        Some(t) => Some(chars_of(t.as_str())),
        None => None,
    };
    title_attr_vec(&mut out, &tv);
    push_lit(&mut out, "\n");
    extend_all(&mut out, &sel);
    let m = sel.len();
    if !(m > 0 && sel[m - 1] == '\n') {
        push_lit(&mut out, "\n");
    } else {
        assert(out@ =~= out@ + Seq::<char>::empty());
    }
    push_lit(&mut out, "```\n");
    out
}

/// The first file with path `rel`.
fn lookup_file(files: &Vec<SourceFile>, rel: &String) -> (r: Option<usize>)
    ensures
        match r {
            Some(i) => i < files@.len() && lookup(files_v(files@), rel@) == Some(
                (crate::markdown::opt_v(files@[i as int].content), files@[i as int].ext@),
            ),
            None => lookup(files_v(files@), rel@) is None,
        },
{
    let ghost fv = files_v(files@);
    let mut i: usize = 0;
    assert(fv.skip(0) =~= fv);
    while i < files.len()
        invariant
            i <= files@.len(),
            fv == files_v(files@),
            lookup(fv.skip(i as int), rel@) == lookup(fv, rel@),
        decreases files@.len() - i,
    {
        assert(fv.skip(i as int)[0] == fv[i as int]);
        assert(fv.skip(i as int).drop_first() =~= fv.skip(i + 1));
        if files[i].path == *rel {
            return Some(i);
        }
        i = i + 1;
    }
    None
}

/// What a line outside fences becomes when it includes no file (see `line_tail`).
fn line_tail_of(l: &[char], has_base: bool, files: &Vec<SourceFile>) -> (r: Result<Vec<char>, String>)
    ensures
        match r {
            Ok(x) => line_tail(l@, has_base, files_v(files@)) == Ok::<Seq<char>, Seq<char>>(x@),
            Err(p) => line_tail(l@, has_base, files_v(files@)) == Err::<Seq<char>, Seq<char>>(p@),
        },
{
    let t = trim_start_of(l);
    let plain = match container_marker_of(&t) {
        Some(m) => m,
        None => {
            let mut x = slice_vec(l, 0, l.len());
            assert(x@ =~= l@);
            x.push('\n');
            assert(x@ =~= l@ + "\n"@) by {
                reveal_strlit("\n");
            }
            x
        },
    };
    match import_target_of(&t, has_base) {
        Some((rel, ranges, title)) => match lookup_file(files, &rel) {
            None => Err(rel),
            Some(fi) => match &files[fi].content {
                Some(c) => {
                    proof {
                        let sp = trim(t@.skip(3));
                        crate::vitepress::lemma_line_ranges_pos(
                            sp.subrange(
                                crate::text::first_from(sp, 0, sp.len() as int, '{')->0 + 1,
                                crate::text::first_from(
                                    sp,
                                    crate::text::first_from(sp, 0, sp.len() as int, '{')->0,
                                    sp.len() as int,
                                    '}',
                                )->0,
                            ),
                        );
                    }
                    Ok(import_block_of(c, &files[fi].ext, &ranges, &title))
                },
                None => Ok(plain),
            },
        },
        None => Ok(plain),
    }
}

/// `s` with its leading whitespace taken off.
fn trim_start_of(s: &[char]) -> (r: Vec<char>)
    ensures
        r@ == trim_start(s@),
{
    let a = crate::text::skip_ws(s, 0);
    proof {
        crate::text::lemma_ws_run(s@, 0);
    }
    let r = slice_vec(s, a, s.len());
    assert(r@ =~= s@.skip(a as int));
    r
}

/// Runs the VitePress block-level preprocessors over `source` at include depth `depth`:
/// includes, snippet imports and custom containers, outside fenced code; consecutive
/// list items get a blank line between them. `has_base`: the page has a directory that
/// paths are relative to. When a file that `files` does not hold is needed, its path
/// comes back instead of the text.
pub fn preprocess(source: &str, has_base: bool, files: &Vec<SourceFile>, depth: usize) -> (r: Preprocessed)
    ensures
        pre_v(r) == pre_spec(source@, has_base, files_v(files@), depth as int),
    decreases 11 - depth,
{
    if depth > MAX_INCLUDE_DEPTH {
        return Preprocessed::Done(String::new());
    }
    let sv = chars_of(source);
    let ls = std_lines_of(&sv);
    let ghost lv = vecs_v(ls@);
    let ghost fv = files_v(files@);
    let mut out: Vec<char> = Vec::new();
    let mut fence: Option<char> = None;
    let mut flen: usize = 0;
    let mut prev = false;
    let mut k: usize = 0;
    assert(out@ =~= Seq::<char>::empty());
    loop
        invariant
            k <= ls@.len(),
            depth <= 10,
            lv == vecs_v(ls@),
            lv == std_lines(source@),
            fv == files_v(files@),
            pre_lines(lv, k as int, has_base, fv, depth as int, fence, flen as int, prev, out@)
                == pre_lines(lv, 0, has_base, fv, depth as int, None, 0, false, Seq::empty()),
        decreases ls@.len() - k,
    {
        if k >= ls.len() {
            return Preprocessed::Done(string_of(&out));
        }
        let l = &ls[k];
        let t = trim_start_of(l);
        let run = if t.len() > 0 && (t[0] == '`' || t[0] == '~') {
            count_run(&t, 0, t[0])
        } else {
            0
        };
        let ghost o0 = out@;
        if run >= 3 {
            let f = t[0];
            match fence {
                Some(o) => {
                    if o == f && run >= flen {
                        fence = None;
                    }
                },
                None => {
                    fence = Some(f);
                    flen = run;
                },
            }
            extend_all(&mut out, l);
            out.push('\n');
            assert(out@ =~= o0 + l@ + "\n"@) by {
                reveal_strlit("\n");
            }
            prev = false;
            k = k + 1;
            continue;
        }
        if fence.is_some() {
            extend_all(&mut out, l);
            out.push('\n');
            assert(out@ =~= o0 + l@ + "\n"@) by {
                reveal_strlit("\n");
            }
            k = k + 1;
            continue;
        }
        let ts = string_of(&t);
        let item = crate::vitepress::is_list_item_line(ts.as_str());
        if prev && item {
            out.push('\n');
        }
        prev = item;
        let ghost o1 = out@;
        match include_target_of(&t, has_base) {
            Some(rel) => match lookup_file(files, &rel) {
                None => {
                    return Preprocessed::NeedsFile(rel);
                },
                Some(fi) => match &files[fi].content {
                    Some(c) => {
                        match preprocess(c.as_str(), has_base, files, depth + 1) {
                            Preprocessed::Done(x) => {
                                let xv = chars_of(x.as_str());
                                extend_all(&mut out, &xv);
                                out.push('\n');
                                assert(out@ =~= o1 + x@ + "\n"@) by {
                                    reveal_strlit("\n");
                                }
                                k = k + 1;
                                continue;
                            },
                            Preprocessed::NeedsFile(p) => {
                                return Preprocessed::NeedsFile(p);
                            },
                        }
                    },
                    None => {},
                },
            },
            None => {},
        }
        match line_tail_of(l, has_base, files) {
            Ok(x) => {
                extend_all(&mut out, &x);
            },
            Err(p) => {
                return Preprocessed::NeedsFile(p);
            },
        }
        k = k + 1;
    }
}

} // verus!
