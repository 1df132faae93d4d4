//! Character sequences, UTF-8 / UTF-16 widths and small string helpers.

use vstd::prelude::*;

verus! {

/// Number of UTF-8 bytes that encode `c`.
pub open spec fn char_width(c: char) -> nat {
    let u = c as u32;
    if u < 0x80 {
        1
    } else if u < 0x800 {
        2
    } else if u < 0x10000 {
        3
    } else {
        4
    }
}

/// Number of UTF-16 code units that encode `c`.
pub open spec fn char_width16(c: char) -> nat {
    if (c as u32) < 0x10000 {
        1
    } else {
        2
    }
}

/// UTF-8 length of a character sequence.
pub open spec fn byte_len(s: Seq<char>) -> nat
    decreases s.len(),
{
    if s.len() == 0 {
        0
    } else {
        byte_len(s.drop_last()) + char_width(s.last())
    }
}

/// UTF-16 length of a character sequence.
pub open spec fn utf16_len(s: Seq<char>) -> nat
    decreases s.len(),
{
    if s.len() == 0 {
        0
    } else {
        utf16_len(s.drop_last()) + char_width16(s.last())
    }
}

pub fn utf8_width(c: char) -> (r: usize)
    ensures
        r == char_width(c),
{
    let u = c as u32;
    if u < 0x80 {
        1
    } else if u < 0x800 {
        2
    } else if u < 0x10000 {
        3
    } else {
        4
    }
}

pub fn chars_of(s: &str) -> (r: Vec<char>)
    ensures
        r@ == s@,
{
    let mut r: Vec<char> = Vec::new();
    for c in it: s.chars()
        invariant
            r@ == it.seq().take(it.index() as int),
            it.seq() == s@,
    {
        r.push(c);
    }
    r
}


/// `b` is the UTF-8 byte offset of some character position of `s`.
pub open spec fn is_boundary(s: Seq<char>, b: int) -> bool {
    exists|k: int| 0 <= k <= s.len() && #[trigger] byte_len(s.take(k)) == b
}

/// The byte offset of character position `k` in `s`.
pub open spec fn byte_at(s: Seq<char>, k: int) -> int {
    byte_len(s.take(k)) as int
}

pub proof fn lemma_byte_len_append(a: Seq<char>, b: Seq<char>)
    ensures
        byte_len(a + b) == byte_len(a) + byte_len(b),
    decreases b.len(),
{
    if b.len() == 0 {
        assert(a + b =~= a);
    } else {
        lemma_byte_len_append(a, b.drop_last());
        assert((a + b).drop_last() =~= a + b.drop_last());
        assert((a + b).last() == b.last());
    }
}

pub proof fn lemma_utf16_len_append(a: Seq<char>, b: Seq<char>)
    ensures
        utf16_len(a + b) == utf16_len(a) + utf16_len(b),
    decreases b.len(),
{
    if b.len() == 0 {
        assert(a + b =~= a);
    } else {
        lemma_utf16_len_append(a, b.drop_last());
        assert((a + b).drop_last() =~= a + b.drop_last());
        assert((a + b).last() == b.last());
    }
}

pub proof fn lemma_byte_len_single(c: char)
    ensures
        byte_len(seq![c]) == char_width(c),
{
    assert(seq![c].drop_last() =~= Seq::<char>::empty());
    assert(byte_len(Seq::<char>::empty()) == 0);
}

pub proof fn lemma_byte_len_push(s: Seq<char>, c: char)
    ensures
        byte_len(s.push(c)) == byte_len(s) + char_width(c),
{
    assert(s.push(c).drop_last() =~= s);
}

pub proof fn lemma_take_push(s: Seq<char>, k: int)
    requires
        0 <= k < s.len(),
    ensures
        s.take(k + 1) == s.take(k).push(s[k]),
{
    assert(s.take(k + 1) =~= s.take(k).push(s[k]));
}

proof fn lemma_byte_at_strict(s: Seq<char>, i: int, j: int)
    requires
        0 <= i <= j <= s.len(),
    ensures
        byte_at(s, i) <= byte_at(s, j),
        i < j ==> byte_at(s, i) < byte_at(s, j),
    decreases j - i,
{
    if i < j {
        lemma_byte_at_strict(s, i, j - 1);
        lemma_take_push(s, j - 1);
        lemma_byte_len_push(s.take(j - 1), s[j - 1]);
    }
}

/// Byte offsets of character positions grow strictly with the position.
pub proof fn lemma_byte_at_mono(s: Seq<char>, i: int, j: int)
    requires
        0 <= i <= j <= s.len(),
    ensures
        byte_at(s, i) <= byte_at(s, j),
        i < j ==> byte_at(s, i) < byte_at(s, j),
        byte_at(s, j) <= byte_len(s),
{
    lemma_byte_at_strict(s, i, j);
    lemma_byte_at_strict(s, j, s.len() as int);
    assert(s.take(s.len() as int) =~= s);
}

/// A byte offset names at most one character position.
pub proof fn lemma_byte_at_inj(s: Seq<char>, i: int, j: int)
    requires
        0 <= i <= s.len(),
        0 <= j <= s.len(),
        byte_at(s, i) == byte_at(s, j),
    ensures
        i == j,
{
    if i < j {
        lemma_byte_at_mono(s, i, j);
    } else if j < i {
        lemma_byte_at_mono(s, j, i);
    }
}

pub proof fn lemma_byte_len_bound(s: Seq<char>)
    ensures
        s.len() <= byte_len(s) <= 4 * s.len(),
    decreases s.len(),
{
    if s.len() > 0 {
        lemma_byte_len_bound(s.drop_last());
    }
}

/// The character position whose byte offset is `b` (when `b` is a boundary).
pub open spec fn char_pos(s: Seq<char>, b: int) -> int {
    choose|k: int| 0 <= k <= s.len() && #[trigger] byte_len(s.take(k)) == b
}

pub proof fn lemma_char_pos(s: Seq<char>, b: int)
    requires
        is_boundary(s, b),
    ensures
        0 <= char_pos(s, b) <= s.len(),
        byte_at(s, char_pos(s, b)) == b,
        forall|k: int| 0 <= k <= s.len() && byte_at(s, k) == b ==> k == char_pos(s, b),
{
    let k = char_pos(s, b);
    assert forall|j: int| 0 <= j <= s.len() && byte_at(s, j) == b implies j == k by {
        lemma_byte_at_inj(s, j, k);
    }
}

pub proof fn lemma_boundary_at(s: Seq<char>, k: int)
    requires
        0 <= k <= s.len(),
    ensures
        is_boundary(s, byte_at(s, k)),
        char_pos(s, byte_at(s, k)) == k,
{
    assert(byte_len(s.take(k)) == byte_at(s, k));
    lemma_char_pos(s, byte_at(s, k));
}

/// Byte offset 0 is character position 0.
pub proof fn lemma_boundary_zero_pos(s: Seq<char>)
    ensures
        char_pos(s, 0) == 0,
{
    assert(s.take(0) =~= Seq::<char>::empty());
    lemma_boundary_at(s, 0);
}

pub fn utf16_width(c: char) -> (r: usize)
    ensures
        r == char_width16(c),
{
    if (c as u32) < 0x10000 {
        1
    } else {
        2
    }
}

/// Byte offset of character position `k`.
pub fn byte_offset(s: &[char], k: usize) -> (r: usize)
    requires
        k <= s@.len(),
        byte_len(s@) <= usize::MAX,
    ensures
        r == byte_at(s@, k as int),
{
    let mut sum: usize = 0;
    let mut i: usize = 0;
    while i < k
        invariant
            i <= k <= s@.len(),
            byte_len(s@) <= usize::MAX,
            sum == byte_at(s@, i as int),
        decreases k - i,
    {
        proof {
            lemma_take_push(s@, i as int);
            lemma_byte_len_push(s@.take(i as int), s@[i as int]);
            lemma_byte_at_mono(s@, i + 1, s@.len() as int);
        }
        sum = sum + utf8_width(s[i]);
        i = i + 1;
    }
    sum
}

/// Character position of byte offset `b`, if `b` falls on a character boundary.
pub fn char_index(s: &[char], b: usize) -> (r: Option<usize>)
    ensures
        r is Some <==> is_boundary(s@, b as int),
        r matches Some(k) ==> k <= s@.len() && k == char_pos(s@, b as int) && byte_at(s@, k as int) == b,
{
    let mut sum: usize = 0;
    let mut i: usize = 0;
    while i < s.len() && sum < b
        invariant
            i <= s@.len(),
            sum == byte_at(s@, i as int),
            forall|j: int| 0 <= j < i ==> byte_at(s@, j) < b,
        decreases s@.len() - i,
    {
        proof {
            lemma_take_push(s@, i as int);
            lemma_byte_len_push(s@.take(i as int), s@[i as int]);
        }
        let w = utf8_width(s[i]);
        if w > b - sum {
            proof {
                assert forall|j: int| 0 <= j <= s@.len() implies byte_at(s@, j) != b by {
                    if j > i {
                        lemma_byte_at_mono(s@, i + 1, j);
                    }
                }
                assert(!is_boundary(s@, b as int)) by {
                    if is_boundary(s@, b as int) {
                        let k = choose|k: int| 0 <= k <= s@.len() && #[trigger] byte_len(s@.take(k)) == b;
                        assert(byte_at(s@, k) == b);
                    }
                }
            }
            return None;
        }
        sum = sum + w;
        i = i + 1;
    }
    if sum == b {
        proof {
            lemma_boundary_at(s@, i as int);
        }
        Some(i)
    } else {
        proof {
            assert forall|j: int| 0 <= j <= s@.len() implies byte_at(s@, j) != b by {
                if j > i {
                    lemma_byte_at_mono(s@, i as int, j);
                }
            }
            assert(!is_boundary(s@, b as int)) by {
                if is_boundary(s@, b as int) {
                    let k = choose|k: int| 0 <= k <= s@.len() && #[trigger] byte_len(s@.take(k)) == b;
                    assert(byte_at(s@, k) == b);
                }
            }
        }
        None
    }
}


/// The Unicode `White_Space` property, as `char::is_whitespace` documents it.
pub open spec fn is_ws(c: char) -> bool {
    let u = c as u32;
    (0x9 <= u && u <= 0xd) || u == 0x20 || u == 0x85 || u == 0xa0 || u == 0x1680 || (0x2000
        <= u && u <= 0x200a) || u == 0x2028 || u == 0x2029 || u == 0x202f || u == 0x205f || u
        == 0x3000
}

pub fn is_whitespace(c: char) -> (r: bool)
    ensures
        r == is_ws(c),
{
    let u = c as u32;
    (0x9 <= u && u <= 0xd) || u == 0x20 || u == 0x85 || u == 0xa0 || u == 0x1680 || (0x2000
        <= u && u <= 0x200a) || u == 0x2028 || u == 0x2029 || u == 0x202f || u == 0x205f || u
        == 0x3000
}

pub open spec fn is_digit(c: char) -> bool {
    '0' <= c && c <= '9'
}

/// Number of leading whitespace characters of `s` from position `i` on.
pub open spec fn ws_run(s: Seq<char>, i: int) -> int
    decreases s.len() - i,
{
    if i < 0 || i >= s.len() || !is_ws(s[i]) {
        0
    } else {
        1 + ws_run(s, i + 1)
    }
}

/// Number of leading whitespace characters.
pub open spec fn lead_ws(s: Seq<char>) -> int {
    ws_run(s, 0)
}

/// Number of trailing whitespace characters of `s.take(n)`.
pub open spec fn trail_ws(s: Seq<char>, n: int) -> int
    decreases n,
{
    if n <= 0 || n > s.len() || !is_ws(s[n - 1]) {
        0
    } else {
        1 + trail_ws(s, n - 1)
    }
}

pub open spec fn trim_start(s: Seq<char>) -> Seq<char> {
    s.skip(lead_ws(s))
}

pub open spec fn trim_end(s: Seq<char>) -> Seq<char> {
    s.take(s.len() - trail_ws(s, s.len() as int))
}

pub open spec fn trim(s: Seq<char>) -> Seq<char> {
    trim_end(trim_start(s))
}

pub proof fn lemma_ws_run(s: Seq<char>, i: int)
    requires
        0 <= i <= s.len(),
    ensures
        0 <= ws_run(s, i) <= s.len() - i,
        forall|k: int| i <= k < i + ws_run(s, i) ==> is_ws(#[trigger] s[k]),
        i + ws_run(s, i) < s.len() ==> !is_ws(s[i + ws_run(s, i)]),
    decreases s.len() - i,
{
    if i < s.len() && is_ws(s[i]) {
        lemma_ws_run(s, i + 1);
    }
}

pub proof fn lemma_trail_ws(s: Seq<char>, n: int)
    requires
        0 <= n <= s.len(),
    ensures
        0 <= trail_ws(s, n) <= n,
        forall|k: int| n - trail_ws(s, n) <= k < n ==> is_ws(#[trigger] s[k]),
        n - trail_ws(s, n) > 0 ==> !is_ws(s[n - trail_ws(s, n) - 1]),
    decreases n,
{
    if n > 0 && is_ws(s[n - 1]) {
        lemma_trail_ws(s, n - 1);
    }
}

/// Position of the first non-whitespace character at or after `i` (or `s.len()`).
pub fn skip_ws(s: &[char], i: usize) -> (r: usize)
    requires
        i <= s@.len(),
    ensures
        r == i + ws_run(s@, i as int),
{
    let mut j = i;
    while j < s.len() && is_whitespace(s[j])
        invariant
            i <= j <= s@.len(),
            ws_run(s@, i as int) == (j - i) + ws_run(s@, j as int),
        decreases s@.len() - j,
    {
        j = j + 1;
    }
    j
}

/// Length of `s.take(n)` once trailing whitespace is dropped.
pub fn trim_end_len(s: &[char], n: usize) -> (r: usize)
    requires
        n <= s@.len(),
    ensures
        r == n - trail_ws(s@, n as int),
{
    let mut j = n;
    while j > 0 && is_whitespace(s[j - 1])
        invariant
            j <= n <= s@.len(),
            trail_ws(s@, n as int) == (n - j) + trail_ws(s@, j as int),
        decreases j,
    {
        j = j - 1;
    }
    j
}

/// Copy of `s[lo..hi]`.
pub fn slice_vec(s: &[char], lo: usize, hi: usize) -> (r: Vec<char>)
    requires
        lo <= hi <= s@.len(),
    ensures
        r@ == s@.subrange(lo as int, hi as int),
{
    let mut r: Vec<char> = Vec::new();
    let mut i = lo;
    while i < hi
        invariant
            lo <= i <= hi <= s@.len(),
            r@ == s@.subrange(lo as int, i as int),
        decreases hi - i,
    {
        r.push(s[i]);
        i = i + 1;
        assert(r@ =~= s@.subrange(lo as int, i as int));
    }
    r
}

/// Appends `t[lo..hi]` to `v`.
pub fn extend_from(v: &mut Vec<char>, t: &[char], lo: usize, hi: usize)
    requires
        lo <= hi <= t@.len(),
    ensures
        final(v)@ == old(v)@ + t@.subrange(lo as int, hi as int),
{
    let mut i = lo;
    while i < hi
        invariant
            lo <= i <= hi <= t@.len(),
            v@ == old(v)@ + t@.subrange(lo as int, i as int),
        decreases hi - i,
    {
        v.push(t[i]);
        i = i + 1;
        assert(v@ =~= old(v)@ + t@.subrange(lo as int, i as int));
    }
}

/// Appends all of `t` to `v`.
pub fn extend_all(v: &mut Vec<char>, t: &[char])
    ensures
        final(v)@ == old(v)@ + t@,
{
    extend_from(v, t, 0, t.len());
    assert(t@.subrange(0, t@.len() as int) =~= t@);
}

/// First position `k` in `lo..hi` with `s[k] == c`.
pub open spec fn first_from(s: Seq<char>, lo: int, hi: int, c: char) -> Option<int>
    decreases hi - lo,
{
    if lo < 0 || lo >= hi || hi > s.len() {
        None
    } else if s[lo] == c {
        Some(lo)
    } else {
        first_from(s, lo + 1, hi, c)
    }
}

pub proof fn lemma_first_from(s: Seq<char>, lo: int, hi: int, c: char)
    requires
        0 <= lo,
        hi <= s.len(),
    ensures
        first_from(s, lo, hi, c) matches Some(k) ==> lo <= k < hi && s[k] == c && forall|j: int|
            lo <= j < k ==> s[j] != c,
        first_from(s, lo, hi, c) is None ==> forall|j: int| lo <= j < hi ==> s[j] != c,
    decreases hi - lo,
{
    if lo < hi && s[lo] != c {
        lemma_first_from(s, lo + 1, hi, c);
    }
}

pub fn find_char(s: &[char], lo: usize, hi: usize, c: char) -> (r: Option<usize>)
    requires
        lo <= hi <= s@.len(),
    ensures
        r == (match first_from(s@, lo as int, hi as int, c) {
            Some(k) => Some(k as usize),
            None => None::<usize>,
        }),
        r matches Some(k) ==> lo <= k < hi,
{
    let mut i = lo;
    while i < hi
        invariant
            lo <= i <= hi <= s@.len(),
            first_from(s@, lo as int, hi as int, c) == first_from(s@, i as int, hi as int, c),
        decreases hi - i,
    {
        if s[i] == c {
            return Some(i);
        }
        i = i + 1;
    }
    None
}

/// `pat` occurs in `s` at position `i`.
pub open spec fn matches_at(s: Seq<char>, i: int, pat: Seq<char>) -> bool {
    0 <= i && i + pat.len() <= s.len() && s.subrange(i, i + pat.len()) == pat
}

pub fn starts_at(s: &[char], i: usize, pat: &[char]) -> (r: bool)
    ensures
        r == matches_at(s@, i as int, pat@),
{
    if i > s.len() || pat.len() > s.len() - i {
        return false;
    }
    let n = s.len();
    let mut k: usize = 0;
    while k < pat.len()
        invariant
            n == s@.len(),
            i + pat@.len() <= s@.len(),
            k <= pat@.len(),
            forall|j: int| 0 <= j < k ==> s@[i + j] == pat@[j],
        decreases pat@.len() - k,
    {
        assert(i + k < s@.len());
        if s[i + k] != pat[k] {
            assert(s@.subrange(i as int, i + pat@.len())[k as int] != pat@[k as int]);
            return false;
        }
        k = k + 1;
    }
    assert(s@.subrange(i as int, i + pat@.len()) =~= pat@);
    true
}

/// First position `k >= lo` where `pat` occurs in `s`.
pub open spec fn find_from(s: Seq<char>, lo: int, pat: Seq<char>) -> Option<int>
    decreases s.len() + 1 - lo,
{
    if lo < 0 || lo + pat.len() > s.len() {
        None
    } else if matches_at(s, lo, pat) {
        Some(lo)
    } else {
        find_from(s, lo + 1, pat)
    }
}

pub proof fn lemma_find_from(s: Seq<char>, lo: int, pat: Seq<char>)
    requires
        0 <= lo,
    ensures
        find_from(s, lo, pat) matches Some(k) ==> lo <= k && k + pat.len() <= s.len()
            && matches_at(s, k, pat) && forall|j: int| lo <= j < k ==> !matches_at(s, j, pat),
        find_from(s, lo, pat) is None ==> forall|j: int| lo <= j ==> !matches_at(s, j, pat),
    decreases s.len() + 1 - lo,
{
    if lo + pat.len() <= s.len() && !matches_at(s, lo, pat) {
        lemma_find_from(s, lo + 1, pat);
    }
}

pub fn find_seq(s: &[char], lo: usize, pat: &[char]) -> (r: Option<usize>)
    requires
        lo <= s@.len(),
    ensures
        r == (match find_from(s@, lo as int, pat@) {
            Some(k) => Some(k as usize),
            None => None::<usize>,
        }),
{
    if pat.len() == 0 {
        assert(s@.subrange(lo as int, lo as int) =~= pat@);
        return Some(lo);
    }
    let mut i = lo;
    while pat.len() <= s.len() && i <= s.len() - pat.len()
        invariant
            lo <= i,
            pat@.len() > 0,
            i <= s@.len() + 1,
            find_from(s@, lo as int, pat@) == find_from(s@, i as int, pat@),
        decreases s@.len() + 1 - i,
    {
        if starts_at(s, i, pat) {
            return Some(i);
        }
        i = i + 1;
    }
    None
}


/// `String::push` of std, which vstd leaves unspecified: appends one character.
#[verifier::external_body]
fn string_push(s: &mut String, c: char)
    ensures
        final(s)@ == old(s)@.push(c),
{
    s.push(c);
}

/// The string made of the characters of `v`.
pub fn string_of(v: &[char]) -> (r: String)
    ensures
        r@ == v@,
{
    let mut r = String::new();
    let mut i: usize = 0;
    while i < v.len()
        invariant
            i <= v@.len(),
            r@ == v@.take(i as int),
        decreases v@.len() - i,
    {
        string_push(&mut r, v[i]);
        i = i + 1;
        assert(r@ =~= v@.take(i as int));
    }
    assert(v@.take(v@.len() as int) =~= v@);
    r
}


/// Length of the run of `c` starting at `i`.
pub open spec fn run_of(s: Seq<char>, i: int, c: char) -> int
    decreases s.len() - i,
{
    if i < 0 || i >= s.len() || s[i] != c {
        0
    } else {
        1 + run_of(s, i + 1, c)
    }
}

/// Length of the run of ASCII digits starting at `i`.
pub open spec fn digit_run(s: Seq<char>, i: int) -> int
    decreases s.len() - i,
{
    if i < 0 || i >= s.len() || !is_digit(s[i]) {
        0
    } else {
        1 + digit_run(s, i + 1)
    }
}

pub proof fn lemma_run_of(s: Seq<char>, i: int, c: char)
    requires
        0 <= i <= s.len(),
    ensures
        0 <= run_of(s, i, c) <= s.len() - i,
        forall|k: int| i <= k < i + run_of(s, i, c) ==> s[k] == c,
        i + run_of(s, i, c) < s.len() ==> s[i + run_of(s, i, c)] != c,
    decreases s.len() - i,
{
    if i < s.len() && s[i] == c {
        lemma_run_of(s, i + 1, c);
    }
}

pub proof fn lemma_digit_run(s: Seq<char>, i: int)
    requires
        0 <= i <= s.len(),
    ensures
        0 <= digit_run(s, i) <= s.len() - i,
        forall|k: int| i <= k < i + digit_run(s, i) ==> is_digit(s[k]),
        i + digit_run(s, i) < s.len() ==> !is_digit(s[i + digit_run(s, i)]),
    decreases s.len() - i,
{
    if i < s.len() && is_digit(s[i]) {
        lemma_digit_run(s, i + 1);
    }
}

pub fn count_run(s: &[char], i: usize, c: char) -> (r: usize)
    requires
        i <= s@.len(),
    ensures
        r == run_of(s@, i as int, c),
        i + r <= s@.len(),
{
    proof {
        lemma_run_of(s@, i as int, c);
    }
    let mut j = i;
    while j < s.len() && s[j] == c
        invariant
            i <= j <= s@.len(),
            run_of(s@, i as int, c) == (j - i) + run_of(s@, j as int, c),
        decreases s@.len() - j,
    {
        j = j + 1;
    }
    j - i
}

pub fn count_digits(s: &[char], i: usize) -> (r: usize)
    requires
        i <= s@.len(),
    ensures
        r == digit_run(s@, i as int),
        i + r <= s@.len(),
{
    proof {
        lemma_digit_run(s@, i as int);
    }
    let mut j = i;
    while j < s.len() && '0' <= s[j] && s[j] <= '9'
        invariant
            i <= j <= s@.len(),
            digit_run(s@, i as int) == (j - i) + digit_run(s@, j as int),
        decreases s@.len() - j,
    {
        j = j + 1;
    }
    j - i
}

/// Byte offsets of every character position of `s` (including the end).
pub fn byte_offsets(s: &[char]) -> (r: Vec<usize>)
    requires
        byte_len(s@) <= usize::MAX,
    ensures
        r@.len() == s@.len() + 1,
        forall|k: int| 0 <= k <= s@.len() ==> r@[k] as int == byte_at(s@, k),
{
    let mut r: Vec<usize> = Vec::new();
    r.push(0);
    assert(s@.take(0) =~= Seq::<char>::empty());
    let mut sum: usize = 0;
    let mut i: usize = 0;
    while i < s.len()
        invariant
            i <= s@.len(),
            byte_len(s@) <= usize::MAX,
            sum == byte_at(s@, i as int),
            r@.len() == i + 1,
            forall|k: int| 0 <= k <= i ==> r@[k] as int == byte_at(s@, k),
        decreases s@.len() - i,
    {
        proof {
            lemma_take_push(s@, i as int);
            lemma_byte_len_push(s@.take(i as int), s@[i as int]);
            lemma_byte_at_mono(s@, i + 1, s@.len() as int);
        }
        sum = sum + utf8_width(s[i]);
        i = i + 1;
        r.push(sum);
    }
    r
}


pub proof fn lemma_encode_len(s: Seq<char>)
    ensures
        vstd::utf8::encode_utf8(s).len() == byte_len(s),
    decreases s.len(),
{
    if s.len() > 0 {
        lemma_encode_len(s.drop_first());
        let c = s[0];
        vstd::utf8::char_is_scalar(c);
        assert(vstd::utf8::encode_scalar(c as u32).len() == char_width(c));
        lemma_byte_len_single(c);
        lemma_byte_len_append(seq![c], s.drop_first());
        assert(seq![c] + s.drop_first() =~= s);
    }
}

/// The UTF-8 length of a string in memory fits in `usize`.
pub fn str_fits(s: &str)
    ensures
        byte_len(s@) <= usize::MAX,
{
    let b = s.as_bytes();
    let _n = b.len();
    proof {
        lemma_encode_len(s@);
    }
}


/// Splits on `'\n'`: always at least one (possibly empty) piece.
pub open spec fn split_lines(s: Seq<char>) -> Seq<Seq<char>>
    decreases s.len(),
{
    match first_from(s, 0, s.len() as int, '\n') {
        None => seq![s],
        Some(k) => if 0 <= k < s.len() {
            seq![s.take(k)] + split_lines(s.skip(k + 1))
        } else {
            seq![s]
        },
    }
}

/// Joins with `'\n'` between consecutive pieces.
pub open spec fn join_lines(v: Seq<Seq<char>>) -> Seq<char>
    decreases v.len(),
{
    if v.len() == 0 {
        Seq::empty()
    } else if v.len() == 1 {
        v[0]
    } else {
        join_lines(v.drop_last()) + seq!['\n'] + v.last()
    }
}

pub proof fn lemma_first_from_shift(s: Seq<char>, a: int, lo: int, c: char)
    requires
        0 <= a <= s.len(),
        0 <= lo <= s.len() - a,
    ensures
        first_from(s.skip(a), lo, s.len() - a, c) == (match first_from(s, a + lo, s.len() as int, c) {
            Some(k) => Some(k - a),
            None => None,
        }),
    decreases s.len() - a - lo,
{
    if lo < s.len() - a && s[a + lo] != c {
        lemma_first_from_shift(s, a, lo + 1, c);
    }
}

pub proof fn lemma_split_nonempty(s: Seq<char>)
    ensures
        split_lines(s).len() >= 1,
    decreases s.len(),
{
    lemma_first_from(s, 0, s.len() as int, '\n');
    if let Some(k) = first_from(s, 0, s.len() as int, '\n') {
        lemma_split_nonempty(s.skip(k + 1));
    }
}

pub proof fn lemma_join_cons(a: Seq<char>, v: Seq<Seq<char>>)
    requires
        v.len() >= 1,
    ensures
        join_lines(seq![a] + v) == a + seq!['\n'] + join_lines(v),
    decreases v.len(),
{
    if v.len() == 1 {
        assert((seq![a] + v).drop_last() =~= seq![a]);
        assert(join_lines(seq![a]) == a);
    } else {
        lemma_join_cons(a, v.drop_last());
        assert((seq![a] + v).drop_last() =~= seq![a] + v.drop_last());
        assert(a + seq!['\n'] + join_lines(v.drop_last()) + seq!['\n'] + v.last() =~= a + seq!['\n']
            + (join_lines(v.drop_last()) + seq!['\n'] + v.last()));
    }
}

/// Splitting then joining gives back the text.
pub proof fn lemma_join_split(s: Seq<char>)
    ensures
        join_lines(split_lines(s)) == s,
    decreases s.len(),
{
    lemma_first_from(s, 0, s.len() as int, '\n');
    if let Some(k) = first_from(s, 0, s.len() as int, '\n') {
        lemma_join_split(s.skip(k + 1));
        lemma_split_nonempty(s.skip(k + 1));
        lemma_join_cons(s.take(k), split_lines(s.skip(k + 1)));
        assert(s.take(k) + seq!['\n'] + s.skip(k + 1) =~= s);
    }
}

/// No piece of a split contains the separator.
pub proof fn lemma_split_no_newline(s: Seq<char>)
    ensures
        forall|i: int| 0 <= i < split_lines(s).len() ==> !(#[trigger] split_lines(s)[i]).contains('\n'),
    decreases s.len(),
{
    lemma_first_from(s, 0, s.len() as int, '\n');
    match first_from(s, 0, s.len() as int, '\n') {
        None => {
            assert forall|i: int| 0 <= i < split_lines(s).len() implies !(#[trigger] split_lines(s)[i]).contains('\n') by {
                assert(split_lines(s)[i] == s);
            }
        },
        Some(k) => {
            lemma_split_no_newline(s.skip(k + 1));
            let r = split_lines(s.skip(k + 1));
            assert forall|i: int| 0 <= i < split_lines(s).len() implies !(#[trigger] split_lines(s)[i]).contains('\n') by {
                if i == 0 {
                    assert(split_lines(s)[0] == s.take(k));
                    if s.take(k).contains('\n') {
                        let j = choose|j: int| 0 <= j < s.take(k).len() && s.take(k)[j] == '\n';
                        assert(s[j] == '\n');
                    }
                } else {
                    assert(split_lines(s)[i] == r[i - 1]);
                }
            }
        },
    }
}

/// Splits `s` on `'\n'`.
pub fn split_chars(s: &[char]) -> (r: Vec<Vec<char>>)
    ensures
        r@.map_values(|v: Vec<char>| v@) == split_lines(s@),
        r@.len() >= 1,
{
    let mut out: Vec<Vec<char>> = Vec::new();
    let mut start: usize = 0;
    proof {
        assert(s@.skip(0) =~= s@);
    }
    loop
        invariant
            start <= s@.len(),
            out@.map_values(|v: Vec<char>| v@) + split_lines(s@.skip(start as int)) == split_lines(s@),
        decreases s@.len() - start,
    {
        let ghost rest = s@.skip(start as int);
        proof {
            lemma_first_from_shift(s@, start as int, 0, '\n');
            lemma_first_from(s@, start as int, s@.len() as int, '\n');
        }
        match find_char(s, start, s.len(), '\n') {
            None => {
                let piece = slice_vec(s, start, s.len());
                assert(piece@ =~= rest);
                out.push(piece);
                proof {
                    assert(split_lines(rest) == seq![rest]);
                    assert(out@.map_values(|v: Vec<char>| v@) =~= split_lines(s@));
                }
                return out;
            },
            Some(k) => {
                let piece = slice_vec(s, start, k);
                assert(piece@ =~= rest.take(k - start));
                assert(rest.skip(k - start + 1) =~= s@.skip(k + 1));
                assert(split_lines(rest) == seq![rest.take(k - start)] + split_lines(rest.skip(k - start + 1)));
                let ghost before = out@.map_values(|v: Vec<char>| v@);
                out.push(piece);
                assert(out@.map_values(|v: Vec<char>| v@) =~= before.push(piece@));
                assert(before + split_lines(rest) =~= before.push(piece@) + split_lines(s@.skip(k + 1)));
                start = k + 1;
            },
        }
    }
}



/// UTF-16 length of the first `k` characters.
pub open spec fn u16_at(s: Seq<char>, k: int) -> int {
    utf16_len(s.take(k)) as int
}

/// The first character position at or after `k` before which `s` holds at least `u`
/// UTF-16 units; the length of `s` when there is none.
pub open spec fn u16_pos_from(s: Seq<char>, k: int, u: int) -> int
    decreases s.len() - k,
{
    if k >= s.len() {
        s.len() as int
    } else if u16_at(s, k) >= u {
        k
    } else {
        u16_pos_from(s, k + 1, u)
    }
}

pub proof fn lemma_u16_push(s: Seq<char>, k: int)
    requires
        0 <= k < s.len(),
    ensures
        u16_at(s, k + 1) == u16_at(s, k) + char_width16(s[k]),
{
    lemma_take_push(s, k);
    assert(s.take(k).push(s[k]).drop_last() =~= s.take(k));
}

/// UTF-16 offsets of character positions grow strictly with the position.
pub proof fn lemma_u16_mono(s: Seq<char>, i: int, j: int)
    requires
        0 <= i <= j <= s.len(),
    ensures
        u16_at(s, i) + (j - i) <= u16_at(s, j),
    decreases j - i,
{
    if i < j {
        lemma_u16_mono(s, i, j - 1);
        lemma_u16_push(s, j - 1);
    }
}

/// A sequence has no more UTF-16 units than UTF-8 bytes.
pub proof fn lemma_utf16_le_bytes(s: Seq<char>)
    ensures
        utf16_len(s) <= byte_len(s),
    decreases s.len(),
{
    if s.len() > 0 {
        lemma_utf16_le_bytes(s.drop_last());
    }
}

pub proof fn lemma_u16_pos_from(s: Seq<char>, k: int, u: int)
    requires
        0 <= k <= s.len(),
    ensures
        k <= u16_pos_from(s, k, u) <= s.len(),
        forall|j: int| k <= j < u16_pos_from(s, k, u) ==> #[trigger] u16_at(s, j) < u,
        u16_pos_from(s, k, u) < s.len() ==> u16_at(s, u16_pos_from(s, k, u)) >= u,
    decreases s.len() - k,
{
    if k < s.len() && u16_at(s, k) < u {
        lemma_u16_pos_from(s, k + 1, u);
    }
}

/// Byte offset of the first character boundary with at least `u` UTF-16 units before it
/// (the byte length when there is none).
pub fn utf16_to_byte(s: &[char], u: usize) -> (r: usize)
    requires
        byte_len(s@) <= usize::MAX,
    ensures
        r == byte_at(s@, u16_pos_from(s@, 0, u as int)),
{
    let mut count: usize = 0;
    let mut sum: usize = 0;
    let mut i: usize = 0;
    proof {
        lemma_u16_pos_from(s@, 0, u as int);
    }
    while i < s.len()
        invariant
            i <= s@.len(),
            byte_len(s@) <= usize::MAX,
            sum == byte_at(s@, i as int),
            count == u16_at(s@, i as int),
            u16_pos_from(s@, 0, u as int) == u16_pos_from(s@, i as int, u as int),
        decreases s@.len() - i,
    {
        if count >= u {
            return sum;
        }
        proof {
            lemma_take_push(s@, i as int);
            lemma_byte_len_push(s@.take(i as int), s@[i as int]);
            lemma_byte_at_mono(s@, i + 1, s@.len() as int);
            lemma_u16_push(s@, i as int);
            lemma_utf16_le_bytes(s@.take(i + 1));
            lemma_byte_at_mono(s@, i + 1, s@.len() as int);
        }
        count = count + utf16_width(s[i]);
        sum = sum + utf8_width(s[i]);
        i = i + 1;
    }
    assert(s@.take(s@.len() as int) =~= s@);
    sum
}

/// UTF-16 length of the first `k` characters.
pub fn utf16_count(s: &[char], k: usize) -> (r: usize)
    requires
        k <= s@.len(),
        byte_len(s@) <= usize::MAX,
    ensures
        r == u16_at(s@, k as int),
{
    let mut count: usize = 0;
    let mut i: usize = 0;
    while i < k
        invariant
            i <= k <= s@.len(),
            byte_len(s@) <= usize::MAX,
            count == u16_at(s@, i as int),
        decreases k - i,
    {
        proof {
            lemma_u16_push(s@, i as int);
            lemma_utf16_le_bytes(s@.take(i + 1));
            lemma_byte_at_mono(s@, i + 1, s@.len() as int);
        }
        count = count + utf16_width(s[i]);
        i = i + 1;
    }
    count
}



/// Value of an ASCII digit.
pub open spec fn digit_val(c: char) -> nat {
    ((c as u32) - 48) as nat
}

/// Value of a string of decimal digits.
pub open spec fn dec_value(s: Seq<char>) -> nat
    decreases s.len(),
{
    if s.len() == 0 {
        0
    } else {
        dec_value(s.drop_last()) * 10 + digit_val(s.last())
    }
}

/// Decimal digits of `n`, without leading zeros.
pub open spec fn dec_str(n: nat) -> Seq<char>
    decreases n,
{
    if n < 10 {
        seq![((n + 48) as u32) as char]
    } else {
        dec_str(n / 10).push((((n % 10) + 48) as u32) as char)
    }
}

pub proof fn lemma_dec_value_mono(s: Seq<char>, i: int, j: int)
    requires
        0 <= i <= j <= s.len(),
    ensures
        dec_value(s.take(i)) <= dec_value(s.take(j)),
    decreases j - i,
{
    if i < j {
        lemma_dec_value_mono(s, i, j - 1);
        assert(s.take(j).drop_last() =~= s.take(j - 1));
    }
}

/// `str::parse::<u64>` on a non-empty run of ASCII digits: the value when it fits.
pub fn parse_u64(s: &[char], lo: usize, hi: usize) -> (r: Option<u64>)
    requires
        lo < hi <= s@.len(),
        forall|k: int| lo <= k < hi ==> is_digit(#[trigger] s@[k]),
    ensures
        r == (if dec_value(s@.subrange(lo as int, hi as int)) <= u64::MAX {
            Some(dec_value(s@.subrange(lo as int, hi as int)) as u64)
        } else {
            None
        }),
{
    let ghost t = s@.subrange(lo as int, hi as int);
    let mut v: u64 = 0;
    let mut i = lo;
    assert(t.take(0) =~= Seq::<char>::empty());
    while i < hi
        invariant
            lo <= i <= hi <= s@.len(),
            t == s@.subrange(lo as int, hi as int),
            forall|k: int| lo <= k < hi ==> is_digit(#[trigger] s@[k]),
            v == dec_value(t.take(i - lo)),
        decreases hi - i,
    {
        assert(t.take(i - lo + 1).drop_last() =~= t.take(i - lo));
        assert(is_digit(s@[i as int]));
        let d = ((s[i] as u32) - 48) as u64;
        match v.checked_mul(10) {
            None => {
                proof {
                    lemma_dec_value_mono(t, i - lo + 1, t.len() as int);
                    assert(t.take(t.len() as int) =~= t);
                }
                return None;
            },
            Some(m) => match m.checked_add(d) {
                None => {
                    proof {
                        lemma_dec_value_mono(t, i - lo + 1, t.len() as int);
                        assert(t.take(t.len() as int) =~= t);
                    }
                    return None;
                },
                Some(x) => {
                    v = x;
                },
            },
        }
        i = i + 1;
    }
    assert(t.take(t.len() as int) =~= t);
    Some(v)
}

/// Decimal digits of `n`.
pub fn dec_chars(n: u128) -> (r: Vec<char>)
    ensures
        r@ == dec_str(n as nat),
    decreases n,
{
    if n < 10 {
        let c = char_of_digit(n);
        let mut v: Vec<char> = Vec::new();
        v.push(c);
        assert(v@ =~= seq![((n + 48) as u32) as char]);
        v
    } else {
        let mut v = dec_chars(n / 10);
        v.push(char_of_digit(n % 10));
        v
    }
}

fn char_of_digit(d: u128) -> (c: char)
    requires
        d < 10,
    ensures
        c == ((d + 48) as u32) as char,
{
    if d == 0 { '0' } else if d == 1 { '1' } else if d == 2 { '2' } else if d == 3 { '3' }
    else if d == 4 { '4' } else if d == 5 { '5' } else if d == 6 { '6' } else if d == 7 { '7' }
    else if d == 8 { '8' } else { '9' }
}

/// UTF-16 length of `s` up to byte offset `col`, which falls on a character boundary.
pub fn utf8_to_utf16(s: &str, col: usize) -> (r: usize)
    requires
        is_boundary(s@, col as int),
    ensures
        r == u16_at(s@, char_pos(s@, col as int)),
{
    str_fits(s);
    let v = chars_of(s);
    let k = char_index(&v, col).unwrap();
    utf16_count(&v, k)
}

/// Byte offset in `s` of the first character boundary with at least `utf16` UTF-16 units
/// before it (the byte length of `s` when there is none).
pub fn utf16_to_utf8(s: &str, utf16: usize) -> (r: usize)
    ensures
        r == byte_at(s@, u16_pos_from(s@, 0, utf16 as int)),
{
    str_fits(s);
    let v = chars_of(s);
    utf16_to_byte(&v, utf16)
}

} // verus!
