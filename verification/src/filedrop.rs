//! Paths of files dropped on the window: the percent-decoding of a `file://` URL's path.

use vstd::prelude::*;
use vstd::utf8::{decode_utf8, encode_utf8, is_continuation_byte, valid_utf8};

verus! {

/// Text of a byte string with each invalid UTF-8 sequence replaced by U+FFFD, as
/// `String::from_utf8_lossy` makes it.
pub uninterp spec fn utf8_lossy(bytes: Seq<u8>) -> Seq<char>;

/// `String::from_utf8_lossy(..).into_owned()`: the text of `bytes`, invalid UTF-8
/// sequences replaced by U+FFFD. Its documentation gives the result for valid UTF-8 (the
/// text the bytes encode), which is stated; the replacement rule for invalid input is left
/// to the name.
#[verifier::external_body]
pub(crate) fn string_from_utf8_lossy(bytes: &[u8]) -> (r: String)
    ensures
        r@ == utf8_lossy(bytes@),
        valid_utf8(bytes@) ==> r@ == decode_utf8(bytes@),
{
    String::from_utf8_lossy(bytes).into_owned()
}

/// Value of an ASCII hexadecimal digit.
pub open spec fn hex_digit(b: u8) -> Option<u8> {
    if 0x30 <= b <= 0x39 {
        Some((b - 0x30) as u8)
    } else if 0x61 <= b <= 0x66 {
        Some((b - 0x61 + 10) as u8)
    } else if 0x41 <= b <= 0x46 {
        Some((b - 0x41 + 10) as u8)
    } else {
        None
    }
}

/// `u8::from_str_radix` of the two bytes `x y` in base 16: two hex digits, or `+` and
/// one hex digit.
pub open spec fn hex_pair(x: u8, y: u8) -> Option<u8> {
    match (hex_digit(x), hex_digit(y)) {
        (Some(h), Some(l)) => Some((h * 16 + l) as u8),
        (None, Some(l)) => if x == 0x2b {
            Some(l)
        } else {
            None
        },
        _ => None,
    }
}

/// The bytes of `b[i..]` with each `%xx` escape (followed by at least one more byte)
/// replaced by the byte it stands for.
pub open spec fn pct_bytes(b: Seq<u8>, i: int) -> Seq<u8>
    decreases b.len() - i,
{
    if i < 0 || i >= b.len() {
        Seq::empty()
    } else if b[i] == 0x25 && i + 2 < b.len() && hex_pair(b[i + 1], b[i + 2]) is Some {
        seq![hex_pair(b[i + 1], b[i + 2])->0] + pct_bytes(b, i + 3)
    } else {
        seq![b[i]] + pct_bytes(b, i + 1)
    }
}

/// Every escape that decoding reads ends on a character boundary (else the slice that
/// reads it would panic).
pub open spec fn pct_readable(b: Seq<u8>, i: int) -> bool
    decreases b.len() - i,
{
    if i < 0 || i >= b.len() {
        true
    } else if b[i] == 0x25 && i + 2 < b.len() {
        (i + 3 == b.len() || !is_continuation_byte(b[i + 3])) && if hex_pair(b[i + 1], b[i + 2]) is Some {
            pct_readable(b, i + 3)
        } else {
            pct_readable(b, i + 1)
        }
    } else {
        pct_readable(b, i + 1)
    }
}

fn hex_digit_of(b: u8) -> (r: Option<u8>)
    ensures
        r == hex_digit(b),
{
    if 0x30 <= b && b <= 0x39 {
        Some(b - 0x30)
    } else if 0x61 <= b && b <= 0x66 {
        Some(b - 0x61 + 10)
    } else if 0x41 <= b && b <= 0x46 {
        Some(b - 0x41 + 10)
    } else {
        None
    }
}

fn hex_pair_of(x: u8, y: u8) -> (r: Option<u8>)
    ensures
        r == hex_pair(x, y),
{
    match (hex_digit_of(x), hex_digit_of(y)) {
        (Some(h), Some(l)) => Some(h * 16 + l),
        (None, Some(l)) => if x == 0x2b {
            Some(l)
        } else {
            None
        },
        _ => None,
    }
}

/// Whether decoding `s` reads every escape on character boundaries (the condition
/// `percent_decode` needs).
pub fn percent_decode_safe(s: &str) -> (r: bool)
    ensures
        r == pct_readable(encode_utf8(s@), 0),
{
    let b = s.as_bytes();
    let n = b.len();
    let mut i: usize = 0;
    while i < n
        invariant
            i <= n == b@.len(),
            b@ == encode_utf8(s@),
            pct_readable(b@, 0) == pct_readable(b@, i as int),
        decreases n - i,
    {
        if b[i] == 0x25 && n >= 3 && i < n - 2 {
            if !(i + 3 == n || !(0x80 <= b[i + 3] && b[i + 3] <= 0xbf)) {
                return false;
            }
            if hex_pair_of(b[i + 1], b[i + 2]).is_some() {
                i = i + 3;
            } else {
                i = i + 1;
            }
        } else {
            i = i + 1;
        }
    }
    true
}

/// Simple URL percent-decoding (`%20` and the like).
pub fn percent_decode(s: &str) -> (r: String)
    requires
        pct_readable(encode_utf8(s@), 0),
    ensures
        r@ == utf8_lossy(pct_bytes(encode_utf8(s@), 0)),
{
    let b = s.as_bytes();
    let n = b.len();
    let mut out: Vec<u8> = Vec::new();
    let mut i: usize = 0;
    assert(out@ =~= Seq::<u8>::empty());
    while i < n
        invariant
            i <= n == b@.len(),
            b@ == encode_utf8(s@),
            out@ + pct_bytes(b@, i as int) == pct_bytes(b@, 0),
        decreases n - i,
    {
        let ghost o0 = out@;
        if b[i] == 0x25 && n >= 3 && i < n - 2 {
            if let Some(v) = hex_pair_of(b[i + 1], b[i + 2]) {
                out.push(v);
                assert(o0 + pct_bytes(b@, i as int) =~= out@ + pct_bytes(b@, i + 3));
                i = i + 3;
                continue;
            }
        }
        out.push(b[i]);
        assert(o0 + pct_bytes(b@, i as int) =~= out@ + pct_bytes(b@, i + 1));
        i = i + 1;
    }
    assert(out@ =~= pct_bytes(b@, 0));
    string_from_utf8_lossy(out.as_slice())
}

} // verus!
