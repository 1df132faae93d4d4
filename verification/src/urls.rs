//! `file://` URLs of documents opened from the system: the path they name.

use vstd::prelude::*;
use vstd::utf8::encode_utf8;
use crate::filedrop::{hex_digit, string_from_utf8_lossy, utf8_lossy};

verus! {

/// The bytes of `b[i..]` with each `%` followed by two hex digits (and at least one more
/// byte) replaced by the byte they stand for.
pub open spec fn unescaped(b: Seq<u8>, i: int) -> Seq<u8>
    decreases b.len() - i,
{
    if i < 0 || i >= b.len() {
        Seq::empty()
    } else if b[i] == 0x25 && i + 2 < b.len() && hex_digit(b[i + 1]) is Some && hex_digit(
        b[i + 2],
    ) is Some {
        seq![(hex_digit(b[i + 1])->0 * 16 + hex_digit(b[i + 2])->0) as u8] + unescaped(b, i + 3)
    } else {
        seq![b[i]] + unescaped(b, i + 1)
    }
}

/// Value of an ASCII hexadecimal digit.
pub fn hex_val(b: u8) -> (r: Option<u8>)
    ensures
        r == hex_digit(b),
{
    if 0x30 <= b && b <= 0x39 {
        Some(b - 0x30)
    } else if 0x61 <= b && b <= 0x66 {
        Some(b - 0x61 + 10)
    } else if 0x41 <= b && b <= 0x46 {
        Some(b - 0x41 + 10)
    } else {
        None
    }
}

/// URL percent-decoding: `%` and two hex digits stand for a byte; the bytes are then read
/// as UTF-8, invalid sequences replaced.
pub fn percent_decode(s: &str) -> (r: String)
    ensures
        r@ == utf8_lossy(unescaped(encode_utf8(s@), 0)),
{
    let b = s.as_bytes();
    let n = b.len();
    let mut out: Vec<u8> = Vec::new();
    let mut i: usize = 0;
    assert(out@ =~= Seq::<u8>::empty());
    while i < n
        invariant
            i <= n == b@.len(),
            b@ == encode_utf8(s@),
            out@ + unescaped(b@, i as int) == unescaped(b@, 0),
        decreases n - i,
    {
        let ghost o0 = out@;
        if b[i] == 0x25 && n >= 3 && i < n - 2 {
            if let (Some(h), Some(l)) = (hex_val(b[i + 1]), hex_val(b[i + 2])) {
                out.push(h * 16 + l);
                assert(o0 + unescaped(b@, i as int) =~= out@ + unescaped(b@, i + 3));
                i = i + 3;
                continue;
            }
        }
        out.push(b[i]);
        assert(o0 + unescaped(b@, i as int) =~= out@ + unescaped(b@, i + 1));
        i = i + 1;
    }
    assert(out@ =~= unescaped(b@, 0));
    string_from_utf8_lossy(out.as_slice())
}

/// The path of a `file://` URL (with or without the `localhost` host), percent-decoded;
/// `None` when it is not such a URL or names no path.
pub open spec fn url_path(u: Seq<char>) -> Option<Seq<char>> {
    if u.len() >= 7 && u.take(7) == "file://"@ {
        let r = u.skip(7);
        let r2 = if r.len() >= 9 && r.take(9) == "localhost"@ {
            r.skip(9)
        } else {
            r
        };
        if r2.len() == 0 {
            None
        } else {
            Some(utf8_lossy(unescaped(encode_utf8(r2), 0)))
        }
    } else {
        None
    }
}

/// Convert a `file://` URL (as the system delivers it when a document is opened) into a
/// path.
pub fn url_to_path(url: &str) -> (r: Option<String>)
    ensures
        crate::markdown::opt_v(r) == url_path(url@),
{
    let v = crate::text::chars_of(url);
    let n = v.len();
    proof {
        reveal_strlit("file://");
        reveal_strlit("localhost");
    }
    assert(v@.subrange(0, n as int) =~= v@);
    if !crate::html2md::starts_lit(&v, 0, n, "file://") {
        return None;
    }
    let r = crate::text::slice_vec(&v, 7, n);
    assert(r@ =~= v@.skip(7));
    let m = r.len();
    assert(r@.subrange(0, m as int) =~= r@);
    let r2 = if crate::html2md::starts_lit(&r, 0, m, "localhost") {
        let x = crate::text::slice_vec(&r, 9, m);
        assert(x@ =~= r@.skip(9));
        x
    } else {
        r
    };
    if r2.len() == 0 {
        return None;
    }
    let s = crate::text::string_of(&r2);
    Some(percent_decode(s.as_str()))
}

} // verus!
