use vstd::prelude::*;

use vstd::utf8::{decode_utf8, valid_utf8};

verus! {

/// The text that `String::from_utf8_lossy` makes of bytes `b`.
pub uninterp spec fn utf8_lossy(b: Seq<u8>) -> Seq<char>;

/// A UTF-16 code unit that begins a surrogate pair.
pub open spec fn is_high_surrogate(u: u16) -> bool {
    0xD800 <= u <= 0xDBFF
}

/// A UTF-16 code unit that ends a surrogate pair.
pub open spec fn is_low_surrogate(u: u16) -> bool {
    0xDC00 <= u <= 0xDFFF
}

/// Lossy UTF-16 decoding of code units `u`: a unit that is no surrogate is
/// its own character, a high surrogate followed by a low one is the
/// character they encode together, and any other surrogate is U+FFFD.
#[verifier::opaque]
pub open spec fn utf16_lossy(u: Seq<u16>) -> Seq<char>
    decreases u.len(),
{
    if u.len() == 0 {
        Seq::empty()
    } else if !is_high_surrogate(u[0]) && !is_low_surrogate(u[0]) {
        seq![(u[0] as u32) as char] + utf16_lossy(u.drop_first())
    } else if is_high_surrogate(u[0]) && u.len() >= 2 && is_low_surrogate(u[1]) {
        seq![(0x10000 + (u[0] - 0xD800) * 0x400 + (u[1] - 0xDC00)) as u32 as char] + utf16_lossy(
            u.subrange(2, u.len() as int),
        )
    } else {
        seq!['\u{FFFD}'] + utf16_lossy(u.drop_first())
    }
}

/// Relies on `String::from_utf8_lossy`: valid UTF-8 is decoded as it is,
/// invalid sequences become U+FFFD; the result depends on the bytes alone.
#[verifier::external_body]
pub fn text_from_utf8(b: &[u8]) -> (r: String)
    ensures
        r@ == utf8_lossy(b@),
        valid_utf8(b@) ==> r@ == decode_utf8(b@),
{
    String::from_utf8_lossy(b).into_owned()
}

/// Relies on `String::from_utf16_lossy`: the code units are decoded as
/// UTF-16 and each unpaired surrogate becomes U+FFFD.
#[verifier::external_body]
pub fn text_from_utf16(u: &[u16]) -> (r: String)
    ensures
        r@ == utf16_lossy(u@),
{
    String::from_utf16_lossy(u)
}

/// The ASCII lower-case form of byte `c`.
pub open spec fn ascii_lower(c: u8) -> u8 {
    if 0x41 <= c <= 0x5A {
        (c + 0x20) as u8
    } else {
        c
    }
}

/// `a` and `b` are equal when ASCII letters are compared without case.
pub open spec fn eq_ignore_ascii_case(a: Seq<u8>, b: Seq<u8>) -> bool {
    &&& a.len() == b.len()
    &&& forall|i: int| 0 <= i < a.len() ==> #[trigger] ascii_lower(a[i]) == ascii_lower(b[i])
}

/// Compares `a` and `b` byte by byte, ignoring the case of ASCII letters.
pub fn bytes_eq_ignore_ascii_case(a: &[u8], b: &[u8]) -> (r: bool)
    ensures
        r == eq_ignore_ascii_case(a@, b@),
{
    if a.len() != b.len() {
        return false;
    }
    let mut i: usize = 0;
    while i < a.len()
        invariant
            i <= a@.len(),
            a@.len() == b@.len(),
            forall|j: int| 0 <= j < i ==> #[trigger] ascii_lower(a@[j]) == ascii_lower(b@[j]),
        decreases a@.len() - i,
    {
        let x = if 0x41 <= a[i] && a[i] <= 0x5A { a[i] + 0x20 } else { a[i] };
        let y = if 0x41 <= b[i] && b[i] <= 0x5A { b[i] + 0x20 } else { b[i] };
        if x != y {
            assert(ascii_lower(a@[i as int]) != ascii_lower(b@[i as int]));
            return false;
        }
        i += 1;
    }
    true
}

} // verus!
