//! Character classes and access to the text as decoded characters.
use vstd::prelude::*;

verus! {

/// The code points that carry Unicode's `White_Space` property.
pub open spec fn is_white_space(c: char) -> bool {
    let u = c as u32;
    (0x9 <= u && u <= 0xd) || u == 0x20 || u == 0x85 || u == 0xa0 || u == 0x1680
        || (0x2000 <= u && u <= 0x200a) || u == 0x2028 || u == 0x2029 || u == 0x202f
        || u == 0x205f || u == 0x3000
}

/// Whether a character has Unicode's `Alphabetic` property.
pub uninterp spec fn alphabetic(c: char) -> bool;

/// Whether a character has one of Unicode's numeric general categories.
pub uninterp spec fn numeric(c: char) -> bool;

/// Number of bytes that the UTF-8 encoding of the first `i` characters takes.
pub open spec fn byte_offset(s: Seq<char>, i: int) -> nat {
    vstd::utf8::encode_utf8(s.subrange(0, i)).len()
}

/// Relies on `char::is_whitespace`: true exactly on the `White_Space` code points.
#[verifier::external_body]
pub(crate) fn is_space(c: char) -> (r: bool)
    ensures
        r == is_white_space(c),
{
    c.is_whitespace()
}

/// Relies on `char::is_alphabetic`.
#[verifier::external_body]
pub(crate) fn is_alpha(c: char) -> (r: bool)
    ensures
        r == alphabetic(c),
{
    c.is_alphabetic()
}

/// Relies on `char::is_numeric`.
#[verifier::external_body]
pub(crate) fn is_num(c: char) -> (r: bool)
    ensures
        r == numeric(c),
{
    c.is_numeric()
}

/// Relies on `str::char_indices`: each character with the byte offset at
/// which its encoding starts.
#[verifier::external_body]
pub(crate) fn decode(s: &str) -> (r: Vec<(usize, char)>)
    ensures
        r@.len() == s@.len(),
        forall|k: int|
            0 <= k < s@.len() ==> (#[trigger] r@[k]).0 as nat == byte_offset(s@, k) && r@[k].1
                == s@[k],
{
    s.char_indices().collect()
}

/// Relies on indexing a `str` by a byte range: the bytes from `start` to `end`
/// hold the characters from `i` to `j` when those are the byte offsets of `i`
/// and `j`.
#[verifier::external_body]
pub(crate) fn slice(s: &str, start: usize, end: usize) -> (r: String)
    requires
        exists|i: int, j: int|
            0 <= i <= j <= s@.len() && start as nat == #[trigger] byte_offset(s@, i) && end as nat
                == #[trigger] byte_offset(s@, j),
    ensures
        forall|i: int, j: int|
            0 <= i <= j <= s@.len() && start as nat == #[trigger] byte_offset(s@, i) && end as nat
                == #[trigger] byte_offset(s@, j) ==> r@ == s@.subrange(i, j),
{
    s[start..end].to_string()
}

/// Relies on indexing a `str` by a byte range open at the end: the bytes from
/// `start` on hold the characters from `i` on when `start` is the byte offset of `i`.
#[verifier::external_body]
pub(crate) fn slice_rest(s: &str, start: usize) -> (r: String)
    requires
        exists|i: int| 0 <= i <= s@.len() && start as nat == #[trigger] byte_offset(s@, i),
    ensures
        forall|i: int|
            0 <= i <= s@.len() && start as nat == #[trigger] byte_offset(s@, i) ==> r@
                == s@.subrange(i, s@.len() as int),
{
    s[start..].to_string()
}

} // verus!
