//! Text on the wire: UTF-8 with repair, comparison, and quoting for messages.

use vstd::prelude::*;
use vstd::utf8::*;

verus! {

/// What `String::from_utf8_lossy` makes of bytes that are not UTF-8: the text with each faulty
/// run replaced by U+FFFD.
pub uninterp spec fn utf8_repaired(bytes: Seq<u8>) -> Seq<char>;

/// What `{:?}` prints for a string: the text in double quotes, with escapes.
pub uninterp spec fn debug_quoted(s: Seq<char>) -> Seq<char>;

/// The text that `bytes` stand for, repaired where they are not UTF-8.
pub open spec fn text_of(bytes: Seq<u8>) -> Seq<char> {
    if valid_utf8(bytes) {
        decode_utf8(bytes)
    } else {
        utf8_repaired(bytes)
    }
}

/// `String::from_utf8_lossy`: UTF-8 is decoded as it stands. In other bytes each faulty run
/// becomes U+FFFD, so that character occurs in the result; what else the result holds is a
/// function of the bytes that is only named here.
#[verifier::external_body]
pub(crate) fn from_utf8_lossy(bytes: &[u8]) -> (s: String)
    ensures
        valid_utf8(bytes@) ==> s@ == decode_utf8(bytes@),
        !valid_utf8(bytes@) ==> s@ == utf8_repaired(bytes@),
        !valid_utf8(bytes@) ==> s@.contains('\u{FFFD}'),
{
    String::from_utf8_lossy(bytes).into_owned()
}

/// `<str as Debug>::fmt`, by `format!`: the quoted form of a string, a function of the string
/// that is only named here.
#[verifier::external_body]
pub(crate) fn debug_str(s: &str) -> (r: String)
    ensures
        r@ == debug_quoted(s@),
{
    format!("{:?}", s)
}

/// `<std::io::Error as Display>::fmt`, by `format!`. The text depends on the operating system,
/// so nothing is claimed of it.
#[verifier::external_body]
pub(crate) fn io_error_text(e: &std::io::Error) -> (r: String) {
    format!("{}", e)
}

/// `c` with an ASCII capital made small.
pub open spec fn ascii_lower(c: char) -> char {
    if 'A' <= c <= 'Z' {
        (c as u32 + 0x20) as char
    } else {
        c
    }
}

/// Whether two texts are equal but for the case of ASCII letters.
pub open spec fn same_but_case(a: Seq<char>, b: Seq<char>) -> bool {
    a.len() == b.len() && forall|i: int|
        0 <= i < a.len() ==> ascii_lower(#[trigger] a[i]) == ascii_lower(b[i])
}

/// `str::eq_ignore_ascii_case`: whether two strings are equal once their ASCII letters are
/// lowered.
pub assume_specification[ str::eq_ignore_ascii_case ](a: &str, b: &str) -> (r: bool)
    ensures
        r == same_but_case(a@, b@),
;

/// Whether two byte slices hold the same bytes.
pub fn bytes_eq(a: &[u8], b: &[u8]) -> (r: bool)
    ensures
        r == (a@ == b@),
{
    if a.len() != b.len() {
        return false;
    }
    let mut i: usize = 0;
    while i < a.len()
        invariant
            i <= a@.len(),
            a@.len() == b@.len(),
            forall|j: int| 0 <= j < i ==> a@[j] == b@[j],
        decreases a@.len() - i,
    {
        if a[i] != b[i] {
            return false;
        }
        i = i + 1;
    }
    assert(a@ =~= b@);
    true
}

/// Two texts with the same UTF-8 bytes are the same text.
pub proof fn lemma_encode_utf8_injective(a: Seq<char>, b: Seq<char>)
    requires
        encode_utf8(a) == encode_utf8(b),
    ensures
        a == b,
{
    encode_utf8_decode_utf8(a);
    encode_utf8_decode_utf8(b);
}

/// Bytes that hold the UTF-8 form of a text stand for that text.
pub proof fn lemma_text_of_encoded(s: Seq<char>)
    ensures
        text_of(encode_utf8(s)) == s,
{
    encode_utf8_valid_utf8(s);
    encode_utf8_decode_utf8(s);
}

/// Whether two strings are equal.
pub fn str_eq(a: &str, b: &str) -> (r: bool)
    ensures
        r == (a@ == b@),
{
    let r = bytes_eq(a.as_bytes(), b.as_bytes());
    proof {
        if r {
            lemma_encode_utf8_injective(a@, b@);
        }
    }
    r
}

} // verus!
