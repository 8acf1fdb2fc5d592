//! Texts, and calls into std's string functions.
use vstd::prelude::*;

verus! {

/// A character with Unicode's White_Space property.
pub open spec fn white_space(c: char) -> bool {
    let v = c as u32;
    ||| 0x9 <= v <= 0xd
    ||| v == 0x20
    ||| v == 0x85
    ||| v == 0xa0
    ||| v == 0x1680
    ||| 0x2000 <= v <= 0x200a
    ||| v == 0x2028
    ||| v == 0x2029
    ||| v == 0x202f
    ||| v == 0x205f
    ||| v == 0x3000
}

/// A text without the white space at its ends.
pub open spec fn trimmed(s: Seq<char>) -> Seq<char>
    decreases s.len(),
{
    if s.len() == 0 {
        s
    } else if white_space(s.first()) {
        trimmed(s.drop_first())
    } else if white_space(s.last()) {
        trimmed(s.drop_last())
    } else {
        s
    }
}

/// A trimmed text is a part of the text, has no white space at its ends, and
/// stays as it is when it is trimmed again.
pub proof fn law_trimmed(s: Seq<char>)
    ensures
        exists|i: int, j: int| 0 <= i <= j <= s.len() && trimmed(s) == #[trigger] s.subrange(i, j),
        trimmed(s).len() > 0 ==> !white_space(trimmed(s).first()) && !white_space(
            trimmed(s).last(),
        ),
        trimmed(trimmed(s)) == trimmed(s),
    decreases s.len(),
{
    if s.len() > 0 && white_space(s.first()) {
        let t = s.drop_first();
        law_trimmed(t);
        let (i, j) = choose|i: int, j: int|
            0 <= i <= j <= t.len() && trimmed(t) == #[trigger] t.subrange(i, j);
        assert(t.subrange(i, j) =~= s.subrange(i + 1, j + 1));
    } else if s.len() > 0 && white_space(s.last()) {
        let t = s.drop_last();
        law_trimmed(t);
        let (i, j) = choose|i: int, j: int|
            0 <= i <= j <= t.len() && trimmed(t) == #[trigger] t.subrange(i, j);
        assert(t.subrange(i, j) =~= s.subrange(i, j));
    } else {
        assert(s.subrange(0, s.len() as int) =~= s);
    }
}

/// `core::str::from_utf8`: the bytes as a string slice where they are valid
/// UTF-8.
#[verifier::external_body]
pub(crate) fn from_utf8(v: &[u8]) -> (r: Option<&str>)
    ensures
        r is Some <==> vstd::utf8::valid_utf8(v@),
        r matches Some(s) ==> vstd::utf8::encode_utf8(s@) == v@,
{
    core::str::from_utf8(v).ok()
}

/// `String::from_utf8`: the bytes as a string where they are valid UTF-8.
#[verifier::external_body]
pub(crate) fn string_from_utf8(v: Vec<u8>) -> (r: Option<String>)
    ensures
        r is Some <==> vstd::utf8::valid_utf8(v@),
        r matches Some(s) ==> vstd::utf8::encode_utf8(s@) == v@,
{
    String::from_utf8(v).ok()
}

/// `str::replace` of a character by nothing: the other characters, in their
/// order.
#[verifier::external_body]
pub(crate) fn without(s: &str, gone: char) -> (r: String)
    ensures
        r@ == s@.filter(|c: char| c != gone),
{
    s.replace(gone, "")
}

/// `str::trim`: the text without leading and trailing characters of Unicode's
/// White_Space property.
#[verifier::external_body]
pub(crate) fn trim(s: &str) -> (r: String)
    ensures
        r@ == trimmed(s@),
{
    String::from(s.trim())
}

} // verus!
