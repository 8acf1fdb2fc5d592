//! Paper messages: what is printed, and what is read again.
use vstd::prelude::*;

use crate::paper::{
    base64_bytes, base64_of, digit_char, digit_of, opened, prefix_bytes, sealed, unpadded,
    uri_payload, PaperError,
};

verus! {

/// The digits of the text are the URL-safe alphabet, in its order.
pub proof fn law_digits(v: int)
    requires
        0 <= v < 64,
    ensures
        digit_char(v) as int
            == "ABCDEFGHIJKLMNOPQRSTUVWXYZabcdefghijklmnopqrstuvwxyz0123456789-_"@[v] as int,
        digit_of(digit_char(v)) == Some(v as u8),
{
    reveal_strlit("ABCDEFGHIJKLMNOPQRSTUVWXYZabcdefghijklmnopqrstuvwxyz0123456789-_");
}

/// A character outside the alphabet is no digit.
pub proof fn law_other_characters(c: u8)
    requires
        digit_of(c) is Some,
    ensures
        digit_of(c)->Some_0 < 64,
        digit_char(digit_of(c)->Some_0 as int) == c,
{
}

/// Three bytes are four digits of the same value.
pub proof fn law_three_bytes_are_four_digits(a: u8, b: u8, c: u8)
    ensures
        ({
            let t = base64_bytes(seq![a, b, c]);
            &&& t.len() == 4
            &&& digit_of(t[0]) is Some && digit_of(t[1]) is Some && digit_of(t[2]) is Some
                && digit_of(t[3]) is Some
            &&& digit_of(t[0])->Some_0 * 262144 + digit_of(t[1])->Some_0 * 4096 + digit_of(
                t[2],
            )->Some_0 * 64 + digit_of(t[3])->Some_0 == a * 65536 + b * 256 + c
        }),
{
    let s = seq![a, b, c];
    assert(s.skip(3) =~= Seq::empty());
    assert(base64_bytes(Seq::<u8>::empty()) =~= Seq::empty());
    reveal_with_fuel(base64_bytes, 2);
    law_digits(a as int / 4);
    law_digits((a as int % 4) * 16 + b as int / 16);
    law_digits((b as int % 16) * 4 + c as int / 64);
    law_digits(c as int % 64);
}

/// A group of three bytes is written apart from what follows it.
pub proof fn law_groups_are_apart(a: u8, b: u8, c: u8, rest: Seq<u8>)
    ensures
        base64_bytes(seq![a, b, c] + rest) == base64_bytes(seq![a, b, c]) + base64_bytes(rest),
{
    let s = seq![a, b, c] + rest;
    assert(s.skip(3) =~= rest);
    assert(seq![a, b, c].skip(3) =~= Seq::empty());
    reveal_with_fuel(base64_bytes, 2);
    assert(base64_bytes(s) =~= base64_bytes(seq![a, b, c]) + base64_bytes(rest));
}

/// One or two bytes at the end are written as if zeros followed, without the
/// digits that hold only those.
pub proof fn law_short_groups(a: u8, b: u8)
    ensures
        base64_bytes(seq![a]) == base64_bytes(seq![a, 0u8, 0u8]).take(2),
        base64_bytes(seq![a, b]) == base64_bytes(seq![a, b, 0u8]).take(3),
{
    assert(seq![a, 0u8, 0u8].skip(3) =~= Seq::empty());
    assert(seq![a, b, 0u8].skip(3) =~= Seq::empty());
    reveal_with_fuel(base64_bytes, 2);
    assert(base64_bytes(seq![a]) =~= base64_bytes(seq![a, 0u8, 0u8]).take(2));
    assert(base64_bytes(seq![a, b]) =~= base64_bytes(seq![a, b, 0u8]).take(3));
}

/// Text that reads back has only digits, and no byte is made of a single digit.
pub proof fn law_text_is_digits(t: Seq<u8>, i: int)
    requires
        base64_of(t) is Some,
        0 <= i < t.len(),
    ensures
        digit_of(t[i]) is Some,
        t.len() % 4 != 1,
        base64_of(t)->Some_0.len() == t.len() * 3 / 4,
    decreases t.len(),
{
    if t.len() >= 4 {
        let r = t.skip(4);
        if r.len() > 0 {
            let j = if i >= 4 {
                i - 4
            } else {
                0
            };
            law_text_is_digits(r, j);
            if i >= 4 {
                assert(r[j] == t[i]);
            }
        }
    }
}

/// The scheme of the text is `lxm`; any other text is refused.
pub proof fn law_scheme(uri: Seq<u8>)
    ensures
        prefix_bytes().len() == 6,
        forall|i: int| 0 <= i < 6 ==> #[trigger] prefix_bytes()[i] as int == "lxm://"@[i] as int,
        uri_payload(uri) != Err::<Seq<u8>, PaperError>(PaperError::InvalidScheme) <==> uri.len() >= 6
            && uri.take(6) == prefix_bytes(),
{
    reveal_strlit("lxm://");
}

/// A paper message is the destination in the clear and then what was encrypted
/// for it: 2210 bytes at most. It is made only of a packed message that begins
/// with that destination.
pub proof fn law_sealed(packed: Seq<u8>, destination: Seq<u8>, ciphertext: Option<Seq<u8>>)
    requires
        destination.len() == 16,
    ensures
        sealed(packed, destination, ciphertext) is Ok <==> {
            &&& packed.len() > 16
            &&& packed.subrange(0, 16) == destination
            &&& ciphertext is Some
            &&& ciphertext->Some_0.len() <= 2194
        },
        sealed(packed, destination, ciphertext) matches Ok(paper) ==> {
            &&& paper.subrange(0, 16) == destination
            &&& paper.skip(16) == ciphertext->Some_0
            &&& paper.len() <= 2210
        },
        packed.len() <= 16 ==> sealed(packed, destination, ciphertext) == Err::<
            Seq<u8>,
            PaperError,
        >(PaperError::TooShort),
        packed.len() > 16 && packed.subrange(0, 16) != destination ==> sealed(
            packed,
            destination,
            ciphertext,
        ) == Err::<Seq<u8>, PaperError>(PaperError::WrongDestination),
{
    if packed.len() > 16 {
        assert(packed.take(16) =~= packed.subrange(0, 16));
    }
    if let Ok(paper) = sealed(packed, destination, ciphertext) {
        assert(paper.subrange(0, 16) =~= destination);
        assert(paper.skip(16) =~= ciphertext->Some_0);
    }
}

/// What a destination opens is the packed message that begins with it.
pub proof fn law_opened(paper: Seq<u8>, destination: Seq<u8>, plaintext: Option<Seq<u8>>)
    requires
        destination.len() == 16,
        paper.len() >= 16,
    ensures
        opened(paper, destination, plaintext) is Ok <==> paper.subrange(0, 16) == destination
            && plaintext is Some,
        opened(paper, destination, plaintext) matches Ok(packed) ==> packed.subrange(0, 16)
            == destination && packed.skip(16) == plaintext->Some_0,
{
    assert(paper.take(16) =~= paper.subrange(0, 16));
    if let Ok(packed) = opened(paper, destination, plaintext) {
        assert(packed.subrange(0, 16) =~= destination);
        assert(packed.skip(16) =~= plaintext->Some_0);
    }
}

/// Padding at the end of a text says nothing, and is all that is left out.
pub proof fn law_padding(t: Seq<u8>)
    ensures
        unpadded(t.push(0x3d)) == unpadded(t),
        t.len() == 0 || t.last() != 0x3d ==> unpadded(t) == t,
        unpadded(t).len() == 0 || unpadded(t).last() != 0x3d,
        unpadded(t) == t.subrange(0, unpadded(t).len() as int),
        unpadded(t).len() <= t.len(),
    decreases t.len(),
{
    assert(t.push(0x3d).drop_last() =~= t);
    if t.len() > 0 && t.last() == 0x3d {
        let r = t.drop_last();
        law_padding(r);
        assert(r.subrange(0, unpadded(r).len() as int) =~= t.subrange(0, unpadded(r).len() as int));
    } else {
        assert(t.subrange(0, t.len() as int) =~= t);
    }
}

} // verus!
