//! LXMF paper messages and their `lxm://` URI representation.
//!
//! A paper message keeps the 16-byte delivery destination hash in the clear
//! and encrypts the rest of the fully packed LXMF message with the Reticulum
//! destination:
//!
//! ```text
//! destination_hash || destination.encrypt(packed_lxmf[16..])
//! ```
//!
//! The resulting bytes are encoded with URL-safe base64 without padding and
//! prefixed with `lxm://`.
use vstd::prelude::*;
use vstd::slice::slice_subrange;

use crate::bytemap::{same, to_array, to_vec};
use crate::constants::{DESTINATION_LENGTH, LXMF_OVERHEAD, PAPER_MDU};
use crate::text;

verus! {

/// URI prefix used by LXMF paper messages.
pub const URI_PREFIX: &'static str = "lxm://";

/// Errors returned while constructing or ingesting paper messages.
#[derive(Debug, Clone, Copy, PartialEq, Eq, Structural)]
pub enum PaperError {
    /// The supplied bytes cannot contain an LXMF destination hash and payload.
    TooShort,
    /// The encrypted paper representation exceeds the QR payload cap.
    TooLarge,
    /// The clear destination hash does not match the supplied destination.
    WrongDestination,
    /// The URI did not use the `lxm://` scheme.
    InvalidScheme,
    /// The URI contained malformed URL-safe base64.
    InvalidBase64,
    /// Reticulum destination encryption failed.
    Encryption,
    /// Reticulum destination decryption failed.
    Decryption,
}

impl PaperError {
    pub fn message(&self) -> (r: &'static str)
        ensures
            r@ == (match self {
                PaperError::TooShort => "paper message is too short"@,
                PaperError::TooLarge => "paper message exceeds the LXMF paper MDU"@,
                PaperError::WrongDestination => "paper message destination does not match"@,
                PaperError::InvalidScheme => "paper message URI does not use the lxm scheme"@,
                PaperError::InvalidBase64 => "paper message URI contains invalid base64"@,
                PaperError::Encryption => "paper message encryption failed"@,
                PaperError::Decryption => "paper message decryption failed"@,
            }),
    {
        match self {
            PaperError::TooShort => "paper message is too short",
            PaperError::TooLarge => "paper message exceeds the LXMF paper MDU",
            PaperError::WrongDestination => "paper message destination does not match",
            PaperError::InvalidScheme => "paper message URI does not use the lxm scheme",
            PaperError::InvalidBase64 => "paper message URI contains invalid base64",
            PaperError::Encryption => "paper message encryption failed",
            PaperError::Decryption => "paper message decryption failed",
        }
    }
}

// ---------------------------------------------------------------------------
// URL-safe base64
// ---------------------------------------------------------------------------

/// The character of a six-bit value.
pub open spec fn digit_char(v: int) -> u8 {
    if v < 26 {
        (0x41 + v) as u8
    } else if v < 52 {
        (0x61 + v - 26) as u8
    } else if v < 62 {
        (0x30 + v - 52) as u8
    } else if v == 62 {
        0x2d
    } else {
        0x5f
    }
}

/// The six-bit value of a character.
pub open spec fn digit_of(c: u8) -> Option<u8> {
    if 0x41 <= c <= 0x5a {
        Some((c - 0x41) as u8)
    } else if 0x61 <= c <= 0x7a {
        Some((c - 0x61 + 26) as u8)
    } else if 0x30 <= c <= 0x39 {
        Some((c - 0x30 + 52) as u8)
    } else if c == 0x2d {
        Some(62)
    } else if c == 0x5f {
        Some(63)
    } else {
        None
    }
}

/// Three bytes as four characters; the last group may be shorter.
pub open spec fn base64_bytes(s: Seq<u8>) -> Seq<u8>
    decreases s.len(),
{
    if s.len() == 0 {
        seq![]
    } else if s.len() == 1 {
        seq![digit_char(s[0] as int / 4), digit_char((s[0] as int % 4) * 16)]
    } else if s.len() == 2 {
        seq![
            digit_char(s[0] as int / 4),
            digit_char((s[0] as int % 4) * 16 + s[1] as int / 16),
            digit_char((s[1] as int % 16) * 4),
        ]
    } else {
        seq![
            digit_char(s[0] as int / 4),
            digit_char((s[0] as int % 4) * 16 + s[1] as int / 16),
            digit_char((s[1] as int % 16) * 4 + s[2] as int / 64),
            digit_char(s[2] as int % 64),
        ] + base64_bytes(s.skip(3))
    }
}

/// The bytes that unpadded base64 text stands for. Bits behind the last byte
/// are zero.
pub open spec fn base64_of(t: Seq<u8>) -> Option<Seq<u8>>
    decreases t.len(),
{
    if t.len() == 0 {
        Some(seq![])
    } else if t.len() == 1 {
        None
    } else if t.len() == 2 {
        match (digit_of(t[0]), digit_of(t[1])) {
            (Some(a), Some(b)) => if b % 16 == 0 {
                Some(seq![(a * 4 + b / 16) as u8])
            } else {
                None
            },
            _ => None,
        }
    } else if t.len() == 3 {
        match (digit_of(t[0]), digit_of(t[1]), digit_of(t[2])) {
            (Some(a), Some(b), Some(c)) => if c % 4 == 0 {
                Some(seq![(a * 4 + b / 16) as u8, ((b % 16) * 16 + c / 4) as u8])
            } else {
                None
            },
            _ => None,
        }
    } else {
        match (digit_of(t[0]), digit_of(t[1]), digit_of(t[2]), digit_of(t[3]), base64_of(t.skip(4)))
        {
            (Some(a), Some(b), Some(c), Some(e), Some(rest)) => Some(
                seq![
                    (a * 4 + b / 16) as u8,
                    ((b % 16) * 16 + c / 4) as u8,
                    ((c % 4) * 64 + e) as u8,
                ] + rest,
            ),
            _ => None,
        }
    }
}

/// The text without the padding characters at its end.
pub open spec fn unpadded(t: Seq<u8>) -> Seq<u8>
    decreases t.len(),
{
    if t.len() > 0 && t.last() == 0x3d {
        unpadded(t.drop_last())
    } else {
        t
    }
}

fn encode_digit(v: u8) -> (r: u8)
    requires
        v < 64,
    ensures
        r == digit_char(v as int),
        r < 0x80,
{
    if v < 26 {
        0x41 + v
    } else if v < 52 {
        0x61 + (v - 26)
    } else if v < 62 {
        0x30 + (v - 52)
    } else if v == 62 {
        0x2d
    } else {
        0x5f
    }
}

fn decode_digit(byte: u8) -> (r: Result<u8, PaperError>)
    ensures
        match digit_of(byte) {
            Some(v) => r == Ok::<u8, PaperError>(v) && v < 64,
            None => r == Err::<u8, PaperError>(PaperError::InvalidBase64),
        },
{
    if 0x41 <= byte && byte <= 0x5a {
        Ok(byte - 0x41)
    } else if 0x61 <= byte && byte <= 0x7a {
        Ok(byte - 0x61 + 26)
    } else if 0x30 <= byte && byte <= 0x39 {
        Ok(byte - 0x30 + 52)
    } else if byte == 0x2d {
        Ok(62)
    } else if byte == 0x5f {
        Ok(63)
    } else {
        Err(PaperError::InvalidBase64)
    }
}

/// All bytes are ASCII.
spec fn ascii(s: Seq<u8>) -> bool {
    forall|i: int| 0 <= i < s.len() ==> #[trigger] s[i] < 0x80
}

proof fn lemma_ascii_valid(s: Seq<u8>)
    requires
        ascii(s),
    ensures
        vstd::utf8::valid_utf8(s),
{
    let chars = Seq::new(s.len(), |i: int| s[i] as char);
    assert(vstd::utf8::is_ascii_chars(chars));
    vstd::utf8::is_ascii_chars_encode_utf8(chars);
    assert(vstd::utf8::encode_utf8(chars) =~= s);
    vstd::utf8::encode_utf8_valid_utf8(chars);
}

/// Appends the base64 text of the input.
fn encode_base64url(input: &[u8], output: &mut Vec<u8>)
    requires
        ascii(old(output)@),
    ensures
        final(output)@ == old(output)@ + base64_bytes(input@),
        ascii(final(output)@),
{
    let mut index: usize = 0;
    assert(input@.skip(0) =~= input@);
    while input.len() - index >= 3
        invariant
            index <= input@.len(),
            output@ + base64_bytes(input@.skip(index as int)) == old(output)@ + base64_bytes(
                input@,
            ),
            ascii(output@),
        decreases input@.len() - index,
    {
        let a: u8 = input[index];
        let b: u8 = input[index + 1];
        let c: u8 = input[index + 2];
        let ghost before = output@;
        output.push(encode_digit(a / 4));
        output.push(encode_digit((a % 4) * 16 + b / 16));
        output.push(encode_digit((b % 16) * 4 + c / 64));
        output.push(encode_digit(c % 64));
        proof {
            let s = input@.skip(index as int);
            assert(s.skip(3) =~= input@.skip(index + 3));
            assert(output@ + base64_bytes(s.skip(3)) =~= before + base64_bytes(s));
        }
        index = index + 3;
    }
    let ghost s = input@.skip(index as int);
    let ghost before = output@;
    if input.len() - index == 1 {
        let a: u8 = input[index];
        output.push(encode_digit(a / 4));
        output.push(encode_digit((a % 4) * 16));
    } else if input.len() - index == 2 {
        let a: u8 = input[index];
        let b: u8 = input[index + 1];
        output.push(encode_digit(a / 4));
        output.push(encode_digit((a % 4) * 16 + b / 16));
        output.push(encode_digit((b % 16) * 4));
    }
    assert(output@ =~= before + base64_bytes(s));
}

/// The bytes of base64 text; padding at its end is ignored.
fn decode_base64url(input: &[u8]) -> (r: Result<Vec<u8>, PaperError>)
    ensures
        match base64_of(unpadded(input@)) {
            Some(s) => r is Ok && r->Ok_0@ == s,
            None => r is Err && r->Err_0 == PaperError::InvalidBase64,
        },
{
    let mut len: usize = input.len();
    assert(input@.take(len as int) =~= input@);
    while len > 0 && input[len - 1] == 0x3d
        invariant
            len <= input@.len(),
            unpadded(input@.take(len as int)) == unpadded(input@),
        decreases len,
    {
        proof {
            let t = input@.take(len as int);
            assert(t.drop_last() =~= input@.take(len - 1));
        }
        len = len - 1;
    }
    let ghost t = input@.take(len as int);
    assert(unpadded(input@) == t);
    let mut output: Vec<u8> = Vec::new();
    let mut index: usize = 0;
    assert(t.skip(0) =~= t);
    proof {
        if let Some(s) = base64_of(t) {
            assert(Seq::<u8>::empty() + s =~= s);
        }
    }
    while len - index >= 4
        invariant
            index <= len <= input@.len(),
            t == input@.take(len as int),
            match base64_of(t.skip(index as int)) {
                Some(s) => base64_of(t) == Some(output@ + s),
                None => base64_of(t) is None,
            },
            unpadded(input@) == t,
        decreases len - index,
    {
        let ghost s = t.skip(index as int);
        assert(s.skip(4) =~= t.skip(index + 4));
        let a: u8 = decode_digit(input[index])?;
        let b: u8 = decode_digit(input[index + 1])?;
        let c: u8 = decode_digit(input[index + 2])?;
        let e: u8 = decode_digit(input[index + 3])?;
        let ghost before = output@;
        output.push(a * 4 + b / 16);
        output.push((b % 16) * 16 + c / 4);
        output.push((c % 4) * 64 + e);
        proof {
            if let Some(rest) = base64_of(s.skip(4)) {
                assert(output@ + rest =~= before + (seq![
                    (a * 4 + b / 16) as u8,
                    ((b % 16) * 16 + c / 4) as u8,
                    ((c % 4) * 64 + e) as u8,
                ] + rest));
            }
        }
        index = index + 4;
    }
    let ghost s = t.skip(index as int);
    let ghost before = output@;
    if len - index == 1 {
        return Err(PaperError::InvalidBase64);
    }
    if len - index == 2 {
        let a: u8 = decode_digit(input[index])?;
        let b: u8 = decode_digit(input[index + 1])?;
        if b % 16 != 0 {
            return Err(PaperError::InvalidBase64);
        }
        output.push(a * 4 + b / 16);
    } else if len - index == 3 {
        let a: u8 = decode_digit(input[index])?;
        let b: u8 = decode_digit(input[index + 1])?;
        let c: u8 = decode_digit(input[index + 2])?;
        if c % 4 != 0 {
            return Err(PaperError::InvalidBase64);
        }
        output.push(a * 4 + b / 16);
        output.push((b % 16) * 16 + c / 4);
    }
    assert(output@ =~= before + base64_of(s)->Some_0);
    Ok(output)
}

/// Decoding base64 text gives back the bytes that were encoded.
pub proof fn law_base64_round_trip(s: Seq<u8>)
    ensures
        base64_of(base64_bytes(s)) == Some(s),
    decreases s.len(),
{
    let t = base64_bytes(s);
    if s.len() == 1 {
        lemma_digit(s[0] as int / 4);
        lemma_digit((s[0] as int % 4) * 16);
        assert(base64_of(t)->Some_0 =~= s);
    } else if s.len() == 2 {
        lemma_digit(s[0] as int / 4);
        lemma_digit((s[0] as int % 4) * 16 + s[1] as int / 16);
        lemma_digit((s[1] as int % 16) * 4);
        assert(base64_of(t)->Some_0 =~= s);
    } else if s.len() > 2 {
        law_base64_round_trip(s.skip(3));
        lemma_digit(s[0] as int / 4);
        lemma_digit((s[0] as int % 4) * 16 + s[1] as int / 16);
        lemma_digit((s[1] as int % 16) * 4 + s[2] as int / 64);
        lemma_digit(s[2] as int % 64);
        assert(t.skip(4) =~= base64_bytes(s.skip(3)));
        assert(base64_of(t)->Some_0 =~= s);
    } else {
        assert(base64_of(t)->Some_0 =~= s);
    }
}

proof fn lemma_digit(v: int)
    requires
        0 <= v < 64,
    ensures
        digit_of(digit_char(v)) == Some(v as u8),
        digit_char(v) != 0x2f,
        digit_char(v) != 0x3d,
{
}

/// Base64 text holds neither slashes nor padding.
proof fn lemma_base64_alphabet(s: Seq<u8>, i: int)
    requires
        0 <= i < base64_bytes(s).len(),
    ensures
        base64_bytes(s)[i] != 0x2f,
        base64_bytes(s)[i] != 0x3d,
    decreases s.len(),
{
    if s.len() == 1 {
        lemma_digit(s[0] as int / 4);
        lemma_digit((s[0] as int % 4) * 16);
    } else if s.len() == 2 {
        lemma_digit(s[0] as int / 4);
        lemma_digit((s[0] as int % 4) * 16 + s[1] as int / 16);
        lemma_digit((s[1] as int % 16) * 4);
    } else if s.len() > 2 {
        lemma_digit(s[0] as int / 4);
        lemma_digit((s[0] as int % 4) * 16 + s[1] as int / 16);
        lemma_digit((s[1] as int % 16) * 4 + s[2] as int / 64);
        lemma_digit(s[2] as int % 64);
        if i >= 4 {
            lemma_base64_alphabet(s.skip(3), i - 4);
        }
    }
}

// ---------------------------------------------------------------------------
// Paper messages
// ---------------------------------------------------------------------------

/// The ASCII bytes of the URI prefix.
pub open spec fn prefix_bytes() -> Seq<u8> {
    seq![0x6cu8, 0x78, 0x6d, 0x3a, 0x2f, 0x2f]
}

/// The text without its slashes.
pub open spec fn compact(t: Seq<u8>) -> Seq<u8> {
    t.filter(|b: u8| b != 0x2f)
}

/// The bytes that a URI carries.
pub open spec fn uri_payload(uri: Seq<u8>) -> Result<Seq<u8>, PaperError> {
    if uri.len() < 6 || uri.take(6) != prefix_bytes() {
        Err(PaperError::InvalidScheme)
    } else {
        match base64_of(unpadded(compact(uri.skip(6)))) {
            Some(s) => Ok(s),
            None => Err(PaperError::InvalidBase64),
        }
    }
}

/// The binary representation carried by a paper-message URI or QR code.
#[derive(Debug, Clone, PartialEq, Eq)]
pub struct PaperMessage {
    destination_hash: [u8; DESTINATION_LENGTH],
    encrypted_payload: Vec<u8>,
}

impl View for PaperMessage {
    type V = Seq<u8>;

    /// The binary form: the destination hash, then the encrypted payload.
    closed spec fn view(&self) -> Seq<u8> {
        self.destination_hash@ + self.encrypted_payload@
    }
}

/// The paper form of a packed message, given what encrypting all but its
/// destination hash gave.
pub open spec fn sealed(
    packed: Seq<u8>,
    destination: Seq<u8>,
    ciphertext: Option<Seq<u8>>,
) -> Result<Seq<u8>, PaperError> {
    if packed.len() <= DESTINATION_LENGTH {
        Err(PaperError::TooShort)
    } else if packed.take(16) != destination {
        Err(PaperError::WrongDestination)
    } else {
        match ciphertext {
            None => Err(PaperError::Encryption),
            Some(c) => if DESTINATION_LENGTH + c.len() > PAPER_MDU {
                Err(PaperError::TooLarge)
            } else {
                Ok(destination + c)
            },
        }
    }
}

/// The packed message in a paper form, given what decrypting its payload gave.
pub open spec fn opened(
    paper: Seq<u8>,
    destination: Seq<u8>,
    plaintext: Option<Seq<u8>>,
) -> Result<Seq<u8>, PaperError> {
    if paper.take(16) != destination {
        Err(PaperError::WrongDestination)
    } else {
        match plaintext {
            None => Err(PaperError::Decryption),
            Some(t) => Ok(destination + t),
        }
    }
}

/// A paper message for one's own destination, once decrypted to what was
/// encrypted, is the packed message that it was made from; any other
/// destination refuses it.
pub proof fn law_paper_round_trip(
    packed: Seq<u8>,
    destination: Seq<u8>,
    other: Seq<u8>,
    ciphertext: Seq<u8>,
    plaintext: Option<Seq<u8>>,
)
    requires
        destination.len() == DESTINATION_LENGTH,
        other != destination,
    ensures
        sealed(packed, destination, Some(ciphertext)) matches Ok(paper) ==> {
            &&& opened(paper, destination, Some(packed.skip(16))) == Ok::<Seq<u8>, PaperError>(
                packed,
            )
            &&& opened(paper, other, plaintext) == Err::<Seq<u8>, PaperError>(
                PaperError::WrongDestination,
            )
        },
{
    if let Ok(paper) = sealed(packed, destination, Some(ciphertext)) {
        assert(paper.take(16) =~= destination);
        assert(packed.take(16) + packed.skip(16) =~= packed);
    }
}

impl PaperMessage {
    /// Checks that a packed message can be encrypted for a destination, and
    /// returns the part that is to be encrypted.
    pub fn plaintext<'a>(
        packed_lxmf: &'a [u8],
        destination: &[u8; DESTINATION_LENGTH],
    ) -> (r: Result<&'a [u8], PaperError>)
        ensures
            if packed_lxmf@.len() <= DESTINATION_LENGTH {
                r == Err::<&[u8], PaperError>(PaperError::TooShort)
            } else if packed_lxmf@.take(16) != destination@ {
                r == Err::<&[u8], PaperError>(PaperError::WrongDestination)
            } else {
                r is Ok && r->Ok_0@ == packed_lxmf@.skip(16)
            },
    {
        if packed_lxmf.len() <= DESTINATION_LENGTH {
            return Err(PaperError::TooShort);
        }
        let head = slice_subrange(packed_lxmf, 0, DESTINATION_LENGTH);
        assert(head@ =~= packed_lxmf@.take(16));
        if !crate::bytemap::same_bytes(head, destination) {
            return Err(PaperError::WrongDestination);
        }
        let tail = slice_subrange(packed_lxmf, DESTINATION_LENGTH, packed_lxmf.len());
        assert(tail@ =~= packed_lxmf@.skip(16));
        Ok(tail)
    }

    /// The paper form of a packed message for `destination`, from what
    /// encrypting its [`plaintext`](Self::plaintext) there gave.
    pub fn encrypt(
        packed_lxmf: &[u8],
        destination: &[u8; DESTINATION_LENGTH],
        encrypted_payload: Option<Vec<u8>>,
    ) -> (r: Result<PaperMessage, PaperError>)
        ensures
            match sealed(
                packed_lxmf@,
                destination@,
                match encrypted_payload {
                    Some(c) => Some(c@),
                    None => None,
                },
            ) {
                Ok(bytes) => r is Ok && r->Ok_0@ == bytes,
                Err(e) => r == Err::<PaperMessage, PaperError>(e),
            },
    {
        let _ = PaperMessage::plaintext(packed_lxmf, destination)?;
        match encrypted_payload {
            None => Err(PaperError::Encryption),
            Some(encrypted_payload) => {
                if encrypted_payload.len() > PAPER_MDU - DESTINATION_LENGTH {
                    return Err(PaperError::TooLarge);
                }
                Ok(PaperMessage { destination_hash: *destination, encrypted_payload })
            },
        }
    }

    /// Parses the raw bytes obtained from a paper URI or QR code. The size cap
    /// on what is generated does not apply here.
    pub fn from_bytes(bytes: &[u8]) -> (r: Result<PaperMessage, PaperError>)
        ensures
            if bytes@.len() < LXMF_OVERHEAD {
                r == Err::<PaperMessage, PaperError>(PaperError::TooShort)
            } else {
                r is Ok && r->Ok_0@ == bytes@
            },
    {
        if bytes.len() < LXMF_OVERHEAD {
            return Err(PaperError::TooShort);
        }
        let head = slice_subrange(bytes, 0, DESTINATION_LENGTH);
        let tail = slice_subrange(bytes, DESTINATION_LENGTH, bytes.len());
        assert(head@ + tail@ =~= bytes@);
        match to_array::<DESTINATION_LENGTH>(head) {
            Some(destination_hash) => Ok(
                PaperMessage { destination_hash, encrypted_payload: to_vec(tail) },
            ),
            None => Err(PaperError::TooShort),
        }
    }

    /// Decodes an unpadded, URL-safe `lxm://` paper-message URI.
    ///
    /// Slash characters after the scheme are ignored, which permits visually
    /// wrapped or scanned URIs.
    pub fn from_uri(uri: &str) -> (r: Result<PaperMessage, PaperError>)
        ensures
            match uri_payload(vstd::utf8::encode_utf8(uri@)) {
                Err(e) => r == Err::<PaperMessage, PaperError>(e),
                Ok(s) => if s.len() < LXMF_OVERHEAD {
                    r == Err::<PaperMessage, PaperError>(PaperError::TooShort)
                } else {
                    r is Ok && r->Ok_0@ == s
                },
            },
    {
        let bytes = uri.as_bytes();
        let prefix: [u8; 6] = [0x6c, 0x78, 0x6d, 0x3a, 0x2f, 0x2f];
        assert(prefix@ =~= prefix_bytes());
        if bytes.len() < 6 {
            return Err(PaperError::InvalidScheme);
        }
        let head = slice_subrange(bytes, 0, 6);
        assert(head@ =~= bytes@.take(6));
        if !crate::bytemap::same_bytes(head, &prefix) {
            return Err(PaperError::InvalidScheme);
        }
        let encoded = slice_subrange(bytes, 6, bytes.len());
        assert(encoded@ =~= bytes@.skip(6));
        let mut dense: Vec<u8> = Vec::new();
        let ghost keep = |b: u8| b != 0x2f;
        assert(encoded@.take(0).filter(keep) =~= Seq::empty()) by {
            reveal(Seq::filter);
        }
        let mut i: usize = 0;
        while i < encoded.len()
            invariant
                i <= encoded@.len(),
                keep == (|b: u8| b != 0x2f),
                dense@ == encoded@.take(i as int).filter(keep),
            decreases encoded@.len() - i,
        {
            proof {
                reveal(Seq::filter);
                let t = encoded@.take(i + 1);
                assert(t.drop_last() =~= encoded@.take(i as int));
                assert(t.last() == encoded@[i as int]);
            }
            if encoded[i] != 0x2f {
                dense.push(encoded[i]);
            }
            i = i + 1;
        }
        assert(encoded@.take(encoded@.len() as int) =~= encoded@);
        let decoded = decode_base64url(&dense)?;
        PaperMessage::from_bytes(&decoded)
    }

    /// Reconstructs the packed LXMF bytes for `destination`, from what
    /// decrypting the payload there gave.
    pub fn decrypt(
        &self,
        destination: &[u8; DESTINATION_LENGTH],
        plaintext: Option<&[u8]>,
    ) -> (r: Result<Vec<u8>, PaperError>)
        ensures
            match opened(
                self@,
                destination@,
                match plaintext {
                    Some(t) => Some(t@),
                    None => None,
                },
            ) {
                Ok(packed) => r is Ok && r->Ok_0@ == packed,
                Err(e) => r == Err::<Vec<u8>, PaperError>(e),
            },
    {
        assert(self@.take(16) =~= self.destination_hash@);
        if !same(&self.destination_hash, destination) {
            proof {
                if self.destination_hash@ == destination@ {
                    crate::bytemap::lemma_array_injective(self.destination_hash, *destination);
                }
            }
            return Err(PaperError::WrongDestination);
        }
        match plaintext {
            None => Err(PaperError::Decryption),
            Some(t) => {
                let mut packed: Vec<u8> = Vec::new();
                packed.extend_from_slice(&self.destination_hash);
                packed.extend_from_slice(t);
                assert(packed@ =~= destination@ + t@);
                Ok(packed)
            },
        }
    }

    /// The clear delivery destination hash.
    pub fn destination_hash(&self) -> (r: &[u8; DESTINATION_LENGTH])
        ensures
            r@ == self@.take(16),
    {
        assert(self@.take(16) =~= self.destination_hash@);
        &self.destination_hash
    }

    /// The destination-encrypted portion of the paper message.
    pub fn encrypted_payload(&self) -> (r: &[u8])
        ensures
            r@ == self@.skip(16),
    {
        assert(self@.skip(16) =~= self.encrypted_payload@);
        self.encrypted_payload.as_slice()
    }

    /// The binary paper representation.
    pub fn to_bytes(&self) -> (r: Vec<u8>)
        ensures
            r@ == self@,
    {
        let mut bytes: Vec<u8> = Vec::new();
        bytes.extend_from_slice(&self.destination_hash);
        bytes.extend_from_slice(&self.encrypted_payload);
        assert(bytes@ =~= self@);
        bytes
    }

    /// The `lxm://` text of this paper message.
    pub fn to_uri(&self) -> (r: String)
        ensures
            vstd::utf8::encode_utf8(r@) == prefix_bytes() + base64_bytes(self@),
    {
        let bytes = self.to_bytes();
        let prefix: [u8; 6] = [0x6c, 0x78, 0x6d, 0x3a, 0x2f, 0x2f];
        let mut uri: Vec<u8> = Vec::new();
        uri.extend_from_slice(&prefix);
        assert(uri@ =~= prefix_bytes());
        encode_base64url(&bytes, &mut uri);
        proof {
            lemma_ascii_valid(uri@);
        }
        match text::string_from_utf8(uri) {
            Some(s) => s,
            None => String::new(),
        }
    }
}

proof fn lemma_nothing_filtered(t: Seq<u8>)
    requires
        forall|i: int| 0 <= i < t.len() ==> #[trigger] t[i] != 0x2f,
    ensures
        compact(t) == t,
    decreases t.len(),
{
    reveal(Seq::filter);
    if t.len() > 0 {
        let r = t.drop_last();
        assert forall|i: int| 0 <= i < r.len() implies #[trigger] r[i] != 0x2f by {
            assert(r[i] == t[i]);
        }
        lemma_nothing_filtered(r);
        assert(t.last() == t[t.len() - 1]);
        assert(r.push(t.last()) =~= t);
    }
}

/// A URI carries back the bytes of the message it was made from.
pub proof fn law_uri_round_trip(s: Seq<u8>)
    ensures
        uri_payload(prefix_bytes() + base64_bytes(s)) == Ok::<Seq<u8>, PaperError>(s),
{
    let t = base64_bytes(s);
    let uri = prefix_bytes() + t;
    assert(uri.take(6) =~= prefix_bytes());
    assert(uri.skip(6) =~= t);
    assert forall|i: int| 0 <= i < t.len() implies #[trigger] t[i] != 0x2f && t[i] != 0x3d by {
        lemma_base64_alphabet(s, i);
    }
    lemma_nothing_filtered(t);
    if t.len() > 0 {
        assert(t.last() == t[t.len() - 1]);
    }
    law_base64_round_trip(s);
}

/// Padding at the end of a URI and slashes behind its scheme change nothing.
pub proof fn law_uri_tolerance(a: Seq<u8>, b: Seq<u8>)
    ensures
        uri_payload(prefix_bytes() + (a + seq![0x2fu8] + b)) == uri_payload(
            prefix_bytes() + (a + b),
        ),
        unpadded(a + seq![0x3du8]) == unpadded(a),
{
    let p = prefix_bytes();
    assert((p + (a + seq![0x2fu8] + b)).skip(6) =~= a + seq![0x2fu8] + b);
    assert((p + (a + b)).skip(6) =~= a + b);
    assert((p + (a + seq![0x2fu8] + b)).take(6) =~= p);
    assert((p + (a + b)).take(6) =~= p);
    lemma_compact_concat(a + seq![0x2fu8], b);
    lemma_compact_concat(a, seq![0x2fu8]);
    lemma_compact_concat(a, b);
    assert(compact(seq![0x2fu8]) =~= Seq::empty()) by {
        reveal(Seq::filter);
        assert(seq![0x2fu8].drop_last() =~= Seq::empty());
        assert(compact(Seq::<u8>::empty()) =~= Seq::empty());
    }
    assert(compact(a) + Seq::empty() =~= compact(a));
    assert((a + seq![0x3du8]).drop_last() =~= a);
}

proof fn lemma_compact_concat(a: Seq<u8>, b: Seq<u8>)
    ensures
        compact(a + b) == compact(a) + compact(b),
    decreases b.len(),
{
    reveal(Seq::filter);
    if b.len() == 0 {
        assert(a + b =~= a);
        assert(compact(b) =~= Seq::empty());
        assert(compact(a) + compact(b) =~= compact(a));
    } else {
        lemma_compact_concat(a, b.drop_last());
        assert((a + b).drop_last() =~= a + b.drop_last());
        assert((a + b).last() == b.last());
        assert(compact(a + b) =~= compact(a) + compact(b));
    }
}

} // verus!
