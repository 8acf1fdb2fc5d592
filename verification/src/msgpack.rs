//! MessagePack values on byte buffers: writers that append, readers that move
//! a cursor, and a depth-limited `skip`.
//!
//! The wire forms are spec functions on byte sequences. A reader is described
//! by a function from the whole input and a position to the value read and the
//! position behind it.
use vstd::prelude::*;
use vstd::slice::slice_subrange;

use crate::ieee;
use crate::text::from_utf8;

verus! {

#[derive(Debug, Clone, Copy, PartialEq, Eq, Structural)]
pub enum Error {
    Truncated,
    Type,
    Overflow,
    Trailing,
    /// Container nesting deeper than `MAX_SKIP_DEPTH`.
    Depth,
}

impl Error {
    pub fn message(&self) -> (r: &'static str)
        ensures
            r@ == (match self {
                Error::Truncated => "msgpack value is truncated"@,
                Error::Type => "unexpected msgpack type"@,
                Error::Overflow => "msgpack value does not fit its target type"@,
                Error::Trailing => "trailing bytes after the msgpack value"@,
                Error::Depth => "msgpack container nesting is too deep"@,
            }),
    {
        match self {
            Error::Truncated => "msgpack value is truncated",
            Error::Type => "unexpected msgpack type",
            Error::Overflow => "msgpack value does not fit its target type",
            Error::Trailing => "trailing bytes after the msgpack value",
            Error::Depth => "msgpack container nesting is too deep",
        }
    }
}

/// Coarse wire type used to decode protocol unions.
#[derive(Debug, Clone, Copy, PartialEq, Eq, Structural)]
pub enum Kind {
    Nil,
    False,
    True,
    Array,
    Mapping,
    Str,
    Float,
    Other,
}

/// One MessagePack number together with the family the wire used for it. A
/// float is its binary64 bit pattern.
#[derive(Debug, Clone, Copy, PartialEq, Eq, Structural)]
pub enum Number {
    Int(i64),
    Float(u64),
}

/// Maximum container nesting depth accepted by [`skip`].
pub const MAX_SKIP_DEPTH: usize = 64;

// ---------------------------------------------------------------------------
// Wire forms
// ---------------------------------------------------------------------------

/// The number that a big-endian byte string stands for.
pub open spec fn be_value(s: Seq<u8>) -> nat
    decreases s.len(),
{
    if s.len() == 0 {
        0
    } else {
        be_value(s.drop_last()) * 256 + s.last() as nat
    }
}

/// The `w` low bytes of `v`, most significant first.
pub open spec fn be_bytes(v: nat, w: nat) -> Seq<u8>
    decreases w,
{
    if w == 0 {
        seq![]
    } else {
        be_bytes(v / 256, (w - 1) as nat).push((v % 256) as u8)
    }
}

/// 256 to the power `w`.
pub open spec fn be_limit(w: nat) -> nat
    decreases w,
{
    if w == 0 {
        1
    } else {
        256 * be_limit((w - 1) as nat)
    }
}

#[verifier::opaque]
pub open spec fn array_header(n: nat) -> Seq<u8> {
    if n < 16 {
        seq![(0x90 + n) as u8]
    } else if n < 0x1_0000 {
        seq![0xdcu8] + be_bytes(n, 2)
    } else {
        seq![0xddu8] + be_bytes(n, 4)
    }
}

#[verifier::opaque]
pub open spec fn map_header(n: nat) -> Seq<u8> {
    if n < 16 {
        seq![(0x80 + n) as u8]
    } else if n < 0x1_0000 {
        seq![0xdeu8] + be_bytes(n, 2)
    } else {
        seq![0xdfu8] + be_bytes(n, 4)
    }
}

#[verifier::opaque]
pub open spec fn bin_head(n: nat) -> Seq<u8> {
    if n < 0x100 {
        seq![0xc4u8] + be_bytes(n, 1)
    } else if n < 0x1_0000 {
        seq![0xc5u8] + be_bytes(n, 2)
    } else {
        seq![0xc6u8] + be_bytes(n, 4)
    }
}

#[verifier::opaque]
pub open spec fn str_head(n: nat) -> Seq<u8> {
    if n < 32 {
        seq![(0xa0 + n) as u8]
    } else if n < 0x100 {
        seq![0xd9u8] + be_bytes(n, 1)
    } else if n < 0x1_0000 {
        seq![0xdau8] + be_bytes(n, 2)
    } else {
        seq![0xdbu8] + be_bytes(n, 4)
    }
}

/// A bin value. The header holds the low 32 bits of the length.
pub open spec fn bin_bytes(v: Seq<u8>) -> Seq<u8> {
    bin_head((v.len() as u32) as nat) + v
}

/// A str value of UTF-8 bytes `v`. The header holds the low 32 bits of the
/// length.
pub open spec fn str_bytes(v: Seq<u8>) -> Seq<u8> {
    str_head((v.len() as u32) as nat) + v
}

/// An unsigned number in its shortest form.
#[verifier::opaque]
pub open spec fn uint_bytes(v: nat) -> Seq<u8> {
    if v < 0x80 {
        seq![v as u8]
    } else if v < 0x100 {
        seq![0xccu8] + be_bytes(v, 1)
    } else if v < 0x1_0000 {
        seq![0xcdu8] + be_bytes(v, 2)
    } else if v < 0x1_0000_0000 {
        seq![0xceu8] + be_bytes(v, 4)
    } else {
        seq![0xcfu8] + be_bytes(v, 8)
    }
}

/// A negative number in its shortest form, in two's complement.
#[verifier::opaque]
pub open spec fn negative_bytes(v: int) -> Seq<u8> {
    if v >= -32 {
        seq![(v + 0x100) as u8]
    } else if v >= -0x80 {
        seq![0xd0u8] + be_bytes((v + 0x100) as nat, 1)
    } else if v >= -0x8000 {
        seq![0xd1u8] + be_bytes((v + 0x1_0000) as nat, 2)
    } else if v >= -0x8000_0000 {
        seq![0xd2u8] + be_bytes((v + 0x1_0000_0000) as nat, 4)
    } else {
        seq![0xd3u8] + be_bytes((v + 0x1_0000_0000_0000_0000) as nat, 8)
    }
}

pub open spec fn int_bytes(v: int) -> Seq<u8> {
    if v >= 0 {
        uint_bytes(v as nat)
    } else {
        negative_bytes(v)
    }
}

#[verifier::opaque]
pub open spec fn double_bytes(bits: u64) -> Seq<u8> {
    seq![0xcbu8] + be_bytes(bits as nat, 8)
}

pub open spec fn nil_bytes() -> Seq<u8> {
    seq![0xc0u8]
}

pub open spec fn bool_bytes(v: bool) -> Seq<u8> {
    if v {
        seq![0xc3u8]
    } else {
        seq![0xc2u8]
    }
}

// ---------------------------------------------------------------------------
// Readers as functions of input and position
// ---------------------------------------------------------------------------

/// `n` bytes at `p`.
pub open spec fn take_at(d: Seq<u8>, p: int, n: int) -> Result<(Seq<u8>, int), Error> {
    if p + n > usize::MAX {
        Err(Error::Overflow)
    } else if p + n > d.len() {
        Err(Error::Truncated)
    } else {
        Ok((d.subrange(p, p + n), p + n))
    }
}

/// A `w`-byte big-endian number at `p`.
pub open spec fn be_at(d: Seq<u8>, p: int, w: int) -> Result<(nat, int), Error> {
    if p + w > d.len() {
        Err(Error::Truncated)
    } else {
        Ok((be_value(d.subrange(p, p + w)), p + w))
    }
}

#[verifier::opaque]
pub open spec fn kind_of(m: u8) -> Kind {
    if m == 0xc0 {
        Kind::Nil
    } else if m == 0xc2 {
        Kind::False
    } else if m == 0xc3 {
        Kind::True
    } else if 0x90 <= m <= 0x9f || m == 0xdc || m == 0xdd {
        Kind::Array
    } else if 0x80 <= m <= 0x8f || m == 0xde || m == 0xdf {
        Kind::Mapping
    } else if 0xa0 <= m <= 0xbf || m == 0xd9 || m == 0xda || m == 0xdb {
        Kind::Str
    } else if m == 0xca || m == 0xcb {
        Kind::Float
    } else {
        Kind::Other
    }
}

pub open spec fn kind_at(d: Seq<u8>, p: int) -> Result<Kind, Error> {
    if p < d.len() {
        Ok(kind_of(d[p]))
    } else {
        Err(Error::Truncated)
    }
}

#[verifier::opaque]
pub open spec fn array_len_at(d: Seq<u8>, p: int) -> Result<(nat, int), Error> {
    if p >= d.len() {
        Err(Error::Truncated)
    } else if 0x90 <= d[p] <= 0x9f {
        Ok(((d[p] - 0x90) as nat, p + 1))
    } else if d[p] == 0xdc {
        be_at(d, p + 1, 2)
    } else if d[p] == 0xdd {
        be_at(d, p + 1, 4)
    } else {
        Err(Error::Type)
    }
}

#[verifier::opaque]
pub open spec fn map_len_at(d: Seq<u8>, p: int) -> Result<(nat, int), Error> {
    if p >= d.len() {
        Err(Error::Truncated)
    } else if 0x80 <= d[p] <= 0x8f {
        Ok(((d[p] - 0x80) as nat, p + 1))
    } else if d[p] == 0xde {
        be_at(d, p + 1, 2)
    } else if d[p] == 0xdf {
        be_at(d, p + 1, 4)
    } else {
        Err(Error::Type)
    }
}

#[verifier::opaque]
pub open spec fn bin_len_at(d: Seq<u8>, p: int) -> Result<(nat, int), Error> {
    if p >= d.len() {
        Err(Error::Truncated)
    } else if d[p] == 0xc4 {
        be_at(d, p + 1, 1)
    } else if d[p] == 0xc5 {
        be_at(d, p + 1, 2)
    } else if d[p] == 0xc6 {
        be_at(d, p + 1, 4)
    } else {
        Err(Error::Type)
    }
}

#[verifier::opaque]
pub open spec fn str_len_at(d: Seq<u8>, p: int) -> Result<(nat, int), Error> {
    if p >= d.len() {
        Err(Error::Truncated)
    } else if 0xa0 <= d[p] <= 0xbf {
        Ok(((d[p] - 0xa0) as nat, p + 1))
    } else if d[p] == 0xd9 {
        be_at(d, p + 1, 1)
    } else if d[p] == 0xda {
        be_at(d, p + 1, 2)
    } else if d[p] == 0xdb {
        be_at(d, p + 1, 4)
    } else {
        Err(Error::Type)
    }
}

pub open spec fn bin_at(d: Seq<u8>, p: int) -> Result<(Seq<u8>, int), Error> {
    match bin_len_at(d, p) {
        Err(e) => Err(e),
        Ok((n, q)) => take_at(d, q, n as int),
    }
}

/// The UTF-8 bytes of a str value.
pub open spec fn str_at(d: Seq<u8>, p: int) -> Result<(Seq<u8>, int), Error> {
    match str_len_at(d, p) {
        Err(e) => Err(e),
        Ok((n, q)) => match take_at(d, q, n as int) {
            Err(e) => Err(e),
            Ok((s, t)) => if vstd::utf8::valid_utf8(s) {
                Ok((s, t))
            } else {
                Err(Error::Type)
            },
        },
    }
}

/// A binary64 value, as its bit pattern.
#[verifier::opaque]
pub open spec fn double_at(d: Seq<u8>, p: int) -> Result<(u64, int), Error> {
    if p >= d.len() {
        Err(Error::Truncated)
    } else if d[p] == 0xcb {
        match be_at(d, p + 1, 8) {
            Err(e) => Err(e),
            Ok((v, q)) => Ok((v as u64, q)),
        }
    } else {
        Err(Error::Type)
    }
}

/// A `w`-byte two's complement number at `p`.
pub open spec fn signed_at(d: Seq<u8>, p: int, w: nat) -> Result<(int, int), Error> {
    match be_at(d, p, w as int) {
        Err(e) => Err(e),
        Ok((v, q)) => if 2 * v < be_limit(w) {
            Ok((v as int, q))
        } else {
            Ok((v - be_limit(w), q))
        },
    }
}

/// An integer of any wire width.
#[verifier::opaque]
pub open spec fn int_at(d: Seq<u8>, p: int) -> Result<(int, int), Error> {
    if p >= d.len() {
        Err(Error::Truncated)
    } else if d[p] < 0x80 {
        Ok((d[p] as int, p + 1))
    } else if d[p] >= 0xe0 {
        Ok((d[p] - 0x100, p + 1))
    } else if 0xcc <= d[p] <= 0xcf {
        let w: int = if d[p] == 0xcc {
            1
        } else if d[p] == 0xcd {
            2
        } else if d[p] == 0xce {
            4
        } else {
            8
        };
        match be_at(d, p + 1, w) {
            Err(e) => Err(e),
            Ok((v, q)) => Ok((v as int, q)),
        }
    } else if d[p] == 0xd0 {
        signed_at(d, p + 1, 1)
    } else if d[p] == 0xd1 {
        signed_at(d, p + 1, 2)
    } else if d[p] == 0xd2 {
        signed_at(d, p + 1, 4)
    } else if d[p] == 0xd3 {
        signed_at(d, p + 1, 8)
    } else {
        Err(Error::Type)
    }
}

pub open spec fn uint_at(d: Seq<u8>, p: int) -> Result<(u64, int), Error> {
    match int_at(d, p) {
        Err(e) => Err(e),
        Ok((v, q)) => if 0 <= v <= u64::MAX {
            Ok((v as u64, q))
        } else {
            Err(Error::Overflow)
        },
    }
}

pub open spec fn sint_at(d: Seq<u8>, p: int) -> Result<(i64, int), Error> {
    match int_at(d, p) {
        Err(e) => Err(e),
        Ok((v, q)) => if i64::MIN <= v <= i64::MAX {
            Ok((v as i64, q))
        } else {
            Err(Error::Overflow)
        },
    }
}

pub open spec fn number_at(d: Seq<u8>, p: int) -> Result<(Number, int), Error> {
    if p >= d.len() {
        Err(Error::Truncated)
    } else if d[p] == 0xca {
        match take_at(d, p + 1, 4) {
            Err(e) => Err(e),
            Ok((s, q)) => Ok((Number::Float(ieee::widened(be_value(s) as u32) as u64), q)),
        }
    } else if d[p] == 0xcb {
        match double_at(d, p) {
            Err(e) => Err(e),
            Ok((v, q)) => Ok((Number::Float(v), q)),
        }
    } else {
        match sint_at(d, p) {
            Err(e) => Err(e),
            Ok((v, q)) => Ok((Number::Int(v), q)),
        }
    }
}

/// The binary64 pattern that a number stands for.
pub open spec fn number_bits(n: Number) -> u64 {
    match n {
        Number::Int(v) => ieee::from_int(v as int) as u64,
        Number::Float(bits) => bits,
    }
}

/// A number of any family, as a binary64 pattern.
pub open spec fn number_bits_at(d: Seq<u8>, p: int) -> Result<(u64, int), Error> {
    match number_at(d, p) {
        Err(e) => Err(e),
        Ok((n, q)) => Ok((number_bits(n), q)),
    }
}

pub open spec fn bool_at(d: Seq<u8>, p: int) -> Result<(bool, int), Error> {
    match take_at(d, p, 1) {
        Err(e) => Err(e),
        Ok((s, q)) => if s[0] == 0xc2 {
            Ok((false, q))
        } else if s[0] == 0xc3 {
            Ok((true, q))
        } else {
            Err(Error::Type)
        },
    }
}

pub open spec fn nil_at(d: Seq<u8>, p: int) -> Result<((), int), Error> {
    match take_at(d, p, 1) {
        Err(e) => Err(e),
        Ok((s, q)) => if s[0] == 0xc0 {
            Ok(((), q))
        } else {
            Err(Error::Type)
        },
    }
}

/// What follows a marker byte.
#[derive(Debug, Clone, Copy, PartialEq, Eq, Structural)]
pub enum Shape {
    /// This many payload bytes.
    Fixed(usize),
    /// A length of this many bytes, then the length plus the second number of
    /// payload bytes.
    Sized(usize, usize),
    /// This many nested values.
    Items(u64),
    /// A count of this many bytes, then the count times the second number of
    /// nested values.
    Counted(usize, u64),
    Invalid,
}

/// What follows a marker byte.
pub open spec fn shape_of(m: u8) -> Shape {
    if m < 0x80 || m >= 0xe0 {
        Shape::Fixed(0)
    } else if m < 0x90 {
        Shape::Items((2 * (m - 0x80)) as u64)
    } else if m < 0xa0 {
        Shape::Items((m - 0x90) as u64)
    } else if m < 0xc0 {
        Shape::Fixed((m - 0xa0) as usize)
    } else if m == 0xc0 || m == 0xc2 || m == 0xc3 {
        Shape::Fixed(0)
    } else if m == 0xc1 {
        Shape::Invalid
    } else if m == 0xc4 || m == 0xd9 {
        Shape::Sized(1, 0)
    } else if m == 0xc5 || m == 0xda {
        Shape::Sized(2, 0)
    } else if m == 0xc6 || m == 0xdb {
        Shape::Sized(4, 0)
    } else if m == 0xc7 {
        Shape::Sized(1, 1)
    } else if m == 0xc8 {
        Shape::Sized(2, 1)
    } else if m == 0xc9 {
        Shape::Sized(4, 1)
    } else if m == 0xcc || m == 0xd0 {
        Shape::Fixed(1)
    } else if m == 0xcd || m == 0xd1 {
        Shape::Fixed(2)
    } else if m == 0xca || m == 0xce || m == 0xd2 {
        Shape::Fixed(4)
    } else if m == 0xcb || m == 0xcf || m == 0xd3 {
        Shape::Fixed(8)
    } else if m == 0xd4 {
        Shape::Fixed(2)
    } else if m == 0xd5 {
        Shape::Fixed(3)
    } else if m == 0xd6 {
        Shape::Fixed(5)
    } else if m == 0xd7 {
        Shape::Fixed(9)
    } else if m == 0xd8 {
        Shape::Fixed(17)
    } else if m == 0xdc {
        Shape::Counted(2, 1)
    } else if m == 0xdd {
        Shape::Counted(4, 1)
    } else if m == 0xde {
        Shape::Counted(2, 2)
    } else {
        Shape::Counted(4, 2)
    }
}

/// The position behind the value at `p`, where containers may nest `depth`
/// levels deep.
pub closed spec fn skip_at(d: Seq<u8>, p: int, depth: nat) -> Result<int, Error>
    decreases depth, 0nat,
{
    match take_at(d, p, 1) {
        Err(e) => Err(e),
        Ok((m, q)) => match shape_of(m[0]) {
            Shape::Fixed(n) => match take_at(d, q, n as int) {
                Err(e) => Err(e),
                Ok((_, t)) => Ok(t),
            },
            Shape::Sized(w, extra) => match take_at(d, q, w as int) {
                Err(e) => Err(e),
                Ok((s, t)) => match take_at(d, t, be_value(s) + extra) {
                    Err(e) => Err(e),
                    Ok((_, u)) => Ok(u),
                },
            },
            Shape::Items(n) => if depth == 0 {
                Err(Error::Depth)
            } else {
                skip_many_at(d, q, n as nat, (depth - 1) as nat)
            },
            Shape::Counted(w, each) => match take_at(d, q, w as int) {
                Err(e) => Err(e),
                Ok((s, t)) => if depth == 0 {
                    Err(Error::Depth)
                } else {
                    skip_many_at(d, t, be_value(s) * each as nat, (depth - 1) as nat)
                },
            },
            Shape::Invalid => Err(Error::Type),
        },
    }
}

/// The position behind `n` consecutive values.
pub closed spec fn skip_many_at(d: Seq<u8>, p: int, n: nat, depth: nat) -> Result<int, Error>
    decreases depth, n + 1,
{
    if n == 0 {
        Ok(p)
    } else {
        match skip_at(d, p, depth) {
            Err(e) => Err(e),
            Ok(q) => skip_many_at(d, q, (n - 1) as nat, depth),
        }
    }
}

/// Where the cursor stands after the value at `p` was skipped: behind it, or,
/// where it cannot be skipped, behind the last part of it that could be read.
pub closed spec fn stop_at(d: Seq<u8>, p: int, depth: nat) -> int
    decreases depth, 0nat,
{
    match take_at(d, p, 1) {
        Err(_) => p,
        Ok((m, q)) => match shape_of(m[0]) {
            Shape::Fixed(n) => match take_at(d, q, n as int) {
                Err(_) => q,
                Ok((_, t)) => t,
            },
            Shape::Sized(w, extra) => match take_at(d, q, w as int) {
                Err(_) => q,
                Ok((s, t)) => match take_at(d, t, be_value(s) + extra) {
                    Err(_) => t,
                    Ok((_, u)) => u,
                },
            },
            Shape::Items(n) => if depth == 0 {
                q
            } else {
                stop_many_at(d, q, n as nat, (depth - 1) as nat)
            },
            Shape::Counted(w, each) => match take_at(d, q, w as int) {
                Err(_) => q,
                Ok((s, t)) => if depth == 0 {
                    t
                } else {
                    stop_many_at(d, t, be_value(s) * each as nat, (depth - 1) as nat)
                },
            },
            Shape::Invalid => q,
        },
    }
}

/// Where the cursor stands after `n` consecutive values were skipped.
pub closed spec fn stop_many_at(d: Seq<u8>, p: int, n: nat, depth: nat) -> int
    decreases depth, n + 1,
{
    if n == 0 {
        p
    } else {
        match skip_at(d, p, depth) {
            Err(_) => stop_at(d, p, depth),
            Ok(q) => stop_many_at(d, q, (n - 1) as nat, depth),
        }
    }
}

/// Skipping one value, in terms of its parts.
pub proof fn lemma_skip_at(d: Seq<u8>, p: int, depth: nat)
    ensures
        skip_at(d, p, depth) == (match take_at(d, p, 1) {
            Err(e) => Err(e),
            Ok((m, q)) => match shape_of(m[0]) {
                Shape::Fixed(n) => match take_at(d, q, n as int) {
                    Err(e) => Err(e),
                    Ok((_, t)) => Ok(t),
                },
                Shape::Sized(w, extra) => match take_at(d, q, w as int) {
                    Err(e) => Err(e),
                    Ok((s, t)) => match take_at(d, t, be_value(s) + extra) {
                        Err(e) => Err(e),
                        Ok((_, u)) => Ok(u),
                    },
                },
                Shape::Items(n) => if depth == 0 {
                    Err(Error::Depth)
                } else {
                    skip_many_at(d, q, n as nat, (depth - 1) as nat)
                },
                Shape::Counted(w, each) => match take_at(d, q, w as int) {
                    Err(e) => Err(e),
                    Ok((s, t)) => if depth == 0 {
                        Err(Error::Depth)
                    } else {
                        skip_many_at(d, t, be_value(s) * each as nat, (depth - 1) as nat)
                    },
                },
                Shape::Invalid => Err(Error::Type),
            },
        }),
        stop_at(d, p, depth) == (match take_at(d, p, 1) {
            Err(_) => p,
            Ok((m, q)) => match shape_of(m[0]) {
                Shape::Fixed(n) => match take_at(d, q, n as int) {
                    Err(_) => q,
                    Ok((_, t)) => t,
                },
                Shape::Sized(w, extra) => match take_at(d, q, w as int) {
                    Err(_) => q,
                    Ok((s, t)) => match take_at(d, t, be_value(s) + extra) {
                        Err(_) => t,
                        Ok((_, u)) => u,
                    },
                },
                Shape::Items(n) => if depth == 0 {
                    q
                } else {
                    stop_many_at(d, q, n as nat, (depth - 1) as nat)
                },
                Shape::Counted(w, each) => match take_at(d, q, w as int) {
                    Err(_) => q,
                    Ok((s, t)) => if depth == 0 {
                        t
                    } else {
                        stop_many_at(d, t, be_value(s) * each as nat, (depth - 1) as nat)
                    },
                },
                Shape::Invalid => q,
            },
        }),
{
}

/// Skipping `n` values, in terms of the first of them and the rest.
pub proof fn lemma_skip_many_at(d: Seq<u8>, p: int, n: nat, depth: nat)
    ensures
        n == 0 ==> skip_many_at(d, p, n, depth) == Ok::<int, Error>(p) && stop_many_at(
            d,
            p,
            n,
            depth,
        ) == p,
        n > 0 ==> match skip_at(d, p, depth) {
            Err(e) => {
                &&& skip_many_at(d, p, n, depth) == Err::<int, Error>(e)
                &&& stop_many_at(d, p, n, depth) == stop_at(d, p, depth)
            },
            Ok(q) => {
                &&& skip_many_at(d, p, n, depth) == skip_many_at(d, q, (n - 1) as nat, depth)
                &&& stop_many_at(d, p, n, depth) == stop_many_at(d, q, (n - 1) as nat, depth)
            },
        },
{
}

/// One value of any kind, as its wire bytes.
pub open spec fn raw_at(d: Seq<u8>, p: int) -> Result<(Seq<u8>, int), Error> {
    match skip_at(d, p, MAX_SKIP_DEPTH as nat) {
        Err(e) => Err(e),
        Ok(q) => Ok((d.subrange(p, q), q)),
    }
}


// ---------------------------------------------------------------------------
// Calls into rmp
// ---------------------------------------------------------------------------

/// `rmp::encode::write_array_len` on a `Vec<u8>`: appends the array header of
/// `n`, in the shortest of its three forms. Writing to a vector cannot fail.
#[verifier::external_body]
fn rmp_write_array_len(out: &mut Vec<u8>, n: u32)
    ensures
        final(out)@ == old(out)@ + array_header(n as nat),
{
    let _ = rmp::encode::write_array_len(out, n);
}

/// `rmp::encode::write_map_len` on a `Vec<u8>`: appends the map header of `n`.
#[verifier::external_body]
fn rmp_write_map_len(out: &mut Vec<u8>, n: u32)
    ensures
        final(out)@ == old(out)@ + map_header(n as nat),
{
    let _ = rmp::encode::write_map_len(out, n);
}

/// `rmp::encode::write_bin_len` on a `Vec<u8>`: appends the bin header of `n`.
#[verifier::external_body]
fn rmp_write_bin_len(out: &mut Vec<u8>, n: u32)
    ensures
        final(out)@ == old(out)@ + bin_head(n as nat),
{
    let _ = rmp::encode::write_bin_len(out, n);
}

/// `rmp::encode::write_bin` on a `Vec<u8>`: appends the bin header of the low
/// 32 bits of the length, then the bytes.
#[verifier::external_body]
fn rmp_write_bin(out: &mut Vec<u8>, v: &[u8])
    ensures
        final(out)@ == old(out)@ + bin_bytes(v@),
{
    let _ = rmp::encode::write_bin(out, v);
}

/// `rmp::encode::write_str` on a `Vec<u8>`: appends the str header of the low
/// 32 bits of the length in bytes, then the UTF-8 bytes.
#[verifier::external_body]
fn rmp_write_str(out: &mut Vec<u8>, v: &str)
    ensures
        final(out)@ == old(out)@ + str_bytes(vstd::utf8::encode_utf8(v@)),
{
    let _ = rmp::encode::write_str(out, v);
}

/// `rmp::encode::write_uint` on a `Vec<u8>`: appends the shortest form of an
/// unsigned number.
#[verifier::external_body]
fn rmp_write_uint(out: &mut Vec<u8>, v: u64)
    ensures
        final(out)@ == old(out)@ + uint_bytes(v as nat),
{
    let _ = rmp::encode::write_uint(out, v);
}

/// `rmp::encode::write_sint` on a `Vec<u8>`, for a negative number: appends its
/// shortest form.
#[verifier::external_body]
fn rmp_write_sint(out: &mut Vec<u8>, v: i64)
    requires
        v < 0,
    ensures
        final(out)@ == old(out)@ + negative_bytes(v as int),
{
    let _ = rmp::encode::write_sint(out, v);
}

/// `rmp::encode::write_nil` on a `Vec<u8>`: appends the nil marker.
#[verifier::external_body]
fn rmp_write_nil(out: &mut Vec<u8>)
    ensures
        final(out)@ == old(out)@ + nil_bytes(),
{
    let _ = rmp::encode::write_nil(out);
}

/// `rmp::encode::write_bool` on a `Vec<u8>`: appends the marker of the boolean.
#[verifier::external_body]
fn rmp_write_bool(out: &mut Vec<u8>, v: bool)
    ensures
        final(out)@ == old(out)@ + bool_bytes(v),
{
    let _ = rmp::encode::write_bool(out, v);
}

/// `rmp::decode::read_array_len` on the bytes from `p` on: the length and the
/// number of bytes read, or the class of its error.
#[verifier::external_body]
fn rmp_read_array_len(d: &[u8], p: usize) -> (r: Result<(u32, u64), Error>)
    requires
        p <= d@.len(),
    ensures
        match array_len_at(d@, p as int) {
            Ok((n, q)) => r == Ok::<(u32, u64), Error>((n as u32, (q - p) as u64)) && n <= u32::MAX,
            Err(e) => r == Err::<(u32, u64), Error>(e),
        },
{
    let mut rd = rmp::decode::Bytes::new(&d[p..]);
    match rmp::decode::read_array_len(&mut rd) {
        Ok(n) => Ok((n, rd.position())),
        Err(rmp::decode::ValueReadError::TypeMismatch(_)) => Err(Error::Type),
        Err(_) => Err(Error::Truncated),
    }
}

/// `rmp::decode::read_map_len` on the bytes from `p` on.
#[verifier::external_body]
fn rmp_read_map_len(d: &[u8], p: usize) -> (r: Result<(u32, u64), Error>)
    requires
        p <= d@.len(),
    ensures
        match map_len_at(d@, p as int) {
            Ok((n, q)) => r == Ok::<(u32, u64), Error>((n as u32, (q - p) as u64)) && n <= u32::MAX,
            Err(e) => r == Err::<(u32, u64), Error>(e),
        },
{
    let mut rd = rmp::decode::Bytes::new(&d[p..]);
    match rmp::decode::read_map_len(&mut rd) {
        Ok(n) => Ok((n, rd.position())),
        Err(rmp::decode::ValueReadError::TypeMismatch(_)) => Err(Error::Type),
        Err(_) => Err(Error::Truncated),
    }
}

/// `rmp::decode::read_bin_len` on the bytes from `p` on.
#[verifier::external_body]
fn rmp_read_bin_len(d: &[u8], p: usize) -> (r: Result<(u32, u64), Error>)
    requires
        p <= d@.len(),
    ensures
        match bin_len_at(d@, p as int) {
            Ok((n, q)) => r == Ok::<(u32, u64), Error>((n as u32, (q - p) as u64)) && n <= u32::MAX,
            Err(e) => r == Err::<(u32, u64), Error>(e),
        },
{
    let mut rd = rmp::decode::Bytes::new(&d[p..]);
    match rmp::decode::read_bin_len(&mut rd) {
        Ok(n) => Ok((n, rd.position())),
        Err(rmp::decode::ValueReadError::TypeMismatch(_)) => Err(Error::Type),
        Err(_) => Err(Error::Truncated),
    }
}

/// `rmp::decode::read_str_len` on the bytes from `p` on.
#[verifier::external_body]
fn rmp_read_str_len(d: &[u8], p: usize) -> (r: Result<(u32, u64), Error>)
    requires
        p <= d@.len(),
    ensures
        match str_len_at(d@, p as int) {
            Ok((n, q)) => r == Ok::<(u32, u64), Error>((n as u32, (q - p) as u64)) && n <= u32::MAX,
            Err(e) => r == Err::<(u32, u64), Error>(e),
        },
{
    let mut rd = rmp::decode::Bytes::new(&d[p..]);
    match rmp::decode::read_str_len(&mut rd) {
        Ok(n) => Ok((n, rd.position())),
        Err(rmp::decode::ValueReadError::TypeMismatch(_)) => Err(Error::Type),
        Err(_) => Err(Error::Truncated),
    }
}

/// `rmp::decode::read_int::<u64>` on the bytes from `p` on: any integer form
/// whose value is in the `u64` range.
#[verifier::external_body]
fn rmp_read_uint(d: &[u8], p: usize) -> (r: Result<(u64, u64), Error>)
    requires
        p <= d@.len(),
    ensures
        match uint_at(d@, p as int) {
            Ok((v, q)) => r == Ok::<(u64, u64), Error>((v, (q - p) as u64)),
            Err(e) => r == Err::<(u64, u64), Error>(e),
        },
{
    let mut rd = rmp::decode::Bytes::new(&d[p..]);
    match rmp::decode::read_int::<u64, _>(&mut rd) {
        Ok(v) => Ok((v, rd.position())),
        Err(rmp::decode::NumValueReadError::TypeMismatch(_)) => Err(Error::Type),
        Err(rmp::decode::NumValueReadError::OutOfRange) => Err(Error::Overflow),
        Err(_) => Err(Error::Truncated),
    }
}

/// `rmp::decode::read_int::<i64>` on the bytes from `p` on: any integer form
/// whose value is in the `i64` range.
#[verifier::external_body]
fn rmp_read_sint(d: &[u8], p: usize) -> (r: Result<(i64, u64), Error>)
    requires
        p <= d@.len(),
    ensures
        match sint_at(d@, p as int) {
            Ok((v, q)) => r == Ok::<(i64, u64), Error>((v, (q - p) as u64)),
            Err(e) => r == Err::<(i64, u64), Error>(e),
        },
{
    let mut rd = rmp::decode::Bytes::new(&d[p..]);
    match rmp::decode::read_int::<i64, _>(&mut rd) {
        Ok(v) => Ok((v, rd.position())),
        Err(rmp::decode::NumValueReadError::TypeMismatch(_)) => Err(Error::Type),
        Err(rmp::decode::NumValueReadError::OutOfRange) => Err(Error::Overflow),
        Err(_) => Err(Error::Truncated),
    }
}

// ---------------------------------------------------------------------------
// Writers
// ---------------------------------------------------------------------------

pub fn array(out: &mut Vec<u8>, n: usize)
    ensures
        final(out)@ == old(out)@ + array_header((n as u32) as nat),
{
    rmp_write_array_len(out, n as u32);
}

pub fn map(out: &mut Vec<u8>, n: usize)
    ensures
        final(out)@ == old(out)@ + map_header((n as u32) as nat),
{
    rmp_write_map_len(out, n as u32);
}

/// The header of a bin value whose bytes follow.
pub fn bin_header(out: &mut Vec<u8>, n: usize)
    ensures
        final(out)@ == old(out)@ + bin_head((n as u32) as nat),
{
    rmp_write_bin_len(out, n as u32);
}

pub fn bin(out: &mut Vec<u8>, v: &[u8])
    ensures
        final(out)@ == old(out)@ + bin_bytes(v@),
{
    rmp_write_bin(out, v);
}

pub fn string(out: &mut Vec<u8>, value: &str)
    ensures
        final(out)@ == old(out)@ + str_bytes(vstd::utf8::encode_utf8(value@)),
{
    rmp_write_str(out, value);
}

pub fn uint(out: &mut Vec<u8>, v: u64)
    ensures
        final(out)@ == old(out)@ + uint_bytes(v as nat),
{
    rmp_write_uint(out, v);
}

pub fn sint(out: &mut Vec<u8>, v: i64)
    ensures
        final(out)@ == old(out)@ + int_bytes(v as int),
{
    if v >= 0 {
        uint(out, v as u64);
    } else {
        rmp_write_sint(out, v);
    }
}

pub fn nil(out: &mut Vec<u8>)
    ensures
        final(out)@ == old(out)@ + nil_bytes(),
{
    rmp_write_nil(out);
}

pub fn boolean(out: &mut Vec<u8>, value: bool)
    ensures
        final(out)@ == old(out)@ + bool_bytes(value),
{
    rmp_write_bool(out, value);
}

/// A binary64 value given by its bit pattern.
pub fn double(out: &mut Vec<u8>, bits: u64)
    ensures
        final(out)@ == old(out)@ + double_bytes(bits),
{
    proof {
        reveal(double_bytes);
    }
    let b1: u64 = bits / 256;
    let b2: u64 = b1 / 256;
    let b3: u64 = b2 / 256;
    let b4: u64 = b3 / 256;
    let b5: u64 = b4 / 256;
    let b6: u64 = b5 / 256;
    let b7: u64 = b6 / 256;
    let s: [u8; 9] = [
        0xcb,
        (b7 % 256) as u8,
        (b6 % 256) as u8,
        (b5 % 256) as u8,
        (b4 % 256) as u8,
        (b3 % 256) as u8,
        (b2 % 256) as u8,
        (b1 % 256) as u8,
        (bits % 256) as u8,
    ];
    out.extend_from_slice(&s);
    proof {
        reveal_with_fuel(be_bytes, 2);
        assert(be_bytes(b7 as nat, 1) =~= s@.subrange(1, 2));
        assert(be_bytes(b6 as nat, 2) =~= s@.subrange(1, 3));
        assert(be_bytes(b5 as nat, 3) =~= s@.subrange(1, 4));
        assert(be_bytes(b4 as nat, 4) =~= s@.subrange(1, 5));
        assert(be_bytes(b3 as nat, 5) =~= s@.subrange(1, 6));
        assert(be_bytes(b2 as nat, 6) =~= s@.subrange(1, 7));
        assert(be_bytes(b1 as nat, 7) =~= s@.subrange(1, 8));
        assert(be_bytes(bits as nat, 8) =~= s@.subrange(1, 9));
        assert(out@ =~= old(out)@ + double_bytes(bits));
    }
}

/// Append one already-validated value without changing its wire type.
pub fn append_raw(out: &mut Vec<u8>, value: &[u8])
    ensures
        final(out)@ == old(out)@ + value@,
{
    out.extend_from_slice(value);
    assert(out@ =~= old(out)@ + value@);
}

/// Length of an array header.
pub fn array_header_len(n: usize) -> (r: usize)
    ensures
        r == array_header((n as u32) as nat).len(),
{
    proof {
        reveal(array_header);
    }
    proof {
        reveal_with_fuel(be_bytes, 5);
    }
    let n: u32 = n as u32;
    if n < 16 {
        1
    } else if n < 0x1_0000 {
        3
    } else {
        5
    }
}

/// Length of a bin header.
pub fn bin_header_len(n: usize) -> (r: usize)
    ensures
        r == bin_head((n as u32) as nat).len(),
{
    proof {
        reveal(bin_head);
    }
    proof {
        reveal_with_fuel(be_bytes, 5);
    }
    let n: u32 = n as u32;
    if n < 0x100 {
        2
    } else if n < 0x1_0000 {
        3
    } else {
        5
    }
}

// ---------------------------------------------------------------------------
// Readers
// ---------------------------------------------------------------------------

fn take<'a>(d: &'a [u8], p: &mut usize, n: usize) -> (r: Result<&'a [u8], Error>)
    ensures
        match take_at(d@, *old(p) as int, n as int) {
            Ok((s, q)) => r is Ok && r->Ok_0@ == s && *final(p) == q,
            Err(e) => r == Err::<&[u8], Error>(e) && *final(p) == *old(p),
        },
{
    match p.checked_add(n) {
        None => Err(Error::Overflow),
        Some(e) => {
            if e > d.len() {
                Err(Error::Truncated)
            } else {
                let v = slice_subrange(d, *p, e);
                *p = e;
                Ok(v)
            }
        },
    }
}

/// The number in one, two or four bytes.
fn be_number(s: &[u8]) -> (r: u32)
    requires
        s@.len() == 1 || s@.len() == 2 || s@.len() == 4,
    ensures
        r == be_value(s@),
        s@.len() == 1 ==> r < 0x100,
        s@.len() == 2 ==> r < 0x1_0000,
{
    proof {
        reveal_with_fuel(be_value, 5);
    }
    if s.len() == 1 {
        s[0] as u32
    } else if s.len() == 2 {
        s[0] as u32 * 256 + s[1] as u32
    } else {
        ((s[0] as u32 * 256 + s[1] as u32) * 256 + s[2] as u32) * 256 + s[3] as u32
    }
}

/// Inspect the kind of the value at `p` without consuming it.
pub fn peek_kind(d: &[u8], p: usize) -> (r: Result<Kind, Error>)
    ensures
        r == kind_at(d@, p as int),
{
    proof {
        reveal(kind_of);
    }
    if p >= d.len() {
        return Err(Error::Truncated);
    }
    let m: u8 = d[p];
    Ok(
        if m == 0xc0 {
            Kind::Nil
        } else if m == 0xc2 {
            Kind::False
        } else if m == 0xc3 {
            Kind::True
        } else if (0x90 <= m && m <= 0x9f) || m == 0xdc || m == 0xdd {
            Kind::Array
        } else if (0x80 <= m && m <= 0x8f) || m == 0xde || m == 0xdf {
            Kind::Mapping
        } else if (0xa0 <= m && m <= 0xbf) || m == 0xd9 || m == 0xda || m == 0xdb {
            Kind::Str
        } else if m == 0xca || m == 0xcb {
            Kind::Float
        } else {
            Kind::Other
        },
    )
}

pub fn array_len(d: &[u8], p: &mut usize) -> (r: Result<usize, Error>)
    ensures
        match array_len_at(d@, *old(p) as int) {
            Ok((n, q)) => r == Ok::<usize, Error>(n as usize) && n <= u32::MAX && *final(p) == q,
            Err(e) => r == Err::<usize, Error>(e) && *final(p) == *old(p),
        },
{
    proof {
        reveal(array_len_at);
    }
    if *p > d.len() {
        return Err(Error::Truncated);
    }
    let (n, used) = rmp_read_array_len(d, *p)?;
    *p = *p + used as usize;
    Ok(n as usize)
}

pub fn map_len(d: &[u8], p: &mut usize) -> (r: Result<usize, Error>)
    ensures
        match map_len_at(d@, *old(p) as int) {
            Ok((n, q)) => r == Ok::<usize, Error>(n as usize) && n <= u32::MAX && *final(p) == q,
            Err(e) => r == Err::<usize, Error>(e) && *final(p) == *old(p),
        },
{
    proof {
        reveal(map_len_at);
    }
    if *p > d.len() {
        return Err(Error::Truncated);
    }
    let (n, used) = rmp_read_map_len(d, *p)?;
    *p = *p + used as usize;
    Ok(n as usize)
}

/// On an error the cursor stands before the header, or behind it where only
/// the payload is missing.
pub fn read_bin<'a>(d: &'a [u8], p: &mut usize) -> (r: Result<&'a [u8], Error>)
    ensures
        match bin_at(d@, *old(p) as int) {
            Ok((s, q)) => r is Ok && r->Ok_0@ == s && *final(p) == q,
            Err(e) => r == Err::<&[u8], Error>(e) && *final(p) == (
            if bin_len_at(d@, *old(p) as int) is Ok {
                bin_len_at(d@, *old(p) as int)->Ok_0.1
            } else {
                *old(p) as int
            }),
        },
{
    proof {
        reveal(bin_len_at);
    }
    if *p > d.len() {
        return Err(Error::Truncated);
    }
    let (n, used) = rmp_read_bin_len(d, *p)?;
    *p = *p + used as usize;
    take(d, p, n as usize)
}

/// The cursor moves behind the payload also where it is not valid UTF-8.
pub fn read_str<'a>(d: &'a [u8], p: &mut usize) -> (r: Result<&'a str, Error>)
    ensures
        match str_at(d@, *old(p) as int) {
            Ok((s, q)) => r is Ok && vstd::utf8::encode_utf8(r->Ok_0@) == s && *final(p) == q,
            Err(e) => r == Err::<&str, Error>(e) && *old(p) <= *final(p),
        },
{
    proof {
        reveal(str_len_at);
    }
    if *p > d.len() {
        return Err(Error::Truncated);
    }
    let (n, used) = rmp_read_str_len(d, *p)?;
    *p = *p + used as usize;
    let s = take(d, p, n as usize)?;
    match from_utf8(s) {
        Some(v) => Ok(v),
        None => Err(Error::Type),
    }
}

/// A binary64 value, as its bit pattern.
pub fn read_f64(d: &[u8], p: &mut usize) -> (r: Result<u64, Error>)
    ensures
        match double_at(d@, *old(p) as int) {
            Ok((v, q)) => r == Ok::<u64, Error>(v) && *final(p) == q,
            Err(e) => r == Err::<u64, Error>(e) && *final(p) == *old(p),
        },
{
    proof {
        reveal(double_at);
    }
    if *p >= d.len() {
        return Err(Error::Truncated);
    }
    if d[*p] != 0xcb {
        return Err(Error::Type);
    }
    if d.len() - *p < 9 {
        return Err(Error::Truncated);
    }
    let ghost s = d@.subrange(*p + 1, *p + 9);
    let hi: u64 = be_number(slice_subrange(d, *p + 1, *p + 5)) as u64;
    let lo: u64 = be_number(slice_subrange(d, *p + 5, *p + 9)) as u64;
    proof {
        lemma_be_value_halves(s);
        assert(s.subrange(0, 4) =~= d@.subrange(*p + 1, *p + 5));
        assert(s.subrange(4, 8) =~= d@.subrange(*p + 5, *p + 9));
    }
    *p = *p + 9;
    Ok(hi * 0x1_0000_0000 + lo)
}

proof fn lemma_be_value_halves(s: Seq<u8>)
    requires
        s.len() == 8,
    ensures
        be_value(s) == be_value(s.subrange(0, 4)) * 0x1_0000_0000 + be_value(s.subrange(4, 8)),
        be_value(s) <= u64::MAX,
{
    reveal_with_fuel(be_value, 9);
    let hi = s.subrange(0, 4);
    let lo = s.subrange(4, 8);
    assert(be_value(lo) == ((lo[0] * 256 + lo[1]) * 256 + lo[2]) * 256 + lo[3]);
    assert(s.drop_last().drop_last().drop_last().drop_last() =~= hi);
}

impl Number {
    /// The number as a binary64 pattern; an integer is rounded to the nearest.
    pub fn as_f64(self) -> (r: u64)
        ensures
            r == number_bits(self),
    {
        match self {
            Number::Int(v) => ieee::from_i64(v),
            Number::Float(bits) => bits,
        }
    }
}

/// Read any numeric representation, keeping its family.
///
/// Non-numeric markers give [`Error::Type`]; an unsigned value above
/// `i64::MAX` gives [`Error::Overflow`].
pub fn read_number(d: &[u8], p: &mut usize) -> (r: Result<Number, Error>)
    ensures
        match number_at(d@, *old(p) as int) {
            Ok((v, q)) => r == Ok::<Number, Error>(v) && *final(p) == q,
            Err(e) => r == Err::<Number, Error>(e) && *old(p) <= *final(p) <= *old(p) + 1,
        },
{
    if *p >= d.len() {
        return Err(Error::Truncated);
    }
    let m: u8 = d[*p];
    if m == 0xca {
        *p = *p + 1;
        let s = take(d, p, 4)?;
        Ok(Number::Float(ieee::widen(be_number(s))))
    } else if m == 0xcb {
        let bits: u64 = read_f64(d, p)?;
        Ok(Number::Float(bits))
    } else {
        let v: i64 = read_int(d, p)?;
        Ok(Number::Int(v))
    }
}

/// Read any numeric representation as a binary64 pattern.
pub fn read_number_f64(d: &[u8], p: &mut usize) -> (r: Result<u64, Error>)
    ensures
        match number_bits_at(d@, *old(p) as int) {
            Ok((v, q)) => r == Ok::<u64, Error>(v) && *final(p) == q,
            Err(e) => r == Err::<u64, Error>(e) && *old(p) <= *final(p) <= *old(p) + 1,
        },
{
    let n = read_number(d, p)?;
    Ok(n.as_f64())
}

pub fn read_bool(d: &[u8], p: &mut usize) -> (r: Result<bool, Error>)
    ensures
        match bool_at(d@, *old(p) as int) {
            Ok((v, q)) => r == Ok::<bool, Error>(v) && *final(p) == q,
            Err(e) => r == Err::<bool, Error>(e) && *final(p) == (if e is Type {
                *old(p) + 1
            } else {
                *old(p) as int
            }),
        },
{
    let s = take(d, p, 1)?;
    let m: u8 = s[0];
    if m == 0xc2 {
        Ok(false)
    } else if m == 0xc3 {
        Ok(true)
    } else {
        Err(Error::Type)
    }
}

pub fn read_nil(d: &[u8], p: &mut usize) -> (r: Result<(), Error>)
    ensures
        match nil_at(d@, *old(p) as int) {
            Ok((v, q)) => r == Ok::<(), Error>(v) && *final(p) == q,
            Err(e) => r == Err::<(), Error>(e) && *final(p) == (if e is Type {
                *old(p) + 1
            } else {
                *old(p) as int
            }),
        },
{
    let s = take(d, p, 1)?;
    if s[0] == 0xc0 {
        Ok(())
    } else {
        Err(Error::Type)
    }
}

pub fn read_uint(d: &[u8], p: &mut usize) -> (r: Result<u64, Error>)
    ensures
        match uint_at(d@, *old(p) as int) {
            Ok((v, q)) => r == Ok::<u64, Error>(v) && *final(p) == q,
            Err(e) => r == Err::<u64, Error>(e) && *final(p) == *old(p),
        },
{
    proof {
        reveal(int_at);
    }
    if *p > d.len() {
        return Err(Error::Truncated);
    }
    let (v, used) = rmp_read_uint(d, *p)?;
    *p = *p + used as usize;
    Ok(v)
}

pub fn read_int(d: &[u8], p: &mut usize) -> (r: Result<i64, Error>)
    ensures
        match sint_at(d@, *old(p) as int) {
            Ok((v, q)) => r == Ok::<i64, Error>(v) && *final(p) == q,
            Err(e) => r == Err::<i64, Error>(e) && *final(p) == *old(p),
        },
{
    proof {
        reveal(int_at);
    }
    if *p > d.len() {
        return Err(Error::Truncated);
    }
    let (v, used) = rmp_read_sint(d, *p)?;
    *p = *p + used as usize;
    Ok(v)
}

fn shape(m: u8) -> (r: Shape)
    ensures
        r == shape_of(m),
{
    if m < 0x80 || m >= 0xe0 {
        Shape::Fixed(0)
    } else if m < 0x90 {
        Shape::Items(2 * (m - 0x80) as u64)
    } else if m < 0xa0 {
        Shape::Items((m - 0x90) as u64)
    } else if m < 0xc0 {
        Shape::Fixed((m - 0xa0) as usize)
    } else {
        match m {
            0xc0 | 0xc2 | 0xc3 => Shape::Fixed(0),
            0xc1 => Shape::Invalid,
            0xc4 | 0xd9 => Shape::Sized(1, 0),
            0xc5 | 0xda => Shape::Sized(2, 0),
            0xc6 | 0xdb => Shape::Sized(4, 0),
            0xc7 => Shape::Sized(1, 1),
            0xc8 => Shape::Sized(2, 1),
            0xc9 => Shape::Sized(4, 1),
            0xcc | 0xd0 => Shape::Fixed(1),
            0xcd | 0xd1 => Shape::Fixed(2),
            0xca | 0xce | 0xd2 => Shape::Fixed(4),
            0xcb | 0xcf | 0xd3 => Shape::Fixed(8),
            0xd4 => Shape::Fixed(2),
            0xd5 => Shape::Fixed(3),
            0xd6 => Shape::Fixed(5),
            0xd7 => Shape::Fixed(9),
            0xd8 => Shape::Fixed(17),
            0xdc => Shape::Counted(2, 1),
            0xdd => Shape::Counted(4, 1),
            0xde => Shape::Counted(2, 2),
            _ => Shape::Counted(4, 2),
        }
    }
}

/// Skip a single value at the current position.
///
/// Nesting is capped at `MAX_SKIP_DEPTH`: a container nested deeper returns
/// [`Error::Depth`]. On an error the cursor stands behind the last part of the
/// value that could be read.
pub fn skip(d: &[u8], p: &mut usize) -> (r: Result<(), Error>)
    ensures
        match skip_at(d@, *old(p) as int, MAX_SKIP_DEPTH as nat) {
            Ok(q) => r is Ok && *final(p) == q,
            Err(e) => r == Err::<(), Error>(e),
        },
        *final(p) == stop_at(d@, *old(p) as int, MAX_SKIP_DEPTH as nat),
        *old(p) <= *final(p),
        *final(p) <= d@.len() || *final(p) == *old(p),
{
    skip_depth(d, p, MAX_SKIP_DEPTH)
}

/// Depth-limited body of [`skip`]. `depth` is the remaining nesting budget.
fn skip_depth(d: &[u8], p: &mut usize, depth: usize) -> (r: Result<(), Error>)
    ensures
        match skip_at(d@, *old(p) as int, depth as nat) {
            Ok(q) => r is Ok && *final(p) == q,
            Err(e) => r == Err::<(), Error>(e),
        },
        *final(p) == stop_at(d@, *old(p) as int, depth as nat),
        *old(p) <= *final(p),
        *final(p) <= d@.len() || *final(p) == *old(p),
    decreases depth, 0nat,
{
    let m: u8 = take(d, p, 1)?[0];
    match shape(m) {
        Shape::Fixed(n) => {
            let _ = take(d, p, n)?;
            Ok(())
        },
        Shape::Sized(w, extra) => {
            let s = take(d, p, w)?;
            let n: usize = be_number(s) as usize;
            match n.checked_add(extra) {
                None => Err(Error::Overflow),
                Some(k) => {
                    let _ = take(d, p, k)?;
                    Ok(())
                },
            }
        },
        Shape::Items(n) => {
            if depth == 0 {
                return Err(Error::Depth);
            }
            skip_values(d, p, n, depth - 1)
        },
        Shape::Counted(w, each) => {
            let s = take(d, p, w)?;
            let n: u64 = be_number(s) as u64;
            if depth == 0 {
                return Err(Error::Depth);
            }
            skip_values(d, p, n * each, depth - 1)
        },
        Shape::Invalid => Err(Error::Type),
    }
}

/// Skip `n` consecutive values, each with the nesting budget `depth`.
pub(crate) fn skip_values(d: &[u8], p: &mut usize, n: u64, depth: usize) -> (r: Result<(), Error>)
    ensures
        match skip_many_at(d@, *old(p) as int, n as nat, depth as nat) {
            Ok(q) => r is Ok && *final(p) == q,
            Err(e) => r == Err::<(), Error>(e),
        },
        *final(p) == stop_many_at(d@, *old(p) as int, n as nat, depth as nat),
        *old(p) <= *final(p),
        *final(p) <= d@.len() || *final(p) == *old(p),
    decreases depth, 1nat,
{
    let mut i: u64 = 0;
    while i < n
        invariant
            0 <= i <= n,
            *old(p) <= *p,
            *p <= d@.len() || *p == *old(p),
            skip_many_at(d@, *old(p) as int, n as nat, depth as nat) == skip_many_at(
                d@,
                *p as int,
                (n - i) as nat,
                depth as nat,
            ),
            stop_many_at(d@, *old(p) as int, n as nat, depth as nat) == stop_many_at(
                d@,
                *p as int,
                (n - i) as nat,
                depth as nat,
            ),
        decreases n - i,
    {
        skip_depth(d, p, depth)?;
        i = i + 1;
    }
    Ok(())
}

/// A number of `w` bytes.
proof fn lemma_be_value_limit(s: Seq<u8>)
    ensures
        be_value(s) < be_limit(s.len()),
    decreases s.len(),
{
    if s.len() > 0 {
        lemma_be_value_limit(s.drop_last());
    }
}

/// A count on the wire has at most 32 bits.
pub proof fn lemma_array_len_limit(d: Seq<u8>, p: int)
    requires
        0 <= p,
    ensures
        array_len_at(d, p) matches Ok((n, q)) ==> n <= u32::MAX && p < q <= d.len(),
{
    reveal(array_len_at);
    lemma_be_limits();
    if p + 3 <= d.len() {
        lemma_be_value_limit(d.subrange(p + 1, p + 3));
    }
    if p + 5 <= d.len() {
        lemma_be_value_limit(d.subrange(p + 1, p + 5));
    }
}

/// Skipping no values stays in place.
pub proof fn lemma_skip_none(d: Seq<u8>, p: int, depth: nat)
    ensures
        skip_many_at(d, p, 0, depth) == Ok::<int, Error>(p),
{
}

/// One value of any kind, as its wire bytes.
pub fn raw<'a>(d: &'a [u8], p: &mut usize) -> (r: Result<&'a [u8], Error>)
    ensures
        match raw_at(d@, *old(p) as int) {
            Ok((s, q)) => r is Ok && r->Ok_0@ == s && *final(p) == q,
            Err(e) => r == Err::<&[u8], Error>(e) && *old(p) <= *final(p),
        },
        *final(p) == stop_at(d@, *old(p) as int, MAX_SKIP_DEPTH as nat),
{
    let s: usize = *p;
    skip(d, p)?;
    proof {
        lemma_skip_bounds(d@, s as int, MAX_SKIP_DEPTH as nat);
    }
    Ok(slice_subrange(d, s, *p))
}

/// A value that can be skipped ends inside the input.
pub proof fn lemma_skip_bounds(d: Seq<u8>, p: int, depth: nat)
    requires
        0 <= p,
    ensures
        skip_at(d, p, depth) matches Ok(q) ==> p < q <= d.len(),
    decreases depth, 0nat,
{
    match take_at(d, p, 1) {
        Err(_) => {},
        Ok((m, q)) => match shape_of(m[0]) {
            Shape::Items(n) => {
                if depth > 0 {
                    lemma_skip_many_bounds(d, q, n as nat, (depth - 1) as nat);
                }
            },
            Shape::Counted(w, each) => {
                if depth > 0 {
                    if let Ok((s, t)) = take_at(d, q, w as int) {
                        lemma_skip_many_bounds(
                            d,
                            t,
                            be_value(s) * each as nat,
                            (depth - 1) as nat,
                        );
                    }
                }
            },
            _ => {},
        },
    }
}

proof fn lemma_skip_many_bounds(d: Seq<u8>, p: int, n: nat, depth: nat)
    requires
        0 <= p <= d.len(),
    ensures
        skip_many_at(d, p, n, depth) matches Ok(q) ==> p <= q <= d.len(),
    decreases depth, n + 1,
{
    if n > 0 {
        lemma_skip_bounds(d, p, depth);
        if let Ok(q) = skip_at(d, p, depth) {
            lemma_skip_many_bounds(d, q, (n - 1) as nat, depth);
        }
    }
}

// ---------------------------------------------------------------------------
// Laws: a reader gives back what a writer wrote
// ---------------------------------------------------------------------------

/// The bytes `s` stand at position `p` of `d`.
pub open spec fn at(d: Seq<u8>, p: int, s: Seq<u8>) -> bool {
    &&& 0 <= p
    &&& p + s.len() <= d.len() <= usize::MAX
    &&& d.subrange(p, p + s.len()) == s
}

/// Two byte strings stand at `p` one after the other exactly if their
/// concatenation does.
pub proof fn lemma_at_concat(d: Seq<u8>, p: int, a: Seq<u8>, b: Seq<u8>)
    requires
        at(d, p, a + b),
    ensures
        at(d, p, a),
        at(d, p + a.len(), b),
{
    let ab = d.subrange(p, p + a.len() + b.len());
    assert(ab.subrange(0, a.len() as int) =~= a);
    assert(ab.subrange(a.len() as int, (a + b).len() as int) =~= b);
    assert(d.subrange(p, p + a.len()) =~= ab.subrange(0, a.len() as int));
    assert(d.subrange(p + a.len(), p + a.len() + b.len()) =~= ab.subrange(
        a.len() as int,
        (a + b).len() as int,
    ));
}

/// The bytes of `d` stand in `d`.
pub proof fn lemma_at_whole(d: Seq<u8>)
    requires
        d.len() <= usize::MAX,
    ensures
        at(d, 0, d),
{
    assert(d.subrange(0, d.len() as int) =~= d);
}

/// Big-endian bytes stand for the number they were made from.
pub proof fn lemma_be_round_trip(v: nat, w: nat)
    ensures
        be_bytes(v, w).len() == w,
        v < be_limit(w) ==> be_value(be_bytes(v, w)) == v,
    decreases w,
{
    if w > 0 {
        lemma_be_round_trip(v / 256, (w - 1) as nat);
        assert(be_bytes(v, w).drop_last() =~= be_bytes(v / 256, (w - 1) as nat));
    }
}

pub proof fn lemma_be_limits()
    ensures
        be_limit(0) == 1,
        be_limit(1) == 0x100,
        be_limit(2) == 0x1_0000,
        be_limit(4) == 0x1_0000_0000,
        be_limit(8) == 0x1_0000_0000_0000_0000,
{
    reveal_with_fuel(be_limit, 9);
}

proof fn lemma_be_at(d: Seq<u8>, p: int, m: u8, v: nat, w: nat)
    requires
        at(d, p, seq![m] + be_bytes(v, w)),
        v < be_limit(w),
    ensures
        p < d.len(),
        d[p] == m,
        be_at(d, p + 1, w as int) == Ok::<(nat, int), Error>((v, p + 1 + w)),
        (seq![m] + be_bytes(v, w)).len() == 1 + w,
{
    lemma_be_round_trip(v, w);
    lemma_at_concat(d, p, seq![m], be_bytes(v, w));
    assert(d[p] == d.subrange(p, p + 1)[0]);
}

proof fn lemma_first(d: Seq<u8>, p: int, m: u8)
    requires
        at(d, p, seq![m]),
    ensures
        p < d.len(),
        d[p] == m,
{
    assert(d[p] == d.subrange(p, p + 1)[0]);
}

/// Reading an array header gives back the count that was written.
pub proof fn law_array_header(d: Seq<u8>, p: int, n: nat)
    requires
        at(d, p, array_header(n)),
        n <= u32::MAX,
    ensures
        array_len_at(d, p) == Ok::<(nat, int), Error>((n, p + array_header(n).len())),
        kind_at(d, p) == Ok::<Kind, Error>(Kind::Array),
        1 <= array_header(n).len() <= 5,
{
    reveal(array_header);
    reveal(array_len_at);
    reveal(kind_of);
    lemma_be_limits();
    if n < 16 {
        lemma_first(d, p, (0x90 + n) as u8);
    } else if n < 0x1_0000 {
        lemma_be_at(d, p, 0xdc, n, 2);
    } else {
        lemma_be_at(d, p, 0xdd, n, 4);
    }
}

/// Reading a map header gives back the count that was written.
pub proof fn law_map_header(d: Seq<u8>, p: int, n: nat)
    requires
        at(d, p, map_header(n)),
        n <= u32::MAX,
    ensures
        map_len_at(d, p) == Ok::<(nat, int), Error>((n, p + map_header(n).len())),
        kind_at(d, p) == Ok::<Kind, Error>(Kind::Mapping),
        1 <= map_header(n).len() <= 5,
{
    reveal(map_header);
    reveal(map_len_at);
    reveal(kind_of);
    lemma_be_limits();
    if n < 16 {
        lemma_first(d, p, (0x80 + n) as u8);
    } else if n < 0x1_0000 {
        lemma_be_at(d, p, 0xde, n, 2);
    } else {
        lemma_be_at(d, p, 0xdf, n, 4);
    }
}

proof fn lemma_bin_head(d: Seq<u8>, p: int, n: nat)
    requires
        at(d, p, bin_head(n)),
        n <= u32::MAX,
    ensures
        bin_len_at(d, p) == Ok::<(nat, int), Error>((n, p + bin_head(n).len())),
        kind_at(d, p) == Ok::<Kind, Error>(Kind::Other),
        2 <= bin_head(n).len() <= 5,
{
    reveal(bin_head);
    reveal(bin_len_at);
    reveal(kind_of);
    lemma_be_limits();
    if n < 0x100 {
        lemma_be_at(d, p, 0xc4, n, 1);
    } else if n < 0x1_0000 {
        lemma_be_at(d, p, 0xc5, n, 2);
    } else {
        lemma_be_at(d, p, 0xc6, n, 4);
    }
}

/// Reading a bin value gives back the bytes that were written, and skipping it
/// ends behind them.
pub proof fn law_bin(d: Seq<u8>, p: int, v: Seq<u8>, depth: nat)
    requires
        at(d, p, bin_bytes(v)),
        v.len() <= u32::MAX,
    ensures
        bin_at(d, p) == Ok::<(Seq<u8>, int), Error>((v, p + bin_bytes(v).len())),
        kind_at(d, p) == Ok::<Kind, Error>(Kind::Other),
        skip_at(d, p, depth) == Ok::<int, Error>(p + bin_bytes(v).len()),
{
    reveal(bin_head);
    reveal(bin_len_at);
    reveal(kind_of);
    lemma_at_concat(d, p, bin_head(v.len()), v);
    lemma_bin_head(d, p, v.len());
    lemma_be_limits();
    lemma_skip_at(d, p, depth);
    let n = v.len();
    if n < 0x100 {
        lemma_be_at(d, p, 0xc4, n, 1);
    } else if n < 0x1_0000 {
        lemma_be_at(d, p, 0xc5, n, 2);
    } else {
        lemma_be_at(d, p, 0xc6, n, 4);
    }
    assert(d.subrange(p, p + 1)[0] == d[p]);
}

/// Reading a str value gives back the UTF-8 bytes that were written.
pub proof fn law_str(d: Seq<u8>, p: int, v: Seq<u8>)
    requires
        at(d, p, str_bytes(v)),
        v.len() <= u32::MAX,
        vstd::utf8::valid_utf8(v),
    ensures
        str_at(d, p) == Ok::<(Seq<u8>, int), Error>((v, p + str_bytes(v).len())),
        kind_at(d, p) == Ok::<Kind, Error>(Kind::Str),
{
    reveal(str_head);
    reveal(str_len_at);
    reveal(kind_of);
    lemma_at_concat(d, p, str_head(v.len()), v);
    lemma_be_limits();
    let n = v.len();
    if n < 32 {
        lemma_first(d, p, (0xa0 + n) as u8);
    } else if n < 0x100 {
        lemma_be_at(d, p, 0xd9, n, 1);
    } else if n < 0x1_0000 {
        lemma_be_at(d, p, 0xda, n, 2);
    } else {
        lemma_be_at(d, p, 0xdb, n, 4);
    }
}

/// Reading an integer gives back the number that was written, and skipping it
/// ends behind it.
pub proof fn law_int(d: Seq<u8>, p: int, v: int, depth: nat)
    requires
        at(d, p, int_bytes(v)),
        i64::MIN <= v <= u64::MAX,
    ensures
        int_at(d, p) == Ok::<(int, int), Error>((v, p + int_bytes(v).len())),
        kind_at(d, p) == Ok::<Kind, Error>(Kind::Other),
        skip_at(d, p, depth) == Ok::<int, Error>(p + int_bytes(v).len()),
        1 <= int_bytes(v).len() <= 9,
{
    reveal(uint_bytes);
    reveal(negative_bytes);
    reveal(int_at);
    reveal(kind_of);
    lemma_be_limits();
    lemma_skip_at(d, p, depth);
    if v >= 0 {
        let v = v as nat;
        if v < 0x80 {
            lemma_first(d, p, v as u8);
        } else if v < 0x100 {
            lemma_be_at(d, p, 0xcc, v, 1);
        } else if v < 0x1_0000 {
            lemma_be_at(d, p, 0xcd, v, 2);
        } else if v < 0x1_0000_0000 {
            lemma_be_at(d, p, 0xce, v, 4);
        } else {
            lemma_be_at(d, p, 0xcf, v, 8);
        }
    } else if v >= -32 {
        lemma_first(d, p, (v + 0x100) as u8);
    } else if v >= -0x80 {
        lemma_be_at(d, p, 0xd0, (v + 0x100) as nat, 1);
    } else if v >= -0x8000 {
        lemma_be_at(d, p, 0xd1, (v + 0x1_0000) as nat, 2);
    } else if v >= -0x8000_0000 {
        lemma_be_at(d, p, 0xd2, (v + 0x1_0000_0000) as nat, 4);
    } else {
        lemma_be_at(d, p, 0xd3, (v + 0x1_0000_0000_0000_0000) as nat, 8);
    }
    assert(d.subrange(p, p + 1)[0] == d[p]);
}

/// Reading an unsigned number gives back the number that was written.
pub proof fn law_uint(d: Seq<u8>, p: int, v: u64)
    requires
        at(d, p, uint_bytes(v as nat)),
    ensures
        uint_at(d, p) == Ok::<(u64, int), Error>((v, p + uint_bytes(v as nat).len())),
        kind_at(d, p) == Ok::<Kind, Error>(Kind::Other),
        d[p] != 0xc0,
        1 <= uint_bytes(v as nat).len() <= 9,
{
    reveal(int_at);
    reveal(uint_bytes);
    law_int(d, p, v as int, 0);
}

/// Reading a binary64 value gives back the bit pattern that was written.
pub proof fn law_double(d: Seq<u8>, p: int, bits: u64, depth: nat)
    requires
        at(d, p, double_bytes(bits)),
    ensures
        double_at(d, p) == Ok::<(u64, int), Error>((bits, p + 9)),
        number_at(d, p) == Ok::<(Number, int), Error>((Number::Float(bits), p + 9)),
        number_bits_at(d, p) == Ok::<(u64, int), Error>((bits, p + 9)),
        kind_at(d, p) == Ok::<Kind, Error>(Kind::Float),
        skip_at(d, p, depth) == Ok::<int, Error>(p + 9),
        double_bytes(bits).len() == 9,
{
    reveal(double_bytes);
    reveal(double_at);
    reveal(kind_of);
    lemma_be_limits();
    lemma_be_at(d, p, 0xcb, bits as nat, 8);
    lemma_skip_at(d, p, depth);
    assert(d.subrange(p, p + 1)[0] == d[p]);
}

/// Reading nil succeeds on what was written for it.
pub proof fn law_nil(d: Seq<u8>, p: int, depth: nat)
    requires
        at(d, p, nil_bytes()),
    ensures
        nil_at(d, p) == Ok::<((), int), Error>(((), p + 1)),
        kind_at(d, p) == Ok::<Kind, Error>(Kind::Nil),
        skip_at(d, p, depth) == Ok::<int, Error>(p + 1),
        d[p] == 0xc0,
{
    reveal(kind_of);
    lemma_first(d, p, 0xc0);
    lemma_skip_at(d, p, depth);
    assert(d.subrange(p, p + 1)[0] == d[p]);
}

/// Reading a boolean gives back the boolean that was written.
pub proof fn law_bool(d: Seq<u8>, p: int, v: bool, depth: nat)
    requires
        at(d, p, bool_bytes(v)),
    ensures
        bool_at(d, p) == Ok::<(bool, int), Error>((v, p + 1)),
        kind_at(d, p) == Ok::<Kind, Error>(if v {
            Kind::True
        } else {
            Kind::False
        }),
        skip_at(d, p, depth) == Ok::<int, Error>(p + 1),
{
    reveal(kind_of);
    lemma_first(
        d,
        p,
        if v {
            0xc3
        } else {
            0xc2
        },
    );
    lemma_skip_at(d, p, depth);
    assert(d.subrange(p, p + 1)[0] == d[p]);
}

/// A container whose `n` items can be skipped one after the other up to `q` is
/// itself skipped up to `q`, given one more level of nesting.
pub proof fn law_skip_array(d: Seq<u8>, p: int, n: nat, depth: nat)
    requires
        at(d, p, array_header(n)),
        n <= u32::MAX,
    ensures
        skip_at(d, p, depth + 1) == skip_many_at(d, p + array_header(n).len(), n, depth),
        skip_at(d, p, 0) == Err::<int, Error>(Error::Depth),
{
    reveal(array_header);
    lemma_be_limits();
    lemma_skip_at(d, p, depth + 1);
    lemma_skip_at(d, p, 0);
    if n < 16 {
        lemma_first(d, p, (0x90 + n) as u8);
    } else if n < 0x1_0000 {
        lemma_be_at(d, p, 0xdc, n, 2);
        assert(n * 1 == n);
    } else {
        lemma_be_at(d, p, 0xdd, n, 4);
        assert(n * 1 == n);
    }
    assert(d.subrange(p, p + 1)[0] == d[p]);
}

/// Skipping some values and then some more is skipping all of them.
pub proof fn law_skip_many_split(d: Seq<u8>, p: int, a: nat, b: nat, depth: nat)
    ensures
        skip_many_at(d, p, a + b, depth) == (match skip_many_at(d, p, a, depth) {
            Ok(q) => skip_many_at(d, q, b, depth),
            Err(e) => Err(e),
        }),
    decreases a,
{
    lemma_skip_many_at(d, p, a, depth);
    lemma_skip_many_at(d, p, a + b, depth);
    if a > 0 {
        if let Ok(q) = skip_at(d, p, depth) {
            law_skip_many_split(d, q, (a - 1) as nat, b, depth);
        }
    }
}

/// A deeper nesting budget changes nothing for a value that fits a smaller one.
pub proof fn law_skip_depth_monotone(d: Seq<u8>, p: int, a: nat, b: nat)
    requires
        a <= b,
        skip_at(d, p, a) is Ok,
    ensures
        skip_at(d, p, b) == skip_at(d, p, a),
    decreases a, 0nat,
{
    lemma_skip_at(d, p, a);
    lemma_skip_at(d, p, b);
    match take_at(d, p, 1) {
        Err(_) => {},
        Ok((m, q)) => match shape_of(m[0]) {
            Shape::Items(n) => {
                lemma_skip_many_monotone(d, q, n as nat, (a - 1) as nat, (b - 1) as nat);
            },
            Shape::Counted(w, each) => {
                if let Ok((s, t)) = take_at(d, q, w as int) {
                    lemma_skip_many_monotone(
                        d,
                        t,
                        be_value(s) * each as nat,
                        (a - 1) as nat,
                        (b - 1) as nat,
                    );
                }
            },
            _ => {},
        },
    }
}

proof fn lemma_skip_many_monotone(d: Seq<u8>, p: int, n: nat, a: nat, b: nat)
    requires
        a <= b,
        skip_many_at(d, p, n, a) is Ok,
    ensures
        skip_many_at(d, p, n, b) == skip_many_at(d, p, n, a),
    decreases a, n + 1,
{
    if n > 0 {
        law_skip_depth_monotone(d, p, a, b);
        if let Ok(q) = skip_at(d, p, a) {
            lemma_skip_many_monotone(d, q, (n - 1) as nat, a, b);
        }
    }
}


/// Skipping looks at nothing but the bytes of the value: the same bytes at
/// another place are skipped the same way.
pub proof fn law_skip_local(v: Seq<u8>, d: Seq<u8>, p: int, i: int, depth: nat)
    requires
        at(d, p, v),
        0 <= i,
        skip_at(v, i, depth) is Ok,
    ensures
        skip_at(d, p + i, depth) == Ok::<int, Error>(p + skip_at(v, i, depth)->Ok_0),
    decreases depth, 0nat,
{
    lemma_skip_at(v, i, depth);
    lemma_skip_at(d, p + i, depth);
    lemma_skip_bounds(v, i, depth);
    let s = take_at(v, i, 1)->Ok_0.0;
    lemma_take_local(v, d, p, i, 1);
    match shape_of(s[0]) {
        Shape::Fixed(n) => {
            lemma_take_local(v, d, p, i + 1, n as int);
        },
        Shape::Sized(w, extra) => {
            lemma_take_local(v, d, p, i + 1, w as int);
            let t = take_at(v, i + 1, w as int)->Ok_0;
            lemma_take_local(v, d, p, t.1, be_value(t.0) + extra);
        },
        Shape::Items(n) => {
            lemma_skip_many_local(v, d, p, i + 1, n as nat, (depth - 1) as nat);
        },
        Shape::Counted(w, each) => {
            lemma_take_local(v, d, p, i + 1, w as int);
            let t = take_at(v, i + 1, w as int)->Ok_0;
            lemma_skip_many_local(
                v,
                d,
                p,
                t.1,
                be_value(t.0) * each as nat,
                (depth - 1) as nat,
            );
        },
        Shape::Invalid => {},
    }
}

proof fn lemma_take_local(v: Seq<u8>, d: Seq<u8>, p: int, i: int, n: int)
    requires
        at(d, p, v),
        0 <= i,
        0 <= n,
        take_at(v, i, n) is Ok,
    ensures
        take_at(d, p + i, n) == Ok::<(Seq<u8>, int), Error>(
            (take_at(v, i, n)->Ok_0.0, p + take_at(v, i, n)->Ok_0.1),
        ),
{
    assert(d.subrange(p + i, p + i + n) =~= d.subrange(p, p + v.len()).subrange(i, i + n));
}

proof fn lemma_skip_many_local(v: Seq<u8>, d: Seq<u8>, p: int, i: int, n: nat, depth: nat)
    requires
        at(d, p, v),
        0 <= i,
        skip_many_at(v, i, n, depth) is Ok,
    ensures
        skip_many_at(d, p + i, n, depth) == Ok::<int, Error>(
            p + skip_many_at(v, i, n, depth)->Ok_0,
        ),
    decreases depth, n + 1,
{
    lemma_skip_many_at(v, i, n, depth);
    lemma_skip_many_at(d, p + i, n, depth);
    if n > 0 {
        lemma_skip_bounds(v, i, depth);
        law_skip_local(v, d, p, i, depth);
        lemma_skip_many_local(v, d, p, skip_at(v, i, depth)->Ok_0, (n - 1) as nat, depth);
    }
}

/// What stands behind a value does not matter to skipping it: it may be cut
/// off, or more may follow.
pub proof fn law_skip_cut(d: Seq<u8>, p: int, e: int, depth: nat)
    requires
        0 <= p,
        skip_at(d, p, depth) matches Ok(q) && q <= e <= d.len(),
    ensures
        skip_at(d.take(e), p, depth) == skip_at(d, p, depth),
    decreases depth, 0nat,
{
    lemma_skip_at(d, p, depth);
    lemma_skip_at(d.take(e), p, depth);
    let c = d.take(e);
    lemma_skip_bounds(d, p, depth);
    lemma_take_cut(d, p, 1, e);
    let s = take_at(d, p, 1)->Ok_0.0;
    match shape_of(s[0]) {
        Shape::Fixed(n) => {
            lemma_take_cut(d, p + 1, n as int, e);
        },
        Shape::Sized(w, extra) => {
            lemma_take_cut(d, p + 1, w as int, e);
            let t = take_at(d, p + 1, w as int)->Ok_0;
            lemma_take_cut(d, t.1, be_value(t.0) + extra, e);
        },
        Shape::Items(n) => {
            lemma_skip_many_cut(d, p + 1, e, n as nat, (depth - 1) as nat);
        },
        Shape::Counted(w, each) => {
            let t = take_at(d, p + 1, w as int)->Ok_0;
            let n = be_value(t.0) * each as nat;
            lemma_skip_many_bounds(d, t.1, n, (depth - 1) as nat);
            lemma_take_cut(d, p + 1, w as int, e);
            lemma_skip_many_cut(d, t.1, e, n, (depth - 1) as nat);
        },
        Shape::Invalid => {},
    }
}

proof fn lemma_take_cut(d: Seq<u8>, p: int, n: int, e: int)
    requires
        0 <= p,
        0 <= n,
        take_at(d, p, n) is Ok,
        p + n <= e <= d.len(),
    ensures
        take_at(d.take(e), p, n) == take_at(d, p, n),
{
    assert(d.take(e).subrange(p, p + n) =~= d.subrange(p, p + n));
}

proof fn lemma_skip_many_cut(d: Seq<u8>, p: int, e: int, n: nat, depth: nat)
    requires
        0 <= p <= d.len(),
        skip_many_at(d, p, n, depth) matches Ok(q) && q <= e <= d.len(),
    ensures
        skip_many_at(d.take(e), p, n, depth) == skip_many_at(d, p, n, depth),
    decreases depth, n + 1,
{
    lemma_skip_many_at(d, p, n, depth);
    lemma_skip_many_at(d.take(e), p, n, depth);
    if n > 0 {
        lemma_skip_bounds(d, p, depth);
        let q = skip_at(d, p, depth)->Ok_0;
        lemma_skip_many_bounds(d, q, (n - 1) as nat, depth);
        law_skip_cut(d, p, e, depth);
        lemma_skip_many_cut(d, q, e, (n - 1) as nat, depth);
    }
}

/// The cursor that skipped a value stands behind it.
pub proof fn law_skip_stops_behind(d: Seq<u8>, p: int, depth: nat)
    requires
        skip_at(d, p, depth) is Ok,
    ensures
        stop_at(d, p, depth) == skip_at(d, p, depth)->Ok_0,
    decreases depth, 0nat,
{
    lemma_skip_at(d, p, depth);
    let (m, q) = take_at(d, p, 1)->Ok_0;
    match shape_of(m[0]) {
        Shape::Items(n) => lemma_skip_many_stops(d, q, n as nat, (depth - 1) as nat),
        Shape::Counted(w, each) => {
            let (s, t) = take_at(d, q, w as int)->Ok_0;
            lemma_skip_many_stops(d, t, be_value(s) * each as nat, (depth - 1) as nat);
        },
        _ => {},
    }
}

proof fn lemma_skip_many_stops(d: Seq<u8>, p: int, n: nat, depth: nat)
    requires
        skip_many_at(d, p, n, depth) is Ok,
    ensures
        stop_many_at(d, p, n, depth) == skip_many_at(d, p, n, depth)->Ok_0,
    decreases depth, n + 1,
{
    if n > 0 {
        lemma_skip_many_stops(d, skip_at(d, p, depth)->Ok_0, (n - 1) as nat, depth);
    }
}

/// A raw value is the bytes from the cursor to behind the value, one byte at
/// least; it is read exactly where skipping succeeds, and fails as skipping
/// does. Neither cutting the input behind it nor more input changes it.
pub proof fn law_raw_is_skipped(d: Seq<u8>, p: int, e: int, more: Seq<u8>)
    requires
        0 <= p,
        d.len() + more.len() <= usize::MAX,
    ensures
        match skip_at(d, p, MAX_SKIP_DEPTH as nat) {
            Err(x) => raw_at(d, p) == Err::<(Seq<u8>, int), Error>(x),
            Ok(q) => {
                &&& raw_at(d, p) == Ok::<(Seq<u8>, int), Error>((d.subrange(p, q), q))
                &&& p < q <= d.len()
                &&& q <= e <= d.len() ==> raw_at(d.take(e), p) == raw_at(d, p)
                &&& raw_at(d + more, p) == raw_at(d, p)
            },
        },
{
    let depth = MAX_SKIP_DEPTH as nat;
    if let Ok(q) = skip_at(d, p, depth) {
        lemma_skip_bounds(d, p, depth);
        if q <= e <= d.len() {
            law_skip_cut(d, p, e, depth);
            assert(d.take(e).subrange(p, q) =~= d.subrange(p, q));
        }
        let longer = d + more;
        assert(longer.subrange(0, d.len() as int) =~= d);
        law_skip_local(d, longer, 0, p, depth);
        assert(longer.subrange(p, q) =~= d.subrange(p, q));
    }
}

/// The bytes are exactly one value, within the nesting limit.
pub open spec fn one_value(v: Seq<u8>) -> bool {
    skip_at(v, 0, MAX_SKIP_DEPTH as nat) == Ok::<int, Error>(v.len() as int)
}

/// Reading a raw value gives back the bytes of a value that was written.
pub proof fn law_raw(d: Seq<u8>, p: int, v: Seq<u8>)
    requires
        at(d, p, v),
        one_value(v),
    ensures
        raw_at(d, p) == Ok::<(Seq<u8>, int), Error>((v, p + v.len())),
{
    law_skip_local(v, d, p, 0, MAX_SKIP_DEPTH as nat);
}

// ---------------------------------------------------------------------------
// Lists
// ---------------------------------------------------------------------------

/// `n` items one after the other, each read by `item` from a position.
pub open spec fn list_at<T, E>(
    item: spec_fn(int) -> Result<(T, int), E>,
    p: int,
    n: nat,
) -> Result<(Seq<T>, int), E>
    decreases n,
{
    if n == 0 {
        Ok((Seq::empty(), p))
    } else {
        match list_at(item, p, (n - 1) as nat) {
            Err(e) => Err(e),
            Ok((s, q)) => match item(q) {
                Err(e) => Err(e),
                Ok((v, t)) => Ok((s.push(v), t)),
            },
        }
    }
}

/// A list has as many items as were asked for.
pub proof fn lemma_list_len<T, E>(item: spec_fn(int) -> Result<(T, int), E>, p: int, n: nat)
    ensures
        list_at(item, p, n) matches Ok((s, _)) ==> s.len() == n,
    decreases n,
{
    if n > 0 {
        lemma_list_len(item, p, (n - 1) as nat);
    }
}

/// A list that fails early fails as a whole, with the same error.
pub proof fn lemma_list_fails<T, E>(
    item: spec_fn(int) -> Result<(T, int), E>,
    p: int,
    i: nat,
    n: nat,
)
    requires
        i <= n,
        list_at(item, p, i) is Err,
    ensures
        list_at(item, p, n) == list_at(item, p, i),
    decreases n,
{
    if i < n {
        lemma_list_fails(item, p, i, (n - 1) as nat);
    }
}

/// The items written one after the other.
pub open spec fn list_bytes<T>(one: spec_fn(T) -> Seq<u8>, s: Seq<T>) -> Seq<u8>
    decreases s.len(),
{
    if s.len() == 0 {
        seq![]
    } else {
        list_bytes(one, s.drop_last()) + one(s.last())
    }
}

/// Where every item reads back as it was written, the list does.
pub proof fn law_list<T, E>(
    d: Seq<u8>,
    item: spec_fn(int) -> Result<(T, int), E>,
    one: spec_fn(T) -> Seq<u8>,
    p: int,
    s: Seq<T>,
)
    requires
        at(d, p, list_bytes(one, s)),
        forall|i: int, q: int|
            0 <= i < s.len() && #[trigger] at(d, q, one(s[i])) ==> item(q) == Ok::<(T, int), E>(
                (s[i], q + one(s[i]).len()),
            ),
    ensures
        list_at(item, p, s.len()) == Ok::<(Seq<T>, int), E>((s, p + list_bytes(one, s).len())),
    decreases s.len(),
{
    if s.len() > 0 {
        let r = s.drop_last();
        lemma_at_concat(d, p, list_bytes(one, r), one(s.last()));
        assert forall|i: int, q: int|
            0 <= i < r.len() && #[trigger] at(d, q, one(r[i])) implies item(q) == Ok::<
            (T, int),
            E,
        >((r[i], q + one(r[i]).len())) by {
            assert(r[i] == s[i]);
        }
        law_list(d, item, one, p, r);
        let q = p + list_bytes(one, r).len();
        assert(s.last() == s[s.len() - 1]);
        assert(at(d, q, one(s[s.len() - 1])));
        assert(r.push(s.last()) =~= s);
    } else {
        assert(s =~= Seq::empty());
    }
}

/// What was read of an input is read of a longer one too.
pub proof fn law_read_goes_on(d: Seq<u8>, e: Seq<u8>, p: int)
    requires
        0 <= p,
        d.is_prefix_of(e),
    ensures
        kind_at(d, p) is Ok ==> kind_at(e, p) == kind_at(d, p) && p < d.len() && e[p] == d[p],
        array_len_at(d, p) matches Ok((_, q)) ==> array_len_at(e, p) == array_len_at(d, p) && p
            < q <= d.len(),
        bin_at(d, p) matches Ok((_, q)) ==> bin_at(e, p) == bin_at(d, p) && p < q <= d.len(),
        uint_at(d, p) matches Ok((_, q)) ==> uint_at(e, p) == uint_at(d, p) && p < q <= d.len(),
        number_bits_at(d, p) matches Ok((_, q)) ==> number_bits_at(e, p) == number_bits_at(d, p)
            && p < q <= d.len(),
        bool_at(d, p) matches Ok((_, q)) ==> bool_at(e, p) == bool_at(d, p) && p < q <= d.len(),
{
    reveal(array_len_at);
    reveal(bin_len_at);
    reveal(int_at);
    reveal(double_at);
    if p < d.len() {
        assert(e[p] == d[p]);
    }
    lemma_be_goes_on(d, e, p + 1, 1);
    lemma_be_goes_on(d, e, p + 1, 2);
    lemma_be_goes_on(d, e, p + 1, 4);
    lemma_be_goes_on(d, e, p + 1, 8);
    lemma_take_goes_on(d, e, p, 1);
    lemma_take_goes_on(d, e, p + 1, 4);
    if let Ok((n, q)) = bin_len_at(d, p) {
        lemma_take_goes_on(d, e, q, n as int);
    }
}

proof fn lemma_take_goes_on(d: Seq<u8>, e: Seq<u8>, p: int, n: int)
    requires
        0 <= p,
        0 <= n,
        d.is_prefix_of(e),
    ensures
        take_at(d, p, n) is Ok ==> take_at(e, p, n) == take_at(d, p, n),
{
    if take_at(d, p, n) is Ok {
        assert(e.subrange(p, p + n) =~= d.subrange(p, p + n));
    }
}

proof fn lemma_be_goes_on(d: Seq<u8>, e: Seq<u8>, p: int, w: int)
    requires
        0 <= p,
        0 <= w,
        d.is_prefix_of(e),
    ensures
        be_at(d, p, w) is Ok ==> be_at(e, p, w) == be_at(d, p, w),
{
    if be_at(d, p, w) is Ok {
        assert(e.subrange(p, p + w) =~= d.subrange(p, p + w));
    }
}

} // verus!
