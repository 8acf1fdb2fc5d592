//! MessagePack: which byte says what.
use vstd::prelude::*;

use crate::msgpack::{
    array_header, array_len_at, be_at, be_bytes, be_value, bin_at, bin_bytes, bin_head, bin_len_at,
    bool_at, bool_bytes, double_at, double_bytes, int_at, int_bytes, kind_of, list_at, list_bytes,
    map_header, map_len_at, negative_bytes, nil_at, nil_bytes, number_at, sint_at, str_at, str_head,
    str_len_at, uint_at, uint_bytes, Kind, Number,
};

use super::gives;

verus! {

/// Numbers are written with the most significant byte first.
pub proof fn law_big_endian(v: nat)
    ensures
        be_bytes(v, 1) == seq![(v % 256) as u8],
        be_bytes(v, 2) == seq![(v / 256 % 256) as u8, (v % 256) as u8],
        be_bytes(v, 4) == seq![
            (v / 256 / 256 / 256 % 256) as u8,
            (v / 256 / 256 % 256) as u8,
            (v / 256 % 256) as u8,
            (v % 256) as u8,
        ],
        be_bytes(v, 8).len() == 8,
        be_bytes(v, 8).subrange(4, 8) == be_bytes(v, 4),
        be_bytes(v, 8).subrange(0, 4) == be_bytes(v / 256 / 256 / 256 / 256, 4),
{
    reveal_with_fuel(be_bytes, 9);
    assert(be_bytes(v, 8).subrange(4, 8) =~= be_bytes(v, 4));
    assert(be_bytes(v, 8).subrange(0, 4) =~= be_bytes(v / 256 / 256 / 256 / 256, 4));
}

/// Big-endian bytes are read with the most significant byte first.
pub proof fn law_big_endian_is_read(a: u8, b: u8, c: u8, e: u8)
    ensures
        be_value(seq![a]) == a,
        be_value(seq![a, b]) == 256 * a + b,
        be_value(seq![a, b, c, e]) == 0x100_0000 * a + 0x1_0000 * b + 256 * c + e,
{
    reveal_with_fuel(be_value, 5);
    assert(seq![a].drop_last() =~= Seq::<u8>::empty());
    assert(seq![a, b].drop_last() =~= seq![a]);
    assert(seq![a, b, c].drop_last() =~= seq![a, b]);
    assert(seq![a, b, c, e].drop_last() =~= seq![a, b, c]);
}

/// The headers of arrays, maps, texts and byte strings, by length.
pub proof fn law_headers(n: nat)
    requires
        n <= u32::MAX,
    ensures
        array_header(n) == if n < 16 {
            seq![(144 + n) as u8]
        } else if n < 65536 {
            seq![220u8] + be_bytes(n, 2)
        } else {
            seq![221u8] + be_bytes(n, 4)
        },
        map_header(n) == if n < 16 {
            seq![(128 + n) as u8]
        } else if n < 65536 {
            seq![222u8] + be_bytes(n, 2)
        } else {
            seq![223u8] + be_bytes(n, 4)
        },
        bin_head(n) == if n < 256 {
            seq![196u8] + be_bytes(n, 1)
        } else if n < 65536 {
            seq![197u8] + be_bytes(n, 2)
        } else {
            seq![198u8] + be_bytes(n, 4)
        },
        str_head(n) == if n < 32 {
            seq![(160 + n) as u8]
        } else if n < 256 {
            seq![217u8] + be_bytes(n, 1)
        } else if n < 65536 {
            seq![218u8] + be_bytes(n, 2)
        } else {
            seq![219u8] + be_bytes(n, 4)
        },
{
    reveal(array_header);
    reveal(map_header);
    reveal(bin_head);
    reveal(str_head);
}

/// Integers take the shortest form that holds them, negative ones in two's
/// complement.
pub proof fn law_integer_forms(v: int)
    requires
        i64::MIN <= v <= u64::MAX,
    ensures
        int_bytes(v) == if 0 <= v < 128 {
            seq![v as u8]
        } else if -32 <= v < 0 {
            seq![(256 + v) as u8]
        } else if 128 <= v < 256 {
            seq![204u8] + be_bytes(v as nat, 1)
        } else if 256 <= v < 65536 {
            seq![205u8] + be_bytes(v as nat, 2)
        } else if 65536 <= v < 4294967296 {
            seq![206u8] + be_bytes(v as nat, 4)
        } else if v >= 4294967296 {
            seq![207u8] + be_bytes(v as nat, 8)
        } else if v >= -128 {
            seq![208u8] + be_bytes((256 + v) as nat, 1)
        } else if v >= -32768 {
            seq![209u8] + be_bytes((65536 + v) as nat, 2)
        } else if v >= -2147483648 {
            seq![210u8] + be_bytes((4294967296 + v) as nat, 4)
        } else {
            seq![211u8] + be_bytes((18446744073709551616 + v) as nat, 8)
        },
        v >= 0 ==> uint_bytes(v as nat) == int_bytes(v),
{
    reveal(uint_bytes);
    reveal(negative_bytes);
}

/// The other values.
pub proof fn law_other_forms(bits: u64, b: Seq<u8>)
    requires
        b.len() <= u32::MAX,
    ensures
        nil_bytes() == seq![192u8],
        bool_bytes(false) == seq![194u8],
        bool_bytes(true) == seq![195u8],
        double_bytes(bits) == seq![203u8] + be_bytes(bits as nat, 8),
        bin_bytes(b) == bin_head(b.len()) + b,
        crate::msgpack::str_bytes(b) == str_head(b.len()) + b,
{
    reveal(double_bytes);
}

/// The first byte of a value says what kind it is.
pub proof fn law_kinds(m: u8)
    ensures
        kind_of(m) == Kind::Nil <==> m == 192,
        kind_of(m) == Kind::False <==> m == 194,
        kind_of(m) == Kind::True <==> m == 195,
        kind_of(m) == Kind::Array <==> 144 <= m <= 159 || m == 220 || m == 221,
        kind_of(m) == Kind::Mapping <==> 128 <= m <= 143 || m == 222 || m == 223,
        kind_of(m) == Kind::Str <==> 160 <= m <= 191 || 217 <= m <= 219,
        kind_of(m) == Kind::Float <==> m == 202 || m == 203,
{
    reveal(kind_of);
}

/// The lengths of arrays, maps, texts and byte strings are read from their
/// headers, whatever form those have.
pub proof fn law_lengths_are_read(d: Seq<u8>, p: int)
    requires
        0 <= p < d.len(),
    ensures
        144 <= d[p] <= 159 ==> gives(array_len_at(d, p), (d[p] - 144) as nat, p + 1),
        d[p] == 220 ==> array_len_at(d, p) == be_at(d, p + 1, 2),
        d[p] == 221 ==> array_len_at(d, p) == be_at(d, p + 1, 4),
        array_len_at(d, p) is Ok ==> kind_of(d[p]) == Kind::Array,
        128 <= d[p] <= 143 ==> gives(map_len_at(d, p), (d[p] - 128) as nat, p + 1),
        d[p] == 222 ==> map_len_at(d, p) == be_at(d, p + 1, 2),
        d[p] == 223 ==> map_len_at(d, p) == be_at(d, p + 1, 4),
        map_len_at(d, p) is Ok ==> kind_of(d[p]) == Kind::Mapping,
        160 <= d[p] <= 191 ==> gives(str_len_at(d, p), (d[p] - 160) as nat, p + 1),
        d[p] == 217 ==> str_len_at(d, p) == be_at(d, p + 1, 1),
        d[p] == 218 ==> str_len_at(d, p) == be_at(d, p + 1, 2),
        d[p] == 219 ==> str_len_at(d, p) == be_at(d, p + 1, 4),
        str_len_at(d, p) is Ok ==> kind_of(d[p]) == Kind::Str,
        d[p] == 196 ==> bin_len_at(d, p) == be_at(d, p + 1, 1),
        d[p] == 197 ==> bin_len_at(d, p) == be_at(d, p + 1, 2),
        d[p] == 198 ==> bin_len_at(d, p) == be_at(d, p + 1, 4),
        bin_len_at(d, p) is Ok ==> 196 <= d[p] <= 198,
{
    reveal(array_len_at);
    reveal(map_len_at);
    reveal(str_len_at);
    reveal(bin_len_at);
    reveal(kind_of);
}

/// Integers are read from every form, also from longer ones than needed.
pub proof fn law_integers_are_read(d: Seq<u8>, p: int)
    requires
        0 <= p < d.len(),
    ensures
        d[p] < 128 ==> gives(int_at(d, p), d[p] as int, p + 1),
        d[p] >= 224 ==> gives(int_at(d, p), d[p] - 256, p + 1),
        d[p] == 204 && p + 1 < d.len() ==> gives(int_at(d, p), d[p + 1] as int, p + 2),
        d[p] == 205 && p + 2 < d.len() ==> gives(int_at(d, p), 256 * d[p + 1] + d[p + 2], p + 3),
        d[p] == 208 && p + 1 < d.len() ==> gives(
            int_at(d, p),
            if d[p + 1] < 128 {
                d[p + 1] as int
            } else {
                d[p + 1] - 256
            },
            p + 2,
        ),
        int_at(d, p) is Ok ==> d[p] < 128 || d[p] >= 224 || 204 <= d[p] <= 211,
        uint_at(d, p) is Ok ==> int_at(d, p) is Ok && uint_at(d, p)->Ok_0.0 == int_at(d, p)->Ok_0.0,
        int_at(d, p) is Ok && int_at(d, p)->Ok_0.0 < 0 ==> uint_at(d, p) is Err,
        sint_at(d, p) is Ok ==> int_at(d, p) is Ok && sint_at(d, p)->Ok_0.0 == int_at(d, p)->Ok_0.0,
        d[p] == 203 ==> (number_at(d, p) is Ok <==> double_at(d, p) is Ok),
        d[p] == 203 && double_at(d, p) is Ok ==> gives(
            number_at(d, p),
            Number::Float(double_at(d, p)->Ok_0.0),
            double_at(d, p)->Ok_0.1,
        ),
        d[p] != 202 && d[p] != 203 && sint_at(d, p) is Ok ==> gives(
            number_at(d, p),
            Number::Int(sint_at(d, p)->Ok_0.0),
            sint_at(d, p)->Ok_0.1,
        ),
        double_at(d, p) is Ok ==> d[p] == 203,
        bool_at(d, p) is Ok ==> (bool_at(d, p)->Ok_0.0 <==> d[p] == 195) && (
        !bool_at(d, p)->Ok_0.0 <==> d[p] == 194),
        nil_at(d, p) is Ok ==> d[p] == 192,
{
    reveal(int_at);
    reveal(double_at);
    if p + 1 < d.len() {
        assert(d.subrange(p + 1, p + 2) =~= seq![d[p + 1]]);
        law_big_endian_is_read(d[p + 1], 0, 0, 0);
        reveal_with_fuel(crate::msgpack::be_limit, 2);
    }
    if p + 2 < d.len() {
        assert(d.subrange(p + 1, p + 3) =~= seq![d[p + 1], d[p + 2]]);
        law_big_endian_is_read(d[p + 1], d[p + 2], 0, 0);
    }
    assert(d.subrange(p, p + 1) =~= seq![d[p]]);
}

/// A byte string, and a text, is what stands behind its header.
pub proof fn law_strings_are_read(d: Seq<u8>, p: int)
    requires
        d.len() <= usize::MAX,
    ensures
        bin_at(d, p) is Ok ==> ({
            let (n, q) = bin_len_at(d, p)->Ok_0;
            bin_at(d, p)->Ok_0.0 == d.subrange(q, q + n) && bin_at(d, p)->Ok_0.1 == q + n && q + n
                <= d.len()
        }),
        bin_len_at(d, p) is Ok && bin_len_at(d, p)->Ok_0.1 + bin_len_at(d, p)->Ok_0.0 <= d.len()
            ==> bin_at(d, p) is Ok,
        str_at(d, p) is Ok ==> ({
            let (n, q) = str_len_at(d, p)->Ok_0;
            str_at(d, p)->Ok_0.0 == d.subrange(q, q + n) && str_at(d, p)->Ok_0.1 == q + n && q + n
                <= d.len()
        }),
{
}

/// Lists are read and written item by item, in their order.
pub proof fn law_lists<T, E>(
    item: spec_fn(int) -> Result<(T, int), E>,
    p: int,
    n: nat,
    one: spec_fn(T) -> Seq<u8>,
    s: Seq<T>,
    v: T,
)
    ensures
        gives(list_at(item, p, 0), Seq::<T>::empty(), p),
        list_at(item, p, n) is Ok && item(list_at(item, p, n)->Ok_0.1) is Ok ==> gives(
            list_at(item, p, n + 1),
            list_at(item, p, n)->Ok_0.0.push(item(list_at(item, p, n)->Ok_0.1)->Ok_0.0),
            item(list_at(item, p, n)->Ok_0.1)->Ok_0.1,
        ),
        list_at(item, p, n + 1) is Ok ==> list_at(item, p, n) is Ok,
        list_bytes(one, Seq::empty()) == Seq::<u8>::empty(),
        list_bytes(one, s.push(v)) == list_bytes(one, s) + one(v),
{
    assert(s.push(v).drop_last() =~= s);
}

} // verus!
