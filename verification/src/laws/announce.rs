//! What a delivery destination announces.
use vstd::prelude::*;

use crate::announce::{
    compression_at, cost_at, delivery_bytes, delivery_of, function_at, name_at, shown, Delivery,
};
use crate::msgpack;
use crate::text;

use super::gives;

verus! {

/// No data tells nothing, and data that is no list is a name.
pub proof fn law_old_forms(d: Seq<u8>)
    ensures
        d.len() == 0 ==> delivery_of(d) == Ok::<Delivery, msgpack::Error>(
            Delivery { name: None, cost: None, compression: true },
        ),
        d.len() > 0 && d[0] < 0x90 ==> delivery_of(d) == Ok::<Delivery, msgpack::Error>(
            Delivery { name: Some(d), cost: None, compression: true },
        ),
        d.len() > 0 && 0xa0 <= d[0] && d[0] != 0xdc && d[0] != 0xdd ==> delivery_of(d) == Ok::<
            Delivery,
            msgpack::Error,
        >(Delivery { name: Some(d), cost: None, compression: true }),
{
}

/// The first element of an announce is the name, the second the stamp cost and
/// the third the list of capabilities.
pub proof fn law_delivery_elements(
    d: Seq<u8>,
    n: nat,
    p0: int,
    name: Option<Seq<u8>>,
    p1: int,
    cost: Option<u8>,
    p2: int,
    compression: bool,
    p3: int,
)
    requires
        d.len() > 0,
        0x90 <= d[0] <= 0x9f,
        n <= 3,
        gives(msgpack::array_len_at(d, 0), n, p0),
        gives(name_at(d, p0, n), name, p1),
        gives(cost_at(d, p1, n), cost, p2),
        gives(compression_at(d, p2, n), compression, p3),
    ensures
        delivery_of(d) == if p3 == d.len() {
            Ok::<Delivery, msgpack::Error>(Delivery { name, cost, compression })
        } else {
            Err(msgpack::Error::Trailing)
        },
        n == 0 ==> name is None && cost is None && compression,
        n == 1 ==> cost is None && compression,
        n == 2 ==> compression,
{
    msgpack::lemma_skip_many_at(d, p3, 0, msgpack::MAX_SKIP_DEPTH as nat);
}

/// A name or a cost is nil or a value; a cost above one byte is refused.
pub proof fn law_name_and_cost(d: Seq<u8>, p: int, n: nat)
    requires
        0 <= p < d.len() <= usize::MAX,
        n >= 2,
    ensures
        d[p] == 0xc0 ==> gives(name_at(d, p, n), None, p + 1) && gives(cost_at(d, p, n), None, p + 1),
        forall|name: Seq<u8>, q: int|
            d[p] != 0xc0 && #[trigger] gives(msgpack::bin_at(d, p), name, q) ==> gives(
                name_at(d, p, n),
                Some(name),
                q,
            ),
        forall|v: u64, q: int|
            d[p] != 0xc0 && #[trigger] gives(msgpack::uint_at(d, p), v, q) ==> if v < 256 {
                gives(cost_at(d, p, n), Some(v as u8), q)
            } else {
                cost_at(d, p, n) is Err
            },
{
}

/// Compression is supported where the list of capabilities has a zero, and
/// where there is no such list.
pub proof fn law_compression(
    d: Seq<u8>,
    p: int,
    k: nat,
    q: int,
    s: Seq<u64>,
    t: int,
)
    requires
        0 <= p < d.len(),
        0x90 <= d[p] <= 0x9f,
        gives(msgpack::array_len_at(d, p), k, q),
        gives(msgpack::list_at(function_at(d), q, k), s, t),
    ensures
        gives(compression_at(d, p, 3), s.contains(0), t),
        gives(compression_at(d, p, 2), true, p),
{
}

/// A written announce is a list of three: the name or nil, the cost or nil,
/// and the list of capabilities. A cost of 255 is announced as no cost.
pub proof fn law_delivery_layout(a: Delivery)
    ensures
        ({
            let name = match a.name {
                Some(n) => msgpack::bin_bytes(n),
                None => seq![0xc0u8],
            };
            let cost = match a.cost {
                Some(c) => if c == 255 {
                    seq![0xc0u8]
                } else {
                    msgpack::uint_bytes(c as nat)
                },
                None => seq![0xc0u8],
            };
            delivery_bytes(a) == seq![0x93u8] + name + cost + (if a.compression {
                seq![0x91u8, 0x00u8]
            } else {
                seq![0x90u8]
            })
        }),
{
    reveal(msgpack::array_header);
    reveal(msgpack::uint_bytes);
    assert(msgpack::array_header(1) + msgpack::uint_bytes(0) =~= seq![0x91u8, 0x00u8]);
}

/// What trimming takes away is white space, and nothing else is taken.
pub proof fn law_trimming_takes_white_space(s: Seq<char>)
    ensures
        exists|a: Seq<char>, b: Seq<char>|
            s == #[trigger] (a + text::trimmed(s) + b) && (forall|i: int|
                0 <= i < a.len() ==> text::white_space(#[trigger] a[i])) && (forall|i: int|
                0 <= i < b.len() ==> text::white_space(#[trigger] b[i])),
        s.len() > 0 && !text::white_space(s.first()) && !text::white_space(s.last())
            ==> text::trimmed(s) == s,
    decreases s.len(),
{
    let none = Seq::<char>::empty();
    if s.len() == 0 {
        assert(s =~= none + text::trimmed(s) + none);
    } else if text::white_space(s.first()) {
        let t = s.drop_first();
        law_trimming_takes_white_space(t);
        let (a, b) = choose|a: Seq<char>, b: Seq<char>|
            t == #[trigger] (a + text::trimmed(t) + b) && (forall|i: int|
                0 <= i < a.len() ==> text::white_space(#[trigger] a[i])) && (forall|i: int|
                0 <= i < b.len() ==> text::white_space(#[trigger] b[i]));
        let c = seq![s.first()] + a;
        assert(t == a + text::trimmed(t) + b);
        assert(s =~= seq![s.first()] + t);
        assert(c + text::trimmed(t) + b =~= seq![s.first()] + (a + text::trimmed(t) + b));
        assert(s == c + text::trimmed(s) + b);
    } else if text::white_space(s.last()) {
        let t = s.drop_last();
        law_trimming_takes_white_space(t);
        let (a, b) = choose|a: Seq<char>, b: Seq<char>|
            t == #[trigger] (a + text::trimmed(t) + b) && (forall|i: int|
                0 <= i < a.len() ==> text::white_space(#[trigger] a[i])) && (forall|i: int|
                0 <= i < b.len() ==> text::white_space(#[trigger] b[i]));
        let c = b.push(s.last());
        assert(t == a + text::trimmed(t) + b);
        assert(s =~= t.push(s.last()));
        assert(a + text::trimmed(t) + c =~= (a + text::trimmed(t) + b).push(s.last()));
        assert(s == a + text::trimmed(s) + c);
    } else {
        assert(s =~= none + text::trimmed(s) + none);
    }
}

/// A name without NUL characters and without white space at its ends is shown
/// as it is, and NUL characters in front of it change nothing.
pub proof fn law_shown_name_is_the_name(name: Seq<char>)
    requires
        name.len() > 0,
        forall|i: int| 0 <= i < name.len() ==> #[trigger] name[i] != '\0',
        !text::white_space(name.first()),
        !text::white_space(name.last()),
    ensures
        shown(name) == name,
        shown(name.push('\0')) == name,
{
    let kept = |c: char| c != '\0';
    lemma_all_kept(name, kept);
    law_trimming_takes_white_space(name);
    reveal(Seq::filter);
    assert(name.push('\0').drop_last() =~= name);
}

proof fn lemma_all_kept(s: Seq<char>, kept: spec_fn(char) -> bool)
    requires
        forall|k: int| 0 <= k < s.len() ==> kept(#[trigger] s[k]),
    ensures
        s.filter(kept) == s,
    decreases s.len(),
{
    reveal(Seq::filter);
    if s.len() > 0 {
        lemma_all_kept(s.drop_last(), kept);
        assert(kept(s[s.len() - 1]));
        assert(s.drop_last().push(s.last()) =~= s);
    } else {
        assert(s.filter(kept) =~= s);
    }
}

/// A third element that is no list says nothing of capabilities, so that
/// compression is supported.
pub proof fn law_no_list_of_capabilities(d: Seq<u8>, p: int, q: int)
    requires
        0 <= p < d.len(),
        !(0x90 <= d[p] <= 0x9f || d[p] == 0xdc || d[p] == 0xdd),
        msgpack::skip_at(d, p, 64) == Ok::<int, msgpack::Error>(q),
    ensures
        gives(compression_at(d, p, 3), true, q),
{
}

} // verus!
