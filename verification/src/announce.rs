//! LXMF delivery announce application data.
use vstd::prelude::*;

use crate::bytemap::to_vec;
use crate::msgpack;
use crate::text;

verus! {

pub const SF_COMPRESSION: u64 = 0x00;

#[derive(Debug, Clone, PartialEq, Eq)]
pub struct DeliveryAnnounce {
    pub display_name: Option<Vec<u8>>,
    pub stamp_cost: Option<u8>,
    pub compression_supported: bool,
}

/// What a delivery announce says.
pub ghost struct Delivery {
    pub name: Option<Seq<u8>>,
    pub cost: Option<u8>,
    pub compression: bool,
}

pub open spec fn name_view(name: Option<Vec<u8>>) -> Option<Seq<u8>> {
    match name {
        Some(n) => Some(n@),
        None => None,
    }
}

impl View for DeliveryAnnounce {
    type V = Delivery;

    open spec fn view(&self) -> Delivery {
        Delivery {
            name: name_view(self.display_name),
            cost: self.stamp_cost,
            compression: self.compression_supported,
        }
    }
}

pub open spec fn functions_bytes(compression: bool) -> Seq<u8> {
    if compression {
        msgpack::array_header(1) + msgpack::uint_bytes(SF_COMPRESSION as nat)
    } else {
        msgpack::array_header(0)
    }
}

/// The stamp cost that is announced. At a cost of 255 no stamp can be found,
/// so it is announced as no cost. A cost of zero is written as it stands, and
/// asks for no stamp.
pub open spec fn announced_cost(cost: Option<u8>) -> Option<u8> {
    if cost == Some(255u8) {
        None
    } else {
        cost
    }
}

/// The three-element wire form.
pub open spec fn delivery_bytes(a: Delivery) -> Seq<u8> {
    msgpack::array_header(3) + (match a.name {
        Some(n) => msgpack::bin_bytes(n),
        None => msgpack::nil_bytes(),
    }) + (match announced_cost(a.cost) {
        Some(c) => msgpack::uint_bytes(c as nat),
        None => msgpack::nil_bytes(),
    }) + functions_bytes(a.compression)
}

/// A nil byte at `p`.
pub open spec fn nil_next(d: Seq<u8>, p: int) -> bool {
    p < d.len() && d[p] == 0xc0
}

/// An array marker at `p`.
pub open spec fn array_next(d: Seq<u8>, p: int) -> bool {
    p < d.len() && (0x90 <= d[p] <= 0x9f || d[p] == 0xdc || d[p] == 0xdd)
}

/// The name element of a list of `n`.
pub open spec fn name_at(d: Seq<u8>, p: int, n: nat) -> Result<
    (Option<Seq<u8>>, int),
    msgpack::Error,
> {
    if n < 1 {
        Ok((None, p))
    } else if nil_next(d, p) {
        Ok((None, p + 1))
    } else {
        match msgpack::bin_at(d, p) {
            Err(e) => Err(e),
            Ok((s, q)) => Ok((Some(s), q)),
        }
    }
}

/// The stamp cost element of a list of `n`.
pub open spec fn cost_at(d: Seq<u8>, p: int, n: nat) -> Result<(Option<u8>, int), msgpack::Error> {
    if n < 2 {
        Ok((None, p))
    } else if nil_next(d, p) {
        Ok((None, p + 1))
    } else {
        match msgpack::uint_at(d, p) {
            Err(e) => Err(e),
            Ok((v, q)) => if v <= u8::MAX {
                Ok((Some(v as u8), q))
            } else {
                Err(msgpack::Error::Overflow)
            },
        }
    }
}

pub open spec fn function_at(d: Seq<u8>) -> spec_fn(int) -> Result<(u64, int), msgpack::Error> {
    |p: int| msgpack::uint_at(d, p)
}

/// The capability element of a list of `n`. Without a list of capabilities
/// compression is supported.
pub open spec fn compression_at(d: Seq<u8>, p: int, n: nat) -> Result<(bool, int), msgpack::Error> {
    if n < 3 {
        Ok((true, p))
    } else if !array_next(d, p) {
        match msgpack::skip_at(d, p, msgpack::MAX_SKIP_DEPTH as nat) {
            Err(e) => Err(e),
            Ok(q) => Ok((true, q)),
        }
    } else {
        match msgpack::array_len_at(d, p) {
            Err(e) => Err(e),
            Ok((k, q)) => match msgpack::list_at(function_at(d), q, k) {
                Err(e) => Err(e),
                Ok((s, t)) => Ok((s.contains(SF_COMPRESSION), t)),
            },
        }
    }
}

/// The announce in a byte string: empty data, a raw name, or a list.
pub open spec fn delivery_of(d: Seq<u8>) -> Result<Delivery, msgpack::Error> {
    if d.len() == 0 {
        Ok(Delivery { name: None, cost: None, compression: true })
    } else if !array_next(d, 0) {
        Ok(Delivery { name: Some(d), cost: None, compression: true })
    } else {
        match msgpack::array_len_at(d, 0) {
            Err(e) => Err(e),
            Ok((n, p0)) => match name_at(d, p0, n) {
                Err(e) => Err(e),
                Ok((name, p1)) => match cost_at(d, p1, n) {
                    Err(e) => Err(e),
                    Ok((cost, p2)) => match compression_at(d, p2, n) {
                        Err(e) => Err(e),
                        Ok((compression, p3)) => match msgpack::skip_many_at(
                            d,
                            p3,
                            if n < 3 {
                                0
                            } else {
                                (n - 3) as nat
                            },
                            msgpack::MAX_SKIP_DEPTH as nat,
                        ) {
                            Err(e) => Err(e),
                            Ok(p4) => if p4 != d.len() {
                                Err(msgpack::Error::Trailing)
                            } else {
                                Ok(Delivery { name, cost, compression })
                            },
                        },
                    },
                },
            },
        }
    }
}

fn is_nil_next(d: &[u8], p: usize) -> (r: bool)
    ensures
        r == nil_next(d@, p as int),
{
    p < d.len() && d[p] == 0xc0
}

fn is_array_next(d: &[u8], p: usize) -> (r: bool)
    ensures
        r == array_next(d@, p as int),
{
    p < d.len() && ((0x90 <= d[p] && d[p] <= 0x9f) || d[p] == 0xdc || d[p] == 0xdd)
}

fn decode_compression(data: &[u8], pos: &mut usize, n: usize) -> (r: Result<bool, msgpack::Error>)
    ensures
        match compression_at(data@, *old(pos) as int, n as nat) {
            Ok((v, q)) => r == Ok::<bool, msgpack::Error>(v) && *final(pos) == q,
            Err(e) => r == Err::<bool, msgpack::Error>(e),
        },
{
    if n < 3 {
        return Ok(true);
    }
    if !is_array_next(data, *pos) {
        msgpack::skip(data, pos)?;
        return Ok(true);
    }
    let count: usize = msgpack::array_len(data, pos)?;
    let ghost start = *pos as int;
    let ghost mut seen: Seq<u64> = Seq::empty();
    let mut compression = false;
    let mut i: usize = 0;
    while i < count
        invariant
            i <= count,
            msgpack::list_at(function_at(data@), start, i as nat) == Ok::<
                (Seq<u64>, int),
                msgpack::Error,
            >((seen, *pos as int)),
            compression == seen.contains(SF_COMPRESSION),
            compression_at(data@, *old(pos) as int, n as nat) == (match msgpack::list_at(
                function_at(data@),
                start,
                count as nat,
            ) {
                Err(e) => Err(e),
                Ok((s, t)) => Ok((s.contains(SF_COMPRESSION), t)),
            }),
        decreases count - i,
    {
        proof {
            if msgpack::list_at(function_at(data@), start, (i + 1) as nat) is Err {
                msgpack::lemma_list_fails(function_at(data@), start, (i + 1) as nat, count as nat);
            }
        }
        let v: u64 = msgpack::read_uint(data, pos)?;
        proof {
            let before = seen;
            seen = before.push(v);
            assert(seen.contains(SF_COMPRESSION) == (before.contains(SF_COMPRESSION) || v
                == SF_COMPRESSION)) by {
                assert(seen[before.len() as int] == v);
                assert forall|j: int| 0 <= j < before.len() implies before[j] == seen[j] by {}
                if before.contains(SF_COMPRESSION) {
                    let j = choose|j: int| 0 <= j < before.len() && before[j] == SF_COMPRESSION;
                    assert(seen[j] == SF_COMPRESSION);
                }
            }
        }
        if v == SF_COMPRESSION {
            compression = true;
        }
        i = i + 1;
    }
    Ok(compression)
}

impl DeliveryAnnounce {
    /// The current three-element announce format. A stamp cost of 255, which
    /// nobody could pay, is announced as none; zero is written as it stands.
    pub fn encode(&self) -> (r: Vec<u8>)
        ensures
            r@ == delivery_bytes(self@),
    {
        let mut out: Vec<u8> = Vec::new();
        msgpack::array(&mut out, 3);
        match &self.display_name {
            Some(name) => msgpack::bin(&mut out, name.as_slice()),
            None => msgpack::nil(&mut out),
        }
        match self.stamp_cost {
            Some(cost) => {
                if cost == 255 {
                    msgpack::nil(&mut out);
                } else {
                    msgpack::uint(&mut out, cost as u64);
                }
            },
            None => msgpack::nil(&mut out),
        }
        if self.compression_supported {
            msgpack::array(&mut out, 1);
            msgpack::uint(&mut out, SF_COMPRESSION);
        } else {
            msgpack::array(&mut out, 0);
        }
        assert(out@ =~= delivery_bytes(self@));
        out
    }

    /// Decodes both the older raw-name format and the list formats. Missing
    /// capability lists imply compression support.
    pub fn decode(data: &[u8]) -> (r: Result<DeliveryAnnounce, msgpack::Error>)
        ensures
            match delivery_of(data@) {
                Ok(a) => r is Ok && r->Ok_0@ == a,
                Err(e) => r == Err::<DeliveryAnnounce, msgpack::Error>(e),
            },
    {
        if data.len() == 0 {
            return Ok(
                DeliveryAnnounce {
                    display_name: None,
                    stamp_cost: None,
                    compression_supported: true,
                },
            );
        }
        if !is_array_next(data, 0) {
            return Ok(
                DeliveryAnnounce {
                    display_name: Some(to_vec(data)),
                    stamp_cost: None,
                    compression_supported: true,
                },
            );
        }
        let mut pos: usize = 0;
        let len: usize = msgpack::array_len(data, &mut pos)?;
        let display_name: Option<Vec<u8>> = if len >= 1 {
            if is_nil_next(data, pos) {
                pos = pos + 1;
                None
            } else {
                Some(to_vec(msgpack::read_bin(data, &mut pos)?))
            }
        } else {
            None
        };
        let stamp_cost: Option<u8> = if len >= 2 {
            if is_nil_next(data, pos) {
                pos = pos + 1;
                None
            } else {
                let v: u64 = msgpack::read_uint(data, &mut pos)?;
                if v > 255 {
                    return Err(msgpack::Error::Overflow);
                }
                Some(v as u8)
            }
        } else {
            None
        };
        let compression_supported = decode_compression(data, &mut pos, len)?;
        let rest: u64 = if len < 3 {
            0
        } else {
            (len - 3) as u64
        };
        msgpack::skip_values(data, &mut pos, rest, msgpack::MAX_SKIP_DEPTH)?;
        if pos != data.len() {
            return Err(msgpack::Error::Trailing);
        }
        Ok(DeliveryAnnounce { display_name, stamp_cost, compression_supported })
    }

    /// The name as text, without NUL characters and surrounding white space;
    /// nothing where it is not valid UTF-8.
    pub fn display_name(&self) -> (r: Option<String>)
        ensures
            match self@.name {
                None => r is None,
                Some(n) => if vstd::utf8::valid_utf8(n) {
                    r is Some && r->Some_0@ == shown(vstd::utf8::decode_utf8(n))
                } else {
                    r is None
                },
            },
    {
        match &self.display_name {
            None => None,
            Some(raw) => match text::from_utf8(raw.as_slice()) {
                None => None,
                Some(name) => {
                    proof {
                        vstd::utf8::encode_utf8_decode_utf8(name@);
                    }
                    let plain = text::without(name, '\0');
                    Some(text::trim(plain.as_str()))
                },
            },
        }
    }
}

/// A name as it is shown: without NUL characters and surrounding white space.
pub open spec fn shown(name: Seq<char>) -> Seq<char> {
    text::trimmed(name.filter(|c: char| c != '\0'))
}

/// A shown name holds no NUL character and has no white space at its ends;
/// showing it again changes nothing.
pub proof fn law_shown_name(name: Seq<char>)
    ensures
        !shown(name).contains('\0'),
        shown(name).len() > 0 ==> !text::white_space(shown(name).first()) && !text::white_space(
            shown(name).last(),
        ),
        shown(shown(name)) == shown(name),
{
    let kept = |c: char| c != '\0';
    let plain = name.filter(kept);
    text::law_trimmed(plain);
    let (i, j) = choose|i: int, j: int|
        0 <= i <= j <= plain.len() && text::trimmed(plain) == #[trigger] plain.subrange(i, j);
    let part = plain.subrange(i, j);
    assert forall|k: int| 0 <= k < part.len() implies kept(#[trigger] part[k]) by {
        name.lemma_filter_pred(kept, i + k);
        assert(part[k] == plain[i + k]);
    }
    lemma_nothing_left_out(part, kept);
}

proof fn lemma_nothing_left_out(s: Seq<char>, kept: spec_fn(char) -> bool)
    requires
        forall|k: int| 0 <= k < s.len() ==> kept(#[trigger] s[k]),
    ensures
        s.filter(kept) == s,
    decreases s.len(),
{
    reveal(Seq::filter);
    if s.len() > 0 {
        lemma_nothing_left_out(s.drop_last(), kept);
        assert(kept(s.last()));
        assert(s.drop_last().push(s.last()) =~= s);
    } else {
        assert(s.filter(kept) =~= s);
    }
}

/// The announce data of a destination that supports compression.
pub fn delivery(display_name: Option<&[u8]>, stamp_cost: Option<u8>) -> (r: Vec<u8>)
    ensures
        r@ == delivery_bytes(
            (Delivery {
                name: match display_name {
                    Some(n) => Some(n@),
                    None => None,
                },
                cost: stamp_cost,
                compression: true,
            }),
        ),
{
    let announce = DeliveryAnnounce {
        display_name: match display_name {
            Some(n) => Some(to_vec(n)),
            None => None,
        },
        stamp_cost,
        compression_supported: true,
    };
    announce.encode()
}

/// Decoding an announce gives back what was encoded, but for a stamp cost of
/// 255, which is not announced.
pub proof fn law_delivery_round_trip(a: Delivery)
    requires
        a.name matches Some(n) ==> n.len() <= u32::MAX,
        delivery_bytes(a).len() <= usize::MAX,
    ensures
        delivery_of(delivery_bytes(a)) == Ok::<Delivery, msgpack::Error>(
            Delivery { cost: announced_cost(a.cost), ..a },
        ),
{
    let b = Delivery { cost: announced_cost(a.cost), ..a };
    assert(delivery_bytes(a) == delivery_bytes(b));
    lemma_delivery(b);
}

#[verifier::spinoff_prover]
#[verifier::rlimit(30)]
proof fn lemma_delivery(a: Delivery)
    requires
        a.cost != Some(255u8),
        a.name matches Some(n) ==> n.len() <= u32::MAX,
        delivery_bytes(a).len() <= usize::MAX,
    ensures
        delivery_of(delivery_bytes(a)) == Ok::<Delivery, msgpack::Error>(a),
{
    let d = delivery_bytes(a);
    let h0 = msgpack::array_header(3);
    let h1 = match a.name {
        Some(n) => msgpack::bin_bytes(n),
        None => msgpack::nil_bytes(),
    };
    let h2 = match a.cost {
        Some(c) => msgpack::uint_bytes(c as nat),
        None => msgpack::nil_bytes(),
    };
    let h3 = functions_bytes(a.compression);
    msgpack::lemma_at_whole(d);
    msgpack::lemma_at_concat(d, 0, h0 + h1 + h2, h3);
    msgpack::lemma_at_concat(d, 0, h0 + h1, h2);
    msgpack::lemma_at_concat(d, 0, h0, h1);
    let p0 = h0.len() as int;
    let p1 = p0 + h1.len();
    let p2 = p1 + h2.len();
    let p3 = p2 + h3.len();
    msgpack::law_array_header(d, 0, 3);
    lemma_array_marker(d, 0);
    match a.name {
        Some(n) => {
            msgpack::law_bin(d, p0, n, 0);
            lemma_not_nil(d, p0);
        },
        None => msgpack::law_nil(d, p0, 0),
    }
    match a.cost {
        Some(c) => msgpack::law_uint(d, p1, c as u64),
        None => msgpack::law_nil(d, p1, 0),
    }
    if a.compression {
        let u = msgpack::uint_bytes(SF_COMPRESSION as nat);
        msgpack::lemma_at_concat(d, p2, msgpack::array_header(1), u);
        msgpack::law_array_header(d, p2, 1);
        lemma_array_marker(d, p2);
        let q = p2 + msgpack::array_header(1).len();
        msgpack::law_uint(d, q, SF_COMPRESSION);
        reveal_with_fuel(msgpack::list_at, 2);
        let s = Seq::<u64>::empty().push(SF_COMPRESSION);
        assert(s[0] == SF_COMPRESSION);
        assert(msgpack::list_at(function_at(d), q, 1) == Ok::<(Seq<u64>, int), msgpack::Error>(
            (s, p3),
        ));
    } else {
        msgpack::law_array_header(d, p2, 0);
        lemma_array_marker(d, p2);
        assert(msgpack::list_at(function_at(d), p3, 0) == Ok::<(Seq<u64>, int), msgpack::Error>(
            (Seq::empty(), p3),
        ));
    }
    msgpack::lemma_skip_none(d, p3, msgpack::MAX_SKIP_DEPTH as nat);
}

proof fn lemma_array_marker(d: Seq<u8>, p: int)
    requires
        msgpack::kind_at(d, p) == Ok::<msgpack::Kind, msgpack::Error>(msgpack::Kind::Array),
    ensures
        array_next(d, p),
{
    reveal(msgpack::kind_of);
}

proof fn lemma_not_nil(d: Seq<u8>, p: int)
    requires
        msgpack::kind_at(d, p) == Ok::<msgpack::Kind, msgpack::Error>(msgpack::Kind::Other),
    ensures
        !nil_next(d, p),
{
    reveal(msgpack::kind_of);
}

} // verus!
