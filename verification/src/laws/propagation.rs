//! The exchange with a propagation node: where each value stands on the wire.
use vstd::prelude::*;

use crate::ieee;
use crate::msgpack;
use crate::propagation::{
    announce_bytes, announce_limit_at, announce_of, bins_bytes, costs_at, get_request_bytes,
    get_request_of, ids_at, listing_of, metadata_at, metadata_entry_at, opt_ids_at, opt_ids_bytes,
    peer_error_at, peer_error_of, signal_bytes, signal_of, transfer_limit_at, unsealed,
    upload_bytes, upload_of, GetRequest, Listing, NodeAnnounce, PeerError, PropagationError,
    TransferLimit, Upload,
};

use super::gives;

verus! {

/// The first element of a request is what is wanted, the second what is
/// confirmed, and a third the limit.
pub proof fn law_get_request_elements(
    d: Seq<u8>,
    n: nat,
    p0: int,
    wants: Option<Seq<Seq<u8>>>,
    p1: int,
    haves: Option<Seq<Seq<u8>>>,
    p2: int,
)
    requires
        gives(msgpack::array_len_at(d, 0), n, p0),
        gives(opt_ids_at(d, p0), wants, p1),
        gives(opt_ids_at(d, p1), haves, p2),
    ensures
        n == 2 ==> get_request_of(d) == if p2 == d.len() {
            Ok::<GetRequest, PropagationError>(GetRequest { wants, haves, limit: None })
        } else {
            Err(PropagationError::TrailingData)
        },
        forall|limit: TransferLimit, p3: int|
            n == 3 && #[trigger] gives(transfer_limit_at(d, p2), limit, p3) ==> get_request_of(d)
                == if p3 == d.len() {
                Ok::<GetRequest, PropagationError>(GetRequest { wants, haves, limit: Some(limit) })
            } else {
                Err(PropagationError::TrailingData)
            },
        n == 3 && transfer_limit_at(d, p2) is Err ==> get_request_of(d) is Err,
        n != 2 && n != 3 ==> get_request_of(d) == Err::<GetRequest, PropagationError>(
            PropagationError::InvalidLength,
        ),
{
}

/// A request whose lists cannot be read is no request.
pub proof fn law_get_request_is_read(d: Seq<u8>)
    requires
        get_request_of(d) is Ok,
    ensures
        ({
            let g = get_request_of(d)->Ok_0;
            let (n, p0) = msgpack::array_len_at(d, 0)->Ok_0;
            let p1 = opt_ids_at(d, p0)->Ok_0.1;
            let p2 = opt_ids_at(d, p1)->Ok_0.1;
            &&& msgpack::array_len_at(d, 0) is Ok
            &&& gives(opt_ids_at(d, p0), g.wants, p1)
            &&& gives(opt_ids_at(d, p1), g.haves, p2)
            &&& n == 2 ==> g.limit is None && p2 == d.len()
            &&& n != 2 ==> n == 3 && g.limit is Some && gives(
                transfer_limit_at(d, p2),
                g.limit->Some_0,
                d.len() as int,
            )
        }),
{
}

/// A list that may be absent is nil or a list of identifiers.
pub proof fn law_optional_list(d: Seq<u8>, p: int)
    requires
        0 <= p < d.len() <= usize::MAX,
    ensures
        d[p] == 0xc0 ==> gives(opt_ids_at(d, p), None, p + 1),
        forall|ids: Seq<Seq<u8>>, q: int| #[trigger]
            gives(opt_ids_at(d, p), Some(ids), q) ==> gives(ids_at(d, p), ids, q),
{
    reveal(msgpack::kind_of);
    if d[p] == 0xc0 {
        assert(d.subrange(p, p + 1) =~= msgpack::nil_bytes());
        msgpack::law_nil(d, p, 0);
    }
}

/// The header of a list of fewer than sixteen values is one byte; the header of
/// any list is the same whatever its values are.
pub proof fn law_list_header(s: Seq<Seq<u8>>, t: Seq<Seq<u8>>)
    requires
        s.len() == t.len(),
        s.len() < 16,
    ensures
        bins_bytes(s)[0] == 0x90 + s.len(),
        bins_bytes(t)[0] == 0x90 + s.len(),
        s.len() == 0 ==> bins_bytes(s) == seq![0x90u8],
{
    reveal(msgpack::array_header);
    let one = |v: Seq<u8>| msgpack::bin_bytes(v);
    if s.len() == 0 {
        assert(msgpack::list_bytes(one, s) =~= Seq::empty());
        assert(bins_bytes(s) =~= seq![0x90u8]);
    }
}

/// One more value in a list of fewer than fifteen stands behind all the others.
pub proof fn law_list_goes_on(s: Seq<Seq<u8>>, v: Seq<u8>)
    requires
        s.len() < 15,
    ensures
        bins_bytes(s.push(v)).skip(1) == bins_bytes(s).skip(1) + msgpack::bin_bytes(v),
{
    reveal(msgpack::array_header);
    let one = |v: Seq<u8>| msgpack::bin_bytes(v);
    assert(s.push(v).drop_last() =~= s);
    assert(bins_bytes(s.push(v)).skip(1) =~= bins_bytes(s).skip(1) + msgpack::bin_bytes(v));
}

/// An identifier on the wire is a bin header and its bytes.
pub proof fn law_identifier_bytes(id: Seq<u8>)
    requires
        id.len() == 32,
    ensures
        msgpack::bin_bytes(id) == seq![0xc4u8, 0x20u8] + id,
{
    reveal(msgpack::bin_head);
    reveal_with_fuel(msgpack::be_bytes, 3);
    assert(msgpack::be_bytes(32, 1) =~= seq![0x20u8]);
    assert(msgpack::bin_bytes(id) =~= seq![0xc4u8, 0x20u8] + id);
}

/// A request is the header of two or three elements, then the wants, then the
/// haves, then the limit; an absent list is the one byte nil.
pub proof fn law_get_request_layout(g: GetRequest)
    ensures
        ({
            let d = get_request_bytes(g);
            let w = match g.wants {
                Some(ids) => bins_bytes(ids),
                None => seq![0xc0u8],
            };
            let h = match g.haves {
                Some(ids) => bins_bytes(ids),
                None => seq![0xc0u8],
            };
            &&& g.limit is None ==> d == seq![0x92u8] + w + h
            &&& g.limit matches Some(TransferLimit::Integer(k)) ==> d == seq![0x93u8] + w + h
                + msgpack::uint_bytes(k as nat)
            &&& g.limit matches Some(TransferLimit::Float(bits)) ==> d == seq![0x93u8] + w + h
                + msgpack::double_bytes(bits)
        }),
{
    reveal(msgpack::array_header);
    let d = get_request_bytes(g);
    if g.limit is None {
        assert(d =~= seq![0x92u8] + opt_ids_bytes(g.wants) + opt_ids_bytes(g.haves));
    }
}

/// A limit keeps its form: an integer is read as one, and a float by its bits.
pub proof fn law_limit_forms(d: Seq<u8>, p: int)
    requires
        0 <= p < d.len() <= usize::MAX,
    ensures
        forall|bits: u64, q: int|
            #![trigger gives(msgpack::double_at(d, p), bits, q)]
            gives(msgpack::double_at(d, p), bits, q) ==> gives(
                transfer_limit_at(d, p),
                TransferLimit::Float(bits),
                q,
            ),
        forall|k: u64, q: int|
            #![trigger gives(msgpack::uint_at(d, p), k, q)]
            gives(msgpack::uint_at(d, p), k, q) ==> gives(
                transfer_limit_at(d, p),
                TransferLimit::Integer(k),
                q,
            ),
{
    reveal(msgpack::kind_of);
    reveal(msgpack::int_at);
    reveal(msgpack::double_at);
}

/// An upload is the time and a list of one message, whose last 32 bytes are the
/// stamp. What is too short to hold more than a destination and a stamp is
/// refused, and several messages are told apart from one.
pub proof fn law_upload_elements(
    d: Seq<u8>,
    n: nat,
    p0: int,
    timestamp: u64,
    p1: int,
    k: nat,
    p2: int,
)
    requires
        gives(msgpack::array_len_at(d, 0), n, p0),
        gives(msgpack::number_bits_at(d, p0), timestamp, p1),
        gives(msgpack::array_len_at(d, p1), k, p2),
    ensures
        forall|unstamped: Seq<u8>, stamp: Seq<u8>, p3: int|
            n == 2 && k == 1 && stamp.len() == 32 && #[trigger] gives(
                msgpack::bin_at(d, p2),
                unstamped + stamp,
                p3,
            ) ==> upload_of(d) == if unstamped.len() > 16 {
                Ok::<Upload, PropagationError>(Upload { timestamp, unstamped, stamp })
            } else {
                Err(PropagationError::InvalidLength)
            },
        n == 2 && k > 1 ==> upload_of(d) == Err::<Upload, PropagationError>(
            PropagationError::MultipleMessages,
        ),
        n == 2 && k == 0 ==> upload_of(d) == Err::<Upload, PropagationError>(
            PropagationError::InvalidLength,
        ),
        n != 2 ==> upload_of(d) == Err::<Upload, PropagationError>(PropagationError::InvalidLength),
{
    assert forall|unstamped: Seq<u8>, stamp: Seq<u8>, p3: int|
        n == 2 && k == 1 && stamp.len() == 32 && #[trigger] gives(
            msgpack::bin_at(d, p2),
            unstamped + stamp,
            p3,
        ) implies upload_of(d) == if unstamped.len() > 16 {
        Ok::<Upload, PropagationError>(Upload { timestamp, unstamped, stamp })
    } else {
        Err(PropagationError::InvalidLength)
    } by {
        let s = unstamped + stamp;
        assert(s.take(s.len() - 32) =~= unstamped);
        assert(s.skip(s.len() - 32) =~= stamp);
    }
}

/// What is read as an upload is one message with its stamp behind it.
pub proof fn law_upload_is_read(d: Seq<u8>)
    requires
        upload_of(d) is Ok,
    ensures
        ({
            let u = upload_of(d)->Ok_0;
            let (n, p0) = msgpack::array_len_at(d, 0)->Ok_0;
            let (timestamp, p1) = msgpack::number_bits_at(d, p0)->Ok_0;
            let (k, p2) = msgpack::array_len_at(d, p1)->Ok_0;
            &&& msgpack::array_len_at(d, 0) is Ok
            &&& msgpack::number_bits_at(d, p0) is Ok
            &&& msgpack::array_len_at(d, p1) is Ok
            &&& n == 2
            &&& k == 1
            &&& u.timestamp == timestamp
            &&& u.stamp.len() == 32
            &&& u.unstamped.len() > 16
            &&& msgpack::bin_at(d, p2) matches Ok((s, _)) && s == u.unstamped + u.stamp
        }),
{
    let p0 = msgpack::array_len_at(d, 0)->Ok_0.1;
    let p1 = msgpack::number_bits_at(d, p0)->Ok_0.1;
    let p2 = msgpack::array_len_at(d, p1)->Ok_0.1;
    let s = msgpack::bin_at(d, p2)->Ok_0.0;
    assert(s =~= s.take(s.len() - 32) + s.skip(s.len() - 32));
}

/// A written upload is a pair of the time and a list of the message followed by
/// its stamp.
pub proof fn law_upload_layout(u: Upload)
    ensures
        upload_bytes(u) == seq![0x92u8] + msgpack::double_bytes(u.timestamp) + seq![0x91u8]
            + msgpack::bin_bytes(u.unstamped + u.stamp),
{
    reveal(msgpack::array_header);
}

/// A node tells of itself in seven elements: whether it supports old clients,
/// its timebase, whether it is enabled, its limit per transfer, its limit per
/// sync, its three costs, and metadata.
pub proof fn law_announce_elements(
    d: Seq<u8>,
    p0: int,
    legacy_support: bool,
    p1: int,
    timebase: u64,
    p2: int,
    enabled: bool,
    p3: int,
    transfer_limit_kb: u64,
    p4: int,
    sync_limit_kb: u64,
    p5: int,
    costs: (u64, u64, u64),
    p6: int,
    metadata: Seq<(u64, Seq<u8>)>,
    p7: int,
)
    requires
        gives(msgpack::array_len_at(d, 0), 7, p0),
        gives(msgpack::bool_at(d, p0), legacy_support, p1),
        gives(msgpack::uint_at(d, p1), timebase, p2),
        gives(msgpack::bool_at(d, p2), enabled, p3),
        gives(announce_limit_at(d, p3), transfer_limit_kb, p4),
        gives(announce_limit_at(d, p4), sync_limit_kb, p5),
        gives(costs_at(d, p5), costs, p6),
        gives(metadata_at(d, p6), metadata, p7),
    ensures
        announce_of(d) == if p7 == d.len() {
            Ok::<NodeAnnounce, PropagationError>(
                NodeAnnounce {
                    legacy_support,
                    timebase,
                    enabled,
                    transfer_limit_kb,
                    sync_limit_kb,
                    stamp_cost: costs.0,
                    stamp_cost_flexibility: costs.1,
                    peering_cost: costs.2,
                    metadata,
                },
            )
        } else {
            Err(PropagationError::TrailingData)
        },
{
    msgpack::lemma_skip_many_at(d, p7, 0, msgpack::MAX_SKIP_DEPTH as nat);
}

/// The costs are the stamp cost, its flexibility and the peering cost.
pub proof fn law_cost_elements(
    d: Seq<u8>,
    p: int,
    p0: int,
    cost: u64,
    p1: int,
    flexibility: u64,
    p2: int,
    peering: u64,
    p3: int,
)
    requires
        gives(msgpack::array_len_at(d, p), 3, p0),
        gives(msgpack::uint_at(d, p0), cost, p1),
        gives(msgpack::uint_at(d, p1), flexibility, p2),
        gives(msgpack::uint_at(d, p2), peering, p3),
    ensures
        gives(costs_at(d, p), (cost, flexibility, peering), p3),
{
    msgpack::lemma_skip_many_at(d, p3, 0, msgpack::MAX_SKIP_DEPTH as nat);
}

/// A metadata entry is its key and its value as it stands.
pub proof fn law_metadata_elements(d: Seq<u8>, p: int, key: u64, q: int, value: Seq<u8>, t: int)
    requires
        gives(msgpack::uint_at(d, p), key, q),
        gives(msgpack::raw_at(d, q), value, t),
    ensures
        gives(metadata_entry_at(d)(p), (key, value), t),
{
}

/// A written announce is a list of its seven elements, in the order in which
/// they are read.
pub proof fn law_announce_layout(a: NodeAnnounce)
    ensures
        ({
            let flag = |b: bool|
                if b {
                    seq![0xc3u8]
                } else {
                    seq![0xc2u8]
                };
            let head = seq![0x97u8] + flag(a.legacy_support) + msgpack::uint_bytes(
                a.timebase as nat,
            ) + flag(a.enabled) + msgpack::uint_bytes(a.transfer_limit_kb as nat)
                + msgpack::uint_bytes(a.sync_limit_kb as nat) + seq![0x93u8] + msgpack::uint_bytes(
                a.stamp_cost as nat,
            ) + msgpack::uint_bytes(a.stamp_cost_flexibility as nat) + msgpack::uint_bytes(
                a.peering_cost as nat,
            );
            &&& announce_bytes(a).len() >= head.len()
            &&& announce_bytes(a).take(head.len() as int) == head
            &&& a.metadata.len() == 0 ==> announce_bytes(a) == head + seq![0x80u8]
        }),
{
    reveal(msgpack::array_header);
    reveal(msgpack::map_header);
    let flag = |b: bool|
        if b {
            seq![0xc3u8]
        } else {
            seq![0xc2u8]
        };
    let head = seq![0x97u8] + flag(a.legacy_support) + msgpack::uint_bytes(a.timebase as nat)
        + flag(a.enabled) + msgpack::uint_bytes(a.transfer_limit_kb as nat) + msgpack::uint_bytes(
        a.sync_limit_kb as nat,
    ) + seq![0x93u8] + msgpack::uint_bytes(a.stamp_cost as nat) + msgpack::uint_bytes(
        a.stamp_cost_flexibility as nat,
    ) + msgpack::uint_bytes(a.peering_cost as nat);
    let d = announce_bytes(a);
    assert(d.take(head.len() as int) =~= head);
    if a.metadata.len() == 0 {
        assert(crate::propagation::metadata_bytes(a.metadata) =~= Seq::empty());
        assert(d =~= head + seq![0x80u8]);
    }
}

/// Each error has its own code, a code stands for one error at most, and no
/// other code is an error.
pub proof fn law_error_codes(e: PeerError, code: u64)
    ensures
        peer_error_of(e.spec_code() as u64) == Ok::<PeerError, PropagationError>(e),
        peer_error_of(code) == Ok::<PeerError, PropagationError>(e) ==> code == e.spec_code(),
        e is NoIdentity ==> e.spec_code() == 0xf0,
        e is NoAccess ==> e.spec_code() == 0xf1,
        e is InvalidKey ==> e.spec_code() == 0xf3,
        e is InvalidData ==> e.spec_code() == 0xf4,
        e is InvalidStamp ==> e.spec_code() == 0xf5,
        e is Throttled ==> e.spec_code() == 0xf6,
        e is NotFound ==> e.spec_code() == 0xfd,
        e is Timeout ==> e.spec_code() == 0xfe,
{
}

/// A response is a list where it begins as one, and an error otherwise; the
/// values of the list come in the order in which they stand.
pub proof fn law_listing_is_read(
    d: Seq<u8>,
    item: spec_fn(int) -> Result<(Seq<u8>, int), PropagationError>,
)
    requires
        0 < d.len() <= usize::MAX,
    ensures
        forall|n: nat, p: int, s: Seq<Seq<u8>>, q: int|
            #![trigger gives(msgpack::array_len_at(d, 0), n, p), gives(msgpack::list_at(item, p, n), s, q)]
            gives(msgpack::array_len_at(d, 0), n, p) && n <= d.len() - p && gives(
                msgpack::list_at(item, p, n),
                s,
                q,
            ) ==> listing_of(d, item) == if q == d.len() {
                Ok::<Listing, PropagationError>(Listing::Values(s))
            } else {
                Err(PropagationError::TrailingData)
            },
        forall|e: PeerError, q: int|
            #![trigger gives(peer_error_at(d, 0), e, q)]
            gives(peer_error_at(d, 0), e, q) ==> listing_of(d, item) == if q == d.len() {
                Ok::<Listing, PropagationError>(Listing::Failure(e))
            } else {
                Err(PropagationError::TrailingData)
            },
{
    reveal(msgpack::kind_of);
    reveal(msgpack::int_at);
    reveal(msgpack::array_len_at);
}

/// The refusal of an upload is a list of the one code.
pub proof fn law_signal_layout(d: Seq<u8>)
    ensures
        signal_bytes() == seq![0x91u8, 0xccu8, 0xf5u8],
        signal_of(d) is Ok ==> ({
            let (n, p) = msgpack::array_len_at(d, 0)->Ok_0;
            &&& msgpack::array_len_at(d, 0) is Ok
            &&& n == 1
            &&& gives(peer_error_at(d, p), PeerError::InvalidStamp, d.len() as int)
        }),
{
    reveal(msgpack::array_header);
    reveal(msgpack::uint_bytes);
    reveal_with_fuel(msgpack::be_bytes, 3);
    assert(msgpack::be_bytes(0xf5, 1) =~= seq![0xf5u8]);
    assert(signal_bytes() =~= seq![0x91u8, 0xccu8, 0xf5u8]);
}

/// A message is decrypted for the destination that it names, which then stands
/// in front of what was decrypted.
pub proof fn law_unsealed(
    parts: (Seq<u8>, Seq<u8>),
    destination: Seq<u8>,
    plaintext: Option<&[u8]>,
    r: Result<Vec<u8>, PropagationError>,
)
    requires
        unsealed(parts, destination, plaintext, r),
    ensures
        r is Ok <==> parts.0 == destination && plaintext is Some,
        r is Ok ==> r->Ok_0@ == destination + plaintext->Some_0@,
        parts.0 != destination ==> r->Err_0 == PropagationError::WrongDestination,
        parts.0 == destination && plaintext is None ==> r->Err_0 == PropagationError::Decryption,
{
}

/// A limit in an announce that is a float is its whole part; it is refused
/// where it is below zero or not finite, and where it does not fit 64 bits.
pub proof fn law_float_limits(d: Seq<u8>, p: int, bits: u64, q: int, k: nat)
    requires
        msgpack::kind_at(d, p) == Ok::<msgpack::Kind, msgpack::Error>(msgpack::Kind::Float),
        gives(msgpack::number_bits_at(d, p), bits, q),
    ensures
        !ieee::finite(bits) ==> announce_limit_at(d, p) is Err,
        ieee::finite(bits) && !ieee::is_negative(bits) && bits < 0x43f0_0000_0000_0000 && k
            <= u64::MAX && k * ieee::p2(1074) <= ieee::magnitude(bits) < (k + 1) * ieee::p2(1074)
            ==> gives(announce_limit_at(d, p), k as u64, q),
        bits >= 0x43f0_0000_0000_0000 && !ieee::is_negative(bits) ==> announce_limit_at(d, p) is Err,
        ieee::is_negative(bits) && bits != 0x8000_0000_0000_0000 ==> announce_limit_at(d, p) is Err,
{
    if ieee::finite(bits) {
        super::ieee::law_whole_part(bits, k);
        super::ieee::law_whole_part(bits, k + 1);
    }
}

} // verus!
