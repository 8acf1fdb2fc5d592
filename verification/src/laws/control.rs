//! The control protocol: which figure stands under which key.
use vstd::prelude::*;

use crate::control::{
    client_field_at, clients_entries, count_field_at, counts_entries, default_node, default_peer,
    item_bytes, map_bytes, node_entries, node_field_at, peer_entries, peer_field_at, peer_one,
    peers_bytes, reply_of, store_entries, store_field_at, tolerant, utf8, with_hash, with_name,
    with_opt, with_uint, ClientKey, CountKey, Entry, Item, NodeKey, NodeView, PeerKey, PeerView,
    Scalar, StoreKey,
};
use crate::ieee;
use crate::msgpack;

use super::ieee::law_whole_part;

verus! {

/// A map has this entry.
pub open spec fn tells(entries: Seq<Entry>, key: Seq<char>, item: Item) -> bool {
    exists|i: int|
        0 <= i < entries.len() && (#[trigger] entries[i]).key == key && entries[i].item == item
}

/// Each figure of a node stands under its own key, once.
pub proof fn law_node_statistics(v: NodeView)
    ensures
        node_entries(v).len() == 21,
        tells(node_entries(v), "identity_hash"@, Item::One(Scalar::Bytes(v.identity_hash))),
        tells(node_entries(v), "destination_hash"@, Item::One(Scalar::Bytes(v.destination_hash))),
        tells(node_entries(v), "uptime"@, Item::One(Scalar::Double(v.uptime_secs))),
        tells(node_entries(v), "delivery_limit"@, Item::One(Scalar::Opt(v.delivery_limit_kb))),
        tells(node_entries(v), "propagation_limit"@, Item::One(Scalar::Opt(v.propagation_limit_kb))),
        tells(node_entries(v), "sync_limit"@, Item::One(Scalar::Opt(v.sync_limit_kb))),
        tells(node_entries(v), "target_stamp_cost"@, Item::One(Scalar::Uint(v.target_stamp_cost))),
        tells(node_entries(v), "stamp_cost_flexibility"@, Item::One(Scalar::Uint(v.stamp_cost_flexibility))),
        tells(node_entries(v), "peering_cost"@, Item::One(Scalar::Uint(v.peering_cost))),
        tells(node_entries(v), "max_peering_cost"@, Item::One(Scalar::Uint(v.max_peering_cost))),
        tells(node_entries(v), "autopeer_maxdepth"@, Item::One(Scalar::Opt(v.autopeer_maxdepth))),
        tells(node_entries(v), "from_static_only"@, Item::One(Scalar::Flag(v.from_static_only))),
        tells(node_entries(v), "messagestore"@, Item::Raw(map_bytes(store_entries(v)))),
        tells(node_entries(v), "clients"@, Item::Raw(map_bytes(clients_entries(v)))),
        tells(node_entries(v), "unpeered_propagation_incoming"@, Item::One(Scalar::Uint(v.unpeered_propagation_incoming))),
        tells(node_entries(v), "unpeered_propagation_rx_bytes"@, Item::One(Scalar::Uint(v.unpeered_propagation_rx_bytes))),
        tells(node_entries(v), "static_peers"@, Item::One(Scalar::Uint(v.static_peers))),
        tells(node_entries(v), "discovered_peers"@, Item::One(Scalar::Uint(v.discovered_peers))),
        tells(node_entries(v), "total_peers"@, Item::One(Scalar::Uint(v.total_peers))),
        tells(node_entries(v), "max_peers"@, Item::One(Scalar::Opt(v.max_peers))),
        tells(node_entries(v), "peers"@, Item::Raw(peers_bytes(v.peers))),
{
    let e = node_entries(v);
    assert(e[0].key == "identity_hash"@);
    assert(e[1].key == "destination_hash"@);
    assert(e[2].key == "uptime"@);
    assert(e[3].key == "delivery_limit"@);
    assert(e[4].key == "propagation_limit"@);
    assert(e[5].key == "sync_limit"@);
    assert(e[6].key == "target_stamp_cost"@);
    assert(e[7].key == "stamp_cost_flexibility"@);
    assert(e[8].key == "peering_cost"@);
    assert(e[9].key == "max_peering_cost"@);
    assert(e[10].key == "autopeer_maxdepth"@);
    assert(e[11].key == "from_static_only"@);
    assert(e[12].key == "messagestore"@);
    assert(e[13].key == "clients"@);
    assert(e[14].key == "unpeered_propagation_incoming"@);
    assert(e[15].key == "unpeered_propagation_rx_bytes"@);
    assert(e[16].key == "static_peers"@);
    assert(e[17].key == "discovered_peers"@);
    assert(e[18].key == "total_peers"@);
    assert(e[19].key == "max_peers"@);
    assert(e[20].key == "peers"@);
}

/// The figures of the message store stand under their own keys.
pub proof fn law_store_statistics(v: NodeView)
    ensures
        store_entries(v).len() == 3,
        tells(store_entries(v), "count"@, Item::One(Scalar::Uint(v.messagestore_count))),
        tells(store_entries(v), "bytes"@, Item::One(Scalar::Uint(v.messagestore_bytes))),
        tells(store_entries(v), "limit"@, Item::One(Scalar::Opt(v.messagestore_limit_bytes))),
{
    let e = store_entries(v);
    assert(e[0].key == "count"@);
    assert(e[1].key == "bytes"@);
    assert(e[2].key == "limit"@);
}

/// The figures of the clients stand under their own keys.
pub proof fn law_client_statistics(v: NodeView)
    ensures
        clients_entries(v).len() == 2,
        tells(clients_entries(v), "client_propagation_messages_received"@, Item::One(Scalar::Uint(v.client_propagation_messages_received))),
        tells(clients_entries(v), "client_propagation_messages_served"@, Item::One(Scalar::Uint(v.client_propagation_messages_served))),
{
    let e = clients_entries(v);
    assert(e[0].key == "client_propagation_messages_received"@);
    assert(e[1].key == "client_propagation_messages_served"@);
}

/// Each figure of a peer stands under its own key, once.
pub proof fn law_peer_statistics(v: PeerView)
    ensures
        peer_entries(v).len() == 22,
        tells(peer_entries(v), "state"@, Item::One(Scalar::Uint(v.state))),
        tells(peer_entries(v), "alive"@, Item::One(Scalar::Flag(v.alive))),
        tells(peer_entries(v), "name"@, Item::One(Scalar::Name(v.name))),
        tells(peer_entries(v), "last_heard"@, Item::One(Scalar::Uint(v.last_heard))),
        tells(peer_entries(v), "next_sync_attempt"@, Item::One(Scalar::Uint(v.next_sync_attempt))),
        tells(peer_entries(v), "last_sync_attempt"@, Item::One(Scalar::Uint(v.last_sync_attempt))),
        tells(peer_entries(v), "sync_backoff"@, Item::One(Scalar::Uint(v.sync_backoff))),
        tells(peer_entries(v), "peering_timebase"@, Item::One(Scalar::Uint(v.peering_timebase))),
        tells(peer_entries(v), "ler"@, Item::One(Scalar::Uint(v.ler))),
        tells(peer_entries(v), "str"@, Item::One(Scalar::Uint(v.str_rate))),
        tells(peer_entries(v), "transfer_limit"@, Item::One(Scalar::Opt(v.transfer_limit_kb))),
        tells(peer_entries(v), "sync_limit"@, Item::One(Scalar::Opt(v.sync_limit_kb))),
        tells(peer_entries(v), "target_stamp_cost"@, Item::One(Scalar::Opt(v.target_stamp_cost))),
        tells(peer_entries(v), "stamp_cost_flexibility"@, Item::One(Scalar::Opt(v.stamp_cost_flexibility))),
        tells(peer_entries(v), "peering_cost"@, Item::One(Scalar::Opt(v.peering_cost))),
        tells(peer_entries(v), "peering_key"@, Item::One(Scalar::Opt(v.peering_key_value))),
        tells(peer_entries(v), "network_distance"@, Item::One(Scalar::Uint(v.network_distance))),
        tells(peer_entries(v), "rx_bytes"@, Item::One(Scalar::Uint(v.rx_bytes))),
        tells(peer_entries(v), "tx_bytes"@, Item::One(Scalar::Uint(v.tx_bytes))),
        tells(peer_entries(v), "acceptance_rate"@, Item::One(Scalar::Double(v.acceptance_rate))),
        tells(peer_entries(v), "messages"@, Item::Raw(map_bytes(counts_entries(v)))),
        v.is_static ==> tells(peer_entries(v), "type"@, Item::One(Scalar::Text(utf8("static"@)))),
        !v.is_static ==> tells(
            peer_entries(v),
            "type"@,
            Item::One(Scalar::Text(utf8("discovered"@))),
        ),
{
    let e = peer_entries(v);
    assert(e[0].key == "type"@);
    assert(e[1].key == "state"@);
    assert(e[2].key == "alive"@);
    assert(e[3].key == "name"@);
    assert(e[4].key == "last_heard"@);
    assert(e[5].key == "next_sync_attempt"@);
    assert(e[6].key == "last_sync_attempt"@);
    assert(e[7].key == "sync_backoff"@);
    assert(e[8].key == "peering_timebase"@);
    assert(e[9].key == "ler"@);
    assert(e[10].key == "str"@);
    assert(e[11].key == "transfer_limit"@);
    assert(e[12].key == "sync_limit"@);
    assert(e[13].key == "target_stamp_cost"@);
    assert(e[14].key == "stamp_cost_flexibility"@);
    assert(e[15].key == "peering_cost"@);
    assert(e[16].key == "peering_key"@);
    assert(e[17].key == "network_distance"@);
    assert(e[18].key == "rx_bytes"@);
    assert(e[19].key == "tx_bytes"@);
    assert(e[20].key == "acceptance_rate"@);
    assert(e[21].key == "messages"@);
}

/// The message counts of a peer stand under their own keys.
pub proof fn law_message_counts(v: PeerView)
    ensures
        counts_entries(v).len() == 4,
        tells(counts_entries(v), "offered"@, Item::One(Scalar::Uint(v.offered))),
        tells(counts_entries(v), "outgoing"@, Item::One(Scalar::Uint(v.outgoing))),
        tells(counts_entries(v), "incoming"@, Item::One(Scalar::Uint(v.incoming))),
        tells(counts_entries(v), "unhandled"@, Item::One(Scalar::Uint(v.unhandled))),
{
    let e = counts_entries(v);
    assert(e[0].key == "offered"@);
    assert(e[1].key == "outgoing"@);
    assert(e[2].key == "incoming"@);
    assert(e[3].key == "unhandled"@);
}

/// Absent figures are nil; texts, flags and numbers are what they are.
pub proof fn law_figures(v: u64, b: Seq<u8>)
    ensures
        item_bytes(Item::One(Scalar::Opt(None))) == seq![0xc0u8],
        item_bytes(Item::One(Scalar::Name(None))) == seq![0xc0u8],
        item_bytes(Item::One(Scalar::Opt(Some(v)))) == item_bytes(Item::One(Scalar::Uint(v))),
        item_bytes(Item::One(Scalar::Uint(v))) == msgpack::uint_bytes(v as nat),
        item_bytes(Item::One(Scalar::Flag(true))) == seq![0xc3u8],
        item_bytes(Item::One(Scalar::Flag(false))) == seq![0xc2u8],
        item_bytes(Item::One(Scalar::Name(Some(b)))) == msgpack::str_bytes(b),
        item_bytes(Item::One(Scalar::Text(b))) == msgpack::str_bytes(b),
        item_bytes(Item::One(Scalar::Bytes(b))) == msgpack::bin_bytes(b),
        item_bytes(Item::One(Scalar::Double(v))) == msgpack::double_bytes(v),
        item_bytes(Item::Raw(b)) == b,
{
}

/// A peer stands in the map of peers as its hash and then its own map.
pub proof fn law_peer_of_the_map(p: PeerView)
    ensures
        peer_one()(p) == msgpack::bin_bytes(p.peer_id) + map_bytes(peer_entries(p)),
        peers_bytes(seq![p]) == msgpack::map_header(1) + (msgpack::bin_bytes(p.peer_id) + map_bytes(
            peer_entries(p),
        )),
{
    let one = seq![p];
    assert(one.drop_last() =~= Seq::<PeerView>::empty());
    reveal_with_fuel(msgpack::list_bytes, 2);
    assert(msgpack::list_bytes(peer_one(), one) =~= peer_one()(p));
}

/// What is not told has a default: nothing, but 128 hops to a peer.
pub proof fn law_defaults(id: Seq<u8>)
    ensures
        ({
            let p = default_peer(id);
            &&& p.peer_id == id
            &&& !p.is_static && !p.alive && p.name is None
            &&& p.network_distance == 128
            &&& p.state == 0 && p.last_heard == 0 && p.next_sync_attempt == 0 && p.last_sync_attempt
                == 0 && p.sync_backoff == 0 && p.peering_timebase == 0 && p.ler == 0 && p.str_rate
                == 0
            &&& p.transfer_limit_kb is None && p.sync_limit_kb is None && p.target_stamp_cost is None
                && p.stamp_cost_flexibility is None && p.peering_cost is None && p.peering_key_value
                is None
            &&& p.rx_bytes == 0 && p.tx_bytes == 0 && p.acceptance_rate == 0 && p.offered == 0
                && p.outgoing == 0 && p.incoming == 0 && p.unhandled == 0
        }),
        ({
            let n = default_node();
            &&& n.identity_hash == Seq::new(16, |i: int| 0u8)
            &&& n.destination_hash == Seq::new(16, |i: int| 0u8)
            &&& n.uptime_secs == 0 && n.target_stamp_cost == 0 && n.stamp_cost_flexibility == 0
                && n.peering_cost == 0 && n.max_peering_cost == 0
            &&& n.delivery_limit_kb is None && n.propagation_limit_kb is None && n.sync_limit_kb
                is None && n.autopeer_maxdepth is None && n.messagestore_limit_bytes is None
                && n.max_peers is None
            &&& !n.from_static_only
            &&& n.messagestore_count == 0 && n.messagestore_bytes == 0
            &&& n.client_propagation_messages_received == 0 && n.client_propagation_messages_served
                == 0 && n.unpeered_propagation_incoming == 0 && n.unpeered_propagation_rx_bytes == 0
            &&& n.static_peers == 0 && n.discovered_peers == 0 && n.total_peers == 0
            &&& n.peers.len() == 0
        }),
{
}

/// A count that came as a number of any form is its whole part; a negative
/// one, and what is no finite number, counts as none.
pub proof fn law_counts(bits: u64, k: nat)
    ensures
        ieee::is_negative(bits) || !ieee::finite(bits) ==> tolerant(bits) == 0,
        !ieee::is_negative(bits) && ieee::finite(bits) && k <= u64::MAX && k * ieee::p2(1074)
            <= ieee::magnitude(bits) < (k + 1) * ieee::p2(1074) ==> tolerant(bits) == k,
{
    if ieee::finite(bits) {
        law_whole_part(bits, k);
        law_whole_part(bits, k + 1);
    }
}

/// A value under an unknown key is passed over and changes nothing; an unknown
/// message count must be a number.
pub proof fn law_unknown_keys(d: Seq<u8>, p: int, s: PeerView, n: NodeView)
    ensures
        ({
            let skip = msgpack::skip_at(d, p, 64);
            let a = peer_field_at(d, p, s, PeerKey::Unknown);
            let b = node_field_at(d, p, n, NodeKey::Unknown);
            let e = store_field_at(d, p, n, StoreKey::Unknown);
            let f = client_field_at(d, p, n, ClientKey::Unknown);
            let g = count_field_at(d, p, s, CountKey::Unknown);
            &&& skip is Ok ==> super::gives(a, s, skip->Ok_0) && super::gives(b, n, skip->Ok_0)
                && super::gives(e, n, skip->Ok_0) && super::gives(f, n, skip->Ok_0)
            &&& skip is Err ==> a is Err && b is Err && e is Err && f is Err
            &&& msgpack::number_bits_at(d, p) is Ok ==> super::gives(
                g,
                s,
                msgpack::number_bits_at(d, p)->Ok_0.1,
            )
            &&& msgpack::number_bits_at(d, p) is Err ==> g is Err
        }),
{
}

/// An optional figure is absent where it is nil and a count otherwise; a hash
/// has 16 bytes; a name is a text, or bytes that are one.
pub proof fn law_forms_of_figures(d: Seq<u8>, p: int)
    ensures
        ({
            let kind = msgpack::kind_at(d, p);
            let o = with_opt(d, p, |v: Option<u64>| v);
            let u = with_uint(d, p, |v: u64| v);
            let h = with_hash(d, p, |v: Seq<u8>| v);
            let n = with_name(d, p, |v: Option<Seq<u8>>| v);
            &&& o is Ok && kind == Ok::<msgpack::Kind, msgpack::Error>(msgpack::Kind::Nil)
                ==> o->Ok_0.0 is None
            &&& o is Ok && kind != Ok::<msgpack::Kind, msgpack::Error>(msgpack::Kind::Nil) ==> u is Ok
                && o->Ok_0 == (Some(u->Ok_0.0), u->Ok_0.1)
            &&& h is Ok <==> msgpack::bin_at(d, p) is Ok && msgpack::bin_at(d, p)->Ok_0.0.len() == 16
            &&& h is Ok ==> h->Ok_0 == msgpack::bin_at(d, p)->Ok_0
            &&& n is Ok && n->Ok_0.0 is Some && kind == Ok::<msgpack::Kind, msgpack::Error>(
                msgpack::Kind::Str,
            ) ==> n->Ok_0.0->Some_0 == msgpack::str_at(d, p)->Ok_0.0
            &&& n is Ok && kind == Ok::<msgpack::Kind, msgpack::Error>(msgpack::Kind::Str)
                ==> n->Ok_0.0 is Some
            &&& kind == Ok::<msgpack::Kind, msgpack::Error>(msgpack::Kind::Other) && msgpack::bin_at(
                d,
                p,
            ) is Ok ==> n is Ok && n->Ok_0.1 == msgpack::bin_at(d, p)->Ok_0.1 && n->Ok_0.0
                == if vstd::utf8::valid_utf8(msgpack::bin_at(d, p)->Ok_0.0) {
                Some(msgpack::bin_at(d, p)->Ok_0.0)
            } else {
                None
            }
        }),
{
}

/// A response is told by its first byte: a map is the statistics, true an
/// acceptance, nil nothing, false no response at all, and any other a code.
pub proof fn law_replies(d: Seq<u8>)
    ensures
        ({
            let r = reply_of(d);
            let kind = msgpack::kind_at(d, 0);
            &&& r is Ok && r->Ok_0 is Ack <==> kind == Ok::<msgpack::Kind, msgpack::Error>(
                msgpack::Kind::True,
            )
            &&& r is Ok && r->Ok_0 is Nil <==> kind == Ok::<msgpack::Kind, msgpack::Error>(
                msgpack::Kind::Nil,
            )
            &&& r is Ok && r->Ok_0 is Stats ==> kind == Ok::<msgpack::Kind, msgpack::Error>(
                msgpack::Kind::Mapping,
            )
            &&& kind == Ok::<msgpack::Kind, msgpack::Error>(msgpack::Kind::False) ==> r is Err
            &&& r is Ok && r->Ok_0 is Error ==> msgpack::uint_at(d, 0) is Ok
                && crate::propagation::peer_error_of(msgpack::uint_at(d, 0)->Ok_0.0) is Ok
                && r->Ok_0->Error_0 == crate::propagation::peer_error_of(
                msgpack::uint_at(d, 0)->Ok_0.0,
            )->Ok_0
            &&& kind is Err ==> r is Err
        }),
{
}

} // verus!
