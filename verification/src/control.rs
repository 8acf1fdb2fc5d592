//! Remote management of a propagation node: the request paths of its control
//! destination and the codec of their payloads.
//!
//! The stats response is a MessagePack map with text keys. A trigger that was
//! accepted is answered `true`, and every refusal is an error code.
use vstd::prelude::*;

use crate::bytemap::{same_bytes, to_array, to_vec};
use crate::ieee;
use crate::msgpack;
use crate::propagation::PeerError;
use crate::text::string_from_utf8;

verus! {

pub const STATS_GET_PATH: &'static str = "/pn/get/stats";

pub const SYNC_REQUEST_PATH: &'static str = "/pn/peer/sync";

pub const UNPEER_REQUEST_PATH: &'static str = "/pn/peer/unpeer";

/// The hop count that means "unknown".
pub const HOPS_UNKNOWN: u64 = 128;

/// Integers up to here read back exactly through a binary64 number.
pub const EXACT: u64 = 0x20_0000_0000_0000;

/// Aspects of the control destination.
pub const CONTROL_ASPECTS: [&'static str; 2] = ["propagation", "control"];

/// The statistics of one peer.
#[derive(Debug, Clone, PartialEq)]
pub struct ControlPeerStats {
    /// The peer's propagation destination.
    pub peer_id: [u8; 16],
    pub is_static: bool,
    /// Place on the transport-state ladder.
    pub state: u64,
    pub alive: bool,
    pub name: Option<String>,
    pub last_heard: u64,
    pub next_sync_attempt: u64,
    pub last_sync_attempt: u64,
    pub sync_backoff: u64,
    pub peering_timebase: u64,
    /// Link-establishment rate, bits per second.
    pub ler: u64,
    /// Sync-transfer rate, bits per second.
    pub str_rate: u64,
    pub transfer_limit_kb: Option<u64>,
    pub sync_limit_kb: Option<u64>,
    pub target_stamp_cost: Option<u64>,
    pub stamp_cost_flexibility: Option<u64>,
    pub peering_cost: Option<u64>,
    /// Value of the mined peering key.
    pub peering_key_value: Option<u64>,
    /// Hops to the peer; [`HOPS_UNKNOWN`] without a path.
    pub network_distance: u64,
    pub rx_bytes: u64,
    pub tx_bytes: u64,
    /// Bit pattern of a binary64 number.
    pub acceptance_rate: u64,
    pub offered: u64,
    pub outgoing: u64,
    pub incoming: u64,
    pub unhandled: u64,
}

/// The statistics of a node. The transfer limits are kilobytes of 1000 bytes.
#[derive(Debug, Clone, PartialEq)]
pub struct ControlNodeStats {
    pub identity_hash: [u8; 16],
    pub destination_hash: [u8; 16],
    /// Bit pattern of a binary64 number.
    pub uptime_secs: u64,
    pub delivery_limit_kb: Option<u64>,
    pub propagation_limit_kb: Option<u64>,
    pub sync_limit_kb: Option<u64>,
    pub target_stamp_cost: u64,
    pub stamp_cost_flexibility: u64,
    pub peering_cost: u64,
    pub max_peering_cost: u64,
    pub autopeer_maxdepth: Option<u64>,
    pub from_static_only: bool,
    pub messagestore_count: u64,
    pub messagestore_bytes: u64,
    pub messagestore_limit_bytes: Option<u64>,
    pub client_propagation_messages_received: u64,
    pub client_propagation_messages_served: u64,
    pub unpeered_propagation_incoming: u64,
    pub unpeered_propagation_rx_bytes: u64,
    pub static_peers: u64,
    pub discovered_peers: u64,
    pub total_peers: u64,
    pub max_peers: Option<u64>,
    pub peers: Vec<ControlPeerStats>,
}

/// The statistics of one peer, with texts as their UTF-8 bytes.
#[verifier::ext_equal]
pub ghost struct PeerView {
    pub peer_id: Seq<u8>,
    pub is_static: bool,
    pub state: u64,
    pub alive: bool,
    pub name: Option<Seq<u8>>,
    pub last_heard: u64,
    pub next_sync_attempt: u64,
    pub last_sync_attempt: u64,
    pub sync_backoff: u64,
    pub peering_timebase: u64,
    pub ler: u64,
    pub str_rate: u64,
    pub transfer_limit_kb: Option<u64>,
    pub sync_limit_kb: Option<u64>,
    pub target_stamp_cost: Option<u64>,
    pub stamp_cost_flexibility: Option<u64>,
    pub peering_cost: Option<u64>,
    pub peering_key_value: Option<u64>,
    pub network_distance: u64,
    pub rx_bytes: u64,
    pub tx_bytes: u64,
    pub acceptance_rate: u64,
    pub offered: u64,
    pub outgoing: u64,
    pub incoming: u64,
    pub unhandled: u64,
}

/// The statistics of a node, by value.
#[verifier::ext_equal]
pub ghost struct NodeView {
    pub identity_hash: Seq<u8>,
    pub destination_hash: Seq<u8>,
    pub uptime_secs: u64,
    pub delivery_limit_kb: Option<u64>,
    pub propagation_limit_kb: Option<u64>,
    pub sync_limit_kb: Option<u64>,
    pub target_stamp_cost: u64,
    pub stamp_cost_flexibility: u64,
    pub peering_cost: u64,
    pub max_peering_cost: u64,
    pub autopeer_maxdepth: Option<u64>,
    pub from_static_only: bool,
    pub messagestore_count: u64,
    pub messagestore_bytes: u64,
    pub messagestore_limit_bytes: Option<u64>,
    pub client_propagation_messages_received: u64,
    pub client_propagation_messages_served: u64,
    pub unpeered_propagation_incoming: u64,
    pub unpeered_propagation_rx_bytes: u64,
    pub static_peers: u64,
    pub discovered_peers: u64,
    pub total_peers: u64,
    pub max_peers: Option<u64>,
    pub peers: Seq<PeerView>,
}

/// An optional text by its bytes.
pub open spec fn opt_text(t: Option<String>) -> Option<Seq<u8>> {
    match t {
        Some(s) => Some(utf8(s@)),
        None => None,
    }
}

impl View for ControlPeerStats {
    type V = PeerView;

    open spec fn view(&self) -> PeerView {
        PeerView {
            peer_id: self.peer_id@,
            is_static: self.is_static,
            state: self.state,
            alive: self.alive,
            name: opt_text(self.name),
            last_heard: self.last_heard,
            next_sync_attempt: self.next_sync_attempt,
            last_sync_attempt: self.last_sync_attempt,
            sync_backoff: self.sync_backoff,
            peering_timebase: self.peering_timebase,
            ler: self.ler,
            str_rate: self.str_rate,
            transfer_limit_kb: self.transfer_limit_kb,
            sync_limit_kb: self.sync_limit_kb,
            target_stamp_cost: self.target_stamp_cost,
            stamp_cost_flexibility: self.stamp_cost_flexibility,
            peering_cost: self.peering_cost,
            peering_key_value: self.peering_key_value,
            network_distance: self.network_distance,
            rx_bytes: self.rx_bytes,
            tx_bytes: self.tx_bytes,
            acceptance_rate: self.acceptance_rate,
            offered: self.offered,
            outgoing: self.outgoing,
            incoming: self.incoming,
            unhandled: self.unhandled,
        }
    }
}

pub open spec fn peers_view(peers: Seq<ControlPeerStats>) -> Seq<PeerView> {
    peers.map_values(|p: ControlPeerStats| p@)
}

impl View for ControlNodeStats {
    type V = NodeView;

    open spec fn view(&self) -> NodeView {
        NodeView {
            identity_hash: self.identity_hash@,
            destination_hash: self.destination_hash@,
            uptime_secs: self.uptime_secs,
            delivery_limit_kb: self.delivery_limit_kb,
            propagation_limit_kb: self.propagation_limit_kb,
            sync_limit_kb: self.sync_limit_kb,
            target_stamp_cost: self.target_stamp_cost,
            stamp_cost_flexibility: self.stamp_cost_flexibility,
            peering_cost: self.peering_cost,
            max_peering_cost: self.max_peering_cost,
            autopeer_maxdepth: self.autopeer_maxdepth,
            from_static_only: self.from_static_only,
            messagestore_count: self.messagestore_count,
            messagestore_bytes: self.messagestore_bytes,
            messagestore_limit_bytes: self.messagestore_limit_bytes,
            client_propagation_messages_received: self.client_propagation_messages_received,
            client_propagation_messages_served: self.client_propagation_messages_served,
            unpeered_propagation_incoming: self.unpeered_propagation_incoming,
            unpeered_propagation_rx_bytes: self.unpeered_propagation_rx_bytes,
            static_peers: self.static_peers,
            discovered_peers: self.discovered_peers,
            total_peers: self.total_peers,
            max_peers: self.max_peers,
            peers: peers_view(self.peers@),
        }
    }
}

// ---------------------------------------------------------------------------
// Texts and keys
// ---------------------------------------------------------------------------

pub open spec fn utf8(s: Seq<char>) -> Seq<u8> {
    vstd::utf8::encode_utf8(s)
}

/// Whether two texts are equal.
fn same_text(a: &str, b: &str) -> (r: bool)
    ensures
        r == (utf8(a@) == utf8(b@)),
{
    same_bytes(a.as_bytes(), b.as_bytes())
}

/// The keys of a peer's map.
#[derive(Debug, Clone, Copy, PartialEq, Eq, Structural)]
pub enum PeerKey {
    Type,
    State,
    Alive,
    Name,
    LastHeard,
    NextSyncAttempt,
    LastSyncAttempt,
    SyncBackoff,
    PeeringTimebase,
    Ler,
    Str,
    TransferLimit,
    SyncLimit,
    TargetStampCost,
    StampCostFlexibility,
    PeeringCost,
    PeeringKey,
    NetworkDistance,
    RxBytes,
    TxBytes,
    AcceptanceRate,
    Messages,
    Unknown,
}

pub open spec fn peer_key(k: Seq<u8>) -> PeerKey {
    if k == utf8("type"@) {
        PeerKey::Type
    } else if k == utf8("state"@) {
        PeerKey::State
    } else if k == utf8("alive"@) {
        PeerKey::Alive
    } else if k == utf8("name"@) {
        PeerKey::Name
    } else if k == utf8("last_heard"@) {
        PeerKey::LastHeard
    } else if k == utf8("next_sync_attempt"@) {
        PeerKey::NextSyncAttempt
    } else if k == utf8("last_sync_attempt"@) {
        PeerKey::LastSyncAttempt
    } else if k == utf8("sync_backoff"@) {
        PeerKey::SyncBackoff
    } else if k == utf8("peering_timebase"@) {
        PeerKey::PeeringTimebase
    } else if k == utf8("ler"@) {
        PeerKey::Ler
    } else if k == utf8("str"@) {
        PeerKey::Str
    } else if k == utf8("transfer_limit"@) {
        PeerKey::TransferLimit
    } else if k == utf8("sync_limit"@) {
        PeerKey::SyncLimit
    } else if k == utf8("target_stamp_cost"@) {
        PeerKey::TargetStampCost
    } else if k == utf8("stamp_cost_flexibility"@) {
        PeerKey::StampCostFlexibility
    } else if k == utf8("peering_cost"@) {
        PeerKey::PeeringCost
    } else if k == utf8("peering_key"@) {
        PeerKey::PeeringKey
    } else if k == utf8("network_distance"@) {
        PeerKey::NetworkDistance
    } else if k == utf8("rx_bytes"@) {
        PeerKey::RxBytes
    } else if k == utf8("tx_bytes"@) {
        PeerKey::TxBytes
    } else if k == utf8("acceptance_rate"@) {
        PeerKey::AcceptanceRate
    } else if k == utf8("messages"@) {
        PeerKey::Messages
    } else {
        PeerKey::Unknown
    }
}

fn read_peer_key(key: &str) -> (r: PeerKey)
    ensures
        r == peer_key(utf8(key@)),
{
    if same_text(key, "type") {
        PeerKey::Type
    } else if same_text(key, "state") {
        PeerKey::State
    } else if same_text(key, "alive") {
        PeerKey::Alive
    } else if same_text(key, "name") {
        PeerKey::Name
    } else if same_text(key, "last_heard") {
        PeerKey::LastHeard
    } else if same_text(key, "next_sync_attempt") {
        PeerKey::NextSyncAttempt
    } else if same_text(key, "last_sync_attempt") {
        PeerKey::LastSyncAttempt
    } else if same_text(key, "sync_backoff") {
        PeerKey::SyncBackoff
    } else if same_text(key, "peering_timebase") {
        PeerKey::PeeringTimebase
    } else if same_text(key, "ler") {
        PeerKey::Ler
    } else if same_text(key, "str") {
        PeerKey::Str
    } else if same_text(key, "transfer_limit") {
        PeerKey::TransferLimit
    } else if same_text(key, "sync_limit") {
        PeerKey::SyncLimit
    } else if same_text(key, "target_stamp_cost") {
        PeerKey::TargetStampCost
    } else if same_text(key, "stamp_cost_flexibility") {
        PeerKey::StampCostFlexibility
    } else if same_text(key, "peering_cost") {
        PeerKey::PeeringCost
    } else if same_text(key, "peering_key") {
        PeerKey::PeeringKey
    } else if same_text(key, "network_distance") {
        PeerKey::NetworkDistance
    } else if same_text(key, "rx_bytes") {
        PeerKey::RxBytes
    } else if same_text(key, "tx_bytes") {
        PeerKey::TxBytes
    } else if same_text(key, "acceptance_rate") {
        PeerKey::AcceptanceRate
    } else if same_text(key, "messages") {
        PeerKey::Messages
    } else {
        PeerKey::Unknown
    }
}

/// Every name stands for its own key, and is short.
proof fn lemma_peer_keys()
    ensures
        peer_key(utf8("type"@)) == PeerKey::Type,
        "type"@.len() <= 64,
        peer_key(utf8("state"@)) == PeerKey::State,
        "state"@.len() <= 64,
        peer_key(utf8("alive"@)) == PeerKey::Alive,
        "alive"@.len() <= 64,
        peer_key(utf8("name"@)) == PeerKey::Name,
        "name"@.len() <= 64,
        peer_key(utf8("last_heard"@)) == PeerKey::LastHeard,
        "last_heard"@.len() <= 64,
        peer_key(utf8("next_sync_attempt"@)) == PeerKey::NextSyncAttempt,
        "next_sync_attempt"@.len() <= 64,
        peer_key(utf8("last_sync_attempt"@)) == PeerKey::LastSyncAttempt,
        "last_sync_attempt"@.len() <= 64,
        peer_key(utf8("sync_backoff"@)) == PeerKey::SyncBackoff,
        "sync_backoff"@.len() <= 64,
        peer_key(utf8("peering_timebase"@)) == PeerKey::PeeringTimebase,
        "peering_timebase"@.len() <= 64,
        peer_key(utf8("ler"@)) == PeerKey::Ler,
        "ler"@.len() <= 64,
        peer_key(utf8("str"@)) == PeerKey::Str,
        "str"@.len() <= 64,
        peer_key(utf8("transfer_limit"@)) == PeerKey::TransferLimit,
        "transfer_limit"@.len() <= 64,
        peer_key(utf8("sync_limit"@)) == PeerKey::SyncLimit,
        "sync_limit"@.len() <= 64,
        peer_key(utf8("target_stamp_cost"@)) == PeerKey::TargetStampCost,
        "target_stamp_cost"@.len() <= 64,
        peer_key(utf8("stamp_cost_flexibility"@)) == PeerKey::StampCostFlexibility,
        "stamp_cost_flexibility"@.len() <= 64,
        peer_key(utf8("peering_cost"@)) == PeerKey::PeeringCost,
        "peering_cost"@.len() <= 64,
        peer_key(utf8("peering_key"@)) == PeerKey::PeeringKey,
        "peering_key"@.len() <= 64,
        peer_key(utf8("network_distance"@)) == PeerKey::NetworkDistance,
        "network_distance"@.len() <= 64,
        peer_key(utf8("rx_bytes"@)) == PeerKey::RxBytes,
        "rx_bytes"@.len() <= 64,
        peer_key(utf8("tx_bytes"@)) == PeerKey::TxBytes,
        "tx_bytes"@.len() <= 64,
        peer_key(utf8("acceptance_rate"@)) == PeerKey::AcceptanceRate,
        "acceptance_rate"@.len() <= 64,
        peer_key(utf8("messages"@)) == PeerKey::Messages,
        "messages"@.len() <= 64,
{
    broadcast use vstd::utf8::encode_utf8_decode_utf8;
    reveal_strlit("type");
    reveal_strlit("state");
    reveal_strlit("alive");
    reveal_strlit("name");
    reveal_strlit("last_heard");
    reveal_strlit("next_sync_attempt");
    reveal_strlit("last_sync_attempt");
    reveal_strlit("sync_backoff");
    reveal_strlit("peering_timebase");
    reveal_strlit("ler");
    reveal_strlit("str");
    reveal_strlit("transfer_limit");
    reveal_strlit("sync_limit");
    reveal_strlit("target_stamp_cost");
    reveal_strlit("stamp_cost_flexibility");
    reveal_strlit("peering_cost");
    reveal_strlit("peering_key");
    reveal_strlit("network_distance");
    reveal_strlit("rx_bytes");
    reveal_strlit("tx_bytes");
    reveal_strlit("acceptance_rate");
    reveal_strlit("messages");
    assert(vstd::utf8::decode_utf8(utf8("type"@)) == "type"@);
    assert(vstd::utf8::decode_utf8(utf8("state"@)) == "state"@);
    assert(vstd::utf8::decode_utf8(utf8("alive"@)) == "alive"@);
    assert(vstd::utf8::decode_utf8(utf8("name"@)) == "name"@);
    assert(vstd::utf8::decode_utf8(utf8("last_heard"@)) == "last_heard"@);
    assert(vstd::utf8::decode_utf8(utf8("next_sync_attempt"@)) == "next_sync_attempt"@);
    assert(vstd::utf8::decode_utf8(utf8("last_sync_attempt"@)) == "last_sync_attempt"@);
    assert(vstd::utf8::decode_utf8(utf8("sync_backoff"@)) == "sync_backoff"@);
    assert(vstd::utf8::decode_utf8(utf8("peering_timebase"@)) == "peering_timebase"@);
    assert(vstd::utf8::decode_utf8(utf8("ler"@)) == "ler"@);
    assert(vstd::utf8::decode_utf8(utf8("str"@)) == "str"@);
    assert(vstd::utf8::decode_utf8(utf8("transfer_limit"@)) == "transfer_limit"@);
    assert(vstd::utf8::decode_utf8(utf8("sync_limit"@)) == "sync_limit"@);
    assert(vstd::utf8::decode_utf8(utf8("target_stamp_cost"@)) == "target_stamp_cost"@);
    assert(vstd::utf8::decode_utf8(utf8("stamp_cost_flexibility"@)) == "stamp_cost_flexibility"@);
    assert(vstd::utf8::decode_utf8(utf8("peering_cost"@)) == "peering_cost"@);
    assert(vstd::utf8::decode_utf8(utf8("peering_key"@)) == "peering_key"@);
    assert(vstd::utf8::decode_utf8(utf8("network_distance"@)) == "network_distance"@);
    assert(vstd::utf8::decode_utf8(utf8("rx_bytes"@)) == "rx_bytes"@);
    assert(vstd::utf8::decode_utf8(utf8("tx_bytes"@)) == "tx_bytes"@);
    assert(vstd::utf8::decode_utf8(utf8("acceptance_rate"@)) == "acceptance_rate"@);
    assert(vstd::utf8::decode_utf8(utf8("messages"@)) == "messages"@);
}

/// The keys of a peer's message counts.
#[derive(Debug, Clone, Copy, PartialEq, Eq, Structural)]
pub enum CountKey {
    Offered,
    Outgoing,
    Incoming,
    Unhandled,
    Unknown,
}

pub open spec fn count_key(k: Seq<u8>) -> CountKey {
    if k == utf8("offered"@) {
        CountKey::Offered
    } else if k == utf8("outgoing"@) {
        CountKey::Outgoing
    } else if k == utf8("incoming"@) {
        CountKey::Incoming
    } else if k == utf8("unhandled"@) {
        CountKey::Unhandled
    } else {
        CountKey::Unknown
    }
}

fn read_count_key(key: &str) -> (r: CountKey)
    ensures
        r == count_key(utf8(key@)),
{
    if same_text(key, "offered") {
        CountKey::Offered
    } else if same_text(key, "outgoing") {
        CountKey::Outgoing
    } else if same_text(key, "incoming") {
        CountKey::Incoming
    } else if same_text(key, "unhandled") {
        CountKey::Unhandled
    } else {
        CountKey::Unknown
    }
}

/// Every name stands for its own key, and is short.
proof fn lemma_count_keys()
    ensures
        count_key(utf8("offered"@)) == CountKey::Offered,
        "offered"@.len() <= 64,
        count_key(utf8("outgoing"@)) == CountKey::Outgoing,
        "outgoing"@.len() <= 64,
        count_key(utf8("incoming"@)) == CountKey::Incoming,
        "incoming"@.len() <= 64,
        count_key(utf8("unhandled"@)) == CountKey::Unhandled,
        "unhandled"@.len() <= 64,
{
    broadcast use vstd::utf8::encode_utf8_decode_utf8;
    reveal_strlit("offered");
    reveal_strlit("outgoing");
    reveal_strlit("incoming");
    reveal_strlit("unhandled");
    assert(vstd::utf8::decode_utf8(utf8("offered"@)) == "offered"@);
    assert(vstd::utf8::decode_utf8(utf8("outgoing"@)) == "outgoing"@);
    assert(vstd::utf8::decode_utf8(utf8("incoming"@)) == "incoming"@);
    assert(vstd::utf8::decode_utf8(utf8("unhandled"@)) == "unhandled"@);
}

/// The keys of a node's map.
#[derive(Debug, Clone, Copy, PartialEq, Eq, Structural)]
pub enum NodeKey {
    IdentityHash,
    DestinationHash,
    Uptime,
    DeliveryLimit,
    PropagationLimit,
    SyncLimit,
    TargetStampCost,
    StampCostFlexibility,
    PeeringCost,
    MaxPeeringCost,
    AutopeerMaxdepth,
    FromStaticOnly,
    Messagestore,
    Clients,
    UnpeeredIncoming,
    UnpeeredRxBytes,
    StaticPeers,
    DiscoveredPeers,
    TotalPeers,
    MaxPeers,
    Peers,
    Unknown,
}

pub open spec fn node_key(k: Seq<u8>) -> NodeKey {
    if k == utf8("identity_hash"@) {
        NodeKey::IdentityHash
    } else if k == utf8("destination_hash"@) {
        NodeKey::DestinationHash
    } else if k == utf8("uptime"@) {
        NodeKey::Uptime
    } else if k == utf8("delivery_limit"@) {
        NodeKey::DeliveryLimit
    } else if k == utf8("propagation_limit"@) {
        NodeKey::PropagationLimit
    } else if k == utf8("sync_limit"@) {
        NodeKey::SyncLimit
    } else if k == utf8("target_stamp_cost"@) {
        NodeKey::TargetStampCost
    } else if k == utf8("stamp_cost_flexibility"@) {
        NodeKey::StampCostFlexibility
    } else if k == utf8("peering_cost"@) {
        NodeKey::PeeringCost
    } else if k == utf8("max_peering_cost"@) {
        NodeKey::MaxPeeringCost
    } else if k == utf8("autopeer_maxdepth"@) {
        NodeKey::AutopeerMaxdepth
    } else if k == utf8("from_static_only"@) {
        NodeKey::FromStaticOnly
    } else if k == utf8("messagestore"@) {
        NodeKey::Messagestore
    } else if k == utf8("clients"@) {
        NodeKey::Clients
    } else if k == utf8("unpeered_propagation_incoming"@) {
        NodeKey::UnpeeredIncoming
    } else if k == utf8("unpeered_propagation_rx_bytes"@) {
        NodeKey::UnpeeredRxBytes
    } else if k == utf8("static_peers"@) {
        NodeKey::StaticPeers
    } else if k == utf8("discovered_peers"@) {
        NodeKey::DiscoveredPeers
    } else if k == utf8("total_peers"@) {
        NodeKey::TotalPeers
    } else if k == utf8("max_peers"@) {
        NodeKey::MaxPeers
    } else if k == utf8("peers"@) {
        NodeKey::Peers
    } else {
        NodeKey::Unknown
    }
}

fn read_node_key(key: &str) -> (r: NodeKey)
    ensures
        r == node_key(utf8(key@)),
{
    if same_text(key, "identity_hash") {
        NodeKey::IdentityHash
    } else if same_text(key, "destination_hash") {
        NodeKey::DestinationHash
    } else if same_text(key, "uptime") {
        NodeKey::Uptime
    } else if same_text(key, "delivery_limit") {
        NodeKey::DeliveryLimit
    } else if same_text(key, "propagation_limit") {
        NodeKey::PropagationLimit
    } else if same_text(key, "sync_limit") {
        NodeKey::SyncLimit
    } else if same_text(key, "target_stamp_cost") {
        NodeKey::TargetStampCost
    } else if same_text(key, "stamp_cost_flexibility") {
        NodeKey::StampCostFlexibility
    } else if same_text(key, "peering_cost") {
        NodeKey::PeeringCost
    } else if same_text(key, "max_peering_cost") {
        NodeKey::MaxPeeringCost
    } else if same_text(key, "autopeer_maxdepth") {
        NodeKey::AutopeerMaxdepth
    } else if same_text(key, "from_static_only") {
        NodeKey::FromStaticOnly
    } else if same_text(key, "messagestore") {
        NodeKey::Messagestore
    } else if same_text(key, "clients") {
        NodeKey::Clients
    } else if same_text(key, "unpeered_propagation_incoming") {
        NodeKey::UnpeeredIncoming
    } else if same_text(key, "unpeered_propagation_rx_bytes") {
        NodeKey::UnpeeredRxBytes
    } else if same_text(key, "static_peers") {
        NodeKey::StaticPeers
    } else if same_text(key, "discovered_peers") {
        NodeKey::DiscoveredPeers
    } else if same_text(key, "total_peers") {
        NodeKey::TotalPeers
    } else if same_text(key, "max_peers") {
        NodeKey::MaxPeers
    } else if same_text(key, "peers") {
        NodeKey::Peers
    } else {
        NodeKey::Unknown
    }
}

/// Every name stands for its own key, and is short.
proof fn lemma_node_keys()
    ensures
        node_key(utf8("identity_hash"@)) == NodeKey::IdentityHash,
        "identity_hash"@.len() <= 64,
        node_key(utf8("destination_hash"@)) == NodeKey::DestinationHash,
        "destination_hash"@.len() <= 64,
        node_key(utf8("uptime"@)) == NodeKey::Uptime,
        "uptime"@.len() <= 64,
        node_key(utf8("delivery_limit"@)) == NodeKey::DeliveryLimit,
        "delivery_limit"@.len() <= 64,
        node_key(utf8("propagation_limit"@)) == NodeKey::PropagationLimit,
        "propagation_limit"@.len() <= 64,
        node_key(utf8("sync_limit"@)) == NodeKey::SyncLimit,
        "sync_limit"@.len() <= 64,
        node_key(utf8("target_stamp_cost"@)) == NodeKey::TargetStampCost,
        "target_stamp_cost"@.len() <= 64,
        node_key(utf8("stamp_cost_flexibility"@)) == NodeKey::StampCostFlexibility,
        "stamp_cost_flexibility"@.len() <= 64,
        node_key(utf8("peering_cost"@)) == NodeKey::PeeringCost,
        "peering_cost"@.len() <= 64,
        node_key(utf8("max_peering_cost"@)) == NodeKey::MaxPeeringCost,
        "max_peering_cost"@.len() <= 64,
        node_key(utf8("autopeer_maxdepth"@)) == NodeKey::AutopeerMaxdepth,
        "autopeer_maxdepth"@.len() <= 64,
        node_key(utf8("from_static_only"@)) == NodeKey::FromStaticOnly,
        "from_static_only"@.len() <= 64,
        node_key(utf8("messagestore"@)) == NodeKey::Messagestore,
        "messagestore"@.len() <= 64,
        node_key(utf8("clients"@)) == NodeKey::Clients,
        "clients"@.len() <= 64,
        node_key(utf8("unpeered_propagation_incoming"@)) == NodeKey::UnpeeredIncoming,
        "unpeered_propagation_incoming"@.len() <= 64,
        node_key(utf8("unpeered_propagation_rx_bytes"@)) == NodeKey::UnpeeredRxBytes,
        "unpeered_propagation_rx_bytes"@.len() <= 64,
        node_key(utf8("static_peers"@)) == NodeKey::StaticPeers,
        "static_peers"@.len() <= 64,
        node_key(utf8("discovered_peers"@)) == NodeKey::DiscoveredPeers,
        "discovered_peers"@.len() <= 64,
        node_key(utf8("total_peers"@)) == NodeKey::TotalPeers,
        "total_peers"@.len() <= 64,
        node_key(utf8("max_peers"@)) == NodeKey::MaxPeers,
        "max_peers"@.len() <= 64,
        node_key(utf8("peers"@)) == NodeKey::Peers,
        "peers"@.len() <= 64,
{
    broadcast use vstd::utf8::encode_utf8_decode_utf8;
    reveal_strlit("identity_hash");
    reveal_strlit("destination_hash");
    reveal_strlit("uptime");
    reveal_strlit("delivery_limit");
    reveal_strlit("propagation_limit");
    reveal_strlit("sync_limit");
    reveal_strlit("target_stamp_cost");
    reveal_strlit("stamp_cost_flexibility");
    reveal_strlit("peering_cost");
    reveal_strlit("max_peering_cost");
    reveal_strlit("autopeer_maxdepth");
    reveal_strlit("from_static_only");
    reveal_strlit("messagestore");
    reveal_strlit("clients");
    reveal_strlit("unpeered_propagation_incoming");
    reveal_strlit("unpeered_propagation_rx_bytes");
    reveal_strlit("static_peers");
    reveal_strlit("discovered_peers");
    reveal_strlit("total_peers");
    reveal_strlit("max_peers");
    reveal_strlit("peers");
    assert("unpeered_propagation_incoming"@[21] != "unpeered_propagation_rx_bytes"@[21]);
    assert("destination_hash"@[1] != "discovered_peers"@[1]);
    assert(vstd::utf8::decode_utf8(utf8("identity_hash"@)) == "identity_hash"@);
    assert(vstd::utf8::decode_utf8(utf8("destination_hash"@)) == "destination_hash"@);
    assert(vstd::utf8::decode_utf8(utf8("uptime"@)) == "uptime"@);
    assert(vstd::utf8::decode_utf8(utf8("delivery_limit"@)) == "delivery_limit"@);
    assert(vstd::utf8::decode_utf8(utf8("propagation_limit"@)) == "propagation_limit"@);
    assert(vstd::utf8::decode_utf8(utf8("sync_limit"@)) == "sync_limit"@);
    assert(vstd::utf8::decode_utf8(utf8("target_stamp_cost"@)) == "target_stamp_cost"@);
    assert(vstd::utf8::decode_utf8(utf8("stamp_cost_flexibility"@)) == "stamp_cost_flexibility"@);
    assert(vstd::utf8::decode_utf8(utf8("peering_cost"@)) == "peering_cost"@);
    assert(vstd::utf8::decode_utf8(utf8("max_peering_cost"@)) == "max_peering_cost"@);
    assert(vstd::utf8::decode_utf8(utf8("autopeer_maxdepth"@)) == "autopeer_maxdepth"@);
    assert(vstd::utf8::decode_utf8(utf8("from_static_only"@)) == "from_static_only"@);
    assert(vstd::utf8::decode_utf8(utf8("messagestore"@)) == "messagestore"@);
    assert(vstd::utf8::decode_utf8(utf8("clients"@)) == "clients"@);
    assert(vstd::utf8::decode_utf8(utf8("unpeered_propagation_incoming"@)) == "unpeered_propagation_incoming"@);
    assert(vstd::utf8::decode_utf8(utf8("unpeered_propagation_rx_bytes"@)) == "unpeered_propagation_rx_bytes"@);
    assert(vstd::utf8::decode_utf8(utf8("static_peers"@)) == "static_peers"@);
    assert(vstd::utf8::decode_utf8(utf8("discovered_peers"@)) == "discovered_peers"@);
    assert(vstd::utf8::decode_utf8(utf8("total_peers"@)) == "total_peers"@);
    assert(vstd::utf8::decode_utf8(utf8("max_peers"@)) == "max_peers"@);
    assert(vstd::utf8::decode_utf8(utf8("peers"@)) == "peers"@);
}

/// The keys of a node's message store.
#[derive(Debug, Clone, Copy, PartialEq, Eq, Structural)]
pub enum StoreKey {
    Count,
    Bytes,
    Limit,
    Unknown,
}

pub open spec fn store_key(k: Seq<u8>) -> StoreKey {
    if k == utf8("count"@) {
        StoreKey::Count
    } else if k == utf8("bytes"@) {
        StoreKey::Bytes
    } else if k == utf8("limit"@) {
        StoreKey::Limit
    } else {
        StoreKey::Unknown
    }
}

fn read_store_key(key: &str) -> (r: StoreKey)
    ensures
        r == store_key(utf8(key@)),
{
    if same_text(key, "count") {
        StoreKey::Count
    } else if same_text(key, "bytes") {
        StoreKey::Bytes
    } else if same_text(key, "limit") {
        StoreKey::Limit
    } else {
        StoreKey::Unknown
    }
}

/// Every name stands for its own key, and is short.
proof fn lemma_store_keys()
    ensures
        store_key(utf8("count"@)) == StoreKey::Count,
        "count"@.len() <= 64,
        store_key(utf8("bytes"@)) == StoreKey::Bytes,
        "bytes"@.len() <= 64,
        store_key(utf8("limit"@)) == StoreKey::Limit,
        "limit"@.len() <= 64,
{
    broadcast use vstd::utf8::encode_utf8_decode_utf8;
    reveal_strlit("count");
    reveal_strlit("bytes");
    reveal_strlit("limit");
    assert(vstd::utf8::decode_utf8(utf8("count"@)) == "count"@);
    assert(vstd::utf8::decode_utf8(utf8("bytes"@)) == "bytes"@);
    assert(vstd::utf8::decode_utf8(utf8("limit"@)) == "limit"@);
}

/// The keys of a node's client counts.
#[derive(Debug, Clone, Copy, PartialEq, Eq, Structural)]
pub enum ClientKey {
    Received,
    Served,
    Unknown,
}

pub open spec fn client_key(k: Seq<u8>) -> ClientKey {
    if k == utf8("client_propagation_messages_received"@) {
        ClientKey::Received
    } else if k == utf8("client_propagation_messages_served"@) {
        ClientKey::Served
    } else {
        ClientKey::Unknown
    }
}

fn read_client_key(key: &str) -> (r: ClientKey)
    ensures
        r == client_key(utf8(key@)),
{
    if same_text(key, "client_propagation_messages_received") {
        ClientKey::Received
    } else if same_text(key, "client_propagation_messages_served") {
        ClientKey::Served
    } else {
        ClientKey::Unknown
    }
}

/// Every name stands for its own key, and is short.
proof fn lemma_client_keys()
    ensures
        client_key(utf8("client_propagation_messages_received"@)) == ClientKey::Received,
        "client_propagation_messages_received"@.len() <= 64,
        client_key(utf8("client_propagation_messages_served"@)) == ClientKey::Served,
        "client_propagation_messages_served"@.len() <= 64,
{
    broadcast use vstd::utf8::encode_utf8_decode_utf8;
    reveal_strlit("client_propagation_messages_received");
    reveal_strlit("client_propagation_messages_served");
    assert(vstd::utf8::decode_utf8(utf8("client_propagation_messages_received"@)) == "client_propagation_messages_received"@);
    assert(vstd::utf8::decode_utf8(utf8("client_propagation_messages_served"@)) == "client_propagation_messages_served"@);
}

// ---------------------------------------------------------------------------
// Reading
// ---------------------------------------------------------------------------

/// A number as a count: cut off at the point, and zero where it is below zero
/// or not finite.
pub open spec fn tolerant(bits: u64) -> u64 {
    if ieee::finite(bits) {
        ieee::to_u64(bits)
    } else {
        0
    }
}

pub open spec fn with_uint<T>(d: Seq<u8>, p: int, set: spec_fn(u64) -> T) -> Result<
    (T, int),
    msgpack::Error,
> {
    match msgpack::number_bits_at(d, p) {
        Err(e) => Err(e),
        Ok((v, q)) => Ok((set(tolerant(v)), q)),
    }
}

pub open spec fn with_opt<T>(d: Seq<u8>, p: int, set: spec_fn(Option<u64>) -> T) -> Result<
    (T, int),
    msgpack::Error,
> {
    match msgpack::kind_at(d, p) {
        Err(e) => Err(e),
        Ok(msgpack::Kind::Nil) => match msgpack::nil_at(d, p) {
            Err(e) => Err(e),
            Ok((_, q)) => Ok((set(None), q)),
        },
        Ok(_) => with_uint(d, p, |v: u64| set(Some(v))),
    }
}

pub open spec fn with_flag<T>(d: Seq<u8>, p: int, set: spec_fn(bool) -> T) -> Result<
    (T, int),
    msgpack::Error,
> {
    match msgpack::bool_at(d, p) {
        Err(e) => Err(e),
        Ok((v, q)) => Ok((set(v), q)),
    }
}

pub open spec fn with_number<T>(d: Seq<u8>, p: int, set: spec_fn(u64) -> T) -> Result<
    (T, int),
    msgpack::Error,
> {
    match msgpack::number_bits_at(d, p) {
        Err(e) => Err(e),
        Ok((v, q)) => Ok((set(v), q)),
    }
}

pub open spec fn with_text<T>(d: Seq<u8>, p: int, set: spec_fn(Seq<u8>) -> T) -> Result<
    (T, int),
    msgpack::Error,
> {
    match msgpack::str_at(d, p) {
        Err(e) => Err(e),
        Ok((v, q)) => Ok((set(v), q)),
    }
}

/// A name is absent, a text, or raw bytes, which count where they are UTF-8.
pub open spec fn with_name<T>(d: Seq<u8>, p: int, set: spec_fn(Option<Seq<u8>>) -> T) -> Result<
    (T, int),
    msgpack::Error,
> {
    match msgpack::kind_at(d, p) {
        Err(e) => Err(e),
        Ok(msgpack::Kind::Nil) => match msgpack::nil_at(d, p) {
            Err(e) => Err(e),
            Ok((_, q)) => Ok((set(None), q)),
        },
        Ok(msgpack::Kind::Str) => with_text(d, p, |v: Seq<u8>| set(Some(v))),
        Ok(_) => match msgpack::bin_at(d, p) {
            Err(e) => Err(e),
            Ok((v, q)) => Ok(
                (
                    set(
                        if vstd::utf8::valid_utf8(v) {
                            Some(v)
                        } else {
                            None
                        },
                    ),
                    q,
                ),
            ),
        },
    }
}

/// A bin value of the length of a destination hash.
pub open spec fn with_hash<T>(d: Seq<u8>, p: int, set: spec_fn(Seq<u8>) -> T) -> Result<
    (T, int),
    msgpack::Error,
> {
    match msgpack::bin_at(d, p) {
        Err(e) => Err(e),
        Ok((v, q)) => if v.len() == 16 {
            Ok((set(v), q))
        } else {
            Err(msgpack::Error::Type)
        },
    }
}

/// A value that is passed over.
pub open spec fn skipped_at<T>(d: Seq<u8>, p: int, s: T) -> Result<(T, int), msgpack::Error> {
    match msgpack::skip_at(d, p, msgpack::MAX_SKIP_DEPTH as nat) {
        Err(e) => Err(e),
        Ok(q) => Ok((s, q)),
    }
}

/// `n` steps one after the other, each from where the last one ended.
pub open spec fn fold_at<T>(
    step: spec_fn(int, T) -> Result<(T, int), msgpack::Error>,
    p: int,
    n: nat,
    s: T,
) -> Result<(T, int), msgpack::Error>
    decreases n,
{
    if n == 0 {
        Ok((s, p))
    } else {
        match fold_at(step, p, (n - 1) as nat, s) {
            Err(e) => Err(e),
            Ok((t, q)) => step(q, t),
        }
    }
}

proof fn lemma_fold_fails<T>(
    step: spec_fn(int, T) -> Result<(T, int), msgpack::Error>,
    p: int,
    n: nat,
    m: nat,
    s: T,
)
    requires
        n <= m,
        fold_at(step, p, n, s) is Err,
    ensures
        fold_at(step, p, m, s) == fold_at(step, p, n, s),
    decreases m,
{
    if n < m {
        lemma_fold_fails(step, p, n, (m - 1) as nat, s);
    }
}

/// One entry of a map: a text key, then what `field` makes of it.
pub open spec fn keyed<T>(
    d: Seq<u8>,
    field: spec_fn(int, T, Seq<u8>) -> Result<(T, int), msgpack::Error>,
) -> spec_fn(int, T) -> Result<(T, int), msgpack::Error> {
    |p: int, s: T|
        match msgpack::str_at(d, p) {
            Err(e) => Err(e),
            Ok((k, q)) => field(q, s, k),
        }
}

/// A map read entry by entry.
pub open spec fn map_at<T>(
    d: Seq<u8>,
    field: spec_fn(int, T, Seq<u8>) -> Result<(T, int), msgpack::Error>,
    p: int,
    s: T,
) -> Result<(T, int), msgpack::Error> {
    match msgpack::map_len_at(d, p) {
        Err(e) => Err(e),
        Ok((n, q)) => fold_at(keyed(d, field), q, n, s),
    }
}

/// A message count; unknown counts are read and passed over.
pub open spec fn count_field_at(d: Seq<u8>, p: int, s: PeerView, f: CountKey) -> Result<
    (PeerView, int),
    msgpack::Error,
> {
    match f {
        CountKey::Offered => with_uint(d, p, |v: u64| PeerView { offered: v, ..s }),
        CountKey::Outgoing => with_uint(d, p, |v: u64| PeerView { outgoing: v, ..s }),
        CountKey::Incoming => with_uint(d, p, |v: u64| PeerView { incoming: v, ..s }),
        CountKey::Unhandled => with_uint(d, p, |v: u64| PeerView { unhandled: v, ..s }),
        CountKey::Unknown => with_uint(d, p, |v: u64| s),
    }
}

pub open spec fn count_step(d: Seq<u8>) -> spec_fn(int, PeerView, Seq<u8>) -> Result<
    (PeerView, int),
    msgpack::Error,
> {
    |p: int, s: PeerView, k: Seq<u8>| count_field_at(d, p, s, count_key(k))
}

pub open spec fn counts_at(d: Seq<u8>, p: int, s: PeerView) -> Result<
    (PeerView, int),
    msgpack::Error,
> {
    map_at(d, count_step(d), p, s)
}

/// One field of a peer's map.
pub open spec fn peer_field_at(d: Seq<u8>, p: int, s: PeerView, f: PeerKey) -> Result<
    (PeerView, int),
    msgpack::Error,
> {
    match f {
        PeerKey::Type => with_text(
            d,
            p,
            |v: Seq<u8>| PeerView { is_static: v == utf8("static"@), ..s },
        ),
        PeerKey::State => with_uint(d, p, |v: u64| PeerView { state: v, ..s }),
        PeerKey::Alive => with_flag(d, p, |v: bool| PeerView { alive: v, ..s }),
        PeerKey::Name => with_name(d, p, |v: Option<Seq<u8>>| PeerView { name: v, ..s }),
        PeerKey::LastHeard => with_uint(d, p, |v: u64| PeerView { last_heard: v, ..s }),
        PeerKey::NextSyncAttempt => with_uint(d, p, |v: u64| PeerView { next_sync_attempt: v, ..s }),
        PeerKey::LastSyncAttempt => with_uint(d, p, |v: u64| PeerView { last_sync_attempt: v, ..s }),
        PeerKey::SyncBackoff => with_uint(d, p, |v: u64| PeerView { sync_backoff: v, ..s }),
        PeerKey::PeeringTimebase => with_uint(d, p, |v: u64| PeerView { peering_timebase: v, ..s }),
        PeerKey::Ler => with_uint(d, p, |v: u64| PeerView { ler: v, ..s }),
        PeerKey::Str => with_uint(d, p, |v: u64| PeerView { str_rate: v, ..s }),
        PeerKey::TransferLimit => with_opt(d, p, |v: Option<u64>| PeerView { transfer_limit_kb: v, ..s }),
        PeerKey::SyncLimit => with_opt(d, p, |v: Option<u64>| PeerView { sync_limit_kb: v, ..s }),
        PeerKey::TargetStampCost => with_opt(d, p, |v: Option<u64>| PeerView { target_stamp_cost: v, ..s }),
        PeerKey::StampCostFlexibility => with_opt(d, p, |v: Option<u64>| PeerView { stamp_cost_flexibility: v, ..s }),
        PeerKey::PeeringCost => with_opt(d, p, |v: Option<u64>| PeerView { peering_cost: v, ..s }),
        PeerKey::PeeringKey => with_opt(d, p, |v: Option<u64>| PeerView { peering_key_value: v, ..s }),
        PeerKey::NetworkDistance => with_uint(d, p, |v: u64| PeerView { network_distance: v, ..s }),
        PeerKey::RxBytes => with_uint(d, p, |v: u64| PeerView { rx_bytes: v, ..s }),
        PeerKey::TxBytes => with_uint(d, p, |v: u64| PeerView { tx_bytes: v, ..s }),
        PeerKey::AcceptanceRate => with_number(d, p, |v: u64| PeerView { acceptance_rate: v, ..s }),
        PeerKey::Messages => counts_at(d, p, s),
        PeerKey::Unknown => skipped_at(d, p, s),
    }
}

pub open spec fn peer_step(d: Seq<u8>) -> spec_fn(int, PeerView, Seq<u8>) -> Result<
    (PeerView, int),
    msgpack::Error,
> {
    |p: int, s: PeerView, k: Seq<u8>| peer_field_at(d, p, s, peer_key(k))
}

/// A peer of whom nothing is told.
pub open spec fn default_peer(peer_id: Seq<u8>) -> PeerView {
    PeerView {
        peer_id,
        is_static: false,
        state: 0,
        alive: false,
        name: None,
        last_heard: 0,
        next_sync_attempt: 0,
        last_sync_attempt: 0,
        sync_backoff: 0,
        peering_timebase: 0,
        ler: 0,
        str_rate: 0,
        transfer_limit_kb: None,
        sync_limit_kb: None,
        target_stamp_cost: None,
        stamp_cost_flexibility: None,
        peering_cost: None,
        peering_key_value: None,
        network_distance: HOPS_UNKNOWN,
        rx_bytes: 0,
        tx_bytes: 0,
        acceptance_rate: 0,
        offered: 0,
        outgoing: 0,
        incoming: 0,
        unhandled: 0,
    }
}

/// The map of one peer, read over what is known of it.
pub open spec fn peer_fields_at(d: Seq<u8>, p: int, s: PeerView) -> Result<
    (PeerView, int),
    msgpack::Error,
> {
    map_at(d, peer_step(d), p, s)
}

/// The map of one peer.
pub open spec fn peer_at(d: Seq<u8>, p: int, peer_id: Seq<u8>) -> Result<
    (PeerView, int),
    msgpack::Error,
> {
    peer_fields_at(d, p, default_peer(peer_id))
}

/// One entry of the map of peers: the hash of the peer, then its own map.
pub open spec fn peer_item(d: Seq<u8>) -> spec_fn(int) -> Result<(PeerView, int), msgpack::Error> {
    |p: int|
        match with_hash(d, p, |v: Seq<u8>| v) {
            Err(e) => Err(e),
            Ok((id, q)) => peer_at(d, q, id),
        }
}

pub open spec fn peers_at(d: Seq<u8>, p: int, s: NodeView) -> Result<
    (NodeView, int),
    msgpack::Error,
> {
    match msgpack::map_len_at(d, p) {
        Err(e) => Err(e),
        Ok((n, q)) => match msgpack::list_at(peer_item(d), q, n) {
            Err(e) => Err(e),
            Ok((ps, t)) => Ok((NodeView { peers: s.peers + ps, ..s }, t)),
        },
    }
}

/// One field of the message store.
pub open spec fn store_field_at(d: Seq<u8>, p: int, s: NodeView, f: StoreKey) -> Result<
    (NodeView, int),
    msgpack::Error,
> {
    match f {
        StoreKey::Count => with_uint(d, p, |v: u64| NodeView { messagestore_count: v, ..s }),
        StoreKey::Bytes => with_uint(d, p, |v: u64| NodeView { messagestore_bytes: v, ..s }),
        StoreKey::Limit => with_opt(d, p, |v: Option<u64>| NodeView { messagestore_limit_bytes: v, ..s }),
        StoreKey::Unknown => skipped_at(d, p, s),
    }
}

pub open spec fn store_step(d: Seq<u8>) -> spec_fn(int, NodeView, Seq<u8>) -> Result<
    (NodeView, int),
    msgpack::Error,
> {
    |p: int, s: NodeView, k: Seq<u8>| store_field_at(d, p, s, store_key(k))
}

pub open spec fn store_at(d: Seq<u8>, p: int, s: NodeView) -> Result<
    (NodeView, int),
    msgpack::Error,
> {
    map_at(d, store_step(d), p, s)
}

/// One field of the clients.
pub open spec fn client_field_at(d: Seq<u8>, p: int, s: NodeView, f: ClientKey) -> Result<
    (NodeView, int),
    msgpack::Error,
> {
    match f {
        ClientKey::Received => with_uint(d, p, |v: u64| NodeView { client_propagation_messages_received: v, ..s }),
        ClientKey::Served => with_uint(d, p, |v: u64| NodeView { client_propagation_messages_served: v, ..s }),
        ClientKey::Unknown => skipped_at(d, p, s),
    }
}

pub open spec fn client_step(d: Seq<u8>) -> spec_fn(int, NodeView, Seq<u8>) -> Result<
    (NodeView, int),
    msgpack::Error,
> {
    |p: int, s: NodeView, k: Seq<u8>| client_field_at(d, p, s, client_key(k))
}

pub open spec fn clients_at(d: Seq<u8>, p: int, s: NodeView) -> Result<
    (NodeView, int),
    msgpack::Error,
> {
    map_at(d, client_step(d), p, s)
}

/// One field of a node's map.
pub open spec fn node_field_at(d: Seq<u8>, p: int, s: NodeView, f: NodeKey) -> Result<
    (NodeView, int),
    msgpack::Error,
> {
    match f {
        NodeKey::IdentityHash => with_hash(d, p, |v: Seq<u8>| NodeView { identity_hash: v, ..s }),
        NodeKey::DestinationHash => with_hash(d, p, |v: Seq<u8>| NodeView { destination_hash: v, ..s }),
        NodeKey::Uptime => with_number(d, p, |v: u64| NodeView { uptime_secs: v, ..s }),
        NodeKey::DeliveryLimit => with_opt(d, p, |v: Option<u64>| NodeView { delivery_limit_kb: v, ..s }),
        NodeKey::PropagationLimit => with_opt(d, p, |v: Option<u64>| NodeView { propagation_limit_kb: v, ..s }),
        NodeKey::SyncLimit => with_opt(d, p, |v: Option<u64>| NodeView { sync_limit_kb: v, ..s }),
        NodeKey::TargetStampCost => with_uint(d, p, |v: u64| NodeView { target_stamp_cost: v, ..s }),
        NodeKey::StampCostFlexibility => with_uint(d, p, |v: u64| NodeView { stamp_cost_flexibility: v, ..s }),
        NodeKey::PeeringCost => with_uint(d, p, |v: u64| NodeView { peering_cost: v, ..s }),
        NodeKey::MaxPeeringCost => with_uint(d, p, |v: u64| NodeView { max_peering_cost: v, ..s }),
        NodeKey::AutopeerMaxdepth => with_opt(d, p, |v: Option<u64>| NodeView { autopeer_maxdepth: v, ..s }),
        NodeKey::FromStaticOnly => with_flag(d, p, |v: bool| NodeView { from_static_only: v, ..s }),
        NodeKey::Messagestore => store_at(d, p, s),
        NodeKey::Clients => clients_at(d, p, s),
        NodeKey::UnpeeredIncoming => with_uint(d, p, |v: u64| NodeView { unpeered_propagation_incoming: v, ..s }),
        NodeKey::UnpeeredRxBytes => with_uint(d, p, |v: u64| NodeView { unpeered_propagation_rx_bytes: v, ..s }),
        NodeKey::StaticPeers => with_uint(d, p, |v: u64| NodeView { static_peers: v, ..s }),
        NodeKey::DiscoveredPeers => with_uint(d, p, |v: u64| NodeView { discovered_peers: v, ..s }),
        NodeKey::TotalPeers => with_uint(d, p, |v: u64| NodeView { total_peers: v, ..s }),
        NodeKey::MaxPeers => with_opt(d, p, |v: Option<u64>| NodeView { max_peers: v, ..s }),
        NodeKey::Peers => peers_at(d, p, s),
        NodeKey::Unknown => skipped_at(d, p, s),
    }
}

pub open spec fn node_step(d: Seq<u8>) -> spec_fn(int, NodeView, Seq<u8>) -> Result<
    (NodeView, int),
    msgpack::Error,
> {
    |p: int, s: NodeView, k: Seq<u8>| node_field_at(d, p, s, node_key(k))
}

pub open spec fn no_hash() -> Seq<u8> {
    Seq::new(16, |i: int| 0u8)
}

/// A node of which nothing is told.
pub open spec fn default_node() -> NodeView {
    NodeView {
        identity_hash: no_hash(),
        destination_hash: no_hash(),
        uptime_secs: 0,
        delivery_limit_kb: None,
        propagation_limit_kb: None,
        sync_limit_kb: None,
        target_stamp_cost: 0,
        stamp_cost_flexibility: 0,
        peering_cost: 0,
        max_peering_cost: 0,
        autopeer_maxdepth: None,
        from_static_only: false,
        messagestore_count: 0,
        messagestore_bytes: 0,
        messagestore_limit_bytes: None,
        client_propagation_messages_received: 0,
        client_propagation_messages_served: 0,
        unpeered_propagation_incoming: 0,
        unpeered_propagation_rx_bytes: 0,
        static_peers: 0,
        discovered_peers: 0,
        total_peers: 0,
        max_peers: None,
        peers: Seq::empty(),
    }
}

/// The map of a node, read over what is known of it.
pub open spec fn node_fields_at(d: Seq<u8>, p: int, s: NodeView) -> Result<
    (NodeView, int),
    msgpack::Error,
> {
    map_at(d, node_step(d), p, s)
}

/// The stats response: unknown keys are passed over, and what is missing keeps
/// its default.
pub open spec fn node_at(d: Seq<u8>, p: int) -> Result<(NodeView, int), msgpack::Error> {
    node_fields_at(d, p, default_node())
}

/// Reads a number that the sender may have packed as integer or float.
fn read_uint_tolerant(bytes: &[u8], position: &mut usize) -> (r: Result<u64, msgpack::Error>)
    ensures
        match msgpack::number_bits_at(bytes@, *old(position) as int) {
            Ok((v, q)) => r == Ok::<u64, msgpack::Error>(tolerant(v)) && *final(position) == q,
            Err(e) => r == Err::<u64, msgpack::Error>(e),
        },
{
    let value: u64 = msgpack::read_number_f64(bytes, position)?;
    if ieee::is_finite(value) {
        Ok(ieee::truncate(value))
    } else {
        Ok(0)
    }
}

fn read_opt_uint(bytes: &[u8], position: &mut usize) -> (r: Result<Option<u64>, msgpack::Error>)
    ensures
        match with_opt(bytes@, *old(position) as int, |v: Option<u64>| v) {
            Ok((v, q)) => r == Ok::<Option<u64>, msgpack::Error>(v) && *final(position) == q,
            Err(e) => r == Err::<Option<u64>, msgpack::Error>(e),
        },
{
    let kind = msgpack::peek_kind(bytes, *position)?;
    if kind == msgpack::Kind::Nil {
        msgpack::read_nil(bytes, position)?;
        return Ok(None);
    }
    let value: u64 = read_uint_tolerant(bytes, position)?;
    Ok(Some(value))
}

fn read_hash(bytes: &[u8], position: &mut usize) -> (r: Result<[u8; 16], msgpack::Error>)
    ensures
        match with_hash(bytes@, *old(position) as int, |v: Seq<u8>| v) {
            Ok((v, q)) => r is Ok && r->Ok_0@ == v && *final(position) == q,
            Err(e) => r == Err::<[u8; 16], msgpack::Error>(e),
        },
{
    let s = msgpack::read_bin(bytes, position)?;
    match to_array::<16>(s) {
        Some(a) => Ok(a),
        None => Err(msgpack::Error::Type),
    }
}

fn read_name(bytes: &[u8], position: &mut usize) -> (r: Result<Option<String>, msgpack::Error>)
    ensures
        match with_name(bytes@, *old(position) as int, |v: Option<Seq<u8>>| v) {
            Ok((v, q)) => r is Ok && opt_text(r->Ok_0) == v && *final(position) == q,
            Err(e) => r == Err::<Option<String>, msgpack::Error>(e),
        },
{
    let kind = msgpack::peek_kind(bytes, *position)?;
    match kind {
        msgpack::Kind::Nil => {
            msgpack::read_nil(bytes, position)?;
            Ok(None)
        },
        msgpack::Kind::Str => {
            let text = msgpack::read_str(bytes, position)?;
            Ok(Some(text.to_owned()))
        },
        _ => {
            let raw = msgpack::read_bin(bytes, position)?;
            Ok(string_from_utf8(to_vec(raw)))
        },
    }
}

impl ControlPeerStats {
    /// A peer of whom nothing is told.
    pub fn default_for(peer_id: [u8; 16]) -> (r: ControlPeerStats)
        ensures
            r@ == default_peer(peer_id@),
    {
        ControlPeerStats {
            peer_id,
            is_static: false,
            state: 0,
            alive: false,
            name: None,
            last_heard: 0,
            next_sync_attempt: 0,
            last_sync_attempt: 0,
            sync_backoff: 0,
            peering_timebase: 0,
            ler: 0,
            str_rate: 0,
            transfer_limit_kb: None,
            sync_limit_kb: None,
            target_stamp_cost: None,
            stamp_cost_flexibility: None,
            peering_cost: None,
            peering_key_value: None,
            network_distance: HOPS_UNKNOWN,
            rx_bytes: 0,
            tx_bytes: 0,
            acceptance_rate: 0,
            offered: 0,
            outgoing: 0,
            incoming: 0,
            unhandled: 0,
        }
    }

    fn read_count(&mut self, bytes: &[u8], position: &mut usize, field: CountKey) -> (r: Result<
        (),
        msgpack::Error,
    >)
        ensures
            match count_field_at(bytes@, *old(position) as int, old(self)@, field) {
                Ok((v, q)) => r is Ok && final(self)@ == v && *final(position) == q,
                Err(e) => r == Err::<(), msgpack::Error>(e),
            },
    {
        let value: u64 = read_uint_tolerant(bytes, position)?;
        match field {
            CountKey::Offered => {
                self.offered = value;
            },
            CountKey::Outgoing => {
                self.outgoing = value;
            },
            CountKey::Incoming => {
                self.incoming = value;
            },
            CountKey::Unhandled => {
                self.unhandled = value;
            },
            CountKey::Unknown => {},
        }
        Ok(())
    }

    fn read_counts(&mut self, bytes: &[u8], position: &mut usize) -> (r: Result<(), msgpack::Error>)
        ensures
            match counts_at(bytes@, *old(position) as int, old(self)@) {
                Ok((v, q)) => r is Ok && final(self)@ == v && *final(position) == q,
                Err(e) => r == Err::<(), msgpack::Error>(e),
            },
    {
        let count: usize = msgpack::map_len(bytes, position)?;
        let ghost start = *position as int;
        let ghost s = self@;
        let ghost step = keyed(bytes@, count_step(bytes@));
        let mut i: usize = 0;
        while i < count
            invariant
                i <= count,
                step == keyed(bytes@, count_step(bytes@)),
                fold_at(step, start, i as nat, s) == Ok::<(PeerView, int), msgpack::Error>(
                    (self@, *position as int),
                ),
                counts_at(bytes@, *old(position) as int, old(self)@) == fold_at(
                    step,
                    start,
                    count as nat,
                    s,
                ),
            decreases count - i,
        {
            proof {
                if fold_at(step, start, (i + 1) as nat, s) is Err {
                    lemma_fold_fails(step, start, (i + 1) as nat, count as nat, s);
                }
            }
            let key = msgpack::read_str(bytes, position)?;
            let field = read_count_key(key);
            self.read_count(bytes, position, field)?;
            i = i + 1;
        }
        Ok(())
    }

    fn read_field(&mut self, bytes: &[u8], position: &mut usize, field: PeerKey) -> (r: Result<
        (),
        msgpack::Error,
    >)
        ensures
            match peer_field_at(bytes@, *old(position) as int, old(self)@, field) {
                Ok((v, q)) => r is Ok && final(self)@ == v && *final(position) == q,
                Err(e) => r == Err::<(), msgpack::Error>(e),
            },
    {
        match field {
            PeerKey::Type => {
                let text = msgpack::read_str(bytes, position)?;
                self.is_static = same_text(text, "static");
            },
            PeerKey::State => {
                self.state = read_uint_tolerant(bytes, position)?;
            },
            PeerKey::Alive => {
                self.alive = msgpack::read_bool(bytes, position)?;
            },
            PeerKey::Name => {
                self.name = read_name(bytes, position)?;
            },
            PeerKey::LastHeard => {
                self.last_heard = read_uint_tolerant(bytes, position)?;
            },
            PeerKey::NextSyncAttempt => {
                self.next_sync_attempt = read_uint_tolerant(bytes, position)?;
            },
            PeerKey::LastSyncAttempt => {
                self.last_sync_attempt = read_uint_tolerant(bytes, position)?;
            },
            PeerKey::SyncBackoff => {
                self.sync_backoff = read_uint_tolerant(bytes, position)?;
            },
            PeerKey::PeeringTimebase => {
                self.peering_timebase = read_uint_tolerant(bytes, position)?;
            },
            PeerKey::Ler => {
                self.ler = read_uint_tolerant(bytes, position)?;
            },
            PeerKey::Str => {
                self.str_rate = read_uint_tolerant(bytes, position)?;
            },
            PeerKey::TransferLimit => {
                self.transfer_limit_kb = read_opt_uint(bytes, position)?;
            },
            PeerKey::SyncLimit => {
                self.sync_limit_kb = read_opt_uint(bytes, position)?;
            },
            PeerKey::TargetStampCost => {
                self.target_stamp_cost = read_opt_uint(bytes, position)?;
            },
            PeerKey::StampCostFlexibility => {
                self.stamp_cost_flexibility = read_opt_uint(bytes, position)?;
            },
            PeerKey::PeeringCost => {
                self.peering_cost = read_opt_uint(bytes, position)?;
            },
            PeerKey::PeeringKey => {
                self.peering_key_value = read_opt_uint(bytes, position)?;
            },
            PeerKey::NetworkDistance => {
                self.network_distance = read_uint_tolerant(bytes, position)?;
            },
            PeerKey::RxBytes => {
                self.rx_bytes = read_uint_tolerant(bytes, position)?;
            },
            PeerKey::TxBytes => {
                self.tx_bytes = read_uint_tolerant(bytes, position)?;
            },
            PeerKey::AcceptanceRate => {
                self.acceptance_rate = msgpack::read_number_f64(bytes, position)?;
            },
            PeerKey::Messages => {
                self.read_counts(bytes, position)?;
            },
            PeerKey::Unknown => {
                msgpack::skip(bytes, position)?;
            },
        }
        Ok(())
    }

    fn read_fields(&mut self, bytes: &[u8], position: &mut usize) -> (r: Result<(), msgpack::Error>)
        ensures
            match peer_fields_at(bytes@, *old(position) as int, old(self)@) {
                Ok((v, q)) => r is Ok && final(self)@ == v && *final(position) == q,
                Err(e) => r == Err::<(), msgpack::Error>(e),
            },
    {
        let count: usize = msgpack::map_len(bytes, position)?;
        let ghost start = *position as int;
        let ghost s = self@;
        let ghost step = keyed(bytes@, peer_step(bytes@));
        let mut i: usize = 0;
        while i < count
            invariant
                i <= count,
                step == keyed(bytes@, peer_step(bytes@)),
                fold_at(step, start, i as nat, s) == Ok::<(PeerView, int), msgpack::Error>(
                    (self@, *position as int),
                ),
                peer_fields_at(bytes@, *old(position) as int, old(self)@) == fold_at(
                    step,
                    start,
                    count as nat,
                    s,
                ),
            decreases count - i,
        {
            proof {
                if fold_at(step, start, (i + 1) as nat, s) is Err {
                    lemma_fold_fails(step, start, (i + 1) as nat, count as nat, s);
                }
            }
            let key = msgpack::read_str(bytes, position)?;
            let field = read_peer_key(key);
            self.read_field(bytes, position, field)?;
            i = i + 1;
        }
        Ok(())
    }

    fn decode_value(peer_id: [u8; 16], bytes: &[u8], position: &mut usize) -> (r: Result<
        ControlPeerStats,
        msgpack::Error,
    >)
        ensures
            match peer_at(bytes@, *old(position) as int, peer_id@) {
                Ok((v, q)) => r is Ok && r->Ok_0@ == v && *final(position) == q,
                Err(e) => r == Err::<ControlPeerStats, msgpack::Error>(e),
            },
    {
        let mut stats = ControlPeerStats::default_for(peer_id);
        stats.read_fields(bytes, position)?;
        Ok(stats)
    }
}

impl ControlNodeStats {
    fn blank() -> (r: ControlNodeStats)
        ensures
            r@ == default_node(),
    {
        let r = ControlNodeStats {
            identity_hash: [0u8;16],
            destination_hash: [0u8;16],
            uptime_secs: 0,
            delivery_limit_kb: None,
            propagation_limit_kb: None,
            sync_limit_kb: None,
            target_stamp_cost: 0,
            stamp_cost_flexibility: 0,
            peering_cost: 0,
            max_peering_cost: 0,
            autopeer_maxdepth: None,
            from_static_only: false,
            messagestore_count: 0,
            messagestore_bytes: 0,
            messagestore_limit_bytes: None,
            client_propagation_messages_received: 0,
            client_propagation_messages_served: 0,
            unpeered_propagation_incoming: 0,
            unpeered_propagation_rx_bytes: 0,
            static_peers: 0,
            discovered_peers: 0,
            total_peers: 0,
            max_peers: None,
            peers: Vec::new(),
        };
        assert(r@ =~= default_node());
        r
    }

    fn read_store_field(&mut self, bytes: &[u8], position: &mut usize, field: StoreKey) -> (r: Result<
        (),
        msgpack::Error,
    >)
        ensures
            match store_field_at(bytes@, *old(position) as int, old(self)@, field) {
                Ok((v, q)) => r is Ok && final(self)@ == v && *final(position) == q,
                Err(e) => r == Err::<(), msgpack::Error>(e),
            },
    {
        match field {
            StoreKey::Count => {
                self.messagestore_count = read_uint_tolerant(bytes, position)?;
            },
            StoreKey::Bytes => {
                self.messagestore_bytes = read_uint_tolerant(bytes, position)?;
            },
            StoreKey::Limit => {
                self.messagestore_limit_bytes = read_opt_uint(bytes, position)?;
            },
            StoreKey::Unknown => {
                msgpack::skip(bytes, position)?;
            },
        }
        Ok(())
    }

    fn read_store(&mut self, bytes: &[u8], position: &mut usize) -> (r: Result<(), msgpack::Error>)
        ensures
            match store_at(bytes@, *old(position) as int, old(self)@) {
                Ok((v, q)) => r is Ok && final(self)@ == v && *final(position) == q,
                Err(e) => r == Err::<(), msgpack::Error>(e),
            },
    {
        let count: usize = msgpack::map_len(bytes, position)?;
        let ghost start = *position as int;
        let ghost s = self@;
        let ghost step = keyed(bytes@, store_step(bytes@));
        let mut i: usize = 0;
        while i < count
            invariant
                i <= count,
                step == keyed(bytes@, store_step(bytes@)),
                fold_at(step, start, i as nat, s) == Ok::<(NodeView, int), msgpack::Error>(
                    (self@, *position as int),
                ),
                store_at(bytes@, *old(position) as int, old(self)@) == fold_at(
                    step,
                    start,
                    count as nat,
                    s,
                ),
            decreases count - i,
        {
            proof {
                if fold_at(step, start, (i + 1) as nat, s) is Err {
                    lemma_fold_fails(step, start, (i + 1) as nat, count as nat, s);
                }
            }
            let key = msgpack::read_str(bytes, position)?;
            let field = read_store_key(key);
            self.read_store_field(bytes, position, field)?;
            i = i + 1;
        }
        Ok(())
    }

    fn read_client_field(&mut self, bytes: &[u8], position: &mut usize, field: ClientKey) -> (r: Result<
        (),
        msgpack::Error,
    >)
        ensures
            match client_field_at(bytes@, *old(position) as int, old(self)@, field) {
                Ok((v, q)) => r is Ok && final(self)@ == v && *final(position) == q,
                Err(e) => r == Err::<(), msgpack::Error>(e),
            },
    {
        match field {
            ClientKey::Received => {
                self.client_propagation_messages_received = read_uint_tolerant(bytes, position)?;
            },
            ClientKey::Served => {
                self.client_propagation_messages_served = read_uint_tolerant(bytes, position)?;
            },
            ClientKey::Unknown => {
                msgpack::skip(bytes, position)?;
            },
        }
        Ok(())
    }

    fn read_clients(&mut self, bytes: &[u8], position: &mut usize) -> (r: Result<(), msgpack::Error>)
        ensures
            match clients_at(bytes@, *old(position) as int, old(self)@) {
                Ok((v, q)) => r is Ok && final(self)@ == v && *final(position) == q,
                Err(e) => r == Err::<(), msgpack::Error>(e),
            },
    {
        let count: usize = msgpack::map_len(bytes, position)?;
        let ghost start = *position as int;
        let ghost s = self@;
        let ghost step = keyed(bytes@, client_step(bytes@));
        let mut i: usize = 0;
        while i < count
            invariant
                i <= count,
                step == keyed(bytes@, client_step(bytes@)),
                fold_at(step, start, i as nat, s) == Ok::<(NodeView, int), msgpack::Error>(
                    (self@, *position as int),
                ),
                clients_at(bytes@, *old(position) as int, old(self)@) == fold_at(
                    step,
                    start,
                    count as nat,
                    s,
                ),
            decreases count - i,
        {
            proof {
                if fold_at(step, start, (i + 1) as nat, s) is Err {
                    lemma_fold_fails(step, start, (i + 1) as nat, count as nat, s);
                }
            }
            let key = msgpack::read_str(bytes, position)?;
            let field = read_client_key(key);
            self.read_client_field(bytes, position, field)?;
            i = i + 1;
        }
        Ok(())
    }

    fn read_peers(&mut self, bytes: &[u8], position: &mut usize) -> (r: Result<(), msgpack::Error>)
        ensures
            match peers_at(bytes@, *old(position) as int, old(self)@) {
                Ok((v, q)) => r is Ok && final(self)@ == v && *final(position) == q,
                Err(e) => r == Err::<(), msgpack::Error>(e),
            },
    {
        let count: usize = msgpack::map_len(bytes, position)?;
        let ghost start = *position as int;
        let ghost s = self@;
        let ghost item = peer_item(bytes@);
        let ghost mut read: Seq<PeerView> = Seq::empty();
        let mut i: usize = 0;
        assert(s.peers + read =~= s.peers);
        while i < count
            invariant
                i <= count,
                item == peer_item(bytes@),
                s == old(self)@,
                self@ == (NodeView { peers: s.peers + read, ..s }),
                msgpack::list_at(item, start, i as nat) == Ok::<
                    (Seq<PeerView>, int),
                    msgpack::Error,
                >((read, *position as int)),
                msgpack::map_len_at(bytes@, *old(position) as int) == Ok::<
                    (nat, int),
                    msgpack::Error,
                >((count as nat, start)),
            decreases count - i,
        {
            proof {
                if msgpack::list_at(item, start, (i + 1) as nat) is Err {
                    msgpack::lemma_list_fails(item, start, (i + 1) as nat, count as nat);
                }
            }
            let peer_id = read_hash(bytes, position)?;
            let peer = ControlPeerStats::decode_value(peer_id, bytes, position)?;
            let ghost before = self.peers@;
            self.peers.push(peer);
            proof {
                assert(peers_view(self.peers@) =~= peers_view(before).push(peer@));
                assert(s.peers + read.push(peer@) =~= (s.peers + read).push(peer@));
                read = read.push(peer@);
            }
            i = i + 1;
        }
        Ok(())
    }

    fn read_field(&mut self, bytes: &[u8], position: &mut usize, field: NodeKey) -> (r: Result<
        (),
        msgpack::Error,
    >)
        ensures
            match node_field_at(bytes@, *old(position) as int, old(self)@, field) {
                Ok((v, q)) => r is Ok && final(self)@ == v && *final(position) == q,
                Err(e) => r == Err::<(), msgpack::Error>(e),
            },
    {
        match field {
            NodeKey::IdentityHash => {
                self.identity_hash = read_hash(bytes, position)?;
            },
            NodeKey::DestinationHash => {
                self.destination_hash = read_hash(bytes, position)?;
            },
            NodeKey::Uptime => {
                self.uptime_secs = msgpack::read_number_f64(bytes, position)?;
            },
            NodeKey::DeliveryLimit => {
                self.delivery_limit_kb = read_opt_uint(bytes, position)?;
            },
            NodeKey::PropagationLimit => {
                self.propagation_limit_kb = read_opt_uint(bytes, position)?;
            },
            NodeKey::SyncLimit => {
                self.sync_limit_kb = read_opt_uint(bytes, position)?;
            },
            NodeKey::TargetStampCost => {
                self.target_stamp_cost = read_uint_tolerant(bytes, position)?;
            },
            NodeKey::StampCostFlexibility => {
                self.stamp_cost_flexibility = read_uint_tolerant(bytes, position)?;
            },
            NodeKey::PeeringCost => {
                self.peering_cost = read_uint_tolerant(bytes, position)?;
            },
            NodeKey::MaxPeeringCost => {
                self.max_peering_cost = read_uint_tolerant(bytes, position)?;
            },
            NodeKey::AutopeerMaxdepth => {
                self.autopeer_maxdepth = read_opt_uint(bytes, position)?;
            },
            NodeKey::FromStaticOnly => {
                self.from_static_only = msgpack::read_bool(bytes, position)?;
            },
            NodeKey::Messagestore => {
                self.read_store(bytes, position)?;
            },
            NodeKey::Clients => {
                self.read_clients(bytes, position)?;
            },
            NodeKey::UnpeeredIncoming => {
                self.unpeered_propagation_incoming = read_uint_tolerant(bytes, position)?;
            },
            NodeKey::UnpeeredRxBytes => {
                self.unpeered_propagation_rx_bytes = read_uint_tolerant(bytes, position)?;
            },
            NodeKey::StaticPeers => {
                self.static_peers = read_uint_tolerant(bytes, position)?;
            },
            NodeKey::DiscoveredPeers => {
                self.discovered_peers = read_uint_tolerant(bytes, position)?;
            },
            NodeKey::TotalPeers => {
                self.total_peers = read_uint_tolerant(bytes, position)?;
            },
            NodeKey::MaxPeers => {
                self.max_peers = read_opt_uint(bytes, position)?;
            },
            NodeKey::Peers => {
                self.read_peers(bytes, position)?;
            },
            NodeKey::Unknown => {
                msgpack::skip(bytes, position)?;
            },
        }
        Ok(())
    }

    fn read_fields(&mut self, bytes: &[u8], position: &mut usize) -> (r: Result<(), msgpack::Error>)
        ensures
            match node_fields_at(bytes@, *old(position) as int, old(self)@) {
                Ok((v, q)) => r is Ok && final(self)@ == v && *final(position) == q,
                Err(e) => r == Err::<(), msgpack::Error>(e),
            },
    {
        let count: usize = msgpack::map_len(bytes, position)?;
        let ghost start = *position as int;
        let ghost s = self@;
        let ghost step = keyed(bytes@, node_step(bytes@));
        let mut i: usize = 0;
        while i < count
            invariant
                i <= count,
                step == keyed(bytes@, node_step(bytes@)),
                fold_at(step, start, i as nat, s) == Ok::<(NodeView, int), msgpack::Error>(
                    (self@, *position as int),
                ),
                node_fields_at(bytes@, *old(position) as int, old(self)@) == fold_at(
                    step,
                    start,
                    count as nat,
                    s,
                ),
            decreases count - i,
        {
            proof {
                if fold_at(step, start, (i + 1) as nat, s) is Err {
                    lemma_fold_fails(step, start, (i + 1) as nat, count as nat, s);
                }
            }
            let key = msgpack::read_str(bytes, position)?;
            let field = read_node_key(key);
            self.read_field(bytes, position, field)?;
            i = i + 1;
        }
        Ok(())
    }

    fn decode_at(bytes: &[u8], position: &mut usize) -> (r: Result<ControlNodeStats, msgpack::Error>)
        ensures
            match node_at(bytes@, *old(position) as int) {
                Ok((v, q)) => r is Ok && r->Ok_0@ == v && *final(position) == q,
                Err(e) => r == Err::<ControlNodeStats, msgpack::Error>(e),
            },
    {
        let mut stats = ControlNodeStats::blank();
        stats.read_fields(bytes, position)?;
        Ok(stats)
    }

    /// Decodes a stats response. Bytes behind the map are passed over.
    pub fn decode(bytes: &[u8]) -> (r: Result<ControlNodeStats, msgpack::Error>)
        ensures
            match node_at(bytes@, 0) {
                Ok((v, _)) => r is Ok && r->Ok_0@ == v,
                Err(e) => r == Err::<ControlNodeStats, msgpack::Error>(e),
            },
    {
        let mut position: usize = 0;
        ControlNodeStats::decode_at(bytes, &mut position)
    }
}

// ---------------------------------------------------------------------------
// Writing
// ---------------------------------------------------------------------------

/// A value of an entry.
pub ghost enum Scalar {
    Uint(u64),
    Opt(Option<u64>),
    Flag(bool),
    Text(Seq<u8>),
    Name(Option<Seq<u8>>),
    Double(u64),
    Bytes(Seq<u8>),
}

pub ghost enum Item {
    One(Scalar),
    /// A map of its own, by its bytes.
    Raw(Seq<u8>),
}

pub ghost struct Entry {
    pub key: Seq<char>,
    pub item: Item,
}

pub open spec fn opt_bytes(v: Option<u64>) -> Seq<u8> {
    match v {
        Some(n) => msgpack::uint_bytes(n as nat),
        None => msgpack::nil_bytes(),
    }
}

pub open spec fn item_bytes(i: Item) -> Seq<u8> {
    match i {
        Item::One(Scalar::Uint(v)) => msgpack::uint_bytes(v as nat),
        Item::One(Scalar::Opt(v)) => opt_bytes(v),
        Item::One(Scalar::Flag(v)) => msgpack::bool_bytes(v),
        Item::One(Scalar::Text(v)) => msgpack::str_bytes(v),
        Item::One(Scalar::Name(Some(v))) => msgpack::str_bytes(v),
        Item::One(Scalar::Name(None)) => msgpack::nil_bytes(),
        Item::One(Scalar::Double(v)) => msgpack::double_bytes(v),
        Item::One(Scalar::Bytes(v)) => msgpack::bin_bytes(v),
        Item::Raw(v) => v,
    }
}

pub open spec fn text_bytes(s: Seq<char>) -> Seq<u8> {
    msgpack::str_bytes(utf8(s))
}

pub open spec fn entry_bytes(e: Entry) -> Seq<u8> {
    text_bytes(e.key) + item_bytes(e.item)
}

pub open spec fn entry_one() -> spec_fn(Entry) -> Seq<u8> {
    |e: Entry| entry_bytes(e)
}

/// A map with text keys.
pub open spec fn map_bytes(entries: Seq<Entry>) -> Seq<u8> {
    msgpack::map_header((entries.len() as u32) as nat) + msgpack::list_bytes(entry_one(), entries)
}

pub open spec fn peer_type(is_static: bool) -> Seq<u8> {
    if is_static {
        utf8("static"@)
    } else {
        utf8("discovered"@)
    }
}

/// The message counts of a peer.
pub open spec fn counts_entries(v: PeerView) -> Seq<Entry> {
    seq![
        Entry { key: "offered"@, item: Item::One(Scalar::Uint(v.offered)) },
        Entry { key: "outgoing"@, item: Item::One(Scalar::Uint(v.outgoing)) },
        Entry { key: "incoming"@, item: Item::One(Scalar::Uint(v.incoming)) },
        Entry { key: "unhandled"@, item: Item::One(Scalar::Uint(v.unhandled)) },
    ]
}

/// The entries of a peer's map.
pub open spec fn peer_entries(v: PeerView) -> Seq<Entry> {
    seq![
        Entry { key: "type"@, item: Item::One(Scalar::Text(peer_type(v.is_static))) },
        Entry { key: "state"@, item: Item::One(Scalar::Uint(v.state)) },
        Entry { key: "alive"@, item: Item::One(Scalar::Flag(v.alive)) },
        Entry { key: "name"@, item: Item::One(Scalar::Name(v.name)) },
        Entry { key: "last_heard"@, item: Item::One(Scalar::Uint(v.last_heard)) },
        Entry { key: "next_sync_attempt"@, item: Item::One(Scalar::Uint(v.next_sync_attempt)) },
        Entry { key: "last_sync_attempt"@, item: Item::One(Scalar::Uint(v.last_sync_attempt)) },
        Entry { key: "sync_backoff"@, item: Item::One(Scalar::Uint(v.sync_backoff)) },
        Entry { key: "peering_timebase"@, item: Item::One(Scalar::Uint(v.peering_timebase)) },
        Entry { key: "ler"@, item: Item::One(Scalar::Uint(v.ler)) },
        Entry { key: "str"@, item: Item::One(Scalar::Uint(v.str_rate)) },
        Entry { key: "transfer_limit"@, item: Item::One(Scalar::Opt(v.transfer_limit_kb)) },
        Entry { key: "sync_limit"@, item: Item::One(Scalar::Opt(v.sync_limit_kb)) },
        Entry { key: "target_stamp_cost"@, item: Item::One(Scalar::Opt(v.target_stamp_cost)) },
        Entry { key: "stamp_cost_flexibility"@, item: Item::One(Scalar::Opt(v.stamp_cost_flexibility)) },
        Entry { key: "peering_cost"@, item: Item::One(Scalar::Opt(v.peering_cost)) },
        Entry { key: "peering_key"@, item: Item::One(Scalar::Opt(v.peering_key_value)) },
        Entry { key: "network_distance"@, item: Item::One(Scalar::Uint(v.network_distance)) },
        Entry { key: "rx_bytes"@, item: Item::One(Scalar::Uint(v.rx_bytes)) },
        Entry { key: "tx_bytes"@, item: Item::One(Scalar::Uint(v.tx_bytes)) },
        Entry { key: "acceptance_rate"@, item: Item::One(Scalar::Double(v.acceptance_rate)) },
        Entry { key: "messages"@, item: Item::Raw(map_bytes(counts_entries(v))) },
    ]
}

pub open spec fn peer_one() -> spec_fn(PeerView) -> Seq<u8> {
    |p: PeerView| msgpack::bin_bytes(p.peer_id) + map_bytes(peer_entries(p))
}

/// The map of peers.
pub open spec fn peers_bytes(peers: Seq<PeerView>) -> Seq<u8> {
    msgpack::map_header((peers.len() as u32) as nat) + msgpack::list_bytes(peer_one(), peers)
}

/// The message store of a node.
pub open spec fn store_entries(v: NodeView) -> Seq<Entry> {
    seq![
        Entry { key: "count"@, item: Item::One(Scalar::Uint(v.messagestore_count)) },
        Entry { key: "bytes"@, item: Item::One(Scalar::Uint(v.messagestore_bytes)) },
        Entry { key: "limit"@, item: Item::One(Scalar::Opt(v.messagestore_limit_bytes)) },
    ]
}

/// The client counts of a node.
pub open spec fn clients_entries(v: NodeView) -> Seq<Entry> {
    seq![
        Entry { key: "client_propagation_messages_received"@, item: Item::One(Scalar::Uint(v.client_propagation_messages_received)) },
        Entry { key: "client_propagation_messages_served"@, item: Item::One(Scalar::Uint(v.client_propagation_messages_served)) },
    ]
}

/// The entries of a node's map.
pub open spec fn node_entries(v: NodeView) -> Seq<Entry> {
    seq![
        Entry { key: "identity_hash"@, item: Item::One(Scalar::Bytes(v.identity_hash)) },
        Entry { key: "destination_hash"@, item: Item::One(Scalar::Bytes(v.destination_hash)) },
        Entry { key: "uptime"@, item: Item::One(Scalar::Double(v.uptime_secs)) },
        Entry { key: "delivery_limit"@, item: Item::One(Scalar::Opt(v.delivery_limit_kb)) },
        Entry { key: "propagation_limit"@, item: Item::One(Scalar::Opt(v.propagation_limit_kb)) },
        Entry { key: "sync_limit"@, item: Item::One(Scalar::Opt(v.sync_limit_kb)) },
        Entry { key: "target_stamp_cost"@, item: Item::One(Scalar::Uint(v.target_stamp_cost)) },
        Entry { key: "stamp_cost_flexibility"@, item: Item::One(Scalar::Uint(v.stamp_cost_flexibility)) },
        Entry { key: "peering_cost"@, item: Item::One(Scalar::Uint(v.peering_cost)) },
        Entry { key: "max_peering_cost"@, item: Item::One(Scalar::Uint(v.max_peering_cost)) },
        Entry { key: "autopeer_maxdepth"@, item: Item::One(Scalar::Opt(v.autopeer_maxdepth)) },
        Entry { key: "from_static_only"@, item: Item::One(Scalar::Flag(v.from_static_only)) },
        Entry { key: "messagestore"@, item: Item::Raw(map_bytes(store_entries(v))) },
        Entry { key: "clients"@, item: Item::Raw(map_bytes(clients_entries(v))) },
        Entry { key: "unpeered_propagation_incoming"@, item: Item::One(Scalar::Uint(v.unpeered_propagation_incoming)) },
        Entry { key: "unpeered_propagation_rx_bytes"@, item: Item::One(Scalar::Uint(v.unpeered_propagation_rx_bytes)) },
        Entry { key: "static_peers"@, item: Item::One(Scalar::Uint(v.static_peers)) },
        Entry { key: "discovered_peers"@, item: Item::One(Scalar::Uint(v.discovered_peers)) },
        Entry { key: "total_peers"@, item: Item::One(Scalar::Uint(v.total_peers)) },
        Entry { key: "max_peers"@, item: Item::One(Scalar::Opt(v.max_peers)) },
        Entry { key: "peers"@, item: Item::Raw(peers_bytes(v.peers)) },
    ]
}

/// Some bytes with entries written behind them.
#[verifier::opaque]
spec fn written(head: Seq<u8>, done: Seq<Entry>) -> Seq<u8> {
    head + msgpack::list_bytes(entry_one(), done)
}

/// Writing one more entry behind the entries already written.
proof fn lemma_put(head: Seq<u8>, done: Seq<Entry>, e: Entry, out: Seq<u8>)
    requires
        out == written(head, done) + text_bytes(e.key) + item_bytes(e.item),
    ensures
        out == written(head, done.push(e)),
{
    reveal(written);
    assert(done.push(e).drop_last() =~= done);
    assert(out =~= head + msgpack::list_bytes(entry_one(), done.push(e)));
}

/// Before the first entry.
proof fn lemma_none_written(head: Seq<u8>)
    ensures
        written(head, Seq::<Entry>::empty()) == head,
{
    reveal(written);
    assert(written(head, Seq::<Entry>::empty()) =~= head);
}

/// Behind the last entry.
proof fn lemma_all_written(start: Seq<u8>, entries: Seq<Entry>)
    ensures
        written(start + msgpack::map_header((entries.len() as u32) as nat), entries) == start
            + map_bytes(entries),
{
    reveal(written);
    assert(written(start + msgpack::map_header((entries.len() as u32) as nat), entries) =~= start
        + map_bytes(entries));
}

fn put_uint(
    out: &mut Vec<u8>,
    key: &str,
    value: u64,
    Ghost(head): Ghost<Seq<u8>>,
    Ghost(done): Ghost<Seq<Entry>>,
)
    requires
        old(out)@ == written(head, done),
    ensures
        final(out)@ == written(head, done.push(Entry { key: key@, item: Item::One(Scalar::Uint(value)) })),
{
    msgpack::string(out, key);
    msgpack::uint(out, value);
    proof {
        lemma_put(head, done, Entry { key: key@, item: Item::One(Scalar::Uint(value)) }, out@);
    }
}

fn put_opt(
    out: &mut Vec<u8>,
    key: &str,
    value: Option<u64>,
    Ghost(head): Ghost<Seq<u8>>,
    Ghost(done): Ghost<Seq<Entry>>,
)
    requires
        old(out)@ == written(head, done),
    ensures
        final(out)@ == written(head, done.push(Entry { key: key@, item: Item::One(Scalar::Opt(value)) })),
{
    msgpack::string(out, key);
    opt_uint(out, value);
    proof {
        lemma_put(head, done, Entry { key: key@, item: Item::One(Scalar::Opt(value)) }, out@);
    }
}

fn put_flag(
    out: &mut Vec<u8>,
    key: &str,
    value: bool,
    Ghost(head): Ghost<Seq<u8>>,
    Ghost(done): Ghost<Seq<Entry>>,
)
    requires
        old(out)@ == written(head, done),
    ensures
        final(out)@ == written(head, done.push(Entry { key: key@, item: Item::One(Scalar::Flag(value)) })),
{
    msgpack::string(out, key);
    msgpack::boolean(out, value);
    proof {
        lemma_put(head, done, Entry { key: key@, item: Item::One(Scalar::Flag(value)) }, out@);
    }
}

fn put_double(
    out: &mut Vec<u8>,
    key: &str,
    value: u64,
    Ghost(head): Ghost<Seq<u8>>,
    Ghost(done): Ghost<Seq<Entry>>,
)
    requires
        old(out)@ == written(head, done),
    ensures
        final(out)@ == written(head, done.push(Entry { key: key@, item: Item::One(Scalar::Double(value)) })),
{
    msgpack::string(out, key);
    msgpack::double(out, value);
    proof {
        lemma_put(head, done, Entry { key: key@, item: Item::One(Scalar::Double(value)) }, out@);
    }
}

fn put_bytes(
    out: &mut Vec<u8>,
    key: &str,
    value: &[u8; 16],
    Ghost(head): Ghost<Seq<u8>>,
    Ghost(done): Ghost<Seq<Entry>>,
)
    requires
        old(out)@ == written(head, done),
    ensures
        final(out)@ == written(head, done.push(Entry { key: key@, item: Item::One(Scalar::Bytes(value@)) })),
{
    msgpack::string(out, key);
    msgpack::bin(out, value);
    proof {
        lemma_put(head, done, Entry { key: key@, item: Item::One(Scalar::Bytes(value@)) }, out@);
    }
}

fn put_type(
    out: &mut Vec<u8>,
    key: &str,
    is_static: bool,
    Ghost(head): Ghost<Seq<u8>>,
    Ghost(done): Ghost<Seq<Entry>>,
)
    requires
        old(out)@ == written(head, done),
    ensures
        final(out)@ == written(head, done.push(Entry { key: key@, item: Item::One(Scalar::Text(peer_type(is_static))) })),
{
    msgpack::string(out, key);
    msgpack::string(
        out,
        if is_static {
            "static"
        } else {
            "discovered"
        },
    );
    proof {
        lemma_put(head, done, Entry { key: key@, item: Item::One(Scalar::Text(peer_type(is_static))) }, out@);
    }
}

fn put_name(
    out: &mut Vec<u8>,
    key: &str,
    name: &Option<String>,
    Ghost(head): Ghost<Seq<u8>>,
    Ghost(done): Ghost<Seq<Entry>>,
)
    requires
        old(out)@ == written(head, done),
    ensures
        final(out)@ == written(head, done.push(Entry { key: key@, item: Item::One(Scalar::Name(opt_text(*name))) })),
{
    msgpack::string(out, key);
    match name {
        Some(name) => msgpack::string(out, name.as_str()),
        None => msgpack::nil(out),
    }
    proof {
        lemma_put(head, done, Entry { key: key@, item: Item::One(Scalar::Name(opt_text(*name))) }, out@);
    }
}

fn opt_uint(out: &mut Vec<u8>, value: Option<u64>)
    ensures
        final(out)@ == old(out)@ + opt_bytes(value),
{
    match value {
        Some(value) => msgpack::uint(out, value),
        None => msgpack::nil(out),
    }
}

impl ControlPeerStats {
    fn put_counts(
        &self,
        out: &mut Vec<u8>,
        Ghost(outer): Ghost<Seq<u8>>,
        Ghost(before): Ghost<Seq<Entry>>,
    )
        requires
            old(out)@ == written(outer, before),
        ensures
            final(out)@ == written(
                outer,
                before.push(Entry { key: "messages"@, item: Item::Raw(map_bytes(counts_entries(self@))) }),
            ),
    {
        msgpack::string(out, "messages");
        let ghost keyed = out@;
        msgpack::map(out, 4);
        let ghost head = out@;
        let ghost mut done: Seq<Entry> = Seq::empty();
        proof {
            lemma_none_written(head);
        }
        put_uint(out, "offered", self.offered, Ghost(head), Ghost(done));
        proof {
            done = done.push(
                Entry { key: "offered"@, item: Item::One(Scalar::Uint(self@.offered)) },
            );
        }
        put_uint(out, "outgoing", self.outgoing, Ghost(head), Ghost(done));
        proof {
            done = done.push(
                Entry { key: "outgoing"@, item: Item::One(Scalar::Uint(self@.outgoing)) },
            );
        }
        put_uint(out, "incoming", self.incoming, Ghost(head), Ghost(done));
        proof {
            done = done.push(
                Entry { key: "incoming"@, item: Item::One(Scalar::Uint(self@.incoming)) },
            );
        }
        put_uint(out, "unhandled", self.unhandled, Ghost(head), Ghost(done));
        proof {
            done = done.push(
                Entry { key: "unhandled"@, item: Item::One(Scalar::Uint(self@.unhandled)) },
            );
        }
        proof {
            assert(done =~= counts_entries(self@));
            lemma_all_written(keyed, done);
            lemma_put(
                outer,
                before,
                Entry { key: "messages"@, item: Item::Raw(map_bytes(counts_entries(self@))) },
                out@,
            );
        }
    }

    fn encode_value(&self, out: &mut Vec<u8>)
        ensures
            final(out)@ == old(out)@ + map_bytes(peer_entries(self@)),
    {
        let ghost start = out@;
        msgpack::map(out, 22);
        let ghost head = out@;
        let ghost mut done: Seq<Entry> = Seq::empty();
        proof {
            lemma_none_written(head);
        }
        put_type(out, "type", self.is_static, Ghost(head), Ghost(done));
        proof {
            done = done.push(
                Entry { key: "type"@, item: Item::One(Scalar::Text(peer_type(self@.is_static))) },
            );
        }
        put_uint(out, "state", self.state, Ghost(head), Ghost(done));
        proof {
            done = done.push(
                Entry { key: "state"@, item: Item::One(Scalar::Uint(self@.state)) },
            );
        }
        put_flag(out, "alive", self.alive, Ghost(head), Ghost(done));
        proof {
            done = done.push(
                Entry { key: "alive"@, item: Item::One(Scalar::Flag(self@.alive)) },
            );
        }
        put_name(out, "name", &self.name, Ghost(head), Ghost(done));
        proof {
            done = done.push(
                Entry { key: "name"@, item: Item::One(Scalar::Name(self@.name)) },
            );
        }
        put_uint(out, "last_heard", self.last_heard, Ghost(head), Ghost(done));
        proof {
            done = done.push(
                Entry { key: "last_heard"@, item: Item::One(Scalar::Uint(self@.last_heard)) },
            );
        }
        put_uint(out, "next_sync_attempt", self.next_sync_attempt, Ghost(head), Ghost(done));
        proof {
            done = done.push(
                Entry { key: "next_sync_attempt"@, item: Item::One(Scalar::Uint(self@.next_sync_attempt)) },
            );
        }
        put_uint(out, "last_sync_attempt", self.last_sync_attempt, Ghost(head), Ghost(done));
        proof {
            done = done.push(
                Entry { key: "last_sync_attempt"@, item: Item::One(Scalar::Uint(self@.last_sync_attempt)) },
            );
        }
        put_uint(out, "sync_backoff", self.sync_backoff, Ghost(head), Ghost(done));
        proof {
            done = done.push(
                Entry { key: "sync_backoff"@, item: Item::One(Scalar::Uint(self@.sync_backoff)) },
            );
        }
        put_uint(out, "peering_timebase", self.peering_timebase, Ghost(head), Ghost(done));
        proof {
            done = done.push(
                Entry { key: "peering_timebase"@, item: Item::One(Scalar::Uint(self@.peering_timebase)) },
            );
        }
        put_uint(out, "ler", self.ler, Ghost(head), Ghost(done));
        proof {
            done = done.push(
                Entry { key: "ler"@, item: Item::One(Scalar::Uint(self@.ler)) },
            );
        }
        put_uint(out, "str", self.str_rate, Ghost(head), Ghost(done));
        proof {
            done = done.push(
                Entry { key: "str"@, item: Item::One(Scalar::Uint(self@.str_rate)) },
            );
        }
        put_opt(out, "transfer_limit", self.transfer_limit_kb, Ghost(head), Ghost(done));
        proof {
            done = done.push(
                Entry { key: "transfer_limit"@, item: Item::One(Scalar::Opt(self@.transfer_limit_kb)) },
            );
        }
        put_opt(out, "sync_limit", self.sync_limit_kb, Ghost(head), Ghost(done));
        proof {
            done = done.push(
                Entry { key: "sync_limit"@, item: Item::One(Scalar::Opt(self@.sync_limit_kb)) },
            );
        }
        put_opt(out, "target_stamp_cost", self.target_stamp_cost, Ghost(head), Ghost(done));
        proof {
            done = done.push(
                Entry { key: "target_stamp_cost"@, item: Item::One(Scalar::Opt(self@.target_stamp_cost)) },
            );
        }
        put_opt(out, "stamp_cost_flexibility", self.stamp_cost_flexibility, Ghost(head), Ghost(done));
        proof {
            done = done.push(
                Entry { key: "stamp_cost_flexibility"@, item: Item::One(Scalar::Opt(self@.stamp_cost_flexibility)) },
            );
        }
        put_opt(out, "peering_cost", self.peering_cost, Ghost(head), Ghost(done));
        proof {
            done = done.push(
                Entry { key: "peering_cost"@, item: Item::One(Scalar::Opt(self@.peering_cost)) },
            );
        }
        put_opt(out, "peering_key", self.peering_key_value, Ghost(head), Ghost(done));
        proof {
            done = done.push(
                Entry { key: "peering_key"@, item: Item::One(Scalar::Opt(self@.peering_key_value)) },
            );
        }
        put_uint(out, "network_distance", self.network_distance, Ghost(head), Ghost(done));
        proof {
            done = done.push(
                Entry { key: "network_distance"@, item: Item::One(Scalar::Uint(self@.network_distance)) },
            );
        }
        put_uint(out, "rx_bytes", self.rx_bytes, Ghost(head), Ghost(done));
        proof {
            done = done.push(
                Entry { key: "rx_bytes"@, item: Item::One(Scalar::Uint(self@.rx_bytes)) },
            );
        }
        put_uint(out, "tx_bytes", self.tx_bytes, Ghost(head), Ghost(done));
        proof {
            done = done.push(
                Entry { key: "tx_bytes"@, item: Item::One(Scalar::Uint(self@.tx_bytes)) },
            );
        }
        put_double(out, "acceptance_rate", self.acceptance_rate, Ghost(head), Ghost(done));
        proof {
            done = done.push(
                Entry { key: "acceptance_rate"@, item: Item::One(Scalar::Double(self@.acceptance_rate)) },
            );
        }
        self.put_counts(out, Ghost(head), Ghost(done));
        proof {
            done = done.push(
                Entry { key: "messages"@, item: Item::Raw(map_bytes(counts_entries(self@))) },
            );
        }
        proof {
            assert(done =~= peer_entries(self@));
            lemma_all_written(start, done);
        }
    }
}

impl ControlNodeStats {
    fn put_store(
        &self,
        out: &mut Vec<u8>,
        Ghost(outer): Ghost<Seq<u8>>,
        Ghost(before): Ghost<Seq<Entry>>,
    )
        requires
            old(out)@ == written(outer, before),
        ensures
            final(out)@ == written(
                outer,
                before.push(Entry { key: "messagestore"@, item: Item::Raw(map_bytes(store_entries(self@))) }),
            ),
    {
        msgpack::string(out, "messagestore");
        let ghost keyed = out@;
        msgpack::map(out, 3);
        let ghost head = out@;
        let ghost mut done: Seq<Entry> = Seq::empty();
        proof {
            lemma_none_written(head);
        }
        put_uint(out, "count", self.messagestore_count, Ghost(head), Ghost(done));
        proof {
            done = done.push(
                Entry { key: "count"@, item: Item::One(Scalar::Uint(self@.messagestore_count)) },
            );
        }
        put_uint(out, "bytes", self.messagestore_bytes, Ghost(head), Ghost(done));
        proof {
            done = done.push(
                Entry { key: "bytes"@, item: Item::One(Scalar::Uint(self@.messagestore_bytes)) },
            );
        }
        put_opt(out, "limit", self.messagestore_limit_bytes, Ghost(head), Ghost(done));
        proof {
            done = done.push(
                Entry { key: "limit"@, item: Item::One(Scalar::Opt(self@.messagestore_limit_bytes)) },
            );
        }
        proof {
            assert(done =~= store_entries(self@));
            lemma_all_written(keyed, done);
            lemma_put(
                outer,
                before,
                Entry { key: "messagestore"@, item: Item::Raw(map_bytes(store_entries(self@))) },
                out@,
            );
        }
    }

    fn put_clients(
        &self,
        out: &mut Vec<u8>,
        Ghost(outer): Ghost<Seq<u8>>,
        Ghost(before): Ghost<Seq<Entry>>,
    )
        requires
            old(out)@ == written(outer, before),
        ensures
            final(out)@ == written(
                outer,
                before.push(Entry { key: "clients"@, item: Item::Raw(map_bytes(clients_entries(self@))) }),
            ),
    {
        msgpack::string(out, "clients");
        let ghost keyed = out@;
        msgpack::map(out, 2);
        let ghost head = out@;
        let ghost mut done: Seq<Entry> = Seq::empty();
        proof {
            lemma_none_written(head);
        }
        put_uint(out, "client_propagation_messages_received", self.client_propagation_messages_received, Ghost(head), Ghost(done));
        proof {
            done = done.push(
                Entry { key: "client_propagation_messages_received"@, item: Item::One(Scalar::Uint(self@.client_propagation_messages_received)) },
            );
        }
        put_uint(out, "client_propagation_messages_served", self.client_propagation_messages_served, Ghost(head), Ghost(done));
        proof {
            done = done.push(
                Entry { key: "client_propagation_messages_served"@, item: Item::One(Scalar::Uint(self@.client_propagation_messages_served)) },
            );
        }
        proof {
            assert(done =~= clients_entries(self@));
            lemma_all_written(keyed, done);
            lemma_put(
                outer,
                before,
                Entry { key: "clients"@, item: Item::Raw(map_bytes(clients_entries(self@))) },
                out@,
            );
        }
    }

    fn put_peers(
        &self,
        out: &mut Vec<u8>,
        Ghost(outer): Ghost<Seq<u8>>,
        Ghost(before): Ghost<Seq<Entry>>,
    )
        requires
            old(out)@ == written(outer, before),
        ensures
            final(out)@ == written(
                outer,
                before.push(Entry { key: "peers"@, item: Item::Raw(peers_bytes(self@.peers)) }),
            ),
    {
        msgpack::string(out, "peers");
        let ghost keyed = out@;
        msgpack::map(out, self.peers.len());
        let ghost head = out@;
        let ghost ps = self@.peers;
        let mut i: usize = 0;
        assert(ps.take(0) =~= Seq::empty());
        assert(out@ =~= head + msgpack::list_bytes(peer_one(), ps.take(0)));
        while i < self.peers.len()
            invariant
                i <= self.peers@.len(),
                ps == peers_view(self.peers@),
                out@ == head + msgpack::list_bytes(peer_one(), ps.take(i as int)),
            decreases self.peers@.len() - i,
        {
            msgpack::bin(out, &self.peers[i].peer_id);
            self.peers[i].encode_value(out);
            proof {
                let t = ps.take(i + 1);
                assert(t.drop_last() =~= ps.take(i as int));
                assert(t.last() == self.peers@[i as int]@);
                assert(out@ =~= head + msgpack::list_bytes(peer_one(), t));
            }
            i = i + 1;
        }
        proof {
            assert(ps.take(i as int) =~= ps);
            assert(out@ =~= keyed + peers_bytes(ps));
            lemma_put(
                outer,
                before,
                Entry { key: "peers"@, item: Item::Raw(peers_bytes(ps)) },
                out@,
            );
        }
    }

    fn put_all(&self, out: &mut Vec<u8>)
        ensures
            final(out)@ == old(out)@ + map_bytes(node_entries(self@)),
    {
        let ghost start = out@;
        msgpack::map(out, 21);
        let ghost head = out@;
        let ghost mut done: Seq<Entry> = Seq::empty();
        proof {
            lemma_none_written(head);
        }
        put_bytes(out, "identity_hash", &self.identity_hash, Ghost(head), Ghost(done));
        proof {
            done = done.push(
                Entry { key: "identity_hash"@, item: Item::One(Scalar::Bytes(self@.identity_hash)) },
            );
        }
        put_bytes(out, "destination_hash", &self.destination_hash, Ghost(head), Ghost(done));
        proof {
            done = done.push(
                Entry { key: "destination_hash"@, item: Item::One(Scalar::Bytes(self@.destination_hash)) },
            );
        }
        put_double(out, "uptime", self.uptime_secs, Ghost(head), Ghost(done));
        proof {
            done = done.push(
                Entry { key: "uptime"@, item: Item::One(Scalar::Double(self@.uptime_secs)) },
            );
        }
        put_opt(out, "delivery_limit", self.delivery_limit_kb, Ghost(head), Ghost(done));
        proof {
            done = done.push(
                Entry { key: "delivery_limit"@, item: Item::One(Scalar::Opt(self@.delivery_limit_kb)) },
            );
        }
        put_opt(out, "propagation_limit", self.propagation_limit_kb, Ghost(head), Ghost(done));
        proof {
            done = done.push(
                Entry { key: "propagation_limit"@, item: Item::One(Scalar::Opt(self@.propagation_limit_kb)) },
            );
        }
        put_opt(out, "sync_limit", self.sync_limit_kb, Ghost(head), Ghost(done));
        proof {
            done = done.push(
                Entry { key: "sync_limit"@, item: Item::One(Scalar::Opt(self@.sync_limit_kb)) },
            );
        }
        put_uint(out, "target_stamp_cost", self.target_stamp_cost, Ghost(head), Ghost(done));
        proof {
            done = done.push(
                Entry { key: "target_stamp_cost"@, item: Item::One(Scalar::Uint(self@.target_stamp_cost)) },
            );
        }
        put_uint(out, "stamp_cost_flexibility", self.stamp_cost_flexibility, Ghost(head), Ghost(done));
        proof {
            done = done.push(
                Entry { key: "stamp_cost_flexibility"@, item: Item::One(Scalar::Uint(self@.stamp_cost_flexibility)) },
            );
        }
        put_uint(out, "peering_cost", self.peering_cost, Ghost(head), Ghost(done));
        proof {
            done = done.push(
                Entry { key: "peering_cost"@, item: Item::One(Scalar::Uint(self@.peering_cost)) },
            );
        }
        put_uint(out, "max_peering_cost", self.max_peering_cost, Ghost(head), Ghost(done));
        proof {
            done = done.push(
                Entry { key: "max_peering_cost"@, item: Item::One(Scalar::Uint(self@.max_peering_cost)) },
            );
        }
        put_opt(out, "autopeer_maxdepth", self.autopeer_maxdepth, Ghost(head), Ghost(done));
        proof {
            done = done.push(
                Entry { key: "autopeer_maxdepth"@, item: Item::One(Scalar::Opt(self@.autopeer_maxdepth)) },
            );
        }
        put_flag(out, "from_static_only", self.from_static_only, Ghost(head), Ghost(done));
        proof {
            done = done.push(
                Entry { key: "from_static_only"@, item: Item::One(Scalar::Flag(self@.from_static_only)) },
            );
        }
        self.put_store(out, Ghost(head), Ghost(done));
        proof {
            done = done.push(
                Entry { key: "messagestore"@, item: Item::Raw(map_bytes(store_entries(self@))) },
            );
        }
        self.put_clients(out, Ghost(head), Ghost(done));
        proof {
            done = done.push(
                Entry { key: "clients"@, item: Item::Raw(map_bytes(clients_entries(self@))) },
            );
        }
        put_uint(out, "unpeered_propagation_incoming", self.unpeered_propagation_incoming, Ghost(head), Ghost(done));
        proof {
            done = done.push(
                Entry { key: "unpeered_propagation_incoming"@, item: Item::One(Scalar::Uint(self@.unpeered_propagation_incoming)) },
            );
        }
        put_uint(out, "unpeered_propagation_rx_bytes", self.unpeered_propagation_rx_bytes, Ghost(head), Ghost(done));
        proof {
            done = done.push(
                Entry { key: "unpeered_propagation_rx_bytes"@, item: Item::One(Scalar::Uint(self@.unpeered_propagation_rx_bytes)) },
            );
        }
        put_uint(out, "static_peers", self.static_peers, Ghost(head), Ghost(done));
        proof {
            done = done.push(
                Entry { key: "static_peers"@, item: Item::One(Scalar::Uint(self@.static_peers)) },
            );
        }
        put_uint(out, "discovered_peers", self.discovered_peers, Ghost(head), Ghost(done));
        proof {
            done = done.push(
                Entry { key: "discovered_peers"@, item: Item::One(Scalar::Uint(self@.discovered_peers)) },
            );
        }
        put_uint(out, "total_peers", self.total_peers, Ghost(head), Ghost(done));
        proof {
            done = done.push(
                Entry { key: "total_peers"@, item: Item::One(Scalar::Uint(self@.total_peers)) },
            );
        }
        put_opt(out, "max_peers", self.max_peers, Ghost(head), Ghost(done));
        proof {
            done = done.push(
                Entry { key: "max_peers"@, item: Item::One(Scalar::Opt(self@.max_peers)) },
            );
        }
        self.put_peers(out, Ghost(head), Ghost(done));
        proof {
            done = done.push(
                Entry { key: "peers"@, item: Item::Raw(peers_bytes(self@.peers)) },
            );
        }
        proof {
            assert(done =~= node_entries(self@));
            lemma_all_written(start, done);
        }
    }

    /// Encodes the stats response.
    pub fn encode(&self) -> (r: Vec<u8>)
        ensures
            r@ == map_bytes(node_entries(self@)),
    {
        let mut out: Vec<u8> = Vec::new();
        self.put_all(&mut out);
        assert(out@ =~= map_bytes(node_entries(self@)));
        out
    }
}

/// A decoded control response.
#[derive(Debug, Clone, PartialEq)]
pub enum ControlResponse {
    Stats(Box<ControlNodeStats>),
    /// A sync or unpeer trigger was accepted: `true` on the wire. A refusal is
    /// an error code, never `false`.
    Ack,
    Error(PeerError),
    /// The request could not be processed at all.
    Nil,
}

/// A control response by value.
pub ghost enum Reply {
    Stats(NodeView),
    Ack,
    Error(PeerError),
    Nil,
}

impl View for ControlResponse {
    type V = Reply;

    open spec fn view(&self) -> Reply {
        match self {
            ControlResponse::Stats(s) => Reply::Stats((**s)@),
            ControlResponse::Ack => Reply::Ack,
            ControlResponse::Error(e) => Reply::Error(*e),
            ControlResponse::Nil => Reply::Nil,
        }
    }
}

/// What a control response decodes to.
pub open spec fn reply_of(d: Seq<u8>) -> Result<Reply, msgpack::Error> {
    match msgpack::kind_at(d, 0) {
        Err(e) => Err(e),
        Ok(msgpack::Kind::Mapping) => match node_at(d, 0) {
            Err(e) => Err(e),
            Ok((v, _)) => Ok(Reply::Stats(v)),
        },
        Ok(msgpack::Kind::True) => Ok(Reply::Ack),
        Ok(msgpack::Kind::False) => Err(msgpack::Error::Type),
        Ok(msgpack::Kind::Nil) => Ok(Reply::Nil),
        Ok(_) => match msgpack::uint_at(d, 0) {
            Err(e) => Err(e),
            Ok((code, _)) => match crate::propagation::peer_error_of(code) {
                Ok(f) => Ok(Reply::Error(f)),
                Err(_) => Err(msgpack::Error::Type),
            },
        },
    }
}

impl ControlResponse {
    pub fn decode(bytes: &[u8]) -> (r: Result<ControlResponse, msgpack::Error>)
        ensures
            match reply_of(bytes@) {
                Ok(v) => r is Ok && r->Ok_0@ == v,
                Err(e) => r == Err::<ControlResponse, msgpack::Error>(e),
            },
    {
        let mut position: usize = 0;
        let kind = msgpack::peek_kind(bytes, position)?;
        match kind {
            msgpack::Kind::Mapping => {
                let stats = ControlNodeStats::decode_at(bytes, &mut position)?;
                Ok(ControlResponse::Stats(Box::new(stats)))
            },
            msgpack::Kind::True => Ok(ControlResponse::Ack),
            msgpack::Kind::False => Err(msgpack::Error::Type),
            msgpack::Kind::Nil => Ok(ControlResponse::Nil),
            _ => {
                let code: u64 = msgpack::read_uint(bytes, &mut position)?;
                match PeerError::try_from(code) {
                    Ok(error) => Ok(ControlResponse::Error(error)),
                    Err(_) => Err(msgpack::Error::Type),
                }
            },
        }
    }
}

/// Encodes a refusal: the bare error code.
pub fn encode_control_error(error: PeerError) -> (r: Vec<u8>)
    ensures
        r@ == msgpack::uint_bytes(error.spec_code() as nat),
{
    let mut out: Vec<u8> = Vec::new();
    msgpack::uint(&mut out, error.code() as u64);
    assert(out@ =~= msgpack::uint_bytes(error.spec_code() as nat));
    out
}

/// Encodes the acceptance of a trigger.
pub fn encode_control_ack() -> (r: Vec<u8>)
    ensures
        r@ == msgpack::bool_bytes(true),
{
    let mut out: Vec<u8> = Vec::new();
    msgpack::boolean(&mut out, true);
    assert(out@ =~= msgpack::bool_bytes(true));
    out
}

// ---------------------------------------------------------------------------
// Reading back what was written
// ---------------------------------------------------------------------------

proof fn lemma_fold<T, X>(
    d: Seq<u8>,
    step: spec_fn(int, T) -> Result<(T, int), msgpack::Error>,
    one: spec_fn(X) -> Seq<u8>,
    p: int,
    xs: Seq<X>,
    st: spec_fn(int) -> T,
)
    requires
        msgpack::at(d, p, msgpack::list_bytes(one, xs)),
        forall|i: int, q: int|
            0 <= i < xs.len() && #[trigger] msgpack::at(d, q, one(xs[i])) ==> step(q, st(i))
                == Ok::<(T, int), msgpack::Error>((st(i + 1), q + one(xs[i]).len())),
    ensures
        fold_at(step, p, xs.len(), st(0)) == Ok::<(T, int), msgpack::Error>(
            (st(xs.len() as int), p + msgpack::list_bytes(one, xs).len()),
        ),
    decreases xs.len(),
{
    if xs.len() > 0 {
        let init = xs.drop_last();
        let n = init.len() as int;
        msgpack::lemma_at_concat(d, p, msgpack::list_bytes(one, init), one(xs.last()));
        assert forall|i: int, q: int|
            0 <= i < init.len() && #[trigger] msgpack::at(d, q, one(init[i])) implies step(q, st(i))
            == Ok::<(T, int), msgpack::Error>((st(i + 1), q + one(init[i]).len())) by {
            assert(init[i] == xs[i]);
            assert(msgpack::at(d, q, one(xs[i])));
        }
        lemma_fold(d, step, one, p, init, st);
        let q = p + msgpack::list_bytes(one, init).len();
        assert(msgpack::at(d, q, one(xs[n])));
    }
}

/// A map reads back through the states that its entries lead to.
proof fn lemma_map<T>(
    d: Seq<u8>,
    field: spec_fn(int, T, Seq<u8>) -> Result<(T, int), msgpack::Error>,
    p: int,
    entries: Seq<Entry>,
    st: spec_fn(int) -> T,
)
    requires
        msgpack::at(d, p, map_bytes(entries)),
        entries.len() <= u32::MAX,
        forall|i: int, q: int|
            0 <= i < entries.len() && #[trigger] msgpack::at(d, q, entry_bytes(entries[i]))
                ==> keyed(d, field)(q, st(i)) == Ok::<(T, int), msgpack::Error>(
                (st(i + 1), q + entry_bytes(entries[i]).len()),
            ),
    ensures
        map_at(d, field, p, st(0)) == Ok::<(T, int), msgpack::Error>(
            (st(entries.len() as int), p + map_bytes(entries).len()),
        ),
        msgpack::kind_at(d, p) == Ok::<msgpack::Kind, msgpack::Error>(msgpack::Kind::Mapping),
{
    let h = msgpack::map_header(entries.len());
    msgpack::lemma_at_concat(d, p, h, msgpack::list_bytes(entry_one(), entries));
    msgpack::law_map_header(d, p, entries.len());
    assert forall|i: int, q: int|
        0 <= i < entries.len() && #[trigger] msgpack::at(d, q, entry_one()(entries[i])) implies keyed(
        d,
        field,
    )(q, st(i)) == Ok::<(T, int), msgpack::Error>(
        (st(i + 1), q + entry_one()(entries[i]).len()),
    ) by {
        assert(msgpack::at(d, q, entry_bytes(entries[i])));
    }
    lemma_fold(d, keyed(d, field), entry_one(), p + h.len(), entries, st);
}

proof fn lemma_utf8_len(s: Seq<char>)
    ensures
        utf8(s).len() <= 4 * s.len(),
    decreases s.len(),
{
    if s.len() > 0 {
        lemma_utf8_len(s.drop_first());
    }
}

/// The key of an entry reads back, and its value stands behind it.
proof fn lemma_key(d: Seq<u8>, q: int, e: Entry)
    requires
        msgpack::at(d, q, entry_bytes(e)),
        e.key.len() <= 64,
    ensures
        msgpack::str_at(d, q) == Ok::<(Seq<u8>, int), msgpack::Error>(
            (utf8(e.key), q + text_bytes(e.key).len()),
        ),
        msgpack::at(d, q + text_bytes(e.key).len(), item_bytes(e.item)),
        entry_bytes(e).len() == text_bytes(e.key).len() + item_bytes(e.item).len(),
{
    msgpack::lemma_at_concat(d, q, text_bytes(e.key), item_bytes(e.item));
    lemma_utf8_len(e.key);
    vstd::utf8::encode_utf8_valid_utf8(e.key);
    msgpack::law_str(d, q, utf8(e.key));
}

/// A count that is not too large reads back.
proof fn lemma_tolerant(d: Seq<u8>, p: int, v: u64)
    requires
        msgpack::at(d, p, msgpack::uint_bytes(v as nat)),
        v <= EXACT,
    ensures
        msgpack::kind_at(d, p) == Ok::<msgpack::Kind, msgpack::Error>(msgpack::Kind::Other),
        msgpack::number_bits_at(d, p) matches Ok((b, q)) && tolerant(b) == v && q == p
            + msgpack::uint_bytes(v as nat).len(),
{
    msgpack::law_uint(d, p, v);
    reveal(msgpack::kind_of);
    ieee::law_exact_integers(v);
}

pub open spec fn exact_opt(v: Option<u64>) -> bool {
    v matches Some(n) ==> n <= EXACT
}

proof fn lemma_opt(d: Seq<u8>, p: int, v: Option<u64>)
    requires
        msgpack::at(d, p, opt_bytes(v)),
        exact_opt(v),
    ensures
        match v {
            Some(n) => {
                &&& msgpack::kind_at(d, p) == Ok::<msgpack::Kind, msgpack::Error>(
                    msgpack::Kind::Other,
                )
                &&& msgpack::number_bits_at(d, p) matches Ok((b, q)) && tolerant(b) == n && q == p
                    + opt_bytes(v).len()
            },
            None => {
                &&& msgpack::kind_at(d, p) == Ok::<msgpack::Kind, msgpack::Error>(
                    msgpack::Kind::Nil,
                )
                &&& msgpack::nil_at(d, p) == Ok::<((), int), msgpack::Error>(
                    ((), p + opt_bytes(v).len()),
                )
            },
        },
{
    match v {
        Some(n) => lemma_tolerant(d, p, n),
        None => msgpack::law_nil(d, p, 0),
    }
}

proof fn lemma_type(d: Seq<u8>, p: int, is_static: bool)
    requires
        msgpack::at(d, p, msgpack::str_bytes(peer_type(is_static))),
    ensures
        msgpack::str_at(d, p) == Ok::<(Seq<u8>, int), msgpack::Error>(
            (peer_type(is_static), p + msgpack::str_bytes(peer_type(is_static)).len()),
        ),
        (peer_type(is_static) == utf8("static"@)) == is_static,
{
    broadcast use vstd::utf8::encode_utf8_decode_utf8;

    reveal_strlit("static");
    reveal_strlit("discovered");
    assert(vstd::utf8::decode_utf8(utf8("static"@)) == "static"@);
    assert(vstd::utf8::decode_utf8(utf8("discovered"@)) == "discovered"@);
    lemma_utf8_len("static"@);
    lemma_utf8_len("discovered"@);
    vstd::utf8::encode_utf8_valid_utf8("static"@);
    vstd::utf8::encode_utf8_valid_utf8("discovered"@);
    msgpack::law_str(d, p, peer_type(is_static));
}

proof fn lemma_name(d: Seq<u8>, p: int, v: Option<Seq<u8>>)
    requires
        msgpack::at(d, p, item_bytes(Item::One(Scalar::Name(v)))),
        v matches Some(n) ==> n.len() <= u32::MAX && vstd::utf8::valid_utf8(n),
    ensures
        match v {
            Some(n) => {
                &&& msgpack::kind_at(d, p) == Ok::<msgpack::Kind, msgpack::Error>(
                    msgpack::Kind::Str,
                )
                &&& msgpack::str_at(d, p) == Ok::<(Seq<u8>, int), msgpack::Error>(
                    (n, p + msgpack::str_bytes(n).len()),
                )
            },
            None => {
                &&& msgpack::kind_at(d, p) == Ok::<msgpack::Kind, msgpack::Error>(
                    msgpack::Kind::Nil,
                )
                &&& msgpack::nil_at(d, p) == Ok::<((), int), msgpack::Error>(((), p + 1))
            },
        },
{
    match v {
        Some(n) => msgpack::law_str(d, p, n),
        None => msgpack::law_nil(d, p, 0),
    }
}

/// Statistics of a peer that read back exactly: counts up to `2^53`, and a name
/// that fits a MessagePack text.
pub open spec fn peer_ok(v: PeerView) -> bool {
    &&& v.peer_id.len() == 16
    &&& v.state <= EXACT
    &&& v.name matches Some(n) ==> n.len() <= u32::MAX && vstd::utf8::valid_utf8(n)
    &&& v.last_heard <= EXACT
    &&& v.next_sync_attempt <= EXACT
    &&& v.last_sync_attempt <= EXACT
    &&& v.sync_backoff <= EXACT
    &&& v.peering_timebase <= EXACT
    &&& v.ler <= EXACT
    &&& v.str_rate <= EXACT
    &&& exact_opt(v.transfer_limit_kb)
    &&& exact_opt(v.sync_limit_kb)
    &&& exact_opt(v.target_stamp_cost)
    &&& exact_opt(v.stamp_cost_flexibility)
    &&& exact_opt(v.peering_cost)
    &&& exact_opt(v.peering_key_value)
    &&& v.network_distance <= EXACT
    &&& v.rx_bytes <= EXACT
    &&& v.tx_bytes <= EXACT
    &&& v.offered <= EXACT
    &&& v.outgoing <= EXACT
    &&& v.incoming <= EXACT
    &&& v.unhandled <= EXACT
}

/// Statistics of a node that read back exactly.
pub open spec fn node_ok(v: NodeView) -> bool {
    &&& v.identity_hash.len() == 16
    &&& v.destination_hash.len() == 16
    &&& exact_opt(v.delivery_limit_kb)
    &&& exact_opt(v.propagation_limit_kb)
    &&& exact_opt(v.sync_limit_kb)
    &&& v.target_stamp_cost <= EXACT
    &&& v.stamp_cost_flexibility <= EXACT
    &&& v.peering_cost <= EXACT
    &&& v.max_peering_cost <= EXACT
    &&& exact_opt(v.autopeer_maxdepth)
    &&& v.messagestore_count <= EXACT
    &&& v.messagestore_bytes <= EXACT
    &&& exact_opt(v.messagestore_limit_bytes)
    &&& v.client_propagation_messages_received <= EXACT
    &&& v.client_propagation_messages_served <= EXACT
    &&& v.unpeered_propagation_incoming <= EXACT
    &&& v.unpeered_propagation_rx_bytes <= EXACT
    &&& v.static_peers <= EXACT
    &&& v.discovered_peers <= EXACT
    &&& v.total_peers <= EXACT
    &&& exact_opt(v.max_peers)
    &&& v.peers.len() <= u32::MAX
    &&& forall|i: int| 0 <= i < v.peers.len() ==> peer_ok(#[trigger] v.peers[i])
}

/// A peer of which the first `n` fields are told.
spec fn peer_prefix(v: PeerView, n: int) -> PeerView {
    PeerView {
        peer_id: v.peer_id,
        is_static: if n > 0 {
            v.is_static
        } else {
            false
        },
        state: if n > 1 {
            v.state
        } else {
            0
        },
        alive: if n > 2 {
            v.alive
        } else {
            false
        },
        name: if n > 3 {
            v.name
        } else {
            None
        },
        last_heard: if n > 4 {
            v.last_heard
        } else {
            0
        },
        next_sync_attempt: if n > 5 {
            v.next_sync_attempt
        } else {
            0
        },
        last_sync_attempt: if n > 6 {
            v.last_sync_attempt
        } else {
            0
        },
        sync_backoff: if n > 7 {
            v.sync_backoff
        } else {
            0
        },
        peering_timebase: if n > 8 {
            v.peering_timebase
        } else {
            0
        },
        ler: if n > 9 {
            v.ler
        } else {
            0
        },
        str_rate: if n > 10 {
            v.str_rate
        } else {
            0
        },
        transfer_limit_kb: if n > 11 {
            v.transfer_limit_kb
        } else {
            None
        },
        sync_limit_kb: if n > 12 {
            v.sync_limit_kb
        } else {
            None
        },
        target_stamp_cost: if n > 13 {
            v.target_stamp_cost
        } else {
            None
        },
        stamp_cost_flexibility: if n > 14 {
            v.stamp_cost_flexibility
        } else {
            None
        },
        peering_cost: if n > 15 {
            v.peering_cost
        } else {
            None
        },
        peering_key_value: if n > 16 {
            v.peering_key_value
        } else {
            None
        },
        network_distance: if n > 17 {
            v.network_distance
        } else {
            HOPS_UNKNOWN
        },
        rx_bytes: if n > 18 {
            v.rx_bytes
        } else {
            0
        },
        tx_bytes: if n > 19 {
            v.tx_bytes
        } else {
            0
        },
        acceptance_rate: if n > 20 {
            v.acceptance_rate
        } else {
            0
        },
        offered: if n > 21 {
            v.offered
        } else {
            0
        },
        outgoing: if n > 22 {
            v.outgoing
        } else {
            0
        },
        incoming: if n > 23 {
            v.incoming
        } else {
            0
        },
        unhandled: if n > 24 {
            v.unhandled
        } else {
            0
        },
    }
}

/// A node of which the first `n` fields are told.
spec fn node_prefix(v: NodeView, n: int) -> NodeView {
    NodeView {
        identity_hash: if n > 0 {
            v.identity_hash
        } else {
            no_hash()
        },
        destination_hash: if n > 1 {
            v.destination_hash
        } else {
            no_hash()
        },
        uptime_secs: if n > 2 {
            v.uptime_secs
        } else {
            0
        },
        delivery_limit_kb: if n > 3 {
            v.delivery_limit_kb
        } else {
            None
        },
        propagation_limit_kb: if n > 4 {
            v.propagation_limit_kb
        } else {
            None
        },
        sync_limit_kb: if n > 5 {
            v.sync_limit_kb
        } else {
            None
        },
        target_stamp_cost: if n > 6 {
            v.target_stamp_cost
        } else {
            0
        },
        stamp_cost_flexibility: if n > 7 {
            v.stamp_cost_flexibility
        } else {
            0
        },
        peering_cost: if n > 8 {
            v.peering_cost
        } else {
            0
        },
        max_peering_cost: if n > 9 {
            v.max_peering_cost
        } else {
            0
        },
        autopeer_maxdepth: if n > 10 {
            v.autopeer_maxdepth
        } else {
            None
        },
        from_static_only: if n > 11 {
            v.from_static_only
        } else {
            false
        },
        messagestore_count: if n > 12 {
            v.messagestore_count
        } else {
            0
        },
        messagestore_bytes: if n > 13 {
            v.messagestore_bytes
        } else {
            0
        },
        messagestore_limit_bytes: if n > 14 {
            v.messagestore_limit_bytes
        } else {
            None
        },
        client_propagation_messages_received: if n > 15 {
            v.client_propagation_messages_received
        } else {
            0
        },
        client_propagation_messages_served: if n > 16 {
            v.client_propagation_messages_served
        } else {
            0
        },
        unpeered_propagation_incoming: if n > 17 {
            v.unpeered_propagation_incoming
        } else {
            0
        },
        unpeered_propagation_rx_bytes: if n > 18 {
            v.unpeered_propagation_rx_bytes
        } else {
            0
        },
        static_peers: if n > 19 {
            v.static_peers
        } else {
            0
        },
        discovered_peers: if n > 20 {
            v.discovered_peers
        } else {
            0
        },
        total_peers: if n > 21 {
            v.total_peers
        } else {
            0
        },
        max_peers: if n > 22 {
            v.max_peers
        } else {
            None
        },
        peers: if n > 23 {
            v.peers
        } else {
            Seq::empty()
        },
    }
}

/// How many fields are set before an entry.
spec fn count_slot(i: int) -> int {
    i + 21
}

/// Each entry of an encoded map sets its own field.
proof fn lemma_count_entry(d: Seq<u8>, v: PeerView, i: int, q: int)
    requires
        peer_ok(v),
        0 <= i < 4,
        msgpack::at(d, q, entry_bytes(counts_entries(v)[i])),
    ensures
        keyed(d, count_step(d))(q, peer_prefix(v, count_slot(i))) == Ok::<
            (PeerView, int),
            msgpack::Error,
        >(
            (
                peer_prefix(v, count_slot(i + 1)),
                q + entry_bytes(counts_entries(v)[i]).len(),
            ),
        ),
{
    lemma_count_keys();
    let e = counts_entries(v)[i];
    let t = q + text_bytes(e.key).len();
    lemma_key(d, q, e);
    let after = peer_prefix(v, count_slot(i + 1));
    let before = peer_prefix(v, count_slot(i));
    if i == 0 {
        lemma_tolerant(d, t, v.offered);
        assert(after =~= PeerView { offered: v.offered, ..before });
    } else if i == 1 {
        lemma_tolerant(d, t, v.outgoing);
        assert(after =~= PeerView { outgoing: v.outgoing, ..before });
    } else if i == 2 {
        lemma_tolerant(d, t, v.incoming);
        assert(after =~= PeerView { incoming: v.incoming, ..before });
    } else if i == 3 {
        lemma_tolerant(d, t, v.unhandled);
        assert(after =~= PeerView { unhandled: v.unhandled, ..before });
    }
}

proof fn lemma_counts(d: Seq<u8>, p: int, v: PeerView)
    requires
        peer_ok(v),
        msgpack::at(d, p, map_bytes(counts_entries(v))),
    ensures
        counts_at(d, p, peer_prefix(v, 21)) == Ok::<(PeerView, int), msgpack::Error>(
            (peer_prefix(v, 25), p + map_bytes(counts_entries(v)).len()),
        ),
{
    let st = |i: int| peer_prefix(v, count_slot(i));
    assert forall|i: int, q: int|
        0 <= i < 4 && #[trigger] msgpack::at(d, q, entry_bytes(counts_entries(v)[i])) implies keyed(
        d,
        count_step(d),
    )(q, st(i)) == Ok::<(PeerView, int), msgpack::Error>(
        (st(i + 1), q + entry_bytes(counts_entries(v)[i]).len()),
    ) by {
        lemma_count_entry(d, v, i, q);
    }
    lemma_map(d, count_step(d), p, counts_entries(v), st);
}

/// How many fields are set before an entry.
spec fn peer_slot(i: int) -> int {
    if i < 22 {
        i
    } else {
        i + 3
    }
}

/// The key of an entry.
spec fn peer_key_at(i: int) -> PeerKey {
    if i == 0 {
        PeerKey::Type
    } else if i == 1 {
        PeerKey::State
    } else if i == 2 {
        PeerKey::Alive
    } else if i == 3 {
        PeerKey::Name
    } else if i == 4 {
        PeerKey::LastHeard
    } else if i == 5 {
        PeerKey::NextSyncAttempt
    } else if i == 6 {
        PeerKey::LastSyncAttempt
    } else if i == 7 {
        PeerKey::SyncBackoff
    } else if i == 8 {
        PeerKey::PeeringTimebase
    } else if i == 9 {
        PeerKey::Ler
    } else if i == 10 {
        PeerKey::Str
    } else if i == 11 {
        PeerKey::TransferLimit
    } else if i == 12 {
        PeerKey::SyncLimit
    } else if i == 13 {
        PeerKey::TargetStampCost
    } else if i == 14 {
        PeerKey::StampCostFlexibility
    } else if i == 15 {
        PeerKey::PeeringCost
    } else if i == 16 {
        PeerKey::PeeringKey
    } else if i == 17 {
        PeerKey::NetworkDistance
    } else if i == 18 {
        PeerKey::RxBytes
    } else if i == 19 {
        PeerKey::TxBytes
    } else if i == 20 {
        PeerKey::AcceptanceRate
    } else {
        PeerKey::Messages
    }
}

proof fn lemma_peer_key_at(v: PeerView, i: int)
    requires
        0 <= i < 22,
    ensures
        peer_key(utf8(peer_entries(v)[i].key)) == peer_key_at(i),
        peer_entries(v)[i].key.len() <= 64,
{
    lemma_peer_keys();
}

/// An entry is read by its key and then by its field.
proof fn lemma_peer_step(d: Seq<u8>, q: int, e: Entry, before: PeerView, after: PeerView)
    requires
        msgpack::at(d, q, entry_bytes(e)),
        e.key.len() <= 64,
        peer_field_at(d, q + text_bytes(e.key).len(), before, peer_key(utf8(e.key))) == Ok::<
            (PeerView, int),
            msgpack::Error,
        >((after, q + text_bytes(e.key).len() + item_bytes(e.item).len())),
    ensures
        keyed(d, peer_step(d))(q, before) == Ok::<(PeerView, int), msgpack::Error>(
            (after, q + entry_bytes(e).len()),
        ),
{
    lemma_key(d, q, e);
}

/// Entries 0 to 5 set their own fields, once their keys are read.
proof fn lemma_peer_field_1(d: Seq<u8>, v: PeerView, i: int, t: int)
    requires
        peer_ok(v),
        0 <= i < 6,
        msgpack::at(d, t, item_bytes(peer_entries(v)[i].item)),
    ensures
        peer_field_at(d, t, peer_prefix(v, peer_slot(i)), peer_key_at(i)) == Ok::<
            (PeerView, int),
            msgpack::Error,
        >(
            (
                peer_prefix(v, peer_slot(i + 1)),
                t + item_bytes(peer_entries(v)[i].item).len(),
            ),
        ),
{
    let after = peer_prefix(v, peer_slot(i + 1));
    let before = peer_prefix(v, peer_slot(i));
    if i == 0 {
        lemma_type(d, t, v.is_static);
        assert(after =~= PeerView { is_static: v.is_static, ..before });
    } else if i == 1 {
        lemma_tolerant(d, t, v.state);
        assert(after =~= PeerView { state: v.state, ..before });
    } else if i == 2 {
        msgpack::law_bool(d, t, v.alive, 0);
        assert(after =~= PeerView { alive: v.alive, ..before });
    } else if i == 3 {
        lemma_name(d, t, v.name);
        assert(after =~= PeerView { name: v.name, ..before });
    } else if i == 4 {
        lemma_tolerant(d, t, v.last_heard);
        assert(after =~= PeerView { last_heard: v.last_heard, ..before });
    } else if i == 5 {
        lemma_tolerant(d, t, v.next_sync_attempt);
        assert(after =~= PeerView { next_sync_attempt: v.next_sync_attempt, ..before });
    }
}

/// Entries 6 to 11 set their own fields, once their keys are read.
proof fn lemma_peer_field_2(d: Seq<u8>, v: PeerView, i: int, t: int)
    requires
        peer_ok(v),
        6 <= i < 12,
        msgpack::at(d, t, item_bytes(peer_entries(v)[i].item)),
    ensures
        peer_field_at(d, t, peer_prefix(v, peer_slot(i)), peer_key_at(i)) == Ok::<
            (PeerView, int),
            msgpack::Error,
        >(
            (
                peer_prefix(v, peer_slot(i + 1)),
                t + item_bytes(peer_entries(v)[i].item).len(),
            ),
        ),
{
    let after = peer_prefix(v, peer_slot(i + 1));
    let before = peer_prefix(v, peer_slot(i));
    if i == 6 {
        lemma_tolerant(d, t, v.last_sync_attempt);
        assert(after =~= PeerView { last_sync_attempt: v.last_sync_attempt, ..before });
    } else if i == 7 {
        lemma_tolerant(d, t, v.sync_backoff);
        assert(after =~= PeerView { sync_backoff: v.sync_backoff, ..before });
    } else if i == 8 {
        lemma_tolerant(d, t, v.peering_timebase);
        assert(after =~= PeerView { peering_timebase: v.peering_timebase, ..before });
    } else if i == 9 {
        lemma_tolerant(d, t, v.ler);
        assert(after =~= PeerView { ler: v.ler, ..before });
    } else if i == 10 {
        lemma_tolerant(d, t, v.str_rate);
        assert(after =~= PeerView { str_rate: v.str_rate, ..before });
    } else if i == 11 {
        lemma_opt(d, t, v.transfer_limit_kb);
        assert(after =~= PeerView { transfer_limit_kb: v.transfer_limit_kb, ..before });
    }
}

/// Entries 12 to 17 set their own fields, once their keys are read.
proof fn lemma_peer_field_3(d: Seq<u8>, v: PeerView, i: int, t: int)
    requires
        peer_ok(v),
        12 <= i < 18,
        msgpack::at(d, t, item_bytes(peer_entries(v)[i].item)),
    ensures
        peer_field_at(d, t, peer_prefix(v, peer_slot(i)), peer_key_at(i)) == Ok::<
            (PeerView, int),
            msgpack::Error,
        >(
            (
                peer_prefix(v, peer_slot(i + 1)),
                t + item_bytes(peer_entries(v)[i].item).len(),
            ),
        ),
{
    let after = peer_prefix(v, peer_slot(i + 1));
    let before = peer_prefix(v, peer_slot(i));
    if i == 12 {
        lemma_opt(d, t, v.sync_limit_kb);
        assert(after =~= PeerView { sync_limit_kb: v.sync_limit_kb, ..before });
    } else if i == 13 {
        lemma_opt(d, t, v.target_stamp_cost);
        assert(after =~= PeerView { target_stamp_cost: v.target_stamp_cost, ..before });
    } else if i == 14 {
        lemma_opt(d, t, v.stamp_cost_flexibility);
        assert(after =~= PeerView { stamp_cost_flexibility: v.stamp_cost_flexibility, ..before });
    } else if i == 15 {
        lemma_opt(d, t, v.peering_cost);
        assert(after =~= PeerView { peering_cost: v.peering_cost, ..before });
    } else if i == 16 {
        lemma_opt(d, t, v.peering_key_value);
        assert(after =~= PeerView { peering_key_value: v.peering_key_value, ..before });
    } else if i == 17 {
        lemma_tolerant(d, t, v.network_distance);
        assert(after =~= PeerView { network_distance: v.network_distance, ..before });
    }
}

/// Entries 18 to 21 set their own fields, once their keys are read.
proof fn lemma_peer_field_4(d: Seq<u8>, v: PeerView, i: int, t: int)
    requires
        peer_ok(v),
        18 <= i < 22,
        msgpack::at(d, t, item_bytes(peer_entries(v)[i].item)),
    ensures
        peer_field_at(d, t, peer_prefix(v, peer_slot(i)), peer_key_at(i)) == Ok::<
            (PeerView, int),
            msgpack::Error,
        >(
            (
                peer_prefix(v, peer_slot(i + 1)),
                t + item_bytes(peer_entries(v)[i].item).len(),
            ),
        ),
{
    let after = peer_prefix(v, peer_slot(i + 1));
    let before = peer_prefix(v, peer_slot(i));
    if i == 18 {
        lemma_tolerant(d, t, v.rx_bytes);
        assert(after =~= PeerView { rx_bytes: v.rx_bytes, ..before });
    } else if i == 19 {
        lemma_tolerant(d, t, v.tx_bytes);
        assert(after =~= PeerView { tx_bytes: v.tx_bytes, ..before });
    } else if i == 20 {
        msgpack::law_double(d, t, v.acceptance_rate, 0);
        assert(after =~= PeerView { acceptance_rate: v.acceptance_rate, ..before });
    } else if i == 21 {
        lemma_counts(d, t, v);
    }
}

/// Each entry of an encoded map sets its own field.
proof fn lemma_peer_entry(d: Seq<u8>, v: PeerView, i: int, q: int)
    requires
        peer_ok(v),
        0 <= i < 22,
        msgpack::at(d, q, entry_bytes(peer_entries(v)[i])),
    ensures
        keyed(d, peer_step(d))(q, peer_prefix(v, peer_slot(i))) == Ok::<
            (PeerView, int),
            msgpack::Error,
        >(
            (
                peer_prefix(v, peer_slot(i + 1)),
                q + entry_bytes(peer_entries(v)[i]).len(),
            ),
        ),
{
    let e = peer_entries(v)[i];
    let t = q + text_bytes(e.key).len();
    lemma_peer_key_at(v, i);
    lemma_key(d, q, e);
    if i < 6 {
        lemma_peer_field_1(d, v, i, t);
    } else if i < 12 {
        lemma_peer_field_2(d, v, i, t);
    } else if i < 18 {
        lemma_peer_field_3(d, v, i, t);
    } else {
        lemma_peer_field_4(d, v, i, t);
    }
    lemma_peer_step(d, q, e, peer_prefix(v, peer_slot(i)), peer_prefix(v, peer_slot(i + 1)));
}

proof fn lemma_peer(d: Seq<u8>, p: int, v: PeerView)
    requires
        peer_ok(v),
        msgpack::at(d, p, map_bytes(peer_entries(v))),
    ensures
        peer_at(d, p, v.peer_id) == Ok::<(PeerView, int), msgpack::Error>(
            (v, p + map_bytes(peer_entries(v)).len()),
        ),
{
    let st = |i: int| peer_prefix(v, peer_slot(i));
    assert forall|i: int, q: int|
        0 <= i < 22 && #[trigger] msgpack::at(d, q, entry_bytes(peer_entries(v)[i])) implies keyed(
        d,
        peer_step(d),
    )(q, st(i)) == Ok::<(PeerView, int), msgpack::Error>(
        (st(i + 1), q + entry_bytes(peer_entries(v)[i]).len()),
    ) by {
        lemma_peer_entry(d, v, i, q);
    }
    lemma_map(d, peer_step(d), p, peer_entries(v), st);
    assert(st(0) =~= default_peer(v.peer_id));
    assert(st(22) =~= v);
}

proof fn lemma_peers(d: Seq<u8>, p: int, v: NodeView)
    requires
        node_ok(v),
        msgpack::at(d, p, peers_bytes(v.peers)),
    ensures
        peers_at(d, p, node_prefix(v, 23)) == Ok::<(NodeView, int), msgpack::Error>(
            (node_prefix(v, 24), p + peers_bytes(v.peers).len()),
        ),
{
    let ps = v.peers;
    let h = msgpack::map_header(ps.len());
    msgpack::lemma_at_concat(d, p, h, msgpack::list_bytes(peer_one(), ps));
    msgpack::law_map_header(d, p, ps.len());
    assert forall|i: int, q: int|
        0 <= i < ps.len() && #[trigger] msgpack::at(d, q, peer_one()(ps[i])) implies peer_item(d)(q)
        == Ok::<(PeerView, int), msgpack::Error>((ps[i], q + peer_one()(ps[i]).len())) by {
        let a = msgpack::bin_bytes(ps[i].peer_id);
        msgpack::lemma_at_concat(d, q, a, map_bytes(peer_entries(ps[i])));
        msgpack::law_bin(d, q, ps[i].peer_id, 0);
        lemma_peer(d, q + a.len(), ps[i]);
    }
    msgpack::law_list(d, peer_item(d), peer_one(), p + h.len(), ps);
    assert(node_prefix(v, 23).peers + ps =~= ps);
    assert(node_prefix(v, 24) =~= NodeView { peers: ps, ..node_prefix(v, 23) });
}

/// How many fields are set before an entry.
spec fn store_slot(i: int) -> int {
    i + 12
}

/// Each entry of an encoded map sets its own field.
proof fn lemma_store_entry(d: Seq<u8>, v: NodeView, i: int, q: int)
    requires
        node_ok(v),
        0 <= i < 3,
        msgpack::at(d, q, entry_bytes(store_entries(v)[i])),
    ensures
        keyed(d, store_step(d))(q, node_prefix(v, store_slot(i))) == Ok::<
            (NodeView, int),
            msgpack::Error,
        >(
            (
                node_prefix(v, store_slot(i + 1)),
                q + entry_bytes(store_entries(v)[i]).len(),
            ),
        ),
{
    lemma_store_keys();
    let e = store_entries(v)[i];
    let t = q + text_bytes(e.key).len();
    lemma_key(d, q, e);
    let after = node_prefix(v, store_slot(i + 1));
    let before = node_prefix(v, store_slot(i));
    if i == 0 {
        lemma_tolerant(d, t, v.messagestore_count);
        assert(after =~= NodeView { messagestore_count: v.messagestore_count, ..before });
    } else if i == 1 {
        lemma_tolerant(d, t, v.messagestore_bytes);
        assert(after =~= NodeView { messagestore_bytes: v.messagestore_bytes, ..before });
    } else if i == 2 {
        lemma_opt(d, t, v.messagestore_limit_bytes);
        assert(after =~= NodeView { messagestore_limit_bytes: v.messagestore_limit_bytes, ..before });
    }
}

proof fn lemma_store(d: Seq<u8>, p: int, v: NodeView)
    requires
        node_ok(v),
        msgpack::at(d, p, map_bytes(store_entries(v))),
    ensures
        store_at(d, p, node_prefix(v, 12)) == Ok::<(NodeView, int), msgpack::Error>(
            (node_prefix(v, 15), p + map_bytes(store_entries(v)).len()),
        ),
{
    let st = |i: int| node_prefix(v, store_slot(i));
    assert forall|i: int, q: int|
        0 <= i < 3 && #[trigger] msgpack::at(d, q, entry_bytes(store_entries(v)[i])) implies keyed(
        d,
        store_step(d),
    )(q, st(i)) == Ok::<(NodeView, int), msgpack::Error>(
        (st(i + 1), q + entry_bytes(store_entries(v)[i]).len()),
    ) by {
        lemma_store_entry(d, v, i, q);
    }
    lemma_map(d, store_step(d), p, store_entries(v), st);
}

/// How many fields are set before an entry.
spec fn client_slot(i: int) -> int {
    i + 15
}

/// Each entry of an encoded map sets its own field.
proof fn lemma_client_entry(d: Seq<u8>, v: NodeView, i: int, q: int)
    requires
        node_ok(v),
        0 <= i < 2,
        msgpack::at(d, q, entry_bytes(clients_entries(v)[i])),
    ensures
        keyed(d, client_step(d))(q, node_prefix(v, client_slot(i))) == Ok::<
            (NodeView, int),
            msgpack::Error,
        >(
            (
                node_prefix(v, client_slot(i + 1)),
                q + entry_bytes(clients_entries(v)[i]).len(),
            ),
        ),
{
    lemma_client_keys();
    let e = clients_entries(v)[i];
    let t = q + text_bytes(e.key).len();
    lemma_key(d, q, e);
    let after = node_prefix(v, client_slot(i + 1));
    let before = node_prefix(v, client_slot(i));
    if i == 0 {
        lemma_tolerant(d, t, v.client_propagation_messages_received);
        assert(after =~= NodeView { client_propagation_messages_received: v.client_propagation_messages_received, ..before });
    } else if i == 1 {
        lemma_tolerant(d, t, v.client_propagation_messages_served);
        assert(after =~= NodeView { client_propagation_messages_served: v.client_propagation_messages_served, ..before });
    }
}

proof fn lemma_clients(d: Seq<u8>, p: int, v: NodeView)
    requires
        node_ok(v),
        msgpack::at(d, p, map_bytes(clients_entries(v))),
    ensures
        clients_at(d, p, node_prefix(v, 15)) == Ok::<(NodeView, int), msgpack::Error>(
            (node_prefix(v, 17), p + map_bytes(clients_entries(v)).len()),
        ),
{
    let st = |i: int| node_prefix(v, client_slot(i));
    assert forall|i: int, q: int|
        0 <= i < 2 && #[trigger] msgpack::at(d, q, entry_bytes(clients_entries(v)[i])) implies keyed(
        d,
        client_step(d),
    )(q, st(i)) == Ok::<(NodeView, int), msgpack::Error>(
        (st(i + 1), q + entry_bytes(clients_entries(v)[i]).len()),
    ) by {
        lemma_client_entry(d, v, i, q);
    }
    lemma_map(d, client_step(d), p, clients_entries(v), st);
}

/// How many fields are set before an entry.
spec fn node_slot(i: int) -> int {
    if i < 13 {
        i
    } else if i < 14 {
        i + 2
    } else {
        i + 3
    }
}

/// The key of an entry.
spec fn node_key_at(i: int) -> NodeKey {
    if i == 0 {
        NodeKey::IdentityHash
    } else if i == 1 {
        NodeKey::DestinationHash
    } else if i == 2 {
        NodeKey::Uptime
    } else if i == 3 {
        NodeKey::DeliveryLimit
    } else if i == 4 {
        NodeKey::PropagationLimit
    } else if i == 5 {
        NodeKey::SyncLimit
    } else if i == 6 {
        NodeKey::TargetStampCost
    } else if i == 7 {
        NodeKey::StampCostFlexibility
    } else if i == 8 {
        NodeKey::PeeringCost
    } else if i == 9 {
        NodeKey::MaxPeeringCost
    } else if i == 10 {
        NodeKey::AutopeerMaxdepth
    } else if i == 11 {
        NodeKey::FromStaticOnly
    } else if i == 12 {
        NodeKey::Messagestore
    } else if i == 13 {
        NodeKey::Clients
    } else if i == 14 {
        NodeKey::UnpeeredIncoming
    } else if i == 15 {
        NodeKey::UnpeeredRxBytes
    } else if i == 16 {
        NodeKey::StaticPeers
    } else if i == 17 {
        NodeKey::DiscoveredPeers
    } else if i == 18 {
        NodeKey::TotalPeers
    } else if i == 19 {
        NodeKey::MaxPeers
    } else {
        NodeKey::Peers
    }
}

proof fn lemma_node_key_at(v: NodeView, i: int)
    requires
        0 <= i < 21,
    ensures
        node_key(utf8(node_entries(v)[i].key)) == node_key_at(i),
        node_entries(v)[i].key.len() <= 64,
{
    lemma_node_keys();
}

/// An entry is read by its key and then by its field.
proof fn lemma_node_step(d: Seq<u8>, q: int, e: Entry, before: NodeView, after: NodeView)
    requires
        msgpack::at(d, q, entry_bytes(e)),
        e.key.len() <= 64,
        node_field_at(d, q + text_bytes(e.key).len(), before, node_key(utf8(e.key))) == Ok::<
            (NodeView, int),
            msgpack::Error,
        >((after, q + text_bytes(e.key).len() + item_bytes(e.item).len())),
    ensures
        keyed(d, node_step(d))(q, before) == Ok::<(NodeView, int), msgpack::Error>(
            (after, q + entry_bytes(e).len()),
        ),
{
    lemma_key(d, q, e);
}

/// Entries 0 to 5 set their own fields, once their keys are read.
proof fn lemma_node_field_1(d: Seq<u8>, v: NodeView, i: int, t: int)
    requires
        node_ok(v),
        0 <= i < 6,
        msgpack::at(d, t, item_bytes(node_entries(v)[i].item)),
    ensures
        node_field_at(d, t, node_prefix(v, node_slot(i)), node_key_at(i)) == Ok::<
            (NodeView, int),
            msgpack::Error,
        >(
            (
                node_prefix(v, node_slot(i + 1)),
                t + item_bytes(node_entries(v)[i].item).len(),
            ),
        ),
{
    let after = node_prefix(v, node_slot(i + 1));
    let before = node_prefix(v, node_slot(i));
    if i == 0 {
        msgpack::law_bin(d, t, v.identity_hash, 0);
        assert(after =~= NodeView { identity_hash: v.identity_hash, ..before });
    } else if i == 1 {
        msgpack::law_bin(d, t, v.destination_hash, 0);
        assert(after =~= NodeView { destination_hash: v.destination_hash, ..before });
    } else if i == 2 {
        msgpack::law_double(d, t, v.uptime_secs, 0);
        assert(after =~= NodeView { uptime_secs: v.uptime_secs, ..before });
    } else if i == 3 {
        lemma_opt(d, t, v.delivery_limit_kb);
        assert(after =~= NodeView { delivery_limit_kb: v.delivery_limit_kb, ..before });
    } else if i == 4 {
        lemma_opt(d, t, v.propagation_limit_kb);
        assert(after =~= NodeView { propagation_limit_kb: v.propagation_limit_kb, ..before });
    } else if i == 5 {
        lemma_opt(d, t, v.sync_limit_kb);
        assert(after =~= NodeView { sync_limit_kb: v.sync_limit_kb, ..before });
    }
}

/// Entries 6 to 11 set their own fields, once their keys are read.
proof fn lemma_node_field_2(d: Seq<u8>, v: NodeView, i: int, t: int)
    requires
        node_ok(v),
        6 <= i < 12,
        msgpack::at(d, t, item_bytes(node_entries(v)[i].item)),
    ensures
        node_field_at(d, t, node_prefix(v, node_slot(i)), node_key_at(i)) == Ok::<
            (NodeView, int),
            msgpack::Error,
        >(
            (
                node_prefix(v, node_slot(i + 1)),
                t + item_bytes(node_entries(v)[i].item).len(),
            ),
        ),
{
    let after = node_prefix(v, node_slot(i + 1));
    let before = node_prefix(v, node_slot(i));
    if i == 6 {
        lemma_tolerant(d, t, v.target_stamp_cost);
        assert(after =~= NodeView { target_stamp_cost: v.target_stamp_cost, ..before });
    } else if i == 7 {
        lemma_tolerant(d, t, v.stamp_cost_flexibility);
        assert(after =~= NodeView { stamp_cost_flexibility: v.stamp_cost_flexibility, ..before });
    } else if i == 8 {
        lemma_tolerant(d, t, v.peering_cost);
        assert(after =~= NodeView { peering_cost: v.peering_cost, ..before });
    } else if i == 9 {
        lemma_tolerant(d, t, v.max_peering_cost);
        assert(after =~= NodeView { max_peering_cost: v.max_peering_cost, ..before });
    } else if i == 10 {
        lemma_opt(d, t, v.autopeer_maxdepth);
        assert(after =~= NodeView { autopeer_maxdepth: v.autopeer_maxdepth, ..before });
    } else if i == 11 {
        msgpack::law_bool(d, t, v.from_static_only, 0);
        assert(after =~= NodeView { from_static_only: v.from_static_only, ..before });
    }
}

/// Entries 12 to 17 set their own fields, once their keys are read.
proof fn lemma_node_field_3(d: Seq<u8>, v: NodeView, i: int, t: int)
    requires
        node_ok(v),
        12 <= i < 18,
        msgpack::at(d, t, item_bytes(node_entries(v)[i].item)),
    ensures
        node_field_at(d, t, node_prefix(v, node_slot(i)), node_key_at(i)) == Ok::<
            (NodeView, int),
            msgpack::Error,
        >(
            (
                node_prefix(v, node_slot(i + 1)),
                t + item_bytes(node_entries(v)[i].item).len(),
            ),
        ),
{
    let after = node_prefix(v, node_slot(i + 1));
    let before = node_prefix(v, node_slot(i));
    if i == 12 {
        lemma_store(d, t, v);
    } else if i == 13 {
        lemma_clients(d, t, v);
    } else if i == 14 {
        lemma_tolerant(d, t, v.unpeered_propagation_incoming);
        assert(after =~= NodeView { unpeered_propagation_incoming: v.unpeered_propagation_incoming, ..before });
    } else if i == 15 {
        lemma_tolerant(d, t, v.unpeered_propagation_rx_bytes);
        assert(after =~= NodeView { unpeered_propagation_rx_bytes: v.unpeered_propagation_rx_bytes, ..before });
    } else if i == 16 {
        lemma_tolerant(d, t, v.static_peers);
        assert(after =~= NodeView { static_peers: v.static_peers, ..before });
    } else if i == 17 {
        lemma_tolerant(d, t, v.discovered_peers);
        assert(after =~= NodeView { discovered_peers: v.discovered_peers, ..before });
    }
}

/// Entries 18 to 20 set their own fields, once their keys are read.
proof fn lemma_node_field_4(d: Seq<u8>, v: NodeView, i: int, t: int)
    requires
        node_ok(v),
        18 <= i < 21,
        msgpack::at(d, t, item_bytes(node_entries(v)[i].item)),
    ensures
        node_field_at(d, t, node_prefix(v, node_slot(i)), node_key_at(i)) == Ok::<
            (NodeView, int),
            msgpack::Error,
        >(
            (
                node_prefix(v, node_slot(i + 1)),
                t + item_bytes(node_entries(v)[i].item).len(),
            ),
        ),
{
    let after = node_prefix(v, node_slot(i + 1));
    let before = node_prefix(v, node_slot(i));
    if i == 18 {
        lemma_tolerant(d, t, v.total_peers);
        assert(after =~= NodeView { total_peers: v.total_peers, ..before });
    } else if i == 19 {
        lemma_opt(d, t, v.max_peers);
        assert(after =~= NodeView { max_peers: v.max_peers, ..before });
    } else if i == 20 {
        lemma_peers(d, t, v);
    }
}

/// Each entry of an encoded map sets its own field.
proof fn lemma_node_entry(d: Seq<u8>, v: NodeView, i: int, q: int)
    requires
        node_ok(v),
        0 <= i < 21,
        msgpack::at(d, q, entry_bytes(node_entries(v)[i])),
    ensures
        keyed(d, node_step(d))(q, node_prefix(v, node_slot(i))) == Ok::<
            (NodeView, int),
            msgpack::Error,
        >(
            (
                node_prefix(v, node_slot(i + 1)),
                q + entry_bytes(node_entries(v)[i]).len(),
            ),
        ),
{
    let e = node_entries(v)[i];
    let t = q + text_bytes(e.key).len();
    lemma_node_key_at(v, i);
    lemma_key(d, q, e);
    if i < 6 {
        lemma_node_field_1(d, v, i, t);
    } else if i < 12 {
        lemma_node_field_2(d, v, i, t);
    } else if i < 18 {
        lemma_node_field_3(d, v, i, t);
    } else {
        lemma_node_field_4(d, v, i, t);
    }
    lemma_node_step(d, q, e, node_prefix(v, node_slot(i)), node_prefix(v, node_slot(i + 1)));
}

/// The statistics that a node encodes are those that a client decodes.
pub proof fn law_stats_round_trip(v: NodeView)
    requires
        node_ok(v),
        map_bytes(node_entries(v)).len() <= usize::MAX,
    ensures
        node_at(map_bytes(node_entries(v)), 0) == Ok::<(NodeView, int), msgpack::Error>(
            (v, map_bytes(node_entries(v)).len() as int),
        ),
        reply_of(map_bytes(node_entries(v))) == Ok::<Reply, msgpack::Error>(Reply::Stats(v)),
{
    let d = map_bytes(node_entries(v));
    msgpack::lemma_at_whole(d);
    let st = |i: int| node_prefix(v, node_slot(i));
    assert forall|i: int, q: int|
        0 <= i < 21 && #[trigger] msgpack::at(d, q, entry_bytes(node_entries(v)[i])) implies keyed(
        d,
        node_step(d),
    )(q, st(i)) == Ok::<(NodeView, int), msgpack::Error>(
        (st(i + 1), q + entry_bytes(node_entries(v)[i]).len()),
    ) by {
        lemma_node_entry(d, v, i, q);
    }
    lemma_map(d, node_step(d), 0, node_entries(v), st);
    assert(st(0) =~= default_node());
    assert(st(21) =~= v);
}

/// Acknowledgements and refusals read back as they were sent.
pub proof fn law_reply_round_trip(e: PeerError)
    ensures
        reply_of(msgpack::bool_bytes(true)) == Ok::<Reply, msgpack::Error>(Reply::Ack),
        reply_of(msgpack::nil_bytes()) == Ok::<Reply, msgpack::Error>(Reply::Nil),
        reply_of(msgpack::uint_bytes(e.spec_code() as nat)) == Ok::<Reply, msgpack::Error>(
            Reply::Error(e),
        ),
{
    let a = msgpack::bool_bytes(true);
    msgpack::lemma_at_whole(a);
    msgpack::law_bool(a, 0, true, 0);
    let n = msgpack::nil_bytes();
    msgpack::lemma_at_whole(n);
    msgpack::law_nil(n, 0, 0);
    let u = msgpack::uint_bytes(e.spec_code() as nat);
    assert(u.len() <= 9) by {
        reveal(msgpack::uint_bytes);
        reveal_with_fuel(msgpack::be_bytes, 9);
    }
    msgpack::lemma_at_whole(u);
    msgpack::law_uint(u, 0, e.spec_code() as u64);
    crate::propagation::law_peer_error_codes(e, e.spec_code() as u64);
}

} // verus!
