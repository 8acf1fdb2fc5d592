//! LXMF delivery over the Reticulum stack.
//!
//! LXMF uses raw Reticulum packets on both single destinations and links, and
//! no link multiplexer. Small direct messages go as one link packet, large
//! ones as a Resource.
//!
//! The adapter holds only LXMF-specific correlation state; it makes no call
//! into the stack itself.
use vstd::prelude::*;

use crate::bytemap::{same, to_vec, ByteMap};
use crate::constants::{
    DESTINATION_LENGTH, ENCRYPTED_PACKET_MAX_CONTENT, LINK_PACKET_MAX_CONTENT, LXMF_OVERHEAD,
};
use crate::message::{DeliveryMethod, Message, MessageError, SignatureCheck};
use crate::transport::{
    Aspect, CoreCall, CoreEvent, DeliveryError, DestinationHash, DestinationInfo, Facts,
    LinkCloseReason, LinkId, ResourceError, SendError,
};

verus! {

/// LXMF Reticulum application name.
pub const APP_NAME: &'static str = "lxmf";

/// Aspect used for an LXMF delivery destination.
pub const DELIVERY_ASPECT: &'static str = "delivery";

/// Largest opportunistic on-air plaintext.
pub const OPPORTUNISTIC_PACKET_MDU: usize = ENCRYPTED_PACKET_MAX_CONTENT + LXMF_OVERHEAD
    - DESTINATION_LENGTH;

/// Largest fully packed LXMF message sent as one raw link packet.
pub const DIRECT_PACKET_MDU: usize = LINK_PACKET_MAX_CONTENT + LXMF_OVERHEAD;

/// Largest part of a message that one Resource carries.
pub const RESOURCE_MAX_EFFICIENT_SIZE: usize = 1_048_575;

/// Runtime policy of the adapter.
#[derive(Debug, Clone, Copy, PartialEq, Eq)]
pub struct LxmfNodeConfig {
    /// Maximum uncompressed size of one incoming LXMF Resource; without one
    /// there is no limit.
    pub max_incoming_resource_size: Option<u64>,
    /// Ask the Resource engine to compress where that helps.
    pub auto_compress_resources: bool,
}

impl Default for LxmfNodeConfig {
    fn default() -> (r: Self)
        ensures
            r.max_incoming_resource_size is None,
            r.auto_compress_resources,
    {
        LxmfNodeConfig { max_incoming_resource_size: None, auto_compress_resources: true }
    }
}

/// Reticulum representation selected for an LXMF message.
#[derive(Debug, Clone, Copy, PartialEq, Eq, Structural)]
pub enum DeliveryRepresentation {
    OpportunisticPacket,
    DirectPacket,
    DirectResource,
}

/// Stable identifier of what was handed to the stack.
#[derive(Debug, Clone, Copy, PartialEq, Eq)]
pub enum SubmissionId {
    /// Truncated packet receipt hash of a single packet.
    Packet([u8; 16]),
    /// Full packet hash that link data proofs name.
    LinkPacket([u8; 32]),
    /// Hash of a Resource.
    Resource([u8; 32]),
}

/// State returned while preparing a direct link.
#[derive(Debug, Clone, Copy, PartialEq, Eq)]
pub enum DirectLinkState {
    Ready(LinkId),
    /// A link request was started now.
    Started(LinkId),
    /// A link request started earlier is still pending.
    Connecting(LinkId),
    PathRequested,
}

/// Why an outbound message did not complete.
#[derive(Debug, Clone, Copy, PartialEq, Eq, Structural)]
pub enum DeliveryFailure {
    Opportunistic(DeliveryError),
    DirectPacketTimeout,
    LinkClosed(LinkCloseReason),
    Resource(ResourceError),
}

/// Why an inbound payload was not passed on as an LXMF message.
#[derive(Debug, Clone, Copy, PartialEq, Eq, Structural)]
pub enum InboundRejection {
    Message(MessageError),
    WrongDestination,
    ResourceSequence,
    ResourceTooLarge,
    Resource(ResourceError),
}

/// LXMF-level events. Progress is the bits of a single precision number.
#[derive(Debug, Clone, PartialEq, Eq)]
pub enum LxmfNodeEvent {
    PeerAnnounced { destination: DestinationHash },
    PathRequested { destination: DestinationHash },
    DirectLinkEstablished {
        destination: Option<DestinationHash>,
        link_id: LinkId,
        is_initiator: bool,
    },
    Submitted {
        message_id: [u8; 32],
        method: DeliveryMethod,
        representation: DeliveryRepresentation,
        submission: SubmissionId,
    },
    Progress { message_id: [u8; 32], progress: u32 },
    Delivered { message_id: [u8; 32] },
    DeliveryFailed { message_id: [u8; 32], reason: DeliveryFailure },
    MessageReceived(Message),
    InboundRejected { method: DeliveryMethod, reason: InboundRejection },
}

/// An LXMF-level event with its message as sequences.
pub ghost enum NodeNote {
    PeerAnnounced { destination: DestinationHash },
    PathRequested { destination: DestinationHash },
    DirectLinkEstablished {
        destination: Option<DestinationHash>,
        link_id: LinkId,
        is_initiator: bool,
    },
    Submitted {
        message_id: [u8; 32],
        method: DeliveryMethod,
        representation: DeliveryRepresentation,
        submission: SubmissionId,
    },
    Progress { message_id: [u8; 32], progress: u32 },
    Delivered { message_id: [u8; 32] },
    DeliveryFailed { message_id: [u8; 32], reason: DeliveryFailure },
    MessageReceived(crate::message::Mail),
    InboundRejected { method: DeliveryMethod, reason: InboundRejection },
}

impl View for LxmfNodeEvent {
    type V = NodeNote;

    open spec fn view(&self) -> NodeNote {
        match *self {
            LxmfNodeEvent::PeerAnnounced { destination } => NodeNote::PeerAnnounced { destination },
            LxmfNodeEvent::PathRequested { destination } => NodeNote::PathRequested { destination },
            LxmfNodeEvent::DirectLinkEstablished {
                destination,
                link_id,
                is_initiator,
            } => NodeNote::DirectLinkEstablished { destination, link_id, is_initiator },
            LxmfNodeEvent::Submitted {
                message_id,
                method,
                representation,
                submission,
            } => NodeNote::Submitted { message_id, method, representation, submission },
            LxmfNodeEvent::Progress {
                message_id,
                progress,
            } => NodeNote::Progress { message_id, progress },
            LxmfNodeEvent::Delivered { message_id } => NodeNote::Delivered { message_id },
            LxmfNodeEvent::DeliveryFailed {
                message_id,
                reason,
            } => NodeNote::DeliveryFailed { message_id, reason },
            LxmfNodeEvent::MessageReceived(message) => NodeNote::MessageReceived(message@),
            LxmfNodeEvent::InboundRejected {
                method,
                reason,
            } => NodeNote::InboundRejected { method, reason },
        }
    }
}

pub open spec fn notes(events: Seq<LxmfNodeEvent>) -> Seq<NodeNote> {
    events.map_values(|e: LxmfNodeEvent| e@)
}

/// Combined output of one adapter operation.
#[derive(Debug, Clone, PartialEq, Eq)]
#[must_use]
pub struct LxmfNodeOutput {
    pub events: Vec<LxmfNodeEvent>,
}

impl Default for LxmfNodeOutput {
    fn default() -> (r: Self)
        ensures
            r.events@.len() == 0,
    {
        LxmfNodeOutput { events: Vec::new() }
    }
}

impl LxmfNodeOutput {
    pub fn merge(&mut self, other: LxmfNodeOutput)
        ensures
            final(self).events@ == old(self).events@ + other.events@,
    {
        let mut events = other.events;
        self.events.append(&mut events);
    }
}

/// What one resource send is about, captured before the transfer is built.
#[derive(Debug, Clone, Copy, PartialEq, Eq)]
pub struct LxmfResourceSendParams {
    pub link_id: LinkId,
    pub message_id: [u8; 32],
}

/// A message packed and built into a transfer, ready for
/// [`LxmfNode::commit_resource_send`].
#[derive(Debug, Clone, Copy, PartialEq, Eq)]
pub struct PreparedLxmfSend {
    pub link_id: LinkId,
    pub message_id: [u8; 32],
    pub packed_len: usize,
}

/// Errors of the adapter itself. Malformed network traffic is reported as
/// [`LxmfNodeEvent::InboundRejected`] instead.
#[derive(Debug, Clone, Copy, PartialEq, Eq, Structural)]
pub enum LxmfNodeError {
    InvalidDeliveryDestination,
    Message(MessageError),
    UnsupportedMethod,
    UnknownPeer,
    DirectLinkUnavailable,
    Send(SendError),
    Resource(ResourceError),
    ProofFailed,
    IdentityUnavailable,
}

/// What is to be handed to the stack for one message.
#[derive(Debug, Clone, PartialEq, Eq)]
pub enum SendPlan {
    Packet { destination: DestinationHash, data: Vec<u8> },
    LinkPacket { link_id: LinkId, data: Vec<u8> },
    Resource { link_id: LinkId, data: Vec<u8>, auto_compress: bool },
}

#[derive(Debug, Clone, Copy, PartialEq, Eq)]
pub struct PendingLinkPacket {
    pub message_id: [u8; 32],
    pub link_id: LinkId,
}

/// A message that is being sent as one or more Resources.
#[derive(Debug, Clone, Copy, PartialEq, Eq)]
pub struct PendingResource {
    pub message_id: [u8; 32],
    pub current_resource_hash: [u8; 32],
    pub completed_size: u64,
    pub current_size: u64,
    pub total_size: u64,
}

/// The part of a message that has come in so far.
#[derive(Debug, Clone, PartialEq, Eq)]
pub struct IncomingResourceAssembly {
    pub next_segment: u32,
    pub total_segments: u32,
    pub data: Vec<u8>,
}

pub ghost struct Partial {
    pub next: u32,
    pub total: u32,
    pub data: Seq<u8>,
}

impl View for IncomingResourceAssembly {
    type V = Partial;

    open spec fn view(&self) -> Partial {
        Partial { next: self.next_segment, total: self.total_segments, data: self.data@ }
    }
}

/// Snapshot of an active incoming LXMF Resource transfer. Progress is the bits
/// of a single precision number.
#[derive(Debug, Clone, Copy, PartialEq, Eq)]
pub struct IncomingResourceTransfer {
    pub link_id: LinkId,
    pub resource_hash: [u8; 32],
    pub transfer_size: u64,
    pub data_size: u64,
    pub progress: u32,
}

/// How far a message is that goes out as several Resources: the bytes of
/// those that are done, the bytes of the current one and its progress, and
/// the bytes in all.
#[derive(Debug, Clone, Copy, PartialEq, Eq)]
pub struct Portion {
    pub completed_size: u64,
    pub current_size: u64,
    pub total_size: u64,
    pub progress: u32,
}

/// LXMF delivery state.
#[derive(Debug, Clone)]
pub struct LxmfNode {
    pub delivery_destination: DestinationHash,
    pub config: LxmfNodeConfig,
    pub wanted_links: ByteMap<16, ()>,
    pub pending_links: ByteMap<16, LinkId>,
    pub link_destinations: ByteMap<16, DestinationHash>,
    pub direct_links: ByteMap<16, LinkId>,
    pub lxmf_links: ByteMap<16, ()>,
    pub identified_links: ByteMap<16, ()>,
    pub packet_receipts: ByteMap<16, [u8; 32]>,
    pub link_packet_receipts: ByteMap<32, PendingLinkPacket>,
    pub resources: ByteMap<16, PendingResource>,
    pub incoming_resources: ByteMap<16, IncomingResourceAssembly>,
    pub incoming_resource_transfers: ByteMap<32, IncomingResourceTransfer>,
}

/// The delivery state as maps and sets.
pub ghost struct Delivery {
    /// The local delivery destination.
    pub home: DestinationHash,
    pub config: LxmfNodeConfig,
    /// Peers to which a link is wanted.
    pub wanted: Set<DestinationHash>,
    /// Links being established, by peer.
    pub pending: Map<DestinationHash, LinkId>,
    /// The peer at the far end of a link.
    pub links: Map<LinkId, DestinationHash>,
    /// The link that reaches a peer.
    pub direct: Map<DestinationHash, LinkId>,
    /// Links that carry LXMF deliveries.
    pub owned: Set<LinkId>,
    /// Links on which the local identity was presented.
    pub identified: Set<LinkId>,
    /// Messages by the receipt of their single packet.
    pub receipts: Map<[u8; 16], [u8; 32]>,
    /// Messages by the hash of their link packet.
    pub link_receipts: Map<[u8; 32], PendingLinkPacket>,
    /// Messages that go out as Resources, by link.
    pub resources: Map<LinkId, PendingResource>,
    /// Messages that come in as several Resources, by link.
    pub partial: Map<LinkId, Partial>,
    /// Incoming Resources by hash.
    pub incoming: Map<[u8; 32], IncomingResourceTransfer>,
}

impl View for LxmfNode {
    type V = Delivery;

    open spec fn view(&self) -> Delivery {
        Delivery {
            home: self.delivery_destination,
            config: self.config,
            wanted: self.wanted_links@.dom(),
            pending: self.pending_links@,
            links: self.link_destinations@,
            direct: self.direct_links@,
            owned: self.lxmf_links@.dom(),
            identified: self.identified_links@.dom(),
            receipts: self.packet_receipts@,
            link_receipts: self.link_packet_receipts@,
            resources: self.resources@,
            partial: self.incoming_resources@.map_values(|a: IncomingResourceAssembly| a@),
            incoming: self.incoming_resource_transfers@,
        }
    }
}

/// Nothing is known and nothing is in flight.
pub open spec fn fresh(home: DestinationHash, config: LxmfNodeConfig) -> Delivery {
    Delivery {
        home,
        config,
        wanted: Set::empty(),
        pending: Map::empty(),
        links: Map::empty(),
        direct: Map::empty(),
        owned: Set::empty(),
        identified: Set::empty(),
        receipts: Map::empty(),
        link_receipts: Map::empty(),
        resources: Map::empty(),
        partial: Map::empty(),
        incoming: Map::empty(),
    }
}

// ---------------------------------------------------------------------------
// What each event means
// ---------------------------------------------------------------------------

/// A link to `d` is wanted and none is being established.
pub open spec fn wants(c: Delivery, d: DestinationHash) -> bool {
    c.wanted.contains(d) && !c.pending.contains_key(d)
}

/// The state once a link to `d` is being established.
pub open spec fn started(c: Delivery, d: DestinationHash, link: LinkId) -> Delivery {
    Delivery { pending: c.pending.insert(d, link), links: c.links.insert(link, d), ..c }
}

pub open spec fn opened(
    c: Delivery,
    d: DestinationHash,
    f: Facts,
    notes: Seq<NodeNote>,
) -> (Delivery, Result<Seq<NodeNote>, LxmfNodeError>) {
    if f.identity_known {
        (started(c, d, f.new_link), Ok(notes))
    } else {
        (c, Err(LxmfNodeError::UnknownPeer))
    }
}

/// The peer that a link was opened to or is known to come from.
pub open spec fn peer_of(c: Delivery, link: LinkId) -> Option<DestinationHash> {
    if c.links.contains_key(link) {
        Some(c.links[link])
    } else {
        None
    }
}

/// A link belongs to LXMF delivery if it leads here or is one of the adapter's.
pub open spec fn delivers(c: Delivery, link: LinkId, f: Facts) -> bool {
    f.link_destination == Some(c.home) || peer_of(c, link) is Some
}

/// The peer that an established link reaches.
pub open spec fn reaches(c: Delivery, link: LinkId, is_initiator: bool, f: Facts) -> Option<
    DestinationHash,
> {
    if !is_initiator {
        None
    } else if peer_of(c, link) is Some {
        peer_of(c, link)
    } else {
        f.link_destination
    }
}

pub open spec fn established(c: Delivery, link: LinkId, is_initiator: bool, f: Facts) -> (
    Delivery,
    Result<Seq<NodeNote>, LxmfNodeError>,
) {
    if !delivers(c, link, f) {
        (c, Ok(seq![]))
    } else {
        let mine = Delivery { owned: c.owned.insert(link), ..c };
        match f.refused {
            Some(e) => (mine, Err(LxmfNodeError::Resource(e))),
            None => {
                let destination = reaches(c, link, is_initiator, f);
                let next = match destination {
                    Some(d) => Delivery {
                        pending: mine.pending.remove(d),
                        direct: mine.direct.insert(d, link),
                        links: mine.links.insert(link, d),
                        ..mine
                    },
                    None => mine,
                };
                (
                    next,
                    Ok(
                        seq![
                            NodeNote::DirectLinkEstablished {
                                destination,
                                link_id: link,
                                is_initiator,
                            },
                        ],
                    ),
                )
            },
        }
    }
}

/// What becomes of the bytes of a message that came in.
pub open spec fn emitted(
    c: Delivery,
    data: Seq<u8>,
    method: DeliveryMethod,
    inferred: Option<DestinationHash>,
    check: SignatureCheck,
) -> NodeNote {
    match crate::message::mail_of(data, inferred, check, method) {
        Ok(mail) => if mail.destination == c.home {
            NodeNote::MessageReceived(mail)
        } else {
            NodeNote::InboundRejected { method, reason: InboundRejection::WrongDestination }
        },
        Err(e) => NodeNote::InboundRejected { method, reason: InboundRejection::Message(e) },
    }
}

/// A Resource continues the message that its link is bringing in.
pub open spec fn continues(c: Delivery, link: LinkId, index: u32, total: u32) -> bool {
    c.partial.contains_key(link) && c.partial[link].next == index && c.partial[link].total == total
}

pub open spec fn out_of_sequence() -> NodeNote {
    NodeNote::InboundRejected {
        method: DeliveryMethod::Direct,
        reason: InboundRejection::ResourceSequence,
    }
}

/// The next place, at most the largest number there is.
pub open spec fn following(index: u32) -> u32 {
    if index == u32::MAX {
        u32::MAX
    } else {
        (index + 1) as u32
    }
}

/// Resource `index` of `total` has come in on a link.
pub open spec fn segment(
    c: Delivery,
    link: LinkId,
    data: Seq<u8>,
    index: u32,
    total: u32,
    check: SignatureCheck,
) -> (Delivery, Seq<NodeNote>) {
    let dropped = Delivery { partial: c.partial.remove(link), ..c };
    if index == 0 || total == 0 || index > total {
        (dropped, seq![out_of_sequence()])
    } else if total == 1 {
        (c, seq![emitted(c, data, DeliveryMethod::Direct, None, check)])
    } else if index == 1 {
        (
            Delivery { partial: c.partial.insert(link, Partial { next: 2, total, data }), ..c },
            seq![],
        )
    } else if !continues(c, link, index, total) {
        (dropped, seq![out_of_sequence()])
    } else if index == total {
        (
            dropped,
            seq![
                emitted(c, c.partial[link].data + data, DeliveryMethod::Direct, None, check),
            ],
        )
    } else {
        (
            Delivery {
                partial: c.partial.insert(
                    link,
                    Partial { next: following(index), total, data: c.partial[link].data + data },
                ),
                ..c
            },
            seq![],
        )
    }
}

/// An incoming Resource is accepted if it is within the limit.
pub open spec fn acceptable(c: Delivery, data_size: u64) -> bool {
    c.config.max_incoming_resource_size matches Some(limit) ==> data_size <= limit
}

pub open spec fn advertised(c: Delivery, t: IncomingResourceTransfer, f: Facts) -> (
    Delivery,
    Result<Seq<NodeNote>, LxmfNodeError>,
) {
    match f.refused {
        Some(e) => (c, Err(LxmfNodeError::Resource(e))),
        None => if acceptable(c, t.data_size) {
            (Delivery { incoming: c.incoming.insert(t.resource_hash, t), ..c }, Ok(seq![]))
        } else {
            (
                c,
                Ok(
                    seq![
                        NodeNote::InboundRejected {
                            method: DeliveryMethod::Direct,
                            reason: InboundRejection::ResourceTooLarge,
                        },
                    ],
                ),
            )
        },
    }
}

/// A sum, at most the largest number there is.
pub open spec fn capped_sum(a: u64, b: u64) -> u64 {
    if a + b > u64::MAX {
        u64::MAX
    } else {
        (a + b) as u64
    }
}

/// A pending message once one of its Resources moved on; a Resource that is
/// not the current one takes the place of it.
pub open spec fn moved_on(p: PendingResource, resource: [u8; 32], data_size: u64) -> PendingResource {
    if p.current_resource_hash == resource {
        p
    } else {
        PendingResource {
            completed_size: capped_sum(p.completed_size, p.current_size),
            current_resource_hash: resource,
            current_size: data_size,
            ..p
        }
    }
}

/// The local identity can be presented on a link that this side opened.
pub open spec fn identifies(c: Delivery, link: LinkId, f: Facts) -> bool {
    !c.identified.contains(link) && f.link_initiator && f.has_identity
}

pub open spec fn presented(c: Delivery, link: LinkId, f: Facts) -> Delivery {
    if identifies(c, link, f) && f.refused is None {
        Delivery { identified: c.identified.insert(link), ..c }
    } else {
        c
    }
}

/// A transfer that fails this way takes its link down.
pub open spec fn tears_down(e: ResourceError) -> bool {
    e != ResourceError::Cancelled && e != ResourceError::LinkClosed
}

pub open spec fn on_link(link: LinkId) -> spec_fn(PendingLinkPacket) -> bool {
    |p: PendingLinkPacket| p.link_id == link
}

/// The state without anything that belonged to `link`.
pub open spec fn forgotten(c: Delivery, link: LinkId) -> Delivery {
    Delivery {
        owned: c.owned.remove(link),
        identified: c.identified.remove(link),
        partial: c.partial.remove(link),
        incoming: crate::bytemap::restricted(
            c.incoming,
            |k: [u8; 32], t: IncomingResourceTransfer| t.link_id != link,
        ),
        links: c.links.remove(link),
        pending: crate::bytemap::restricted(c.pending, |k: DestinationHash, l: LinkId| l != link),
        direct: crate::bytemap::restricted(c.direct, |k: DestinationHash, l: LinkId| l != link),
        link_receipts: crate::bytemap::restricted(
            c.link_receipts,
            |k: [u8; 32], p: PendingLinkPacket| !on_link(link)(p),
        ),
        resources: c.resources.remove(link),
        ..c
    }
}

pub open spec fn lost(message_id: [u8; 32], reason: LinkCloseReason) -> NodeNote {
    NodeNote::DeliveryFailed { message_id, reason: DeliveryFailure::LinkClosed(reason) }
}

/// The messages that a closed link took with it: those in packets in the order
/// of the packet hashes, then the one in a Resource.
pub open spec fn losses(c: Delivery, link: LinkId, reason: LinkCloseReason) -> Seq<NodeNote> {
    let packets = crate::bytemap::keys_where(c.link_receipts, on_link(link)).map_values(
        |k: [u8; 32]| lost(c.link_receipts[k].message_id, reason),
    );
    if c.resources.contains_key(link) {
        packets.push(lost(c.resources[link].message_id, reason))
    } else {
        packets
    }
}

/// What one event makes of the delivery state, and what is reported.
pub open spec fn step(c: Delivery, e: CoreEvent, f: Facts) -> (
    Delivery,
    Result<Seq<NodeNote>, LxmfNodeError>,
) {
    match e {
        CoreEvent::AnnounceReceived { destination, aspect: Aspect::Delivery, .. } => {
            let heard = seq![NodeNote::PeerAnnounced { destination }];
            if wants(c, destination) && f.has_path {
                opened(c, destination, f, heard)
            } else {
                (c, Ok(heard))
            }
        },
        CoreEvent::PathFound { destination } => if wants(c, destination) {
            opened(c, destination, f, seq![])
        } else {
            (c, Ok(seq![]))
        },
        CoreEvent::LinkEstablished { link_id, is_initiator } => established(
            c,
            link_id,
            is_initiator,
            f,
        ),
        CoreEvent::LinkIdentified { link_id, peer } => if c.owned.contains(link_id) {
            (
                Delivery {
                    direct: c.direct.insert(peer, link_id),
                    links: c.links.insert(link_id, peer),
                    ..c
                },
                Ok(
                    seq![
                        NodeNote::DirectLinkEstablished {
                            destination: Some(peer),
                            link_id,
                            is_initiator: false,
                        },
                    ],
                ),
            )
        } else {
            (c, Ok(seq![]))
        },
        CoreEvent::PacketProofRequested { destination, .. } => if destination == c.home
            && f.refused is Some {
            (c, Err(LxmfNodeError::ProofFailed))
        } else {
            (c, Ok(seq![]))
        },
        CoreEvent::LinkProofRequested { link_id, .. } => if c.owned.contains(link_id)
            && f.refused is Some {
            (c, Err(LxmfNodeError::ProofFailed))
        } else {
            (c, Ok(seq![]))
        },
        CoreEvent::PacketReceived { destination, data } => if destination == c.home {
            (
                c,
                Ok(
                    seq![
                        emitted(
                            c,
                            data@,
                            DeliveryMethod::Opportunistic,
                            Some(destination),
                            f.signature,
                        ),
                    ],
                ),
            )
        } else {
            (c, Ok(seq![]))
        },
        CoreEvent::LinkDataReceived { link_id, data } => if c.owned.contains(link_id) {
            (c, Ok(seq![emitted(c, data@, DeliveryMethod::Direct, None, f.signature)]))
        } else {
            (c, Ok(seq![]))
        },
        CoreEvent::ResourceAdvertised { link_id, resource_hash, transfer_size, data_size } =>
            if c.owned.contains(link_id) {
                advertised(
                    c,
                    IncomingResourceTransfer {
                        link_id,
                        resource_hash,
                        transfer_size,
                        data_size,
                        progress: 0,
                    },
                    f,
                )
            } else {
                (c, Ok(seq![]))
            },
        CoreEvent::ResourceTransferStarted { link_id, resource_hash, is_sender: false } =>
            if c.owned.contains(link_id) && !c.incoming.contains_key(resource_hash) {
                (
                    Delivery {
                        incoming: c.incoming.insert(
                            resource_hash,
                            IncomingResourceTransfer {
                                link_id,
                                resource_hash,
                                transfer_size: 0,
                                data_size: 0,
                                progress: 0,
                            },
                        ),
                        ..c
                    },
                    Ok(seq![]),
                )
            } else {
                (c, Ok(seq![]))
            },
        CoreEvent::ResourceProgress {
            link_id,
            resource_hash,
            progress,
            transfer_size,
            data_size,
            is_sender,
        } => if is_sender {
            if c.resources.contains_key(link_id) {
                let p = moved_on(c.resources[link_id], resource_hash, data_size);
                (
                    Delivery { resources: c.resources.insert(link_id, p), ..c },
                    Ok(
                        seq![
                            NodeNote::Progress {
                                message_id: p.message_id,
                                progress: if p.total_size == 0 {
                                    0
                                } else {
                                    f.overall
                                },
                            },
                        ],
                    ),
                )
            } else {
                (c, Ok(seq![]))
            }
        } else if c.owned.contains(link_id) {
            (
                Delivery {
                    incoming: c.incoming.insert(
                        resource_hash,
                        IncomingResourceTransfer {
                            link_id,
                            resource_hash,
                            transfer_size,
                            data_size,
                            progress,
                        },
                    ),
                    ..c
                },
                Ok(seq![]),
            )
        } else {
            (c, Ok(seq![]))
        },
        CoreEvent::ResourceCompleted {
            link_id,
            resource_hash,
            data,
            is_sender,
            segment_index,
            total_segments,
        } => if is_sender {
            if c.resources.contains_key(link_id) {
                (
                    presented(
                        Delivery { resources: c.resources.remove(link_id), ..c },
                        link_id,
                        f,
                    ),
                    Ok(seq![NodeNote::Delivered { message_id: c.resources[link_id].message_id }]),
                )
            } else {
                (c, Ok(seq![]))
            }
        } else if c.owned.contains(link_id) {
            let (next, notes) = segment(
                Delivery { incoming: c.incoming.remove(resource_hash), ..c },
                link_id,
                data@,
                segment_index,
                total_segments,
                f.signature,
            );
            (next, Ok(notes))
        } else {
            (c, Ok(seq![]))
        },
        CoreEvent::ResourceFailed { link_id, resource_hash, error, is_sender } => if is_sender {
            if c.resources.contains_key(link_id) {
                (
                    Delivery { resources: c.resources.remove(link_id), ..c },
                    Ok(
                        seq![
                            NodeNote::DeliveryFailed {
                                message_id: c.resources[link_id].message_id,
                                reason: DeliveryFailure::Resource(error),
                            },
                        ],
                    ),
                )
            } else {
                (c, Ok(seq![]))
            }
        } else if c.owned.contains(link_id) {
            (
                Delivery {
                    partial: c.partial.remove(link_id),
                    incoming: c.incoming.remove(resource_hash),
                    ..c
                },
                Ok(
                    seq![
                        NodeNote::InboundRejected {
                            method: DeliveryMethod::Direct,
                            reason: InboundRejection::Resource(error),
                        },
                    ],
                ),
            )
        } else {
            (c, Ok(seq![]))
        },
        CoreEvent::PacketDeliveryConfirmed { packet_hash } => if c.receipts.contains_key(
            packet_hash,
        ) {
            (
                Delivery { receipts: c.receipts.remove(packet_hash), ..c },
                Ok(seq![NodeNote::Delivered { message_id: c.receipts[packet_hash] }]),
            )
        } else {
            (c, Ok(seq![]))
        },
        CoreEvent::DeliveryFailed { packet_hash, error } => if c.receipts.contains_key(
            packet_hash,
        ) {
            (
                Delivery { receipts: c.receipts.remove(packet_hash), ..c },
                Ok(
                    seq![
                        NodeNote::DeliveryFailed {
                            message_id: c.receipts[packet_hash],
                            reason: DeliveryFailure::Opportunistic(error),
                        },
                    ],
                ),
            )
        } else {
            (c, Ok(seq![]))
        },
        CoreEvent::LinkDeliveryConfirmed { link_id, packet_hash } =>
            if c.link_receipts.contains_key(packet_hash) {
                (
                    presented(
                        Delivery { link_receipts: c.link_receipts.remove(packet_hash), ..c },
                        link_id,
                        f,
                    ),
                    Ok(
                        seq![
                            NodeNote::Delivered {
                                message_id: c.link_receipts[packet_hash].message_id,
                            },
                        ],
                    ),
                )
            } else {
                (c, Ok(seq![]))
            },
        CoreEvent::LinkDeliveryFailed { link_id, packet_hash } => if c.link_receipts.contains_key(
            packet_hash,
        ) {
            (
                Delivery { link_receipts: c.link_receipts.remove(packet_hash), ..c },
                Ok(
                    seq![
                        NodeNote::DeliveryFailed {
                            message_id: c.link_receipts[packet_hash].message_id,
                            reason: DeliveryFailure::DirectPacketTimeout,
                        },
                    ],
                ),
            )
        } else {
            (c, Ok(seq![]))
        },
        CoreEvent::LinkClosed { link_id, reason, .. } => (
            forgotten(c, link_id),
            Ok(losses(c, link_id, reason)),
        ),
        _ => (c, Ok(seq![])),
    }
}

/// The message whose delivery an event reports.
pub open spec fn concluding(c: Delivery, e: CoreEvent) -> Option<[u8; 32]> {
    match e {
        CoreEvent::PacketDeliveryConfirmed { packet_hash } => if c.receipts.contains_key(
            packet_hash,
        ) {
            Some(c.receipts[packet_hash])
        } else {
            None
        },
        CoreEvent::LinkDeliveryConfirmed { packet_hash, .. } => if c.link_receipts.contains_key(
            packet_hash,
        ) {
            Some(c.link_receipts[packet_hash].message_id)
        } else {
            None
        },
        CoreEvent::ResourceCompleted { link_id, is_sender: true, .. } =>
            if c.resources.contains_key(link_id) {
                Some(c.resources[link_id].message_id)
            } else {
                None
            },
        _ => None,
    }
}

/// The call into the stack that an event demands.
pub open spec fn demand(c: Delivery, e: CoreEvent, f: Facts) -> Option<CoreCall> {
    match e {
        CoreEvent::AnnounceReceived { destination, aspect: Aspect::Delivery, .. } => if wants(
            c,
            destination,
        ) && f.has_path && f.identity_known {
            Some(CoreCall::Connect { destination })
        } else {
            None
        },
        CoreEvent::PathFound { destination } => if wants(c, destination) && f.identity_known {
            Some(CoreCall::Connect { destination })
        } else {
            None
        },
        CoreEvent::LinkEstablished { link_id, .. } => if delivers(c, link_id, f) {
            Some(CoreCall::DecideResources { link_id })
        } else {
            None
        },
        CoreEvent::PacketProofRequested { packet_hash, destination, interface_index } =>
            if destination == c.home {
                Some(CoreCall::ProvePacket { packet_hash, destination, interface_index })
            } else {
                None
            },
        CoreEvent::LinkProofRequested { link_id, packet_hash } => if c.owned.contains(link_id) {
            Some(CoreCall::ProveLinkData { link_id, packet_hash })
        } else {
            None
        },
        CoreEvent::ResourceAdvertised { link_id, data_size, .. } => if !c.owned.contains(link_id) {
            None
        } else if acceptable(c, data_size) {
            Some(CoreCall::AcceptResource { link_id })
        } else {
            Some(CoreCall::RejectResource { link_id })
        },
        CoreEvent::ResourceCompleted { link_id, is_sender: true, .. } =>
            if c.resources.contains_key(link_id) && identifies(c, link_id, f) {
                Some(CoreCall::IdentifyLink { link_id })
            } else {
                None
            },
        CoreEvent::ResourceFailed { link_id, error, is_sender: true, .. } =>
            if c.resources.contains_key(link_id) && tears_down(error) {
                Some(CoreCall::CloseLink { link_id })
            } else {
                None
            },
        CoreEvent::LinkDeliveryConfirmed { link_id, packet_hash } =>
            if c.link_receipts.contains_key(packet_hash) && identifies(c, link_id, f) {
                Some(CoreCall::IdentifyLink { link_id })
            } else {
                None
            },
        CoreEvent::LinkDeliveryFailed { link_id, packet_hash } => if c.link_receipts.contains_key(
            packet_hash,
        ) {
            Some(CoreCall::CloseLink { link_id })
        } else {
            None
        },
        _ => None,
    }
}

// ---------------------------------------------------------------------------
// Sending
// ---------------------------------------------------------------------------

/// How a packed message of `len` bytes is sent by a method. An opportunistic
/// message that does not fit one packet is sent as a direct one.
pub open spec fn represented(method: DeliveryMethod, len: nat) -> Result<
    DeliveryRepresentation,
    LxmfNodeError,
> {
    match method {
        DeliveryMethod::Opportunistic | DeliveryMethod::Direct => if method
            == DeliveryMethod::Opportunistic && len <= OPPORTUNISTIC_PACKET_MDU
            + DESTINATION_LENGTH {
            Ok(DeliveryRepresentation::OpportunisticPacket)
        } else if len <= DIRECT_PACKET_MDU {
            Ok(DeliveryRepresentation::DirectPacket)
        } else {
            Ok(DeliveryRepresentation::DirectResource)
        },
        DeliveryMethod::Propagated | DeliveryMethod::Paper => Err(LxmfNodeError::UnsupportedMethod),
    }
}

/// The live link to a peer. A dead one is forgotten.
pub open spec fn live_link(c: Delivery, d: DestinationHash, link_active: bool) -> (
    Delivery,
    Result<LinkId, LxmfNodeError>,
) {
    if !c.direct.contains_key(d) {
        (c, Err(LxmfNodeError::DirectLinkUnavailable))
    } else if link_active {
        (c, Ok(c.direct[d]))
    } else {
        (
            Delivery { direct: c.direct.remove(d), ..c },
            Err(LxmfNodeError::DirectLinkUnavailable),
        )
    }
}

/// What a plan hands to the stack.
pub ghost enum Plan {
    Packet { destination: DestinationHash, data: Seq<u8> },
    LinkPacket { link_id: LinkId, data: Seq<u8> },
    Resource { link_id: LinkId, data: Seq<u8>, auto_compress: bool },
}

impl View for SendPlan {
    type V = Plan;

    open spec fn view(&self) -> Plan {
        match *self {
            SendPlan::Packet { destination, data } => Plan::Packet { destination, data: data@ },
            SendPlan::LinkPacket { link_id, data } => Plan::LinkPacket { link_id, data: data@ },
            SendPlan::Resource { link_id, data, auto_compress } => Plan::Resource {
                link_id,
                data: data@,
                auto_compress,
            },
        }
    }
}

/// How a message is sent, and the state then.
pub open spec fn planned(c: Delivery, m: crate::message::Mail, link_active: bool) -> (
    Delivery,
    Result<Plan, LxmfNodeError>,
) {
    let packed = crate::message::mail_bytes(m);
    match represented(m.method, packed.len()) {
        Err(e) => (c, Err(e)),
        Ok(DeliveryRepresentation::OpportunisticPacket) => (
            c,
            Ok(Plan::Packet { destination: m.destination, data: packed.skip(16) }),
        ),
        Ok(r) => match live_link(c, m.destination, link_active) {
            (next, Err(e)) => (next, Err(e)),
            (next, Ok(link_id)) => (
                next,
                Ok(
                    if r == DeliveryRepresentation::DirectPacket {
                        Plan::LinkPacket { link_id, data: packed }
                    } else {
                        Plan::Resource {
                            link_id,
                            data: packed,
                            auto_compress: c.config.auto_compress_resources,
                        }
                    },
                ),
            ),
        },
    }
}

/// A message of `len` bytes whose first Resource has just gone out.
pub open spec fn underway(message_id: [u8; 32], resource: [u8; 32], len: nat) -> PendingResource {
    PendingResource {
        message_id,
        current_resource_hash: resource,
        completed_size: 0,
        current_size: if len <= RESOURCE_MAX_EFFICIENT_SIZE {
            len as u64
        } else {
            RESOURCE_MAX_EFFICIENT_SIZE as u64
        },
        total_size: len as u64,
    }
}

pub open spec fn resource_submitted(
    c: Delivery,
    link: LinkId,
    message_id: [u8; 32],
    resource: [u8; 32],
    len: nat,
) -> Delivery {
    Delivery { resources: c.resources.insert(link, underway(message_id, resource, len)), ..c }
}

pub open spec fn resource_note(message_id: [u8; 32], resource: [u8; 32]) -> NodeNote {
    NodeNote::Submitted {
        message_id,
        method: DeliveryMethod::Direct,
        representation: DeliveryRepresentation::DirectResource,
        submission: SubmissionId::Resource(resource),
    }
}

/// The state, and the outcome, once a direct link to `d` has been asked for.
pub open spec fn ensured(c: Delivery, d: DestinationHash, link_active: bool, f: Facts) -> (
    Delivery,
    Result<(DirectLinkState, Seq<NodeNote>), LxmfNodeError>,
) {
    if c.direct.contains_key(d) && link_active {
        (c, Ok((DirectLinkState::Ready(c.direct[d]), seq![])))
    } else {
        let next = Delivery { direct: c.direct.remove(d), ..c };
        if c.pending.contains_key(d) {
            (next, Ok((DirectLinkState::Connecting(c.pending[d]), seq![])))
        } else if !f.identity_known {
            (next, Err(LxmfNodeError::UnknownPeer))
        } else {
            let want = Delivery { wanted: next.wanted.insert(d), ..next };
            if !f.has_path {
                (
                    want,
                    Ok(
                        (
                            DirectLinkState::PathRequested,
                            seq![NodeNote::PathRequested { destination: d }],
                        ),
                    ),
                )
            } else {
                (
                    started(want, d, f.new_link),
                    Ok((DirectLinkState::Started(f.new_link), seq![])),
                )
            }
        }
    }
}

/// The call into the stack that asking for a direct link demands.
pub open spec fn link_demand(c: Delivery, d: DestinationHash, link_active: bool, f: Facts) -> Option<
    CoreCall,
> {
    if (c.direct.contains_key(d) && link_active) || c.pending.contains_key(d) || !f.identity_known {
        None
    } else if f.has_path {
        Some(CoreCall::Connect { destination: d })
    } else {
        Some(CoreCall::RequestPath { destination: d })
    }
}

pub open spec fn sends(message_id: [u8; 32]) -> spec_fn(PendingResource) -> bool {
    |p: PendingResource| p.message_id == message_id
}

/// The state without any trace of an outbound message.
pub open spec fn cancelled(c: Delivery, message_id: [u8; 32]) -> Delivery {
    Delivery {
        receipts: crate::bytemap::restricted(
            c.receipts,
            |k: [u8; 16], m: [u8; 32]| m != message_id,
        ),
        link_receipts: crate::bytemap::restricted(
            c.link_receipts,
            |k: [u8; 32], p: PendingLinkPacket| p.message_id != message_id,
        ),
        resources: crate::bytemap::restricted(
            c.resources,
            |k: LinkId, p: PendingResource| !sends(message_id)(p),
        ),
        ..c
    }
}

fn one(event: LxmfNodeEvent) -> (r: Vec<LxmfNodeEvent>)
    ensures
        notes(r@) == seq![event@],
{
    let mut v: Vec<LxmfNodeEvent> = Vec::new();
    v.push(event);
    assert(notes(v@) =~= seq![event@]);
    v
}

fn none() -> (r: Vec<LxmfNodeEvent>)
    ensures
        notes(r@) == Seq::<NodeNote>::empty(),
{
    let v: Vec<LxmfNodeEvent> = Vec::new();
    assert(notes(v@) =~= Seq::<NodeNote>::empty());
    v
}

/// A receiving single destination of the delivery aspect.
pub open spec fn suitable(info: DestinationInfo) -> bool {
    info.incoming && info.single && info.aspect == Aspect::Delivery
}

impl LxmfNode {
    pub open spec fn wf(&self) -> bool {
        &&& self.wanted_links.wf()
        &&& self.pending_links.wf()
        &&& self.link_destinations.wf()
        &&& self.direct_links.wf()
        &&& self.lxmf_links.wf()
        &&& self.identified_links.wf()
        &&& self.packet_receipts.wf()
        &&& self.link_packet_receipts.wf()
        &&& self.resources.wf()
        &&& self.incoming_resources.wf()
        &&& self.incoming_resource_transfers.wf()
    }

    fn new(delivery_destination: DestinationHash, config: LxmfNodeConfig) -> (r: LxmfNode)
        ensures
            r.wf(),
            r@ == fresh(delivery_destination, config),
    {
        let r = LxmfNode {
            delivery_destination,
            config,
            wanted_links: ByteMap::new(),
            pending_links: ByteMap::new(),
            link_destinations: ByteMap::new(),
            direct_links: ByteMap::new(),
            lxmf_links: ByteMap::new(),
            identified_links: ByteMap::new(),
            packet_receipts: ByteMap::new(),
            link_packet_receipts: ByteMap::new(),
            resources: ByteMap::new(),
            incoming_resources: ByteMap::new(),
            incoming_resource_transfers: ByteMap::new(),
        };
        proof {
            let c = fresh(delivery_destination, config);
            assert(r@.wanted =~= c.wanted);
            assert(r@.owned =~= c.owned);
            assert(r@.identified =~= c.identified);
            assert(r@.partial =~= c.partial);
        }
        r
    }

    /// Builds the adapter on a local `lxmf.delivery` destination.
    pub fn register(info: &DestinationInfo, config: LxmfNodeConfig) -> (r: Result<
        LxmfNode,
        LxmfNodeError,
    >)
        ensures
            match r {
                Ok(n) => suitable(*info) && n.wf() && n@ == fresh(info.hash, config),
                Err(e) => !suitable(*info) && e == LxmfNodeError::InvalidDeliveryDestination,
            },
    {
        if !info.incoming || !info.single || info.aspect != Aspect::Delivery {
            return Err(LxmfNodeError::InvalidDeliveryDestination);
        }
        Ok(Self::new(info.hash, config))
    }

    /// Builds the adapter on a destination that is registered already, if it
    /// is.
    pub fn attach(registered: Option<&DestinationInfo>, config: LxmfNodeConfig) -> (r: Result<
        LxmfNode,
        LxmfNodeError,
    >)
        ensures
            match r {
                Ok(n) => {
                    &&& registered is Some && suitable(*registered->Some_0)
                    &&& n.wf()
                    &&& n@ == fresh(registered->Some_0.hash, config)
                },
                Err(e) => {
                    &&& registered is Some ==> !suitable(*registered->Some_0)
                    &&& e == LxmfNodeError::InvalidDeliveryDestination
                },
            },
    {
        match registered {
            Some(info) => Self::register(info, config),
            None => Err(LxmfNodeError::InvalidDeliveryDestination),
        }
    }

    pub fn delivery_destination_hash(&self) -> (r: DestinationHash)
        ensures
            r == self@.home,
    {
        self.delivery_destination
    }

    /// The active direct or identified backchannel link for a peer.
    pub fn direct_link(&self, destination: &DestinationHash) -> (r: Option<LinkId>)
        requires
            self.wf(),
        ensures
            match r {
                Some(l) => self@.direct.contains_key(*destination) && l == self@.direct[*destination],
                None => !self@.direct.contains_key(*destination),
            },
    {
        match self.direct_links.get(destination) {
            Some(l) => Some(*l),
            None => None,
        }
    }

    /// Whether an established link belongs to LXMF delivery.
    pub fn owns_link(&self, link_id: &LinkId) -> (r: bool)
        requires
            self.wf(),
        ensures
            r == self@.owned.contains(*link_id),
    {
        self.lxmf_links.contains(link_id)
    }

    /// Snapshots of active incoming Resources, in the order of their hashes.
    pub fn incoming_resource_transfers(&self) -> (r: &Vec<([u8; 32], IncomingResourceTransfer)>)
        requires
            self.wf(),
        ensures
            crate::bytemap::ascending(r@),
            crate::bytemap::map_of(r@) == self@.incoming,
    {
        &self.incoming_resource_transfers.entries
    }

    pub fn incoming_resource_count(&self) -> (r: usize)
        requires
            self.wf(),
        ensures
            r == self@.incoming.dom().len(),
    {
        proof {
            crate::bytemap::lemma_len(self.incoming_resource_transfers.entries@);
        }
        self.incoming_resource_transfers.len()
    }

    pub fn config(&self) -> (r: LxmfNodeConfig)
        ensures
            r == self@.config,
    {
        self.config
    }

    /// The representation in which a message is sent.
    pub fn representation(message: &Message) -> (r: Result<DeliveryRepresentation, LxmfNodeError>)
        ensures
            r == represented(message.method, message.packed().len()),
    {
        let packed = message.pack();
        Self::representation_of(message.method, packed.len())
    }

    fn representation_of(method: DeliveryMethod, packed_len: usize) -> (r: Result<
        DeliveryRepresentation,
        LxmfNodeError,
    >)
        ensures
            r == represented(method, packed_len as nat),
    {
        match method {
            DeliveryMethod::Opportunistic => {
                if packed_len.saturating_sub(DESTINATION_LENGTH) <= OPPORTUNISTIC_PACKET_MDU {
                    Ok(DeliveryRepresentation::OpportunisticPacket)
                } else if packed_len <= DIRECT_PACKET_MDU {
                    Ok(DeliveryRepresentation::DirectPacket)
                } else {
                    Ok(DeliveryRepresentation::DirectResource)
                }
            },
            DeliveryMethod::Direct => {
                if packed_len <= DIRECT_PACKET_MDU {
                    Ok(DeliveryRepresentation::DirectPacket)
                } else {
                    Ok(DeliveryRepresentation::DirectResource)
                }
            },
            DeliveryMethod::Propagated | DeliveryMethod::Paper => Err(
                LxmfNodeError::UnsupportedMethod,
            ),
        }
    }

    /// The call into the stack that [`Self::ensure_direct_link`] demands.
    pub fn direct_link_call(
        &self,
        destination: DestinationHash,
        link_active: bool,
        facts: &Facts,
    ) -> (r: Option<CoreCall>)
        requires
            self.wf(),
        ensures
            r == link_demand(self@, destination, link_active, *facts),
    {
        if (self.direct_links.contains(&destination) && link_active)
            || self.pending_links.contains(&destination) || !facts.identity_known {
            None
        } else if facts.has_path {
            Some(CoreCall::Connect { destination })
        } else {
            Some(CoreCall::RequestPath { destination })
        }
    }

    /// Sees to it that a direct link exists, requesting a path first when
    /// needed. `link_active` tells whether the stack has the link to the peer
    /// as a live one.
    pub fn ensure_direct_link(
        &mut self,
        destination: DestinationHash,
        link_active: bool,
        facts: &Facts,
    ) -> (r: Result<(DirectLinkState, LxmfNodeOutput), LxmfNodeError>)
        requires
            old(self).wf(),
        ensures
            final(self).wf(),
            final(self)@ == ensured(old(self)@, destination, link_active, *facts).0,
            match (r, ensured(old(self)@, destination, link_active, *facts).1) {
                (Ok((state, output)), Ok((s, n))) => state == s && notes(output.events@) == n,
                (Err(a), Err(b)) => a == b,
                _ => false,
            },
    {
        if let Some(link_id) = self.direct_link(&destination) {
            if link_active {
                return Ok(
                    (DirectLinkState::Ready(link_id), LxmfNodeOutput { events: none() }),
                );
            }
        }
        let _ = self.direct_links.remove(&destination);
        if let Some(link_id) = self.pending_links.get(&destination) {
            return Ok((DirectLinkState::Connecting(*link_id), LxmfNodeOutput { events: none() }));
        }
        if !facts.identity_known {
            return Err(LxmfNodeError::UnknownPeer);
        }
        let _ = self.wanted_links.insert(destination, ());
        assert(self@.wanted =~= old(self)@.wanted.insert(destination));
        if !facts.has_path {
            return Ok(
                (
                    DirectLinkState::PathRequested,
                    LxmfNodeOutput { events: one(LxmfNodeEvent::PathRequested { destination }) },
                ),
            );
        }
        self.start_direct_link(destination, facts)?;
        Ok((DirectLinkState::Started(facts.new_link), LxmfNodeOutput { events: none() }))
    }

    fn start_direct_link(&mut self, destination: DestinationHash, facts: &Facts) -> (r: Result<
        (),
        LxmfNodeError,
    >)
        requires
            old(self).wf(),
        ensures
            final(self).wf(),
            if facts.identity_known {
                &&& r == Ok::<(), LxmfNodeError>(())
                &&& final(self)@ == started(old(self)@, destination, facts.new_link)
            } else {
                &&& r == Err::<(), LxmfNodeError>(LxmfNodeError::UnknownPeer)
                &&& final(self)@ == old(self)@
            },
    {
        if !facts.identity_known {
            return Err(LxmfNodeError::UnknownPeer);
        }
        let _ = self.pending_links.insert(destination, facts.new_link);
        let _ = self.link_destinations.insert(facts.new_link, destination);
        Ok(())
    }

    /// The live link to a peer.
    pub fn live_direct_link(&self, destination: &DestinationHash, link_active: bool) -> (r: Result<
        LinkId,
        LxmfNodeError,
    >)
        requires
            self.wf(),
        ensures
            r == live_link(self@, *destination, link_active).1,
    {
        match self.direct_link(destination) {
            Some(link_id) => {
                if link_active {
                    Ok(link_id)
                } else {
                    Err(LxmfNodeError::DirectLinkUnavailable)
                }
            },
            None => Err(LxmfNodeError::DirectLinkUnavailable),
        }
    }

    fn active_direct_link(&mut self, destination: &DestinationHash, link_active: bool) -> (r: Result<
        LinkId,
        LxmfNodeError,
    >)
        requires
            old(self).wf(),
        ensures
            final(self).wf(),
            (final(self)@, r) == live_link(old(self)@, *destination, link_active),
    {
        let r = self.live_direct_link(destination, link_active);
        if r.is_err() {
            let _ = self.direct_links.remove(destination);
            assert(!old(self)@.direct.contains_key(*destination) ==> self@.direct =~= old(
                self,
            )@.direct);
        }
        r
    }

    /// What [`Self::send`] would hand to the stack.
    pub fn plan(&self, message: &Message, link_active: bool) -> (r: Result<SendPlan, LxmfNodeError>)
        requires
            self.wf(),
        ensures
            match (r, planned(self@, message@, link_active).1) {
                (Ok(plan), Ok(p)) => plan@ == p,
                (Err(a), Err(b)) => a == b,
                _ => false,
            },
    {
        let packed = message.pack();
        let representation = Self::representation_of(message.method, packed.len())?;
        match representation {
            DeliveryRepresentation::OpportunisticPacket => {
                match message.on_air() {
                    Ok(data) => Ok(
                        SendPlan::Packet { destination: message.destination_hash, data },
                    ),
                    Err(e) => Err(LxmfNodeError::Message(e)),
                }
            },
            DeliveryRepresentation::DirectPacket => {
                let link_id = self.live_direct_link(&message.destination_hash, link_active)?;
                Ok(SendPlan::LinkPacket { link_id, data: packed })
            },
            DeliveryRepresentation::DirectResource => {
                let link_id = self.live_direct_link(&message.destination_hash, link_active)?;
                Ok(
                    SendPlan::Resource {
                        link_id,
                        data: packed,
                        auto_compress: self.config.auto_compress_resources,
                    },
                )
            },
        }
    }

    /// What is to be handed to the stack for one opportunistic or direct
    /// message; what came of it is reported back with
    /// [`Self::record_packet`], [`Self::record_link_packet`] or
    /// [`Self::record_resource_submission`].
    ///
    /// An oversized opportunistic message is sent as a direct one. Without a
    /// direct link [`Self::ensure_direct_link`] comes first.
    pub fn send(&mut self, message: &Message, link_active: bool) -> (r: Result<
        SendPlan,
        LxmfNodeError,
    >)
        requires
            old(self).wf(),
        ensures
            final(self).wf(),
            final(self)@ == planned(old(self)@, message@, link_active).0,
            match (r, planned(old(self)@, message@, link_active).1) {
                (Ok(plan), Ok(p)) => plan@ == p,
                (Err(a), Err(b)) => a == b,
                _ => false,
            },
    {
        let r = self.plan(message, link_active);
        if let Err(LxmfNodeError::DirectLinkUnavailable) = &r {
            let _ = self.active_direct_link(&message.destination_hash, link_active);
        }
        r
    }

    /// Tracks a message that went out as a single packet.
    pub fn record_packet(&mut self, message_id: [u8; 32], packet_hash: [u8; 16]) -> (r:
        LxmfNodeOutput)
        requires
            old(self).wf(),
        ensures
            final(self).wf(),
            packet_sent(old(self)@, final(self)@, message_id, packet_hash, r),
    {
        let _ = self.packet_receipts.insert(packet_hash, message_id);
        LxmfNodeOutput {
            events: one(
                LxmfNodeEvent::Submitted {
                    message_id,
                    method: DeliveryMethod::Opportunistic,
                    representation: DeliveryRepresentation::OpportunisticPacket,
                    submission: SubmissionId::Packet(packet_hash),
                },
            ),
        }
    }

    /// Tracks a message that went out as one link packet.
    pub fn record_link_packet(
        &mut self,
        link_id: LinkId,
        message_id: [u8; 32],
        packet_hash: [u8; 32],
    ) -> (r: LxmfNodeOutput)
        requires
            old(self).wf(),
        ensures
            final(self).wf(),
            link_packet_sent(old(self)@, final(self)@, link_id, message_id, packet_hash, r),
    {
        let _ = self.link_packet_receipts.insert(
            packet_hash,
            PendingLinkPacket { message_id, link_id },
        );
        LxmfNodeOutput {
            events: one(
                LxmfNodeEvent::Submitted {
                    message_id,
                    method: DeliveryMethod::Direct,
                    representation: DeliveryRepresentation::DirectPacket,
                    submission: SubmissionId::LinkPacket(packet_hash),
                },
            ),
        }
    }

    /// Tracks a message that goes out as Resources.
    pub fn record_resource_submission(
        &mut self,
        link_id: LinkId,
        message_id: [u8; 32],
        resource_hash: [u8; 32],
        packed_len: usize,
    ) -> (r: LxmfNodeOutput)
        requires
            old(self).wf(),
        ensures
            final(self).wf(),
            final(self)@ == resource_submitted(
                old(self)@,
                link_id,
                message_id,
                resource_hash,
                packed_len as nat,
            ),
            notes(r.events@) == seq![resource_note(message_id, resource_hash)],
    {
        let current: usize = if packed_len <= RESOURCE_MAX_EFFICIENT_SIZE {
            packed_len
        } else {
            RESOURCE_MAX_EFFICIENT_SIZE
        };
        let _ = self.resources.insert(
            link_id,
            PendingResource {
                message_id,
                current_resource_hash: resource_hash,
                completed_size: 0,
                current_size: current as u64,
                total_size: packed_len as u64,
            },
        );
        LxmfNodeOutput {
            events: one(
                LxmfNodeEvent::Submitted {
                    message_id,
                    method: DeliveryMethod::Direct,
                    representation: DeliveryRepresentation::DirectResource,
                    submission: SubmissionId::Resource(resource_hash),
                },
            ),
        }
    }

    /// Resolves the link on which a message goes out as a Resource that is
    /// built apart from the adapter; `captured` says whether the stack could
    /// capture what a Resource on the link is built from.
    pub fn resource_send_params(
        &mut self,
        message: &Message,
        link_active: bool,
        captured: Result<(), ResourceError>,
    ) -> (r: Result<LxmfResourceSendParams, LxmfNodeError>)
        requires
            old(self).wf(),
        ensures
            final(self).wf(),
            resource_wanted(
                old(self)@,
                final(self)@,
                message.destination_hash,
                message.message_id,
                link_active,
                captured,
                r,
            ),
    {
        let link_id = self.active_direct_link(&message.destination_hash, link_active)?;
        match captured {
            Ok(()) => Ok(LxmfResourceSendParams { link_id, message_id: message.message_id }),
            Err(e) => Err(LxmfNodeError::Resource(e)),
        }
    }

    /// A message built into a transfer apart from the adapter; `built` says
    /// whether the stack could build one from the packed bytes.
    pub fn prepare_resource_send(
        params: &LxmfResourceSendParams,
        packed: &[u8],
        built: Result<(), ResourceError>,
    ) -> (r: Result<PreparedLxmfSend, LxmfNodeError>)
        ensures
            r == match built {
                Ok(_) => Ok::<PreparedLxmfSend, LxmfNodeError>(
                    PreparedLxmfSend {
                        link_id: params.link_id,
                        message_id: params.message_id,
                        packed_len: packed@.len() as usize,
                    },
                ),
                Err(e) => Err(LxmfNodeError::Resource(e)),
            },
    {
        match built {
            Ok(()) => Ok(
                PreparedLxmfSend {
                    link_id: params.link_id,
                    message_id: params.message_id,
                    packed_len: packed.len(),
                },
            ),
            Err(e) => Err(LxmfNodeError::Resource(e)),
        }
    }

    /// Tracks a transfer that was built apart from the adapter; `committed` is
    /// the hash of its Resource, or why the stack did not take it.
    pub fn commit_resource_send(
        &mut self,
        prepared: &PreparedLxmfSend,
        committed: Result<[u8; 32], ResourceError>,
    ) -> (r: Result<LxmfNodeOutput, LxmfNodeError>)
        requires
            old(self).wf(),
        ensures
            final(self).wf(),
            resource_sent(old(self)@, final(self)@, *prepared, committed, r),
    {
        match committed {
            Ok(hash) => Ok(
                self.record_resource_submission(
                    prepared.link_id,
                    prepared.message_id,
                    hash,
                    prepared.packed_len,
                ),
            ),
            Err(e) => Err(LxmfNodeError::Resource(e)),
        }
    }

    /// Stops tracking an outbound message. The links to close are those on
    /// which it was going out as a Resource: what has left an interface cannot
    /// be recalled, but the rest of a transfer is not sent.
    pub fn cancel_outbound(&mut self, message_id: &[u8; 32]) -> (r: Vec<LinkId>)
        requires
            old(self).wf(),
        ensures
            final(self).wf(),
            final(self)@ == cancelled(old(self)@, *message_id),
            r@ == crate::bytemap::keys_where(old(self)@.resources, sends(*message_id)),
    {
        let keep = |k: &[u8; 16], m: &[u8; 32]| -> (b: bool)
            ensures b == (*m != *message_id), { !same(m, message_id) };
        self.packet_receipts.retain(keep, Ghost(|k: [u8; 16], m: [u8; 32]| m != *message_id));
        let keep = |k: &[u8; 32], p: &PendingLinkPacket| -> (b: bool)
            ensures b == (p.message_id != *message_id), { !same(&p.message_id, message_id) };
        self.link_packet_receipts.retain(
            keep,
            Ghost(|k: [u8; 32], p: PendingLinkPacket| p.message_id != *message_id),
        );
        let test = |p: &PendingResource| -> (b: bool)
            ensures b == sends(*message_id)(*p), { same(&p.message_id, message_id) };
        let taken = self.resources.take_where(test, Ghost(sends(*message_id)));
        let mut links: Vec<LinkId> = Vec::new();
        let ghost keys = crate::bytemap::keys_where(old(self)@.resources, sends(*message_id));
        let mut i: usize = 0;
        while i < taken.len()
            invariant
                i <= taken@.len(),
                taken@.len() == keys.len(),
                forall|j: int| 0 <= j < keys.len() ==> (#[trigger] taken@[j]).0 == keys[j],
                links@ == keys.take(i as int),
            decreases taken@.len() - i,
        {
            links.push(taken[i].0);
            assert(links@ =~= keys.take(i + 1));
            i = i + 1;
        }
        proof {
            assert(links@ =~= keys);
            let c = cancelled(old(self)@, *message_id);
            assert(self@.receipts =~= c.receipts);
            assert(self@.link_receipts =~= c.link_receipts);
            assert(self@.resources =~= c.resources);
        }
        links
    }
}

// ---------------------------------------------------------------------------
// Events
// ---------------------------------------------------------------------------

/// An operation reported these notes, or this error.
pub open spec fn reports(
    r: Result<LxmfNodeOutput, LxmfNodeError>,
    s: Result<Seq<NodeNote>, LxmfNodeError>,
) -> bool {
    match (r, s) {
        (Ok(output), Ok(n)) => notes(output.events@) == n,
        (Err(a), Err(b)) => a == b,
        _ => false,
    }
}

/// The bytes of the message that an event completes, how it came, and the
/// destination that its packet names.
pub open spec fn arrival(c: Delivery, e: CoreEvent) -> Option<
    (Seq<u8>, DeliveryMethod, Option<DestinationHash>),
> {
    match e {
        CoreEvent::PacketReceived { destination, data } => if destination == c.home {
            Some((data@, DeliveryMethod::Opportunistic, Some(destination)))
        } else {
            None
        },
        CoreEvent::LinkDataReceived { link_id, data } => if c.owned.contains(link_id) {
            Some((data@, DeliveryMethod::Direct, None))
        } else {
            None
        },
        CoreEvent::ResourceCompleted {
            link_id,
            data,
            is_sender: false,
            segment_index,
            total_segments,
            ..
        } => if !c.owned.contains(link_id) || segment_index == 0 || segment_index
            != total_segments {
            None
        } else if total_segments == 1 {
            Some((data@, DeliveryMethod::Direct, None))
        } else if continues(c, link_id, segment_index, total_segments) {
            Some((c.partial[link_id].data + data@, DeliveryMethod::Direct, None))
        } else {
            None
        },
        _ => None,
    }
}

fn joined(a: &[u8], b: &[u8]) -> (r: Vec<u8>)
    ensures
        r@ == a@ + b@,
{
    let mut v: Vec<u8> = to_vec(a);
    v.extend_from_slice(b);
    assert(v@ =~= a@ + b@);
    v
}

impl LxmfNode {
    fn wants_link(&self, destination: &DestinationHash) -> (r: bool)
        requires
            self.wf(),
        ensures
            r == wants(self@, *destination),
    {
        self.wanted_links.contains(destination) && !self.pending_links.contains(destination)
    }

    fn is_home(&self, destination: &DestinationHash) -> (r: bool)
        ensures
            r == (*destination == self@.home),
    {
        same(destination, &self.delivery_destination)
    }

    fn delivers_on(&self, link_id: &LinkId, facts: &Facts) -> (r: bool)
        requires
            self.wf(),
        ensures
            r == delivers(self@, *link_id, *facts),
    {
        match facts.link_destination {
            Some(d) => same(&d, &self.delivery_destination) || self.link_destinations.contains(
                link_id,
            ),
            None => self.link_destinations.contains(link_id),
        }
    }

    fn accepts_size(&self, data_size: u64) -> (r: bool)
        ensures
            r == acceptable(self@, data_size),
    {
        match self.config.max_incoming_resource_size {
            Some(limit) => data_size <= limit,
            None => true,
        }
    }

    fn can_identify(&self, link_id: &LinkId, facts: &Facts) -> (r: bool)
        requires
            self.wf(),
        ensures
            r == identifies(self@, *link_id, *facts),
    {
        !self.identified_links.contains(link_id) && facts.link_initiator && facts.has_identity
    }

    /// The message whose delivery an event reports.
    pub fn concluded(&self, event: &CoreEvent) -> (r: Option<[u8; 32]>)
        requires
            self.wf(),
        ensures
            r == concluding(self@, *event),
    {
        match event {
            CoreEvent::PacketDeliveryConfirmed { packet_hash } => {
                match self.packet_receipts.get(packet_hash) {
                    Some(id) => Some(*id),
                    None => None,
                }
            },
            CoreEvent::LinkDeliveryConfirmed { packet_hash, .. } => {
                match self.link_packet_receipts.get(packet_hash) {
                    Some(pending) => Some(pending.message_id),
                    None => None,
                }
            },
            CoreEvent::ResourceCompleted { link_id, is_sender: true, .. } => {
                match self.resources.get(link_id) {
                    Some(pending) => Some(pending.message_id),
                    None => None,
                }
            },
            _ => None,
        }
    }

    /// The call into the stack that an event demands. Its result belongs into
    /// the facts that are given to [`Self::handle_event`].
    pub fn call_for(&self, event: &CoreEvent, facts: &Facts) -> (r: Option<CoreCall>)
        requires
            self.wf(),
        ensures
            r == demand(self@, *event, *facts),
    {
        match event {
            CoreEvent::AnnounceReceived { destination, aspect: Aspect::Delivery, .. } => {
                if self.wants_link(destination) && facts.has_path && facts.identity_known {
                    Some(CoreCall::Connect { destination: *destination })
                } else {
                    None
                }
            },
            CoreEvent::PathFound { destination } => {
                if self.wants_link(destination) && facts.identity_known {
                    Some(CoreCall::Connect { destination: *destination })
                } else {
                    None
                }
            },
            CoreEvent::LinkEstablished { link_id, .. } => {
                if self.delivers_on(link_id, facts) {
                    Some(CoreCall::DecideResources { link_id: *link_id })
                } else {
                    None
                }
            },
            CoreEvent::PacketProofRequested { packet_hash, destination, interface_index } => {
                if self.is_home(destination) {
                    Some(
                        CoreCall::ProvePacket {
                            packet_hash: *packet_hash,
                            destination: *destination,
                            interface_index: *interface_index,
                        },
                    )
                } else {
                    None
                }
            },
            CoreEvent::LinkProofRequested { link_id, packet_hash } => {
                if self.lxmf_links.contains(link_id) {
                    Some(CoreCall::ProveLinkData { link_id: *link_id, packet_hash: *packet_hash })
                } else {
                    None
                }
            },
            CoreEvent::ResourceAdvertised { link_id, data_size, .. } => {
                if !self.lxmf_links.contains(link_id) {
                    None
                } else if self.accepts_size(*data_size) {
                    Some(CoreCall::AcceptResource { link_id: *link_id })
                } else {
                    Some(CoreCall::RejectResource { link_id: *link_id })
                }
            },
            CoreEvent::ResourceCompleted { link_id, is_sender: true, .. } => {
                if self.resources.contains(link_id) && self.can_identify(link_id, facts) {
                    Some(CoreCall::IdentifyLink { link_id: *link_id })
                } else {
                    None
                }
            },
            CoreEvent::ResourceFailed { link_id, error, is_sender: true, .. } => {
                if self.resources.contains(link_id) && *error != ResourceError::Cancelled && *error
                    != ResourceError::LinkClosed {
                    Some(CoreCall::CloseLink { link_id: *link_id })
                } else {
                    None
                }
            },
            CoreEvent::LinkDeliveryConfirmed { link_id, packet_hash } => {
                if self.link_packet_receipts.contains(packet_hash) && self.can_identify(
                    link_id,
                    facts,
                ) {
                    Some(CoreCall::IdentifyLink { link_id: *link_id })
                } else {
                    None
                }
            },
            CoreEvent::LinkDeliveryFailed { link_id, packet_hash } => {
                if self.link_packet_receipts.contains(packet_hash) {
                    Some(CoreCall::CloseLink { link_id: *link_id })
                } else {
                    None
                }
            },
            _ => None,
        }
    }

    /// The message that an event completes, with a signature still to be
    /// checked; the outcome of the check belongs into the facts that are given
    /// to [`Self::handle_event`].
    pub fn arriving(&self, event: &CoreEvent) -> (r: Option<Result<Message, MessageError>>)
        requires
            self.wf(),
        ensures
            match (r, arrival(self@, *event)) {
                (Some(m), Some((data, method, inferred))) => {
                    &&& crate::message::unpacked(data, inferred, method, m)
                    &&& m matches Ok(m) ==> m.verification
                        == crate::message::Verification::Unverified
                },
                (None, None) => true,
                _ => false,
            },
    {
        match event {
            CoreEvent::PacketReceived { destination, data } => {
                if self.is_home(destination) {
                    Some(
                        Message::unpack_unverified(
                            data.as_slice(),
                            Some(*destination),
                            DeliveryMethod::Opportunistic,
                        ),
                    )
                } else {
                    None
                }
            },
            CoreEvent::LinkDataReceived { link_id, data } => {
                if self.lxmf_links.contains(link_id) {
                    Some(Message::unpack_unverified(data.as_slice(), None, DeliveryMethod::Direct))
                } else {
                    None
                }
            },
            CoreEvent::ResourceCompleted {
                link_id,
                data,
                is_sender: false,
                segment_index,
                total_segments,
                ..
            } => {
                if !self.lxmf_links.contains(link_id) || *segment_index == 0 || *segment_index
                    != *total_segments {
                    return None;
                }
                if *total_segments == 1 {
                    return Some(
                        Message::unpack_unverified(data.as_slice(), None, DeliveryMethod::Direct),
                    );
                }
                match self.incoming_resources.get(link_id) {
                    Some(a) => {
                        if a.next_segment == *segment_index && a.total_segments == *total_segments {
                            let whole = joined(a.data.as_slice(), data.as_slice());
                            Some(
                                Message::unpack_unverified(
                                    whole.as_slice(),
                                    None,
                                    DeliveryMethod::Direct,
                                ),
                            )
                        } else {
                            None
                        }
                    },
                    None => None,
                }
            },
            _ => None,
        }
    }

    /// How far the message on a link is once one of its Resources has moved
    /// on; the share of the whole belongs into the facts that are given to
    /// [`Self::handle_event`].
    pub fn portion(&self, event: &CoreEvent) -> (r: Option<Portion>)
        requires
            self.wf(),
        ensures
            portion_of(self@, *event, r),
    {
        match event {
            CoreEvent::ResourceProgress {
                link_id,
                resource_hash,
                progress,
                data_size,
                is_sender: true,
                ..
            } => {
                match self.resources.get(link_id) {
                    Some(pending) => {
                        let p = next_portion(pending, resource_hash, *data_size);
                        Some(
                            Portion {
                                completed_size: p.completed_size,
                                current_size: p.current_size,
                                total_size: p.total_size,
                                progress: *progress,
                            },
                        )
                    },
                    None => None,
                }
            },
            _ => None,
        }
    }

    fn emit_inbound(
        &self,
        data: &[u8],
        method: DeliveryMethod,
        inferred_destination: Option<DestinationHash>,
        check: SignatureCheck,
    ) -> (r: LxmfNodeEvent)
        ensures
            r@ == emitted(self@, data@, method, inferred_destination, check),
    {
        match Message::unpack(data, inferred_destination, check, method) {
            Ok(message) => {
                if self.is_home(&message.destination_hash) {
                    LxmfNodeEvent::MessageReceived(message)
                } else {
                    LxmfNodeEvent::InboundRejected {
                        method,
                        reason: InboundRejection::WrongDestination,
                    }
                }
            },
            Err(e) => LxmfNodeEvent::InboundRejected {
                method,
                reason: InboundRejection::Message(e),
            },
        }
    }

    fn on_established(&mut self, link_id: LinkId, is_initiator: bool, facts: &Facts) -> (r: Result<
        LxmfNodeOutput,
        LxmfNodeError,
    >)
        requires
            old(self).wf(),
        ensures
            final(self).wf(),
            final(self)@ == established(old(self)@, link_id, is_initiator, *facts).0,
            reports(r, established(old(self)@, link_id, is_initiator, *facts).1),
    {
        if !self.delivers_on(&link_id, facts) {
            return Ok(LxmfNodeOutput { events: none() });
        }
        let destination = if !is_initiator {
            None
        } else {
            match self.link_destinations.get(&link_id) {
                Some(d) => Some(*d),
                None => facts.link_destination,
            }
        };
        let _ = self.lxmf_links.insert(link_id, ());
        assert(self@.owned =~= old(self)@.owned.insert(link_id));
        if let Some(e) = facts.refused {
            return Err(LxmfNodeError::Resource(e));
        }
        if let Some(d) = destination {
            let _ = self.pending_links.remove(&d);
            let _ = self.direct_links.insert(d, link_id);
            let _ = self.link_destinations.insert(link_id, d);
        }
        Ok(
            LxmfNodeOutput {
                events: one(
                    LxmfNodeEvent::DirectLinkEstablished { destination, link_id, is_initiator },
                ),
            },
        )
    }

    fn handle_resource_segment(
        &mut self,
        link_id: LinkId,
        data: &[u8],
        segment_index: u32,
        total_segments: u32,
        check: SignatureCheck,
    ) -> (r: Vec<LxmfNodeEvent>)
        requires
            old(self).wf(),
        ensures
            final(self).wf(),
            (final(self)@, notes(r@)) == segment(
                old(self)@,
                link_id,
                data@,
                segment_index,
                total_segments,
                check,
            ),
    {
        if segment_index == 0 || total_segments == 0 || segment_index > total_segments {
            self.drop_partial(&link_id);
            return one(
                LxmfNodeEvent::InboundRejected {
                    method: DeliveryMethod::Direct,
                    reason: InboundRejection::ResourceSequence,
                },
            );
        }
        if total_segments == 1 {
            return one(self.emit_inbound(data, DeliveryMethod::Direct, None, check));
        }
        if segment_index == 1 {
            let assembly = IncomingResourceAssembly {
                next_segment: 2,
                total_segments,
                data: to_vec(data),
            };
            let _ = self.incoming_resources.insert(link_id, assembly);
            assert(self@.partial =~= old(self)@.partial.insert(link_id, assembly@));
            return none();
        }
        let whole: Option<Vec<u8>> = match self.incoming_resources.get(&link_id) {
            Some(a) => {
                if a.next_segment == segment_index && a.total_segments == total_segments {
                    Some(joined(a.data.as_slice(), data))
                } else {
                    None
                }
            },
            None => None,
        };
        match whole {
            None => {
                self.drop_partial(&link_id);
                one(
                    LxmfNodeEvent::InboundRejected {
                        method: DeliveryMethod::Direct,
                        reason: InboundRejection::ResourceSequence,
                    },
                )
            },
            Some(whole) => {
                if segment_index == total_segments {
                    let event = self.emit_inbound(
                        whole.as_slice(),
                        DeliveryMethod::Direct,
                        None,
                        check,
                    );
                    self.drop_partial(&link_id);
                    one(event)
                } else {
                    let assembly = IncomingResourceAssembly {
                        next_segment: segment_index.saturating_add(1),
                        total_segments,
                        data: whole,
                    };
                    let _ = self.incoming_resources.insert(link_id, assembly);
                    assert(self@.partial =~= old(self)@.partial.insert(link_id, assembly@));
                    none()
                }
            },
        }
    }

    fn drop_partial(&mut self, link_id: &LinkId)
        requires
            old(self).wf(),
        ensures
            final(self).wf(),
            final(self)@ == (Delivery { partial: old(self)@.partial.remove(*link_id), ..old(self)@ }),
    {
        let _ = self.incoming_resources.remove(link_id);
        assert(self@.partial =~= old(self)@.partial.remove(*link_id));
    }

    fn identify_backchannel(&mut self, link_id: LinkId, facts: &Facts)
        requires
            old(self).wf(),
        ensures
            final(self).wf(),
            final(self)@ == presented(old(self)@, link_id, *facts),
    {
        if self.can_identify(&link_id, facts) && facts.refused.is_none() {
            let _ = self.identified_links.insert(link_id, ());
            assert(self@.identified =~= old(self)@.identified.insert(link_id));
        }
    }

    /// Forgets a link that was closed and reports the messages it took with
    /// it.
    pub fn handle_link_closed(&mut self, link_id: LinkId, reason: LinkCloseReason) -> (r: Vec<
        LxmfNodeEvent,
    >)
        requires
            old(self).wf(),
        ensures
            final(self).wf(),
            final(self)@ == forgotten(old(self)@, link_id),
            notes(r@) == losses(old(self)@, link_id, reason),
    {
        let ghost c = old(self)@;
        let _ = self.lxmf_links.remove(&link_id);
        let _ = self.identified_links.remove(&link_id);
        self.drop_partial(&link_id);
        let keep = |k: &[u8; 32], t: &IncomingResourceTransfer| -> (b: bool)
            ensures b == (t.link_id != link_id), { !same(&t.link_id, &link_id) };
        self.incoming_resource_transfers.retain(
            keep,
            Ghost(|k: [u8; 32], t: IncomingResourceTransfer| t.link_id != link_id),
        );
        let _ = self.link_destinations.remove(&link_id);
        let keep = |k: &[u8; 16], l: &LinkId| -> (b: bool)
            ensures b == (*l != link_id), { !same(l, &link_id) };
        self.pending_links.retain(keep, Ghost(|k: DestinationHash, l: LinkId| l != link_id));
        let keep = |k: &[u8; 16], l: &LinkId| -> (b: bool)
            ensures b == (*l != link_id), { !same(l, &link_id) };
        self.direct_links.retain(keep, Ghost(|k: DestinationHash, l: LinkId| l != link_id));
        let test = |p: &PendingLinkPacket| -> (b: bool)
            ensures b == on_link(link_id)(*p), { same(&p.link_id, &link_id) };
        let taken = self.link_packet_receipts.take_where(test, Ghost(on_link(link_id)));
        let ghost keys = crate::bytemap::keys_where(c.link_receipts, on_link(link_id));
        let ghost told = keys.map_values(
            |k: [u8; 32]| lost(c.link_receipts[k].message_id, reason),
        );
        let mut events: Vec<LxmfNodeEvent> = none();
        let mut i: usize = 0;
        while i < taken.len()
            invariant
                i <= taken@.len(),
                taken@ == keys.map_values(|k: [u8; 32]| (k, c.link_receipts[k])),
                told == keys.map_values(
                    |k: [u8; 32]| lost(c.link_receipts[k].message_id, reason),
                ),
                notes(events@) == told.take(i as int),
            decreases taken@.len() - i,
        {
            let event = LxmfNodeEvent::DeliveryFailed {
                message_id: taken[i].1.message_id,
                reason: DeliveryFailure::LinkClosed(reason),
            };
            let ghost before = events@;
            events.push(event);
            proof {
                assert(notes(events@) =~= notes(before).push(event@));
                assert(told.take(i + 1) =~= told.take(i as int).push(told[i as int]));
            }
            i = i + 1;
        }
        assert(told.take(told.len() as int) =~= told);
        match self.resources.remove(&link_id) {
            Some(pending) => {
                let event = LxmfNodeEvent::DeliveryFailed {
                    message_id: pending.message_id,
                    reason: DeliveryFailure::LinkClosed(reason),
                };
                let ghost before = events@;
                events.push(event);
                assert(notes(events@) =~= notes(before).push(event@));
            },
            None => {},
        }
        proof {
            let next = forgotten(c, link_id);
            assert(self@.owned =~= next.owned);
            assert(self@.identified =~= next.identified);
            assert(self@.incoming =~= next.incoming);
            assert(self@.pending =~= next.pending);
            assert(self@.direct =~= next.direct);
            assert(self@.link_receipts =~= next.link_receipts);
        }
        events
    }

    fn on_resource_event(&mut self, event: &CoreEvent, facts: &Facts) -> (r: Result<
        LxmfNodeOutput,
        LxmfNodeError,
    >)
        requires
            old(self).wf(),
            event is ResourceAdvertised || event is ResourceTransferStarted
                || event is ResourceProgress || event is ResourceCompleted
                || event is ResourceFailed,
        ensures
            final(self).wf(),
            final(self)@ == step(old(self)@, *event, *facts).0,
            reports(r, step(old(self)@, *event, *facts).1),
    {
        let events = match event {
            CoreEvent::ResourceAdvertised { link_id, resource_hash, transfer_size, data_size } => {
                if !self.lxmf_links.contains(link_id) {
                    none()
                } else {
                    if let Some(e) = facts.refused {
                        return Err(LxmfNodeError::Resource(e));
                    }
                    if self.accepts_size(*data_size) {
                        let _ = self.incoming_resource_transfers.insert(
                            *resource_hash,
                            IncomingResourceTransfer {
                                link_id: *link_id,
                                resource_hash: *resource_hash,
                                transfer_size: *transfer_size,
                                data_size: *data_size,
                                progress: 0,
                            },
                        );
                        none()
                    } else {
                        one(
                            LxmfNodeEvent::InboundRejected {
                                method: DeliveryMethod::Direct,
                                reason: InboundRejection::ResourceTooLarge,
                            },
                        )
                    }
                }
            },
            CoreEvent::ResourceTransferStarted { link_id, resource_hash, is_sender: false } => {
                if self.lxmf_links.contains(link_id) && !self.incoming_resource_transfers.contains(
                    resource_hash,
                ) {
                    let _ = self.incoming_resource_transfers.insert(
                        *resource_hash,
                        IncomingResourceTransfer {
                            link_id: *link_id,
                            resource_hash: *resource_hash,
                            transfer_size: 0,
                            data_size: 0,
                            progress: 0,
                        },
                    );
                }
                none()
            },
            CoreEvent::ResourceProgress {
                link_id,
                resource_hash,
                progress,
                transfer_size,
                data_size,
                is_sender,
            } => {
                if *is_sender {
                    match self.resources.index_of(link_id) {
                        Some(i) => {
                            let p = next_portion(
                                &self.resources.entries[i].1,
                                resource_hash,
                                *data_size,
                            );
                            self.resources.set_at(i, p);
                            let share: u32 = if p.total_size == 0 {
                                0
                            } else {
                                facts.overall
                            };
                            one(
                                LxmfNodeEvent::Progress {
                                    message_id: p.message_id,
                                    progress: share,
                                },
                            )
                        },
                        None => none(),
                    }
                } else {
                    if self.lxmf_links.contains(link_id) {
                        let _ = self.incoming_resource_transfers.insert(
                            *resource_hash,
                            IncomingResourceTransfer {
                                link_id: *link_id,
                                resource_hash: *resource_hash,
                                transfer_size: *transfer_size,
                                data_size: *data_size,
                                progress: *progress,
                            },
                        );
                    }
                    none()
                }
            },
            CoreEvent::ResourceCompleted {
                link_id,
                resource_hash,
                data,
                is_sender,
                segment_index,
                total_segments,
            } => {
                if *is_sender {
                    match self.resources.remove(link_id) {
                        Some(pending) => {
                            self.identify_backchannel(*link_id, facts);
                            one(LxmfNodeEvent::Delivered { message_id: pending.message_id })
                        },
                        None => none(),
                    }
                } else if self.lxmf_links.contains(link_id) {
                    let _ = self.incoming_resource_transfers.remove(resource_hash);
                    self.handle_resource_segment(
                        *link_id,
                        data.as_slice(),
                        *segment_index,
                        *total_segments,
                        facts.signature,
                    )
                } else {
                    none()
                }
            },
            CoreEvent::ResourceFailed { link_id, resource_hash, error, is_sender } => {
                if *is_sender {
                    match self.resources.remove(link_id) {
                        Some(pending) => one(
                            LxmfNodeEvent::DeliveryFailed {
                                message_id: pending.message_id,
                                reason: DeliveryFailure::Resource(*error),
                            },
                        ),
                        None => none(),
                    }
                } else if self.lxmf_links.contains(link_id) {
                    self.drop_partial(link_id);
                    let _ = self.incoming_resource_transfers.remove(resource_hash);
                    one(
                        LxmfNodeEvent::InboundRejected {
                            method: DeliveryMethod::Direct,
                            reason: InboundRejection::Resource(*error),
                        },
                    )
                } else {
                    none()
                }
            },
            _ => none(),
        };
        Ok(LxmfNodeOutput { events })
    }

    /// Maps one report of the stack to delivery state and LXMF-level events.
    pub fn handle_event(&mut self, event: &CoreEvent, facts: &Facts) -> (r: Result<
        LxmfNodeOutput,
        LxmfNodeError,
    >)
        requires
            old(self).wf(),
        ensures
            final(self).wf(),
            final(self)@ == step(old(self)@, *event, *facts).0,
            reports(r, step(old(self)@, *event, *facts).1),
    {
        let events = match event {
            CoreEvent::AnnounceReceived { destination, aspect: Aspect::Delivery, .. } => {
                let events = one(LxmfNodeEvent::PeerAnnounced { destination: *destination });
                if self.wants_link(destination) && facts.has_path {
                    self.start_direct_link(*destination, facts)?;
                }
                events
            },
            CoreEvent::PathFound { destination } => {
                if self.wants_link(destination) {
                    self.start_direct_link(*destination, facts)?;
                }
                none()
            },
            CoreEvent::LinkEstablished { link_id, is_initiator } => {
                return self.on_established(*link_id, *is_initiator, facts);
            },
            CoreEvent::LinkIdentified { link_id, peer } => {
                if self.lxmf_links.contains(link_id) {
                    let _ = self.direct_links.insert(*peer, *link_id);
                    let _ = self.link_destinations.insert(*link_id, *peer);
                    one(
                        LxmfNodeEvent::DirectLinkEstablished {
                            destination: Some(*peer),
                            link_id: *link_id,
                            is_initiator: false,
                        },
                    )
                } else {
                    none()
                }
            },
            CoreEvent::PacketProofRequested { destination, .. } => {
                if self.is_home(destination) && facts.refused.is_some() {
                    return Err(LxmfNodeError::ProofFailed);
                }
                none()
            },
            CoreEvent::LinkProofRequested { link_id, .. } => {
                if self.lxmf_links.contains(link_id) && facts.refused.is_some() {
                    return Err(LxmfNodeError::ProofFailed);
                }
                none()
            },
            CoreEvent::PacketReceived { destination, data } => {
                if self.is_home(destination) {
                    one(
                        self.emit_inbound(
                            data.as_slice(),
                            DeliveryMethod::Opportunistic,
                            Some(*destination),
                            facts.signature,
                        ),
                    )
                } else {
                    none()
                }
            },
            CoreEvent::LinkDataReceived { link_id, data } => {
                if self.lxmf_links.contains(link_id) {
                    one(
                        self.emit_inbound(
                            data.as_slice(),
                            DeliveryMethod::Direct,
                            None,
                            facts.signature,
                        ),
                    )
                } else {
                    none()
                }
            },
            CoreEvent::ResourceAdvertised { .. }
            | CoreEvent::ResourceTransferStarted { .. }
            | CoreEvent::ResourceProgress { .. }
            | CoreEvent::ResourceCompleted { .. }
            | CoreEvent::ResourceFailed { .. } => {
                return self.on_resource_event(event, facts);
            },
            CoreEvent::PacketDeliveryConfirmed { packet_hash } => {
                match self.packet_receipts.remove(packet_hash) {
                    Some(message_id) => one(LxmfNodeEvent::Delivered { message_id }),
                    None => none(),
                }
            },
            CoreEvent::DeliveryFailed { packet_hash, error } => {
                match self.packet_receipts.remove(packet_hash) {
                    Some(message_id) => one(
                        LxmfNodeEvent::DeliveryFailed {
                            message_id,
                            reason: DeliveryFailure::Opportunistic(*error),
                        },
                    ),
                    None => none(),
                }
            },
            CoreEvent::LinkDeliveryConfirmed { link_id, packet_hash } => {
                match self.link_packet_receipts.remove(packet_hash) {
                    Some(pending) => {
                        self.identify_backchannel(*link_id, facts);
                        one(LxmfNodeEvent::Delivered { message_id: pending.message_id })
                    },
                    None => none(),
                }
            },
            CoreEvent::LinkDeliveryFailed { packet_hash, .. } => {
                match self.link_packet_receipts.remove(packet_hash) {
                    Some(pending) => one(
                        LxmfNodeEvent::DeliveryFailed {
                            message_id: pending.message_id,
                            reason: DeliveryFailure::DirectPacketTimeout,
                        },
                    ),
                    None => none(),
                }
            },
            CoreEvent::LinkClosed { link_id, reason, .. } => self.handle_link_closed(
                *link_id,
                *reason,
            ),
            _ => none(),
        };
        Ok(LxmfNodeOutput { events })
    }
}

fn next_portion(pending: &PendingResource, resource_hash: &[u8; 32], data_size: u64) -> (r:
    PendingResource)
    ensures
        r == moved_on(*pending, *resource_hash, data_size),
{
    let mut p = *pending;
    if !same(&p.current_resource_hash, resource_hash) {
        p.completed_size = p.completed_size.saturating_add(p.current_size);
        p.current_resource_hash = *resource_hash;
        p.current_size = data_size;
    }
    p
}

// ---------------------------------------------------------------------------
// Laws
// ---------------------------------------------------------------------------

/// The messages of which an end is still to be reported: by packet receipt, by
/// link packet, by Resource.
pub open spec fn in_flight(c: Delivery, message_id: [u8; 32]) -> bool {
    ||| exists|k: [u8; 16]| #[trigger] c.receipts.contains_key(k) && c.receipts[k] == message_id
    ||| exists|k: [u8; 32]| #[trigger]
        c.link_receipts.contains_key(k) && c.link_receipts[k].message_id == message_id
    ||| exists|k: LinkId| #[trigger]
        c.resources.contains_key(k) && c.resources[k].message_id == message_id
}

pub open spec fn ends(note: NodeNote, message_id: [u8; 32]) -> bool {
    match note {
        NodeNote::Delivered { message_id: m } => m == message_id,
        NodeNote::DeliveryFailed { message_id: m, .. } => m == message_id,
        _ => false,
    }
}

/// A delivery or a failure is reported only of a message that is in flight.
pub proof fn law_only_sent_messages_end(
    c: Delivery,
    e: CoreEvent,
    f: Facts,
    i: int,
    message_id: [u8; 32],
)
    requires
        c.link_receipts.dom().finite(),
        step(c, e, f).1 is Ok,
        0 <= i < step(c, e, f).1->Ok_0.len(),
        ends(step(c, e, f).1->Ok_0[i], message_id),
    ensures
        in_flight(c, message_id),
{
    match e {
        CoreEvent::PacketDeliveryConfirmed { packet_hash } => {
            assert(c.receipts.contains_key(packet_hash));
        },
        CoreEvent::DeliveryFailed { packet_hash, .. } => {
            assert(c.receipts.contains_key(packet_hash));
        },
        CoreEvent::LinkDeliveryConfirmed { packet_hash, .. } => {
            assert(c.link_receipts.contains_key(packet_hash));
        },
        CoreEvent::LinkDeliveryFailed { packet_hash, .. } => {
            assert(c.link_receipts.contains_key(packet_hash));
        },
        CoreEvent::ResourceCompleted { link_id, is_sender, .. } => {
            if is_sender {
                assert(c.resources.contains_key(link_id));
            }
        },
        CoreEvent::ResourceFailed { link_id, is_sender, .. } => {
            if is_sender {
                assert(c.resources.contains_key(link_id));
            }
        },
        CoreEvent::LinkClosed { link_id, .. } => {
            let keys = crate::bytemap::keys_where(c.link_receipts, on_link(link_id));
            if i < keys.len() {
                crate::bytemap::lemma_keys_where(c.link_receipts, on_link(link_id), i);
                assert(c.link_receipts.contains_key(keys[i]));
            } else {
                assert(c.resources.contains_key(link_id));
            }
        },
        _ => {},
    }
}

/// No event puts a message in flight: once its last end has been reported it
/// is not reported again.
pub proof fn law_events_send_nothing(c: Delivery, e: CoreEvent, f: Facts, message_id: [u8; 32])
    ensures
        in_flight(step(c, e, f).0, message_id) ==> in_flight(c, message_id),
{
    let next = step(c, e, f).0;
    if in_flight(next, message_id) {
        if exists|k: [u8; 16]| #[trigger]
            next.receipts.contains_key(k) && next.receipts[k] == message_id {
            let k = choose|k: [u8; 16]| #[trigger]
                next.receipts.contains_key(k) && next.receipts[k] == message_id;
            assert(c.receipts.contains_key(k));
        } else if exists|k: [u8; 32]| #[trigger]
            next.link_receipts.contains_key(k) && next.link_receipts[k].message_id == message_id {
            let k = choose|k: [u8; 32]| #[trigger]
                next.link_receipts.contains_key(k) && next.link_receipts[k].message_id
                    == message_id;
            assert(c.link_receipts.contains_key(k));
        } else {
            let k = choose|k: LinkId| #[trigger]
                next.resources.contains_key(k) && next.resources[k].message_id == message_id;
            assert(c.resources.contains_key(k));
        }
    }
}

/// A cancelled message is no longer in flight.
pub proof fn law_cancelled_is_not_in_flight(c: Delivery, message_id: [u8; 32])
    ensures
        !in_flight(cancelled(c, message_id), message_id),
{
}

/// Once a link is closed nothing of it is left.
pub proof fn law_closed_link_is_forgotten(
    c: Delivery,
    link: LinkId,
    reason: LinkCloseReason,
    is_initiator: bool,
    destination: DestinationHash,
    f: Facts,
)
    ensures
        ({
            let next = step(
                c,
                CoreEvent::LinkClosed { link_id: link, reason, is_initiator, destination },
                f,
            ).0;
            &&& !next.owned.contains(link)
            &&& !next.identified.contains(link)
            &&& !next.links.contains_key(link)
            &&& !next.resources.contains_key(link)
            &&& !next.partial.contains_key(link)
            &&& forall|d: DestinationHash| #[trigger]
                next.pending.contains_key(d) ==> next.pending[d] != link
            &&& forall|d: DestinationHash| #[trigger]
                next.direct.contains_key(d) ==> next.direct[d] != link
            &&& forall|k: [u8; 32]| #[trigger]
                next.incoming.contains_key(k) ==> next.incoming[k].link_id != link
            &&& forall|k: [u8; 32]| #[trigger]
                next.link_receipts.contains_key(k) ==> next.link_receipts[k].link_id != link
        }),
{
}

/// Only what is addressed to the local delivery destination is passed on.
pub proof fn law_messages_are_for_home(c: Delivery, e: CoreEvent, f: Facts, i: int)
    requires
        step(c, e, f).1 is Ok,
        0 <= i < step(c, e, f).1->Ok_0.len(),
        c.link_receipts.dom().finite(),
    ensures
        step(c, e, f).1->Ok_0[i] matches NodeNote::MessageReceived(mail) ==> mail.destination
            == c.home,
{
}

/// The bytes of several parts, one after the other.
pub open spec fn whole(parts: Seq<Seq<u8>>) -> Seq<u8>
    decreases parts.len(),
{
    if parts.len() == 0 {
        seq![]
    } else {
        whole(parts.drop_last()) + parts.last()
    }
}

/// The first `n` parts of a message have come in on a link, in order.
pub open spec fn brought(
    c: Delivery,
    link: LinkId,
    parts: Seq<Seq<u8>>,
    n: nat,
    check: SignatureCheck,
) -> (Delivery, Seq<NodeNote>)
    decreases n,
{
    if n == 0 {
        (c, seq![])
    } else {
        let (mid, out) = brought(c, link, parts, (n - 1) as nat, check);
        let (next, more) = segment(
            mid,
            link,
            parts[n - 1],
            n as u32,
            parts.len() as u32,
            check,
        );
        (next, out + more)
    }
}

proof fn lemma_brought(
    c: Delivery,
    link: LinkId,
    parts: Seq<Seq<u8>>,
    n: nat,
    check: SignatureCheck,
)
    requires
        1 <= n < parts.len() <= u32::MAX,
    ensures
        brought(c, link, parts, n, check) == (
            Delivery {
                partial: c.partial.insert(
                    link,
                    Partial {
                        next: (n + 1) as u32,
                        total: parts.len() as u32,
                        data: whole(parts.take(n as int)),
                    },
                ),
                ..c
            },
            Seq::<NodeNote>::empty(),
        ),
    decreases n,
{
    assert(parts.take(n as int).drop_last() =~= parts.take(n - 1));
    if n == 1 {
        assert(brought(c, link, parts, 0, check) == (c, Seq::<NodeNote>::empty()));
        assert(parts.take(0) =~= Seq::<Seq<u8>>::empty());
        assert(whole(parts.take(1)) =~= parts[0]);
    } else {
        lemma_brought(c, link, parts, (n - 1) as nat, check);
        let mid = brought(c, link, parts, (n - 1) as nat, check).0;
        let end = brought(c, link, parts, n, check).0;
        assert(end.partial =~= c.partial.insert(
            link,
            Partial {
                next: (n + 1) as u32,
                total: parts.len() as u32,
                data: whole(parts.take(n as int)),
            },
        ));
    }
    assert(brought(c, link, parts, n, check).1 =~= Seq::<NodeNote>::empty());
}

/// An incoming message that is split into Resources, however many, is passed
/// on exactly as if its parts had come in one, and only when the last is there.
pub proof fn law_parts_make_the_whole(
    c: Delivery,
    link: LinkId,
    parts: Seq<Seq<u8>>,
    n: nat,
    check: SignatureCheck,
)
    requires
        1 <= parts.len() <= u32::MAX,
        n <= parts.len(),
    ensures
        brought(c, link, parts, n, check).1 == if n < parts.len() {
            Seq::<NodeNote>::empty()
        } else {
            segment(c, link, whole(parts), 1, 1, check).1
        },
        n == parts.len() && n > 1 ==> brought(c, link, parts, n, check).0.partial
            == c.partial.remove(link),
{
    if n == parts.len() {
        assert(parts.take(n as int) =~= parts);
        assert(parts.drop_last() =~= parts.take(n - 1));
        if n == 1 {
            assert(brought(c, link, parts, 0, check) == (c, Seq::<NodeNote>::empty()));
            assert(parts.take(0) =~= Seq::<Seq<u8>>::empty());
            assert(whole(parts) =~= parts[0]);
            assert(brought(c, link, parts, 1, check).1 =~= segment(
                c,
                link,
                whole(parts),
                1,
                1,
                check,
            ).1);
        } else {
            lemma_brought(c, link, parts, (n - 1) as nat, check);
            assert(brought(c, link, parts, n, check).1 =~= segment(
                c,
                link,
                whole(parts),
                1,
                1,
                check,
            ).1);
            assert(brought(c, link, parts, n, check).0.partial =~= c.partial.remove(link));
        }
    } else if n > 0 {
        lemma_brought(c, link, parts, n, check);
    }
}

/// Every representation but the Resource fits its packet.
pub proof fn law_packets_fit(method: DeliveryMethod, len: nat)
    ensures
        match represented(method, len) {
            Ok(DeliveryRepresentation::OpportunisticPacket) => len <= OPPORTUNISTIC_PACKET_MDU
                + DESTINATION_LENGTH,
            Ok(DeliveryRepresentation::DirectPacket) => len <= DIRECT_PACKET_MDU,
            Ok(DeliveryRepresentation::DirectResource) => len > DIRECT_PACKET_MDU,
            Err(_) => method == DeliveryMethod::Propagated || method == DeliveryMethod::Paper,
        },
{
}

/// A message is reported as delivered exactly by the event that concludes it.
pub proof fn law_concluded_is_delivered(c: Delivery, e: CoreEvent, f: Facts, id: [u8; 32])
    ensures
        concluding(c, e) == Some(id) <==> step(c, e, f).1 == Ok::<Seq<NodeNote>, LxmfNodeError>(
            seq![NodeNote::Delivered { message_id: id }],
        ),
{
    let note = seq![NodeNote::Delivered { message_id: id }];
    assert(note[0] == (NodeNote::Delivered { message_id: id }));
    if step(c, e, f).1 == Ok::<Seq<NodeNote>, LxmfNodeError>(note) {
        let got = step(c, e, f).1->Ok_0;
        assert(got.len() == 1);
        assert(got[0] == (NodeNote::Delivered { message_id: id }));
        if let CoreEvent::LinkClosed { link_id, reason, .. } = e {
            let packets = crate::bytemap::keys_where(c.link_receipts, on_link(link_id));
            if packets.len() > 0 {
                assert(losses(c, link_id, reason)[0] == lost(
                    c.link_receipts[packets[0]].message_id,
                    reason,
                ));
            }
        }
    }
}

/// A message went out as one packet.
pub open spec fn packet_sent(
    before: Delivery,
    after: Delivery,
    message_id: [u8; 32],
    packet_hash: [u8; 16],
    r: LxmfNodeOutput,
) -> bool {
    &&& after == (Delivery {
        receipts: before.receipts.insert(packet_hash, message_id),
        ..before
    })
    &&& notes(r.events@) == seq![
        NodeNote::Submitted {
            message_id,
            method: DeliveryMethod::Opportunistic,
            representation: DeliveryRepresentation::OpportunisticPacket,
            submission: SubmissionId::Packet(packet_hash),
        },
    ]
}

/// A message went out as one packet on a link.
pub open spec fn link_packet_sent(
    before: Delivery,
    after: Delivery,
    link_id: LinkId,
    message_id: [u8; 32],
    packet_hash: [u8; 32],
    r: LxmfNodeOutput,
) -> bool {
    &&& after == (Delivery {
        link_receipts: before.link_receipts.insert(
            packet_hash,
            PendingLinkPacket { message_id, link_id },
        ),
        ..before
    })
    &&& notes(r.events@) == seq![
        NodeNote::Submitted {
            message_id,
            method: DeliveryMethod::Direct,
            representation: DeliveryRepresentation::DirectPacket,
            submission: SubmissionId::LinkPacket(packet_hash),
        },
    ]
}

/// What handing a prepared Resource to the stack does.
pub open spec fn resource_sent(
    before: Delivery,
    after: Delivery,
    prepared: PreparedLxmfSend,
    committed: Result<[u8; 32], ResourceError>,
    r: Result<LxmfNodeOutput, LxmfNodeError>,
) -> bool {
    match committed {
        Ok(hash) => {
            &&& after == resource_submitted(
                before,
                prepared.link_id,
                prepared.message_id,
                hash,
                prepared.packed_len as nat,
            )
            &&& r is Ok
            &&& notes(r->Ok_0.events@) == seq![resource_note(prepared.message_id, hash)]
        },
        Err(e) => {
            &&& after == before
            &&& r == Err::<LxmfNodeOutput, LxmfNodeError>(LxmfNodeError::Resource(e))
        },
    }
}

/// What sending a message as a Resource takes.
pub open spec fn resource_wanted(
    before: Delivery,
    after: Delivery,
    destination: DestinationHash,
    message_id: [u8; 32],
    link_active: bool,
    captured: Result<(), ResourceError>,
    r: Result<LxmfResourceSendParams, LxmfNodeError>,
) -> bool {
    &&& after == live_link(before, destination, link_active).0
    &&& r == match live_link(before, destination, link_active).1 {
        Ok(link_id) => match captured {
            Ok(_) => Ok::<LxmfResourceSendParams, LxmfNodeError>(
                LxmfResourceSendParams { link_id, message_id },
            ),
            Err(e) => Err(LxmfNodeError::Resource(e)),
        },
        Err(e) => Err(e),
    }
}

/// How far an event brings a message that goes out as Resources.
pub open spec fn portion_of(c: Delivery, event: CoreEvent, r: Option<Portion>) -> bool {
    r == match event {
        CoreEvent::ResourceProgress {
            link_id,
            resource_hash,
            progress,
            data_size,
            is_sender: true,
            ..
        } => if c.resources.contains_key(link_id) {
            let p = moved_on(c.resources[link_id], resource_hash, data_size);
            Some(
                Portion {
                    completed_size: p.completed_size,
                    current_size: p.current_size,
                    total_size: p.total_size,
                    progress,
                },
            )
        } else {
            None
        },
        _ => None::<Portion>,
    }
}

} // verus!
