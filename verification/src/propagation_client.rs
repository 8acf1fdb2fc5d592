//! Transport side of the LXMF propagation mailbox client.
//!
//! The adapter holds only live transport correlation: propagation announces,
//! outgoing link establishment, link identification, originator uploads and
//! `/get` requests. It accepts no incoming links, serves no propagation data
//! and does no peering.
use vstd::prelude::*;

use crate::bytemap::{same, to_vec, ByteMap};
use crate::constants::LINK_PACKET_MAX_CONTENT;
use crate::propagation::{PropagationNodeAnnounce, PropagationSignal};
use crate::transport::{
    Aspect, CoreCall, CoreEvent, DestinationHash, DestinationInfo, Facts, LinkCloseReason, LinkId,
    RequestError, ResourceError, SendError,
};

verus! {

/// Reticulum destination aspect used by LXMF propagation nodes.
pub const PROPAGATION_ASPECT: &'static str = "propagation";

/// Semantic stage of an outgoing propagation `/get` request.
#[derive(Debug, Clone, Copy, PartialEq, Eq, PartialOrd, Ord, Structural)]
pub enum PropagationRequestKind {
    List,
    Get,
    Acknowledge,
}

/// Reticulum representation selected for one propagation upload.
#[derive(Debug, Clone, Copy, PartialEq, Eq, Structural)]
pub enum PropagationUploadRepresentation {
    Packet,
    Resource,
}

/// Why a submitted propagation upload failed before node acceptance.
#[derive(Debug, Clone, Copy, PartialEq, Eq, Structural)]
pub enum PropagationUploadFailure {
    PacketTimeout,
    Resource(ResourceError),
    LinkClosed(LinkCloseReason),
}

#[derive(Debug, Clone, Copy, PartialEq, Eq, Structural)]
pub enum PropagationTransportError {
    InvalidDestination,
    UnknownNode,
    LinkUnavailable,
    UploadInProgress,
    Request(RequestError),
    Resource(ResourceError),
    Send(SendError),
}

/// A verified remote propagation-node announce remembered by the adapter.
#[derive(Debug, Clone, PartialEq, Eq)]
pub struct KnownPropagationNode {
    pub destination: DestinationHash,
    pub announce: PropagationNodeAnnounce,
}

/// A remembered node, as its announce described it.
pub ghost struct Known {
    pub destination: DestinationHash,
    pub announce: crate::propagation::NodeAnnounce,
}

impl View for KnownPropagationNode {
    type V = Known;

    open spec fn view(&self) -> Known {
        Known { destination: self.destination, announce: self.announce@ }
    }
}

/// Transport events relevant to a propagation client. Progress is the bits of
/// a single precision number.
#[derive(Debug, Clone, PartialEq, Eq)]
pub enum PropagationTransportEvent {
    NodeAnnounced(KnownPropagationNode),
    LinkEstablished { destination: DestinationHash, link_id: LinkId },
    ResponseReceived { link_id: LinkId, kind: PropagationRequestKind, data: Vec<u8> },
    RequestTimedOut { link_id: LinkId, kind: PropagationRequestKind },
    RequestProgress {
        link_id: LinkId,
        kind: PropagationRequestKind,
        progress: u32,
        transfer_size: u64,
    },
    UploadSubmitted {
        link_id: LinkId,
        message_id: [u8; 32],
        representation: PropagationUploadRepresentation,
    },
    UploadProgress { link_id: LinkId, message_id: [u8; 32], progress: u32 },
    UploadCompleted { link_id: LinkId, message_id: [u8; 32] },
    UploadFailed { link_id: LinkId, message_id: [u8; 32], reason: PropagationUploadFailure },
    UploadRejected { link_id: LinkId, message_id: [u8; 32], signal: PropagationSignal },
    LinkClosed { link_id: LinkId, destination: DestinationHash, reason: LinkCloseReason },
}

/// A transport event with its bytes as a sequence.
pub ghost enum ClientNote {
    NodeAnnounced(Known),
    LinkEstablished { destination: DestinationHash, link_id: LinkId },
    ResponseReceived { link_id: LinkId, kind: PropagationRequestKind, data: Seq<u8> },
    RequestTimedOut { link_id: LinkId, kind: PropagationRequestKind },
    RequestProgress {
        link_id: LinkId,
        kind: PropagationRequestKind,
        progress: u32,
        transfer_size: u64,
    },
    UploadSubmitted {
        link_id: LinkId,
        message_id: [u8; 32],
        representation: PropagationUploadRepresentation,
    },
    UploadProgress { link_id: LinkId, message_id: [u8; 32], progress: u32 },
    UploadCompleted { link_id: LinkId, message_id: [u8; 32] },
    UploadFailed { link_id: LinkId, message_id: [u8; 32], reason: PropagationUploadFailure },
    UploadRejected { link_id: LinkId, message_id: [u8; 32], signal: PropagationSignal },
    LinkClosed { link_id: LinkId, destination: DestinationHash, reason: LinkCloseReason },
}

impl View for PropagationTransportEvent {
    type V = ClientNote;

    open spec fn view(&self) -> ClientNote {
        match *self {
            PropagationTransportEvent::NodeAnnounced(known) => ClientNote::NodeAnnounced(known@),
            PropagationTransportEvent::LinkEstablished {
                destination,
                link_id,
            } => ClientNote::LinkEstablished { destination, link_id },
            PropagationTransportEvent::ResponseReceived {
                link_id,
                kind,
                data,
            } => ClientNote::ResponseReceived { link_id, kind, data: data@ },
            PropagationTransportEvent::RequestTimedOut {
                link_id,
                kind,
            } => ClientNote::RequestTimedOut { link_id, kind },
            PropagationTransportEvent::RequestProgress {
                link_id,
                kind,
                progress,
                transfer_size,
            } => ClientNote::RequestProgress { link_id, kind, progress, transfer_size },
            PropagationTransportEvent::UploadSubmitted {
                link_id,
                message_id,
                representation,
            } => ClientNote::UploadSubmitted { link_id, message_id, representation },
            PropagationTransportEvent::UploadProgress {
                link_id,
                message_id,
                progress,
            } => ClientNote::UploadProgress { link_id, message_id, progress },
            PropagationTransportEvent::UploadCompleted {
                link_id,
                message_id,
            } => ClientNote::UploadCompleted { link_id, message_id },
            PropagationTransportEvent::UploadFailed {
                link_id,
                message_id,
                reason,
            } => ClientNote::UploadFailed { link_id, message_id, reason },
            PropagationTransportEvent::UploadRejected {
                link_id,
                message_id,
                signal,
            } => ClientNote::UploadRejected { link_id, message_id, signal },
            PropagationTransportEvent::LinkClosed {
                link_id,
                destination,
                reason,
            } => ClientNote::LinkClosed { link_id, destination, reason },
        }
    }
}

pub open spec fn notes(events: Seq<PropagationTransportEvent>) -> Seq<ClientNote> {
    events.map_values(|e: PropagationTransportEvent| e@)
}

/// Semantic propagation-client events of one operation.
#[derive(Debug, Clone, PartialEq, Eq)]
#[must_use]
pub struct PropagationTransportOutput {
    pub events: Vec<PropagationTransportEvent>,
}

impl Default for PropagationTransportOutput {
    fn default() -> (r: Self)
        ensures
            r.events@.len() == 0,
    {
        PropagationTransportOutput { events: Vec::new() }
    }
}

/// A `/get` request whose answer is awaited.
#[derive(Debug, Clone, Copy, PartialEq, Eq)]
pub struct PendingRequest {
    pub kind: PropagationRequestKind,
    pub link_id: LinkId,
    /// Hash of the Resource that carries an oversized request body while it
    /// uploads.
    pub request_resource_hash: Option<[u8; 32]>,
}

#[derive(Debug, Clone, Copy, PartialEq, Eq)]
pub enum PendingUploadTransfer {
    Packet { packet_hash: [u8; 32] },
    Resource,
}

/// An upload that the node has neither accepted nor refused.
#[derive(Debug, Clone, Copy, PartialEq, Eq)]
pub struct PendingUpload {
    pub message_id: [u8; 32],
    pub transfer: PendingUploadTransfer,
}

/// Live propagation-client transport state.
#[derive(Debug, Clone)]
pub struct PropagationTransport {
    pub destination: DestinationHash,
    pub identity_hash: [u8; 16],
    pub known_nodes: ByteMap<16, KnownPropagationNode>,
    pub wanted_links: ByteMap<16, ()>,
    pub pending_links: ByteMap<16, LinkId>,
    pub link_destinations: ByteMap<16, DestinationHash>,
    pub active_links: ByteMap<16, LinkId>,
    pub pending_requests: ByteMap<16, PendingRequest>,
    pub pending_uploads: ByteMap<16, PendingUpload>,
}

/// The client state as maps and sets.
pub ghost struct Client {
    /// Nodes by destination.
    pub known: Map<DestinationHash, Known>,
    /// Destinations to which a link is wanted.
    pub wanted: Set<DestinationHash>,
    /// Links being established, by destination.
    pub pending: Map<DestinationHash, LinkId>,
    /// Where each link of this adapter leads.
    pub links: Map<LinkId, DestinationHash>,
    /// Established links, by destination.
    pub active: Map<DestinationHash, LinkId>,
    /// Requests in flight, by request id.
    pub requests: Map<[u8; 16], PendingRequest>,
    /// Uploads in flight, by link.
    pub uploads: Map<LinkId, PendingUpload>,
}

impl View for PropagationTransport {
    type V = Client;

    open spec fn view(&self) -> Client {
        Client {
            known: self.known_nodes@.map_values(|k: KnownPropagationNode| k@),
            wanted: self.wanted_links@.dom(),
            pending: self.pending_links@,
            links: self.link_destinations@,
            active: self.active_links@,
            requests: self.pending_requests@,
            uploads: self.pending_uploads@,
        }
    }
}

// ---------------------------------------------------------------------------
// What each event means
// ---------------------------------------------------------------------------

/// A link to `d` is wanted and none is being established.
pub open spec fn wants(c: Client, d: DestinationHash) -> bool {
    c.wanted.contains(d) && !c.pending.contains_key(d)
}

/// The state once a link to `d` is being established.
pub open spec fn connected(c: Client, d: DestinationHash, link: LinkId) -> Client {
    Client { pending: c.pending.insert(d, link), links: c.links.insert(link, d), ..c }
}

/// A wanted link is opened, which needs the identity of its far end.
pub open spec fn opened(
    c: Client,
    d: DestinationHash,
    f: Facts,
    notes: Seq<ClientNote>,
) -> (Client, Result<Seq<ClientNote>, PropagationTransportError>) {
    if f.identity_known {
        (connected(c, d, f.new_link), Ok(notes))
    } else {
        (c, Err(PropagationTransportError::UnknownNode))
    }
}

/// The state once the announce of `d` has been heard.
pub open spec fn remembered(c: Client, d: DestinationHash, app_data: Seq<u8>) -> Client {
    match crate::propagation::announce_of(app_data) {
        Ok(announce) => Client {
            known: c.known.insert(d, Known { destination: d, announce }),
            ..c
        },
        Err(_) => c,
    }
}

pub open spec fn heard(d: DestinationHash, app_data: Seq<u8>) -> Seq<ClientNote> {
    match crate::propagation::announce_of(app_data) {
        Ok(announce) => seq![ClientNote::NodeAnnounced(Known { destination: d, announce })],
        Err(_) => seq![],
    }
}

pub open spec fn announced(c: Client, d: DestinationHash, app_data: Seq<u8>, f: Facts) -> (
    Client,
    Result<Seq<ClientNote>, PropagationTransportError>,
) {
    let next = remembered(c, d, app_data);
    if wants(next, d) && f.has_path {
        opened(next, d, f, heard(d, app_data))
    } else {
        (next, Ok(heard(d, app_data)))
    }
}

/// The destination of a link that this side opened: the one it was opened for,
/// or the one it leads to if a link there is wanted.
pub open spec fn destination_of(c: Client, link: LinkId, f: Facts) -> Option<DestinationHash> {
    if c.links.contains_key(link) {
        Some(c.links[link])
    } else {
        match f.link_destination {
            Some(d) => if c.wanted.contains(d) {
                Some(d)
            } else {
                None
            },
            None => None,
        }
    }
}

/// The state once `link` is the established link to `d`.
pub open spec fn established(c: Client, d: DestinationHash, link: LinkId) -> Client {
    Client {
        pending: c.pending.remove(d),
        wanted: c.wanted.remove(d),
        active: c.active.insert(d, link),
        links: crate::bytemap::restricted(
            c.links,
            |l: LinkId, k: DestinationHash| l == link || k != d,
        ).insert(link, d),
        ..c
    }
}

/// The request belongs to the link.
pub open spec fn asked_on(c: Client, request: [u8; 16], link: LinkId) -> bool {
    c.requests.contains_key(request) && c.requests[request].link_id == link
}

/// The link carries an upload in this packet.
pub open spec fn packet_upload(c: Client, link: LinkId, packet: [u8; 32]) -> bool {
    c.uploads.contains_key(link) && c.uploads[link].transfer == (PendingUploadTransfer::Packet {
        packet_hash: packet,
    })
}

/// The link carries an upload as a Resource.
pub open spec fn resource_upload(c: Client, link: LinkId) -> bool {
    c.uploads.contains_key(link) && c.uploads[link].transfer is Resource
}

/// Requests on a link whose answer brings data.
pub open spec fn fetching(link: LinkId) -> spec_fn(PendingRequest) -> bool {
    |p: PendingRequest| p.link_id == link && p.kind != PropagationRequestKind::Acknowledge
}

/// Requests on a link whose body uploads as this Resource.
pub open spec fn carried(link: LinkId, resource: [u8; 32]) -> spec_fn(PendingRequest) -> bool {
    |p: PendingRequest| p.link_id == link && p.request_resource_hash == Some(resource)
}

pub open spec fn without_upload(c: Client, link: LinkId) -> Client {
    Client { uploads: c.uploads.remove(link), ..c }
}

/// A Resource moved on: one that is sent belongs to the upload of its link,
/// one that is received to the first request there that fetches data.
pub open spec fn progressed(
    c: Client,
    link: LinkId,
    progress: u32,
    transfer_size: u64,
    is_sender: bool,
) -> Seq<ClientNote> {
    if is_sender {
        if resource_upload(c, link) {
            seq![
                ClientNote::UploadProgress {
                    link_id: link,
                    message_id: c.uploads[link].message_id,
                    progress,
                },
            ]
        } else {
            seq![]
        }
    } else {
        match crate::bytemap::first_key(c.requests, fetching(link)) {
            Some(id) => seq![
                ClientNote::RequestProgress {
                    link_id: link,
                    kind: c.requests[id].kind,
                    progress,
                    transfer_size,
                },
            ],
            None => seq![],
        }
    }
}

/// A Resource went out: its upload is complete with the last segment, and a
/// request that it carried now waits for its answer.
pub open spec fn sent(c: Client, link: LinkId, resource: [u8; 32], last: bool) -> (
    Client,
    Seq<ClientNote>,
) {
    let done = last && resource_upload(c, link);
    let next = if done {
        without_upload(c, link)
    } else {
        c
    };
    let notes = if done {
        seq![ClientNote::UploadCompleted { link_id: link, message_id: c.uploads[link].message_id }]
    } else {
        seq![]
    };
    match crate::bytemap::first_key(next.requests, carried(link, resource)) {
        Some(id) => (
            Client {
                requests: next.requests.insert(
                    id,
                    PendingRequest { request_resource_hash: None, ..next.requests[id] },
                ),
                ..next
            },
            notes,
        ),
        None => (next, notes),
    }
}

/// A Resource failed, and with it the upload or the request that it carried.
pub open spec fn unsent(c: Client, link: LinkId, resource: [u8; 32], error: ResourceError) -> (
    Client,
    Seq<ClientNote>,
) {
    let failed = resource_upload(c, link);
    let next = if failed {
        without_upload(c, link)
    } else {
        c
    };
    let notes = if failed {
        seq![
            ClientNote::UploadFailed {
                link_id: link,
                message_id: c.uploads[link].message_id,
                reason: PropagationUploadFailure::Resource(error),
            },
        ]
    } else {
        seq![]
    };
    match crate::bytemap::first_key(next.requests, carried(link, resource)) {
        Some(id) => (
            Client { requests: next.requests.remove(id), ..next },
            notes.push(
                ClientNote::RequestTimedOut { link_id: link, kind: next.requests[id].kind },
            ),
        ),
        None => (next, notes),
    }
}

/// The state without anything that belonged to `link`, which led to `d`.
pub open spec fn forgotten(c: Client, link: LinkId, d: DestinationHash) -> Client {
    Client {
        links: c.links.remove(link),
        wanted: c.wanted.remove(d),
        pending: crate::bytemap::restricted(c.pending, |k: DestinationHash, l: LinkId| l != link),
        active: crate::bytemap::restricted(c.active, |k: DestinationHash, l: LinkId| l != link),
        requests: crate::bytemap::restricted(
            c.requests,
            |k: [u8; 16], p: PendingRequest| p.link_id != link,
        ),
        uploads: c.uploads.remove(link),
        ..c
    }
}

pub open spec fn closed(c: Client, link: LinkId, reason: LinkCloseReason) -> (
    Client,
    Seq<ClientNote>,
) {
    if !c.links.contains_key(link) {
        (c, seq![])
    } else {
        let d = c.links[link];
        let end = ClientNote::LinkClosed { link_id: link, destination: d, reason };
        let notes = if c.uploads.contains_key(link) {
            seq![
                ClientNote::UploadFailed {
                    link_id: link,
                    message_id: c.uploads[link].message_id,
                    reason: PropagationUploadFailure::LinkClosed(reason),
                },
                end,
            ]
        } else {
            seq![end]
        };
        (forgotten(c, link, d), notes)
    }
}

/// What one event makes of the client, and what the client reports.
pub open spec fn step(c: Client, e: CoreEvent, f: Facts) -> (
    Client,
    Result<Seq<ClientNote>, PropagationTransportError>,
) {
    match e {
        CoreEvent::AnnounceReceived { destination, aspect: Aspect::Propagation, app_data } =>
            announced(c, destination, app_data@, f),
        CoreEvent::PathFound { destination } => if wants(c, destination) {
            opened(c, destination, f, seq![])
        } else {
            (c, Ok(seq![]))
        },
        CoreEvent::LinkEstablished { link_id, is_initiator: true } => match destination_of(
            c,
            link_id,
            f,
        ) {
            Some(destination) => (
                established(c, destination, link_id),
                Ok(seq![ClientNote::LinkEstablished { destination, link_id }]),
            ),
            None => (c, Ok(seq![])),
        },
        CoreEvent::ResponseReceived { link_id, request_id, response_data } => if asked_on(
            c,
            request_id,
            link_id,
        ) {
            (
                Client { requests: c.requests.remove(request_id), ..c },
                Ok(
                    seq![
                        ClientNote::ResponseReceived {
                            link_id,
                            kind: c.requests[request_id].kind,
                            data: response_data@,
                        },
                    ],
                ),
            )
        } else {
            (c, Ok(seq![]))
        },
        CoreEvent::RequestTimedOut { link_id, request_id } => if asked_on(c, request_id, link_id) {
            (
                Client { requests: c.requests.remove(request_id), ..c },
                Ok(
                    seq![
                        ClientNote::RequestTimedOut { link_id, kind: c.requests[request_id].kind },
                    ],
                ),
            )
        } else {
            (c, Ok(seq![]))
        },
        CoreEvent::LinkDeliveryConfirmed { link_id, packet_hash } => if packet_upload(
            c,
            link_id,
            packet_hash,
        ) {
            (
                without_upload(c, link_id),
                Ok(
                    seq![
                        ClientNote::UploadCompleted {
                            link_id,
                            message_id: c.uploads[link_id].message_id,
                        },
                    ],
                ),
            )
        } else {
            (c, Ok(seq![]))
        },
        CoreEvent::LinkDeliveryFailed { link_id, packet_hash } => if packet_upload(
            c,
            link_id,
            packet_hash,
        ) {
            (
                without_upload(c, link_id),
                Ok(
                    seq![
                        ClientNote::UploadFailed {
                            link_id,
                            message_id: c.uploads[link_id].message_id,
                            reason: PropagationUploadFailure::PacketTimeout,
                        },
                    ],
                ),
            )
        } else {
            (c, Ok(seq![]))
        },
        CoreEvent::LinkDataReceived { link_id, data } => match crate::propagation::signal_of(
            data@,
        ) {
            Ok(signal) => if c.uploads.contains_key(link_id) {
                (
                    without_upload(c, link_id),
                    Ok(
                        seq![
                            ClientNote::UploadRejected {
                                link_id,
                                message_id: c.uploads[link_id].message_id,
                                signal,
                            },
                        ],
                    ),
                )
            } else {
                (c, Ok(seq![]))
            },
            Err(_) => (c, Ok(seq![])),
        },
        CoreEvent::ResourceProgress {
            link_id,
            progress,
            transfer_size,
            is_sender,
            ..
        } => (c, Ok(progressed(c, link_id, progress, transfer_size, is_sender))),
        CoreEvent::ResourceCompleted {
            link_id,
            resource_hash,
            is_sender: true,
            segment_index,
            total_segments,
            ..
        } => {
            let (next, notes) = sent(c, link_id, resource_hash, segment_index == total_segments);
            (next, Ok(notes))
        },
        CoreEvent::ResourceFailed { link_id, resource_hash, error, is_sender: true } => {
            let (next, notes) = unsent(c, link_id, resource_hash, error);
            (next, Ok(notes))
        },
        CoreEvent::LinkClosed { link_id, reason, .. } => {
            let (next, notes) = closed(c, link_id, reason);
            (next, Ok(notes))
        },
        _ => (c, Ok(seq![])),
    }
}

/// The call into the stack that an event demands.
pub open spec fn demand(c: Client, e: CoreEvent, f: Facts) -> Option<CoreCall> {
    match e {
        CoreEvent::AnnounceReceived { destination, aspect: Aspect::Propagation, .. } => if wants(
            c,
            destination,
        ) && f.has_path && f.identity_known {
            Some(CoreCall::Connect { destination })
        } else {
            None
        },
        CoreEvent::PathFound { destination } => if wants(c, destination) && f.identity_known {
            Some(CoreCall::Connect { destination })
        } else {
            None
        },
        CoreEvent::LinkDeliveryFailed { link_id, packet_hash } => if packet_upload(
            c,
            link_id,
            packet_hash,
        ) {
            Some(CoreCall::CloseLink { link_id })
        } else {
            None
        },
        _ => None,
    }
}

// ---------------------------------------------------------------------------
// The adapter
// ---------------------------------------------------------------------------

/// Up to `LINK_PACKET_MAX_CONTENT` bytes go as one raw link packet.
pub open spec fn representation(len: nat) -> PropagationUploadRepresentation {
    if len <= LINK_PACKET_MAX_CONTENT {
        PropagationUploadRepresentation::Packet
    } else {
        PropagationUploadRepresentation::Resource
    }
}

/// The representation of an upload of `data_len` bytes.
pub fn upload_representation(data_len: usize) -> (r: PropagationUploadRepresentation)
    ensures
        r == representation(data_len as nat),
{
    if data_len <= LINK_PACKET_MAX_CONTENT {
        PropagationUploadRepresentation::Packet
    } else {
        PropagationUploadRepresentation::Resource
    }
}

/// A receiving single destination of the propagation aspect with an identity.
pub open spec fn suitable(info: DestinationInfo) -> bool {
    info.incoming && info.single && info.aspect == Aspect::Propagation && info.identity_hash is Some
}

/// Whether a destination can serve as the local end of the adapter.
pub fn validate_destination(info: &DestinationInfo) -> (r: Result<(), PropagationTransportError>)
    ensures
        match r {
            Ok(_) => suitable(*info),
            Err(e) => !suitable(*info) && e == PropagationTransportError::InvalidDestination,
        },
{
    if !info.incoming || !info.single || info.aspect != Aspect::Propagation
        || info.identity_hash.is_none() {
        return Err(PropagationTransportError::InvalidDestination);
    }
    Ok(())
}

fn one(event: PropagationTransportEvent) -> (r: Vec<PropagationTransportEvent>)
    ensures
        notes(r@) == seq![event@],
{
    let mut v: Vec<PropagationTransportEvent> = Vec::new();
    v.push(event);
    assert(notes(v@) =~= seq![event@]);
    v
}

fn none() -> (r: Vec<PropagationTransportEvent>)
    ensures
        notes(r@) == Seq::<ClientNote>::empty(),
{
    let v: Vec<PropagationTransportEvent> = Vec::new();
    assert(notes(v@) =~= Seq::<ClientNote>::empty());
    v
}

impl PropagationTransport {
    pub open spec fn wf(&self) -> bool {
        &&& self.known_nodes.wf()
        &&& self.wanted_links.wf()
        &&& self.pending_links.wf()
        &&& self.link_destinations.wf()
        &&& self.active_links.wf()
        &&& self.pending_requests.wf()
        &&& self.pending_uploads.wf()
    }

    /// The local end is the same.
    pub open spec fn same_end(&self, other: &PropagationTransport) -> bool {
        self.destination == other.destination && self.identity_hash == other.identity_hash
    }

    fn new(destination: DestinationHash, identity_hash: [u8; 16]) -> (r: PropagationTransport)
        ensures
            r.wf(),
            r.destination == destination,
            r.identity_hash == identity_hash,
            r@ == fresh(),
    {
        let r = PropagationTransport {
            destination,
            identity_hash,
            known_nodes: ByteMap::new(),
            wanted_links: ByteMap::new(),
            pending_links: ByteMap::new(),
            link_destinations: ByteMap::new(),
            active_links: ByteMap::new(),
            pending_requests: ByteMap::new(),
            pending_uploads: ByteMap::new(),
        };
        assert(r@.known =~= fresh().known);
        assert(r@.wanted =~= fresh().wanted);
        r
    }

    /// Builds the adapter on a local `lxmf.propagation` destination.
    pub fn register(info: &DestinationInfo) -> (r: Result<
        PropagationTransport,
        PropagationTransportError,
    >)
        ensures
            match r {
                Ok(t) => {
                    &&& suitable(*info)
                    &&& t.wf()
                    &&& t.destination == info.hash
                    &&& Some(t.identity_hash) == info.identity_hash
                    &&& t@ == fresh()
                },
                Err(e) => !suitable(*info) && e == PropagationTransportError::InvalidDestination,
            },
    {
        validate_destination(info)?;
        match info.identity_hash {
            Some(identity_hash) => Ok(Self::new(info.hash, identity_hash)),
            None => Err(PropagationTransportError::InvalidDestination),
        }
    }

    /// Builds the adapter on a destination that is registered already, if it
    /// is.
    pub fn attach(registered: Option<&DestinationInfo>) -> (r: Result<
        PropagationTransport,
        PropagationTransportError,
    >)
        ensures
            match r {
                Ok(t) => {
                    &&& registered is Some && suitable(*registered->Some_0)
                    &&& t.wf()
                    &&& t.destination == registered->Some_0.hash
                    &&& Some(t.identity_hash) == registered->Some_0.identity_hash
                    &&& t@ == fresh()
                },
                Err(e) => {
                    &&& registered is Some ==> !suitable(*registered->Some_0)
                    &&& e == PropagationTransportError::InvalidDestination
                },
            },
    {
        match registered {
            Some(info) => Self::register(info),
            None => Err(PropagationTransportError::InvalidDestination),
        }
    }

    pub fn destination_hash(&self) -> (r: DestinationHash)
        ensures
            r == self.destination,
    {
        self.destination
    }

    /// Identity presented to the remote node and therefore the mailbox owner.
    pub fn identity_hash(&self) -> (r: [u8; 16])
        ensures
            r == self.identity_hash,
    {
        self.identity_hash
    }

    pub fn known_node(&self, destination: &DestinationHash) -> (r: Option<&KnownPropagationNode>)
        requires
            self.wf(),
        ensures
            match r {
                Some(k) => self@.known.contains_key(*destination) && k@ == self@.known[*destination],
                None => !self@.known.contains_key(*destination),
            },
    {
        self.known_nodes.get(destination)
    }

    /// The remembered nodes, in the order of their destinations.
    pub fn known_nodes(&self) -> (r: &Vec<([u8; 16], KnownPropagationNode)>)
        requires
            self.wf(),
        ensures
            crate::bytemap::ascending(r@),
            crate::bytemap::map_of(r@).map_values(|k: KnownPropagationNode| k@) == self@.known,
    {
        &self.known_nodes.entries
    }

    /// Forgets every node outside `destinations`.
    pub fn retain_known_nodes(&mut self, destinations: &ByteMap<16, ()>)
        requires
            old(self).wf(),
            destinations.wf(),
        ensures
            final(self).wf(),
            final(self).same_end(old(self)),
            retaining(old(self)@, final(self)@, destinations@.dom()),
    {
        let ghost before = self.known_nodes@;
        let ghost kept = |k: [u8; 16], v: KnownPropagationNode| destinations@.contains_key(k);
        let keep = |k: &[u8; 16], v: &KnownPropagationNode| -> (b: bool)
            ensures b == destinations@.contains_key(*k), { destinations.contains(k) };
        self.known_nodes.retain(keep, Ghost(kept));
        assert(self@.known =~= old(self)@.known.restrict(destinations@.dom()));
    }

    pub fn restore_known_node(&mut self, known: KnownPropagationNode)
        requires
            old(self).wf(),
        ensures
            final(self).wf(),
            final(self).same_end(old(self)),
            recalling(old(self)@, final(self)@, known@),
    {
        let _ = self.known_nodes.insert(known.destination, known);
        assert(self@.known =~= old(self)@.known.insert(known.destination, known@));
    }

    /// Forgets one node; tells whether it was known.
    pub fn forget_known_node(&mut self, destination: &DestinationHash) -> (r: bool)
        requires
            old(self).wf(),
        ensures
            final(self).wf(),
            final(self).same_end(old(self)),
            forgetting(old(self)@, final(self)@, *destination, r),
    {
        let r = self.known_nodes.remove(destination);
        assert(self@.known =~= old(self)@.known.remove(*destination));
        r.is_some()
    }

    /// Remembers a propagation node from a validated announce, where the
    /// announce is one of a propagation node and its data decodes.
    pub fn remember_announce(
        &mut self,
        destination: DestinationHash,
        aspect: Aspect,
        app_data: &[u8],
    ) -> (r: Option<KnownPropagationNode>)
        requires
            old(self).wf(),
        ensures
            final(self).wf(),
            final(self).same_end(old(self)),
            hearing(old(self)@, final(self)@, destination, aspect, app_data@, r),
    {
        if aspect != Aspect::Propagation {
            return None;
        }
        match PropagationNodeAnnounce::decode(app_data) {
            Ok(announce) => {
                let kept = KnownPropagationNode { destination, announce: announce.duplicate() };
                let _ = self.known_nodes.insert(destination, kept);
                let known = KnownPropagationNode { destination, announce };
                assert(self@.known =~= old(self)@.known.insert(destination, known@));
                Some(known)
            },
            Err(_) => None,
        }
    }

    pub fn active_link(&self, destination: &DestinationHash) -> (r: Option<LinkId>)
        requires
            self.wf(),
        ensures
            match r {
                Some(l) => self@.active.contains_key(*destination) && l == self@.active[*destination],
                None => !self@.active.contains_key(*destination),
            },
    {
        match self.active_links.get(destination) {
            Some(l) => Some(*l),
            None => None,
        }
    }

    /// Whether this adapter opened the link.
    pub fn owns_link(&self, link_id: &LinkId) -> (r: bool)
        requires
            self.wf(),
        ensures
            r == self@.links.contains_key(*link_id),
    {
        self.link_destinations.contains(link_id)
    }

    /// The clear LXMF message id currently uploading on one link.
    pub fn active_upload(&self, link_id: &LinkId) -> (r: Option<[u8; 32]>)
        requires
            self.wf(),
        ensures
            match r {
                Some(id) => {
                    &&& self@.uploads.contains_key(*link_id)
                    &&& id == self@.uploads[*link_id].message_id
                },
                None => !self@.uploads.contains_key(*link_id),
            },
    {
        match self.pending_uploads.get(link_id) {
            Some(p) => Some(p.message_id),
            None => None,
        }
    }

    /// Whether a message already has an active upload on any link.
    pub fn has_active_upload(&self, message_id: &[u8; 32]) -> (r: bool)
        requires
            self.wf(),
        ensures
            r == uploading(self@, *message_id),
    {
        let test = |p: &PendingUpload| -> (b: bool)
            ensures b == (p.message_id == *message_id), { same(&p.message_id, message_id) };
        let found = self.pending_uploads.first_where(
            test,
            Ghost(|p: PendingUpload| p.message_id == *message_id),
        );
        match found {
            Some(i) => {
                assert(self@.uploads.contains_key(self.pending_uploads.entries@[i as int].0));
                true
            },
            None => false,
        }
    }
}

/// Some link carries an upload of the message.
pub open spec fn uploading(c: Client, message_id: [u8; 32]) -> bool {
    exists|l: LinkId| #[trigger]
        c.uploads.contains_key(l) && c.uploads[l].message_id == message_id
}

/// Nothing is known and nothing is in flight.
pub open spec fn fresh() -> Client {
    Client {
        known: Map::empty(),
        wanted: Set::empty(),
        pending: Map::empty(),
        links: Map::empty(),
        active: Map::empty(),
        requests: Map::empty(),
        uploads: Map::empty(),
    }
}

// ---------------------------------------------------------------------------
// Links
// ---------------------------------------------------------------------------

/// The state once a dead link to `d` has been given up.
pub open spec fn pruned(c: Client, d: DestinationHash, link_active: bool) -> Client {
    if c.active.contains_key(d) && !link_active {
        Client { active: c.active.remove(d), links: c.links.remove(c.active[d]), ..c }
    } else {
        c
    }
}

/// A live link to `d` exists or is being established.
pub open spec fn served(c: Client, d: DestinationHash, link_active: bool) -> bool {
    (c.active.contains_key(d) && link_active) || c.pending.contains_key(d)
}

/// The state, and the outcome, once a link to `d` has been asked for.
pub open spec fn ensured(c: Client, d: DestinationHash, link_active: bool, f: Facts) -> (
    Client,
    Result<(), PropagationTransportError>,
) {
    let next = pruned(c, d, link_active);
    if served(c, d, link_active) {
        (next, Ok(()))
    } else {
        let want = Client { wanted: next.wanted.insert(d), ..next };
        if !f.has_path {
            (want, Ok(()))
        } else if f.identity_known {
            (connected(want, d, f.new_link), Ok(()))
        } else {
            (want, Err(PropagationTransportError::UnknownNode))
        }
    }
}

/// The call into the stack that asking for a link to `d` demands.
pub open spec fn link_demand(c: Client, d: DestinationHash, link_active: bool, f: Facts) -> Option<
    CoreCall,
> {
    if served(c, d, link_active) {
        None
    } else if !f.has_path {
        Some(CoreCall::RequestPath { destination: d })
    } else if f.identity_known {
        Some(CoreCall::Connect { destination: d })
    } else {
        None
    }
}

/// The outcome of an upload: the link must be this adapter's and live, and
/// neither the link nor the message may have an upload in flight.
pub open spec fn upload_fault(
    c: Client,
    link: LinkId,
    link_active: bool,
    message_id: [u8; 32],
) -> Option<PropagationTransportError> {
    if !c.links.contains_key(link) || !link_active {
        Some(PropagationTransportError::LinkUnavailable)
    } else if c.uploads.contains_key(link) || uploading(c, message_id) {
        Some(PropagationTransportError::UploadInProgress)
    } else {
        None
    }
}

/// How an upload that was handed to the stack is found again.
pub open spec fn transfer_of(
    representation: PropagationUploadRepresentation,
    hash: [u8; 32],
) -> PendingUploadTransfer {
    match representation {
        PropagationUploadRepresentation::Packet => PendingUploadTransfer::Packet {
            packet_hash: hash,
        },
        PropagationUploadRepresentation::Resource => PendingUploadTransfer::Resource,
    }
}

/// What may be handed to the stack as an upload.
#[derive(Debug, Clone, Copy, PartialEq, Eq)]
pub struct UploadSendParams {
    pub link_id: LinkId,
    pub message_id: [u8; 32],
    pub representation: PropagationUploadRepresentation,
}

impl UploadSendParams {
    /// The upload with its transfer built; `built` says whether the stack
    /// could build one from the data.
    pub fn build(&self, built: Result<(), ResourceError>) -> (r: Result<
        PreparedUpload,
        PropagationTransportError,
    >)
        ensures
            r == match built {
                Ok(_) => Ok::<PreparedUpload, PropagationTransportError>(
                    PreparedUpload {
                        link_id: self.link_id,
                        message_id: self.message_id,
                        representation: self.representation,
                    },
                ),
                Err(e) => Err(PropagationTransportError::Resource(e)),
            },
    {
        match built {
            Ok(_) => Ok(
                PreparedUpload {
                    link_id: self.link_id,
                    message_id: self.message_id,
                    representation: self.representation,
                },
            ),
            Err(e) => Err(PropagationTransportError::Resource(e)),
        }
    }
}

/// An upload whose transfer was built and is still to be handed to the stack.
#[derive(Debug, Clone, Copy, PartialEq, Eq)]
#[must_use]
pub struct PreparedUpload {
    pub link_id: LinkId,
    pub message_id: [u8; 32],
    pub representation: PropagationUploadRepresentation,
}

/// Why a prepared upload is not recorded: the client cannot take it now, or
/// the stack did not.
pub open spec fn commit_fault(
    c: Client,
    prepared: PreparedUpload,
    link_active: bool,
    sent: Result<[u8; 32], PropagationTransportError>,
) -> Option<PropagationTransportError> {
    match (upload_fault(c, prepared.link_id, link_active, prepared.message_id), sent) {
        (Some(e), _) => Some(e),
        (None, Err(e)) => Some(e),
        (None, Ok(_)) => None,
    }
}

/// The client once the stack has taken a prepared upload.
pub open spec fn uploading_on(c: Client, prepared: PreparedUpload, hash: [u8; 32]) -> Client {
    Client {
        uploads: c.uploads.insert(
            prepared.link_id,
            PendingUpload {
                message_id: prepared.message_id,
                transfer: transfer_of(prepared.representation, hash),
            },
        ),
        ..c
    }
}

/// What came of handing a `/get` request to the stack.
#[derive(Debug, Clone, Copy, PartialEq, Eq)]
pub enum SentRequest {
    /// As one packet: the request id, or why not.
    Packet(Result<[u8; 16], RequestError>),
    /// As a Resource: the request id and the Resource hash, or why not.
    Resource(Result<([u8; 16], [u8; 32]), ResourceError>),
}

/// What is left to do for a `/get` request.
#[derive(Debug, Clone, Copy, PartialEq, Eq, Structural)]
pub enum RequestStep {
    Submitted,
    /// The body is too large for one packet and is to be sent as a Resource.
    SendAsResource,
}

/// The state, and the outcome, once the stack was handed a request.
pub open spec fn requested(
    c: Client,
    link: LinkId,
    link_active: bool,
    kind: PropagationRequestKind,
    sent: SentRequest,
) -> (Client, Result<RequestStep, PropagationTransportError>) {
    if !c.links.contains_key(link) || !link_active {
        (c, Err(PropagationTransportError::LinkUnavailable))
    } else {
        match sent {
            SentRequest::Packet(Ok(id)) => (
                Client {
                    requests: c.requests.insert(
                        id,
                        PendingRequest { kind, link_id: link, request_resource_hash: None },
                    ),
                    ..c
                },
                Ok(RequestStep::Submitted),
            ),
            SentRequest::Packet(Err(RequestError::PayloadTooLarge)) => (
                c,
                Ok(RequestStep::SendAsResource),
            ),
            SentRequest::Packet(Err(e)) => (c, Err(PropagationTransportError::Request(e))),
            SentRequest::Resource(Ok((id, hash))) => (
                Client {
                    requests: c.requests.insert(
                        id,
                        PendingRequest { kind, link_id: link, request_resource_hash: Some(hash) },
                    ),
                    ..c
                },
                Ok(RequestStep::Submitted),
            ),
            SentRequest::Resource(Err(e)) => (c, Err(PropagationTransportError::Resource(e))),
        }
    }
}

impl PropagationTransport {
    /// The call into the stack that [`Self::ensure_link`] demands.
    pub fn link_call(
        &self,
        destination: DestinationHash,
        link_active: bool,
        facts: &Facts,
    ) -> (r: Option<CoreCall>)
        requires
            self.wf(),
        ensures
            r == link_demand(self@, destination, link_active, *facts),
    {
        if (self.active_links.contains(&destination) && link_active)
            || self.pending_links.contains(&destination) {
            None
        } else if !facts.has_path {
            Some(CoreCall::RequestPath { destination })
        } else if facts.identity_known {
            Some(CoreCall::Connect { destination })
        } else {
            None
        }
    }

    /// Sees to it that an outgoing link to the selected node is established.
    /// `link_active` tells whether the stack has the active link as a live one.
    ///
    /// Without a path the link is opened when a path or an announce of the
    /// node turns up.
    pub fn ensure_link(
        &mut self,
        destination: DestinationHash,
        link_active: bool,
        facts: &Facts,
    ) -> (r: Result<(), PropagationTransportError>)
        requires
            old(self).wf(),
        ensures
            final(self).wf(),
            final(self).same_end(old(self)),
            (final(self)@, r) == ensured(old(self)@, destination, link_active, *facts),
    {
        if let Some(link_id) = self.active_link(&destination) {
            if link_active {
                return Ok(());
            }
            let _ = self.active_links.remove(&destination);
            let _ = self.link_destinations.remove(&link_id);
        }
        if self.pending_links.contains(&destination) {
            return Ok(());
        }
        let _ = self.wanted_links.insert(destination, ());
        assert(self@.wanted =~= old(self)@.wanted.insert(destination));
        if !facts.has_path {
            return Ok(());
        }
        self.connect(destination, facts)
    }

    fn connect(&mut self, destination: DestinationHash, facts: &Facts) -> (r: Result<
        (),
        PropagationTransportError,
    >)
        requires
            old(self).wf(),
        ensures
            final(self).wf(),
            final(self).same_end(old(self)),
            if facts.identity_known {
                &&& r == Ok::<(), PropagationTransportError>(())
                &&& final(self)@ == connected(old(self)@, destination, facts.new_link)
            } else {
                &&& r == Err::<(), PropagationTransportError>(
                    PropagationTransportError::UnknownNode,
                )
                &&& final(self)@ == old(self)@
            },
    {
        if !facts.identity_known {
            return Err(PropagationTransportError::UnknownNode);
        }
        let _ = self.pending_links.insert(destination, facts.new_link);
        let _ = self.link_destinations.insert(facts.new_link, destination);
        Ok(())
    }

    /// The call that presents the local identity on an outgoing link.
    pub fn identify(&self, link_id: LinkId, has_identity: bool) -> (r: Result<
        CoreCall,
        PropagationTransportError,
    >)
        requires
            self.wf(),
        ensures
            identifying(self@, link_id, has_identity, r),
    {
        if !self.link_destinations.contains(&link_id) {
            return Err(PropagationTransportError::LinkUnavailable);
        }
        if !has_identity {
            return Err(PropagationTransportError::InvalidDestination);
        }
        Ok(CoreCall::IdentifyLink { link_id })
    }

    /// Checks that a message may go out on a link: only one upload may be
    /// active per link, and one message cannot upload on two links at once.
    pub fn check_upload(
        &self,
        link_id: LinkId,
        link_active: bool,
        message_id: &[u8; 32],
    ) -> (r: Result<(), PropagationTransportError>)
        requires
            self.wf(),
        ensures
            r == match upload_fault(self@, link_id, link_active, *message_id) {
                Some(e) => Err::<(), PropagationTransportError>(e),
                None => Ok(()),
            },
    {
        if !self.link_destinations.contains(&link_id) || !link_active {
            return Err(PropagationTransportError::LinkUnavailable);
        }
        if self.pending_uploads.contains(&link_id) || self.has_active_upload(message_id) {
            return Err(PropagationTransportError::UploadInProgress);
        }
        Ok(())
    }

    /// Checks that an upload of `data_len` bytes may be handed to the stack,
    /// and how.
    pub fn upload_send_params(
        &self,
        link_id: LinkId,
        link_active: bool,
        message_id: [u8; 32],
        data_len: usize,
    ) -> (r: Result<UploadSendParams, PropagationTransportError>)
        requires
            self.wf(),
        ensures
            r == match upload_fault(self@, link_id, link_active, message_id) {
                Some(e) => Err::<UploadSendParams, PropagationTransportError>(e),
                None => Ok(
                    UploadSendParams {
                        link_id,
                        message_id,
                        representation: representation(data_len as nat),
                    },
                ),
            },
    {
        self.check_upload(link_id, link_active, &message_id)?;
        Ok(
            UploadSendParams {
                link_id,
                message_id,
                representation: upload_representation(data_len),
            },
        )
    }

    /// Records an upload of `data_len` bytes that was handed to the stack;
    /// `sent` is the hash of its packet or Resource, or why it was not taken.
    pub fn submit_upload(
        &mut self,
        link_id: LinkId,
        link_active: bool,
        message_id: [u8; 32],
        data_len: usize,
        sent: Result<[u8; 32], PropagationTransportError>,
    ) -> (r: Result<PropagationTransportOutput, PropagationTransportError>)
        requires
            old(self).wf(),
        ensures
            final(self).wf(),
            final(self).same_end(old(self)),
            submitting(
                old(self)@,
                final(self)@,
                link_id,
                link_active,
                message_id,
                data_len as nat,
                sent,
                r,
            ),
    {
        let params = self.upload_send_params(link_id, link_active, message_id, data_len)?;
        let prepared = PreparedUpload {
            link_id,
            message_id,
            representation: params.representation,
        };
        self.commit_upload(&prepared, link_active, sent)
    }

    /// Records an upload that was built apart and then handed to the stack;
    /// `sent` is the hash of its packet or Resource, or why it was not taken.
    ///
    /// The link may have closed, or taken another upload, while the transfer
    /// was built: that is looked at again.
    pub fn commit_upload(
        &mut self,
        prepared: &PreparedUpload,
        link_active: bool,
        sent: Result<[u8; 32], PropagationTransportError>,
    ) -> (r: Result<PropagationTransportOutput, PropagationTransportError>)
        requires
            old(self).wf(),
        ensures
            final(self).wf(),
            final(self).same_end(old(self)),
            match commit_fault(old(self)@, *prepared, link_active, sent) {
                Some(e) => {
                    &&& r == Err::<PropagationTransportOutput, PropagationTransportError>(e)
                    &&& *final(self) == *old(self)
                },
                None => {
                    &&& final(self)@ == uploading_on(old(self)@, *prepared, sent->Ok_0)
                    &&& r is Ok
                    &&& notes(r->Ok_0.events@) == seq![
                        ClientNote::UploadSubmitted {
                            link_id: prepared.link_id,
                            message_id: prepared.message_id,
                            representation: prepared.representation,
                        },
                    ]
                },
            },
    {
        let link_id = prepared.link_id;
        let message_id = prepared.message_id;
        self.check_upload(link_id, link_active, &message_id)?;
        let hash = sent?;
        let transfer = match prepared.representation {
            PropagationUploadRepresentation::Packet => PendingUploadTransfer::Packet {
                packet_hash: hash,
            },
            PropagationUploadRepresentation::Resource => PendingUploadTransfer::Resource,
        };
        let _ = self.pending_uploads.insert(link_id, PendingUpload { message_id, transfer });
        Ok(
            PropagationTransportOutput {
                events: one(
                    PropagationTransportEvent::UploadSubmitted {
                        link_id,
                        message_id,
                        representation: prepared.representation,
                    },
                ),
            },
        )
    }

    /// Records a `/get` request that was handed to the stack.
    ///
    /// The three protocol phases share one wire path; `kind` only selects the
    /// event reported later.
    pub fn submit_mailbox_request(
        &mut self,
        link_id: LinkId,
        link_active: bool,
        kind: PropagationRequestKind,
        sent: SentRequest,
    ) -> (r: Result<RequestStep, PropagationTransportError>)
        requires
            old(self).wf(),
        ensures
            final(self).wf(),
            final(self).same_end(old(self)),
            (final(self)@, r) == requested(old(self)@, link_id, link_active, kind, sent),
    {
        if !self.link_destinations.contains(&link_id) || !link_active {
            return Err(PropagationTransportError::LinkUnavailable);
        }
        match sent {
            SentRequest::Packet(Ok(id)) => {
                let _ = self.pending_requests.insert(
                    id,
                    PendingRequest { kind, link_id, request_resource_hash: None },
                );
                Ok(RequestStep::Submitted)
            },
            SentRequest::Packet(Err(RequestError::PayloadTooLarge)) => Ok(
                RequestStep::SendAsResource,
            ),
            SentRequest::Packet(Err(e)) => Err(PropagationTransportError::Request(e)),
            SentRequest::Resource(Ok((id, hash))) => {
                let _ = self.pending_requests.insert(
                    id,
                    PendingRequest { kind, link_id, request_resource_hash: Some(hash) },
                );
                Ok(RequestStep::Submitted)
            },
            SentRequest::Resource(Err(e)) => Err(PropagationTransportError::Resource(e)),
        }
    }

    /// Deselects an outgoing link; the call closes it.
    pub fn close(&mut self, link_id: LinkId) -> (r: CoreCall)
        requires
            old(self).wf(),
        ensures
            final(self).wf(),
            final(self).same_end(old(self)),
            closing(old(self)@, final(self)@, link_id, r),
    {
        if let Some(destination) = self.link_destinations.get(&link_id) {
            let _ = self.wanted_links.remove(destination);
            assert(self@.wanted =~= old(self)@.wanted.remove(old(self)@.links[link_id]));
        }
        CoreCall::CloseLink { link_id }
    }

    /// Cancels path discovery or link establishment for one remote node; the
    /// call, if any, closes its link.
    pub fn cancel(&mut self, destination: DestinationHash) -> (r: Option<CoreCall>)
        requires
            old(self).wf(),
        ensures
            final(self).wf(),
            final(self).same_end(old(self)),
            cancelling(old(self)@, final(self)@, destination, r),
    {
        let _ = self.wanted_links.remove(&destination);
        assert(self@.wanted =~= old(self)@.wanted.remove(destination));
        match self.active_links.get(&destination) {
            Some(link_id) => Some(CoreCall::CloseLink { link_id: *link_id }),
            None => match self.pending_links.get(&destination) {
                Some(link_id) => Some(CoreCall::CloseLink { link_id: *link_id }),
                None => None,
            },
        }
    }
}

// ---------------------------------------------------------------------------
// Events
// ---------------------------------------------------------------------------

/// An operation reported these notes, or this error.
pub open spec fn reports(
    r: Result<PropagationTransportOutput, PropagationTransportError>,
    s: Result<Seq<ClientNote>, PropagationTransportError>,
) -> bool {
    match (r, s) {
        (Ok(output), Ok(n)) => notes(output.events@) == n,
        (Err(a), Err(b)) => a == b,
        _ => false,
    }
}

impl PropagationTransport {
    /// Whether a link to the destination is wanted and none is being
    /// established.
    fn wants_link(&self, destination: &DestinationHash) -> (r: bool)
        requires
            self.wf(),
        ensures
            r == wants(self@, *destination),
    {
        self.wanted_links.contains(destination) && !self.pending_links.contains(destination)
    }

    fn uploads_packet(&self, link_id: &LinkId, packet_hash: &[u8; 32]) -> (r: bool)
        requires
            self.wf(),
        ensures
            r == packet_upload(self@, *link_id, *packet_hash),
    {
        match self.pending_uploads.get(link_id) {
            Some(p) => match p.transfer {
                PendingUploadTransfer::Packet { packet_hash: hash } => same(&hash, packet_hash),
                PendingUploadTransfer::Resource => false,
            },
            None => false,
        }
    }

    fn uploads_resource(&self, link_id: &LinkId) -> (r: bool)
        requires
            self.wf(),
        ensures
            r == resource_upload(self@, *link_id),
    {
        match self.pending_uploads.get(link_id) {
            Some(p) => match p.transfer {
                PendingUploadTransfer::Packet { .. } => false,
                PendingUploadTransfer::Resource => true,
            },
            None => false,
        }
    }

    /// The call into the stack that an event demands. Its result belongs into
    /// the facts that are given to [`Self::handle_event`].
    pub fn call_for(&self, event: &CoreEvent, facts: &Facts) -> (r: Option<CoreCall>)
        requires
            self.wf(),
        ensures
            r == demand(self@, *event, *facts),
    {
        match event {
            CoreEvent::AnnounceReceived { destination, aspect: Aspect::Propagation, .. } => {
                if self.wants_link(destination) && facts.has_path && facts.identity_known {
                    Some(CoreCall::Connect { destination: *destination })
                } else {
                    None
                }
            },
            CoreEvent::PathFound { destination } => {
                if self.wants_link(destination) && facts.identity_known {
                    Some(CoreCall::Connect { destination: *destination })
                } else {
                    None
                }
            },
            CoreEvent::LinkDeliveryFailed { link_id, packet_hash } => {
                if self.uploads_packet(link_id, packet_hash) {
                    Some(CoreCall::CloseLink { link_id: *link_id })
                } else {
                    None
                }
            },
            _ => None,
        }
    }

    fn on_announce(
        &mut self,
        destination: DestinationHash,
        app_data: &[u8],
        facts: &Facts,
    ) -> (r: Result<PropagationTransportOutput, PropagationTransportError>)
        requires
            old(self).wf(),
        ensures
            final(self).wf(),
            final(self).same_end(old(self)),
            final(self)@ == announced(old(self)@, destination, app_data@, *facts).0,
            reports(r, announced(old(self)@, destination, app_data@, *facts).1),
    {
        let events = match self.remember_announce(destination, Aspect::Propagation, app_data) {
            Some(known) => one(PropagationTransportEvent::NodeAnnounced(known)),
            None => none(),
        };
        assert(notes(events@) =~= heard(destination, app_data@));
        if self.wants_link(&destination) && facts.has_path {
            self.connect(destination, facts)?;
        }
        Ok(PropagationTransportOutput { events })
    }

    fn on_established(&mut self, link_id: LinkId, facts: &Facts) -> (r: Vec<
        PropagationTransportEvent,
    >)
        requires
            old(self).wf(),
        ensures
            final(self).wf(),
            final(self).same_end(old(self)),
            match destination_of(old(self)@, link_id, *facts) {
                Some(destination) => {
                    &&& final(self)@ == established(old(self)@, destination, link_id)
                    &&& notes(r@) == seq![ClientNote::LinkEstablished { destination, link_id }]
                },
                None => final(self)@ == old(self)@ && notes(r@) == Seq::<ClientNote>::empty(),
            },
    {
        let leads_to = match self.link_destinations.get(&link_id) {
            Some(d) => Some(*d),
            None => match facts.link_destination {
                Some(d) => {
                    if self.wanted_links.contains(&d) {
                        Some(d)
                    } else {
                        None
                    }
                },
                None => None,
            },
        };
        match leads_to {
            Some(destination) => {
                let _ = self.pending_links.remove(&destination);
                let _ = self.wanted_links.remove(&destination);
                let _ = self.active_links.insert(destination, link_id);
                let ghost kept = |l: LinkId, k: DestinationHash| l == link_id || k != destination;
                let keep = |l: &[u8; 16], k: &DestinationHash| -> (b: bool)
                    ensures b == (*l == link_id || *k != destination), { same(l, &link_id) || !same(k, &destination) };
                self.link_destinations.retain(keep, Ghost(kept));
                let _ = self.link_destinations.insert(link_id, destination);
                proof {
                    let c = established(old(self)@, destination, link_id);
                    assert(self@.wanted =~= c.wanted);
                    assert(self@.links =~= c.links);
                }
                one(PropagationTransportEvent::LinkEstablished { destination, link_id })
            },
            None => none(),
        }
    }

    fn take_request(&mut self, link_id: &LinkId, request_id: &[u8; 16]) -> (r: Option<
        PropagationRequestKind,
    >)
        requires
            old(self).wf(),
        ensures
            final(self).wf(),
            final(self).same_end(old(self)),
            match r {
                Some(kind) => {
                    &&& asked_on(old(self)@, *request_id, *link_id)
                    &&& kind == old(self)@.requests[*request_id].kind
                    &&& final(self)@ == (Client {
                        requests: old(self)@.requests.remove(*request_id),
                        ..old(self)@
                    })
                },
                None => !asked_on(old(self)@, *request_id, *link_id) && final(self)@ == old(self)@,
            },
    {
        let kind = match self.pending_requests.get(request_id) {
            Some(p) => {
                if !same(&p.link_id, link_id) {
                    return None;
                }
                p.kind
            },
            None => {
                return None;
            },
        };
        let _ = self.pending_requests.remove(request_id);
        Some(kind)
    }

    fn take_upload(&mut self, link_id: &LinkId) -> (r: Option<[u8; 32]>)
        requires
            old(self).wf(),
        ensures
            final(self).wf(),
            final(self).same_end(old(self)),
            final(self)@ == without_upload(old(self)@, *link_id),
            match r {
                Some(id) => {
                    &&& old(self)@.uploads.contains_key(*link_id)
                    &&& id == old(self)@.uploads[*link_id].message_id
                },
                None => !old(self)@.uploads.contains_key(*link_id),
            },
    {
        match self.pending_uploads.remove(link_id) {
            Some(p) => Some(p.message_id),
            None => None,
        }
    }

    /// The place of the first request that uploads as a Resource on a link.
    fn carried_request(&self, link_id: &LinkId, resource_hash: &[u8; 32]) -> (r: Option<usize>)
        requires
            self.wf(),
        ensures
            match r {
                Some(i) => {
                    &&& i < self.pending_requests.entries@.len()
                    &&& crate::bytemap::first_key(
                        self@.requests,
                        carried(*link_id, *resource_hash),
                    ) == Some(self.pending_requests.entries@[i as int].0)
                    &&& self@.requests[self.pending_requests.entries@[i as int].0]
                        == self.pending_requests.entries@[i as int].1
                },
                None => crate::bytemap::first_key(
                    self@.requests,
                    carried(*link_id, *resource_hash),
                ) == None::<[u8; 16]>,
            },
    {
        let test = |p: &PendingRequest| -> (b: bool)
            ensures b == carried(*link_id, *resource_hash)(*p), { carries(p, link_id, resource_hash) };
        self.pending_requests.first_where(test, Ghost(carried(*link_id, *resource_hash)))
    }

    fn on_sent(&mut self, link_id: LinkId, resource_hash: &[u8; 32], last: bool) -> (r: Vec<
        PropagationTransportEvent,
    >)
        requires
            old(self).wf(),
        ensures
            final(self).wf(),
            final(self).same_end(old(self)),
            (final(self)@, notes(r@)) == sent(old(self)@, link_id, *resource_hash, last),
    {
        let mut events = none();
        if last && self.uploads_resource(&link_id) {
            if let Some(message_id) = self.take_upload(&link_id) {
                events = one(PropagationTransportEvent::UploadCompleted { link_id, message_id });
            }
        }
        if let Some(i) = self.carried_request(&link_id, resource_hash) {
            let mut pending = self.pending_requests.entries[i].1;
            pending.request_resource_hash = None;
            self.pending_requests.set_at(i, pending);
        }
        events
    }

    fn on_unsent(
        &mut self,
        link_id: LinkId,
        resource_hash: &[u8; 32],
        error: ResourceError,
    ) -> (r: Vec<PropagationTransportEvent>)
        requires
            old(self).wf(),
        ensures
            final(self).wf(),
            final(self).same_end(old(self)),
            (final(self)@, notes(r@)) == unsent(old(self)@, link_id, *resource_hash, error),
    {
        let mut events = none();
        if self.uploads_resource(&link_id) {
            if let Some(message_id) = self.take_upload(&link_id) {
                events =
                one(
                    PropagationTransportEvent::UploadFailed {
                        link_id,
                        message_id,
                        reason: PropagationUploadFailure::Resource(error),
                    },
                );
            }
        }
        if let Some(i) = self.carried_request(&link_id, resource_hash) {
            let (_, pending) = self.pending_requests.remove_at(i);
            let event = PropagationTransportEvent::RequestTimedOut { link_id, kind: pending.kind };
            let ghost before = events@;
            events.push(event);
            assert(notes(events@) =~= notes(before).push(event@));
        }
        events
    }

    fn on_closed(&mut self, link_id: LinkId, reason: LinkCloseReason) -> (r: Vec<
        PropagationTransportEvent,
    >)
        requires
            old(self).wf(),
        ensures
            final(self).wf(),
            final(self).same_end(old(self)),
            (final(self)@, notes(r@)) == closed(old(self)@, link_id, reason),
    {
        let destination = match self.link_destinations.remove(&link_id) {
            Some(destination) => destination,
            None => {
                return none();
            },
        };
        let _ = self.wanted_links.remove(&destination);
        let keep = |k: &[u8; 16], l: &LinkId| -> (b: bool)
            ensures b == (*l != link_id), { !same(l, &link_id) };
        self.pending_links.retain(keep, Ghost(|k: DestinationHash, l: LinkId| l != link_id));
        let keep = |k: &[u8; 16], l: &LinkId| -> (b: bool)
            ensures b == (*l != link_id), { !same(l, &link_id) };
        self.active_links.retain(keep, Ghost(|k: DestinationHash, l: LinkId| l != link_id));
        let keep = |k: &[u8; 16], p: &PendingRequest| -> (b: bool)
            ensures b == (p.link_id != link_id), { !same(&p.link_id, &link_id) };
        self.pending_requests.retain(
            keep,
            Ghost(|k: [u8; 16], p: PendingRequest| p.link_id != link_id),
        );
        let mut events = none();
        if let Some(message_id) = self.take_upload(&link_id) {
            events =
            one(
                PropagationTransportEvent::UploadFailed {
                    link_id,
                    message_id,
                    reason: PropagationUploadFailure::LinkClosed(reason),
                },
            );
        }
        let event = PropagationTransportEvent::LinkClosed { link_id, destination, reason };
        let ghost before = events@;
        events.push(event);
        proof {
            assert(notes(events@) =~= notes(before).push(event@));
            let c = forgotten(old(self)@, link_id, destination);
            assert(self@.wanted =~= c.wanted);
            assert(self@.pending =~= c.pending);
            assert(self@.active =~= c.active);
            assert(self@.requests =~= c.requests);
            assert(notes(events@) =~= closed(old(self)@, link_id, reason).1);
        }
        events
    }

    fn on_progress(
        &self,
        link_id: LinkId,
        progress: u32,
        transfer_size: u64,
        is_sender: bool,
    ) -> (r: Vec<PropagationTransportEvent>)
        requires
            self.wf(),
        ensures
            notes(r@) == progressed(self@, link_id, progress, transfer_size, is_sender),
    {
        if is_sender {
            if self.uploads_resource(&link_id) {
                if let Some(p) = self.pending_uploads.get(&link_id) {
                    return one(
                        PropagationTransportEvent::UploadProgress {
                            link_id,
                            message_id: p.message_id,
                            progress,
                        },
                    );
                }
            }
            return none();
        }
        let test = |p: &PendingRequest| -> (b: bool)
            ensures b == fetching(link_id)(*p), { same(&p.link_id, &link_id) && p.kind != PropagationRequestKind::Acknowledge };
        match self.pending_requests.first_where(test, Ghost(fetching(link_id))) {
            Some(i) => one(
                PropagationTransportEvent::RequestProgress {
                    link_id,
                    kind: self.pending_requests.entries[i].1.kind,
                    progress,
                    transfer_size,
                },
            ),
            None => none(),
        }
    }

    /// Maps one report of the stack to client state and events.
    pub fn handle_event(&mut self, event: &CoreEvent, facts: &Facts) -> (r: Result<
        PropagationTransportOutput,
        PropagationTransportError,
    >)
        requires
            old(self).wf(),
        ensures
            final(self).wf(),
            final(self).same_end(old(self)),
            final(self)@ == step(old(self)@, *event, *facts).0,
            reports(r, step(old(self)@, *event, *facts).1),
    {
        let events = match event {
            CoreEvent::AnnounceReceived { destination, aspect: Aspect::Propagation, app_data } => {
                return self.on_announce(*destination, app_data.as_slice(), facts);
            },
            CoreEvent::PathFound { destination } => {
                if self.wants_link(destination) {
                    self.connect(*destination, facts)?;
                }
                none()
            },
            CoreEvent::LinkEstablished { link_id, is_initiator: true } => self.on_established(
                *link_id,
                facts,
            ),
            CoreEvent::ResponseReceived { link_id, request_id, response_data } => {
                match self.take_request(link_id, request_id) {
                    Some(kind) => one(
                        PropagationTransportEvent::ResponseReceived {
                            link_id: *link_id,
                            kind,
                            data: to_vec(response_data.as_slice()),
                        },
                    ),
                    None => none(),
                }
            },
            CoreEvent::RequestTimedOut { link_id, request_id } => {
                match self.take_request(link_id, request_id) {
                    Some(kind) => one(
                        PropagationTransportEvent::RequestTimedOut { link_id: *link_id, kind },
                    ),
                    None => none(),
                }
            },
            CoreEvent::LinkDeliveryConfirmed { link_id, packet_hash } => {
                if self.uploads_packet(link_id, packet_hash) {
                    match self.take_upload(link_id) {
                        Some(message_id) => one(
                            PropagationTransportEvent::UploadCompleted {
                                link_id: *link_id,
                                message_id,
                            },
                        ),
                        None => none(),
                    }
                } else {
                    none()
                }
            },
            CoreEvent::LinkDeliveryFailed { link_id, packet_hash } => {
                if self.uploads_packet(link_id, packet_hash) {
                    match self.take_upload(link_id) {
                        Some(message_id) => one(
                            PropagationTransportEvent::UploadFailed {
                                link_id: *link_id,
                                message_id,
                                reason: PropagationUploadFailure::PacketTimeout,
                            },
                        ),
                        None => none(),
                    }
                } else {
                    none()
                }
            },
            CoreEvent::LinkDataReceived { link_id, data } => {
                match PropagationSignal::decode(data.as_slice()) {
                    Ok(signal) => {
                        if self.pending_uploads.contains(link_id) {
                            match self.take_upload(link_id) {
                                Some(message_id) => one(
                                    PropagationTransportEvent::UploadRejected {
                                        link_id: *link_id,
                                        message_id,
                                        signal,
                                    },
                                ),
                                None => none(),
                            }
                        } else {
                            none()
                        }
                    },
                    Err(_) => none(),
                }
            },
            CoreEvent::ResourceProgress {
                link_id,
                progress,
                transfer_size,
                is_sender,
                ..
            } => self.on_progress(*link_id, *progress, *transfer_size, *is_sender),
            CoreEvent::ResourceCompleted {
                link_id,
                resource_hash,
                is_sender: true,
                segment_index,
                total_segments,
                ..
            } => self.on_sent(*link_id, resource_hash, *segment_index == *total_segments),
            CoreEvent::ResourceFailed { link_id, resource_hash, error, is_sender: true } =>
                self.on_unsent(*link_id, resource_hash, *error),
            CoreEvent::LinkClosed { link_id, reason, .. } => self.on_closed(*link_id, *reason),
            _ => none(),
        };
        Ok(PropagationTransportOutput { events })
    }
}

fn carries(p: &PendingRequest, link_id: &LinkId, resource_hash: &[u8; 32]) -> (r: bool)
    ensures
        r == carried(*link_id, *resource_hash)(*p),
{
    if !same(&p.link_id, link_id) {
        return false;
    }
    match p.request_resource_hash {
        Some(hash) => same(&hash, resource_hash),
        None => false,
    }
}

// ---------------------------------------------------------------------------
// Laws
// ---------------------------------------------------------------------------

/// The note ends the upload on a link, one way or another.
pub open spec fn concludes(note: ClientNote, link: LinkId, message_id: [u8; 32]) -> bool {
    match note {
        ClientNote::UploadCompleted { link_id, message_id: m } => link_id == link && m
            == message_id,
        ClientNote::UploadFailed { link_id, message_id: m, .. } => link_id == link && m
            == message_id,
        ClientNote::UploadRejected { link_id, message_id: m, .. } => link_id == link && m
            == message_id,
        _ => false,
    }
}

/// Every established link is known by where it leads.
pub open spec fn active_owned(c: Client) -> bool {
    forall|d: DestinationHash| #[trigger]
        c.active.contains_key(d) ==> c.links.contains_key(c.active[d]) && c.links[c.active[d]] == d
}

/// An end is reported only of an upload that was in flight, and the upload is
/// then no longer in flight: it cannot be reported to end again.
pub proof fn law_upload_ends_once(
    c: Client,
    e: CoreEvent,
    f: Facts,
    i: int,
    link: LinkId,
    message_id: [u8; 32],
)
    requires
        step(c, e, f).1 is Ok,
        0 <= i < step(c, e, f).1->Ok_0.len(),
        concludes(step(c, e, f).1->Ok_0[i], link, message_id),
    ensures
        c.uploads.contains_key(link),
        c.uploads[link].message_id == message_id,
        step(c, e, f).0.uploads == c.uploads.remove(link),
{
}

/// A response is reported only for a request in flight on its link, and the
/// request is then no longer in flight.
pub proof fn law_response_answers_request(c: Client, e: CoreEvent, f: Facts, i: int, link: LinkId)
    requires
        step(c, e, f).1 is Ok,
        0 <= i < step(c, e, f).1->Ok_0.len(),
        step(c, e, f).1->Ok_0[i] matches ClientNote::ResponseReceived { link_id, .. } && link_id
            == link,
    ensures
        e matches CoreEvent::ResponseReceived { request_id, .. } && {
            &&& asked_on(c, request_id, link)
            &&& step(c, e, f).0.requests == c.requests.remove(request_id)
        },
{
}

/// Once a link is closed nothing of it is left.
pub proof fn law_closed_link_is_forgotten(
    c: Client,
    link: LinkId,
    reason: LinkCloseReason,
    is_initiator: bool,
    destination: DestinationHash,
    f: Facts,
)
    requires
        c.links.contains_key(link),
    ensures
        ({
            let next = step(
                c,
                CoreEvent::LinkClosed { link_id: link, reason, is_initiator, destination },
                f,
            ).0;
            &&& !next.links.contains_key(link)
            &&& !next.uploads.contains_key(link)
            &&& !next.wanted.contains(c.links[link])
            &&& forall|d: DestinationHash| #[trigger]
                next.pending.contains_key(d) ==> next.pending[d] != link
            &&& forall|d: DestinationHash| #[trigger]
                next.active.contains_key(d) ==> next.active[d] != link
            &&& forall|r: [u8; 16]| #[trigger]
                next.requests.contains_key(r) ==> next.requests[r].link_id != link
        }),
{
}

/// Once a link to a destination is established it is the only one there.
pub proof fn law_one_link_per_destination(c: Client, link: LinkId, f: Facts, other: LinkId)
    requires
        destination_of(c, link, f) is Some,
    ensures
        ({
            let d = destination_of(c, link, f)->Some_0;
            let next = step(c, CoreEvent::LinkEstablished { link_id: link, is_initiator: true }, f).0;
            &&& next.active[d] == link
            &&& next.links.contains_key(other) && next.links[other] == d ==> other == link
        }),
{
}

/// No event makes the adapter lose track of where an established link leads,
/// provided that a link it opens is a new one.
pub proof fn law_active_links_stay_owned(c: Client, e: CoreEvent, f: Facts)
    requires
        active_owned(c),
        !c.links.contains_key(f.new_link),
    ensures
        active_owned(step(c, e, f).0),
{
    let next = step(c, e, f).0;
    assert forall|d: DestinationHash| #[trigger] next.active.contains_key(d) implies {
        &&& next.links.contains_key(next.active[d])
        &&& next.links[next.active[d]] == d
    } by {
        if c.active.contains_key(d) {
            assert(c.links.contains_key(c.active[d]));
        }
    }
}

/// At most one upload is in flight per link, and a message is in flight on one
/// link at most.
pub open spec fn uploads_distinct(c: Client) -> bool {
    forall|a: LinkId, b: LinkId|
        #![trigger c.uploads[a], c.uploads[b]]
        c.uploads.contains_key(a) && c.uploads.contains_key(b) && c.uploads[a].message_id
            == c.uploads[b].message_id ==> a == b
}

/// An upload that is taken up keeps the messages in flight distinct.
pub proof fn law_uploads_stay_distinct(
    c: Client,
    link: LinkId,
    link_active: bool,
    upload: PendingUpload,
)
    requires
        uploads_distinct(c),
        upload_fault(c, link, link_active, upload.message_id) is None,
    ensures
        uploads_distinct(Client { uploads: c.uploads.insert(link, upload), ..c }),
{
    let next = Client { uploads: c.uploads.insert(link, upload), ..c };
    assert forall|a: LinkId, b: LinkId|
        #![trigger next.uploads[a], next.uploads[b]]
        next.uploads.contains_key(a) && next.uploads.contains_key(b) && next.uploads[a].message_id
            == next.uploads[b].message_id implies a == b by {
        if a != link && b != link {
            assert(c.uploads[a] == next.uploads[a] && c.uploads[b] == next.uploads[b]);
        } else if a != b {
            let o = if a == link {
                b
            } else {
                a
            };
            assert(c.uploads.contains_key(o));
        }
    }
}

/// No event takes up an upload.
pub proof fn law_events_start_no_upload(c: Client, e: CoreEvent, f: Facts)
    ensures
        step(c, e, f).0.uploads.submap_of(c.uploads),
        uploads_distinct(c) ==> uploads_distinct(step(c, e, f).0),
{
    let next = step(c, e, f).0;
    assert(next.uploads.submap_of(c.uploads));
    if uploads_distinct(c) {
        assert forall|a: LinkId, b: LinkId|
            #![trigger next.uploads[a], next.uploads[b]]
            next.uploads.contains_key(a) && next.uploads.contains_key(b)
                && next.uploads[a].message_id == next.uploads[b].message_id implies a == b by {
            assert(c.uploads[a] == next.uploads[a] && c.uploads[b] == next.uploads[b]);
        }
    }
}

/// What deselecting a link does.
pub open spec fn closing(before: Client, after: Client, link_id: LinkId, r: CoreCall) -> bool {
    &&& r == (CoreCall::CloseLink { link_id })
    &&& after == if before.links.contains_key(link_id) {
        Client { wanted: before.wanted.remove(before.links[link_id]), ..before }
    } else {
        before
    }
}

/// What giving up on a node does.
pub open spec fn cancelling(
    before: Client,
    after: Client,
    destination: DestinationHash,
    r: Option<CoreCall>,
) -> bool {
    &&& after == (Client { wanted: before.wanted.remove(destination), ..before })
    &&& r == if before.active.contains_key(destination) {
        Some(CoreCall::CloseLink { link_id: before.active[destination] })
    } else if before.pending.contains_key(destination) {
        Some(CoreCall::CloseLink { link_id: before.pending[destination] })
    } else {
        None::<CoreCall>
    }
}

/// What handing an upload to the stack does.
pub open spec fn submitting(
    before: Client,
    after: Client,
    link_id: LinkId,
    link_active: bool,
    message_id: [u8; 32],
    data_len: nat,
    sent: Result<[u8; 32], PropagationTransportError>,
    r: Result<PropagationTransportOutput, PropagationTransportError>,
) -> bool {
    match (upload_fault(before, link_id, link_active, message_id), sent) {
        (Some(e), _) => {
            &&& r == Err::<PropagationTransportOutput, PropagationTransportError>(e)
            &&& after == before
        },
        (None, Err(e)) => {
            &&& r == Err::<PropagationTransportOutput, PropagationTransportError>(e)
            &&& after == before
        },
        (None, Ok(hash)) => {
            &&& after == (Client {
                uploads: before.uploads.insert(
                    link_id,
                    PendingUpload {
                        message_id,
                        transfer: transfer_of(representation(data_len), hash),
                    },
                ),
                ..before
            })
            &&& r is Ok
            &&& notes(r->Ok_0.events@) == seq![
                ClientNote::UploadSubmitted {
                    link_id,
                    message_id,
                    representation: representation(data_len),
                },
            ]
        },
    }
}

/// What presenting the local identity on a link takes.
pub open spec fn identifying(
    c: Client,
    link_id: LinkId,
    has_identity: bool,
    r: Result<CoreCall, PropagationTransportError>,
) -> bool {
    r == if !c.links.contains_key(link_id) {
        Err::<CoreCall, PropagationTransportError>(
            PropagationTransportError::LinkUnavailable,
        )
    } else if !has_identity {
        Err(PropagationTransportError::InvalidDestination)
    } else {
        Ok(CoreCall::IdentifyLink { link_id })
    }
}

/// What keeping these nodes, and no others, does.
pub open spec fn retaining(
    before: Client,
    after: Client,
    destinations: Set<DestinationHash>,
) -> bool {
    after == (Client {
        known: before.known.restrict(destinations),
        ..before
    })
}

/// What a node that was known before does.
pub open spec fn recalling(before: Client, after: Client, known: Known) -> bool {
    after == (Client {
        known: before.known.insert(known.destination, known),
        ..before
    })
}

/// What forgetting a node does.
pub open spec fn forgetting(
    before: Client,
    after: Client,
    destination: DestinationHash,
    r: bool,
) -> bool {
    &&& r == before.known.contains_key(destination)
    &&& after == (Client { known: before.known.remove(destination), ..before })
}

/// What an announce does by itself.
pub open spec fn hearing(
    before: Client,
    after: Client,
    destination: DestinationHash,
    aspect: Aspect,
    app_data: Seq<u8>,
    r: Option<KnownPropagationNode>,
) -> bool {
    if aspect == Aspect::Propagation {
        &&& after == remembered(before, destination, app_data)
        &&& match r {
            Some(k) => heard(destination, app_data) == seq![
                ClientNote::NodeAnnounced(k@),
            ],
            None => heard(destination, app_data).len() == 0,
        }
    } else {
        r is None && after == before
    }
}

} // verus!
