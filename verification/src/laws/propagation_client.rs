//! The propagation client: links, requests and uploads through every event.
use vstd::prelude::*;

use crate::propagation_client::{
    cancelling, carried, closing, commit_fault, demand, ensured, fetching, forgetting, hearing,
    identifying, link_demand, notes, recalling, representation, requested, retaining, step,
    submitting, suitable, upload_fault, uploading_on, Client, ClientNote, Known,
    KnownPropagationNode, PendingUploadTransfer, PreparedUpload, PropagationRequestKind,
    PropagationTransportError, PropagationTransportOutput, PropagationUploadFailure,
    PropagationUploadRepresentation, RequestStep, SentRequest,
};
use crate::transport::{
    Aspect, CoreCall, CoreEvent, DestinationHash, DestinationInfo, Facts, LinkCloseReason, LinkId,
    RequestError, ResourceError,
};

verus! {

/// What ends an upload in flight on a link, and how.
pub open spec fn upload_end(c: Client, e: CoreEvent, link: LinkId) -> Option<ClientNote> {
    let u = c.uploads[link];
    match e {
        CoreEvent::LinkDeliveryConfirmed { link_id, packet_hash } => if link_id == link
            && u.transfer == (PendingUploadTransfer::Packet { packet_hash }) {
            Some(ClientNote::UploadCompleted { link_id: link, message_id: u.message_id })
        } else {
            None
        },
        CoreEvent::LinkDeliveryFailed { link_id, packet_hash } => if link_id == link && u.transfer
            == (PendingUploadTransfer::Packet { packet_hash }) {
            Some(
                ClientNote::UploadFailed {
                    link_id: link,
                    message_id: u.message_id,
                    reason: PropagationUploadFailure::PacketTimeout,
                },
            )
        } else {
            None
        },
        CoreEvent::LinkDataReceived { link_id, data } => if link_id == link
            && crate::propagation::signal_of(data@) is Ok {
            Some(
                ClientNote::UploadRejected {
                    link_id: link,
                    message_id: u.message_id,
                    signal: crate::propagation::signal_of(data@)->Ok_0,
                },
            )
        } else {
            None
        },
        CoreEvent::ResourceCompleted { link_id, is_sender, segment_index, total_segments, .. } =>
            if link_id == link && is_sender && segment_index == total_segments
                && u.transfer is Resource {
                Some(ClientNote::UploadCompleted { link_id: link, message_id: u.message_id })
            } else {
                None
            },
        CoreEvent::ResourceFailed { link_id, is_sender, error, .. } => if link_id == link
            && is_sender && u.transfer is Resource {
            Some(
                ClientNote::UploadFailed {
                    link_id: link,
                    message_id: u.message_id,
                    reason: PropagationUploadFailure::Resource(error),
                },
            )
        } else {
            None
        },
        CoreEvent::LinkClosed { link_id, reason, .. } => if link_id == link
            && c.links.contains_key(link) {
            Some(
                ClientNote::UploadFailed {
                    link_id: link,
                    message_id: u.message_id,
                    reason: PropagationUploadFailure::LinkClosed(reason),
                },
            )
        } else {
            None
        },
        _ => None,
    }
}

/// An upload ends with what ends it and with nothing else: a proof or the loss
/// of its packet, the last segment or the failure of its Resource, a signal of
/// the node, the end of its link. Its end is reported first. Other uploads go
/// on.
pub proof fn law_ends_of_uploads(c: Client, e: CoreEvent, f: Facts, link: LinkId)
    requires
        c.uploads.contains_key(link),
    ensures
        ({
            let (next, r) = step(c, e, f);
            let end = upload_end(c, e, link);
            &&& end is None ==> next.uploads.contains_key(link) && next.uploads[link]
                == c.uploads[link]
            &&& end is Some ==> !next.uploads.contains_key(link) && r is Ok && r->Ok_0.len() > 0
                && r->Ok_0[0] == end->Some_0
        }),
{
}

/// What ends a request in flight, and how; a request on a closed link ends
/// unreported.
pub open spec fn request_end(c: Client, e: CoreEvent, id: [u8; 16]) -> Option<ClientNote> {
    let q = c.requests[id];
    match e {
        CoreEvent::ResponseReceived { link_id, request_id, response_data } => if request_id == id
            && link_id == q.link_id {
            Some(
                ClientNote::ResponseReceived {
                    link_id: q.link_id,
                    kind: q.kind,
                    data: response_data@,
                },
            )
        } else {
            None
        },
        CoreEvent::RequestTimedOut { link_id, request_id } => if request_id == id && link_id
            == q.link_id {
            Some(ClientNote::RequestTimedOut { link_id: q.link_id, kind: q.kind })
        } else {
            None
        },
        CoreEvent::ResourceFailed { link_id, resource_hash, is_sender, .. } => if is_sender
            && link_id == q.link_id && q.request_resource_hash == Some(resource_hash) {
            Some(ClientNote::RequestTimedOut { link_id: q.link_id, kind: q.kind })
        } else {
            None
        },
        _ => None,
    }
}

/// A request ends with its response, its timeout, the failure of the Resource
/// that carries it or the end of its link, and is reported with its own kind.
/// A response on another link is not its own.
pub proof fn law_ends_of_requests(c: Client, e: CoreEvent, f: Facts, id: [u8; 16])
    requires
        c.requests.contains_key(id),
    ensures
        ({
            let (next, r) = step(c, e, f);
            let end = request_end(c, e, id);
            let gone = e is LinkClosed && e->LinkClosed_link_id == c.requests[id].link_id
                && c.links.contains_key(c.requests[id].link_id);
            &&& end is None && !gone ==> next.requests.contains_key(id) && next.requests[id].kind
                == c.requests[id].kind && next.requests[id].link_id == c.requests[id].link_id
            &&& gone ==> !next.requests.contains_key(id)
            &&& !next.requests.contains_key(id) && !gone ==> r is Ok && r->Ok_0.len() > 0
                && r->Ok_0.last() == end->Some_0
            &&& e is ResponseReceived || e is RequestTimedOut ==> (next.requests.contains_key(id)
                <==> end is None)
            &&& next.requests.contains_key(id) && next.requests[id].request_resource_hash
                != c.requests[id].request_resource_hash ==> e is ResourceCompleted
                && next.requests[id].request_resource_hash is None
        }),
{
    if e is ResourceFailed {
        let link = e->ResourceFailed_link_id;
        let hash = e->ResourceFailed_resource_hash;
        let p = carried(link, hash);
        if let Some(k) = crate::bytemap::first_key(c.requests, p) {
            crate::bytemap::lemma_first_is_first(c.requests, p);
        }
    }
}

/// The failure of a Resource that carries requests ends one of them.
pub proof fn law_failed_carrier(
    c: Client,
    f: Facts,
    link: LinkId,
    resource_hash: [u8; 32],
    error: ResourceError,
    id: [u8; 16],
)
    requires
        c.requests.contains_key(id),
        c.requests[id].link_id == link,
        c.requests[id].request_resource_hash == Some(resource_hash),
        c.requests.dom().finite(),
    ensures
        ({
            let e = CoreEvent::ResourceFailed { link_id: link, resource_hash, error, is_sender: true };
            let (next, r) = step(c, e, f);
            exists|k: [u8; 16]| #[trigger]
                c.requests.contains_key(k) && !next.requests.contains_key(k)
                    && c.requests[k].request_resource_hash == Some(resource_hash)
        }),
{
    let p = carried(link, resource_hash);
    crate::bytemap::lemma_first_exists(c.requests, p, id);
    crate::bytemap::lemma_first_is_first(c.requests, p);
    let k = crate::bytemap::first_key(c.requests, p)->Some_0;
    assert(c.requests.contains_key(k));
}

/// The events of requests, uploads and Resources leave links alone; the
/// events of links and nodes leave uploads and requests alone, but for the end
/// of a link.
pub proof fn law_events_keep_to_their_own(c: Client, e: CoreEvent, f: Facts)
    ensures
        ({
            let next = step(c, e, f).0;
            &&& !(e is AnnounceReceived || e is PathFound || e is LinkEstablished
                || e is LinkClosed) ==> {
                &&& next.known == c.known
                &&& next.wanted == c.wanted
                &&& next.pending == c.pending
                &&& next.links == c.links
                &&& next.active == c.active
            }
            &&& e is AnnounceReceived || e is PathFound || e is LinkEstablished ==> {
                &&& next.uploads == c.uploads
                &&& next.requests == c.requests
            }
            &&& !(e is AnnounceReceived) ==> next.known == c.known
            &&& !(e is LinkEstablished || e is LinkClosed) ==> next.active == c.active
        }),
{
}

/// An announce of a node that can be read is remembered and reported, whatever
/// comes of its link. Other announces are not heard.
pub proof fn law_heard_announces(
    c: Client,
    destination: DestinationHash,
    aspect: Aspect,
    app_data: Vec<u8>,
    f: Facts,
    other: DestinationHash,
)
    ensures
        ({
            let (next, r) = step(c, CoreEvent::AnnounceReceived { destination, aspect, app_data }, f);
            let a = crate::propagation::announce_of(app_data@);
            &&& aspect != Aspect::Propagation ==> next == c && r is Ok && r->Ok_0.len() == 0
            &&& aspect == Aspect::Propagation && a is Ok ==> next.known.contains_key(destination)
                && next.known[destination].announce == a->Ok_0
                && next.known[destination].destination == destination
            &&& aspect == Aspect::Propagation && a is Ok && r is Ok ==> r->Ok_0.len() == 1
                && r->Ok_0[0] == ClientNote::NodeAnnounced(next.known[destination])
            &&& a is Err ==> next.known == c.known
            &&& a is Err && r is Ok ==> r->Ok_0.len() == 0
            &&& other != destination ==> next.known.contains_key(other) == c.known.contains_key(
                other,
            ) && (c.known.contains_key(other) ==> next.known[other] == c.known[other])
        }),
{
}

/// A link is opened on an announce or a path where one is wanted and none is
/// being established. It is opened with one call, and fails where the far end
/// is unknown.
pub proof fn law_wanted_links_open(
    c: Client,
    d: DestinationHash,
    aspect: Aspect,
    app_data: Vec<u8>,
    f: Facts,
    by_path: bool,
)
    requires
        by_path || aspect == Aspect::Propagation,
    ensures
        ({
            let e = if by_path {
                CoreEvent::PathFound { destination: d }
            } else {
                CoreEvent::AnnounceReceived { destination: d, aspect, app_data }
            };
            let (next, r) = step(c, e, f);
            let due = c.wanted.contains(d) && !c.pending.contains_key(d) && (by_path || f.has_path);
            &&& due && f.identity_known ==> {
                &&& demand(c, e, f) == Some(CoreCall::Connect { destination: d })
                &&& next.pending.contains_key(d)
                &&& next.pending[d] == f.new_link
                &&& next.links.contains_key(f.new_link)
                &&& next.links[f.new_link] == d
                &&& r is Ok
            }
            &&& due && !f.identity_known ==> r == Err::<Seq<ClientNote>, PropagationTransportError>(
                PropagationTransportError::UnknownNode,
            )
            &&& !due ==> r is Ok
            &&& !(due && f.identity_known) ==> demand(c, e, f) is None && next.pending == c.pending
                && next.links == c.links
            &&& next.wanted == c.wanted
            &&& next.active == c.active
        }),
{
}

/// A link that this side opened becomes the link of its destination: the one
/// that it was opened for, else the wanted one that it leads to.
pub proof fn law_established_links(
    c: Client,
    link: LinkId,
    is_initiator: bool,
    f: Facts,
    other: DestinationHash,
)
    ensures
        ({
            let (next, r) = step(c, CoreEvent::LinkEstablished { link_id: link, is_initiator }, f);
            let own = c.links.contains_key(link);
            let led = f.link_destination is Some && c.wanted.contains(f.link_destination->Some_0);
            let d = if own {
                c.links[link]
            } else {
                f.link_destination->Some_0
            };
            &&& r is Ok
            &&& is_initiator && (own || led) ==> {
                &&& r->Ok_0 == seq![ClientNote::LinkEstablished { destination: d, link_id: link }]
                &&& next.active.contains_key(d)
                &&& next.active[d] == link
                &&& next.links.contains_key(link)
                &&& next.links[link] == d
                &&& !next.pending.contains_key(d)
                &&& !next.wanted.contains(d)
                &&& other != d ==> next.pending.contains_key(other) == c.pending.contains_key(other)
                    && next.wanted.contains(other) == c.wanted.contains(other)
                    && next.active.contains_key(other) == c.active.contains_key(other)
            }
            &&& !(is_initiator && (own || led)) ==> next == c && r->Ok_0.len() == 0
        }),
{
}

/// A closed link of this side is reported last; one that is not its own is not
/// its business.
pub proof fn law_closed_links(
    c: Client,
    link: LinkId,
    reason: LinkCloseReason,
    is_initiator: bool,
    destination: DestinationHash,
    f: Facts,
    other: LinkId,
)
    ensures
        ({
            let (next, r) = step(
                c,
                CoreEvent::LinkClosed { link_id: link, reason, is_initiator, destination },
                f,
            );
            &&& r is Ok
            &&& !c.links.contains_key(link) ==> next == c && r->Ok_0.len() == 0
            &&& c.links.contains_key(link) ==> {
                &&& r->Ok_0.last() == (ClientNote::LinkClosed {
                    link_id: link,
                    destination: c.links[link],
                    reason,
                })
                &&& r->Ok_0.len() == if c.uploads.contains_key(link) {
                    2nat
                } else {
                    1nat
                }
            }
            &&& other != link ==> next.links.contains_key(other) == c.links.contains_key(other) && (
            c.links.contains_key(other) ==> next.links[other] == c.links[other])
        }),
{
}

/// Progress is told of the upload of the link where it is sent, and of a
/// request that fetches data where it is received.
pub proof fn law_client_progress(
    c: Client,
    f: Facts,
    link: LinkId,
    resource_hash: [u8; 32],
    progress: u32,
    transfer_size: u64,
    data_size: u64,
    is_sender: bool,
)
    ensures
        ({
            let e = CoreEvent::ResourceProgress {
                link_id: link,
                resource_hash,
                progress,
                transfer_size,
                data_size,
                is_sender,
            };
            let (next, r) = step(c, e, f);
            &&& next == c
            &&& r is Ok
            &&& r->Ok_0.len() <= 1
            &&& is_sender ==> (r->Ok_0.len() == 1 <==> c.uploads.contains_key(link)
                && c.uploads[link].transfer is Resource)
            &&& is_sender && r->Ok_0.len() == 1 ==> r->Ok_0[0] == (ClientNote::UploadProgress {
                link_id: link,
                message_id: c.uploads[link].message_id,
                progress,
            })
            &&& !is_sender && r->Ok_0.len() == 1 ==> {
                &&& r->Ok_0[0] is RequestProgress
                &&& r->Ok_0[0]->RequestProgress_link_id == link
                &&& r->Ok_0[0]->RequestProgress_progress == progress
                &&& r->Ok_0[0]->transfer_size == transfer_size
                &&& r->Ok_0[0]->RequestProgress_kind != PropagationRequestKind::Acknowledge
                &&& exists|k: [u8; 16]| #[trigger]
                    c.requests.contains_key(k) && c.requests[k].link_id == link
                        && c.requests[k].kind == r->Ok_0[0]->RequestProgress_kind
            }
        }),
{
    let p = fetching(link);
    if let Some(k) = crate::bytemap::first_key(c.requests, p) {
        crate::bytemap::lemma_first_is_first(c.requests, p);
        assert(c.requests.contains_key(k));
    }
}

/// A lost packet of an upload closes its link; no other event of a Resource,
/// request or packet demands a call.
pub proof fn law_client_calls(c: Client, e: CoreEvent, f: Facts)
    ensures
        demand(c, e, f) is Some && demand(c, e, f)->Some_0 is CloseLink <==> e
            is LinkDeliveryFailed && c.uploads.contains_key(e->LinkDeliveryFailed_link_id)
            && c.uploads[e->LinkDeliveryFailed_link_id].transfer
            == (PendingUploadTransfer::Packet { packet_hash: e->LinkDeliveryFailed_packet_hash }),
        demand(c, e, f) is Some && demand(c, e, f)->Some_0 is CloseLink
            ==> demand(c, e, f)->Some_0->CloseLink_link_id == e->LinkDeliveryFailed_link_id,
        demand(c, e, f) is Some && !(e is LinkDeliveryFailed) ==> e is PathFound
            || e is AnnounceReceived,
{
}

/// Asking for a link gives up a dead one, asks for a path where there is none,
/// opens a link where there is one, and does nothing where a link is there or
/// on its way.
pub proof fn law_asking_for_a_link(c: Client, d: DestinationHash, link_active: bool, f: Facts)
    ensures
        ({
            let (next, r) = ensured(c, d, link_active, f);
            let call = link_demand(c, d, link_active, f);
            let live = c.active.contains_key(d) && link_active;
            let dead = c.active.contains_key(d) && !link_active;
            let under_way = c.pending.contains_key(d);
            &&& live || under_way ==> call is None && r is Ok && next.pending == c.pending
                && next.wanted == c.wanted
            &&& live ==> next == c
            &&& dead ==> !next.active.contains_key(d)
            &&& !(live || under_way) ==> next.wanted.contains(d)
            &&& !(live || under_way) && !f.has_path ==> call == Some(
                CoreCall::RequestPath { destination: d },
            ) && r is Ok && next.pending == c.pending
            &&& !(live || under_way) && f.has_path && f.identity_known ==> call == Some(
                CoreCall::Connect { destination: d },
            ) && r is Ok && next.pending.contains_key(d) && next.pending[d] == f.new_link
                && next.links.contains_key(f.new_link) && next.links[f.new_link] == d
            &&& !(live || under_way) && f.has_path && !f.identity_known ==> call is None && r
                == Err::<(), PropagationTransportError>(PropagationTransportError::UnknownNode)
                && next.pending == c.pending
            &&& next.uploads == c.uploads && next.requests == c.requests && next.known == c.known
        }),
{
}

/// What fits one packet, 319 bytes, goes as one; more goes as a Resource.
pub proof fn law_upload_representation(len: nat)
    ensures
        len <= 319 ==> representation(len) == PropagationUploadRepresentation::Packet,
        len > 319 ==> representation(len) == PropagationUploadRepresentation::Resource,
{
}

/// An upload needs a live link of this adapter that carries none, and a
/// message that is on no other link.
pub proof fn law_uploads_start(
    c: Client,
    prepared: PreparedUpload,
    link_active: bool,
    sent: Result<[u8; 32], PropagationTransportError>,
    other: LinkId,
)
    requires
        other != prepared.link_id,
    ensures
        ({
            let fault = commit_fault(c, prepared, link_active, sent);
            let link = prepared.link_id;
            &&& fault is None ==> c.links.contains_key(link) && link_active && sent is Ok
                && !c.uploads.contains_key(link)
            &&& fault is None && c.uploads.contains_key(other) ==> c.uploads[other].message_id
                != prepared.message_id
            &&& !c.links.contains_key(link) || !link_active ==> fault == Some(
                PropagationTransportError::LinkUnavailable,
            )
            &&& c.links.contains_key(link) && link_active && (c.uploads.contains_key(link) || (
            c.uploads.contains_key(other) && c.uploads[other].message_id == prepared.message_id))
                ==> fault == Some(PropagationTransportError::UploadInProgress)
            &&& sent is Err && upload_fault(c, link, link_active, prepared.message_id) is None
                ==> fault == Some(sent->Err_0)
            &&& sent is Ok ==> fault == upload_fault(c, link, link_active, prepared.message_id)
        }),
{
}

/// An upload that the stack took is in flight on its link, to be found again
/// by its packet where it is one.
pub proof fn law_upload_in_flight(
    c: Client,
    prepared: PreparedUpload,
    hash: [u8; 32],
    other: LinkId,
)
    requires
        other != prepared.link_id,
    ensures
        ({
            let next = uploading_on(c, prepared, hash);
            let link = prepared.link_id;
            &&& next.uploads.contains_key(link)
            &&& next.uploads[link].message_id == prepared.message_id
            &&& prepared.representation is Packet ==> next.uploads[link].transfer == (
            PendingUploadTransfer::Packet { packet_hash: hash })
            &&& prepared.representation is Resource ==> next.uploads[link].transfer is Resource
            &&& next.uploads.contains_key(other) == c.uploads.contains_key(other)
            &&& c.uploads.contains_key(other) ==> next.uploads[other] == c.uploads[other]
            &&& next.links == c.links && next.active == c.active && next.pending == c.pending
                && next.wanted == c.wanted && next.requests == c.requests && next.known == c.known
        }),
{
}

/// A request needs a live link of this adapter. One too large for a packet is
/// to go as a Resource; one that was sent waits for its answer, with its kind
/// and the Resource that carries it.
pub proof fn law_requests_start(
    c: Client,
    link: LinkId,
    link_active: bool,
    kind: PropagationRequestKind,
    sent: SentRequest,
)
    ensures
        ({
            let (next, r) = requested(c, link, link_active, kind, sent);
            let usable = c.links.contains_key(link) && link_active;
            &&& !usable ==> r == Err::<RequestStep, PropagationTransportError>(
                PropagationTransportError::LinkUnavailable,
            )
            &&& r == Ok::<RequestStep, PropagationTransportError>(RequestStep::Submitted)
                <==> usable && (sent is Packet && sent->Packet_0 is Ok || sent is Resource
                && sent->Resource_0 is Ok)
            &&& r == Ok::<RequestStep, PropagationTransportError>(RequestStep::SendAsResource)
                <==> usable && sent is Packet && sent->Packet_0 == Err::<[u8; 16], RequestError>(
                RequestError::PayloadTooLarge,
            )
            &&& r != Ok::<RequestStep, PropagationTransportError>(RequestStep::Submitted) ==> next
                == c
            &&& usable && sent is Packet && sent->Packet_0 is Ok ==> {
                let id = sent->Packet_0->Ok_0;
                &&& next.requests.contains_key(id)
                &&& next.requests[id].kind == kind
                &&& next.requests[id].link_id == link
                &&& next.requests[id].request_resource_hash is None
            }
            &&& usable && sent is Resource && sent->Resource_0 is Ok ==> {
                let (id, hash) = sent->Resource_0->Ok_0;
                &&& next.requests.contains_key(id)
                &&& next.requests[id].kind == kind
                &&& next.requests[id].link_id == link
                &&& next.requests[id].request_resource_hash == Some(hash)
            }
            &&& usable && sent is Resource && sent->Resource_0 is Err ==> r == Err::<
                RequestStep,
                PropagationTransportError,
            >(PropagationTransportError::Resource(sent->Resource_0->Err_0))
            &&& next.links == c.links && next.active == c.active && next.pending == c.pending
                && next.wanted == c.wanted && next.uploads == c.uploads && next.known == c.known
        }),
{
}

/// The local end receives, belongs to one identity and is of the propagation
/// aspect.
pub proof fn law_client_destination(info: DestinationInfo)
    ensures
        suitable(info) ==> info.incoming && info.single && info.identity_hash is Some && info.aspect
            == Aspect::Propagation,
        !suitable(info) ==> !info.incoming || !info.single || info.identity_hash is None
            || info.aspect != Aspect::Propagation,
{
}

/// Deselecting a link closes it, and its destination is wanted no longer.
pub proof fn law_closing(before: Client, after: Client, link_id: LinkId, r: CoreCall)
    requires
        closing(before, after, link_id, r),
    ensures
        r == (CoreCall::CloseLink { link_id }),
        before.links.contains_key(link_id) ==> !after.wanted.contains(before.links[link_id]),
        after.links == before.links && after.active == before.active && after.pending
            == before.pending && after.uploads == before.uploads && after.requests
            == before.requests && after.known == before.known,
        !before.links.contains_key(link_id) ==> after == before,
{
}

/// Giving up on a node closes its link, the established one first, and the
/// node is wanted no longer.
pub proof fn law_cancelling(
    before: Client,
    after: Client,
    destination: DestinationHash,
    r: Option<CoreCall>,
    other: DestinationHash,
)
    requires
        cancelling(before, after, destination, r),
        other != destination,
    ensures
        !after.wanted.contains(destination),
        after.wanted.contains(other) == before.wanted.contains(other),
        before.active.contains_key(destination) ==> r == Some(
            CoreCall::CloseLink { link_id: before.active[destination] },
        ),
        !before.active.contains_key(destination) && before.pending.contains_key(destination) ==> r
            == Some(CoreCall::CloseLink { link_id: before.pending[destination] }),
        r is None <==> !before.active.contains_key(destination) && !before.pending.contains_key(
            destination,
        ),
        after.links == before.links && after.uploads == before.uploads && after.requests
            == before.requests && after.active == before.active && after.pending == before.pending,
{
}

/// An upload that the stack took is in flight and reported as submitted; one
/// that it did not take, or that may not start, changes nothing.
pub proof fn law_submitting(
    before: Client,
    after: Client,
    link_id: LinkId,
    link_active: bool,
    message_id: [u8; 32],
    data_len: nat,
    sent: Result<[u8; 32], PropagationTransportError>,
    r: Result<PropagationTransportOutput, PropagationTransportError>,
)
    requires
        submitting(before, after, link_id, link_active, message_id, data_len, sent, r),
    ensures
        r is Err ==> after == before,
        r is Ok <==> sent is Ok && upload_fault(before, link_id, link_active, message_id) is None,
        r is Ok ==> after.uploads.contains_key(link_id) && after.uploads[link_id].message_id
            == message_id,
        r is Ok && data_len <= 319 ==> after.uploads[link_id].transfer == (
        PendingUploadTransfer::Packet { packet_hash: sent->Ok_0 }),
        r is Ok && data_len > 319 ==> after.uploads[link_id].transfer is Resource,
        r is Ok ==> notes(r->Ok_0.events@) == seq![
            ClientNote::UploadSubmitted {
                link_id,
                message_id,
                representation: if data_len <= 319 {
                    PropagationUploadRepresentation::Packet
                } else {
                    PropagationUploadRepresentation::Resource
                },
            },
        ],
        sent is Err && upload_fault(before, link_id, link_active, message_id) is None ==> r->Err_0
            == sent->Err_0,
        after.links == before.links && after.requests == before.requests && after.known
            == before.known,
{
}

/// The local identity is presented on links of this adapter.
pub proof fn law_identifying(
    c: Client,
    link_id: LinkId,
    has_identity: bool,
    r: Result<CoreCall, PropagationTransportError>,
)
    requires
        identifying(c, link_id, has_identity, r),
    ensures
        r is Ok <==> c.links.contains_key(link_id) && has_identity,
        r is Ok ==> r->Ok_0 == (CoreCall::IdentifyLink { link_id }),
        !c.links.contains_key(link_id) ==> r->Err_0 == PropagationTransportError::LinkUnavailable,
        c.links.contains_key(link_id) && !has_identity ==> r->Err_0
            == PropagationTransportError::InvalidDestination,
{
}

/// The known nodes: those kept, recalled and forgotten are what they are by
/// destination, and the rest of the client does not change.
pub proof fn law_known_nodes(
    before: Client,
    after: Client,
    destinations: Set<DestinationHash>,
    known: Known,
    d: DestinationHash,
    r: bool,
    k: DestinationHash,
)
    ensures
        retaining(before, after, destinations) ==> {
            &&& after.known.contains_key(k) <==> before.known.contains_key(k)
                && destinations.contains(k)
            &&& after.known.contains_key(k) ==> after.known[k] == before.known[k]
            &&& after.links == before.links && after.wanted == before.wanted
        },
        recalling(before, after, known) ==> {
            &&& after.known.contains_key(known.destination)
            &&& after.known[known.destination] == known
            &&& k != known.destination ==> after.known.contains_key(k)
                == before.known.contains_key(k)
            &&& after.links == before.links && after.wanted == before.wanted
        },
        forgetting(before, after, d, r) ==> {
            &&& !after.known.contains_key(d)
            &&& r == before.known.contains_key(d)
            &&& k != d ==> after.known.contains_key(k) == before.known.contains_key(k) && (
            before.known.contains_key(k) ==> after.known[k] == before.known[k])
            &&& after.links == before.links && after.wanted == before.wanted
        },
{
}

/// An announce by itself is remembered where it is of a node and can be read.
pub proof fn law_hearing(
    before: Client,
    after: Client,
    destination: DestinationHash,
    aspect: Aspect,
    app_data: Seq<u8>,
    r: Option<KnownPropagationNode>,
)
    requires
        hearing(before, after, destination, aspect, app_data, r),
    ensures
        r is Some <==> aspect == Aspect::Propagation && crate::propagation::announce_of(app_data)
            is Ok,
        r is Some ==> r->Some_0@.destination == destination && r->Some_0@.announce
            == crate::propagation::announce_of(app_data)->Ok_0 && after.known.contains_key(
            destination,
        ) && after.known[destination] == r->Some_0@,
        r is None ==> after == before,
        after.pending == before.pending && after.links == before.links,
{
    let s = crate::propagation_client::heard(destination, app_data);
    if r is Some && aspect == Aspect::Propagation {
        let note = seq![ClientNote::NodeAnnounced(r->Some_0@)];
        assert(note.len() == 1 && note[0] == ClientNote::NodeAnnounced(r->Some_0@));
        assert(s.len() == 1);
        assert(s[0] == ClientNote::NodeAnnounced(r->Some_0@));
    } else if r is None && aspect == Aspect::Propagation {
        assert(s.len() == 0);
    }
}

/// An upload that nothing stands against starts.
pub proof fn law_uploads_may_start(
    c: Client,
    prepared: PreparedUpload,
    link_active: bool,
    hash: [u8; 32],
)
    requires
        c.links.contains_key(prepared.link_id),
        link_active,
        forall|l: LinkId| #[trigger]
            c.uploads.contains_key(l) ==> l != prepared.link_id && c.uploads[l].message_id
                != prepared.message_id,
    ensures
        commit_fault(
            c,
            prepared,
            link_active,
            Ok::<[u8; 32], PropagationTransportError>(hash),
        ) is None,
        upload_fault(c, prepared.link_id, link_active, prepared.message_id) is None,
{
}

} // verus!
