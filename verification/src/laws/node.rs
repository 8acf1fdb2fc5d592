//! The delivery adapter: how messages go out and come in.
use vstd::prelude::*;

use crate::message::{DeliveryMethod, SignatureCheck};
use crate::node::{
    arrival, cancelled, concluding, demand, emitted, ensured, in_flight, link_demand,
    link_packet_sent, live_link, losses, notes, on_link, packet_sent, planned, portion_of,
    represented, resource_sent, resource_submitted, resource_wanted, segment, step, suitable,
    Delivery, DeliveryFailure, DeliveryRepresentation, DirectLinkState, InboundRejection,
    LxmfNodeError, LxmfNodeOutput, LxmfResourceSendParams, NodeNote, Plan, Portion,
    PreparedLxmfSend, SubmissionId,
};
use crate::transport::{
    Aspect, CoreCall, CoreEvent, DestinationHash, DestinationInfo, Facts, LinkCloseReason, LinkId,
    ResourceError,
};

verus! {

// ---------------------------------------------------------------------------
// Messages that go out
// ---------------------------------------------------------------------------

/// An opportunistic message of up to 407 bytes goes as one packet; any other
/// of up to 431 as one packet on a link, and a larger one as a Resource. The
/// other methods are not sent this way.
pub proof fn law_representation(method: DeliveryMethod, len: nat)
    ensures
        ({
            let r = represented(method, len);
            let here = method == DeliveryMethod::Opportunistic || method == DeliveryMethod::Direct;
            &&& r == Ok::<DeliveryRepresentation, LxmfNodeError>(
                DeliveryRepresentation::OpportunisticPacket,
            ) <==> method == DeliveryMethod::Opportunistic && len <= 407
            &&& r == Ok::<DeliveryRepresentation, LxmfNodeError>(
                DeliveryRepresentation::DirectPacket,
            ) <==> len <= 431 && (method == DeliveryMethod::Direct || method
                == DeliveryMethod::Opportunistic && len > 407)
            &&& r == Ok::<DeliveryRepresentation, LxmfNodeError>(
                DeliveryRepresentation::DirectResource,
            ) <==> here && len > 431
            &&& !here ==> r == Err::<DeliveryRepresentation, LxmfNodeError>(
                LxmfNodeError::UnsupportedMethod,
            )
        }),
{
}

/// What is sent is the whole message, on the live link of its destination; a
/// single packet leaves out the destination, which its header names.
pub proof fn law_sent_message(c: Delivery, m: crate::message::Mail, link_active: bool)
    ensures
        ({
            let (next, r) = planned(c, m, link_active);
            let packed = crate::message::mail_bytes(m);
            let reachable = c.direct.contains_key(m.destination) && link_active;
            &&& r is Ok && r->Ok_0 is Packet ==> m.method == DeliveryMethod::Opportunistic
                && packed.len() <= 407 && r->Ok_0->destination == m.destination
                && r->Ok_0->Packet_data == packed.skip(16) && next == c
            &&& r is Ok && r->Ok_0 is LinkPacket ==> reachable && r->Ok_0->LinkPacket_link_id
                == c.direct[m.destination] && r->Ok_0->LinkPacket_data == packed && packed.len()
                <= 431
            &&& r is Ok && r->Ok_0 is Resource ==> reachable && r->Ok_0->Resource_link_id
                == c.direct[m.destination] && r->Ok_0->Resource_data == packed && packed.len() > 431
                && r->Ok_0->auto_compress == c.config.auto_compress_resources
            &&& m.method == DeliveryMethod::Opportunistic && packed.len() <= 407 ==> r is Ok
                && r->Ok_0 is Packet
            &&& m.method == DeliveryMethod::Direct && reachable ==> r is Ok
            &&& m.method == DeliveryMethod::Direct && !reachable ==> r == Err::<Plan, LxmfNodeError>(
                LxmfNodeError::DirectLinkUnavailable,
            ) && !next.direct.contains_key(m.destination)
            &&& m.method == DeliveryMethod::Propagated || m.method == DeliveryMethod::Paper ==> r
                == Err::<Plan, LxmfNodeError>(LxmfNodeError::UnsupportedMethod) && next == c
        }),
{
}

/// A link that is dead is given up when it is asked for; a live one is kept.
pub proof fn law_live_link(
    c: Delivery,
    d: DestinationHash,
    link_active: bool,
    other: DestinationHash,
)
    ensures
        ({
            let (next, r) = live_link(c, d, link_active);
            &&& r is Ok <==> c.direct.contains_key(d) && link_active
            &&& r is Ok ==> r->Ok_0 == c.direct[d] && next == c
            &&& r is Err ==> r->Err_0 == LxmfNodeError::DirectLinkUnavailable
                && !next.direct.contains_key(d)
            &&& other != d ==> next.direct.contains_key(other) == c.direct.contains_key(other) && (
            c.direct.contains_key(other) ==> next.direct[other] == c.direct[other])
            &&& next.links == c.links && next.pending == c.pending && next.wanted == c.wanted
                && next.receipts == c.receipts && next.resources == c.resources
        }),
{
}

/// Asking for a direct link: a live one is ready, one on its way is waited
/// for, an unknown peer cannot be reached, a peer without a path is searched
/// and any other is connected to.
pub proof fn law_asking_for_a_direct_link(
    c: Delivery,
    d: DestinationHash,
    link_active: bool,
    f: Facts,
)
    ensures
        ({
            let (next, r) = ensured(c, d, link_active, f);
            let call = link_demand(c, d, link_active, f);
            let live = c.direct.contains_key(d) && link_active;
            let under_way = !live && c.pending.contains_key(d);
            let idle = !live && !under_way;
            &&& live ==> r is Ok && r->Ok_0.0 == DirectLinkState::Ready(c.direct[d]) && next == c
                && call is None
            &&& !live ==> !next.direct.contains_key(d)
            &&& under_way ==> r is Ok && r->Ok_0.0 == DirectLinkState::Connecting(c.pending[d])
                && call is None && next.pending == c.pending && next.wanted == c.wanted
            &&& idle && !f.identity_known ==> r is Err && r->Err_0 == LxmfNodeError::UnknownPeer
                && call is None && next.wanted == c.wanted && next.pending == c.pending
            &&& idle && f.identity_known && !f.has_path ==> r is Ok && r->Ok_0.0
                == DirectLinkState::PathRequested && r->Ok_0.1 == seq![
                NodeNote::PathRequested { destination: d },
            ] && call == Some(CoreCall::RequestPath { destination: d }) && next.wanted.contains(d)
                && next.pending == c.pending
            &&& idle && f.identity_known && f.has_path ==> r is Ok && r->Ok_0.0
                == DirectLinkState::Started(f.new_link) && call == Some(
                CoreCall::Connect { destination: d },
            ) && next.wanted.contains(d) && next.pending.contains_key(d) && next.pending[d]
                == f.new_link && next.links.contains_key(f.new_link) && next.links[f.new_link] == d
            &&& r is Ok && r->Ok_0.0 != DirectLinkState::PathRequested ==> r->Ok_0.1.len() == 0
            &&& next.owned == c.owned && next.receipts == c.receipts && next.link_receipts
                == c.link_receipts && next.resources == c.resources && next.partial == c.partial
        }),
{
}

/// A Resource that was taken is in flight on its link, with the length of the
/// whole message and no more than 1048575 bytes in its first part.
pub proof fn law_resource_in_flight(
    c: Delivery,
    link: LinkId,
    message_id: [u8; 32],
    resource: [u8; 32],
    len: nat,
    other: LinkId,
)
    requires
        len <= u64::MAX,
        other != link,
    ensures
        ({
            let next = resource_submitted(c, link, message_id, resource, len);
            let p = next.resources[link];
            &&& next.resources.contains_key(link)
            &&& p.message_id == message_id
            &&& p.current_resource_hash == resource
            &&& p.completed_size == 0
            &&& p.total_size == len
            &&& len <= 1_048_575 ==> p.current_size == len
            &&& len > 1_048_575 ==> p.current_size == 1_048_575
            &&& next.resources.contains_key(other) == c.resources.contains_key(other)
            &&& c.resources.contains_key(other) ==> next.resources[other] == c.resources[other]
            &&& next.receipts == c.receipts && next.link_receipts == c.link_receipts && next.direct
                == c.direct
        }),
{
}

/// Cancelling a message forgets every trace of it and of no other.
pub proof fn law_cancelled_message(
    c: Delivery,
    message_id: [u8; 32],
    a: [u8; 16],
    b: [u8; 32],
    l: LinkId,
)
    ensures
        ({
            let next = cancelled(c, message_id);
            &&& next.receipts.contains_key(a) <==> c.receipts.contains_key(a) && c.receipts[a]
                != message_id
            &&& next.receipts.contains_key(a) ==> next.receipts[a] == c.receipts[a]
            &&& next.link_receipts.contains_key(b) <==> c.link_receipts.contains_key(b)
                && c.link_receipts[b].message_id != message_id
            &&& next.link_receipts.contains_key(b) ==> next.link_receipts[b] == c.link_receipts[b]
            &&& next.resources.contains_key(l) <==> c.resources.contains_key(l)
                && c.resources[l].message_id != message_id
            &&& next.resources.contains_key(l) ==> next.resources[l] == c.resources[l]
            &&& next.direct == c.direct && next.links == c.links && next.owned == c.owned
                && next.partial == c.partial && next.incoming == c.incoming && next.pending
                == c.pending && next.wanted == c.wanted
        }),
{
}

/// What ends a message that went out as one packet, and how.
pub open spec fn packet_end(c: Delivery, e: CoreEvent, hash: [u8; 16]) -> Option<NodeNote> {
    match e {
        CoreEvent::PacketDeliveryConfirmed { packet_hash } => if packet_hash == hash {
            Some(NodeNote::Delivered { message_id: c.receipts[hash] })
        } else {
            None
        },
        CoreEvent::DeliveryFailed { packet_hash, error } => if packet_hash == hash {
            Some(
                NodeNote::DeliveryFailed {
                    message_id: c.receipts[hash],
                    reason: DeliveryFailure::Opportunistic(error),
                },
            )
        } else {
            None
        },
        _ => None,
    }
}

/// A single packet waits until it is proved or given up, and its message is
/// then reported, once.
pub proof fn law_ends_of_packets(c: Delivery, e: CoreEvent, f: Facts, hash: [u8; 16])
    requires
        c.receipts.contains_key(hash),
    ensures
        ({
            let (next, r) = step(c, e, f);
            let end = packet_end(c, e, hash);
            &&& end is None ==> next.receipts.contains_key(hash) && next.receipts[hash]
                == c.receipts[hash]
            &&& end is Some ==> !next.receipts.contains_key(hash) && r == Ok::<
                Seq<NodeNote>,
                LxmfNodeError,
            >(seq![end->Some_0])
        }),
{
}

/// What ends a message that went out in one packet on a link, and how; the end
/// of its link counts.
pub open spec fn link_packet_end(c: Delivery, e: CoreEvent, hash: [u8; 32]) -> Option<NodeNote> {
    let p = c.link_receipts[hash];
    match e {
        CoreEvent::LinkDeliveryConfirmed { packet_hash, .. } => if packet_hash == hash {
            Some(NodeNote::Delivered { message_id: p.message_id })
        } else {
            None
        },
        CoreEvent::LinkDeliveryFailed { packet_hash, .. } => if packet_hash == hash {
            Some(
                NodeNote::DeliveryFailed {
                    message_id: p.message_id,
                    reason: DeliveryFailure::DirectPacketTimeout,
                },
            )
        } else {
            None
        },
        CoreEvent::LinkClosed { link_id, reason, .. } => if link_id == p.link_id {
            Some(
                NodeNote::DeliveryFailed {
                    message_id: p.message_id,
                    reason: DeliveryFailure::LinkClosed(reason),
                },
            )
        } else {
            None
        },
        _ => None,
    }
}

/// A packet on a link waits until it is proved, given up or its link closes,
/// and its message is then reported.
pub proof fn law_ends_of_link_packets(c: Delivery, e: CoreEvent, f: Facts, hash: [u8; 32])
    requires
        c.link_receipts.contains_key(hash),
        c.link_receipts.dom().finite(),
    ensures
        ({
            let (next, r) = step(c, e, f);
            let end = link_packet_end(c, e, hash);
            &&& end is None ==> next.link_receipts.contains_key(hash) && next.link_receipts[hash]
                == c.link_receipts[hash]
            &&& end is Some ==> !next.link_receipts.contains_key(hash) && r is Ok
                && r->Ok_0.contains(end->Some_0)
            &&& end is Some && !(e is LinkClosed) ==> r->Ok_0 == seq![end->Some_0]
        }),
{
    let (next, r) = step(c, e, f);
    if let Some(note) = link_packet_end(c, e, hash) {
        if let CoreEvent::LinkClosed { link_id, reason, .. } = e {
            let keys = crate::bytemap::keys_where(c.link_receipts, on_link(link_id));
            crate::bytemap::lemma_keys_where_complete(c.link_receipts, on_link(link_id), hash);
            let i = choose|i: int| 0 <= i < keys.len() && keys[i] == hash;
            assert(losses(c, link_id, reason)[i] == note);
        } else {
            assert(r->Ok_0 =~= seq![note]);
            assert(r->Ok_0[0] == note);
        }
    }
}

/// What ends a message that goes out as Resources on a link, and how.
pub open spec fn resource_end(c: Delivery, e: CoreEvent, link: LinkId) -> Option<NodeNote> {
    let p = c.resources[link];
    match e {
        CoreEvent::ResourceCompleted { link_id, is_sender, .. } => if link_id == link && is_sender {
            Some(NodeNote::Delivered { message_id: p.message_id })
        } else {
            None
        },
        CoreEvent::ResourceFailed { link_id, is_sender, error, .. } => if link_id == link
            && is_sender {
            Some(
                NodeNote::DeliveryFailed {
                    message_id: p.message_id,
                    reason: DeliveryFailure::Resource(error),
                },
            )
        } else {
            None
        },
        CoreEvent::LinkClosed { link_id, reason, .. } => if link_id == link {
            Some(
                NodeNote::DeliveryFailed {
                    message_id: p.message_id,
                    reason: DeliveryFailure::LinkClosed(reason),
                },
            )
        } else {
            None
        },
        _ => None,
    }
}

/// A message in Resources waits until they are sent, fail or its link closes,
/// and is then reported last. Meanwhile it keeps its identifier and its
/// length.
pub proof fn law_ends_of_resources(c: Delivery, e: CoreEvent, f: Facts, link: LinkId)
    requires
        c.resources.contains_key(link),
    ensures
        ({
            let (next, r) = step(c, e, f);
            let end = resource_end(c, e, link);
            &&& end is None ==> next.resources.contains_key(link) && next.resources[link].message_id
                == c.resources[link].message_id && next.resources[link].total_size
                == c.resources[link].total_size
            &&& end is Some ==> !next.resources.contains_key(link) && r is Ok && r->Ok_0.len() > 0
                && r->Ok_0.last() == end->Some_0
        }),
{
}

/// Progress of a message counts the parts before: when another part is under
/// way, what came before it is done.
pub proof fn law_outgoing_progress(
    c: Delivery,
    f: Facts,
    link: LinkId,
    resource_hash: [u8; 32],
    progress: u32,
    transfer_size: u64,
    data_size: u64,
)
    requires
        c.resources.contains_key(link),
    ensures
        ({
            let e = CoreEvent::ResourceProgress {
                link_id: link,
                resource_hash,
                progress,
                transfer_size,
                data_size,
                is_sender: true,
            };
            let (next, r) = step(c, e, f);
            let p = c.resources[link];
            let q = next.resources[link];
            &&& r is Ok
            &&& r->Ok_0.len() == 1
            &&& r->Ok_0[0] is Progress
            &&& r->Ok_0[0]->Progress_message_id == p.message_id
            &&& p.total_size > 0 ==> r->Ok_0[0]->progress == f.overall
            &&& p.total_size == 0 ==> r->Ok_0[0]->progress == 0
            &&& q.current_resource_hash == resource_hash
            &&& resource_hash == p.current_resource_hash ==> q == p
            &&& resource_hash != p.current_resource_hash ==> q.current_size == data_size && (
            p.completed_size + p.current_size <= u64::MAX ==> q.completed_size == p.completed_size
                + p.current_size)
        }),
{
}

/// A message is concluded by the proof of its packet or the completion of its
/// Resource.
pub proof fn law_concluding(c: Delivery, e: CoreEvent)
    ensures
        concluding(c, e) is Some <==> (e is PacketDeliveryConfirmed && c.receipts.contains_key(
            e->PacketDeliveryConfirmed_packet_hash,
        )) || (e is LinkDeliveryConfirmed && c.link_receipts.contains_key(
            e->LinkDeliveryConfirmed_packet_hash,
        )) || (e is ResourceCompleted && e->ResourceCompleted_is_sender && c.resources.contains_key(
            e->ResourceCompleted_link_id,
        )),
        concluding(c, e) is Some && e is PacketDeliveryConfirmed ==> concluding(c, e)->Some_0
            == c.receipts[e->PacketDeliveryConfirmed_packet_hash],
        concluding(c, e) is Some && e is LinkDeliveryConfirmed ==> concluding(c, e)->Some_0
            == c.link_receipts[e->LinkDeliveryConfirmed_packet_hash].message_id,
        concluding(c, e) is Some && e is ResourceCompleted ==> concluding(c, e)->Some_0
            == c.resources[e->ResourceCompleted_link_id].message_id,
{
}

// ---------------------------------------------------------------------------
// Messages that come in
// ---------------------------------------------------------------------------

/// A message that can be read and is addressed here is passed on as it was
/// read; any other is rejected, and says how it came and why.
pub proof fn law_incoming_message(
    c: Delivery,
    data: Seq<u8>,
    method: DeliveryMethod,
    inferred: Option<DestinationHash>,
    check: SignatureCheck,
)
    ensures
        ({
            let note = emitted(c, data, method, inferred, check);
            let read = crate::message::mail_of(data, inferred, check, method);
            &&& note is MessageReceived <==> read is Ok && read->Ok_0.destination == c.home
            &&& note is MessageReceived ==> note->MessageReceived_0 == read->Ok_0
            &&& !(note is MessageReceived) ==> note is InboundRejected && note->InboundRejected_method
                == method
            &&& read is Err ==> note->InboundRejected_reason == InboundRejection::Message(
                read->Err_0,
            )
            &&& read is Ok && read->Ok_0.destination != c.home ==> note->InboundRejected_reason
                == InboundRejection::WrongDestination
        }),
{
}

/// What comes in a packet here, on a delivery link or in the last of its
/// Resources is a message; it is read with the destination that its packet
/// names where it has one.
pub proof fn law_arrivals(c: Delivery, e: CoreEvent, f: Facts)
    ensures
        ({
            let (next, r) = step(c, e, f);
            let a = arrival(c, e);
            &&& a is Some ==> r == Ok::<Seq<NodeNote>, LxmfNodeError>(
                seq![emitted(c, a->Some_0.0, a->Some_0.1, a->Some_0.2, f.signature)],
            )
            &&& e is PacketReceived ==> (a is Some <==> e->PacketReceived_destination == c.home)
            &&& e is PacketReceived && a is Some ==> a->Some_0 == (
                e->PacketReceived_data@,
                DeliveryMethod::Opportunistic,
                Some(c.home),
            )
            &&& e is LinkDataReceived ==> (a is Some <==> c.owned.contains(
                e->LinkDataReceived_link_id,
            ))
            &&& e is LinkDataReceived && a is Some ==> a->Some_0 == (
                e->LinkDataReceived_data@,
                DeliveryMethod::Direct,
                None::<DestinationHash>,
            )
            &&& a is Some && e is ResourceCompleted ==> !e->ResourceCompleted_is_sender
                && e->segment_index == e->total_segments && e->total_segments >= 1 && a->Some_0.1
                == DeliveryMethod::Direct && a->Some_0.2 is None
            &&& !(e is PacketReceived || e is LinkDataReceived || e is ResourceCompleted) ==> a is None
        }),
{
}

/// The first part of a message in several starts it afresh; a part that is not
/// the next drops it.
pub proof fn law_parts_come_in_order(
    c: Delivery,
    link: LinkId,
    data: Seq<u8>,
    index: u32,
    total: u32,
    check: SignatureCheck,
    other: LinkId,
)
    requires
        other != link,
    ensures
        ({
            let (next, notes) = segment(c, link, data, index, total, check);
            let here = c.partial.contains_key(link);
            let p = c.partial[link];
            let in_turn = here && p.next == index && p.total == total;
            let sound = 1 <= index <= total;
            &&& index == 1 && total > 1 ==> next.partial.contains_key(link) && next.partial[link].next
                == 2 && next.partial[link].total == total && next.partial[link].data == data
                && notes.len() == 0
            &&& sound && 1 < index < total && in_turn ==> next.partial.contains_key(link)
                && next.partial[link].next == index + 1 && next.partial[link].total == total
                && next.partial[link].data == p.data + data && notes.len() == 0
            &&& sound && index > 1 && index == total && in_turn ==> !next.partial.contains_key(link)
                && notes == seq![emitted(c, p.data + data, DeliveryMethod::Direct, None, check)]
            &&& !sound || (index > 1 && !in_turn) ==> !next.partial.contains_key(link) && notes
                == seq![
                NodeNote::InboundRejected {
                    method: DeliveryMethod::Direct,
                    reason: InboundRejection::ResourceSequence,
                },
            ]
            &&& index == 1 && total == 1 ==> notes == seq![
                emitted(c, data, DeliveryMethod::Direct, None, check),
            ]
            &&& next.partial.contains_key(other) == c.partial.contains_key(other)
            &&& c.partial.contains_key(other) ==> next.partial[other] == c.partial[other]
        }),
{
}

/// A Resource that is offered on a delivery link is accepted up to the limit
/// and then followed; a larger one is rejected, and says so.
pub proof fn law_offered_resources(
    c: Delivery,
    f: Facts,
    link: LinkId,
    resource_hash: [u8; 32],
    transfer_size: u64,
    data_size: u64,
)
    ensures
        ({
            let e = CoreEvent::ResourceAdvertised {
                link_id: link,
                resource_hash,
                transfer_size,
                data_size,
            };
            let (next, r) = step(c, e, f);
            let call = demand(c, e, f);
            let limit = c.config.max_incoming_resource_size;
            let fits = limit is None || data_size <= limit->Some_0;
            let here = c.owned.contains(link);
            &&& call == Some(CoreCall::AcceptResource { link_id: link }) <==> here && fits
            &&& call == Some(CoreCall::RejectResource { link_id: link }) <==> here && !fits
            &&& !here ==> call is None && next == c && r is Ok && r->Ok_0.len() == 0
            &&& here && fits && f.refused is None ==> next.incoming.contains_key(resource_hash)
                && next.incoming[resource_hash].link_id == link
                && next.incoming[resource_hash].transfer_size == transfer_size
                && next.incoming[resource_hash].data_size == data_size
                && next.incoming[resource_hash].progress == 0 && r is Ok && r->Ok_0.len() == 0
            &&& here && !fits && f.refused is None ==> next == c && r == Ok::<
                Seq<NodeNote>,
                LxmfNodeError,
            >(
                seq![
                    NodeNote::InboundRejected {
                        method: DeliveryMethod::Direct,
                        reason: InboundRejection::ResourceTooLarge,
                    },
                ],
            )
            &&& here && f.refused is Some ==> next == c && r == Err::<Seq<NodeNote>, LxmfNodeError>(
                LxmfNodeError::Resource(f.refused->Some_0),
            )
        }),
{
}

/// An incoming Resource is followed while it moves, and no longer once it came
/// or failed. A failed one drops what its link has brought so far.
pub proof fn law_incoming_resources(c: Delivery, e: CoreEvent, f: Facts)
    ensures
        ({
            let (next, r) = step(c, e, f);
            &&& e is ResourceProgress && !e->ResourceProgress_is_sender && c.owned.contains(
                e->ResourceProgress_link_id,
            ) ==> {
                let k = e->ResourceProgress_resource_hash;
                &&& next.incoming.contains_key(k)
                &&& next.incoming[k].link_id == e->ResourceProgress_link_id
                &&& next.incoming[k].progress == e->ResourceProgress_progress
                &&& next.incoming[k].transfer_size == e->ResourceProgress_transfer_size
                &&& next.incoming[k].data_size == e->ResourceProgress_data_size
            }
            &&& e is ResourceCompleted && !e->ResourceCompleted_is_sender && c.owned.contains(
                e->ResourceCompleted_link_id,
            ) ==> !next.incoming.contains_key(e->ResourceCompleted_resource_hash)
            &&& e is ResourceFailed && !e->ResourceFailed_is_sender && c.owned.contains(
                e->ResourceFailed_link_id,
            ) ==> {
                &&& !next.incoming.contains_key(e->ResourceFailed_resource_hash)
                &&& !next.partial.contains_key(e->ResourceFailed_link_id)
                &&& r == Ok::<Seq<NodeNote>, LxmfNodeError>(
                    seq![
                        NodeNote::InboundRejected {
                            method: DeliveryMethod::Direct,
                            reason: InboundRejection::Resource(e->ResourceFailed_error),
                        },
                    ],
                )
            }
            &&& e is ResourceTransferStarted && !e->ResourceTransferStarted_is_sender
                && c.owned.contains(e->ResourceTransferStarted_link_id) ==> next.incoming.contains_key(
                e->ResourceTransferStarted_resource_hash,
            )
            &&& e is ResourceTransferStarted && c.incoming.contains_key(
                e->ResourceTransferStarted_resource_hash,
            ) ==> next == c
        }),
{
}

// ---------------------------------------------------------------------------
// Links
// ---------------------------------------------------------------------------

/// An announce of a delivery destination is reported, and opens the link that
/// is wanted where there is a path; a path does so too.
pub proof fn law_wanted_direct_links(
    c: Delivery,
    d: DestinationHash,
    aspect: Aspect,
    app_data: Vec<u8>,
    f: Facts,
    by_path: bool,
)
    ensures
        ({
            let e = if by_path {
                CoreEvent::PathFound { destination: d }
            } else {
                CoreEvent::AnnounceReceived { destination: d, aspect, app_data }
            };
            let (next, r) = step(c, e, f);
            let heard = by_path || aspect == Aspect::Delivery;
            let due = heard && c.wanted.contains(d) && !c.pending.contains_key(d) && (by_path
                || f.has_path);
            &&& !due ==> next == c && r is Ok && demand(c, e, f) is None
            &&& due && f.identity_known ==> r is Ok && next.pending.contains_key(d)
                && next.pending[d] == f.new_link && next.links.contains_key(f.new_link)
                && next.links[f.new_link] == d && demand(c, e, f) == Some(
                CoreCall::Connect { destination: d },
            )
            &&& due && !f.identity_known ==> next == c && r == Err::<Seq<NodeNote>, LxmfNodeError>(
                LxmfNodeError::UnknownPeer,
            ) && demand(c, e, f) is None
            &&& r is Ok ==> r->Ok_0 == if !by_path && aspect == Aspect::Delivery {
                seq![NodeNote::PeerAnnounced { destination: d }]
            } else {
                Seq::<NodeNote>::empty()
            }
            &&& next.wanted == c.wanted
            &&& next.direct == c.direct
        }),
{
}

/// A link that leads here, or that the adapter opened, carries deliveries. One
/// that this side opened reaches its peer; one from outside has no peer yet.
pub proof fn law_delivery_links(c: Delivery, link: LinkId, is_initiator: bool, f: Facts)
    ensures
        ({
            let e = CoreEvent::LinkEstablished { link_id: link, is_initiator };
            let (next, r) = step(c, e, f);
            let own = c.links.contains_key(link);
            let here = f.link_destination == Some(c.home);
            let reached = if own {
                Some(c.links[link])
            } else {
                f.link_destination
            };
            &&& !own && !here ==> next == c && r is Ok && r->Ok_0.len() == 0 && demand(c, e, f)
                is None
            &&& own || here ==> next.owned.contains(link) && demand(c, e, f) == Some(
                CoreCall::DecideResources { link_id: link },
            )
            &&& (own || here) && f.refused is None ==> r == Ok::<Seq<NodeNote>, LxmfNodeError>(
                seq![
                    NodeNote::DirectLinkEstablished {
                        destination: if is_initiator {
                            reached
                        } else {
                            None
                        },
                        link_id: link,
                        is_initiator,
                    },
                ],
            )
            &&& (own || here) && f.refused is None && is_initiator ==> {
                let d = reached->Some_0;
                &&& next.direct.contains_key(d)
                &&& next.direct[d] == link
                &&& next.links.contains_key(link)
                &&& next.links[link] == d
                &&& !next.pending.contains_key(d)
            }
            &&& (own || here) && !is_initiator ==> next.direct == c.direct && next.links == c.links
                && next.pending == c.pending
            &&& (own || here) && f.refused is Some ==> r == Err::<Seq<NodeNote>, LxmfNodeError>(
                LxmfNodeError::Resource(f.refused->Some_0),
            ) && next.direct == c.direct
        }),
{
}

/// A peer that identifies itself on a delivery link is reached by that link.
pub proof fn law_identified_peers(c: Delivery, link: LinkId, peer: DestinationHash, f: Facts)
    ensures
        ({
            let (next, r) = step(c, CoreEvent::LinkIdentified { link_id: link, peer }, f);
            &&& c.owned.contains(link) ==> next.direct.contains_key(peer) && next.direct[peer] == link
                && next.links.contains_key(link) && next.links[link] == peer && r == Ok::<
                Seq<NodeNote>,
                LxmfNodeError,
            >(
                seq![
                    NodeNote::DirectLinkEstablished {
                        destination: Some(peer),
                        link_id: link,
                        is_initiator: false,
                    },
                ],
            )
            &&& !c.owned.contains(link) ==> next == c && r is Ok && r->Ok_0.len() == 0
        }),
{
}

/// Proofs are given for packets to this destination and on delivery links, and
/// for no others.
pub proof fn law_proofs(c: Delivery, e: CoreEvent, f: Facts)
    ensures
        e is PacketProofRequested ==> (demand(c, e, f) is Some <==> e->PacketProofRequested_destination
            == c.home),
        e is PacketProofRequested && demand(c, e, f) is Some ==> demand(c, e, f) == Some(
            CoreCall::ProvePacket {
                packet_hash: e->PacketProofRequested_packet_hash,
                destination: e->PacketProofRequested_destination,
                interface_index: e->interface_index,
            },
        ),
        e is LinkProofRequested ==> (demand(c, e, f) is Some <==> c.owned.contains(
            e->LinkProofRequested_link_id,
        )),
        e is LinkProofRequested && demand(c, e, f) is Some ==> demand(c, e, f) == Some(
            CoreCall::ProveLinkData {
                link_id: e->LinkProofRequested_link_id,
                packet_hash: e->LinkProofRequested_packet_hash,
            },
        ),
        (e is PacketProofRequested || e is LinkProofRequested) ==> step(c, e, f).0 == c && (step(
            c,
            e,
            f,
        ).1 is Err <==> demand(c, e, f) is Some && f.refused is Some),
        (e is PacketProofRequested || e is LinkProofRequested) && step(c, e, f).1 is Err ==> step(
            c,
            e,
            f,
        ).1->Err_0 == LxmfNodeError::ProofFailed,
{
}

/// The local identity is presented once, after the first delivery on a link
/// that this side opened, and counts as presented where that succeeded.
pub proof fn law_identity_is_presented(c: Delivery, e: CoreEvent, f: Facts, link: LinkId)
    ensures
        ({
            let next = step(c, e, f).0;
            let call = demand(c, e, f);
            &&& call == Some(CoreCall::IdentifyLink { link_id: link }) ==> !c.identified.contains(link)
                && f.link_initiator && f.has_identity && (e is LinkDeliveryConfirmed
                || e is ResourceCompleted)
            &&& next.identified.contains(link) && !c.identified.contains(link) ==> call == Some(
                CoreCall::IdentifyLink { link_id: link },
            ) && f.refused is None
            &&& call == Some(CoreCall::IdentifyLink { link_id: link }) && f.refused is None
                ==> next.identified.contains(link)
            &&& c.identified.contains(link) && !next.identified.contains(link) ==> e is LinkClosed
                && e->LinkClosed_link_id == link
            &&& concluding(c, e) is Some && (e is LinkDeliveryConfirmed
                && e->LinkDeliveryConfirmed_link_id == link || e is ResourceCompleted
                && e->ResourceCompleted_link_id == link) && !c.identified.contains(link)
                && f.link_initiator && f.has_identity ==> call == Some(
                CoreCall::IdentifyLink { link_id: link },
            )
        }),
{
}

/// A lost packet and a failed Resource take their link down, but for a
/// Resource that was cancelled or whose link is already closed.
pub proof fn law_links_torn_down(c: Delivery, e: CoreEvent, f: Facts, link: LinkId)
    ensures
        demand(c, e, f) == Some(CoreCall::CloseLink { link_id: link }) <==> (e is LinkDeliveryFailed
            && e->LinkDeliveryFailed_link_id == link && c.link_receipts.contains_key(
            e->LinkDeliveryFailed_packet_hash,
        )) || (e is ResourceFailed && e->ResourceFailed_is_sender && e->ResourceFailed_link_id == link
            && c.resources.contains_key(link) && e->ResourceFailed_error != ResourceError::Cancelled
            && e->ResourceFailed_error != ResourceError::LinkClosed),
{
}

/// The closing of a link leaves the other links as they are.
pub proof fn law_other_links_stay(
    c: Delivery,
    f: Facts,
    link: LinkId,
    reason: LinkCloseReason,
    is_initiator: bool,
    destination: DestinationHash,
    other: LinkId,
    d: DestinationHash,
    k: [u8; 32],
)
    requires
        other != link,
    ensures
        ({
            let next = step(
                c,
                CoreEvent::LinkClosed { link_id: link, reason, is_initiator, destination },
                f,
            ).0;
            &&& next.owned.contains(other) == c.owned.contains(other)
            &&& next.identified.contains(other) == c.identified.contains(other)
            &&& next.links.contains_key(other) == c.links.contains_key(other)
            &&& c.links.contains_key(other) ==> next.links[other] == c.links[other]
            &&& next.resources.contains_key(other) == c.resources.contains_key(other)
            &&& c.resources.contains_key(other) ==> next.resources[other] == c.resources[other]
            &&& next.partial.contains_key(other) == c.partial.contains_key(other)
            &&& c.direct.contains_key(d) && c.direct[d] != link ==> next.direct.contains_key(d)
                && next.direct[d] == c.direct[d]
            &&& c.pending.contains_key(d) && c.pending[d] != link ==> next.pending.contains_key(d)
                && next.pending[d] == c.pending[d]
            &&& c.incoming.contains_key(k) && c.incoming[k].link_id != link
                ==> next.incoming.contains_key(k) && next.incoming[k] == c.incoming[k]
            &&& next.receipts == c.receipts
            &&& next.wanted == c.wanted
        }),
{
}

/// The local end receives, belongs to one identity and is of the delivery
/// aspect.
pub proof fn law_delivery_destination(info: DestinationInfo)
    ensures
        suitable(info) ==> info.incoming && info.single && info.aspect == Aspect::Delivery,
        !suitable(info) ==> !info.incoming || !info.single || info.aspect != Aspect::Delivery,
{
}

// ---------------------------------------------------------------------------
// Submissions
// ---------------------------------------------------------------------------

/// A message that went out as one packet is in flight under the hash of its
/// packet, and reported as submitted.
pub proof fn law_packet_sent(
    before: Delivery,
    after: Delivery,
    message_id: [u8; 32],
    packet_hash: [u8; 16],
    r: LxmfNodeOutput,
)
    requires
        packet_sent(before, after, message_id, packet_hash, r),
    ensures
        in_flight(after, message_id),
        after.receipts.contains_key(packet_hash),
        after.receipts[packet_hash] == message_id,
        notes(r.events@).len() == 1,
        notes(r.events@)[0] == (NodeNote::Submitted {
            message_id,
            method: DeliveryMethod::Opportunistic,
            representation: DeliveryRepresentation::OpportunisticPacket,
            submission: SubmissionId::Packet(packet_hash),
        }),
        after.link_receipts == before.link_receipts && after.resources == before.resources,
{
    assert(after.receipts.contains_key(packet_hash));
}

/// A message that went out as one packet on a link is in flight under the hash
/// of its packet and with its link, and reported as submitted.
pub proof fn law_link_packet_sent(
    before: Delivery,
    after: Delivery,
    link_id: LinkId,
    message_id: [u8; 32],
    packet_hash: [u8; 32],
    r: LxmfNodeOutput,
)
    requires
        link_packet_sent(before, after, link_id, message_id, packet_hash, r),
    ensures
        in_flight(after, message_id),
        after.link_receipts.contains_key(packet_hash),
        after.link_receipts[packet_hash].message_id == message_id,
        after.link_receipts[packet_hash].link_id == link_id,
        notes(r.events@).len() == 1,
        notes(r.events@)[0] == (NodeNote::Submitted {
            message_id,
            method: DeliveryMethod::Direct,
            representation: DeliveryRepresentation::DirectPacket,
            submission: SubmissionId::LinkPacket(packet_hash),
        }),
        after.receipts == before.receipts && after.resources == before.resources,
{
    assert(after.link_receipts.contains_key(packet_hash));
}

/// A Resource that the stack took is in flight and reported as submitted; one
/// that it refused changes nothing.
pub proof fn law_resource_sent(
    before: Delivery,
    after: Delivery,
    prepared: PreparedLxmfSend,
    committed: Result<[u8; 32], ResourceError>,
    r: Result<LxmfNodeOutput, LxmfNodeError>,
)
    requires
        resource_sent(before, after, prepared, committed, r),
    ensures
        r is Ok <==> committed is Ok,
        r is Err ==> after == before && r->Err_0 == LxmfNodeError::Resource(committed->Err_0),
        r is Ok ==> in_flight(after, prepared.message_id) && after.resources.contains_key(
            prepared.link_id,
        ) && after.resources[prepared.link_id].message_id == prepared.message_id
            && after.resources[prepared.link_id].total_size == prepared.packed_len
            && notes(r->Ok_0.events@).len() == 1 && notes(r->Ok_0.events@)[0]
            == (NodeNote::Submitted {
            message_id: prepared.message_id,
            method: DeliveryMethod::Direct,
            representation: DeliveryRepresentation::DirectResource,
            submission: SubmissionId::Resource(committed->Ok_0),
        }),
{
    if r is Ok {
        assert(after.resources.contains_key(prepared.link_id));
    }
}

/// A Resource is for the live link of its destination and for its message.
pub proof fn law_resource_wanted(
    before: Delivery,
    after: Delivery,
    destination: DestinationHash,
    message_id: [u8; 32],
    link_active: bool,
    captured: Result<(), ResourceError>,
    r: Result<LxmfResourceSendParams, LxmfNodeError>,
)
    requires
        resource_wanted(before, after, destination, message_id, link_active, captured, r),
    ensures
        r is Ok <==> before.direct.contains_key(destination) && link_active && captured is Ok,
        r is Ok ==> r->Ok_0.link_id == before.direct[destination] && r->Ok_0.message_id
            == message_id && after == before,
        !(before.direct.contains_key(destination) && link_active) ==> r->Err_0
            == LxmfNodeError::DirectLinkUnavailable && !after.direct.contains_key(destination),
        before.direct.contains_key(destination) && link_active && captured is Err ==> r->Err_0
            == LxmfNodeError::Resource(captured->Err_0),
{
}

/// How far a message is: the parts that are done, and the one under way.
pub proof fn law_portion(c: Delivery, event: CoreEvent, r: Option<Portion>)
    requires
        portion_of(c, event, r),
    ensures
        r is Some <==> event is ResourceProgress && event->ResourceProgress_is_sender
            && c.resources.contains_key(event->ResourceProgress_link_id),
        r is Some ==> ({
            let p = c.resources[event->ResourceProgress_link_id];
            let same = p.current_resource_hash == event->ResourceProgress_resource_hash;
            &&& r->Some_0.total_size == p.total_size
            &&& r->Some_0.progress == event->ResourceProgress_progress
            &&& same ==> r->Some_0.completed_size == p.completed_size && r->Some_0.current_size
                == p.current_size
            &&& !same ==> r->Some_0.current_size == event->ResourceProgress_data_size && (
            p.completed_size + p.current_size <= u64::MAX ==> r->Some_0.completed_size
                == p.completed_size + p.current_size)
        }),
{
}

} // verus!
