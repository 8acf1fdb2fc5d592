//! The router: what becomes of a message, from the queue to its end, and of one
//! that comes in.
use vstd::prelude::*;

use crate::message::{DeliveryMethod, Field, Mail, Message, Verification};
use crate::node::{DeliveryFailure, DeliveryRepresentation, LxmfNodeError, NodeNote};
use crate::propagation_client::PropagationTransport;
use crate::router::{
    absorbed, absorbed_all, accepted, attempt_demand, attempted, begun, built_from, cancelling,
    checked, cleaned, committing, composed, concluding, deadline, delivered, dropped, enabling,
    finished, fresh, handed, heard, ignoring, ignoring_only, is_due, issuing, judging, lodged,
    node_stamped, node_stamping, node_stamping_as_asked, notes, oldest, once, persisting,
    propagation_fault, propagation_request, put, queue_fault, queueing, received, rescheduled,
    restamped, restoring, roused, routed, shape, stamp_cost, stamp_request, stamping,
    stamping_as_asked, ticket_remembered, unignoring, values_of, verdict, waiting_for, with_cost,
    with_delivered, with_processed, woken, AttemptFacts, Build, BuiltResource, DeliveryStampRequest,
    Demand, InboundStampRequest, MessageFacts, MessageState, Prepared, PropagationStampRequest,
    Queued, Router, RouterError, RouterNote, RouterOutput, StampCost, Timing,
};
use crate::storage::StorageError;
use crate::ticket::Tickets;
use crate::transport::{CoreCall, CoreEvent, DestinationHash, Facts, LinkId, ResourceError};

verus! {

// ---------------------------------------------------------------------------
// Deliveries
// ---------------------------------------------------------------------------

/// A delivery that failed for any reason but the receiver's cancellation is
/// tried again: the message stays in the queue as it is, is to be sent, and
/// its next attempt is ten seconds later than it was. Nothing is reported.
pub proof fn law_failed_delivery_is_tried_again(
    c: Router,
    message_id: [u8; 32],
    reason: DeliveryFailure,
    t: Timing,
    f: MessageFacts,
)
    requires
        c.kept.outbound.contains_key(message_id),
        !(reason is Resource && reason->Resource_0 is Cancelled),
    ensures
        ({
            let (next, out) = absorbed(c, NodeNote::DeliveryFailed { message_id, reason }, t, f);
            let before = c.kept.outbound[message_id];
            let after = next.kept.outbound[message_id];
            &&& out.len() == 0
            &&& next.kept.outbound.contains_key(message_id)
            &&& after.state == MessageState::Outbound
            &&& before.next_attempt_ms <= u64::MAX - 10_000 ==> after.next_attempt_ms
                == before.next_attempt_ms + 10_000
            &&& after.next_attempt_ms >= before.next_attempt_ms
            &&& after.mail == before.mail
            &&& after.attempts == before.attempts
            &&& after.progress == before.progress
            &&& after.prepared == before.prepared
        }),
{
}

/// The receiver's cancellation ends a message as rejected.
pub proof fn law_cancelled_delivery_is_rejected(
    c: Router,
    message_id: [u8; 32],
    t: Timing,
    f: MessageFacts,
)
    requires
        c.kept.outbound.contains_key(message_id),
    ensures
        ({
            let reason = DeliveryFailure::Resource(ResourceError::Cancelled);
            let (next, out) = absorbed(c, NodeNote::DeliveryFailed { message_id, reason }, t, f);
            &&& !next.kept.outbound.contains_key(message_id)
            &&& out == seq![RouterNote::MessageState { message_id, state: MessageState::Rejected }]
        }),
{
}

/// A message leaves the queue exactly when it was delivered or its receiver
/// cancelled it, and the end that is reported is the one that it came to.
pub proof fn law_ends_of_messages(
    c: Router,
    note: NodeNote,
    t: Timing,
    f: MessageFacts,
    id: [u8; 32],
    state: MessageState,
)
    ensures
        ({
            let (next, out) = absorbed(c, note, t, f);
            let was = c.kept.outbound.contains_key(id);
            let arrived = note == NodeNote::Delivered { message_id: id };
            let refused = note == (NodeNote::DeliveryFailed {
                message_id: id,
                reason: DeliveryFailure::Resource(ResourceError::Cancelled),
            });
            &&& was && !next.kept.outbound.contains_key(id) <==> was && (arrived || refused)
            &&& out.contains(RouterNote::MessageState { message_id: id, state }) <==> was && {
                ||| arrived && state == MessageState::Delivered
                ||| refused && state == MessageState::Rejected
            }
        }),
{
    let (next, out) = absorbed(c, note, t, f);
    let n = RouterNote::MessageState { message_id: id, state };
    assert(out.len() <= 1);
    if out.len() == 1 {
        assert(out.contains(n) <==> out[0] == n) by {
            if out[0] == n {
                assert(out.contains(n));
            }
        }
    }
}

/// A report about one message changes no other, but for a link that comes up,
/// which makes messages due.
pub proof fn law_reports_are_about_one_message(
    c: Router,
    note: NodeNote,
    t: Timing,
    f: MessageFacts,
    id: [u8; 32],
)
    requires
        c.kept.outbound.contains_key(id),
        absorbed(c, note, t, f).0.kept.outbound.contains_key(id),
    ensures
        ({
            let before = c.kept.outbound[id];
            let after = absorbed(c, note, t, f).0.kept.outbound[id];
            &&& after.mail == before.mail
            &&& after.attempts == before.attempts
            &&& after.prepared == before.prepared
            &&& after.progress != before.progress ==> note == (NodeNote::Progress {
                message_id: id,
                progress: after.progress,
            })
            &&& after.state != before.state ==> {
                ||| note is DeliveryFailed && note->DeliveryFailed_message_id == id && after.state
                    == MessageState::Outbound
                ||| note is Submitted && note->Submitted_message_id == id && after.state
                    == MessageState::Sent
            }
            &&& after.next_attempt_ms != before.next_attempt_ms ==> {
                ||| note is DeliveryFailed && note->DeliveryFailed_message_id == id
                ||| note is DirectLinkEstablished && after.next_attempt_ms == t.now_ms
            }
        }),
{
}

/// Progress is taken over as it is told, and a single packet that was submitted
/// is sent.
pub proof fn law_progress_and_submission(
    c: Router,
    message_id: [u8; 32],
    progress: u32,
    t: Timing,
    f: MessageFacts,
    note: NodeNote,
)
    requires
        c.kept.outbound.contains_key(message_id),
        note is Submitted && note->Submitted_message_id == message_id,
    ensures
        ({
            let told = absorbed(c, NodeNote::Progress { message_id, progress }, t, f);
            let sent = absorbed(c, note, t, f);
            let method = note->Submitted_method;
            &&& told.0.kept.outbound[message_id] == (Queued {
                progress,
                ..c.kept.outbound[message_id]
            })
            &&& told.1.len() == 0
            &&& sent.1.len() == 0
            &&& method == DeliveryMethod::Opportunistic
                ==> sent.0.kept.outbound[message_id].state == MessageState::Sent
            &&& method != DeliveryMethod::Opportunistic ==> sent.0.kept.outbound
                == c.kept.outbound
        }),
{
    let told = absorbed(c, NodeNote::Progress { message_id, progress }, t, f);
    assert(told.0.kept.outbound[message_id] =~= Queued { progress, ..c.kept.outbound[message_id] });
}

/// When a direct link comes up, every message to that destination that goes
/// over a link and waits is due at once, and the router works at once. The
/// link is reported.
pub proof fn law_link_wakes_messages(
    c: Router,
    d: DestinationHash,
    link_id: LinkId,
    is_initiator: bool,
    t: Timing,
    f: MessageFacts,
    id: [u8; 32],
)
    requires
        c.kept.outbound.contains_key(id),
    ensures
        ({
            let note = NodeNote::DirectLinkEstablished {
                destination: Some(d),
                link_id,
                is_initiator,
            };
            let (next, out) = absorbed(c, note, t, f);
            let q = c.kept.outbound[id];
            let single = shape(q.mail) == Ok::<DeliveryRepresentation, LxmfNodeError>(
                DeliveryRepresentation::OpportunisticPacket,
            );
            let waits = q.state == MessageState::Outbound && q.mail.destination == d && !single
                && q.next_attempt_ms > t.now_ms;
            &&& out == seq![
                RouterNote::DirectLinkEstablished { destination: Some(d), link_id, is_initiator },
            ]
            &&& next.kept.outbound[id].next_attempt_ms == if waits {
                t.now_ms
            } else {
                q.next_attempt_ms
            }
            &&& waits ==> next.next_job_ms <= t.now_ms
        }),
{
    assert(woken(c, d, t.now_ms).kept.outbound.contains_key(id));
}

/// A delivery that carried a ticket issued to the recipient is remembered as
/// the time when a ticket last reached it; any other delivery is not.
pub proof fn law_delivered_ticket(
    c: Router,
    message_id: [u8; 32],
    t: Timing,
    f: MessageFacts,
    i: int,
    peer: [u8; 16],
)
    requires
        c.kept.outbound.contains_key(message_id),
    ensures
        ({
            let (next, out) = absorbed(c, NodeNote::Delivered { message_id }, t, f);
            let d = c.kept.outbound[message_id].mail.destination;
            let old_last = c.kept.tickets.last;
            let new_last = next.kept.tickets.last;
            &&& 0 <= i < f.tickets@.len() && f.tickets@[i] is Some && crate::ticket::has_issued(
                c.kept.tickets,
                d,
                f.tickets@[i]->Some_0,
            ) ==> new_last.contains_key(d) && new_last[d] == t.now_unix
            &&& peer != d ==> new_last.contains_key(peer) == old_last.contains_key(peer)
            &&& peer != d && old_last.contains_key(peer) ==> new_last[peer] == old_last[peer]
            &&& f.tickets@.len() == 0 ==> new_last == old_last
            &&& next.kept.tickets.inbound == c.kept.tickets.inbound
            &&& next.kept.tickets.outbound == c.kept.tickets.outbound
        }),
{
}

/// Reports are applied one after the other, and their notes come in that order.
pub proof fn law_reports_in_order(
    c: Router,
    s: Seq<NodeNote>,
    n: NodeNote,
    t: Timing,
    f: MessageFacts,
)
    ensures
        absorbed_all(c, s.push(n), t, f).0 == absorbed(absorbed_all(c, s, t, f).0, n, t, f).0,
        absorbed_all(c, s.push(n), t, f).1 == absorbed_all(c, s, t, f).1 + absorbed(
            absorbed_all(c, s, t, f).0,
            n,
            t,
            f,
        ).1,
        absorbed_all(c, Seq::empty(), t, f) == (c, Seq::<RouterNote>::empty()),
{
    assert(s.push(n).drop_last() =~= s);
}

// ---------------------------------------------------------------------------
// What comes in
// ---------------------------------------------------------------------------

/// A message reaches the application exactly when its source is not ignored,
/// its signature was not refused and it did not come before; then it is
/// remembered.
pub proof fn law_accepted_messages(c: Router, mail: Mail, now: u64)
    ensures
        ({
            let (next, out) = accepted(c, mail, now);
            let ignored = c.kept.ignored.contains_key(mail.source);
            let forged = mail.verification == Verification::Invalid;
            let known = c.kept.delivered.contains_key(mail.id);
            &&& !ignored && !forged && !known ==> out == seq![RouterNote::MessageReceived(mail)]
                && (c.config.max_delivered_ids > 0 ==> next.kept.delivered.contains_key(mail.id)
                && next.kept.delivered[mail.id] == now && next.dirty)
            &&& ignored ==> out.len() == 0 && next == c
            &&& !ignored && forged ==> out == seq![RouterNote::InvalidSignature(mail.id)] && next
                == c
            &&& !ignored && !forged && known ==> out == seq![RouterNote::Duplicate(mail.id)] && next
                == c
        }),
{
}

/// Where stamps are demanded, a message with a valid signature needs one: a
/// ticket stamp is taken at once, a proof of work of 32 bytes waits to be
/// checked against the cost, and anything else is refused.
pub proof fn law_demanded_stamps(c: Router, mail: Mail, now: u64, f: MessageFacts, cost: u8)
    requires
        c.config.enforce_stamps,
        c.config.inbound_stamp_cost == Some(cost),
        cost > 0,
        mail.verification == Verification::Valid,
    ensures
        ({
            let (next, out) = received(c, mail, now, f);
            let with_ticket = mail.payload.stamp is Some && f.ticket_stamp;
            let with_work = mail.payload.stamp is Some && mail.payload.stamp->Some_0.len() == 32
                && f.stamp_worker && c.waiting.len() < c.config.max_outbound;
            &&& with_ticket ==> next.waiting == c.waiting && !out.contains(
                RouterNote::InvalidStamp(mail.id),
            )
            &&& !with_ticket && with_work ==> {
                &&& next.waiting == c.waiting.push((mail, now))
                &&& out.len() == 1
                &&& out[0] is InboundStampPending
                &&& out[0]->InboundStampPending_0.message_id == mail.id
                &&& out[0]->InboundStampPending_0.target_cost == cost
                &&& out[0]->InboundStampPending_0.stamp == crate::message::array::<32>(
                    mail.payload.stamp->Some_0,
                )
                &&& next.kept.delivered == c.kept.delivered
            }
            &&& !with_ticket && !with_work ==> {
                &&& next.waiting == c.waiting
                &&& out == seq![RouterNote::InvalidStamp(mail.id)]
                &&& next.kept.delivered == c.kept.delivered
            }
        }),
{
    let (next, out) = received(c, mail, now, f);
    if mail.payload.stamp is Some && f.ticket_stamp {
        assert(out.len() <= 1);
    }
}

/// Where stamps are not demanded, a message goes straight to the policy.
pub proof fn law_no_stamps_demanded(c: Router, mail: Mail, now: u64, f: MessageFacts)
    requires
        !c.config.enforce_stamps || c.config.inbound_stamp_cost is None
            || c.config.inbound_stamp_cost == Some(0u8),
    ensures
        received(c, mail, now, f).0.waiting == c.waiting,
        received(c, mail, now, f).1 == accepted(c, mail, now).1,
        received(c, mail, now, f).0.kept.delivered == accepted(c, mail, now).0.kept.delivered,
{
}

/// A ticket is taken from a message with a valid signature, for its source,
/// where the ticket holds and there is room; from no other.
pub proof fn law_tickets_from_messages(c: Router, mail: Mail, f: MessageFacts, peer: [u8; 16])
    ensures
        ({
            let next = ticket_remembered(c, mail, f);
            let t = c.kept.tickets;
            let offered = f.tickets@.len() > 0 && f.tickets@[0] is Some && f.ticket_current
                && mail.verification == Verification::Valid;
            let room = t.outbound.contains_key(mail.source) || crate::ticket::entries(t)
                < c.config.max_tickets;
            &&& offered && room ==> next.kept.tickets.outbound.contains_key(mail.source)
                && next.kept.tickets.outbound[mail.source] == f.tickets@[0]->Some_0
            &&& !(offered && room) ==> next == c
            &&& peer != mail.source ==> next.kept.tickets.outbound.contains_key(peer)
                == t.outbound.contains_key(peer)
            &&& peer != mail.source && t.outbound.contains_key(peer)
                ==> next.kept.tickets.outbound[peer] == t.outbound[peer]
            &&& next.kept.tickets.inbound == t.inbound
            &&& next.kept.tickets.last == t.last
            &&& next.kept.outbound == c.kept.outbound
        }),
{
}

/// A stamp that was checked lets its message through to the policy, or has it
/// reported as wrong; either way the message no longer waits.
pub proof fn law_checked_stamps(c: Router, i: int, valid: bool)
    requires
        0 <= i < c.waiting.len(),
    ensures
        ({
            let (next, out) = checked(c, i, valid);
            let (mail, at) = c.waiting[i];
            &&& next.waiting == c.waiting.remove(i)
            &&& !valid ==> out == seq![RouterNote::InvalidStamp(mail.id)] && next.kept == c.kept
            &&& valid ==> out == accepted(c, mail, at).1 && next.kept == accepted(c, mail, at).0.kept
        }),
{
}

/// The message that a stamp was checked for is the first that waits under its
/// identifier.
pub proof fn law_waiting_for(s: Seq<(Mail, u64)>, id: [u8; 32], j: int)
    ensures
        waiting_for(s, id) >= 0 ==> waiting_for(s, id) < s.len() && s[waiting_for(s, id)].0.id
            == id,
        0 <= j < s.len() && s[j].0.id == id ==> 0 <= waiting_for(s, id) <= j,
        waiting_for(s, id) >= -1,
    decreases s.len(),
{
    if s.len() > 0 {
        law_waiting_for(s.drop_last(), id, j);
        let k = waiting_for(s.drop_last(), id);
        if k >= 0 {
            assert(s.drop_last()[k] == s[k]);
        }
        if 0 <= j < s.len() - 1 {
            assert(s.drop_last()[j] == s[j]);
        }
    }
}

/// The announce of a peer tells what stamp it asks for: that is remembered with
/// the time, and a peer that announces nothing is not.
pub proof fn law_announced_costs(c: Router, d: DestinationHash, app_data: Seq<u8>, now: u64)
    requires
        c.config.max_stamp_costs > 0,
    ensures
        ({
            let next = heard(c, d, app_data, now);
            &&& app_data.len() == 0 ==> next == c
            &&& crate::announce::delivery_of(app_data) is Err ==> next == c
            &&& app_data.len() > 0 ==> (crate::announce::delivery_of(app_data) matches Ok(a) ==> {
                &&& next.kept.costs.contains_key(d)
                &&& next.kept.costs[d] == (StampCost {
                    seen: now,
                    cost: a.cost,
                    compression: a.compression,
                })
            })
            &&& next.kept.outbound == c.kept.outbound
            &&& next.kept.delivered == c.kept.delivered
        }),
{
}

/// The cost that is asked for is the one announced, while the announce is not
/// older than 45 days; a cost of zero, or of 255, asks for nothing.
pub proof fn law_stamp_cost(c: Router, d: [u8; 16], now: u64)
    ensures
        !c.kept.costs.contains_key(d) ==> stamp_cost(c, d, now) is None,
        stamp_cost(c, d, now) matches Some(v) ==> {
            &&& c.kept.costs.contains_key(d)
            &&& c.kept.costs[d].cost == Some(v)
            &&& 1 <= v <= 254
            &&& crate::ieee::within(now, c.kept.costs[d].seen, 3_888_000)
        },
        c.kept.costs.contains_key(d) && (c.kept.costs[d].cost matches Some(v) && 1 <= v <= 254)
            && crate::ieee::within(now, c.kept.costs[d].seen, 3_888_000) ==> stamp_cost(c, d, now)
            == c.kept.costs[d].cost,
{
}

/// A stamp is asked for where the message has none and its recipient wants one.
pub proof fn law_stamp_request(c: Router, id: [u8; 32], now: u64)
    ensures
        stamp_request(c, id, now) is Some <==> {
            &&& c.kept.outbound.contains_key(id)
            &&& c.kept.outbound[id].mail.payload.stamp is None
            &&& stamp_cost(c, c.kept.outbound[id].mail.destination, now) is Some
        },
        stamp_request(c, id, now) matches Some(r) ==> r.message_id == id && Some(r.target_cost)
            == stamp_cost(c, c.kept.outbound[id].mail.destination, now),
{
}

/// A propagation stamp is asked for where the prepared upload has none and the
/// node asks for one.
pub proof fn law_propagation_stamp_request(c: Router, id: [u8; 32])
    ensures
        propagation_request(c, id) matches Some(r) ==> {
            &&& c.kept.outbound.contains_key(id)
            &&& c.kept.outbound[id].prepared is Some
            &&& c.kept.outbound[id].prepared->Some_0.stamp is None
            &&& c.kept.outbound[id].prepared->Some_0.target_cost == Some(r.target_cost)
            &&& r.transient_id == c.kept.outbound[id].prepared->Some_0.transient_id
            &&& r.message_id == id
        },
        c.kept.outbound.contains_key(id) && (c.kept.outbound[id].prepared matches Some(p)
            && p.stamp is None && p.target_cost is Some) ==> propagation_request(c, id) is Some,
        propagation_fault(c, id) is None <==> {
            &&& c.kept.outbound.contains_key(id)
            &&& c.kept.outbound[id].mail.method == DeliveryMethod::Propagated
            &&& c.kept.outbound[id].prepared is Some
            &&& c.kept.outbound[id].prepared->Some_0.target_cost is Some
        },
        !c.kept.outbound.contains_key(id) ==> propagation_fault(c, id) == Some(
            RouterError::NotFound,
        ),
{
}

// ---------------------------------------------------------------------------
// The queue
// ---------------------------------------------------------------------------

/// A message is queued unless it goes on paper, needs a node that is not
/// selected, is there already or finds the queue full.
pub proof fn law_queueing(c: Router, mail: Mail, node_selected: bool, stamp: Option<Seq<u8>>)
    ensures
        queue_fault(c, mail, node_selected, stamp) is None <==> {
            &&& mail.method != DeliveryMethod::Paper
            &&& mail.method == DeliveryMethod::Propagated ==> node_selected
            &&& !c.kept.outbound.contains_key(mail.id)
            &&& c.kept.outbound.dom().len() < c.config.max_outbound
            &&& stamp is Some ==> stamp->Some_0.len() == 16 || stamp->Some_0.len() == 32
        },
        mail.method == DeliveryMethod::Paper ==> queue_fault(c, mail, node_selected, stamp) == Some(
            RouterError::UnsupportedMethod,
        ),
        mail.method != DeliveryMethod::Paper && mail.method != DeliveryMethod::Propagated
            && c.kept.outbound.contains_key(mail.id) ==> queue_fault(c, mail, node_selected, stamp)
            == Some(RouterError::Duplicate),
        mail.method == DeliveryMethod::Propagated && !node_selected ==> queue_fault(
            c,
            mail,
            node_selected,
            stamp,
        ) == Some(RouterError::PropagationNodeUnavailable),
        mail.method == DeliveryMethod::Direct && !c.kept.outbound.contains_key(mail.id)
            && c.kept.outbound.dom().len() >= c.config.max_outbound ==> queue_fault(
            c,
            mail,
            node_selected,
            stamp,
        ) == Some(RouterError::QueueFull),
{
}

/// A message that enters the queue is itself, is to be sent, is due at once and
/// has no attempt behind it; the others stay as they are.
pub proof fn law_queued_message(c: Router, mail: Mail, now_ms: u64, other: [u8; 32])
    ensures
        ({
            let next = put(c, mail.id, fresh(mail, now_ms));
            let q = next.kept.outbound[mail.id];
            &&& next.kept.outbound.contains_key(mail.id)
            &&& q.mail == mail
            &&& q.state == MessageState::Outbound
            &&& q.attempts == 0
            &&& q.next_attempt_ms == now_ms
            &&& q.prepared is None
            &&& next.dirty
            &&& other != mail.id ==> next.kept.outbound.contains_key(other)
                == c.kept.outbound.contains_key(other)
            &&& other != mail.id && c.kept.outbound.contains_key(other)
                ==> next.kept.outbound[other] == c.kept.outbound[other]
            &&& next.kept.delivered == c.kept.delivered
            &&& next.kept.tickets == c.kept.tickets
        }),
{
}

/// A message that is dropped is gone from the queue, and its path request with
/// it; the others stay.
pub proof fn law_dropped_message(c: Router, id: [u8; 32], other: [u8; 32])
    ensures
        ({
            let next = dropped(c, id);
            &&& !next.kept.outbound.contains_key(id)
            &&& !next.asked.contains(id)
            &&& next.dirty
            &&& other != id ==> next.kept.outbound.contains_key(other)
                == c.kept.outbound.contains_key(other) && next.asked.contains(other)
                == c.asked.contains(other)
            &&& other != id && c.kept.outbound.contains_key(other) ==> next.kept.outbound[other]
                == c.kept.outbound[other]
            &&& next.kept.delivered == c.kept.delivered
            &&& next.node == c.node
        }),
{
}

/// A stamp that is attached is the stamp of the message, which is then due at
/// once and otherwise the same; what was encrypted for a propagation node is
/// given up, since the stamp is inside.
pub proof fn law_attached_stamp(c: Router, id: [u8; 32], q: Queued, stamp: Seq<u8>, now_ms: u64)
    ensures
        ({
            let n = restamped(q, stamp, now_ms);
            let next = roused(c, id, n, now_ms);
            &&& n.mail.payload.stamp == Some(stamp)
            &&& n.mail.id == q.mail.id
            &&& n.mail.destination == q.mail.destination
            &&& n.mail.source == q.mail.source
            &&& n.mail.signature == q.mail.signature
            &&& n.mail.method == q.mail.method
            &&& n.mail.payload.title == q.mail.payload.title
            &&& n.mail.payload.content == q.mail.payload.content
            &&& n.mail.payload.fields == q.mail.payload.fields
            &&& n.mail.payload.timestamp == q.mail.payload.timestamp
            &&& n.attempts == q.attempts
            &&& n.state == q.state
            &&& n.next_attempt_ms == now_ms
            &&& q.mail.method == DeliveryMethod::Propagated ==> n.prepared is None
            &&& q.mail.method != DeliveryMethod::Propagated ==> n.prepared == q.prepared
            &&& next.kept.outbound.contains_key(id) && next.kept.outbound[id] == n
            &&& next.next_job_ms <= now_ms
            &&& next.next_job_ms <= c.next_job_ms
            &&& next.dirty
        }),
{
}

/// A propagation stamp is attached to what was encrypted, which stays as it is.
pub proof fn law_attached_node_stamp(q: Queued, stamp: [u8; 32], now_ms: u64)
    requires
        q.prepared is Some,
    ensures
        ({
            let n = node_stamped(q, stamp, now_ms);
            let p = q.prepared->Some_0;
            &&& n.mail == q.mail
            &&& n.state == q.state
            &&& n.attempts == q.attempts
            &&& n.next_attempt_ms == now_ms
            &&& n.prepared == Some(
                Prepared {
                    timebase: p.timebase,
                    unstamped: p.unstamped,
                    transient_id: p.transient_id,
                    target_cost: p.target_cost,
                    stamp: Some(stamp),
                },
            )
        }),
{
}

/// Nothing is due before the time that is told, and something is due then.
pub proof fn law_next_deadline(c: Router, client: Option<u64>, t: u64, u: u64, id: [u8; 32])
    requires
        deadline(c, client, t),
    ensures
        c.kept.outbound.contains_key(id) ==> t <= c.kept.outbound[id].next_attempt_ms,
        t <= c.next_job_ms,
        client is Some ==> t <= client->Some_0,
        c.kept.outbound.dom().len() == 0 && c.kept.outbound.dom().finite() && client is None ==> t
            == c.next_job_ms,
        deadline(c, client, u) ==> u == t,
{
    if c.kept.outbound.dom().len() == 0 && c.kept.outbound.dom().finite() {
        assert(c.kept.outbound.dom() =~= Set::empty());
        assert forall|k: [u8; 32]| !(#[trigger] c.kept.outbound.contains_key(k)) by {
            assert(!c.kept.outbound.dom().contains(k));
        }
    }
}

// ---------------------------------------------------------------------------
// Attempts
// ---------------------------------------------------------------------------

/// A message is tried when its time has come, unless it is the propagation
/// client's.
pub proof fn law_due(q: Queued, now_ms: u64)
    ensures
        is_due(now_ms)(q) <==> q.mail.method != DeliveryMethod::Propagated && q.next_attempt_ms
            <= now_ms,
{
}

/// The next round is four seconds after this one.
pub proof fn law_rounds(c: Router, now_ms: u64)
    requires
        now_ms <= u64::MAX - 4_000,
    ensures
        begun(c, now_ms).next_job_ms == now_ms + 4_000,
        begun(c, now_ms).kept == c.kept,
        begun(c, now_ms).dirty == c.dirty,
{
}

/// A message fails when its five attempts are spent, and not before.
pub proof fn law_attempts_before_failure(c: Router, id: [u8; 32], t: Timing, f: AttemptFacts)
    requires
        c.kept.outbound.contains_key(id),
    ensures
        ({
            let (next, out) = attempted(c, id, t, f);
            let q = c.kept.outbound[id];
            let moving = q.state == MessageState::Sending && (shape(q.mail) == Ok::<
                DeliveryRepresentation,
                LxmfNodeError,
            >(DeliveryRepresentation::DirectPacket) || shape(q.mail) == Ok::<
                DeliveryRepresentation,
                LxmfNodeError,
            >(DeliveryRepresentation::DirectResource));
            &&& !next.kept.outbound.contains_key(id) <==> q.attempts >= 5 && !moving
            &&& out.contains(
                RouterNote::MessageState { message_id: id, state: MessageState::Failed },
            ) <==> q.attempts >= 5 && !moving
        }),
{
    let (next, out) = attempted(c, id, t, f);
    let n = RouterNote::MessageState { message_id: id, state: MessageState::Failed };
    assert(out.len() <= 1);
    if out.len() == 1 {
        assert(out.contains(n) <==> out[0] == n) by {
            if out[0] == n {
                assert(out.contains(n));
            }
        }
    }
}

/// A message without a stamp that its recipient asks for is not sent: the stamp
/// is asked for, no attempt is spent, and it waits four seconds.
pub proof fn law_stamp_comes_first(c: Router, id: [u8; 32], t: Timing, f: AttemptFacts)
    requires
        c.kept.outbound.contains_key(id),
        c.kept.outbound[id].attempts < 5,
        c.kept.outbound[id].state == MessageState::Outbound,
        stamp_request(c, id, t.now_unix) is Some,
        t.now_ms <= u64::MAX - 4_000,
    ensures
        attempt_demand(c, id, t, f) is None,
        attempted(c, id, t, f).1 == seq![
            RouterNote::StampPending(stamp_request(c, id, t.now_unix)->Some_0),
        ],
        attempted(c, id, t, f).0.kept.outbound[id] == (Queued {
            next_attempt_ms: (t.now_ms + 4_000) as u64,
            ..c.kept.outbound[id]
        }),
        attempted(c, id, t, f).0.node == c.node,
{
}

/// Without a path, a single packet first asks for one at no cost and waits
/// seven seconds; it then goes out once without a path, and asks again at the
/// price of an attempt. Two packets over a known path without a proof make the
/// path suspect: another is asked for. Otherwise the packet is sent.
pub proof fn law_paths_of_single_packets(c: Router, id: [u8; 32], t: Timing, f: AttemptFacts)
    requires
        c.kept.outbound.contains_key(id),
        shape(c.kept.outbound[id].mail) == Ok::<DeliveryRepresentation, LxmfNodeError>(
            DeliveryRepresentation::OpportunisticPacket,
        ),
        c.kept.outbound[id].attempts < 5,
        stamp_request(c, id, t.now_unix) is None,
        t.now_ms <= u64::MAX - 10_000,
    ensures
        ({
            let q = c.kept.outbound[id];
            let next = attempted(c, id, t, f).0;
            let ask = Some(
                Demand::Core(CoreCall::RequestPath { destination: q.mail.destination }),
            );
            let path = f.core.has_path;
            let n = q.attempts;
            &&& !path && n == 0 && !c.asked.contains(id) ==> {
                &&& attempt_demand(c, id, t, f) == ask
                &&& next.kept.outbound[id].attempts == 0
                &&& next.kept.outbound[id].next_attempt_ms == t.now_ms + 7_000
                &&& next.asked.contains(id)
            }
            &&& !path && n >= 1 ==> {
                &&& attempt_demand(c, id, t, f) == ask
                &&& next.kept.outbound[id].attempts == n + 1
                &&& next.kept.outbound[id].next_attempt_ms == t.now_ms + 7_000
            }
            &&& path && n == 2 ==> {
                &&& attempt_demand(c, id, t, f) == Some(
                    Demand::RenewPath { destination: q.mail.destination },
                )
                &&& next.kept.outbound[id].attempts == 3
                &&& next.kept.outbound[id].next_attempt_ms == t.now_ms + 7_000
            }
            &&& (path && n != 2) || (!path && n == 0 && c.asked.contains(id)) ==> {
                &&& verdict(c, id, t, path) is Submit
                &&& next.asked == c.asked
            }
        }),
{
}

/// A message that the stack took is sent, or on its way: a single packet costs
/// an attempt and is sent, a direct one costs none. It is looked at again in
/// ten seconds. One that the stack did not take costs an attempt.
pub proof fn law_taken_message(
    q: Queued,
    node: crate::node::Delivery,
    t: Timing,
    f: AttemptFacts,
)
    requires
        q.attempts < 5,
        t.now_ms <= u64::MAX - 10_000,
    ensures
        ({
            let single = shape(q.mail) == Ok::<DeliveryRepresentation, LxmfNodeError>(
                DeliveryRepresentation::OpportunisticPacket,
            );
            let (n, after) = rescheduled(q, node, None, t, f);
            &&& after == node
            &&& n.mail == q.mail
            &&& n.prepared == q.prepared
            &&& n.next_attempt_ms == t.now_ms + 10_000
            &&& f.taken && single ==> n.state == MessageState::Sent && n.attempts == q.attempts + 1
            &&& f.taken && !single ==> n.state == MessageState::Sending && n.attempts == q.attempts
            &&& !f.taken ==> n.state == q.state && n.attempts == q.attempts + 1
        }),
{
}

/// A message that cannot be sent for want of a link waits for it: seven seconds
/// and an attempt while its path is asked for, four seconds and no attempt
/// while the link comes up. Any other fault costs an attempt and ten seconds.
pub proof fn law_message_without_link(
    q: Queued,
    node: crate::node::Delivery,
    fault: LxmfNodeError,
    t: Timing,
    f: AttemptFacts,
)
    requires
        q.attempts < 5,
        t.now_ms <= u64::MAX - 10_000,
    ensures
        ({
            let (n, after) = rescheduled(q, node, Some(fault), t, f);
            let (linked, r) = crate::node::ensured(node, q.mail.destination, f.link_active, f.core);
            &&& n.mail == q.mail
            &&& n.state == q.state
            &&& n.prepared == q.prepared
            &&& fault != LxmfNodeError::DirectLinkUnavailable ==> {
                &&& after == node
                &&& n.attempts == q.attempts + 1
                &&& n.next_attempt_ms == t.now_ms + 10_000
            }
            &&& fault == LxmfNodeError::DirectLinkUnavailable ==> {
                &&& after == linked
                &&& r matches Ok((s, _)) ==> {
                    &&& s is PathRequested ==> n.attempts == q.attempts + 1 && n.next_attempt_ms
                        == t.now_ms + 7_000
                    &&& s is Connecting || s is Ready ==> n.attempts == q.attempts
                        && n.next_attempt_ms == t.now_ms + 4_000
                }
                &&& r is Err ==> n.attempts == q.attempts + 1 && n.next_attempt_ms == t.now_ms
                    + 10_000
            }
        }),
{
}

/// What is handed to the stack is the message itself, and what the stack took
/// is tracked under its identifier; a Resource that the host builds is handed
/// out with the packed message.
pub proof fn law_lodged_message(c: Router, id: [u8; 32], mail: Mail, f: AttemptFacts)
    ensures
        ({
            let (next, out) = lodged(c, id, mail, f);
            let defer = c.config.defer_resource_builds && shape(mail) == Ok::<
                DeliveryRepresentation,
                LxmfNodeError,
            >(DeliveryRepresentation::DirectResource);
            &&& next.kept == c.kept
            &&& next.asked == c.asked
            &&& next.waiting == c.waiting
            &&& !f.taken || !defer ==> next.builds == c.builds && out.len() == 0
            &&& handed(c, mail, f.link_active).1 is Err ==> next.builds == c.builds && out.len()
                == 0
            &&& defer && f.taken ==> (crate::node::live_link(
                c.node,
                mail.destination,
                f.link_active,
            ).1 matches Ok(link_id) ==> {
                &&& out == seq![RouterNote::ResourceBuildPending(id)]
                &&& next.builds.len() == c.builds.len() + 1
                &&& next.builds.last() is Delivery
                &&& next.builds.last()->Delivery_message_id == id
                &&& next.builds.last()->Delivery_params.link_id == link_id
                &&& next.builds.last()->Delivery_params.message_id == mail.id
                &&& next.builds.last()->Delivery_data == crate::message::mail_bytes(mail)
            })
            &&& !defer ==> handed(c, mail, f.link_active).0 == crate::node::planned(
                c.node,
                mail,
                f.link_active,
            ).0
            &&& !defer ==> (handed(c, mail, f.link_active).1 matches Ok(d) ==> {
                &&& d is Send
                &&& crate::node::planned(c.node, mail, f.link_active).1 is Ok
                &&& d->Send_0 == crate::node::planned(c.node, mail, f.link_active).1->Ok_0
            })
        }),
{
}

// ---------------------------------------------------------------------------
// What is remembered
// ---------------------------------------------------------------------------

/// What is too old is forgotten, and nothing else: stamp costs after 45 days,
/// identifiers after 180.
pub proof fn law_forgetting(
    c: Router,
    now: u64,
    tickets: Option<Tickets>,
    d: [u8; 16],
    id: [u8; 32],
)
    ensures
        ({
            let n = cleaned(c, now, tickets);
            &&& n.kept.costs.contains_key(d) <==> c.kept.costs.contains_key(d)
                && crate::ieee::within(now, c.kept.costs[d].seen, 3_888_000)
            &&& n.kept.costs.contains_key(d) ==> n.kept.costs[d] == c.kept.costs[d]
            &&& n.kept.delivered.contains_key(id) <==> c.kept.delivered.contains_key(id)
                && crate::ieee::within(now, c.kept.delivered[id], 15_552_000)
            &&& n.kept.delivered.contains_key(id) ==> n.kept.delivered[id]
                == c.kept.delivered[id]
            &&& n.kept.processed.contains_key(id) <==> c.kept.processed.contains_key(id)
                && crate::ieee::within(now, c.kept.processed[id], 15_552_000)
            &&& n.kept.outbound == c.kept.outbound
            &&& n.kept.ignored == c.kept.ignored
            &&& tickets is None ==> n.kept.tickets == c.kept.tickets
            &&& tickets is Some ==> n.kept.tickets == tickets->Some_0
        }),
{
}

/// What is remembered last is there afterwards, and where there is room nothing
/// is lost for it.
pub proof fn law_remembering(c: Router, id: [u8; 32], now: u64, d: [u8; 16], entry: StampCost, other: [u8; 32])
    requires
        c.config.max_delivered_ids > 0,
        c.config.max_processed_ids > 0,
        c.config.max_stamp_costs > 0,
    ensures
        with_delivered(c, id, now).kept.delivered.contains_key(id),
        with_delivered(c, id, now).kept.delivered[id] == now,
        with_delivered(c, id, now).kept.processed == c.kept.processed,
        with_processed(c, id, now).kept.processed.contains_key(id),
        with_processed(c, id, now).kept.processed[id] == now,
        with_processed(c, id, now).kept.delivered == c.kept.delivered,
        with_cost(c, d, entry).kept.costs.contains_key(d),
        with_cost(c, d, entry).kept.costs[d] == entry,
        c.kept.delivered.dom().len() < c.config.max_delivered_ids && c.kept.delivered.contains_key(
            other,
        ) ==> with_delivered(c, id, now).kept.delivered.contains_key(other),
        c.kept.processed.dom().len() < c.config.max_processed_ids && c.kept.processed.contains_key(
            other,
        ) ==> with_processed(c, id, now).kept.processed.contains_key(other),
{
}

/// A full memory gives up one entry for a new one: the one with the lowest
/// time.
pub proof fn law_oldest_makes_room(times: Seq<u64>, i: int)
    requires
        0 <= i < times.len(),
        forall|k: int| 0 <= k < times.len() ==> !crate::ieee::nan(#[trigger] times[k]),
    ensures
        0 <= oldest(times) < times.len(),
        !crate::ieee::lt(times[i], times[oldest(times)]),
    decreases times.len(),
{
    if times.len() > 1 {
        let r = times.drop_last();
        assert forall|k: int| 0 <= k < r.len() implies !crate::ieee::nan(#[trigger] r[k]) by {
            assert(r[k] == times[k]);
        }
        let j = if i < times.len() - 1 {
            i
        } else {
            0
        };
        law_oldest_makes_room(r, j);
        assert(r[j] == times[j]);
        assert(r[oldest(r)] == times[oldest(r)]);
    }
}

/// The notes of an operation are all reported, in their order.
pub proof fn law_notes_are_reported(dirty: bool, s: Seq<RouterNote>)
    requires
        !s.contains(RouterNote::PersistenceRequested),
    ensures
        finished(dirty, s) == if dirty {
            s.push(RouterNote::PersistenceRequested)
        } else {
            s
        },
{
    lemma_once_is_all(s);
}

proof fn lemma_once_is_all(s: Seq<RouterNote>)
    requires
        !s.contains(RouterNote::PersistenceRequested),
    ensures
        once(s) == s,
    decreases s.len(),
{
    if s.len() > 0 {
        let r = s.drop_last();
        if r.contains(RouterNote::PersistenceRequested) {
            let i = choose|i: int| 0 <= i < r.len() && r[i] == RouterNote::PersistenceRequested;
            assert(s[i] == RouterNote::PersistenceRequested);
        }
        lemma_once_is_all(r);
        assert(s[s.len() - 1] == s.last());
        assert(r.push(s.last()) =~= s);
    }
}

/// The values under a key are those of its fields, in order.
pub proof fn law_values_of(fields: Seq<(i64, Seq<u8>)>, key: i64, k: i64, v: Seq<u8>)
    ensures
        values_of(fields.push((k, v)), key) == if k == key {
            values_of(fields, key).push(v)
        } else {
            values_of(fields, key)
        },
        values_of(Seq::empty(), key).len() == 0,
{
    assert(fields.push((k, v)).drop_last() =~= fields);
}

/// When a link that was opened from here closes, the path is asked for again
/// exactly where a queued message needs the link.
pub proof fn law_closed_link_asks_for_path(
    c: Router,
    e: CoreEvent,
    facts: Facts,
    t: Timing,
    f: MessageFacts,
)
    requires
        e is LinkClosed,
        routed(c, e, facts, t, f).1 is Ok,
    ensures
        ({
            let (next, r) = routed(c, e, facts, t, f);
            let d = e->LinkClosed_destination;
            let wanted = exists|id: [u8; 32]| #[trigger]
                next.kept.outbound.contains_key(id) && next.kept.outbound[id].mail.destination == d
                    && shape(next.kept.outbound[id].mail) != Ok::<
                    DeliveryRepresentation,
                    LxmfNodeError,
                >(DeliveryRepresentation::OpportunisticPacket);
            r->Ok_0.1 == if e->LinkClosed_is_initiator && wanted {
                seq![CoreCall::RequestPath { destination: d }]
            } else {
                Seq::<CoreCall>::empty()
            }
        }),
{
}

// ---------------------------------------------------------------------------
// Operations
// ---------------------------------------------------------------------------

/// Cancelling a message takes it out of the queue and ends it as cancelled;
/// the others stay. One that goes out directly leaves no trace in the adapter,
/// and the links that carry it as a Resource are closed.
pub proof fn law_cancelling(
    before: Router,
    after: Router,
    id: [u8; 32],
    r: Result<RouterOutput, RouterError>,
    other: [u8; 32],
    link: LinkId,
)
    requires
        cancelling(before, after, id, r),
        before.node.resources.dom().finite(),
        other != id,
    ensures
        r is Ok <==> before.kept.outbound.contains_key(id),
        r is Err ==> after == before && r->Err_0 == RouterError::NotFound,
        !after.kept.outbound.contains_key(id),
        after.kept.outbound.contains_key(other) == before.kept.outbound.contains_key(other),
        before.kept.outbound.contains_key(other) ==> after.kept.outbound[other]
            == before.kept.outbound[other],
        r is Ok ==> {
            let direct = before.kept.outbound[id].mail.method != DeliveryMethod::Propagated;
            &&& after.dirty
            &&& notes(r->Ok_0.events@).contains(
                RouterNote::MessageState { message_id: id, state: MessageState::Cancelled },
            )
            &&& direct ==> !crate::node::in_flight(after.node, id)
            &&& direct && before.node.resources.contains_key(link)
                && before.node.resources[link].message_id == id ==> r->Ok_0.calls@.contains(
                CoreCall::CloseLink { link_id: link },
            )
            &&& !direct ==> after.node == before.node && r->Ok_0.calls@.len() == 0
            &&& after.kept.tickets == before.kept.tickets
            &&& after.kept.delivered == before.kept.delivered
        },
{
    if before.kept.outbound.contains_key(id) {
        let note = RouterNote::MessageState { message_id: id, state: MessageState::Cancelled };
        let s = seq![note];
        let written = RouterNote::PersistenceRequested;
        assert(s.drop_last() =~= Seq::<RouterNote>::empty());
        reveal_with_fuel(once, 2);
        assert(once(s) =~= s);
        assert(s[0] == note);
        assert(!s.contains(written));
        assert(s.push(written)[0] == note);
        crate::node::law_cancelled_is_not_in_flight(before.node, id);
        let direct = before.kept.outbound[id].mail.method != DeliveryMethod::Propagated;
        if direct && before.node.resources.contains_key(link)
            && before.node.resources[link].message_id == id {
            let keys = crate::bytemap::keys_where(before.node.resources, crate::node::sends(id));
            crate::bytemap::lemma_keys_where_complete(
                before.node.resources,
                crate::node::sends(id),
                link,
            );
            let i = choose|i: int| 0 <= i < keys.len() && keys[i] == link;
            assert(r->Ok_0.calls@[i] == (CoreCall::CloseLink { link_id: link }));
        }
    }
}

/// A source is ignored once there is room for it, and no longer once it is
/// taken back; other sources are as they were.
pub proof fn law_ignored_sources(
    before: Router,
    after: Router,
    source: [u8; 16],
    other: [u8; 16],
)
    requires
        other != source,
    ensures
        ignoring(before, after, source) ==> {
            &&& before.kept.ignored.dom().len() < before.config.max_policy_entries
                || before.kept.ignored.contains_key(source) ==> after.kept.ignored.contains_key(
                source,
            )
            &&& before.kept.ignored.dom().len() >= before.config.max_policy_entries ==> after
                == before
            &&& after.kept.ignored.contains_key(other) == before.kept.ignored.contains_key(other)
            &&& after.kept.outbound == before.kept.outbound
            &&& after != before ==> after.dirty
        },
        unignoring(before, after, source) ==> {
            &&& !after.kept.ignored.contains_key(source)
            &&& after.kept.ignored.contains_key(other) == before.kept.ignored.contains_key(other)
            &&& after.kept.outbound == before.kept.outbound
            &&& before.kept.ignored.contains_key(source) ==> after.dirty
        },
{
}

/// The sources to ignore are replaced as a whole, where there is room for all.
pub proof fn law_replaced_sources(
    before: Router,
    after: Router,
    ignored: Map<[u8; 16], ()>,
    r: Result<RouterOutput, RouterError>,
)
    requires
        ignoring_only(before, after, ignored, r),
    ensures
        r is Ok <==> ignored.dom().len() <= before.config.max_policy_entries,
        r is Ok ==> after.kept.ignored == ignored && (ignored != before.kept.ignored ==> after.dirty),
        r is Err ==> after == before && r->Err_0 == RouterError::QueueFull,
        after.kept.outbound == before.kept.outbound,
{
}

/// A delivery stamp of 16 or 32 bytes is attached to a queued message, which is
/// then due at once, and changes nothing else of it; one that was asked for is
/// attached only while it is still lacking.
pub proof fn law_stamping(
    before: Router,
    after: Router,
    id: [u8; 32],
    stamp: Seq<u8>,
    now_ms: u64,
    client: Option<u64>,
    r: Result<RouterOutput, RouterError>,
    request: DeliveryStampRequest,
    t: Timing,
    asked: Router,
    s: Result<RouterOutput, RouterError>,
)
    requires
        stamping(before, after, id, stamp, now_ms, client, r),
        stamping_as_asked(before, asked, request, stamp, t, client, s),
    ensures
        r is Ok <==> before.kept.outbound.contains_key(id) && (stamp.len() == 16 || stamp.len() == 32),
        r is Err ==> after == before,
        r is Ok ==> ({
            let was = before.kept.outbound[id];
            let is = after.kept.outbound[id];
            &&& after.kept.outbound.contains_key(id)
            &&& is.mail.payload.stamp == Some(stamp)
            &&& is.mail.id == was.mail.id
            &&& is.mail.payload.title == was.mail.payload.title
            &&& is.mail.payload.content == was.mail.payload.content
            &&& is.mail.payload.fields == was.mail.payload.fields
            &&& is.next_attempt_ms == now_ms
            &&& is.attempts == was.attempts
            &&& is.state == was.state
            &&& was.mail.method == DeliveryMethod::Propagated ==> is.prepared is None
            &&& after.next_job_ms <= now_ms
            &&& after.next_job_ms <= before.next_job_ms
            &&& after.dirty
        }),
        s is Ok <==> before.kept.outbound.contains_key(request.message_id)
            && before.kept.outbound[request.message_id].mail.payload.stamp is None && stamp_cost(
            before,
            before.kept.outbound[request.message_id].mail.destination,
            t.now_unix,
        ) == Some(request.target_cost) && (stamp.len() == 16 || stamp.len() == 32),
        s is Err ==> asked == before,
        s is Ok ==> asked.kept.outbound[request.message_id].mail.payload.stamp == Some(stamp),
{
}

/// A propagation stamp is attached to the preparation of a propagated message
/// that has a cost, and to no other; one that was asked for only while it is
/// still lacking, for the same bytes and the same cost.
pub proof fn law_node_stamping(
    before: Router,
    after: Router,
    id: [u8; 32],
    stamp: [u8; 32],
    now_ms: u64,
    client: Option<u64>,
    r: Result<RouterOutput, RouterError>,
    request: PropagationStampRequest,
    asked: Router,
    s: Result<RouterOutput, RouterError>,
)
    requires
        node_stamping(before, after, id, stamp, now_ms, client, r),
        node_stamping_as_asked(before, asked, request, stamp, now_ms, client, s),
    ensures
        ({
            let was = before.kept.outbound[id];
            let is = after.kept.outbound[id];
            let w = before.kept.outbound[request.message_id].prepared;
            &&& r is Ok <==> before.kept.outbound.contains_key(id) && was.mail.method
                == DeliveryMethod::Propagated && was.prepared is Some
                && was.prepared->Some_0.target_cost is Some
            &&& r is Err ==> after == before
            &&& r is Ok ==> is.prepared is Some && is.prepared->Some_0.stamp == Some(stamp)
                && is.prepared->Some_0.unstamped == was.prepared->Some_0.unstamped
                && is.prepared->Some_0.transient_id == was.prepared->Some_0.transient_id && is.mail
                == was.mail && is.next_attempt_ms == now_ms && after.next_job_ms <= now_ms
            &&& s is Ok ==> before.kept.outbound.contains_key(request.message_id) && w is Some
                && w->Some_0.stamp is None && w->Some_0.target_cost == Some(request.target_cost)
                && w->Some_0.transient_id == request.transient_id
                && asked.kept.outbound[request.message_id].prepared is Some
                && asked.kept.outbound[request.message_id].prepared->Some_0.stamp == Some(stamp)
            &&& s is Err ==> asked == before
        }),
{
}

/// The snapshot is written for the state as it is, which is then clean; where
/// it cannot be written nothing changes.
pub proof fn law_persisting(
    before: Router,
    after: Router,
    stored: Result<(), StorageError>,
    r: Result<(), RouterError>,
)
    requires
        persisting(before, after, stored, r),
    ensures
        r is Ok ==> !after.dirty && stored is Ok,
        r is Err ==> after == before,
        after.kept == before.kept,
        after.node == before.node,
        after.waiting == before.waiting,
        stored is Err && crate::router::snapshot_value(before) is Ok ==> r == Err::<(), RouterError>(
            RouterError::Storage(stored->Err_0),
        ),
{
}

/// Restoring replaces all that is kept by what the snapshot holds, or, where
/// there is none or it cannot be read, nothing.
pub proof fn law_restoring(
    before: Router,
    after: Router,
    stored: Result<Option<Vec<u8>>, StorageError>,
    r: Result<(), RouterError>,
)
    requires
        restoring(before, after, stored, r),
    ensures
        r is Err ==> after == before,
        stored is Err ==> r == Err::<(), RouterError>(RouterError::Storage(stored->Err_0)),
        stored is Ok && stored->Ok_0 is None ==> r is Ok && after == before,
        stored is Ok && stored->Ok_0 is Some ==> ({
            let d = stored->Ok_0->Some_0@;
            let read = crate::snapshot::restored_from(d, before.identity, before.config);
            &&& r is Ok <==> d.len() <= before.config.max_snapshot_bytes && read is Ok
            &&& r is Ok ==> after.kept == read->Ok_0 && !after.dirty && after.next_job_ms == 0
                && after.asked == Set::<[u8; 32]>::empty()
            &&& r is Err ==> r->Err_0 == RouterError::CorruptSnapshot
        }),
        after.node == before.node,
        after.config == before.config,
        after.identity == before.identity,
{
}

/// The verdict on a stamp is for a message that waits for one at the cost that
/// is asked now; the message then waits no longer, and an invalid stamp is
/// reported and its message is not.
pub proof fn law_judging(
    before: Router,
    after: Router,
    request: InboundStampRequest,
    valid: bool,
    r: Result<RouterOutput, RouterError>,
)
    requires
        judging(before, after, request, valid, r),
    ensures
        r is Ok <==> before.config.inbound_stamp_cost == Some(request.target_cost) && waiting_for(
            before.waiting,
            request.message_id,
        ) >= 0,
        r is Err ==> after == before && r->Err_0 == RouterError::StaleStampRequest,
        r is Ok && !valid ==> ({
            let i = waiting_for(before.waiting, request.message_id);
            &&& after.waiting == before.waiting.remove(i)
            &&& after.kept == before.kept
            &&& notes(r->Ok_0.events@) == finished(
                before.dirty,
                seq![RouterNote::InvalidStamp(before.waiting[i].0.id)],
            )
        }),
{
}

/// A mailbox client is taken where it is of the router's identity.
pub proof fn law_enabling(
    before: Router,
    after: Router,
    transport: PropagationTransport,
    r: Result<(), RouterError>,
)
    requires
        enabling(before, after, transport, r),
    ensures
        r is Ok <==> transport.identity_hash == before.identity,
        r is Ok ==> after.propagation == Some(transport),
        r is Err ==> after == before && r->Err_0 == RouterError::IdentityMismatch,
        after.kept == before.kept,
        after.node == before.node,
{
}

/// A message is queued to be sent at once, with the stamp of a reply where it
/// has one, and reported; a paper message never is, nor one that is queued
/// already, nor one too many.
pub proof fn law_queueing_a_message(
    before: Router,
    after: Router,
    mail: Mail,
    now_ms: u64,
    node_selected: bool,
    reply_stamp: Option<Seq<u8>>,
    r: Result<RouterOutput, RouterError>,
)
    requires
        queueing(before, after, mail, now_ms, node_selected, reply_stamp, r),
    ensures
        r is Ok <==> mail.method != DeliveryMethod::Paper && (mail.method
            == DeliveryMethod::Propagated ==> node_selected) && !before.kept.outbound.contains_key(
            mail.id,
        ) && before.kept.outbound.dom().len() < before.config.max_outbound && (reply_stamp is Some
            ==> reply_stamp->Some_0.len() == 16 || reply_stamp->Some_0.len() == 32),
        r is Err ==> after == before,
        r is Ok ==> ({
            let q = after.kept.outbound[mail.id];
            &&& after.kept.outbound == before.kept.outbound.insert(mail.id, q)
            &&& q.state == MessageState::Outbound
            &&& q.attempts == 0
            &&& q.next_attempt_ms == now_ms
            &&& q.prepared is None
            &&& q.mail.id == mail.id
            &&& q.mail.destination == mail.destination
            &&& q.mail.payload.title == mail.payload.title
            &&& q.mail.payload.content == mail.payload.content
            &&& q.mail.payload.fields == mail.payload.fields
            &&& q.mail.payload.stamp == if reply_stamp is Some {
                reply_stamp
            } else {
                mail.payload.stamp
            }
            &&& after.dirty
            &&& notes(r->Ok_0.events@) == finished(true, seq![RouterNote::MessageQueued(mail.id)])
            &&& r->Ok_0.calls@.len() == 0
        }),
{
}

/// An issued ticket goes out as the ticket field, while the clock is right and
/// there is room for it.
pub proof fn law_issuing(
    before: Router,
    after: Router,
    plausible_clock: bool,
    destination: [u8; 16],
    issued: Tickets,
    value: Option<Seq<u8>>,
    r: Result<(Option<Field>, RouterOutput), RouterError>,
)
    requires
        issuing(before, after, plausible_clock, destination, issued, value, r),
    ensures
        !plausible_clock ==> r is Err && r->Err_0 == RouterError::NoWallClock,
        r is Err ==> after == before,
        r is Ok ==> after.kept.tickets == issued && crate::ticket::entries(issued)
            <= before.config.max_tickets && (r->Ok_0.0 is Some <==> value is Some),
        r is Ok && value is Some ==> r->Ok_0.0->Some_0.0 == 12 && r->Ok_0.0->Some_0.1@
            == value->Some_0,
        plausible_clock && crate::ticket::entries(issued) < before.config.max_tickets ==> r is Ok,
        after.kept.outbound == before.kept.outbound,
{
}

/// A built transfer that was handed over is in flight, on its link and for its
/// message; a refused one leaves all as it was.
pub proof fn law_committing(
    before: Router,
    after: Router,
    built: BuiltResource,
    link_active: bool,
    committed: Result<[u8; 32], ResourceError>,
    r: Result<RouterOutput, RouterError>,
)
    requires
        committing(before, after, built, link_active, committed, r),
    ensures
        r is Err ==> after == before,
        committed is Err ==> r is Err,
        r is Ok && built.kind is Delivery ==> ({
            let p = built.kind->Delivery_0;
            &&& after.node.resources.contains_key(p.link_id)
            &&& after.node.resources[p.link_id].message_id == p.message_id
            &&& after.node.resources[p.link_id].current_resource_hash == committed->Ok_0
            &&& after.propagation == before.propagation
        }),
        built.kind is Delivery && committed is Ok ==> r is Ok,
        r is Ok && built.kind is Upload ==> ({
            let p = built.kind->Upload_0;
            &&& link_active
            &&& before.propagation is Some
            &&& after.propagation is Some
            &&& after.propagation->0@.uploads.contains_key(p.link_id)
            &&& after.propagation->0@.uploads[p.link_id].message_id == p.message_id
            &&& !before.propagation->0@.uploads.contains_key(p.link_id)
            &&& after.node == before.node
        }),
        built.kind is Upload && before.propagation is None ==> r == Err::<RouterOutput, RouterError>(
            RouterError::PropagationNodeUnavailable,
        ),
        after.kept == before.kept,
{
}

/// A transfer is built for the link and the message that it was asked for.
pub proof fn law_building(b: Build, built: Result<(), ResourceError>, r: Result<BuiltResource, RouterError>)
    requires
        built_from(b, built, r),
    ensures
        r is Ok <==> built is Ok,
        r is Ok && b is Delivery ==> r->Ok_0.kind is Delivery && r->Ok_0.kind->Delivery_0.link_id
            == b->Delivery_params.link_id && r->Ok_0.kind->Delivery_0.message_id
            == b->Delivery_params.message_id,
        r is Ok && b is Delivery && b->Delivery_data.len() <= usize::MAX
            ==> r->Ok_0.kind->Delivery_0.packed_len == b->Delivery_data.len(),
        r is Ok && b is Upload ==> r->Ok_0.kind is Upload && r->Ok_0.kind->Upload_0.link_id
            == b->Upload_params.link_id && r->Ok_0.kind->Upload_0.message_id
            == b->Upload_params.message_id && r->Ok_0.kind->Upload_0.representation
            == b->Upload_params.representation,
        r is Err && b is Delivery ==> r->Err_0 == RouterError::Node(
            LxmfNodeError::Resource(built->Err_0),
        ),
{
}

/// A message that is created here comes from the local destination and is made
/// of its parts.
pub proof fn law_composed_message(
    home: DestinationHash,
    has_identity: bool,
    signature: Option<[u8; 64]>,
    destination_hash: [u8; 16],
    now_unix: u64,
    title: Vec<u8>,
    content: Vec<u8>,
    fields: Vec<Field>,
    method: DeliveryMethod,
    r: Result<Message, RouterError>,
)
    requires
        composed(
            home,
            has_identity,
            signature,
            destination_hash,
            now_unix,
            title,
            content,
            fields,
            method,
            r,
        ),
    ensures
        !has_identity ==> r == Err::<Message, RouterError>(RouterError::NotFound),
        r is Ok <==> has_identity && signature is Some && crate::message::fields_valid(
            crate::message::fields_view(fields@),
        ),
        r is Ok ==> ({
            let m = r->Ok_0;
            &&& m.source_hash == home
            &&& m.destination_hash == destination_hash
            &&& Some(m.signature) == signature
            &&& m.timestamp == now_unix
            &&& m.title@ == title@
            &&& m.content@ == content@
            &&& m.fields@ == fields@
            &&& m.stamp is None
            &&& m.method == method
        }),
{
}

/// An event concludes a message that it delivers and that is still queued.
pub proof fn law_concluded_message(before: Router, event: CoreEvent, r: Option<[u8; 32]>)
    requires
        concluding(before, event, r),
    ensures
        r is Some ==> before.kept.outbound.contains_key(r->Some_0) && crate::node::concluding(
            before.node,
            event,
        ) == r,
        r is None && crate::node::concluding(before.node, event) is Some
            ==> !before.kept.outbound.contains_key(
            crate::node::concluding(before.node, event)->Some_0,
        ),
{
}

/// A ticket that is news makes the state one to be written, and one that is
/// known already does not.
pub proof fn law_ticket_news(c: Router, mail: Mail, f: MessageFacts)
    ensures
        ({
            let next = ticket_remembered(c, mail, f);
            let known = c.kept.tickets.outbound.contains_key(mail.source) && f.tickets@.len() > 0
                && f.tickets@[0] is Some && crate::ticket::alike(
                c.kept.tickets.outbound[mail.source],
                f.tickets@[0]->Some_0,
            );
            &&& known ==> next.dirty == c.dirty
            &&& !known && next != c ==> next.dirty
            &&& c.dirty ==> next.dirty
        }),
{
}

/// A ticket needs room for itself and, for a peer that none reached yet, for
/// the time at which it does.
pub proof fn law_room_for_tickets(
    before: Router,
    after: Router,
    destination: [u8; 16],
    issued: Tickets,
    value: Option<Seq<u8>>,
    r: Result<(Option<Field>, RouterOutput), RouterError>,
)
    requires
        issuing(before, after, true, destination, issued, value, r),
    ensures
        value is None || issued.last.contains_key(destination) ==> (r is Ok
            <==> crate::ticket::entries(issued) <= before.config.max_tickets),
        value is Some && !issued.last.contains_key(destination) ==> (r is Ok
            <==> crate::ticket::entries(issued) < before.config.max_tickets),
        r is Err ==> r->Err_0 == RouterError::QueueFull,
{
}

/// Handing a transfer over asks nothing of the host and tells nothing.
pub proof fn law_committing_is_quiet(
    before: Router,
    after: Router,
    built: BuiltResource,
    link_active: bool,
    committed: Result<[u8; 32], ResourceError>,
    r: Result<RouterOutput, RouterError>,
)
    requires
        committing(before, after, built, link_active, committed, r),
        r is Ok,
    ensures
        r->Ok_0.calls@.len() == 0,
        r->Ok_0.events@.len() == 0,
        r->Ok_0.next_deadline_ms is None,
        after.builds == before.builds,
        after.waiting == before.waiting,
        after.dirty == before.dirty,
{
}

} // verus!
