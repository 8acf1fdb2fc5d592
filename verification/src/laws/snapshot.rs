//! Snapshots: what stands where, and what a restart keeps.
use vstd::prelude::*;

use crate::bytemap;
use crate::ieee;
use crate::message::{DeliveryMethod, SignatureCheck, Verification};
use crate::msgpack;
use crate::router::{MessageState, Queued, RouterConfig, RouterError, StampCost};
use crate::snapshot::{
    cost_at, cost_bytes, costs_bytes, delivery_at, delivery_bytes, entry_at, entry_bytes, fixed_at,
    ignored_at, ignored_bytes, ignores_bytes, method_of, opt_stamp_bytes, opt_uint_bytes,
    prepared_at, prepared_bytes, queue_bytes, resting, restored_from, snapshot_bytes, snapshot_of,
    some_prepared_at, sound, state_of, table_at, tables_at, tables_bytes, ticket_at, ticket_bytes,
    tickets_at, tickets_bytes, time_at, time_bytes, times_bytes, verification_code, verification_of,
    Kept,
};
use crate::ticket::Ticket;

verus! {

/// The numbers of methods, states and verifications, both ways.
pub proof fn law_numbers(m: DeliveryMethod, s: MessageState, v: Verification, code: u64)
    ensures
        m != DeliveryMethod::Paper ==> method_of(m.spec_code()) == Some(m),
        state_of(s.spec_code()) == Some(s),
        verification_of(verification_code(v)) == Some(v),
        method_of(code) == Some(m) ==> m.spec_code() == code,
        state_of(code) == Some(s) ==> s.spec_code() == code,
        verification_of(code) == Some(v) ==> verification_code(v) == code,
        DeliveryMethod::Opportunistic.spec_code() == 1,
        DeliveryMethod::Direct.spec_code() == 2,
        DeliveryMethod::Propagated.spec_code() == 3,
        DeliveryMethod::Paper.spec_code() == 5,
        method_of(5) is None,
        MessageState::Generating.spec_code() == 0,
        MessageState::Outbound.spec_code() == 1,
        MessageState::Sending.spec_code() == 2,
        MessageState::Sent.spec_code() == 4,
        MessageState::Delivered.spec_code() == 8,
        MessageState::Rejected.spec_code() == 253,
        MessageState::Cancelled.spec_code() == 254,
        MessageState::Failed.spec_code() == 255,
        verification_code(Verification::Unverified) == 0,
        verification_code(Verification::Valid) == 1,
        verification_code(Verification::Invalid) == 2,
{
}

/// The bytes of a queued message: the packed message, then method, state,
/// verification, attempts, next attempt, progress and preparation.
pub proof fn law_entry_layout(q: Queued)
    ensures
        entry_bytes(q) == seq![0x98u8] + msgpack::bin_bytes(crate::message::mail_bytes(q.mail))
            + msgpack::uint_bytes(q.mail.method.spec_code() as nat) + msgpack::uint_bytes(
            q.state.spec_code() as nat,
        ) + msgpack::uint_bytes(verification_code(q.mail.verification) as nat)
            + msgpack::uint_bytes(q.attempts as nat) + msgpack::uint_bytes(q.next_attempt_ms as nat)
            + msgpack::double_bytes(ieee::widened(q.progress) as u64) + prepared_bytes(q.prepared),
        q.prepared is None ==> prepared_bytes(q.prepared) == seq![0xc0u8],
        q.prepared is Some ==> prepared_bytes(q.prepared) == seq![0x95u8] + msgpack::double_bytes(
            q.prepared->Some_0.timebase,
        ) + msgpack::bin_bytes(q.prepared->Some_0.unstamped) + msgpack::bin_bytes(
            q.prepared->Some_0.transient_id@,
        ) + opt_uint_bytes(q.prepared->Some_0.target_cost) + opt_stamp_bytes(
            q.prepared->Some_0.stamp,
        ),
{
    reveal(msgpack::array_header);
}

/// The bytes of the other rows.
pub proof fn law_row_layouts(
    time: ([u8; 32], u64),
    cost: ([u8; 16], StampCost),
    ticket: ([u8; 16], Ticket),
    delivery: ([u8; 16], u64),
    ignored: ([u8; 16], ()),
    n: u8,
    stamp: [u8; 32],
)
    ensures
        time_bytes(time) == seq![0x92u8] + msgpack::bin_bytes(time.0@) + msgpack::double_bytes(
            time.1,
        ),
        cost_bytes(cost) == seq![0x94u8] + msgpack::bin_bytes(cost.0@) + msgpack::double_bytes(
            cost.1.seen,
        ) + opt_uint_bytes(cost.1.cost) + (if cost.1.compression {
            seq![0xc3u8]
        } else {
            seq![0xc2u8]
        }),
        ticket_bytes(ticket) == seq![0x93u8] + msgpack::bin_bytes(ticket.0@) + msgpack::double_bytes(
            ticket.1.expires_unix,
        ) + msgpack::bin_bytes(ticket.1.secret@),
        delivery_bytes(delivery) == seq![0x92u8] + msgpack::bin_bytes(delivery.0@)
            + msgpack::double_bytes(delivery.1),
        ignored_bytes(ignored) == msgpack::bin_bytes(ignored.0@),
        opt_uint_bytes(None) == seq![0xc0u8],
        opt_uint_bytes(Some(n)) == msgpack::uint_bytes(n as nat),
        opt_stamp_bytes(None) == seq![0xc0u8],
        opt_stamp_bytes(Some(stamp)) == msgpack::bin_bytes(stamp@),
{
    reveal(msgpack::array_header);
}

/// The tables stand in one order: the queue, the delivered and the processed
/// identifiers, the costs, the tickets (issued, granted, delivered) and the
/// ignored sources.
pub proof fn law_table_order(identity: [u8; 16], k: Kept, next_job_ms: u64)
    ensures
        snapshot_bytes(identity, k, next_job_ms) == seq![0x99u8, 0x04u8] + msgpack::bin_bytes(
            identity@,
        ) + (queue_bytes(k.outbound) + times_bytes(k.delivered) + times_bytes(k.processed)
            + costs_bytes(k.costs) + tickets_bytes(k.tickets) + ignores_bytes(k.ignored))
            + msgpack::uint_bytes(next_job_ms as nat),
        tickets_bytes(k.tickets) == seq![0x93u8] + crate::snapshot::table_bytes(
            |e: ([u8; 16], Ticket)| ticket_bytes(e),
            crate::ticket::issued(k.tickets),
        ) + crate::snapshot::table_bytes(
            |e: ([u8; 16], Ticket)| ticket_bytes(e),
            bytemap::pairs(k.tickets.outbound),
        ) + crate::snapshot::table_bytes(
            |e: ([u8; 16], u64)| delivery_bytes(e),
            bytemap::pairs(k.tickets.last),
        ),
{
    reveal(msgpack::array_header);
    reveal(msgpack::uint_bytes);
    reveal(tables_bytes);
    assert(msgpack::array_header(9) + msgpack::uint_bytes(4) =~= seq![0x99u8, 0x04u8]);
}

/// A restored message is the packed one, with its method, its verification and
/// its attempts; it is due at once, at rest. Its state, next attempt and
/// progress had to be readable, its progress from zero to one.
pub proof fn law_restored_message(d: Seq<u8>, p: int, version: u64)
    requires
        entry_at(d, p, version) is Ok,
    ensures
        ({
            let ((id, q), end) = entry_at(d, p, version)->Ok_0;
            let (n, p0) = msgpack::array_len_at(d, p)->Ok_0;
            let (packed, p1) = msgpack::bin_at(d, p0)->Ok_0;
            let (method, p2) = msgpack::uint_at(d, p1)->Ok_0;
            let (state, p3) = msgpack::uint_at(d, p2)->Ok_0;
            let (verification, p4) = msgpack::uint_at(d, p3)->Ok_0;
            let (attempts, p5) = msgpack::uint_at(d, p4)->Ok_0;
            let (next, p6) = msgpack::uint_at(d, p5)->Ok_0;
            let (progress, p7) = msgpack::number_bits_at(d, p6)->Ok_0;
            let mail = crate::message::mail_of(
                packed,
                None,
                SignatureCheck::NoIdentity,
                DeliveryMethod::Direct,
            );
            &&& n == if version >= 4 {
                8nat
            } else {
                7nat
            }
            &&& mail is Ok
            &&& id == mail->Ok_0.id
            &&& q.mail.id == mail->Ok_0.id
            &&& q.mail.destination == mail->Ok_0.destination
            &&& q.mail.source == mail->Ok_0.source
            &&& q.mail.signature == mail->Ok_0.signature
            &&& q.mail.payload == mail->Ok_0.payload
            &&& method_of(method) == Some(q.mail.method)
            &&& verification_of(verification) == Some(q.mail.verification)
            &&& state_of(state) is Some
            &&& q.attempts == attempts
            &&& ieee::finite(progress)
            &&& 0 <= ieee::order(progress) <= 0x3ff0_0000_0000_0000
            &&& q.state == MessageState::Outbound
            &&& q.next_attempt_ms == 0
            &&& q.progress == 0x3c23_d70a
            &&& version < 4 ==> q.prepared is None && end == p7
            &&& version >= 4 ==> prepared_at(d, p7, version) == Ok::<
                (Option<crate::router::Prepared>, int),
                (),
            >((q.prepared, end))
            &&& q.prepared is Some ==> q.mail.method == DeliveryMethod::Propagated
        }),
{
}

/// A restored preparation is for the destination of its message, and has its
/// own digest for an identifier.
pub proof fn law_restored_preparation(d: Seq<u8>, p: int, version: u64)
    requires
        entry_at(d, p, version) is Ok,
        entry_at(d, p, version)->Ok_0.0.1.prepared is Some,
    ensures
        ({
            let q = entry_at(d, p, version)->Ok_0.0.1;
            let w = q.prepared->Some_0;
            &&& w.unstamped.len() > 112
            &&& w.unstamped.subrange(0, 16) == q.mail.destination@
            &&& crate::hash::sha256(w.unstamped) == w.transient_id@
            &&& ieee::finite(w.timebase)
            &&& w.stamp is Some ==> w.target_cost is Some
        }),
{
    let w = entry_at(d, p, version)->Ok_0.0.1.prepared->Some_0;
    assert(w.unstamped.take(16) =~= w.unstamped.subrange(0, 16));
}

/// The elements of a preparation, in their order.
pub proof fn law_preparation_elements(d: Seq<u8>, p: int)
    requires
        some_prepared_at(d, p) is Ok,
    ensures
        ({
            let (w, end) = some_prepared_at(d, p)->Ok_0;
            let (n, p0) = msgpack::array_len_at(d, p)->Ok_0;
            let (timebase, p1) = msgpack::number_bits_at(d, p0)->Ok_0;
            let (unstamped, p2) = msgpack::bin_at(d, p1)->Ok_0;
            let (id, p3) = msgpack::bin_at(d, p2)->Ok_0;
            &&& n == 5
            &&& w.timebase == timebase
            &&& w.unstamped == unstamped
            &&& id.len() == 32
            &&& w.transient_id == crate::message::array::<32>(id)
            &&& w.target_cost is None <==> 0 <= p3 < d.len() && d[p3] == 0xc0
            &&& w.target_cost is Some ==> w.target_cost->Some_0 == msgpack::uint_at(d, p3)->Ok_0.0
        }),
{
}

/// The elements of the other rows, in their order.
pub proof fn law_row_elements(d: Seq<u8>, p: int)
    ensures
        ({
            let (n, p0) = msgpack::array_len_at(d, p)->Ok_0;
            let long = fixed_at::<32>(d, p0);
            let short = fixed_at::<16>(d, p0);
            let (first, p1) = short->Ok_0;
            let (number, p2) = msgpack::number_bits_at(d, p1)->Ok_0;
            &&& time_at(d, p) is Ok ==> {
                let ((id, time), end) = time_at(d, p)->Ok_0;
                &&& n == 2
                &&& long is Ok
                &&& id == long->Ok_0.0
                &&& ieee::finite(time)
                &&& msgpack::number_bits_at(d, long->Ok_0.1) == Ok::<(u64, int), msgpack::Error>(
                    (time, end),
                )
            }
            &&& cost_at(d, p) is Ok ==> {
                let ((id, cost), end) = cost_at(d, p)->Ok_0;
                &&& n == 4
                &&& id == first
                &&& cost.seen == number
                &&& ieee::finite(number)
                &&& cost.cost is None <==> 0 <= p2 < d.len() && d[p2] == 0xc0
                &&& cost.cost is None ==> msgpack::bool_at(d, p2 + 1) == Ok::<
                    (bool, int),
                    msgpack::Error,
                >((cost.compression, end))
                &&& cost.cost is Some ==> cost.cost->Some_0 == msgpack::uint_at(d, p2)->Ok_0.0
                    && msgpack::bool_at(d, msgpack::uint_at(d, p2)->Ok_0.1) == Ok::<
                    (bool, int),
                    msgpack::Error,
                >((cost.compression, end))
            }
            &&& ticket_at(d, p) is Ok ==> {
                let ((id, ticket), end) = ticket_at(d, p)->Ok_0;
                &&& n == 3
                &&& id == first
                &&& ticket.expires_unix == number
                &&& ieee::finite(number)
                &&& fixed_at::<16>(d, p2) == Ok::<([u8; 16], int), ()>((ticket.secret, end))
            }
            &&& delivery_at(d, p) is Ok ==> {
                let ((id, time), end) = delivery_at(d, p)->Ok_0;
                &&& n == 2
                &&& id == first
                &&& time == number
                &&& end == p2
                &&& ieee::finite(number)
            }
            &&& ignored_at(d, p) is Ok ==> fixed_at::<16>(d, p) == Ok::<([u8; 16], int), ()>(
                (ignored_at(d, p)->Ok_0.0.0, ignored_at(d, p)->Ok_0.1),
            )
        }),
{
}

/// The tables are read in the order in which they stand, each within its own
/// limit.
pub proof fn law_tables_are_read(d: Seq<u8>, p: int, c: RouterConfig, version: u64)
    requires
        tables_at(d, p, c, version) is Ok,
    ensures
        ({
            let (k, end) = tables_at(d, p, c, version)->Ok_0;
            let queue = table_at(
                d,
                p,
                c.max_outbound as nat,
                crate::snapshot::entries_from(d, version),
            );
            let p0 = queue->Ok_0.1;
            let delivered = table_at(
                d,
                p0,
                c.max_delivered_ids as nat,
                crate::snapshot::times_from(d),
            );
            let p1 = delivered->Ok_0.1;
            let processed = table_at(
                d,
                p1,
                c.max_processed_ids as nat,
                crate::snapshot::times_from(d),
            );
            let p2 = processed->Ok_0.1;
            let costs = table_at(d, p2, c.max_stamp_costs as nat, crate::snapshot::costs_from(d));
            let p3 = costs->Ok_0.1;
            let tickets = tickets_at(d, p3, c.max_tickets as nat);
            let p4 = tickets->Ok_0.1;
            let ignored = table_at(
                d,
                p4,
                c.max_policy_entries as nat,
                crate::snapshot::ignored_from(d),
            );
            &&& queue is Ok && k.outbound == queue->Ok_0.0
            &&& delivered is Ok && k.delivered == delivered->Ok_0.0
            &&& processed is Ok && k.processed == processed->Ok_0.0
            &&& costs is Ok && k.costs == costs->Ok_0.0
            &&& tickets is Ok && k.tickets == tickets->Ok_0.0
            &&& ignored is Ok && k.ignored == ignored->Ok_0.0
            &&& end == ignored->Ok_0.1
        }),
{
    reveal(tables_at);
}

/// The tickets of a snapshot: those issued, those granted, those delivered,
/// together within one limit.
pub proof fn law_tickets_are_read(d: Seq<u8>, p: int, limit: nat)
    requires
        tickets_at(d, p, limit) is Ok,
    ensures
        ({
            let (t, end) = tickets_at(d, p, limit)->Ok_0;
            let (n, p0) = msgpack::array_len_at(d, p)->Ok_0;
            let issued = crate::snapshot::rows_at(d, p0, limit, crate::snapshot::tickets_from(d));
            let (rows, p1) = issued->Ok_0;
            let granted = table_at(
                d,
                p1,
                (limit - rows.len()) as nat,
                crate::snapshot::tickets_from(d),
            );
            &&& n == 3
            &&& issued is Ok
            &&& t.inbound == crate::ticket::regrouped(rows)
            &&& granted is Ok
            &&& t.outbound == granted->Ok_0.0
            &&& table_at(
                d,
                granted->Ok_0.1,
                (limit - rows.len() - t.outbound.dom().len()) as nat,
                crate::snapshot::deliveries_from(d),
            ) == Ok::<(Map<[u8; 16], u64>, int), ()>((t.last, end))
        }),
{
}

/// A snapshot is of version 3 or 4 and of the identity that restores it, and
/// nothing stands behind it.
pub proof fn law_restored_snapshot(d: Seq<u8>, identity: [u8; 16], c: RouterConfig)
    requires
        restored_from(d, identity, c) is Ok,
    ensures
        ({
            let (n, p0) = msgpack::array_len_at(d, 0)->Ok_0;
            let (version, p1) = msgpack::uint_at(d, p0)->Ok_0;
            let owner = fixed_at::<16>(d, p1);
            let tables = tables_at(d, owner->Ok_0.1, c, version);
            &&& n == 9
            &&& version == 3 || version == 4
            &&& owner is Ok
            &&& owner->Ok_0.0 == identity
            &&& tables is Ok
            &&& restored_from(d, identity, c)->Ok_0 == tables->Ok_0.0
            &&& msgpack::uint_at(d, tables->Ok_0.1) is Ok
            &&& msgpack::uint_at(d, tables->Ok_0.1)->Ok_0.1 == d.len()
        }),
{
}

/// Both versions are read.
pub proof fn law_versions(
    d: Seq<u8>,
    identity: [u8; 16],
    c: RouterConfig,
    version: u64,
    p0: int,
    p1: int,
    p2: int,
    p3: int,
    kept: Kept,
    next: u64,
)
    requires
        super::gives(msgpack::array_len_at(d, 0), 9nat, p0),
        super::gives(msgpack::uint_at(d, p0), version, p1),
        super::gives(fixed_at::<16>(d, p1), identity, p2),
        super::gives(tables_at(d, p2, c, version), kept, p3),
        super::gives(msgpack::uint_at(d, p3), next, d.len() as int),
    ensures
        version == 3 || version == 4 ==> restored_from(d, identity, c) == Ok::<Kept, ()>(kept),
        version < 3 || version > 4 ==> restored_from(d, identity, c) is Err,
{
}

/// A snapshot is written exactly where every table is within its limit, what
/// it holds can be read back, and it is not too long.
pub proof fn law_written_snapshot(
    identity: [u8; 16],
    c: RouterConfig,
    k: Kept,
    next_job_ms: u64,
)
    ensures
        ({
            let r = snapshot_of(identity, c, k, next_job_ms);
            let bytes = snapshot_bytes(identity, k, next_job_ms);
            &&& r is Ok ==> r->Ok_0 == bytes && bytes.len() <= c.max_snapshot_bytes
                && k.outbound.dom().len() <= c.max_outbound && k.delivered.dom().len()
                <= c.max_delivered_ids && k.processed.dom().len() <= c.max_processed_ids
                && k.costs.dom().len() <= c.max_stamp_costs && k.ignored.dom().len()
                <= c.max_policy_entries && crate::ticket::entries(k.tickets) <= c.max_tickets
            &&& k.outbound.dom().len() > c.max_outbound || k.delivered.dom().len()
                > c.max_delivered_ids || k.processed.dom().len() > c.max_processed_ids
                || k.costs.dom().len() > c.max_stamp_costs || k.ignored.dom().len()
                > c.max_policy_entries || crate::ticket::entries(k.tickets) > c.max_tickets ==> r
                == Err::<Seq<u8>, RouterError>(RouterError::QueueFull)
            &&& r == Err::<Seq<u8>, RouterError>(RouterError::CorruptSnapshot) ==> !sound(k)
            &&& bytes.len() > c.max_snapshot_bytes ==> r is Err
        }),
{
}

/// What can be read back: a message under its own identifier, with a finite
/// time, progress from zero to one, a method that can be queued, and a
/// preparation only where it is propagated.
pub proof fn law_sound_entry(k: Kept, id: [u8; 32])
    requires
        sound(k),
        k.outbound.contains_key(id),
    ensures
        ({
            let q = k.outbound[id];
            &&& q.mail.id == id
            &&& ieee::finite(q.mail.payload.timestamp)
            &&& q.progress <= 0x3f80_0000 || q.progress == 0x8000_0000
            &&& q.mail.method != DeliveryMethod::Paper
            &&& q.prepared is Some ==> q.mail.method == DeliveryMethod::Propagated
        }),
{
}

/// A message at rest is the message it was, with its attempts and its
/// preparation, due at once.
pub proof fn law_resting(q: Queued)
    ensures
        resting(q).mail == q.mail,
        resting(q).attempts == q.attempts,
        resting(q).prepared == q.prepared,
        resting(q).state == MessageState::Outbound,
        resting(q).next_attempt_ms == 0,
        resting(q).progress == 0x3c23_d70a,
{
}

} // verus!
