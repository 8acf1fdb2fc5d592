//! The router's snapshot: what outlives the process, as one value.
//!
//! A snapshot is bound to an identity and bounded by the router's
//! configuration. Reading one either gives a complete state or fails as a
//! whole.
use vstd::prelude::*;

use crate::bytemap::{same, same_bytes, to_array, to_vec, ByteMap};
use crate::constants::{LXMF_OVERHEAD, STAMP_SIZE};
use crate::hash::full_hash;
use crate::ieee;
use crate::message::{DeliveryMethod, Message, SignatureCheck, Verification};
use crate::msgpack;
use crate::router::{
    MessageState, OutboundEntry, OutboundPropagation, RouterConfig, RouterError, StampCost,
    RESTING_PROGRESS,
};
use crate::ticket::{Ticket, TicketStore};

verus! {

/// The version that is written. The one before it has no prepared
/// propagation and can be read too.
pub const SNAPSHOT_VERSION: u64 = 4;

pub const SNAPSHOT_FIELDS: usize = 9;

/// The binary64 pattern of one.
pub const ONE: u64 = 0x3ff0_0000_0000_0000;

/// What the router keeps across restarts.
#[derive(Debug, Clone)]
pub struct Checkpoint {
    pub outbound: ByteMap<32, OutboundEntry>,
    pub delivered_ids: ByteMap<32, u64>,
    pub processed_ids: ByteMap<32, u64>,
    pub outbound_stamp_costs: ByteMap<16, StampCost>,
    pub tickets: TicketStore,
    pub ignored: ByteMap<16, ()>,
}

/// What the router keeps, as maps.
pub ghost struct Kept {
    pub outbound: Map<[u8; 32], crate::router::Queued>,
    pub delivered: Map<[u8; 32], u64>,
    pub processed: Map<[u8; 32], u64>,
    pub costs: Map<[u8; 16], StampCost>,
    pub tickets: crate::ticket::Tickets,
    pub ignored: Map<[u8; 16], ()>,
}

impl View for Checkpoint {
    type V = Kept;

    open spec fn view(&self) -> Kept {
        Kept {
            outbound: self.outbound@.map_values(|e: OutboundEntry| e@),
            delivered: self.delivered_ids@,
            processed: self.processed_ids@,
            costs: self.outbound_stamp_costs@,
            tickets: self.tickets@,
            ignored: self.ignored@,
        }
    }
}

impl Checkpoint {
    pub open spec fn wf(&self) -> bool {
        &&& self.outbound.wf()
        &&& self.delivered_ids.wf()
        &&& self.processed_ids.wf()
        &&& self.outbound_stamp_costs.wf()
        &&& self.tickets.wf()
        &&& self.ignored.wf()
    }
}

pub open spec fn nothing_kept() -> Kept {
    Kept {
        outbound: Map::empty(),
        delivered: Map::empty(),
        processed: Map::empty(),
        costs: Map::empty(),
        tickets: crate::ticket::no_tickets(),
        ignored: Map::empty(),
    }
}

impl Default for Checkpoint {
    fn default() -> (r: Self)
        ensures
            r.wf(),
            r@ == nothing_kept(),
    {
        let r = Checkpoint {
            outbound: ByteMap::new(),
            delivered_ids: ByteMap::new(),
            processed_ids: ByteMap::new(),
            outbound_stamp_costs: ByteMap::new(),
            tickets: TicketStore::default(),
            ignored: ByteMap::new(),
        };
        assert(r@.outbound =~= nothing_kept().outbound);
        r
    }
}

// ---------------------------------------------------------------------------
// The wire form
// ---------------------------------------------------------------------------

pub open spec fn verification_code(v: Verification) -> u64 {
    match v {
        Verification::Unverified => 0,
        Verification::Valid => 1,
        Verification::Invalid => 2,
    }
}

pub open spec fn opt_uint_bytes(v: Option<u8>) -> Seq<u8> {
    match v {
        Some(n) => msgpack::uint_bytes(n as nat),
        None => msgpack::nil_bytes(),
    }
}

pub open spec fn opt_stamp_bytes(v: Option<[u8; STAMP_SIZE]>) -> Seq<u8> {
    match v {
        Some(s) => msgpack::bin_bytes(s@),
        None => msgpack::nil_bytes(),
    }
}

pub open spec fn prepared_bytes(p: Option<crate::router::Prepared>) -> Seq<u8> {
    match p {
        Some(p) => msgpack::array_header(5) + msgpack::double_bytes(p.timebase)
            + msgpack::bin_bytes(p.unstamped) + msgpack::bin_bytes(p.transient_id@)
            + opt_uint_bytes(p.target_cost) + opt_stamp_bytes(p.stamp),
        None => msgpack::nil_bytes(),
    }
}

/// One queued message: packed, with its codes, counters and preparation.
pub open spec fn entry_bytes(q: crate::router::Queued) -> Seq<u8> {
    msgpack::array_header(8) + msgpack::bin_bytes(crate::message::mail_bytes(q.mail))
        + msgpack::uint_bytes(q.mail.method.spec_code() as nat) + msgpack::uint_bytes(
        q.state.spec_code() as nat,
    ) + msgpack::uint_bytes(verification_code(q.mail.verification) as nat) + msgpack::uint_bytes(
        q.attempts as nat,
    ) + msgpack::uint_bytes(q.next_attempt_ms as nat) + msgpack::double_bytes(
        ieee::widened(q.progress) as u64,
    ) + prepared_bytes(q.prepared)
}

pub open spec fn time_bytes(e: ([u8; 32], u64)) -> Seq<u8> {
    msgpack::array_header(2) + msgpack::bin_bytes(e.0@) + msgpack::double_bytes(e.1)
}

pub open spec fn cost_bytes(e: ([u8; 16], StampCost)) -> Seq<u8> {
    msgpack::array_header(4) + msgpack::bin_bytes(e.0@) + msgpack::double_bytes(e.1.seen)
        + opt_uint_bytes(e.1.cost) + msgpack::bool_bytes(e.1.compression)
}

pub open spec fn ticket_bytes(e: ([u8; 16], Ticket)) -> Seq<u8> {
    msgpack::array_header(3) + msgpack::bin_bytes(e.0@) + msgpack::double_bytes(e.1.expires_unix)
        + msgpack::bin_bytes(e.1.secret@)
}

pub open spec fn delivery_bytes(e: ([u8; 16], u64)) -> Seq<u8> {
    msgpack::array_header(2) + msgpack::bin_bytes(e.0@) + msgpack::double_bytes(e.1)
}

pub open spec fn ignored_bytes(e: ([u8; 16], ())) -> Seq<u8> {
    msgpack::bin_bytes(e.0@)
}

/// A count, then the items.
pub open spec fn table_bytes<T>(one: spec_fn(T) -> Seq<u8>, s: Seq<T>) -> Seq<u8> {
    msgpack::array_header(s.len()) + msgpack::list_bytes(one, s)
}

pub open spec fn queue_bytes(outbound: Map<[u8; 32], crate::router::Queued>) -> Seq<u8> {
    table_bytes(
        |e: ([u8; 32], crate::router::Queued)| entry_bytes(e.1),
        crate::bytemap::pairs(outbound),
    )
}

pub open spec fn times_bytes(m: Map<[u8; 32], u64>) -> Seq<u8> {
    table_bytes(|e: ([u8; 32], u64)| time_bytes(e), crate::bytemap::pairs(m))
}

pub open spec fn costs_bytes(m: Map<[u8; 16], StampCost>) -> Seq<u8> {
    table_bytes(|e: ([u8; 16], StampCost)| cost_bytes(e), crate::bytemap::pairs(m))
}

pub open spec fn tickets_bytes(t: crate::ticket::Tickets) -> Seq<u8> {
    msgpack::array_header(3) + table_bytes(
        |e: ([u8; 16], Ticket)| ticket_bytes(e),
        crate::ticket::issued(t),
    ) + table_bytes(|e: ([u8; 16], Ticket)| ticket_bytes(e), crate::bytemap::pairs(t.outbound))
        + table_bytes(|e: ([u8; 16], u64)| delivery_bytes(e), crate::bytemap::pairs(t.last))
}

pub open spec fn ignores_bytes(m: Map<[u8; 16], ()>) -> Seq<u8> {
    table_bytes(|e: ([u8; 16], ())| ignored_bytes(e), crate::bytemap::pairs(m))
}

/// The tables of a snapshot, one behind the other.
#[verifier::opaque]
pub open spec fn tables_bytes(k: Kept) -> Seq<u8> {
    queue_bytes(k.outbound) + times_bytes(k.delivered) + times_bytes(k.processed) + costs_bytes(
        k.costs,
    ) + tickets_bytes(k.tickets) + ignores_bytes(k.ignored)
}

/// The wire form of a snapshot.
pub open spec fn snapshot_bytes(identity: [u8; 16], k: Kept, next_job_ms: u64) -> Seq<u8> {
    msgpack::array_header(SNAPSHOT_FIELDS as nat) + msgpack::uint_bytes(SNAPSHOT_VERSION as nat)
        + msgpack::bin_bytes(identity@) + tables_bytes(k) + msgpack::uint_bytes(
        next_job_ms as nat,
    )
}

// ---------------------------------------------------------------------------
// What can be written
// ---------------------------------------------------------------------------

/// A count within its limit that fits a header.
pub open spec fn bounded(count: nat, limit: usize) -> bool {
    count <= limit && count <= u32::MAX
}

/// Every table is within its limit.
pub open spec fn counts_bounded(k: Kept, c: RouterConfig) -> bool {
    &&& bounded(k.outbound.dom().len(), c.max_outbound)
    &&& bounded(k.delivered.dom().len(), c.max_delivered_ids)
    &&& bounded(k.processed.dom().len(), c.max_processed_ids)
    &&& bounded(k.costs.dom().len(), c.max_stamp_costs)
    &&& bounded(k.ignored.dom().len(), c.max_policy_entries)
    &&& bounded(crate::ticket::entries(k.tickets), c.max_tickets)
}

/// A single precision pattern from zero to one.
pub open spec fn unit_progress(bits: u32) -> bool {
    bits <= 0x3f80_0000 || bits == 0x8000_0000
}

/// A prepared propagation is for the destination of its message, is long
/// enough, has its own digest as its id, and has a stamp only for a cost.
pub open spec fn prepared_fits(p: crate::router::Prepared, destination: [u8; 16]) -> bool {
    &&& ieee::finite(p.timebase)
    &&& p.unstamped.len() > LXMF_OVERHEAD
    &&& p.unstamped.take(16) == destination@
    &&& crate::hash::sha256(p.unstamped) == p.transient_id@
    &&& p.stamp is Some ==> p.target_cost is Some
}

/// Only a propagated message has a preparation, and a paper message is never
/// queued.
pub open spec fn method_fits(
    method: DeliveryMethod,
    prepared: Option<crate::router::Prepared>,
    destination: [u8; 16],
) -> bool {
    &&& method != DeliveryMethod::Paper
    &&& method != DeliveryMethod::Propagated ==> prepared is None
    &&& prepared matches Some(p) ==> prepared_fits(p, destination)
}

pub open spec fn entry_sound(id: [u8; 32], q: crate::router::Queued) -> bool {
    &&& id == q.mail.id
    &&& ieee::finite(q.mail.payload.timestamp)
    &&& unit_progress(q.progress)
    &&& method_fits(q.mail.method, q.prepared, q.mail.destination)
}

/// Everything that is kept can be read back.
pub open spec fn sound(k: Kept) -> bool {
    &&& forall|id: [u8; 32]| #[trigger]
        k.outbound.contains_key(id) ==> entry_sound(id, k.outbound[id])
    &&& forall|id: [u8; 32]| #[trigger]
        k.delivered.contains_key(id) ==> ieee::finite(k.delivered[id])
    &&& forall|id: [u8; 32]| #[trigger]
        k.processed.contains_key(id) ==> ieee::finite(k.processed[id])
    &&& forall|d: [u8; 16]| #[trigger]
        k.costs.contains_key(d) ==> ieee::finite(k.costs[d].seen)
    &&& forall|d: [u8; 16], i: int|
        k.tickets.inbound.contains_key(d) && 0 <= i < k.tickets.inbound[d].len() ==> ieee::finite(
            (#[trigger] k.tickets.inbound[d][i]).expires_unix,
        )
    &&& forall|d: [u8; 16]| #[trigger]
        k.tickets.outbound.contains_key(d) ==> ieee::finite(k.tickets.outbound[d].expires_unix)
    &&& forall|d: [u8; 16]| #[trigger]
        k.tickets.last.contains_key(d) ==> ieee::finite(k.tickets.last[d])
}

/// The bytes of a queued message fit their headers.
pub open spec fn entry_fits(q: crate::router::Queued) -> bool {
    &&& crate::message::mail_bytes(q.mail).len() <= u32::MAX
    &&& q.prepared matches Some(p) ==> p.unstamped.len() <= u32::MAX
}

/// What becomes of a snapshot.
pub open spec fn snapshot_of(
    identity: [u8; 16],
    c: RouterConfig,
    k: Kept,
    next_job_ms: u64,
) -> Result<Seq<u8>, RouterError> {
    let bytes = snapshot_bytes(identity, k, next_job_ms);
    if !counts_bounded(k, c) {
        Err(RouterError::QueueFull)
    } else if !sound(k) {
        Err(RouterError::CorruptSnapshot)
    } else if !(forall|id: [u8; 32]| #[trigger]
        k.outbound.contains_key(id) ==> entry_fits(k.outbound[id])) || bytes.len()
        > c.max_snapshot_bytes {
        Err(RouterError::QueueFull)
    } else {
        Ok(bytes)
    }
}

// ---------------------------------------------------------------------------
// What is read
// ---------------------------------------------------------------------------

/// A part of a snapshot that cannot be read spoils it, whatever the reason.
pub open spec fn read<T>(r: Result<T, msgpack::Error>) -> Result<T, ()> {
    match r {
        Ok(v) => Ok(v),
        Err(_) => Err(()),
    }
}

/// An array of exactly `n` items begins here.
pub open spec fn open_at(d: Seq<u8>, p: int, n: nat) -> Result<int, ()> {
    match msgpack::array_len_at(d, p) {
        Ok((m, q)) => if m == n {
            Ok(q)
        } else {
            Err(())
        },
        Err(_) => Err(()),
    }
}

pub open spec fn fixed_at<const N: usize>(d: Seq<u8>, p: int) -> Result<([u8; N], int), ()> {
    match msgpack::bin_at(d, p) {
        Ok((s, q)) => if s.len() == N {
            Ok((crate::message::array::<N>(s), q))
        } else {
            Err(())
        },
        Err(_) => Err(()),
    }
}

pub open spec fn finite_at(d: Seq<u8>, p: int) -> Result<(u64, int), ()> {
    match msgpack::number_bits_at(d, p) {
        Ok((v, q)) => if ieee::finite(v) {
            Ok((v, q))
        } else {
            Err(())
        },
        Err(_) => Err(()),
    }
}

pub open spec fn opt_uint_at(d: Seq<u8>, p: int) -> Result<(Option<u8>, int), ()> {
    if 0 <= p < d.len() && d[p] == 0xc0 {
        Ok((None, p + 1))
    } else {
        match msgpack::uint_at(d, p) {
            Ok((v, q)) => if v <= u8::MAX {
                Ok((Some(v as u8), q))
            } else {
                Err(())
            },
            Err(_) => Err(()),
        }
    }
}

pub open spec fn opt_stamp_at(d: Seq<u8>, p: int) -> Result<(Option<[u8; STAMP_SIZE]>, int), ()> {
    match msgpack::kind_at(d, p) {
        Ok(msgpack::Kind::Nil) => Ok((None, p + 1)),
        Ok(_) => match fixed_at::<STAMP_SIZE>(d, p) {
            Ok((s, q)) => Ok((Some(s), q)),
            Err(e) => Err(e),
        },
        Err(_) => Err(()),
    }
}

pub open spec fn some_prepared_at(d: Seq<u8>, p: int) -> Result<(crate::router::Prepared, int), ()> {
    match open_at(d, p, 5) {
        Err(e) => Err(e),
        Ok(p0) => match finite_at(d, p0) {
            Err(e) => Err(e),
            Ok((timebase, p1)) => match msgpack::bin_at(d, p1) {
                Err(_) => Err(()),
                Ok((unstamped, p2)) => match fixed_at::<32>(d, p2) {
                    Err(e) => Err(e),
                    Ok((transient_id, p3)) => match opt_uint_at(d, p3) {
                        Err(e) => Err(e),
                        Ok((target_cost, p4)) => match opt_stamp_at(d, p4) {
                            Err(e) => Err(e),
                            Ok((stamp, p5)) => Ok(
                                (
                                    crate::router::Prepared {
                                        timebase,
                                        unstamped,
                                        transient_id,
                                        target_cost,
                                        stamp,
                                    },
                                    p5,
                                ),
                            ),
                        },
                    },
                },
            },
        },
    }
}

pub open spec fn prepared_at(d: Seq<u8>, p: int, version: u64) -> Result<
    (Option<crate::router::Prepared>, int),
    (),
> {
    if version < 4 {
        Ok((None, p))
    } else {
        match msgpack::kind_at(d, p) {
            Err(_) => Err(()),
            Ok(msgpack::Kind::Nil) => Ok((None, p + 1)),
            Ok(_) => match some_prepared_at(d, p) {
                Ok((v, q)) => Ok((Some(v), q)),
                Err(e) => Err(e),
            },
        }
    }
}

pub open spec fn method_of(code: u64) -> Option<DeliveryMethod> {
    if code == 1 {
        Some(DeliveryMethod::Opportunistic)
    } else if code == 2 {
        Some(DeliveryMethod::Direct)
    } else if code == 3 {
        Some(DeliveryMethod::Propagated)
    } else {
        None
    }
}

pub open spec fn state_of(code: u64) -> Option<MessageState> {
    if code == 0 {
        Some(MessageState::Generating)
    } else if code == 1 {
        Some(MessageState::Outbound)
    } else if code == 2 {
        Some(MessageState::Sending)
    } else if code == 4 {
        Some(MessageState::Sent)
    } else if code == 8 {
        Some(MessageState::Delivered)
    } else if code == 0xfd {
        Some(MessageState::Rejected)
    } else if code == 0xfe {
        Some(MessageState::Cancelled)
    } else if code == 0xff {
        Some(MessageState::Failed)
    } else {
        None
    }
}

pub open spec fn verification_of(code: u64) -> Option<Verification> {
    if code == 0 {
        Some(Verification::Unverified)
    } else if code == 1 {
        Some(Verification::Valid)
    } else if code == 2 {
        Some(Verification::Invalid)
    } else {
        None
    }
}

/// The counters of a queued message: method, verification and attempts. Its
/// state, its next attempt and its progress have to be readable but belong to
/// the process that wrote them.
pub open spec fn counters_at(d: Seq<u8>, p: int) -> Result<
    ((DeliveryMethod, Verification, u8), int),
    (),
> {
    match msgpack::uint_at(d, p) {
        Err(_) => Err(()),
        Ok((method, p1)) => match msgpack::uint_at(d, p1) {
            Err(_) => Err(()),
            Ok((state, p2)) => match msgpack::uint_at(d, p2) {
                Err(_) => Err(()),
                Ok((verification, p3)) => match msgpack::uint_at(d, p3) {
                    Err(_) => Err(()),
                    Ok((attempts, p4)) => match msgpack::uint_at(d, p4) {
                        Err(_) => Err(()),
                        Ok((_next, p5)) => match finite_at(d, p5) {
                            Err(e) => Err(e),
                            Ok((progress, p6)) => if method_of(method) is Some && state_of(state)
                                is Some && verification_of(verification) is Some && attempts
                                <= u8::MAX && 0 <= ieee::order(progress) <= ieee::order(ONE) {
                                Ok(
                                    (
                                        (
                                            method_of(method)->Some_0,
                                            verification_of(verification)->Some_0,
                                            attempts as u8,
                                        ),
                                        p6,
                                    ),
                                )
                            } else {
                                Err(())
                            },
                        },
                    },
                },
            },
        },
    }
}

/// A message as the snapshot packs it, with its method and verification.
pub open spec fn mail_at(packed: Seq<u8>, method: DeliveryMethod, verification: Verification) -> Option<
    crate::message::Mail,
> {
    match crate::message::mail_of(packed, None, SignatureCheck::NoIdentity, DeliveryMethod::Direct) {
        Ok(mail) => Some(crate::message::Mail { method, verification, ..mail }),
        Err(_) => None,
    }
}

/// The queue entry that a snapshot holds: due at once, for a fresh attempt.
pub open spec fn entry_at(d: Seq<u8>, p: int, version: u64) -> Result<
    (([u8; 32], crate::router::Queued), int),
    (),
> {
    match open_at(
        d,
        p,
        if version >= 4 {
            8
        } else {
            7
        },
    ) {
        Err(e) => Err(e),
        Ok(p0) => match msgpack::bin_at(d, p0) {
            Err(_) => Err(()),
            Ok((packed, p1)) => match counters_at(d, p1) {
                Err(e) => Err(e),
                Ok(((method, verification, attempts), p2)) => match prepared_at(d, p2, version) {
                    Err(e) => Err(e),
                    Ok((prepared, p3)) => match mail_at(packed, method, verification) {
                        None => Err(()),
                        Some(mail) => if method_fits(method, prepared, mail.destination) {
                            Ok(
                                (
                                    (
                                        mail.id,
                                        crate::router::Queued {
                                            mail,
                                            state: MessageState::Outbound,
                                            attempts,
                                            next_attempt_ms: 0,
                                            progress: RESTING_PROGRESS,
                                            prepared,
                                        },
                                    ),
                                    p3,
                                ),
                            )
                        } else {
                            Err(())
                        },
                    },
                },
            },
        },
    }
}

pub open spec fn time_at(d: Seq<u8>, p: int) -> Result<(([u8; 32], u64), int), ()> {
    match open_at(d, p, 2) {
        Err(e) => Err(e),
        Ok(p0) => match fixed_at::<32>(d, p0) {
            Err(e) => Err(e),
            Ok((id, p1)) => match finite_at(d, p1) {
                Err(e) => Err(e),
                Ok((time, p2)) => Ok(((id, time), p2)),
            },
        },
    }
}

pub open spec fn cost_at(d: Seq<u8>, p: int) -> Result<(([u8; 16], StampCost), int), ()> {
    match open_at(d, p, 4) {
        Err(e) => Err(e),
        Ok(p0) => match fixed_at::<16>(d, p0) {
            Err(e) => Err(e),
            Ok((destination, p1)) => match finite_at(d, p1) {
                Err(e) => Err(e),
                Ok((seen, p2)) => match opt_uint_at(d, p2) {
                    Err(e) => Err(e),
                    Ok((cost, p3)) => match msgpack::bool_at(d, p3) {
                        Err(_) => Err(()),
                        Ok((compression, p4)) => Ok(
                            ((destination, StampCost { seen, cost, compression }), p4),
                        ),
                    },
                },
            },
        },
    }
}

pub open spec fn ticket_at(d: Seq<u8>, p: int) -> Result<(([u8; 16], Ticket), int), ()> {
    match open_at(d, p, 3) {
        Err(e) => Err(e),
        Ok(p0) => match fixed_at::<16>(d, p0) {
            Err(e) => Err(e),
            Ok((peer, p1)) => match finite_at(d, p1) {
                Err(e) => Err(e),
                Ok((expires_unix, p2)) => match fixed_at::<16>(d, p2) {
                    Err(e) => Err(e),
                    Ok((secret, p3)) => Ok(((peer, Ticket { expires_unix, secret }), p3)),
                },
            },
        },
    }
}

pub open spec fn delivery_at(d: Seq<u8>, p: int) -> Result<(([u8; 16], u64), int), ()> {
    match open_at(d, p, 2) {
        Err(e) => Err(e),
        Ok(p0) => match fixed_at::<16>(d, p0) {
            Err(e) => Err(e),
            Ok((peer, p1)) => match finite_at(d, p1) {
                Err(e) => Err(e),
                Ok((time, p2)) => Ok(((peer, time), p2)),
            },
        },
    }
}

pub open spec fn ignored_at(d: Seq<u8>, p: int) -> Result<(([u8; 16], ()), int), ()> {
    match fixed_at::<16>(d, p) {
        Err(e) => Err(e),
        Ok((peer, p0)) => Ok(((peer, ()), p0)),
    }
}

/// A count within a limit, then that many items.
pub open spec fn rows_at<T>(
    d: Seq<u8>,
    p: int,
    limit: nat,
    item: spec_fn(int) -> Result<(T, int), ()>,
) -> Result<(Seq<T>, int), ()> {
    match msgpack::array_len_at(d, p) {
        Err(_) => Err(()),
        Ok((n, q)) => if n > limit {
            Err(())
        } else {
            msgpack::list_at(item, q, n)
        },
    }
}

/// Rows of which no two have one key.
pub open spec fn table_at<K, V>(
    d: Seq<u8>,
    p: int,
    limit: nat,
    item: spec_fn(int) -> Result<((K, V), int), ()>,
) -> Result<(Map<K, V>, int), ()> {
    match rows_at(d, p, limit, item) {
        Err(e) => Err(e),
        Ok((rows, q)) => if crate::bytemap::distinct(rows) {
            Ok((crate::bytemap::gathered(rows), q))
        } else {
            Err(())
        },
    }
}

pub open spec fn entries_from(d: Seq<u8>, version: u64) -> spec_fn(int) -> Result<
    (([u8; 32], crate::router::Queued), int),
    (),
> {
    |p: int| entry_at(d, p, version)
}

pub open spec fn times_from(d: Seq<u8>) -> spec_fn(int) -> Result<(([u8; 32], u64), int), ()> {
    |p: int| time_at(d, p)
}

pub open spec fn costs_from(d: Seq<u8>) -> spec_fn(int) -> Result<(([u8; 16], StampCost), int), ()> {
    |p: int| cost_at(d, p)
}

pub open spec fn tickets_from(d: Seq<u8>) -> spec_fn(int) -> Result<(([u8; 16], Ticket), int), ()> {
    |p: int| ticket_at(d, p)
}

pub open spec fn deliveries_from(d: Seq<u8>) -> spec_fn(int) -> Result<(([u8; 16], u64), int), ()> {
    |p: int| delivery_at(d, p)
}

pub open spec fn ignored_from(d: Seq<u8>) -> spec_fn(int) -> Result<(([u8; 16], ()), int), ()> {
    |p: int| ignored_at(d, p)
}

/// The tickets of a snapshot, `limit` in all.
pub open spec fn tickets_at(d: Seq<u8>, p: int, limit: nat) -> Result<
    (crate::ticket::Tickets, int),
    (),
> {
    match open_at(d, p, 3) {
        Err(e) => Err(e),
        Ok(p0) => match rows_at(d, p0, limit, tickets_from(d)) {
            Err(e) => Err(e),
            Ok((rows, p1)) => match table_at(d, p1, (limit - rows.len()) as nat, tickets_from(d)) {
                Err(e) => Err(e),
                Ok((outbound, p2)) => match table_at(
                    d,
                    p2,
                    (limit - rows.len() - outbound.dom().len()) as nat,
                    deliveries_from(d),
                ) {
                    Err(e) => Err(e),
                    Ok((last, p3)) => Ok(
                        (
                            crate::ticket::Tickets {
                                inbound: crate::ticket::regrouped(rows),
                                outbound,
                                last,
                            },
                            p3,
                        ),
                    ),
                },
            },
        },
    }
}

/// The tables of a snapshot, one behind the other.
#[verifier::opaque]
pub open spec fn tables_at(d: Seq<u8>, p: int, c: RouterConfig, version: u64) -> Result<
    (Kept, int),
    (),
> {
    match table_at(d, p, c.max_outbound as nat, entries_from(d, version)) {
        Err(e) => Err(e),
        Ok((outbound, p0)) => match table_at(
            d,
            p0,
            c.max_delivered_ids as nat,
            times_from(d),
        ) {
            Err(e) => Err(e),
            Ok((delivered, p1)) => match table_at(
                d,
                p1,
                c.max_processed_ids as nat,
                times_from(d),
            ) {
                Err(e) => Err(e),
                Ok((processed, p2)) => match table_at(
                    d,
                    p2,
                    c.max_stamp_costs as nat,
                    costs_from(d),
                ) {
                    Err(e) => Err(e),
                    Ok((costs, p3)) => match tickets_at(d, p3, c.max_tickets as nat) {
                        Err(e) => Err(e),
                        Ok((tickets, p4)) => match table_at(
                            d,
                            p4,
                            c.max_policy_entries as nat,
                            ignored_from(d),
                        ) {
                            Err(e) => Err(e),
                            Ok((ignored, p5)) => Ok(
                                (
                                    Kept {
                                        outbound,
                                        delivered,
                                        processed,
                                        costs,
                                        tickets,
                                        ignored,
                                    },
                                    p5,
                                ),
                            ),
                        },
                    },
                },
            },
        },
    }
}

/// What a snapshot restores, for the identity it was written for.
pub open spec fn restored_from(d: Seq<u8>, identity: [u8; 16], c: RouterConfig) -> Result<Kept, ()> {
    match open_at(d, 0, SNAPSHOT_FIELDS as nat) {
        Err(e) => Err(e),
        Ok(p0) => match msgpack::uint_at(d, p0) {
            Err(_) => Err(()),
            Ok((version, p1)) => match fixed_at::<16>(d, p1) {
                Err(e) => Err(e),
                Ok((owner, p2)) => if !(3 <= version <= SNAPSHOT_VERSION) || owner != identity {
                    Err(())
                } else {
                    match tables_at(d, p2, c, version) {
                        Err(e) => Err(e),
                        Ok((kept, p3)) => match msgpack::uint_at(d, p3) {
                            Err(_) => Err(()),
                            Ok((_next, p4)) => if p4 == d.len() {
                                Ok(kept)
                            } else {
                                Err(())
                            },
                        },
                    }
                },
            },
        },
    }
}

// ---------------------------------------------------------------------------
// Reading
// ---------------------------------------------------------------------------

/// The first items of a list are the first ones that were read.
proof fn lemma_list_take<T, E>(
    item: spec_fn(int) -> Result<(T, int), E>,
    p: int,
    i: nat,
    n: nat,
)
    requires
        i <= n,
        msgpack::list_at(item, p, n) is Ok,
    ensures
        msgpack::list_at(item, p, i) is Ok,
        msgpack::list_at(item, p, n)->Ok_0.0.len() == n,
        msgpack::list_at(item, p, i)->Ok_0.0 == msgpack::list_at(item, p, n)->Ok_0.0.take(i as int),
    decreases n,
{
    let whole = msgpack::list_at(item, p, n)->Ok_0.0;
    if n > 0 {
        let (less, q) = msgpack::list_at(item, p, (n - 1) as nat)->Ok_0;
        lemma_list_take(item, p, (n - 1) as nat, (n - 1) as nat);
        if i < n {
            lemma_list_take(item, p, i, (n - 1) as nat);
            assert(whole.take(i as int) =~= less.take(i as int));
        } else {
            assert(whole.take(i as int) =~= whole);
        }
    } else {
        assert(whole.take(0) =~= whole);
    }
}

/// A row that cannot be read, or whose key came before, spoils the table.
proof fn lemma_spoiled<K, V>(
    item: spec_fn(int) -> Result<((K, V), int), ()>,
    start: int,
    i: nat,
    n: nat,
)
    requires
        i < n,
        msgpack::list_at(item, start, i) is Ok,
        ({
            let (rows, p) = msgpack::list_at(item, start, i)->Ok_0;
            match item(p) {
                Ok((row, _)) => !crate::bytemap::distinct(rows.push(row)),
                Err(_) => true,
            }
        }),
    ensures
        msgpack::list_at(item, start, n) is Err || !crate::bytemap::distinct(
            msgpack::list_at(item, start, n)->Ok_0.0,
        ),
{
    let (rows, p) = msgpack::list_at(item, start, i)->Ok_0;
    if item(p) is Err {
        msgpack::lemma_list_fails(item, start, i + 1, n);
    } else if msgpack::list_at(item, start, n) is Ok {
        let all = msgpack::list_at(item, start, n)->Ok_0.0;
        lemma_list_take(item, start, i + 1, n);
        let more = rows.push(item(p)->Ok_0.0);
        let (a, b) = choose|a: int, b: int|
            0 <= a < b < more.len() && (#[trigger] more[a]).0 == (#[trigger] more[b]).0;
        assert(all.take((i + 1) as int) == more);
        assert(all[a] == more[a] && all[b] == more[b]);
    }
}

/// A row whose key is new keeps the keys distinct; another does not.
proof fn lemma_row<K, V>(rows: Seq<(K, V)>, row: (K, V))
    requires
        crate::bytemap::distinct(rows),
    ensures
        crate::bytemap::distinct(rows.push(row)) <==> !crate::bytemap::gathered(rows).contains_key(
            row.0,
        ),
        crate::bytemap::gathered(rows.push(row)) == crate::bytemap::gathered(rows).insert(
            row.0,
            row.1,
        ),
{
    let more = rows.push(row);
    assert(more.drop_last() =~= rows);
    crate::bytemap::lemma_gathered_keys(rows, row.0);
    if crate::bytemap::gathered(rows).contains_key(row.0) {
        let i = choose|i: int| 0 <= i < rows.len() && (#[trigger] rows[i]).0 == row.0;
        assert(more[i].0 == more[rows.len() as int].0);
    } else {
        assert forall|a: int, b: int| 0 <= a < b < more.len() implies (#[trigger] more[a]).0 != (
        #[trigger] more[b]).0 by {
            assert(more[a] == rows[a]);
            if b < rows.len() {
                assert(more[b] == rows[b]);
            }
        }
    }
}

fn corrupt<T>(r: Result<T, msgpack::Error>) -> (q: Result<T, RouterError>)
    ensures
        match r {
            Ok(v) => q == Ok::<T, RouterError>(v),
            Err(_) => q == Err::<T, RouterError>(RouterError::CorruptSnapshot),
        },
{
    match r {
        Ok(v) => Ok(v),
        Err(_) => Err(RouterError::CorruptSnapshot),
    }
}

fn decode_open(data: &[u8], p: &mut usize, n: usize) -> (r: Result<(), RouterError>)
    ensures
        match open_at(data@, *old(p) as int, n as nat) {
            Ok(q) => r is Ok && *final(p) == q,
            Err(_) => r == Err::<(), RouterError>(RouterError::CorruptSnapshot),
        },
{
    let count: usize = corrupt(msgpack::array_len(data, p))?;
    if count != n {
        return Err(RouterError::CorruptSnapshot);
    }
    Ok(())
}

fn decode_count(data: &[u8], p: &mut usize, limit: usize) -> (r: Result<usize, RouterError>)
    ensures
        match msgpack::array_len_at(data@, *old(p) as int) {
            Ok((n, q)) => if n > limit {
                r == Err::<usize, RouterError>(RouterError::CorruptSnapshot)
            } else {
                r == Ok::<usize, RouterError>(n as usize) && *final(p) == q
            },
            Err(_) => r == Err::<usize, RouterError>(RouterError::CorruptSnapshot),
        },
{
    let count: usize = corrupt(msgpack::array_len(data, p))?;
    if count > limit {
        return Err(RouterError::CorruptSnapshot);
    }
    Ok(count)
}

fn read_fixed<const N: usize>(data: &[u8], p: &mut usize) -> (r: Result<[u8; N], RouterError>)
    ensures
        match fixed_at::<N>(data@, *old(p) as int) {
            Ok((a, q)) => r == Ok::<[u8; N], RouterError>(a) && *final(p) == q,
            Err(_) => r == Err::<[u8; N], RouterError>(RouterError::CorruptSnapshot),
        },
{
    let bytes = corrupt(msgpack::read_bin(data, p))?;
    match to_array::<N>(bytes) {
        Some(a) => {
            proof {
                crate::message::lemma_array(a);
            }
            Ok(a)
        },
        None => Err(RouterError::CorruptSnapshot),
    }
}

fn read_finite(data: &[u8], p: &mut usize) -> (r: Result<u64, RouterError>)
    ensures
        match finite_at(data@, *old(p) as int) {
            Ok((v, q)) => r == Ok::<u64, RouterError>(v) && *final(p) == q,
            Err(_) => r == Err::<u64, RouterError>(RouterError::CorruptSnapshot),
        },
{
    let value: u64 = corrupt(msgpack::read_number_f64(data, p))?;
    if !ieee::is_finite(value) {
        return Err(RouterError::CorruptSnapshot);
    }
    Ok(value)
}

fn read_optional(data: &[u8], p: &mut usize) -> (r: Result<Option<u8>, RouterError>)
    ensures
        match opt_uint_at(data@, *old(p) as int) {
            Ok((v, q)) => r == Ok::<Option<u8>, RouterError>(v) && *final(p) == q,
            Err(_) => r == Err::<Option<u8>, RouterError>(RouterError::CorruptSnapshot),
        },
{
    if *p < data.len() && data[*p] == 0xc0 {
        *p = *p + 1;
        return Ok(None);
    }
    let value: u64 = corrupt(msgpack::read_uint(data, p))?;
    if value > 255 {
        return Err(RouterError::CorruptSnapshot);
    }
    Ok(Some(value as u8))
}

/// Passes a nil, if one is next.
fn skip_nil(data: &[u8], p: &mut usize) -> (r: Result<bool, RouterError>)
    ensures
        match msgpack::kind_at(data@, *old(p) as int) {
            Ok(msgpack::Kind::Nil) => r == Ok::<bool, RouterError>(true) && *final(p) == *old(p)
                + 1,
            Ok(_) => r == Ok::<bool, RouterError>(false) && *final(p) == *old(p),
            Err(_) => r == Err::<bool, RouterError>(RouterError::CorruptSnapshot),
        },
{
    if *p >= data.len() {
        return Err(RouterError::CorruptSnapshot);
    }
    match corrupt(msgpack::peek_kind(data, *p))? {
        msgpack::Kind::Nil => {
            *p = *p + 1;
            Ok(true)
        },
        _ => Ok(false),
    }
}

fn read_stamp(data: &[u8], p: &mut usize) -> (r: Result<Option<[u8; STAMP_SIZE]>, RouterError>)
    ensures
        match opt_stamp_at(data@, *old(p) as int) {
            Ok((v, q)) => r == Ok::<Option<[u8; STAMP_SIZE]>, RouterError>(v) && *final(p) == q,
            Err(_) => r == Err::<Option<[u8; STAMP_SIZE]>, RouterError>(
                RouterError::CorruptSnapshot,
            ),
        },
{
    if skip_nil(data, p)? {
        return Ok(None);
    }
    let stamp = read_fixed::<STAMP_SIZE>(data, p)?;
    Ok(Some(stamp))
}

fn read_some_prepared(data: &[u8], p: &mut usize) -> (r: Result<OutboundPropagation, RouterError>)
    ensures
        match some_prepared_at(data@, *old(p) as int) {
            Ok((v, q)) => r is Ok && r->Ok_0@ == v && *final(p) == q,
            Err(_) => r == Err::<OutboundPropagation, RouterError>(RouterError::CorruptSnapshot),
        },
{
    decode_open(data, p, 5)?;
    let timebase: u64 = read_finite(data, p)?;
    let unstamped_lxmf: Vec<u8> = to_vec(corrupt(msgpack::read_bin(data, p))?);
    let transient_id = read_fixed::<32>(data, p)?;
    let target_cost = read_optional(data, p)?;
    let stamp = read_stamp(data, p)?;
    Ok(OutboundPropagation { timebase, unstamped_lxmf, transient_id, target_cost, stamp })
}

fn read_prepared(data: &[u8], p: &mut usize, version: u64) -> (r: Result<
    Option<OutboundPropagation>,
    RouterError,
>)
    ensures
        match prepared_at(data@, *old(p) as int, version) {
            Ok((v, q)) => {
                &&& r is Ok
                &&& crate::router::prepared_view(r->Ok_0) == v
                &&& *final(p) == q
            },
            Err(_) => r == Err::<Option<OutboundPropagation>, RouterError>(
                RouterError::CorruptSnapshot,
            ),
        },
{
    if version < 4 {
        return Ok(None);
    }
    if skip_nil(data, p)? {
        return Ok(None);
    }
    let prepared = read_some_prepared(data, p)?;
    Ok(Some(prepared))
}

fn method_from(value: u64) -> (r: Result<DeliveryMethod, RouterError>)
    ensures
        match method_of(value) {
            Some(m) => r == Ok::<DeliveryMethod, RouterError>(m),
            None => r == Err::<DeliveryMethod, RouterError>(RouterError::CorruptSnapshot),
        },
{
    match value {
        1 => Ok(DeliveryMethod::Opportunistic),
        2 => Ok(DeliveryMethod::Direct),
        3 => Ok(DeliveryMethod::Propagated),
        _ => Err(RouterError::CorruptSnapshot),
    }
}

fn state_from(value: u64) -> (r: Result<MessageState, RouterError>)
    ensures
        match state_of(value) {
            Some(s) => r == Ok::<MessageState, RouterError>(s),
            None => r == Err::<MessageState, RouterError>(RouterError::CorruptSnapshot),
        },
{
    match value {
        0 => Ok(MessageState::Generating),
        1 => Ok(MessageState::Outbound),
        2 => Ok(MessageState::Sending),
        4 => Ok(MessageState::Sent),
        8 => Ok(MessageState::Delivered),
        0xfd => Ok(MessageState::Rejected),
        0xfe => Ok(MessageState::Cancelled),
        0xff => Ok(MessageState::Failed),
        _ => Err(RouterError::CorruptSnapshot),
    }
}

fn verification_from(value: u64) -> (r: Result<Verification, RouterError>)
    ensures
        match verification_of(value) {
            Some(v) => r == Ok::<Verification, RouterError>(v),
            None => r == Err::<Verification, RouterError>(RouterError::CorruptSnapshot),
        },
{
    match value {
        0 => Ok(Verification::Unverified),
        1 => Ok(Verification::Valid),
        2 => Ok(Verification::Invalid),
        _ => Err(RouterError::CorruptSnapshot),
    }
}

/// The number that stands for a verification in a snapshot.
pub fn verification_value(value: Verification) -> (r: u64)
    ensures
        r == verification_code(value),
{
    match value {
        Verification::Unverified => 0,
        Verification::Valid => 1,
        Verification::Invalid => 2,
    }
}

fn read_counters(data: &[u8], p: &mut usize) -> (r: Result<
    (DeliveryMethod, Verification, u8),
    RouterError,
>)
    ensures
        match counters_at(data@, *old(p) as int) {
            Ok((v, q)) => r == Ok::<(DeliveryMethod, Verification, u8), RouterError>(v)
                && *final(p) == q,
            Err(_) => r == Err::<(DeliveryMethod, Verification, u8), RouterError>(
                RouterError::CorruptSnapshot,
            ),
        },
{
    let method = method_from(corrupt(msgpack::read_uint(data, p))?)?;
    let _ = state_from(corrupt(msgpack::read_uint(data, p))?)?;
    let verification = verification_from(corrupt(msgpack::read_uint(data, p))?)?;
    let attempts: u64 = corrupt(msgpack::read_uint(data, p))?;
    if attempts > 255 {
        return Err(RouterError::CorruptSnapshot);
    }
    let _next_attempt_ms: u64 = corrupt(msgpack::read_uint(data, p))?;
    let progress: u64 = read_finite(data, p)?;
    if ieee::less(progress, 0) || ieee::less(ONE, progress) {
        return Err(RouterError::CorruptSnapshot);
    }
    Ok((method, verification, attempts as u8))
}

/// Whether a preparation may stand beside a method and a destination.
pub fn fits(
    method: DeliveryMethod,
    propagation: &Option<OutboundPropagation>,
    destination: &[u8; 16],
) -> (r: bool)
    ensures
        r == method_fits(method, crate::router::prepared_view(*propagation), *destination),
{
    if method == DeliveryMethod::Paper {
        return false;
    }
    match propagation {
        None => true,
        Some(p) => {
            if method != DeliveryMethod::Propagated || !ieee::is_finite(p.timebase)
                || p.unstamped_lxmf.len() <= LXMF_OVERHEAD || (p.stamp.is_some()
                && p.target_cost.is_none()) {
                return false;
            }
            let head = vstd::slice::slice_subrange(p.unstamped_lxmf.as_slice(), 0, 16);
            assert(head@ =~= p@.unstamped.take(16));
            let id = full_hash(p.unstamped_lxmf.as_slice());
            proof {
                if id@ == p.transient_id@ {
                    crate::bytemap::lemma_array_injective(id, p.transient_id);
                }
            }
            same_bytes(head, destination) && same(&id, &p.transient_id)
        },
    }
}

fn read_entry(data: &[u8], p: &mut usize, version: u64) -> (r: Result<OutboundEntry, RouterError>)
    ensures
        match entry_at(data@, *old(p) as int, version) {
            Ok((row, q)) => {
                &&& r is Ok
                &&& r->Ok_0@ == row.1
                &&& r->Ok_0.message.message_id == row.0
                &&& *final(p) == q
            },
            Err(_) => r == Err::<OutboundEntry, RouterError>(RouterError::CorruptSnapshot),
        },
{
    decode_open(
        data,
        p,
        if version >= 4 {
            8
        } else {
            7
        },
    )?;
    let packed = corrupt(msgpack::read_bin(data, p))?;
    let (method, verification, attempts) = read_counters(data, p)?;
    let propagation = read_prepared(data, p, version)?;
    match Message::unpack(packed, None, SignatureCheck::NoIdentity, DeliveryMethod::Direct) {
        Ok(unpacked) => {
            let message = Message { method, verification, ..unpacked };
            if !fits(method, &propagation, &message.destination_hash) {
                return Err(RouterError::CorruptSnapshot);
            }
            Ok(
                OutboundEntry {
                    message,
                    state: MessageState::Outbound,
                    attempts,
                    next_attempt_ms: 0,
                    progress: RESTING_PROGRESS,
                    propagation,
                },
            )
        },
        Err(_) => Err(RouterError::CorruptSnapshot),
    }
}

fn read_time(data: &[u8], p: &mut usize) -> (r: Result<([u8; 32], u64), RouterError>)
    ensures
        match time_at(data@, *old(p) as int) {
            Ok((row, q)) => r == Ok::<([u8; 32], u64), RouterError>(row) && *final(p) == q,
            Err(_) => r == Err::<([u8; 32], u64), RouterError>(RouterError::CorruptSnapshot),
        },
{
    decode_open(data, p, 2)?;
    let id = read_fixed::<32>(data, p)?;
    let time: u64 = read_finite(data, p)?;
    Ok((id, time))
}

fn read_cost(data: &[u8], p: &mut usize) -> (r: Result<([u8; 16], StampCost), RouterError>)
    ensures
        match cost_at(data@, *old(p) as int) {
            Ok((row, q)) => r == Ok::<([u8; 16], StampCost), RouterError>(row) && *final(p) == q,
            Err(_) => r == Err::<([u8; 16], StampCost), RouterError>(RouterError::CorruptSnapshot),
        },
{
    decode_open(data, p, 4)?;
    let destination = read_fixed::<16>(data, p)?;
    let seen: u64 = read_finite(data, p)?;
    let cost = read_optional(data, p)?;
    let compression = corrupt(msgpack::read_bool(data, p))?;
    Ok((destination, StampCost { seen, cost, compression }))
}

fn read_ticket(data: &[u8], p: &mut usize) -> (r: Result<([u8; 16], Ticket), RouterError>)
    ensures
        match ticket_at(data@, *old(p) as int) {
            Ok((row, q)) => r == Ok::<([u8; 16], Ticket), RouterError>(row) && *final(p) == q,
            Err(_) => r == Err::<([u8; 16], Ticket), RouterError>(RouterError::CorruptSnapshot),
        },
{
    decode_open(data, p, 3)?;
    let peer = read_fixed::<16>(data, p)?;
    let expires_unix: u64 = read_finite(data, p)?;
    let secret = read_fixed::<16>(data, p)?;
    Ok((peer, Ticket { expires_unix, secret }))
}

fn read_delivery(data: &[u8], p: &mut usize) -> (r: Result<([u8; 16], u64), RouterError>)
    ensures
        match delivery_at(data@, *old(p) as int) {
            Ok((row, q)) => r == Ok::<([u8; 16], u64), RouterError>(row) && *final(p) == q,
            Err(_) => r == Err::<([u8; 16], u64), RouterError>(RouterError::CorruptSnapshot),
        },
{
    decode_open(data, p, 2)?;
    let peer = read_fixed::<16>(data, p)?;
    let time: u64 = read_finite(data, p)?;
    Ok((peer, time))
}

fn read_ignored(data: &[u8], p: &mut usize) -> (r: Result<([u8; 16], ()), RouterError>)
    ensures
        match ignored_at(data@, *old(p) as int) {
            Ok((row, q)) => r == Ok::<([u8; 16], ()), RouterError>(row) && *final(p) == q,
            Err(_) => r == Err::<([u8; 16], ()), RouterError>(RouterError::CorruptSnapshot),
        },
{
    let peer = read_fixed::<16>(data, p)?;
    Ok((peer, ()))
}

/// Reads a table of identifiers and times.
fn decode_times(data: &[u8], p: &mut usize, limit: usize) -> (r: Result<ByteMap<32, u64>, RouterError>)
    ensures
        match table_at(data@, *old(p) as int, limit as nat, times_from(data@)) {
            Ok((m, q)) => {
                &&& r is Ok
                &&& r->Ok_0.wf()
                &&& r->Ok_0@ == m
                &&& r->Ok_0.entries@.len() <= limit
                &&& *final(p) == q
            },
            Err(_) => r == Err::<ByteMap<32, u64>, RouterError>(RouterError::CorruptSnapshot),
        },
{
    let ghost begin = *p as int;
    let count: usize = decode_count(data, p, limit)?;
    let ghost start = *p as int;
    let ghost item = times_from(data@);
    let mut map: ByteMap<32, u64> = ByteMap::new();
    let ghost mut rows: Seq<([u8; 32], u64)> = Seq::empty();
    let mut i: usize = 0;
    while i < count
        invariant
            i <= count,
            begin == *old(p) as int,
            item == times_from(data@),
            rows_at(data@, begin, limit as nat, item) == msgpack::list_at(
                item,
                start,
                count as nat,
            ),
            msgpack::list_at(item, start, i as nat) == Ok::<(Seq<([u8; 32], u64)>, int), ()>(
                (rows, *p as int),
            ),
            crate::bytemap::distinct(rows),
            map.wf(),
            map@ == crate::bytemap::gathered(rows),
            map.entries@.len() == i,
        decreases count - i,
    {
        proof {
            if item(*p as int) is Err {
                lemma_spoiled(item, start, i as nat, count as nat);
            }
        }
        let ghost here = *p as int;
        let (key, value) = read_time(data, p)?;
        proof {
            lemma_row(rows, (key, value));
            if !crate::bytemap::distinct(rows.push((key, value))) {
                lemma_spoiled(item, start, i as nat, count as nat);
            }
        }
        if map.insert(key, value).is_some() {
            return Err(RouterError::CorruptSnapshot);
        }
        proof {
            rows = rows.push((key, value));
        }
        i = i + 1;
    }
    Ok(map)
}

/// Reads a table of announced stamp costs.
fn decode_costs(data: &[u8], p: &mut usize, limit: usize) -> (r: Result<ByteMap<16, StampCost>, RouterError>)
    ensures
        match table_at(data@, *old(p) as int, limit as nat, costs_from(data@)) {
            Ok((m, q)) => {
                &&& r is Ok
                &&& r->Ok_0.wf()
                &&& r->Ok_0@ == m
                &&& r->Ok_0.entries@.len() <= limit
                &&& *final(p) == q
            },
            Err(_) => r == Err::<ByteMap<16, StampCost>, RouterError>(RouterError::CorruptSnapshot),
        },
{
    let ghost begin = *p as int;
    let count: usize = decode_count(data, p, limit)?;
    let ghost start = *p as int;
    let ghost item = costs_from(data@);
    let mut map: ByteMap<16, StampCost> = ByteMap::new();
    let ghost mut rows: Seq<([u8; 16], StampCost)> = Seq::empty();
    let mut i: usize = 0;
    while i < count
        invariant
            i <= count,
            begin == *old(p) as int,
            item == costs_from(data@),
            rows_at(data@, begin, limit as nat, item) == msgpack::list_at(
                item,
                start,
                count as nat,
            ),
            msgpack::list_at(item, start, i as nat) == Ok::<(Seq<([u8; 16], StampCost)>, int), ()>(
                (rows, *p as int),
            ),
            crate::bytemap::distinct(rows),
            map.wf(),
            map@ == crate::bytemap::gathered(rows),
            map.entries@.len() == i,
        decreases count - i,
    {
        proof {
            if item(*p as int) is Err {
                lemma_spoiled(item, start, i as nat, count as nat);
            }
        }
        let ghost here = *p as int;
        let (key, value) = read_cost(data, p)?;
        proof {
            lemma_row(rows, (key, value));
            if !crate::bytemap::distinct(rows.push((key, value))) {
                lemma_spoiled(item, start, i as nat, count as nat);
            }
        }
        if map.insert(key, value).is_some() {
            return Err(RouterError::CorruptSnapshot);
        }
        proof {
            rows = rows.push((key, value));
        }
        i = i + 1;
    }
    Ok(map)
}

/// Reads the tickets that peers granted.
fn decode_granted(data: &[u8], p: &mut usize, limit: usize) -> (r: Result<ByteMap<16, Ticket>, RouterError>)
    ensures
        match table_at(data@, *old(p) as int, limit as nat, tickets_from(data@)) {
            Ok((m, q)) => {
                &&& r is Ok
                &&& r->Ok_0.wf()
                &&& r->Ok_0@ == m
                &&& r->Ok_0.entries@.len() <= limit
                &&& *final(p) == q
            },
            Err(_) => r == Err::<ByteMap<16, Ticket>, RouterError>(RouterError::CorruptSnapshot),
        },
{
    let ghost begin = *p as int;
    let count: usize = decode_count(data, p, limit)?;
    let ghost start = *p as int;
    let ghost item = tickets_from(data@);
    let mut map: ByteMap<16, Ticket> = ByteMap::new();
    let ghost mut rows: Seq<([u8; 16], Ticket)> = Seq::empty();
    let mut i: usize = 0;
    while i < count
        invariant
            i <= count,
            begin == *old(p) as int,
            item == tickets_from(data@),
            rows_at(data@, begin, limit as nat, item) == msgpack::list_at(
                item,
                start,
                count as nat,
            ),
            msgpack::list_at(item, start, i as nat) == Ok::<(Seq<([u8; 16], Ticket)>, int), ()>(
                (rows, *p as int),
            ),
            crate::bytemap::distinct(rows),
            map.wf(),
            map@ == crate::bytemap::gathered(rows),
            map.entries@.len() == i,
        decreases count - i,
    {
        proof {
            if item(*p as int) is Err {
                lemma_spoiled(item, start, i as nat, count as nat);
            }
        }
        let ghost here = *p as int;
        let (key, value) = read_ticket(data, p)?;
        proof {
            lemma_row(rows, (key, value));
            if !crate::bytemap::distinct(rows.push((key, value))) {
                lemma_spoiled(item, start, i as nat, count as nat);
            }
        }
        if map.insert(key, value).is_some() {
            return Err(RouterError::CorruptSnapshot);
        }
        proof {
            rows = rows.push((key, value));
        }
        i = i + 1;
    }
    Ok(map)
}

/// Reads when tickets reached their peers.
fn decode_deliveries(data: &[u8], p: &mut usize, limit: usize) -> (r: Result<ByteMap<16, u64>, RouterError>)
    ensures
        match table_at(data@, *old(p) as int, limit as nat, deliveries_from(data@)) {
            Ok((m, q)) => {
                &&& r is Ok
                &&& r->Ok_0.wf()
                &&& r->Ok_0@ == m
                &&& r->Ok_0.entries@.len() <= limit
                &&& *final(p) == q
            },
            Err(_) => r == Err::<ByteMap<16, u64>, RouterError>(RouterError::CorruptSnapshot),
        },
{
    let ghost begin = *p as int;
    let count: usize = decode_count(data, p, limit)?;
    let ghost start = *p as int;
    let ghost item = deliveries_from(data@);
    let mut map: ByteMap<16, u64> = ByteMap::new();
    let ghost mut rows: Seq<([u8; 16], u64)> = Seq::empty();
    let mut i: usize = 0;
    while i < count
        invariant
            i <= count,
            begin == *old(p) as int,
            item == deliveries_from(data@),
            rows_at(data@, begin, limit as nat, item) == msgpack::list_at(
                item,
                start,
                count as nat,
            ),
            msgpack::list_at(item, start, i as nat) == Ok::<(Seq<([u8; 16], u64)>, int), ()>(
                (rows, *p as int),
            ),
            crate::bytemap::distinct(rows),
            map.wf(),
            map@ == crate::bytemap::gathered(rows),
            map.entries@.len() == i,
        decreases count - i,
    {
        proof {
            if item(*p as int) is Err {
                lemma_spoiled(item, start, i as nat, count as nat);
            }
        }
        let ghost here = *p as int;
        let (key, value) = read_delivery(data, p)?;
        proof {
            lemma_row(rows, (key, value));
            if !crate::bytemap::distinct(rows.push((key, value))) {
                lemma_spoiled(item, start, i as nat, count as nat);
            }
        }
        if map.insert(key, value).is_some() {
            return Err(RouterError::CorruptSnapshot);
        }
        proof {
            rows = rows.push((key, value));
        }
        i = i + 1;
    }
    Ok(map)
}

/// Reads a set of peers.
fn decode_ignored(data: &[u8], p: &mut usize, limit: usize) -> (r: Result<ByteMap<16, ()>, RouterError>)
    ensures
        match table_at(data@, *old(p) as int, limit as nat, ignored_from(data@)) {
            Ok((m, q)) => {
                &&& r is Ok
                &&& r->Ok_0.wf()
                &&& r->Ok_0@ == m
                &&& r->Ok_0.entries@.len() <= limit
                &&& *final(p) == q
            },
            Err(_) => r == Err::<ByteMap<16, ()>, RouterError>(RouterError::CorruptSnapshot),
        },
{
    let ghost begin = *p as int;
    let count: usize = decode_count(data, p, limit)?;
    let ghost start = *p as int;
    let ghost item = ignored_from(data@);
    let mut map: ByteMap<16, ()> = ByteMap::new();
    let ghost mut rows: Seq<([u8; 16], ())> = Seq::empty();
    let mut i: usize = 0;
    while i < count
        invariant
            i <= count,
            begin == *old(p) as int,
            item == ignored_from(data@),
            rows_at(data@, begin, limit as nat, item) == msgpack::list_at(
                item,
                start,
                count as nat,
            ),
            msgpack::list_at(item, start, i as nat) == Ok::<(Seq<([u8; 16], ())>, int), ()>(
                (rows, *p as int),
            ),
            crate::bytemap::distinct(rows),
            map.wf(),
            map@ == crate::bytemap::gathered(rows),
            map.entries@.len() == i,
        decreases count - i,
    {
        proof {
            if item(*p as int) is Err {
                lemma_spoiled(item, start, i as nat, count as nat);
            }
        }
        let ghost here = *p as int;
        let (key, value) = read_ignored(data, p)?;
        proof {
            lemma_row(rows, (key, value));
            if !crate::bytemap::distinct(rows.push((key, value))) {
                lemma_spoiled(item, start, i as nat, count as nat);
            }
        }
        if map.insert(key, value).is_some() {
            return Err(RouterError::CorruptSnapshot);
        }
        proof {
            rows = rows.push((key, value));
        }
        i = i + 1;
    }
    Ok(map)
}

fn decode_outbound(data: &[u8], p: &mut usize, limit: usize, version: u64) -> (r: Result<
    ByteMap<32, OutboundEntry>,
    RouterError,
>)
    ensures
        match table_at(data@, *old(p) as int, limit as nat, entries_from(data@, version)) {
            Ok((m, q)) => {
                &&& r is Ok
                &&& r->Ok_0.wf()
                &&& r->Ok_0@.map_values(|e: OutboundEntry| e@) == m
                &&& *final(p) == q
            },
            Err(_) => r == Err::<ByteMap<32, OutboundEntry>, RouterError>(
                RouterError::CorruptSnapshot,
            ),
        },
{
    let ghost begin = *p as int;
    let count: usize = decode_count(data, p, limit)?;
    let ghost start = *p as int;
    let ghost item = entries_from(data@, version);
    let mut map: ByteMap<32, OutboundEntry> = ByteMap::new();
    let ghost mut rows: Seq<([u8; 32], crate::router::Queued)> = Seq::empty();
    assert(map@.map_values(|e: OutboundEntry| e@) =~= crate::bytemap::gathered(rows));
    let mut i: usize = 0;
    while i < count
        invariant
            i <= count,
            begin == *old(p) as int,
            item == entries_from(data@, version),
            rows_at(data@, begin, limit as nat, item) == msgpack::list_at(
                item,
                start,
                count as nat,
            ),
            msgpack::list_at(item, start, i as nat) == Ok::<
                (Seq<([u8; 32], crate::router::Queued)>, int),
                (),
            >((rows, *p as int)),
            crate::bytemap::distinct(rows),
            map.wf(),
            map@.map_values(|e: OutboundEntry| e@) == crate::bytemap::gathered(rows),
        decreases count - i,
    {
        proof {
            if item(*p as int) is Err {
                lemma_spoiled(item, start, i as nat, count as nat);
            }
        }
        let entry = read_entry(data, p, version)?;
        let id = entry.message.message_id;
        let ghost before = map@;
        proof {
            lemma_row(rows, (id, entry@));
            if !crate::bytemap::distinct(rows.push((id, entry@))) {
                lemma_spoiled(item, start, i as nat, count as nat);
            }
            let f = |e: OutboundEntry| e@;
            assert(before.map_values(f).contains_key(id) == before.contains_key(id));
        }
        if map.insert(id, entry).is_some() {
            return Err(RouterError::CorruptSnapshot);
        }
        proof {
            let f = |e: OutboundEntry| e@;
            assert(before.insert(id, entry).map_values(f) =~= before.map_values(f).insert(
                id,
                entry@,
            ));
            rows = rows.push((id, entry@));
        }
        i = i + 1;
    }
    Ok(map)
}

fn decode_issued(data: &[u8], p: &mut usize, limit: usize) -> (r: Result<
    (TicketStore, usize),
    RouterError,
>)
    ensures
        match rows_at(data@, *old(p) as int, limit as nat, tickets_from(data@)) {
            Ok((rows, q)) => {
                &&& r is Ok
                &&& r->Ok_0.0.wf()
                &&& r->Ok_0.0@ == (crate::ticket::Tickets {
                    inbound: crate::ticket::regrouped(rows),
                    ..crate::ticket::no_tickets()
                })
                &&& r->Ok_0.1 == rows.len()
                &&& rows.len() <= limit
                &&& *final(p) == q
            },
            Err(_) => r == Err::<(TicketStore, usize), RouterError>(RouterError::CorruptSnapshot),
        },
{
    let ghost begin = *p as int;
    let count: usize = decode_count(data, p, limit)?;
    let ghost start = *p as int;
    let ghost item = tickets_from(data@);
    let mut store = TicketStore::default();
    let ghost mut rows: Seq<([u8; 16], Ticket)> = Seq::empty();
    let mut i: usize = 0;
    while i < count
        invariant
            i <= count,
            begin == *old(p) as int,
            item == tickets_from(data@),
            rows_at(data@, begin, limit as nat, item) == msgpack::list_at(
                item,
                start,
                count as nat,
            ),
            msgpack::list_at(item, start, i as nat) == Ok::<(Seq<([u8; 16], Ticket)>, int), ()>(
                (rows, *p as int),
            ),
            rows.len() == i,
            store.wf(),
            store@ == (crate::ticket::Tickets {
                inbound: crate::ticket::regrouped(rows),
                ..crate::ticket::no_tickets()
            }),
        decreases count - i,
    {
        proof {
            if item(*p as int) is Err {
                msgpack::lemma_list_fails(item, start, (i + 1) as nat, count as nat);
            }
        }
        let (peer, ticket) = read_ticket(data, p)?;
        store.restore_inbound(peer, ticket);
        proof {
            let more = rows.push((peer, ticket));
            assert(more.drop_last() =~= rows);
            rows = more;
        }
        i = i + 1;
    }
    Ok((store, count))
}

/// The size of a table that was read.
proof fn lemma_table_len<const N: usize, V>(m: ByteMap<N, V>)
    requires
        m.wf(),
    ensures
        m@.dom().len() == m.entries@.len(),
{
    crate::bytemap::lemma_len(m.entries@);
}

fn decode_tickets(data: &[u8], p: &mut usize, limit: usize) -> (r: Result<TicketStore, RouterError>)
    ensures
        match tickets_at(data@, *old(p) as int, limit as nat) {
            Ok((t, q)) => r is Ok && r->Ok_0.wf() && r->Ok_0@ == t && *final(p) == q,
            Err(_) => r == Err::<TicketStore, RouterError>(RouterError::CorruptSnapshot),
        },
{
    decode_open(data, p, 3)?;
    let (issued, count) = decode_issued(data, p, limit)?;
    let remaining: usize = limit - count;
    let outbound = decode_granted(data, p, remaining)?;
    proof {
        lemma_table_len(outbound);
    }
    let remaining: usize = remaining - outbound.len();
    let last_deliveries = decode_deliveries(data, p, remaining)?;
    let store = TicketStore { outbound, last_deliveries, ..issued };
    Ok(store)
}

/// Reads a snapshot that was written for an identity.
pub fn decode_snapshot(data: &[u8], identity_hash: &[u8; 16], config: &RouterConfig) -> (r: Result<
    Checkpoint,
    RouterError,
>)
    ensures
        match restored_from(data@, *identity_hash, *config) {
            Ok(k) => r is Ok && r->Ok_0.wf() && r->Ok_0@ == k,
            Err(_) => r == Err::<Checkpoint, RouterError>(RouterError::CorruptSnapshot),
        },
{
    proof {
        reveal(tables_at);
    }
    let mut p: usize = 0;
    decode_open(data, &mut p, SNAPSHOT_FIELDS)?;
    let version: u64 = corrupt(msgpack::read_uint(data, &mut p))?;
    if version < 3 || version > SNAPSHOT_VERSION {
        return Err(RouterError::CorruptSnapshot);
    }
    let owner = read_fixed::<16>(data, &mut p)?;
    if !same(&owner, identity_hash) {
        return Err(RouterError::CorruptSnapshot);
    }
    let outbound = decode_outbound(data, &mut p, config.max_outbound, version)?;
    let delivered_ids = decode_times(data, &mut p, config.max_delivered_ids)?;
    let processed_ids = decode_times(data, &mut p, config.max_processed_ids)?;
    let outbound_stamp_costs = decode_costs(data, &mut p, config.max_stamp_costs)?;
    let tickets = decode_tickets(data, &mut p, config.max_tickets)?;
    let ignored = decode_ignored(data, &mut p, config.max_policy_entries)?;
    // The cursor of the scheduler belongs to the clock of the process that
    // wrote it.
    let _next_job_ms: u64 = corrupt(msgpack::read_uint(data, &mut p))?;
    if p != data.len() {
        return Err(RouterError::CorruptSnapshot);
    }
    Ok(
        Checkpoint {
            outbound,
            delivered_ids,
            processed_ids,
            outbound_stamp_costs,
            tickets,
            ignored,
        },
    )
}

// ---------------------------------------------------------------------------
// Writing
// ---------------------------------------------------------------------------

fn encode_optional(out: &mut Vec<u8>, value: Option<u8>)
    ensures
        final(out)@ == old(out)@ + opt_uint_bytes(value),
{
    match value {
        Some(v) => msgpack::uint(out, v as u64),
        None => msgpack::nil(out),
    }
}

fn encode_prepared(propagation: &Option<OutboundPropagation>) -> (r: Vec<u8>)
    ensures
        r@ == prepared_bytes(crate::router::prepared_view(*propagation)),
{
    let mut out: Vec<u8> = Vec::new();
    match propagation {
        Some(p) => {
            msgpack::array(&mut out, 5);
            assert(out@ =~= msgpack::array_header(5));
            msgpack::double(&mut out, p.timebase);
            msgpack::bin(&mut out, p.unstamped_lxmf.as_slice());
            msgpack::bin(&mut out, &p.transient_id);
            encode_optional(&mut out, p.target_cost);
            match p.stamp {
                Some(stamp) => msgpack::bin(&mut out, &stamp),
                None => msgpack::nil(&mut out),
            }
        },
        None => {
            msgpack::nil(&mut out);
            assert(out@ =~= msgpack::nil_bytes());
        },
    }
    out
}

fn encode_entry(entry: &OutboundEntry, packed: &[u8]) -> (r: Vec<u8>)
    requires
        packed@ == entry.message.packed(),
    ensures
        r@ == entry_bytes(entry@),
{
    let mut out: Vec<u8> = Vec::new();
    msgpack::array(&mut out, 8);
    assert(out@ =~= msgpack::array_header(8));
    msgpack::bin(&mut out, packed);
    msgpack::uint(&mut out, entry.message.method.code());
    msgpack::uint(&mut out, entry.state.code());
    msgpack::uint(&mut out, verification_value(entry.message.verification));
    msgpack::uint(&mut out, entry.attempts as u64);
    msgpack::uint(&mut out, entry.next_attempt_ms);
    msgpack::double(&mut out, ieee::widen(entry.progress));
    let prepared = encode_prepared(&entry.propagation);
    out.extend_from_slice(prepared.as_slice());
    assert(out@ =~= entry_bytes(entry@));
    out
}

/// The queue as a list of views.
pub open spec fn rows_of(s: Seq<([u8; 32], OutboundEntry)>) -> Seq<
    ([u8; 32], crate::router::Queued),
> {
    s.map_values(|e: ([u8; 32], OutboundEntry)| (e.0, e.1@))
}

proof fn lemma_rows(
    m: ByteMap<32, OutboundEntry>,
    v: Map<[u8; 32], crate::router::Queued>,
)
    requires
        m.wf(),
        v == m@.map_values(|e: OutboundEntry| e@),
    ensures
        crate::bytemap::pairs(v) == rows_of(m.entries@),
        v.dom().len() == m.entries@.len(),
        forall|i: int|
            0 <= i < m.entries@.len() ==> {
                let e = #[trigger] m.entries@[i];
                v.contains_key(e.0) && v[e.0] == e.1@
            },
        forall|k: [u8; 32]| #[trigger]
            v.contains_key(k) ==> crate::bytemap::has_key(m.entries@, k),
{
    let f = |e: OutboundEntry| e@;
    crate::bytemap::lemma_mapped(m.entries@, f);
    assert(rows_of(m.entries@) =~= m.entries@.map_values(
        |e: ([u8; 32], OutboundEntry)| (e.0, f(e.1)),
    ));
    crate::bytemap::lemma_pairs(rows_of(m.entries@));
    crate::bytemap::lemma_len(rows_of(m.entries@));
    assert forall|i: int| 0 <= i < m.entries@.len() implies {
        let e = #[trigger] m.entries@[i];
        v.contains_key(e.0) && v[e.0] == e.1@
    } by {
        crate::bytemap::lemma_entry(m.entries@, i);
    }
}

/// A list of bytes is at least as long as its first items.
proof fn lemma_list_len<T>(one: spec_fn(T) -> Seq<u8>, s: Seq<T>, i: int)
    requires
        0 <= i <= s.len(),
    ensures
        msgpack::list_bytes(one, s.take(i)).len() <= msgpack::list_bytes(one, s).len(),
    decreases s.len(),
{
    if i == s.len() {
        assert(s.take(i) =~= s);
    } else {
        assert(s.drop_last().take(i) =~= s.take(i));
        lemma_list_len(one, s.drop_last(), i);
    }
}

proof fn lemma_list_push<T>(one: spec_fn(T) -> Seq<u8>, s: Seq<T>, i: int)
    requires
        0 <= i < s.len(),
    ensures
        msgpack::list_bytes(one, s.take(i + 1)) == msgpack::list_bytes(one, s.take(i)) + one(s[i]),
{
    let t = s.take(i + 1);
    assert(t.drop_last() =~= s.take(i));
    assert(t.last() == s[i]);
}

/// Writes the queue, or stops where it cannot fit.
fn encode_outbound(out: &mut Vec<u8>, entries: &ByteMap<32, OutboundEntry>, max: usize) -> (r: Result<
    (),
    RouterError,
>)
    requires
        entries.wf(),
        entries.entries@.len() <= u32::MAX,
    ensures
        ({
            let m = entries@.map_values(|e: OutboundEntry| e@);
            let whole = old(out)@ + queue_bytes(m);
            let fit = forall|id: [u8; 32]| #[trigger] m.contains_key(id) ==> entry_fits(m[id]);
            match r {
                Ok(_) => fit && final(out)@ == whole,
                Err(e) => e == RouterError::QueueFull && (!fit || whole.len() > max),
            }
        }),
{
    let ghost m = entries@.map_values(|e: OutboundEntry| e@);
    let ghost rows = rows_of(entries.entries@);
    let ghost one = |e: ([u8; 32], crate::router::Queued)| entry_bytes(e.1);
    let ghost whole = old(out)@ + queue_bytes(m);
    proof {
        lemma_rows(*entries, m);
    }
    msgpack::array(out, entries.len());
    let ghost head = out@;
    let mut i: usize = 0;
    assert(out@ =~= head + msgpack::list_bytes(one, rows.take(0)));
    while i < entries.entries.len()
        invariant
            i <= entries.entries@.len(),
            entries.wf(),
            m == entries@.map_values(|e: OutboundEntry| e@),
            rows == rows_of(entries.entries@),
            rows == crate::bytemap::pairs(m),
            one == (|e: ([u8; 32], crate::router::Queued)| entry_bytes(e.1)),
            head == old(out)@ + msgpack::array_header(rows.len()),
            whole == old(out)@ + queue_bytes(m),
            out@ == head + msgpack::list_bytes(one, rows.take(i as int)),
            forall|j: int| 0 <= j < i ==> entry_fits((#[trigger] entries.entries@[j]).1@),
            forall|j: int|
                0 <= j < entries.entries@.len() ==> {
                    let e = #[trigger] entries.entries@[j];
                    m.contains_key(e.0) && m[e.0] == e.1@
                },
        decreases entries.entries@.len() - i,
    {
        let entry = &entries.entries[i].1;
        let packed = entry.message.pack();
        proof {
            lemma_list_push(one, rows, i as int);
            lemma_list_len(one, rows, i + 1);
            assert(rows[i as int].1 == entry@);
            assert(packed@ == crate::message::mail_bytes(entry@.mail));
            assert(m.contains_key(entries.entries@[i as int].0));
            assert(whole.len() == head.len() + msgpack::list_bytes(one, rows).len());
            assert(entry_bytes(entry@).len() >= packed@.len()) by {
                reveal(msgpack::bin_head);
            }
        }
        if packed.len() > 0xffff_ffff || packed.len() > max.saturating_sub(out.len()) {
            return Err(RouterError::QueueFull);
        }
        if let Some(p) = &entry.propagation {
            proof {
                assert(entry_bytes(entry@).len() >= p.unstamped_lxmf@.len()) by {
                    reveal(msgpack::bin_head);
                }
            }
            if p.unstamped_lxmf.len() > 0xffff_ffff || p.unstamped_lxmf.len()
                > max.saturating_sub(out.len()) {
                return Err(RouterError::QueueFull);
            }
        }
        let bytes = encode_entry(entry, packed.as_slice());
        let ghost before = out@;
        out.extend_from_slice(bytes.as_slice());
        assert(out@ =~= before + entry_bytes(entry@));
        assert(out@ =~= head + msgpack::list_bytes(one, rows.take(i + 1)));
        i = i + 1;
    }
    proof {
        assert(rows.take(rows.len() as int) =~= rows);
        assert(out@ =~= whole);
        assert forall|id: [u8; 32]| #[trigger] m.contains_key(id) implies entry_fits(m[id]) by {
            let j = crate::bytemap::key_index(entries.entries@, id);
            assert(crate::bytemap::has_key(entries.entries@, id));
            assert(entries.entries@[j].0 == id);
        }
    }
    Ok(())
}

/// Writes a table of identifiers and times.
fn encode_times(out: &mut Vec<u8>, map: &ByteMap<32, u64>)
    requires
        map.wf(),
        map.entries@.len() <= u32::MAX,
    ensures
        final(out)@ == old(out)@ + times_bytes(map@),
{
    let ghost rows = map.entries@;
    let ghost one = |e: ([u8; 32], u64)| time_bytes(e);
    proof {
        crate::bytemap::lemma_pairs(rows);
    }
    msgpack::array(out, map.len());
    let ghost head = out@;
    let mut i: usize = 0;
    assert(out@ =~= head + msgpack::list_bytes(one, rows.take(0)));
    while i < map.entries.len()
        invariant
            i <= rows.len(),
            rows == map.entries@,
            one == (|e: ([u8; 32], u64)| time_bytes(e)),
            out@ == head + msgpack::list_bytes(one, rows.take(i as int)),
        decreases rows.len() - i,
    {
        let ghost before = out@;
        msgpack::array(out, 2);
        msgpack::bin(out, &map.entries[i].0);
        msgpack::double(out, map.entries[i].1);
        proof {
            assert(out@ =~= before + time_bytes(rows[i as int]));
            lemma_list_push(one, rows, i as int);
            assert(out@ =~= head + msgpack::list_bytes(one, rows.take(i + 1)));
        }
        i = i + 1;
    }
    assert(rows.take(rows.len() as int) =~= rows);
    assert(out@ =~= old(out)@ + times_bytes(map@));
}

/// Writes a table of announced stamp costs.
fn encode_costs(out: &mut Vec<u8>, map: &ByteMap<16, StampCost>)
    requires
        map.wf(),
        map.entries@.len() <= u32::MAX,
    ensures
        final(out)@ == old(out)@ + costs_bytes(map@),
{
    let ghost rows = map.entries@;
    let ghost one = |e: ([u8; 16], StampCost)| cost_bytes(e);
    proof {
        crate::bytemap::lemma_pairs(rows);
    }
    msgpack::array(out, map.len());
    let ghost head = out@;
    let mut i: usize = 0;
    assert(out@ =~= head + msgpack::list_bytes(one, rows.take(0)));
    while i < map.entries.len()
        invariant
            i <= rows.len(),
            rows == map.entries@,
            one == (|e: ([u8; 16], StampCost)| cost_bytes(e)),
            out@ == head + msgpack::list_bytes(one, rows.take(i as int)),
        decreases rows.len() - i,
    {
        let ghost before = out@;
        msgpack::array(out, 4);
        msgpack::bin(out, &map.entries[i].0);
        msgpack::double(out, map.entries[i].1.seen);
        encode_optional(out, map.entries[i].1.cost);
        msgpack::boolean(out, map.entries[i].1.compression);
        proof {
            assert(out@ =~= before + cost_bytes(rows[i as int]));
            lemma_list_push(one, rows, i as int);
            assert(out@ =~= head + msgpack::list_bytes(one, rows.take(i + 1)));
        }
        i = i + 1;
    }
    assert(rows.take(rows.len() as int) =~= rows);
    assert(out@ =~= old(out)@ + costs_bytes(map@));
}

/// Writes the tickets that peers granted.
fn encode_granted(out: &mut Vec<u8>, map: &ByteMap<16, Ticket>)
    requires
        map.wf(),
        map.entries@.len() <= u32::MAX,
    ensures
        final(out)@ == old(out)@ + table_bytes(
            |e: ([u8; 16], Ticket)| ticket_bytes(e),
            crate::bytemap::pairs(map@),
        ),
{
    let ghost rows = map.entries@;
    let ghost one = |e: ([u8; 16], Ticket)| ticket_bytes(e);
    proof {
        crate::bytemap::lemma_pairs(rows);
    }
    msgpack::array(out, map.len());
    let ghost head = out@;
    let mut i: usize = 0;
    assert(out@ =~= head + msgpack::list_bytes(one, rows.take(0)));
    while i < map.entries.len()
        invariant
            i <= rows.len(),
            rows == map.entries@,
            one == (|e: ([u8; 16], Ticket)| ticket_bytes(e)),
            out@ == head + msgpack::list_bytes(one, rows.take(i as int)),
        decreases rows.len() - i,
    {
        let ghost before = out@;
        msgpack::array(out, 3);
        msgpack::bin(out, &map.entries[i].0);
        msgpack::double(out, map.entries[i].1.expires_unix);
        msgpack::bin(out, &map.entries[i].1.secret);
        proof {
            assert(out@ =~= before + ticket_bytes(rows[i as int]));
            lemma_list_push(one, rows, i as int);
            assert(out@ =~= head + msgpack::list_bytes(one, rows.take(i + 1)));
        }
        i = i + 1;
    }
    assert(rows.take(rows.len() as int) =~= rows);
    assert(out@ =~= old(out)@ + table_bytes(
            |e: ([u8; 16], Ticket)| ticket_bytes(e),
            crate::bytemap::pairs(map@),
        ));
}

/// Writes when tickets reached their peers.
fn encode_deliveries(out: &mut Vec<u8>, map: &ByteMap<16, u64>)
    requires
        map.wf(),
        map.entries@.len() <= u32::MAX,
    ensures
        final(out)@ == old(out)@ + table_bytes(
            |e: ([u8; 16], u64)| delivery_bytes(e),
            crate::bytemap::pairs(map@),
        ),
{
    let ghost rows = map.entries@;
    let ghost one = |e: ([u8; 16], u64)| delivery_bytes(e);
    proof {
        crate::bytemap::lemma_pairs(rows);
    }
    msgpack::array(out, map.len());
    let ghost head = out@;
    let mut i: usize = 0;
    assert(out@ =~= head + msgpack::list_bytes(one, rows.take(0)));
    while i < map.entries.len()
        invariant
            i <= rows.len(),
            rows == map.entries@,
            one == (|e: ([u8; 16], u64)| delivery_bytes(e)),
            out@ == head + msgpack::list_bytes(one, rows.take(i as int)),
        decreases rows.len() - i,
    {
        let ghost before = out@;
        msgpack::array(out, 2);
        msgpack::bin(out, &map.entries[i].0);
        msgpack::double(out, map.entries[i].1);
        proof {
            assert(out@ =~= before + delivery_bytes(rows[i as int]));
            lemma_list_push(one, rows, i as int);
            assert(out@ =~= head + msgpack::list_bytes(one, rows.take(i + 1)));
        }
        i = i + 1;
    }
    assert(rows.take(rows.len() as int) =~= rows);
    assert(out@ =~= old(out)@ + table_bytes(
            |e: ([u8; 16], u64)| delivery_bytes(e),
            crate::bytemap::pairs(map@),
        ));
}

/// Writes a set of peers.
fn encode_ignored(out: &mut Vec<u8>, map: &ByteMap<16, ()>)
    requires
        map.wf(),
        map.entries@.len() <= u32::MAX,
    ensures
        final(out)@ == old(out)@ + ignores_bytes(map@),
{
    let ghost rows = map.entries@;
    let ghost one = |e: ([u8; 16], ())| ignored_bytes(e);
    proof {
        crate::bytemap::lemma_pairs(rows);
    }
    msgpack::array(out, map.len());
    let ghost head = out@;
    let mut i: usize = 0;
    assert(out@ =~= head + msgpack::list_bytes(one, rows.take(0)));
    while i < map.entries.len()
        invariant
            i <= rows.len(),
            rows == map.entries@,
            one == (|e: ([u8; 16], ())| ignored_bytes(e)),
            out@ == head + msgpack::list_bytes(one, rows.take(i as int)),
        decreases rows.len() - i,
    {
        let ghost before = out@;
        msgpack::bin(out, &map.entries[i].0);
        proof {
            assert(out@ =~= before + ignored_bytes(rows[i as int]));
            lemma_list_push(one, rows, i as int);
            assert(out@ =~= head + msgpack::list_bytes(one, rows.take(i + 1)));
        }
        i = i + 1;
    }
    assert(rows.take(rows.len() as int) =~= rows);
    assert(out@ =~= old(out)@ + ignores_bytes(map@));
}

/// The issued tickets as a list of groups.
pub open spec fn groups_of(s: Seq<([u8; 16], Vec<Ticket>)>) -> Seq<([u8; 16], Seq<Ticket>)> {
    s.map_values(|e: ([u8; 16], Vec<Ticket>)| (e.0, e.1@))
}

proof fn lemma_groups(m: ByteMap<16, Vec<Ticket>>)
    requires
        m.wf(),
    ensures
        crate::bytemap::ascending(groups_of(m.entries@)),
        crate::bytemap::map_of(groups_of(m.entries@)) == m@.map_values(|l: Vec<Ticket>| l@),
        crate::bytemap::pairs(m@.map_values(|l: Vec<Ticket>| l@)) == groups_of(m.entries@),
{
    let f = |l: Vec<Ticket>| l@;
    crate::bytemap::lemma_mapped(m.entries@, f);
    assert(groups_of(m.entries@) =~= m.entries@.map_values(
        |e: ([u8; 16], Vec<Ticket>)| (e.0, f(e.1)),
    ));
    crate::bytemap::lemma_pairs(groups_of(m.entries@));
}

/// The issued tickets one by one.
fn flatten(map: &ByteMap<16, Vec<Ticket>>) -> (r: Vec<([u8; 16], Ticket)>)
    ensures
        r@ == crate::ticket::flat(groups_of(map.entries@)),
{
    let ghost groups = groups_of(map.entries@);
    let mut list: Vec<([u8; 16], Ticket)> = Vec::new();
    assert(groups.take(0) =~= Seq::empty());
    let mut i: usize = 0;
    while i < map.entries.len()
        invariant
            i <= map.entries@.len(),
            groups == groups_of(map.entries@),
            list@ == crate::ticket::flat(groups.take(i as int)),
        decreases map.entries@.len() - i,
    {
        let ghost before = list@;
        let ghost tail = map.entries@[i as int].1@.map_values(
            |t: Ticket| (map.entries@[i as int].0, t),
        );
        let mut j: usize = 0;
        assert(list@ =~= before + tail.take(0));
        while j < map.entries[i as usize].1.len()
            invariant
                i < map.entries@.len(),
                j <= map.entries@[i as int].1@.len(),
                tail == map.entries@[i as int].1@.map_values(
                    |t: Ticket| (map.entries@[i as int].0, t),
                ),
                list@ == before + tail.take(j as int),
            decreases map.entries@[i as int].1@.len() - j,
        {
            list.push((map.entries[i].0, map.entries[i].1[j]));
            assert(list@ =~= before + tail.take(j + 1));
            j = j + 1;
        }
        proof {
            assert(tail.take(j as int) =~= tail);
            let t = groups.take(i + 1);
            assert(t.drop_last() =~= groups.take(i as int));
            assert(t.last() == groups[i as int]);
        }
        i = i + 1;
    }
    assert(groups.take(groups.len() as int) =~= groups);
    list
}

fn encode_tickets(out: &mut Vec<u8>, store: &TicketStore)
    requires
        store.wf(),
        crate::ticket::entries(store@) <= u32::MAX,
    ensures
        final(out)@ == old(out)@ + tickets_bytes(store@),
{
    msgpack::array(out, 3);
    let list = flatten(&store.inbound);
    let ghost rows = list@;
    let ghost one = |e: ([u8; 16], Ticket)| ticket_bytes(e);
    proof {
        lemma_groups(store.inbound);
        assert(rows == crate::ticket::issued(store@));
        crate::bytemap::lemma_len(store.outbound.entries@);
        crate::bytemap::lemma_len(store.last_deliveries.entries@);
    }
    let ghost top = out@;
    msgpack::array(out, list.len());
    let ghost head = out@;
    let mut i: usize = 0;
    assert(out@ =~= head + msgpack::list_bytes(one, rows.take(0)));
    while i < list.len()
        invariant
            i <= rows.len(),
            rows == list@,
            one == (|e: ([u8; 16], Ticket)| ticket_bytes(e)),
            out@ == head + msgpack::list_bytes(one, rows.take(i as int)),
        decreases rows.len() - i,
    {
        let ghost before = out@;
        msgpack::array(out, 3);
        msgpack::bin(out, &list[i].0);
        msgpack::double(out, list[i].1.expires_unix);
        msgpack::bin(out, &list[i].1.secret);
        proof {
            assert(out@ =~= before + ticket_bytes(rows[i as int]));
            lemma_list_push(one, rows, i as int);
            assert(out@ =~= head + msgpack::list_bytes(one, rows.take(i + 1)));
        }
        i = i + 1;
    }
    assert(rows.take(rows.len() as int) =~= rows);
    assert(out@ =~= top + table_bytes(one, rows));
    encode_granted(out, &store.outbound);
    encode_deliveries(out, &store.last_deliveries);
    assert(out@ =~= old(out)@ + tickets_bytes(store@));
}

fn bounded_count(count: usize, limit: usize) -> (r: bool)
    ensures
        r == bounded(count as nat, limit),
{
    count <= limit && count <= 0xffff_ffff
}

fn all_finite<const N: usize>(map: &ByteMap<N, u64>) -> (r: bool)
    requires
        map.wf(),
    ensures
        r == forall|k: [u8; N]| #[trigger] map@.contains_key(k) ==> ieee::finite(map@[k]),
{
    let test = |t: &u64| -> (b: bool)
        ensures b == !ieee::finite(*t), { !ieee::is_finite(*t) };
    match map.first_where(test, Ghost(|t: u64| !ieee::finite(t))) {
        Some(i) => {
            assert(map@.contains_key(map.entries@[i as int].0));
            false
        },
        None => true,
    }
}

fn costs_finite(map: &ByteMap<16, StampCost>) -> (r: bool)
    requires
        map.wf(),
    ensures
        r == forall|k: [u8; 16]| #[trigger] map@.contains_key(k) ==> ieee::finite(map@[k].seen),
{
    let test = |t: &StampCost| -> (b: bool)
        ensures b == !ieee::finite(t.seen), { !ieee::is_finite(t.seen) };
    match map.first_where(test, Ghost(|t: StampCost| !ieee::finite(t.seen))) {
        Some(i) => {
            assert(map@.contains_key(map.entries@[i as int].0));
            false
        },
        None => true,
    }
}

fn granted_finite(map: &ByteMap<16, Ticket>) -> (r: bool)
    requires
        map.wf(),
    ensures
        r == forall|k: [u8; 16]| #[trigger]
            map@.contains_key(k) ==> ieee::finite(map@[k].expires_unix),
{
    let test = |t: &Ticket| -> (b: bool)
        ensures b == !ieee::finite(t.expires_unix), { !ieee::is_finite(t.expires_unix) };
    match map.first_where(test, Ghost(|t: Ticket| !ieee::finite(t.expires_unix))) {
        Some(i) => {
            assert(map@.contains_key(map.entries@[i as int].0));
            false
        },
        None => true,
    }
}

pub open spec fn list_finite(l: Seq<Ticket>) -> bool {
    forall|i: int| 0 <= i < l.len() ==> ieee::finite((#[trigger] l[i]).expires_unix)
}

fn tickets_finite(list: &Vec<Ticket>) -> (r: bool)
    ensures
        r == list_finite(list@),
{
    let mut i: usize = 0;
    while i < list.len()
        invariant
            i <= list@.len(),
            forall|j: int| 0 <= j < i ==> ieee::finite((#[trigger] list@[j]).expires_unix),
        decreases list@.len() - i,
    {
        if !ieee::is_finite(list[i].expires_unix) {
            return false;
        }
        i = i + 1;
    }
    true
}

fn issued_finite(map: &ByteMap<16, Vec<Ticket>>) -> (r: bool)
    requires
        map.wf(),
    ensures
        r == forall|k: [u8; 16]| #[trigger] map@.contains_key(k) ==> list_finite(map@[k]@),
{
    let test = |l: &Vec<Ticket>| -> (b: bool)
        ensures b == !list_finite(l@), { !tickets_finite(l) };
    match map.first_where(test, Ghost(|l: Vec<Ticket>| !list_finite(l@))) {
        Some(i) => {
            assert(map@.contains_key(map.entries@[i as int].0));
            false
        },
        None => true,
    }
}

fn sound_entry(id: &[u8; 32], entry: &OutboundEntry) -> (r: bool)
    ensures
        r == entry_sound(*id, entry@),
{
    same(id, &entry.message.message_id) && ieee::is_finite(entry.message.timestamp) && (
    entry.progress <= 0x3f80_0000 || entry.progress == 0x8000_0000) && fits(
        entry.message.method,
        &entry.propagation,
        &entry.message.destination_hash,
    )
}

fn sound_queue(map: &ByteMap<32, OutboundEntry>) -> (r: bool)
    requires
        map.wf(),
    ensures
        ({
            let m = map@.map_values(|e: OutboundEntry| e@);
            r == forall|id: [u8; 32]| #[trigger] m.contains_key(id) ==> entry_sound(id, m[id])
        }),
{
    let ghost m = map@.map_values(|e: OutboundEntry| e@);
    proof {
        lemma_rows(*map, m);
    }
    let mut i: usize = 0;
    while i < map.entries.len()
        invariant
            i <= map.entries@.len(),
            m == map@.map_values(|e: OutboundEntry| e@),
            forall|j: int|
                0 <= j < map.entries@.len() ==> {
                    let e = #[trigger] map.entries@[j];
                    m.contains_key(e.0) && m[e.0] == e.1@
                },
            forall|j: int|
                0 <= j < i ==> entry_sound(
                    (#[trigger] map.entries@[j]).0,
                    map.entries@[j].1@,
                ),
        decreases map.entries@.len() - i,
    {
        if !sound_entry(&map.entries[i].0, &map.entries[i].1) {
            assert(m.contains_key(map.entries@[i as int].0));
            return false;
        }
        i = i + 1;
    }
    proof {
        assert forall|id: [u8; 32]| #[trigger] m.contains_key(id) implies entry_sound(id, m[id]) by {
            assert(crate::bytemap::has_key(map.entries@, id));
            let j = crate::bytemap::key_index(map.entries@, id);
            assert(map.entries@[j].0 == id);
        }
    }
    true
}

impl Checkpoint {
    /// Checks the limits and that everything kept can be read back.
    fn validate_persistence_limits(&self, config: &RouterConfig) -> (r: Result<(), RouterError>)
        requires
            self.wf(),
        ensures
            r == if !counts_bounded(self@, *config) {
                Err::<(), RouterError>(RouterError::QueueFull)
            } else if !sound(self@) {
                Err(RouterError::CorruptSnapshot)
            } else {
                Ok(())
            },
    {
        proof {
            lemma_rows(self.outbound, self@.outbound);
            crate::bytemap::lemma_len(self.delivered_ids.entries@);
            crate::bytemap::lemma_len(self.processed_ids.entries@);
            crate::bytemap::lemma_len(self.outbound_stamp_costs.entries@);
            crate::bytemap::lemma_len(self.ignored.entries@);
        }
        let tickets: usize = match self.tickets.entry_count() {
            Some(n) => n,
            None => {
                return Err(RouterError::QueueFull);
            },
        };
        if !bounded_count(self.outbound.len(), config.max_outbound) || !bounded_count(
            self.delivered_ids.len(),
            config.max_delivered_ids,
        ) || !bounded_count(self.processed_ids.len(), config.max_processed_ids) || !bounded_count(
            self.outbound_stamp_costs.len(),
            config.max_stamp_costs,
        ) || !bounded_count(self.ignored.len(), config.max_policy_entries) || !bounded_count(
            tickets,
            config.max_tickets,
        ) {
            return Err(RouterError::QueueFull);
        }
        let fine = sound_queue(&self.outbound) && all_finite(&self.delivered_ids) && all_finite(
            &self.processed_ids,
        ) && costs_finite(&self.outbound_stamp_costs) && issued_finite(&self.tickets.inbound)
            && granted_finite(&self.tickets.outbound) && all_finite(&self.tickets.last_deliveries);
        proof {
            let raw = self.tickets.inbound@;
            let t = self@.tickets.inbound;
            assert((forall|k: [u8; 16]| #[trigger] raw.contains_key(k) ==> list_finite(raw[k]@))
                <==> (forall|d: [u8; 16], i: int|
                t.contains_key(d) && 0 <= i < t[d].len() ==> ieee::finite(
                    (#[trigger] t[d][i]).expires_unix,
                ))) by {
                if forall|k: [u8; 16]| #[trigger] raw.contains_key(k) ==> list_finite(raw[k]@) {
                    assert forall|d: [u8; 16], i: int|
                        t.contains_key(d) && 0 <= i < t[d].len() implies ieee::finite(
                        (#[trigger] t[d][i]).expires_unix,
                    ) by {
                        assert(raw.contains_key(d));
                        assert(t[d][i] == raw[d]@[i]);
                    }
                }
                if forall|d: [u8; 16], i: int|
                    t.contains_key(d) && 0 <= i < t[d].len() ==> ieee::finite(
                        (#[trigger] t[d][i]).expires_unix,
                    ) {
                    assert forall|k: [u8; 16]| #[trigger] raw.contains_key(k) implies list_finite(
                        raw[k]@,
                    ) by {
                        assert(t.contains_key(k));
                        assert forall|i: int| 0 <= i < raw[k]@.len() implies ieee::finite(
                            (#[trigger] raw[k]@[i]).expires_unix,
                        ) by {
                            assert(t[k][i] == raw[k]@[i]);
                        }
                    }
                }
            }
        }
        if !fine {
            return Err(RouterError::CorruptSnapshot);
        }
        Ok(())
    }

    /// Appends the tables of a snapshot. The queue gives up where the bytes
    /// exceed `max`.
    fn encode_tables(&self, out: &mut Vec<u8>, max: usize) -> (r: Result<(), RouterError>)
        requires
            self.wf(),
            self.outbound.entries@.len() <= u32::MAX,
            self.delivered_ids.entries@.len() <= u32::MAX,
            self.processed_ids.entries@.len() <= u32::MAX,
            self.outbound_stamp_costs.entries@.len() <= u32::MAX,
            self.ignored.entries@.len() <= u32::MAX,
            crate::ticket::entries(self@.tickets) <= u32::MAX,
        ensures
            ({
                let m = self@.outbound;
                let fit = forall|id: [u8; 32]| #[trigger] m.contains_key(id) ==> entry_fits(m[id]);
                let whole = old(out)@ + tables_bytes(self@);
                match r {
                    Ok(_) => fit && final(out)@ == whole,
                    Err(e) => e == RouterError::QueueFull && (!fit || whole.len() > max),
                }
            }),
    {
        proof {
            reveal(tables_bytes);
        }
        let ghost start = out@;
        encode_outbound(out, &self.outbound, max)?;
        encode_times(out, &self.delivered_ids);
        encode_times(out, &self.processed_ids);
        encode_costs(out, &self.outbound_stamp_costs);
        encode_tickets(out, &self.tickets);
        encode_ignored(out, &self.ignored);
        assert(out@ =~= start + tables_bytes(self@));
        Ok(())
    }

    /// The snapshot of what is kept.
    #[verifier::spinoff_prover]
    #[verifier::rlimit(40)]
    pub fn encode(&self, identity_hash: &[u8; 16], config: &RouterConfig, next_job_ms: u64) -> (r:
        Result<Vec<u8>, RouterError>)
        requires
            self.wf(),
        ensures
            match (r, snapshot_of(*identity_hash, *config, self@, next_job_ms)) {
                (Ok(bytes), Ok(s)) => bytes@ == s,
                (Err(a), Err(b)) => a == b,
                _ => false,
            },
    {
        self.validate_persistence_limits(config)?;
        proof {
            lemma_rows(self.outbound, self@.outbound);
            crate::bytemap::lemma_len(self.delivered_ids.entries@);
            crate::bytemap::lemma_len(self.processed_ids.entries@);
            crate::bytemap::lemma_len(self.outbound_stamp_costs.entries@);
            crate::bytemap::lemma_len(self.ignored.entries@);
        }
        let ghost whole = snapshot_bytes(*identity_hash, self@, next_job_ms);
        let mut out: Vec<u8> = Vec::new();
        msgpack::array(&mut out, SNAPSHOT_FIELDS);
        msgpack::uint(&mut out, SNAPSHOT_VERSION);
        msgpack::bin(&mut out, identity_hash);
        let ghost head = msgpack::array_header(SNAPSHOT_FIELDS as nat) + msgpack::uint_bytes(
            SNAPSHOT_VERSION as nat,
        ) + msgpack::bin_bytes(identity_hash@);
        assert(out@ =~= head);
        self.encode_tables(&mut out, config.max_snapshot_bytes)?;
        msgpack::uint(&mut out, next_job_ms);
        assert(out@ =~= whole);
        if out.len() > config.max_snapshot_bytes {
            return Err(RouterError::QueueFull);
        }
        Ok(out)
    }
}

// ---------------------------------------------------------------------------
// Reading what was written
// ---------------------------------------------------------------------------

/// A message that was created or received: it can be packed, and its
/// identifier is its digest.
pub open spec fn genuine(m: crate::message::Mail) -> bool {
    &&& crate::message::payload_valid(m.payload)
    &&& m.id@ == crate::message::id_of(m.destination@, m.source@, m.payload)
}

/// A queued message as it comes out of a snapshot: due at once, for a fresh
/// attempt.
pub open spec fn resting(q: crate::router::Queued) -> crate::router::Queued {
    crate::router::Queued {
        state: MessageState::Outbound,
        next_attempt_ms: 0,
        progress: RESTING_PROGRESS,
        ..q
    }
}

/// A list whose items are read one by one is read as a whole.
proof fn lemma_list_read<T, U>(
    d: Seq<u8>,
    item: spec_fn(int) -> Result<(U, int), ()>,
    one: spec_fn(T) -> Seq<u8>,
    seen: spec_fn(T) -> U,
    p: int,
    s: Seq<T>,
)
    requires
        msgpack::at(d, p, msgpack::list_bytes(one, s)),
        forall|i: int, q: int|
            0 <= i < s.len() && #[trigger] msgpack::at(d, q, one(s[i])) ==> item(q) == Ok::<
                (U, int),
                (),
            >((seen(s[i]), q + one(s[i]).len())),
    ensures
        msgpack::list_at(item, p, s.len()) == Ok::<(Seq<U>, int), ()>(
            (s.map_values(seen), p + msgpack::list_bytes(one, s).len()),
        ),
    decreases s.len(),
{
    if s.len() > 0 {
        let r = s.drop_last();
        msgpack::lemma_at_concat(d, p, msgpack::list_bytes(one, r), one(s.last()));
        assert forall|i: int, q: int|
            0 <= i < r.len() && #[trigger] msgpack::at(d, q, one(r[i])) implies item(q) == Ok::<
            (U, int),
            (),
        >((seen(r[i]), q + one(r[i]).len())) by {
            assert(r[i] == s[i]);
        }
        lemma_list_read(d, item, one, seen, p, r);
        let q = p + msgpack::list_bytes(one, r).len();
        assert(s.last() == s[s.len() - 1]);
        assert(msgpack::at(d, q, one(s[s.len() - 1])));
        assert(r.map_values(seen).push(seen(s.last())) =~= s.map_values(seen));
    } else {
        assert(s.map_values(seen) =~= Seq::empty());
    }
}

proof fn lemma_rows_read<T, U>(
    d: Seq<u8>,
    item: spec_fn(int) -> Result<(U, int), ()>,
    one: spec_fn(T) -> Seq<u8>,
    seen: spec_fn(T) -> U,
    p: int,
    s: Seq<T>,
    limit: nat,
)
    requires
        msgpack::at(d, p, table_bytes(one, s)),
        s.len() <= limit,
        s.len() <= u32::MAX,
        forall|i: int, q: int|
            0 <= i < s.len() && #[trigger] msgpack::at(d, q, one(s[i])) ==> item(q) == Ok::<
                (U, int),
                (),
            >((seen(s[i]), q + one(s[i]).len())),
    ensures
        rows_at(d, p, limit, item) == Ok::<(Seq<U>, int), ()>(
            (s.map_values(seen), p + table_bytes(one, s).len()),
        ),
{
    let h = msgpack::array_header(s.len());
    msgpack::lemma_at_concat(d, p, h, msgpack::list_bytes(one, s));
    msgpack::law_array_header(d, p, s.len());
    lemma_list_read(d, item, one, seen, p + h.len(), s);
}

/// A sorted table whose rows are read as they are is read as its map.
proof fn lemma_table_read<const N: usize, V>(
    d: Seq<u8>,
    item: spec_fn(int) -> Result<(([u8; N], V), int), ()>,
    one: spec_fn(([u8; N], V)) -> Seq<u8>,
    p: int,
    s: Seq<([u8; N], V)>,
    limit: nat,
)
    requires
        msgpack::at(d, p, table_bytes(one, s)),
        crate::bytemap::ascending(s),
        s.len() <= limit,
        s.len() <= u32::MAX,
        forall|i: int, q: int|
            0 <= i < s.len() && #[trigger] msgpack::at(d, q, one(s[i])) ==> item(q) == Ok::<
                (([u8; N], V), int),
                (),
            >((s[i], q + one(s[i]).len())),
    ensures
        table_at(d, p, limit, item) == Ok::<(Map<[u8; N], V>, int), ()>(
            (crate::bytemap::map_of(s), p + table_bytes(one, s).len()),
        ),
{
    let seen = |e: ([u8; N], V)| e;
    lemma_rows_read(d, item, one, seen, p, s, limit);
    assert(s.map_values(seen) =~= s);
    crate::bytemap::lemma_gathered(s);
}

proof fn lemma_open(d: Seq<u8>, p: int, n: nat)
    requires
        msgpack::at(d, p, msgpack::array_header(n)),
        n <= u32::MAX,
    ensures
        open_at(d, p, n) == Ok::<int, ()>(p + msgpack::array_header(n).len()),
{
    msgpack::law_array_header(d, p, n);
}

proof fn lemma_fixed<const N: usize>(d: Seq<u8>, p: int, a: [u8; N])
    requires
        msgpack::at(d, p, msgpack::bin_bytes(a@)),
        N <= u32::MAX,
    ensures
        fixed_at::<N>(d, p) == Ok::<([u8; N], int), ()>((a, p + msgpack::bin_bytes(a@).len())),
{
    msgpack::law_bin(d, p, a@, 0);
    crate::message::lemma_array(a);
}

proof fn lemma_finite(d: Seq<u8>, p: int, bits: u64)
    requires
        msgpack::at(d, p, msgpack::double_bytes(bits)),
        ieee::finite(bits),
    ensures
        finite_at(d, p) == Ok::<(u64, int), ()>((bits, p + msgpack::double_bytes(bits).len())),
{
    msgpack::law_double(d, p, bits, 0);
}

proof fn lemma_opt_uint(d: Seq<u8>, p: int, v: Option<u8>)
    requires
        msgpack::at(d, p, opt_uint_bytes(v)),
        p >= 0,
    ensures
        opt_uint_at(d, p) == Ok::<(Option<u8>, int), ()>((v, p + opt_uint_bytes(v).len())),
{
    match v {
        Some(n) => {
            msgpack::law_uint(d, p, n as u64);
        },
        None => {
            msgpack::law_nil(d, p, 0);
        },
    }
}

proof fn lemma_opt_stamp(d: Seq<u8>, p: int, v: Option<[u8; STAMP_SIZE]>)
    requires
        msgpack::at(d, p, opt_stamp_bytes(v)),
    ensures
        opt_stamp_at(d, p) == Ok::<(Option<[u8; STAMP_SIZE]>, int), ()>(
            (v, p + opt_stamp_bytes(v).len()),
        ),
{
    match v {
        Some(a) => {
            msgpack::law_bin(d, p, a@, 0);
            lemma_fixed(d, p, a);
        },
        None => {
            msgpack::law_nil(d, p, 0);
        },
    }
}

proof fn lemma_prepared(d: Seq<u8>, p: int, v: Option<crate::router::Prepared>)
    requires
        msgpack::at(d, p, prepared_bytes(v)),
        p >= 0,
        v matches Some(x) ==> ieee::finite(x.timebase) && x.unstamped.len() <= u32::MAX,
    ensures
        prepared_at(d, p, SNAPSHOT_VERSION) == Ok::<(Option<crate::router::Prepared>, int), ()>(
            (v, p + prepared_bytes(v).len()),
        ),
{
    match v {
        Some(x) => {
            let h0 = msgpack::array_header(5);
            let h1 = msgpack::double_bytes(x.timebase);
            let h2 = msgpack::bin_bytes(x.unstamped);
            let h3 = msgpack::bin_bytes(x.transient_id@);
            let h4 = opt_uint_bytes(x.target_cost);
            let h5 = opt_stamp_bytes(x.stamp);
            msgpack::lemma_at_concat(d, p, h0 + h1 + h2 + h3 + h4, h5);
            msgpack::lemma_at_concat(d, p, h0 + h1 + h2 + h3, h4);
            msgpack::lemma_at_concat(d, p, h0 + h1 + h2, h3);
            msgpack::lemma_at_concat(d, p, h0 + h1, h2);
            msgpack::lemma_at_concat(d, p, h0, h1);
            let p0 = p + h0.len();
            let p1 = p0 + h1.len();
            let p2 = p1 + h2.len();
            let p3 = p2 + h3.len();
            let p4 = p3 + h4.len();
            msgpack::law_array_header(d, p, 5);
            lemma_open(d, p, 5);
            lemma_finite(d, p0, x.timebase);
            msgpack::law_bin(d, p1, x.unstamped, 0);
            lemma_fixed(d, p2, x.transient_id);
            lemma_opt_uint(d, p3, x.target_cost);
            lemma_opt_stamp(d, p4, x.stamp);
        },
        None => {
            msgpack::law_nil(d, p, 0);
        },
    }
}

/// A progress from zero to one stays one as a binary64 value.
proof fn lemma_progress(b: u32)
    requires
        unit_progress(b),
    ensures
        0 <= ieee::widened(b) <= u64::MAX,
        ieee::finite(ieee::widened(b) as u64),
        0 <= ieee::order(ieee::widened(b) as u64) <= ieee::order(ONE),
{
    let e = (b as int / 0x80_0000) % 256;
    let f = b as int % 0x80_0000;
    let w = ieee::widened(b);
    ieee::lemma_p2_values();
    if b == 0x8000_0000 {
        assert(e == 0 && f == 0);
        assert(w == ieee::SIGN);
        assert(ieee::exponent(w as u64) == 0);
    } else {
        assert(e <= 127);
        if e == 0 && f > 0 {
            let k = ieee::log2(f as nat);
            ieee::lemma_log2(f as nat);
            ieee::lemma_log2_below(f as nat, 23);
            ieee::lemma_p2_adds(k, (52 - k) as nat);
            ieee::lemma_p2_pos((52 - k) as nat);
            let x = ieee::p2(k) as int;
            let y = ieee::p2((52 - k) as nat) as int;
            assert(0 <= f * y < 2 * (x * y)) by (nonlinear_arith)
                requires
                    0 <= f < 2 * x,
                    y >= 1,
            ;
        }
        assert(0 <= w <= ONE);
        assert(ieee::exponent(w as u64) <= 1023);
    }
}

proof fn lemma_counters(d: Seq<u8>, p: int, q: crate::router::Queued)
    requires
        p >= 0,
        msgpack::at(
            d,
            p,
            msgpack::uint_bytes(q.mail.method.spec_code() as nat) + msgpack::uint_bytes(
                q.state.spec_code() as nat,
            ) + msgpack::uint_bytes(verification_code(q.mail.verification) as nat)
                + msgpack::uint_bytes(q.attempts as nat) + msgpack::uint_bytes(
                q.next_attempt_ms as nat,
            ) + msgpack::double_bytes(ieee::widened(q.progress) as u64),
        ),
        q.mail.method != DeliveryMethod::Paper,
        unit_progress(q.progress),
    ensures
        counters_at(d, p) == Ok::<((DeliveryMethod, Verification, u8), int), ()>(
            (
                (q.mail.method, q.mail.verification, q.attempts),
                p + msgpack::uint_bytes(q.mail.method.spec_code() as nat).len()
                    + msgpack::uint_bytes(q.state.spec_code() as nat).len() + msgpack::uint_bytes(
                    verification_code(q.mail.verification) as nat,
                ).len() + msgpack::uint_bytes(q.attempts as nat).len() + msgpack::uint_bytes(
                    q.next_attempt_ms as nat,
                ).len() + msgpack::double_bytes(ieee::widened(q.progress) as u64).len(),
            ),
        ),
{
    let h0 = msgpack::uint_bytes(q.mail.method.spec_code() as nat);
    let h1 = msgpack::uint_bytes(q.state.spec_code() as nat);
    let h2 = msgpack::uint_bytes(verification_code(q.mail.verification) as nat);
    let h3 = msgpack::uint_bytes(q.attempts as nat);
    let h4 = msgpack::uint_bytes(q.next_attempt_ms as nat);
    let h5 = msgpack::double_bytes(ieee::widened(q.progress) as u64);
    msgpack::lemma_at_concat(d, p, h0 + h1 + h2 + h3 + h4, h5);
    msgpack::lemma_at_concat(d, p, h0 + h1 + h2 + h3, h4);
    msgpack::lemma_at_concat(d, p, h0 + h1 + h2, h3);
    msgpack::lemma_at_concat(d, p, h0 + h1, h2);
    msgpack::lemma_at_concat(d, p, h0, h1);
    let p0 = p + h0.len();
    let p1 = p0 + h1.len();
    let p2 = p1 + h2.len();
    let p3 = p2 + h3.len();
    let p4 = p3 + h4.len();
    msgpack::law_uint(d, p, q.mail.method.spec_code());
    msgpack::law_uint(d, p0, q.state.spec_code());
    msgpack::law_uint(d, p1, verification_code(q.mail.verification));
    msgpack::law_uint(d, p2, q.attempts as u64);
    msgpack::law_uint(d, p3, q.next_attempt_ms);
    lemma_progress(q.progress);
    lemma_finite(d, p4, ieee::widened(q.progress) as u64);
}

proof fn lemma_mail(m: crate::message::Mail)
    requires
        genuine(m),
        crate::message::mail_bytes(m).len() <= u32::MAX,
    ensures
        mail_at(crate::message::mail_bytes(m), m.method, m.verification) == Some(m),
{
    let d = crate::message::mail_bytes(m);
    crate::message::law_payload_round_trip(m.payload);
    reveal(msgpack::double_bytes);
    assert(d.subrange(0, 16) =~= m.destination@);
    assert(d.subrange(16, 32) =~= m.source@);
    assert(d.subrange(32, 96) =~= m.signature@);
    assert(d.subrange(96, d.len() as int) =~= crate::message::payload_bytes(m.payload));
    crate::message::lemma_array(m.destination);
    crate::message::lemma_array(m.source);
    crate::message::lemma_array(m.signature);
    crate::message::lemma_array(m.id);
}

proof fn lemma_entry_read(d: Seq<u8>, p: int, id: [u8; 32], q: crate::router::Queued)
    requires
        p >= 0,
        msgpack::at(d, p, entry_bytes(q)),
        entry_sound(id, q),
        entry_fits(q),
        genuine(q.mail),
    ensures
        entry_at(d, p, SNAPSHOT_VERSION) == Ok::<(([u8; 32], crate::router::Queued), int), ()>(
            ((id, resting(q)), p + entry_bytes(q).len()),
        ),
{
    let packed = crate::message::mail_bytes(q.mail);
    let h0 = msgpack::array_header(8);
    let h1 = msgpack::bin_bytes(packed);
    let c0 = msgpack::uint_bytes(q.mail.method.spec_code() as nat);
    let c1 = msgpack::uint_bytes(q.state.spec_code() as nat);
    let c2 = msgpack::uint_bytes(verification_code(q.mail.verification) as nat);
    let c3 = msgpack::uint_bytes(q.attempts as nat);
    let c4 = msgpack::uint_bytes(q.next_attempt_ms as nat);
    let c5 = msgpack::double_bytes(ieee::widened(q.progress) as u64);
    let h3 = prepared_bytes(q.prepared);
    let mid = c0 + c1 + c2 + c3 + c4 + c5;
    assert(entry_bytes(q) =~= h0 + h1 + mid + h3);
    msgpack::lemma_at_concat(d, p, h0 + h1 + mid, h3);
    msgpack::lemma_at_concat(d, p, h0 + h1, mid);
    msgpack::lemma_at_concat(d, p, h0, h1);
    let p0 = p + h0.len();
    let p1 = p0 + h1.len();
    let p2 = p1 + mid.len();
    lemma_open(d, p, 8);
    msgpack::law_bin(d, p0, packed, 0);
    lemma_counters(d, p1, q);
    lemma_prepared(d, p2, q.prepared);
    lemma_mail(q.mail);
}

proof fn lemma_time_read(d: Seq<u8>, p: int, e: ([u8; 32], u64))
    requires
        msgpack::at(d, p, time_bytes(e)),
        ieee::finite(e.1),
    ensures
        time_at(d, p) == Ok::<(([u8; 32], u64), int), ()>((e, p + time_bytes(e).len())),
{
    let h0 = msgpack::array_header(2);
    let h1 = msgpack::bin_bytes(e.0@);
    let h2 = msgpack::double_bytes(e.1);
    msgpack::lemma_at_concat(d, p, h0 + h1, h2);
    msgpack::lemma_at_concat(d, p, h0, h1);
    lemma_open(d, p, 2);
    lemma_fixed(d, p + h0.len(), e.0);
    lemma_finite(d, p + h0.len() + h1.len(), e.1);
}

proof fn lemma_delivery_read(d: Seq<u8>, p: int, e: ([u8; 16], u64))
    requires
        msgpack::at(d, p, delivery_bytes(e)),
        ieee::finite(e.1),
    ensures
        delivery_at(d, p) == Ok::<(([u8; 16], u64), int), ()>((e, p + delivery_bytes(e).len())),
{
    let h0 = msgpack::array_header(2);
    let h1 = msgpack::bin_bytes(e.0@);
    let h2 = msgpack::double_bytes(e.1);
    msgpack::lemma_at_concat(d, p, h0 + h1, h2);
    msgpack::lemma_at_concat(d, p, h0, h1);
    lemma_open(d, p, 2);
    lemma_fixed(d, p + h0.len(), e.0);
    lemma_finite(d, p + h0.len() + h1.len(), e.1);
}

proof fn lemma_ticket_read(d: Seq<u8>, p: int, e: ([u8; 16], Ticket))
    requires
        msgpack::at(d, p, ticket_bytes(e)),
        ieee::finite(e.1.expires_unix),
    ensures
        ticket_at(d, p) == Ok::<(([u8; 16], Ticket), int), ()>((e, p + ticket_bytes(e).len())),
{
    let h0 = msgpack::array_header(3);
    let h1 = msgpack::bin_bytes(e.0@);
    let h2 = msgpack::double_bytes(e.1.expires_unix);
    let h3 = msgpack::bin_bytes(e.1.secret@);
    msgpack::lemma_at_concat(d, p, h0 + h1 + h2, h3);
    msgpack::lemma_at_concat(d, p, h0 + h1, h2);
    msgpack::lemma_at_concat(d, p, h0, h1);
    lemma_open(d, p, 3);
    lemma_fixed(d, p + h0.len(), e.0);
    lemma_finite(d, p + h0.len() + h1.len(), e.1.expires_unix);
    lemma_fixed(d, p + h0.len() + h1.len() + h2.len(), e.1.secret);
}

proof fn lemma_cost_read(d: Seq<u8>, p: int, e: ([u8; 16], StampCost))
    requires
        p >= 0,
        msgpack::at(d, p, cost_bytes(e)),
        ieee::finite(e.1.seen),
    ensures
        cost_at(d, p) == Ok::<(([u8; 16], StampCost), int), ()>((e, p + cost_bytes(e).len())),
{
    let h0 = msgpack::array_header(4);
    let h1 = msgpack::bin_bytes(e.0@);
    let h2 = msgpack::double_bytes(e.1.seen);
    let h3 = opt_uint_bytes(e.1.cost);
    let h4 = msgpack::bool_bytes(e.1.compression);
    msgpack::lemma_at_concat(d, p, h0 + h1 + h2 + h3, h4);
    msgpack::lemma_at_concat(d, p, h0 + h1 + h2, h3);
    msgpack::lemma_at_concat(d, p, h0 + h1, h2);
    msgpack::lemma_at_concat(d, p, h0, h1);
    let p0 = p + h0.len();
    let p1 = p0 + h1.len();
    let p2 = p1 + h2.len();
    let p3 = p2 + h3.len();
    lemma_open(d, p, 4);
    lemma_fixed(d, p0, e.0);
    lemma_finite(d, p1, e.1.seen);
    lemma_opt_uint(d, p2, e.1.cost);
    msgpack::law_bool(d, p3, e.1.compression, 0);
}

proof fn lemma_times_read(d: Seq<u8>, p: int, m: ByteMap<32, u64>, limit: usize)
    requires
        m.wf(),
        bounded(m@.dom().len(), limit),
        msgpack::at(d, p, times_bytes(m@)),
        forall|k: [u8; 32]| #[trigger] m@.contains_key(k) ==> ieee::finite(m@[k]),
    ensures
        table_at(d, p, limit as nat, times_from(d)) == Ok::<(Map<[u8; 32], u64>, int), ()>(
            (m@, p + times_bytes(m@).len()),
        ),
{
    let s = m.entries@;
    let one = |e: ([u8; 32], u64)| time_bytes(e);
    crate::bytemap::lemma_pairs(s);
    crate::bytemap::lemma_len(s);
    assert forall|i: int, q: int|
        0 <= i < s.len() && #[trigger] msgpack::at(d, q, one(s[i])) implies times_from(d)(q) == Ok::<
        (([u8; 32], u64), int),
        (),
    >((s[i], q + one(s[i]).len())) by {
        crate::bytemap::lemma_entry(s, i);
        lemma_time_read(d, q, s[i]);
    }
    lemma_table_read(d, times_from(d), one, p, s, limit as nat);
}

proof fn lemma_costs_read(d: Seq<u8>, p: int, m: ByteMap<16, StampCost>, limit: usize)
    requires
        p >= 0,
        m.wf(),
        bounded(m@.dom().len(), limit),
        msgpack::at(d, p, costs_bytes(m@)),
        forall|k: [u8; 16]| #[trigger] m@.contains_key(k) ==> ieee::finite(m@[k].seen),
    ensures
        table_at(d, p, limit as nat, costs_from(d)) == Ok::<(Map<[u8; 16], StampCost>, int), ()>(
            (m@, p + costs_bytes(m@).len()),
        ),
{
    let s = m.entries@;
    let one = |e: ([u8; 16], StampCost)| cost_bytes(e);
    crate::bytemap::lemma_pairs(s);
    crate::bytemap::lemma_len(s);
    assert forall|i: int, q: int|
        0 <= i < s.len() && #[trigger] msgpack::at(d, q, one(s[i])) implies costs_from(d)(q) == Ok::<
        (([u8; 16], StampCost), int),
        (),
    >((s[i], q + one(s[i]).len())) by {
        crate::bytemap::lemma_entry(s, i);
        lemma_cost_read(d, q, s[i]);
    }
    lemma_table_read(d, costs_from(d), one, p, s, limit as nat);
}

proof fn lemma_ignored_read(d: Seq<u8>, p: int, m: ByteMap<16, ()>, limit: usize)
    requires
        m.wf(),
        bounded(m@.dom().len(), limit),
        msgpack::at(d, p, ignores_bytes(m@)),
    ensures
        table_at(d, p, limit as nat, ignored_from(d)) == Ok::<(Map<[u8; 16], ()>, int), ()>(
            (m@, p + ignores_bytes(m@).len()),
        ),
{
    let s = m.entries@;
    let one = |e: ([u8; 16], ())| ignored_bytes(e);
    crate::bytemap::lemma_pairs(s);
    crate::bytemap::lemma_len(s);
    assert forall|i: int, q: int|
        0 <= i < s.len() && #[trigger] msgpack::at(d, q, one(s[i])) implies ignored_from(d)(q)
        == Ok::<(([u8; 16], ()), int), ()>((s[i], q + one(s[i]).len())) by {
        lemma_fixed(d, q, s[i].0);
    }
    lemma_table_read(d, ignored_from(d), one, p, s, limit as nat);
}

proof fn lemma_queue_read(
    d: Seq<u8>,
    p: int,
    m: ByteMap<32, OutboundEntry>,
    v: Map<[u8; 32], crate::router::Queued>,
    limit: usize,
)
    requires
        p >= 0,
        m.wf(),
        v == m@.map_values(|e: OutboundEntry| e@),
        bounded(v.dom().len(), limit),
        msgpack::at(d, p, queue_bytes(v)),
        forall|id: [u8; 32]| #[trigger]
            v.contains_key(id) ==> entry_sound(id, v[id]) && entry_fits(v[id]) && genuine(
                v[id].mail,
            ),
    ensures
        table_at(d, p, limit as nat, entries_from(d, SNAPSHOT_VERSION)) == Ok::<
            (Map<[u8; 32], crate::router::Queued>, int),
            (),
        >(
            (
                v.map_values(|q: crate::router::Queued| resting(q)),
                p + queue_bytes(v).len(),
            ),
        ),
{
    let s = rows_of(m.entries@);
    let one = |e: ([u8; 32], crate::router::Queued)| entry_bytes(e.1);
    let rest = |q: crate::router::Queued| resting(q);
    let seen = |e: ([u8; 32], crate::router::Queued)| (e.0, rest(e.1));
    let item = entries_from(d, SNAPSHOT_VERSION);
    let f = |e: OutboundEntry| e@;
    lemma_rows(m, v);
    crate::bytemap::lemma_mapped(m.entries@, f);
    assert(s =~= m.entries@.map_values(|e: ([u8; 32], OutboundEntry)| (e.0, f(e.1))));
    assert forall|i: int, q: int|
        0 <= i < s.len() && #[trigger] msgpack::at(d, q, one(s[i])) implies item(q) == Ok::<
        (([u8; 32], crate::router::Queued), int),
        (),
    >((seen(s[i]), q + one(s[i]).len())) by {
        assert(s[i] == (m.entries@[i].0, m.entries@[i].1@));
        assert(v.contains_key(m.entries@[i].0));
        lemma_entry_read(d, q, s[i].0, s[i].1);
    }
    lemma_rows_read(d, item, one, seen, p, s, limit as nat);
    crate::bytemap::lemma_mapped(s, rest);
    let t = s.map_values(seen);
    assert(t =~= s.map_values(|e: ([u8; 32], crate::router::Queued)| (e.0, rest(e.1))));
    crate::bytemap::lemma_gathered(t);
    assert(v.map_values(rest) =~= crate::bytemap::map_of(t));
}

proof fn lemma_flat_items(groups: Seq<([u8; 16], Seq<Ticket>)>, i: int)
    requires
        0 <= i < crate::ticket::flat(groups).len(),
    ensures
        exists|g: int, j: int|
            0 <= g < groups.len() && 0 <= j < groups[g].1.len() && crate::ticket::flat(groups)[i]
                == (#[trigger] groups[g].0, #[trigger] groups[g].1[j]),
    decreases groups.len(),
{
    let (k, l) = groups.last();
    let t = groups.drop_last();
    let head = crate::ticket::flat(t);
    if i < head.len() {
        lemma_flat_items(t, i);
        let (g, j) = choose|g: int, j: int|
            0 <= g < t.len() && 0 <= j < t[g].1.len() && head[i] == (
                #[trigger] t[g].0,
                #[trigger] t[g].1[j],
            );
        assert(groups[g] == t[g]);
        assert(crate::ticket::flat(groups)[i] == (groups[g].0, groups[g].1[j]));
    } else {
        let g = groups.len() - 1;
        let j = i - head.len();
        assert(crate::ticket::flat(groups)[i] == (groups[g].0, groups[g].1[j]));
    }
}

proof fn lemma_tickets_read(d: Seq<u8>, p: int, t: TicketStore, limit: usize)
    requires
        p >= 0,
        t.wf(),
        bounded(crate::ticket::entries(t@), limit),
        crate::ticket::no_empty_group(t@.inbound),
        msgpack::at(d, p, tickets_bytes(t@)),
        forall|k: [u8; 16], i: int|
            t@.inbound.contains_key(k) && 0 <= i < t@.inbound[k].len() ==> ieee::finite(
                (#[trigger] t@.inbound[k][i]).expires_unix,
            ),
        forall|k: [u8; 16]| #[trigger]
            t@.outbound.contains_key(k) ==> ieee::finite(t@.outbound[k].expires_unix),
        forall|k: [u8; 16]| #[trigger] t@.last.contains_key(k) ==> ieee::finite(t@.last[k]),
    ensures
        tickets_at(d, p, limit as nat) == Ok::<(crate::ticket::Tickets, int), ()>(
            (t@, p + tickets_bytes(t@).len()),
        ),
{
    let groups = groups_of(t.inbound.entries@);
    let rows = crate::ticket::issued(t@);
    let one = |e: ([u8; 16], Ticket)| ticket_bytes(e);
    let del = |e: ([u8; 16], u64)| delivery_bytes(e);
    let granted = t.outbound.entries@;
    let last = t.last_deliveries.entries@;
    lemma_groups(t.inbound);
    crate::bytemap::lemma_pairs(granted);
    crate::bytemap::lemma_len(granted);
    crate::bytemap::lemma_pairs(last);
    crate::bytemap::lemma_len(last);
    let h0 = msgpack::array_header(3);
    let h1 = table_bytes(one, rows);
    let h2 = table_bytes(one, granted);
    let h3 = table_bytes(del, last);
    msgpack::lemma_at_concat(d, p, h0 + h1 + h2, h3);
    msgpack::lemma_at_concat(d, p, h0 + h1, h2);
    msgpack::lemma_at_concat(d, p, h0, h1);
    let p0 = p + h0.len();
    let p1 = p0 + h1.len();
    let p2 = p1 + h2.len();
    lemma_open(d, p, 3);
    let seen = |e: ([u8; 16], Ticket)| e;
    assert forall|i: int, q: int|
        0 <= i < rows.len() && #[trigger] msgpack::at(d, q, one(rows[i])) implies tickets_from(d)(q)
        == Ok::<(([u8; 16], Ticket), int), ()>((seen(rows[i]), q + one(rows[i]).len())) by {
        lemma_flat_items(groups, i);
        let (g, j) = choose|g: int, j: int|
            0 <= g < groups.len() && 0 <= j < groups[g].1.len() && rows[i] == (
                #[trigger] groups[g].0,
                #[trigger] groups[g].1[j],
            );
        crate::bytemap::lemma_entry(groups, g);
        assert(t@.inbound[groups[g].0][j] == rows[i].1);
        lemma_ticket_read(d, q, rows[i]);
    }
    lemma_rows_read(d, tickets_from(d), one, seen, p0, rows, limit as nat);
    assert(rows.map_values(seen) =~= rows);
    assert forall|i: int| 0 <= i < groups.len() implies (#[trigger] groups[i]).1.len() > 0 by {
        crate::bytemap::lemma_entry(groups, i);
    }
    crate::ticket::lemma_regrouped(groups);
    assert forall|i: int, q: int|
        0 <= i < granted.len() && #[trigger] msgpack::at(d, q, one(granted[i])) implies
        tickets_from(d)(q) == Ok::<(([u8; 16], Ticket), int), ()>(
        (granted[i], q + one(granted[i]).len()),
    ) by {
        crate::bytemap::lemma_entry(granted, i);
        lemma_ticket_read(d, q, granted[i]);
    }
    lemma_table_read(d, tickets_from(d), one, p1, granted, (limit - rows.len()) as nat);
    assert forall|i: int, q: int|
        0 <= i < last.len() && #[trigger] msgpack::at(d, q, del(last[i])) implies deliveries_from(
        d,
    )(q) == Ok::<(([u8; 16], u64), int), ()>((last[i], q + del(last[i]).len())) by {
        crate::bytemap::lemma_entry(last, i);
        lemma_delivery_read(d, q, last[i]);
    }
    lemma_table_read(
        d,
        deliveries_from(d),
        del,
        p2,
        last,
        (limit - rows.len() - granted.len()) as nat,
    );
}

proof fn lemma_tables_read(d: Seq<u8>, p: int, c: RouterConfig, k: Checkpoint)
    requires
        p >= 0,
        k.wf(),
        counts_bounded(k@, c),
        sound(k@),
        crate::ticket::no_empty_group(k@.tickets.inbound),
        forall|id: [u8; 32]| #[trigger]
            k@.outbound.contains_key(id) ==> entry_fits(k@.outbound[id]) && genuine(
                k@.outbound[id].mail,
            ),
        msgpack::at(d, p, tables_bytes(k@)),
    ensures
        tables_at(d, p, c, SNAPSHOT_VERSION) == Ok::<(Kept, int), ()>(
            (
                Kept {
                    outbound: k@.outbound.map_values(|q: crate::router::Queued| resting(q)),
                    ..k@
                },
                p + tables_bytes(k@).len(),
            ),
        ),
{
    reveal(tables_bytes);
    reveal(tables_at);
    let h3 = queue_bytes(k@.outbound);
    let h4 = times_bytes(k@.delivered);
    let h5 = times_bytes(k@.processed);
    let h6 = costs_bytes(k@.costs);
    let h7 = tickets_bytes(k@.tickets);
    let h8 = ignores_bytes(k@.ignored);
    msgpack::lemma_at_concat(d, p, h3 + h4 + h5 + h6 + h7, h8);
    msgpack::lemma_at_concat(d, p, h3 + h4 + h5 + h6, h7);
    msgpack::lemma_at_concat(d, p, h3 + h4 + h5, h6);
    msgpack::lemma_at_concat(d, p, h3 + h4, h5);
    msgpack::lemma_at_concat(d, p, h3, h4);
    let p3 = p + h3.len();
    let p4 = p3 + h4.len();
    let p5 = p4 + h5.len();
    let p6 = p5 + h6.len();
    let p7 = p6 + h7.len();
    lemma_queue_read(d, p, k.outbound, k@.outbound, c.max_outbound);
    lemma_times_read(d, p3, k.delivered_ids, c.max_delivered_ids);
    lemma_times_read(d, p4, k.processed_ids, c.max_processed_ids);
    lemma_costs_read(d, p5, k.outbound_stamp_costs, c.max_stamp_costs);
    lemma_tickets_read(d, p6, k.tickets, c.max_tickets);
    lemma_ignored_read(d, p7, k.ignored, c.max_policy_entries);
}

/// The head of a snapshot is read as it was written.
proof fn lemma_head(identity: [u8; 16], k: Kept, next_job_ms: u64)
    requires
        snapshot_bytes(identity, k, next_job_ms).len() <= usize::MAX,
    ensures
        ({
            let d = snapshot_bytes(identity, k, next_job_ms);
            let p0 = msgpack::array_header(SNAPSHOT_FIELDS as nat).len() as int;
            let p1 = p0 + msgpack::uint_bytes(SNAPSHOT_VERSION as nat).len();
            let p2 = p1 + msgpack::bin_bytes(identity@).len();
            let p3 = p2 + tables_bytes(k).len();
            &&& open_at(d, 0, SNAPSHOT_FIELDS as nat) == Ok::<int, ()>(p0)
            &&& msgpack::uint_at(d, p0) == Ok::<(u64, int), msgpack::Error>((SNAPSHOT_VERSION, p1))
            &&& fixed_at::<16>(d, p1) == Ok::<([u8; 16], int), ()>((identity, p2))
            &&& msgpack::at(d, p2, tables_bytes(k))
            &&& msgpack::uint_at(d, p3) == Ok::<(u64, int), msgpack::Error>(
                (next_job_ms, d.len() as int),
            )
        }),
{
    let d = snapshot_bytes(identity, k, next_job_ms);
    let h0 = msgpack::array_header(SNAPSHOT_FIELDS as nat);
    let h1 = msgpack::uint_bytes(SNAPSHOT_VERSION as nat);
    let h2 = msgpack::bin_bytes(identity@);
    let h3 = tables_bytes(k);
    let h4 = msgpack::uint_bytes(next_job_ms as nat);
    msgpack::lemma_at_whole(d);
    msgpack::lemma_at_concat(d, 0, h0 + h1 + h2 + h3, h4);
    msgpack::lemma_at_concat(d, 0, h0 + h1 + h2, h3);
    msgpack::lemma_at_concat(d, 0, h0 + h1, h2);
    msgpack::lemma_at_concat(d, 0, h0, h1);
    let p0 = h0.len() as int;
    let p1 = p0 + h1.len();
    let p3 = p1 + h2.len() + h3.len();
    lemma_open(d, 0, SNAPSHOT_FIELDS as nat);
    msgpack::law_uint(d, p0, SNAPSHOT_VERSION);
    lemma_fixed(d, p1, identity);
    msgpack::law_uint(d, p3, next_job_ms);
}

/// Reading a snapshot gives back all that was kept; a queued message comes
/// back due at once, for a fresh attempt, with its attempts and its prepared
/// propagation.
pub proof fn law_snapshot_round_trip(
    identity: [u8; 16],
    c: RouterConfig,
    k: Checkpoint,
    next_job_ms: u64,
)
    requires
        k.wf(),
        forall|id: [u8; 32]| #[trigger]
            k@.outbound.contains_key(id) ==> genuine(k@.outbound[id].mail),
        crate::ticket::no_empty_group(k@.tickets.inbound),
        snapshot_of(identity, c, k@, next_job_ms) is Ok,
    ensures
        restored_from(snapshot_of(identity, c, k@, next_job_ms)->Ok_0, identity, c) == Ok::<
            Kept,
            (),
        >(
            Kept {
                outbound: k@.outbound.map_values(|q: crate::router::Queued| resting(q)),
                ..k@
            },
        ),
{
    let d = snapshot_bytes(identity, k@, next_job_ms);
    let p2 = msgpack::array_header(SNAPSHOT_FIELDS as nat).len() + msgpack::uint_bytes(
        SNAPSHOT_VERSION as nat,
    ).len() + msgpack::bin_bytes(identity@).len();
    lemma_head(identity, k@, next_job_ms);
    lemma_tables_read(d, p2 as int, c, k);
}

/// A snapshot is restored only for the identity that it was written for.
pub proof fn law_snapshot_is_bound_to_identity(
    identity: [u8; 16],
    other: [u8; 16],
    c: RouterConfig,
    k: Kept,
    next_job_ms: u64,
)
    requires
        identity != other,
        snapshot_bytes(identity, k, next_job_ms).len() <= usize::MAX,
    ensures
        restored_from(snapshot_bytes(identity, k, next_job_ms), other, c) is Err,
{
    lemma_head(identity, k, next_job_ms);
}

// ---------------------------------------------------------------------------
// What is refused
// ---------------------------------------------------------------------------

/// What one reader reads, the other reads too, and stays in place or moves on.
spec fn carries<T>(
    a: spec_fn(int) -> Result<(T, int), ()>,
    b: spec_fn(int) -> Result<(T, int), ()>,
) -> bool {
    forall|p: int|
        0 <= p ==> (#[trigger] a(p) matches Ok((_, q)) ==> b(p) == a(p) && p <= q)
}

proof fn lemma_list_goes_on<T>(
    a: spec_fn(int) -> Result<(T, int), ()>,
    b: spec_fn(int) -> Result<(T, int), ()>,
    p: int,
    n: nat,
)
    requires
        carries(a, b),
        0 <= p,
    ensures
        msgpack::list_at(a, p, n) matches Ok((_, q)) ==> msgpack::list_at(b, p, n)
            == msgpack::list_at(a, p, n) && p <= q,
    decreases n,
{
    if n > 0 {
        lemma_list_goes_on(a, b, p, (n - 1) as nat);
        if let Ok((_, q)) = msgpack::list_at(a, p, (n - 1) as nat) {
            assert(a(q) matches Ok((_, t)) ==> b(q) == a(q) && q <= t);
        }
    }
}

proof fn lemma_rows_go_on<T>(
    d: Seq<u8>,
    e: Seq<u8>,
    p: int,
    limit: nat,
    a: spec_fn(int) -> Result<(T, int), ()>,
    b: spec_fn(int) -> Result<(T, int), ()>,
)
    requires
        d.is_prefix_of(e),
        carries(a, b),
        0 <= p,
    ensures
        rows_at(d, p, limit, a) matches Ok((_, q)) ==> rows_at(e, p, limit, b) == rows_at(
            d,
            p,
            limit,
            a,
        ) && p <= q,
{
    msgpack::law_read_goes_on(d, e, p);
    if let Ok((n, q)) = msgpack::array_len_at(d, p) {
        lemma_list_goes_on(a, b, q, n);
    }
}

proof fn lemma_table_goes_on<K, V>(
    d: Seq<u8>,
    e: Seq<u8>,
    p: int,
    limit: nat,
    a: spec_fn(int) -> Result<((K, V), int), ()>,
    b: spec_fn(int) -> Result<((K, V), int), ()>,
)
    requires
        d.is_prefix_of(e),
        carries(a, b),
        0 <= p,
    ensures
        table_at(d, p, limit, a) matches Ok((_, q)) ==> table_at(e, p, limit, b) == table_at(
            d,
            p,
            limit,
            a,
        ) && p <= q,
{
    lemma_rows_go_on(d, e, p, limit, a, b);
}

proof fn lemma_fields_go_on(d: Seq<u8>, e: Seq<u8>, p: int)
    requires
        d.is_prefix_of(e),
        0 <= p,
    ensures
        forall|n: nat| #[trigger]
            open_at(d, p, n) matches Ok(q) ==> open_at(e, p, n) == open_at(d, p, n) && p <= q,
        fixed_at::<16>(d, p) matches Ok((_, q)) ==> fixed_at::<16>(e, p) == fixed_at::<16>(d, p)
            && p <= q,
        fixed_at::<32>(d, p) matches Ok((_, q)) ==> fixed_at::<32>(e, p) == fixed_at::<32>(d, p)
            && p <= q,
        finite_at(d, p) matches Ok((_, q)) ==> finite_at(e, p) == finite_at(d, p) && p <= q,
        opt_uint_at(d, p) matches Ok((_, q)) ==> opt_uint_at(e, p) == opt_uint_at(d, p) && p <= q,
        opt_stamp_at(d, p) matches Ok((_, q)) ==> opt_stamp_at(e, p) == opt_stamp_at(d, p) && p
            <= q,
{
    msgpack::law_read_goes_on(d, e, p);
}

proof fn lemma_prepared_goes_on(d: Seq<u8>, e: Seq<u8>, p: int, version: u64)
    requires
        d.is_prefix_of(e),
        0 <= p,
    ensures
        prepared_at(d, p, version) matches Ok((_, q)) ==> prepared_at(e, p, version)
            == prepared_at(d, p, version) && p <= q,
{
    msgpack::law_read_goes_on(d, e, p);
    if version >= 4 && some_prepared_at(d, p) is Ok {
        lemma_fields_go_on(d, e, p);
        let p0 = open_at(d, p, 5)->Ok_0;
        lemma_fields_go_on(d, e, p0);
        let p1 = finite_at(d, p0)->Ok_0.1;
        msgpack::law_read_goes_on(d, e, p1);
        let p2 = msgpack::bin_at(d, p1)->Ok_0.1;
        lemma_fields_go_on(d, e, p2);
        let p3 = fixed_at::<32>(d, p2)->Ok_0.1;
        lemma_fields_go_on(d, e, p3);
        let p4 = opt_uint_at(d, p3)->Ok_0.1;
        lemma_fields_go_on(d, e, p4);
    }
}

proof fn lemma_counters_go_on(d: Seq<u8>, e: Seq<u8>, p: int)
    requires
        d.is_prefix_of(e),
        0 <= p,
    ensures
        counters_at(d, p) matches Ok((_, q)) ==> counters_at(e, p) == counters_at(d, p) && p <= q,
{
    if counters_at(d, p) is Ok {
        msgpack::law_read_goes_on(d, e, p);
        let p1 = msgpack::uint_at(d, p)->Ok_0.1;
        msgpack::law_read_goes_on(d, e, p1);
        let p2 = msgpack::uint_at(d, p1)->Ok_0.1;
        msgpack::law_read_goes_on(d, e, p2);
        let p3 = msgpack::uint_at(d, p2)->Ok_0.1;
        msgpack::law_read_goes_on(d, e, p3);
        let p4 = msgpack::uint_at(d, p3)->Ok_0.1;
        msgpack::law_read_goes_on(d, e, p4);
        let p5 = msgpack::uint_at(d, p4)->Ok_0.1;
        lemma_fields_go_on(d, e, p5);
    }
}

proof fn lemma_entries_go_on(d: Seq<u8>, e: Seq<u8>, version: u64)
    requires
        d.is_prefix_of(e),
    ensures
        carries(entries_from(d, version), entries_from(e, version)),
{
    assert forall|p: int| 0 <= p implies (#[trigger] entries_from(d, version)(p) matches Ok((_, q))
        ==> entries_from(e, version)(p) == entries_from(d, version)(p) && p <= q) by {
        if entry_at(d, p, version) is Ok {
            let n: nat = if version >= 4 {
                8
            } else {
                7
            };
            lemma_fields_go_on(d, e, p);
            let p0 = open_at(d, p, n)->Ok_0;
            msgpack::law_read_goes_on(d, e, p0);
            let p1 = msgpack::bin_at(d, p0)->Ok_0.1;
            lemma_counters_go_on(d, e, p1);
            let p2 = counters_at(d, p1)->Ok_0.1;
            lemma_prepared_goes_on(d, e, p2, version);
        }
    }
}

proof fn lemma_items_go_on(d: Seq<u8>, e: Seq<u8>)
    requires
        d.is_prefix_of(e),
    ensures
        carries(times_from(d), times_from(e)),
        carries(costs_from(d), costs_from(e)),
        carries(tickets_from(d), tickets_from(e)),
        carries(deliveries_from(d), deliveries_from(e)),
        carries(ignored_from(d), ignored_from(e)),
{
    assert forall|p: int| 0 <= p implies (#[trigger] times_from(d)(p) matches Ok((_, q))
        ==> times_from(e)(p) == times_from(d)(p) && p <= q) by {
        lemma_fields_go_on(d, e, p);
        if let Ok(p0) = open_at(d, p, 2) {
            lemma_fields_go_on(d, e, p0);
            if let Ok((_, p1)) = fixed_at::<32>(d, p0) {
                lemma_fields_go_on(d, e, p1);
            }
        }
    }
    assert forall|p: int| 0 <= p implies (#[trigger] costs_from(d)(p) matches Ok((_, q))
        ==> costs_from(e)(p) == costs_from(d)(p) && p <= q) by {
        lemma_fields_go_on(d, e, p);
        if cost_at(d, p) is Ok {
            let p0 = open_at(d, p, 4)->Ok_0;
            lemma_fields_go_on(d, e, p0);
            let p1 = fixed_at::<16>(d, p0)->Ok_0.1;
            lemma_fields_go_on(d, e, p1);
            let p2 = finite_at(d, p1)->Ok_0.1;
            lemma_fields_go_on(d, e, p2);
            let p3 = opt_uint_at(d, p2)->Ok_0.1;
            msgpack::law_read_goes_on(d, e, p3);
        }
    }
    assert forall|p: int| 0 <= p implies (#[trigger] tickets_from(d)(p) matches Ok((_, q))
        ==> tickets_from(e)(p) == tickets_from(d)(p) && p <= q) by {
        lemma_fields_go_on(d, e, p);
        if ticket_at(d, p) is Ok {
            let p0 = open_at(d, p, 3)->Ok_0;
            lemma_fields_go_on(d, e, p0);
            let p1 = fixed_at::<16>(d, p0)->Ok_0.1;
            lemma_fields_go_on(d, e, p1);
            let p2 = finite_at(d, p1)->Ok_0.1;
            lemma_fields_go_on(d, e, p2);
        }
    }
    assert forall|p: int| 0 <= p implies (#[trigger] deliveries_from(d)(p) matches Ok((_, q))
        ==> deliveries_from(e)(p) == deliveries_from(d)(p) && p <= q) by {
        lemma_fields_go_on(d, e, p);
        if delivery_at(d, p) is Ok {
            let p0 = open_at(d, p, 2)->Ok_0;
            lemma_fields_go_on(d, e, p0);
            let p1 = fixed_at::<16>(d, p0)->Ok_0.1;
            lemma_fields_go_on(d, e, p1);
        }
    }
    assert forall|p: int| 0 <= p implies (#[trigger] ignored_from(d)(p) matches Ok((_, q))
        ==> ignored_from(e)(p) == ignored_from(d)(p) && p <= q) by {
        lemma_fields_go_on(d, e, p);
    }
}

proof fn lemma_tickets_go_on(d: Seq<u8>, e: Seq<u8>, p: int, limit: nat)
    requires
        d.is_prefix_of(e),
        0 <= p,
    ensures
        tickets_at(d, p, limit) matches Ok((_, q)) ==> tickets_at(e, p, limit) == tickets_at(
            d,
            p,
            limit,
        ) && p <= q,
{
    if tickets_at(d, p, limit) is Ok {
        lemma_items_go_on(d, e);
        lemma_fields_go_on(d, e, p);
        let p0 = open_at(d, p, 3)->Ok_0;
        lemma_rows_go_on(d, e, p0, limit, tickets_from(d), tickets_from(e));
        let (rows, p1) = rows_at(d, p0, limit, tickets_from(d))->Ok_0;
        let left = (limit - rows.len()) as nat;
        lemma_table_goes_on(d, e, p1, left, tickets_from(d), tickets_from(e));
        let (outbound, p2) = table_at(d, p1, left, tickets_from(d))->Ok_0;
        let less = (limit - rows.len() - outbound.dom().len()) as nat;
        lemma_table_goes_on(d, e, p2, less, deliveries_from(d), deliveries_from(e));
    }
}

proof fn lemma_tables_go_on(d: Seq<u8>, e: Seq<u8>, p: int, c: RouterConfig, version: u64)
    requires
        d.is_prefix_of(e),
        0 <= p,
    ensures
        tables_at(d, p, c, version) matches Ok((_, q)) ==> tables_at(e, p, c, version)
            == tables_at(d, p, c, version) && p <= q,
{
    reveal(tables_at);
    if tables_at(d, p, c, version) is Ok {
        lemma_entries_go_on(d, e, version);
        lemma_items_go_on(d, e);
        let (a0, b0) = (entries_from(d, version), entries_from(e, version));
        lemma_table_goes_on(d, e, p, c.max_outbound as nat, a0, b0);
        let p0 = table_at(d, p, c.max_outbound as nat, a0)->Ok_0.1;
        let (a1, b1) = (times_from(d), times_from(e));
        lemma_table_goes_on(d, e, p0, c.max_delivered_ids as nat, a1, b1);
        let p1 = table_at(d, p0, c.max_delivered_ids as nat, a1)->Ok_0.1;
        lemma_table_goes_on(d, e, p1, c.max_processed_ids as nat, a1, b1);
        let p2 = table_at(d, p1, c.max_processed_ids as nat, a1)->Ok_0.1;
        lemma_table_goes_on(d, e, p2, c.max_stamp_costs as nat, costs_from(d), costs_from(e));
        let p3 = table_at(d, p2, c.max_stamp_costs as nat, costs_from(d))->Ok_0.1;
        lemma_tickets_go_on(d, e, p3, c.max_tickets as nat);
        let p4 = tickets_at(d, p3, c.max_tickets as nat)->Ok_0.1;
        lemma_table_goes_on(
            d,
            e,
            p4,
            c.max_policy_entries as nat,
            ignored_from(d),
            ignored_from(e),
        );
    }
}

/// Bytes behind a snapshot spoil it.
pub proof fn law_extended_snapshot_is_refused(
    d: Seq<u8>,
    more: Seq<u8>,
    identity: [u8; 16],
    c: RouterConfig,
)
    requires
        restored_from(d, identity, c) is Ok,
        more.len() > 0,
    ensures
        restored_from(d + more, identity, c) is Err,
{
    let e = d + more;
    assert(d.is_prefix_of(e)) by {
        assert(e.subrange(0, d.len() as int) =~= d);
    }
    lemma_fields_go_on(d, e, 0);
    let p0 = open_at(d, 0, SNAPSHOT_FIELDS as nat)->Ok_0;
    msgpack::law_read_goes_on(d, e, p0);
    let (version, p1) = msgpack::uint_at(d, p0)->Ok_0;
    lemma_fields_go_on(d, e, p1);
    let p2 = fixed_at::<16>(d, p1)->Ok_0.1;
    lemma_tables_go_on(d, e, p2, c, version);
    let p3 = tables_at(d, p2, c, version)->Ok_0.1;
    msgpack::law_read_goes_on(d, e, p3);
}

/// No part of a snapshot is one.
pub proof fn law_truncated_snapshot_is_refused(
    d: Seq<u8>,
    n: int,
    identity: [u8; 16],
    c: RouterConfig,
)
    requires
        restored_from(d, identity, c) is Ok,
        0 <= n < d.len(),
    ensures
        restored_from(d.take(n), identity, c) is Err,
{
    if restored_from(d.take(n), identity, c) is Ok {
        law_extended_snapshot_is_refused(d.take(n), d.skip(n), identity, c);
        assert(d.take(n) + d.skip(n) =~= d);
    }
}

/// A snapshot of one identity is none of another.
pub proof fn law_foreign_snapshot_is_refused(
    d: Seq<u8>,
    identity: [u8; 16],
    other: [u8; 16],
    c: RouterConfig,
)
    requires
        restored_from(d, identity, c) is Ok,
        other != identity,
    ensures
        restored_from(d, other, c) is Err,
{
}

proof fn lemma_table_limit<K, V>(
    d: Seq<u8>,
    p: int,
    limit: nat,
    item: spec_fn(int) -> Result<((K, V), int), ()>,
)
    ensures
        table_at(d, p, limit, item) matches Ok((m, _)) ==> m.dom().len() <= limit,
{
    if let Ok((n, q)) = msgpack::array_len_at(d, p) {
        msgpack::lemma_list_len(item, q, n);
    }
    if let Ok((rows, _)) = rows_at(d, p, limit, item) {
        if crate::bytemap::distinct(rows) {
            crate::bytemap::lemma_gathered_len(rows);
        }
    }
}

/// Nothing that is restored is beyond a configured limit: a snapshot that
/// holds more is refused.
pub proof fn law_oversized_snapshot_is_refused(d: Seq<u8>, identity: [u8; 16], c: RouterConfig)
    ensures
        restored_from(d, identity, c) matches Ok(k) ==> {
            &&& k.outbound.dom().len() <= c.max_outbound
            &&& k.delivered.dom().len() <= c.max_delivered_ids
            &&& k.processed.dom().len() <= c.max_processed_ids
            &&& k.costs.dom().len() <= c.max_stamp_costs
            &&& k.ignored.dom().len() <= c.max_policy_entries
            &&& crate::ticket::entries(k.tickets) <= c.max_tickets
        },
{
    reveal(tables_at);
    if restored_from(d, identity, c) is Ok {
        let p0 = open_at(d, 0, SNAPSHOT_FIELDS as nat)->Ok_0;
        let (version, p1) = msgpack::uint_at(d, p0)->Ok_0;
        let p2 = fixed_at::<16>(d, p1)->Ok_0.1;
        lemma_table_limit(d, p2, c.max_outbound as nat, entries_from(d, version));
        let q0 = table_at(d, p2, c.max_outbound as nat, entries_from(d, version))->Ok_0.1;
        lemma_table_limit(d, q0, c.max_delivered_ids as nat, times_from(d));
        let q1 = table_at(d, q0, c.max_delivered_ids as nat, times_from(d))->Ok_0.1;
        lemma_table_limit(d, q1, c.max_processed_ids as nat, times_from(d));
        let q2 = table_at(d, q1, c.max_processed_ids as nat, times_from(d))->Ok_0.1;
        lemma_table_limit(d, q2, c.max_stamp_costs as nat, costs_from(d));
        let q3 = table_at(d, q2, c.max_stamp_costs as nat, costs_from(d))->Ok_0.1;
        lemma_tickets_limit(d, q3, c.max_tickets as nat);
        let q4 = tickets_at(d, q3, c.max_tickets as nat)->Ok_0.1;
        lemma_table_limit(d, q4, c.max_policy_entries as nat, ignored_from(d));
    }
}

proof fn lemma_tickets_limit(d: Seq<u8>, p: int, limit: nat)
    ensures
        tickets_at(d, p, limit) matches Ok((t, _)) ==> crate::ticket::entries(t) <= limit,
{
    if tickets_at(d, p, limit) is Ok {
        let p0 = open_at(d, p, 3)->Ok_0;
        if let Ok((n, q)) = msgpack::array_len_at(d, p0) {
            msgpack::lemma_list_len(tickets_from(d), q, n);
        }
        let (rows, p1) = rows_at(d, p0, limit, tickets_from(d))->Ok_0;
        let left = (limit - rows.len()) as nat;
        lemma_table_limit(d, p1, left, tickets_from(d));
        let (outbound, p2) = table_at(d, p1, left, tickets_from(d))->Ok_0;
        let less = (limit - rows.len() - outbound.dom().len()) as nat;
        lemma_table_limit(d, p2, less, deliveries_from(d));
        let _ = crate::ticket::lemma_regrouped_len(rows);
    }
}

/// A snapshot that queues one message twice is refused.
pub proof fn law_repeated_message_is_refused(d: Seq<u8>, identity: [u8; 16], c: RouterConfig)
    requires
        ({
            let p0 = open_at(d, 0, SNAPSHOT_FIELDS as nat)->Ok_0;
            let (version, p1) = msgpack::uint_at(d, p0)->Ok_0;
            let p2 = fixed_at::<16>(d, p1)->Ok_0.1;
            let rows = rows_at(d, p2, c.max_outbound as nat, entries_from(d, version));
            rows is Ok && exists|i: int, j: int|
                0 <= i < j < rows->Ok_0.0.len() && (#[trigger] rows->Ok_0.0[i]).0 == (
                #[trigger] rows->Ok_0.0[j]).0
        }),
    ensures
        restored_from(d, identity, c) is Err,
{
    reveal(tables_at);
}

} // verus!
