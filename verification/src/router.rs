//! Long-lived LXMF router.
//!
//! The router queues outbound messages, decides when and how each is tried,
//! applies the inbound policy, and keeps what has to outlive the process in a
//! snapshot. Times of day are binary64 bit patterns of unix seconds; times in
//! milliseconds are those of a monotonic clock.
use vstd::prelude::*;

use crate::announce::DeliveryAnnounce;
use crate::bytemap::{same, to_array, ByteMap};
use crate::constants::{FIELD_TICKET, STAMP_COST_EXPIRY, STAMP_SIZE};
use crate::ieee;
use crate::message::{
    DeliveryMethod, Field, Message, MessageError, SignatureCheck, Verification,
};
use crate::node::{
    DeliveryFailure, DeliveryRepresentation, DirectLinkState, InboundRejection, LxmfNode,
    LxmfNodeError, LxmfNodeEvent, LxmfResourceSendParams, PreparedLxmfSend, SendPlan,
};
use crate::paper::PaperError;
use crate::propagation::PropagationError;
use crate::propagation_client::{
    PreparedUpload, PropagationTransport, PropagationTransportError, UploadSendParams,
};
use crate::snapshot::{decode_snapshot, Checkpoint};
use crate::storage::StorageError;
use crate::ticket::{Ticket, TicketStore};
use crate::transport::{CoreCall, CoreEvent, DestinationHash, Facts, LinkId, ResourceError};

verus! {

pub const MAX_DELIVERY_ATTEMPTS: u8 = 5;

pub const PROCESSING_INTERVAL_MS: u64 = 4_000;

pub const DELIVERY_RETRY_WAIT_MS: u64 = 10_000;

pub const PATH_REQUEST_WAIT_MS: u64 = 7_000;

pub const MAX_PATHLESS_TRIES: u8 = 1;

/// Thirty days.
pub const MESSAGE_EXPIRY_SECS: u64 = 30 * 24 * 60 * 60;

/// Identifiers are remembered for six times the life of a message.
pub const ID_EXPIRY_SECS: u64 = 6 * 30 * 24 * 60 * 60;

/// The single precision pattern of one hundredth, which marks a message that
/// has not been sent.
pub const RESTING_PROGRESS: u32 = 0x3c23_d70a;

#[derive(Debug, Clone, Copy, PartialEq, Eq, Structural)]
pub enum MessageState {
    Generating,
    Outbound,
    Sending,
    Sent,
    Delivered,
    Rejected,
    Cancelled,
    Failed,
}

impl MessageState {
    pub open spec fn spec_code(self) -> u64 {
        match self {
            MessageState::Generating => 0x00,
            MessageState::Outbound => 0x01,
            MessageState::Sending => 0x02,
            MessageState::Sent => 0x04,
            MessageState::Delivered => 0x08,
            MessageState::Rejected => 0xfd,
            MessageState::Cancelled => 0xfe,
            MessageState::Failed => 0xff,
        }
    }

    /// The number that stands for the state in a snapshot.
    pub fn code(self) -> (r: u64)
        ensures
            r == self.spec_code(),
    {
        match self {
            MessageState::Generating => 0x00,
            MessageState::Outbound => 0x01,
            MessageState::Sending => 0x02,
            MessageState::Sent => 0x04,
            MessageState::Delivered => 0x08,
            MessageState::Rejected => 0xfd,
            MessageState::Cancelled => 0xfe,
            MessageState::Failed => 0xff,
        }
    }
}

#[derive(Debug, Clone, Copy, PartialEq, Eq, Structural)]
pub struct RouterConfig {
    pub max_outbound: usize,
    pub max_delivered_ids: usize,
    pub max_processed_ids: usize,
    pub max_stamp_costs: usize,
    pub max_tickets: usize,
    pub max_policy_entries: usize,
    pub max_snapshot_bytes: usize,
    pub enforce_stamps: bool,
    pub inbound_stamp_cost: Option<u8>,
    /// Hand outbound Resource builds to the caller instead of submitting the
    /// message at once. A caller that ignores the builds leaves those messages
    /// queued.
    pub defer_resource_builds: bool,
}

impl Default for RouterConfig {
    fn default() -> (r: Self)
        ensures
            r.max_outbound == 256,
            r.max_delivered_ids == 4096,
            r.max_processed_ids == 4096,
            r.max_stamp_costs == 4096,
            r.max_tickets == 4096,
            r.max_policy_entries == 4096,
            r.max_snapshot_bytes == 32 * 1024 * 1024,
            !r.enforce_stamps,
            r.inbound_stamp_cost is None,
            !r.defer_resource_builds,
    {
        RouterConfig {
            max_outbound: 256,
            max_delivered_ids: 4_096,
            max_processed_ids: 4_096,
            max_stamp_costs: 4_096,
            max_tickets: 4_096,
            max_policy_entries: 4_096,
            max_snapshot_bytes: 33_554_432,
            enforce_stamps: false,
            inbound_stamp_cost: None,
            defer_resource_builds: false,
        }
    }
}

#[derive(Debug, Clone, Copy, PartialEq, Eq, Structural)]
pub enum RouterError {
    QueueFull,
    Duplicate,
    NotFound,
    IdentityMismatch,
    UnsupportedMethod,
    PropagationNodeUnavailable,
    PropagationStampUnavailable,
    StaleStampRequest,
    /// A Resource build no longer matches the queue entry that it was made
    /// from.
    StaleBuild,
    /// The clock is below the plausibility floor: it can only tell the time
    /// since the start, which a peer would discard against its own clock.
    NoWallClock,
    Node(LxmfNodeError),
    Message(MessageError),
    Propagation(PropagationError),
    PropagationTransport(PropagationTransportError),
    Paper(PaperError),
    Storage(StorageError),
    CorruptSnapshot,
}

/// A message encrypted for its recipient, ready for a propagation node.
#[derive(Debug, Clone, PartialEq, Eq)]
pub struct OutboundPropagation {
    /// Time that the upload envelope carries, the same for every retry.
    pub timebase: u64,
    /// Destination hash and encrypted message, without the propagation stamp.
    pub unstamped_lxmf: Vec<u8>,
    /// SHA-256 of `unstamped_lxmf`.
    pub transient_id: [u8; 32],
    /// Full cost advertised by the selected propagation node.
    pub target_cost: Option<u8>,
    /// Proof-of-work stamp for the node. Tickets never replace this.
    pub stamp: Option<[u8; STAMP_SIZE]>,
}

pub ghost struct Prepared {
    pub timebase: u64,
    pub unstamped: Seq<u8>,
    pub transient_id: [u8; 32],
    pub target_cost: Option<u8>,
    pub stamp: Option<[u8; STAMP_SIZE]>,
}

impl View for OutboundPropagation {
    type V = Prepared;

    open spec fn view(&self) -> Prepared {
        Prepared {
            timebase: self.timebase,
            unstamped: self.unstamped_lxmf@,
            transient_id: self.transient_id,
            target_cost: self.target_cost,
            stamp: self.stamp,
        }
    }
}

pub open spec fn prepared_view(p: Option<OutboundPropagation>) -> Option<Prepared> {
    match p {
        Some(p) => Some(p@),
        None => None,
    }
}

/// A message in the queue. Progress is a single precision bit pattern.
#[derive(Debug, Clone, PartialEq, Eq)]
pub struct OutboundEntry {
    pub message: Message,
    pub state: MessageState,
    pub attempts: u8,
    pub next_attempt_ms: u64,
    pub progress: u32,
    /// Kept in the snapshot, so that a message is never encrypted anew after a
    /// stamp has been made for its transient id.
    pub propagation: Option<OutboundPropagation>,
}

pub ghost struct Queued {
    pub mail: crate::message::Mail,
    pub state: MessageState,
    pub attempts: u8,
    pub next_attempt_ms: u64,
    pub progress: u32,
    pub prepared: Option<Prepared>,
}

impl View for OutboundEntry {
    type V = Queued;

    open spec fn view(&self) -> Queued {
        Queued {
            mail: self.message@,
            state: self.state,
            attempts: self.attempts,
            next_attempt_ms: self.next_attempt_ms,
            progress: self.progress,
            prepared: prepared_view(self.propagation),
        }
    }
}

/// What a peer announced about delivery stamps, and when.
#[derive(Debug, Clone, Copy, PartialEq, Eq)]
pub struct StampCost {
    pub seen: u64,
    pub cost: Option<u8>,
    pub compression: bool,
}

/// Work for a propagation-node stamp.
#[derive(Debug, Clone, Copy, PartialEq, Eq)]
pub struct PropagationStampRequest {
    pub message_id: [u8; 32],
    pub transient_id: [u8; 32],
    pub target_cost: u8,
}

/// Work for a recipient's delivery stamp.
#[derive(Debug, Clone, Copy, PartialEq, Eq)]
pub struct DeliveryStampRequest {
    pub message_id: [u8; 32],
    pub target_cost: u8,
}

/// Work for checking the stamp of a message that came in. The message waits in
/// the router for the result.
#[derive(Debug, Clone, Copy, PartialEq, Eq)]
pub struct InboundStampRequest {
    pub message_id: [u8; 32],
    pub stamp: [u8; STAMP_SIZE],
    pub target_cost: u8,
}

/// A Resource that is to be built apart from the router.
#[derive(Debug, Clone, PartialEq, Eq)]
#[must_use]
pub struct PendingResourceBuild {
    pub message_id: [u8; 32],
    pub kind: PendingBuildKind,
}

#[derive(Debug, Clone, PartialEq, Eq)]
pub enum PendingBuildKind {
    /// A direct delivery to the recipient.
    Delivery { params: LxmfResourceSendParams, data: Vec<u8>, auto_compress: bool },
    /// An upload of one message to a propagation node's mailbox.
    Upload { params: UploadSendParams, data: Vec<u8> },
}

pub ghost enum Build {
    Delivery {
        message_id: [u8; 32],
        params: LxmfResourceSendParams,
        data: Seq<u8>,
        auto_compress: bool,
    },
    Upload { message_id: [u8; 32], params: UploadSendParams, data: Seq<u8> },
}

impl View for PendingResourceBuild {
    type V = Build;

    open spec fn view(&self) -> Build {
        match self.kind {
            PendingBuildKind::Delivery { params, data, auto_compress } => Build::Delivery {
                message_id: self.message_id,
                params,
                data: data@,
                auto_compress,
            },
            PendingBuildKind::Upload { params, data } => Build::Upload {
                message_id: self.message_id,
                params,
                data: data@,
            },
        }
    }
}

impl PendingResourceBuild {
    pub fn message_id(&self) -> (r: [u8; 32])
        ensures
            r == self.message_id,
    {
        self.message_id
    }

    /// The transfer; `built` says whether the stack could build one from the
    /// data.
    pub fn build(&self, built: Result<(), ResourceError>) -> (r: Result<BuiltResource, RouterError>)
        ensures
            built_from(self@, built, r),
    {
        match &self.kind {
            PendingBuildKind::Delivery { params, data, .. } => {
                match LxmfNode::prepare_resource_send(params, data.as_slice(), built) {
                    Ok(prepared) => Ok(BuiltResource { kind: BuiltKind::Delivery(prepared) }),
                    Err(e) => Err(RouterError::Node(e)),
                }
            },
            PendingBuildKind::Upload { params, .. } => match params.build(built) {
                Ok(prepared) => Ok(BuiltResource { kind: BuiltKind::Upload(prepared) }),
                Err(e) => Err(RouterError::PropagationTransport(e)),
            },
        }
    }
}

/// A built transfer on its way back to
/// [`LxmfRouter::commit_resource_build`].
#[derive(Debug, Clone, Copy, PartialEq, Eq)]
#[must_use]
pub struct BuiltResource {
    pub kind: BuiltKind,
}

#[derive(Debug, Clone, Copy, PartialEq, Eq)]
pub enum BuiltKind {
    /// A direct delivery to the recipient.
    Delivery(PreparedLxmfSend),
    /// An upload of one message to a propagation node's mailbox.
    Upload(PreparedUpload),
}

#[derive(Debug, Clone, PartialEq, Eq)]
pub enum RouterEvent {
    MessageQueued([u8; 32]),
    MessageState { message_id: [u8; 32], state: MessageState },
    MessageReceived(Box<Message>),
    InboundRejected { method: DeliveryMethod, reason: InboundRejection },
    DirectLinkEstablished {
        destination: Option<DestinationHash>,
        link_id: LinkId,
        is_initiator: bool,
    },
    Duplicate([u8; 32]),
    InvalidSignature([u8; 32]),
    InvalidStamp([u8; 32]),
    /// A Resource build is waiting in [`LxmfRouter::take_resource_builds`].
    ResourceBuildPending([u8; 32]),
    StampPending(DeliveryStampRequest),
    InboundStampPending(InboundStampRequest),
    PropagationStampPending(PropagationStampRequest),
    PersistenceRequested,
}

/// A router event with its message as sequences.
pub ghost enum RouterNote {
    MessageQueued([u8; 32]),
    MessageState { message_id: [u8; 32], state: MessageState },
    MessageReceived(crate::message::Mail),
    InboundRejected { method: DeliveryMethod, reason: InboundRejection },
    DirectLinkEstablished {
        destination: Option<DestinationHash>,
        link_id: LinkId,
        is_initiator: bool,
    },
    Duplicate([u8; 32]),
    InvalidSignature([u8; 32]),
    InvalidStamp([u8; 32]),
    ResourceBuildPending([u8; 32]),
    StampPending(DeliveryStampRequest),
    InboundStampPending(InboundStampRequest),
    PropagationStampPending(PropagationStampRequest),
    PersistenceRequested,
}

impl View for RouterEvent {
    type V = RouterNote;

    open spec fn view(&self) -> RouterNote {
        match *self {
            RouterEvent::MessageQueued(id) => RouterNote::MessageQueued(id),
            RouterEvent::MessageState {
                message_id,
                state,
            } => RouterNote::MessageState { message_id, state },
            RouterEvent::MessageReceived(message) => RouterNote::MessageReceived((*message)@),
            RouterEvent::InboundRejected {
                method,
                reason,
            } => RouterNote::InboundRejected { method, reason },
            RouterEvent::DirectLinkEstablished {
                destination,
                link_id,
                is_initiator,
            } => RouterNote::DirectLinkEstablished { destination, link_id, is_initiator },
            RouterEvent::Duplicate(id) => RouterNote::Duplicate(id),
            RouterEvent::InvalidSignature(id) => RouterNote::InvalidSignature(id),
            RouterEvent::InvalidStamp(id) => RouterNote::InvalidStamp(id),
            RouterEvent::ResourceBuildPending(id) => RouterNote::ResourceBuildPending(id),
            RouterEvent::StampPending(request) => RouterNote::StampPending(request),
            RouterEvent::InboundStampPending(request) => RouterNote::InboundStampPending(request),
            RouterEvent::PropagationStampPending(request) => RouterNote::PropagationStampPending(
                request,
            ),
            RouterEvent::PersistenceRequested => RouterNote::PersistenceRequested,
        }
    }
}

pub open spec fn notes(events: Seq<RouterEvent>) -> Seq<RouterNote> {
    events.map_values(|e: RouterEvent| e@)
}

/// What one operation asks of the host: calls into the stack, a time to call
/// again, and events.
#[derive(Debug, Clone, PartialEq, Eq)]
#[must_use]
pub struct RouterOutput {
    pub calls: Vec<CoreCall>,
    pub next_deadline_ms: Option<u64>,
    pub events: Vec<RouterEvent>,
}

/// The two clocks, read once per operation.
#[derive(Debug, Clone, Copy, PartialEq, Eq)]
pub struct Timing {
    pub now_ms: u64,
    pub now_unix: u64,
}

/// What the host knows about a message that the router is told of.
#[derive(Debug, Clone, PartialEq, Eq)]
pub struct MessageFacts {
    /// The ticket in each ticket field of the message, in order; nothing for a
    /// field that holds none.
    pub tickets: Vec<Option<Ticket>>,
    /// The first ticket has not expired.
    pub ticket_current: bool,
    /// The stamp of the message was made with a ticket issued to its source.
    pub ticket_stamp: bool,
    /// Someone can check proof-of-work stamps.
    pub stamp_worker: bool,
}

/// What the stack knows about the destination of a queued message, and what it
/// answered to the call that the attempt demanded.
#[derive(Debug, Clone, Copy, PartialEq, Eq)]
pub struct AttemptFacts {
    pub core: Facts,
    /// The stack has the direct link to the destination as a live one.
    pub link_active: bool,
    /// The stack took what was handed to it.
    pub taken: bool,
    /// The receipt of a single packet.
    pub packet_hash: [u8; 16],
    /// The hash of a link packet or of a Resource.
    pub hash: [u8; 32],
}

/// What an attempt demands of the stack.
#[derive(Debug, Clone, PartialEq, Eq)]
pub enum AttemptCall {
    Core(CoreCall),
    /// Forget the path that is known and request another.
    RenewPath { destination: DestinationHash },
    /// Capture what a Resource on the link is built from.
    PrepareResource { link_id: LinkId },
    Send(SendPlan),
}

pub ghost enum Demand {
    Core(CoreCall),
    RenewPath { destination: DestinationHash },
    PrepareResource { link_id: LinkId },
    Send(crate::node::Plan),
}

impl View for AttemptCall {
    type V = Demand;

    open spec fn view(&self) -> Demand {
        match *self {
            AttemptCall::Core(call) => Demand::Core(call),
            AttemptCall::RenewPath { destination } => Demand::RenewPath { destination },
            AttemptCall::PrepareResource { link_id } => Demand::PrepareResource { link_id },
            AttemptCall::Send(plan) => Demand::Send(plan@),
        }
    }
}

/// The LXMF router.
#[derive(Debug, Clone)]
pub struct LxmfRouter {
    pub node: LxmfNode,
    pub config: RouterConfig,
    pub identity_hash: [u8; 16],
    /// What the snapshot holds.
    pub kept: Checkpoint,
    pub pending_builds: Vec<PendingResourceBuild>,
    /// Messages whose first path request did not count as an attempt. After a
    /// restart a fresh path is requested.
    pub preemptive_path_requests: ByteMap<32, ()>,
    pub next_job_ms: u64,
    /// What is kept has changed since it was last written.
    pub persistence_dirty: bool,
    /// Messages whose stamp is being checked, and when they came in.
    pub pending_inbound_stamps: Vec<(Message, u64)>,
    pub propagation: Option<PropagationTransport>,
}

/// The router's state as maps and sequences.
pub ghost struct Router {
    pub node: crate::node::Delivery,
    pub config: RouterConfig,
    pub identity: [u8; 16],
    pub kept: crate::snapshot::Kept,
    pub builds: Seq<Build>,
    pub asked: Set<[u8; 32]>,
    pub next_job_ms: u64,
    pub dirty: bool,
    pub waiting: Seq<(crate::message::Mail, u64)>,
    pub propagation: Option<PropagationTransport>,
}

impl View for LxmfRouter {
    type V = Router;

    open spec fn view(&self) -> Router {
        Router {
            node: self.node@,
            config: self.config,
            identity: self.identity_hash,
            kept: self.kept@,
            builds: self.pending_builds@.map_values(|b: PendingResourceBuild| b@),
            asked: self.preemptive_path_requests@.dom(),
            next_job_ms: self.next_job_ms,
            dirty: self.persistence_dirty,
            waiting: self.pending_inbound_stamps@.map_values(|w: (Message, u64)| (w.0@, w.1)),
            propagation: self.propagation,
        }
    }
}

// ---------------------------------------------------------------------------
// Rules
// ---------------------------------------------------------------------------

/// The place of the first of the lowest times.
pub open spec fn oldest(times: Seq<u64>) -> int
    decreases times.len(),
{
    if times.len() <= 1 {
        0
    } else {
        let b = oldest(times.drop_last());
        if ieee::lt(times.last(), times.drop_last()[b]) {
            times.len() - 1
        } else {
            b
        }
    }
}

/// A full map makes room for a new key by dropping the oldest entry.
pub open spec fn roomy<const N: usize, V>(
    m: Map<[u8; N], V>,
    key: [u8; N],
    cap: nat,
    time: spec_fn(V) -> u64,
) -> Map<[u8; N], V> {
    if !m.contains_key(key) && m.dom().len() >= cap && m.dom().len() > 0 {
        let rows = crate::bytemap::pairs(m);
        m.remove(rows[oldest(rows.map_values(|e: ([u8; N], V)| time(e.1)))].0)
    } else {
        m
    }
}

/// Two entries say the same.
pub open spec fn same_cost(a: StampCost, b: StampCost) -> bool {
    ieee::eq(a.seen, b.seen) && a.cost == b.cost && a.compression == b.compression
}

/// The identifiers that were delivered, with one more.
pub open spec fn with_delivered(c: Router, id: [u8; 32], now: u64) -> Router {
    let cap = c.config.max_delivered_ids as nat;
    if cap == 0 {
        c
    } else {
        let m = c.kept.delivered;
        let known = m.contains_key(id) && m[id] == now;
        Router {
            kept: crate::snapshot::Kept {
                delivered: roomy(m, id, cap, |t: u64| t).insert(id, now),
                ..c.kept
            },
            dirty: c.dirty || !known,
            ..c
        }
    }
}

/// The identifiers that were processed, with one more.
pub open spec fn with_processed(c: Router, id: [u8; 32], now: u64) -> Router {
    let cap = c.config.max_processed_ids as nat;
    if cap == 0 {
        c
    } else {
        let m = c.kept.processed;
        let known = m.contains_key(id) && m[id] == now;
        Router {
            kept: crate::snapshot::Kept {
                processed: roomy(m, id, cap, |t: u64| t).insert(id, now),
                ..c.kept
            },
            dirty: c.dirty || !known,
            ..c
        }
    }
}

/// The announced stamp costs, with one more.
pub open spec fn with_cost(c: Router, destination: [u8; 16], entry: StampCost) -> Router {
    let cap = c.config.max_stamp_costs as nat;
    if cap == 0 {
        c
    } else {
        let m = c.kept.costs;
        let known = m.contains_key(destination) && same_cost(m[destination], entry);
        Router {
            kept: crate::snapshot::Kept {
                costs: roomy(m, destination, cap, |e: StampCost| e.seen).insert(destination, entry),
                ..c.kept
            },
            dirty: c.dirty || !known,
            ..c
        }
    }
}

/// The stamp cost that a peer asks for: announced lately enough, and one that
/// a conforming peer announces.
pub open spec fn stamp_cost(c: Router, destination: [u8; 16], now: u64) -> Option<u8> {
    let m = c.kept.costs;
    if m.contains_key(destination) && ieee::within(
        now,
        m[destination].seen,
        STAMP_COST_EXPIRY as nat,
    ) {
        match m[destination].cost {
            Some(cost) => if 0 < cost < 255 {
                Some(cost)
            } else {
                None
            },
            None => None,
        }
    } else {
        None
    }
}

/// How a queued message is represented on the wire.
pub open spec fn shape(mail: crate::message::Mail) -> Result<DeliveryRepresentation, LxmfNodeError> {
    crate::node::represented(mail.method, crate::message::mail_bytes(mail).len())
}

/// A message that goes over a direct link.
pub open spec fn direct(mail: crate::message::Mail) -> bool {
    shape(mail) == Ok::<DeliveryRepresentation, LxmfNodeError>(DeliveryRepresentation::DirectPacket)
        || shape(mail) == Ok::<DeliveryRepresentation, LxmfNodeError>(
        DeliveryRepresentation::DirectResource,
    )
}

/// A message that does not go as a single packet.
pub open spec fn not_single(mail: crate::message::Mail) -> bool {
    shape(mail) != Ok::<DeliveryRepresentation, LxmfNodeError>(
        DeliveryRepresentation::OpportunisticPacket,
    )
}

/// The queue with an entry put in.
pub open spec fn put(c: Router, id: [u8; 32], q: Queued) -> Router {
    Router {
        kept: crate::snapshot::Kept { outbound: c.kept.outbound.insert(id, q), ..c.kept },
        dirty: true,
        ..c
    }
}

/// The queue without an entry, and without its path request.
pub open spec fn dropped(c: Router, id: [u8; 32]) -> Router {
    Router {
        kept: crate::snapshot::Kept { outbound: c.kept.outbound.remove(id), ..c.kept },
        asked: c.asked.remove(id),
        dirty: true,
        ..c
    }
}

pub open spec fn state_note(id: [u8; 32], state: MessageState) -> RouterNote {
    RouterNote::MessageState { message_id: id, state }
}

/// Of several requests to write the snapshot the first stands.
pub open spec fn once(s: Seq<RouterNote>) -> Seq<RouterNote>
    decreases s.len(),
{
    if s.len() == 0 {
        s
    } else {
        let r = once(s.drop_last());
        if s.last() == RouterNote::PersistenceRequested && r.contains(
            RouterNote::PersistenceRequested,
        ) {
            r
        } else {
            r.push(s.last())
        }
    }
}

/// What an operation reports: its notes, with one request to write the
/// snapshot if that is due.
pub open spec fn finished(dirty: bool, s: Seq<RouterNote>) -> Seq<RouterNote> {
    let r = once(s);
    if dirty && !r.contains(RouterNote::PersistenceRequested) {
        r.push(RouterNote::PersistenceRequested)
    } else {
        r
    }
}

/// `t` is the earliest time at which the router or its propagation client has
/// something to do.
pub open spec fn deadline(c: Router, client: Option<u64>, t: u64) -> bool {
    &&& t <= c.next_job_ms
    &&& forall|id: [u8; 32]| #[trigger]
        c.kept.outbound.contains_key(id) ==> t <= c.kept.outbound[id].next_attempt_ms
    &&& client matches Some(d) ==> t <= d
    &&& {
        ||| t == c.next_job_ms
        ||| client == Some(t)
        ||| exists|id: [u8; 32]| #[trigger]
            c.kept.outbound.contains_key(id) && c.kept.outbound[id].next_attempt_ms == t
    }
}

// ---------------------------------------------------------------------------
// Inbound
// ---------------------------------------------------------------------------

pub open spec fn first_ticket(f: MessageFacts) -> Option<Ticket> {
    if f.tickets@.len() > 0 {
        f.tickets@[0]
    } else {
        None
    }
}

/// A reply ticket is taken from any message with a valid signature, before
/// anything else is asked of the message.
pub open spec fn ticket_remembered(
    c: Router,
    mail: crate::message::Mail,
    f: MessageFacts,
) -> Router {
    match first_ticket(f) {
        Some(ticket) => {
            let t = c.kept.tickets;
            let replacing = t.outbound.contains_key(mail.source);
            if mail.verification == Verification::Valid && f.ticket_current && (replacing
                || crate::ticket::entries(t) < c.config.max_tickets) {
                Router {
                    kept: crate::snapshot::Kept {
                        tickets: crate::ticket::Tickets {
                            outbound: t.outbound.insert(mail.source, ticket),
                            ..t
                        },
                        ..c.kept
                    },
                    dirty: c.dirty || !(replacing && crate::ticket::alike(
                        t.outbound[mail.source],
                        ticket,
                    )),
                    ..c
                }
            } else {
                c
            }
        },
        None => c,
    }
}

/// What becomes of a message whose stamp is in order.
pub open spec fn accepted(c: Router, mail: crate::message::Mail, now: u64) -> (
    Router,
    Seq<RouterNote>,
) {
    if c.kept.ignored.contains_key(mail.source) {
        (c, seq![])
    } else if mail.verification == Verification::Invalid {
        (c, seq![RouterNote::InvalidSignature(mail.id)])
    } else if c.kept.delivered.contains_key(mail.id) {
        (c, seq![RouterNote::Duplicate(mail.id)])
    } else {
        (with_delivered(c, mail.id, now), seq![RouterNote::MessageReceived(mail)])
    }
}

/// Stamps are demanded of senders.
pub open spec fn enforcing(config: RouterConfig) -> bool {
    config.enforce_stamps && (config.inbound_stamp_cost matches Some(cost) && cost > 0)
}

/// The stamp of a message has the size of a proof of work.
pub open spec fn pow_sized(mail: crate::message::Mail) -> bool {
    mail.payload.stamp matches Some(s) && s.len() == STAMP_SIZE
}

/// What becomes of a message that came in.
pub open spec fn received(c: Router, mail: crate::message::Mail, now: u64, f: MessageFacts) -> (
    Router,
    Seq<RouterNote>,
) {
    let next = ticket_remembered(c, mail, f);
    if !enforcing(c.config) || mail.verification != Verification::Valid || (mail.payload.stamp
        is Some && f.ticket_stamp) {
        accepted(next, mail, now)
    } else if !f.stamp_worker || !pow_sized(mail) || next.waiting.len() >= c.config.max_outbound {
        (next, seq![RouterNote::InvalidStamp(mail.id)])
    } else {
        (
            Router { waiting: next.waiting.push((mail, now)), ..next },
            seq![
                RouterNote::InboundStampPending(
                    InboundStampRequest {
                        message_id: mail.id,
                        stamp: crate::message::array::<STAMP_SIZE>(mail.payload.stamp->Some_0),
                        target_cost: c.config.inbound_stamp_cost->Some_0,
                    },
                ),
            ],
        )
    }
}

// ---------------------------------------------------------------------------
// Deliveries
// ---------------------------------------------------------------------------

/// A queued direct message to `d` that waits for later.
pub open spec fn sleeping(q: Queued, d: DestinationHash, now_ms: u64) -> bool {
    q.state == MessageState::Outbound && q.mail.destination == d && not_single(q.mail)
        && q.next_attempt_ms > now_ms
}

/// Queued direct messages are due at once when their link comes up.
pub open spec fn woken(c: Router, d: DestinationHash, now_ms: u64) -> Router {
    if exists|id: [u8; 32]| #[trigger]
        c.kept.outbound.contains_key(id) && sleeping(c.kept.outbound[id], d, now_ms) {
        Router {
            kept: crate::snapshot::Kept {
                outbound: c.kept.outbound.map_values(
                    |q: Queued|
                        if sleeping(q, d, now_ms) {
                            Queued { next_attempt_ms: now_ms, ..q }
                        } else {
                            q
                        },
                ),
                ..c.kept
            },
            next_job_ms: if c.next_job_ms > now_ms {
                now_ms
            } else {
                c.next_job_ms
            },
            dirty: true,
            ..c
        }
    } else {
        c
    }
}

/// One of the tickets in a message is among those issued to its destination.
pub open spec fn grants(c: Router, destination: [u8; 16], f: MessageFacts) -> bool {
    exists|i: int|
        0 <= i < f.tickets@.len() && (#[trigger] f.tickets@[i]) is Some
            && crate::ticket::has_issued(
            c.kept.tickets,
            destination,
            f.tickets@[i]->Some_0,
        )
}

/// A message reached its destination.
pub open spec fn delivered(c: Router, id: [u8; 32], now: u64, f: MessageFacts) -> (
    Router,
    Seq<RouterNote>,
) {
    if !c.kept.outbound.contains_key(id) {
        (c, seq![])
    } else {
        let destination = c.kept.outbound[id].mail.destination;
        let gone = dropped(c, id);
        let next = if grants(c, destination, f) {
            Router {
                kept: crate::snapshot::Kept {
                    tickets: crate::ticket::Tickets {
                        last: gone.kept.tickets.last.insert(destination, now),
                        ..gone.kept.tickets
                    },
                    ..gone.kept
                },
                ..gone
            }
        } else {
            gone
        };
        (next, seq![state_note(id, MessageState::Delivered)])
    }
}

/// A message was given up by the stack for now.
pub open spec fn postponed(q: Queued) -> Queued {
    Queued {
        state: MessageState::Outbound,
        next_attempt_ms: crate::node::capped_sum(q.next_attempt_ms, DELIVERY_RETRY_WAIT_MS),
        ..q
    }
}

/// What one report of the delivery adapter makes of the router.
pub open spec fn absorbed(c: Router, note: crate::node::NodeNote, t: Timing, f: MessageFacts) -> (
    Router,
    Seq<RouterNote>,
) {
    match note {
        crate::node::NodeNote::MessageReceived(mail) => received(c, mail, t.now_unix, f),
        crate::node::NodeNote::Delivered { message_id } => delivered(c, message_id, t.now_unix, f),
        crate::node::NodeNote::DeliveryFailed { message_id, reason } => if reason == (
        DeliveryFailure::Resource(ResourceError::Cancelled)) {
            if c.kept.outbound.contains_key(message_id) {
                (dropped(c, message_id), seq![state_note(message_id, MessageState::Rejected)])
            } else {
                (c, seq![])
            }
        } else if c.kept.outbound.contains_key(message_id) {
            let q = c.kept.outbound[message_id];
            let next = put(c, message_id, postponed(q));
            (
                Router { dirty: c.dirty || postponed(q) != q, ..next },
                seq![],
            )
        } else {
            (c, seq![])
        },
        crate::node::NodeNote::DirectLinkEstablished { destination, link_id, is_initiator } => (
            match destination {
                Some(d) => woken(c, d, t.now_ms),
                None => c,
            },
            seq![RouterNote::DirectLinkEstablished { destination, link_id, is_initiator }],
        ),
        crate::node::NodeNote::Submitted { message_id, method, .. } => if method
            == DeliveryMethod::Opportunistic && c.kept.outbound.contains_key(message_id)
            && c.kept.outbound[message_id].state != MessageState::Sent {
            (
                put(
                    c,
                    message_id,
                    Queued { state: MessageState::Sent, ..c.kept.outbound[message_id] },
                ),
                seq![],
            )
        } else {
            (c, seq![])
        },
        crate::node::NodeNote::Progress { message_id, progress } =>
            if c.kept.outbound.contains_key(message_id)
                && c.kept.outbound[message_id].progress != progress {
                (put(c, message_id, Queued { progress, ..c.kept.outbound[message_id] }), seq![])
            } else {
                (c, seq![])
            },
        crate::node::NodeNote::InboundRejected { method, reason } => (
            c,
            seq![RouterNote::InboundRejected { method, reason }],
        ),
        _ => (c, seq![]),
    }
}

/// What several reports make of the router, one after the other.
pub open spec fn absorbed_all(
    c: Router,
    s: Seq<crate::node::NodeNote>,
    t: Timing,
    f: MessageFacts,
) -> (Router, Seq<RouterNote>)
    decreases s.len(),
{
    if s.len() == 0 {
        (c, seq![])
    } else {
        let (mid, out) = absorbed_all(c, s.drop_last(), t, f);
        let (next, more) = absorbed(mid, s.last(), t, f);
        (next, out + more)
    }
}

// ---------------------------------------------------------------------------
// Attempts
// ---------------------------------------------------------------------------

pub open spec fn later(q: Queued, now_ms: u64, wait: u64) -> Queued {
    Queued { next_attempt_ms: crate::node::capped_sum(now_ms, wait), ..q }
}

/// One more attempt is spent.
pub open spec fn tried(q: Queued, now_ms: u64, wait: u64) -> Queued {
    Queued { attempts: (q.attempts + 1) as u8, ..later(q, now_ms, wait) }
}

/// What is to be done for a message that is due.
#[derive(Debug, Clone, Copy, PartialEq, Eq)]
pub enum Verdict {
    /// A direct transfer is under way and owns its attempt.
    Wait,
    /// The attempts are spent.
    Fail,
    /// The recipient asks for a stamp that the message does not have.
    Stamp(u8),
    /// The path is asked for before the first single packet; that is no
    /// attempt.
    FirstPath,
    /// The path is still unknown after a single packet went out without one.
    Path,
    /// Two single packets went out over a known path without a proof: the path
    /// is suspect.
    Renew,
    Submit,
}

pub open spec fn verdict(c: Router, id: [u8; 32], t: Timing, has_path: bool) -> Verdict {
    let q = c.kept.outbound[id];
    if direct(q.mail) && q.state == MessageState::Sending {
        Verdict::Wait
    } else if q.attempts >= MAX_DELIVERY_ATTEMPTS {
        Verdict::Fail
    } else if q.mail.payload.stamp is None && stamp_cost(c, q.mail.destination, t.now_unix)
        is Some {
        Verdict::Stamp(stamp_cost(c, q.mail.destination, t.now_unix)->Some_0)
    } else if not_single(q.mail) {
        Verdict::Submit
    } else if !has_path && q.attempts == 0 && !c.asked.contains(id) {
        Verdict::FirstPath
    } else if !has_path && q.attempts >= MAX_PATHLESS_TRIES {
        Verdict::Path
    } else if has_path && q.attempts == MAX_PATHLESS_TRIES + 1 {
        Verdict::Renew
    } else {
        Verdict::Submit
    }
}

/// The Resources of the router are built by its host.
pub open spec fn deferred(c: Router, mail: crate::message::Mail) -> bool {
    c.config.defer_resource_builds && shape(mail) == Ok::<DeliveryRepresentation, LxmfNodeError>(
        DeliveryRepresentation::DirectResource,
    )
}

/// What is handed to the stack for a message, and the delivery state then.
pub open spec fn handed(c: Router, mail: crate::message::Mail, link_active: bool) -> (
    crate::node::Delivery,
    Result<Demand, LxmfNodeError>,
) {
    if deferred(c, mail) {
        match crate::node::live_link(c.node, mail.destination, link_active) {
            (node, Ok(link_id)) => (node, Ok(Demand::PrepareResource { link_id })),
            (node, Err(e)) => (node, Err(e)),
        }
    } else {
        match crate::node::planned(c.node, mail, link_active) {
            (node, Ok(plan)) => (node, Ok(Demand::Send(plan))),
            (node, Err(e)) => (node, Err(e)),
        }
    }
}

/// The delivery state once the stack took what was handed to it.
pub open spec fn tracked_by(
    node: crate::node::Delivery,
    id: [u8; 32],
    d: Demand,
    f: AttemptFacts,
) -> crate::node::Delivery {
    match d {
        Demand::Send(crate::node::Plan::Packet { .. }) => crate::node::Delivery {
            receipts: node.receipts.insert(f.packet_hash, id),
            ..node
        },
        Demand::Send(crate::node::Plan::LinkPacket { link_id, .. }) => crate::node::Delivery {
            link_receipts: node.link_receipts.insert(
                f.hash,
                crate::node::PendingLinkPacket { message_id: id, link_id },
            ),
            ..node
        },
        Demand::Send(crate::node::Plan::Resource { link_id, data, .. }) =>
            crate::node::resource_submitted(node, link_id, id, f.hash, data.len()),
        _ => node,
    }
}

/// A message that the stack took. A single packet counts as an attempt and is
/// sent; a direct one belongs to the attempt that opened its link.
pub open spec fn submitted(q: Queued, now_ms: u64) -> Queued {
    let after = later(q, now_ms, DELIVERY_RETRY_WAIT_MS);
    if not_single(q.mail) {
        Queued { state: MessageState::Sending, ..after }
    } else {
        Queued {
            state: MessageState::Sent,
            ..tried(q, now_ms, DELIVERY_RETRY_WAIT_MS)
        }
    }
}

/// A message whose direct link is being seen to.
pub open spec fn linking(
    q: Queued,
    r: Result<(DirectLinkState, Seq<crate::node::NodeNote>), LxmfNodeError>,
    now_ms: u64,
) -> Queued {
    match r {
        Ok((DirectLinkState::PathRequested, _)) => tried(q, now_ms, PATH_REQUEST_WAIT_MS),
        Ok((DirectLinkState::Connecting(_), _)) => later(q, now_ms, PROCESSING_INTERVAL_MS),
        Ok((DirectLinkState::Ready(_), _)) => later(q, now_ms, PROCESSING_INTERVAL_MS),
        _ => tried(q, now_ms, DELIVERY_RETRY_WAIT_MS),
    }
}

/// The router, apart from its queue, once a message was handed to the stack.
pub open spec fn lodged(c: Router, id: [u8; 32], mail: crate::message::Mail, f: AttemptFacts) -> (
    Router,
    Seq<RouterNote>,
) {
    match handed(c, mail, f.link_active) {
        (node, Ok(d)) if f.taken => {
            let next = Router { node: tracked_by(node, mail.id, d, f), ..c };
            match d {
                Demand::PrepareResource { link_id } => (
                    Router {
                        builds: c.builds.push(
                            Build::Delivery {
                                message_id: id,
                                params: LxmfResourceSendParams { link_id, message_id: mail.id },
                                data: crate::message::mail_bytes(mail),
                                auto_compress: c.node.config.auto_compress_resources,
                            },
                        ),
                        ..next
                    },
                    seq![RouterNote::ResourceBuildPending(id)],
                ),
                _ => (next, seq![]),
            }
        },
        (node, _) => (Router { node, ..c }, seq![]),
    }
}

/// A message after it was handed to the stack, or could not be, and the
/// delivery state once its link was seen to.
pub open spec fn rescheduled(
    q: Queued,
    node: crate::node::Delivery,
    fault: Option<LxmfNodeError>,
    t: Timing,
    f: AttemptFacts,
) -> (Queued, crate::node::Delivery) {
    match fault {
        None => if f.taken {
            (submitted(q, t.now_ms), node)
        } else {
            (tried(q, t.now_ms, DELIVERY_RETRY_WAIT_MS), node)
        },
        Some(LxmfNodeError::DirectLinkUnavailable) => {
            let (linked, r) = crate::node::ensured(node, q.mail.destination, f.link_active, f.core);
            (linking(q, r, t.now_ms), linked)
        },
        Some(_) => (tried(q, t.now_ms, DELIVERY_RETRY_WAIT_MS), node),
    }
}

/// What handing a message to the stack makes of the router.
pub open spec fn handed_over(c: Router, id: [u8; 32], t: Timing, f: AttemptFacts) -> (
    Router,
    Seq<RouterNote>,
) {
    let q = c.kept.outbound[id];
    let (mid, out) = lodged(c, id, q.mail, f);
    let fault = match handed(c, q.mail, f.link_active).1 {
        Ok(_) => None,
        Err(e) => Some(e),
    };
    let (next, node) = rescheduled(q, mid.node, fault, t, f);
    (put(Router { node, ..mid }, id, next), out)
}

/// What one attempt at a message makes of the router.
pub open spec fn attempted(c: Router, id: [u8; 32], t: Timing, f: AttemptFacts) -> (
    Router,
    Seq<RouterNote>,
) {
    if !c.kept.outbound.contains_key(id) {
        (c, seq![])
    } else {
        let q = c.kept.outbound[id];
        match verdict(c, id, t, f.core.has_path) {
            Verdict::Wait => (put(c, id, later(q, t.now_ms, PROCESSING_INTERVAL_MS)), seq![]),
            Verdict::Fail => (dropped(c, id), seq![state_note(id, MessageState::Failed)]),
            Verdict::Stamp(cost) => (
                put(c, id, later(q, t.now_ms, PROCESSING_INTERVAL_MS)),
                seq![
                    RouterNote::StampPending(
                        DeliveryStampRequest { message_id: id, target_cost: cost },
                    ),
                ],
            ),
            Verdict::FirstPath => (
                put(
                    Router { asked: c.asked.insert(id), ..c },
                    id,
                    later(q, t.now_ms, PATH_REQUEST_WAIT_MS),
                ),
                seq![],
            ),
            Verdict::Path => (put(c, id, tried(q, t.now_ms, PATH_REQUEST_WAIT_MS)), seq![]),
            Verdict::Renew => (put(c, id, tried(q, t.now_ms, PATH_REQUEST_WAIT_MS)), seq![]),
            Verdict::Submit => handed_over(c, id, t, f),
        }
    }
}

/// What an attempt demands of the stack.
pub open spec fn attempt_demand(c: Router, id: [u8; 32], t: Timing, f: AttemptFacts) -> Option<
    Demand,
> {
    if !c.kept.outbound.contains_key(id) {
        None
    } else {
        let mail = c.kept.outbound[id].mail;
        let destination = mail.destination;
        match verdict(c, id, t, f.core.has_path) {
            Verdict::FirstPath | Verdict::Path => Some(
                Demand::Core(CoreCall::RequestPath { destination }),
            ),
            Verdict::Renew => Some(Demand::RenewPath { destination }),
            Verdict::Submit => match handed(c, mail, f.link_active) {
                (_, Ok(d)) => Some(d),
                (node, Err(LxmfNodeError::DirectLinkUnavailable)) =>
                    match crate::node::link_demand(node, destination, f.link_active, f.core) {
                        Some(call) => Some(Demand::Core(call)),
                        None => None,
                    },
                (_, Err(_)) => None,
            },
            _ => None,
        }
    }
}

/// A message that a tick tries.
pub open spec fn is_due(now_ms: u64) -> spec_fn(Queued) -> bool {
    |q: Queued| q.mail.method != DeliveryMethod::Propagated && q.next_attempt_ms <= now_ms
}

/// The router without what has grown too old.
pub open spec fn cleaned(
    c: Router,
    now: u64,
    tickets: Option<crate::ticket::Tickets>,
) -> Router {
    let costs = crate::bytemap::restricted(
        c.kept.costs,
        |k: [u8; 16], e: StampCost| ieee::within(now, e.seen, STAMP_COST_EXPIRY as nat),
    );
    let fresh = |k: [u8; 32], seen: u64| ieee::within(now, seen, ID_EXPIRY_SECS as nat);
    let delivered = crate::bytemap::restricted(c.kept.delivered, fresh);
    let processed = crate::bytemap::restricted(c.kept.processed, fresh);
    Router {
        kept: crate::snapshot::Kept {
            costs,
            delivered,
            processed,
            tickets: match tickets {
                Some(t) => t,
                None => c.kept.tickets,
            },
            ..c.kept
        },
        dirty: c.dirty || costs != c.kept.costs || delivered != c.kept.delivered || processed
            != c.kept.processed || tickets is Some,
        ..c
    }
}

// ---------------------------------------------------------------------------
// The router
// ---------------------------------------------------------------------------

fn none() -> (r: Vec<RouterEvent>)
    ensures
        notes(r@) == Seq::<RouterNote>::empty(),
{
    let v: Vec<RouterEvent> = Vec::new();
    assert(notes(v@) =~= Seq::<RouterNote>::empty());
    v
}

fn one(event: RouterEvent) -> (r: Vec<RouterEvent>)
    ensures
        notes(r@) == seq![event@],
{
    let mut v: Vec<RouterEvent> = Vec::new();
    v.push(event);
    assert(notes(v@) =~= seq![event@]);
    v
}

/// The place of the first of the lowest times.
fn oldest_of<const N: usize, V, F: Fn(&V) -> u64>(
    map: &ByteMap<N, V>,
    time: F,
    Ghost(t): Ghost<spec_fn(V) -> u64>,
) -> (r: usize)
    requires
        map.entries@.len() > 0,
        forall|v: &V| call_requires(time, (v,)),
        forall|v: &V, x: u64| #[trigger] call_ensures(time, (v,), x) ==> x == t(*v),
    ensures
        r < map.entries@.len(),
        r == oldest(map.entries@.map_values(|e: ([u8; N], V)| t(e.1))),
{
    let ghost times = map.entries@.map_values(|e: ([u8; N], V)| t(e.1));
    let mut best: usize = 0;
    let mut i: usize = 1;
    let mut low: u64 = time(&map.entries[0].1);
    assert(oldest(times.take(1)) == 0);
    while i < map.entries.len()
        invariant
            1 <= i <= map.entries@.len(),
            times == map.entries@.map_values(|e: ([u8; N], V)| t(e.1)),
            forall|v: &V| call_requires(time, (v,)),
            forall|v: &V, x: u64| #[trigger] call_ensures(time, (v,), x) ==> x == t(*v),
            best < i,
            best == oldest(times.take(i as int)),
            low == times[best as int],
        decreases map.entries@.len() - i,
    {
        let at: u64 = time(&map.entries[i].1);
        proof {
            let more = times.take(i + 1);
            assert(more.drop_last() =~= times.take(i as int));
            assert(more.last() == at);
            assert(times.take(i as int)[best as int] == low);
        }
        if ieee::less(at, low) {
            best = i;
            low = at;
        }
        i = i + 1;
    }
    assert(times.take(times.len() as int) =~= times);
    best
}

/// Inserts into a map of bounded size; a full map drops its oldest entry for a
/// new key. Tells whether it did, and what the key had before.
fn insert_bounded<const N: usize, V, F: Fn(&V) -> u64>(
    map: &mut ByteMap<N, V>,
    key: [u8; N],
    value: V,
    cap: usize,
    time: F,
    Ghost(t): Ghost<spec_fn(V) -> u64>,
) -> (r: Option<V>)
    requires
        old(map).wf(),
        forall|v: &V| call_requires(time, (v,)),
        forall|v: &V, x: u64| #[trigger] call_ensures(time, (v,), x) ==> x == t(*v),
    ensures
        final(map).wf(),
        final(map)@ == roomy(old(map)@, key, cap as nat, t).insert(key, value),
        match r {
            Some(v) => old(map)@.contains_key(key) && v == old(map)@[key],
            None => !old(map)@.contains_key(key),
        },
{
    proof {
        crate::bytemap::lemma_len(map.entries@);
        crate::bytemap::lemma_pairs(map.entries@);
    }
    if !map.contains(&key) && map.len() >= cap && map.len() > 0 {
        let i: usize = oldest_of(map, time, Ghost(t));
        let _ = map.remove_at(i);
    }
    map.insert(key, value)
}

impl LxmfRouter {
    pub open spec fn wf(&self) -> bool {
        &&& self.node.wf()
        &&& self.kept.wf()
        &&& self.preemptive_path_requests.wf()
        &&& self.propagation matches Some(p) ==> p.wf()
    }

    pub fn new(node: LxmfNode, identity_hash: [u8; 16], config: RouterConfig) -> (r: LxmfRouter)
        requires
            node.wf(),
        ensures
            r.wf(),
            r@ == (Router {
                node: node@,
                config,
                identity: identity_hash,
                kept: crate::snapshot::nothing_kept(),
                builds: Seq::empty(),
                asked: Set::empty(),
                next_job_ms: 0,
                dirty: false,
                waiting: Seq::empty(),
                propagation: None,
            }),
    {
        let r = LxmfRouter {
            node,
            config,
            identity_hash,
            kept: Checkpoint::default(),
            pending_builds: Vec::new(),
            preemptive_path_requests: ByteMap::new(),
            next_job_ms: 0,
            persistence_dirty: false,
            pending_inbound_stamps: Vec::new(),
            propagation: None,
        };
        assert(r@.builds =~= Seq::empty());
        assert(r@.asked =~= Set::empty());
        assert(r@.waiting =~= Seq::empty());
        r
    }

    /// Attaches the propagation-mailbox client, which must act for the same
    /// identity.
    pub fn enable_propagation_client(&mut self, transport: PropagationTransport) -> (r: Result<
        (),
        RouterError,
    >)
        requires
            old(self).wf(),
            transport.wf(),
        ensures
            final(self).wf(),
            enabling(old(self)@, final(self)@, transport, r),
    {
        if !same(&transport.identity_hash, &self.identity_hash) {
            return Err(RouterError::IdentityMismatch);
        }
        self.propagation = Some(transport);
        Ok(())
    }

    pub fn disable_propagation_client(&mut self) -> (r: Option<PropagationTransport>)
        requires
            old(self).wf(),
        ensures
            final(self).wf(),
            r == old(self)@.propagation,
            final(self)@ == (Router { propagation: None, ..old(self)@ }),
    {
        self.propagation.take()
    }

    pub fn node(&self) -> (r: &LxmfNode)
        ensures
            *r == self.node,
    {
        &self.node
    }

    pub fn node_mut(&mut self) -> (r: &mut LxmfNode)
        requires
            old(self).wf(),
        ensures
            *r == old(self).node,
            final(self).node == *final(r),
            final(self)@ == (Router { node: final(r)@, ..old(self)@ }),
            final(r).wf() ==> final(self).wf(),
    {
        &mut self.node
    }

    /// Whether the router opened or carries the link.
    pub fn owns_link(&self, link_id: &LinkId) -> (r: bool)
        requires
            self.wf(),
        ensures
            r == (self@.node.owned.contains(*link_id) || (self@.propagation matches Some(p)
                && p@.links.contains_key(*link_id))),
    {
        if self.node.owns_link(link_id) {
            return true;
        }
        match &self.propagation {
            Some(p) => p.owns_link(link_id),
            None => false,
        }
    }

    pub fn tickets(&self) -> (r: &TicketStore)
        ensures
            *r == self.kept.tickets,
    {
        &self.kept.tickets
    }

    /// The tickets, to be changed; the snapshot is then due.
    pub fn tickets_mut(&mut self) -> (r: &mut TicketStore)
        requires
            old(self).wf(),
        ensures
            *r == old(self).kept.tickets,
            final(self)@ == (Router {
                kept: crate::snapshot::Kept { tickets: final(r)@, ..old(self)@.kept },
                dirty: true,
                ..old(self)@
            }),
            final(r).wf() ==> final(self).wf(),
    {
        self.persistence_dirty = true;
        &mut self.kept.tickets
    }

    pub fn outbound(&self) -> (r: &ByteMap<32, OutboundEntry>)
        ensures
            *r == self.kept.outbound,
    {
        &self.kept.outbound
    }

    /// Whether a message with this clear or transient id was delivered before.
    pub fn has_message(&self, message_id: &[u8; 32]) -> (r: bool)
        requires
            self.wf(),
        ensures
            r == self@.kept.delivered.contains_key(*message_id),
    {
        self.kept.delivered_ids.contains(message_id)
    }

    /// Ignores a source from now on, if the policy has room for it.
    pub fn ignore(&mut self, source: [u8; 16])
        requires
            old(self).wf(),
        ensures
            final(self).wf(),
            ignoring(old(self)@, final(self)@, source),
    {
        proof {
            crate::bytemap::lemma_len(self.kept.ignored.entries@);
        }
        if !self.kept.ignored.contains(&source) && self.kept.ignored.len()
            < self.config.max_policy_entries {
            let _ = self.kept.ignored.insert(source, ());
            self.persistence_dirty = true;
        }
    }

    pub fn unignore(&mut self, source: &[u8; 16])
        requires
            old(self).wf(),
        ensures
            final(self).wf(),
            unignoring(old(self)@, final(self)@, *source),
    {
        if self.kept.ignored.remove(source).is_some() {
            self.persistence_dirty = true;
        }
    }

    /// Replaces the whole ignore policy in one step.
    pub fn replace_ignored(&mut self, ignored: ByteMap<16, ()>) -> (r: Result<
        RouterOutput,
        RouterError,
    >)
        requires
            old(self).wf(),
            ignored.wf(),
        ensures
            final(self).wf(),
            ignoring_only(old(self)@, final(self)@, ignored@, r),
    {
        proof {
            crate::bytemap::lemma_len(ignored.entries@);
        }
        if ignored.len() > self.config.max_policy_entries {
            return Err(RouterError::QueueFull);
        }
        if !same_peers(&self.kept.ignored, &ignored) {
            self.kept.ignored = ignored;
            self.persistence_dirty = true;
        }
        Ok(self.finish_output(none()))
    }

    /// Ends an operation: all that made the snapshot due in it, and in any
    /// operation before, comes to one request.
    pub fn finish_output(&self, events: Vec<RouterEvent>) -> (r: RouterOutput)
        ensures
            plain(r, self@, notes(events@)),
    {
        let mut events = events;
        let ghost whole = notes(events@);
        let mut kept: Vec<RouterEvent> = Vec::new();
        let mut asked: bool = false;
        let ghost mut done: Seq<RouterNote> = Seq::empty();
        assert(notes(kept@) =~= Seq::<RouterNote>::empty());
        while events.len() > 0
            invariant
                done + notes(events@) == whole,
                notes(kept@) == once(done),
                asked == once(done).contains(RouterNote::PersistenceRequested),
            decreases events@.len(),
        {
            let ghost before = events@;
            let event = events.remove(0);
            let ghost had = kept@;
            proof {
                assert(notes(before) =~= seq![event@] + notes(events@));
                let more = done.push(event@);
                assert(more + notes(events@) =~= done + notes(before));
                assert(more.drop_last() =~= done);
                assert(more.last() == event@);
                done = more;
            }
            let request = match &event {
                RouterEvent::PersistenceRequested => true,
                _ => false,
            };
            if !(request && asked) {
                kept.push(event);
                proof {
                    assert(notes(kept@) =~= notes(had).push(event@));
                    let r = notes(had);
                    assert(r.push(event@).contains(RouterNote::PersistenceRequested) == (
                    r.contains(RouterNote::PersistenceRequested) || event@
                        == RouterNote::PersistenceRequested)) by {
                        lemma_push_contains(r, event@, RouterNote::PersistenceRequested);
                    }
                }
                asked = asked || request;
            }
        }
        assert(done =~= whole);
        if self.persistence_dirty && !asked {
            let ghost had = kept@;
            kept.push(RouterEvent::PersistenceRequested);
            assert(notes(kept@) =~= notes(had).push(RouterNote::PersistenceRequested));
        }
        RouterOutput { calls: Vec::new(), next_deadline_ms: None, events: kept }
    }
}

proof fn lemma_push_contains<T>(s: Seq<T>, v: T, w: T)
    ensures
        s.push(v).contains(w) == (s.contains(w) || v == w),
{
    let t = s.push(v);
    if s.contains(w) {
        let i = choose|i: int| 0 <= i < s.len() && s[i] == w;
        assert(t[i] == w);
    }
    if v == w {
        assert(t[s.len() as int] == w);
    }
    if t.contains(w) {
        let i = choose|i: int| 0 <= i < t.len() && t[i] == w;
        if i < s.len() {
            assert(s[i] == w);
        }
    }
}

/// An output that holds these notes, and nothing else.
pub open spec fn plain(r: RouterOutput, c: Router, s: Seq<RouterNote>) -> bool {
    &&& r.calls@.len() == 0
    &&& r.next_deadline_ms is None
    &&& notes(r.events@) == finished(c.dirty, s)
}

/// Two sets of peers are the same.
fn same_peers(a: &ByteMap<16, ()>, b: &ByteMap<16, ()>) -> (r: bool)
    requires
        a.wf(),
        b.wf(),
    ensures
        r == (a@ == b@),
{
    proof {
        crate::bytemap::lemma_pairs(a.entries@);
        crate::bytemap::lemma_pairs(b.entries@);
    }
    if a.len() != b.len() {
        return false;
    }
    let mut i: usize = 0;
    while i < a.entries.len()
        invariant
            i <= a.entries@.len() == b.entries@.len(),
            a@ == b@ ==> a.entries@ == b.entries@,
            forall|j: int| 0 <= j < i ==> a.entries@[j] == b.entries@[j],
        decreases a.entries@.len() - i,
    {
        if !same(&a.entries[i].0, &b.entries[i].0) {
            return false;
        }
        i = i + 1;
    }
    assert(a.entries@ =~= b.entries@);
    true
}

// ---------------------------------------------------------------------------
// The queue
// ---------------------------------------------------------------------------

pub open spec fn with_queue(c: Router, outbound: Map<[u8; 32], Queued>) -> Router {
    Router { kept: crate::snapshot::Kept { outbound, ..c.kept }, ..c }
}

/// Why a message is not queued.
pub open spec fn queue_fault(
    c: Router,
    mail: crate::message::Mail,
    node_selected: bool,
    reply_stamp: Option<Seq<u8>>,
) -> Option<RouterError> {
    if mail.method == DeliveryMethod::Paper {
        Some(RouterError::UnsupportedMethod)
    } else if mail.method == DeliveryMethod::Propagated && !node_selected {
        Some(RouterError::PropagationNodeUnavailable)
    } else if c.kept.outbound.contains_key(mail.id) {
        Some(RouterError::Duplicate)
    } else if c.kept.outbound.dom().len() >= c.config.max_outbound {
        Some(RouterError::QueueFull)
    } else {
        match reply_stamp {
            Some(s) => if s.len() == 16 || s.len() == 32 {
                None
            } else {
                Some(RouterError::Message(MessageError::InvalidFormat))
            },
            None => None,
        }
    }
}

/// A message with another stamp.
pub open spec fn stamped(mail: crate::message::Mail, stamp: Seq<u8>) -> crate::message::Mail {
    crate::message::Mail {
        payload: crate::message::Payload { stamp: Some(stamp), ..mail.payload },
        ..mail
    }
}

/// A message as it enters the queue.
pub open spec fn fresh(mail: crate::message::Mail, now_ms: u64) -> Queued {
    Queued {
        mail,
        state: MessageState::Outbound,
        attempts: 0,
        next_attempt_ms: now_ms,
        progress: RESTING_PROGRESS,
        prepared: None,
    }
}

pub open spec fn bytes_view(v: Option<Vec<u8>>) -> Option<Seq<u8>> {
    match v {
        Some(b) => Some(b@),
        None => None,
    }
}

/// A queued message with a new delivery stamp, due at once. The stamp is
/// inside what was encrypted for a propagation node, so that has to be done
/// anew.
pub open spec fn restamped(q: Queued, stamp: Seq<u8>, now_ms: u64) -> Queued {
    Queued {
        mail: stamped(q.mail, stamp),
        next_attempt_ms: now_ms,
        prepared: if q.mail.method == DeliveryMethod::Propagated {
            None
        } else {
            q.prepared
        },
        ..q
    }
}

/// An entry was changed and is due at once.
pub open spec fn roused(c: Router, id: [u8; 32], q: Queued, now_ms: u64) -> Router {
    Router {
        next_job_ms: if now_ms < c.next_job_ms {
            now_ms
        } else {
            c.next_job_ms
        },
        ..put(c, id, q)
    }
}

/// An output with these notes and the next deadline.
pub open spec fn timed(
    r: RouterOutput,
    c: Router,
    s: Seq<RouterNote>,
    client: Option<u64>,
) -> bool {
    &&& r.calls@.len() == 0
    &&& r.next_deadline_ms matches Some(d) && deadline(c, client, d)
    &&& notes(r.events@) == finished(c.dirty, s)
}

impl LxmfRouter {
    fn take_entry(&mut self, id: &[u8; 32]) -> (r: Option<OutboundEntry>)
        requires
            old(self).wf(),
        ensures
            final(self).wf(),
            match r {
                Some(e) => {
                    &&& old(self)@.kept.outbound.contains_key(*id)
                    &&& e@ == old(self)@.kept.outbound[*id]
                    &&& final(self)@ == with_queue(
                        old(self)@,
                        old(self)@.kept.outbound.remove(*id),
                    )
                },
                None => !old(self)@.kept.outbound.contains_key(*id) && final(self)@ == old(self)@,
            },
    {
        let r = self.kept.outbound.remove(id);
        assert(self@.kept.outbound =~= old(self)@.kept.outbound.remove(*id));
        if r.is_none() {
            assert(old(self)@.kept.outbound.remove(*id) =~= old(self)@.kept.outbound);
        }
        r
    }

    fn put_entry(&mut self, id: [u8; 32], entry: OutboundEntry)
        requires
            old(self).wf(),
        ensures
            final(self).wf(),
            final(self)@ == with_queue(
                old(self)@,
                old(self)@.kept.outbound.insert(id, entry@),
            ),
    {
        let _ = self.kept.outbound.insert(id, entry);
        assert(self@.kept.outbound =~= old(self)@.kept.outbound.insert(id, entry@));
    }

    /// The source, the clock and the fields of an outbound message are the
    /// router's and the caller's; the identity behind the local destination
    /// signs what [`Message::signing_request`] gives for them, if it is at
    /// hand.
    pub fn create_message(
        &self,
        has_identity: bool,
        signature: Option<[u8; 64]>,
        destination_hash: [u8; 16],
        now_unix: u64,
        title: Vec<u8>,
        content: Vec<u8>,
        fields: Vec<Field>,
        method: DeliveryMethod,
    ) -> (r: Result<Message, RouterError>)
        ensures
            composed(
                self@.node.home,
                has_identity,
                signature,
                destination_hash,
                now_unix,
                title,
                content,
                fields,
                method,
                r,
            ),
    {
        if !has_identity {
            return Err(RouterError::NotFound);
        }
        let r = Message::create(
            destination_hash,
            self.node.delivery_destination_hash(),
            signature,
            now_unix,
            title,
            content,
            fields,
            method,
        );
        match r {
            Ok(m) => Ok(m),
            Err(e) => Err(RouterError::Message(e)),
        }
    }

    /// Queues a message. `node_selected` tells whether a propagation node is
    /// selected; `reply_stamp` is the stamp that a ticket of the destination
    /// gives the message, if there is one.
    pub fn enqueue(
        &mut self,
        message: Message,
        now_ms: u64,
        node_selected: bool,
        reply_stamp: Option<Vec<u8>>,
    ) -> (r: Result<RouterOutput, RouterError>)
        requires
            old(self).wf(),
        ensures
            final(self).wf(),
            queueing(
                old(self)@,
                final(self)@,
                message@,
                now_ms,
                node_selected,
                bytes_view(reply_stamp),
                r,
            ),
    {
        let mut message = message;
        if message.method == DeliveryMethod::Paper {
            return Err(RouterError::UnsupportedMethod);
        }
        if message.method == DeliveryMethod::Propagated && !node_selected {
            return Err(RouterError::PropagationNodeUnavailable);
        }
        proof {
            lemma_queue_len(self.kept.outbound, self@.kept.outbound);
        }
        if self.kept.outbound.contains(&message.message_id) {
            return Err(RouterError::Duplicate);
        }
        if self.kept.outbound.len() >= self.config.max_outbound {
            return Err(RouterError::QueueFull);
        }
        if let Some(stamp) = reply_stamp {
            match message.set_stamp(stamp) {
                Ok(()) => {},
                Err(e) => {
                    return Err(RouterError::Message(e));
                },
            }
        }
        let id = message.message_id;
        self.put_entry(
            id,
            OutboundEntry {
                message,
                state: MessageState::Outbound,
                attempts: 0,
                next_attempt_ms: now_ms,
                progress: RESTING_PROGRESS,
                propagation: None,
            },
        );
        self.persistence_dirty = true;
        Ok(self.finish_output(one(RouterEvent::MessageQueued(id))))
    }

    /// Takes a message out of the queue. The calls close the links on which it
    /// was going out; an upload to a propagation node is the client's to stop.
    pub fn cancel(&mut self, id: &[u8; 32]) -> (r: Result<RouterOutput, RouterError>)
        requires
            old(self).wf(),
        ensures
            final(self).wf(),
            cancelling(old(self)@, final(self)@, *id, r),
    {
        let entry = match self.take_entry(id) {
            Some(entry) => entry,
            None => {
                return Err(RouterError::NotFound);
            },
        };
        let _ = self.preemptive_path_requests.remove(id);
        assert(self@.asked =~= old(self)@.asked.remove(*id));
        self.persistence_dirty = true;
        let mut output = self.finish_output(
            one(RouterEvent::MessageState { message_id: *id, state: MessageState::Cancelled }),
        );
        if entry.message.method != DeliveryMethod::Propagated {
            let links = self.node.cancel_outbound(id);
            let ghost keys = links@;
            let mut calls: Vec<CoreCall> = Vec::new();
            let mut i: usize = 0;
            while i < links.len()
                invariant
                    i <= links@.len(),
                    keys == links@,
                    calls@ == keys.take(i as int).map_values(
                        |link_id: LinkId| CoreCall::CloseLink { link_id },
                    ),
                decreases links@.len() - i,
            {
                calls.push(CoreCall::CloseLink { link_id: links[i] });
                assert(calls@ =~= keys.take(i + 1).map_values(
                    |link_id: LinkId| CoreCall::CloseLink { link_id },
                ));
                i = i + 1;
            }
            assert(keys.take(keys.len() as int) =~= keys);
            output.calls = calls;
        } else {
            assert(output.calls@ =~= Seq::<CoreCall>::empty());
        }
        Ok(output)
    }

    /// The earliest time at which the router or its propagation client has
    /// something to do; `client` is that of the client.
    pub fn next_deadline(&self, client: Option<u64>) -> (r: u64)
        requires
            self.wf(),
        ensures
            deadline(self@, client, r),
    {
        let mut t: u64 = self.next_job_ms;
        if let Some(d) = client {
            if d < t {
                t = d;
            }
        }
        let ghost c = self@;
        let mut i: usize = 0;
        while i < self.kept.outbound.entries.len()
            invariant
                i <= self.kept.outbound.entries@.len(),
                self.wf(),
                c == self@,
                t <= c.next_job_ms,
                client matches Some(d) ==> t <= d,
                forall|j: int|
                    0 <= j < i ==> t <= (#[trigger] self.kept.outbound.entries@[j]).1.next_attempt_ms,
                t == c.next_job_ms || client == Some(t) || exists|id: [u8; 32]| #[trigger]
                    c.kept.outbound.contains_key(id) && c.kept.outbound[id].next_attempt_ms == t,
            decreases self.kept.outbound.entries@.len() - i,
        {
            let at: u64 = self.kept.outbound.entries[i].1.next_attempt_ms;
            if at < t {
                t = at;
                proof {
                    let e = self.kept.outbound.entries@[i as int];
                    crate::bytemap::lemma_entry(self.kept.outbound.entries@, i as int);
                    assert(c.kept.outbound.contains_key(e.0) && c.kept.outbound[e.0].next_attempt_ms
                        == t);
                }
            }
            i = i + 1;
        }
        proof {
            assert forall|id: [u8; 32]| #[trigger] c.kept.outbound.contains_key(id) implies t
                <= c.kept.outbound[id].next_attempt_ms by {
                let j = crate::bytemap::key_index(self.kept.outbound.entries@, id);
                assert(crate::bytemap::has_key(self.kept.outbound.entries@, id));
                assert(self.kept.outbound.entries@[j].0 == id);
                crate::bytemap::lemma_entry(self.kept.outbound.entries@, j);
            }
        }
        t
    }

    /// Ends an operation with the time of the next one.
    pub fn finish_timed(&self, events: Vec<RouterEvent>, client: Option<u64>) -> (r: RouterOutput)
        requires
            self.wf(),
        ensures
            timed(r, self@, notes(events@), client),
    {
        let mut output = self.finish_output(events);
        output.next_deadline_ms = Some(self.next_deadline(client));
        output
    }

    /// Attaches a stamp to a queued message and makes it due at once. A stamp
    /// of the wrong size changes nothing.
    pub fn set_outbound_stamp(
        &mut self,
        id: &[u8; 32],
        stamp: Vec<u8>,
        now_ms: u64,
        client: Option<u64>,
    ) -> (r: Result<RouterOutput, RouterError>)
        requires
            old(self).wf(),
        ensures
            final(self).wf(),
            stamping(old(self)@, final(self)@, *id, stamp@, now_ms, client, r),
    {
        let ghost before = self@;
        let mut entry = match self.take_entry(id) {
            Some(entry) => entry,
            None => {
                return Err(RouterError::NotFound);
            },
        };
        match entry.message.set_stamp(stamp) {
            Ok(()) => {},
            Err(e) => {
                self.put_entry(*id, entry);
                assert(self@.kept.outbound =~= before.kept.outbound);
                return Err(RouterError::Message(e));
            },
        }
        if entry.message.method == DeliveryMethod::Propagated {
            entry.propagation = None;
        }
        entry.next_attempt_ms = now_ms;
        self.put_entry(*id, entry);
        assert(self@.kept.outbound =~= before.kept.outbound.insert(*id, entry@));
        if now_ms < self.next_job_ms {
            self.next_job_ms = now_ms;
        }
        self.persistence_dirty = true;
        Ok(self.finish_timed(none(), client))
    }

    fn stamp_cost_at(&self, destination: &[u8; 16], now_unix: u64) -> (r: Option<u8>)
        requires
            self.wf(),
        ensures
            r == stamp_cost(self@, *destination, now_unix),
    {
        match self.kept.outbound_stamp_costs.get(destination) {
            Some(e) => {
                if !ieee::is_within(now_unix, e.seen, STAMP_COST_EXPIRY) {
                    return None;
                }
                match e.cost {
                    Some(cost) => {
                        if 0 < cost && cost < 255 {
                            Some(cost)
                        } else {
                            None
                        }
                    },
                    None => None,
                }
            },
            None => None,
        }
    }

    /// The unexpired stamp cost that a peer announced, within the range that a
    /// conforming peer announces.
    pub fn outbound_stamp_cost(&self, destination: &[u8; 16], now_unix: u64) -> (r: Option<u8>)
        requires
            self.wf(),
        ensures
            r == stamp_cost(self@, *destination, now_unix),
    {
        self.stamp_cost_at(destination, now_unix)
    }

    /// Attaches the result of a stamp request, if the message still lacks a
    /// stamp and its recipient still asks for this cost.
    pub fn set_outbound_stamp_result(
        &mut self,
        request: &DeliveryStampRequest,
        stamp: Vec<u8>,
        t: &Timing,
        client: Option<u64>,
    ) -> (r: Result<RouterOutput, RouterError>)
        requires
            old(self).wf(),
        ensures
            final(self).wf(),
            stamping_as_asked(old(self)@, final(self)@, *request, stamp@, *t, client, r),
    {
        match self.outbound_stamp_request(&request.message_id, t.now_unix) {
            Some(current) => {
                if current.target_cost != request.target_cost {
                    return Err(RouterError::StaleStampRequest);
                }
            },
            None => {
                return Err(RouterError::StaleStampRequest);
            },
        }
        self.set_outbound_stamp(&request.message_id, stamp, t.now_ms, client)
    }

    /// The work for the stamp that the recipient of a queued message asks for.
    pub fn outbound_stamp_request(&self, id: &[u8; 32], now_unix: u64) -> (r: Option<
        DeliveryStampRequest,
    >)
        requires
            self.wf(),
        ensures
            r == stamp_request(self@, *id, now_unix),
    {
        match self.kept.outbound.get(id) {
            Some(entry) => {
                if entry.message.stamp.is_some() {
                    return None;
                }
                match self.stamp_cost_at(&entry.message.destination_hash, now_unix) {
                    Some(target_cost) => Some(
                        DeliveryStampRequest { message_id: *id, target_cost },
                    ),
                    None => None,
                }
            },
            None => None,
        }
    }

    /// The work for the stamp that the propagation node of a queued message
    /// asks for.
    pub fn outbound_propagation_stamp_request(&self, id: &[u8; 32]) -> (r: Option<
        PropagationStampRequest,
    >)
        requires
            self.wf(),
        ensures
            r == propagation_request(self@, *id),
    {
        match self.kept.outbound.get(id) {
            Some(entry) => match &entry.propagation {
                Some(p) => {
                    if p.stamp.is_some() {
                        return None;
                    }
                    match p.target_cost {
                        Some(target_cost) => Some(
                            PropagationStampRequest {
                                message_id: *id,
                                transient_id: p.transient_id,
                                target_cost,
                            },
                        ),
                        None => None,
                    }
                },
                None => None,
            },
            None => None,
        }
    }

    /// Attaches the propagation-node stamp to a queued message and makes it
    /// due at once.
    pub fn set_outbound_propagation_stamp(
        &mut self,
        id: &[u8; 32],
        stamp: [u8; STAMP_SIZE],
        now_ms: u64,
        client: Option<u64>,
    ) -> (r: Result<RouterOutput, RouterError>)
        requires
            old(self).wf(),
        ensures
            final(self).wf(),
            node_stamping(old(self)@, final(self)@, *id, stamp, now_ms, client, r),
    {
        match self.kept.outbound.get(id) {
            Some(entry) => {
                if entry.message.method != DeliveryMethod::Propagated {
                    return Err(RouterError::UnsupportedMethod);
                }
                match &entry.propagation {
                    Some(p) => {
                        if p.target_cost.is_none() {
                            return Err(RouterError::PropagationStampUnavailable);
                        }
                    },
                    None => {
                        return Err(RouterError::PropagationStampUnavailable);
                    },
                }
            },
            None => {
                return Err(RouterError::NotFound);
            },
        }
        let ghost before = self@;
        if let Some(mut entry) = self.take_entry(id) {
            if let Some(p) = entry.propagation.take() {
                entry.propagation = Some(OutboundPropagation { stamp: Some(stamp), ..p });
            }
            entry.next_attempt_ms = now_ms;
            self.put_entry(*id, entry);
            assert(self@.kept.outbound =~= before.kept.outbound.insert(*id, entry@));
        }
        if now_ms < self.next_job_ms {
            self.next_job_ms = now_ms;
        }
        self.persistence_dirty = true;
        Ok(self.finish_timed(none(), client))
    }

    /// Attaches the result of a propagation stamp request, if what it was made
    /// for is still what is to be stamped.
    pub fn set_outbound_propagation_stamp_result(
        &mut self,
        request: &PropagationStampRequest,
        stamp: [u8; STAMP_SIZE],
        now_ms: u64,
        client: Option<u64>,
    ) -> (r: Result<RouterOutput, RouterError>)
        requires
            old(self).wf(),
        ensures
            final(self).wf(),
            node_stamping_as_asked(old(self)@, final(self)@, *request, stamp, now_ms, client, r),
    {
        match self.outbound_propagation_stamp_request(&request.message_id) {
            Some(current) => {
                if current.target_cost != request.target_cost || !same(
                    &current.transient_id,
                    &request.transient_id,
                ) {
                    return Err(RouterError::StaleStampRequest);
                }
            },
            None => {
                return Err(RouterError::StaleStampRequest);
            },
        }
        self.set_outbound_propagation_stamp(&request.message_id, stamp, now_ms, client)
    }

    /// Hands an upload to whoever builds Resources.
    pub fn push_upload_build(
        &mut self,
        message_id: [u8; 32],
        params: UploadSendParams,
        data: Vec<u8>,
    )
        requires
            old(self).wf(),
        ensures
            final(self).wf(),
            final(self)@ == (Router {
                builds: old(self)@.builds.push(
                    Build::Upload { message_id, params, data: data@ },
                ),
                ..old(self)@
            }),
    {
        let build = PendingResourceBuild {
            message_id,
            kind: PendingBuildKind::Upload { params, data },
        };
        self.pending_builds.push(build);
        assert(self@.builds =~= old(self)@.builds.push(build@));
    }

    /// Takes the Resource builds that were handed out.
    pub fn take_resource_builds(&mut self) -> (r: Vec<PendingResourceBuild>)
        requires
            old(self).wf(),
        ensures
            final(self).wf(),
            r@.map_values(|b: PendingResourceBuild| b@) == old(self)@.builds,
            final(self)@ == (Router { builds: Seq::empty(), ..old(self)@ }),
    {
        let mut builds: Vec<PendingResourceBuild> = Vec::new();
        std::mem::swap(&mut builds, &mut self.pending_builds);
        assert(self@.builds =~= Seq::empty());
        builds
    }

    /// Tells whether a transfer that was built apart may be handed to the
    /// stack. `link_active` tells whether the link that it goes out on still
    /// is.
    pub fn check_resource_build(&self, built: &BuiltResource, link_active: bool) -> (r: Result<
        (),
        RouterError,
    >)
        requires
            self.wf(),
        ensures
            r == match handing_fault(self@, built.kind, link_active) {
                Some(e) => Err::<(), RouterError>(e),
                None => Ok(()),
            },
    {
        match &built.kind {
            BuiltKind::Delivery(_) => Ok(()),
            BuiltKind::Upload(prepared) => match &self.propagation {
                Some(client) => match client.check_upload(
                    prepared.link_id,
                    link_active,
                    &prepared.message_id,
                ) {
                    Ok(_) => Ok(()),
                    Err(e) => Err(RouterError::PropagationTransport(e)),
                },
                None => Err(RouterError::PropagationNodeUnavailable),
            },
        }
    }

    /// Tracks a transfer that was built apart; `committed` is the hash of its
    /// Resource, or why the stack did not take it. The message is tried again
    /// later in that case. An upload is the mailbox client's to track;
    /// `link_active` tells whether the link that it goes out on still is.
    pub fn commit_resource_build(
        &mut self,
        built: &BuiltResource,
        link_active: bool,
        committed: Result<[u8; 32], ResourceError>,
    ) -> (r: Result<RouterOutput, RouterError>)
        requires
            old(self).wf(),
        ensures
            final(self).wf(),
            committing(old(self)@, final(self)@, *built, link_active, committed, r),
    {
        match &built.kind {
            BuiltKind::Delivery(prepared) => {
                if let Err(e) = self.node.commit_resource_send(prepared, committed) {
                    return Err(RouterError::Node(e));
                }
            },
            BuiltKind::Upload(prepared) => {
                let mut client = match self.propagation.take() {
                    Some(client) => client,
                    None => {
                        return Err(RouterError::PropagationNodeUnavailable);
                    },
                };
                let sent = match committed {
                    Ok(hash) => Ok(hash),
                    Err(e) => Err(PropagationTransportError::Resource(e)),
                };
                let outcome = client.commit_upload(prepared, link_active, sent);
                self.propagation = Some(client);
                if let Err(e) = outcome {
                    return Err(RouterError::PropagationTransport(e));
                }
            },
        }
        Ok(RouterOutput { calls: Vec::new(), next_deadline_ms: None, events: Vec::new() })
    }

    /// Takes up a ticket issued to a peer. `issued` is the store with the
    /// ticket in it, and `value` the field value that grants it, if one was
    /// due.
    ///
    /// A clock that cannot tell the time of day is refused: a peer would
    /// discard the ticket against its own clock.
    pub fn issue_ticket_field(
        &mut self,
        plausible_clock: bool,
        destination: &[u8; 16],
        issued: TicketStore,
        value: Option<Vec<u8>>,
    ) -> (r: Result<(Option<Field>, RouterOutput), RouterError>)
        requires
            old(self).wf(),
            issued.wf(),
        ensures
            final(self).wf(),
            issuing(
                old(self)@,
                final(self)@,
                plausible_clock,
                *destination,
                issued@,
                bytes_view(value),
                r,
            ),
    {
        if !plausible_clock {
            return Err(RouterError::NoWallClock);
        }
        let before = self.kept.tickets.entry_count();
        let after: usize = match issued.entry_count() {
            Some(n) => n,
            None => {
                return Err(RouterError::QueueFull);
            },
        };
        let headroom = value.is_some() && !issued.last_deliveries.contains(destination);
        if after > self.config.max_tickets || (headroom && after == self.config.max_tickets) {
            return Err(RouterError::QueueFull);
        }
        self.kept.tickets = issued;
        match before {
            Some(n) => {
                if n != after {
                    self.persistence_dirty = true;
                }
            },
            None => {
                self.persistence_dirty = true;
            },
        }
        let field: Option<Field> = match value {
            Some(v) => Some((FIELD_TICKET, v)),
            None => None,
        };
        Ok((field, self.finish_output(none())))
    }

    /// The snapshot.
    pub fn snapshot(&self) -> (r: Result<Vec<u8>, RouterError>)
        requires
            self.wf(),
        ensures
            match (r, snapshot_value(self@)) {
                (Ok(bytes), Ok(s)) => bytes@ == s,
                (Err(a), Err(b)) => a == b,
                _ => false,
            },
    {
        self.kept.encode(&self.identity_hash, &self.config, self.next_job_ms)
    }

    /// Notes what came of writing the snapshot: until it was written it stays
    /// due.
    pub fn persist(&mut self, stored: Result<(), StorageError>) -> (r: Result<(), RouterError>)
        requires
            old(self).wf(),
        ensures
            final(self).wf(),
            persisting(old(self)@, final(self)@, stored, r),
    {
        let _ = self.snapshot()?;
        match stored {
            Ok(()) => {
                self.persistence_dirty = false;
                Ok(())
            },
            Err(e) => Err(RouterError::Storage(e)),
        }
    }

    /// Restores a snapshot, if one was stored. Nothing changes unless the
    /// whole snapshot can be restored.
    pub fn restore(&mut self, stored: Result<Option<Vec<u8>>, StorageError>) -> (r: Result<
        (),
        RouterError,
    >)
        requires
            old(self).wf(),
        ensures
            final(self).wf(),
            restoring(old(self)@, final(self)@, stored, r),
    {
        let data = match stored {
            Ok(Some(data)) => data,
            Ok(None) => {
                return Ok(());
            },
            Err(e) => {
                return Err(RouterError::Storage(e));
            },
        };
        if data.len() > self.config.max_snapshot_bytes {
            return Err(RouterError::CorruptSnapshot);
        }
        let kept = decode_snapshot(data.as_slice(), &self.identity_hash, &self.config)?;
        self.kept = kept;
        self.preemptive_path_requests = ByteMap::new();
        assert(self@.asked =~= Set::empty());
        self.next_job_ms = 0;
        self.persistence_dirty = false;
        Ok(())
    }
}

proof fn lemma_queue_len(m: ByteMap<32, OutboundEntry>, v: Map<[u8; 32], Queued>)
    requires
        m.wf(),
        v == m@.map_values(|e: OutboundEntry| e@),
    ensures
        v.dom().len() == m.entries@.len(),
{
    crate::bytemap::lemma_len(m.entries@);
    assert(v.dom() =~= m@.dom());
}

/// The snapshot of a router.
pub open spec fn snapshot_value(c: Router) -> Result<Seq<u8>, RouterError> {
    crate::snapshot::snapshot_of(c.identity, c.config, c.kept, c.next_job_ms)
}

/// What a router can restore from bytes.
pub open spec fn restorable(c: Router, data: Seq<u8>) -> Result<crate::snapshot::Kept, ()> {
    if data.len() > c.config.max_snapshot_bytes {
        Err(())
    } else {
        crate::snapshot::restored_from(data, c.identity, c.config)
    }
}

/// The stamp that a queued message lacks.
pub open spec fn stamp_request(c: Router, id: [u8; 32], now: u64) -> Option<DeliveryStampRequest> {
    if c.kept.outbound.contains_key(id) && c.kept.outbound[id].mail.payload.stamp is None {
        match stamp_cost(c, c.kept.outbound[id].mail.destination, now) {
            Some(target_cost) => Some(DeliveryStampRequest { message_id: id, target_cost }),
            None => None,
        }
    } else {
        None
    }
}

/// Why a built transfer is not to be handed to the stack: it is an upload, and
/// there is no mailbox client, or the client cannot take it.
pub open spec fn handing_fault(c: Router, built: BuiltKind, link_active: bool) -> Option<
    RouterError,
> {
    match built {
        BuiltKind::Delivery(_) => None,
        BuiltKind::Upload(prepared) => match c.propagation {
            None => Some(RouterError::PropagationNodeUnavailable),
            Some(p) => match crate::propagation_client::upload_fault(
                p@,
                prepared.link_id,
                link_active,
                prepared.message_id,
            ) {
                Some(e) => Some(RouterError::PropagationTransport(e)),
                None => None,
            },
        },
    }
}

/// Why a built transfer is not tracked: it is not to be handed to the stack,
/// or the stack did not take it.
pub open spec fn build_fault(
    c: Router,
    built: BuiltKind,
    link_active: bool,
    committed: Result<[u8; 32], ResourceError>,
) -> Option<RouterError> {
    match (handing_fault(c, built, link_active), committed) {
        (Some(e), _) => Some(e),
        (None, Ok(_)) => None,
        (None, Err(e)) => Some(
            match built {
                BuiltKind::Delivery(_) => RouterError::Node(LxmfNodeError::Resource(e)),
                BuiltKind::Upload(_) => RouterError::PropagationTransport(
                    PropagationTransportError::Resource(e),
                ),
            },
        ),
    }
}

/// The propagation stamp that a queued message lacks.
pub open spec fn propagation_request(c: Router, id: [u8; 32]) -> Option<PropagationStampRequest> {
    if c.kept.outbound.contains_key(id) {
        match c.kept.outbound[id].prepared {
            Some(p) => if p.stamp is None && p.target_cost is Some {
                Some(
                    PropagationStampRequest {
                        message_id: id,
                        transient_id: p.transient_id,
                        target_cost: p.target_cost->Some_0,
                    },
                )
            } else {
                None
            },
            None => None,
        }
    } else {
        None
    }
}

/// Why a propagation stamp cannot be attached.
pub open spec fn propagation_fault(c: Router, id: [u8; 32]) -> Option<RouterError> {
    if !c.kept.outbound.contains_key(id) {
        Some(RouterError::NotFound)
    } else if c.kept.outbound[id].mail.method != DeliveryMethod::Propagated {
        Some(RouterError::UnsupportedMethod)
    } else {
        match c.kept.outbound[id].prepared {
            Some(p) => if p.target_cost is Some {
                None
            } else {
                Some(RouterError::PropagationStampUnavailable)
            },
            None => Some(RouterError::PropagationStampUnavailable),
        }
    }
}

pub open spec fn node_stamped(q: Queued, stamp: [u8; STAMP_SIZE], now_ms: u64) -> Queued {
    Queued {
        prepared: Some(Prepared { stamp: Some(stamp), ..q.prepared->Some_0 }),
        next_attempt_ms: now_ms,
        ..q
    }
}

// ---------------------------------------------------------------------------
// What comes in
// ---------------------------------------------------------------------------

/// The message with this identifier that waits longest for its stamp to be
/// checked.
pub open spec fn waiting_for(s: Seq<(crate::message::Mail, u64)>, id: [u8; 32]) -> int
    decreases s.len(),
{
    if s.len() == 0 {
        -1
    } else if waiting_for(s.drop_last(), id) >= 0 {
        waiting_for(s.drop_last(), id)
    } else if s.last().0.id == id {
        s.len() - 1
    } else {
        -1
    }
}

proof fn lemma_waiting_for(s: Seq<(crate::message::Mail, u64)>, id: [u8; 32], i: int)
    requires
        0 <= i < s.len(),
        s[i].0.id == id,
        forall|j: int| 0 <= j < i ==> (#[trigger] s[j]).0.id != id,
    ensures
        waiting_for(s, id) == i,
    decreases s.len(),
{
    if i == s.len() - 1 {
        lemma_not_waiting(s.drop_last(), id);
    } else {
        lemma_waiting_for(s.drop_last(), id, i);
    }
}

proof fn lemma_not_waiting(s: Seq<(crate::message::Mail, u64)>, id: [u8; 32])
    requires
        forall|j: int| 0 <= j < s.len() ==> (#[trigger] s[j]).0.id != id,
    ensures
        waiting_for(s, id) == -1,
    decreases s.len(),
{
    if s.len() > 0 {
        lemma_not_waiting(s.drop_last(), id);
        assert(s.last().0.id != id);
    }
}

/// The result of checking a stamp, applied to the message that waits for it.
pub open spec fn checked(c: Router, i: int, valid: bool) -> (Router, Seq<RouterNote>) {
    let (mail, at) = c.waiting[i];
    let next = Router { waiting: c.waiting.remove(i), ..c };
    if valid {
        accepted(next, mail, at)
    } else {
        (next, seq![RouterNote::InvalidStamp(mail.id)])
    }
}

/// A queued message needs a direct link to `d`.
pub open spec fn needs_link(c: Router, d: DestinationHash) -> bool {
    exists|id: [u8; 32]| #[trigger]
        c.kept.outbound.contains_key(id) && c.kept.outbound[id].mail.destination == d
            && not_single(c.kept.outbound[id].mail)
}

/// A peer announced itself for deliveries.
pub open spec fn heard(c: Router, d: DestinationHash, app_data: Seq<u8>, now: u64) -> Router {
    if app_data.len() == 0 {
        c
    } else {
        match crate::announce::delivery_of(app_data) {
            Ok(a) => with_cost(
                c,
                d,
                StampCost { seen: now, cost: a.cost, compression: a.compression },
            ),
            Err(_) => c,
        }
    }
}

/// What one report of the stack makes of the router: its notes and the calls
/// it makes into the stack.
pub open spec fn routed(
    c: Router,
    e: CoreEvent,
    facts: Facts,
    t: Timing,
    f: MessageFacts,
) -> (Router, Result<(Seq<RouterNote>, Seq<CoreCall>), LxmfNodeError>) {
    match crate::node::step(c.node, e, facts) {
        (node, Err(x)) => (Router { node, ..c }, Err(x)),
        (node, Ok(s)) => {
            let (mid, out) = absorbed_all(Router { node, ..c }, s, t, f);
            match e {
                CoreEvent::LinkClosed { is_initiator, destination, .. } => (
                    mid,
                    Ok(
                        (
                            out,
                            if is_initiator && needs_link(mid, destination) {
                                seq![CoreCall::RequestPath { destination }]
                            } else {
                                seq![]
                            },
                        ),
                    ),
                ),
                CoreEvent::AnnounceReceived { destination, app_data, .. } => (
                    heard(mid, destination, app_data@, t.now_unix),
                    Ok((out, seq![])),
                ),
                _ => (mid, Ok((out, seq![]))),
            }
        },
    }
}

impl LxmfRouter {
    /// Remembers an identifier, among those delivered or those processed.
    pub fn insert_bounded_id(&mut self, id: [u8; 32], time: u64, delivered: bool)
        requires
            old(self).wf(),
        ensures
            final(self).wf(),
            final(self)@ == if delivered {
                with_delivered(old(self)@, id, time)
            } else {
                with_processed(old(self)@, id, time)
            },
    {
        let at = |v: &u64| -> (r: u64)
            ensures r == *v, { *v };
        let ghost spec_at = |v: u64| v;
        let before = if delivered {
            if self.config.max_delivered_ids == 0 {
                return;
            }
            insert_bounded(
                &mut self.kept.delivered_ids,
                id,
                time,
                self.config.max_delivered_ids,
                at,
                Ghost(spec_at),
            )
        } else {
            if self.config.max_processed_ids == 0 {
                return;
            }
            insert_bounded(
                &mut self.kept.processed_ids,
                id,
                time,
                self.config.max_processed_ids,
                at,
                Ghost(spec_at),
            )
        };
        match before {
            Some(v) => {
                if v != time {
                    self.persistence_dirty = true;
                }
            },
            None => {
                self.persistence_dirty = true;
            },
        }
    }

    /// Remembers what a peer announced about delivery stamps.
    pub fn insert_bounded_stamp_cost(&mut self, destination: [u8; 16], entry: StampCost)
        requires
            old(self).wf(),
        ensures
            final(self).wf(),
            final(self)@ == with_cost(old(self)@, destination, entry),
    {
        if self.config.max_stamp_costs == 0 {
            return;
        }
        let at = |e: &StampCost| -> (r: u64)
            ensures r == e.seen, { e.seen };
        let ghost spec_at = |e: StampCost| e.seen;
        let before = insert_bounded(
            &mut self.kept.outbound_stamp_costs,
            destination,
            entry,
            self.config.max_stamp_costs,
            at,
            Ghost(spec_at),
        );
        match before {
            Some(e) => {
                let same_number = match (e.cost, entry.cost) {
                    (Some(a), Some(b)) => a == b,
                    (None, None) => true,
                    _ => false,
                };
                if !(ieee::equal(e.seen, entry.seen) && same_number && e.compression
                    == entry.compression) {
                    self.persistence_dirty = true;
                }
            },
            None => {
                self.persistence_dirty = true;
            },
        }
    }

    fn remember_verified_ticket(&mut self, message: &Message, f: &MessageFacts)
        requires
            old(self).wf(),
        ensures
            final(self).wf(),
            final(self)@ == ticket_remembered(old(self)@, message@, *f),
    {
        if message.verification != Verification::Valid {
            return;
        }
        if f.tickets.len() == 0 {
            return;
        }
        let ticket = match &f.tickets[0] {
            Some(ticket) => *ticket,
            None => {
                return;
            },
        };
        let known = match self.kept.tickets.outbound.get(&message.source_hash) {
            Some(had) => Some(had.is(&ticket)),
            None => None,
        };
        if known.is_none() {
            match self.kept.tickets.entry_count() {
                Some(n) => {
                    if n >= self.config.max_tickets {
                        return;
                    }
                },
                None => {
                    return;
                },
            }
        }
        if !f.ticket_current {
            return;
        }
        self.kept.tickets.restore_outbound(message.source_hash, ticket);
        match known {
            Some(true) => {},
            _ => {
                self.persistence_dirty = true;
            },
        }
    }

    fn accept_inbound(&mut self, message: Message, now_unix: u64) -> (r: Vec<RouterEvent>)
        requires
            old(self).wf(),
        ensures
            final(self).wf(),
            final(self)@ == accepted(old(self)@, message@, now_unix).0,
            notes(r@) == accepted(old(self)@, message@, now_unix).1,
    {
        if self.kept.ignored.contains(&message.source_hash) {
            return none();
        }
        if message.verification == Verification::Invalid {
            return one(RouterEvent::InvalidSignature(message.message_id));
        }
        if self.kept.delivered_ids.contains(&message.message_id) {
            return one(RouterEvent::Duplicate(message.message_id));
        }
        self.insert_bounded_id(message.message_id, now_unix, true);
        one(RouterEvent::MessageReceived(Box::new(message)))
    }

    /// Applies the inbound policy to a message, however it came: ignored
    /// sources, signatures, stamps and duplicates.
    pub fn handle_inbound_message(
        &mut self,
        message: Message,
        now_unix: u64,
        f: &MessageFacts,
    ) -> (r: Vec<RouterEvent>)
        requires
            old(self).wf(),
        ensures
            final(self).wf(),
            final(self)@ == received(old(self)@, message@, now_unix, *f).0,
            notes(r@) == received(old(self)@, message@, now_unix, *f).1,
    {
        self.remember_verified_ticket(&message, f);
        let target_cost: u8 = match self.config.inbound_stamp_cost {
            Some(cost) => cost,
            None => 0,
        };
        if !self.config.enforce_stamps || target_cost == 0 || message.verification
            != Verification::Valid {
            return self.accept_inbound(message, now_unix);
        }
        let stamp: Option<[u8; STAMP_SIZE]> = match &message.stamp {
            Some(stamp) => {
                if f.ticket_stamp {
                    return self.accept_inbound(message, now_unix);
                }
                to_array::<STAMP_SIZE>(stamp.as_slice())
            },
            None => None,
        };
        match stamp {
            Some(stamp) => {
                if !f.stamp_worker || self.pending_inbound_stamps.len() >= self.config.max_outbound {
                    return one(RouterEvent::InvalidStamp(message.message_id));
                }
                proof {
                    crate::message::lemma_array(stamp);
                    assert(message@.payload.stamp == Some(stamp@));
                }
                let message_id = message.message_id;
                let ghost mid = self@.waiting;
                let ghost mail = message@;
                self.pending_inbound_stamps.push((message, now_unix));
                assert(self@.waiting =~= mid.push((mail, now_unix)));
                one(
                    RouterEvent::InboundStampPending(
                        InboundStampRequest { message_id, stamp, target_cost },
                    ),
                )
            },
            None => one(RouterEvent::InvalidStamp(message.message_id)),
        }
    }

    /// Applies the result of checking a stamp, if the message still waits for
    /// it and the cost is still the one that is asked for.
    pub fn set_inbound_stamp_result(&mut self, request: &InboundStampRequest, valid: bool) -> (r:
        Result<RouterOutput, RouterError>)
        requires
            old(self).wf(),
        ensures
            final(self).wf(),
            judging(old(self)@, final(self)@, *request, valid, r),
    {
        match self.config.inbound_stamp_cost {
            Some(cost) => {
                if cost != request.target_cost {
                    return Err(RouterError::StaleStampRequest);
                }
            },
            None => {
                return Err(RouterError::StaleStampRequest);
            },
        }
        let ghost waiting = self@.waiting;
        let mut i: usize = 0;
        while i < self.pending_inbound_stamps.len()
            invariant
                i <= self.pending_inbound_stamps@.len(),
                *self == *old(self),
                waiting == self@.waiting,
                waiting.len() == self.pending_inbound_stamps@.len(),
                old(self).wf(),
                old(self)@.config.inbound_stamp_cost == Some(request.target_cost),
                forall|j: int| 0 <= j < i ==> (#[trigger] waiting[j]).0.id != request.message_id,
            decreases self.pending_inbound_stamps@.len() - i,
        {
            assert(waiting[i as int] == (
                self.pending_inbound_stamps@[i as int].0@,
                self.pending_inbound_stamps@[i as int].1,
            ));
            if same(&self.pending_inbound_stamps[i].0.message_id, &request.message_id) {
                proof {
                    lemma_waiting_for(waiting, request.message_id, i as int);
                }
                let (message, at) = self.pending_inbound_stamps.remove(i);
                assert(self@.waiting =~= waiting.remove(i as int));
                let events = if valid {
                    self.accept_inbound(message, at)
                } else {
                    one(RouterEvent::InvalidStamp(message.message_id))
                };
                return Ok(self.finish_output(events));
            }
            i = i + 1;
        }
        proof {
            lemma_not_waiting(waiting, request.message_id);
        }
        Err(RouterError::StaleStampRequest)
    }

    /// Makes queued direct deliveries due at once when their link comes up.
    fn wake_direct_outbound(&mut self, destination: DestinationHash, now_ms: u64)
        requires
            old(self).wf(),
        ensures
            final(self).wf(),
            final(self)@ == woken(old(self)@, destination, now_ms),
    {
        let ghost c = self@;
        let ghost s = self.kept.outbound.entries@;
        let ghost wake = |e: OutboundEntry|
            if sleeping(e@, destination, now_ms) {
                OutboundEntry { next_attempt_ms: now_ms, ..e }
            } else {
                e
            };
        let ghost waked = s.map_values(|e: ([u8; 32], OutboundEntry)| (e.0, wake(e.1)));
        let mut changed: bool = false;
        let mut i: usize = 0;
        while i < self.kept.outbound.entries.len()
            invariant
                i <= self.kept.outbound.entries@.len() == s.len(),
                s == old(self).kept.outbound.entries@,
                wake == (|e: OutboundEntry|
                    if sleeping(e@, destination, now_ms) {
                        OutboundEntry { next_attempt_ms: now_ms, ..e }
                    } else {
                        e
                    }),
                waked == s.map_values(|e: ([u8; 32], OutboundEntry)| (e.0, wake(e.1))),
                forall|j: int| 0 <= j < i ==> #[trigger] self.kept.outbound.entries@[j] == waked[j],
                forall|j: int|
                    i <= j < s.len() ==> #[trigger] self.kept.outbound.entries@[j] == s[j],
                changed == exists|j: int|
                    0 <= j < i && sleeping((#[trigger] s[j]).1@, destination, now_ms),
                *self == (LxmfRouter { kept: self.kept, ..*old(self) }),
                self.kept == (Checkpoint { outbound: self.kept.outbound, ..old(self).kept }),
            decreases s.len() - i,
        {
            let entry = &self.kept.outbound.entries[i].1;
            assert(*entry == s[i as int].1);
            let single = match LxmfNode::representation(&entry.message) {
                Ok(DeliveryRepresentation::OpportunisticPacket) => true,
                _ => false,
            };
            if entry.state == MessageState::Outbound && same(
                &entry.message.destination_hash,
                &destination,
            ) && !single && entry.next_attempt_ms > now_ms {
                assert(sleeping(s[i as int].1@, destination, now_ms));
                self.kept.outbound.entries[i].1.next_attempt_ms = now_ms;
                changed = true;
            }
            i = i + 1;
        }
        proof {
            assert(self.kept.outbound.entries@ =~= waked);
            crate::bytemap::lemma_mapped(s, wake);
            if changed {
                let j = choose|j: int|
                    0 <= j < s.len() && sleeping((#[trigger] s[j]).1@, destination, now_ms);
                crate::bytemap::lemma_entry(s, j);
                assert(c.kept.outbound.contains_key(s[j].0) && sleeping(
                    c.kept.outbound[s[j].0],
                    destination,
                    now_ms,
                ));
            }
            assert forall|id: [u8; 32]| #[trigger]
                c.kept.outbound.contains_key(id) && sleeping(
                    c.kept.outbound[id],
                    destination,
                    now_ms,
                ) implies changed by {
                let j = crate::bytemap::key_index(s, id);
                assert(crate::bytemap::has_key(s, id));
                assert(s[j].0 == id);
                crate::bytemap::lemma_entry(s, j);
                assert(sleeping(s[j].1@, destination, now_ms));
            }
            if changed {
                assert(self@.kept.outbound =~= woken(c, destination, now_ms).kept.outbound);
            } else {
                assert(waked =~= s);
                assert(self@.kept.outbound =~= c.kept.outbound);
            }
        }
        if changed {
            if self.next_job_ms > now_ms {
                self.next_job_ms = now_ms;
            }
            self.persistence_dirty = true;
        }
    }

    fn issued_any(&self, destination: &[u8; 16], f: &MessageFacts) -> (r: bool)
        requires
            self.wf(),
        ensures
            r == grants(self@, *destination, *f),
    {
        let mut i: usize = 0;
        while i < f.tickets.len()
            invariant
                i <= f.tickets@.len(),
                self.wf(),
                forall|j: int|
                    0 <= j < i ==> !((#[trigger] f.tickets@[j]) is Some
                        && crate::ticket::has_issued(
                        self@.kept.tickets,
                        *destination,
                        f.tickets@[j]->Some_0,
                    )),
            decreases f.tickets@.len() - i,
        {
            if let Some(ticket) = &f.tickets[i] {
                if self.kept.tickets.contains_inbound(destination, ticket) {
                    assert(f.tickets@[i as int] is Some);
                    return true;
                }
            }
            i = i + 1;
        }
        false
    }

    /// Takes an ended message out of the queue.
    fn end_entry(&mut self, id: &[u8; 32]) -> (r: Option<OutboundEntry>)
        requires
            old(self).wf(),
        ensures
            final(self).wf(),
            match r {
                Some(e) => {
                    &&& old(self)@.kept.outbound.contains_key(*id)
                    &&& e@ == old(self)@.kept.outbound[*id]
                    &&& final(self)@ == dropped(old(self)@, *id)
                },
                None => !old(self)@.kept.outbound.contains_key(*id) && final(self)@ == old(self)@,
            },
    {
        let entry = self.take_entry(id)?;
        let _ = self.preemptive_path_requests.remove(id);
        assert(self@.asked =~= old(self)@.asked.remove(*id));
        self.persistence_dirty = true;
        Some(entry)
    }

    fn update_entry(&mut self, id: [u8; 32], entry: OutboundEntry, Ghost(c): Ghost<Router>)
        requires
            old(self).wf(),
            old(self)@ == with_queue(c, c.kept.outbound.remove(id)),
        ensures
            final(self).wf(),
            final(self)@ == with_queue(c, c.kept.outbound.insert(id, entry@)),
    {
        self.put_entry(id, entry);
        assert(self@.kept.outbound =~= c.kept.outbound.insert(id, entry@));
    }

    /// Applies one report of the delivery adapter.
    pub fn handle_node_event(&mut self, event: LxmfNodeEvent, t: &Timing, f: &MessageFacts) -> (r:
        Vec<RouterEvent>)
        requires
            old(self).wf(),
        ensures
            final(self).wf(),
            final(self)@ == absorbed(old(self)@, event@, *t, *f).0,
            notes(r@) == absorbed(old(self)@, event@, *t, *f).1,
    {
        let ghost c = self@;
        match event {
            LxmfNodeEvent::MessageReceived(message) => self.handle_inbound_message(
                message,
                t.now_unix,
                f,
            ),
            LxmfNodeEvent::Delivered { message_id } => {
                match self.end_entry(&message_id) {
                    Some(entry) => {
                        let destination = entry.message.destination_hash;
                        if self.issued_any(&destination, f) {
                            self.kept.tickets.mark_delivered(destination, t.now_unix);
                        }
                        one(
                            RouterEvent::MessageState {
                                message_id,
                                state: MessageState::Delivered,
                            },
                        )
                    },
                    None => none(),
                }
            },
            LxmfNodeEvent::DeliveryFailed { message_id, reason } => {
                let refused = match reason {
                    DeliveryFailure::Resource(ResourceError::Cancelled) => true,
                    _ => false,
                };
                if refused {
                    return match self.end_entry(&message_id) {
                        Some(_) => one(
                            RouterEvent::MessageState { message_id, state: MessageState::Rejected },
                        ),
                        None => none(),
                    };
                }
                if let Some(mut entry) = self.take_entry(&message_id) {
                    let next: u64 = entry.next_attempt_ms.saturating_add(DELIVERY_RETRY_WAIT_MS);
                    let changed = entry.state != MessageState::Outbound || entry.next_attempt_ms
                        != next;
                    entry.state = MessageState::Outbound;
                    entry.next_attempt_ms = next;
                    self.update_entry(message_id, entry, Ghost(c));
                    if changed {
                        self.persistence_dirty = true;
                    }
                }
                none()
            },
            LxmfNodeEvent::DirectLinkEstablished { destination, link_id, is_initiator } => {
                if let Some(d) = destination {
                    self.wake_direct_outbound(d, t.now_ms);
                }
                one(RouterEvent::DirectLinkEstablished { destination, link_id, is_initiator })
            },
            LxmfNodeEvent::Submitted { message_id, method, .. } => {
                if method == DeliveryMethod::Opportunistic {
                    if let Some(mut entry) = self.take_entry(&message_id) {
                        let changed = entry.state != MessageState::Sent;
                        entry.state = MessageState::Sent;
                        self.update_entry(message_id, entry, Ghost(c));
                        if changed {
                            self.persistence_dirty = true;
                        } else {
                            assert(self@.kept.outbound =~= c.kept.outbound);
                        }
                    }
                }
                none()
            },
            LxmfNodeEvent::Progress { message_id, progress } => {
                if let Some(mut entry) = self.take_entry(&message_id) {
                    let changed = entry.progress != progress;
                    entry.progress = progress;
                    self.update_entry(message_id, entry, Ghost(c));
                    if changed {
                        self.persistence_dirty = true;
                    } else {
                        assert(self@.kept.outbound =~= c.kept.outbound);
                    }
                }
                none()
            },
            LxmfNodeEvent::InboundRejected { method, reason } => one(
                RouterEvent::InboundRejected { method, reason },
            ),
            LxmfNodeEvent::PeerAnnounced { .. } => none(),
            LxmfNodeEvent::PathRequested { .. } => none(),
        }
    }

    fn wants_link(&self, destination: &DestinationHash) -> (r: bool)
        requires
            self.wf(),
        ensures
            r == needs_link(self@, *destination),
    {
        let test = |e: &OutboundEntry| -> (b: bool)
            ensures b == (e@.mail.destination == *destination && not_single(e@.mail)), { wants(e, destination) };
        let ghost wanted = |e: OutboundEntry|
            e@.mail.destination == *destination && not_single(e@.mail);
        let found = self.kept.outbound.first_where(test, Ghost(wanted));
        proof {
            let c = self@;
            match found {
                Some(i) => {
                    let id = self.kept.outbound.entries@[i as int].0;
                    assert(c.kept.outbound.contains_key(id));
                },
                None => {
                    assert forall|id: [u8; 32]| #[trigger]
                        c.kept.outbound.contains_key(id) implies !(
                    c.kept.outbound[id].mail.destination == *destination && not_single(
                        c.kept.outbound[id].mail,
                    )) by {
                        assert(!wanted(self.kept.outbound@[id]));
                    }
                },
            }
        }
        found.is_some()
    }

    /// The call into the stack that an event demands; its outcome is part of
    /// what [`Self::handle_event`] is told.
    pub fn call_for(&self, event: &CoreEvent, facts: &Facts) -> (r: Option<CoreCall>)
        requires
            self.wf(),
        ensures
            r == crate::node::demand(self@.node, *event, *facts),
    {
        self.node.call_for(event, facts)
    }

    /// The queued message whose delivery a report of the stack means.
    pub fn concluded(&self, event: &CoreEvent) -> (r: Option<[u8; 32]>)
        requires
            self.wf(),
        ensures
            concluding(self@, *event, r),
    {
        match self.node.concluded(event) {
            Some(id) => if self.kept.outbound.contains(&id) {
                Some(id)
            } else {
                None
            },
            None => None,
        }
    }

    /// Applies one report of the stack.
    pub fn handle_event(
        &mut self,
        event: &CoreEvent,
        facts: &Facts,
        t: &Timing,
        f: &MessageFacts,
        client: Option<u64>,
    ) -> (r: Result<RouterOutput, RouterError>)
        requires
            old(self).wf(),
        ensures
            final(self).wf(),
            final(self)@ == routed(old(self)@, *event, *facts, *t, *f).0,
            match routed(old(self)@, *event, *facts, *t, *f).1 {
                Ok((s, calls)) => {
                    &&& r is Ok
                    &&& r->Ok_0.calls@ == calls
                    &&& r->Ok_0.next_deadline_ms matches Some(d) && deadline(final(self)@, client, d)
                    &&& notes(r->Ok_0.events@) == finished(final(self)@.dirty, s)
                },
                Err(e) => r == Err::<RouterOutput, RouterError>(RouterError::Node(e)),
            },
    {
        let ghost c = self@;
        let mut events = match self.node.handle_event(event, facts) {
            Ok(output) => output.events,
            Err(e) => {
                return Err(RouterError::Node(e));
            },
        };
        let ghost start = self@;
        let ghost whole = crate::node::notes(events@);
        let ghost mut done: Seq<crate::node::NodeNote> = Seq::empty();
        let mut out: Vec<RouterEvent> = Vec::new();
        assert(notes(out@) =~= Seq::<RouterNote>::empty());
        assert(done + crate::node::notes(events@) =~= whole);
        while events.len() > 0
            invariant
                self.wf(),
                done + crate::node::notes(events@) == whole,
                self@ == absorbed_all(start, done, *t, *f).0,
                notes(out@) == absorbed_all(start, done, *t, *f).1,
            decreases events@.len(),
        {
            let ghost before = events@;
            let ghost had = out@;
            let event = events.remove(0);
            proof {
                assert(crate::node::notes(before) =~= seq![event@] + crate::node::notes(events@));
                let more = done.push(event@);
                assert(more + crate::node::notes(events@) =~= done + crate::node::notes(before));
                assert(more.drop_last() =~= done);
                done = more;
            }
            let mut more = self.handle_node_event(event, t, f);
            let ghost last = more@;
            out.append(&mut more);
            assert(notes(out@) =~= notes(had) + notes(last));
        }
        assert(done =~= whole);
        let mut calls: Vec<CoreCall> = Vec::new();
        match event {
            CoreEvent::LinkClosed { is_initiator, destination, .. } => {
                if *is_initiator && self.wants_link(destination) {
                    calls.push(CoreCall::RequestPath { destination: *destination });
                }
            },
            CoreEvent::AnnounceReceived { destination, app_data, .. } => {
                if app_data.len() > 0 {
                    if let Ok(a) = DeliveryAnnounce::decode(app_data.as_slice()) {
                        self.insert_bounded_stamp_cost(
                            *destination,
                            StampCost {
                                seen: t.now_unix,
                                cost: a.stamp_cost,
                                compression: a.compression_supported,
                            },
                        );
                    }
                }
            },
            _ => {},
        }
        let mut output = self.finish_timed(out, client);
        assert(calls@ =~= routed(c, *event, *facts, *t, *f).1->Ok_0.1);
        output.calls = calls;
        Ok(output)
    }
}

fn wants(e: &OutboundEntry, destination: &DestinationHash) -> (r: bool)
    ensures
        r == (e@.mail.destination == *destination && not_single(e@.mail)),
{
    if !same(&e.message.destination_hash, destination) {
        return false;
    }
    match LxmfNode::representation(&e.message) {
        Ok(DeliveryRepresentation::OpportunisticPacket) => false,
        _ => true,
    }
}

/// The values of the fields of one key, in order.
pub open spec fn values_of(fields: Seq<(i64, Seq<u8>)>, key: i64) -> Seq<Seq<u8>>
    decreases fields.len(),
{
    if fields.len() == 0 {
        seq![]
    } else {
        let before = values_of(fields.drop_last(), key);
        if fields.last().0 == key {
            before.push(fields.last().1)
        } else {
            before
        }
    }
}

/// The values of the ticket fields of a message, in order: what the tickets in
/// [`MessageFacts`] are read from.
pub fn ticket_values(message: &Message) -> (r: Vec<Vec<u8>>)
    ensures
        crate::propagation::values_view(r@) == values_of(
            crate::message::fields_view(message.fields@),
            FIELD_TICKET,
        ),
{
    let ghost fields = crate::message::fields_view(message.fields@);
    let mut out: Vec<Vec<u8>> = Vec::new();
    let mut i: usize = 0;
    assert(crate::propagation::values_view(out@) =~= values_of(fields.take(0), FIELD_TICKET));
    while i < message.fields.len()
        invariant
            i <= message.fields@.len(),
            fields == crate::message::fields_view(message.fields@),
            crate::propagation::values_view(out@) == values_of(
                fields.take(i as int),
                FIELD_TICKET,
            ),
        decreases message.fields@.len() - i,
    {
        let field = &message.fields[i];
        proof {
            assert(fields.take(i + 1).drop_last() =~= fields.take(i as int));
            assert(fields.take(i + 1).last() == (field.0, field.1@));
        }
        if field.0 == FIELD_TICKET {
            let ghost before = out@;
            let value = crate::bytemap::to_vec(field.1.as_slice());
            out.push(value);
            assert(crate::propagation::values_view(out@) =~= crate::propagation::values_view(
                before,
            ).push(field.1@));
        }
        i = i + 1;
    }
    assert(fields.take(i as int) =~= fields);
    out
}

/// The message in a packed form that was decrypted here, with the outcome of
/// checking its signature against the source it names.
pub fn unpack_local(packed: &[u8], check: SignatureCheck, method: DeliveryMethod) -> (r: Result<
    Message,
    RouterError,
>)
    ensures
        packed@.len() < 32 ==> r == Err::<Message, RouterError>(
            RouterError::Message(MessageError::TooShort),
        ),
        packed@.len() >= 32 ==> match crate::message::mail_of(packed@, None, check, method) {
            Ok(mail) => r is Ok && r->Ok_0@ == mail,
            Err(e) => r == Err::<Message, RouterError>(RouterError::Message(e)),
        },
{
    if packed.len() < 32 {
        return Err(RouterError::Message(MessageError::TooShort));
    }
    match Message::unpack(packed, None, check, method) {
        Ok(message) => Ok(message),
        Err(e) => Err(RouterError::Message(e)),
    }
}

// ---------------------------------------------------------------------------
// The scheduler
// ---------------------------------------------------------------------------

fn is_direct(r: &Result<DeliveryRepresentation, LxmfNodeError>) -> (b: bool)
    ensures
        b == (*r == Ok::<DeliveryRepresentation, LxmfNodeError>(
            DeliveryRepresentation::DirectPacket,
        ) || *r == Ok::<DeliveryRepresentation, LxmfNodeError>(
            DeliveryRepresentation::DirectResource,
        )),
{
    match r {
        Ok(DeliveryRepresentation::DirectPacket) => true,
        Ok(DeliveryRepresentation::DirectResource) => true,
        _ => false,
    }
}

fn is_single(r: &Result<DeliveryRepresentation, LxmfNodeError>) -> (b: bool)
    ensures
        b == (*r == Ok::<DeliveryRepresentation, LxmfNodeError>(
            DeliveryRepresentation::OpportunisticPacket,
        )),
{
    match r {
        Ok(DeliveryRepresentation::OpportunisticPacket) => true,
        _ => false,
    }
}

/// Counts a submission as an attempt where submission is what an attempt is.
/// A direct message spends its attempt when its path is asked for or its link
/// is opened; what then goes over the link, or over one that was open, belongs
/// to that attempt.
pub fn record_successful_submission_attempt(
    entry: &mut OutboundEntry,
    representation: &Result<DeliveryRepresentation, LxmfNodeError>,
)
    ensures
        *final(entry) == (OutboundEntry {
            attempts: if *representation == Ok::<DeliveryRepresentation, LxmfNodeError>(
                DeliveryRepresentation::OpportunisticPacket,
            ) && old(entry).attempts < u8::MAX {
                (old(entry).attempts + 1) as u8
            } else {
                old(entry).attempts
            },
            ..*old(entry)
        }),
{
    if is_single(representation) {
        entry.attempts = entry.attempts.saturating_add(1);
    }
}

impl LxmfRouter {
    /// What is to be done for a queued message that is due.
    pub fn judge(&self, id: &[u8; 32], t: &Timing, has_path: bool) -> (r: Option<Verdict>)
        requires
            self.wf(),
        ensures
            r == if self@.kept.outbound.contains_key(*id) {
                Some(verdict(self@, *id, *t, has_path))
            } else {
                None
            },
    {
        let entry = match self.kept.outbound.get(id) {
            Some(entry) => entry,
            None => {
                return None;
            },
        };
        assert(self@.kept.outbound[*id] == entry@);
        let representation = LxmfNode::representation(&entry.message);
        if is_direct(&representation) && entry.state == MessageState::Sending {
            return Some(Verdict::Wait);
        }
        if entry.attempts >= MAX_DELIVERY_ATTEMPTS {
            return Some(Verdict::Fail);
        }
        if entry.message.stamp.is_none() {
            if let Some(cost) = self.stamp_cost_at(&entry.message.destination_hash, t.now_unix) {
                return Some(Verdict::Stamp(cost));
            }
        }
        if !is_single(&representation) {
            return Some(Verdict::Submit);
        }
        if !has_path && entry.attempts == 0 && !self.preemptive_path_requests.contains(id) {
            return Some(Verdict::FirstPath);
        }
        if !has_path && entry.attempts >= MAX_PATHLESS_TRIES {
            return Some(Verdict::Path);
        }
        if has_path && entry.attempts == MAX_PATHLESS_TRIES + 1 {
            return Some(Verdict::Renew);
        }
        Some(Verdict::Submit)
    }

    /// What [`Self::attempt`] demands of the stack for a message; its outcome
    /// is part of what the attempt is told.
    pub fn attempt_call(&self, id: &[u8; 32], t: &Timing, f: &AttemptFacts) -> (r: Option<
        AttemptCall,
    >)
        requires
            self.wf(),
        ensures
            match (r, attempt_demand(self@, *id, *t, *f)) {
                (Some(call), Some(d)) => call@ == d,
                (None, None) => true,
                _ => false,
            },
    {
        let verdict = match self.judge(id, t, f.core.has_path) {
            Some(verdict) => verdict,
            None => {
                return None;
            },
        };
        let entry = match self.kept.outbound.get(id) {
            Some(entry) => entry,
            None => {
                return None;
            },
        };
        let destination = entry.message.destination_hash;
        match verdict {
            Verdict::Wait | Verdict::Fail | Verdict::Stamp(_) => None,
            Verdict::FirstPath | Verdict::Path => Some(
                AttemptCall::Core(CoreCall::RequestPath { destination }),
            ),
            Verdict::Renew => Some(AttemptCall::RenewPath { destination }),
            Verdict::Submit => {
                let representation = LxmfNode::representation(&entry.message);
                let resource = match &representation {
                    Ok(DeliveryRepresentation::DirectResource) => true,
                    _ => false,
                };
                let handed = if self.config.defer_resource_builds && resource {
                    match self.node.live_direct_link(&destination, f.link_active) {
                        Ok(link_id) => Ok(AttemptCall::PrepareResource { link_id }),
                        Err(e) => Err(e),
                    }
                } else {
                    match self.node.plan(&entry.message, f.link_active) {
                        Ok(plan) => Ok(AttemptCall::Send(plan)),
                        Err(e) => Err(e),
                    }
                };
                match handed {
                    Ok(call) => Some(call),
                    Err(LxmfNodeError::DirectLinkUnavailable) => {
                        match self.node.direct_link_call(destination, f.link_active, &f.core) {
                            Some(call) => Some(AttemptCall::Core(call)),
                            None => None,
                        }
                    },
                    Err(_) => None,
                }
            },
        }
    }

    /// Hands a message to the stack and tracks it there.
    fn lodge(&mut self, id: [u8; 32], message: &Message, f: &AttemptFacts) -> (r: (
        Option<LxmfNodeError>,
        Vec<RouterEvent>,
    ))
        requires
            old(self).wf(),
        ensures
            final(self).wf(),
            final(self)@ == lodged(old(self)@, id, message@, *f).0,
            notes(r.1@) == lodged(old(self)@, id, message@, *f).1,
            r.0 == match handed(old(self)@, message@, f.link_active).1 {
                Ok(_) => None::<LxmfNodeError>,
                Err(e) => Some(e),
            },
    {
        let resource = match LxmfNode::representation(message) {
            Ok(DeliveryRepresentation::DirectResource) => true,
            _ => false,
        };
        if self.config.defer_resource_builds && resource {
            self.lodge_build(id, message, f)
        } else {
            (self.lodge_message(message, f), none())
        }
    }

    /// Leaves the Resource of a message to the host.
    fn lodge_build(&mut self, id: [u8; 32], message: &Message, f: &AttemptFacts) -> (r: (
        Option<LxmfNodeError>,
        Vec<RouterEvent>,
    ))
        requires
            old(self).wf(),
            deferred(old(self)@, message@),
        ensures
            final(self).wf(),
            final(self)@ == lodged(old(self)@, id, message@, *f).0,
            notes(r.1@) == lodged(old(self)@, id, message@, *f).1,
            r.0 == match handed(old(self)@, message@, f.link_active).1 {
                Ok(_) => None::<LxmfNodeError>,
                Err(e) => Some(e),
            },
    {
        let params = match self.node.resource_send_params(message, f.link_active, Ok(())) {
            Ok(params) => params,
            Err(e) => {
                return (Some(e), none());
            },
        };
        if !f.taken {
            return (None, none());
        }
        let data = message.pack();
        let ghost builds = self@.builds;
        let build = PendingResourceBuild {
            message_id: id,
            kind: PendingBuildKind::Delivery {
                params,
                data,
                auto_compress: self.node.config().auto_compress_resources,
            },
        };
        self.pending_builds.push(build);
        assert(self@.builds =~= builds.push(build@));
        (None, one(RouterEvent::ResourceBuildPending(id)))
    }

    /// Sends a message as the plan for it says.
    fn lodge_message(&mut self, message: &Message, f: &AttemptFacts) -> (r: Option<LxmfNodeError>)
        requires
            old(self).wf(),
            !deferred(old(self)@, message@),
        ensures
            final(self).wf(),
            forall|id: [u8; 32]|
                (final(self)@, Seq::<RouterNote>::empty()) == #[trigger] lodged(
                    old(self)@,
                    id,
                    message@,
                    *f,
                ),
            r == match handed(old(self)@, message@, f.link_active).1 {
                Ok(_) => None::<LxmfNodeError>,
                Err(e) => Some(e),
            },
    {
        let plan = match self.node.send(message, f.link_active) {
            Ok(plan) => plan,
            Err(e) => {
                return Some(e);
            },
        };
        if f.taken {
            let message_id = message.message_id;
            match plan {
                SendPlan::Packet { .. } => {
                    let _ = self.node.record_packet(message_id, f.packet_hash);
                },
                SendPlan::LinkPacket { link_id, .. } => {
                    let _ = self.node.record_link_packet(link_id, message_id, f.hash);
                },
                SendPlan::Resource { link_id, data, .. } => {
                    let _ = self.node.record_resource_submission(
                        link_id,
                        message_id,
                        f.hash,
                        data.len(),
                    );
                },
            }
        }
        None
    }

    /// Says when a message is tried next, and sees to its link where it has
    /// none.
    fn reschedule(
        &mut self,
        entry: &mut OutboundEntry,
        fault: Option<LxmfNodeError>,
        t: &Timing,
        f: &AttemptFacts,
    )
        requires
            old(self).wf(),
            old(entry).attempts < MAX_DELIVERY_ATTEMPTS,
        ensures
            final(self).wf(),
            final(entry)@ == rescheduled(old(entry)@, old(self)@.node, fault, *t, *f).0,
            final(self)@ == (Router {
                node: rescheduled(old(entry)@, old(self)@.node, fault, *t, *f).1,
                ..old(self)@
            }),
    {
        match fault {
            None => {
                if f.taken {
                    let representation = LxmfNode::representation(&entry.message);
                    record_successful_submission_attempt(entry, &representation);
                    entry.state = if is_single(&representation) {
                        MessageState::Sent
                    } else {
                        MessageState::Sending
                    };
                } else {
                    entry.attempts = entry.attempts + 1;
                }
                entry.next_attempt_ms = t.now_ms.saturating_add(DELIVERY_RETRY_WAIT_MS);
            },
            Some(LxmfNodeError::DirectLinkUnavailable) => {
                let destination = entry.message.destination_hash;
                match self.node.ensure_direct_link(destination, f.link_active, &f.core) {
                    Ok((DirectLinkState::PathRequested, _)) => {
                        entry.attempts = entry.attempts + 1;
                        entry.next_attempt_ms = t.now_ms.saturating_add(PATH_REQUEST_WAIT_MS);
                    },
                    Ok((DirectLinkState::Connecting(_), _)) | Ok((DirectLinkState::Ready(_), _)) => {
                        entry.next_attempt_ms = t.now_ms.saturating_add(PROCESSING_INTERVAL_MS);
                    },
                    _ => {
                        entry.attempts = entry.attempts + 1;
                        entry.next_attempt_ms = t.now_ms.saturating_add(DELIVERY_RETRY_WAIT_MS);
                    },
                }
            },
            Some(_) => {
                entry.attempts = entry.attempts + 1;
                entry.next_attempt_ms = t.now_ms.saturating_add(DELIVERY_RETRY_WAIT_MS);
            },
        }
    }

    fn hand_over(
        &mut self,
        id: [u8; 32],
        entry: OutboundEntry,
        t: &Timing,
        f: &AttemptFacts,
        Ghost(c): Ghost<Router>,
    ) -> (r: Vec<RouterEvent>)
        requires
            old(self).wf(),
            c.kept.outbound.contains_key(id),
            c.kept.outbound[id] == entry@,
            entry.attempts < MAX_DELIVERY_ATTEMPTS,
            old(self)@ == with_queue(c, c.kept.outbound.remove(id)),
        ensures
            final(self).wf(),
            final(self)@ == (Router { dirty: c.dirty, ..handed_over(c, id, *t, *f).0 }),
            notes(r@) == handed_over(c, id, *t, *f).1,
    {
        let mut entry = entry;
        let (fault, events) = self.lodge(id, &entry.message, f);
        self.reschedule(&mut entry, fault, t, f);
        self.put_entry(id, entry);
        assert(self@.kept.outbound =~= c.kept.outbound.insert(id, entry@));
        events
    }

    /// Tries one message. What the attempt demands of the stack is
    /// [`Self::attempt_call`]'s to say and comes before.
    pub fn attempt(&mut self, id: &[u8; 32], t: &Timing, f: &AttemptFacts) -> (r: Vec<RouterEvent>)
        requires
            old(self).wf(),
        ensures
            final(self).wf(),
            final(self)@ == attempted(old(self)@, *id, *t, *f).0,
            notes(r@) == attempted(old(self)@, *id, *t, *f).1,
    {
        let ghost c = self@;
        let verdict = match self.judge(id, t, f.core.has_path) {
            Some(verdict) => verdict,
            None => {
                return none();
            },
        };
        let mut entry = match self.take_entry(id) {
            Some(entry) => entry,
            None => {
                return none();
            },
        };
        let events = match verdict {
            Verdict::Wait => {
                entry.next_attempt_ms = t.now_ms.saturating_add(PROCESSING_INTERVAL_MS);
                self.update_entry(*id, entry, Ghost(c));
                none()
            },
            Verdict::Fail => {
                let _ = self.preemptive_path_requests.remove(id);
                assert(self@.asked =~= c.asked.remove(*id));
                one(RouterEvent::MessageState { message_id: *id, state: MessageState::Failed })
            },
            Verdict::Stamp(target_cost) => {
                entry.next_attempt_ms = t.now_ms.saturating_add(PROCESSING_INTERVAL_MS);
                self.update_entry(*id, entry, Ghost(c));
                one(
                    RouterEvent::StampPending(
                        DeliveryStampRequest { message_id: *id, target_cost },
                    ),
                )
            },
            Verdict::FirstPath => {
                entry.next_attempt_ms = t.now_ms.saturating_add(PATH_REQUEST_WAIT_MS);
                self.update_entry(*id, entry, Ghost(c));
                let _ = self.preemptive_path_requests.insert(*id, ());
                assert(self@.asked =~= c.asked.insert(*id));
                none()
            },
            Verdict::Path | Verdict::Renew => {
                entry.attempts = entry.attempts + 1;
                entry.next_attempt_ms = t.now_ms.saturating_add(PATH_REQUEST_WAIT_MS);
                self.update_entry(*id, entry, Ghost(c));
                none()
            },
            Verdict::Submit => self.hand_over(*id, entry, t, f, Ghost(c)),
        };
        self.persistence_dirty = true;
        events
    }

    /// The messages that a tick tries.
    pub fn due(&self, now_ms: u64) -> (r: Vec<[u8; 32]>)
        requires
            self.wf(),
        ensures
            r@ == crate::bytemap::keys_where(self@.kept.outbound, is_due(now_ms)),
    {
        let ghost view = |e: OutboundEntry| e@;
        let ghost s = self.kept.outbound.entries@.map_values(
            |e: ([u8; 32], OutboundEntry)| (e.0, e.1@),
        );
        let mut r: Vec<[u8; 32]> = Vec::new();
        proof {
            crate::bytemap::lemma_mapped(self.kept.outbound.entries@, view);
            assert(self.kept.outbound.entries@.map_values(
                |e: ([u8; 32], OutboundEntry)| (e.0, view(e.1)),
            ) =~= s);
            crate::bytemap::lemma_keys_of(s, is_due(now_ms));
        }
        let mut i: usize = 0;
        while i < self.kept.outbound.entries.len()
            invariant
                i <= self.kept.outbound.entries@.len() == s.len(),
                s == self.kept.outbound.entries@.map_values(
                    |e: ([u8; 32], OutboundEntry)| (e.0, e.1@),
                ),
                r@ == crate::bytemap::keys_listed(s.take(i as int), is_due(now_ms)),
            decreases s.len() - i,
        {
            let entry = &self.kept.outbound.entries[i];
            proof {
                assert(s.take(i + 1).drop_last() =~= s.take(i as int));
                assert(s.take(i + 1).last() == (entry.0, entry.1@));
            }
            if entry.1.message.method != DeliveryMethod::Propagated && entry.1.next_attempt_ms
                <= now_ms {
                r.push(entry.0);
            }
            i = i + 1;
        }
        assert(s.take(s.len() as int) =~= s);
        r
    }

    /// Begins a processing round, if one is due, and gives the messages to be
    /// tried in it, in order. Each is then tried with [`Self::attempt`], and
    /// [`Self::finish_tick`] ends the round.
    ///
    /// The time of the next round is no reason to write the snapshot: an idle
    /// host writes nothing.
    pub fn tick(&mut self, now_ms: u64) -> (r: Option<Vec<[u8; 32]>>)
        requires
            old(self).wf(),
        ensures
            final(self).wf(),
            match r {
                Some(due) => {
                    &&& now_ms >= old(self)@.next_job_ms
                    &&& due@ == crate::bytemap::keys_where(old(self)@.kept.outbound, is_due(now_ms))
                    &&& final(self)@ == begun(old(self)@, now_ms)
                },
                None => now_ms < old(self)@.next_job_ms && final(self)@ == old(self)@,
            },
    {
        if now_ms < self.next_job_ms {
            return None;
        }
        let due = self.due(now_ms);
        self.next_job_ms = now_ms.saturating_add(PROCESSING_INTERVAL_MS);
        Some(due)
    }

    /// Drops what has grown too old. `tickets` is the store without the
    /// tickets that have expired, if any had.
    pub fn clean(&mut self, now_unix: u64, tickets: Option<TicketStore>)
        requires
            old(self).wf(),
            tickets matches Some(store) ==> store.wf(),
        ensures
            final(self).wf(),
            final(self)@ == cleaned(
                old(self)@,
                now_unix,
                match tickets {
                    Some(store) => Some(store@),
                    None => None,
                },
            ),
    {
        let ghost c = self@;
        let cost_stays = |k: &[u8; 16], e: &StampCost| -> (b: bool)
            ensures b == ieee::within(now_unix, e.seen, STAMP_COST_EXPIRY as nat), { ieee::is_within(now_unix, e.seen, STAMP_COST_EXPIRY) };
        let ghost spec_cost = |k: [u8; 16], e: StampCost|
            ieee::within(now_unix, e.seen, STAMP_COST_EXPIRY as nat);
        let id_stays = |k: &[u8; 32], seen: &u64| -> (b: bool)
            ensures b == ieee::within(now_unix, *seen, ID_EXPIRY_SECS as nat), { ieee::is_within(now_unix, *seen, ID_EXPIRY_SECS) };
        let ghost spec_id = |k: [u8; 32], seen: u64|
            ieee::within(now_unix, seen, ID_EXPIRY_SECS as nat);
        let costs_before: usize = self.kept.outbound_stamp_costs.len();
        let delivered_before: usize = self.kept.delivered_ids.len();
        let processed_before: usize = self.kept.processed_ids.len();
        proof {
            crate::bytemap::lemma_len(self.kept.outbound_stamp_costs.entries@);
            crate::bytemap::lemma_len(self.kept.delivered_ids.entries@);
            crate::bytemap::lemma_len(self.kept.processed_ids.entries@);
        }
        self.kept.outbound_stamp_costs.retain(cost_stays, Ghost(spec_cost));
        self.kept.delivered_ids.retain(id_stays, Ghost(spec_id));
        self.kept.processed_ids.retain(id_stays, Ghost(spec_id));
        proof {
            crate::bytemap::lemma_len(self.kept.outbound_stamp_costs.entries@);
            crate::bytemap::lemma_len(self.kept.delivered_ids.entries@);
            crate::bytemap::lemma_len(self.kept.processed_ids.entries@);
            crate::bytemap::lemma_restricted_len(c.kept.costs, spec_cost);
            crate::bytemap::lemma_restricted_len(c.kept.delivered, spec_id);
            crate::bytemap::lemma_restricted_len(c.kept.processed, spec_id);
        }
        if costs_before != self.kept.outbound_stamp_costs.len() || delivered_before
            != self.kept.delivered_ids.len() || processed_before != self.kept.processed_ids.len() {
            self.persistence_dirty = true;
        }
        if let Some(store) = tickets {
            self.kept.tickets = store;
            self.persistence_dirty = true;
        }
    }

    /// Ends a processing round; `events` are those of its attempts.
    pub fn finish_tick(
        &mut self,
        now_unix: u64,
        tickets: Option<TicketStore>,
        events: Vec<RouterEvent>,
        client: Option<u64>,
    ) -> (r: RouterOutput)
        requires
            old(self).wf(),
            tickets matches Some(store) ==> store.wf(),
        ensures
            final(self).wf(),
            final(self)@ == cleaned(
                old(self)@,
                now_unix,
                match tickets {
                    Some(store) => Some(store@),
                    None => None,
                },
            ),
            timed(r, final(self)@, notes(events@), client),
    {
        self.clean(now_unix, tickets);
        self.finish_timed(events, client)
    }
}

/// A processing round has begun.
pub open spec fn begun(c: Router, now_ms: u64) -> Router {
    Router { next_job_ms: crate::node::capped_sum(now_ms, PROCESSING_INTERVAL_MS), ..c }
}

// ---------------------------------------------------------------------------
// Laws
// ---------------------------------------------------------------------------

/// How often a report asks for the snapshot to be written.
pub open spec fn requests(s: Seq<RouterNote>) -> nat {
    s.filter(|n: RouterNote| n == RouterNote::PersistenceRequested).len()
}

proof fn lemma_requests_push(s: Seq<RouterNote>, n: RouterNote)
    ensures
        requests(s.push(n)) == requests(s) + if n == RouterNote::PersistenceRequested {
            1int
        } else {
            0
        },
{
    reveal(Seq::filter);
    assert(s.push(n).drop_last() =~= s);
}

proof fn lemma_once(s: Seq<RouterNote>)
    ensures
        requests(once(s)) == if s.contains(RouterNote::PersistenceRequested) {
            1int
        } else {
            0
        },
        once(s).contains(RouterNote::PersistenceRequested) == s.contains(
            RouterNote::PersistenceRequested,
        ),
    decreases s.len(),
{
    reveal(Seq::filter);
    if s.len() > 0 {
        let r = once(s.drop_last());
        lemma_once(s.drop_last());
        lemma_requests_push(r, s.last());
        lemma_push_contains(s.drop_last(), s.last(), RouterNote::PersistenceRequested);
        lemma_push_contains(r, s.last(), RouterNote::PersistenceRequested);
        assert(s.drop_last().push(s.last()) =~= s);
    }
}

/// Whatever made the snapshot due, and however often, an operation asks for it
/// to be written exactly once; an operation that changed nothing since the last
/// write, and was asked for none, does not ask.
pub proof fn law_one_request_per_operation(dirty: bool, s: Seq<RouterNote>)
    ensures
        requests(finished(dirty, s)) == if dirty || s.contains(RouterNote::PersistenceRequested) {
            1int
        } else {
            0
        },
{
    lemma_once(s);
    lemma_requests_push(once(s), RouterNote::PersistenceRequested);
}

/// No queued message has more attempts behind it than it is given.
pub open spec fn within_attempts(c: Router) -> bool {
    forall|id: [u8; 32]| #[trigger]
        c.kept.outbound.contains_key(id) ==> c.kept.outbound[id].attempts <= MAX_DELIVERY_ATTEMPTS
}

/// An attempt never takes a message beyond the attempts that it is given.
pub proof fn law_attempts_are_bounded(c: Router, id: [u8; 32], t: Timing, f: AttemptFacts)
    requires
        within_attempts(c),
    ensures
        within_attempts(attempted(c, id, t, f).0),
{
    let n = attempted(c, id, t, f).0;
    assert forall|o: [u8; 32]| #[trigger] n.kept.outbound.contains_key(o) implies n.kept.outbound[o].attempts
        <= MAX_DELIVERY_ATTEMPTS by {
        if o != id {
            assert(c.kept.outbound.contains_key(o));
        } else {
            assert(c.kept.outbound.contains_key(id));
        }
    }
}

/// Each attempt spends at most one of the attempts that a message has, and
/// touches no other message in the queue.
pub proof fn law_attempt_is_local(
    c: Router,
    id: [u8; 32],
    t: Timing,
    f: AttemptFacts,
    other: [u8; 32],
)
    requires
        other != id,
    ensures
        attempted(c, id, t, f).0.kept.outbound.contains_key(other)
            == c.kept.outbound.contains_key(other),
        c.kept.outbound.contains_key(other) ==> attempted(c, id, t, f).0.kept.outbound[other]
            == c.kept.outbound[other],
        ({
            let n = attempted(c, id, t, f).0;
            n.kept.outbound.contains_key(id) ==> {
                &&& c.kept.outbound.contains_key(id)
                &&& n.kept.outbound[id].mail == c.kept.outbound[id].mail
                &&& c.kept.outbound[id].attempts <= n.kept.outbound[id].attempts
                    <= c.kept.outbound[id].attempts + 1
            }
        }),
{
}

/// After an attempt the message is gone or waits for at least one processing
/// interval, so that no round tries it twice.
pub proof fn law_attempt_moves_on(c: Router, id: [u8; 32], t: Timing, f: AttemptFacts)
    requires
        t.now_ms <= u64::MAX - DELIVERY_RETRY_WAIT_MS,
    ensures
        ({
            let n = attempted(c, id, t, f).0;
            n.kept.outbound.contains_key(id) ==> n.kept.outbound[id].next_attempt_ms >= t.now_ms
                + PROCESSING_INTERVAL_MS
        }),
{
}

/// A message whose attempts are spent, and which no transfer holds, fails at
/// its next attempt and leaves the queue.
pub proof fn law_spent_message_fails(c: Router, id: [u8; 32], t: Timing, f: AttemptFacts)
    requires
        c.kept.outbound.contains_key(id),
        c.kept.outbound[id].attempts >= MAX_DELIVERY_ATTEMPTS,
        !(direct(c.kept.outbound[id].mail) && c.kept.outbound[id].state == MessageState::Sending),
    ensures
        attempted(c, id, t, f).1 == seq![state_note(id, MessageState::Failed)],
        !attempted(c, id, t, f).0.kept.outbound.contains_key(id),
        attempt_demand(c, id, t, f) is None,
{
}

/// A direct transfer that is under way owns its attempt: the scheduler neither
/// sends again nor counts nor fails the message until the transfer ends.
pub proof fn law_transfer_owns_its_attempt(c: Router, id: [u8; 32], t: Timing, f: AttemptFacts)
    requires
        c.kept.outbound.contains_key(id),
        direct(c.kept.outbound[id].mail),
        c.kept.outbound[id].state == MessageState::Sending,
    ensures
        attempt_demand(c, id, t, f) is None,
        attempted(c, id, t, f) == (
            put(c, id, later(c.kept.outbound[id], t.now_ms, PROCESSING_INTERVAL_MS)),
            Seq::<RouterNote>::empty(),
        ),
{
}

/// The path request before the first single packet is free, and is made once:
/// until the router restarts the same message does not get another one.
pub proof fn law_first_path_request_is_free(
    c: Router,
    id: [u8; 32],
    t: Timing,
    f: AttemptFacts,
    later_t: Timing,
    has_path: bool,
)
    requires
        c.kept.outbound.contains_key(id),
        verdict(c, id, t, f.core.has_path) is FirstPath,
    ensures
        ({
            let n = attempted(c, id, t, f).0;
            &&& n.kept.outbound[id].attempts == c.kept.outbound[id].attempts == 0
            &&& n.asked.contains(id)
            &&& !(verdict(n, id, later_t, has_path) is FirstPath)
        }),
{
}

/// A link that comes up wakes messages without counting an attempt, and puts
/// none of them off.
pub proof fn law_waking_spends_no_attempt(
    c: Router,
    d: DestinationHash,
    now_ms: u64,
    id: [u8; 32],
)
    requires
        c.kept.outbound.contains_key(id),
    ensures
        ({
            let n = woken(c, d, now_ms);
            &&& n.kept.outbound.contains_key(id)
            &&& n.kept.outbound[id] == (Queued {
                next_attempt_ms: n.kept.outbound[id].next_attempt_ms,
                ..c.kept.outbound[id]
            })
            &&& n.kept.outbound[id].next_attempt_ms <= c.kept.outbound[id].next_attempt_ms
            &&& sleeping(c.kept.outbound[id], d, now_ms) ==> n.kept.outbound[id].next_attempt_ms
                == now_ms && n.next_job_ms <= now_ms
        }),
{
}

/// Only queueing a message makes the queue longer: neither an attempt nor a
/// report of the stack puts a message in.
pub proof fn law_queue_never_grows(
    c: Router,
    note: crate::node::NodeNote,
    id: [u8; 32],
    t: Timing,
    f: MessageFacts,
    a: AttemptFacts,
)
    ensures
        absorbed(c, note, t, f).0.kept.outbound.dom().subset_of(c.kept.outbound.dom()),
        attempted(c, id, t, a).0.kept.outbound.dom().subset_of(c.kept.outbound.dom()),
{
}

/// A message is delivered to the application at most once while its identifier
/// is remembered: the second copy is a duplicate.
pub proof fn law_delivered_once(
    c: Router,
    mail: crate::message::Mail,
    now: u64,
    copy: crate::message::Mail,
    then: u64,
)
    requires
        c.config.max_delivered_ids > 0,
        accepted(c, mail, now).1.contains(RouterNote::MessageReceived(mail)),
        copy.id == mail.id,
    ensures
        accepted(accepted(c, mail, now).0, copy, then).0 == accepted(c, mail, now).0,
        forall|m: crate::message::Mail|
            !(#[trigger] accepted(accepted(c, mail, now).0, copy, then).1.contains(
                RouterNote::MessageReceived(m),
            )),
        !c.kept.ignored.contains_key(copy.source) && copy.verification != Verification::Invalid
            ==> accepted(accepted(c, mail, now).0, copy, then).1 == seq![
            RouterNote::Duplicate(mail.id),
        ],
{
}

/// Nothing from an ignored source, and nothing with a signature that does not
/// hold, reaches the application.
pub proof fn law_policy_comes_before_delivery(
    c: Router,
    mail: crate::message::Mail,
    now: u64,
    f: MessageFacts,
    m: crate::message::Mail,
)
    requires
        c.kept.ignored.contains_key(mail.source) || mail.verification == Verification::Invalid,
    ensures
        !received(c, mail, now, f).1.contains(RouterNote::MessageReceived(m)),
        received(c, mail, now, f).0.kept.delivered == c.kept.delivered,
{
}

/// A message from a source that has not announced itself is delivered, as one
/// that could not be verified, whether or not stamps are demanded.
pub proof fn law_unknown_source_is_delivered(
    c: Router,
    mail: crate::message::Mail,
    now: u64,
    f: MessageFacts,
)
    requires
        mail.verification == Verification::Unverified,
        !c.kept.ignored.contains_key(mail.source),
        !c.kept.delivered.contains_key(mail.id),
    ensures
        received(c, mail, now, f).1 == seq![RouterNote::MessageReceived(mail)],
{
}

/// What is remembered about peers and messages stays within its bounds.
pub open spec fn caches_bounded(c: Router) -> bool {
    &&& c.kept.delivered.dom().finite()
    &&& c.kept.processed.dom().finite()
    &&& c.kept.costs.dom().finite()
    &&& c.kept.delivered.dom().len() <= c.config.max_delivered_ids
    &&& c.kept.processed.dom().len() <= c.config.max_processed_ids
    &&& c.kept.costs.dom().len() <= c.config.max_stamp_costs
}

proof fn lemma_oldest_in(times: Seq<u64>)
    requires
        times.len() > 0,
    ensures
        0 <= oldest(times) < times.len(),
    decreases times.len(),
{
    if times.len() > 1 {
        lemma_oldest_in(times.drop_last());
    }
}

proof fn lemma_roomy<const N: usize, V>(
    m: Map<[u8; N], V>,
    key: [u8; N],
    value: V,
    cap: nat,
    time: spec_fn(V) -> u64,
)
    requires
        m.dom().finite(),
        m.dom().len() <= cap,
        cap > 0,
    ensures
        roomy(m, key, cap, time).insert(key, value).dom().finite(),
        roomy(m, key, cap, time).insert(key, value).dom().len() <= cap,
{
    if !m.contains_key(key) && m.dom().len() >= cap {
        let rows = crate::bytemap::pairs(m);
        crate::bytemap::lemma_all_keys(m);
        let times = rows.map_values(|e: ([u8; N], V)| time(e.1));
        lemma_oldest_in(times);
        let k = rows[oldest(times)].0;
        crate::bytemap::lemma_keys_where(m, |v: V| true, oldest(times));
        assert(m.contains_key(k));
        assert(roomy(m, key, cap, time).dom() =~= m.dom().remove(k));
        assert(roomy(m, key, cap, time).insert(key, value).dom() =~= m.dom().remove(k).insert(key));
    } else if m.contains_key(key) {
        assert(roomy(m, key, cap, time).insert(key, value).dom() =~= m.dom());
    } else {
        assert(roomy(m, key, cap, time).insert(key, value).dom() =~= m.dom().insert(key));
    }
}

/// Remembering one more identifier or one more stamp cost keeps what is
/// remembered within its bounds: the oldest makes room.
pub proof fn law_caches_stay_bounded(
    c: Router,
    id: [u8; 32],
    now: u64,
    d: DestinationHash,
    entry: StampCost,
)
    requires
        caches_bounded(c),
    ensures
        caches_bounded(with_delivered(c, id, now)),
        caches_bounded(with_processed(c, id, now)),
        caches_bounded(with_cost(c, d, entry)),
{
    if c.config.max_delivered_ids > 0 {
        lemma_roomy(c.kept.delivered, id, now, c.config.max_delivered_ids as nat, |t: u64| t);
    }
    if c.config.max_processed_ids > 0 {
        lemma_roomy(c.kept.processed, id, now, c.config.max_processed_ids as nat, |t: u64| t);
    }
    if c.config.max_stamp_costs > 0 {
        lemma_roomy(
            c.kept.costs,
            d,
            entry,
            c.config.max_stamp_costs as nat,
            |e: StampCost| e.seen,
        );
    }
}

/// A router restores what it wrote: every queued message is there and due at
/// once for a fresh attempt, and everything else is as it was.
pub proof fn law_restart(r: LxmfRouter)
    requires
        r.wf(),
        forall|id: [u8; 32]| #[trigger]
            r@.kept.outbound.contains_key(id) ==> crate::snapshot::genuine(
                r@.kept.outbound[id].mail,
            ),
        crate::ticket::no_empty_group(r@.kept.tickets.inbound),
        snapshot_value(r@) is Ok,
    ensures
        restorable(r@, snapshot_value(r@)->Ok_0) == Ok::<crate::snapshot::Kept, ()>(
            crate::snapshot::Kept {
                outbound: r@.kept.outbound.map_values(
                    |q: Queued| crate::snapshot::resting(q),
                ),
                ..r@.kept
            },
        ),
{
    crate::snapshot::law_snapshot_round_trip(r@.identity, r@.config, r.kept, r@.next_job_ms);
}

/// A snapshot that was cut short, that has bytes behind it, that is too long,
/// that belongs to another identity or that holds more than a limit allows
/// cannot be restored; what cannot be restored leaves the router as it was.
pub proof fn law_broken_snapshot_is_refused(
    c: Router,
    data: Seq<u8>,
    n: int,
    more: Seq<u8>,
    other: [u8; 16],
)
    ensures
        data.len() > c.config.max_snapshot_bytes ==> restorable(c, data) is Err,
        restorable(c, data) is Ok ==> {
            &&& 0 <= n < data.len() ==> restorable(c, data.take(n)) is Err
            &&& more.len() > 0 ==> restorable(c, data + more) is Err
            &&& other != c.identity ==> restorable(Router { identity: other, ..c }, data) is Err
        },
        restorable(c, data) matches Ok(k) ==> {
            &&& k.outbound.dom().len() <= c.config.max_outbound
            &&& k.delivered.dom().len() <= c.config.max_delivered_ids
            &&& k.processed.dom().len() <= c.config.max_processed_ids
            &&& k.costs.dom().len() <= c.config.max_stamp_costs
            &&& k.ignored.dom().len() <= c.config.max_policy_entries
            &&& crate::ticket::entries(k.tickets) <= c.config.max_tickets
        },
{
    if restorable(c, data) is Ok {
        if 0 <= n < data.len() {
            crate::snapshot::law_truncated_snapshot_is_refused(data, n, c.identity, c.config);
        }
        if more.len() > 0 {
            crate::snapshot::law_extended_snapshot_is_refused(data, more, c.identity, c.config);
        }
        if other != c.identity {
            crate::snapshot::law_foreign_snapshot_is_refused(data, c.identity, other, c.config);
        }
        crate::snapshot::law_oversized_snapshot_is_refused(data, c.identity, c.config);
    }
}

/// A processing round: the messages of `due` are tried in order, each with
/// what the stack told about it.
pub open spec fn round(c: Router, due: Seq<[u8; 32]>, t: Timing, f: Seq<AttemptFacts>) -> (
    Router,
    Seq<RouterNote>,
)
    decreases due.len(),
{
    if due.len() == 0 {
        (c, seq![])
    } else {
        let n = due.len() - 1;
        let (mid, out) = round(c, due.drop_last(), t, f);
        let (next, more) = attempted(mid, due[n], t, f[n]);
        (next, out + more)
    }
}

/// What a round leaves of a message: one that it tried waits for at least one
/// processing interval, and one that it did not try is as it was.
proof fn lemma_round(c: Router, due: Seq<[u8; 32]>, t: Timing, f: Seq<AttemptFacts>, id: [u8; 32])
    requires
        t.now_ms <= u64::MAX - DELIVERY_RETRY_WAIT_MS,
    ensures
        ({
            let n = round(c, due, t, f).0;
            n.kept.outbound.contains_key(id) ==> {
                &&& c.kept.outbound.contains_key(id)
                &&& if due.contains(id) {
                    n.kept.outbound[id].next_attempt_ms >= t.now_ms + PROCESSING_INTERVAL_MS
                } else {
                    n.kept.outbound[id] == c.kept.outbound[id]
                }
            }
        }),
    decreases due.len(),
{
    if due.len() > 0 {
        let rest = due.drop_last();
        let last = due.last();
        let mid = round(c, rest, t, f).0;
        lemma_round(c, rest, t, f, id);
        lemma_push_contains(rest, last, id);
        assert(rest.push(last) =~= due);
        if last == id {
            law_attempt_moves_on(mid, id, t, f[due.len() - 1]);
        }
    }
}

/// A processing round tries every message that is due: afterwards none is due
/// for another processing interval, except those of the propagation client.
pub proof fn law_round_leaves_nothing_due(c: Router, t: Timing, f: Seq<AttemptFacts>, id: [u8; 32])
    requires
        c.kept.outbound.dom().finite(),
        t.now_ms <= u64::MAX - DELIVERY_RETRY_WAIT_MS,
    ensures
        ({
            let due = crate::bytemap::keys_where(c.kept.outbound, is_due(t.now_ms));
            let n = round(begun(c, t.now_ms), due, t, f).0;
            n.kept.outbound.contains_key(id) && n.kept.outbound[id].mail.method
                != DeliveryMethod::Propagated ==> n.kept.outbound[id].next_attempt_ms > t.now_ms
        }),
{
    let due = crate::bytemap::keys_where(c.kept.outbound, is_due(t.now_ms));
    let n = round(begun(c, t.now_ms), due, t, f).0;
    lemma_round(begun(c, t.now_ms), due, t, f, id);
    if c.kept.outbound.contains_key(id) && is_due(t.now_ms)(c.kept.outbound[id]) {
        crate::bytemap::lemma_keys_where_complete(c.kept.outbound, is_due(t.now_ms), id);
    }
}

/// A processing round spends at most one attempt on each message that it
/// tries and none on the others, and changes no message.
pub proof fn law_round_is_fair(
    c: Router,
    due: Seq<[u8; 32]>,
    t: Timing,
    f: Seq<AttemptFacts>,
    id: [u8; 32],
)
    requires
        due.no_duplicates(),
    ensures
        ({
            let n = round(c, due, t, f).0;
            n.kept.outbound.contains_key(id) ==> {
                &&& c.kept.outbound.contains_key(id)
                &&& n.kept.outbound[id].mail == c.kept.outbound[id].mail
                &&& c.kept.outbound[id].attempts <= n.kept.outbound[id].attempts
                &&& n.kept.outbound[id].attempts <= c.kept.outbound[id].attempts + (
                if due.contains(id) {
                    1int
                } else {
                    0
                })
            }
        }),
    decreases due.len(),
{
    if due.len() > 0 {
        let rest = due.drop_last();
        let last = due.last();
        let mid = round(c, rest, t, f).0;
        law_round_is_fair(c, rest, t, f, id);
        lemma_push_contains(rest, last, id);
        assert(rest.push(last) =~= due);
        if last == id {
            assert(!rest.contains(id)) by {
                if rest.contains(id) {
                    let i = choose|i: int| 0 <= i < rest.len() && rest[i] == id;
                    assert(due[i] == due[due.len() - 1]);
                }
            }
        }
    }
}

/// What cancelling a message does.
pub open spec fn cancelling(
    before: Router,
    after: Router,
    id: [u8; 32],
    r: Result<RouterOutput, RouterError>,
) -> bool {
    if !before.kept.outbound.contains_key(id) {
        &&& r == Err::<RouterOutput, RouterError>(RouterError::NotFound)
        &&& after == before
    } else {
        let propagated = before.kept.outbound[id].mail.method
            == DeliveryMethod::Propagated;
        let gone = dropped(before, id);
        &&& after == if propagated {
            gone
        } else {
            Router { node: crate::node::cancelled(gone.node, id), ..gone }
        }
        &&& r is Ok
        &&& r->Ok_0.next_deadline_ms is None
        &&& notes(r->Ok_0.events@) == finished(
            true,
            seq![state_note(id, MessageState::Cancelled)],
        )
        &&& r->Ok_0.calls@ == if propagated {
            Seq::<CoreCall>::empty()
        } else {
            crate::bytemap::keys_where(
                gone.node.resources,
                crate::node::sends(id),
            ).map_values(|link_id: LinkId| CoreCall::CloseLink { link_id })
        }
    }
}

/// What ignoring a source does.
pub open spec fn ignoring(before: Router, after: Router, source: [u8; 16]) -> bool {
    after == if !before.kept.ignored.contains_key(source) && before.kept.ignored.dom().len() < before.config.max_policy_entries {
        Router {
            kept: crate::snapshot::Kept {
                ignored: before.kept.ignored.insert(source, ()),
                ..before.kept
            },
            dirty: true,
            ..before
        }
    } else {
        before
    }
}

/// What ignoring a source no longer does.
pub open spec fn unignoring(before: Router, after: Router, source: [u8; 16]) -> bool {
    after == if before.kept.ignored.contains_key(source) {
        Router {
            kept: crate::snapshot::Kept {
                ignored: before.kept.ignored.remove(source),
                ..before.kept
            },
            dirty: true,
            ..before
        }
    } else {
        before
    }
}

/// What ignoring these sources, and no others, does.
pub open spec fn ignoring_only(
    before: Router,
    after: Router,
    ignored: Map<[u8; 16], ()>,
    r: Result<RouterOutput, RouterError>,
) -> bool {
    if ignored.dom().len() > before.config.max_policy_entries {
        &&& r == Err::<RouterOutput, RouterError>(RouterError::QueueFull)
        &&& after == before
    } else {
        &&& after == (Router {
            kept: crate::snapshot::Kept { ignored, ..before.kept },
            dirty: before.dirty || ignored != before.kept.ignored,
            ..before
        })
        &&& r is Ok
        &&& plain(r->Ok_0, after, seq![])
    }
}

/// What attaching a delivery stamp does.
pub open spec fn stamping(
    before: Router,
    after: Router,
    id: [u8; 32],
    stamp: Seq<u8>,
    now_ms: u64,
    client: Option<u64>,
    r: Result<RouterOutput, RouterError>,
) -> bool {
    if !before.kept.outbound.contains_key(id) {
        &&& r == Err::<RouterOutput, RouterError>(RouterError::NotFound)
        &&& after == before
    } else if stamp.len() != 16 && stamp.len() != 32 {
        &&& r == Err::<RouterOutput, RouterError>(
            RouterError::Message(MessageError::InvalidFormat),
        )
        &&& after == before
    } else {
        &&& after == roused(
            before,
            id,
            restamped(before.kept.outbound[id], stamp, now_ms),
            now_ms,
        )
        &&& r is Ok
        &&& timed(r->Ok_0, after, seq![], client)
    }
}

/// What attaching a delivery stamp that was asked for does.
pub open spec fn stamping_as_asked(
    before: Router,
    after: Router,
    request: DeliveryStampRequest,
    stamp: Seq<u8>,
    t: Timing,
    client: Option<u64>,
    r: Result<RouterOutput, RouterError>,
) -> bool {
    if stamp_request(before, request.message_id, t.now_unix) != Some(request) {
        &&& r == Err::<RouterOutput, RouterError>(RouterError::StaleStampRequest)
        &&& after == before
    } else if stamp.len() != 16 && stamp.len() != 32 {
        &&& r == Err::<RouterOutput, RouterError>(
            RouterError::Message(MessageError::InvalidFormat),
        )
        &&& after == before
    } else {
        &&& after == roused(
            before,
            request.message_id,
            restamped(
                before.kept.outbound[request.message_id],
                stamp,
                t.now_ms,
            ),
            t.now_ms,
        )
        &&& r is Ok
        &&& timed(r->Ok_0, after, seq![], client)
    }
}

/// What attaching a propagation stamp does.
pub open spec fn node_stamping(
    before: Router,
    after: Router,
    id: [u8; 32],
    stamp: [u8; STAMP_SIZE],
    now_ms: u64,
    client: Option<u64>,
    r: Result<RouterOutput, RouterError>,
) -> bool {
    match propagation_fault(before, id) {
        Some(e) => {
            &&& r == Err::<RouterOutput, RouterError>(e)
            &&& after == before
        },
        None => {
            &&& after == roused(
                before,
                id,
                node_stamped(before.kept.outbound[id], stamp, now_ms),
                now_ms,
            )
            &&& r is Ok
            &&& timed(r->Ok_0, after, seq![], client)
        },
    }
}

/// What attaching a propagation stamp that was asked for does.
pub open spec fn node_stamping_as_asked(
    before: Router,
    after: Router,
    request: PropagationStampRequest,
    stamp: [u8; STAMP_SIZE],
    now_ms: u64,
    client: Option<u64>,
    r: Result<RouterOutput, RouterError>,
) -> bool {
    if propagation_request(before, request.message_id) != Some(request) {
        &&& r == Err::<RouterOutput, RouterError>(RouterError::StaleStampRequest)
        &&& after == before
    } else if before.kept.outbound[request.message_id].mail.method
        != DeliveryMethod::Propagated {
        &&& r == Err::<RouterOutput, RouterError>(RouterError::UnsupportedMethod)
        &&& after == before
    } else {
        &&& after == roused(
            before,
            request.message_id,
            node_stamped(
                before.kept.outbound[request.message_id],
                stamp,
                now_ms,
            ),
            now_ms,
        )
        &&& r is Ok
        &&& timed(r->Ok_0, after, seq![], client)
    }
}

/// What handing a built transfer to the stack does.
pub open spec fn committing(
    before: Router,
    after: Router,
    built: BuiltResource,
    link_active: bool,
    committed: Result<[u8; 32], ResourceError>,
    r: Result<RouterOutput, RouterError>,
) -> bool {
    match build_fault(before, built.kind, link_active, committed) {
        Some(e) => {
            &&& after == before
            &&& r == Err::<RouterOutput, RouterError>(e)
        },
        None => {
            &&& r is Ok
            &&& r->Ok_0.calls@.len() == 0
            &&& r->Ok_0.next_deadline_ms is None
            &&& r->Ok_0.events@.len() == 0
            &&& match built.kind {
                BuiltKind::Delivery(prepared) => after == (Router {
                    node: crate::node::resource_submitted(
                        before.node,
                        prepared.link_id,
                        prepared.message_id,
                        committed->Ok_0,
                        prepared.packed_len as nat,
                    ),
                    ..before
                }),
                BuiltKind::Upload(prepared) => {
                    &&& after.propagation is Some
                    &&& after == (Router {
                        propagation: after.propagation,
                        ..before
                    })
                    &&& after.propagation->0.same_end(&before.propagation->0)
                    &&& after.propagation->0@
                        == crate::propagation_client::uploading_on(
                        before.propagation->0@,
                        prepared,
                        committed->Ok_0,
                    )
                },
            }
        },
    }
}

/// What issuing a ticket to a peer does.
pub open spec fn issuing(
    before: Router,
    after: Router,
    plausible_clock: bool,
    destination: [u8; 16],
    issued: crate::ticket::Tickets,
    value: Option<Seq<u8>>,
    r: Result<(Option<Field>, RouterOutput), RouterError>,
) -> bool {
    if !plausible_clock {
        &&& r == Err::<(Option<Field>, RouterOutput), RouterError>(RouterError::NoWallClock)
        &&& after == before
    } else if crate::ticket::entries(issued) + (if value is Some
        && !issued.last.contains_key(destination) {
        1int
    } else {
        0
    }) > before.config.max_tickets {
        &&& r == Err::<(Option<Field>, RouterOutput), RouterError>(RouterError::QueueFull)
        &&& after == before
    } else {
        &&& after == (Router {
            kept: crate::snapshot::Kept { tickets: issued, ..before.kept },
            dirty: before.dirty || crate::ticket::entries(issued)
                != crate::ticket::entries(before.kept.tickets),
            ..before
        })
        &&& r is Ok
        &&& plain(r->Ok_0.1, after, seq![])
        &&& match (value, r->Ok_0.0) {
            (Some(v), Some(field)) => field.0 == FIELD_TICKET && field.1@ == v,
            (None, None) => true,
            _ => false,
        }
    }
}

/// What writing the snapshot does.
pub open spec fn persisting(
    before: Router,
    after: Router,
    stored: Result<(), StorageError>,
    r: Result<(), RouterError>,
) -> bool {
    match (snapshot_value(before), stored) {
        (Err(e), _) => {
            &&& r == Err::<(), RouterError>(e)
            &&& after == before
        },
        (Ok(_), Err(e)) => {
            &&& r == Err::<(), RouterError>(RouterError::Storage(e))
            &&& after == before
        },
        (Ok(_), Ok(_)) => {
            &&& r is Ok
            &&& after == (Router { dirty: false, ..before })
        },
    }
}

/// What reading the snapshot does.
pub open spec fn restoring(
    before: Router,
    after: Router,
    stored: Result<Option<Vec<u8>>, StorageError>,
    r: Result<(), RouterError>,
) -> bool {
    match stored {
        Err(e) => {
            &&& r == Err::<(), RouterError>(RouterError::Storage(e))
            &&& after == before
        },
        Ok(None) => r is Ok && after == before,
        Ok(Some(data)) => match restorable(before, data@) {
            Ok(kept) => {
                &&& r is Ok
                &&& after == (Router {
                    kept,
                    asked: Set::empty(),
                    next_job_ms: 0,
                    dirty: false,
                    ..before
                })
            },
            Err(_) => {
                &&& r == Err::<(), RouterError>(RouterError::CorruptSnapshot)
                &&& after == before
            },
        },
    }
}

/// What the verdict on the stamp of a received message does.
pub open spec fn judging(
    before: Router,
    after: Router,
    request: InboundStampRequest,
    valid: bool,
    r: Result<RouterOutput, RouterError>,
) -> bool {
    if before.config.inbound_stamp_cost != Some(request.target_cost) || waiting_for(
        before.waiting,
        request.message_id,
    ) < 0 {
        &&& r == Err::<RouterOutput, RouterError>(RouterError::StaleStampRequest)
        &&& after == before
    } else {
        let out = checked(
            before,
            waiting_for(before.waiting, request.message_id),
            valid,
        );
        &&& after == out.0
        &&& r is Ok
        &&& plain(r->Ok_0, out.0, out.1)
    }
}

/// What giving the router a mailbox client does.
pub open spec fn enabling(
    before: Router,
    after: Router,
    transport: PropagationTransport,
    r: Result<(), RouterError>,
) -> bool {
    if transport.identity_hash == before.identity {
        r is Ok && after == (Router { propagation: Some(transport), ..before })
    } else {
        &&& r == Err::<(), RouterError>(RouterError::IdentityMismatch)
        &&& after == before
    }
}

/// What queueing a message does.
pub open spec fn queueing(
    before: Router,
    after: Router,
    mail: crate::message::Mail,
    now_ms: u64,
    node_selected: bool,
    reply_stamp: Option<Seq<u8>>,
    r: Result<RouterOutput, RouterError>,
) -> bool {
    match queue_fault(before, mail, node_selected, reply_stamp) {
        Some(e) => {
            &&& r == Err::<RouterOutput, RouterError>(e)
            &&& after == before
        },
        None => {
            &&& after == put(
                before,
                mail.id,
                fresh(
                    match reply_stamp {
                        Some(s) => stamped(mail, s),
                        None => mail,
                    },
                    now_ms,
                ),
            )
            &&& r is Ok
            &&& plain(
                r->Ok_0,
                after,
                seq![RouterNote::MessageQueued(mail.id)],
            )
        },
    }
}

/// The queued message whose delivery an event reports.
pub open spec fn concluding(before: Router, event: CoreEvent, r: Option<[u8; 32]>) -> bool {
    r == match crate::node::concluding(before.node, event) {
        Some(id) => if before.kept.outbound.contains_key(id) {
            Some(id)
        } else {
            None
        },
        None => None,
    }
}

/// A message from the local destination was created from its parts.
pub open spec fn composed(
    home: DestinationHash,
    has_identity: bool,
    signature: Option<[u8; 64]>,
    destination_hash: [u8; 16],
    now_unix: u64,
    title: Vec<u8>,
    content: Vec<u8>,
    fields: Vec<Field>,
    method: DeliveryMethod,
    r: Result<Message, RouterError>,
) -> bool {
    match r {
        Ok(m) => {
            &&& has_identity
            &&& crate::message::fields_valid(crate::message::fields_view(fields@))
            &&& signature == Some(m.signature)
            &&& m.destination_hash == destination_hash
            &&& m.source_hash == home
            &&& m.timestamp == now_unix
            &&& m.title == title
            &&& m.content == content
            &&& m.fields == fields
            &&& m.stamp is None
            &&& m.message_id@ == crate::message::id_of(
                destination_hash@,
                home@,
                m.payload(),
            )
            &&& m.verification == Verification::Valid
            &&& m.method == method
        },
        Err(RouterError::NotFound) => !has_identity,
        Err(RouterError::Message(MessageError::InvalidField)) => {
            &&& has_identity
            &&& !crate::message::fields_valid(crate::message::fields_view(fields@))
        },
        Err(e) => {
            &&& e == RouterError::Message(MessageError::Identity)
            &&& has_identity
            &&& crate::message::fields_valid(crate::message::fields_view(fields@))
            &&& signature is None
        },
    }
}

/// A transfer was built, or could not be.
pub open spec fn built_from(
    b: Build,
    built: Result<(), ResourceError>,
    r: Result<BuiltResource, RouterError>,
) -> bool {
    r == match (b, built) {
        (Build::Delivery { params, data, .. }, Ok(_)) => Ok::<BuiltResource, RouterError>(
            BuiltResource {
                kind: BuiltKind::Delivery(
                    PreparedLxmfSend {
                        link_id: params.link_id,
                        message_id: params.message_id,
                        packed_len: data.len() as usize,
                    },
                ),
            },
        ),
        (Build::Delivery { .. }, Err(e)) => Err(
            RouterError::Node(LxmfNodeError::Resource(e)),
        ),
        (Build::Upload { params, .. }, Ok(_)) => Ok(
            BuiltResource {
                kind: BuiltKind::Upload(
                    PreparedUpload {
                        link_id: params.link_id,
                        message_id: params.message_id,
                        representation: params.representation,
                    },
                ),
            },
        ),
        (Build::Upload { .. }, Err(e)) => Err(
            RouterError::PropagationTransport(PropagationTransportError::Resource(e)),
        ),
    }
}

} // verus!
