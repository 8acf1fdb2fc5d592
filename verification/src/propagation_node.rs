//! The propagation-node role: announce, upload, mailbox.
//!
//! The node half of the exchange whose client half is in
//! [`crate::propagation_client`]. It performs no I/O and owns no links: the
//! caller feeds it what arrived and sends what it returns. Messages are kept in
//! a [`PropagationStore`].
use vstd::prelude::*;

use crate::bytemap::{same, to_array, ByteMap};
use crate::constants::{DESTINATION_LENGTH, LXMF_OVERHEAD, STAMP_SIZE};
use crate::hash::full_hash;
use crate::ieee;
use crate::msgpack;
use crate::propagation::{
    MessageGetRequest, MessageGetResponse, MessageListResponse, MetadataEntry, PropagationError,
    PropagationNodeAnnounce, PropagationSignal, PropagationUpload, TransferLimit, TransientId,
};
use crate::propagation_store::{PropagationStore, StoredMessage};
use crate::stable;
use crate::storage::StorageError;
use vstd::slice::slice_subrange;
use vstd::string::*;

pub use crate::serve_cost::{
    serve_buffered_peak_bytes, serve_cap_for_heap, serve_cap_for_live_heap, serve_cap_for_peak,
    serve_largest_block_bytes, serve_peak_bytes, PART_BOOKKEEPING_BYTES, RESPONSE_FRAME_BYTES,
};

verus! {

/// Key of the node name in the announce metadata.
pub const PN_META_NAME: u64 = 1;

/// Stored messages are dropped after 30 days.
pub const MESSAGE_EXPIRY_SECS: u64 = 2_592_000;

/// A processed transient ID is remembered six times as long as a message.
pub const PROCESSED_ID_EXPIRY_SECS: u64 = 15_552_000;

/// Age below which messages weigh by their size alone: four days.
pub const WEIGHT_AGE_SECS: u64 = 345_600;

/// Bytes a fetch is charged before its first message.
pub const FETCH_BASE_BYTES: u64 = 24;

/// Bytes a fetch is charged for each message beside its stored bytes.
pub const FETCH_MESSAGE_BYTES: u64 = 16;

/// Above the place of every eviction weight.
const HEAVIEST: u128 = 0x1_0000_0000_0000_0000;

#[derive(Debug, Clone, PartialEq, Eq)]
pub struct PropagationNodeConfig {
    pub transfer_limit_kb: u64,
    pub sync_limit_kb: u64,
    pub stamp_cost: u8,
    pub stamp_cost_flexibility: u8,
    pub peering_cost: u8,
    pub name: Option<Vec<u8>>,
    pub message_expiry_secs: u64,
    pub serve_cap_bytes: Option<usize>,
}

impl Default for PropagationNodeConfig {
    fn default() -> (r: PropagationNodeConfig)
        ensures
            r.transfer_limit_kb == 4,
            r.sync_limit_kb == 32,
            r.stamp_cost == 0,
            r.stamp_cost_flexibility == 3,
            r.peering_cost == 0,
            r.name is None,
            r.message_expiry_secs == MESSAGE_EXPIRY_SECS,
            r.serve_cap_bytes is None,
    {
        PropagationNodeConfig {
            transfer_limit_kb: 4,
            sync_limit_kb: 32,
            stamp_cost: 0,
            stamp_cost_flexibility: 3,
            peering_cost: 0,
            name: None,
            message_expiry_secs: MESSAGE_EXPIRY_SECS,
            serve_cap_bytes: None,
        }
    }
}

#[derive(Debug, Clone, Copy, PartialEq, Eq, Structural)]
pub enum EvictionReason {
    Expired,
    Displaced,
}

/// One message the node dropped by itself.
#[derive(Debug, Clone, Copy, PartialEq, Eq)]
pub struct Eviction {
    pub transient_id: TransientId,
    pub size: u32,
    pub age_secs: u64,
    pub reason: EvictionReason,
}

/// What became of an upload.
#[derive(Debug, Clone, PartialEq)]
pub enum UploadOutcome {
    Accepted {
        transient_id: TransientId,
        destination_hash: [u8; DESTINATION_LENGTH],
        size: u32,
        stamp_value: u8,
        duplicate: bool,
        evicted: Vec<Eviction>,
    },
    /// The stamp is below the cost; the bytes tell the client so.
    InvalidStamp { reject: Vec<u8> },
    /// The envelope holds several messages.
    PeerSyncForm,
    Malformed(PropagationError),
    StoreFailed(StorageError),
}

#[derive(Debug, Clone, Copy, PartialEq, Eq, Structural)]
pub enum GetError {
    Request(PropagationError),
    Store(StorageError),
}

impl GetError {
    pub fn message(&self) -> (r: String)
        ensures
            r@ == match self {
                GetError::Request(e) => "get request: "@ + e.text(),
                GetError::Store(e) => "get store: "@ + e.text(),
            },
    {
        match self {
            GetError::Request(error) => "get request: ".to_owned().concat(error.message()),
            GetError::Store(error) => "get store: ".to_owned().concat(error.message()),
        }
    }
}

impl From<PropagationError> for GetError {
    fn from(error: PropagationError) -> (r: GetError) {
        GetError::Request(error)
    }
}

impl vstd::std_specs::convert::FromSpecImpl<PropagationError> for GetError {
    open spec fn obeys_from_spec() -> bool {
        true
    }

    open spec fn from_spec(error: PropagationError) -> GetError {
        GetError::Request(error)
    }
}

impl From<StorageError> for GetError {
    fn from(error: StorageError) -> (r: GetError) {
        GetError::Store(error)
    }
}

impl vstd::std_specs::convert::FromSpecImpl<StorageError> for GetError {
    open spec fn obeys_from_spec() -> bool {
        true
    }

    open spec fn from_spec(error: StorageError) -> GetError {
        GetError::Store(error)
    }
}

/// Which messages to send in answer to a fetch, and what they amount to.
#[derive(Debug, Clone, PartialEq, Eq)]
pub struct FetchPlan {
    served: Vec<(TransientId, u32)>,
    encoded_len: usize,
    served_bytes: u64,
}

/// Bytes of the served messages, without any framing.
pub open spec fn served_total(s: Seq<(TransientId, u32)>) -> nat
    decreases s.len(),
{
    if s.len() == 0 {
        0
    } else {
        served_total(s.drop_last()) + s.last().1 as nat
    }
}

/// Bytes of the served messages as MessagePack binary values.
pub open spec fn framed_total(s: Seq<(TransientId, u32)>) -> nat
    decreases s.len(),
{
    if s.len() == 0 {
        0
    } else {
        framed_total(s.drop_last()) + msgpack::bin_head(s.last().1 as nat).len() + s.last().1 as nat
    }
}

/// Length of the MessagePack response that carries the served messages.
pub open spec fn fetch_len(s: Seq<(TransientId, u32)>) -> nat {
    msgpack::array_header((s.len() as u32) as nat).len() + framed_total(s)
}

impl FetchPlan {
    /// The served IDs in wire order, with the length of each message.
    pub closed spec fn served(&self) -> Seq<(TransientId, u32)> {
        self.served@
    }

    /// The announced length of the response.
    pub closed spec fn length(&self) -> nat {
        self.encoded_len as nat
    }

    /// The announced number of served bytes.
    pub closed spec fn bytes(&self) -> nat {
        self.served_bytes as nat
    }

    /// The totals belong to the served messages, which a count on the wire can
    /// tell.
    pub open spec fn wf(&self) -> bool {
        &&& self.served().len() <= u32::MAX
        &&& self.length() == fetch_len(self.served())
        &&& self.length() <= usize::MAX
        &&& self.bytes() == served_total(self.served())
    }

    pub fn count(&self) -> (r: usize)
        ensures
            r == self.served().len(),
    {
        self.served.len()
    }

    pub fn is_empty(&self) -> (r: bool)
        ensures
            r == (self.served().len() == 0),
    {
        self.served.len() == 0
    }

    /// The served IDs, in wire order.
    pub fn served_ids(&self) -> (r: Vec<TransientId>)
        ensures
            r@ == self.served().map_values(|e: (TransientId, u32)| e.0),
    {
        let mut out: Vec<TransientId> = Vec::new();
        let mut i: usize = 0;
        let ghost all = self.served@.map_values(|e: (TransientId, u32)| e.0);
        while i < self.served.len()
            invariant
                i <= self.served@.len(),
                all == self.served@.map_values(|e: (TransientId, u32)| e.0),
                out@ == all.take(i as int),
            decreases self.served@.len() - i,
        {
            assert(all.take(i + 1) =~= all.take(i as int).push(all[i as int]));
            out.push(self.served[i].0);
            i = i + 1;
        }
        assert(all.take(i as int) =~= all);
        out
    }

    /// Bytes served, stamps not counted.
    pub fn served_bytes(&self) -> (r: u64)
        ensures
            r == self.bytes(),
    {
        self.served_bytes
    }

    /// The exact length of the response, known before it is built.
    pub fn encoded_len(&self) -> (r: usize)
        ensures
            r == self.length(),
    {
        self.encoded_len
    }
}

impl Default for FetchPlan {
    fn default() -> (r: FetchPlan)
        ensures
            r.served().len() == 0,
            r.length() == 0,
            r.bytes() == 0,
    {
        FetchPlan { served: Vec::new(), encoded_len: 0, served_bytes: 0 }
    }
}

/// A `/get` answered.
#[derive(Debug, Clone, PartialEq)]
pub enum GetOutcome {
    /// The list form: every message of the mailbox, smallest first.
    List { response: Vec<u8>, count: usize },
    /// The fetch form: `purged` were deleted on the client's confirmation,
    /// `plan` says what goes out with stamps stripped.
    Fetch { plan: FetchPlan, purged: Vec<TransientId> },
}

/// The mailbox of one destination: its messages with their stored sizes.
pub open spec fn mailbox(
    records: Map<TransientId, crate::propagation_store::Record>,
    remote: [u8; DESTINATION_LENGTH],
) -> Map<TransientId, u32> {
    Map::new(
        |id: TransientId|
            records.contains_key(id) && records[id].meta.destination_hash == remote,
        |id: TransientId| records[id].meta.size,
    )
}

/// The messages of one destination in directory order, keyed by size.
pub open spec fn sized(list: Seq<StoredMessage>, remote: [u8; DESTINATION_LENGTH]) -> Seq<
    (u128, TransientId),
>
    decreases list.len(),
{
    if list.len() == 0 {
        seq![]
    } else if list.last().destination_hash == remote {
        sized(list.drop_last(), remote).push((list.last().size as u128, list.last().transient_id))
    } else {
        sized(list.drop_last(), remote)
    }
}

/// What a list request is answered: smallest message first.
pub open spec fn listed(list: Seq<StoredMessage>, remote: [u8; DESTINATION_LENGTH]) -> Seq<
    TransientId,
> {
    stable::sorted(sized(list, remote)).map_values(|e: (u128, TransientId)| e.1)
}

/// The confirmed IDs that are in the mailbox, each once, in request order.
pub open spec fn confirmed(haves: Seq<TransientId>, owned: Map<TransientId, u32>) -> Seq<
    TransientId,
>
    decreases haves.len(),
{
    if haves.len() == 0 {
        seq![]
    } else {
        let done = confirmed(haves.drop_last(), owned);
        if owned.contains_key(haves.last()) && !done.contains(haves.last()) {
            done.push(haves.last())
        } else {
            done
        }
    }
}

/// A map without some of its keys.
pub open spec fn without<V>(m: Map<TransientId, V>, ids: Seq<TransientId>) -> Map<TransientId, V> {
    Map::new(|k: TransientId| m.contains_key(k) && !ids.contains(k), |k: TransientId| m[k])
}

/// How far a fetch has got: what is still in the mailbox, what is charged, and
/// what is served.
pub ghost struct Serving {
    pub left: Map<TransientId, u32>,
    pub charged: int,
    pub served: Seq<(TransientId, u32)>,
}

/// Serves the wanted messages in request order. A message that would go over
/// the limit is passed over, and the next one is tried.
pub open spec fn serving(wants: Seq<TransientId>, owned: Map<TransientId, u32>, limit: int) -> Serving
    decreases wants.len(),
{
    if wants.len() == 0 {
        Serving { left: owned, charged: FETCH_BASE_BYTES as int, served: seq![] }
    } else {
        let s = serving(wants.drop_last(), owned, limit);
        let id = wants.last();
        if s.left.contains_key(id) && s.left[id] >= STAMP_SIZE && s.charged + s.left[id]
            + FETCH_MESSAGE_BYTES <= limit {
            Serving {
                left: s.left.remove(id),
                charged: s.charged + s.left[id] + FETCH_MESSAGE_BYTES,
                served: s.served.push((id, (s.left[id] - STAMP_SIZE) as u32)),
            }
        } else {
            s
        }
    }
}

/// The byte limit of one fetch: what the node allows, or less where the client
/// asks for less. What is not a number asks for nothing in particular.
pub open spec fn fetch_limit(config: PropagationNodeConfig, limit: Option<TransferLimit>) -> int {
    let sync = config.sync_limit_kb * 1000;
    let own = match config.serve_cap_bytes {
        Some(cap) => crate::serve_cost::smaller(sync, cap as int),
        None => sync,
    };
    match limit {
        None => own,
        Some(TransferLimit::Integer(kb)) => crate::serve_cost::smaller(kb * 1000, own),
        Some(TransferLimit::Float(bits)) => if ieee::nan(bits) {
            own
        } else if ieee::is_negative(bits) {
            0
        } else if !ieee::finite(bits) {
            own
        } else {
            crate::serve_cost::smaller(ieee::thousandfold(bits) as int, own)
        },
    }
}

/// The processed IDs after some more were processed.
pub open spec fn remembered(m: Map<TransientId, u64>, ids: Seq<TransientId>, now: u64) -> Map<
    TransientId,
    u64,
> {
    Map::new(
        |k: TransientId| m.contains_key(k) || ids.contains(k),
        |k: TransientId|
            if ids.contains(k) {
                now
            } else {
                m[k]
            },
    )
}

pub struct PropagationNode<S> {
    store: S,
    config: PropagationNodeConfig,
    processed: ByteMap<32, u64>,
    compute_stamp_value: bool,
    calendar_jump_floor: u64,
}

/// Removing one more key.
proof fn lemma_without_push<V>(m: Map<TransientId, V>, ids: Seq<TransientId>, id: TransientId)
    ensures
        without(m, ids.push(id)) == without(m, ids).remove(id),
{
    let more = ids.push(id);
    assert forall|k: TransientId| #[trigger] more.contains(k) == (ids.contains(k) || k == id) by {
        if ids.contains(k) {
            let i = choose|i: int| 0 <= i < ids.len() && ids[i] == k;
            assert(more[i] == k);
        }
        if k == id {
            assert(more[ids.len() as int] == k);
        }
    }
    assert(without(m, more) =~= without(m, ids).remove(id));
}

proof fn lemma_without_none<V>(m: Map<TransientId, V>)
    ensures
        without(m, Seq::<TransientId>::empty()) == m,
{
    assert(without(m, Seq::<TransientId>::empty()) =~= m);
}

/// What one fetch is charged covers the response it leads to.
proof fn lemma_serving(wants: Seq<TransientId>, owned: Map<TransientId, u32>, limit: int)
    ensures
        ({
            let s = serving(wants, owned, limit);
            &&& framed_total(s.served) + FETCH_BASE_BYTES <= s.charged
            &&& served_total(s.served) <= framed_total(s.served)
            &&& s.served.len() > 0 ==> s.charged <= limit
            &&& s.served.len() == 0 ==> s.charged == FETCH_BASE_BYTES
            &&& s.served.len() <= wants.len()
        }),
    decreases wants.len(),
{
    if wants.len() > 0 {
        lemma_serving(wants.drop_last(), owned, limit);
        let before = serving(wants.drop_last(), owned, limit);
        let after = serving(wants, owned, limit);
        if after != before {
            assert(after.served.drop_last() =~= before.served);
            let n = after.served.last().1 as nat;
            reveal(msgpack::bin_head);
            reveal_with_fuel(msgpack::be_bytes, 5);
            assert(msgpack::bin_head(n).len() <= 5);
        }
    }
}

/// A fetch response never outgrows its limit, unless nothing fits at all and
/// the response is empty.
pub proof fn law_response_within_limit(
    wants: Seq<TransientId>,
    owned: Map<TransientId, u32>,
    limit: int,
)
    ensures
        serving(wants, owned, limit).served.len() > 0 ==> fetch_len(
            serving(wants, owned, limit).served,
        ) <= limit,
        fetch_len(serving(wants, owned, limit).served) <= serving(wants, owned, limit).charged,
{
    lemma_serving(wants, owned, limit);
    reveal(msgpack::array_header);
    reveal_with_fuel(msgpack::be_bytes, 5);
}

/// Only messages of the mailbox are served, each at most once and only where
/// it was wanted.
pub proof fn law_served_from_mailbox(
    wants: Seq<TransientId>,
    owned: Map<TransientId, u32>,
    limit: int,
)
    ensures
        ({
            let s = serving(wants, owned, limit);
            &&& forall|i: int|
                0 <= i < s.served.len() ==> {
                    let e = #[trigger] s.served[i];
                    &&& owned.contains_key(e.0)
                    &&& e.1 + STAMP_SIZE == owned[e.0]
                    &&& !s.left.contains_key(e.0)
                    &&& wants.contains(e.0)
                }
            &&& forall|i: int, j: int|
                0 <= i < j < s.served.len() ==> (#[trigger] s.served[i]).0 != (
                #[trigger] s.served[j]).0
            &&& forall|k: TransientId| #[trigger]
                s.left.contains_key(k) ==> owned.contains_key(k) && s.left[k] == owned[k]
        }),
    decreases wants.len(),
{
    if wants.len() > 0 {
        law_served_from_mailbox(wants.drop_last(), owned, limit);
        let before = serving(wants.drop_last(), owned, limit);
        let s = serving(wants, owned, limit);
        assert forall|k: TransientId| wants.drop_last().contains(k) implies #[trigger] wants.contains(
            k,
        ) by {
            let i = choose|i: int| 0 <= i < wants.drop_last().len() && wants.drop_last()[i] == k;
            assert(wants[i] == k);
        }
        assert(wants[wants.len() - 1] == wants.last());
        assert(wants.contains(wants.last()));
        assert forall|i: int| 0 <= i < s.served.len() implies ({
            let e = #[trigger] s.served[i];
            &&& owned.contains_key(e.0)
            &&& e.1 + STAMP_SIZE == owned[e.0]
            &&& !s.left.contains_key(e.0)
            &&& wants.contains(e.0)
        }) by {
            if i < before.served.len() {
                assert(s.served[i] == before.served[i]);
                assert(wants.drop_last().contains(before.served[i].0));
            }
        }
        assert forall|i: int, j: int| 0 <= i < j < s.served.len() implies (#[trigger] s.served[i]).0 != (
        #[trigger] s.served[j]).0 by {
            assert(s.served[i] == before.served[i]);
            if j < before.served.len() {
                assert(s.served[j] == before.served[j]);
            } else {
                assert(!before.left.contains_key(before.served[i].0));
            }
        }
    }
}

/// A mailbox that holds none of the wanted messages serves none: a stranger
/// cannot fetch the mail of another destination, nor confirm it away.
pub proof fn law_stranger_gets_nothing(
    wants: Seq<TransientId>,
    haves: Seq<TransientId>,
    owned: Map<TransientId, u32>,
    limit: int,
)
    requires
        forall|id: TransientId| #[trigger] wants.contains(id) ==> !owned.contains_key(id),
        forall|id: TransientId| #[trigger] haves.contains(id) ==> !owned.contains_key(id),
    ensures
        serving(wants, owned, limit).served.len() == 0,
        confirmed(haves, owned).len() == 0,
{
    law_served_from_mailbox(wants, owned, limit);
    let s = serving(wants, owned, limit).served;
    if s.len() > 0 {
        assert(wants.contains(s[0].0));
    }
    law_confirmed(haves, owned);
    let c = confirmed(haves, owned);
    if c.len() > 0 {
        assert(c.contains(c[0]));
    }
}

/// Exactly the confirmed messages of the mailbox are purged.
pub proof fn law_confirmed(haves: Seq<TransientId>, owned: Map<TransientId, u32>)
    ensures
        forall|id: TransientId| #[trigger]
            confirmed(haves, owned).contains(id) <==> haves.contains(id) && owned.contains_key(id),
        confirmed(haves, owned).no_duplicates(),
    decreases haves.len(),
{
    if haves.len() > 0 {
        let init = haves.drop_last();
        law_confirmed(init, owned);
        let done = confirmed(init, owned);
        let c = confirmed(haves, owned);
        assert forall|id: TransientId| #[trigger] c.contains(id) <==> haves.contains(id)
            && owned.contains_key(id) by {
            if haves.contains(id) && id != haves.last() {
                let i = choose|i: int| 0 <= i < haves.len() && haves[i] == id;
                assert(init[i] == id);
            }
            if init.contains(id) {
                let i = choose|i: int| 0 <= i < init.len() && init[i] == id;
                assert(haves[i] == id);
            }
            assert(haves[haves.len() - 1] == haves.last());
            if done.contains(id) {
                let i = choose|i: int| 0 <= i < done.len() && done[i] == id;
                assert(c[i] == id);
            }
            if c.contains(id) && c != done {
                let i = choose|i: int| 0 <= i < c.len() && c[i] == id;
                if i < done.len() {
                    assert(done[i] == id);
                }
            }
            if c != done {
                assert(c[done.len() as int] == haves.last());
            }
        }
        assert forall|i: int, j: int| 0 <= i < c.len() && 0 <= j < c.len() && i != j implies c[i]
            != c[j] by {
            if c != done {
                if i < done.len() {
                    assert(done.contains(done[i]));
                }
                if j < done.len() {
                    assert(done.contains(done[j]));
                }
            }
        }
    }
}

/// The mailbox of a directory.
spec fn boxed(list: Seq<StoredMessage>, remote: [u8; DESTINATION_LENGTH]) -> Map<TransientId, u32>
    decreases list.len(),
{
    if list.len() == 0 {
        Map::empty()
    } else if list.last().destination_hash == remote {
        boxed(list.drop_last(), remote).insert(list.last().transient_id, list.last().size)
    } else {
        boxed(list.drop_last(), remote)
    }
}

proof fn lemma_boxed(
    records: Map<TransientId, crate::propagation_store::Record>,
    walk: Seq<TransientId>,
    remote: [u8; DESTINATION_LENGTH],
    n: int,
)
    requires
        crate::propagation_store::store_ok(records, walk),
        0 <= n <= walk.len(),
    ensures
        forall|k: TransientId| #[trigger]
            boxed(crate::propagation_store::listing(records, walk).take(n), remote).contains_key(k)
                <==> walk.take(n).contains(k) && mailbox(records, remote).contains_key(k),
        forall|k: TransientId|
            boxed(
                crate::propagation_store::listing(records, walk).take(n),
                remote,
            ).contains_key(k) ==> #[trigger] boxed(
                crate::propagation_store::listing(records, walk).take(n),
                remote,
            )[k] == mailbox(records, remote)[k],
    decreases n,
{
    let list = crate::propagation_store::listing(records, walk);
    if n > 0 {
        lemma_boxed(records, walk, remote, n - 1);
        assert(list.take(n).drop_last() =~= list.take(n - 1));
        let id = walk[n - 1];
        assert(walk.contains(id));
        assert(records.contains_key(id));
        assert(list.take(n).last() == records[id].meta);
        assert forall|k: TransientId| #[trigger] walk.take(n).contains(k) == (walk.take(
            n - 1,
        ).contains(k) || k == id) by {
            let short = walk.take(n - 1);
            let long = walk.take(n);
            if short.contains(k) {
                let i = choose|i: int| 0 <= i < short.len() && short[i] == k;
                assert(long[i] == k);
            }
            if long.contains(k) {
                let i = choose|i: int| 0 <= i < long.len() && long[i] == k;
                if i < n - 1 {
                    assert(short[i] == k);
                }
            }
            assert(walk.take(n)[n - 1] == id);
        }
        let less = boxed(list.take(n - 1), remote);
        let more = boxed(list.take(n), remote);
        assert(crate::propagation_store::record_ok(id, records[id]));
        assert forall|k: TransientId| #[trigger] more.contains_key(k) <==> walk.take(n).contains(k)
            && mailbox(records, remote).contains_key(k) by {
            assert(less.contains_key(k) <==> walk.take(n - 1).contains(k) && mailbox(
                records,
                remote,
            ).contains_key(k));
        }
        assert forall|k: TransientId| more.contains_key(k) implies #[trigger] more[k] == mailbox(
            records,
            remote,
        )[k] by {
            if k != id {
                assert(less.contains_key(k));
            }
        }
    }
}

/// The IDs of an optional list.
pub open spec fn ids_of(ids: Option<Vec<TransientId>>) -> Seq<TransientId> {
    match ids {
        Some(v) => v@,
        None => Seq::empty(),
    }
}

impl<S: PropagationStore> PropagationNode<S> {
    pub closed spec fn stored(&self) -> S {
        self.store
    }

    pub closed spec fn conf(&self) -> PropagationNodeConfig {
        self.config
    }

    /// The transient IDs already dealt with, and when.
    pub closed spec fn handled(&self) -> Map<TransientId, u64> {
        self.processed@
    }

    /// Stamps are valued even where none is asked for.
    pub closed spec fn values_stamps(&self) -> bool {
        self.compute_stamp_value
    }

    /// The last calendar time before the clock was set.
    pub closed spec fn floor(&self) -> u64 {
        self.calendar_jump_floor
    }

    pub closed spec fn wf(&self) -> bool {
        self.store.wf() && self.processed.wf()
    }

    /// Two nodes differ at most in what they store and remember.
    pub open spec fn same_settings(&self, other: &PropagationNode<S>) -> bool {
        &&& self.conf() == other.conf()
        &&& self.values_stamps() == other.values_stamps()
        &&& self.floor() == other.floor()
    }

    /// The lowest stamp value the node accepts.
    pub open spec fn min_cost(&self) -> int {
        crate::serve_cost::larger(
            self.conf().stamp_cost - self.conf().stamp_cost_flexibility,
            0,
        )
    }

    /// A stamp has to be looked at.
    pub open spec fn asks_stamp(&self) -> bool {
        self.min_cost() > 0 || self.values_stamps()
    }

    pub fn new(store: S, config: PropagationNodeConfig) -> (r: PropagationNode<S>)
        requires
            store.wf(),
        ensures
            r.wf(),
            r.stored() == store,
            r.conf() == config,
            r.handled() == Map::<TransientId, u64>::empty(),
            !r.values_stamps(),
            r.floor() == 0,
    {
        PropagationNode {
            store,
            config,
            processed: ByteMap::new(),
            compute_stamp_value: false,
            calendar_jump_floor: 0,
        }
    }

    /// The calendar jumped from `before` to some later time: what was received
    /// until then is not expired on the new time.
    pub fn note_calendar_jump(&mut self, before: u64)
        ensures
            jumped(*old(self), *final(self), before),
    {
        if before > self.calendar_jump_floor {
            self.calendar_jump_floor = before;
        }
    }

    pub fn set_compute_stamp_value(&mut self, compute: bool)
        ensures
            final(self).stored() == old(self).stored(),
            final(self).conf() == old(self).conf(),
            final(self).handled() == old(self).handled(),
            final(self).values_stamps() == compute,
            final(self).floor() == old(self).floor(),
            old(self).wf() ==> final(self).wf(),
    {
        self.compute_stamp_value = compute;
    }

    pub fn compute_stamp_value(&self) -> (r: bool)
        ensures
            r == self.values_stamps(),
    {
        self.compute_stamp_value
    }

    pub fn store(&self) -> (r: &S)
        ensures
            *r == self.stored(),
            self.wf() ==> r.wf(),
    {
        &self.store
    }

    pub fn store_mut(&mut self) -> (r: &mut S)
        ensures
            *r == old(self).stored(),
            old(self).wf() ==> r.wf(),
            final(self).stored() == *final(r),
            final(self).conf() == old(self).conf(),
            final(self).handled() == old(self).handled(),
            final(self).values_stamps() == old(self).values_stamps(),
            final(self).floor() == old(self).floor(),
            old(self).wf() && final(r).wf() ==> final(self).wf(),
    {
        &mut self.store
    }

    pub fn config(&self) -> (r: &PropagationNodeConfig)
        ensures
            *r == self.conf(),
    {
        &self.config
    }

    /// Bounds one fetch by what the heap pays for.
    pub fn set_serve_cap_bytes(&mut self, cap: Option<usize>)
        ensures
            recapped(*old(self), *final(self), cap),
    {
        self.config.serve_cap_bytes = cap;
    }

    /// The lowest stamp value the node accepts.
    pub fn min_accepted_cost(&self) -> (r: u8)
        ensures
            r == self.min_cost(),
    {
        if self.config.stamp_cost > self.config.stamp_cost_flexibility {
            self.config.stamp_cost - self.config.stamp_cost_flexibility
        } else {
            0
        }
    }

    /// What the node announces, but for its metadata.
    pub open spec fn announced(&self, now_secs: u64) -> crate::propagation::NodeAnnounce {
        crate::propagation::NodeAnnounce {
            legacy_support: false,
            timebase: now_secs,
            enabled: true,
            transfer_limit_kb: self.conf().transfer_limit_kb,
            sync_limit_kb: self.conf().sync_limit_kb,
            stamp_cost: self.conf().stamp_cost as u64,
            stamp_cost_flexibility: self.conf().stamp_cost_flexibility as u64,
            peering_cost: self.conf().peering_cost as u64,
            metadata: match self.conf().name {
                Some(name) => seq![(PN_META_NAME, msgpack::bin_bytes(name@))],
                None => seq![],
            },
        }
    }

    /// The application data of the node's announce. Nothing is announced under
    /// a name too long for a MessagePack value.
    pub fn announce_app_data(&self, now_secs: u64) -> (r: Vec<u8>)
        ensures
            r@ == match crate::propagation::metadata_fault(self.announced(now_secs).metadata) {
                None => crate::propagation::announce_bytes(self.announced(now_secs)),
                Some(_) => seq![],
            },
    {
        let mut metadata: Vec<MetadataEntry> = Vec::new();
        if let Some(name) = &self.config.name {
            let mut raw: Vec<u8> = Vec::new();
            msgpack::bin(&mut raw, name.as_slice());
            assert(raw@ =~= msgpack::bin_bytes(name@));
            metadata.push((PN_META_NAME, raw));
        }
        assert(crate::propagation::metadata_view(metadata@) =~= self.announced(now_secs).metadata);
        let announce = PropagationNodeAnnounce {
            legacy_support: false,
            timebase: now_secs,
            enabled: true,
            transfer_limit_kb: self.config.transfer_limit_kb,
            sync_limit_kb: self.config.sync_limit_kb,
            stamp_cost: self.config.stamp_cost as u64,
            stamp_cost_flexibility: self.config.stamp_cost_flexibility as u64,
            peering_cost: self.config.peering_cost as u64,
            metadata,
        };
        assert(announce@ == self.announced(now_secs));
        match announce.encode() {
            Ok(bytes) => bytes,
            Err(_) => {
                let none: Vec<u8> = Vec::new();
                assert(none@ =~= seq![]);
                none
            },
        }
    }

    /// Whether an incoming resource of this size is within the announced limit.
    pub fn accepts_resource_of(&self, data_size: u64) -> (r: bool)
        requires
            self.conf().sync_limit_kb * 1000 <= u64::MAX,
        ensures
            r == (data_size <= self.conf().sync_limit_kb * 1000),
    {
        data_size <= self.config.sync_limit_kb * 1000
    }

    /// Forgets that an ID was processed: the message can be uploaded again.
    pub fn forget_processed(&mut self, transient_id: &TransientId)
        requires
            old(self).wf(),
        ensures
            final(self).wf(),
            final(self).stored() == old(self).stored(),
            final(self).same_settings(old(self)),
            final(self).handled() == old(self).handled().remove(*transient_id),
    {
        let _ = self.processed.remove(transient_id);
    }
}

/// The byte limit of one fetch.
fn limit_of(config: &PropagationNodeConfig, limit: Option<TransferLimit>) -> (r: u64)
    requires
        config.sync_limit_kb * 1000 <= u64::MAX,
    ensures
        r == fetch_limit(*config, limit),
        r <= config.sync_limit_kb * 1000,
{
    let sync: u64 = config.sync_limit_kb * 1000;
    let own: u64 = match config.serve_cap_bytes {
        Some(cap) => if sync < cap as u64 {
            sync
        } else {
            cap as u64
        },
        None => sync,
    };
    match limit {
        None => own,
        Some(TransferLimit::Integer(kb)) => if (kb as u128) * 1000 < own as u128 {
            kb * 1000
        } else {
            own
        },
        Some(TransferLimit::Float(bits)) => if ieee::is_nan(bits) {
            own
        } else if bits >= ieee::SIGN {
            0
        } else if !ieee::is_finite(bits) {
            own
        } else {
            let client: u64 = ieee::times_1000(bits);
            if client < own {
                client
            } else {
                own
            }
        },
    }
}

/// Plans a fetch: which of the wanted messages go out.
fn plan_fetch(wants: &Vec<TransientId>, owned: ByteMap<32, u32>, limit: u64) -> (r: FetchPlan)
    requires
        owned.wf(),
        limit <= usize::MAX,
        wants@.len() <= u32::MAX,
    ensures
        r.wf(),
        r.served() == serving(wants@, owned@, limit as int).served,
{
    let ghost start = owned@;
    let mut left = owned;
    let mut charged: u128 = FETCH_BASE_BYTES as u128;
    let mut served: Vec<(TransientId, u32)> = Vec::new();
    let mut served_bytes: u64 = 0;
    let mut payload: usize = 0;
    let mut i: usize = 0;
    while i < wants.len()
        invariant
            i <= wants@.len(),
            left.wf(),
            limit <= usize::MAX,
            serving(wants@.take(i as int), start, limit as int) == (Serving {
                left: left@,
                charged: charged as int,
                served: served@,
            }),
            charged <= 0x1_0000_0000_0000_0000,
            served_bytes == served_total(served@),
            payload == framed_total(served@),
        decreases wants@.len() - i,
    {
        let ghost before = wants@.take(i as int);
        assert(wants@.take(i + 1).drop_last() =~= before);
        let id = wants[i];
        i = i + 1;
        proof {
            lemma_serving(wants@.take(i as int), start, limit as int);
        }
        if let Some(size) = left.get(&id) {
            let size: u32 = *size;
            if size >= STAMP_SIZE as u32 {
                let next: u128 = charged + size as u128 + FETCH_MESSAGE_BYTES as u128;
                if next <= limit as u128 {
                    let servable: u32 = size - STAMP_SIZE as u32;
                    let ghost s0 = served@;
                    served.push((id, servable));
                    assert(served@.drop_last() =~= s0);
                    charged = next;
                    served_bytes = served_bytes + servable as u64;
                    payload = payload + (msgpack::bin_header_len(servable as usize)
                        + servable as usize);
                    let _ = left.remove(&id);
                }
            }
        }
    }
    assert(wants@.take(i as int) =~= wants@);
    proof {
        lemma_serving(wants@, start, limit as int);
        law_response_within_limit(wants@, start, limit as int);
    }
    let encoded_len: usize = msgpack::array_header_len(served.len()) + payload;
    FetchPlan { served, encoded_len, served_bytes }
}

/// How a `/get` request changes a node and what it returns.
pub open spec fn answered<S: PropagationStore>(
    before: PropagationNode<S>,
    after: PropagationNode<S>,
    request: MessageGetRequest,
    remote: [u8; DESTINATION_LENGTH],
    now: u64,
    r: Result<GetOutcome, GetError>,
) -> bool {
    let records = before.stored().records();
    match r {
        // The directory could not be read.
        Err(e) => e is Store && after == before && !before.stored().steady(),
        Ok(GetOutcome::List { response, count }) => {
            let ids = listed(
                crate::propagation_store::listing(records, before.stored().walk()),
                remote,
            );
            &&& request.wants is None
            &&& request.haves is None
            &&& after == before
            &&& count == ids.len()
            &&& response@ == crate::propagation::listing_bytes(
                crate::propagation::Listing::Values(crate::propagation::ids_view(ids)),
            )
        },
        Ok(GetOutcome::Fetch { plan, purged }) => {
            let owned = mailbox(records, remote);
            let told = confirmed(ids_of(request.haves), owned);
            &&& request.wants is Some || request.haves is Some
            &&& after.same_settings(&before)
            &&& plan.wf()
            &&& plan.served() == serving(
                ids_of(request.wants),
                without(owned, purged@),
                fetch_limit(before.conf(), request.transfer_limit_kb),
            ).served
            &&& after.handled() == remembered(before.handled(), purged@, now)
            &&& forall|id: TransientId| #[trigger]
                purged@.contains(id) ==> told.contains(id)
                    && !after.stored().records().contains_key(id)
            &&& crate::propagation_store::within(after.stored().records(), records)
            &&& after.stored().steady() == before.stored().steady()
            &&& crate::propagation_store::same_counters(&after.stored(), &before.stored())
            &&& before.stored().steady() ==> {
                &&& purged@ == told
                &&& after.stored().records() == without(records, told)
                &&& after.stored().room() == before.stored().room()
                    + crate::propagation_store::released(records, told)
            }
        },
    }
}

impl<S: PropagationStore> PropagationNode<S> {
    /// The mailbox of one destination.
    fn owned_by(&self, remote: &[u8; DESTINATION_LENGTH]) -> (r: Result<
        ByteMap<32, u32>,
        StorageError,
    >)
        requires
            self.wf(),
        ensures
            match r {
                Ok(m) => m.wf() && m@ == mailbox(self.stored().records(), *remote),
                Err(_) => !self.stored().steady(),
            },
    {
        let list = match self.store.directory() {
            Ok(list) => list,
            Err(error) => {
                return Err(error);
            },
        };
        let mut owned: ByteMap<32, u32> = ByteMap::new();
        let mut i: usize = 0;
        while i < list.len()
            invariant
                i <= list@.len(),
                owned.wf(),
                owned@ == boxed(list@.take(i as int), *remote),
            decreases list@.len() - i,
        {
            assert(list@.take(i + 1).drop_last() =~= list@.take(i as int));
            let meta = list[i];
            if same(&meta.destination_hash, remote) {
                let _ = owned.insert(meta.transient_id, meta.size);
            }
            i = i + 1;
        }
        proof {
            let records = self.store.records();
            let walk = self.store.walk();
            self.store.lemma_store_ok();
            lemma_boxed(records, walk, *remote, walk.len() as int);
            assert(list@.take(i as int) =~= crate::propagation_store::listing(records, walk).take(
                walk.len() as int,
            ));
            assert(walk.take(walk.len() as int) =~= walk);
            assert forall|k: TransientId| #[trigger] owned@.contains_key(k) == mailbox(
                records,
                *remote,
            ).contains_key(k) by {
                assert(walk.contains(k) <==> records.contains_key(k));
            }
            assert(owned@ =~= mailbox(records, *remote));
        }
        Ok(owned)
    }

    /// Answers the list form: the IDs of a mailbox, smallest message first.
    fn list_of(&self, remote: &[u8; DESTINATION_LENGTH]) -> (r: Result<
        Vec<TransientId>,
        StorageError,
    >)
        requires
            self.wf(),
        ensures
            match r {
                Ok(ids) => ids@ == listed(
                    crate::propagation_store::listing(
                        self.stored().records(),
                        self.stored().walk(),
                    ),
                    *remote,
                ),
                Err(_) => !self.stored().steady(),
            },
    {
        let list = match self.store.directory() {
            Ok(list) => list,
            Err(error) => {
                return Err(error);
            },
        };
        let mut available: Vec<(u128, TransientId)> = Vec::new();
        let mut i: usize = 0;
        while i < list.len()
            invariant
                i <= list@.len(),
                available@ == sized(list@.take(i as int), *remote),
            decreases list@.len() - i,
        {
            assert(list@.take(i + 1).drop_last() =~= list@.take(i as int));
            let meta = list[i];
            if same(&meta.destination_hash, remote) {
                available.push((meta.size as u128, meta.transient_id));
            }
            i = i + 1;
        }
        assert(list@.take(i as int) =~= list@);
        let order = stable::sort(available);
        let mut ids: Vec<TransientId> = Vec::new();
        let mut j: usize = 0;
        let ghost all = order@.map_values(|e: (u128, TransientId)| e.1);
        while j < order.len()
            invariant
                j <= order@.len(),
                all == order@.map_values(|e: (u128, TransientId)| e.1),
                ids@ == all.take(j as int),
            decreases order@.len() - j,
        {
            assert(all.take(j + 1) =~= all.take(j as int).push(all[j as int]));
            ids.push(order[j].1);
            j = j + 1;
        }
        assert(all.take(j as int) =~= all);
        Ok(ids)
    }

    /// Deletes the confirmed messages of a mailbox.
    fn purge_confirmed(&mut self, haves: &Vec<TransientId>, owned: &mut ByteMap<32, u32>) -> (r: Vec<
        TransientId,
    >)
        requires
            old(self).wf(),
            old(owned).wf(),
            forall|id: TransientId| #[trigger]
                old(owned)@.contains_key(id) ==> old(self).stored().records().contains_key(id),
        ensures
            final(self).wf(),
            final(owned).wf(),
            final(self).same_settings(old(self)),
            final(self).handled() == old(self).handled(),
            final(self).stored().steady() == old(self).stored().steady(),
            crate::propagation_store::same_counters(&final(self).stored(), &old(self).stored()),
            final(owned)@ == without(old(owned)@, r@),
            forall|id: TransientId| #[trigger]
                r@.contains(id) ==> confirmed(haves@, old(owned)@).contains(id)
                    && !final(self).stored().records().contains_key(id),
            crate::propagation_store::within(
                final(self).stored().records(),
                old(self).stored().records(),
            ),
            old(self).stored().steady() ==> {
                &&& r@ == confirmed(haves@, old(owned)@)
                &&& final(self).stored().records() == without(
                    old(self).stored().records(),
                    r@,
                )
                &&& final(self).stored().room() == old(self).stored().room()
                    + crate::propagation_store::released(old(self).stored().records(), r@)
            },
    {
        let ghost start = *self;
        let ghost box0 = owned@;
        let ghost records0 = self.store.records();
        let mut purged: Vec<TransientId> = Vec::new();
        let mut i: usize = 0;
        proof {
            lemma_without_none(records0);
            lemma_without_none(box0);
        }
        while i < haves.len()
            invariant
                i <= haves@.len(),
                self.wf(),
                owned.wf(),
                self.same_settings(&start),
                self.handled() == start.handled(),
                start.stored().records() == records0,
                self.stored().steady() == start.stored().steady(),
                crate::propagation_store::same_counters(&self.stored(), &start.stored()),
                owned@ == without(box0, purged@),
                forall|id: TransientId| #[trigger]
                    box0.contains_key(id) ==> records0.contains_key(id),
                forall|id: TransientId| #[trigger]
                    purged@.contains(id) ==> confirmed(haves@.take(i as int), box0).contains(id)
                        && !self.stored().records().contains_key(id),
                crate::propagation_store::within(self.stored().records(), records0),
                start.stored().steady() ==> {
                    &&& purged@ == confirmed(haves@.take(i as int), box0)
                    &&& self.stored().records() == without(records0, purged@)
                    &&& self.stored().room() == start.stored().room()
                        + crate::propagation_store::released(records0, purged@)
                },
            decreases haves@.len() - i,
        {
            let id = haves[i];
            let ghost told = confirmed(haves@.take(i as int), box0);
            proof {
                assert(haves@.take(i + 1).drop_last() =~= haves@.take(i as int));
                law_confirmed(haves@.take(i as int), box0);
                law_confirmed(haves@.take(i + 1), box0);
                assert forall|k: TransientId| told.contains(k) implies #[trigger] confirmed(
                    haves@.take(i + 1),
                    box0,
                ).contains(k) by {
                    let short = haves@.take(i as int);
                    let j = choose|j: int| 0 <= j < short.len() && short[j] == k;
                    assert(haves@.take(i + 1)[j] == k);
                }
                assert(haves@.take(i + 1)[i as int] == id);
            }
            i = i + 1;
            if owned.contains(&id) {
                let gone = match self.store.purge(&id) {
                    Ok(b) => b,
                    Err(_) => false,
                };
                if gone {
                    let ghost done = purged@;
                    purged.push(id);
                    let _ = owned.remove(&id);
                    proof {
                        assert(purged@.drop_last() =~= done);
                        lemma_without_push(box0, done, id);
                        lemma_without_push(records0, done, id);
                        assert forall|k: TransientId| #[trigger] purged@.contains(k) implies
                            confirmed(haves@.take(i as int), box0).contains(k)
                            && !self.stored().records().contains_key(k) by {
                            if k != id {
                                let j = choose|j: int|
                                    0 <= j < purged@.len() && purged@[j] == k;
                                assert(done[j] == k);
                                assert(done.contains(k));
                            }
                        }
                    }
                }
            }
        }
        assert(haves@.take(i as int) =~= haves@);
        purged
    }

    /// Answers a decoded `/get` request for one mailbox. The wire has no room
    /// for more wants than a count of 32 bits tells.
    pub fn answer_get(
        &mut self,
        request: &MessageGetRequest,
        remote_delivery_hash: &[u8; DESTINATION_LENGTH],
        now_secs: u64,
    ) -> (r: Result<GetOutcome, GetError>)
        requires
            old(self).wf(),
            old(self).conf().sync_limit_kb * 1000 <= usize::MAX,
            ids_of(request.wants).len() <= u32::MAX,
        ensures
            final(self).wf(),
            answered(
                *old(self),
                *final(self),
                *request,
                *remote_delivery_hash,
                now_secs,
                r,
            ),
    {
        if request.wants.is_none() && request.haves.is_none() {
            let ids = match self.list_of(remote_delivery_hash) {
                Ok(ids) => ids,
                Err(error) => {
                    return Err(GetError::Store(error));
                },
            };
            let count: usize = ids.len();
            return match MessageListResponse::TransientIds(ids).encode() {
                Ok(response) => Ok(GetOutcome::List { response, count }),
                Err(error) => Err(GetError::Request(error)),
            };
        }
        let mut owned = match self.owned_by(remote_delivery_hash) {
            Ok(owned) => owned,
            Err(error) => {
                return Err(GetError::Store(error));
            },
        };
        let ghost box0 = owned@;
        let ghost start = *self;
        proof {
            lemma_without_none(box0);
            lemma_without_none(self.store.records());
        }
        let mut purged: Vec<TransientId> = Vec::new();
        if let Some(haves) = &request.haves {
            purged = self.purge_confirmed(haves, &mut owned);
        } else {
            assert(purged@ =~= Seq::empty());
            assert(confirmed(ids_of(request.haves), box0) =~= purged@);
        }
        let limit: u64 = limit_of(&self.config, request.transfer_limit_kb);
        let plan = match &request.wants {
            Some(wants) => plan_fetch(wants, owned, limit),
            None => {
                let none: Vec<TransientId> = Vec::new();
                assert(none@ =~= ids_of(request.wants));
                plan_fetch(&none, owned, limit)
            },
        };
        let ghost middle = *self;
        let mut i: usize = 0;
        assert(remembered(start.handled(), purged@.take(0), now_secs) =~= start.handled());
        while i < purged.len()
            invariant
                i <= purged@.len(),
                self.processed.wf(),
                self.store == middle.store,
                self.store.wf(),
                self.config == middle.config,
                self.compute_stamp_value == middle.compute_stamp_value,
                self.calendar_jump_floor == middle.calendar_jump_floor,
                self.handled() == remembered(start.handled(), purged@.take(i as int), now_secs),
            decreases purged@.len() - i,
        {
            let id = purged[i];
            let _ = self.processed.insert(id, now_secs);
            proof {
                let short = purged@.take(i as int);
                let long = purged@.take(i + 1);
                assert(long =~= short.push(id));
                assert forall|k: TransientId| #[trigger] long.contains(k) == (short.contains(k)
                    || k == id) by {
                    if short.contains(k) {
                        let j = choose|j: int| 0 <= j < short.len() && short[j] == k;
                        assert(long[j] == k);
                    }
                    assert(long[i as int] == id);
                }
                assert(self.handled() =~= remembered(start.handled(), long, now_secs));
            }
            i = i + 1;
        }
        assert(purged@.take(i as int) =~= purged@);
        Ok(GetOutcome::Fetch { plan, purged })
    }

    /// Answers a `/get` request for the mailbox of a remote.
    pub fn handle_get(
        &mut self,
        request: &[u8],
        remote_delivery_hash: &[u8; DESTINATION_LENGTH],
        now_secs: u64,
    ) -> (r: Result<GetOutcome, GetError>)
        requires
            old(self).wf(),
            old(self).conf().sync_limit_kb * 1000 <= usize::MAX,
        ensures
            final(self).wf(),
            fetched(*old(self), *final(self), request@, *remote_delivery_hash, now_secs, r),
    {
        match MessageGetRequest::decode(request) {
            Ok(decoded) => {
                proof {
                    crate::propagation::lemma_wants_limit(request@);
                }
                let r = self.answer_get(&decoded, remote_delivery_hash, now_secs);
                r
            },
            Err(error) => Err(GetError::Request(error)),
        }
    }
}

pub open spec fn age(m: StoredMessage, now: u64) -> u64 {
    if now >= m.received_at {
        (now - m.received_at) as u64
    } else {
        0
    }
}

/// How many spans of four days old a message is, one at least, as binary64
/// division gives it: a significand in units of `2^-52`, and the exponent of
/// two that goes with it.
pub open spec fn spans(m: StoredMessage, now: u64) -> (nat, nat) {
    let n = ieee::rounded(age(m, now) as nat);
    if n <= WEIGHT_AGE_SECS {
        (ieee::p2(52), 0)
    } else {
        ieee::quotient(n, WEIGHT_AGE_SECS as nat)
    }
}

/// What a message weighs when room is needed, in units of `2^-52`: its size
/// times its age in spans, as binary64 multiplication gives it.
pub open spec fn weight(m: StoredMessage, now: u64) -> nat {
    let (significand, exponent) = spans(m, now);
    ieee::rounded(significand * m.size as nat) * ieee::p2(exponent)
}

pub open spec fn eviction(m: StoredMessage, now: u64, reason: EvictionReason) -> Eviction {
    Eviction { transient_id: m.transient_id, size: m.size, age_secs: age(m, now), reason }
}

/// The sort key of a message: the heavier, the smaller.
pub open spec fn lightness(m: StoredMessage, now: u64) -> u128 {
    (0x1_0000_0000_0000_0000 - ieee::place(weight(m, now))) as u128
}

/// The sort key puts the heavier message first, and no other order among
/// messages of one weight.
pub proof fn law_heavier_goes_first(a: StoredMessage, b: StoredMessage, now: u64)
    ensures
        weight(a, now) < weight(b, now) ==> lightness(b, now) < lightness(a, now),
        weight(a, now) == weight(b, now) ==> lightness(b, now) == lightness(a, now),
{
    lemma_weight(a, now);
    lemma_weight(b, now);
    if weight(a, now) < weight(b, now) && weight(a, now) > 0 {
        let (m, t) = choose|m: nat, t: nat|
            weight(a, now) == m * #[trigger] ieee::p2(t) && #[trigger] ieee::full(m);
        let (n, u) = choose|n: nat, u: nat|
            weight(b, now) == n * #[trigger] ieee::p2(u) && #[trigger] ieee::full(n);
        ieee::lemma_places_order(m, t, n, u);
    }
}

/// A weight is a number of 53 significant bits, and not too large a one.
proof fn lemma_weight(m: StoredMessage, now: u64)
    ensures
        weight(m, now) > 0 ==> exists|s: nat, t: nat|
            weight(m, now) == s * #[trigger] ieee::p2(t) && #[trigger] ieee::full(s),
        weight(m, now) > 0 ==> ieee::place(weight(m, now)) > 0,
        ieee::place(weight(m, now)) < 0x1_0000_0000_0000_0000,
{
    ieee::lemma_p2_values();
    lemma_spans(m, now);
    let (significand, exponent) = spans(m, now);
    ieee::lemma_product(significand, exponent, m.size as nat);
}

proof fn lemma_spans(m: StoredMessage, now: u64)
    ensures
        ieee::p2(52) <= spans(m, now).0 <= ieee::p2(53),
        spans(m, now).1 < 52,
{
    let n = ieee::rounded(age(m, now) as nat);
    ieee::lemma_p2_values();
    ieee::lemma_rounded_range(age(m, now));
    if n > WEIGHT_AGE_SECS {
        assert(n / (WEIGHT_AGE_SECS as nat) < ieee::FRACTION);
        ieee::lemma_quotient(n, WEIGHT_AGE_SECS as nat);
    }
}

/// The messages of a directory, heaviest first.
pub open spec fn ranked(list: Seq<StoredMessage>, now: u64) -> Seq<Eviction> {
    stable::sorted(
        list.map_values(
            |m: StoredMessage|
                (lightness(m, now), eviction(m, now, EvictionReason::Displaced)),
        ),
    ).map_values(|e: (u128, Eviction)| e.1)
}

pub open spec fn evicted_ids(s: Seq<Eviction>) -> Seq<TransientId> {
    s.map_values(|e: Eviction| e.transient_id)
}

/// What is evicted, and the room then left, when `n` messages of a ranking were
/// considered: each is dropped that is met while room is short.
pub open spec fn displaced(
    order: Seq<Eviction>,
    records: Map<TransientId, crate::propagation_store::Record>,
    room: int,
    needed: int,
    n: nat,
) -> (Seq<Eviction>, int)
    decreases n,
{
    if n == 0 {
        (seq![], room)
    } else {
        let (gone, free) = displaced(order, records, room, needed, (n - 1) as nat);
        let e = order[n - 1];
        let left = without(records, evicted_ids(gone));
        if free >= needed || !left.contains_key(e.transient_id) {
            (gone, free)
        } else {
            (gone.push(e), free + crate::propagation_store::held(left, e.transient_id))
        }
    }
}

/// The messages a directory has to give up so that `needed` bytes fit.
pub open spec fn room_made(
    list: Seq<StoredMessage>,
    records: Map<TransientId, crate::propagation_store::Record>,
    room: int,
    needed: int,
    now: u64,
) -> (Seq<Eviction>, int) {
    displaced(ranked(list, now), records, room, needed, list.len())
}

/// A message of the directory has outlived its time. What was received before
/// the calendar jumped is not judged by the calendar after it.
pub open spec fn overdue(m: StoredMessage, now: u64, expiry: u64, floor: u64) -> bool {
    &&& !(floor > 0 && m.received_at <= floor && now > floor)
    &&& age(m, now) > expiry
}

/// The overdue messages of a directory.
pub open spec fn expired(list: Seq<StoredMessage>, now: u64, expiry: u64, floor: u64) -> Seq<
    Eviction,
>
    decreases list.len(),
{
    if list.len() == 0 {
        seq![]
    } else if overdue(list.last(), now, expiry, floor) {
        expired(list.drop_last(), now, expiry, floor).push(
            eviction(list.last(), now, EvictionReason::Expired),
        )
    } else {
        expired(list.drop_last(), now, expiry, floor)
    }
}

/// An eviction speaks of a record that has outlived its time.
pub open spec fn outlived(
    records: Map<TransientId, crate::propagation_store::Record>,
    e: Eviction,
    now: u64,
    expiry: u64,
    floor: u64,
) -> bool {
    &&& records.contains_key(e.transient_id)
    &&& overdue(records[e.transient_id].meta, now, expiry, floor)
    &&& e == eviction(records[e.transient_id].meta, now, EvictionReason::Expired)
}

/// An eviction speaks of a record that made way for another.
pub open spec fn displaces(
    records: Map<TransientId, crate::propagation_store::Record>,
    e: Eviction,
    now: u64,
) -> bool {
    &&& records.contains_key(e.transient_id)
    &&& e == eviction(records[e.transient_id].meta, now, EvictionReason::Displaced)
}

/// A processed ID is still remembered.
pub open spec fn recent(now: u64) -> spec_fn(TransientId, u64) -> bool {
    |id: TransientId, at: u64| now - at <= PROCESSED_ID_EXPIRY_SECS
}

fn age_of(received_at: u64, now: u64) -> (r: u64)
    ensures
        r == (if now >= received_at {
            now - received_at
        } else {
            0
        }),
{
    if now >= received_at {
        now - received_at
    } else {
        0
    }
}

proof fn lemma_evicted_push(s: Seq<Eviction>, e: Eviction)
    ensures
        evicted_ids(s.push(e)) == evicted_ids(s).push(e.transient_id),
{
    assert(evicted_ids(s.push(e)) =~= evicted_ids(s).push(e.transient_id));
}

fn lightness_of(m: &StoredMessage, now: u64) -> (r: u128)
    ensures
        r == lightness(*m, now),
{
    let n: u128 = ieee::rounded_int(age_of(m.received_at, now));
    proof {
        ieee::lemma_p2_values();
        ieee::lemma_rounded_range(age(*m, now));
        lemma_spans(*m, now);
    }
    let (significand, exponent): (u64, u32) = if n <= WEIGHT_AGE_SECS as u128 {
        (ieee::FRACTION, 0)
    } else {
        ieee::divide(n, WEIGHT_AGE_SECS)
    };
    HEAVIEST - ieee::product_place(significand, exponent, m.size)
}

impl<S: PropagationStore> PropagationNode<S> {
    /// The directory by descending weight.
    fn ranking(&self, now_secs: u64) -> (r: Vec<(u128, Eviction)>)
        requires
            self.wf(),
        ensures
            self.stored().steady() ==> r@.map_values(|e: (u128, Eviction)| e.1) == ranked(
                crate::propagation_store::listing(
                    self.stored().records(),
                    self.stored().walk(),
                ),
                now_secs,
            ),
            self.stored().steady() ==> r@.len() == self.stored().walk().len(),
            forall|i: int|
                0 <= i < r@.len() ==> displaces(
                    self.stored().records(),
                    #[trigger] r@[i].1,
                    now_secs,
                ),
    {
        let mut weighted: Vec<(u128, Eviction)> = Vec::new();
        let list = match self.store.directory() {
            Ok(list) => list,
            Err(_) => {
                return weighted;
            },
        };
        let ghost all = list@.map_values(
            |m: StoredMessage|
                (lightness(m, now_secs), eviction(m, now_secs, EvictionReason::Displaced)),
        );
        let mut i: usize = 0;
        while i < list.len()
            invariant
                i <= list@.len(),
                all == list@.map_values(
                    |m: StoredMessage|
                        (
                            lightness(m, now_secs),
                            eviction(m, now_secs, EvictionReason::Displaced),
                        ),
                ),
                weighted@ == all.take(i as int),
            decreases list@.len() - i,
        {
            let meta = list[i];
            let age_secs: u64 = age_of(meta.received_at, now_secs);
            weighted.push(
                (
                    lightness_of(&meta, now_secs),
                    Eviction {
                        transient_id: meta.transient_id,
                        size: meta.size,
                        age_secs,
                        reason: EvictionReason::Displaced,
                    },
                ),
            );
            assert(all.take(i + 1) =~= all.take(i as int).push(all[i as int]));
            i = i + 1;
        }
        assert(all.take(i as int) =~= all);
        proof {
            stable::law_sorted_by_key(all);
            let records = self.stored().records();
            let walk = self.stored().walk();
            self.store.lemma_store_ok();
            assert forall|i: int| 0 <= i < stable::sorted(all).len() implies displaces(
                records,
                #[trigger] stable::sorted(all)[i].1,
                now_secs,
            ) by {
                stable::lemma_sorted_element(all, i);
                let j = choose|j: int| 0 <= j < all.len() && all[j] == stable::sorted(all)[i];
                assert(walk.contains(walk[j]));
                assert(crate::propagation_store::record_ok(walk[j], records[walk[j]]));
            }
        }
        stable::sort(weighted)
    }

    /// Drops the heaviest messages until `needed` bytes fit.
    fn make_room(&mut self, needed: u64, now_secs: u64) -> (r: Vec<Eviction>)
        requires
            old(self).wf(),
        ensures
            final(self).wf(),
            final(self).same_settings(old(self)),
            final(self).handled() == old(self).handled(),
            final(self).stored().steady() == old(self).stored().steady(),
            crate::propagation_store::same_counters(&final(self).stored(), &old(self).stored()),
            crate::propagation_store::within(
                final(self).stored().records(),
                old(self).stored().records(),
            ),
            forall|i: int|
                0 <= i < r@.len() ==> {
                    &&& displaces(old(self).stored().records(), #[trigger] r@[i], now_secs)
                    &&& !final(self).stored().records().contains_key(r@[i].transient_id)
                },
            old(self).stored().steady() ==> {
                let made = room_made(
                    crate::propagation_store::listing(
                        old(self).stored().records(),
                        old(self).stored().walk(),
                    ),
                    old(self).stored().records(),
                    old(self).stored().room(),
                    needed as int,
                    now_secs,
                );
                &&& r@ == made.0
                &&& final(self).stored().room() == made.1
                &&& final(self).stored().records() == without(
                    old(self).stored().records(),
                    evicted_ids(made.0),
                )
            },
    {
        let ghost start = *self;
        let ghost records0 = self.store.records();
        let ghost room0 = self.store.room();
        let weighted = self.ranking(now_secs);
        let ghost order = weighted@.map_values(|e: (u128, Eviction)| e.1);
        let mut evicted: Vec<Eviction> = Vec::new();
        let mut i: usize = 0;
        proof {
            lemma_without_none(records0);
            assert(evicted_ids(evicted@) =~= Seq::empty());
        }
        while i < weighted.len()
            invariant
                i <= weighted@.len(),
                self.wf(),
                self.same_settings(&start),
                self.handled() == start.handled(),
                self.stored().steady() == start.stored().steady(),
                crate::propagation_store::same_counters(&self.stored(), &start.stored()),
                crate::propagation_store::within(self.stored().records(), records0),
                order == weighted@.map_values(|e: (u128, Eviction)| e.1),
                forall|j: int|
                    0 <= j < weighted@.len() ==> displaces(
                        records0,
                        #[trigger] weighted@[j].1,
                        now_secs,
                    ),
                forall|j: int|
                    0 <= j < evicted@.len() ==> {
                        &&& displaces(records0, #[trigger] evicted@[j], now_secs)
                        &&& !self.stored().records().contains_key(evicted@[j].transient_id)
                    },
                start.stored().steady() ==> {
                    &&& (evicted@, self.stored().room()) == displaced(
                        order,
                        records0,
                        room0,
                        needed as int,
                        i as nat,
                    )
                    &&& self.stored().records() == without(records0, evicted_ids(evicted@))
                },
            decreases weighted@.len() - i,
        {
            let e = weighted[i].1;
            assert(order[i as int] == e);
            i = i + 1;
            if self.store.free_space() < needed {
                let gone = match self.store.purge(&e.transient_id) {
                    Ok(b) => b,
                    Err(_) => false,
                };
                let ghost before = evicted@;
                if gone {
                    evicted.push(e);
                    proof {
                        lemma_evicted_push(before, e);
                        lemma_without_push(records0, evicted_ids(before), e.transient_id);
                    }
                } else {
                    proof {
                        if start.stored().steady() {
                            assert(self.stored().records() =~= without(
                                records0,
                                evicted_ids(before),
                            ));
                        }
                    }
                }
            }
        }
        evicted
    }

    /// Time passes: overdue messages are dropped, and processed IDs forgotten
    /// that are no longer remembered.
    pub fn tick(&mut self, now_secs: u64) -> (r: Vec<Eviction>)
        requires
            old(self).wf(),
        ensures
            final(self).wf(),
            cleaned(*old(self), *final(self), now_secs, r@),
    {
        let ghost start = *self;
        let ghost records0 = self.store.records();
        let ghost walk = self.store.walk();
        let expiry: u64 = self.config.message_expiry_secs;
        let floor: u64 = self.calendar_jump_floor;
        proof {
            self.store.lemma_store_ok();
        }
        let list = match self.store.directory() {
            Ok(list) => list,
            Err(_) => Vec::new(),
        };
        let mut gone: Vec<Eviction> = Vec::new();
        let mut i: usize = 0;
        proof {
            lemma_without_none(records0);
            assert(evicted_ids(gone@) =~= Seq::empty());
        }
        while i < list.len()
            invariant
                i <= list@.len(),
                self.wf(),
                self.same_settings(&start),
                self.handled() == start.handled(),
                self.stored().steady() == start.stored().steady(),
                expiry == start.conf().message_expiry_secs,
                floor == start.floor(),
                crate::propagation_store::same_counters(&self.stored(), &start.stored()),
                crate::propagation_store::within(self.stored().records(), records0),
                crate::propagation_store::store_ok(records0, walk),
                list@.len() == 0 || list@ == crate::propagation_store::listing(records0, walk),
                forall|j: int|
                    0 <= j < gone@.len() ==> {
                        &&& outlived(records0, #[trigger] gone@[j], now_secs, expiry, floor)
                        &&& !self.stored().records().contains_key(gone@[j].transient_id)
                    },
                start.stored().steady() ==> {
                    &&& list@ == crate::propagation_store::listing(records0, walk)
                    &&& self.stored().room() == start.stored().room()
                        + crate::propagation_store::released(records0, evicted_ids(gone@))
                    &&& gone@ == expired(list@.take(i as int), now_secs, expiry, floor)
                    &&& self.stored().records() == without(records0, evicted_ids(gone@))
                    &&& forall|k: TransientId| #[trigger]
                        evicted_ids(gone@).contains(k) ==> walk.take(i as int).contains(k)
                },
            decreases list@.len() - i,
        {
            let meta = list[i];
            let ghost before = gone@;
            let ghost steady = start.stored().steady();
            proof {
                assert(list@.take(i + 1).drop_last() =~= list@.take(i as int));
                assert(walk[i as int] == meta.transient_id && records0.contains_key(
                    meta.transient_id,
                ) && records0[meta.transient_id].meta == meta) by {
                    assert(walk.contains(walk[i as int]));
                    assert(records0.contains_key(walk[i as int]));
                    assert(crate::propagation_store::record_ok(
                        walk[i as int],
                        records0[walk[i as int]],
                    ));
                }
                if steady {
                    assert(walk.contains(meta.transient_id));
                    if walk.take(i as int).contains(meta.transient_id) {
                        let short = walk.take(i as int);
                        let j = choose|j: int| 0 <= j < short.len() && short[j]
                            == meta.transient_id;
                        assert(walk[j] == walk[i as int]);
                    }
                    assert forall|k: TransientId| walk.take(i as int).contains(k) implies
                        #[trigger] walk.take(i + 1).contains(k) by {
                        let short = walk.take(i as int);
                        let j = choose|j: int| 0 <= j < short.len() && short[j] == k;
                        assert(walk.take(i + 1)[j] == k);
                    }
                    assert(walk.take(i + 1)[i as int] == meta.transient_id);
                }
            }
            let age_secs: u64 = age_of(meta.received_at, now_secs);
            if !(floor > 0 && meta.received_at <= floor && now_secs > floor) && age_secs > expiry {
                let purged = match self.store.purge(&meta.transient_id) {
                    Ok(b) => b,
                    Err(_) => false,
                };
                if purged {
                    let e = Eviction {
                        transient_id: meta.transient_id,
                        size: meta.size,
                        age_secs,
                        reason: EvictionReason::Expired,
                    };
                    gone.push(e);
                    proof {
                        assert(outlived(records0, e, now_secs, expiry, floor));
                        lemma_evicted_push(before, e);
                        assert(evicted_ids(gone@).drop_last() =~= evicted_ids(before));
                        lemma_without_push(records0, evicted_ids(before), e.transient_id);
                        let ids = evicted_ids(gone@);
                        assert forall|k: TransientId| steady && #[trigger] ids.contains(k) implies
                            walk.take(i + 1).contains(k) by {
                            let j = choose|j: int| 0 <= j < ids.len() && ids[j] == k;
                            if j < before.len() {
                                assert(evicted_ids(before)[j] == k);
                                assert(evicted_ids(before).contains(k));
                            }
                        }
                    }
                }
            }
            i = i + 1;
        }
        assert(list@.take(i as int) =~= list@);
        let ghost kept = recent(now_secs);
        let keep = |id: &TransientId, at: &u64| -> (b: bool)
            ensures
                b == kept(*id, *at),
            { *at > now_secs || now_secs - *at <= PROCESSED_ID_EXPIRY_SECS };
        self.processed.retain(keep, Ghost(kept));
        gone
    }
}

/// The stamp value a verdict amounts to.
pub open spec fn capped(verdict: Option<u16>) -> u8 {
    match verdict {
        Some(v) => if v > 255 {
            255
        } else {
            v as u8
        },
        None => 0,
    }
}

/// What an upload leads to that is not turned away for its stamp.
pub open spec fn stored_upload<S: PropagationStore>(
    before: PropagationNode<S>,
    after: PropagationNode<S>,
    body: Seq<u8>,
    id: TransientId,
    now: u64,
    value: u8,
    r: UploadOutcome,
) -> bool {
    let records = before.stored().records();
    let kept = after.stored().records();
    let steady = before.stored().steady();
    let list = crate::propagation_store::listing(records, before.stored().walk());
    let short = body.len() > before.stored().room();
    let made = room_made(list, records, before.stored().room(), body.len() as int, now);
    &&& after.same_settings(&before)
    &&& after.stored().steady() == steady
    &&& after.stored().space() == before.stored().space()
    &&& match r {
        UploadOutcome::Accepted {
            transient_id,
            destination_hash,
            size,
            stamp_value,
            duplicate,
            evicted,
        } => {
            &&& transient_id == id
            &&& destination_hash@ == body.take(DESTINATION_LENGTH as int)
            &&& size == body.len() as u32
            &&& stamp_value == value
            &&& duplicate ==> {
                &&& before.handled().contains_key(id) || records.contains_key(id)
                &&& evicted@.len() == 0
                &&& after == before
            }
            &&& !duplicate ==> {
                &&& !before.handled().contains_key(id)
                &&& after.handled() == before.handled().insert(id, now)
                &&& kept.contains_key(id)
                &&& crate::propagation_store::stored_as(kept[id], id, now, value, body)
                &&& crate::propagation_store::within(kept.remove(id), records.remove(id))
                &&& kept[id].meta.sequence == after.stored().highest()
                &&& after.stored().highest() > before.stored().highest()
                &&& after.stored().numbers() + 1 >= before.stored().numbers()
                &&& forall|i: int|
                    0 <= i < evicted@.len() ==> {
                        &&& displaces(records, #[trigger] evicted@[i], now)
                        &&& evicted@[i].transient_id != id ==> !kept.contains_key(
                            evicted@[i].transient_id,
                        )
                    }
                &&& steady ==> {
                    &&& !records.contains_key(id)
                    &&& after.stored().numbers() + 1 == before.stored().numbers()
                    &&& if short {
                        &&& evicted@ == made.0
                        &&& body.len() <= made.1
                        &&& kept == without(records, evicted_ids(made.0)).insert(id, kept[id])
                        &&& after.stored().room() == made.1 - body.len()
                    } else {
                        &&& evicted@.len() == 0
                        &&& kept == records.insert(id, kept[id])
                        &&& after.stored().room() == before.stored().room() - body.len()
                    }
                }
            }
        },
        // The store could not take the message, whatever was dropped for it.
        UploadOutcome::StoreFailed(e) => {
            &&& !before.handled().contains_key(id)
            &&& after.handled() == before.handled()
            &&& crate::propagation_store::within(kept, records)
            &&& crate::propagation_store::same_counters(&after.stored(), &before.stored())
            &&& steady ==> {
                &&& !records.contains_key(id)
                &&& e == StorageError::Full
                &&& short
                &&& body.len() > made.1
                &&& kept == without(records, evicted_ids(made.0))
                &&& after.stored().room() == made.1
            }
        },
        _ => false,
    }
}

/// What an upload leads to, given the verdict on its stamp. The verdict counts
/// only where the node asks for one.
pub open spec fn ingested<S: PropagationStore>(
    before: PropagationNode<S>,
    after: PropagationNode<S>,
    unstamped: Seq<u8>,
    stamp: Seq<u8>,
    id: TransientId,
    now: u64,
    verdict: Option<u16>,
    r: UploadOutcome,
) -> bool {
    if before.asks_stamp() && verdict is None {
        &&& after == before
        &&& r is InvalidStamp
        &&& r->reject@ == crate::propagation::signal_bytes()
    } else {
        stored_upload(
            before,
            after,
            unstamped + stamp,
            id,
            now,
            if before.asks_stamp() {
                capped(verdict)
            } else {
                0
            },
            r,
        )
    }
}

/// Some verdict of `validate` explains what an upload led to.
pub open spec fn validated<
    S: PropagationStore,
    F: FnOnce(&TransientId, &[u8; STAMP_SIZE]) -> Option<u16>,
>(
    before: PropagationNode<S>,
    after: PropagationNode<S>,
    unstamped: Seq<u8>,
    stamp: Seq<u8>,
    now: u64,
    validate: F,
    r: UploadOutcome,
) -> bool {
    exists|id: TransientId, st: [u8; STAMP_SIZE], verdict: Option<u16>| #[trigger]
        ingested(before, after, unstamped, st@, id, now, verdict, r) && id@
            == crate::hash::sha256(unstamped) && st@ == stamp && (before.asks_stamp()
            ==> call_ensures(validate, (&id, &st), verdict))
}

impl<S: PropagationStore> PropagationNode<S> {
    /// Takes in one message with the verdict on its stamp.
    pub fn ingest(
        &mut self,
        unstamped: &[u8],
        stamp: &[u8; STAMP_SIZE],
        transient_id: TransientId,
        now_secs: u64,
        verdict: Option<u16>,
    ) -> (r: UploadOutcome)
        requires
            old(self).wf(),
            old(self).stored().numbers() > 0,
            unstamped@.len() >= DESTINATION_LENGTH,
        ensures
            final(self).wf(),
            final(self).stored().numbers() + 1 >= old(self).stored().numbers(),
            ingested(
                *old(self),
                *final(self),
                unstamped@,
                stamp@,
                transient_id,
                now_secs,
                verdict,
                r,
            ),
    {
        let asks = self.min_accepted_cost() > 0 || self.compute_stamp_value;
        let stamp_value: u8 = if !asks {
            0
        } else {
            match verdict {
                Some(value) => if value > 255 {
                    255
                } else {
                    value as u8
                },
                None => {
                    return UploadOutcome::InvalidStamp {
                        reject: PropagationSignal::InvalidStamp.encode(),
                    };
                },
            }
        };
        let mut body: Vec<u8> = Vec::new();
        body.extend_from_slice(unstamped);
        body.extend_from_slice(stamp);
        assert(body@ =~= unstamped@ + stamp@);
        let head = to_array::<DESTINATION_LENGTH>(
            slice_subrange(body.as_slice(), 0, DESTINATION_LENGTH),
        );
        let destination_hash = match head {
            Some(head) => head,
            None => [0u8;DESTINATION_LENGTH],
        };
        assert(body@.subrange(0, DESTINATION_LENGTH as int) =~= body@.take(
            DESTINATION_LENGTH as int,
        ));
        let size: u32 = body.len() as u32;
        let known = self.processed.contains(&transient_id) || (match self.store.contains(
            &transient_id,
        ) {
            Ok(b) => b,
            Err(_) => false,
        });
        if known {
            return UploadOutcome::Accepted {
                transient_id,
                destination_hash,
                size,
                stamp_value,
                duplicate: true,
                evicted: Vec::new(),
            };
        }
        let ghost records = self.stored().records();
        let mut evicted: Vec<Eviction> = Vec::new();
        let mut result = self.store.append(
            &transient_id,
            now_secs,
            stamp_value,
            body.as_slice(),
        );
        let full = match result {
            Err(StorageError::Full) => true,
            _ => false,
        };
        if full {
            evicted = self.make_room(body.len() as u64, now_secs);
            let ghost cleared = self.stored().records();
            result =
            self.store.append(&transient_id, now_secs, stamp_value, body.as_slice());
            proof {
                let kept = self.stored().records();
                assert forall|i: int| 0 <= i < evicted@.len() && result is Ok implies {
                    &&& displaces(records, #[trigger] evicted@[i], now_secs)
                    &&& evicted@[i].transient_id != transient_id ==> !kept.contains_key(
                        evicted@[i].transient_id,
                    )
                } by {
                    let gone = evicted@[i].transient_id;
                    assert(!cleared.remove(transient_id).contains_key(gone));
                    assert(!kept.remove(transient_id).contains_key(gone));
                }
            }
        }
        match result {
            Err(error) => {
                return UploadOutcome::StoreFailed(error);
            },
            Ok(_) => {},
        }
        let _ = self.processed.insert(transient_id, now_secs);
        UploadOutcome::Accepted {
            transient_id,
            destination_hash,
            size,
            stamp_value,
            duplicate: false,
            evicted,
        }
    }

    fn ingest_split<F: FnOnce(&TransientId, &[u8; STAMP_SIZE]) -> Option<u16>>(
        &mut self,
        unstamped: &[u8],
        stamp: &[u8; STAMP_SIZE],
        transient_id: TransientId,
        now_secs: u64,
        validate: F,
    ) -> (r: UploadOutcome)
        requires
            old(self).wf(),
            old(self).stored().numbers() > 0,
            unstamped@.len() >= DESTINATION_LENGTH,
            transient_id@ == crate::hash::sha256(unstamped@),
            forall|a: &TransientId, b: &[u8; STAMP_SIZE]| call_requires(validate, (a, b)),
        ensures
            final(self).wf(),
            final(self).stored().numbers() + 1 >= old(self).stored().numbers(),
            validated(
                *old(self),
                *final(self),
                unstamped@,
                stamp@,
                now_secs,
                validate,
                r,
            ),
    {
        let asks = self.min_accepted_cost() > 0 || self.compute_stamp_value;
        let verdict: Option<u16> = if asks {
            validate(&transient_id, stamp)
        } else {
            None
        };
        self.ingest(unstamped, stamp, transient_id, now_secs, verdict)
    }

    /// Takes a client upload off the wire. `validate` judges the stamp; it is
    /// not called where the node asks for none.
    pub fn handle_upload<F: FnOnce(&TransientId, &[u8; STAMP_SIZE]) -> Option<u16>>(
        &mut self,
        envelope: &[u8],
        now_secs: u64,
        validate: F,
    ) -> (r: UploadOutcome)
        requires
            old(self).wf(),
            old(self).stored().numbers() > 0,
            forall|a: &TransientId, b: &[u8; STAMP_SIZE]| call_requires(validate, (a, b)),
        ensures
            final(self).wf(),
            final(self).stored().numbers() + 1 >= old(self).stored().numbers(),
            received(*old(self), *final(self), envelope@, now_secs, validate, r),
    {
        let upload = match PropagationUpload::decode(envelope) {
            Ok(upload) => upload,
            Err(PropagationError::MultipleMessages) => {
                return UploadOutcome::PeerSyncForm;
            },
            Err(error) => {
                return UploadOutcome::Malformed(error);
            },
        };
        self.ingest_split(
            upload.unstamped_lxmf(),
            upload.propagation_stamp(),
            *upload.transient_id(),
            now_secs,
            validate,
        )
    }

    /// Takes one stamped message out of a peer sync.
    pub fn accept_stamped<F: FnOnce(&TransientId, &[u8; STAMP_SIZE]) -> Option<u16>>(
        &mut self,
        stamped: &[u8],
        now_secs: u64,
        validate: F,
    ) -> (r: UploadOutcome)
        requires
            old(self).wf(),
            old(self).stored().numbers() > 0,
            forall|a: &TransientId, b: &[u8; STAMP_SIZE]| call_requires(validate, (a, b)),
        ensures
            final(self).wf(),
            final(self).stored().numbers() + 1 >= old(self).stored().numbers(),
            received_stamped(*old(self), *final(self), stamped@, now_secs, validate, r),
    {
        if stamped.len() <= LXMF_OVERHEAD + STAMP_SIZE {
            return UploadOutcome::Malformed(PropagationError::InvalidLength);
        }
        let cut: usize = stamped.len() - STAMP_SIZE;
        let unstamped = slice_subrange(stamped, 0, cut);
        assert(unstamped@ =~= stamped@.take(cut as int));
        assert(stamped@.subrange(cut as int, stamped@.len() as int) =~= stamped@.skip(cut as int));
        match to_array::<STAMP_SIZE>(slice_subrange(stamped, cut, stamped.len())) {
            Some(stamp) => {
                let transient_id = full_hash(unstamped);
                self.ingest_split(unstamped, &stamp, transient_id, now_secs, validate)
            },
            None => UploadOutcome::Malformed(PropagationError::InvalidLength),
        }
    }
}

/// Why a streamed response cannot go on.
#[derive(Debug, Clone, Copy, PartialEq, Eq, Structural)]
pub enum SourceError {
    /// A planned message is no longer there, or cannot be read.
    Unavailable,
    /// A planned message is there with another length.
    LengthChanged,
}

/// A planned message is in the store with the length it was planned with.
pub open spec fn available(
    records: Map<TransientId, crate::propagation_store::Record>,
    e: (TransientId, u32),
) -> bool {
    records.contains_key(e.0) && records[e.0].body.len() == e.1 + STAMP_SIZE
}

/// Every planned message is available.
pub open spec fn all_available(
    records: Map<TransientId, crate::propagation_store::Record>,
    served: Seq<(TransientId, u32)>,
) -> bool {
    forall|i: int| 0 <= i < served.len() ==> available(records, #[trigger] served[i])
}

/// A planned message with its stamp stripped.
pub open spec fn unstamped(
    records: Map<TransientId, crate::propagation_store::Record>,
    e: (TransientId, u32),
) -> Seq<u8> {
    records[e.0].body.take(e.1 as int)
}

/// The planned messages with their stamps stripped.
pub open spec fn bodies(
    records: Map<TransientId, crate::propagation_store::Record>,
    served: Seq<(TransientId, u32)>,
) -> Seq<Seq<u8>> {
    served.map_values(|e: (TransientId, u32)| unstamped(records, e))
}

/// The response that a plan leads to.
pub open spec fn fetch_bytes(
    records: Map<TransientId, crate::propagation_store::Record>,
    served: Seq<(TransientId, u32)>,
) -> Seq<u8> {
    crate::propagation::bins_bytes(bodies(records, served))
}

/// The planned messages from the `i`-th on, as MessagePack binary values.
pub open spec fn tail_bytes(
    records: Map<TransientId, crate::propagation_store::Record>,
    served: Seq<(TransientId, u32)>,
    i: int,
) -> Seq<u8>
    decreases served.len() - i,
{
    if i < 0 || i >= served.len() {
        seq![]
    } else {
        msgpack::bin_bytes(unstamped(records, served[i])) + tail_bytes(records, served, i + 1)
    }
}

proof fn lemma_tail(
    records: Map<TransientId, crate::propagation_store::Record>,
    served: Seq<(TransientId, u32)>,
    i: int,
)
    requires
        0 <= i <= served.len(),
    ensures
        msgpack::list_bytes(|v: Seq<u8>| msgpack::bin_bytes(v), bodies(records, served))
            == msgpack::list_bytes(
            |v: Seq<u8>| msgpack::bin_bytes(v),
            bodies(records, served).take(i),
        ) + tail_bytes(records, served, i),
    decreases served.len() - i,
{
    let one = |v: Seq<u8>| msgpack::bin_bytes(v);
    let all = bodies(records, served);
    if i == served.len() {
        assert(all.take(i) =~= all);
        assert(msgpack::list_bytes(one, all) =~= msgpack::list_bytes(one, all.take(i)) + tail_bytes(
            records,
            served,
            i,
        ));
    } else {
        lemma_tail(records, served, i + 1);
        assert(all.take(i + 1).drop_last() =~= all.take(i));
        let a = msgpack::list_bytes(one, all.take(i));
        let b = msgpack::bin_bytes(unstamped(records, served[i]));
        let c = tail_bytes(records, served, i + 1);
        assert((a + b) + c =~= a + (b + c));
    }
}

proof fn lemma_framed(
    records: Map<TransientId, crate::propagation_store::Record>,
    served: Seq<(TransientId, u32)>,
)
    requires
        all_available(records, served),
    ensures
        msgpack::list_bytes(
            |v: Seq<u8>| msgpack::bin_bytes(v),
            bodies(records, served),
        ).len() == framed_total(served),
    decreases served.len(),
{
    if served.len() > 0 {
        let init = served.drop_last();
        assert forall|i: int| 0 <= i < init.len() implies available(records, #[trigger] init[i]) by {
            assert(init[i] == served[i]);
        }
        lemma_framed(records, init);
        assert(bodies(records, served).drop_last() =~= bodies(records, init));
        assert(available(records, served[served.len() - 1]));
    }
}

/// The length of a plan is the length of the response it leads to.
pub proof fn law_planned_length(
    records: Map<TransientId, crate::propagation_store::Record>,
    served: Seq<(TransientId, u32)>,
)
    requires
        all_available(records, served),
    ensures
        fetch_bytes(records, served).len() == fetch_len(served),
{
    lemma_framed(records, served);
}

impl<S: PropagationStore> PropagationNode<S> {
    /// Builds the whole response of a plan.
    pub fn encode_fetch(&self, plan: &FetchPlan) -> (r: Result<Vec<u8>, GetError>)
        requires
            self.wf(),
        ensures
            match r {
                Ok(v) => {
                    &&& all_available(self.stored().records(), plan.served())
                    &&& v@ == fetch_bytes(self.stored().records(), plan.served())
                },
                Err(e) => {
                    ||| !self.stored().steady()
                    ||| {
                        &&& !all_available(self.stored().records(), plan.served())
                        &&& e == GetError::Store(StorageError::NotFound)
                    }
                },
            },
    {
        let ghost records = self.store.records();
        let ghost served = plan.served@;
        let ghost all = bodies(records, served);
        let mut out: Vec<Vec<u8>> = Vec::new();
        let mut i: usize = 0;
        while i < plan.served.len()
            invariant
                self.wf(),
                i <= served.len(),
                served == plan.served@,
                records == self.store.records(),
                all == bodies(records, served),
                crate::propagation::values_view(out@) == all.take(i as int),
                forall|j: int| 0 <= j < i ==> available(records, #[trigger] served[j]),
            decreases served.len() - i,
        {
            let (id, servable): (TransientId, u32) = plan.served[i];
            let read = match self.store.read_body(&id) {
                Ok(read) => read,
                Err(error) => {
                    return Err(GetError::Store(error));
                },
            };
            let body: Vec<u8> = match read {
                Some(body) => body,
                None => {
                    assert(!available(records, served[i as int]));
                    return Err(GetError::Store(StorageError::NotFound));
                },
            };
            if body.len() as u64 != servable as u64 + STAMP_SIZE as u64 {
                assert(!available(records, served[i as int]));
                return Err(GetError::Store(StorageError::NotFound));
            }
            let mut body = body;
            body.truncate(servable as usize);
            assert(body@ =~= unstamped(records, served[i as int]));
            let ghost before = out@;
            out.push(body);
            proof {
                assert(all.take(i + 1) =~= all.take(i as int).push(all[i as int]));
                assert(crate::propagation::values_view(out@)
                    =~= crate::propagation::values_view(before).push(body@));
            }
            i = i + 1;
        }
        assert(all.take(i as int) =~= all);
        match MessageGetResponse::Messages(out).encode() {
            Ok(bytes) => Ok(bytes),
            Err(error) => Err(GetError::Request(error)),
        }
    }

    /// The response of a plan as a byte stream.
    pub fn fetch_source<'a>(&'a self, plan: &'a FetchPlan) -> (r: FetchSource<'a, S>)
        requires
            self.wf(),
        ensures
            r.wf(),
            r.source() == self.stored(),
            r.plan() == *plan,
            r.remaining() == fetch_bytes(self.stored().records(), plan.served()),
    {
        FetchSource::new(&self.store, plan)
    }
}

/// The fetch response as a byte stream read out of the store.
///
/// It is the response that [`PropagationNode::encode_fetch`] would build, made
/// without the whole ever being in memory: one message is read when it is
/// needed and dropped when the next one is.
pub struct FetchSource<'a, S> {
    store: &'a S,
    plan: &'a FetchPlan,
    array_header: Vec<u8>,
    array_pos: usize,
    index: usize,
    record_header: Vec<u8>,
    record_pos: usize,
    body: Option<Vec<u8>>,
    body_pos: usize,
}

/// Copies bytes to the front of a buffer, as many as there are and fit.
fn copy_out(buf: &mut [u8], from: &Vec<u8>, start: usize) -> (n: usize)
    requires
        start < from@.len(),
        old(buf)@.len() > 0,
    ensures
        0 < n <= old(buf)@.len(),
        n <= from@.len() - start,
        start + n <= usize::MAX,
        final(buf)@ == from@.subrange(start as int, start + n) + old(buf)@.skip(n as int),
{
    let size: usize = from.len();
    let left: usize = size - start;
    let n: usize = if buf.len() < left {
        buf.len()
    } else {
        left
    };
    let ghost before = buf@;
    let mut i: usize = 0;
    while i < n
        invariant
            i <= n <= before.len(),
            start + n <= from@.len() == size,
            buf@.len() == before.len(),
            forall|j: int| 0 <= j < i ==> buf@[j] == from@[start + j],
            forall|j: int| i <= j < before.len() ==> buf@[j] == before[j],
        decreases n - i,
    {
        buf[i] = from[start + i];
        i = i + 1;
    }
    assert(buf@ =~= from@.subrange(start as int, start + n) + before.skip(n as int));
    n
}

impl<'a, S: PropagationStore> FetchSource<'a, S> {
    pub closed spec fn source(&self) -> S {
        *self.store
    }

    pub closed spec fn plan(&self) -> FetchPlan {
        *self.plan
    }

    /// The number of messages already sent in full.
    pub closed spec fn at(&self) -> int {
        self.index as int
    }

    pub closed spec fn wf(&self) -> bool {
        let served = self.plan.served@;
        &&& self.store.wf()
        &&& self.array_header@ == msgpack::array_header((served.len() as u32) as nat)
        &&& self.array_pos <= self.array_header@.len()
        &&& self.index <= served.len()
        &&& match self.body {
            Some(b) => {
                &&& self.index < served.len()
                &&& available(self.store.records(), served[self.index as int])
                &&& b@ == unstamped(self.store.records(), served[self.index as int])
                &&& self.record_header@ == msgpack::bin_head((b@.len() as u32) as nat)
                &&& self.record_pos <= self.record_header@.len()
                &&& self.body_pos <= b@.len()
            },
            None => true,
        }
    }

    /// The bytes not yet read.
    pub closed spec fn remaining(&self) -> Seq<u8> {
        let records = self.store.records();
        let served = self.plan.served@;
        self.array_header@.skip(self.array_pos as int) + match self.body {
            Some(b) => self.record_header@.skip(self.record_pos as int) + b@.skip(
                self.body_pos as int,
            ) + tail_bytes(records, served, self.index + 1),
            None => tail_bytes(records, served, self.index as int),
        }
    }

    fn new(store: &'a S, plan: &'a FetchPlan) -> (r: FetchSource<'a, S>)
        requires
            store.wf(),
        ensures
            r.wf(),
            r.source() == *store,
            r.plan() == *plan,
            r.remaining() == fetch_bytes(store.records(), plan.served()),
    {
        let mut array_header: Vec<u8> = Vec::new();
        msgpack::array(&mut array_header, plan.served.len());
        assert(array_header@ =~= msgpack::array_header((plan.served@.len() as u32) as nat));
        let r = FetchSource {
            store,
            plan,
            array_header,
            array_pos: 0,
            index: 0,
            record_header: Vec::new(),
            record_pos: 0,
            body: None,
            body_pos: 0,
        };
        proof {
            r.lemma_whole();
        }
        r
    }

    proof fn lemma_whole(&self)
        requires
            self.wf(),
            self.array_pos == 0,
            self.index == 0,
            self.body is None,
        ensures
            self.remaining() == fetch_bytes(self.store.records(), self.plan.served@),
    {
        let records = self.store.records();
        let served = self.plan.served@;
        lemma_tail(records, served, 0);
        let one = |v: Seq<u8>| msgpack::bin_bytes(v);
        assert(bodies(records, served).take(0) =~= Seq::empty());
        assert(msgpack::list_bytes(one, bodies(records, served).take(0)) =~= Seq::empty());
        assert(self.array_header@.skip(0) =~= self.array_header@);
        assert(self.remaining() =~= fetch_bytes(records, served));
    }

    /// The exact length of the whole response.
    pub fn total_len(&self) -> (r: usize)
        ensures
            r == self.plan().length(),
    {
        self.plan.encoded_len
    }

    /// Starts over.
    pub fn rewind(&mut self) -> (r: Result<(), SourceError>)
        requires
            old(self).wf(),
        ensures
            r is Ok,
            final(self).wf(),
            final(self).source() == old(self).source(),
            final(self).plan() == old(self).plan(),
            final(self).remaining() == fetch_bytes(
                old(self).source().records(),
                old(self).plan().served(),
            ),
    {
        self.array_pos = 0;
        self.index = 0;
        self.record_header.clear();
        self.record_pos = 0;
        self.body = None;
        self.body_pos = 0;
        proof {
            self.lemma_whole();
        }
        Ok(())
    }

    /// Reads the next planned message.
    fn load(&mut self) -> (r: Result<(), SourceError>)
        requires
            old(self).wf(),
            old(self).index < old(self).plan.served@.len(),
            old(self).body is None,
        ensures
            final(self).wf(),
            final(self).store == old(self).store,
            final(self).plan == old(self).plan,
            final(self).index == old(self).index,
            final(self).array_pos == old(self).array_pos,
            final(self).remaining() == old(self).remaining(),
            match r {
                Ok(_) => {
                    &&& final(self).body is Some
                    &&& final(self).record_pos == 0
                },
                Err(e) => {
                    &&& *final(self) == *old(self)
                    &&& failed(old(self).source(), old(self).plan.served@[old(self).at()], e)
                },
            },
    {
        let (id, servable): (TransientId, u32) = self.plan.served[self.index];
        let read = match self.store.read_body(&id) {
            Ok(read) => read,
            Err(_) => {
                return Err(SourceError::Unavailable);
            },
        };
        let body: Vec<u8> = match read {
            Some(body) => body,
            None => {
                return Err(SourceError::Unavailable);
            },
        };
        if body.len() as u64 != servable as u64 + STAMP_SIZE as u64 {
            return Err(SourceError::LengthChanged);
        }
        let mut body = body;
        body.truncate(servable as usize);
        let ghost before = *self;
        assert(body@ =~= unstamped(self.store.records(), self.plan.served@[self.index as int]));
        let mut header: Vec<u8> = Vec::new();
        msgpack::bin_header(&mut header, body.len());
        assert(header@ =~= msgpack::bin_head((body@.len() as u32) as nat));
        self.record_header = header;
        self.record_pos = 0;
        self.body_pos = 0;
        self.body = Some(body);
        proof {
            assert(self.record_header@.skip(0) =~= self.record_header@);
            assert(body@.skip(0) =~= body@);
        }
        Ok(())
    }

    /// Some bytes went from the front of what remains to the front of a buffer.
    spec fn gave(&self, after: &FetchSource<'a, S>, old_buf: Seq<u8>, buf: Seq<u8>, n: int) -> bool {
        &&& after.wf()
        &&& after.store == self.store
        &&& after.plan == self.plan
        &&& 0 < n <= old_buf.len() == buf.len()
        &&& self.remaining() == buf.take(n) + after.remaining()
        &&& buf.skip(n) == old_buf.skip(n)
    }

    /// Gives bytes of the array header.
    fn give_array(&mut self, buf: &mut [u8]) -> (n: usize)
        requires
            old(self).wf(),
            old(buf)@.len() > 0,
            old(self).array_pos < old(self).array_header@.len(),
        ensures
            old(self).gave(final(self), old(buf)@, final(buf)@, n as int),
    {
        let ghost before = *self;
        let ghost buf0 = buf@;
        let n: usize = copy_out(buf, &self.array_header, self.array_pos);
        self.array_pos = self.array_pos + n;
        proof {
            let h = self.array_header@;
            let p = before.array_pos as int;
            assert(buf@.take(n as int) =~= h.subrange(p, p + n));
            assert(buf@.skip(n as int) =~= buf0.skip(n as int));
            assert(h.skip(p) =~= h.subrange(p, p + n) + h.skip(p + n));
            assert(before.remaining() =~= buf@.take(n as int) + self.remaining());
        }
        n
    }

    /// Gives bytes of the header of the current message.
    fn give_header(&mut self, buf: &mut [u8]) -> (n: usize)
        requires
            old(self).wf(),
            old(buf)@.len() > 0,
            old(self).array_pos == old(self).array_header@.len(),
            old(self).body is Some,
            old(self).record_pos < old(self).record_header@.len(),
        ensures
            old(self).gave(final(self), old(buf)@, final(buf)@, n as int),
    {
        let ghost before = *self;
        let ghost buf0 = buf@;
        let n: usize = copy_out(buf, &self.record_header, self.record_pos);
        self.record_pos = self.record_pos + n;
        proof {
            let h = self.record_header@;
            let p = before.record_pos as int;
            assert(buf@.take(n as int) =~= h.subrange(p, p + n));
            assert(buf@.skip(n as int) =~= buf0.skip(n as int));
            assert(h.skip(p) =~= h.subrange(p, p + n) + h.skip(p + n));
            assert(before.remaining() =~= buf@.take(n as int) + self.remaining());
        }
        n
    }

    /// Gives bytes of the current message.
    fn give_body(&mut self, buf: &mut [u8]) -> (n: usize)
        requires
            old(self).wf(),
            old(buf)@.len() > 0,
            old(self).array_pos == old(self).array_header@.len(),
            old(self).record_pos == old(self).record_header@.len(),
            old(self).body matches Some(b) && old(self).body_pos < b@.len(),
        ensures
            old(self).gave(final(self), old(buf)@, final(buf)@, n as int),
    {
        let ghost before = *self;
        let ghost buf0 = buf@;
        let n: usize = match &self.body {
            Some(body) => copy_out(buf, body, self.body_pos),
            None => 0,
        };
        self.body_pos = self.body_pos + n;
        proof {
            let h = before.body->0@;
            let p = before.body_pos as int;
            assert(buf@.take(n as int) =~= h.subrange(p, p + n));
            assert(buf@.skip(n as int) =~= buf0.skip(n as int));
            assert(h.skip(p) =~= h.subrange(p, p + n) + h.skip(p + n));
            assert(before.remaining() =~= buf@.take(n as int) + self.remaining());
        }
        n
    }

    /// Leaves a message that was given in full.
    fn step(&mut self)
        requires
            old(self).wf(),
            old(self).array_pos == old(self).array_header@.len(),
            old(self).record_pos == old(self).record_header@.len(),
            old(self).body matches Some(b) && old(self).body_pos == b@.len(),
        ensures
            final(self).wf(),
            final(self).store == old(self).store,
            final(self).plan == old(self).plan,
            final(self).index == old(self).index + 1,
            final(self).remaining() == old(self).remaining(),
    {
        let ghost before = *self;
        assert(self.plan.served.len() == self.plan.served@.len());
        self.index = self.index + 1;
        self.body = None;
        self.body_pos = 0;
        self.record_pos = 0;
        self.record_header.clear();
        assert(self.remaining() =~= before.remaining());
    }

    /// Reads the next bytes of the response into a buffer: none where the
    /// buffer is empty or the response at its end.
    pub fn read(&mut self, buf: &mut [u8]) -> (r: Result<usize, SourceError>)
        requires
            old(self).wf(),
        ensures
            final(self).wf(),
            final(self).source() == old(self).source(),
            final(self).plan() == old(self).plan(),
            match r {
                Ok(n) => {
                    &&& n <= old(buf)@.len()
                    &&& final(buf)@.len() == old(buf)@.len()
                    &&& old(self).remaining() == final(buf)@.take(n as int)
                        + final(self).remaining()
                    &&& final(buf)@.skip(n as int) == old(buf)@.skip(n as int)
                    &&& n == 0 <==> old(buf)@.len() == 0 || old(self).remaining().len() == 0
                },
                Err(e) => {
                    &&& final(buf)@ == old(buf)@
                    &&& final(self).remaining() == old(self).remaining()
                    &&& 0 <= final(self).at() < old(self).plan().served().len()
                    &&& failed(
                        old(self).source(),
                        old(self).plan().served()[final(self).at()],
                        e,
                    )
                },
            },
    {
        if buf.len() == 0 {
            assert(buf@.take(0) =~= Seq::empty());
            assert(Seq::<u8>::empty() + self.remaining() =~= self.remaining());
            return Ok(0);
        }
        let ghost start = *self;
        let ghost buf0 = buf@;
        loop
            invariant
                self.wf(),
                self.store == start.store,
                self.plan == start.plan,
                self.remaining() == start.remaining(),
                start == *old(self),
                buf@ == buf0,
                buf0 == old(buf)@,
                buf0.len() > 0,
            decreases self.plan.served@.len() - self.index,
        {
            if self.array_pos < self.array_header.len() {
                return Ok(self.give_array(buf));
            }
            if self.index >= self.plan.served.len() {
                proof {
                    assert(buf@.take(0) =~= Seq::empty());
                    assert(self.remaining() =~= Seq::empty());
                    assert(Seq::<u8>::empty() + self.remaining() =~= self.remaining());
                }
                return Ok(0);
            }
            if self.body.is_none() {
                match self.load() {
                    Ok(_) => {},
                    Err(error) => {
                        return Err(error);
                    },
                }
            }
            if self.record_pos < self.record_header.len() {
                return Ok(self.give_header(buf));
            }
            let more = match &self.body {
                Some(body) => self.body_pos < body.len(),
                None => false,
            };
            if more {
                return Ok(self.give_body(buf));
            }
            self.step();
        }
    }
}

/// Why the next message of a plan cannot be read.
pub open spec fn failed<S: PropagationStore>(
    store: S,
    e: (TransientId, u32),
    error: SourceError,
) -> bool {
    match error {
        SourceError::Unavailable => !store.records().contains_key(e.0) || !store.steady(),
        SourceError::LengthChanged => store.records().contains_key(e.0) && !available(
            store.records(),
            e,
        ),
    }
}

/// No read fails while every planned message is in a steady store with the
/// length it was planned with.
pub proof fn law_available_messages_are_read<S: PropagationStore>(
    store: S,
    served: Seq<(TransientId, u32)>,
    at: int,
    error: SourceError,
)
    requires
        store.steady(),
        all_available(store.records(), served),
        0 <= at < served.len(),
    ensures
        !failed(store, served[at], error),
{
    assert(available(store.records(), served[at]));
}

/// Chunks one after the other.
pub open spec fn joined(chunks: Seq<Seq<u8>>) -> Seq<u8>
    decreases chunks.len(),
{
    if chunks.len() == 0 {
        seq![]
    } else {
        joined(chunks.drop_last()) + chunks.last()
    }
}

/// What is read from a source until nothing remains is what remained at first,
/// however it was cut into chunks: of a fresh or a rewound source, the whole
/// response.
pub proof fn law_chunks_make_the_response<'a, S: PropagationStore>(
    sources: Seq<FetchSource<'a, S>>,
    chunks: Seq<Seq<u8>>,
)
    requires
        sources.len() == chunks.len() + 1,
        forall|i: int|
            0 <= i < chunks.len() ==> (#[trigger] sources[i]).remaining() == chunks[i]
                + sources[i + 1].remaining(),
    ensures
        joined(chunks) + sources.last().remaining() == sources[0].remaining(),
        sources.last().remaining().len() == 0 ==> joined(chunks) == sources[0].remaining(),
    decreases chunks.len(),
{
    if chunks.len() == 0 {
        assert(joined(chunks) + sources.last().remaining() =~= sources[0].remaining());
    } else {
        let less = chunks.drop_last();
        let before = sources.drop_last();
        assert forall|i: int| 0 <= i < less.len() implies (#[trigger] before[i]).remaining()
            == less[i] + before[i + 1].remaining() by {
            assert(sources[i].remaining() == chunks[i] + sources[i + 1].remaining());
        }
        law_chunks_make_the_response(before, less);
        let k = chunks.len() - 1;
        assert(sources[k].remaining() == chunks[k] + sources[k + 1].remaining());
        let a = joined(less);
        let b = chunks.last();
        let c = sources.last().remaining();
        assert((a + b) + c =~= a + (b + c));
    }
    if sources.last().remaining().len() == 0 {
        assert(joined(chunks) + sources.last().remaining() =~= joined(chunks));
    }
}

/// A client decodes the response of a plan to the planned messages, in their
/// order and without their stamps.
pub proof fn law_fetch_decodes(
    records: Map<TransientId, crate::propagation_store::Record>,
    served: Seq<(TransientId, u32)>,
)
    requires
        all_available(records, served),
        served.len() <= u32::MAX,
        fetch_len(served) <= usize::MAX,
    ensures
        crate::propagation::listing_of(
            fetch_bytes(records, served),
            crate::propagation::value_at(fetch_bytes(records, served)),
        ) == Ok::<crate::propagation::Listing, PropagationError>(
            crate::propagation::Listing::Values(bodies(records, served)),
        ),
        forall|i: int|
            0 <= i < served.len() ==> #[trigger] bodies(records, served)[i]
                == records[served[i].0].body.take(
                records[served[i].0].body.len() - STAMP_SIZE,
            ),
{
    let all = bodies(records, served);
    law_planned_length(records, served);
    assert forall|i: int| 0 <= i < all.len() implies (#[trigger] all[i]).len() <= u32::MAX && all[i]
        == records[served[i].0].body.take(records[served[i].0].body.len() - STAMP_SIZE) by {
        assert(available(records, served[i]));
    }
    crate::propagation::law_get_response_round_trip(crate::propagation::Listing::Values(all));
}

/// An ID that was processed is known: its message is a duplicate even where
/// the store has lost it. Once the ID is forgotten the message is new again,
/// and stored where it fits a steady store. Forgetting leaves the store and
/// every other ID alone.
pub proof fn law_forgotten_id_is_new<S: PropagationStore>(
    known: PropagationNode<S>,
    forgot: PropagationNode<S>,
    id: TransientId,
    body: Seq<u8>,
    now: u64,
    value: u8,
    refused: PropagationNode<S>,
    first: UploadOutcome,
    stored: PropagationNode<S>,
    second: UploadOutcome,
)
    requires
        known.handled().contains_key(id),
        !known.stored().records().contains_key(id),
        forgot.stored() == known.stored(),
        forgot.handled() == known.handled().remove(id),
        stored_upload(known, refused, body, id, now, value, first),
        stored_upload(forgot, stored, body, id, now, value, second),
    ensures
        first matches UploadOutcome::Accepted { duplicate, .. } && duplicate,
        refused == known,
        second matches UploadOutcome::Accepted { duplicate, .. } ==> {
            &&& !duplicate
            &&& stored.handled().contains_key(id)
            &&& stored.stored().records().contains_key(id)
            &&& stored.stored().records()[id].body == body
        },
        known.stored().steady() && body.len() <= known.stored().room() ==> second is Accepted,
        forall|k: TransientId|
            k != id ==> (#[trigger] forgot.handled().contains_key(k)
                == known.handled().contains_key(k)) && (known.handled().contains_key(k)
                ==> forgot.handled()[k] == known.handled()[k]),
{
}

/// Exactly the overdue messages expire.
pub proof fn law_expired(list: Seq<StoredMessage>, now: u64, expiry: u64, floor: u64)
    ensures
        forall|i: int|
            0 <= i < list.len() && overdue(#[trigger] list[i], now, expiry, floor) ==> expired(
                list,
                now,
                expiry,
                floor,
            ).contains(eviction(list[i], now, EvictionReason::Expired)),
        forall|e: Eviction| #[trigger]
            expired(list, now, expiry, floor).contains(e) ==> exists|i: int|
                0 <= i < list.len() && overdue(#[trigger] list[i], now, expiry, floor) && e
                    == eviction(list[i], now, EvictionReason::Expired),
    decreases list.len(),
{
    if list.len() > 0 {
        let init = list.drop_last();
        let less = expired(init, now, expiry, floor);
        let all = expired(list, now, expiry, floor);
        law_expired(init, now, expiry, floor);
        assert forall|i: int|
            0 <= i < list.len() && overdue(#[trigger] list[i], now, expiry, floor) implies all.contains(
            eviction(list[i], now, EvictionReason::Expired),
        ) by {
            let e = eviction(list[i], now, EvictionReason::Expired);
            if i < init.len() {
                assert(init[i] == list[i]);
                assert(less.contains(e));
                let j = choose|j: int| 0 <= j < less.len() && less[j] == e;
                assert(all[j] == e);
            } else {
                assert(all[less.len() as int] == e);
            }
        }
        assert forall|e: Eviction| #[trigger] all.contains(e) implies exists|i: int|
            0 <= i < list.len() && overdue(#[trigger] list[i], now, expiry, floor) && e == eviction(
                list[i],
                now,
                EvictionReason::Expired,
            ) by {
            let j = choose|j: int| 0 <= j < all.len() && all[j] == e;
            if j < less.len() {
                assert(less[j] == e);
                assert(less.contains(e));
                let i = choose|i: int|
                    0 <= i < init.len() && overdue(#[trigger] init[i], now, expiry, floor) && e
                        == eviction(init[i], now, EvictionReason::Expired);
                assert(list[i] == init[i]);
            } else {
                assert(list[list.len() - 1] == list.last());
            }
        }
    }
}

/// A message that was taken in is a duplicate when it comes again: it is
/// accepted once more, so that the sender learns of it, and nothing changes.
pub proof fn law_repeat_is_duplicate<S: PropagationStore>(
    before: PropagationNode<S>,
    between: PropagationNode<S>,
    after: PropagationNode<S>,
    body: Seq<u8>,
    id: TransientId,
    now: u64,
    later: u64,
    value: u8,
    again: u8,
    first: UploadOutcome,
    second: UploadOutcome,
)
    requires
        stored_upload(before, between, body, id, now, value, first),
        first matches UploadOutcome::Accepted { duplicate, .. } && !duplicate,
        stored_upload(between, after, body, id, later, again, second),
    ensures
        second matches UploadOutcome::Accepted { duplicate, .. } && duplicate,
        after == between,
{
}

/// A fetch without confirmations deletes nothing.
pub proof fn law_fetch_deletes_nothing<S: PropagationStore>(
    before: PropagationNode<S>,
    after: PropagationNode<S>,
    request: MessageGetRequest,
    remote: [u8; DESTINATION_LENGTH],
    now: u64,
    plan: FetchPlan,
    purged: Vec<TransientId>,
)
    requires
        request.haves is None,
        before.stored().steady(),
        answered(
            before,
            after,
            request,
            remote,
            now,
            Ok::<GetOutcome, GetError>(GetOutcome::Fetch { plan, purged }),
        ),
    ensures
        purged@.len() == 0,
        after.stored().records() == before.stored().records(),
        after.handled() == before.handled(),
{
    assert(purged@ =~= Seq::empty());
    lemma_without_none(before.stored().records());
    assert(after.handled() =~= before.handled());
}

/// What a round of cleaning does.
pub open spec fn cleaned<S: PropagationStore>(
    before: PropagationNode<S>,
    after: PropagationNode<S>,
    now_secs: u64,
    r: Seq<Eviction>,
) -> bool {
    &&& after.same_settings(&before)
    &&& after.handled() == crate::bytemap::restricted(
        before.handled(),
        recent(now_secs),
    )
    &&& after.stored().steady() == before.stored().steady()
    &&& crate::propagation_store::same_counters(&after.stored(), &before.stored())
    &&& crate::propagation_store::within(
        after.stored().records(),
        before.stored().records(),
    )
    &&& forall|i: int|
        0 <= i < r.len() ==> {
            &&& outlived(
                before.stored().records(),
                #[trigger] r[i],
                now_secs,
                before.conf().message_expiry_secs,
                before.floor(),
            )
            &&& !after.stored().records().contains_key(r[i].transient_id)
        }
    &&& before.stored().steady() ==> {
        &&& r == expired(
            crate::propagation_store::listing(
                before.stored().records(),
                before.stored().walk(),
            ),
            now_secs,
            before.conf().message_expiry_secs,
            before.floor(),
        )
        &&& after.stored().records() == without(
            before.stored().records(),
            evicted_ids(r),
        )
        &&& after.stored().room() == before.stored().room()
            + crate::propagation_store::released(
            before.stored().records(),
            evicted_ids(r),
        )
    }
}

/// What an upload from a client does.
pub open spec fn received<S: PropagationStore, F: FnOnce(&TransientId, &[u8; STAMP_SIZE]) -> Option<u16>>(
    before: PropagationNode<S>,
    after: PropagationNode<S>,
    envelope: Seq<u8>,
    now_secs: u64,
    validate: F,
    r: UploadOutcome,
) -> bool {
    match crate::propagation::upload_of(envelope) {
        Err(PropagationError::MultipleMessages) => r == UploadOutcome::PeerSyncForm
            && after == before,
        Err(e) => r == UploadOutcome::Malformed(e) && after == before,
        Ok(u) => validated(
            before,
            after,
            u.unstamped,
            u.stamp,
            now_secs,
            validate,
            r,
        ),
    }
}

/// What one stamped message from a peer does.
pub open spec fn received_stamped<S: PropagationStore, F: FnOnce(&TransientId, &[u8; STAMP_SIZE]) -> Option<u16>>(
    before: PropagationNode<S>,
    after: PropagationNode<S>,
    stamped: Seq<u8>,
    now_secs: u64,
    validate: F,
    r: UploadOutcome,
) -> bool {
    if stamped.len() <= LXMF_OVERHEAD + STAMP_SIZE {
        &&& r == UploadOutcome::Malformed(PropagationError::InvalidLength)
        &&& after == before
    } else {
        validated(
            before,
            after,
            stamped.take(stamped.len() - STAMP_SIZE),
            stamped.skip(stamped.len() - STAMP_SIZE),
            now_secs,
            validate,
            r,
        )
    }
}

/// What a fetch request does.
pub open spec fn fetched<S: PropagationStore>(
    before: PropagationNode<S>,
    after: PropagationNode<S>,
    request: Seq<u8>,
    remote: [u8; DESTINATION_LENGTH],
    now_secs: u64,
    r: Result<GetOutcome, GetError>,
) -> bool {
    match crate::propagation::get_request_of(request) {
        Err(e) => r == Err::<GetOutcome, GetError>(GetError::Request(e)) && after
            == before,
        Ok(g) => exists|m: MessageGetRequest|
            m@ == g && #[trigger] answered(
                before,
                after,
                m,
                remote,
                now_secs,
                r,
            ),
    }
}

/// What a jump of the calendar does.
pub open spec fn jumped<S: PropagationStore>(
    before: PropagationNode<S>,
    after: PropagationNode<S>,
    before_jump: u64,
) -> bool {
    &&& after.stored() == before.stored()
    &&& after.conf() == before.conf()
    &&& after.handled() == before.handled()
    &&& after.values_stamps() == before.values_stamps()
    &&& after.floor() == (if before_jump > before.floor() {
        before_jump
    } else {
        before.floor()
    })
    &&& before.wf() ==> after.wf()
}

/// What another cap does.
pub open spec fn recapped<S: PropagationStore>(
    before: PropagationNode<S>,
    after: PropagationNode<S>,
    cap: Option<usize>,
) -> bool {
    &&& after.stored() == before.stored()
    &&& after.conf() == (PropagationNodeConfig {
        serve_cap_bytes: cap,
        ..before.conf()
    })
    &&& after.handled() == before.handled()
    &&& after.values_stamps() == before.values_stamps()
    &&& after.floor() == before.floor()
    &&& before.wf() ==> after.wf()
}

} // verus!
