//! Node-to-node peering: the peer table, the `/offer` exchange and the
//! decisions of a sync round.
//!
//! No I/O happens here and no clock is read: the caller feeds announces,
//! requests and conclusions and sends what it is told to.
//!
//! Each peer holds one cursor into the append order of the store. Everything at
//! or below it was offered and concluded, or is never to be offered; everything
//! above it is offered next.
use vstd::prelude::*;

use crate::bytemap::{rank, same, ByteMap, Rank};
use crate::constants::DESTINATION_LENGTH;
use crate::msgpack;
use crate::propagation::{
    decode_binary_list, decode_fixed_bin, decode_ids, encode_binary_list, encode_ids, lift,
    read_peer_error, PeerError, PropagationError, PropagationNodeAnnounce, TransientId,
};
use crate::propagation_store::StoredMessage;
use crate::storage::StorageError;

verus! {

/// Request path a peer offers batches on.
pub const OFFER_REQUEST_PATH: &'static str = "/offer";

/// Peer-table cap of a host.
pub const MAX_PEERS_DEFAULT: usize = 20;

/// Propagation announces create peers by default.
pub const AUTOPEER_DEFAULT: bool = true;

/// Hop depth inside which an announce creates a peer.
pub const AUTOPEER_MAXDEPTH_DEFAULT: u8 = 4;

/// Highest peering cost of another node that a key is mined for.
pub const REMOTE_PEERING_COST_MAX_DEFAULT: u8 = 26;

/// Concurrent inbound sync resources before `/offer` answers throttled.
pub const MAX_INBOUND_SYNCS_DEFAULT: usize = 3;

/// How long a peer that sent invalid stamps is throttled.
pub const PN_STAMP_THROTTLE_SECS: u64 = 180;

/// A peer unreachable this long is dropped from the table: 14 days.
pub const MAX_UNREACHABLE_SECS: u64 = 1_209_600;

/// Backoff added per attempt to establish a link.
pub const SYNC_BACKOFF_STEP_SECS: u64 = 720;

/// Cadence of the sync scheduler.
pub const SYNC_INTERVAL_SECS: u64 = 24;

/// Upper bound on one encoded `/offer` request body.
pub const OFFER_BYTES_LIMIT: usize = 6144;

/// Bytes a message is charged beside its own in one sync.
pub const OFFER_PER_MESSAGE_OVERHEAD: u64 = 16;

/// Bytes a sync is charged before its first message.
pub const OFFER_BASE_SIZE: u64 = 24;

/// Bytes of an encoded offer in front of its ID list: the array header and the
/// peering key.
pub const OFFER_KEY_BYTES: usize = 35;

/// Bytes of one encoded ID.
pub const OFFER_ID_BYTES: usize = 34;

/// The budget that has room for a single ID.
pub const OFFER_PROBE_BUDGET: usize = 70;

/// Bytes a link request spends around its body: an array header, a timestamp
/// and the hash of the request path.
pub const REQUEST_ENVELOPE_BYTES: usize = 28;

#[derive(Debug, Clone, PartialEq, Eq)]
pub struct PeeringConfig {
    /// Table cap.
    pub max_peers: usize,
    /// Announces create peers.
    pub autopeer: bool,
    pub autopeer_maxdepth: u8,
    /// What this node requires of an inbound `/offer` key.
    pub peering_cost: u8,
    /// Above this peering cost a node is refused.
    pub remote_peering_cost_max: u8,
    pub max_inbound_syncs: usize,
    /// Only static peers may `/offer`.
    pub from_static_only: bool,
    /// Always peered, never culled, never declined by the cap.
    pub static_peers: Vec<[u8; DESTINATION_LENGTH]>,
}

impl Default for PeeringConfig {
    fn default() -> (r: PeeringConfig)
        ensures
            r.max_peers == MAX_PEERS_DEFAULT,
            r.autopeer == AUTOPEER_DEFAULT,
            r.autopeer_maxdepth == AUTOPEER_MAXDEPTH_DEFAULT,
            r.peering_cost == 0,
            r.remote_peering_cost_max == REMOTE_PEERING_COST_MAX_DEFAULT,
            r.max_inbound_syncs == MAX_INBOUND_SYNCS_DEFAULT,
            !r.from_static_only,
            r.static_peers@.len() == 0,
    {
        PeeringConfig {
            max_peers: MAX_PEERS_DEFAULT,
            autopeer: AUTOPEER_DEFAULT,
            autopeer_maxdepth: AUTOPEER_MAXDEPTH_DEFAULT,
            peering_cost: 0,
            remote_peering_cost_max: REMOTE_PEERING_COST_MAX_DEFAULT,
            max_inbound_syncs: MAX_INBOUND_SYNCS_DEFAULT,
            from_static_only: false,
            static_peers: Vec::new(),
        }
    }
}

impl PeeringConfig {
    pub open spec fn names_static(&self, hash: [u8; DESTINATION_LENGTH]) -> bool {
        self.static_peers@.contains(hash)
    }

    /// Whether a destination is configured as a static peer.
    fn is_static(&self, hash: &[u8; DESTINATION_LENGTH]) -> (r: bool)
        ensures
            r == self.names_static(*hash),
    {
        let mut i: usize = 0;
        while i < self.static_peers.len()
            invariant
                i <= self.static_peers@.len(),
                forall|j: int| 0 <= j < i ==> self.static_peers@[j] != *hash,
            decreases self.static_peers@.len() - i,
        {
            if same(&self.static_peers[i], hash) {
                return true;
            }
            i = i + 1;
        }
        false
    }
}

/// Transport phase of the sync with one peer.
#[derive(Debug, Clone, Copy, PartialEq, Eq, Default, Structural)]
pub enum SyncPhase {
    #[default]
    Idle,
    /// A peering key is being mined.
    KeyMining,
    LinkEstablishing,
    RequestSent,
    ResourceTransferring,
}

/// One peer: what it announced, and where the sync with it stands.
#[derive(Debug, Clone, Copy, PartialEq)]
pub struct Peer {
    /// The peer's propagation destination.
    pub destination_hash: [u8; DESTINATION_LENGTH],
    /// The peer's identity, once known.
    pub identity_hash: Option<[u8; DESTINATION_LENGTH]>,
    /// The peer's public keys, kept with it once known.
    pub identity_keys: Option<[u8; 64]>,
    /// Mined peering key and its value.
    pub peering_key: Option<([u8; 32], u16)>,
    pub transfer_limit_kb: u64,
    pub sync_limit_kb: u64,
    pub stamp_cost: u8,
    pub stamp_cost_flexibility: u8,
    pub peering_cost: u8,
    /// Only an announce with a newer timebase updates the record.
    pub peering_timebase: u64,
    pub last_heard: u64,
    pub next_sync_attempt: u64,
    pub sync_backoff_secs: u64,
    /// Everything of the store at or below it was offered and concluded.
    pub cursor: u64,
    pub is_static: bool,
    pub state: SyncPhase,
}

pub open spec fn byte_of(v: u64) -> u8 {
    if v > 255 {
        255
    } else {
        v as u8
    }
}

fn clamp(v: u64) -> (r: u8)
    ensures
        r == byte_of(v),
{
    if v > 255 {
        255
    } else {
        v as u8
    }
}

/// The peer that a first announce makes.
pub open spec fn announced_peer(
    hash: [u8; DESTINATION_LENGTH],
    a: crate::propagation::NodeAnnounce,
    is_static: bool,
    now: u64,
) -> Peer {
    Peer {
        destination_hash: hash,
        identity_hash: None,
        identity_keys: None,
        peering_key: None,
        transfer_limit_kb: a.transfer_limit_kb,
        sync_limit_kb: a.sync_limit_kb,
        stamp_cost: byte_of(a.stamp_cost),
        stamp_cost_flexibility: byte_of(a.stamp_cost_flexibility),
        peering_cost: byte_of(a.peering_cost),
        peering_timebase: a.timebase,
        last_heard: now,
        next_sync_attempt: 0,
        sync_backoff_secs: 0,
        cursor: 0,
        is_static,
        state: SyncPhase::Idle,
    }
}

/// A peer after one more announce: a newer timebase brings new figures and ends
/// the backoff, an old one tells only that the peer is there.
pub open spec fn refreshed_peer(p: Peer, a: crate::propagation::NodeAnnounce, now: u64) -> Peer {
    if a.timebase > p.peering_timebase {
        Peer {
            peering_timebase: a.timebase,
            last_heard: now,
            sync_backoff_secs: 0,
            next_sync_attempt: 0,
            transfer_limit_kb: a.transfer_limit_kb,
            sync_limit_kb: a.sync_limit_kb,
            stamp_cost: byte_of(a.stamp_cost),
            stamp_cost_flexibility: byte_of(a.stamp_cost_flexibility),
            peering_cost: byte_of(a.peering_cost),
            ..p
        }
    } else {
        Peer { last_heard: now, ..p }
    }
}

impl Peer {
    pub fn from_announce(
        destination_hash: [u8; DESTINATION_LENGTH],
        announce: &PropagationNodeAnnounce,
        is_static: bool,
        now: u64,
    ) -> (r: Peer)
        ensures
            r == announced_peer(destination_hash, announce@, is_static, now),
    {
        Peer {
            destination_hash,
            identity_hash: None,
            identity_keys: None,
            peering_key: None,
            transfer_limit_kb: announce.transfer_limit_kb,
            sync_limit_kb: announce.sync_limit_kb,
            stamp_cost: clamp(announce.stamp_cost),
            stamp_cost_flexibility: clamp(announce.stamp_cost_flexibility),
            peering_cost: clamp(announce.peering_cost),
            peering_timebase: announce.timebase,
            last_heard: now,
            next_sync_attempt: 0,
            sync_backoff_secs: 0,
            cursor: 0,
            is_static,
            state: SyncPhase::Idle,
        }
    }

    fn refresh(&mut self, announce: &PropagationNodeAnnounce, now: u64)
        ensures
            *final(self) == refreshed_peer(*old(self), announce@, now),
    {
        if announce.timebase > self.peering_timebase {
            self.peering_timebase = announce.timebase;
            self.sync_backoff_secs = 0;
            self.next_sync_attempt = 0;
            self.transfer_limit_kb = announce.transfer_limit_kb;
            self.sync_limit_kb = announce.sync_limit_kb;
            self.stamp_cost = clamp(announce.stamp_cost);
            self.stamp_cost_flexibility = clamp(announce.stamp_cost_flexibility);
            self.peering_cost = clamp(announce.peering_cost);
        }
        self.last_heard = now;
    }

    pub open spec fn min_cost(self) -> u8 {
        if self.stamp_cost > self.stamp_cost_flexibility {
            (self.stamp_cost - self.stamp_cost_flexibility) as u8
        } else {
            0
        }
    }

    /// The lowest stamp value this peer accepts.
    pub fn min_accepted_cost(&self) -> (r: u8)
        ensures
            r == self.min_cost(),
    {
        if self.stamp_cost > self.stamp_cost_flexibility {
            self.stamp_cost - self.stamp_cost_flexibility
        } else {
            0
        }
    }

    /// Whether the held key is worth the peer's cost. A key that is not is
    /// dropped, so that a new one is mined. At cost zero any key will do.
    pub fn peering_key_ready(&mut self) -> (r: bool)
        ensures
            key_ready(*old(self), *final(self), r),
    {
        match self.peering_key {
            Some((_, value)) => {
                if value >= self.peering_cost as u16 {
                    true
                } else {
                    self.peering_key = None;
                    false
                }
            },
            None => false,
        }
    }

    /// The link to the peer came up: the backoff booked for it is void.
    pub fn note_link_established(&mut self)
        ensures
            *final(self) == (Peer { sync_backoff_secs: 0, next_sync_attempt: 0, ..*old(self) }),
    {
        self.sync_backoff_secs = 0;
        self.next_sync_attempt = 0;
    }

    /// Keeps the identity of the peer with it. Returns whether anything was
    /// learnt.
    pub fn capture_identity(
        &mut self,
        identity_hash: [u8; DESTINATION_LENGTH],
        identity_keys: [u8; 64],
    ) -> (r: bool)
        ensures
            identity_captured(*old(self), *final(self), identity_hash, identity_keys, r),
    {
        let hash_known = match &self.identity_hash {
            Some(h) => same(h, &identity_hash),
            None => false,
        };
        let keys_known = match &self.identity_keys {
            Some(k) => same(k, &identity_keys),
            None => false,
        };
        self.identity_hash = Some(identity_hash);
        self.identity_keys = Some(identity_keys);
        !(hash_known && keys_known)
    }

    /// The public keys of the peer: its own copy first, what a cache holds else.
    pub fn recall_identity(&self, cached: Option<[u8; 64]>) -> (r: Option<[u8; 64]>)
        ensures
            r == (match self.identity_keys {
                Some(k) => Some(k),
                None => cached,
            }),
    {
        match self.identity_keys {
            Some(k) => Some(k),
            None => cached,
        }
    }
}

/// What is kept of a peer when the table is stored.
#[derive(Debug, Clone, Copy, PartialEq)]
pub struct PeerRecord {
    pub destination_hash: [u8; DESTINATION_LENGTH],
    pub identity_hash: Option<[u8; DESTINATION_LENGTH]>,
    pub identity_keys: Option<[u8; 64]>,
    pub peering_key: Option<([u8; 32], u16)>,
    pub transfer_limit_kb: u64,
    pub sync_limit_kb: u64,
    pub stamp_cost: u8,
    pub stamp_cost_flexibility: u8,
    pub peering_cost: u8,
    pub peering_timebase: u64,
    pub last_heard: u64,
    pub cursor: u64,
    pub is_static: bool,
}

pub open spec fn record_of_peer(peer: Peer) -> PeerRecord {
    PeerRecord {
        destination_hash: peer.destination_hash,
        identity_hash: peer.identity_hash,
        identity_keys: peer.identity_keys,
        peering_key: peer.peering_key,
        transfer_limit_kb: peer.transfer_limit_kb,
        sync_limit_kb: peer.sync_limit_kb,
        stamp_cost: peer.stamp_cost,
        stamp_cost_flexibility: peer.stamp_cost_flexibility,
        peering_cost: peer.peering_cost,
        peering_timebase: peer.peering_timebase,
        last_heard: peer.last_heard,
        cursor: peer.cursor,
        is_static: peer.is_static,
    }
}

/// The peer a record stands for: idle and without backoff.
pub open spec fn peer_of_record(r: PeerRecord) -> Peer {
    Peer {
        destination_hash: r.destination_hash,
        identity_hash: r.identity_hash,
        identity_keys: r.identity_keys,
        peering_key: r.peering_key,
        transfer_limit_kb: r.transfer_limit_kb,
        sync_limit_kb: r.sync_limit_kb,
        stamp_cost: r.stamp_cost,
        stamp_cost_flexibility: r.stamp_cost_flexibility,
        peering_cost: r.peering_cost,
        peering_timebase: r.peering_timebase,
        last_heard: r.last_heard,
        next_sync_attempt: 0,
        sync_backoff_secs: 0,
        cursor: r.cursor,
        is_static: r.is_static,
        state: SyncPhase::Idle,
    }
}

/// Storing a peer and taking it back loses its transport state and nothing
/// else.
pub proof fn law_record_round_trip(peer: Peer)
    ensures
        peer_of_record(record_of_peer(peer)) == (Peer {
            next_sync_attempt: 0,
            sync_backoff_secs: 0,
            state: SyncPhase::Idle,
            ..peer
        }),
        record_of_peer(peer_of_record(record_of_peer(peer))) == record_of_peer(peer),
{
}

impl PeerRecord {
    pub fn of(peer: &Peer) -> (r: PeerRecord)
        ensures
            r == record_of_peer(*peer),
    {
        PeerRecord {
            destination_hash: peer.destination_hash,
            identity_hash: peer.identity_hash,
            identity_keys: peer.identity_keys,
            peering_key: peer.peering_key,
            transfer_limit_kb: peer.transfer_limit_kb,
            sync_limit_kb: peer.sync_limit_kb,
            stamp_cost: peer.stamp_cost,
            stamp_cost_flexibility: peer.stamp_cost_flexibility,
            peering_cost: peer.peering_cost,
            peering_timebase: peer.peering_timebase,
            last_heard: peer.last_heard,
            cursor: peer.cursor,
            is_static: peer.is_static,
        }
    }

    pub fn into_peer(self) -> (r: Peer)
        ensures
            r == peer_of_record(self),
    {
        Peer {
            destination_hash: self.destination_hash,
            identity_hash: self.identity_hash,
            identity_keys: self.identity_keys,
            peering_key: self.peering_key,
            transfer_limit_kb: self.transfer_limit_kb,
            sync_limit_kb: self.sync_limit_kb,
            stamp_cost: self.stamp_cost,
            stamp_cost_flexibility: self.stamp_cost_flexibility,
            peering_cost: self.peering_cost,
            peering_timebase: self.peering_timebase,
            last_heard: self.last_heard,
            next_sync_attempt: 0,
            sync_backoff_secs: 0,
            cursor: self.cursor,
            is_static: self.is_static,
            state: SyncPhase::Idle,
        }
    }
}

/// A list holds every record of a map once.
pub open spec fn lists_records(
    v: Seq<PeerRecord>,
    m: Map<[u8; DESTINATION_LENGTH], PeerRecord>,
) -> bool {
    &&& forall|i: int|
        0 <= i < v.len() ==> m.contains_key((#[trigger] v[i]).destination_hash)
            && m[v[i].destination_hash] == v[i]
    &&& forall|i: int, j: int|
        0 <= i < j < v.len() ==> (#[trigger] v[i]).destination_hash != (
        #[trigger] v[j]).destination_hash
    &&& forall|k: [u8; DESTINATION_LENGTH]| #[trigger]
        m.contains_key(k) ==> exists|i: int|
            0 <= i < v.len() && (#[trigger] v[i]).destination_hash == k
}

/// Where the peer table is kept between runs.
pub trait PeerStore: Sized {
    spec fn wf(&self) -> bool;

    spec fn held(&self) -> Map<[u8; DESTINATION_LENGTH], PeerRecord>;

    /// Stores one record in place of the one for the same destination.
    fn save(&mut self, record: &PeerRecord) -> (r: Result<(), StorageError>)
        requires
            old(self).wf(),
        ensures
            final(self).wf(),
            r is Ok ==> final(self).held() == old(self).held().insert(
                record.destination_hash,
                *record,
            ),
    ;

    /// Removes one record; an absent one is no error.
    fn remove(&mut self, destination_hash: &[u8; DESTINATION_LENGTH]) -> (r: Result<
        (),
        StorageError,
    >)
        requires
            old(self).wf(),
        ensures
            final(self).wf(),
            r is Ok ==> final(self).held() == old(self).held().remove(*destination_hash),
    ;

    fn load_all(&self) -> (r: Result<Vec<PeerRecord>, StorageError>)
        requires
            self.wf(),
        ensures
            r matches Ok(v) ==> lists_records(v@, self.held()),
    ;
}

/// In-memory [`PeerStore`].
#[derive(Debug, Clone)]
pub struct MemoryPeerStore {
    records: ByteMap<16, PeerRecord>,
}

impl Default for MemoryPeerStore {
    fn default() -> (r: MemoryPeerStore)
        ensures
            r.wf(),
            r.held() == Map::<[u8; DESTINATION_LENGTH], PeerRecord>::empty(),
    {
        MemoryPeerStore { records: ByteMap::new() }
    }
}

impl PeerStore for MemoryPeerStore {
    closed spec fn wf(&self) -> bool {
        &&& self.records.wf()
        &&& forall|k: [u8; DESTINATION_LENGTH]| #[trigger]
            self.records@.contains_key(k) ==> self.records@[k].destination_hash == k
    }

    closed spec fn held(&self) -> Map<[u8; DESTINATION_LENGTH], PeerRecord> {
        self.records@
    }

    fn save(&mut self, record: &PeerRecord) -> (r: Result<(), StorageError>)
        ensures
            r is Ok,
    {
        let _ = self.records.insert(record.destination_hash, *record);
        Ok(())
    }

    fn remove(&mut self, destination_hash: &[u8; DESTINATION_LENGTH]) -> (r: Result<
        (),
        StorageError,
    >)
        ensures
            r is Ok,
    {
        let _ = self.records.remove(destination_hash);
        Ok(())
    }

    /// The records by ascending destination hash.
    fn load_all(&self) -> (r: Result<Vec<PeerRecord>, StorageError>)
        ensures
            r is Ok,
            forall|i: int, j: int|
                0 <= i < j < r->Ok_0@.len() ==> crate::bytemap::below(
                    (#[trigger] r->Ok_0@[i]).destination_hash@,
                    (#[trigger] r->Ok_0@[j]).destination_hash@,
                ),
    {
        let mut out: Vec<PeerRecord> = Vec::new();
        let ghost s = self.records.entries@;
        let mut i: usize = 0;
        while i < self.records.entries.len()
            invariant
                i <= s.len(),
                s == self.records.entries@,
                out@.len() == i,
                forall|j: int| 0 <= j < i ==> (#[trigger] out@[j]) == s[j].1,
            decreases s.len() - i,
        {
            out.push(self.records.entries[i].1);
            i = i + 1;
        }
        proof {
            assert forall|j: int| 0 <= j < out@.len() implies self.held().contains_key(
                (#[trigger] out@[j]).destination_hash,
            ) && self.held()[out@[j].destination_hash] == out@[j] && out@[j].destination_hash
                == s[j].0 by {
                crate::bytemap::lemma_entry(s, j);
            }
            assert forall|a: int, b: int| 0 <= a < b < out@.len() implies (
            #[trigger] out@[a]).destination_hash != (#[trigger] out@[b]).destination_hash by {
                if s[a].0 == s[b].0 {
                    crate::bytemap::lemma_unique(s, a, b);
                }
            }
            assert forall|k: [u8; DESTINATION_LENGTH]| #[trigger]
                self.held().contains_key(k) implies exists|j: int|
                0 <= j < out@.len() && (#[trigger] out@[j]).destination_hash == k by {
                let j = crate::bytemap::key_index(s, k);
                assert(out@[j].destination_hash == k);
            }
        }
        Ok(out)
    }
}

/// What one announce or sync did to the table.
#[derive(Debug, Clone, Copy, PartialEq, Eq, Structural)]
pub enum PeerChange {
    Added,
    Updated,
    Dropped(DropReason),
    Declined(DeclineReason),
}

#[derive(Debug, Clone, Copy, PartialEq, Eq, Structural)]
pub enum DropReason {
    /// The peer left the role.
    Disabled,
    /// The peer moved out of depth.
    OutOfDepth,
    /// The peer raised its cost beyond the maximum.
    CostRaised,
    /// The peer was not heard for too long.
    Unreachable,
    /// The peer refused access.
    NoAccess,
}

#[derive(Debug, Clone, Copy, PartialEq, Eq, Structural)]
pub enum DeclineReason {
    /// A full table declines new candidates: first heard wins.
    TableFull,
    CostTooHigh,
    /// Announces do not create peers, and this is not a static one.
    AutopeerOff,
    TooDeep,
    /// The announcer is not, or no longer, a propagation node.
    Disabled,
    /// The announce answers a path request: it tells only that somebody asked.
    PathResponse,
    /// The sender of a sync is a peer already.
    AlreadyPeered,
    /// The sender of a sync is not known as a propagation node.
    NotANode,
}

/// The peers by destination.
pub type PeerMap = Map<[u8; DESTINATION_LENGTH], Peer>;

/// The table takes a candidate in, unless it is full. Static peers always fit.
pub open spec fn admitted(
    config: PeeringConfig,
    peers: PeerMap,
    hash: [u8; DESTINATION_LENGTH],
    a: crate::propagation::NodeAnnounce,
    now: u64,
) -> (PeerChange, PeerMap) {
    if !config.names_static(hash) && peers.dom().len() >= config.max_peers {
        (PeerChange::Declined(DeclineReason::TableFull), peers)
    } else {
        (
            PeerChange::Added,
            peers.insert(hash, announced_peer(hash, a, config.names_static(hash), now)),
        )
    }
}

/// A peering ends, where the word is not older than the peering itself.
pub open spec fn unpeered(
    peers: PeerMap,
    hash: [u8; DESTINATION_LENGTH],
    timestamp: u64,
) -> Option<PeerMap> {
    if peers.contains_key(hash) && timestamp >= peers[hash].peering_timebase {
        Some(peers.remove(hash))
    } else {
        None
    }
}

/// Ends a peering for a reason, or declines for another.
pub open spec fn broken(
    peers: PeerMap,
    hash: [u8; DESTINATION_LENGTH],
    timestamp: u64,
    drop: DropReason,
    decline: DeclineReason,
) -> (PeerChange, PeerMap) {
    match unpeered(peers, hash, timestamp) {
        Some(left) => (PeerChange::Dropped(drop), left),
        None => (PeerChange::Declined(decline), peers),
    }
}

pub open spec fn too_deep(config: PeeringConfig, hops: Option<u8>) -> bool {
    match hops {
        Some(h) => h > config.autopeer_maxdepth,
        None => 255 > config.autopeer_maxdepth,
    }
}

/// A path response acts only for a static peer that was never heard.
pub open spec fn path_response_counts(
    config: PeeringConfig,
    peers: PeerMap,
    hash: [u8; DESTINATION_LENGTH],
) -> bool {
    config.names_static(hash) && (peers.contains_key(hash) ==> peers[hash].last_heard == 0)
}

/// What an announce does to the table.
pub open spec fn announce_taken(
    config: PeeringConfig,
    peers: PeerMap,
    hash: [u8; DESTINATION_LENGTH],
    a: crate::propagation::NodeAnnounce,
    hops: Option<u8>,
    now: u64,
    is_path_response: bool,
) -> (PeerChange, PeerMap) {
    let known = peers.contains_key(hash);
    let is_static = config.names_static(hash);
    if is_path_response && !path_response_counts(config, peers, hash) {
        (PeerChange::Declined(DeclineReason::PathResponse), peers)
    } else if a.peering_cost > config.remote_peering_cost_max {
        if known {
            (PeerChange::Dropped(DropReason::CostRaised), peers.remove(hash))
        } else {
            (PeerChange::Declined(DeclineReason::CostTooHigh), peers)
        }
    } else if !is_static && !a.enabled {
        broken(peers, hash, a.timebase, DropReason::Disabled, DeclineReason::Disabled)
    } else if !is_static && !config.autopeer {
        (PeerChange::Declined(DeclineReason::AutopeerOff), peers)
    } else if !is_static && too_deep(config, hops) {
        broken(peers, hash, a.timebase, DropReason::OutOfDepth, DeclineReason::TooDeep)
    } else if known {
        (PeerChange::Updated, peers.insert(hash, refreshed_peer(peers[hash], a, now)))
    } else {
        admitted(config, peers, hash, a, now)
    }
}

/// What an inbound sync does to the table, given the last announce of its
/// sender. It never ends a peering: the announce is an old one.
pub open spec fn sync_taken(
    config: PeeringConfig,
    peers: PeerMap,
    hash: [u8; DESTINATION_LENGTH],
    a: crate::propagation::NodeAnnounce,
    hops: Option<u8>,
    now: u64,
) -> (PeerChange, PeerMap) {
    let is_static = config.names_static(hash);
    if peers.contains_key(hash) {
        (PeerChange::Declined(DeclineReason::AlreadyPeered), peers)
    } else if a.peering_cost > config.remote_peering_cost_max {
        (PeerChange::Declined(DeclineReason::CostTooHigh), peers)
    } else if !is_static && !a.enabled {
        (PeerChange::Declined(DeclineReason::Disabled), peers)
    } else if !is_static && !config.autopeer {
        (PeerChange::Declined(DeclineReason::AutopeerOff), peers)
    } else if !is_static && too_deep(config, hops) {
        (PeerChange::Declined(DeclineReason::TooDeep), peers)
    } else {
        admitted(config, peers, hash, a, now)
    }
}

/// A full table stays as it is when somebody new announces or syncs, unless it
/// is a static peer.
pub proof fn law_first_heard_wins(
    config: PeeringConfig,
    peers: PeerMap,
    hash: [u8; DESTINATION_LENGTH],
    a: crate::propagation::NodeAnnounce,
    hops: Option<u8>,
    now: u64,
    is_path_response: bool,
)
    requires
        peers.dom().len() >= config.max_peers,
        !peers.contains_key(hash),
        !config.names_static(hash),
    ensures
        announce_taken(config, peers, hash, a, hops, now, is_path_response).1 == peers,
        announce_taken(config, peers, hash, a, hops, now, is_path_response).0 is Declined,
        sync_taken(config, peers, hash, a, hops, now).1 == peers,
        sync_taken(config, peers, hash, a, hops, now).0 is Declined,
{
}

/// A path response neither makes nor breaks a peering, but for a static peer
/// that was never heard.
pub proof fn law_path_response_is_idle(
    config: PeeringConfig,
    peers: PeerMap,
    hash: [u8; DESTINATION_LENGTH],
    a: crate::propagation::NodeAnnounce,
    hops: Option<u8>,
    now: u64,
)
    requires
        !path_response_counts(config, peers, hash),
    ensures
        announce_taken(config, peers, hash, a, hops, now, true) == (
            PeerChange::Declined(DeclineReason::PathResponse),
            peers,
        ),
{
}

/// A peer found by its sync is the peer found by its announce.
pub proof fn law_both_doors_make_one_peer(
    config: PeeringConfig,
    peers: PeerMap,
    hash: [u8; DESTINATION_LENGTH],
    a: crate::propagation::NodeAnnounce,
    hops: Option<u8>,
    now: u64,
)
    requires
        !peers.contains_key(hash),
    ensures
        announce_taken(config, peers, hash, a, hops, now, false) == sync_taken(
            config,
            peers,
            hash,
            a,
            hops,
            now,
        ),
{
}

/// A sync never costs a peering.
pub proof fn law_sync_keeps_peers(
    config: PeeringConfig,
    peers: PeerMap,
    hash: [u8; DESTINATION_LENGTH],
    a: crate::propagation::NodeAnnounce,
    hops: Option<u8>,
    now: u64,
    other: [u8; DESTINATION_LENGTH],
)
    requires
        peers.contains_key(other),
    ensures
        sync_taken(config, peers, hash, a, hops, now).1.contains_key(other),
        sync_taken(config, peers, hash, a, hops, now).1[other] == peers[other],
{
}

/// A peer takes part in the next sync pass.
pub open spec fn is_due(p: Peer, now: u64, newest_sequence: u64) -> bool {
    &&& p.state == SyncPhase::Idle
    &&& now >= p.next_sync_attempt
    &&& p.cursor < newest_sequence
}

/// A peer was not heard for too long, and is not exempt.
pub open spec fn is_lost(p: Peer, now: u64) -> bool {
    !p.is_static && now > p.last_heard + MAX_UNREACHABLE_SECS
}

/// The lost peers of a table, in its order.
pub open spec fn lost(s: Seq<([u8; DESTINATION_LENGTH], Peer)>, now: u64) -> Seq<
    [u8; DESTINATION_LENGTH],
>
    decreases s.len(),
{
    if s.len() == 0 {
        seq![]
    } else if is_lost(s.last().1, now) {
        lost(s.drop_last(), now).push(s.last().0)
    } else {
        lost(s.drop_last(), now)
    }
}

/// The highest cost that any peer of a table sets.
pub open spec fn highest_cost(s: Seq<([u8; DESTINATION_LENGTH], Peer)>) -> u8
    decreases s.len(),
{
    if s.len() == 0 {
        0
    } else if highest_cost(s.drop_last()) >= s.last().1.min_cost() {
        highest_cost(s.drop_last())
    } else {
        s.last().1.min_cost()
    }
}

/// The peers after some records were taken back.
pub open spec fn restored(config: PeeringConfig, peers: PeerMap, records: Seq<PeerRecord>) -> PeerMap
    decreases records.len(),
{
    if records.len() == 0 {
        peers
    } else {
        let p = peer_of_record(records.last());
        restored(config, peers, records.drop_last()).insert(
            p.destination_hash,
            Peer { is_static: config.names_static(p.destination_hash) || p.is_static, ..p },
        )
    }
}

/// `start` is the place behind a pivot: the first key above it, or the front
/// where there is none.
pub open spec fn starts_after(
    s: Seq<([u8; DESTINATION_LENGTH], Peer)>,
    last: Option<[u8; DESTINATION_LENGTH]>,
    start: int,
) -> bool {
    match last {
        None => start == 0,
        Some(pivot) => {
            ||| {
                &&& 0 <= start < s.len()
                &&& crate::bytemap::below(pivot@, s[start].0@)
                &&& forall|i: int|
                    0 <= i < start ==> !crate::bytemap::below(pivot@, (#[trigger] s[i]).0@)
            }
            ||| {
                &&& start == 0
                &&& forall|i: int|
                    0 <= i < s.len() ==> !crate::bytemap::below(pivot@, (#[trigger] s[i]).0@)
            }
        },
    }
}

/// The place `j` steps behind `start`, going round.
pub open spec fn place(start: int, j: int, n: int) -> int {
    if start + j < n {
        start + j
    } else {
        start + j - n
    }
}

/// The first due peer, going round from behind `last`.
pub open spec fn first_due(
    s: Seq<([u8; DESTINATION_LENGTH], Peer)>,
    last: Option<[u8; DESTINATION_LENGTH]>,
    now: u64,
    newest_sequence: u64,
    r: Option<[u8; DESTINATION_LENGTH]>,
) -> bool {
    match r {
        None => forall|i: int|
            0 <= i < s.len() ==> !is_due((#[trigger] s[i]).1, now, newest_sequence),
        Some(h) => exists|start: int, j: int| #[trigger]
            due_at(s, last, now, newest_sequence, start, j) && s[place(
                start,
                j,
                s.len() as int,
            )].0 == h,
    }
}

/// The peer `j` steps behind the start is due, and none before it is.
pub open spec fn due_at(
    s: Seq<([u8; DESTINATION_LENGTH], Peer)>,
    last: Option<[u8; DESTINATION_LENGTH]>,
    now: u64,
    newest_sequence: u64,
    start: int,
    j: int,
) -> bool {
    &&& starts_after(s, last, start)
    &&& 0 <= j < s.len()
    &&& is_due(s[place(start, j, s.len() as int)].1, now, newest_sequence)
    &&& forall|k: int|
        0 <= k < j ==> !is_due(
            s[#[trigger] place(start, k, s.len() as int)].1,
            now,
            newest_sequence,
        )
}

/// The peer table: cap, static list, announces, culling.
#[derive(Debug)]
pub struct PeerTable {
    config: PeeringConfig,
    peers: ByteMap<16, Peer>,
}

impl PeerTable {
    pub closed spec fn conf(&self) -> PeeringConfig {
        self.config
    }

    /// The peers by destination.
    pub closed spec fn peers(&self) -> PeerMap {
        self.peers@
    }

    /// The peers in the order of their destinations.
    pub closed spec fn walk(&self) -> Seq<([u8; DESTINATION_LENGTH], Peer)> {
        self.peers.entries@
    }

    pub closed spec fn wf(&self) -> bool {
        &&& self.peers.wf()
        &&& forall|k: [u8; DESTINATION_LENGTH]| #[trigger]
            self.peers@.contains_key(k) ==> self.peers@[k].destination_hash == k
    }

    /// The order and the map tell the same.
    pub proof fn lemma_walk(&self)
        requires
            self.wf(),
        ensures
            crate::bytemap::ascending(self.walk()),
            self.peers() == crate::bytemap::map_of(self.walk()),
            self.peers().dom().len() == self.walk().len(),
            forall|i: int|
                0 <= i < self.walk().len() ==> (#[trigger] self.walk()[i]).1.destination_hash
                    == self.walk()[i].0,
    {
        crate::bytemap::lemma_len(self.peers.entries@);
        assert forall|i: int| 0 <= i < self.walk().len() implies (
        #[trigger] self.walk()[i]).1.destination_hash == self.walk()[i].0 by {
            crate::bytemap::lemma_entry(self.peers.entries@, i);
        }
    }

    pub fn new(config: PeeringConfig) -> (r: PeerTable)
        ensures
            r.wf(),
            r.conf() == config,
            r.peers() == Map::<[u8; DESTINATION_LENGTH], Peer>::empty(),
    {
        PeerTable { config, peers: ByteMap::new() }
    }

    pub fn config(&self) -> (r: &PeeringConfig)
        ensures
            *r == self.conf(),
    {
        &self.config
    }

    pub fn len(&self) -> (r: usize)
        requires
            self.wf(),
        ensures
            r == self.peers().dom().len(),
    {
        proof {
            self.lemma_walk();
        }
        self.peers.len()
    }

    pub fn is_empty(&self) -> (r: bool)
        requires
            self.wf(),
        ensures
            r == (self.peers().dom().len() == 0),
    {
        proof {
            self.lemma_walk();
        }
        self.peers.is_empty()
    }

    pub fn get(&self, destination_hash: &[u8; DESTINATION_LENGTH]) -> (r: Option<&Peer>)
        requires
            self.wf(),
        ensures
            match r {
                Some(p) => self.peers().contains_key(*destination_hash) && *p
                    == self.peers()[*destination_hash],
                None => !self.peers().contains_key(*destination_hash),
            },
    {
        self.peers.get(destination_hash)
    }

    /// One peer, to be changed in place. Its destination must stay.
    pub fn get_mut(&mut self, destination_hash: &[u8; DESTINATION_LENGTH]) -> (r: Option<&mut Peer>)
        requires
            old(self).wf(),
        ensures
            match r {
                Some(p) => {
                    &&& old(self).peers().contains_key(*destination_hash)
                    &&& *p == old(self).peers()[*destination_hash]
                    &&& final(self).conf() == old(self).conf()
                    &&& final(self).peers() == old(self).peers().insert(
                        *destination_hash,
                        *final(p),
                    )
                    &&& final(p).destination_hash == *destination_hash ==> final(self).wf()
                },
                None => !old(self).peers().contains_key(*destination_hash) && *final(self)
                    == *old(self),
            },
    {
        self.peers.get_mut(destination_hash)
    }

    /// The peers in the order of their destinations.
    pub fn iter(&self) -> (r: &Vec<([u8; DESTINATION_LENGTH], Peer)>)
        ensures
            r@ == self.walk(),
    {
        &self.peers.entries
    }

    /// The peers in the order of their destinations, to be changed. The table
    /// stays in order as long as every peer keeps its place and its
    /// destination.
    pub fn iter_mut(&mut self) -> (r: &mut Vec<([u8; DESTINATION_LENGTH], Peer)>)
        requires
            old(self).wf(),
        ensures
            r@ == old(self).walk(),
            final(self).conf() == old(self).conf(),
            final(self).walk() == final(r)@,
            same_places(old(self).walk(), final(r)@) ==> {
                &&& final(self).wf()
                &&& final(self).peers() == crate::bytemap::map_of(final(r)@)
                &&& final(self).peers().dom() == old(self).peers().dom()
            },
    {
        proof {
            let before = self.peers.entries@;
            assert forall|t: Seq<([u8; DESTINATION_LENGTH], Peer)>| #[trigger]
                same_places(before, t) implies crate::bytemap::ascending(t)
                && crate::bytemap::map_of(t).dom() == crate::bytemap::map_of(before).dom() && (
            forall|k: [u8; DESTINATION_LENGTH]| #[trigger]
                crate::bytemap::map_of(t).contains_key(k) ==> crate::bytemap::map_of(
                    t,
                )[k].destination_hash == k) by {
                lemma_same_places(before, t);
            }
        }
        &mut self.peers.entries
    }

    /// Takes stored peers back.
    pub fn restore(&mut self, records: Vec<PeerRecord>)
        requires
            old(self).wf(),
        ensures
            final(self).wf(),
            final(self).conf() == old(self).conf(),
            final(self).peers() == restored(old(self).conf(), old(self).peers(), records@),
    {
        let ghost start = *self;
        let mut i: usize = 0;
        assert(records@.take(0) =~= Seq::empty());
        while i < records.len()
            invariant
                i <= records@.len(),
                self.wf(),
                self.conf() == start.conf(),
                self.peers() == restored(start.conf(), start.peers(), records@.take(i as int)),
            decreases records@.len() - i,
        {
            assert(records@.take(i + 1).drop_last() =~= records@.take(i as int));
            let mut peer = records[i].into_peer();
            peer.is_static = self.config.is_static(&peer.destination_hash) || peer.is_static;
            let _ = self.peers.insert(peer.destination_hash, peer);
            i = i + 1;
        }
        assert(records@.take(i as int) =~= records@);
    }

    /// The highest stamp value that any peer asks of a message.
    pub fn max_peer_min_cost(&self) -> (r: u8)
        ensures
            r == highest_cost(self.walk()),
    {
        let mut best: u8 = 0;
        let mut i: usize = 0;
        let ghost s = self.peers.entries@;
        while i < self.peers.entries.len()
            invariant
                i <= s.len(),
                s == self.peers.entries@,
                best == highest_cost(s.take(i as int)),
            decreases s.len() - i,
        {
            assert(s.take(i + 1).drop_last() =~= s.take(i as int));
            let cost: u8 = self.peers.entries[i].1.min_accepted_cost();
            if best < cost {
                best = cost;
            }
            i = i + 1;
        }
        assert(s.take(i as int) =~= s);
        best
    }

    /// Takes a candidate in, unless the table is full.
    fn take_in(
        &mut self,
        destination_hash: [u8; DESTINATION_LENGTH],
        announce: &PropagationNodeAnnounce,
        is_static: bool,
        now: u64,
    ) -> (r: PeerChange)
        requires
            old(self).wf(),
            is_static == old(self).conf().names_static(destination_hash),
        ensures
            final(self).wf(),
            final(self).conf() == old(self).conf(),
            (r, final(self).peers()) == admitted(
                old(self).conf(),
                old(self).peers(),
                destination_hash,
                announce@,
                now,
            ),
    {
        if !is_static && self.len() >= self.config.max_peers {
            return PeerChange::Declined(DeclineReason::TableFull);
        }
        let peer = Peer::from_announce(destination_hash, announce, is_static, now);
        let _ = self.peers.insert(destination_hash, peer);
        PeerChange::Added
    }

    /// Takes one propagation announce. `hops` is the distance of the announcer,
    /// where a path is known; `is_path_response` tells that the announce
    /// answers a path request.
    pub fn handle_announce(
        &mut self,
        destination_hash: [u8; DESTINATION_LENGTH],
        announce: &PropagationNodeAnnounce,
        hops: Option<u8>,
        now: u64,
        is_path_response: bool,
    ) -> (r: PeerChange)
        requires
            old(self).wf(),
        ensures
            final(self).wf(),
            final(self).conf() == old(self).conf(),
            (r, final(self).peers()) == announce_taken(
                old(self).conf(),
                old(self).peers(),
                destination_hash,
                announce@,
                hops,
                now,
                is_path_response,
            ),
    {
        let is_static = self.config.is_static(&destination_hash);
        let last_heard: Option<u64> = match self.peers.get(&destination_hash) {
            Some(peer) => Some(peer.last_heard),
            None => None,
        };
        let known = last_heard.is_some();
        if is_path_response {
            let unheard = match last_heard {
                Some(at) => at == 0,
                None => true,
            };
            if !(is_static && unheard) {
                return PeerChange::Declined(DeclineReason::PathResponse);
            }
        }
        if announce.peering_cost > self.config.remote_peering_cost_max as u64 {
            return if known {
                let _ = self.peers.remove(&destination_hash);
                PeerChange::Dropped(DropReason::CostRaised)
            } else {
                PeerChange::Declined(DeclineReason::CostTooHigh)
            };
        }
        if !is_static {
            if !announce.enabled {
                return match self.unpeer(&destination_hash, announce.timebase) {
                    Some(_) => PeerChange::Dropped(DropReason::Disabled),
                    None => PeerChange::Declined(DeclineReason::Disabled),
                };
            }
            if !self.config.autopeer {
                return PeerChange::Declined(DeclineReason::AutopeerOff);
            }
            if self.is_too_deep(hops) {
                return match self.unpeer(&destination_hash, announce.timebase) {
                    Some(_) => PeerChange::Dropped(DropReason::OutOfDepth),
                    None => PeerChange::Declined(DeclineReason::TooDeep),
                };
            }
        }
        if known {
            if let Some(peer) = self.peers.get_mut(&destination_hash) {
                peer.refresh(announce, now);
            }
            return PeerChange::Updated;
        }
        self.take_in(destination_hash, announce, is_static, now)
    }

    fn is_too_deep(&self, hops: Option<u8>) -> (r: bool)
        ensures
            r == too_deep(self.conf(), hops),
    {
        match hops {
            Some(h) => h > self.config.autopeer_maxdepth,
            None => 255 > self.config.autopeer_maxdepth,
        }
    }

    /// A sync came in from a node whose last announce is at hand: it becomes a
    /// peer where it may.
    pub fn handle_inbound_sync(
        &mut self,
        destination_hash: [u8; DESTINATION_LENGTH],
        announce: &PropagationNodeAnnounce,
        hops: Option<u8>,
        now: u64,
    ) -> (r: PeerChange)
        requires
            old(self).wf(),
        ensures
            final(self).wf(),
            final(self).conf() == old(self).conf(),
            (r, final(self).peers()) == sync_taken(
                old(self).conf(),
                old(self).peers(),
                destination_hash,
                announce@,
                hops,
                now,
            ),
    {
        if self.peers.contains(&destination_hash) {
            return PeerChange::Declined(DeclineReason::AlreadyPeered);
        }
        if announce.peering_cost > self.config.remote_peering_cost_max as u64 {
            return PeerChange::Declined(DeclineReason::CostTooHigh);
        }
        let is_static = self.config.is_static(&destination_hash);
        if !is_static {
            if !announce.enabled {
                return PeerChange::Declined(DeclineReason::Disabled);
            }
            if !self.config.autopeer {
                return PeerChange::Declined(DeclineReason::AutopeerOff);
            }
            if self.is_too_deep(hops) {
                return PeerChange::Declined(DeclineReason::TooDeep);
            }
        }
        self.take_in(destination_hash, announce, is_static, now)
    }

    /// A sync came in from a sender of whom at most the bytes of an announce
    /// are remembered. One without a propagation announce is no node.
    pub fn handle_inbound_sync_recalled(
        &mut self,
        destination_hash: [u8; DESTINATION_LENGTH],
        recalled: Option<&[u8]>,
        hops: Option<u8>,
        now: u64,
    ) -> (r: PeerChange)
        requires
            old(self).wf(),
        ensures
            final(self).wf(),
            final(self).conf() == old(self).conf(),
            match recalled {
                None => r == PeerChange::Declined(DeclineReason::NotANode) && *final(self)
                    == *old(self),
                Some(bytes) => match crate::propagation::announce_of(bytes@) {
                    Err(_) => r == PeerChange::Declined(DeclineReason::NotANode) && *final(self)
                        == *old(self),
                    Ok(a) => (r, final(self).peers()) == sync_taken(
                        old(self).conf(),
                        old(self).peers(),
                        destination_hash,
                        a,
                        hops,
                        now,
                    ),
                },
            },
    {
        match recalled {
            None => PeerChange::Declined(DeclineReason::NotANode),
            Some(bytes) => match PropagationNodeAnnounce::decode(bytes) {
                Ok(announce) => self.handle_inbound_sync(destination_hash, &announce, hops, now),
                Err(_) => PeerChange::Declined(DeclineReason::NotANode),
            },
        }
    }

    /// Ends a peering, unless the word is older than the peering itself.
    pub fn unpeer(&mut self, destination_hash: &[u8; DESTINATION_LENGTH], timestamp: u64) -> (r:
        Option<()>)
        requires
            old(self).wf(),
        ensures
            final(self).wf(),
            final(self).conf() == old(self).conf(),
            match unpeered(old(self).peers(), *destination_hash, timestamp) {
                Some(left) => r is Some && final(self).peers() == left,
                None => r is None && *final(self) == *old(self),
            },
    {
        let timebase: u64 = match self.peers.get(destination_hash) {
            Some(peer) => peer.peering_timebase,
            None => {
                return None;
            },
        };
        if timestamp >= timebase {
            let _ = self.peers.remove(destination_hash);
            Some(())
        } else {
            None
        }
    }

    /// Ends a peering whatever the time.
    pub fn remove(&mut self, destination_hash: &[u8; DESTINATION_LENGTH]) -> (r: bool)
        requires
            old(self).wf(),
        ensures
            final(self).wf(),
            final(self).conf() == old(self).conf(),
            r == old(self).peers().contains_key(*destination_hash),
            final(self).peers() == old(self).peers().remove(*destination_hash),
    {
        self.peers.remove(destination_hash).is_some()
    }

    /// Drops the peers that were not heard for too long, and returns them.
    pub fn cull(&mut self, now: u64) -> (r: Vec<[u8; DESTINATION_LENGTH]>)
        requires
            old(self).wf(),
        ensures
            final(self).wf(),
            final(self).conf() == old(self).conf(),
            r@ == lost(old(self).walk(), now),
            final(self).peers() == crate::bytemap::restricted(
                old(self).peers(),
                |k: [u8; DESTINATION_LENGTH], p: Peer| !is_lost(p, now),
            ),
    {
        let ghost s = self.peers.entries@;
        let mut dropped: Vec<[u8; DESTINATION_LENGTH]> = Vec::new();
        let mut i: usize = 0;
        while i < self.peers.entries.len()
            invariant
                i <= s.len(),
                s == self.peers.entries@,
                dropped@ == lost(s.take(i as int), now),
            decreases s.len() - i,
        {
            assert(s.take(i + 1).drop_last() =~= s.take(i as int));
            if gone(&self.peers.entries[i].1, now) {
                dropped.push(self.peers.entries[i].0);
            }
            i = i + 1;
        }
        assert(s.take(i as int) =~= s);
        let ghost kept = |k: [u8; DESTINATION_LENGTH], p: Peer| !is_lost(p, now);
        let keep = |k: &[u8; 16], p: &Peer| -> (b: bool)
            ensures
                b == kept(*k, *p),
            { !gone(p, now) };
        self.peers.retain(keep, Ghost(kept));
        dropped
    }

    /// The next peer due for an outbound sync: the first in destination order,
    /// going round from behind `last`.
    pub fn next_due(
        &self,
        now: u64,
        newest_sequence: u64,
        last: Option<[u8; DESTINATION_LENGTH]>,
    ) -> (r: Option<[u8; DESTINATION_LENGTH]>)
        requires
            self.wf(),
        ensures
            first_due(self.walk(), last, now, newest_sequence, r),
    {
        let ghost s = self.peers.entries@;
        let n: usize = self.peers.entries.len();
        let start: usize = match last {
            Some(pivot) => self.behind(&pivot),
            None => 0,
        };
        let mut j: usize = 0;
        while j < n
            invariant
                j <= n == s.len(),
                s == self.peers.entries@,
                n > 0 ==> start < n,
                starts_after(s, last, start as int),
                forall|k: int|
                    0 <= k < j ==> !is_due(
                        s[#[trigger] place(start as int, k, n as int)].1,
                        now,
                        newest_sequence,
                    ),
            decreases n - j,
        {
            let at: usize = if j < n - start {
                start + j
            } else {
                j - (n - start)
            };
            assert(at == place(start as int, j as int, n as int));
            let peer = &self.peers.entries[at].1;
            if peer.state == SyncPhase::Idle && now >= peer.next_sync_attempt && peer.cursor
                < newest_sequence {
                assert(due_at(s, last, now, newest_sequence, start as int, j as int));
                return Some(self.peers.entries[at].0);
            }
            j = j + 1;
        }
        assert forall|i: int| 0 <= i < s.len() implies !is_due(
            (#[trigger] s[i]).1,
            now,
            newest_sequence,
        ) by {
            let k = if i >= start {
                i - start
            } else {
                i - start + n
            };
            assert(place(start as int, k, n as int) == i);
        }
        None
    }

    /// The place behind a pivot.
    fn behind(&self, pivot: &[u8; DESTINATION_LENGTH]) -> (r: usize)
        requires
            self.wf(),
        ensures
            starts_after(self.walk(), Some(*pivot), r as int),
            self.walk().len() > 0 ==> r < self.walk().len(),
    {
        let ghost s = self.peers.entries@;
        let mut i: usize = 0;
        while i < self.peers.entries.len()
            invariant
                i <= s.len(),
                s == self.peers.entries@,
                forall|k: int|
                    0 <= k < i ==> !crate::bytemap::below(pivot@, (#[trigger] s[k]).0@),
            decreases s.len() - i,
        {
            match rank(pivot, &self.peers.entries[i].0) {
                Rank::Below => {
                    return i;
                },
                Rank::Same => {
                    proof {
                        if crate::bytemap::below(pivot@, s[i as int].0@) {
                            crate::bytemap::lemma_below_asymmetric(pivot@, s[i as int].0@);
                        }
                    }
                },
                Rank::Above => {
                    proof {
                        crate::bytemap::lemma_below_asymmetric(s[i as int].0@, pivot@);
                    }
                },
            }
            i = i + 1;
        }
        0
    }
}

fn gone(p: &Peer, now: u64) -> (r: bool)
    ensures
        r == is_lost(*p, now),
{
    !p.is_static && now > p.last_heard.saturating_add(MAX_UNREACHABLE_SECS)
}

/// Static peers survive every cull.
pub proof fn law_static_peers_stay(s: Seq<([u8; DESTINATION_LENGTH], Peer)>, now: u64, i: int)
    requires
        crate::bytemap::ascending(s),
        0 <= i < s.len(),
        s[i].1.is_static,
    ensures
        !lost(s, now).contains(s[i].0),
{
    lemma_lost(s, now);
    if lost(s, now).contains(s[i].0) {
        let j = choose|j: int| 0 <= j < s.len() && is_lost((#[trigger] s[j]).1, now) && s[j].0
            == s[i].0;
        crate::bytemap::lemma_unique(s, i, j);
    }
}

proof fn lemma_lost(s: Seq<([u8; DESTINATION_LENGTH], Peer)>, now: u64)
    ensures
        forall|k: [u8; DESTINATION_LENGTH]| #[trigger]
            lost(s, now).contains(k) ==> exists|j: int|
                0 <= j < s.len() && is_lost((#[trigger] s[j]).1, now) && s[j].0 == k,
    decreases s.len(),
{
    if s.len() > 0 {
        let t = s.drop_last();
        lemma_lost(t, now);
        assert forall|k: [u8; DESTINATION_LENGTH]| #[trigger] lost(s, now).contains(k) implies exists|
            j: int,
        | 0 <= j < s.len() && is_lost((#[trigger] s[j]).1, now) && s[j].0 == k by {
            let all = lost(s, now);
            let less = lost(t, now);
            let m = choose|m: int| 0 <= m < all.len() && all[m] == k;
            if m < less.len() {
                assert(less[m] == k);
                assert(less.contains(k));
                let j = choose|j: int|
                    0 <= j < t.len() && is_lost((#[trigger] t[j]).1, now) && t[j].0 == k;
                assert(s[j] == t[j]);
            } else {
                assert(s[s.len() - 1] == s.last());
            }
        }
    }
}

/// What a peering key is mined over: the identity of the node that validates
/// it, followed by that of the node that offers.
pub fn peering_key_material(
    validator_identity_hash: &[u8; DESTINATION_LENGTH],
    offerer_identity_hash: &[u8; DESTINATION_LENGTH],
) -> (r: [u8; 32])
    ensures
        r@ == validator_identity_hash@ + offerer_identity_hash@,
{
    let mut material = [0u8;32];
    let mut i: usize = 0;
    while i < DESTINATION_LENGTH
        invariant
            i <= DESTINATION_LENGTH,
            forall|j: int| 0 <= j < i ==> material@[j] == validator_identity_hash@[j],
            forall|j: int|
                0 <= j < i ==> material@[DESTINATION_LENGTH + j] == offerer_identity_hash@[j],
        decreases DESTINATION_LENGTH - i,
    {
        material[i] = validator_identity_hash[i];
        material[DESTINATION_LENGTH + i] = offerer_identity_hash[i];
        i = i + 1;
    }
    assert forall|j: int| 0 <= j < 32 implies material@[j] == (validator_identity_hash@
        + offerer_identity_hash@)[j] by {
        if j >= DESTINATION_LENGTH {
            assert(material@[DESTINATION_LENGTH + (j - DESTINATION_LENGTH)]
                == offerer_identity_hash@[j - DESTINATION_LENGTH]);
        }
    }
    assert(material@ =~= validator_identity_hash@ + offerer_identity_hash@);
    material
}

/// The `/offer` request body: `[peering_key, [transient_id, ...]]`.
#[derive(Debug, Clone, PartialEq, Eq)]
pub struct PeerOffer {
    pub peering_key: [u8; 32],
    pub transient_ids: Vec<TransientId>,
}

/// An offer by its bytes.
pub ghost struct Offer {
    pub key: Seq<u8>,
    pub ids: Seq<Seq<u8>>,
}

impl View for PeerOffer {
    type V = Offer;

    open spec fn view(&self) -> Offer {
        Offer {
            key: self.peering_key@,
            ids: crate::propagation::ids_view(self.transient_ids@),
        }
    }
}

pub open spec fn offer_bytes(o: Offer) -> Seq<u8> {
    msgpack::array_header(2) + msgpack::bin_bytes(o.key) + crate::propagation::bins_bytes(o.ids)
}

/// What an offer body decodes to. Items behind the first two, and bytes behind
/// the last, are passed over.
pub open spec fn offer_of(d: Seq<u8>) -> Result<Offer, PropagationError> {
    match msgpack::array_len_at(d, 0) {
        Err(e) => Err(crate::propagation::lifted(e)),
        Ok((n, p)) => if n < 2 {
            Err(PropagationError::InvalidLength)
        } else {
            match crate::propagation::fixed_at(d, p, 32) {
                Err(e) => Err(e),
                Ok((key, q)) => match crate::propagation::ids_at(d, q) {
                    Err(e) => Err(e),
                    Ok((ids, _)) => Ok(Offer { key, ids }),
                },
            }
        },
    }
}

impl PeerOffer {
    pub fn encode(&self) -> (r: Vec<u8>)
        ensures
            r@ == offer_bytes(self@),
    {
        let mut output: Vec<u8> = Vec::new();
        msgpack::array(&mut output, 2);
        msgpack::bin(&mut output, &self.peering_key);
        encode_ids(&mut output, self.transient_ids.as_slice());
        assert(output@ =~= offer_bytes(self@));
        output
    }

    pub fn decode(bytes: &[u8]) -> (r: Result<PeerOffer, PropagationError>)
        ensures
            match offer_of(bytes@) {
                Ok(o) => r is Ok && r->Ok_0@ == o,
                Err(e) => r == Err::<PeerOffer, PropagationError>(e),
            },
    {
        let mut position: usize = 0;
        let n: usize = lift(msgpack::array_len(bytes, &mut position))?;
        if n < 2 {
            return Err(PropagationError::InvalidLength);
        }
        let peering_key = decode_fixed_bin::<32>(bytes, &mut position)?;
        let transient_ids = decode_ids(bytes, &mut position)?;
        Ok(PeerOffer { peering_key, transient_ids })
    }
}

/// An offer reads back as it was written.
pub proof fn law_offer_round_trip(o: Offer)
    requires
        o.key.len() == 32,
        crate::propagation::ids_ok(o.ids),
        offer_bytes(o).len() <= usize::MAX,
    ensures
        offer_of(offer_bytes(o)) == Ok::<Offer, PropagationError>(o),
{
    let d = offer_bytes(o);
    let h0 = msgpack::array_header(2);
    let h1 = msgpack::bin_bytes(o.key);
    let h2 = crate::propagation::bins_bytes(o.ids);
    msgpack::lemma_at_whole(d);
    msgpack::lemma_at_concat(d, 0, h0 + h1, h2);
    msgpack::lemma_at_concat(d, 0, h0, h1);
    msgpack::law_array_header(d, 0, 2);
    msgpack::law_bin(d, h0.len() as int, o.key, 0);
    crate::propagation::law_ids(d, (h0 + h1).len() as int, o.ids);
}

/// The `/offer` response.
#[derive(Debug, Clone, PartialEq, Eq)]
pub enum OfferResponse {
    WantNone,
    WantAll,
    Wanted(Vec<TransientId>),
    Error(PeerError),
}

/// A response by its bytes.
pub ghost enum Answer {
    WantNone,
    WantAll,
    Wanted(Seq<Seq<u8>>),
    Error(PeerError),
}

impl View for OfferResponse {
    type V = Answer;

    open spec fn view(&self) -> Answer {
        match self {
            OfferResponse::WantNone => Answer::WantNone,
            OfferResponse::WantAll => Answer::WantAll,
            OfferResponse::Wanted(ids) => Answer::Wanted(crate::propagation::ids_view(ids@)),
            OfferResponse::Error(e) => Answer::Error(*e),
        }
    }
}

pub open spec fn answer_bytes(a: Answer) -> Seq<u8> {
    match a {
        Answer::WantNone => msgpack::bool_bytes(false),
        Answer::WantAll => msgpack::bool_bytes(true),
        Answer::Wanted(ids) => crate::propagation::bins_bytes(ids),
        Answer::Error(e) => msgpack::uint_bytes(e.spec_code() as nat),
    }
}

/// What a response decodes to. Bytes behind the value are passed over.
pub open spec fn answer_of(d: Seq<u8>) -> Result<Answer, PropagationError> {
    match msgpack::kind_at(d, 0) {
        Err(e) => Err(crate::propagation::lifted(e)),
        Ok(msgpack::Kind::False) => Ok(Answer::WantNone),
        Ok(msgpack::Kind::True) => Ok(Answer::WantAll),
        Ok(msgpack::Kind::Array) => match crate::propagation::ids_at(d, 0) {
            Err(e) => Err(e),
            Ok((ids, _)) => Ok(Answer::Wanted(ids)),
        },
        Ok(_) => match crate::propagation::peer_error_at(d, 0) {
            Err(e) => Err(e),
            Ok((f, _)) => Ok(Answer::Error(f)),
        },
    }
}

impl OfferResponse {
    pub fn encode(&self) -> (r: Vec<u8>)
        ensures
            r@ == answer_bytes(self@),
    {
        let mut output: Vec<u8> = Vec::new();
        match self {
            OfferResponse::WantNone => msgpack::boolean(&mut output, false),
            OfferResponse::WantAll => msgpack::boolean(&mut output, true),
            OfferResponse::Wanted(ids) => encode_ids(&mut output, ids.as_slice()),
            OfferResponse::Error(error) => msgpack::uint(&mut output, error.code() as u64),
        }
        assert(output@ =~= answer_bytes(self@));
        output
    }

    pub fn decode(bytes: &[u8]) -> (r: Result<OfferResponse, PropagationError>)
        ensures
            match answer_of(bytes@) {
                Ok(a) => r is Ok && r->Ok_0@ == a,
                Err(e) => r == Err::<OfferResponse, PropagationError>(e),
            },
    {
        let mut position: usize = 0;
        let kind = lift(msgpack::peek_kind(bytes, position))?;
        match kind {
            msgpack::Kind::False => Ok(OfferResponse::WantNone),
            msgpack::Kind::True => Ok(OfferResponse::WantAll),
            msgpack::Kind::Array => {
                let ids = decode_ids(bytes, &mut position)?;
                Ok(OfferResponse::Wanted(ids))
            },
            _ => {
                let error = read_peer_error(bytes, &mut position)?;
                Ok(OfferResponse::Error(error))
            },
        }
    }
}

/// A response reads back as it was written.
pub proof fn law_answer_round_trip(a: Answer)
    requires
        a matches Answer::Wanted(ids) ==> crate::propagation::ids_ok(ids),
        answer_bytes(a).len() <= usize::MAX,
    ensures
        answer_of(answer_bytes(a)) == Ok::<Answer, PropagationError>(a),
{
    let d = answer_bytes(a);
    msgpack::lemma_at_whole(d);
    match a {
        Answer::WantNone => msgpack::law_bool(d, 0, false, 0),
        Answer::WantAll => msgpack::law_bool(d, 0, true, 0),
        Answer::Wanted(ids) => crate::propagation::law_ids(d, 0, ids),
        Answer::Error(e) => {
            msgpack::law_uint(d, 0, e.spec_code() as u64);
            crate::propagation::law_peer_error_codes(e, e.spec_code() as u64);
        },
    }
}

/// The sync resource body: `[timestamp, [lxmf_data || stamp, ...]]`.
#[derive(Debug, Clone, PartialEq)]
pub struct PeerSyncEnvelope {
    /// Bit pattern of the binary64 timestamp.
    pub timestamp: u64,
    pub messages: Vec<Vec<u8>>,
}

pub ghost struct SyncBatch {
    pub timestamp: u64,
    pub messages: Seq<Seq<u8>>,
}

impl View for PeerSyncEnvelope {
    type V = SyncBatch;

    open spec fn view(&self) -> SyncBatch {
        SyncBatch {
            timestamp: self.timestamp,
            messages: crate::propagation::values_view(self.messages@),
        }
    }
}

pub open spec fn batch_bytes(b: SyncBatch) -> Seq<u8> {
    msgpack::array_header(2) + msgpack::double_bytes(b.timestamp) + crate::propagation::bins_bytes(
        b.messages,
    )
}

/// What a sync body decodes to. Bytes behind the value are passed over.
pub open spec fn batch_of(d: Seq<u8>) -> Result<SyncBatch, PropagationError> {
    match msgpack::array_len_at(d, 0) {
        Err(e) => Err(crate::propagation::lifted(e)),
        Ok((n, p)) => if n != 2 {
            Err(PropagationError::InvalidLength)
        } else {
            match msgpack::number_bits_at(d, p) {
                Err(e) => Err(crate::propagation::lifted(e)),
                Ok((timestamp, q)) => match crate::propagation::values_at(d, q) {
                    Err(e) => Err(e),
                    Ok((messages, _)) => Ok(SyncBatch { timestamp, messages }),
                },
            }
        },
    }
}

impl PeerSyncEnvelope {
    pub fn encode(&self) -> (r: Vec<u8>)
        ensures
            r@ == batch_bytes(self@),
    {
        let mut output: Vec<u8> = Vec::new();
        msgpack::array(&mut output, 2);
        msgpack::double(&mut output, self.timestamp);
        encode_binary_list(&mut output, &self.messages);
        assert(output@ =~= batch_bytes(self@));
        output
    }

    /// Decodes one message or many. That many may come only over a link whose
    /// peering key was validated is for the caller to see to.
    pub fn decode(bytes: &[u8]) -> (r: Result<PeerSyncEnvelope, PropagationError>)
        ensures
            match batch_of(bytes@) {
                Ok(b) => r is Ok && r->Ok_0@ == b,
                Err(e) => r == Err::<PeerSyncEnvelope, PropagationError>(e),
            },
    {
        let mut position: usize = 0;
        let n: usize = lift(msgpack::array_len(bytes, &mut position))?;
        if n != 2 {
            return Err(PropagationError::InvalidLength);
        }
        let timestamp: u64 = lift(msgpack::read_number_f64(bytes, &mut position))?;
        let messages = decode_binary_list(bytes, &mut position)?;
        Ok(PeerSyncEnvelope { timestamp, messages })
    }
}

/// A sync body reads back as it was written.
pub proof fn law_batch_round_trip(b: SyncBatch)
    requires
        b.messages.len() <= u32::MAX,
        forall|i: int| 0 <= i < b.messages.len() ==> (#[trigger] b.messages[i]).len() <= u32::MAX,
        batch_bytes(b).len() <= usize::MAX,
    ensures
        batch_of(batch_bytes(b)) == Ok::<SyncBatch, PropagationError>(b),
{
    let d = batch_bytes(b);
    let h0 = msgpack::array_header(2);
    let h1 = msgpack::double_bytes(b.timestamp);
    let h2 = crate::propagation::bins_bytes(b.messages);
    msgpack::lemma_at_whole(d);
    msgpack::lemma_at_concat(d, 0, h0 + h1, h2);
    msgpack::lemma_at_concat(d, 0, h0, h1);
    msgpack::law_array_header(d, 0, 2);
    msgpack::law_double(d, h0.len() as int, b.timestamp, 0);
    assert forall|i: int, q: int|
        0 <= i < b.messages.len() && #[trigger] msgpack::at(
            d,
            q,
            msgpack::bin_bytes(b.messages[i]),
        ) implies crate::propagation::value_at(d)(q) == Ok::<(Seq<u8>, int), PropagationError>(
        (b.messages[i], q + msgpack::bin_bytes(b.messages[i]).len()),
    ) by {
        msgpack::law_bin(d, q, b.messages[i], 0);
    }
    crate::propagation::law_bins(
        d,
        crate::propagation::value_at(d),
        (h0 + h1).len() as int,
        b.messages,
    );
}

/// What the messages of a sync are charged.
pub open spec fn charged(messages: Seq<Seq<u8>>) -> nat
    decreases messages.len(),
{
    if messages.len() == 0 {
        OFFER_BASE_SIZE as nat
    } else {
        charged(messages.drop_last()) + messages.last().len() + OFFER_PER_MESSAGE_OVERHEAD as nat
    }
}

proof fn lemma_charged(messages: Seq<Seq<u8>>)
    ensures
        msgpack::list_bytes(|v: Seq<u8>| msgpack::bin_bytes(v), messages).len()
            + OFFER_BASE_SIZE <= charged(messages),
    decreases messages.len(),
{
    if messages.len() > 0 {
        lemma_charged(messages.drop_last());
        reveal(msgpack::bin_head);
        reveal_with_fuel(msgpack::be_bytes, 5);
    }
}

/// The body of a sync is never longer than what its messages are charged: a
/// batch packed below a limit stays below it on the wire.
pub proof fn law_sync_within_charge(b: SyncBatch)
    ensures
        batch_bytes(b).len() <= charged(b.messages),
{
    lemma_charged(b.messages);
    reveal(msgpack::array_header);
    reveal(msgpack::double_bytes);
    reveal_with_fuel(msgpack::be_bytes, 9);
}

/// Which peers are throttled, and until when.
#[derive(Debug)]
pub struct InboundGate {
    throttled: ByteMap<16, u64>,
}

impl Default for InboundGate {
    fn default() -> (r: InboundGate)
        ensures
            r.wf(),
            r.until() == Map::<[u8; DESTINATION_LENGTH], u64>::empty(),
    {
        InboundGate { throttled: ByteMap::new() }
    }
}

/// The peer is throttled at a time.
pub open spec fn throttled_at(
    until: Map<[u8; DESTINATION_LENGTH], u64>,
    remote: [u8; DESTINATION_LENGTH],
    now: u64,
) -> bool {
    until.contains_key(remote) && now < until[remote]
}

/// What a remote is answered before its offer is looked at.
pub open spec fn gate_answer(
    config: PeeringConfig,
    until: Map<[u8; DESTINATION_LENGTH], u64>,
    remote: [u8; DESTINATION_LENGTH],
    now: u64,
    validating_stamps: bool,
    inbound_syncs: usize,
) -> Result<(), PeerError> {
    let is_static = config.names_static(remote);
    if !is_static && validating_stamps {
        Err(PeerError::Throttled)
    } else if !is_static && config.max_inbound_syncs > 0 && inbound_syncs
        >= config.max_inbound_syncs {
        Err(PeerError::Throttled)
    } else if throttled_at(until, remote, now) {
        Err(PeerError::Throttled)
    } else if config.from_static_only && !is_static {
        Err(PeerError::NoAccess)
    } else {
        Ok(())
    }
}

impl InboundGate {
    /// The end of each throttle.
    pub closed spec fn until(&self) -> Map<[u8; DESTINATION_LENGTH], u64> {
        self.throttled@
    }

    pub closed spec fn wf(&self) -> bool {
        self.throttled.wf()
    }

    /// Decides whether a peer may offer now. Static peers pass by the limits on
    /// concurrent work. A throttle that has run out is forgotten on the way.
    pub fn allow(
        &mut self,
        config: &PeeringConfig,
        remote_hash: &[u8; DESTINATION_LENGTH],
        now: u64,
        validating_stamps: bool,
        inbound_syncs: usize,
    ) -> (r: Result<(), PeerError>)
        requires
            old(self).wf(),
        ensures
            final(self).wf(),
            gated(
                *config,
                old(self).until(),
                final(self).until(),
                *remote_hash,
                now,
                validating_stamps,
                inbound_syncs,
                r,
            ),
    {
        let is_static = config.is_static(remote_hash);
        if !is_static && validating_stamps {
            return Err(PeerError::Throttled);
        }
        if !is_static && config.max_inbound_syncs > 0 && inbound_syncs >= config.max_inbound_syncs {
            return Err(PeerError::Throttled);
        }
        let until: Option<u64> = match self.throttled.get(remote_hash) {
            Some(until) => Some(*until),
            None => None,
        };
        if let Some(until) = until {
            if now < until {
                return Err(PeerError::Throttled);
            }
        }
        let _ = self.throttled.remove(remote_hash);
        if config.from_static_only && !is_static {
            return Err(PeerError::NoAccess);
        }
        Ok(())
    }

    /// Throttles a peer that sent invalid stamps.
    pub fn throttle(&mut self, remote_hash: [u8; DESTINATION_LENGTH], now: u64)
        requires
            old(self).wf(),
            now + PN_STAMP_THROTTLE_SECS <= u64::MAX,
        ensures
            final(self).wf(),
            final(self).until() == old(self).until().insert(
                remote_hash,
                (now + PN_STAMP_THROTTLE_SECS) as u64,
            ),
    {
        let _ = self.throttled.insert(remote_hash, now + PN_STAMP_THROTTLE_SECS);
    }

    pub fn is_throttled(&self, remote_hash: &[u8; DESTINATION_LENGTH], now: u64) -> (r: bool)
        requires
            self.wf(),
        ensures
            r == throttled_at(self.until(), *remote_hash, now),
    {
        match self.throttled.get(remote_hash) {
            Some(until) => now < *until,
            None => false,
        }
    }
}

/// The offered IDs that are not held.
pub open spec fn lacking(ids: Seq<TransientId>, held: Seq<bool>) -> Seq<TransientId>
    decreases ids.len(),
{
    if ids.len() == 0 {
        seq![]
    } else if held[ids.len() - 1] {
        lacking(ids.drop_last(), held)
    } else {
        lacking(ids.drop_last(), held).push(ids.last())
    }
}

/// The answer to an offer, given which of its IDs are held.
pub open spec fn membership_answer(ids: Seq<TransientId>, held: Seq<bool>) -> Answer {
    let wanted = lacking(ids, held);
    if wanted.len() == 0 {
        Answer::WantNone
    } else if wanted.len() == ids.len() {
        Answer::WantAll
    } else {
        Answer::Wanted(crate::propagation::ids_view(wanted))
    }
}

/// Answers an offer, given which of its IDs are held.
pub fn answer_membership(transient_ids: &[TransientId], held: &Vec<bool>) -> (r: OfferResponse)
    requires
        held@.len() == transient_ids@.len(),
    ensures
        r@ == membership_answer(transient_ids@, held@),
{
    let mut wanted: Vec<TransientId> = Vec::new();
    let mut i: usize = 0;
    let ghost ids = transient_ids@;
    while i < transient_ids.len()
        invariant
            i <= ids.len(),
            ids == transient_ids@,
            held@.len() == ids.len(),
            wanted@ == lacking(ids.take(i as int), held@),
        decreases ids.len() - i,
    {
        assert(ids.take(i + 1).drop_last() =~= ids.take(i as int));
        if !held[i] {
            wanted.push(transient_ids[i]);
        }
        i = i + 1;
    }
    assert(ids.take(i as int) =~= ids);
    if wanted.len() == 0 {
        OfferResponse::WantNone
    } else if wanted.len() == transient_ids.len() {
        OfferResponse::WantAll
    } else {
        OfferResponse::Wanted(wanted)
    }
}

/// Answers the membership half of an offer: wanted is what `contains` does not
/// know.
pub fn answer_offer<F: Fn(&TransientId) -> bool>(transient_ids: &[TransientId], contains: F) -> (r:
    OfferResponse)
    requires
        forall|id: &TransientId| call_requires(contains, (id,)),
    ensures
        exists|held: Seq<bool>|
            held.len() == transient_ids@.len() && r@ == #[trigger] membership_answer(
                transient_ids@,
                held,
            ) && forall|i: int|
                0 <= i < held.len() ==> call_ensures(
                    contains,
                    (&transient_ids@[i],),
                    #[trigger] held[i],
                ),
{
    let mut held: Vec<bool> = Vec::new();
    let mut i: usize = 0;
    while i < transient_ids.len()
        invariant
            i <= transient_ids@.len(),
            held@.len() == i,
            forall|id: &TransientId| call_requires(contains, (id,)),
            forall|j: int|
                0 <= j < i ==> call_ensures(
                    contains,
                    (&transient_ids@[j],),
                    #[trigger] held@[j],
                ),
        decreases transient_ids@.len() - i,
    {
        let b = contains(&transient_ids[i]);
        held.push(b);
        i = i + 1;
    }
    let r = answer_membership(transient_ids, &held);
    assert(r@ == membership_answer(transient_ids@, held@));
    r
}

/// Exactly the IDs are wanted that are not held.
pub proof fn law_lacking(ids: Seq<TransientId>, held: Seq<bool>, i: int)
    requires
        0 <= i < ids.len() == held.len(),
        !held[i],
    ensures
        lacking(ids, held).contains(ids[i]),
    decreases ids.len(),
{
    let all = lacking(ids, held);
    if i == ids.len() - 1 {
        assert(all[all.len() - 1] == ids[i]);
    } else {
        lemma_lacking_prefix(ids.drop_last(), held, held.drop_last());
        law_lacking(ids.drop_last(), held.drop_last(), i);
        let less = lacking(ids.drop_last(), held);
        let j = choose|j: int| 0 <= j < less.len() && less[j] == ids[i];
        assert(all[j] == ids[i]);
    }
}

proof fn lemma_lacking_prefix(ids: Seq<TransientId>, a: Seq<bool>, b: Seq<bool>)
    requires
        forall|i: int| 0 <= i < ids.len() ==> a[i] == b[i],
    ensures
        lacking(ids, a) == lacking(ids, b),
    decreases ids.len(),
{
    if ids.len() > 0 {
        lemma_lacking_prefix(ids.drop_last(), a, b);
    }
}

/// Length of an encoded offer with `n` IDs.
pub open spec fn offer_len(n: nat) -> nat {
    OFFER_KEY_BYTES as nat + msgpack::array_header((n as u32) as nat).len() + OFFER_ID_BYTES as nat
        * n
}

proof fn lemma_ids_len(ids: Seq<Seq<u8>>)
    requires
        forall|i: int| 0 <= i < ids.len() ==> (#[trigger] ids[i]).len() == 32,
    ensures
        msgpack::list_bytes(|v: Seq<u8>| msgpack::bin_bytes(v), ids).len() == OFFER_ID_BYTES
            * ids.len(),
    decreases ids.len(),
{
    if ids.len() > 0 {
        lemma_ids_len(ids.drop_last());
        assert(ids.last() == ids[ids.len() - 1]);
        reveal(msgpack::bin_head);
        reveal_with_fuel(msgpack::be_bytes, 2);
    }
}

/// The accounted size of an offer is what the encoder produces.
pub proof fn law_offer_len(o: Offer)
    requires
        o.key.len() == 32,
        crate::propagation::ids_ok(o.ids),
    ensures
        offer_bytes(o).len() == offer_len(o.ids.len()),
{
    lemma_ids_len(o.ids);
    reveal(msgpack::bin_head);
    reveal(msgpack::array_header);
    reveal_with_fuel(msgpack::be_bytes, 2);
}

fn wide_offer_len(ids: usize) -> (r: u128)
    ensures
        r == offer_len(ids as nat),
{
    let head: usize = msgpack::array_header_len(ids);
    proof {
        reveal(msgpack::array_header);
        reveal_with_fuel(msgpack::be_bytes, 5);
    }
    OFFER_KEY_BYTES as u128 + head as u128 + 34 * ids as u128
}

/// Length of an encoded offer with this many IDs.
pub fn offer_encoded_len(ids: usize) -> (r: usize)
    requires
        offer_len(ids as nat) <= usize::MAX,
    ensures
        r == offer_len(ids as nat),
{
    wide_offer_len(ids) as usize
}

/// How long an offer may be that goes over a link with this packet size.
pub fn offer_budget_for_mdu(mdu: usize) -> (r: usize)
    ensures
        r == offer_budget(mdu as int),
{
    let room: usize = if mdu > REQUEST_ENVELOPE_BYTES {
        mdu - REQUEST_ENVELOPE_BYTES
    } else {
        0
    };
    if room < OFFER_BYTES_LIMIT {
        room
    } else {
        OFFER_BYTES_LIMIT
    }
}

/// One planned offer: the IDs, and where the cursor lands when it concludes.
#[derive(Debug, Clone, PartialEq, Eq)]
pub struct OfferPlan {
    pub ids: Vec<TransientId>,
    /// The highest sequence number that was offered or is never to be.
    pub cursor_target: u64,
    /// Passed over for being above the peer's transfer limit.
    pub skipped_oversize: usize,
    /// Passed over for a stamp below the peer's minimum.
    pub skipped_low_value: usize,
}

/// How far the planning of an offer has got.
pub ghost struct Planning {
    pub ids: Seq<TransientId>,
    pub target: u64,
    pub oversize: nat,
    pub low: nat,
    pub charged: int,
    pub stopped: bool,
}

pub open spec fn kilobytes(kb: u64) -> int {
    crate::serve_cost::smaller(kb * 1000, u64::MAX as int)
}

/// The peer takes no message with this stamp.
pub open spec fn too_cheap(peer: Peer, e: StoredMessage) -> bool {
    e.stamp_value < peer.min_cost()
}

/// The peer takes no message of this size.
pub open spec fn too_big(peer: Peer, e: StoredMessage) -> bool {
    e.size + OFFER_PER_MESSAGE_OVERHEAD > kilobytes(peer.transfer_limit_kb)
}

/// A message that the peer takes.
pub open spec fn offerable(peer: Peer, e: StoredMessage) -> bool {
    !too_cheap(peer, e) && !too_big(peer, e)
}

/// Planning over the first `n` entries. Entries that the peer never takes are
/// stepped past; the first one that does not fit ends the plan.
pub open spec fn planning(peer: Peer, entries: Seq<StoredMessage>, budget: int, n: nat) -> Planning
    decreases n,
{
    if n == 0 {
        Planning {
            ids: seq![],
            target: peer.cursor,
            oversize: 0,
            low: 0,
            charged: OFFER_BASE_SIZE as int,
            stopped: false,
        }
    } else {
        let s = planning(peer, entries, budget, (n - 1) as nat);
        let e = entries[n - 1];
        if s.stopped || e.sequence <= peer.cursor {
            s
        } else if too_cheap(peer, e) {
            Planning { low: s.low + 1, target: e.sequence, ..s }
        } else if too_big(peer, e) {
            Planning { oversize: s.oversize + 1, target: e.sequence, ..s }
        } else if s.charged + e.size + OFFER_PER_MESSAGE_OVERHEAD >= kilobytes(peer.sync_limit_kb)
            || offer_len(s.ids.len() + 1) > budget {
            Planning { stopped: true, ..s }
        } else {
            Planning {
                ids: s.ids.push(e.transient_id),
                target: e.sequence,
                charged: s.charged + e.size + OFFER_PER_MESSAGE_OVERHEAD,
                ..s
            }
        }
    }
}

fn kb_bytes(kb: u64) -> (r: u64)
    ensures
        r == kilobytes(kb),
{
    match kb.checked_mul(1000) {
        Some(bytes) => bytes,
        None => u64::MAX,
    }
}

proof fn lemma_stopped(peer: Peer, entries: Seq<StoredMessage>, budget: int, n: nat, m: nat)
    requires
        n <= m,
        planning(peer, entries, budget, n).stopped,
    ensures
        planning(peer, entries, budget, m) == planning(peer, entries, budget, n),
    decreases m,
{
    if n < m {
        lemma_stopped(peer, entries, budget, n, (m - 1) as nat);
    }
}

/// Plans one offer from a directory: every entry above the peer's cursor, in
/// the order given, as far as the peer's limits and the byte budget allow.
///
/// The entries should be in ascending order of their sequence numbers.
pub fn build_offer(peer: &Peer, entries: &[StoredMessage], budget: usize) -> (r: Option<OfferPlan>)
    ensures
        offering(*peer, entries@, budget as int, r),
{
    let mut ids: Vec<TransientId> = Vec::new();
    let mut target: u64 = peer.cursor;
    let mut oversize: usize = 0;
    let mut low: usize = 0;
    let mut charged: u128 = OFFER_BASE_SIZE as u128;
    let min_value: u8 = peer.min_accepted_cost();
    let transfer_limit: u64 = kb_bytes(peer.transfer_limit_kb);
    let sync_limit: u64 = kb_bytes(peer.sync_limit_kb);
    let mut stopped = false;
    let mut i: usize = 0;
    while i < entries.len() && !stopped
        invariant
            i <= entries@.len(),
            min_value == peer.min_cost(),
            transfer_limit == kilobytes(peer.transfer_limit_kb),
            sync_limit == kilobytes(peer.sync_limit_kb),
            charged <= 0x1_0000_0000_0000_0000,
            low <= i,
            oversize <= i,
            ids@.len() <= i,
            planning(*peer, entries@, budget as int, i as nat) == (Planning {
                ids: ids@,
                target,
                oversize: oversize as nat,
                low: low as nat,
                charged: charged as int,
                stopped,
            }),
        decreases entries@.len() - i,
    {
        let entry = entries[i];
        i = i + 1;
        if entry.sequence > peer.cursor {
            let size: u64 = entry.size as u64 + OFFER_PER_MESSAGE_OVERHEAD;
            if entry.stamp_value < min_value {
                low = low + 1;
                target = entry.sequence;
            } else if size > transfer_limit {
                oversize = oversize + 1;
                target = entry.sequence;
            } else if charged + size as u128 >= sync_limit as u128 || wide_offer_len(ids.len() + 1)
                > budget as u128 {
                stopped = true;
            } else {
                charged = charged + size as u128;
                ids.push(entry.transient_id);
                target = entry.sequence;
            }
        }
    }
    proof {
        if stopped {
            lemma_stopped(*peer, entries@, budget as int, i as nat, entries@.len());
        }
    }
    if ids.len() == 0 && target == peer.cursor {
        None
    } else {
        Some(
            OfferPlan {
                ids,
                cursor_target: target,
                skipped_oversize: oversize,
                skipped_low_value: low,
            },
        )
    }
}

pub open spec fn in_sequence(entries: Seq<StoredMessage>) -> bool {
    forall|i: int, j: int|
        0 <= i < j < entries.len() ==> (#[trigger] entries[i]).sequence < (
        #[trigger] entries[j]).sequence
}

/// The IDs that a peer takes between two cursors.
pub open spec fn owed(peer: Peer, entries: Seq<StoredMessage>, from: u64, to: u64) -> Seq<
    TransientId,
>
    decreases entries.len(),
{
    if entries.len() == 0 {
        seq![]
    } else {
        let e = entries.last();
        if from < e.sequence <= to && offerable(peer, e) {
            owed(peer, entries.drop_last(), from, to).push(e.transient_id)
        } else {
            owed(peer, entries.drop_last(), from, to)
        }
    }
}

proof fn lemma_owed_beyond(peer: Peer, entries: Seq<StoredMessage>, from: u64, to: u64, more: u64)
    requires
        to <= more,
        forall|i: int| 0 <= i < entries.len() ==> (#[trigger] entries[i]).sequence <= to,
    ensures
        owed(peer, entries, from, more) == owed(peer, entries, from, to),
    decreases entries.len(),
{
    if entries.len() > 0 {
        let init = entries.drop_last();
        assert(entries.last() == entries[entries.len() - 1]);
        assert forall|i: int| 0 <= i < init.len() implies (#[trigger] init[i]).sequence <= to by {
            assert(init[i] == entries[i]);
        }
        lemma_owed_beyond(peer, init, from, to, more);
    }
}

proof fn lemma_owed_split(peer: Peer, entries: Seq<StoredMessage>, n: int, from: u64, to: u64)
    requires
        in_sequence(entries),
        0 <= n <= entries.len(),
        n < entries.len() ==> entries[n].sequence > to,
    ensures
        owed(peer, entries, from, to) == owed(peer, entries.take(n), from, to),
    decreases entries.len() - n,
{
    if n < entries.len() {
        if n + 1 < entries.len() {
            assert(entries[n].sequence < entries[n + 1].sequence);
        }
        lemma_owed_split(peer, entries, n + 1, from, to);
        assert(entries.take(n + 1).drop_last() =~= entries.take(n));
    } else {
        assert(entries.take(n) =~= entries);
    }
}

proof fn lemma_planning(peer: Peer, entries: Seq<StoredMessage>, budget: int, n: nat)
    requires
        in_sequence(entries),
        n <= entries.len(),
    ensures
        ({
            let s = planning(peer, entries, budget, n);
            &&& peer.cursor <= s.target
            &&& s.ids == owed(peer, entries, peer.cursor, s.target)
            &&& s.target > peer.cursor ==> exists|i: int|
                0 <= i < n && (#[trigger] entries[i]).sequence == s.target
            &&& !s.stopped ==> forall|i: int|
                0 <= i < n ==> (#[trigger] entries[i]).sequence <= s.target
            &&& s.ids.len() > 0 ==> s.charged < kilobytes(peer.sync_limit_kb) && offer_len(
                s.ids.len(),
            ) <= budget
        }),
    decreases n,
{
    if n == 0 {
        lemma_owed_none(peer, entries);
    } else {
        lemma_planning(peer, entries, budget, (n - 1) as nat);
        let before = planning(peer, entries, budget, (n - 1) as nat);
        let s = planning(peer, entries, budget, n);
        let e = entries[n - 1];
        if s.target != before.target {
            // The entry was taken or stepped past.
            let short = entries.take(n - 1);
            assert(entries.take(n as int).drop_last() =~= short);
            assert forall|i: int| 0 <= i < short.len() implies (#[trigger] short[i]).sequence
                <= before.target by {
                assert(short[i] == entries[i]);
            }
            lemma_owed_split(peer, entries, n as int, peer.cursor, s.target);
            lemma_owed_split(peer, entries, n - 1, peer.cursor, before.target);
            lemma_owed_beyond(peer, short, peer.cursor, before.target, s.target);
            assert(entries.take(n as int).last() == e);
            assert(entries[n - 1].sequence == s.target);
        } else {
            // Sequence numbers only grow, so an entry that moves the target
            // moves it up.
            if e.sequence > peer.cursor && !before.stopped {
                if before.target > peer.cursor {
                    let i = choose|i: int|
                        0 <= i < n - 1 && (#[trigger] entries[i]).sequence == before.target;
                    assert(entries[i].sequence < entries[n - 1].sequence);
                }
            }
            if before.target > peer.cursor {
                let i = choose|i: int|
                    0 <= i < n - 1 && (#[trigger] entries[i]).sequence == before.target;
                assert(entries[i].sequence == s.target);
            }
        }
    }
}

proof fn lemma_owed_none(peer: Peer, entries: Seq<StoredMessage>)
    ensures
        owed(peer, entries, peer.cursor, peer.cursor).len() == 0,
    decreases entries.len(),
{
    if entries.len() > 0 {
        lemma_owed_none(peer, entries.drop_last());
    }
}

/// A plan offers exactly what the peer takes between its cursor and the target:
/// rounds that follow one another leave no gap and repeat nothing.
pub proof fn law_offer_has_no_gaps(peer: Peer, entries: Seq<StoredMessage>, budget: int)
    requires
        in_sequence(entries),
    ensures
        ({
            let s = planning(peer, entries, budget, entries.len());
            &&& peer.cursor <= s.target
            &&& s.ids == owed(peer, entries, peer.cursor, s.target)
        }),
{
    lemma_planning(peer, entries, budget, entries.len());
}

/// What one round owes up to a point and the next owes from there on is what
/// one round over both would owe.
pub proof fn law_rounds_add_up(
    peer: Peer,
    entries: Seq<StoredMessage>,
    from: u64,
    mid: u64,
    to: u64,
)
    requires
        in_sequence(entries),
        from <= mid <= to,
    ensures
        owed(peer, entries, from, to) == owed(peer, entries, from, mid) + owed(
            peer,
            entries,
            mid,
            to,
        ),
    decreases entries.len(),
{
    if entries.len() > 0 {
        let init = entries.drop_last();
        let e = entries.last();
        assert(in_sequence(init)) by {
            assert forall|i: int, j: int| 0 <= i < j < init.len() implies (
            #[trigger] init[i]).sequence < (#[trigger] init[j]).sequence by {
                assert(init[i] == entries[i] && init[j] == entries[j]);
            }
        }
        law_rounds_add_up(peer, init, from, mid, to);
        if from < e.sequence <= mid && offerable(peer, e) {
            // Nothing before the last entry is beyond it.
            assert forall|i: int| 0 <= i < init.len() implies (#[trigger] init[i]).sequence
                <= mid by {
                assert(init[i] == entries[i]);
                assert(entries[i].sequence < entries[entries.len() - 1].sequence);
            }
            lemma_owed_past(peer, init, mid, to);
            assert(owed(peer, entries, from, to) =~= owed(peer, entries, from, mid) + owed(
                peer,
                entries,
                mid,
                to,
            ));
        } else {
            assert(owed(peer, entries, from, to) =~= owed(peer, entries, from, mid) + owed(
                peer,
                entries,
                mid,
                to,
            ));
        }
    }
}

proof fn lemma_owed_past(peer: Peer, entries: Seq<StoredMessage>, from: u64, to: u64)
    requires
        forall|i: int| 0 <= i < entries.len() ==> (#[trigger] entries[i]).sequence <= from,
    ensures
        owed(peer, entries, from, to).len() == 0,
    decreases entries.len(),
{
    if entries.len() > 0 {
        let init = entries.drop_last();
        assert(entries.last() == entries[entries.len() - 1]);
        assert forall|i: int| 0 <= i < init.len() implies (#[trigger] init[i]).sequence <= from by {
            assert(init[i] == entries[i]);
        }
        lemma_owed_past(peer, init, from, to);
    }
}

/// An offer stays within its byte budget, and its sync below the peer's limit.
pub proof fn law_offer_within_limits(peer: Peer, entries: Seq<StoredMessage>, budget: int)
    requires
        in_sequence(entries),
        planning(peer, entries, budget, entries.len()).ids.len() > 0,
    ensures
        offer_len(planning(peer, entries, budget, entries.len()).ids.len()) <= budget,
        planning(peer, entries, budget, entries.len()).charged < kilobytes(peer.sync_limit_kb),
{
    lemma_planning(peer, entries, budget, entries.len());
}

/// A plan that was not cut short has looked at everything.
pub proof fn law_full_plan_reaches_the_end(
    peer: Peer,
    entries: Seq<StoredMessage>,
    budget: int,
    i: int,
)
    requires
        in_sequence(entries),
        !planning(peer, entries, budget, entries.len()).stopped,
        0 <= i < entries.len(),
    ensures
        entries[i].sequence <= planning(peer, entries, budget, entries.len()).target,
{
    lemma_planning(peer, entries, budget, entries.len());
}

/// What is to be done with an `/offer` response.
#[derive(Debug, Clone, PartialEq, Eq)]
pub enum ResponseAction {
    /// Send these messages as one resource.
    SendMessages(Vec<TransientId>),
    /// Nothing is wanted: the cursor moves to the target of the plan.
    Concluded,
    /// The next attempt waits this many seconds.
    Backoff(u64),
    /// The peering ends.
    Unpeer,
    /// The held peering key is dropped, and a new one mined.
    RemineKey,
    /// The next round tries again.
    Retry,
}

/// The offered IDs that are among the wanted, in the order of the offer.
pub open spec fn granted(offered: Seq<TransientId>, wanted: Seq<TransientId>) -> Seq<TransientId>
    decreases offered.len(),
{
    if offered.len() == 0 {
        seq![]
    } else if wanted.contains(offered.last()) {
        granted(offered.drop_last(), wanted).push(offered.last())
    } else {
        granted(offered.drop_last(), wanted)
    }
}

/// The action for a response to a plan.
pub open spec fn action_fits(
    response: OfferResponse,
    offered: Seq<TransientId>,
    r: ResponseAction,
) -> bool {
    match response {
        OfferResponse::WantNone => r is Concluded,
        OfferResponse::WantAll => r is SendMessages && r->SendMessages_0@ == offered,
        OfferResponse::Wanted(ids) => if granted(offered, ids@).len() == 0 {
            r is Concluded
        } else {
            r is SendMessages && r->SendMessages_0@ == granted(offered, ids@)
        },
        OfferResponse::Error(PeerError::Throttled) => r == ResponseAction::Backoff(
            PN_STAMP_THROTTLE_SECS,
        ),
        OfferResponse::Error(PeerError::NoAccess) => r is Unpeer,
        OfferResponse::Error(PeerError::InvalidKey) => r is RemineKey,
        OfferResponse::Error(_) => r is Retry,
    }
}

fn copy_ids(ids: &Vec<TransientId>) -> (r: Vec<TransientId>)
    ensures
        r@ == ids@,
{
    let mut out: Vec<TransientId> = Vec::new();
    let mut i: usize = 0;
    while i < ids.len()
        invariant
            i <= ids@.len(),
            out@ == ids@.take(i as int),
        decreases ids@.len() - i,
    {
        assert(ids@.take(i + 1) =~= ids@.take(i as int).push(ids@[i as int]));
        out.push(ids[i]);
        i = i + 1;
    }
    assert(ids@.take(i as int) =~= ids@);
    out
}

fn names(ids: &Vec<TransientId>, id: &TransientId) -> (r: bool)
    ensures
        r == ids@.contains(*id),
{
    let mut i: usize = 0;
    while i < ids.len()
        invariant
            i <= ids@.len(),
            forall|j: int| 0 <= j < i ==> ids@[j] != *id,
        decreases ids@.len() - i,
    {
        if same(&ids[i], id) {
            return true;
        }
        i = i + 1;
    }
    false
}

/// Maps a decoded response to its action. Only IDs that were offered are sent.
pub fn response_action(response: &OfferResponse, plan: &OfferPlan) -> (r: ResponseAction)
    ensures
        action_fits(*response, plan.ids@, r),
{
    match response {
        OfferResponse::WantNone => ResponseAction::Concluded,
        OfferResponse::WantAll => ResponseAction::SendMessages(copy_ids(&plan.ids)),
        OfferResponse::Wanted(ids) => {
            let mut wanted: Vec<TransientId> = Vec::new();
            let ghost offered = plan.ids@;
            let mut i: usize = 0;
            while i < plan.ids.len()
                invariant
                    i <= offered.len(),
                    offered == plan.ids@,
                    wanted@ == granted(offered.take(i as int), ids@),
                decreases offered.len() - i,
            {
                assert(offered.take(i + 1).drop_last() =~= offered.take(i as int));
                if names(ids, &plan.ids[i]) {
                    wanted.push(plan.ids[i]);
                }
                i = i + 1;
            }
            assert(offered.take(i as int) =~= offered);
            if wanted.len() == 0 {
                ResponseAction::Concluded
            } else {
                ResponseAction::SendMessages(wanted)
            }
        },
        OfferResponse::Error(error) => match error {
            PeerError::Throttled => ResponseAction::Backoff(PN_STAMP_THROTTLE_SECS),
            PeerError::NoAccess => ResponseAction::Unpeer,
            PeerError::InvalidKey => ResponseAction::RemineKey,
            _ => ResponseAction::Retry,
        },
    }
}

/// Nothing is sent that was not both offered and asked for.
pub proof fn law_granted(offered: Seq<TransientId>, wanted: Seq<TransientId>, id: TransientId)
    ensures
        granted(offered, wanted).contains(id) <==> offered.contains(id) && wanted.contains(id),
    decreases offered.len(),
{
    if offered.len() > 0 {
        let init = offered.drop_last();
        law_granted(init, wanted, id);
        let less = granted(init, wanted);
        let all = granted(offered, wanted);
        if less.contains(id) {
            let i = choose|i: int| 0 <= i < less.len() && less[i] == id;
            assert(all[i] == id);
        }
        if all.contains(id) {
            let i = choose|i: int| 0 <= i < all.len() && all[i] == id;
            if i < less.len() {
                assert(less[i] == id);
            }
        }
        if init.contains(id) {
            let i = choose|i: int| 0 <= i < init.len() && init[i] == id;
            assert(offered[i] == id);
        }
        if offered.contains(id) {
            let i = choose|i: int| 0 <= i < offered.len() && offered[i] == id;
            if i < init.len() {
                assert(init[i] == id);
            } else if wanted.contains(id) {
                assert(all[less.len() as int] == id);
            }
        }
        assert(offered[offered.len() - 1] == offered.last());
    }
}

/// Two walks over a table meet the same destinations in the same places.
pub open spec fn same_places(
    a: Seq<([u8; DESTINATION_LENGTH], Peer)>,
    b: Seq<([u8; DESTINATION_LENGTH], Peer)>,
) -> bool {
    &&& a.len() == b.len()
    &&& forall|i: int|
        0 <= i < b.len() ==> (#[trigger] b[i]).0 == a[i].0 && b[i].1.destination_hash == b[i].0
}

proof fn lemma_same_places(
    a: Seq<([u8; DESTINATION_LENGTH], Peer)>,
    b: Seq<([u8; DESTINATION_LENGTH], Peer)>,
)
    requires
        crate::bytemap::ascending(a),
        same_places(a, b),
    ensures
        crate::bytemap::ascending(b),
        crate::bytemap::map_of(b).dom() == crate::bytemap::map_of(a).dom(),
        forall|k: [u8; DESTINATION_LENGTH]| #[trigger]
            crate::bytemap::map_of(b).contains_key(k) ==> crate::bytemap::map_of(
                b,
            )[k].destination_hash == k,
{
    assert forall|i: int, j: int| 0 <= i < j < b.len() implies crate::bytemap::below(
        #[trigger] b[i].0@,
        #[trigger] b[j].0@,
    ) by {
        assert(crate::bytemap::below(a[i].0@, a[j].0@));
    }
    assert forall|k: [u8; DESTINATION_LENGTH]| #[trigger]
        crate::bytemap::has_key(b, k) == crate::bytemap::has_key(a, k) by {
        if crate::bytemap::has_key(a, k) {
            assert(b[crate::bytemap::key_index(a, k)].0 == k);
        }
        if crate::bytemap::has_key(b, k) {
            assert(a[crate::bytemap::key_index(b, k)].0 == k);
        }
    }
    assert(crate::bytemap::map_of(b).dom() =~= crate::bytemap::map_of(a).dom());
    assert forall|k: [u8; DESTINATION_LENGTH]| #[trigger]
        crate::bytemap::map_of(b).contains_key(k) implies crate::bytemap::map_of(
        b,
    )[k].destination_hash == k by {
        let j = crate::bytemap::key_index(b, k);
        assert(b[j].0 == k);
    }
}

/// Whether a peering key is good enough; one that is not is dropped.
pub open spec fn key_ready(before: Peer, after: Peer, r: bool) -> bool {
    &&& r == (before.peering_key matches Some(k) && k.1 >= before.peering_cost)
    &&& after == (if r {
        before
    } else {
        Peer { peering_key: None, ..before }
    })
}

/// The identity of a peer was recorded.
pub open spec fn identity_captured(
    before: Peer,
    after: Peer,
    identity_hash: [u8; DESTINATION_LENGTH],
    identity_keys: [u8; 64],
    r: bool,
) -> bool {
    &&& after == (Peer {
        identity_hash: Some(identity_hash),
        identity_keys: Some(identity_keys),
        ..before
    })
    &&& r == (after != before)
}

/// How an offer fares with the peer limits.
pub open spec fn gated(
    config: PeeringConfig,
    before: Map<[u8; DESTINATION_LENGTH], u64>,
    after: Map<[u8; DESTINATION_LENGTH], u64>,
    remote_hash: [u8; DESTINATION_LENGTH],
    now: u64,
    validating_stamps: bool,
    inbound_syncs: usize,
    r: Result<(), PeerError>,
) -> bool {
    &&& r == gate_answer(
        config,
        before,
        remote_hash,
        now,
        validating_stamps,
        inbound_syncs,
    )
    &&& after == (if r matches Err(PeerError::Throttled) {
        before
    } else {
        before.remove(remote_hash)
    })
}

/// What is offered to a peer.
pub open spec fn offering(
    peer: Peer,
    entries: Seq<StoredMessage>,
    budget: int,
    r: Option<OfferPlan>,
) -> bool {
    let s = planning(peer, entries, budget, entries.len());
    match r {
        None => s.ids.len() == 0 && s.target == peer.cursor,
        Some(plan) => {
            &&& s.ids.len() > 0 || s.target != peer.cursor
            &&& plan.ids@ == s.ids
            &&& plan.cursor_target == s.target
            &&& plan.skipped_oversize == s.oversize
            &&& plan.skipped_low_value == s.low
        },
    }
}

/// The bytes that an offer may have in a request of `mdu` bytes.
pub open spec fn offer_budget(mdu: int) -> int {
    crate::serve_cost::smaller(
        crate::serve_cost::larger(mdu - REQUEST_ENVELOPE_BYTES, 0),
        OFFER_BYTES_LIMIT as int,
    )
}

} // verus!
