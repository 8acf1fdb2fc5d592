//! Peering: who is a peer, what is kept of it, and what it is offered.
use vstd::prelude::*;

use crate::msgpack;
use crate::peering::{
    action_fits, announce_taken, announced_peer, answer_bytes, answer_of, batch_bytes, batch_of,
    charged, first_due, gate_answer, gated, granted, highest_cost, identity_captured, is_due,
    key_ready, lacking, lost, membership_answer, offer_budget, offer_bytes, offer_len, offer_of,
    offering, place, planning, record_of_peer, refreshed_peer, restored, sync_taken, throttled_at,
    unpeered, Answer, DeclineReason, DropReason, Offer, OfferPlan, OfferResponse, Peer, PeerChange,
    PeerMap, PeerRecord, PeeringConfig, ResponseAction, SyncBatch, SyncPhase,
};
use crate::propagation::{NodeAnnounce, PeerError, PropagationError, TransientId};
use crate::propagation_store::StoredMessage;

use super::gives;

verus! {

/// A cost as a peer keeps it: in one byte, the largest where it is above.
pub open spec fn in_a_byte(v: u64, b: u8) -> bool {
    if v < 256 {
        b == v
    } else {
        b == 255
    }
}

/// A peer has the figures of an announce.
pub open spec fn figures(p: Peer, a: NodeAnnounce) -> bool {
    &&& p.transfer_limit_kb == a.transfer_limit_kb
    &&& p.sync_limit_kb == a.sync_limit_kb
    &&& in_a_byte(a.stamp_cost, p.stamp_cost)
    &&& in_a_byte(a.stamp_cost_flexibility, p.stamp_cost_flexibility)
    &&& in_a_byte(a.peering_cost, p.peering_cost)
    &&& p.peering_timebase == a.timebase
}

/// After an announce with a newer timebase a peer has exactly the figures that
/// a first announce with the same contents would have given it, is to be synced
/// without delay, and keeps who it is, its keys, its cursor and its place in
/// the configuration. An older announce tells only that it is there.
pub proof fn law_announced_figures(
    p: Peer,
    hash: [u8; 16],
    a: NodeAnnounce,
    is_static: bool,
    now: u64,
)
    ensures
        ({
            let first = announced_peer(hash, a, is_static, now);
            let again = refreshed_peer(p, a, now);
            &&& figures(first, a)
            &&& first.destination_hash == hash
            &&& first.is_static == is_static
            &&& first.last_heard == now
            &&& first.cursor == 0
            &&& first.identity_hash is None && first.identity_keys is None && first.peering_key
                is None
            &&& first.state == SyncPhase::Idle && first.next_sync_attempt == 0
                && first.sync_backoff_secs == 0
            &&& again.last_heard == now
            &&& again.destination_hash == p.destination_hash
            &&& again.identity_hash == p.identity_hash
            &&& again.identity_keys == p.identity_keys
            &&& again.peering_key == p.peering_key
            &&& again.cursor == p.cursor
            &&& again.is_static == p.is_static
            &&& again.state == p.state
            &&& a.timebase > p.peering_timebase ==> figures(again, a) && again.next_sync_attempt
                == 0 && again.sync_backoff_secs == 0
            &&& a.timebase <= p.peering_timebase ==> again == (Peer { last_heard: now, ..p })
        }),
{
}

/// The same, of the five figures by name: what was announced is what the peer
/// has.
pub proof fn law_newer_announce_is_taken_over(p: Peer, a: NodeAnnounce, now: u64)
    requires
        a.timebase > p.peering_timebase,
    ensures
        refreshed_peer(p, a, now).transfer_limit_kb == a.transfer_limit_kb,
        refreshed_peer(p, a, now).sync_limit_kb == a.sync_limit_kb,
        a.stamp_cost < 256 ==> refreshed_peer(p, a, now).stamp_cost == a.stamp_cost,
        a.stamp_cost_flexibility < 256 ==> refreshed_peer(p, a, now).stamp_cost_flexibility
            == a.stamp_cost_flexibility,
        a.peering_cost < 256 ==> refreshed_peer(p, a, now).peering_cost == a.peering_cost,
        refreshed_peer(p, a, now).peering_timebase == a.timebase,
{
}

/// The lowest stamp that a peer takes is its cost less its flexibility.
pub proof fn law_lowest_accepted_cost(p: Peer)
    ensures
        p.stamp_cost >= p.stamp_cost_flexibility ==> p.min_cost() + p.stamp_cost_flexibility
            == p.stamp_cost,
        p.stamp_cost < p.stamp_cost_flexibility ==> p.min_cost() == 0,
{
}

/// An announce that is heard, and not as an answer to a path request, takes the
/// announcer in or refreshes it exactly where it is a static peer or an enabled
/// node within reach, and asks for no more than the node gives.
pub proof fn law_announces(
    config: PeeringConfig,
    peers: PeerMap,
    hash: [u8; 16],
    a: NodeAnnounce,
    hops: Option<u8>,
    now: u64,
    other: [u8; 16],
)
    ensures
        ({
            let (change, next) = announce_taken(config, peers, hash, a, hops, now, false);
            let fixed = config.static_peers@.contains(hash);
            let known = peers.contains_key(hash);
            let dear = a.peering_cost > config.remote_peering_cost_max;
            let near = hops is Some && hops->Some_0 <= config.autopeer_maxdepth || hops is None
                && config.autopeer_maxdepth == 255;
            let fits = fixed || (a.enabled && config.autopeer && near);
            &&& known && !dear && fits ==> change is Updated && next.contains_key(hash)
                && next[hash] == refreshed_peer(peers[hash], a, now)
            &&& !known && !dear && fits && (fixed || peers.dom().len() < config.max_peers)
                ==> change is Added && next.contains_key(hash) && next[hash] == announced_peer(
                hash,
                a,
                fixed,
                now,
            )
            &&& !known && !dear && fits && !(fixed || peers.dom().len() < config.max_peers)
                ==> change == PeerChange::Declined(DeclineReason::TableFull) && next == peers
            &&& known && dear ==> change == PeerChange::Dropped(DropReason::CostRaised)
                && !next.contains_key(hash)
            &&& !known && (dear || !fits) ==> change is Declined && next == peers
            &&& known && !dear && !fixed && !a.enabled ==> if a.timebase
                >= peers[hash].peering_timebase {
                change == PeerChange::Dropped(DropReason::Disabled) && !next.contains_key(hash)
            } else {
                change is Declined && next == peers
            }
            &&& known && !dear && !fixed && a.enabled && config.autopeer && !near ==> if a.timebase
                >= peers[hash].peering_timebase {
                change == PeerChange::Dropped(DropReason::OutOfDepth) && !next.contains_key(hash)
            } else {
                change is Declined && next == peers
            }
            &&& other != hash ==> next.contains_key(other) == peers.contains_key(other)
            &&& other != hash && peers.contains_key(other) ==> next[other] == peers[other]
        }),
{
}

/// A sync makes a peer of a stranger that an announce would have made one, and
/// changes nothing for a peer.
pub proof fn law_syncs(
    config: PeeringConfig,
    peers: PeerMap,
    hash: [u8; 16],
    a: NodeAnnounce,
    hops: Option<u8>,
    now: u64,
)
    ensures
        ({
            let (change, next) = sync_taken(config, peers, hash, a, hops, now);
            &&& peers.contains_key(hash) ==> next == peers && change == PeerChange::Declined(
                DeclineReason::AlreadyPeered,
            )
            &&& next.contains_key(hash) && !peers.contains_key(hash) <==> change is Added
            &&& change is Added ==> {
                &&& next[hash] == announced_peer(
                    hash,
                    a,
                    config.static_peers@.contains(hash),
                    now,
                )
                &&& a.peering_cost <= config.remote_peering_cost_max
                &&& config.static_peers@.contains(hash) || (a.enabled && config.autopeer)
            }
            &&& !(change is Added) ==> next == peers
        }),
{
}

/// A peering ends on a word that is not older than the peering, and for the one
/// peer.
pub proof fn law_unpeering(peers: PeerMap, hash: [u8; 16], timestamp: u64, other: [u8; 16])
    ensures
        unpeered(peers, hash, timestamp) is Some <==> peers.contains_key(hash)
            && peers[hash].peering_timebase <= timestamp,
        unpeered(peers, hash, timestamp) matches Some(left) ==> {
            &&& !left.contains_key(hash)
            &&& other != hash ==> left.contains_key(other) == peers.contains_key(other)
            &&& other != hash && peers.contains_key(other) ==> left[other] == peers[other]
        },
{
}

/// A peer that was not heard for more than fourteen days is lost, unless it is
/// a static one.
pub proof fn law_lost_peers(s: Seq<([u8; 16], Peer)>, now: u64, h: [u8; 16])
    ensures
        lost(s, now).contains(h) <==> exists|i: int|
            0 <= i < s.len() && (#[trigger] s[i]).0 == h && !s[i].1.is_static && now
                > s[i].1.last_heard + 1_209_600,
    decreases s.len(),
{
    if s.len() > 0 {
        let r = s.drop_last();
        law_lost_peers(r, now, h);
        let less = lost(r, now);
        let all = lost(s, now);
        assert(s.last() == s[s.len() - 1]);
        if less.contains(h) {
            let i = choose|i: int|
                0 <= i < r.len() && (#[trigger] r[i]).0 == h && !r[i].1.is_static && now
                    > r[i].1.last_heard + 1_209_600;
            assert(s[i] == r[i]);
            let j = choose|j: int| 0 <= j < less.len() && less[j] == h;
            assert(all[j] == h);
        }
        if all.contains(h) && !less.contains(h) {
            let j = choose|j: int| 0 <= j < all.len() && all[j] == h;
            if j < less.len() {
                assert(less[j] == h);
            }
            assert(s[s.len() - 1].0 == h);
        }
        if exists|i: int|
            0 <= i < s.len() && (#[trigger] s[i]).0 == h && !s[i].1.is_static && now
                > s[i].1.last_heard + 1_209_600 {
            let i = choose|i: int|
                0 <= i < s.len() && (#[trigger] s[i]).0 == h && !s[i].1.is_static && now
                    > s[i].1.last_heard + 1_209_600;
            if i < r.len() {
                assert(r[i] == s[i]);
                assert(less.contains(h));
            } else {
                assert(all[all.len() - 1] == h);
            }
        }
    }
}

/// The highest cost is that of a peer, and none has a higher one.
pub proof fn law_highest_cost(s: Seq<([u8; 16], Peer)>, i: int)
    requires
        0 <= i < s.len(),
    ensures
        s[i].1.min_cost() <= highest_cost(s),
        exists|j: int| 0 <= j < s.len() && (#[trigger] s[j]).1.min_cost() == highest_cost(s),
    decreases s.len(),
{
    let r = s.drop_last();
    assert(s.last() == s[s.len() - 1]);
    if r.len() > 0 {
        let k = if i < r.len() {
            i
        } else {
            0
        };
        law_highest_cost(r, k);
        assert(r[k] == s[k]);
        let j = choose|j: int| 0 <= j < r.len() && (#[trigger] r[j]).1.min_cost() == highest_cost(r);
        assert(s[j] == r[j]);
    }
}

/// A peer is due when nothing is under way with it, its time has come and
/// there is something that it was not offered.
pub proof fn law_due_peers(p: Peer, now: u64, newest: u64)
    ensures
        is_due(p, now, newest) <==> p.state == SyncPhase::Idle && p.next_sync_attempt <= now
            && p.cursor < newest,
{
}

/// The peer that is due next is due, and where none is found none is.
pub proof fn law_next_due(
    s: Seq<([u8; 16], Peer)>,
    last: Option<[u8; 16]>,
    now: u64,
    newest: u64,
    r: Option<[u8; 16]>,
    i: int,
)
    requires
        first_due(s, last, now, newest, r),
        0 <= i < s.len(),
    ensures
        r is None ==> !is_due(s[i].1, now, newest),
        r matches Some(h) ==> exists|j: int|
            0 <= j < s.len() && (#[trigger] s[j]).0 == h && is_due(s[j].1, now, newest),
{
    if let Some(h) = r {
        let (start, j) = choose|start: int, j: int| #[trigger]
            crate::peering::due_at(s, last, now, newest, start, j) && s[place(
                start,
                j,
                s.len() as int,
            )].0 == h;
        let k = place(start, j, s.len() as int);
        assert(s[k].0 == h);
        assert(0 <= start <= s.len());
        assert(0 <= k < s.len());
    }
}

/// What is stored of a peer is who it is, its keys, its figures, its times and
/// its cursor.
pub proof fn law_stored_peer(peer: Peer)
    ensures
        ({
            let r = record_of_peer(peer);
            &&& r.destination_hash == peer.destination_hash
            &&& r.identity_hash == peer.identity_hash
            &&& r.identity_keys == peer.identity_keys
            &&& r.peering_key == peer.peering_key
            &&& r.transfer_limit_kb == peer.transfer_limit_kb
            &&& r.sync_limit_kb == peer.sync_limit_kb
            &&& r.stamp_cost == peer.stamp_cost
            &&& r.stamp_cost_flexibility == peer.stamp_cost_flexibility
            &&& r.peering_cost == peer.peering_cost
            &&& r.peering_timebase == peer.peering_timebase
            &&& r.last_heard == peer.last_heard
            &&& r.cursor == peer.cursor
            &&& r.is_static == peer.is_static
        }),
{
}

/// A record that is taken back becomes a peer, static where it was or where the
/// configuration says so; the peers that no record is about stay.
pub proof fn law_restored_peers(
    config: PeeringConfig,
    peers: PeerMap,
    records: Seq<PeerRecord>,
    r: PeerRecord,
    other: [u8; 16],
)
    ensures
        ({
            let before = restored(config, peers, records);
            let next = restored(config, peers, records.push(r));
            let p = next[r.destination_hash];
            &&& next.contains_key(r.destination_hash)
            &&& record_of_peer(p) == (PeerRecord {
                is_static: r.is_static || config.static_peers@.contains(r.destination_hash),
                ..r
            })
            &&& p.state == SyncPhase::Idle
            &&& p.next_sync_attempt == 0
            &&& p.sync_backoff_secs == 0
            &&& other != r.destination_hash ==> next.contains_key(other) == before.contains_key(
                other,
            )
            &&& other != r.destination_hash && before.contains_key(other) ==> next[other]
                == before[other]
            &&& restored(config, peers, Seq::empty()) == peers
        }),
{
    assert(records.push(r).drop_last() =~= records);
}

/// Who may offer: a static peer that is not throttled always may; another only
/// while no stamps are checked and not too many syncs run, and only where not
/// static peers alone are served.
pub proof fn law_gate(
    config: PeeringConfig,
    until: Map<[u8; 16], u64>,
    remote: [u8; 16],
    now: u64,
    validating: bool,
    syncs: usize,
)
    ensures
        ({
            let fixed = config.static_peers@.contains(remote);
            let held_off = until.contains_key(remote) && now < until[remote];
            let busy = validating || (config.max_inbound_syncs > 0 && syncs
                >= config.max_inbound_syncs);
            let r = gate_answer(config, until, remote, now, validating, syncs);
            &&& r is Ok <==> !held_off && (fixed || (!busy && !config.from_static_only))
            &&& r matches Err(e) ==> (e == PeerError::Throttled <==> held_off || (!fixed && busy))
            &&& r matches Err(e) ==> e == PeerError::Throttled || e == PeerError::NoAccess
            &&& throttled_at(until, remote, now) <==> held_off
        }),
{
}

/// An offer is a list of the key and the identifiers.
pub proof fn law_offer_elements(
    d: Seq<u8>,
    n: nat,
    p: int,
    key: Seq<u8>,
    q: int,
    ids: Seq<Seq<u8>>,
    t: int,
)
    requires
        gives(msgpack::array_len_at(d, 0), n, p),
        gives(msgpack::bin_at(d, p), key, q),
        gives(crate::propagation::ids_at(d, q), ids, t),
    ensures
        offer_of(d) == if n < 2 {
            Err::<Offer, PropagationError>(PropagationError::InvalidLength)
        } else if key.len() != 32 {
            Err(PropagationError::InvalidLength)
        } else {
            Ok(Offer { key, ids })
        },
{
}

/// What is read as an offer is a key of 32 bytes and a list of identifiers
/// behind it.
pub proof fn law_offer_is_read(d: Seq<u8>)
    requires
        offer_of(d) is Ok,
    ensures
        ({
            let o = offer_of(d)->Ok_0;
            let (n, p) = msgpack::array_len_at(d, 0)->Ok_0;
            let q = msgpack::bin_at(d, p)->Ok_0.1;
            &&& msgpack::array_len_at(d, 0) is Ok
            &&& n >= 2
            &&& gives(msgpack::bin_at(d, p), o.key, q)
            &&& o.key.len() == 32
            &&& crate::propagation::ids_at(d, q) matches Ok((ids, _)) && ids == o.ids
        }),
{
}

/// A written offer is a list of two: the key, then the identifiers.
pub proof fn law_offer_layout(o: Offer)
    ensures
        offer_bytes(o) == seq![0x92u8] + msgpack::bin_bytes(o.key)
            + crate::propagation::bins_bytes(o.ids),
{
    reveal(msgpack::array_header);
}

/// No is none of them, yes is all of them, a list is some of them, and a number
/// is an error.
pub proof fn law_answer_forms(a: Answer, d: Seq<u8>)
    requires
        0 < d.len() <= usize::MAX,
    ensures
        a is WantNone ==> answer_bytes(a) == seq![0xc2u8],
        a is WantAll ==> answer_bytes(a) == seq![0xc3u8],
        a matches Answer::Wanted(ids) ==> answer_bytes(a) == crate::propagation::bins_bytes(ids),
        a matches Answer::Error(e) ==> answer_bytes(a) == msgpack::uint_bytes(e.spec_code() as nat),
        d[0] == 0xc2 ==> answer_of(d) == Ok::<Answer, PropagationError>(Answer::WantNone),
        d[0] == 0xc3 ==> answer_of(d) == Ok::<Answer, PropagationError>(Answer::WantAll),
        0x90 <= d[0] <= 0x9f ==> (crate::propagation::ids_at(d, 0) matches Ok((ids, _))
            ==> answer_of(d) == Ok::<Answer, PropagationError>(Answer::Wanted(ids))),
        d[0] == 0xcc ==> (crate::propagation::peer_error_at(d, 0) matches Ok((e, _)) ==> answer_of(d)
            == Ok::<Answer, PropagationError>(Answer::Error(e))),
{
    reveal(msgpack::kind_of);
}

/// A sync is the time and the messages.
pub proof fn law_batch_elements(
    d: Seq<u8>,
    n: nat,
    p: int,
    timestamp: u64,
    q: int,
    messages: Seq<Seq<u8>>,
    t: int,
)
    requires
        gives(msgpack::array_len_at(d, 0), n, p),
        gives(msgpack::number_bits_at(d, p), timestamp, q),
        gives(crate::propagation::values_at(d, q), messages, t),
    ensures
        batch_of(d) == if n == 2 {
            Ok::<SyncBatch, PropagationError>(SyncBatch { timestamp, messages })
        } else {
            Err(PropagationError::InvalidLength)
        },
        ({
            let b = SyncBatch { timestamp, messages };
            batch_bytes(b) == seq![0x92u8] + msgpack::double_bytes(timestamp)
                + crate::propagation::bins_bytes(messages)
        }),
{
    reveal(msgpack::array_header);
}

/// What is wanted of an offer is what is not held: a list of it, or the short
/// forms for nothing and everything.
pub proof fn law_membership(ids: Seq<TransientId>, held: Seq<bool>, i: int)
    requires
        ids.len() == held.len(),
        0 <= i < ids.len(),
    ensures
        ({
            let a = membership_answer(ids, held);
            &&& a is WantNone ==> held[i]
            &&& a is WantAll ==> !held[i]
            &&& a matches Answer::Wanted(w) ==> (!held[i] ==> w.contains(ids[i]@))
            &&& !(a is Error)
            &&& (forall|j: int| 0 <= j < held.len() ==> #[trigger] held[j]) ==> a is WantNone
            &&& (forall|j: int| 0 <= j < held.len() ==> !(#[trigger] held[j])) ==> a is WantAll
        }),
{
    let w = lacking(ids, held);
    lemma_lacking_len(ids, held);
    if !held[i] {
        crate::peering::law_lacking(ids, held, i);
        let j = choose|j: int| 0 <= j < w.len() && w[j] == ids[i];
        assert(crate::propagation::ids_view(w)[j] == ids[i]@);
    }
}

proof fn lemma_lacking_len(ids: Seq<TransientId>, held: Seq<bool>)
    requires
        ids.len() <= held.len(),
    ensures
        lacking(ids, held).len() <= ids.len(),
        lacking(ids, held).len() == 0 ==> forall|j: int| 0 <= j < ids.len() ==> #[trigger] held[j],
        lacking(ids, held).len() == ids.len() ==> forall|j: int|
            0 <= j < ids.len() ==> !(#[trigger] held[j]),
        (forall|j: int| 0 <= j < ids.len() ==> #[trigger] held[j]) ==> lacking(ids, held).len()
            == 0,
        (forall|j: int| 0 <= j < ids.len() ==> !(#[trigger] held[j])) ==> lacking(ids, held).len()
            == ids.len(),
    decreases ids.len(),
{
    if ids.len() > 0 {
        lemma_lacking_len(ids.drop_last(), held);
    }
}

/// Nothing that is held is asked for.
pub proof fn law_held_is_not_wanted(ids: Seq<TransientId>, held: Seq<bool>, id: TransientId)
    requires
        ids.len() == held.len(),
        forall|i: int| 0 <= i < ids.len() && #[trigger] ids[i] == id ==> held[i],
    ensures
        !lacking(ids, held).contains(id),
{
    lemma_held_is_not_wanted(ids, held, id);
}

proof fn lemma_held_is_not_wanted(ids: Seq<TransientId>, held: Seq<bool>, id: TransientId)
    requires
        ids.len() <= held.len(),
        forall|i: int| 0 <= i < ids.len() && #[trigger] ids[i] == id ==> held[i],
    ensures
        !lacking(ids, held).contains(id),
    decreases ids.len(),
{
    if ids.len() > 0 {
        let r = ids.drop_last();
        assert forall|i: int| 0 <= i < r.len() && #[trigger] r[i] == id implies held[i] by {
            assert(ids[i] == id);
        }
        lemma_held_is_not_wanted(r, held, id);
        let less = lacking(r, held);
        let all = lacking(ids, held);
        assert(ids[ids.len() - 1] == ids.last());
        if all.contains(id) {
            let j = choose|j: int| 0 <= j < all.len() && all[j] == id;
            if j < less.len() {
                assert(less[j] == id);
            }
        }
    }
}

/// What a plan offers was stored above the cursor, has a stamp that the peer
/// takes and a size within its limit per transfer.
pub proof fn law_offered_messages(
    peer: Peer,
    entries: Seq<StoredMessage>,
    budget: int,
    n: nat,
    i: int,
)
    requires
        n <= entries.len(),
        0 <= i < planning(peer, entries, budget, n).ids.len(),
    ensures
        exists|j: int|
            0 <= j < n && (#[trigger] entries[j]).transient_id == planning(
                peer,
                entries,
                budget,
                n,
            ).ids[i] && entries[j].sequence > peer.cursor && entries[j].stamp_value
                >= peer.min_cost() && entries[j].size + 16 <= peer.transfer_limit_kb * 1000,
    decreases n,
{
    let s = planning(peer, entries, budget, n);
    let r = planning(peer, entries, budget, (n - 1) as nat);
    let e = entries[n - 1];
    if i < r.ids.len() {
        law_offered_messages(peer, entries, budget, (n - 1) as nat, i);
        assert(s.ids[i] == r.ids[i]);
        let j = choose|j: int|
            0 <= j < n - 1 && (#[trigger] entries[j]).transient_id == r.ids[i]
                && entries[j].sequence > peer.cursor && entries[j].stamp_value >= peer.min_cost()
                && entries[j].size + 16 <= peer.transfer_limit_kb * 1000;
        assert(entries[j].transient_id == s.ids[i]);
    } else {
        assert(entries[n - 1].transient_id == s.ids[i]);
    }
}

/// A message that the peer takes, and that fits, is offered; one that it never
/// takes is stepped past and counted; the first that does not fit ends the
/// plan.
pub proof fn law_plan_step(peer: Peer, entries: Seq<StoredMessage>, budget: int, n: nat)
    requires
        n < entries.len(),
    ensures
        ({
            let s = planning(peer, entries, budget, n);
            let next = planning(peer, entries, budget, n + 1);
            let e = entries[n as int];
            let cheap = e.stamp_value < peer.min_cost();
            let big = e.size + 16 > if peer.transfer_limit_kb * 1000 <= u64::MAX {
                peer.transfer_limit_kb * 1000
            } else {
                u64::MAX as int
            };
            let full = s.charged + e.size + 16 >= (if peer.sync_limit_kb * 1000 <= u64::MAX {
                peer.sync_limit_kb * 1000
            } else {
                u64::MAX as int
            }) || offer_len(s.ids.len() + 1) > budget;
            &&& s.stopped || e.sequence <= peer.cursor ==> next == s
            &&& !s.stopped && e.sequence > peer.cursor ==> {
                &&& cheap ==> next.low == s.low + 1 && next.oversize == s.oversize && next.ids
                    == s.ids && next.target == e.sequence && next.charged == s.charged
                    && !next.stopped
                &&& !cheap && big ==> next.oversize == s.oversize + 1 && next.low == s.low
                    && next.ids == s.ids && next.target == e.sequence && next.charged == s.charged
                    && !next.stopped
                &&& !cheap && !big && full ==> next.stopped && next.ids == s.ids && next.target
                    == s.target && next.low == s.low && next.oversize == s.oversize
                &&& !cheap && !big && !full ==> next.ids == s.ids.push(e.transient_id)
                    && next.target == e.sequence && next.charged == s.charged + e.size + 16
                    && next.low == s.low && next.oversize == s.oversize && !next.stopped
            }
            &&& planning(peer, entries, budget, 0).charged == 24
            &&& planning(peer, entries, budget, 0).ids.len() == 0
            &&& planning(peer, entries, budget, 0).target == peer.cursor
        }),
{
}

/// Sixteen bytes are charged for each message beside its own, and 24 for all.
pub proof fn law_charge(messages: Seq<Seq<u8>>, m: Seq<u8>)
    ensures
        charged(messages.push(m)) == charged(messages) + m.len() + 16,
        charged(Seq::empty()) == 24,
{
    assert(messages.push(m).drop_last() =~= messages);
}

/// An answer to an offer leads to what it says: everything, some or nothing is
/// sent, and an error leads to a pause, an end or another key.
pub proof fn law_answers_lead_to_actions(
    response: OfferResponse,
    offered: Seq<TransientId>,
    r: ResponseAction,
)
    requires
        action_fits(response, offered, r),
    ensures
        response is WantNone ==> r is Concluded,
        response is WantAll ==> r is SendMessages && r->SendMessages_0@ == offered,
        response is Wanted && r is SendMessages ==> {
            &&& r->SendMessages_0@.len() > 0
            &&& r->SendMessages_0@ == granted(offered, response->Wanted_0@)
        },
        response is Wanted && !(r is SendMessages) ==> r is Concluded && granted(
            offered,
            response->Wanted_0@,
        ).len() == 0,
        response matches OfferResponse::Error(e) ==> {
            &&& e == PeerError::Throttled <==> r == ResponseAction::Backoff(180)
            &&& e == PeerError::NoAccess <==> r is Unpeer
            &&& e == PeerError::InvalidKey <==> r is RemineKey
            &&& !(r is SendMessages) && !(r is Concluded)
        },
{
}

/// A peering key counts where it is worth the cost; one that is not is dropped.
pub proof fn law_key_ready(before: Peer, after: Peer, r: bool)
    requires
        key_ready(before, after, r),
    ensures
        r <==> before.peering_key is Some && before.peering_key->Some_0.1 >= before.peering_cost,
        r ==> after == before,
        !r ==> after.peering_key is None,
        after.cursor == before.cursor,
        after.destination_hash == before.destination_hash,
        after.peering_cost == before.peering_cost,
{
}

/// The identity of a peer is recorded, and whether that was news.
pub proof fn law_identity_captured(
    before: Peer,
    after: Peer,
    identity_hash: [u8; 16],
    identity_keys: [u8; 64],
    r: bool,
)
    requires
        identity_captured(before, after, identity_hash, identity_keys, r),
    ensures
        after.identity_hash == Some(identity_hash),
        after.identity_keys == Some(identity_keys),
        !r ==> before.identity_hash == Some(identity_hash) && before.identity_keys == Some(
            identity_keys,
        ),
        before.identity_hash == Some(identity_hash) && before.identity_keys == Some(identity_keys)
            ==> !r,
        after.cursor == before.cursor,
        after.peering_key == before.peering_key,
        after.destination_hash == before.destination_hash,
        after.stamp_cost == before.stamp_cost,
{
}

/// A peer that is throttled stays so; any other is free after it was asked.
pub proof fn law_gated(
    config: PeeringConfig,
    before: Map<[u8; 16], u64>,
    after: Map<[u8; 16], u64>,
    remote: [u8; 16],
    now: u64,
    validating_stamps: bool,
    inbound_syncs: usize,
    r: Result<(), PeerError>,
    other: [u8; 16],
)
    requires
        gated(config, before, after, remote, now, validating_stamps, inbound_syncs, r),
        other != remote,
    ensures
        r == Err::<(), PeerError>(PeerError::Throttled) ==> after == before,
        r != Err::<(), PeerError>(PeerError::Throttled) ==> !after.contains_key(remote),
        after.contains_key(other) == before.contains_key(other),
        before.contains_key(other) ==> after[other] == before[other],
        r == gate_answer(config, before, remote, now, validating_stamps, inbound_syncs),
{
}

/// An offer is made where there is something to offer, or where the cursor
/// moves on over what is not to be offered.
pub proof fn law_offering(
    peer: Peer,
    entries: Seq<StoredMessage>,
    budget: int,
    r: Option<OfferPlan>,
)
    requires
        offering(peer, entries, budget, r),
    ensures
        ({
            let s = planning(peer, entries, budget, entries.len());
            &&& r is Some <==> s.ids.len() > 0 || s.target != peer.cursor
            &&& r is Some ==> r->Some_0.ids@ == s.ids && r->Some_0.cursor_target == s.target
                && r->Some_0.skipped_oversize == s.oversize && r->Some_0.skipped_low_value == s.low
        }),
{
}

/// Peers take turns: the next one is the first that is due in the order of
/// their destinations behind the last one, going round at the end. No due peer
/// is passed over.
pub proof fn law_peers_take_turns(
    s: Seq<([u8; 16], Peer)>,
    last: Option<[u8; 16]>,
    now: u64,
    newest: u64,
    h: [u8; 16],
    i: int,
)
    requires
        first_due(s, last, now, newest, Some(h)),
        crate::bytemap::ascending(s),
        0 <= i < s.len(),
        is_due(s[i].1, now, newest),
    ensures
        exists|k: int|
            0 <= k < s.len() && (#[trigger] s[k]).0 == h && is_due(s[k].1, now, newest)
                && match last {
                None => k <= i,
                Some(pivot) => if crate::bytemap::below(pivot@, s[k].0@) {
                    crate::bytemap::below(pivot@, s[i].0@) ==> k <= i
                } else {
                    !crate::bytemap::below(pivot@, s[i].0@) && k <= i
                },
            },
{
    let n = s.len() as int;
    let (start, j) = choose|start: int, j: int| #[trigger]
        crate::peering::due_at(s, last, now, newest, start, j) && s[place(start, j, n)].0 == h;
    let k = place(start, j, n);
    assert(s[k].0 == h);
    assert(0 <= start < n);
    let m = if i >= start {
        i - start
    } else {
        i - start + n
    };
    assert(place(start, m, n) == i);
    assert(j <= m);
    if let Some(pivot) = last {
        assert forall|x: int|
            start <= x < n && crate::bytemap::below(
                pivot@,
                s[start].0@,
            ) implies #[trigger] crate::bytemap::below(pivot@, s[x].0@) by {
            if x > start {
                assert(crate::bytemap::below(s[start].0@, s[x].0@));
                crate::bytemap::lemma_below_transitive(pivot@, s[start].0@, s[x].0@);
            }
        }
    }
}

/// What an offer may take of a packet: 28 bytes are for the request around it,
/// and an offer never has more than 6144.
pub proof fn law_offer_budget(mdu: int)
    requires
        mdu >= 0,
    ensures
        offer_budget(mdu) <= 6144,
        mdu <= 28 ==> offer_budget(mdu) == 0,
        28 <= mdu <= 6172 ==> offer_budget(mdu) + 28 == mdu,
        mdu >= 6172 ==> offer_budget(mdu) == 6144,
{
}

/// To a stranger a sync is what an announce is that was heard at the same
/// distance.
pub proof fn law_sync_is_like_an_announce(
    config: PeeringConfig,
    peers: PeerMap,
    hash: [u8; 16],
    a: NodeAnnounce,
    hops: Option<u8>,
    now: u64,
)
    requires
        !peers.contains_key(hash),
    ensures
        sync_taken(config, peers, hash, a, hops, now) == announce_taken(
            config,
            peers,
            hash,
            a,
            hops,
            now,
            false,
        ),
{
}

/// Why a stranger is declined: it asks too much work, is switched off, peering
/// with strangers is, or it is too far away. None of these but the first
/// counts against a static peer.
pub proof fn law_reasons_to_decline(
    config: PeeringConfig,
    peers: PeerMap,
    hash: [u8; 16],
    a: NodeAnnounce,
    hops: Option<u8>,
    now: u64,
)
    requires
        !peers.contains_key(hash),
    ensures
        ({
            let change = announce_taken(config, peers, hash, a, hops, now, false).0;
            let fixed = config.static_peers@.contains(hash);
            let dear = a.peering_cost > config.remote_peering_cost_max;
            let far = match hops {
                Some(h) => h > config.autopeer_maxdepth,
                None => config.autopeer_maxdepth < 255,
            };
            &&& change == PeerChange::Declined(DeclineReason::CostTooHigh) <==> dear
            &&& change == PeerChange::Declined(DeclineReason::Disabled) <==> !dear && !fixed
                && !a.enabled
            &&& change == PeerChange::Declined(DeclineReason::AutopeerOff) <==> !dear && !fixed
                && a.enabled && !config.autopeer
            &&& change == PeerChange::Declined(DeclineReason::TooDeep) <==> !dear && !fixed
                && a.enabled && config.autopeer && far
        }),
{
}

} // verus!
