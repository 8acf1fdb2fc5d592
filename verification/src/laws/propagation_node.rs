//! The propagation node: what is stored, listed, served, expired and evicted.
use vstd::prelude::*;

use crate::ieee;
use crate::msgpack;
use crate::propagation::{MessageGetRequest, PropagationError, TransferLimit, TransientId};
use crate::propagation_node::{
    age, answered, available, capped, cleaned, displaced, displaces, evicted_ids, eviction, expired,
    fetch_len, fetch_limit, fetched, framed_total, ids_of, ingested, jumped, lightness, listed,
    mailbox, outlived, overdue, ranked, recapped, received, received_stamped, recent, remembered,
    served_total, serving, sized, spans, unstamped, weight, without, Eviction, EvictionReason,
    FetchPlan, GetError, GetOutcome, PropagationNode, PropagationNodeConfig, UploadOutcome,
};
use crate::propagation_store::{PropagationStore, Record, StoredMessage};
use crate::serve_cost;
use crate::stable;
use crate::storage::StorageError;

use super::ieee::{law_thousandfold, lemma_not_rounded};

verus! {

// ---------------------------------------------------------------------------
// Fetches
// ---------------------------------------------------------------------------

/// What the node allows for one fetch is its sync limit, or its cap where that
/// is lower; no request raises it.
pub proof fn law_own_limit(config: PropagationNodeConfig, limit: Option<TransferLimit>)
    ensures
        fetch_limit(config, None) <= config.sync_limit_kb * 1000,
        config.serve_cap_bytes is Some ==> fetch_limit(config, None)
            <= config.serve_cap_bytes->Some_0,
        fetch_limit(config, None) == config.sync_limit_kb * 1000 || Some(
            fetch_limit(config, None) as usize,
        ) == config.serve_cap_bytes,
        0 <= fetch_limit(config, limit) <= fetch_limit(config, None),
{
}

/// A limit in whole kilobytes is kept: no more than a thousand times as many
/// bytes are served, and as many where the node allows it.
pub proof fn law_integer_limit(config: PropagationNodeConfig, kb: u64)
    ensures
        ({
            let r = fetch_limit(config, Some(TransferLimit::Integer(kb)));
            let own = fetch_limit(config, None);
            &&& r <= kb * 1000
            &&& kb * 1000 <= own ==> r == kb * 1000
            &&& own <= kb * 1000 ==> r == own
        }),
{
}

/// A limit that is a finite number of kilobytes, whole or not, is kept: the
/// limit in bytes is at most `a` where a thousand times the number is, and
/// reaches `a` where that does and the node allows it. `2^52` bytes are more
/// than any store holds.
pub proof fn law_float_limit(config: PropagationNodeConfig, bits: u64, a: nat)
    requires
        ieee::finite(bits),
        !ieee::is_negative(bits),
        a <= ieee::p2(52),
    ensures
        ({
            let r = fetch_limit(config, Some(TransferLimit::Float(bits)));
            let own = fetch_limit(config, None);
            &&& 1000 * ieee::magnitude(bits) <= a * ieee::p2(1074) ==> r <= a
            &&& 1000 * ieee::magnitude(bits) >= a * ieee::p2(1074) && a <= own ==> r >= a
            &&& 1000 * ieee::magnitude(bits) >= a * ieee::p2(1074) && own <= a ==> r == own
        }),
{
    law_thousandfold(bits, a);
}

/// A whole number of kilobytes is the same limit as an integer and as a float
/// of that value.
pub proof fn law_limit_forms_agree(config: PropagationNodeConfig, kb: u64, bits: u64)
    requires
        ieee::finite(bits),
        !ieee::is_negative(bits),
        ieee::magnitude(bits) == kb * ieee::p2(1074),
        kb * 1000 <= ieee::p2(52) || fetch_limit(config, None) <= ieee::p2(52),
    ensures
        fetch_limit(config, Some(TransferLimit::Float(bits))) == fetch_limit(
            config,
            Some(TransferLimit::Integer(kb)),
        ),
        fetch_limit(config, Some(TransferLimit::Float(bits))) <= kb * 1000,
{
    let x = ieee::p2(1074) as int;
    let k = kb as int;
    let top = ieee::p2(52) as int;
    assert(1000 * (k * x) == (k * 1000) * x) by (nonlinear_arith);
    if kb * 1000 <= ieee::p2(52) {
        law_thousandfold(bits, (kb * 1000) as nat);
    } else {
        law_thousandfold(bits, ieee::p2(52));
        ieee::lemma_p2_pos(1074);
        assert((k * 1000) * x >= top * x) by (nonlinear_arith)
            requires
                k * 1000 >= top,
                x >= 0,
        ;
    }
}

/// A response that carries messages is no longer than the client asks for: at
/// most a thousand bytes for each kilobyte, whole or not.
pub proof fn law_response_is_within_request<S: PropagationStore>(
    before: PropagationNode<S>,
    after: PropagationNode<S>,
    request: MessageGetRequest,
    remote: [u8; 16],
    now: u64,
    plan: FetchPlan,
    purged: Vec<TransientId>,
    a: nat,
)
    requires
        answered(
            before,
            after,
            request,
            remote,
            now,
            Ok::<GetOutcome, GetError>(GetOutcome::Fetch { plan, purged }),
        ),
        plan.served().len() > 0,
    ensures
        fetch_len(plan.served()) <= before.conf().sync_limit_kb * 1000,
        match request.transfer_limit_kb {
            Some(TransferLimit::Integer(kb)) => fetch_len(plan.served()) <= kb * 1000,
            Some(TransferLimit::Float(bits)) => ieee::finite(bits) && a <= ieee::p2(52) && 1000
                * ieee::magnitude(bits) <= a * ieee::p2(1074) ==> fetch_len(plan.served()) <= a,
            None => true,
        },
{
    let limit = fetch_limit(before.conf(), request.transfer_limit_kb);
    let owned = without(mailbox(before.stored().records(), remote), purged@);
    crate::propagation_node::law_response_within_limit(ids_of(request.wants), owned, limit);
    law_own_limit(before.conf(), request.transfer_limit_kb);
    if let Some(TransferLimit::Float(bits)) = request.transfer_limit_kb {
        if ieee::finite(bits) && !ieee::is_negative(bits) && a <= ieee::p2(52) {
            law_float_limit(before.conf(), bits, a);
        }
    }
}

/// A negative limit asks for nothing; what is no number asks for nothing in
/// particular.
pub proof fn law_odd_limits(config: PropagationNodeConfig, bits: u64)
    ensures
        ieee::nan(bits) ==> fetch_limit(config, Some(TransferLimit::Float(bits))) == fetch_limit(
            config,
            None,
        ),
        !ieee::nan(bits) && ieee::is_negative(bits) ==> fetch_limit(
            config,
            Some(TransferLimit::Float(bits)),
        ) == 0,
        !ieee::nan(bits) && !ieee::is_negative(bits) && !ieee::finite(bits) ==> fetch_limit(
            config,
            Some(TransferLimit::Float(bits)),
        ) == fetch_limit(config, None),
{
}

/// A wanted message of the mailbox is served where it fits: its size and 16
/// bytes, on top of 24 for the whole. It goes out without the 32 bytes of its
/// stamp. One that does not fit, or is not there, is passed over.
pub proof fn law_serving_step(
    wants: Seq<TransientId>,
    id: TransientId,
    owned: Map<TransientId, u32>,
    limit: int,
)
    ensures
        ({
            let s = serving(wants, owned, limit);
            let n = serving(wants.push(id), owned, limit);
            let fits = s.left.contains_key(id) && s.left[id] >= 32 && s.charged + s.left[id] + 16
                <= limit;
            &&& fits ==> {
                &&& n.served.len() == s.served.len() + 1
                &&& n.served.take(s.served.len() as int) == s.served
                &&& n.served.last().0 == id
                &&& n.served.last().1 + 32 == s.left[id]
                &&& !n.left.contains_key(id)
                &&& n.charged == s.charged + s.left[id] + 16
            }
            &&& !fits ==> n == s
            &&& forall|o: TransientId|
                o != id ==> (#[trigger] n.left.contains_key(o) == s.left.contains_key(o)) && (
                s.left.contains_key(o) ==> n.left[o] == s.left[o])
            &&& serving(Seq::empty(), owned, limit).charged == 24
            &&& serving(Seq::empty(), owned, limit).left == owned
            &&& serving(Seq::empty(), owned, limit).served.len() == 0
        }),
{
    assert(wants.push(id).drop_last() =~= wants);
    let s = serving(wants, owned, limit);
    let n = serving(wants.push(id), owned, limit);
    assert(n.served.take(s.served.len() as int) =~= s.served);
}

/// The mailbox of a destination is what is stored for it.
pub proof fn law_mailbox(
    records: Map<TransientId, Record>,
    remote: [u8; 16],
    id: TransientId,
)
    ensures
        mailbox(records, remote).contains_key(id) <==> records.contains_key(id)
            && records[id].meta.destination_hash == remote,
        mailbox(records, remote).contains_key(id) ==> mailbox(records, remote)[id]
            == records[id].meta.size,
{
}

proof fn lemma_sized(list: Seq<StoredMessage>, remote: [u8; 16], size: u128, id: TransientId)
    ensures
        sized(list, remote).contains((size, id)) <==> exists|i: int|
            0 <= i < list.len() && (#[trigger] list[i]).destination_hash == remote
                && list[i].transient_id == id && list[i].size == size,
    decreases list.len(),
{
    if list.len() > 0 {
        let r = list.drop_last();
        lemma_sized(r, remote, size, id);
        let less = sized(r, remote);
        let all = sized(list, remote);
        let n = list.len() - 1;
        assert(list.last() == list[n]);
        if less.contains((size, id)) {
            let i = choose|i: int|
                0 <= i < r.len() && (#[trigger] r[i]).destination_hash == remote
                    && r[i].transient_id == id && r[i].size == size;
            assert(list[i] == r[i]);
            let j = choose|j: int| 0 <= j < less.len() && less[j] == (size, id);
            assert(all[j] == (size, id));
        }
        if all.contains((size, id)) && !less.contains((size, id)) {
            let j = choose|j: int| 0 <= j < all.len() && all[j] == (size, id);
            if j < less.len() {
                assert(less[j] == (size, id));
            }
            assert(list[n].transient_id == id);
        }
        if exists|i: int|
            0 <= i < list.len() && (#[trigger] list[i]).destination_hash == remote
                && list[i].transient_id == id && list[i].size == size {
            let i = choose|i: int|
                0 <= i < list.len() && (#[trigger] list[i]).destination_hash == remote
                    && list[i].transient_id == id && list[i].size == size;
            if i < n {
                assert(r[i] == list[i]);
            } else {
                assert(all[all.len() - 1] == (size, id));
            }
        }
    }
}

/// A list holds the messages of the destination and no others, the smallest
/// first.
pub proof fn law_listed(list: Seq<StoredMessage>, remote: [u8; 16], i: int, j: int, k: int)
    ensures
        0 <= k < list.len() && list[k].destination_hash == remote ==> listed(
            list,
            remote,
        ).contains(list[k].transient_id),
        0 <= i < j < listed(list, remote).len() ==> exists|a: int, b: int|
            0 <= a < list.len() && 0 <= b < list.len() && (#[trigger] list[a]).transient_id
                == listed(list, remote)[i] && (#[trigger] list[b]).transient_id == listed(
                list,
                remote,
            )[j] && list[a].destination_hash == remote && list[b].destination_hash == remote
                && list[a].size <= list[b].size,
{
    let s = sized(list, remote);
    let t = stable::sorted(s);
    let out = listed(list, remote);
    stable::law_sorted_by_key(s);
    stable::law_sorted_permutes(s);
    if 0 <= k < list.len() && list[k].destination_hash == remote {
        let e = (list[k].size as u128, list[k].transient_id);
        lemma_sized(list, remote, e.0, e.1);
        broadcast use vstd::seq_lib::group_to_multiset_ensures;

        assert(s.contains(e));
        assert(t.to_multiset().count(e) > 0);
        assert(t.contains(e));
        let p = choose|p: int| 0 <= p < t.len() && t[p] == e;
        assert(out[p] == e.1);
    }
    if 0 <= i < j < out.len() {
        stable::lemma_sorted_element(s, i);
        stable::lemma_sorted_element(s, j);
        lemma_sized(list, remote, t[i].0, t[i].1);
        lemma_sized(list, remote, t[j].0, t[j].1);
        let a = choose|a: int|
            0 <= a < list.len() && (#[trigger] list[a]).destination_hash == remote
                && list[a].transient_id == t[i].1 && list[a].size == t[i].0;
        let b = choose|b: int|
            0 <= b < list.len() && (#[trigger] list[b]).destination_hash == remote
                && list[b].transient_id == t[j].1 && list[b].size == t[j].0;
        assert(out[i] == t[i].1 && out[j] == t[j].1);
        assert(t[i].0 <= t[j].0);
        assert(list[a].transient_id == out[i] && list[b].transient_id == out[j]);
    }
}

/// A request without lists is answered with the mailbox; any other fetches.
/// Confirmed messages of the mailbox are deleted and remembered, and nothing
/// else is.
pub proof fn law_get_requests<S: PropagationStore>(
    before: PropagationNode<S>,
    after: PropagationNode<S>,
    request: MessageGetRequest,
    remote: [u8; 16],
    now: u64,
    r: Result<GetOutcome, GetError>,
    id: TransientId,
)
    requires
        answered(before, after, request, remote, now, r),
        before.stored().steady(),
    ensures
        ({
            let records = before.stored().records();
            let kept = after.stored().records();
            let listing = request.wants is None && request.haves is None;
            let told = request.haves is Some && request.haves->Some_0@.contains(id)
                && records.contains_key(id) && records[id].meta.destination_hash == remote;
            &&& r is Ok
            &&& r->Ok_0 is List <==> listing
            &&& kept.contains_key(id) <==> records.contains_key(id) && !told
            &&& kept.contains_key(id) ==> kept[id] == records[id]
            &&& told ==> after.handled().contains_key(id) && after.handled()[id] == now
            &&& !told ==> after.handled().contains_key(id) == before.handled().contains_key(id)
        }),
{
    let records = before.stored().records();
    let owned = mailbox(records, remote);
    crate::propagation_node::law_confirmed(ids_of(request.haves), owned);
}

/// What is served is in the mailbox and was wanted.
pub proof fn law_fetched_messages<S: PropagationStore>(
    before: PropagationNode<S>,
    after: PropagationNode<S>,
    request: MessageGetRequest,
    remote: [u8; 16],
    now: u64,
    plan: FetchPlan,
    purged: Vec<TransientId>,
    i: int,
)
    requires
        answered(
            before,
            after,
            request,
            remote,
            now,
            Ok::<GetOutcome, GetError>(GetOutcome::Fetch { plan, purged }),
        ),
        0 <= i < plan.served().len(),
    ensures
        ({
            let records = before.stored().records();
            let (id, len) = plan.served()[i];
            &&& request.wants is Some
            &&& request.wants->Some_0@.contains(id)
            &&& records.contains_key(id)
            &&& records[id].meta.destination_hash == remote
            &&& len + 32 == records[id].meta.size
            &&& !purged@.contains(id)
        }),
{
    let owned = without(mailbox(before.stored().records(), remote), purged@);
    crate::propagation_node::law_served_from_mailbox(
        ids_of(request.wants),
        owned,
        fetch_limit(before.conf(), request.transfer_limit_kb),
    );
}

/// A served message goes out as it was stored, without its last 32 bytes.
pub proof fn law_stamp_is_stripped(records: Map<TransientId, Record>, e: (TransientId, u32))
    requires
        available(records, e),
    ensures
        unstamped(records, e).len() + 32 == records[e.0].body.len(),
        records[e.0].body.subrange(0, records[e.0].body.len() - 32) == unstamped(records, e),
{
    assert(records[e.0].body.subrange(0, records[e.0].body.len() - 32) =~= unstamped(records, e));
}

/// The length of a response is the length of what it carries: each message with
/// its header, and the header of the list.
pub proof fn law_response_length(s: Seq<(TransientId, u32)>, e: (TransientId, u32))
    ensures
        framed_total(s.push(e)) == framed_total(s) + msgpack::bin_head(e.1 as nat).len() + e.1,
        served_total(s.push(e)) == served_total(s) + e.1,
        framed_total(Seq::empty()) == 0,
        served_total(Seq::empty()) == 0,
        fetch_len(Seq::empty()) == 1,
{
    assert(s.push(e).drop_last() =~= s);
    reveal(msgpack::array_header);
}

// ---------------------------------------------------------------------------
// Uploads
// ---------------------------------------------------------------------------

/// An upload with a bad stamp changes nothing, and the client is told so.
pub proof fn law_bad_stamp<S: PropagationStore>(
    before: PropagationNode<S>,
    after: PropagationNode<S>,
    message: Seq<u8>,
    stamp: Seq<u8>,
    id: TransientId,
    now: u64,
    r: UploadOutcome,
)
    requires
        ingested(before, after, message, stamp, id, now, None, r),
        before.conf().stamp_cost > before.conf().stamp_cost_flexibility,
    ensures
        after == before,
        r is InvalidStamp,
        r->reject@ == seq![0x91u8, 0xccu8, 0xf5u8],
{
    super::propagation::law_signal_layout(Seq::empty());
}

/// An upload that is taken in and was not known is stored as it came: its
/// message and its stamp, for the destination that it begins with, at the time
/// and with the value of its stamp.
pub proof fn law_stored_upload<S: PropagationStore>(
    before: PropagationNode<S>,
    after: PropagationNode<S>,
    message: Seq<u8>,
    stamp: Seq<u8>,
    id: TransientId,
    now: u64,
    verdict: Option<u16>,
    r: UploadOutcome,
)
    requires
        ingested(before, after, message, stamp, id, now, verdict, r),
        r is Accepted,
        !r->duplicate,
    ensures
        ({
            let kept = after.stored().records();
            let asked = before.conf().stamp_cost > before.conf().stamp_cost_flexibility
                || before.values_stamps();
            &&& kept.contains_key(id)
            &&& kept[id].body == message + stamp
            &&& kept[id].meta.transient_id == id
            &&& kept[id].meta.received_at == now
            &&& kept[id].meta.destination_hash@ == (message + stamp).subrange(0, 16)
            &&& asked && verdict is Some && verdict->Some_0 < 256 ==> kept[id].meta.stamp_value
                == verdict->Some_0
            &&& !asked ==> kept[id].meta.stamp_value == 0
            &&& r->transient_id == id
            &&& r->stamp_value == kept[id].meta.stamp_value
            &&& r->Accepted_destination_hash@ == (message + stamp).subrange(0, 16)
            &&& !before.handled().contains_key(id)
            &&& after.handled().contains_key(id)
            &&& after.handled()[id] == now
        }),
{
    let body = message + stamp;
    let kept = after.stored().records();
    assert(body.take(16) =~= body.subrange(0, 16));
}

/// On a steady store an upload is a duplicate exactly where its identifier is
/// known, and is stored where it fits.
pub proof fn law_uploads_on_a_steady_store<S: PropagationStore>(
    before: PropagationNode<S>,
    after: PropagationNode<S>,
    message: Seq<u8>,
    stamp: Seq<u8>,
    id: TransientId,
    now: u64,
    verdict: Option<u16>,
    r: UploadOutcome,
)
    requires
        ingested(before, after, message, stamp, id, now, verdict, r),
        before.stored().steady(),
        verdict is Some,
    ensures
        ({
            let known = before.handled().contains_key(id)
                || before.stored().records().contains_key(id);
            &&& known ==> r is Accepted && r->duplicate && after == before
            &&& !known && r is Accepted ==> !r->duplicate
            &&& !known && (message + stamp).len() <= before.stored().room() ==> r is Accepted
                && r->evicted@.len() == 0
            &&& r is Accepted || r == UploadOutcome::StoreFailed(StorageError::Full)
        }),
{
}

/// A value above 255 counts as 255.
pub proof fn law_stamp_values(v: u16)
    ensures
        v < 256 ==> capped(Some(v)) == v,
        v >= 256 ==> capped(Some(v)) == 255,
{
}

// ---------------------------------------------------------------------------
// Expiry and eviction
// ---------------------------------------------------------------------------

/// A message expires when it is older than its time, unless the calendar
/// jumped since it came.
pub proof fn law_expiry(m: StoredMessage, now: u64, expiry: u64, floor: u64)
    ensures
        floor == 0 ==> (overdue(m, now, expiry, floor) <==> now > m.received_at + expiry),
        floor > 0 && m.received_at <= floor && now > floor ==> !overdue(m, now, expiry, floor),
        floor > 0 && m.received_at > floor ==> (overdue(m, now, expiry, floor) <==> now
            > m.received_at + expiry),
        age(m, now) == if now >= m.received_at {
            now - m.received_at
        } else {
            0
        },
{
}

/// An eviction tells which message, how large and how old.
pub proof fn law_eviction(m: StoredMessage, now: u64, reason: EvictionReason)
    ensures
        eviction(m, now, reason).transient_id == m.transient_id,
        eviction(m, now, reason).size == m.size,
        eviction(m, now, reason).reason == reason,
        m.received_at <= now ==> eviction(m, now, reason).age_secs + m.received_at == now,
{
}

/// For the first four days a message weighs its size.
pub proof fn law_young_weight(m: StoredMessage, now: u64)
    requires
        now <= m.received_at + 345_600,
    ensures
        weight(m, now) == m.size * ieee::p2(52),
{
    ieee::lemma_p2_values();
    let a = age(m, now) as nat;
    if a >= 1 {
        lemma_not_rounded(a, 0);
        assert(a * 1 == a);
    }
    let n = m.size as nat;
    if n >= 1 {
        lemma_not_rounded(n, 52);
    }
    assert(spans(m, now) == (ieee::p2(52), 0nat));
    let x = ieee::p2(52) as int;
    let y = n as int;
    assert(x * y == y * x) by (nonlinear_arith);
    assert(0 * x == 0) by (nonlinear_arith);
    assert(ieee::rounded(0) == 0);
    assert(ieee::p2(52) * n == n * ieee::p2(52));
    assert(ieee::rounded(ieee::p2(52) * n) == n * ieee::p2(52));
    let w = n * ieee::p2(52);
    assert(w * 1 == w);
}

/// After a multiple of four days a message weighs that multiple of its size.
pub proof fn law_old_weight(m: StoredMessage, now: u64, j: nat)
    requires
        2 <= j,
        now == m.received_at + j * 345_600,
        j * m.size < ieee::p2(53),
        j * 345_600 < ieee::p2(53),
    ensures
        weight(m, now) == j * m.size * ieee::p2(52),
{
    ieee::lemma_p2_values();
    let d: nat = 345_600;
    let a = age(m, now) as nat;
    assert(a == j * d);
    lemma_not_rounded(a, 0);
    assert(a * 1 == a);
    assert(a > d) by (nonlinear_arith)
        requires
            a == j * d,
            j >= 2,
            d == 345_600,
    ;
    assert(a / d == j) by (nonlinear_arith)
        requires
            a == j * d,
            d == 345_600,
    ;
    let l = ieee::log2(j);
    ieee::lemma_log2(j);
    assert(l <= 52) by {
        if l > 52 {
            ieee::lemma_p2_monotone(53, l);
            assert(j * 345_600 >= j);
        }
    }
    let w = ieee::p2((52 - l) as nat);
    let q = j * w;
    assert(ieee::nearest(a * w, d) == q) by {
        let x = j as int;
        let y = w as int;
        let z = d as int;
        assert((x * z) * y == (x * y) * z) by (nonlinear_arith);
        let n = (x * y) * z;
        assert(n / z == x * y && n % z == 0) by (nonlinear_arith)
            requires
                n == (x * y) * z,
                z == 345_600,
        ;
    }
    assert(spans(m, now) == (q, l));
    let s = m.size as nat;
    let x = j as int;
    let y = w as int;
    let z = s as int;
    let e = ieee::p2(l) as int;
    ieee::lemma_p2_adds((52 - l) as nat, l);
    assert((52 - l) + l == 52);
    assert((x * y) * z == (x * z) * y) by (nonlinear_arith);
    if s >= 1 {
        assert(j * s >= 1) by (nonlinear_arith)
            requires
                j >= 2,
                s >= 1,
        ;
        lemma_not_rounded(j * s, (52 - l) as nat);
    } else {
        assert((x * 0) * y == 0) by (nonlinear_arith);
        assert(ieee::rounded(0) == 0);
    }
    assert(((x * z) * y) * e == (x * z) * (y * e)) by (nonlinear_arith);
}

/// Messages are dropped from the front of the ranking, as long as room is
/// short and no longer.
pub proof fn law_displacing(
    order: Seq<Eviction>,
    records: Map<TransientId, Record>,
    room: int,
    needed: int,
    n: nat,
)
    requires
        n < order.len(),
    ensures
        ({
            let (gone, free) = displaced(order, records, room, needed, n);
            let (more, left) = displaced(order, records, room, needed, n + 1);
            let e = order[n as int];
            let there = records.contains_key(e.transient_id) && !evicted_ids(gone).contains(
                e.transient_id,
            );
            &&& free >= needed ==> more == gone && left == free
            &&& free < needed && there ==> more == gone.push(e) && left == free
                + records[e.transient_id].body.len()
            &&& free < needed && !there ==> more == gone && left == free
            &&& displaced(order, records, room, needed, 0) == (Seq::<Eviction>::empty(), room)
        }),
{
}

/// The ranking holds every message of the directory, the heavier before the
/// lighter.
pub proof fn law_ranking(list: Seq<StoredMessage>, now: u64, i: int, j: int, k: int)
    ensures
        ranked(list, now).len() == list.len(),
        0 <= k < list.len() ==> ranked(list, now).contains(
            eviction(list[k], now, EvictionReason::Displaced),
        ),
        0 <= i < j < ranked(list, now).len() ==> exists|a: int, b: int|
            0 <= a < list.len() && 0 <= b < list.len() && eviction(
                #[trigger] list[a],
                now,
                EvictionReason::Displaced,
            ) == ranked(list, now)[i] && eviction(
                #[trigger] list[b],
                now,
                EvictionReason::Displaced,
            ) == ranked(list, now)[j] && weight(list[a], now) >= weight(list[b], now),
{
    let all = list.map_values(
        |m: StoredMessage| (lightness(m, now), eviction(m, now, EvictionReason::Displaced)),
    );
    let t = stable::sorted(all);
    let out = ranked(list, now);
    stable::law_sorted_by_key(all);
    stable::law_sorted_permutes(all);
    if 0 <= k < list.len() {
        broadcast use vstd::seq_lib::group_to_multiset_ensures;

        let e = all[k];
        assert(all.contains(e));
        assert(t.to_multiset().count(e) > 0);
        assert(t.contains(e));
        let p = choose|p: int| 0 <= p < t.len() && t[p] == e;
        assert(out[p] == e.1);
    }
    if 0 <= i < j < out.len() {
        stable::lemma_sorted_element(all, i);
        stable::lemma_sorted_element(all, j);
        let a = choose|a: int| 0 <= a < all.len() && all[a] == t[i];
        let b = choose|b: int| 0 <= b < all.len() && all[b] == t[j];
        assert(out[i] == t[i].1 && out[j] == t[j].1);
        assert(t[i].0 <= t[j].0);
        crate::propagation_node::law_heavier_goes_first(list[a], list[b], now);
        assert(eviction(list[a], now, EvictionReason::Displaced) == out[i]);
        assert(eviction(list[b], now, EvictionReason::Displaced) == out[j]);
    }
}

/// An identifier is remembered for 180 days.
pub proof fn law_remembered_identifiers(now: u64, id: TransientId, at: u64, ids: Seq<TransientId>, m: Map<TransientId, u64>)
    ensures
        recent(now)(id, at) <==> now <= at + 15_552_000,
        ids.contains(id) ==> remembered(m, ids, now).contains_key(id) && remembered(m, ids, now)[id]
            == now,
        !ids.contains(id) ==> remembered(m, ids, now).contains_key(id) == m.contains_key(id),
        !ids.contains(id) && m.contains_key(id) ==> remembered(m, ids, now)[id] == m[id],
{
}

/// A node announces its own figures, as an enabled node of today.
pub proof fn law_node_announce<S: PropagationStore>(node: PropagationNode<S>, now: u64)
    ensures
        ({
            let a = node.announced(now);
            &&& a.enabled
            &&& !a.legacy_support
            &&& a.timebase == now
            &&& a.transfer_limit_kb == node.conf().transfer_limit_kb
            &&& a.sync_limit_kb == node.conf().sync_limit_kb
            &&& a.stamp_cost == node.conf().stamp_cost
            &&& a.stamp_cost_flexibility == node.conf().stamp_cost_flexibility
            &&& a.peering_cost == node.conf().peering_cost
            &&& node.conf().name is None ==> a.metadata.len() == 0
            &&& node.conf().name is Some ==> a.metadata.len() == 1 && a.metadata[0].0 == 1
                && a.metadata[0].1 == msgpack::bin_bytes(node.conf().name->Some_0@)
        }),
        node.conf().stamp_cost >= node.conf().stamp_cost_flexibility ==> node.min_cost()
            + node.conf().stamp_cost_flexibility == node.conf().stamp_cost,
        node.conf().stamp_cost < node.conf().stamp_cost_flexibility ==> node.min_cost() == 0,
        node.asks_stamp() <==> node.min_cost() > 0 || node.values_stamps(),
{
}

// ---------------------------------------------------------------------------
// What serving costs
// ---------------------------------------------------------------------------

/// Of two numbers the smaller is one of them and no larger than either, and the
/// larger the other way round.
pub proof fn law_smaller_and_larger(a: int, b: int)
    ensures
        serve_cost::smaller(a, b) <= a && serve_cost::smaller(a, b) <= b,
        serve_cost::smaller(a, b) == a || serve_cost::smaller(a, b) == b,
        serve_cost::larger(a, b) >= a && serve_cost::larger(a, b) >= b,
        serve_cost::larger(a, b) == a || serve_cost::larger(a, b) == b,
{
}

/// A transfer is the response with 23 bytes in front, padded to blocks of 16 by
/// one byte at least, with 48 bytes around it.
pub proof fn law_transfer_size(cap: int)
    requires
        cap >= 0,
    ensures
        serve_cost::transfer(cap) % 16 == 0,
        cap + 23 + 48 < serve_cost::transfer(cap) <= cap + 23 + 48 + 16,
{
}

/// The parts cover the transfer, and each costs 40 bytes beside its own; what
/// is live at once is one record, the read buffer and the parts.
pub proof fn law_serving_cost(cap: int, sdu: int)
    requires
        cap >= 0,
        sdu > 0,
    ensures
        ({
            let n = serve_cost::part_count(cap, sdu);
            let t = serve_cost::transfer(cap);
            &&& (n - 1) * sdu < t <= n * sdu
            &&& serve_cost::parts(cap, sdu) == t + 40 * n
            &&& serve_cost::peak(cap, sdu) - serve_cost::parts(cap, sdu) == cap + if sdu < cap + 19 {
                sdu
            } else {
                cap + 19
            }
            &&& serve_cost::buffered_peak(cap, sdu) - serve_cost::parts(cap, sdu) == 4 * cap + 42 + t
            &&& serve_cost::largest_block(cap, sdu) >= cap
            &&& serve_cost::largest_block(cap, sdu) >= 40 + if t < sdu {
                t
            } else {
                sdu
            }
        }),
        serve_cost::peak(cap, 0) == serve_cost::peak(cap, 1),
{
    let n = serve_cost::part_count(cap, sdu);
    let t = serve_cost::transfer(cap);
    assert((n - 1) * sdu < t && t <= n * sdu) by (nonlinear_arith)
        requires
            n == (t + sdu - 1) / sdu,
            sdu > 0,
    ;
}

// ---------------------------------------------------------------------------
// Operations
// ---------------------------------------------------------------------------

/// A round of cleaning drops the messages that outlived their time and the
/// identifiers of half a year ago, and nothing else; each dropped message is
/// told.
pub proof fn law_cleaning<S: PropagationStore>(
    before: PropagationNode<S>,
    after: PropagationNode<S>,
    now: u64,
    r: Seq<Eviction>,
    id: TransientId,
    i: int,
)
    requires
        cleaned(before, after, now, r),
        before.stored().wf(),
    ensures
        after.handled().contains_key(id) <==> before.handled().contains_key(id) && now
            <= before.handled()[id] + 15_552_000,
        0 <= i < r.len() ==> r[i].reason == EvictionReason::Expired
            && before.stored().records().contains_key(r[i].transient_id)
            && !after.stored().records().contains_key(r[i].transient_id) && now
            > before.stored().records()[r[i].transient_id].meta.received_at
            + before.conf().message_expiry_secs,
        after.stored().records().contains_key(id) ==> before.stored().records().contains_key(id),
        after.conf() == before.conf(),
        before.stored().steady() && before.floor() == 0 ==> (after.stored().records().contains_key(
            id,
        ) <==> before.stored().records().contains_key(id) && now
            <= before.stored().records()[id].meta.received_at + before.conf().message_expiry_secs),
{
    let records = before.stored().records();
    let walk = before.stored().walk();
    before.stored().lemma_store_ok();
    if 0 <= i < r.len() {
        assert(outlived(records, r[i], now, before.conf().message_expiry_secs, before.floor()));
    }
    if before.stored().steady() && before.floor() == 0 {
        let list = crate::propagation_store::listing(records, walk);
        let expiry = before.conf().message_expiry_secs;
        if records.contains_key(id) {
            super::propagation_store::law_directory(records, walk, id, 0);
            assert(crate::propagation_store::record_ok(id, records[id]));
            let k = choose|k: int| 0 <= k < list.len() && list[k] == records[id].meta;
            law_overdue_is_dropped(list, now, expiry, 0, k);
        }
        if evicted_ids(r).contains(id) {
            let j = choose|j: int| 0 <= j < evicted_ids(r).len() && evicted_ids(r)[j] == id;
            assert(outlived(records, r[j], now, expiry, 0));
        } else if records.contains_key(id) && overdue(records[id].meta, now, expiry, 0) {
            let e = eviction(records[id].meta, now, EvictionReason::Expired);
            let j = choose|j: int| 0 <= j < r.len() && r[j] == e;
            assert(evicted_ids(r)[j] == id);
        }
    }
}

/// Every message of a directory that outlived its time is dropped.
pub proof fn law_overdue_is_dropped(
    list: Seq<StoredMessage>,
    now: u64,
    expiry: u64,
    floor: u64,
    k: int,
)
    requires
        0 <= k < list.len(),
    ensures
        overdue(list[k], now, expiry, floor) ==> expired(list, now, expiry, floor).contains(
            eviction(list[k], now, EvictionReason::Expired),
        ),
    decreases list.len(),
{
    let rest = expired(list.drop_last(), now, expiry, floor);
    let all = expired(list, now, expiry, floor);
    if overdue(list[k], now, expiry, floor) {
        let e = eviction(list[k], now, EvictionReason::Expired);
        if k == list.len() - 1 {
            assert(all[all.len() - 1] == e);
        } else {
            law_overdue_is_dropped(list.drop_last(), now, expiry, floor, k);
            assert(list.drop_last()[k] == list[k]);
            let j = choose|j: int| 0 <= j < rest.len() && rest[j] == e;
            assert(all[j] == e);
        }
    }
}

/// An upload of several messages is the form of a peer, one that cannot be read
/// is malformed, and neither changes anything; any other is taken in as the
/// message that it carries, under the digest of that message.
pub proof fn law_received_upload<
    S: PropagationStore,
    F: FnOnce(&TransientId, &[u8; 32]) -> Option<u16>,
>(
    before: PropagationNode<S>,
    after: PropagationNode<S>,
    envelope: Seq<u8>,
    now: u64,
    validate: F,
    r: UploadOutcome,
)
    requires
        received(before, after, envelope, now, validate, r),
    ensures
        ({
            let u = crate::propagation::upload_of(envelope);
            &&& u is Err ==> after == before
            &&& u is Err && u->Err_0 == PropagationError::MultipleMessages ==> r
                == UploadOutcome::PeerSyncForm
            &&& u is Err && u->Err_0 != PropagationError::MultipleMessages ==> r
                == UploadOutcome::Malformed(u->Err_0)
            &&& u is Ok && r is Accepted ==> r->transient_id@ == crate::hash::sha256(
                u->Ok_0.unstamped,
            )
            &&& u is Ok && r is Accepted && !r->duplicate ==> after.stored().records().contains_key(
                r->transient_id,
            ) && after.stored().records()[r->transient_id].body == u->Ok_0.unstamped
                + u->Ok_0.stamp && after.stored().records()[r->transient_id].meta.received_at == now
        }),
{
}

/// A stamped message from a peer has more than 144 bytes; its last 32 are the
/// stamp, and the digest of the rest names it.
pub proof fn law_received_message<
    S: PropagationStore,
    F: FnOnce(&TransientId, &[u8; 32]) -> Option<u16>,
>(
    before: PropagationNode<S>,
    after: PropagationNode<S>,
    stamped: Seq<u8>,
    now: u64,
    validate: F,
    r: UploadOutcome,
)
    requires
        received_stamped(before, after, stamped, now, validate, r),
    ensures
        stamped.len() <= 144 ==> after == before && r == UploadOutcome::Malformed(
            PropagationError::InvalidLength,
        ),
        stamped.len() > 144 && r is Accepted ==> r->transient_id@ == crate::hash::sha256(
            stamped.subrange(0, stamped.len() - 32),
        ),
        stamped.len() > 144 && r is Accepted && !r->duplicate
            ==> after.stored().records().contains_key(r->transient_id)
            && after.stored().records()[r->transient_id].body == stamped,
{
    if stamped.len() > 144 {
        let n = stamped.len() - 32;
        assert(stamped.take(n) =~= stamped.subrange(0, n));
        assert(stamped.take(n) + stamped.skip(n) =~= stamped);
    }
}

/// A request that cannot be read is told so and changes nothing.
pub proof fn law_unreadable_request<S: PropagationStore>(
    before: PropagationNode<S>,
    after: PropagationNode<S>,
    request: Seq<u8>,
    remote: [u8; 16],
    now: u64,
    r: Result<GetOutcome, GetError>,
)
    requires
        fetched(before, after, request, remote, now, r),
    ensures
        ({
            let g = crate::propagation::get_request_of(request);
            &&& g is Err ==> after == before && r == Err::<GetOutcome, GetError>(
                GetError::Request(g->Err_0),
            )
            &&& g is Ok ==> r is Ok || r->Err_0 is Store
            &&& g is Ok && r is Ok ==> (r->Ok_0 is List <==> g->Ok_0.wants is None
                && g->Ok_0.haves is None)
        }),
{
}

/// What the calendar said before it jumped is remembered, and a jump back does
/// not undo it.
pub proof fn law_jumps<S: PropagationStore>(
    before: PropagationNode<S>,
    after: PropagationNode<S>,
    at: u64,
)
    requires
        jumped(before, after, at),
    ensures
        after.floor() >= at,
        after.floor() >= before.floor(),
        after.floor() == at || after.floor() == before.floor(),
        after.stored() == before.stored(),
        after.handled() == before.handled(),
        after.conf() == before.conf(),
{
}

/// Another cap is what serving goes by; nothing else changes.
pub proof fn law_recapped<S: PropagationStore>(
    before: PropagationNode<S>,
    after: PropagationNode<S>,
    cap: Option<usize>,
)
    requires
        recapped(before, after, cap),
    ensures
        after.conf().serve_cap_bytes == cap,
        cap is Some ==> fetch_limit(after.conf(), None) <= cap->Some_0,
        after.conf().sync_limit_kb == before.conf().sync_limit_kb,
        after.conf().stamp_cost == before.conf().stamp_cost,
        after.stored() == before.stored(),
        after.handled() == before.handled(),
        after.floor() == before.floor(),
{
}

/// On a steady store an upload displaces messages only where room is short,
/// and every message that was not displaced is still there, as it was.
pub proof fn law_uploads_keep_the_rest<S: PropagationStore>(
    before: PropagationNode<S>,
    after: PropagationNode<S>,
    message: Seq<u8>,
    stamp: Seq<u8>,
    id: TransientId,
    now: u64,
    verdict: Option<u16>,
    r: UploadOutcome,
    other: TransientId,
    i: int,
)
    requires
        ingested(before, after, message, stamp, id, now, verdict, r),
        before.stored().steady(),
        r is Accepted,
        !r->duplicate,
        other != id,
    ensures
        ({
            let was = before.stored().records();
            let is = after.stored().records();
            let gone = r->evicted@;
            let len = (message + stamp).len();
            &&& is.contains_key(other) <==> was.contains_key(other) && !evicted_ids(gone).contains(
                other,
            )
            &&& is.contains_key(other) ==> is[other] == was[other]
            &&& gone.len() > 0 ==> len > before.stored().room()
            &&& len <= before.stored().room() ==> after.stored().room() + len
                == before.stored().room()
            &&& 0 <= i < gone.len() ==> gone[i].reason == EvictionReason::Displaced
                && was.contains_key(gone[i].transient_id)
            &&& after.conf() == before.conf()
        }),
{
    if 0 <= i < r->evicted@.len() {
        assert(displaces(before.stored().records(), r->evicted@[i], now));
    }
}

/// The largest response that memory pays for: no larger one does, it does
/// itself where it is not empty, and it is never more than what is free.
pub proof fn law_funded(cap: int, free: int, largest: int, sdu: int, c: int)
    requires
        serve_cost::funded(cap, free, largest, sdu),
    ensures
        0 <= cap <= free,
        cap > 0 ==> serve_cost::peak(cap, sdu) <= free && serve_cost::largest_block(cap, sdu)
            <= largest,
        c > cap ==> serve_cost::peak(c, sdu) > free || serve_cost::largest_block(c, sdu) > largest,
{
    if c > cap {
        assert(!serve_cost::affordable(c, free, largest, sdu));
    }
}

/// Where nothing can be paid for, the largest response is the empty one.
pub proof fn law_nothing_is_funded(free: int, largest: int, sdu: int)
    requires
        free >= 0,
        forall|c: int| c > 0 ==> !#[trigger] serve_cost::affordable(c, free, largest, sdu),
    ensures
        serve_cost::funded(0, free, largest, sdu),
{
}

} // verus!
