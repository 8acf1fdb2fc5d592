//! The message store: what a record says of its body.
use vstd::prelude::*;

use crate::propagation::TransientId;
use crate::propagation_store::{
    held, listing, newest, record_ok, released, store_ok, stored_as, within, Record,
};

verus! {

/// A record names the first 16 bytes of its body as the destination and counts
/// all of them; no body has fewer than 48.
pub proof fn law_records(id: TransientId, r: Record)
    requires
        record_ok(id, r),
        r.body.len() <= u32::MAX,
    ensures
        r.meta.transient_id == id,
        r.meta.destination_hash@ == r.body.subrange(0, 16),
        r.meta.size == r.body.len(),
        r.body.len() >= 48,
{
    assert(r.body.take(16) =~= r.body.subrange(0, 16));
}

/// A stored message keeps its body, its time and the value of its stamp.
pub proof fn law_stored_message(
    r: Record,
    id: TransientId,
    received_at: u64,
    stamp_value: u8,
    body: Seq<u8>,
)
    requires
        stored_as(r, id, received_at, stamp_value, body),
    ensures
        r.body == body,
        r.meta.received_at == received_at,
        r.meta.stamp_value == stamp_value,
        r.meta.transient_id == id,
        r.meta.destination_hash@ == body.subrange(0, 16),
{
    assert(r.body.take(16) =~= body.subrange(0, 16));
}

/// The directory lists every record once, as it is.
pub proof fn law_directory(
    records: Map<TransientId, Record>,
    walk: Seq<TransientId>,
    id: TransientId,
    i: int,
)
    requires
        store_ok(records, walk),
    ensures
        listing(records, walk).len() == walk.len(),
        records.contains_key(id) ==> listing(records, walk).contains(records[id].meta),
        0 <= i < walk.len() ==> records.contains_key(walk[i]) && listing(records, walk)[i]
            == records[walk[i]].meta && listing(records, walk)[i].transient_id == walk[i],
{
    let l = listing(records, walk);
    if records.contains_key(id) {
        assert(walk.contains(id));
        let j = choose|j: int| 0 <= j < walk.len() && walk[j] == id;
        assert(l[j] == records[id].meta);
    }
    if 0 <= i < walk.len() {
        assert(walk.contains(walk[i]));
        assert(record_ok(walk[i], records[walk[i]]));
    }
}

/// A renumbered message is the same but for its number, and messages keep
/// their order.
pub proof fn law_renumbered(
    a: Map<TransientId, Record>,
    b: Map<TransientId, Record>,
    i: TransientId,
    j: TransientId,
)
    requires
        within(a, b),
        a.contains_key(i),
        a.contains_key(j),
    ensures
        b.contains_key(i),
        a[i].body == b[i].body,
        a[i].meta.transient_id == b[i].meta.transient_id,
        a[i].meta.destination_hash == b[i].meta.destination_hash,
        a[i].meta.size == b[i].meta.size,
        a[i].meta.received_at == b[i].meta.received_at,
        a[i].meta.stamp_value == b[i].meta.stamp_value,
        a[i].meta.sequence < a[j].meta.sequence <==> b[i].meta.sequence < b[j].meta.sequence,
{
}

/// What a key takes, and what removing keys gives back.
pub proof fn law_bytes_of_records(
    records: Map<TransientId, Record>,
    ids: Seq<TransientId>,
    id: TransientId,
)
    ensures
        records.contains_key(id) ==> held(records, id) == records[id].body.len(),
        !records.contains_key(id) ==> held(records, id) == 0,
        released(records, ids.push(id)) == released(records, ids) + records[id].body.len(),
        released(records, Seq::empty()) == 0,
        newest(Seq::empty()) == 0,
{
    assert(ids.push(id).drop_last() =~= ids);
}

} // verus!
