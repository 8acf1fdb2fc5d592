//! The message store of a propagation node.
//!
//! A node keeps three protocol facts per message (the transient ID, the
//! destination hash and the stored bytes) and two facts of local policy (the
//! receive time and the value of the stamp). The body is `lxmf_data || stamp`,
//! so its first bytes are the destination hash.
use vstd::prelude::*;

use crate::bytemap::{to_array, to_vec, ByteMap};
use crate::constants::DESTINATION_LENGTH;
use crate::propagation::TransientId;
use crate::storage::StorageError;
use vstd::slice::slice_subrange;

verus! {

/// The smallest body [`PropagationStore::append`] accepts: a destination hash
/// and a stamp with nothing in between.
pub const MIN_BODY_LEN: usize = 48;

/// Directory entry of one stored message: all that a `/get` list, an eviction
/// or a peering offer needs, without the body.
#[derive(Debug, Clone, Copy, PartialEq, Eq)]
pub struct StoredMessage {
    /// The digest of the unstamped message: the key of every exchange.
    pub transient_id: TransientId,
    /// First bytes of the body; decides who may `/get` the message.
    pub destination_hash: [u8; DESTINATION_LENGTH],
    /// Body length in bytes.
    pub size: u32,
    /// Local receive time, in seconds.
    pub received_at: u64,
    /// Leading-zero-bit value of the validated propagation stamp.
    pub stamp_value: u8,
    /// Position in the append order of the store, which only ever grows: the
    /// domain of the sync cursor of a peer. A store may renumber its messages
    /// only in ways that keep their order.
    pub sequence: u64,
}

/// What a store keeps of one message.
pub ghost struct Record {
    pub meta: StoredMessage,
    pub body: Seq<u8>,
}

/// The directory entry of a record tells the truth about its body.
pub open spec fn record_ok(id: TransientId, r: Record) -> bool {
    &&& r.meta.transient_id == id
    &&& r.meta.destination_hash@ == r.body.take(DESTINATION_LENGTH as int)
    &&& r.meta.size == r.body.len() as u32
    &&& r.body.len() >= MIN_BODY_LEN
}

/// A walk over the store meets every record once.
pub open spec fn store_ok(records: Map<TransientId, Record>, walk: Seq<TransientId>) -> bool {
    &&& walk.no_duplicates()
    &&& forall|id: TransientId| #[trigger] walk.contains(id) <==> records.contains_key(id)
    &&& forall|id: TransientId| #[trigger]
        records.contains_key(id) ==> record_ok(id, records[id])
}

/// The directory, in the order of the walk.
pub open spec fn listing(records: Map<TransientId, Record>, walk: Seq<TransientId>) -> Seq<
    StoredMessage,
> {
    walk.map_values(|id: TransientId| records[id].meta)
}

/// Two records hold the same message, whatever numbers they stand under.
pub open spec fn same_message(a: Record, b: Record) -> bool {
    &&& a.body == b.body
    &&& a.meta == (StoredMessage { sequence: a.meta.sequence, ..b.meta })
}

/// Every message of `a` is a message of `b`, and they stand in the same order.
/// A store may renumber them.
pub open spec fn within(a: Map<TransientId, Record>, b: Map<TransientId, Record>) -> bool {
    &&& forall|id: TransientId| #[trigger]
        a.contains_key(id) ==> b.contains_key(id) && same_message(a[id], b[id])
    &&& forall|i: TransientId, j: TransientId|
        #![trigger a.contains_key(i), a.contains_key(j)]
        a.contains_key(i) && a.contains_key(j) ==> (a[i].meta.sequence < a[j].meta.sequence
            <==> b[i].meta.sequence < b[j].meta.sequence)
}

/// Bytes that a store has for one key.
pub open spec fn held(records: Map<TransientId, Record>, id: TransientId) -> int {
    if records.contains_key(id) {
        records[id].body.len() as int
    } else {
        0
    }
}

/// The record that an append under a sequence number leaves.
pub open spec fn stored_as(
    r: Record,
    id: TransientId,
    received_at: u64,
    stamp_value: u8,
    body: Seq<u8>,
) -> bool {
    &&& record_ok(id, r)
    &&& r.meta.received_at == received_at
    &&& r.meta.stamp_value == stamp_value
    &&& r.body == body
}

/// The largest sequence number in a directory, zero for an empty one.
pub open spec fn newest(s: Seq<StoredMessage>) -> u64
    decreases s.len(),
{
    if s.len() == 0 {
        0
    } else if newest(s.drop_last()) >= s.last().sequence {
        newest(s.drop_last())
    } else {
        s.last().sequence
    }
}

/// The store a propagation node keeps its accepted messages in.
///
/// A store may fail, and one on a small medium may drop records by itself.
/// Of a [`steady`](PropagationStore::steady) store more is promised: it fails
/// only where a body is too short or does not fit, it loses nothing, and no
/// message of it gets another number.
pub trait PropagationStore: Sized {
    spec fn wf(&self) -> bool;

    spec fn records(&self) -> Map<TransientId, Record>;

    /// The order in which [`directory`](PropagationStore::directory) meets the
    /// records.
    spec fn walk(&self) -> Seq<TransientId>;

    /// The store answers every request, and drops and renumbers nothing
    /// unasked.
    spec fn steady(&self) -> bool;

    /// The highest sequence number that was ever given out, zero before the
    /// first.
    spec fn highest(&self) -> u64;

    /// How many appends there are sequence numbers left for.
    spec fn numbers(&self) -> nat;

    /// Body bytes the store can hold.
    spec fn space(&self) -> nat;

    /// Body bytes a steady store has left.
    spec fn room(&self) -> int;

    proof fn lemma_store_ok(&self)
        requires
            self.wf(),
        ensures
            store_ok(self.records(), self.walk()),
            forall|id: TransientId| #[trigger]
                self.records().contains_key(id) ==> self.records()[id].meta.sequence
                    <= self.highest(),
    ;

    /// Stores one message, `lxmf_data || stamp`, in place of what the key held,
    /// under a sequence number above every one that was given out before.
    fn append(
        &mut self,
        transient_id: &TransientId,
        received_at: u64,
        stamp_value: u8,
        body: &[u8],
    ) -> (r: Result<(), StorageError>)
        requires
            old(self).wf(),
            old(self).numbers() > 0,
        ensures
            final(self).wf(),
            final(self).steady() == old(self).steady(),
            final(self).space() == old(self).space(),
            match r {
                Ok(_) => {
                    &&& final(self).highest() > old(self).highest()
                    &&& final(self).numbers() + 1 >= old(self).numbers()
                    &&& final(self).records().contains_key(*transient_id)
                    &&& final(self).records()[*transient_id].meta.sequence
                        == final(self).highest()
                    &&& stored_as(
                        final(self).records()[*transient_id],
                        *transient_id,
                        received_at,
                        stamp_value,
                        body@,
                    )
                    &&& within(
                        final(self).records().remove(*transient_id),
                        old(self).records().remove(*transient_id),
                    )
                },
                Err(_) => {
                    &&& within(final(self).records(), old(self).records())
                    &&& final(self).highest() == old(self).highest()
                    &&& final(self).numbers() == old(self).numbers()
                },
            },
            old(self).steady() ==> {
                if body@.len() < MIN_BODY_LEN {
                    &&& r == Err::<(), StorageError>(StorageError::Corrupt)
                    &&& final(self).records() == old(self).records()
                    &&& final(self).walk() == old(self).walk()
                    &&& final(self).room() == old(self).room()
                } else if body@.len() > old(self).room() + held(
                    old(self).records(),
                    *transient_id,
                ) {
                    &&& r == Err::<(), StorageError>(StorageError::Full)
                    &&& final(self).records() == old(self).records()
                    &&& final(self).walk() == old(self).walk()
                    &&& final(self).room() == old(self).room()
                } else {
                    &&& r is Ok
                    &&& final(self).records() == old(self).records().insert(
                        *transient_id,
                        final(self).records()[*transient_id],
                    )
                    &&& final(self).room() == old(self).room() + held(
                        old(self).records(),
                        *transient_id,
                    ) - body@.len()
                    &&& final(self).numbers() + 1 == old(self).numbers()
                }
            },
    ;

    /// The directory entry of every stored message.
    fn directory(&self) -> (r: Result<Vec<StoredMessage>, StorageError>)
        requires
            self.wf(),
        ensures
            r matches Ok(v) ==> v@ == listing(self.records(), self.walk()),
            self.steady() ==> r is Ok,
    ;

    /// One stored body, or `None` where the key is absent.
    fn read_body(&self, transient_id: &TransientId) -> (r: Result<Option<Vec<u8>>, StorageError>)
        requires
            self.wf(),
        ensures
            match r {
                Ok(Some(b)) => {
                    &&& self.records().contains_key(*transient_id)
                    &&& b@ == self.records()[*transient_id].body
                },
                Ok(None) => !self.records().contains_key(*transient_id),
                Err(_) => !self.steady(),
            },
    ;

    /// Removes one message. Returns whether it was there.
    fn purge(&mut self, transient_id: &TransientId) -> (r: Result<bool, StorageError>)
        requires
            old(self).wf(),
        ensures
            final(self).wf(),
            final(self).steady() == old(self).steady(),
            final(self).space() == old(self).space(),
            final(self).highest() == old(self).highest(),
            final(self).numbers() == old(self).numbers(),
            within(final(self).records(), old(self).records()),
            match r {
                Ok(b) => {
                    &&& b == old(self).records().contains_key(*transient_id)
                    &&& !final(self).records().contains_key(*transient_id)
                },
                Err(_) => !old(self).steady(),
            },
            old(self).steady() ==> {
                &&& final(self).records() == old(self).records().remove(*transient_id)
                &&& final(self).room() == old(self).room() + held(
                    old(self).records(),
                    *transient_id,
                )
            },
    ;

    /// Bytes still available for message bodies.
    fn free_space(&self) -> (r: u64)
        requires
            self.wf(),
        ensures
            self.steady() ==> r == self.room(),
    ;

    /// Total body capacity in bytes.
    fn capacity(&self) -> (r: u64)
        requires
            self.wf(),
        ensures
            r == self.space(),
    ;

    /// Whether a transient ID is stored.
    fn contains(&self, transient_id: &TransientId) -> (r: Result<bool, StorageError>)
        requires
            self.wf(),
        ensures
            match r {
                Ok(b) => b == self.records().contains_key(*transient_id),
                Err(_) => !self.steady(),
            },
    {
        match self.read_body(transient_id) {
            Ok(body) => Ok(body.is_some()),
            Err(error) => Err(error),
        }
    }

    /// Number of stored messages.
    fn count(&self) -> (r: Result<usize, StorageError>)
        requires
            self.wf(),
        ensures
            match r {
                Ok(n) => n == self.walk().len(),
                Err(_) => !self.steady(),
            },
    {
        match self.directory() {
            Ok(entries) => Ok(entries.len()),
            Err(error) => Err(error),
        }
    }

    /// The highest live sequence number, 0 when the store is empty.
    fn newest_sequence(&self) -> (r: Result<u64, StorageError>)
        requires
            self.wf(),
        ensures
            match r {
                Ok(n) => n == newest(listing(self.records(), self.walk())),
                Err(_) => !self.steady(),
            },
    {
        match self.directory() {
            Ok(entries) => Ok(newest_of(&entries)),
            Err(error) => Err(error),
        }
    }
}

/// Both stores are of one size and have given out the same numbers.
pub open spec fn same_counters<S: PropagationStore>(a: &S, b: &S) -> bool {
    &&& a.space() == b.space()
    &&& a.highest() == b.highest()
    &&& a.numbers() == b.numbers()
}

/// The body bytes that the records of these keys take.
pub open spec fn released(records: Map<TransientId, Record>, ids: Seq<TransientId>) -> nat
    decreases ids.len(),
{
    if ids.len() == 0 {
        0
    } else {
        released(records, ids.drop_last()) + records[ids.last()].body.len()
    }
}

/// The largest sequence number of a directory.
pub fn newest_of(entries: &Vec<StoredMessage>) -> (r: u64)
    ensures
        r == newest(entries@),
{
    let mut best: u64 = 0;
    let mut i: usize = 0;
    while i < entries.len()
        invariant
            i <= entries@.len(),
            best == newest(entries@.take(i as int)),
        decreases entries@.len() - i,
    {
        assert(entries@.take(i + 1).drop_last() =~= entries@.take(i as int));
        if best < entries[i].sequence {
            best = entries[i].sequence;
        }
        i = i + 1;
    }
    assert(entries@.take(i as int) =~= entries@);
    best
}

/// No sequence number of a directory is above the newest, and the newest is
/// one of them.
pub proof fn law_newest(s: Seq<StoredMessage>)
    ensures
        forall|i: int| 0 <= i < s.len() ==> (#[trigger] s[i]).sequence <= newest(s),
        newest(s) == 0 || exists|i: int|
            0 <= i < s.len() && (#[trigger] s[i]).sequence == newest(s),
    decreases s.len(),
{
    if s.len() > 0 {
        let t = s.drop_last();
        law_newest(t);
        assert forall|i: int| 0 <= i < s.len() implies (#[trigger] s[i]).sequence <= newest(s) by {
            if i < t.len() {
                assert(t[i] == s[i]);
            }
        }
        if newest(s) != 0 {
            if newest(t) >= s.last().sequence {
                let i = choose|i: int| 0 <= i < t.len() && (#[trigger] t[i]).sequence == newest(t);
                assert(s[i].sequence == newest(s));
            } else {
                assert(s[s.len() - 1].sequence == newest(s));
            }
        }
    }
}

#[derive(Debug, Clone)]
struct MemoryEntry {
    received_at: u64,
    stamp_value: u8,
    sequence: u64,
    destination_hash: [u8; DESTINATION_LENGTH],
    body: Vec<u8>,
}

/// In-memory [`PropagationStore`], for tests and transient embedded use.
///
/// Capacity counts body bytes only.
#[derive(Debug, Clone)]
pub struct MemoryPropagationStore {
    entries: ByteMap<32, MemoryEntry>,
    capacity: u64,
    used: u64,
    next_sequence: u64,
}

spec fn record_of(id: TransientId, e: MemoryEntry) -> Record {
    Record {
        meta: StoredMessage {
            transient_id: id,
            destination_hash: e.destination_hash,
            size: e.body@.len() as u32,
            received_at: e.received_at,
            stamp_value: e.stamp_value,
            sequence: e.sequence,
        },
        body: e.body@,
    }
}

spec fn entry_ok(e: MemoryEntry, newest: u64) -> bool {
    &&& e.body@.len() >= MIN_BODY_LEN
    &&& e.destination_hash@ == e.body@.take(DESTINATION_LENGTH as int)
    &&& e.sequence <= newest
}

spec fn total(s: Seq<([u8; 32], MemoryEntry)>) -> nat
    decreases s.len(),
{
    if s.len() == 0 {
        0
    } else {
        total(s.drop_last()) + s.last().1.body@.len()
    }
}

proof fn lemma_total_insert(s: Seq<([u8; 32], MemoryEntry)>, i: int, e: ([u8; 32], MemoryEntry))
    requires
        0 <= i <= s.len(),
    ensures
        total(s.insert(i, e)) == total(s) + e.1.body@.len(),
    decreases s.len(),
{
    let t = s.insert(i, e);
    if i == s.len() {
        assert(t.drop_last() =~= s);
    } else {
        assert(t.drop_last() =~= s.drop_last().insert(i, e));
        assert(t.last() == s.last());
        lemma_total_insert(s.drop_last(), i, e);
    }
}

proof fn lemma_total_remove(s: Seq<([u8; 32], MemoryEntry)>, i: int)
    requires
        0 <= i < s.len(),
    ensures
        total(s.remove(i)) + s[i].1.body@.len() == total(s),
{
    assert(s.remove(i).insert(i, s[i]) =~= s);
    lemma_total_insert(s.remove(i), i, s[i]);
}

proof fn lemma_total_update(s: Seq<([u8; 32], MemoryEntry)>, i: int, e: ([u8; 32], MemoryEntry))
    requires
        0 <= i < s.len(),
    ensures
        total(s.update(i, e)) + s[i].1.body@.len() == total(s) + e.1.body@.len(),
{
    assert(s.remove(i).insert(i, e) =~= s.update(i, e));
    lemma_total_insert(s.remove(i), i, e);
    lemma_total_remove(s, i);
}

impl MemoryPropagationStore {
    pub fn new(capacity: u64) -> (r: MemoryPropagationStore)
        ensures
            r.wf(),
            r.steady(),
            r.highest() == 0,
            r.numbers() == u64::MAX,
            r.records() == Map::<TransientId, Record>::empty(),
            r.walk().len() == 0,
            r.space() == capacity,
            r.room() == capacity,
    {
        let r = MemoryPropagationStore {
            entries: ByteMap::new(),
            capacity,
            used: 0,
            next_sequence: 0,
        };
        assert(r.records() =~= Map::<TransientId, Record>::empty());
        r
    }

    /// Number of stored messages.
    pub fn len(&self) -> (r: usize)
        ensures
            r == self.walk().len(),
    {
        self.entries.len()
    }

    pub fn is_empty(&self) -> (r: bool)
        ensures
            r == (self.walk().len() == 0),
    {
        self.entries.is_empty()
    }
}

impl PropagationStore for MemoryPropagationStore {
    closed spec fn wf(&self) -> bool {
        &&& self.entries.wf()
        &&& self.used == total(self.entries.entries@)
        &&& self.used <= self.capacity
        &&& forall|id: TransientId| #[trigger]
            self.entries@.contains_key(id) ==> entry_ok(self.entries@[id], self.next_sequence)
    }

    closed spec fn records(&self) -> Map<TransientId, Record> {
        Map::new(
            |id: TransientId| self.entries@.contains_key(id),
            |id: TransientId| record_of(id, self.entries@[id]),
        )
    }

    /// Records are met in the order of their keys.
    closed spec fn walk(&self) -> Seq<TransientId> {
        self.entries.entries@.map_values(|e: ([u8; 32], MemoryEntry)| e.0)
    }

    open spec fn steady(&self) -> bool {
        true
    }

    closed spec fn highest(&self) -> u64 {
        self.next_sequence
    }

    closed spec fn numbers(&self) -> nat {
        (u64::MAX - self.next_sequence) as nat
    }

    closed spec fn space(&self) -> nat {
        self.capacity as nat
    }

    closed spec fn room(&self) -> int {
        self.capacity - self.used
    }

    proof fn lemma_store_ok(&self) {
        let s = self.entries.entries@;
        let walk = self.walk();
        assert forall|i: int, j: int| 0 <= i < walk.len() && 0 <= j < walk.len() && i != j implies
            #[trigger] walk[i] != #[trigger] walk[j] by {
            if walk[i] == walk[j] {
                crate::bytemap::lemma_unique(s, i, j);
            }
        }
        assert forall|id: TransientId| #[trigger]
            walk.contains(id) <==> self.records().contains_key(id) by {
            if walk.contains(id) {
                let i = choose|i: int| 0 <= i < walk.len() && walk[i] == id;
                crate::bytemap::lemma_entry(s, i);
            }
            if self.entries@.contains_key(id) {
                let i = crate::bytemap::key_index(s, id);
                assert(walk[i] == id);
            }
        }
        assert forall|id: TransientId| #[trigger] self.records().contains_key(id) implies record_ok(
            id,
            self.records()[id],
        ) by {
            assert(entry_ok(self.entries@[id], self.next_sequence));
        }
        assert forall|id: TransientId| #[trigger]
            self.records().contains_key(id) implies self.records()[id].meta.sequence
            <= self.highest() by {
            assert(entry_ok(self.entries@[id], self.next_sequence));
        }
    }

    fn append(
        &mut self,
        transient_id: &TransientId,
        received_at: u64,
        stamp_value: u8,
        body: &[u8],
    ) -> (r: Result<(), StorageError>) {
        if body.len() < MIN_BODY_LEN {
            return Err(StorageError::Corrupt);
        }
        let added: u64 = body.len() as u64;
        let replaced: u64 = match self.entries.get(transient_id) {
            Some(entry) => entry.body.len() as u64,
            None => 0,
        };
        proof {
            if self.entries@.contains_key(*transient_id) {
                let i = crate::bytemap::key_index(self.entries.entries@, *transient_id);
                lemma_total_remove(self.entries.entries@, i);
            }
        }
        if added > self.capacity - (self.used - replaced) {
            return Err(StorageError::Full);
        }
        let head = to_array::<DESTINATION_LENGTH>(slice_subrange(body, 0, DESTINATION_LENGTH));
        let destination_hash = match head {
            Some(head) => head,
            None => {
                return Err(StorageError::Corrupt);
            },
        };
        assert(body@.subrange(0, DESTINATION_LENGTH as int) =~= body@.take(
            DESTINATION_LENGTH as int,
        ));
        let ghost before = *self;
        self.next_sequence = self.next_sequence + 1;
        let entry = MemoryEntry {
            received_at,
            stamp_value,
            sequence: self.next_sequence,
            destination_hash,
            body: to_vec(body),
        };
        let ghost e = entry;
        let _ = self.entries.insert(*transient_id, entry);
        self.used = self.used - replaced + added;
        proof {
            let s = before.entries.entries@;
            let id = *transient_id;
            if before.entries@.contains_key(id) {
                let i = crate::bytemap::key_index(s, id);
                crate::bytemap::lemma_entry(s, i);
                lemma_total_update(s, i, (id, e));
            } else {
                let i = choose|i: int|
                    0 <= i <= s.len() && self.entries.entries@ == (#[trigger] s.insert(i, (id, e)));
                lemma_total_insert(s, i, (id, e));
            }
            assert forall|k: TransientId| #[trigger] self.entries@.contains_key(k) implies entry_ok(
                self.entries@[k],
                self.next_sequence,
            ) by {
                if k != id {
                    assert(before.entries@.contains_key(k));
                }
            }
            assert(self.records() =~= before.records().insert(id, record_of(id, e)));
        }
        Ok(())
    }

    /// The entries by ascending transient ID.
    fn directory(&self) -> (r: Result<Vec<StoredMessage>, StorageError>)
        ensures
            forall|i: int, j: int|
                0 <= i < j < r->Ok_0@.len() ==> crate::bytemap::below(
                    (#[trigger] r->Ok_0@[i]).transient_id@,
                    (#[trigger] r->Ok_0@[j]).transient_id@,
                ),
    {
        let mut out: Vec<StoredMessage> = Vec::new();
        let mut i: usize = 0;
        let ghost all = listing(self.records(), self.walk());
        while i < self.entries.entries.len()
            invariant
                self.wf(),
                i <= self.entries.entries@.len(),
                all == listing(self.records(), self.walk()),
                out@ == all.take(i as int),
            decreases self.entries.entries@.len() - i,
        {
            proof {
                crate::bytemap::lemma_entry(self.entries.entries@, i as int);
                assert(all.take(i + 1) =~= all.take(i as int).push(all[i as int]));
            }
            let e = &self.entries.entries[i];
            out.push(
                StoredMessage {
                    transient_id: e.0,
                    destination_hash: e.1.destination_hash,
                    size: e.1.body.len() as u32,
                    received_at: e.1.received_at,
                    stamp_value: e.1.stamp_value,
                    sequence: e.1.sequence,
                },
            );
            i = i + 1;
        }
        assert(all.take(i as int) =~= all);
        Ok(out)
    }

    fn read_body(&self, transient_id: &TransientId) -> (r: Result<Option<Vec<u8>>, StorageError>) {
        match self.entries.get(transient_id) {
            Some(entry) => Ok(Some(to_vec(&entry.body))),
            None => Ok(None),
        }
    }

    fn purge(&mut self, transient_id: &TransientId) -> (r: Result<bool, StorageError>) {
        let ghost before = *self;
        match self.entries.remove(transient_id) {
            Some(entry) => {
                proof {
                    let s = before.entries.entries@;
                    let i = crate::bytemap::key_index(s, *transient_id);
                    lemma_total_remove(s, i);
                }
                self.used = self.used - entry.body.len() as u64;
                proof {
                    assert forall|k: TransientId| #[trigger]
                        self.entries@.contains_key(k) implies entry_ok(
                        self.entries@[k],
                        self.next_sequence,
                    ) by {
                        assert(before.entries@.contains_key(k));
                    }
                    assert(self.records() =~= before.records().remove(*transient_id));
                }
                Ok(true)
            },
            None => {
                assert(self.records() =~= before.records().remove(*transient_id));
                Ok(false)
            },
        }
    }

    fn free_space(&self) -> (r: u64) {
        self.capacity - self.used
    }

    fn capacity(&self) -> (r: u64) {
        self.capacity
    }

    fn contains(&self, transient_id: &TransientId) -> (r: Result<bool, StorageError>) {
        Ok(self.entries.contains(transient_id))
    }
}

/// A message that is stored now has a number above those of all messages that
/// the store holds, whatever it has dropped before: no number comes twice.
pub proof fn law_numbers_only_grow<S: PropagationStore>(before: S, after: S, id: TransientId)
    requires
        before.wf(),
        after.records().contains_key(id),
        after.records()[id].meta.sequence == after.highest(),
        after.highest() > before.highest(),
    ensures
        forall|k: TransientId| #[trigger]
            before.records().contains_key(k) ==> before.records()[k].meta.sequence
                < after.records()[id].meta.sequence,
{
    before.lemma_store_ok();
}

/// What a memory store has left is its capacity less the bodies it holds.
pub proof fn law_memory_accounting(store: MemoryPropagationStore)
    requires
        store.wf(),
    ensures
        store.room() + released(store.records(), store.walk()) == store.space(),
        store.room() >= 0,
{
    lemma_released(store, store.entries.entries@.len() as int);
    assert(store.walk().take(store.walk().len() as int) =~= store.walk());
    let s = store.entries.entries@;
    assert(s.take(s.len() as int) =~= s);
}

proof fn lemma_released(store: MemoryPropagationStore, n: int)
    requires
        store.wf(),
        0 <= n <= store.entries.entries@.len(),
    ensures
        released(store.records(), store.walk().take(n)) == total(store.entries.entries@.take(n)),
    decreases n,
{
    if n > 0 {
        lemma_released(store, n - 1);
        crate::bytemap::lemma_entry(store.entries.entries@, n - 1);
        assert(store.walk().take(n).drop_last() =~= store.walk().take(n - 1));
        assert(store.entries.entries@.take(n).drop_last() =~= store.entries.entries@.take(n - 1));
    }
}

} // verus!
