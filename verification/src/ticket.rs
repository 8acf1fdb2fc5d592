//! Reply tickets.
//!
//! A ticket lets its holder stamp replies without proof of work. The store
//! keeps the tickets that were issued to peers, those that peers granted, and
//! when a peer was last sent one.
use vstd::prelude::*;

use crate::bytemap::{same, ByteMap};
use crate::constants::TICKET_LENGTH;
use crate::ieee;

verus! {

/// A ticket. The time of its expiry is a binary64 bit pattern.
#[derive(Debug, Clone, Copy, PartialEq, Eq)]
pub struct Ticket {
    pub expires_unix: u64,
    pub secret: [u8; TICKET_LENGTH],
}

/// Two tickets expire at one time and share a secret.
pub open spec fn alike(a: Ticket, b: Ticket) -> bool {
    ieee::eq(a.expires_unix, b.expires_unix) && a.secret == b.secret
}

impl Ticket {
    pub fn is(&self, other: &Ticket) -> (r: bool)
        ensures
            r == alike(*self, *other),
    {
        ieee::equal(self.expires_unix, other.expires_unix) && same(&self.secret, &other.secret)
    }
}

/// The tickets that are known.
#[derive(Debug, Clone)]
pub struct TicketStore {
    /// Tickets issued to a peer, which its replies may be stamped with.
    pub inbound: ByteMap<16, Vec<Ticket>>,
    /// Tickets granted by a peer, which messages to it may be stamped with.
    pub outbound: ByteMap<16, Ticket>,
    /// When a ticket last reached a peer.
    pub last_deliveries: ByteMap<16, u64>,
}

/// The tickets as maps.
pub ghost struct Tickets {
    pub inbound: Map<[u8; 16], Seq<Ticket>>,
    pub outbound: Map<[u8; 16], Ticket>,
    pub last: Map<[u8; 16], u64>,
}

impl View for TicketStore {
    type V = Tickets;

    open spec fn view(&self) -> Tickets {
        Tickets {
            inbound: self.inbound@.map_values(|l: Vec<Ticket>| l@),
            outbound: self.outbound@,
            last: self.last_deliveries@,
        }
    }
}

/// No tickets at all.
pub open spec fn no_tickets() -> Tickets {
    Tickets { inbound: Map::empty(), outbound: Map::empty(), last: Map::empty() }
}

/// The issued tickets one by one: peers in the order of their hashes, the
/// tickets of each in the order of issue.
pub open spec fn flat(groups: Seq<([u8; 16], Seq<Ticket>)>) -> Seq<([u8; 16], Ticket)>
    decreases groups.len(),
{
    if groups.len() == 0 {
        Seq::empty()
    } else {
        let (k, l) = groups.last();
        flat(groups.drop_last()) + l.map_values(|t: Ticket| (k, t))
    }
}

pub open spec fn issued(t: Tickets) -> Seq<([u8; 16], Ticket)> {
    flat(crate::bytemap::pairs(t.inbound))
}

/// How many entries the store has in all.
pub open spec fn entries(t: Tickets) -> nat {
    issued(t).len() + t.outbound.dom().len() + t.last.dom().len()
}

/// A ticket is among those issued to a peer.
pub open spec fn has_issued(t: Tickets, peer: [u8; 16], ticket: Ticket) -> bool {
    t.inbound.contains_key(peer) && exists|i: int|
        0 <= i < t.inbound[peer].len() && alike(#[trigger] t.inbound[peer][i], ticket)
}

/// The tickets with one more issued to a peer.
pub open spec fn with_issued(
    inbound: Map<[u8; 16], Seq<Ticket>>,
    peer: [u8; 16],
    ticket: Ticket,
) -> Map<[u8; 16], Seq<Ticket>> {
    inbound.insert(
        peer,
        if inbound.contains_key(peer) {
            inbound[peer].push(ticket)
        } else {
            seq![ticket]
        },
    )
}

/// The tickets that a list of issued ones makes, added one by one.
pub open spec fn regrouped(list: Seq<([u8; 16], Ticket)>) -> Map<[u8; 16], Seq<Ticket>>
    decreases list.len(),
{
    if list.len() == 0 {
        Map::empty()
    } else {
        with_issued(regrouped(list.drop_last()), list.last().0, list.last().1)
    }
}

/// Every peer that is listed has a ticket.
pub open spec fn no_empty_group(inbound: Map<[u8; 16], Seq<Ticket>>) -> bool {
    forall|k: [u8; 16]| #[trigger] inbound.contains_key(k) ==> inbound[k].len() > 0
}

impl Default for TicketStore {
    fn default() -> (r: Self)
        ensures
            r.wf(),
            r@ == no_tickets(),
    {
        let r = TicketStore {
            inbound: ByteMap::new(),
            outbound: ByteMap::new(),
            last_deliveries: ByteMap::new(),
        };
        assert(r@.inbound =~= no_tickets().inbound);
        r
    }
}

impl TicketStore {
    pub open spec fn wf(&self) -> bool {
        self.inbound.wf() && self.outbound.wf() && self.last_deliveries.wf()
    }

    pub fn inbound(&self) -> (r: &ByteMap<16, Vec<Ticket>>)
        ensures
            *r == self.inbound,
    {
        &self.inbound
    }

    pub fn outbound_entries(&self) -> (r: &ByteMap<16, Ticket>)
        ensures
            *r == self.outbound,
    {
        &self.outbound
    }

    pub fn last_deliveries(&self) -> (r: &ByteMap<16, u64>)
        ensures
            *r == self.last_deliveries,
    {
        &self.last_deliveries
    }

    /// How many entries the store has in all, or nothing if that is more than
    /// can be counted.
    pub fn entry_count(&self) -> (r: Option<usize>)
        requires
            self.wf(),
        ensures
            match r {
                Some(n) => n == entries(self@),
                None => entries(self@) > usize::MAX,
            },
    {
        let ghost groups = self.inbound.entries@.map_values(
            |e: ([u8; 16], Vec<Ticket>)| (e.0, e.1@),
        );
        proof {
            let f = |l: Vec<Ticket>| l@;
            crate::bytemap::lemma_mapped(self.inbound.entries@, f);
            assert(self.inbound.entries@.map_values(
                |e: ([u8; 16], Vec<Ticket>)| (e.0, f(e.1)),
            ) =~= groups);
            crate::bytemap::lemma_pairs(groups);
            crate::bytemap::lemma_len(self.outbound.entries@);
            crate::bytemap::lemma_len(self.last_deliveries.entries@);
        }
        let mut n: usize = 0;
        let mut i: usize = 0;
        while i < self.inbound.entries.len()
            invariant
                i <= self.inbound.entries@.len(),
                groups == self.inbound.entries@.map_values(
                    |e: ([u8; 16], Vec<Ticket>)| (e.0, e.1@),
                ),
                n == flat(groups.take(i as int)).len(),
                entries(self@) >= flat(groups).len(),
            decreases self.inbound.entries@.len() - i,
        {
            let more: usize = self.inbound.entries[i].1.len();
            proof {
                let t = groups.take(i + 1);
                assert(t.drop_last() =~= groups.take(i as int));
                assert(t.last() == groups[i as int]);
                lemma_flat_grows(groups, i + 1);
            }
            match n.checked_add(more) {
                Some(sum) => {
                    n = sum;
                },
                None => {
                    return None;
                },
            }
            i = i + 1;
        }
        assert(groups.take(groups.len() as int) =~= groups);
        match n.checked_add(self.outbound.len()) {
            Some(sum) => sum.checked_add(self.last_deliveries.len()),
            None => None,
        }
    }

    /// Whether a ticket is among those issued to a peer.
    pub fn contains_inbound(&self, peer: &[u8; 16], ticket: &Ticket) -> (r: bool)
        requires
            self.wf(),
        ensures
            r == has_issued(self@, *peer, *ticket),
    {
        match self.inbound.get(peer) {
            Some(list) => {
                let mut i: usize = 0;
                while i < list.len()
                    invariant
                        i <= list@.len(),
                        self@.inbound.contains_key(*peer),
                        self@.inbound[*peer] == list@,
                        forall|j: int| 0 <= j < i ==> !alike(#[trigger] list@[j], *ticket),
                    decreases list@.len() - i,
                {
                    if list[i].is(ticket) {
                        assert(alike(self@.inbound[*peer][i as int], *ticket));
                        return true;
                    }
                    i = i + 1;
                }
                false
            },
            None => false,
        }
    }

    /// Notes that a ticket reached a peer.
    pub fn mark_delivered(&mut self, peer: [u8; 16], now: u64)
        requires
            old(self).wf(),
        ensures
            final(self).wf(),
            final(self)@ == (Tickets { last: old(self)@.last.insert(peer, now), ..old(self)@ }),
    {
        let _ = self.last_deliveries.insert(peer, now);
    }

    /// Adds an issued ticket behind those of its peer.
    pub fn restore_inbound(&mut self, peer: [u8; 16], ticket: Ticket)
        requires
            old(self).wf(),
        ensures
            final(self).wf(),
            final(self)@ == (Tickets {
                inbound: with_issued(old(self)@.inbound, peer, ticket),
                ..old(self)@
            }),
    {
        let mut list: Vec<Ticket> = match self.inbound.remove(&peer) {
            Some(list) => list,
            None => Vec::new(),
        };
        let ghost before = list@;
        list.push(ticket);
        proof {
            if !old(self)@.inbound.contains_key(peer) {
                assert(list@ =~= seq![ticket]);
            }
        }
        let _ = self.inbound.insert(peer, list);
        assert(self@.inbound =~= with_issued(old(self)@.inbound, peer, ticket));
    }

    pub fn restore_outbound(&mut self, peer: [u8; 16], ticket: Ticket)
        requires
            old(self).wf(),
        ensures
            final(self).wf(),
            final(self)@ == (Tickets {
                outbound: old(self)@.outbound.insert(peer, ticket),
                ..old(self)@
            }),
    {
        let _ = self.outbound.insert(peer, ticket);
    }

    pub fn restore_last_delivery(&mut self, peer: [u8; 16], time: u64)
        requires
            old(self).wf(),
        ensures
            final(self).wf(),
            final(self)@ == (Tickets { last: old(self)@.last.insert(peer, time), ..old(self)@ }),
    {
        let _ = self.last_deliveries.insert(peer, time);
    }
}

pub proof fn lemma_flat_grows(groups: Seq<([u8; 16], Seq<Ticket>)>, i: int)
    requires
        0 <= i <= groups.len(),
    ensures
        flat(groups.take(i)).len() <= flat(groups).len(),
    decreases groups.len(),
{
    if i == groups.len() {
        assert(groups.take(i) =~= groups);
    } else {
        assert(groups.drop_last().take(i) =~= groups.take(i));
        lemma_flat_grows(groups.drop_last(), i);
    }
}

/// Adding the issued tickets of one peer behind those of the others gives the
/// peer these tickets.
proof fn lemma_regroup(list: Seq<([u8; 16], Ticket)>, k: [u8; 16], l: Seq<Ticket>)
    requires
        !regrouped(list).contains_key(k),
    ensures
        regrouped(list + l.map_values(|t: Ticket| (k, t))) == if l.len() == 0 {
            regrouped(list)
        } else {
            regrouped(list).insert(k, l)
        },
    decreases l.len(),
{
    let tail = l.map_values(|t: Ticket| (k, t));
    let whole = list + tail;
    if l.len() == 0 {
        assert(whole =~= list);
    } else {
        let m = l.drop_last();
        lemma_regroup(list, k, m);
        assert(whole.drop_last() =~= list + m.map_values(|t: Ticket| (k, t)));
        assert(whole.last() == (k, l.last()));
        assert(m.push(l.last()) =~= l);
        if m.len() == 0 {
            assert(l =~= seq![l.last()]);
        }
        assert(regrouped(whole) =~= regrouped(list).insert(k, l));
    }
}

/// Adding the issued tickets one by one gives back what they were taken from.
pub proof fn lemma_regrouped(groups: Seq<([u8; 16], Seq<Ticket>)>)
    requires
        crate::bytemap::ascending(groups),
        forall|i: int| 0 <= i < groups.len() ==> (#[trigger] groups[i]).1.len() > 0,
    ensures
        regrouped(flat(groups)) == crate::bytemap::map_of(groups),
    decreases groups.len(),
{
    crate::bytemap::lemma_gathered(groups);
    if groups.len() == 0 {
        assert(regrouped(flat(groups)) =~= crate::bytemap::map_of(groups));
    } else {
        let t = groups.drop_last();
        let (k, l) = groups.last();
        lemma_regrouped(t);
        crate::bytemap::lemma_gathered(t);
        crate::bytemap::lemma_gathered_keys(t, k);
        assert(groups[groups.len() - 1].1.len() > 0);
        lemma_regroup(flat(t), k, l);
    }
}

proof fn lemma_flat_insert(s: Seq<([u8; 16], Seq<Ticket>)>, i: int, e: ([u8; 16], Seq<Ticket>))
    requires
        0 <= i <= s.len(),
    ensures
        flat(s.insert(i, e)).len() == flat(s).len() + e.1.len(),
    decreases s.len(),
{
    let t = s.insert(i, e);
    if i == s.len() {
        assert(t.drop_last() =~= s);
    } else {
        assert(t.drop_last() =~= s.drop_last().insert(i, e));
        assert(t.last() == s.last());
        lemma_flat_insert(s.drop_last(), i, e);
    }
}

/// Regrouping loses no ticket and makes none.
pub proof fn lemma_regrouped_len(list: Seq<([u8; 16], Ticket)>) -> (s: Seq<([u8; 16], Seq<Ticket>)>)
    ensures
        crate::bytemap::ascending(s),
        crate::bytemap::map_of(s) == regrouped(list),
        flat(crate::bytemap::pairs(regrouped(list))) == flat(s),
        flat(s).len() == list.len(),
    decreases list.len(),
{
    let r = if list.len() == 0 {
        let none = Seq::<([u8; 16], Seq<Ticket>)>::empty();
        assert(crate::bytemap::map_of(none) =~= regrouped(list));
        none
    } else {
        let before = lemma_regrouped_len(list.drop_last());
        let m = regrouped(list.drop_last());
        let (k, t) = list.last();
        if m.contains_key(k) {
            let i = crate::bytemap::key_index(before, k);
            assert(crate::bytemap::has_key(before, k));
            crate::bytemap::lemma_entry(before, i);
            let l = m[k].push(t);
            crate::bytemap::lemma_replaced(before, i, l);
            let s = before.update(i, (k, l));
            assert(before.remove(i).insert(i, (k, l)) =~= s);
            assert(before.remove(i).insert(i, before[i]) =~= before);
            lemma_flat_insert(before.remove(i), i, (k, l));
            lemma_flat_insert(before.remove(i), i, before[i]);
            s
        } else {
            let i = crate::bytemap::lemma_slot(before, k);
            crate::bytemap::lemma_inserted(before, i, k, seq![t]);
            lemma_flat_insert(before, i, (k, seq![t]));
            before.insert(i, (k, seq![t]))
        }
    };
    crate::bytemap::lemma_pairs(r);
    r
}

} // verus!
