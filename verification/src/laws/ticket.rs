//! Tickets: who was issued which.
use vstd::prelude::*;

use crate::ieee;
use crate::ticket::{alike, flat, has_issued, regrouped, with_issued, Ticket, Tickets};

verus! {

/// Two tickets are alike that have one secret and expire at one time.
pub proof fn law_alike(a: Ticket, b: Ticket)
    ensures
        alike(a, b) ==> a.secret == b.secret && ieee::eq(a.expires_unix, b.expires_unix),
        a.secret == b.secret && a.expires_unix == b.expires_unix && !ieee::nan(a.expires_unix)
            ==> alike(a, b),
        alike(a, b) == alike(b, a),
{
}

/// An issued ticket stands last among those of its peer and leaves the others
/// as they are.
pub proof fn law_issued_ticket(
    t: Tickets,
    peer: [u8; 16],
    ticket: Ticket,
    other: [u8; 16],
    o: Ticket,
)
    requires
        !ieee::nan(ticket.expires_unix),
    ensures
        ({
            let next = Tickets { inbound: with_issued(t.inbound, peer, ticket), ..t };
            &&& has_issued(next, peer, ticket)
            &&& next.inbound[peer].last() == ticket
            &&& t.inbound.contains_key(peer) ==> next.inbound[peer].len() == t.inbound[peer].len()
                + 1 && next.inbound[peer].drop_last() == t.inbound[peer]
            &&& !t.inbound.contains_key(peer) ==> next.inbound[peer].len() == 1
            &&& other != peer ==> has_issued(next, other, o) == has_issued(t, other, o)
            &&& has_issued(t, peer, o) ==> has_issued(next, peer, o)
        }),
{
    let next = Tickets { inbound: with_issued(t.inbound, peer, ticket), ..t };
    let l = next.inbound[peer];
    assert(alike(l[l.len() - 1], ticket));
    if t.inbound.contains_key(peer) {
        assert(l.drop_last() =~= t.inbound[peer]);
        if has_issued(t, peer, o) {
            let i = choose|i: int|
                0 <= i < t.inbound[peer].len() && alike(#[trigger] t.inbound[peer][i], o);
            assert(l[i] == t.inbound[peer][i]);
        }
    }
    if other != peer {
        assert(next.inbound.contains_key(other) == t.inbound.contains_key(other));
        if t.inbound.contains_key(other) {
            assert(next.inbound[other] == t.inbound[other]);
        }
    }
}

/// A ticket that is listed belongs to its peer afterwards, and only listed
/// tickets do.
pub proof fn law_regrouped(list: Seq<([u8; 16], Ticket)>, peer: [u8; 16], ticket: Ticket)
    ensures
        regrouped(list).contains_key(peer) && regrouped(list)[peer].contains(ticket)
            <==> list.contains((peer, ticket)),
    decreases list.len(),
{
    if list.len() > 0 {
        let r = list.drop_last();
        let (k, t) = list.last();
        law_regrouped(r, peer, ticket);
        let before = regrouped(r);
        let after = regrouped(list);
        assert(list[list.len() - 1] == (k, t));
        if list.contains((peer, ticket)) {
            let i = choose|i: int| 0 <= i < list.len() && list[i] == (peer, ticket);
            if i < r.len() {
                assert(r[i] == (peer, ticket));
                let j = choose|j: int| 0 <= j < before[peer].len() && before[peer][j] == ticket;
                assert(after[peer][j] == ticket);
            } else {
                assert(after[peer][after[peer].len() - 1] == ticket);
            }
        }
        if after.contains_key(peer) && after[peer].contains(ticket) {
            let j = choose|j: int| 0 <= j < after[peer].len() && after[peer][j] == ticket;
            if before.contains_key(peer) && j < before[peer].len() {
                assert(before[peer][j] == ticket);
                let i = choose|i: int| 0 <= i < r.len() && r[i] == (peer, ticket);
                assert(list[i] == (peer, ticket));
            } else {
                assert(k == peer && t == ticket);
            }
        }
    }
}

/// The tickets one by one are those of each peer, in the order of issue.
pub proof fn law_flat(groups: Seq<([u8; 16], Seq<Ticket>)>, peer: [u8; 16], l: Seq<Ticket>, i: int)
    ensures
        flat(Seq::empty()).len() == 0,
        flat(groups.push((peer, l))).len() == flat(groups).len() + l.len(),
        0 <= i < l.len() ==> flat(groups.push((peer, l)))[flat(groups).len() + i] == (peer, l[i]),
        0 <= i < flat(groups).len() ==> flat(groups.push((peer, l)))[i] == flat(groups)[i],
{
    assert(groups.push((peer, l)).drop_last() =~= groups);
}

} // verus!
