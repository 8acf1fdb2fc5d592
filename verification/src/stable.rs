//! A stable sort of keyed values, smallest key first.
use vstd::prelude::*;

verus! {

/// `s` with `e` placed behind every entry whose key is not above its own,
/// for an ascending `s`.
pub open spec fn placed<T>(s: Seq<(u128, T)>, e: (u128, T)) -> Seq<(u128, T)>
    decreases s.len(),
{
    if s.len() == 0 || s.last().0 <= e.0 {
        s.push(e)
    } else {
        placed(s.drop_last(), e).push(s.last())
    }
}

/// The entries of `s` by ascending key, those of one key in the order of `s`.
pub open spec fn sorted<T>(s: Seq<(u128, T)>) -> Seq<(u128, T)>
    decreases s.len(),
{
    if s.len() == 0 {
        s
    } else {
        placed(sorted(s.drop_last()), s.last())
    }
}

pub open spec fn by_key<T>(s: Seq<(u128, T)>) -> bool {
    forall|i: int, j: int| 0 <= i <= j < s.len() ==> (#[trigger] s[i]).0 <= (#[trigger] s[j]).0
}

proof fn lemma_placed<T>(s: Seq<(u128, T)>, e: (u128, T))
    requires
        by_key(s),
    ensures
        by_key(placed(s, e)),
        placed(s, e).len() == s.len() + 1,
        forall|i: int|
            0 <= i < placed(s, e).len() ==> (#[trigger] placed(s, e)[i]).0 <= e.0 || (s.len() > 0
                && placed(s, e)[i].0 <= s.last().0),
    decreases s.len(),
{
    if s.len() > 0 && s.last().0 > e.0 {
        lemma_placed(s.drop_last(), e);
    }
}

/// Sorting orders the entries by key.
pub proof fn law_sorted_by_key<T>(s: Seq<(u128, T)>)
    ensures
        by_key(sorted(s)),
        sorted(s).len() == s.len(),
    decreases s.len(),
{
    if s.len() > 0 {
        law_sorted_by_key(s.drop_last());
        lemma_placed(sorted(s.drop_last()), s.last());
    }
}

proof fn lemma_placed_multiset<T>(s: Seq<(u128, T)>, e: (u128, T))
    ensures
        placed(s, e).to_multiset() == s.to_multiset().insert(e),
    decreases s.len(),
{
    broadcast use vstd::seq_lib::group_to_multiset_ensures;

    if s.len() > 0 && s.last().0 > e.0 {
        lemma_placed_multiset(s.drop_last(), e);
        assert(s =~= s.drop_last().push(s.last()));
        assert(placed(s, e).to_multiset() =~= s.to_multiset().insert(e));
    }
}

/// Sorting drops nothing and adds nothing.
pub proof fn law_sorted_permutes<T>(s: Seq<(u128, T)>)
    ensures
        sorted(s).to_multiset() == s.to_multiset(),
    decreases s.len(),
{
    broadcast use vstd::seq_lib::group_to_multiset_ensures;

    if s.len() > 0 {
        law_sorted_permutes(s.drop_last());
        lemma_placed_multiset(sorted(s.drop_last()), s.last());
        assert(s =~= s.drop_last().push(s.last()));
    }
}

/// What stands in the sorted sequence was there before.
pub proof fn lemma_sorted_element<T>(s: Seq<(u128, T)>, i: int)
    requires
        0 <= i < sorted(s).len(),
    ensures
        s.contains(sorted(s)[i]),
{
    broadcast use vstd::seq_lib::group_to_multiset_ensures;

    law_sorted_permutes(s);
    assert(sorted(s).contains(sorted(s)[i]));
    assert(s.to_multiset().count(sorted(s)[i]) > 0);
}

/// The entries of `s` under one key.
pub open spec fn under<T>(s: Seq<(u128, T)>, k: u128) -> Seq<(u128, T)> {
    s.filter(|e: (u128, T)| e.0 == k)
}

proof fn lemma_under_push<T>(s: Seq<(u128, T)>, e: (u128, T), k: u128)
    ensures
        under(s.push(e), k) == (if e.0 == k {
            under(s, k).push(e)
        } else {
            under(s, k)
        }),
{
    reveal(Seq::filter);
    assert(s.push(e).drop_last() =~= s);
}

proof fn lemma_placed_under<T>(s: Seq<(u128, T)>, e: (u128, T), k: u128)
    requires
        by_key(s),
    ensures
        under(placed(s, e), k) == under(s.push(e), k),
    decreases s.len(),
{
    if s.len() > 0 && s.last().0 > e.0 {
        let t = s.drop_last();
        lemma_placed_under(t, e, k);
        lemma_under_push(placed(t, e), s.last(), k);
        lemma_under_push(t, e, k);
        lemma_under_push(s, e, k);
        lemma_under_push(t, s.last(), k);
        assert(s =~= t.push(s.last()));
    }
}

/// Entries of one key keep their order.
pub proof fn law_sorted_is_stable<T>(s: Seq<(u128, T)>, k: u128)
    ensures
        under(sorted(s), k) == under(s, k),
    decreases s.len(),
{
    if s.len() > 0 {
        let t = s.drop_last();
        law_sorted_is_stable(t, k);
        law_sorted_by_key(t);
        lemma_placed_under(sorted(t), s.last(), k);
        lemma_under_push(sorted(t), s.last(), k);
        lemma_under_push(t, s.last(), k);
        assert(s =~= t.push(s.last()));
    }
}

/// Places one more entry in an ascending list.
fn place<T>(list: &mut Vec<(u128, T)>, e: (u128, T))
    ensures
        final(list)@ == placed(old(list)@, e),
{
    let ghost before = list@;
    let mut i: usize = list.len();
    assert(before.take(i as int) =~= before);
    assert(before.skip(i as int) =~= Seq::empty());
    assert(placed(before, e) =~= placed(before.take(i as int), e) + before.skip(i as int));
    while i > 0 && list[i - 1].0 > e.0
        invariant
            i <= list@.len(),
            list@ == before,
            placed(before, e) == placed(before.take(i as int), e) + before.skip(i as int),
        decreases i,
    {
        proof {
            let t = before.take(i as int);
            assert(t.drop_last() =~= before.take(i - 1));
            assert(t.last() == before[i - 1]);
            assert(seq![before[i - 1]] + before.skip(i as int) =~= before.skip(i - 1));
            assert(placed(t, e) + before.skip(i as int) =~= placed(t.drop_last(), e)
                + before.skip(i - 1));
        }
        i = i - 1;
    }
    proof {
        let t = before.take(i as int);
        assert(t.len() == 0 || t.last() == before[i - 1]);
        assert(before.insert(i as int, e) =~= t.push(e) + before.skip(i as int));
    }
    list.insert(i, e);
}

/// Sorts keyed values, keeping those of one key in order.
pub fn sort<T>(list: Vec<(u128, T)>) -> (r: Vec<(u128, T)>)
    ensures
        r@ == sorted(list@),
{
    let ghost whole = list@;
    let mut rest = list;
    let mut taken: Vec<(u128, T)> = Vec::new();
    // Turn the list round, so that popping meets the entries in order.
    while rest.len() > 0
        invariant
            rest@.len() + taken@.len() == whole.len(),
            rest@ == whole.take(rest@.len() as int),
            taken@.reverse() == whole.skip(rest@.len() as int),
        decreases rest@.len(),
    {
        let ghost n = rest@.len() as int;
        let e = rest.pop();
        if let Some(e) = e {
            let ghost before = taken@;
            taken.push(e);
            proof {
                assert(taken@.reverse() =~= seq![e] + before.reverse());
                assert(whole.skip(n - 1) =~= seq![whole[n - 1]] + whole.skip(n));
                assert(rest@ =~= whole.take(n - 1));
            }
        }
    }
    let mut out: Vec<(u128, T)> = Vec::new();
    assert(whole.skip(0) =~= whole);
    assert(whole.take(0) =~= Seq::empty());
    while taken.len() > 0
        invariant
            out@ == sorted(whole.take(whole.len() - taken@.len())),
            taken@.len() <= whole.len(),
            taken@.reverse() == whole.skip(whole.len() - taken@.len()),
        decreases taken@.len(),
    {
        let ghost n = whole.len() - taken@.len();
        let ghost before = taken@;
        let e = taken.pop();
        if let Some(e) = e {
            proof {
                assert(before.reverse()[0] == e);
                assert(whole.skip(n)[0] == whole[n]);
                assert(whole.take(n + 1).drop_last() =~= whole.take(n));
                assert(taken@.reverse() =~= before.reverse().skip(1));
                assert(whole.skip(n).skip(1) =~= whole.skip(n + 1));
            }
            place(&mut out, e);
        }
    }
    assert(whole.take(whole.len() as int) =~= whole);
    out
}

} // verus!
