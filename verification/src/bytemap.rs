//! Ordered maps and sets keyed by fixed-size byte strings.
//!
//! Entries are kept sorted by key, so a walk over a map meets them in key
//! order and no key occurs twice.
use vstd::prelude::*;

verus! {

/// How two keys compare, byte by byte from the front.
#[derive(Debug, Clone, Copy, PartialEq, Eq, Structural)]
pub enum Rank {
    Below,
    Same,
    Above,
}

/// `i` is the first place where `a` and `b` differ.
pub open spec fn differ_first(a: Seq<u8>, b: Seq<u8>, i: int) -> bool {
    &&& 0 <= i < a.len()
    &&& i < b.len()
    &&& a[i] != b[i]
    &&& forall|j: int| 0 <= j < i ==> a[j] == b[j]
}

/// `a` sorts before `b`, for byte strings of one length.
pub open spec fn below(a: Seq<u8>, b: Seq<u8>) -> bool {
    exists|i: int| #[trigger] differ_first(a, b, i) && a[i] < b[i]
}

pub proof fn lemma_below_transitive(a: Seq<u8>, b: Seq<u8>, c: Seq<u8>)
    requires
        below(a, b),
        below(b, c),
    ensures
        below(a, c),
{
    let i = choose|i: int| #[trigger] differ_first(a, b, i) && a[i] < b[i];
    let j = choose|j: int| #[trigger] differ_first(b, c, j) && b[j] < c[j];
    let k = if i < j {
        i
    } else {
        j
    };
    assert(differ_first(a, c, k) && a[k] < c[k]);
}

pub proof fn lemma_below_asymmetric(a: Seq<u8>, b: Seq<u8>)
    requires
        below(a, b),
    ensures
        !below(b, a),
        a != b,
{
    let i = choose|i: int| #[trigger] differ_first(a, b, i) && a[i] < b[i];
    if below(b, a) {
        let j = choose|j: int| #[trigger] differ_first(b, a, j) && b[j] < a[j];
        if i < j {
            assert(b[i] == a[i]);
        } else if j < i {
            assert(a[j] == b[j]);
        }
    }
}

/// Byte-wise comparison of two keys.
pub fn rank<const N: usize>(a: &[u8; N], b: &[u8; N]) -> (r: Rank)
    ensures
        match r {
            Rank::Below => below(a@, b@),
            Rank::Same => a == b,
            Rank::Above => below(b@, a@),
        },
{
    let mut i: usize = 0;
    while i < N
        invariant
            i <= N,
            forall|j: int| 0 <= j < i ==> a@[j] == b@[j],
        decreases N - i,
    {
        if a[i] < b[i] {
            assert(differ_first(a@, b@, i as int));
            return Rank::Below;
        }
        if b[i] < a[i] {
            assert(differ_first(b@, a@, i as int));
            return Rank::Above;
        }
        i = i + 1;
    }
    assert(a@ =~= b@);
    assert(*a =~= *b);
    Rank::Same
}

/// Whether two byte arrays are equal.
pub fn same<const N: usize>(a: &[u8; N], b: &[u8; N]) -> (r: bool)
    ensures
        r == (*a == *b),
{
    match rank(a, b) {
        Rank::Same => true,
        Rank::Below => {
            proof {
                lemma_below_asymmetric(a@, b@);
            }
            false
        },
        Rank::Above => {
            proof {
                lemma_below_asymmetric(b@, a@);
            }
            false
        },
    }
}

/// Whether two byte slices are equal.
pub fn same_bytes(a: &[u8], b: &[u8]) -> (r: bool)
    ensures
        r == (a@ == b@),
{
    if a.len() != b.len() {
        return false;
    }
    let mut i: usize = 0;
    while i < a.len()
        invariant
            i <= a@.len() == b@.len(),
            forall|j: int| 0 <= j < i ==> a@[j] == b@[j],
        decreases a@.len() - i,
    {
        if a[i] != b[i] {
            return false;
        }
        i = i + 1;
    }
    assert(a@ =~= b@);
    true
}

/// The bytes as an array, where their number is that of the array.
pub fn to_array<const N: usize>(s: &[u8]) -> (r: Option<[u8; N]>)
    ensures
        match r {
            Some(a) => a@ == s@,
            None => s@.len() != N,
        },
{
    if s.len() != N {
        return None;
    }
    let mut a = [0u8;N];
    let mut i: usize = 0;
    while i < N
        invariant
            i <= N,
            s@.len() == N,
            forall|j: int| 0 <= j < i ==> a@[j] == s@[j],
        decreases N - i,
    {
        a[i] = s[i];
        i = i + 1;
    }
    assert(a@ =~= s@);
    Some(a)
}

/// A copy of the bytes.
pub fn to_vec(s: &[u8]) -> (r: Vec<u8>)
    ensures
        r@ == s@,
{
    let mut v: Vec<u8> = Vec::new();
    v.extend_from_slice(s);
    assert(v@ =~= s@);
    v
}

/// An array is determined by its bytes.
pub proof fn lemma_array_injective<const N: usize>(a: [u8; N], b: [u8; N])
    requires
        a@ == b@,
    ensures
        a == b,
{
    assert(a =~= b);
}

/// Every key sorts before the keys behind it.
pub open spec fn ascending<const N: usize, V>(s: Seq<([u8; N], V)>) -> bool {
    forall|i: int, j: int| 0 <= i < j < s.len() ==> below(#[trigger] s[i].0@, #[trigger] s[j].0@)
}

/// Some entry has the key `k`.
pub open spec fn has_key<const N: usize, V>(s: Seq<([u8; N], V)>, k: [u8; N]) -> bool {
    exists|i: int| 0 <= i < s.len() && (#[trigger] s[i]).0 == k
}

pub open spec fn key_index<const N: usize, V>(s: Seq<([u8; N], V)>, k: [u8; N]) -> int {
    choose|i: int| 0 <= i < s.len() && (#[trigger] s[i]).0 == k
}

/// The map that a list of entries stands for.
pub open spec fn map_of<const N: usize, V>(s: Seq<([u8; N], V)>) -> Map<[u8; N], V> {
    Map::new(|k: [u8; N]| has_key(s, k), |k: [u8; N]| s[key_index(s, k)].1)
}

pub proof fn lemma_unique<const N: usize, V>(s: Seq<([u8; N], V)>, i: int, j: int)
    requires
        ascending(s),
        0 <= i < s.len(),
        0 <= j < s.len(),
        s[i].0 == s[j].0,
    ensures
        i == j,
{
    if i < j {
        lemma_below_asymmetric(s[i].0@, s[j].0@);
    } else if j < i {
        lemma_below_asymmetric(s[j].0@, s[i].0@);
    }
}

/// An entry is what the map holds under its key.
pub proof fn lemma_entry<const N: usize, V>(s: Seq<([u8; N], V)>, i: int)
    requires
        ascending(s),
        0 <= i < s.len(),
    ensures
        map_of(s).contains_key(s[i].0),
        map_of(s)[s[i].0] == s[i].1,
        key_index(s, s[i].0) == i,
{
    assert(has_key(s, s[i].0));
    lemma_unique(s, i, key_index(s, s[i].0));
}

/// A map has as many keys as entries.
pub proof fn lemma_len<const N: usize, V>(s: Seq<([u8; N], V)>)
    requires
        ascending(s),
    ensures
        map_of(s).dom().finite(),
        map_of(s).dom().len() == s.len(),
    decreases s.len(),
{
    if s.len() == 0 {
        assert(map_of(s).dom() =~= Set::empty());
    } else {
        let t = s.drop_last();
        let k = s.last().0;
        lemma_len(t);
        assert forall|q: [u8; N]| #[trigger] has_key(s, q) == (has_key(t, q) || q == k) by {
            if has_key(t, q) {
                let j = key_index(t, q);
                assert(s[j].0 == q);
            }
            if has_key(s, q) {
                let j = key_index(s, q);
                if j < t.len() {
                    assert(t[j].0 == q);
                }
            }
            assert(s[s.len() - 1].0 == k);
        }
        if has_key(t, k) {
            let j = key_index(t, k);
            assert(s[j].0 == k);
            lemma_unique(s, j, s.len() - 1);
        }
        assert(map_of(s).dom() =~= map_of(t).dom().insert(k));
    }
}

/// A map from byte strings of length `N`.
#[derive(Debug, Clone)]
pub struct ByteMap<const N: usize, V> {
    pub entries: Vec<([u8; N], V)>,
}

impl<const N: usize, V> View for ByteMap<N, V> {
    type V = Map<[u8; N], V>;

    open spec fn view(&self) -> Map<[u8; N], V> {
        map_of(self.entries@)
    }
}

impl<const N: usize, V> ByteMap<N, V> {
    pub open spec fn wf(&self) -> bool {
        ascending(self.entries@)
    }

    pub fn new() -> (r: Self)
        ensures
            r.wf(),
            r@ == Map::<[u8; N], V>::empty(),
            r.entries@.len() == 0,
    {
        let r = ByteMap { entries: Vec::new() };
        assert(r@ =~= Map::<[u8; N], V>::empty());
        r
    }

    pub fn len(&self) -> (r: usize)
        ensures
            r == self.entries@.len(),
    {
        self.entries.len()
    }

    pub fn is_empty(&self) -> (r: bool)
        ensures
            r == (self.entries@.len() == 0),
    {
        self.entries.len() == 0
    }

    /// The place of a key, or the place where it would be inserted.
    fn find(&self, k: &[u8; N]) -> (r: Result<usize, usize>)
        requires
            self.wf(),
        ensures
            match r {
                Ok(i) => i < self.entries@.len() && self.entries@[i as int].0 == *k,
                Err(i) => {
                    &&& i <= self.entries@.len()
                    &&& forall|j: int| 0 <= j < i ==> below((#[trigger] self.entries@[j]).0@, k@)
                    &&& forall|j: int|
                        i <= j < self.entries@.len() ==> below(k@, (#[trigger] self.entries@[j]).0@)
                },
            },
    {
        let mut lo: usize = 0;
        let mut hi: usize = self.entries.len();
        while lo < hi
            invariant
                self.wf(),
                lo <= hi <= self.entries@.len(),
                forall|j: int| 0 <= j < lo ==> below((#[trigger] self.entries@[j]).0@, k@),
                forall|j: int|
                    hi <= j < self.entries@.len() ==> below(k@, (#[trigger] self.entries@[j]).0@),
            decreases hi - lo,
        {
            let mid: usize = lo + (hi - lo) / 2;
            match rank(&self.entries[mid].0, k) {
                Rank::Same => {
                    return Ok(mid);
                },
                Rank::Below => {
                    assert forall|j: int| 0 <= j < mid + 1 implies below(
                        (#[trigger] self.entries@[j]).0@,
                        k@,
                    ) by {
                        if lo <= j < mid {
                            lemma_below_transitive(
                                self.entries@[j].0@,
                                self.entries@[mid as int].0@,
                                k@,
                            );
                        }
                    }
                    lo = mid + 1;
                },
                Rank::Above => {
                    assert forall|j: int| mid <= j < self.entries@.len() implies below(
                        k@,
                        (#[trigger] self.entries@[j]).0@,
                    ) by {
                        if mid < j < hi {
                            lemma_below_transitive(
                                k@,
                                self.entries@[mid as int].0@,
                                self.entries@[j].0@,
                            );
                        }
                    }
                    hi = mid;
                },
            }
        }
        Err(lo)
    }

    /// The place of a key in the key order.
    pub fn index_of(&self, k: &[u8; N]) -> (r: Option<usize>)
        requires
            self.wf(),
        ensures
            match r {
                Some(i) => {
                    &&& i < self.entries@.len()
                    &&& self.entries@[i as int].0 == *k
                    &&& self@.contains_key(*k)
                    &&& self@[*k] == self.entries@[i as int].1
                },
                None => !self@.contains_key(*k),
            },
    {
        match self.find(k) {
            Ok(i) => {
                proof {
                    lemma_entry(self.entries@, i as int);
                }
                Some(i)
            },
            Err(i) => {
                proof {
                    if has_key(self.entries@, *k) {
                        let j = key_index(self.entries@, *k);
                        if j < i {
                            lemma_below_asymmetric(self.entries@[j].0@, k@);
                        } else {
                            lemma_below_asymmetric(k@, self.entries@[j].0@);
                        }
                    }
                }
                None
            },
        }
    }

    pub fn contains(&self, k: &[u8; N]) -> (r: bool)
        requires
            self.wf(),
        ensures
            r == self@.contains_key(*k),
    {
        self.index_of(k).is_some()
    }

    pub fn get(&self, k: &[u8; N]) -> (r: Option<&V>)
        requires
            self.wf(),
        ensures
            match r {
                Some(v) => self@.contains_key(*k) && *v == self@[*k],
                None => !self@.contains_key(*k),
            },
    {
        match self.index_of(k) {
            Some(i) => Some(&self.entries[i].1),
            None => None,
        }
    }

    /// The value of a key, to be changed in place.
    pub fn get_mut(&mut self, k: &[u8; N]) -> (r: Option<&mut V>)
        requires
            old(self).wf(),
        ensures
            match r {
                Some(v) => {
                    &&& old(self)@.contains_key(*k)
                    &&& *v == old(self)@[*k]
                    &&& final(self).wf()
                    &&& final(self)@ == old(self)@.insert(*k, *final(v))
                    &&& final(self).entries@.len() == old(self).entries@.len()
                },
                None => !old(self)@.contains_key(*k) && *final(self) == *old(self),
            },
    {
        match self.index_of(k) {
            Some(i) => {
                let ghost before = self.entries@;
                proof {
                    assert forall|v: V| #[trigger]
                        map_of(before.update(i as int, (before[i as int].0, v))) == map_of(
                            before,
                        ).insert(before[i as int].0, v) && ascending(
                            before.update(i as int, (before[i as int].0, v)),
                        ) by {
                        lemma_replaced(before, i as int, v);
                    }
                }
                Some(&mut self.entries[i].1)
            },
            None => None,
        }
    }

    /// Replaces the value at a place.
    pub fn set_at(&mut self, i: usize, v: V)
        requires
            old(self).wf(),
            i < old(self).entries@.len(),
        ensures
            final(self).wf(),
            final(self).entries@ == old(self).entries@.update(
                i as int,
                (old(self).entries@[i as int].0, v),
            ),
            final(self)@ == old(self)@.insert(old(self).entries@[i as int].0, v),
    {
        let ghost before = self.entries@;
        let k = self.entries[i].0;
        self.entries.set(i, (k, v));
        proof {
            lemma_replaced(before, i as int, v);
        }
    }

    /// Inserts or replaces; returns what stood there before.
    pub fn insert(&mut self, k: [u8; N], v: V) -> (r: Option<V>)
        requires
            old(self).wf(),
        ensures
            final(self).wf(),
            final(self)@ == old(self)@.insert(k, v),
            match r {
                Some(o) => {
                    &&& old(self)@.contains_key(k)
                    &&& o == old(self)@[k]
                    &&& final(self).entries@.len() == old(self).entries@.len()
                    &&& final(self).entries@ == old(self).entries@.update(
                        key_index(old(self).entries@, k),
                        (k, v),
                    )
                },
                None => {
                    &&& !old(self)@.contains_key(k)
                    &&& final(self).entries@.len() == old(self).entries@.len() + 1
                    &&& exists|i: int|
                        0 <= i <= old(self).entries@.len() && final(self).entries@ == (
                        #[trigger] old(self).entries@.insert(i, (k, v)))
                },
            },
    {
        let ghost before = self.entries@;
        match self.find(&k) {
            Ok(i) => {
                proof {
                    lemma_entry(before, i as int);
                    lemma_replaced(before, i as int, v);
                }
                let old_entry = self.entries.remove(i);
                self.entries.insert(i, (k, v));
                assert(self.entries@ =~= before.update(i as int, (k, v)));
                Some(old_entry.1)
            },
            Err(i) => {
                self.entries.insert(i, (k, v));
                proof {
                    lemma_inserted(before, i as int, k, v);
                }
                None
            },
        }
    }

    /// Removes the entry of a key and returns its value.
    pub fn remove(&mut self, k: &[u8; N]) -> (r: Option<V>)
        requires
            old(self).wf(),
        ensures
            final(self).wf(),
            final(self)@ == old(self)@.remove(*k),
            match r {
                Some(o) => {
                    &&& old(self)@.contains_key(*k)
                    &&& o == old(self)@[*k]
                    &&& final(self).entries@.len() + 1 == old(self).entries@.len()
                    &&& final(self).entries@ == old(self).entries@.remove(
                        key_index(old(self).entries@, *k),
                    )
                },
                None => !old(self)@.contains_key(*k) && *final(self) == *old(self),
            },
    {
        match self.index_of(k) {
            Some(i) => {
                let ghost before = self.entries@;
                let e = self.entries.remove(i);
                proof {
                    lemma_entry(before, i as int);
                    lemma_removed(before, i as int);
                }
                Some(e.1)
            },
            None => {
                assert(self@ =~= self@.remove(*k));
                None
            },
        }
    }

    /// Removes the entry at a place.
    pub fn remove_at(&mut self, i: usize) -> (r: ([u8; N], V))
        requires
            old(self).wf(),
            i < old(self).entries@.len(),
        ensures
            final(self).wf(),
            r == old(self).entries@[i as int],
            final(self).entries@ == old(self).entries@.remove(i as int),
            final(self)@ == old(self)@.remove(r.0),
    {
        let ghost before = self.entries@;
        let e = self.entries.remove(i);
        proof {
            lemma_removed(before, i as int);
        }
        e
    }
}

impl<const N: usize, V> ByteMap<N, V> {
    /// Keeps the entries that `keep` accepts.
    pub fn retain<F: Fn(&[u8; N], &V) -> bool>(
        &mut self,
        keep: F,
        Ghost(kept): Ghost<spec_fn([u8; N], V) -> bool>,
    )
        requires
            old(self).wf(),
            forall|k: &[u8; N], v: &V| call_requires(keep, (k, v)),
            forall|k: &[u8; N], v: &V, b: bool| #[trigger]
                call_ensures(keep, (k, v), b) ==> b == kept(*k, *v),
        ensures
            final(self).wf(),
            final(self)@ == restricted(old(self)@, kept),
    {
        let ghost before = *self;
        let mut i: usize = self.entries.len();
        while i > 0
            invariant
                i <= self.entries@.len(),
                self.wf(),
                before == *old(self),
                forall|k: &[u8; N], v: &V| call_requires(keep, (k, v)),
                forall|k: &[u8; N], v: &V, b: bool| #[trigger]
                    call_ensures(keep, (k, v), b) ==> b == kept(*k, *v),
                forall|j: int|
                    i <= j < self.entries@.len() ==> kept(
                        (#[trigger] self.entries@[j]).0,
                        self.entries@[j].1,
                    ),
                forall|k: [u8; N]| #[trigger]
                    self@.contains_key(k) ==> before@.contains_key(k) && self@[k] == before@[k],
                forall|k: [u8; N]| #[trigger]
                    before@.contains_key(k) && kept(k, before@[k]) ==> self@.contains_key(k),
            decreases i,
        {
            i = i - 1;
            let ghost now = *self;
            proof {
                lemma_entry(now.entries@, i as int);
            }
            let stays = keep(&self.entries[i].0, &self.entries[i].1);
            if !stays {
                let _ = self.remove_at(i);
                proof {
                    assert forall|j: int| i <= j < self.entries@.len() implies kept(
                        (#[trigger] self.entries@[j]).0,
                        self.entries@[j].1,
                    ) by {
                        assert(self.entries@[j] == now.entries@[j + 1]);
                    }
                }
            }
        }
        proof {
            assert forall|k: [u8; N]| #[trigger] self@.contains_key(k) implies kept(k, before@[k]) by {
                let j = key_index(self.entries@, k);
                assert(self.entries@[j].0 == k);
                lemma_entry(self.entries@, j);
            }
            assert(self@ =~= restricted(before@, kept));
        }
    }
}

/// `k` is the lowest key whose value a predicate accepts.
pub open spec fn is_first<const N: usize, V>(
    m: Map<[u8; N], V>,
    wanted: spec_fn(V) -> bool,
    k: [u8; N],
) -> bool {
    &&& m.contains_key(k)
    &&& wanted(m[k])
    &&& forall|o: [u8; N]| #[trigger] m.contains_key(o) && wanted(m[o]) ==> o == k || below(k@, o@)
}

/// The lowest key whose value a predicate accepts, if there is one.
pub open spec fn first_key<const N: usize, V>(
    m: Map<[u8; N], V>,
    wanted: spec_fn(V) -> bool,
) -> Option<[u8; N]> {
    if exists|k: [u8; N]| is_first(m, wanted, k) {
        Some(choose|k: [u8; N]| is_first(m, wanted, k))
    } else {
        None
    }
}

/// Two lowest keys are one.
pub proof fn lemma_first_unique<const N: usize, V>(
    m: Map<[u8; N], V>,
    wanted: spec_fn(V) -> bool,
    k: [u8; N],
)
    requires
        is_first(m, wanted, k),
    ensures
        first_key(m, wanted) == Some(k),
{
    let o = choose|o: [u8; N]| is_first(m, wanted, o);
    if o != k {
        lemma_below_asymmetric(k@, o@);
    }
}

impl<const N: usize, V> ByteMap<N, V> {
    /// The place of the first entry, in key order, whose value `test` accepts.
    pub fn first_where<F: Fn(&V) -> bool>(
        &self,
        test: F,
        Ghost(wanted): Ghost<spec_fn(V) -> bool>,
    ) -> (r: Option<usize>)
        requires
            self.wf(),
            forall|v: &V| call_requires(test, (v,)),
            forall|v: &V, b: bool| #[trigger] call_ensures(test, (v,), b) ==> b == wanted(*v),
        ensures
            match r {
                Some(i) => {
                    &&& i < self.entries@.len()
                    &&& first_key(self@, wanted) == Some(self.entries@[i as int].0)
                    &&& self@.contains_key(self.entries@[i as int].0)
                    &&& self@[self.entries@[i as int].0] == self.entries@[i as int].1
                    &&& wanted(self.entries@[i as int].1)
                },
                None => {
                    &&& first_key(self@, wanted) == None::<[u8; N]>
                    &&& forall|k: [u8; N]| #[trigger] self@.contains_key(k) ==> !wanted(self@[k])
                },
            },
    {
        let mut i: usize = 0;
        while i < self.entries.len()
            invariant
                i <= self.entries@.len(),
                self.wf(),
                forall|v: &V| call_requires(test, (v,)),
                forall|v: &V, b: bool| #[trigger] call_ensures(test, (v,), b) ==> b == wanted(*v),
                forall|j: int| 0 <= j < i ==> !wanted((#[trigger] self.entries@[j]).1),
            decreases self.entries@.len() - i,
        {
            if test(&self.entries[i].1) {
                proof {
                    let k = self.entries@[i as int].0;
                    lemma_entry(self.entries@, i as int);
                    assert forall|o: [u8; N]| #[trigger]
                        self@.contains_key(o) && wanted(self@[o]) implies o == k || below(
                        k@,
                        o@,
                    ) by {
                        let j = key_index(self.entries@, o);
                        assert(self.entries@[j].0 == o);
                        lemma_entry(self.entries@, j);
                    }
                    lemma_first_unique(self@, wanted, k);
                }
                return Some(i);
            }
            i = i + 1;
        }
        proof {
            assert forall|k: [u8; N]| #[trigger] self@.contains_key(k) implies !wanted(self@[k]) by {
                let j = key_index(self.entries@, k);
                assert(self.entries@[j].0 == k);
                lemma_entry(self.entries@, j);
            }
        }
        None
    }
}

/// The keys whose values a predicate accepts, in key order.
pub open spec fn keys_where<const N: usize, V>(
    m: Map<[u8; N], V>,
    wanted: spec_fn(V) -> bool,
) -> Seq<[u8; N]>
    decreases m.dom().len(),
    when m.dom().finite()
{
    match first_key(m, wanted) {
        Some(k) => {
            proof {
                lemma_first_is_first(m, wanted);
            }
            seq![k] + keys_where(m.remove(k), wanted)
        },
        None => seq![],
    }
}

pub proof fn lemma_first_is_first<const N: usize, V>(
    m: Map<[u8; N], V>,
    wanted: spec_fn(V) -> bool,
)
    ensures
        first_key(m, wanted) matches Some(k) ==> is_first(m, wanted, k),
{
}

/// Every key that a predicate selects is in the map, with a value that it
/// accepts.
pub proof fn lemma_keys_where<const N: usize, V>(
    m: Map<[u8; N], V>,
    wanted: spec_fn(V) -> bool,
    i: int,
)
    requires
        m.dom().finite(),
        0 <= i < keys_where(m, wanted).len(),
    ensures
        m.contains_key(keys_where(m, wanted)[i]),
        wanted(m[keys_where(m, wanted)[i]]),
    decreases m.dom().len(),
{
    lemma_first_is_first(m, wanted);
    if let Some(f) = first_key(m, wanted) {
        if i > 0 {
            lemma_keys_where(m.remove(f), wanted, i - 1);
            assert(keys_where(m, wanted)[i] == keys_where(m.remove(f), wanted)[i - 1]);
        }
    }
}

impl<const N: usize, V> ByteMap<N, V> {
    /// Takes out the entries whose values `test` accepts, in key order.
    pub fn take_where<F: Fn(&V) -> bool>(
        &mut self,
        test: F,
        Ghost(wanted): Ghost<spec_fn(V) -> bool>,
    ) -> (r: Vec<([u8; N], V)>)
        requires
            old(self).wf(),
            forall|v: &V| call_requires(test, (v,)),
            forall|v: &V, b: bool| #[trigger] call_ensures(test, (v,), b) ==> b == wanted(*v),
        ensures
            final(self).wf(),
            final(self)@ == restricted(old(self)@, |k: [u8; N], v: V| !wanted(v)),
            r@ == keys_where(old(self)@, wanted).map_values(|k: [u8; N]| (k, old(self)@[k])),
    {
        let ghost before = self@;
        let ghost whole = keys_where(before, wanted);
        let ghost pair = |k: [u8; N]| (k, before[k]);
        let ghost stays = |k: [u8; N], v: V| !wanted(v);
        let mut taken: Vec<([u8; N], V)> = Vec::new();
        proof {
            lemma_len(self.entries@);
            assert(taken@ + whole.map_values(pair) =~= whole.map_values(pair));
        }
        let mut i: usize = 0;
        while i < self.entries.len()
            invariant
                i <= self.entries@.len(),
                self.wf(),
                before == old(self)@,
                whole == keys_where(before, wanted),
                pair == (|k: [u8; N]| (k, before[k])),
                forall|v: &V| call_requires(test, (v,)),
                forall|v: &V, b: bool| #[trigger] call_ensures(test, (v,), b) ==> b == wanted(*v),
                forall|j: int| 0 <= j < i ==> !wanted((#[trigger] self.entries@[j]).1),
                forall|k: [u8; N]| #[trigger]
                    self@.contains_key(k) ==> before.contains_key(k) && self@[k] == before[k],
                forall|k: [u8; N]| #[trigger]
                    before.contains_key(k) && !wanted(before[k]) ==> self@.contains_key(k),
                taken@ + keys_where(self@, wanted).map_values(pair) == whole.map_values(pair),
            decreases self.entries@.len() - i,
        {
            let ghost now = *self;
            if test(&self.entries[i].1) {
                proof {
                    let k = now.entries@[i as int].0;
                    lemma_len(now.entries@);
                    lemma_entry(now.entries@, i as int);
                    assert forall|o: [u8; N]| #[trigger]
                        now@.contains_key(o) && wanted(now@[o]) implies o == k || below(
                        k@,
                        o@,
                    ) by {
                        let j = key_index(now.entries@, o);
                        assert(now.entries@[j].0 == o);
                        lemma_entry(now.entries@, j);
                    }
                    lemma_first_unique(now@, wanted, k);
                }
                let ghost had = taken@;
                let entry = self.remove_at(i);
                taken.push(entry);
                proof {
                    let k = now.entries@[i as int].0;
                    let rest = keys_where(self@, wanted);
                    assert(keys_where(now@, wanted) == seq![k] + rest);
                    assert((seq![k] + rest).map_values(pair) =~= seq![pair(k)] + rest.map_values(
                        pair,
                    ));
                    assert(before[k] == entry.1);
                    assert(taken@ + rest.map_values(pair) =~= had + (seq![pair(k)]
                        + rest.map_values(pair)));
                    assert forall|j: int| 0 <= j < i implies !wanted(
                        (#[trigger] self.entries@[j]).1,
                    ) by {
                        assert(self.entries@[j] == now.entries@[j]);
                    }
                }
            } else {
                i = i + 1;
            }
        }
        proof {
            assert forall|k: [u8; N]| #[trigger] self@.contains_key(k) implies !wanted(self@[k]) by {
                let j = key_index(self.entries@, k);
                assert(self.entries@[j].0 == k);
                lemma_entry(self.entries@, j);
            }
            lemma_first_is_first(self@, wanted);
            lemma_len(self.entries@);
            assert(keys_where(self@, wanted) =~= Seq::<[u8; N]>::empty());
            assert(taken@ =~= whole.map_values(pair));
            assert(self@ =~= restricted(before, stays));
        }
        taken
    }
}

/// The entries of a map that a predicate accepts.
pub open spec fn restricted<K, V>(m: Map<K, V>, kept: spec_fn(K, V) -> bool) -> Map<K, V> {
    Map::new(|k: K| m.contains_key(k) && kept(k, m[k]), |k: K| m[k])
}

pub proof fn lemma_replaced<const N: usize, V>(s: Seq<([u8; N], V)>, i: int, v: V)
    requires
        ascending(s),
        0 <= i < s.len(),
    ensures
        ascending(s.update(i, (s[i].0, v))),
        map_of(s.update(i, (s[i].0, v))) == map_of(s).insert(s[i].0, v),
{
    let t = s.update(i, (s[i].0, v));
    assert forall|a: int, b: int| 0 <= a < b < t.len() implies below(
        #[trigger] t[a].0@,
        #[trigger] t[b].0@,
    ) by {
        assert(below(s[a].0@, s[b].0@));
    }
    assert forall|k: [u8; N]| #[trigger] has_key(t, k) == (has_key(s, k) || k == s[i].0) by {
        if has_key(t, k) {
            let j = key_index(t, k);
            assert(s[j].0 == k);
        }
        if has_key(s, k) {
            let j = key_index(s, k);
            assert(t[j].0 == k);
        }
        assert(t[i].0 == s[i].0);
    }
    assert forall|k: [u8; N]| has_key(t, k) implies t[#[trigger] key_index(t, k)].1 == map_of(
        s,
    ).insert(s[i].0, v)[k] by {
        let j = key_index(t, k);
        if k == s[i].0 {
            lemma_unique(t, i, j);
        } else {
            assert(s[j].0 == k);
            lemma_unique(s, j, key_index(s, k));
        }
    }
    assert(map_of(t) =~= map_of(s).insert(s[i].0, v));
}

pub proof fn lemma_inserted<const N: usize, V>(s: Seq<([u8; N], V)>, i: int, k: [u8; N], v: V)
    requires
        ascending(s),
        0 <= i <= s.len(),
        forall|j: int| 0 <= j < i ==> below((#[trigger] s[j]).0@, k@),
        forall|j: int| i <= j < s.len() ==> below(k@, (#[trigger] s[j]).0@),
    ensures
        ascending(s.insert(i, (k, v))),
        map_of(s.insert(i, (k, v))) == map_of(s).insert(k, v),
        !map_of(s).contains_key(k),
{
    let t = s.insert(i, (k, v));
    assert forall|a: int, b: int| 0 <= a < b < t.len() implies below(
        #[trigger] t[a].0@,
        #[trigger] t[b].0@,
    ) by {
        let sa = if a < i {
            a
        } else {
            a - 1
        };
        let sb = if b < i {
            b
        } else {
            b - 1
        };
        if a != i {
            assert(t[a] == s[sa]);
        }
        if b != i {
            assert(t[b] == s[sb]);
        }
    }
    if has_key(s, k) {
        let j = key_index(s, k);
        if j < i {
            lemma_below_asymmetric(s[j].0@, k@);
        } else {
            lemma_below_asymmetric(k@, s[j].0@);
        }
    }
    assert forall|q: [u8; N]| #[trigger] has_key(t, q) == (has_key(s, q) || q == k) by {
        if has_key(t, q) {
            let j = key_index(t, q);
            if j < i {
                assert(s[j].0 == q);
            } else if j > i {
                assert(s[j - 1].0 == q);
            }
        }
        if has_key(s, q) {
            let j = key_index(s, q);
            if j < i {
                assert(t[j].0 == q);
            } else {
                assert(t[j + 1].0 == q);
            }
        }
        assert(t[i].0 == k);
    }
    assert forall|q: [u8; N]| has_key(t, q) implies t[#[trigger] key_index(t, q)].1 == map_of(
        s,
    ).insert(k, v)[q] by {
        let j = key_index(t, q);
        if q == k {
            lemma_unique(t, i, j);
        } else {
            let m = if j < i {
                j
            } else {
                j - 1
            };
            assert(s[m].0 == q);
            lemma_unique(s, m, key_index(s, q));
        }
    }
    assert(map_of(t) =~= map_of(s).insert(k, v));
}

pub proof fn lemma_removed<const N: usize, V>(s: Seq<([u8; N], V)>, i: int)
    requires
        ascending(s),
        0 <= i < s.len(),
    ensures
        ascending(s.remove(i)),
        map_of(s.remove(i)) == map_of(s).remove(s[i].0),
{
    let t = s.remove(i);
    let k = s[i].0;
    assert forall|a: int, b: int| 0 <= a < b < t.len() implies below(
        #[trigger] t[a].0@,
        #[trigger] t[b].0@,
    ) by {
        let sa = if a < i {
            a
        } else {
            a + 1
        };
        let sb = if b < i {
            b
        } else {
            b + 1
        };
        assert(below(s[sa].0@, s[sb].0@));
    }
    assert forall|q: [u8; N]| #[trigger] has_key(t, q) == (has_key(s, q) && q != k) by {
        if has_key(t, q) {
            let j = key_index(t, q);
            let m = if j < i {
                j
            } else {
                j + 1
            };
            assert(s[m].0 == q);
            if q == k {
                lemma_unique(s, i, m);
            }
        }
        if has_key(s, q) && q != k {
            let j = key_index(s, q);
            if j < i {
                assert(t[j].0 == q);
            } else {
                assert(t[j - 1].0 == q);
            }
        }
    }
    assert forall|q: [u8; N]| has_key(t, q) implies t[#[trigger] key_index(t, q)].1 == map_of(
        s,
    ).remove(k)[q] by {
        let j = key_index(t, q);
        let m = if j < i {
            j
        } else {
            j + 1
        };
        assert(s[m].0 == q);
        lemma_unique(s, m, key_index(s, q));
    }
    assert(map_of(t) =~= map_of(s).remove(k));
}

/// The entries of a map, in key order.
pub open spec fn pairs<const N: usize, V>(m: Map<[u8; N], V>) -> Seq<([u8; N], V)> {
    keys_where(m, |v: V| true).map_values(|k: [u8; N]| (k, m[k]))
}

/// A sorted list of entries is the one that its map has.
pub proof fn lemma_pairs<const N: usize, V>(s: Seq<([u8; N], V)>)
    requires
        ascending(s),
    ensures
        pairs(map_of(s)) == s,
        map_of(s).dom().finite(),
    decreases s.len(),
{
    let all = |v: V| true;
    let m = map_of(s);
    lemma_len(s);
    if s.len() == 0 {
        lemma_first_is_first(m, all);
        assert(keys_where(m, all) =~= Seq::<[u8; N]>::empty());
        assert(pairs(m) =~= s);
    } else {
        let k = s[0].0;
        let t = s.remove(0);
        lemma_entry(s, 0);
        lemma_removed(s, 0);
        assert(is_first(m, all, k)) by {
            assert forall|o: [u8; N]| #[trigger] m.contains_key(o) && all(m[o]) implies o == k
                || below(k@, o@) by {
                let j = key_index(s, o);
                assert(s[j].0 == o);
            }
        }
        lemma_first_unique(m, all, k);
        lemma_pairs(t);
        let rest = keys_where(m.remove(k), all);
        assert(map_of(t) == m.remove(k));
        assert(keys_where(m, all) == seq![k] + rest);
        assert forall|i: int| 0 <= i < s.len() implies #[trigger] pairs(m)[i] == s[i] by {
            if i > 0 {
                assert(t[i - 1] == s[i]);
                assert(pairs(map_of(t))[i - 1] == (rest[i - 1], m.remove(k)[rest[i - 1]]));
                lemma_keys_where(m.remove(k), all, i - 1);
            }
        }
        assert(pairs(map_of(t)).len() == rest.len());
        assert(pairs(m) =~= s);
    }
}

/// Mapping the values of a sorted list maps those of its map.
pub proof fn lemma_mapped<const N: usize, V, W>(s: Seq<([u8; N], V)>, f: spec_fn(V) -> W)
    requires
        ascending(s),
    ensures
        ascending(s.map_values(|e: ([u8; N], V)| (e.0, f(e.1)))),
        map_of(s.map_values(|e: ([u8; N], V)| (e.0, f(e.1)))) == map_of(s).map_values(f),
{
    let t = s.map_values(|e: ([u8; N], V)| (e.0, f(e.1)));
    assert forall|i: int, j: int| 0 <= i < j < t.len() implies below(
        #[trigger] t[i].0@,
        #[trigger] t[j].0@,
    ) by {
        assert(below(s[i].0@, s[j].0@));
    }
    assert forall|k: [u8; N]| #[trigger] has_key(t, k) == has_key(s, k) by {
        if has_key(t, k) {
            assert(s[key_index(t, k)].0 == k);
        }
        if has_key(s, k) {
            assert(t[key_index(s, k)].0 == k);
        }
    }
    assert forall|k: [u8; N]| has_key(t, k) implies #[trigger] map_of(t)[k] == f(map_of(s)[k]) by {
        let j = key_index(t, k);
        assert(s[j].0 == k);
        lemma_entry(s, j);
        lemma_entry(t, j);
    }
    assert(map_of(t) =~= map_of(s).map_values(f));
}

/// No key occurs twice.
pub open spec fn distinct<K, V>(s: Seq<(K, V)>) -> bool {
    forall|i: int, j: int| 0 <= i < j < s.len() ==> (#[trigger] s[i]).0 != (#[trigger] s[j]).0
}

/// The map that a list of entries gathers, in any order.
pub open spec fn gathered<K, V>(s: Seq<(K, V)>) -> Map<K, V>
    decreases s.len(),
{
    if s.len() == 0 {
        Map::empty()
    } else {
        gathered(s.drop_last()).insert(s.last().0, s.last().1)
    }
}

/// The keys of a gathered map are those of its list.
pub proof fn lemma_gathered_keys<K, V>(s: Seq<(K, V)>, k: K)
    ensures
        gathered(s).contains_key(k) <==> exists|i: int| 0 <= i < s.len() && (#[trigger] s[i]).0 == k,
    decreases s.len(),
{
    if s.len() > 0 {
        let t = s.drop_last();
        lemma_gathered_keys(t, k);
        if gathered(s).contains_key(k) {
            if k == s.last().0 {
                assert(s[s.len() - 1].0 == k);
            } else {
                let i = choose|i: int| 0 <= i < t.len() && (#[trigger] t[i]).0 == k;
                assert(s[i].0 == k);
            }
        }
        if exists|i: int| 0 <= i < s.len() && (#[trigger] s[i]).0 == k {
            let i = choose|i: int| 0 <= i < s.len() && (#[trigger] s[i]).0 == k;
            if i < t.len() {
                assert(t[i].0 == k);
            }
        }
    }
}

/// A sorted list gathers the map it stands for.
pub proof fn lemma_gathered<const N: usize, V>(s: Seq<([u8; N], V)>)
    requires
        ascending(s),
    ensures
        gathered(s) == map_of(s),
        distinct(s),
    decreases s.len(),
{
    assert forall|i: int, j: int| 0 <= i < j < s.len() implies (#[trigger] s[i]).0 != (
    #[trigger] s[j]).0 by {
        lemma_below_asymmetric(s[i].0@, s[j].0@);
    }
    if s.len() == 0 {
        assert(gathered(s) =~= map_of(s));
    } else {
        let t = s.drop_last();
        let (k, v) = s.last();
        lemma_gathered(t);
        lemma_inserted(t, t.len() as int, k, v);
        assert(t.insert(t.len() as int, (k, v)) =~= s);
    }
}

/// The keys of a list of entries whose values a predicate accepts.
pub open spec fn keys_listed<const N: usize, V>(
    s: Seq<([u8; N], V)>,
    wanted: spec_fn(V) -> bool,
) -> Seq<[u8; N]>
    decreases s.len(),
{
    if s.len() == 0 {
        seq![]
    } else {
        let r = keys_listed(s.drop_last(), wanted);
        if wanted(s.last().1) {
            r.push(s.last().0)
        } else {
            r
        }
    }
}

proof fn lemma_keys_first<const N: usize, V>(s: Seq<([u8; N], V)>, wanted: spec_fn(V) -> bool)
    requires
        s.len() > 0,
    ensures
        keys_listed(s, wanted) == if wanted(s[0].1) {
            seq![s[0].0] + keys_listed(s.remove(0), wanted)
        } else {
            keys_listed(s.remove(0), wanted)
        },
    decreases s.len(),
{
    let t = s.remove(0);
    if s.len() == 1 {
        assert(keys_listed(s.drop_last(), wanted) =~= Seq::<[u8; N]>::empty());
        assert(keys_listed(t, wanted) =~= Seq::<[u8; N]>::empty());
    } else {
        lemma_keys_first(s.drop_last(), wanted);
        assert(s.drop_last().remove(0) =~= t.drop_last());
        assert(t.last() == s.last());
    }
    assert(keys_listed(s, wanted) =~= if wanted(s[0].1) {
        seq![s[0].0] + keys_listed(t, wanted)
    } else {
        keys_listed(t, wanted)
    });
}

/// The keys that a predicate picks from a sorted list are those that it picks
/// from its map.
pub proof fn lemma_keys_of<const N: usize, V>(s: Seq<([u8; N], V)>, wanted: spec_fn(V) -> bool)
    requires
        ascending(s),
    ensures
        keys_where(map_of(s), wanted) == keys_listed(s, wanted),
    decreases s.len(),
{
    let m = map_of(s);
    lemma_len(s);
    lemma_first_is_first(m, wanted);
    if forall|i: int| 0 <= i < s.len() ==> !wanted((#[trigger] s[i]).1) {
        assert forall|k: [u8; N]| !is_first(m, wanted, k) by {
            if is_first(m, wanted, k) {
                let j = key_index(s, k);
                assert(has_key(s, k));
                assert(s[j].0 == k);
                lemma_entry(s, j);
            }
        }
        lemma_none_listed(s, wanted);
        assert(keys_where(m, wanted) =~= Seq::<[u8; N]>::empty());
    } else {
        let i = choose|i: int|
            0 <= i < s.len() && wanted((#[trigger] s[i]).1) && forall|j: int|
                0 <= j < i ==> !wanted((#[trigger] s[j]).1);
        assert(exists|i: int|
            0 <= i < s.len() && wanted((#[trigger] s[i]).1) && forall|j: int|
                0 <= j < i ==> !wanted((#[trigger] s[j]).1)) by {
            lemma_least(s, wanted, s.len() as int);
        }
        let k = s[i].0;
        lemma_entry(s, i);
        assert forall|o: [u8; N]| #[trigger] m.contains_key(o) && wanted(m[o]) implies o == k
            || below(k@, o@) by {
            let j = key_index(s, o);
            assert(has_key(s, o));
            assert(s[j].0 == o);
            lemma_entry(s, j);
        }
        lemma_first_unique(m, wanted, k);
        lemma_removed(s, i);
        lemma_keys_of(s.remove(i), wanted);
        lemma_listed_without(s, wanted, i);
        assert(keys_where(m, wanted) == seq![k] + keys_where(m.remove(k), wanted));
    }
}

proof fn lemma_none_listed<const N: usize, V>(s: Seq<([u8; N], V)>, wanted: spec_fn(V) -> bool)
    requires
        forall|i: int| 0 <= i < s.len() ==> !wanted((#[trigger] s[i]).1),
    ensures
        keys_listed(s, wanted) == Seq::<[u8; N]>::empty(),
    decreases s.len(),
{
    if s.len() > 0 {
        lemma_none_listed(s.drop_last(), wanted);
        assert(!wanted(s[s.len() - 1].1));
    }
}

proof fn lemma_least<const N: usize, V>(
    s: Seq<([u8; N], V)>,
    wanted: spec_fn(V) -> bool,
    n: int,
)
    requires
        0 <= n <= s.len(),
        exists|i: int| 0 <= i < n && wanted((#[trigger] s[i]).1),
    ensures
        exists|i: int|
            0 <= i < n && wanted((#[trigger] s[i]).1) && forall|j: int|
                0 <= j < i ==> !wanted((#[trigger] s[j]).1),
    decreases n,
{
    if exists|i: int| 0 <= i < n - 1 && wanted((#[trigger] s[i]).1) {
        lemma_least(s, wanted, n - 1);
    } else {
        let i = choose|i: int| 0 <= i < n && wanted((#[trigger] s[i]).1);
        assert(i == n - 1);
    }
}

proof fn lemma_listed_without<const N: usize, V>(
    s: Seq<([u8; N], V)>,
    wanted: spec_fn(V) -> bool,
    i: int,
)
    requires
        0 <= i < s.len(),
        wanted(s[i].1),
        forall|j: int| 0 <= j < i ==> !wanted((#[trigger] s[j]).1),
    ensures
        keys_listed(s, wanted) == seq![s[i].0] + keys_listed(s.remove(i), wanted),
    decreases i,
{
    lemma_keys_first(s, wanted);
    if i > 0 {
        let t = s.remove(0);
        assert(!wanted(s[0].1));
        lemma_listed_without(t, wanted, i - 1);
        lemma_keys_first(s.remove(i), wanted);
        assert(s.remove(i)[0] == s[0]);
        assert(s.remove(i).remove(0) =~= t.remove(i - 1));
    }
}

/// Leaving entries out leaves fewer, unless none is left out.
pub proof fn lemma_restricted_len<K, V>(m: Map<K, V>, kept: spec_fn(K, V) -> bool)
    requires
        m.dom().finite(),
    ensures
        restricted(m, kept).dom().finite(),
        (restricted(m, kept).dom().len() == m.dom().len()) == (restricted(m, kept) == m),
{
    let r = restricted(m, kept);
    assert(r.dom().subset_of(m.dom()));
    vstd::set_lib::lemma_len_subset(r.dom(), m.dom());
    if r.dom().len() == m.dom().len() {
        vstd::set_lib::lemma_subset_equality(r.dom(), m.dom());
        assert(r =~= m);
    }
}

/// Every key of a finite map is listed once.
pub proof fn lemma_all_keys<const N: usize, V>(m: Map<[u8; N], V>)
    requires
        m.dom().finite(),
    ensures
        keys_where(m, |v: V| true).len() == m.dom().len(),
        pairs(m).len() == m.dom().len(),
    decreases m.dom().len(),
{
    let all = |v: V| true;
    lemma_first_is_first(m, all);
    match first_key(m, all) {
        Some(k) => {
            lemma_all_keys(m.remove(k));
        },
        None => {
            if m.dom().len() > 0 {
                lemma_lowest(m, all);
            }
        },
    }
}

/// A finite map that is not empty has a lowest key.
proof fn lemma_lowest<const N: usize, V>(m: Map<[u8; N], V>, all: spec_fn(V) -> bool)
    requires
        m.dom().finite(),
        m.dom().len() > 0,
        forall|v: V| #[trigger] all(v),
    ensures
        exists|k: [u8; N]| is_first(m, all, k),
    decreases m.dom().len(),
{
    let a = m.dom().choose();
    assert(m.contains_key(a));
    let rest = m.remove(a);
    if rest.dom().len() == 0 {
        assert forall|o: [u8; N]| #[trigger] m.contains_key(o) && all(m[o]) implies o == a
            || below(a@, o@) by {
            if o != a {
                assert(rest.dom().contains(o));
                assert(rest.dom().len() > 0);
            }
        }
        assert(is_first(m, all, a));
    } else {
        lemma_lowest(rest, all);
        let b = choose|k: [u8; N]| is_first(rest, all, k);
        assert(a != b);
        lemma_below_total(a, b);
        if below(a@, b@) {
            assert forall|o: [u8; N]| #[trigger] m.contains_key(o) && all(m[o]) implies o == a
                || below(a@, o@) by {
                if o != a {
                    assert(rest.contains_key(o));
                    if o != b {
                        lemma_below_transitive(a@, b@, o@);
                    }
                }
            }
            assert(is_first(m, all, a));
        } else {
            assert forall|o: [u8; N]| #[trigger] m.contains_key(o) && all(m[o]) implies o == b
                || below(b@, o@) by {
                if o != a {
                    assert(rest.contains_key(o));
                }
            }
            assert(is_first(m, all, b));
        }
    }
}

/// Two different keys are in order one way or the other.
proof fn lemma_below_total<const N: usize>(a: [u8; N], b: [u8; N])
    requires
        a != b,
    ensures
        below(a@, b@) || below(b@, a@),
{
    if forall|i: int| 0 <= i < N ==> a@[i] == b@[i] {
        assert(a@ =~= b@);
        lemma_array_injective(a, b);
    } else {
        lemma_differ(a@, b@, N as int);
    }
}

proof fn lemma_differ(a: Seq<u8>, b: Seq<u8>, n: int)
    requires
        a.len() == b.len(),
        0 <= n <= a.len(),
        exists|i: int| 0 <= i < n && #[trigger] a[i] != b[i],
    ensures
        below(a, b) || below(b, a),
    decreases n,
{
    if exists|i: int| 0 <= i < n - 1 && #[trigger] a[i] != b[i] {
        lemma_differ(a, b, n - 1);
    } else {
        let i = choose|i: int| 0 <= i < n && #[trigger] a[i] != b[i];
        assert(i == n - 1);
        assert(differ_first(a, b, i));
        assert(differ_first(b, a, i));
    }
}

/// Every key whose value a predicate accepts is among those picked, once.
pub proof fn lemma_keys_where_complete<const N: usize, V>(
    m: Map<[u8; N], V>,
    wanted: spec_fn(V) -> bool,
    k: [u8; N],
)
    requires
        m.dom().finite(),
        m.contains_key(k),
        wanted(m[k]),
    ensures
        keys_where(m, wanted).contains(k),
    decreases m.dom().len(),
{
    lemma_first_is_first(m, wanted);
    lemma_first_exists(m, wanted, k);
    let f = choose|f: [u8; N]| is_first(m, wanted, f);
    lemma_first_unique(m, wanted, f);
    let rest = keys_where(m.remove(f), wanted);
    let keys = keys_where(m, wanted);
    assert(keys == seq![f] + rest);
    if f == k {
        assert(keys[0] == k);
    } else {
        lemma_keys_where_complete(m.remove(f), wanted, k);
        let i = choose|i: int| 0 <= i < rest.len() && rest[i] == k;
        assert(keys[i + 1] == k);
    }
}

/// Among the keys whose values a predicate accepts there is a lowest.
pub proof fn lemma_first_exists<const N: usize, V>(
    m: Map<[u8; N], V>,
    wanted: spec_fn(V) -> bool,
    k: [u8; N],
)
    requires
        m.dom().finite(),
        m.contains_key(k),
        wanted(m[k]),
    ensures
        exists|f: [u8; N]| is_first(m, wanted, f),
    decreases m.dom().len(),
{
    if forall|o: [u8; N]| #[trigger] m.contains_key(o) && wanted(m[o]) ==> o == k || below(k@, o@) {
        assert(is_first(m, wanted, k));
    } else {
        let o = choose|o: [u8; N]| #[trigger]
            m.contains_key(o) && wanted(m[o]) && !(o == k || below(k@, o@));
        lemma_below_total(k, o);
        let rest = m.remove(k);
        lemma_first_exists(rest, wanted, o);
        let f = choose|f: [u8; N]| is_first(rest, wanted, f);
        assert(below(f@, k@)) by {
            if f != o {
                assert(rest.contains_key(o));
                lemma_below_transitive(f@, o@, k@);
            }
        }
        assert forall|x: [u8; N]| #[trigger] m.contains_key(x) && wanted(m[x]) implies x == f
            || below(f@, x@) by {
            if x != k {
                assert(rest.contains_key(x));
            }
        }
        assert(is_first(m, wanted, f));
    }
}

/// A key that a sorted list does not have has its place in it.
pub proof fn lemma_slot<const N: usize, V>(s: Seq<([u8; N], V)>, k: [u8; N]) -> (i: int)
    requires
        ascending(s),
        !map_of(s).contains_key(k),
    ensures
        0 <= i <= s.len(),
        forall|j: int| 0 <= j < i ==> below((#[trigger] s[j]).0@, k@),
        forall|j: int| i <= j < s.len() ==> below(k@, (#[trigger] s[j]).0@),
    decreases s.len(),
{
    if s.len() == 0 {
        0
    } else {
        let last = s.last().0;
        lemma_entry(s, s.len() - 1);
        lemma_below_total(last, k);
        if below(last@, k@) {
            assert forall|j: int| 0 <= j < s.len() implies below((#[trigger] s[j]).0@, k@) by {
                if j < s.len() - 1 {
                    assert(below(s[j].0@, s[s.len() - 1].0@));
                    lemma_below_transitive(s[j].0@, last@, k@);
                }
            }
            s.len() as int
        } else {
            let t = s.drop_last();
            assert(ascending(t)) by {
                assert forall|a: int, b: int| 0 <= a < b < t.len() implies below(
                    #[trigger] t[a].0@,
                    #[trigger] t[b].0@,
                ) by {
                    assert(below(s[a].0@, s[b].0@));
                }
            }
            assert(!map_of(t).contains_key(k)) by {
                if has_key(t, k) {
                    let j = key_index(t, k);
                    lemma_entry(s, j);
                }
            }
            let i = lemma_slot(t, k);
            assert forall|j: int| 0 <= j < i implies below((#[trigger] s[j]).0@, k@) by {
                assert(t[j] == s[j]);
            }
            assert forall|j: int| i <= j < s.len() implies below(k@, (#[trigger] s[j]).0@) by {
                if j < t.len() {
                    assert(t[j] == s[j]);
                }
            }
            i
        }
    }
}

/// A list of entries with distinct keys gathers as many.
pub proof fn lemma_gathered_len<K, V>(s: Seq<(K, V)>)
    requires
        distinct(s),
    ensures
        gathered(s).dom().finite(),
        gathered(s).dom().len() == s.len(),
    decreases s.len(),
{
    if s.len() > 0 {
        let t = s.drop_last();
        assert(distinct(t)) by {
            assert forall|i: int, j: int| 0 <= i < j < t.len() implies (#[trigger] t[i]).0 != (
            #[trigger] t[j]).0 by {
                assert(s[i].0 != s[j].0);
            }
        }
        lemma_gathered_len(t);
        lemma_gathered_keys(t, s.last().0);
        if gathered(t).contains_key(s.last().0) {
            let i = choose|i: int| 0 <= i < t.len() && (#[trigger] t[i]).0 == s.last().0;
            assert(s[i].0 != s[s.len() - 1].0);
        }
        assert(gathered(s).dom() =~= gathered(t).dom().insert(s.last().0));
    } else {
        assert(gathered(s).dom() =~= Set::<K>::empty());
    }
}

} // verus!
