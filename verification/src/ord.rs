//! Sorted-vector sets and maps over keys with a decidable strict total
//! order. The graph and the replay cache key everything by digests, so
//! these containers keep their elements in strictly increasing order;
//! a sorted, duplicate-free vector is a canonical representation of its
//! element set, which makes set-valued keys comparable element by element.

use vstd::prelude::*;

verus! {

/// A key with a strict total order that executable code can decide.
pub trait OrderedKey: Sized + Copy {
    spec fn lt_spec(self, other: Self) -> bool;

    /// The order is transitive, asymmetric and total.
    proof fn lemma_strict_total(a: Self, b: Self, c: Self)
        ensures
            a.lt_spec(b) && b.lt_spec(c) ==> a.lt_spec(c),
            !(a.lt_spec(b) && b.lt_spec(a)),
            a != b ==> a.lt_spec(b) || b.lt_spec(a),
    ;

    fn lt(self, other: Self) -> (r: bool)
        ensures
            r == self.lt_spec(other),
    ;

    fn eq_key(self, other: Self) -> (r: bool)
        ensures
            r == (self == other),
    ;
}

impl OrderedKey for u128 {
    open spec fn lt_spec(self, other: Self) -> bool {
        self < other
    }

    proof fn lemma_strict_total(a: Self, b: Self, c: Self) {
    }

    fn lt(self, other: Self) -> (r: bool) {
        self < other
    }

    fn eq_key(self, other: Self) -> (r: bool) {
        self == other
    }
}

/// A sequence is strictly increasing.
pub open spec fn strictly_sorted<K: OrderedKey>(s: Seq<K>) -> bool {
    forall|i: int, j: int| 0 <= i < j < s.len() ==> #[trigger] s[i].lt_spec(#[trigger] s[j])
}

/// A finite set of keys, stored as a strictly increasing vector.
#[derive(Debug, PartialEq, Eq)]
pub struct OrdSet<K: OrderedKey> {
    l: Vec<K>,
}

/// A finite map, stored as a vector of pairs with strictly increasing keys.
#[derive(Debug, PartialEq, Eq)]
pub struct OrdMap<K: OrderedKey, V> {
    l: Vec<(K, V)>,
}

impl<K: OrderedKey> View for OrdSet<K> {
    type V = Set<K>;

    closed spec fn view(&self) -> Set<K> {
        self.l@.to_set()
    }
}

impl<K: OrderedKey> OrdSet<K> {
    /// The underlying strictly increasing sequence.
    pub closed spec fn seq(self) -> Seq<K> {
        self.l@
    }

    pub open spec fn wf(self) -> bool {
        strictly_sorted(self.seq())
    }

    pub broadcast proof fn lemma_view_is_seq_set(self)
        ensures
            #[trigger] self@ == self.seq().to_set(),
    {
    }

    pub proof fn lemma_contains(self, k: K)
        ensures
            self@.contains(k) <==> self.seq().contains(k),
    {
    }

    /// A strictly increasing vector is determined by its element set.
    pub proof fn lemma_canonical(a: OrdSet<K>, b: OrdSet<K>)
        requires
            a.wf(),
            b.wf(),
            a@ == b@,
        ensures
            a.seq() == b.seq(),
    {
        lemma_sorted_canonical::<K>(a.seq(), b.seq());
    }

    pub proof fn lemma_no_duplicates(self)
        requires
            self.wf(),
        ensures
            self.seq().no_duplicates(),
            self@.len() == self.seq().len(),
            self@.finite(),
    {
        lemma_sorted_no_duplicates::<K>(self.seq());
        self.seq().unique_seq_to_set();
    }

    pub fn new() -> (r: Self)
        ensures
            r.wf(),
            r.seq() == Seq::<K>::empty(),
            r@ == Set::<K>::empty(),
    {
        let r = OrdSet { l: Vec::new() };
        proof {
            assert(r.l@.to_set() =~= Set::<K>::empty());
        }
        r
    }

    pub fn len(&self) -> (r: usize)
        ensures
            r == self.seq().len(),
    {
        self.l.len()
    }

    pub fn is_empty(&self) -> (r: bool)
        ensures
            r == (self.seq().len() == 0),
            r == (self@ =~= Set::<K>::empty()),
    {
        proof {
            if self.l@.len() == 0 {
                assert(self@ =~= Set::<K>::empty());
            } else {
                assert(self@.contains(self.l@[0]));
            }
        }
        self.l.len() == 0
    }

    pub fn get_at(&self, i: usize) -> (r: K)
        requires
            i < self.seq().len(),
        ensures
            r == self.seq()[i as int],
            self@.contains(r),
    {
        self.l[i]
    }

    pub fn contains(&self, k: K) -> (r: bool)
        ensures
            r == self@.contains(k),
    {
        let n = self.l.len();
        for i in 0..n
            invariant
                n == self.l@.len(),
                forall|m: int| 0 <= m < i ==> self.l@[m] != k,
        {
            if self.l[i].eq_key(k) {
                return true;
            }
        }
        proof {
            assert(!self.l@.contains(k));
        }
        false
    }

    pub fn insert(&mut self, k: K)
        requires
            old(self).wf(),
        ensures
            final(self).wf(),
            final(self)@ == old(self)@.insert(k),
            old(self)@.contains(k) ==> final(self).seq() == old(self).seq(),
            !old(self)@.contains(k) ==> final(self).seq().len() == old(self).seq().len() + 1,
    {
        let n = self.l.len();
        let mut i: usize = 0;
        loop
            invariant
                i <= n,
                n == self.l@.len(),
                *self == *old(self),
                old(self).wf(),
                forall|m: int| 0 <= m < i ==> (#[trigger] self.l@[m]).lt_spec(k),
            ensures
                i <= n,
                *self == *old(self),
                forall|m: int| 0 <= m < i ==> (#[trigger] self.l@[m]).lt_spec(k),
                i < n ==> !self.l@[i as int].lt_spec(k) && self.l@[i as int] != k,
            decreases n - i,
        {
            if i >= n {
                break ;
            }
            if self.l[i].eq_key(k) {
                proof {
                    assert(self.l@.contains(k));
                    assert(self@ =~= self@.insert(k));
                }
                return ;
            }
            if !self.l[i].lt(k) {
                break ;
            }
            i = i + 1;
        }
        // `k` is absent and belongs at position `i`.
        proof {
            assert forall|m: int| i <= m < n implies !(#[trigger] self.l@[m]).lt_spec(k)
                && self.l@[m] != k by {
                if i < n {
                    K::lemma_strict_total(self.l@[i as int], k, self.l@[m]);
                    K::lemma_strict_total(k, self.l@[i as int], self.l@[m]);
                    if i < m {
                        K::lemma_strict_total(self.l@[i as int], self.l@[m], k);
                    }
                }
            }
            assert(!self.l@.contains(k)) by {
                if self.l@.contains(k) {
                    let w = choose|w: int| 0 <= w < self.l@.len() && self.l@[w] == k;
                    if w < i {
                        K::lemma_strict_total(k, k, k);
                    }
                }
            }
        }
        let ghost oldl = self.l@;
        self.l.insert(i, k);
        proof {
            assert forall|p: int, q: int| 0 <= p < q < self.l@.len() implies (
            #[trigger] self.l@[p]).lt_spec(#[trigger] self.l@[q]) by {
                if q < i {
                } else if p < i && q == i {
                } else if p < i && q > i {
                } else if p == i {
                    if !k.lt_spec(oldl[q - 1]) {
                        K::lemma_strict_total(k, oldl[q - 1], k);
                        K::lemma_strict_total(oldl[q - 1], k, k);
                    }
                } else {
                }
            }
            assert(self.l@.to_set() =~= oldl.to_set().insert(k)) by {
                assert forall|x: K| self.l@.to_set().contains(x) implies oldl.to_set().insert(
                    k,
                ).contains(x) by {
                    let w = choose|w: int| 0 <= w < self.l@.len() && self.l@[w] == x;
                    if w < i {
                        assert(oldl[w] == x);
                    } else if w > i {
                        assert(oldl[w - 1] == x);
                    }
                }
                assert forall|x: K| oldl.to_set().insert(k).contains(x) implies self.l@
                    .to_set().contains(x) by {
                    if x == k {
                        assert(self.l@[i as int] == x);
                    } else {
                        let w = choose|w: int| 0 <= w < oldl.len() && oldl[w] == x;
                        if w < i {
                            assert(self.l@[w] == x);
                        } else {
                            assert(self.l@[w + 1] == x);
                        }
                    }
                }
            }
        }
    }

    /// Equality of the canonical representations; by `lemma_canonical` this
    /// decides equality of the element sets.
    pub fn eq_set(&self, other: &Self) -> (r: bool)
        ensures
            r == (self.seq() == other.seq()),
    {
        if self.l.len() != other.l.len() {
            proof {
                assert(self.seq() != other.seq());
            }
            return false;
        }
        let n = self.l.len();
        for i in 0..n
            invariant
                n == self.l@.len(),
                n == other.l@.len(),
                forall|m: int| 0 <= m < i ==> self.l@[m] == other.l@[m],
        {
            if !self.l[i].eq_key(other.l[i]) {
                proof {
                    assert(self.seq()[i as int] != other.seq()[i as int]);
                }
                return false;
            }
        }
        proof {
            assert(self.seq() =~= other.seq());
        }
        true
    }

    /// The elements of `self` that are not in `other`.
    pub fn difference(&self, other: &Self) -> (r: Self)
        requires
            self.wf(),
        ensures
            r.wf(),
            r@ == self@.difference(other@),
    {
        let mut out: Vec<K> = Vec::new();
        let n = self.l.len();
        for i in 0..n
            invariant
                n == self.l@.len(),
                self.wf(),
                strictly_sorted(out@),
                forall|p: int, j: int|
                    0 <= p < out@.len() && i <= j < n ==> (#[trigger] out@[p]).lt_spec(
                        #[trigger] self.l@[j]),
                out@.to_set() =~= self.l@.take(i as int).to_set().difference(other@),
        {
            let ghost prevout = out@;
            if !other.contains(self.l[i]) {
                out.push(self.l[i]);
            }
            proof {
                let x = self.l@[i as int];
                if prevout != out@ {
                    assert(out@ =~= prevout.push(x));
                    assert(out@.to_set() =~= prevout.to_set().insert(x)) by {
                        assert forall|y: K| out@.to_set().contains(y) implies prevout
                            .to_set().insert(x).contains(y) by {
                            let w = choose|w: int| 0 <= w < out@.len() && out@[w] == y;
                            if w < out@.len() - 1 {
                                assert(prevout[w] == y);
                            }
                        }
                        assert forall|y: K| prevout.to_set().insert(x).contains(y) implies out@
                            .to_set().contains(y) by {
                            if y == x {
                                assert(out@[out@.len() - 1] == y);
                            } else {
                                let w = choose|w: int| 0 <= w < prevout.len() && prevout[w] == y;
                                assert(out@[w] == y);
                            }
                        }
                    }
                }
                assert(self.l@.take(i + 1).to_set() =~= self.l@.take(i as int).to_set().insert(
                    x,
                )) by {
                    assert forall|y: K| self.l@.take(i + 1).to_set().contains(y) implies self.l@
                        .take(i as int).to_set().insert(x).contains(y) by {
                        let w = choose|w: int|
                            0 <= w < i + 1 && #[trigger] self.l@.take(i + 1)[w] == y;
                        if w < i {
                            assert(self.l@.take(i as int)[w] == y);
                        }
                    }
                    assert forall|y: K| self.l@.take(i as int).to_set().insert(x).contains(
                        y,
                    ) implies self.l@.take(i + 1).to_set().contains(y) by {
                        if y == x {
                            assert(self.l@.take(i + 1)[i as int] == y);
                        } else {
                            let w = choose|w: int|
                                0 <= w < i && #[trigger] self.l@.take(i as int)[w] == y;
                            assert(self.l@.take(i + 1)[w] == y);
                        }
                    }
                }
                assert(out@.to_set() =~= self.l@.take(i + 1).to_set().difference(other@));
            }
        }
        proof {
            assert(self.l@.take(n as int) =~= self.l@);
        }
        OrdSet { l: out }
    }

    pub fn is_subset_of(&self, other: &Self) -> (r: bool)
        ensures
            r == self@.subset_of(other@),
    {
        let n = self.l.len();
        for i in 0..n
            invariant
                n == self.l@.len(),
                forall|m: int| 0 <= m < i ==> other@.contains(#[trigger] self.l@[m]),
        {
            if !other.contains(self.l[i]) {
                proof {
                    assert(self@.contains(self.l@[i as int]));
                }
                return false;
            }
        }
        proof {
            assert forall|x: K| self@.contains(x) implies other@.contains(x) by {
                let w = choose|w: int| 0 <= w < self.l@.len() && self.l@[w] == x;
                assert(other@.contains(self.l@[w]));
            }
        }
        true
    }
}

impl<K: OrderedKey> Clone for OrdSet<K> {
    fn clone(&self) -> (r: Self)
        ensures
            r.seq() == self.seq(),
            r@ == self@,
    {
        let mut out: Vec<K> = Vec::new();
        let n = self.l.len();
        for i in 0..n
            invariant
                n == self.l@.len(),
                out@ == self.l@.take(i as int),
        {
            out.push(self.l[i]);
            proof {
                assert(out@ =~= self.l@.take(i + 1));
            }
        }
        proof {
            assert(out@ =~= self.l@);
        }
        OrdSet { l: out }
    }
}

impl<K: OrderedKey, V> View for OrdMap<K, V> {
    type V = Map<K, V>;

    closed spec fn view(&self) -> Map<K, V> {
        Map::new(
            |k: K| exists|i: int| 0 <= i < self.l@.len() && (#[trigger] self.l@[i]).0 == k,
            |k: K|
                {
                    let i = choose|i: int|
                        0 <= i < self.l@.len() && (#[trigger] self.l@[i]).0 == k;
                    self.l@[i].1
                },
        )
    }
}

impl<K: OrderedKey, V> OrdMap<K, V> {
    /// The underlying sequence of pairs, with strictly increasing keys.
    pub closed spec fn seq(self) -> Seq<(K, V)> {
        self.l@
    }

    pub open spec fn wf(self) -> bool {
        forall|i: int, j: int|
            0 <= i < j < self.seq().len() ==> (#[trigger] self.seq()[i]).0.lt_spec(
                (#[trigger] self.seq()[j]).0,
            )
    }

    pub proof fn lemma_key_unique(self, i: int, j: int)
        requires
            self.wf(),
            0 <= i < self.seq().len(),
            0 <= j < self.seq().len(),
            self.seq()[i].0 == self.seq()[j].0,
        ensures
            i == j,
    {
        if i != j {
            K::lemma_strict_total(self.seq()[i].0, self.seq()[i].0, self.seq()[i].0);
        }
    }

    /// Each stored pair is reflected in the map view.
    pub proof fn lemma_at(self, i: int)
        requires
            self.wf(),
            0 <= i < self.seq().len(),
        ensures
            self@.contains_key(self.seq()[i].0),
            self@[self.seq()[i].0] == self.seq()[i].1,
    {
        let k = self.seq()[i].0;
        assert(exists|j: int| 0 <= j < self.l@.len() && (#[trigger] self.l@[j]).0 == k);
        let j = choose|j: int| 0 <= j < self.l@.len() && (#[trigger] self.l@[j]).0 == k;
        self.lemma_key_unique(i, j);
    }

    pub proof fn lemma_contains_key(self, k: K)
        ensures
            self@.contains_key(k) <==> exists|i: int|
                0 <= i < self.seq().len() && (#[trigger] self.seq()[i]).0 == k,
    {
        if exists|i: int| 0 <= i < self.seq().len() && (#[trigger] self.seq()[i]).0 == k {
            let i = choose|i: int|
                0 <= i < self.seq().len() && (#[trigger] self.seq()[i]).0 == k;
            assert(self.l@[i].0 == k);
        }
        if self@.contains_key(k) {
            let i = choose|i: int| 0 <= i < self.l@.len() && (#[trigger] self.l@[i]).0 == k;
            assert(self.seq()[i].0 == k);
        }
    }

    pub fn new() -> (r: Self)
        ensures
            r.wf(),
            r.seq() == Seq::<(K, V)>::empty(),
            r@ == Map::<K, V>::empty(),
    {
        let r = OrdMap { l: Vec::new() };
        proof {
            assert(r@ =~= Map::<K, V>::empty());
        }
        r
    }

    pub fn len(&self) -> (r: usize)
        ensures
            r == self.seq().len(),
    {
        self.l.len()
    }

    pub fn is_empty(&self) -> (r: bool)
        ensures
            r == (self.seq().len() == 0),
            r == (self@ =~= Map::<K, V>::empty()),
    {
        proof {
            if self.l@.len() == 0 {
                assert(self@ =~= Map::<K, V>::empty());
            } else {
                assert(self@.dom().contains(self.l@[0].0));
                assert(!(Map::<K, V>::empty().dom().contains(self.l@[0].0)));
            }
        }
        self.l.len() == 0
    }

    pub fn key_at(&self, i: usize) -> (r: K)
        requires
            self.wf(),
            i < self.seq().len(),
        ensures
            r == self.seq()[i as int].0,
            self@.contains_key(r),
            self@[r] == self.seq()[i as int].1,
    {
        proof {
            self.lemma_at(i as int);
        }
        self.l[i].0
    }

    pub fn val_at(&self, i: usize) -> (r: &V)
        requires
            self.wf(),
            i < self.seq().len(),
        ensures
            *r == self.seq()[i as int].1,
            self@.contains_key(self.seq()[i as int].0),
            self@[self.seq()[i as int].0] == *r,
    {
        proof {
            self.lemma_at(i as int);
        }
        &self.l[i].1
    }

    pub fn contains_key(&self, k: K) -> (r: bool)
        ensures
            r == self@.contains_key(k),
    {
        let n = self.l.len();
        for i in 0..n
            invariant
                n == self.l@.len(),
                forall|m: int| 0 <= m < i ==> (#[trigger] self.l@[m]).0 != k,
        {
            if self.l[i].0.eq_key(k) {
                return true;
            }
        }
        false
    }

    pub fn get(&self, k: K) -> (r: Option<&V>)
        requires
            self.wf(),
        ensures
            match r {
                Some(v) => self@.contains_key(k) && self@[k] == *v,
                None => !self@.contains_key(k),
            },
    {
        let n = self.l.len();
        for i in 0..n
            invariant
                n == self.l@.len(),
                self.wf(),
                forall|m: int| 0 <= m < i ==> (#[trigger] self.l@[m]).0 != k,
        {
            if self.l[i].0.eq_key(k) {
                proof {
                    self.lemma_at(i as int);
                }
                return Some(&self.l[i].1);
            }
        }
        None
    }

    pub fn insert(&mut self, k: K, v: V)
        requires
            old(self).wf(),
        ensures
            final(self).wf(),
            final(self)@ == old(self)@.insert(k, v),
            final(self).seq().len() <= old(self).seq().len() + 1,
    {
        let n = self.l.len();
        let mut i: usize = 0;
        loop
            invariant
                i <= n,
                n == self.l@.len(),
                *self == *old(self),
                old(self).wf(),
                forall|m: int| 0 <= m < i ==> (#[trigger] self.l@[m]).0.lt_spec(k),
            ensures
                i <= n,
                *self == *old(self),
                forall|m: int| 0 <= m < i ==> (#[trigger] self.l@[m]).0.lt_spec(k),
                i < n ==> !self.l@[i as int].0.lt_spec(k),
            decreases n - i,
        {
            if i >= n {
                break ;
            }
            if !self.l[i].0.lt(k) {
                break ;
            }
            i = i + 1;
        }
        proof {
            assert forall|m: int| i < m < n implies k.lt_spec(
                (#[trigger] self.l@[m]).0,
            ) by {
                assert((#[trigger] self.seq()[i as int]).0.lt_spec(
                    (#[trigger] self.seq()[m]).0,
                ));
                if self.l@[i as int].0 == k {
                } else {
                    K::lemma_strict_total(k, self.l@[i as int].0, self.l@[m].0);
                    K::lemma_strict_total(self.l@[i as int].0, k, self.l@[i as int].0);
                }
            }
        }
        let ghost oldm = *self;
        if i < n && self.l[i].0.eq_key(k) {
            // Overwrite the value stored under `k`.
            self.l.remove(i);
            self.l.insert(i, (k, v));
            proof {
                assert forall|p: int, q: int|
                    0 <= p < q < self.seq().len() implies (#[trigger] self.seq()[p]).0.lt_spec(
                    (#[trigger] self.seq()[q]).0) by {
                    assert((#[trigger] oldm.seq()[p]).0.lt_spec((#[trigger] oldm.seq()[q]).0));
                    assert(p != i ==> self.l@[p] == oldm.l@[p]);
                    assert(q != i ==> self.l@[q] == oldm.l@[q]);
                    assert(self.l@[i as int].0 == oldm.l@[i as int].0);
                }
                lemma_map_view_insert::<K, V>(oldm, *self, i as int, k, v);
            }
        } else {
            proof {
                if i < n && self.l@[i as int].0 != k {
                    K::lemma_strict_total(k, self.l@[i as int].0, self.l@[i as int].0);
                }
                assert(!oldm@.contains_key(k)) by {
                    if oldm@.contains_key(k) {
                        let w = choose|w: int|
                            0 <= w < oldm.l@.len() && (#[trigger] oldm.l@[w]).0 == k;
                        if w < i {
                            K::lemma_strict_total(k, k, k);
                        } else if w == i {
                        } else {
                            assert(k.lt_spec(oldm.l@[w].0));
                            K::lemma_strict_total(k, k, k);
                        }
                    }
                }
            }
            self.l.insert(i, (k, v));
            proof {
                assert forall|p: int, q: int|
                    0 <= p < q < self.seq().len() implies (#[trigger] self.seq()[p]).0.lt_spec(
                    (#[trigger] self.seq()[q]).0) by {
                    if q < i {
                        assert((#[trigger] oldm.seq()[p]).0.lt_spec(
                            (#[trigger] oldm.seq()[q]).0,
                        ));
                    } else if p < i && q == i {
                        assert(self.l@[p] == oldm.l@[p]);
                    } else if p < i && q > i {
                        assert(self.l@[p] == oldm.l@[p] && self.l@[q] == oldm.l@[q - 1]);
                        if q - 1 == i {
                        } else {
                            assert((#[trigger] oldm.seq()[p]).0.lt_spec(
                                (#[trigger] oldm.seq()[q - 1]).0,
                            ));
                        }
                    } else if p == i {
                        assert(self.l@[q] == oldm.l@[q - 1]);
                        assert(q - 1 >= i);
                        if q - 1 == i {
                            assert(!oldm.l@[i as int].0.lt_spec(k));
                            assert(oldm.l@[i as int].0 != k);
                            K::lemma_strict_total(k, oldm.l@[i as int].0, k);
                        } else {
                            assert(k.lt_spec(oldm.l@[q - 1].0));
                        }
                    } else {
                        assert(self.l@[p] == oldm.l@[p - 1] && self.l@[q] == oldm.l@[q - 1]);
                        assert((#[trigger] oldm.seq()[p - 1]).0.lt_spec(
                            (#[trigger] oldm.seq()[q - 1]).0,
                        ));
                    }
                }
                lemma_map_view_grow::<K, V>(oldm, *self, i as int, k, v);
            }
        }
    }
}

impl<K: OrderedKey, V> OrdMap<K, V> {
    /// Appends a pair whose key is above every stored key.
    pub fn push_max(&mut self, k: K, v: V)
        requires
            old(self).wf(),
            forall|i: int|
                0 <= i < old(self).seq().len() ==> (#[trigger] old(self).seq()[i]).0.lt_spec(k),
        ensures
            final(self).wf(),
            final(self).seq() == old(self).seq().push((k, v)),
            final(self)@ == old(self)@.insert(k, v),
    {
        let ghost oldm = *self;
        proof {
            assert(!oldm@.contains_key(k)) by {
                if oldm@.contains_key(k) {
                    let w = choose|w: int|
                        0 <= w < oldm.l@.len() && (#[trigger] oldm.l@[w]).0 == k;
                    assert(oldm.seq()[w].0.lt_spec(k));
                    K::lemma_strict_total(k, k, k);
                }
            }
        }
        self.l.push((k, v));
        proof {
            let n = self.seq().len();
            assert forall|p: int, q: int|
                0 <= p < q < n implies (#[trigger] self.seq()[p]).0.lt_spec(
                (#[trigger] self.seq()[q]).0) by {
                if q < n - 1 {
                    assert((#[trigger] oldm.seq()[p]).0.lt_spec((#[trigger] oldm.seq()[q]).0));
                } else {
                    assert(self.seq()[p] == oldm.seq()[p]);
                    assert(oldm.seq()[p].0.lt_spec(k));
                }
            }
            lemma_map_view_grow::<K, V>(oldm, *self, n - 1, k, v);
        }
    }
}

impl<K: OrderedKey, V: Copy> OrdMap<K, V> {
    pub fn entry_at(&self, i: usize) -> (r: (K, V))
        requires
            i < self.seq().len(),
        ensures
            r == self.seq()[i as int],
    {
        (self.l[i].0, self.l[i].1)
    }
}

impl<K: OrderedKey, V: Copy> Clone for OrdMap<K, V> {
    fn clone(&self) -> (r: Self)
        ensures
            r.seq() == self.seq(),
            r@ == self@,
    {
        let mut out: Vec<(K, V)> = Vec::new();
        let n = self.l.len();
        for i in 0..n
            invariant
                n == self.l@.len(),
                out@ == self.l@.take(i as int),
        {
            out.push((self.l[i].0, self.l[i].1));
            proof {
                assert(out@ =~= self.l@.take(i + 1));
            }
        }
        proof {
            assert(out@ =~= self.l@);
        }
        OrdMap { l: out }
    }
}

impl<K: OrderedKey, V> OrdMap<K, V> {
    /// The domain of the view is the finite set of stored keys.
    pub proof fn lemma_dom(self)
        requires
            self.wf(),
        ensures
            self@.dom().finite(),
            self@.dom().len() == self.seq().len(),
    {
        let ks = Seq::new(self.seq().len(), |i: int| self.seq()[i].0);
        assert(ks.no_duplicates()) by {
            assert forall|i: int, j: int|
                0 <= i < ks.len() && 0 <= j < ks.len() && i != j implies ks[i] != ks[j] by {
                if ks[i] == ks[j] {
                    self.lemma_key_unique(i, j);
                }
            }
        }
        assert(ks.to_set() =~= self@.dom()) by {
            assert forall|x: K| ks.to_set().contains(x) implies self@.dom().contains(x) by {
                let w = choose|w: int| 0 <= w < ks.len() && ks[w] == x;
                assert(self.seq()[w].0 == x);
                assert(self.l@[w].0 == x);
            }
            assert forall|x: K| self@.dom().contains(x) implies ks.to_set().contains(x) by {
                let w = choose|w: int| 0 <= w < self.l@.len() && (#[trigger] self.l@[w]).0 == x;
                assert(ks[w] == x);
            }
        }
        ks.unique_seq_to_set();
    }
}

/// After replacing the pair at position `i` (whose key was already `k`),
/// the view is the old view with `k` remapped.
proof fn lemma_map_view_insert<K: OrderedKey, V>(
    a: OrdMap<K, V>,
    b: OrdMap<K, V>,
    i: int,
    k: K,
    v: V,
)
    requires
        a.wf(),
        b.wf(),
        0 <= i < a.seq().len(),
        b.seq().len() == a.seq().len(),
        a.seq()[i].0 == k,
        b.seq()[i] == (k, v),
        forall|m: int| 0 <= m < a.seq().len() && m != i ==> a.seq()[m] == #[trigger] b.seq()[m],
    ensures
        b@ == a@.insert(k, v),
{
    assert forall|x: K| #![auto] b@.contains_key(x) implies a@.insert(k, v).contains_key(x)
        && b@[x] == a@.insert(k, v)[x] by {
        let w = choose|w: int| 0 <= w < b.seq().len() && (#[trigger] b.seq()[w]).0 == x;
        b.lemma_at(w);
        if x == k {
            b.lemma_key_unique(w, i);
        } else {
            a.lemma_at(w);
        }
    }
    assert forall|x: K| #![auto] a@.insert(k, v).contains_key(x) implies b@.contains_key(
        x,
    ) by {
        if x == k {
            b.lemma_at(i);
        } else {
            let w = choose|w: int| 0 <= w < a.seq().len() && (#[trigger] a.seq()[w]).0 == x;
            assert(w != i);
            assert(b.seq()[w].0 == x);
        }
    }
    assert(b@ =~= a@.insert(k, v));
}

/// After inserting a fresh pair at position `i`, the view is the old view
/// with `k` added.
proof fn lemma_map_view_grow<K: OrderedKey, V>(
    a: OrdMap<K, V>,
    b: OrdMap<K, V>,
    i: int,
    k: K,
    v: V,
)
    requires
        a.wf(),
        b.wf(),
        0 <= i <= a.seq().len(),
        b.seq().len() == a.seq().len() + 1,
        b.seq()[i] == (k, v),
        !a@.contains_key(k),
        forall|m: int| 0 <= m < i ==> a.seq()[m] == #[trigger] b.seq()[m],
        forall|m: int| i < m < b.seq().len() ==> a.seq()[m - 1] == #[trigger] b.seq()[m],
    ensures
        b@ == a@.insert(k, v),
{
    assert forall|x: K| #![auto] b@.contains_key(x) implies a@.insert(k, v).contains_key(x)
        && b@[x] == a@.insert(k, v)[x] by {
        let w = choose|w: int| 0 <= w < b.seq().len() && (#[trigger] b.seq()[w]).0 == x;
        b.lemma_at(w);
        if w == i {
        } else if w < i {
            a.lemma_at(w);
            if x == k {
                b.lemma_key_unique(w, i);
            }
        } else {
            a.lemma_at(w - 1);
            if x == k {
                b.lemma_key_unique(w, i);
            }
        }
    }
    assert forall|x: K| #![auto] a@.insert(k, v).contains_key(x) implies b@.contains_key(
        x,
    ) by {
        if x == k {
            b.lemma_at(i);
        } else {
            let w = choose|w: int| 0 <= w < a.seq().len() && (#[trigger] a.seq()[w]).0 == x;
            if w < i {
                assert(b.seq()[w].0 == x);
            } else {
                assert(b.seq()[w + 1].0 == x);
            }
        }
    }
    assert(b@ =~= a@.insert(k, v));
}

/// Extending a prefix by one element extends its element set by it.
pub proof fn lemma_take_push<A>(s: Seq<A>, i: int)
    requires
        0 <= i < s.len(),
    ensures
        s.take(i + 1).to_set() == s.take(i).to_set().insert(s[i]),
{
    assert forall|x: A| s.take(i + 1).to_set().contains(x) implies s.take(
        i,
    ).to_set().insert(s[i]).contains(x) by {
        let w = choose|w: int| 0 <= w < i + 1 && #[trigger] s.take(i + 1)[w] == x;
        if w < i {
            assert(s.take(i)[w] == x);
        }
    }
    assert forall|x: A| s.take(i).to_set().insert(s[i]).contains(x) implies s.take(
        i + 1,
    ).to_set().contains(x) by {
        if x == s[i] {
            assert(s.take(i + 1)[i] == x);
        } else {
            let w = choose|w: int| 0 <= w < i && #[trigger] s.take(i)[w] == x;
            assert(s.take(i + 1)[w] == x);
        }
    }
    assert(s.take(i + 1).to_set() =~= s.take(i).to_set().insert(s[i]));
}

/// Two strictly increasing sequences with the same element set are equal.
pub proof fn lemma_sorted_canonical<K: OrderedKey>(a: Seq<K>, b: Seq<K>)
    requires
        strictly_sorted(a),
        strictly_sorted(b),
        a.to_set() == b.to_set(),
    ensures
        a == b,
    decreases a.len(),
{
    if a.len() == 0 {
        if b.len() > 0 {
            assert(b.to_set().contains(b[0]));
            assert(a.contains(b[0]));
        }
        assert(a =~= b);
    } else {
        assert(a.to_set().contains(a.last()));
        assert(b.to_set().contains(a.last()));
        if b.len() == 0 {
            assert(b.to_set() =~= Set::<K>::empty());
        }
        // The last element of each sequence is its maximum, so they agree.
        assert(a.last() == b.last()) by {
            let ia = choose|i: int| 0 <= i < b.len() && b[i] == a.last();
            assert(b.to_set().contains(b.last()));
            assert(a.contains(b.last()));
            let ib = choose|i: int| 0 <= i < a.len() && a[i] == b.last();
            if a.last() != b.last() {
                assert(ia < b.len() - 1 ==> b[ia].lt_spec(b.last()));
                assert(ib < a.len() - 1 ==> a[ib].lt_spec(a.last()));
                K::lemma_strict_total(a.last(), b.last(), a.last());
            }
        }
        // Neither sequence repeats its maximum, so dropping it from both
        // leaves equal element sets.
        assert(a.drop_last().to_set() =~= b.drop_last().to_set()) by {
            assert forall|x: K| a.drop_last().to_set().contains(x) implies b.drop_last()
                .to_set().contains(x) by {
                let i = choose|i: int| 0 <= i < a.len() - 1 && a[i] == x;
                assert(a[i].lt_spec(a.last()));
                assert(a.to_set().contains(x));
                let j = choose|j: int| 0 <= j < b.len() && b[j] == x;
                if j == b.len() - 1 {
                    K::lemma_strict_total(x, a.last(), x);
                }
                assert(b.drop_last()[j] == x);
            }
            assert forall|x: K| b.drop_last().to_set().contains(x) implies a.drop_last()
                .to_set().contains(x) by {
                let i = choose|i: int| 0 <= i < b.len() - 1 && b[i] == x;
                assert(b[i].lt_spec(b.last()));
                assert(b.to_set().contains(x));
                let j = choose|j: int| 0 <= j < a.len() && a[j] == x;
                if j == a.len() - 1 {
                    K::lemma_strict_total(x, b.last(), x);
                }
                assert(a.drop_last()[j] == x);
            }
        }
        lemma_sorted_canonical::<K>(a.drop_last(), b.drop_last());
        assert(a =~= a.drop_last().push(a.last()));
        assert(b =~= b.drop_last().push(b.last()));
    }
}

pub proof fn lemma_sorted_no_duplicates<K: OrderedKey>(s: Seq<K>)
    requires
        strictly_sorted(s),
    ensures
        s.no_duplicates(),
{
    assert forall|i: int, j: int| 0 <= i < s.len() && 0 <= j < s.len() && i != j implies s[i]
        != s[j] by {
        if i < j {
            assert(s[i].lt_spec(s[j]));
            K::lemma_strict_total(s[i], s[j], s[i]);
        } else {
            assert(s[j].lt_spec(s[i]));
            K::lemma_strict_total(s[j], s[i], s[j]);
        }
    }
}

} // verus!
