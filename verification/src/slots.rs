//! A small set of row-slot indices.  The slots are held in a duplicate-free
//! vector, so membership, cardinality and the smallest and largest member are
//! all computed by verified scans with no reliance on an outside container.

use vstd::prelude::*;
use vstd::set_lib::set_int_range;

verus! {

/// The smallest member of a set of integers that has one.
pub open spec fn set_min(s: Set<int>) -> int {
    choose|m: int| s.contains(m) && (forall|x: int| s.contains(x) ==> m <= x)
}

/// A minimum is unique, so any witness equals `set_min`.
pub proof fn lemma_min_unique(s: Set<int>, m: int)
    requires
        s.contains(m),
        forall|x: int| s.contains(x) ==> m <= x,
    ensures
        set_min(s) == m,
{
    let c = set_min(s);
    assert(s.contains(c) && (forall|x: int| s.contains(x) ==> c <= x));
}

/// A set of row-slot indices.
pub struct SlotSet {
    elems: Vec<u16>,
}

impl View for SlotSet {
    type V = Set<int>;

    closed spec fn view(&self) -> Set<int> {
        self.elems@.map_values(|v: u16| v as int).to_set()
    }
}

impl SlotSet {
    /// The slots are stored without repetition.
    pub closed spec fn inv(&self) -> bool {
        self.elems@.no_duplicates()
    }

    /// The stored sequence mapped to integers, used to relate the vector to
    /// the set it denotes.
    spec fn mapped(&self) -> Seq<int> {
        self.elems@.map_values(|v: u16| v as int)
    }

    proof fn lemma_view_contains(&self)
        ensures
            forall|x: int|
                self@.contains(x) <==> exists|j: int|
                    0 <= j < self.elems@.len() && #[trigger] self.elems@[j] as int == x,
    {
        assert forall|x: int|
            self@.contains(x) <==> exists|j: int|
                0 <= j < self.elems@.len() && #[trigger] self.elems@[j] as int == x by {
            if self@.contains(x) {
                let j = choose|j: int| 0 <= j < self.mapped().len() && self.mapped()[j] == x;
                assert(self.elems@[j] as int == x);
            }
            if exists|j: int| 0 <= j < self.elems@.len() && #[trigger] self.elems@[j] as int == x {
                let j = choose|j: int| 0 <= j < self.elems@.len() && #[trigger] self.elems@[j] as int
                    == x;
                assert(self.mapped()[j] == x);
                assert(self.mapped().contains(x));
            }
        }
    }

    /// An empty set.
    pub fn new() -> (r: SlotSet)
        ensures
            r.inv(),
            r@ == Set::<int>::empty(),
    {
        let r = SlotSet { elems: Vec::new() };
        proof {
            r.lemma_view_contains();
            assert(r@ =~= Set::<int>::empty());
        }
        r
    }

    /// Whether `v` is a member.
    pub fn contains(&self, v: u16) -> (r: bool)
        ensures
            r == self@.contains(v as int),
    {
        let n = self.elems.len();
        for i in 0..n
            invariant
                n == self.elems@.len(),
                forall|j: int| 0 <= j < i ==> self.elems@[j] != v,
        {
            if self.elems[i] == v {
                proof {
                    self.lemma_view_contains();
                }
                return true;
            }
        }
        proof {
            self.lemma_view_contains();
        }
        false
    }

    /// Adds `v`; adding a member again changes nothing.
    pub fn insert(&mut self, v: u16)
        requires
            old(self).inv(),
        ensures
            final(self).inv(),
            final(self)@ == old(self)@.insert(v as int),
    {
        let present = self.contains(v);
        if !present {
            proof {
                self.lemma_view_contains();
            }
            self.elems.push(v);
            proof {
                assert(self.elems@.drop_last() == old(self).elems@);
                old(self).lemma_view_contains();
                self.lemma_view_contains();
                assert forall|j: int, k: int|
                    0 <= j < self.elems@.len() && 0 <= k < j implies self.elems@[j]
                    != self.elems@[k] by {
                    if j < self.elems@.len() - 1 {
                        assert(old(self).elems@[j] != old(self).elems@[k]);
                    } else {
                        assert(old(self).elems@[k] as int != v as int);
                    }
                }
                assert(self.elems@.no_duplicates());
                assert forall|x: int| self@.contains(x) <==> old(self)@.insert(v as int).contains(
                    x,
                ) by {
                    if self@.contains(x) {
                        let j = choose|j: int|
                            0 <= j < self.elems@.len() && #[trigger] self.elems@[j] as int == x;
                        if j < self.elems@.len() - 1 {
                            assert(old(self).elems@[j] as int == x);
                        }
                    }
                    if old(self)@.contains(x) {
                        let j = choose|j: int|
                            0 <= j < old(self).elems@.len() && #[trigger] old(
                                self,
                            ).elems@[j] as int == x;
                        assert(self.elems@[j] as int == x);
                    }
                    if x == v as int {
                        assert(self.elems@[self.elems@.len() - 1] as int == x);
                    }
                }
                assert(self@ =~= old(self)@.insert(v as int));
            }
        } else {
            proof {
                assert(self@ =~= old(self)@.insert(v as int));
            }
        }
    }

    /// Takes `v` out, reporting whether it was a member.
    pub fn remove(&mut self, v: u16) -> (r: bool)
        requires
            old(self).inv(),
        ensures
            final(self).inv(),
            r == old(self)@.contains(v as int),
            final(self)@ == old(self)@.remove(v as int),
    {
        let n = self.elems.len();
        for i in 0..n
            invariant
                self == old(self),
                n == self.elems@.len(),
                old(self).inv(),
                forall|j: int| 0 <= j < i ==> self.elems@[j] != v,
        {
            if self.elems[i] == v {
                self.elems.remove(i);
                proof {
                    old(self).lemma_view_contains();
                    self.lemma_view_contains();
                    assert(old(self).elems@[i as int] == v);
                    assert(old(self)@.contains(v as int));
                    assert(self.elems@ == old(self).elems@.remove(i as int));
                    assert(self.elems@.no_duplicates()) by {
                        assert forall|j: int, k: int|
                            0 <= j < self.elems@.len() && 0 <= k < j implies self.elems@[j]
                            != self.elems@[k] by {
                            let j0: int = if j < i { j } else { j + 1 };
                            let k0: int = if k < i { k } else { k + 1 };
                            assert(self.elems@[j] == old(self).elems@[j0]);
                            assert(self.elems@[k] == old(self).elems@[k0]);
                            assert(old(self).elems@[j0] != old(self).elems@[k0]);
                        }
                    }
                    assert forall|x: int|
                        self@.contains(x) <==> old(self)@.remove(v as int).contains(x) by {
                        if self@.contains(x) {
                            let j = choose|j: int|
                                0 <= j < self.elems@.len() && #[trigger] self.elems@[j] as int == x;
                            let j0: int = if j < i { j } else { j + 1 };
                            assert(old(self).elems@[j0] as int == x);
                            if x == v as int {
                                assert(old(self).elems@[j0] == old(self).elems@[i as int]);
                                assert(false);
                            }
                        }
                        if old(self)@.contains(x) && x != v as int {
                            let j = choose|j: int|
                                0 <= j < old(self).elems@.len() && #[trigger] old(
                                    self,
                                ).elems@[j] as int == x;
                            let j1: int = if j < i { j } else { j - 1 };
                            assert(j != i);
                            assert(self.elems@[j1] == old(self).elems@[j]);
                            assert(self.elems@[j1] as int == x);
                        }
                    }
                    assert(self@ =~= old(self)@.remove(v as int));
                }
                return true;
            }
        }
        proof {
            old(self).lemma_view_contains();
            assert(!old(self)@.contains(v as int));
            assert(self@ =~= old(self)@.remove(v as int));
        }
        false
    }

    /// The set of all slots below `n`.
    pub fn range(n: u16) -> (r: SlotSet)
        ensures
            r.inv(),
            r@ == set_int_range(0, n as int),
    {
        let mut r = SlotSet::new();
        for s in 0..n
            invariant
                r.inv(),
                r@ == set_int_range(0, s as int),
        {
            r.insert(s);
            proof {
                assert(r@ =~= set_int_range(0, s as int + 1));
            }
        }
        r
    }

    /// Adds every member of `other` that lies at or above `threshold`.
    pub fn insert_at_or_above(&mut self, other: &SlotSet, threshold: u16)
        requires
            old(self).inv(),
        ensures
            final(self).inv(),
            final(self)@ == old(self)@.union(
                other@.filter(|x: int| x >= threshold as int),
            ),
    {
        let n = other.elems.len();
        for i in 0..n
            invariant
                self.inv(),
                n == other.elems@.len(),
                forall|x: int|
                    self@.contains(x) <==> old(self)@.contains(x) || (exists|q: int|
                        0 <= q < i && #[trigger] other.elems@[q] as int == x && x
                            >= threshold as int),
        {
            let e = other.elems[i];
            if e >= threshold {
                self.insert(e);
                proof {
                    assert(other.elems@[i as int] as int == e as int);
                }
            }
        }
        proof {
            other.lemma_view_contains();
            assert forall|x: int|
                self@.contains(x) <==> old(self)@.union(
                    other@.filter(|x: int| x >= threshold as int),
                ).contains(x) by {
                if other@.filter(|x: int| x >= threshold as int).contains(x) {
                    let q = choose|q: int|
                        0 <= q < other.elems@.len() && #[trigger] other.elems@[q] as int == x;
                }
            }
            assert(self@ =~= old(self)@.union(other@.filter(|x: int| x >= threshold as int)));
        }
    }

    /// The denoted set is always finite: it is the set of a finite vector.
    pub proof fn lemma_finite(&self)
        ensures
            self@.finite(),
    {
        broadcast use vstd::seq_lib::seq_to_set_is_finite;

    }

    /// How many slots are held.
    pub fn len(&self) -> (r: usize)
        requires
            self.inv(),
        ensures
            r == self@.len(),
    {
        proof {
            assert(self.mapped().no_duplicates()) by {
                assert forall|j: int, k: int|
                    0 <= j < self.mapped().len() && 0 <= k < self.mapped().len() && j
                    != k implies self.mapped()[j] != self.mapped()[k] by {
                    assert(self.elems@[j] != self.elems@[k]);
                }
            }
            self.mapped().unique_seq_to_set();
        }
        self.elems.len()
    }

    /// The largest member, or zero for an empty set.
    pub fn max_or_zero(&self) -> (r: u16)
        ensures
            self@ == Set::<int>::empty() ==> r == 0,
            self@ != Set::<int>::empty() ==> self@.contains(r as int) && (forall|x: int|
                self@.contains(x) ==> x <= r as int),
    {
        proof {
            self.lemma_view_contains();
        }
        let n = self.elems.len();
        if n == 0 {
            proof {
                assert(self@ =~= Set::<int>::empty());
            }
            return 0;
        }
        let mut best: u16 = self.elems[0];
        for i in 1..n
            invariant
                n == self.elems@.len(),
                exists|j: int| 0 <= j < i && #[trigger] self.elems@[j] == best,
                forall|j: int| 0 <= j < i ==> self.elems@[j] <= best,
        {
            if self.elems[i] > best {
                best = self.elems[i];
            }
        }
        proof {
            assert(self@.contains(best as int));
        }
        best
    }

    /// The smallest member, if any.
    pub fn min(&self) -> (r: Option<u16>)
        ensures
            r is None <==> self@ == Set::<int>::empty(),
            r matches Some(m) ==> self@.contains(m as int) && m as int == set_min(self@),
    {
        proof {
            self.lemma_view_contains();
        }
        let n = self.elems.len();
        if n == 0 {
            proof {
                assert(self@ =~= Set::<int>::empty());
            }
            return None;
        }
        let mut best: u16 = self.elems[0];
        for i in 1..n
            invariant
                n == self.elems@.len(),
                exists|j: int| 0 <= j < i && #[trigger] self.elems@[j] == best,
                forall|j: int| 0 <= j < i ==> self.elems@[j] >= best,
        {
            if self.elems[i] < best {
                best = self.elems[i];
            }
        }
        proof {
            assert(self@.contains(best as int));
            assert(self@ != Set::<int>::empty());
            assert forall|x: int| self@.contains(x) implies best as int <= x by {
                let j = choose|j: int|
                    0 <= j < self.elems@.len() && #[trigger] self.elems@[j] as int == x;
            }
            lemma_min_unique(self@, best as int);
        }
        Some(best)
    }
}

} // verus!
