//! A set of board locations, kept as a strictly sorted vector in row-major
//! order.  The solver's constraints talk about such sets: subset tests,
//! intersections and differences are what its rules combine.

use vstd::prelude::*;

use crate::location::{Bounded, Location};

verus! {

/// Both coordinates of the location are valid numbers.
pub open spec fn loc_valid(l: Location) -> bool {
    l.x is Valid && l.y is Valid
}

/// Row-major order on valid locations: by row, then by column.
pub open spec fn loc_lt(a: Location, b: Location) -> bool
    recommends
        loc_valid(a),
        loc_valid(b),
{
    ||| (a.y->Valid_0 as int) < (b.y->Valid_0 as int)
    ||| ((a.y->Valid_0 as int) == (b.y->Valid_0 as int) && (a.x->Valid_0 as int) < (
    b.x->Valid_0 as int))
}

/// A strictly ascending sequence of valid locations.
pub open spec fn loc_sorted(s: Seq<Location>) -> bool {
    &&& forall|i: int| 0 <= i < s.len() ==> loc_valid(#[trigger] s[i])
    &&& forall|i: int, j: int| 0 <= i < j < s.len() ==> loc_lt(s[i], s[j])
}

/// Strictly ordered valid locations differ.
pub proof fn lemma_loc_lt_neq(a: Location, b: Location)
    requires
        loc_valid(a),
        loc_valid(b),
        loc_lt(a, b),
    ensures
        a != b,
{
}

/// A sorted location sequence has no duplicates.
pub proof fn lemma_loc_sorted_no_dup(s: Seq<Location>)
    requires
        loc_sorted(s),
    ensures
        s.no_duplicates(),
{
    assert forall|i: int, j: int| 0 <= i < j < s.len() implies s[i] != s[j] by {
        lemma_loc_lt_neq(s[i], s[j]);
    }
}

/// A set of locations in canonical sorted order.
#[derive(Debug)]
pub struct LocationSet {
    items: Vec<Location>,
}

impl View for LocationSet {
    type V = Set<Location>;

    open spec fn view(&self) -> Set<Location> {
        self.seq().to_set()
    }
}

impl LocationSet {
    /// The elements in their canonical order.
    pub closed spec fn seq(&self) -> Seq<Location> {
        self.items@
    }

    /// The canonical-form invariant: strictly sorted, valid locations.
    pub open spec fn wf(&self) -> bool {
        loc_sorted(self.seq())
    }

    /// The set is finite and as large as its canonical sequence.
    pub proof fn lemma_card(&self)
        requires
            self.wf(),
        ensures
            self@.finite(),
            self@.len() == self.seq().len(),
    {
        lemma_loc_sorted_no_dup(self.seq());
        self.seq().unique_seq_to_set();
    }

    /// The empty set.
    pub fn new() -> (r: Self)
        ensures
            r.wf(),
            r@ == Set::<Location>::empty(),
            r.seq() == Seq::<Location>::empty(),
    {
        let r = Self { items: Vec::new() };
        proof {
            assert(r.seq().to_set() =~= Set::<Location>::empty());
        }
        r
    }

    /// How many locations the set holds.
    pub fn len(&self) -> (r: usize)
        requires
            self.wf(),
        ensures
            r == self.seq().len(),
            r == self@.len(),
    {
        proof {
            self.lemma_card();
        }
        self.items.len()
    }

    /// Whether the set holds nothing.
    pub fn is_empty(&self) -> (r: bool)
        requires
            self.wf(),
        ensures
            r == (self@.len() == 0),
            r == (self.seq().len() == 0),
    {
        proof {
            self.lemma_card();
        }
        self.items.len() == 0
    }

    /// The location at the given position of the canonical order.
    pub fn get(&self, i: usize) -> (r: Location)
        requires
            i < self.seq().len(),
        ensures
            r == self.seq()[i as int],
            self@.contains(r),
    {
        let r = *self.items.get(i).unwrap();
        proof {
            assert(self.seq().contains(r)) by {
                assert(self.seq()[i as int] == r);
            }
        }
        r
    }

    /// An identical copy.
    pub fn duplicate(&self) -> (r: Self)
        ensures
            r.seq() == self.seq(),
            r@ == self@,
            r.wf() == self.wf(),
    {
        let mut items: Vec<Location> = Vec::new();
        let mut i: usize = 0;
        let n = self.items.len();
        while i < n
            invariant
                i <= n,
                n == self.seq().len(),
                items@ == self.seq().take(i as int),
            decreases n - i,
        {
            items.push(*self.items.get(i).unwrap());
            proof {
                assert(items@ =~= self.seq().take(i as int + 1));
            }
            i = i + 1;
        }
        proof {
            assert(self.seq().take(n as int) =~= self.seq());
        }
        Self { items }
    }

    /// Whether `a` comes strictly before `b` in row-major order.
    fn loc_before(a: &Location, b: &Location) -> (r: bool)
        requires
            loc_valid(*a),
            loc_valid(*b),
        ensures
            r == loc_lt(*a, *b),
    {
        let (ax, ay) = match (a.x, a.y) {
            (Bounded::Valid(x), Bounded::Valid(y)) => (x, y),
            _ => vstd::pervasive::unreached(),
        };
        let (bx, by) = match (b.x, b.y) {
            (Bounded::Valid(x), Bounded::Valid(y)) => (x, y),
            _ => vstd::pervasive::unreached(),
        };
        ay < by || (ay == by && ax < bx)
    }

    /// Adds a location, keeping the canonical order.
    pub fn insert(&mut self, l: Location)
        requires
            old(self).wf(),
            loc_valid(l),
        ensures
            final(self).wf(),
            final(self)@ == old(self)@.insert(l),
            final(self).seq().len() <= old(self).seq().len() + 1,
    {
        let mut p: usize = 0;
        let n = self.items.len();
        while p < n && Self::loc_before(self.items.get(p).unwrap(), &l)
            invariant
                p <= n,
                n == self.seq().len(),
                self.wf(),
                loc_valid(l),
                forall|k: int| 0 <= k < p ==> loc_lt(#[trigger] self.seq()[k], l),
            decreases n - p,
        {
            p = p + 1;
        }
        let ghost old_seq = self.seq();
        if p < n && *self.items.get(p).unwrap() == l {
            proof {
                assert(old_seq[p as int] == l);
                assert(old_seq.contains(l));
                assert(self@.insert(l) =~= self@);
            }
            return ;
        }
        proof {
            if p < n {
                assert(!loc_lt(old_seq[p as int], l) && old_seq[p as int] != l);
                assert(loc_lt(l, old_seq[p as int]));
            }
        }
        self.items.insert(p, l);
        proof {
            let new_seq = self.seq();
            assert(forall|k: int| 0 <= k < p ==> new_seq[k] == old_seq[k]);
            assert(forall|k: int| p < k < new_seq.len() ==> new_seq[k] == old_seq[k - 1]);
            assert(new_seq[p as int] == l);
            assert forall|i: int, j: int| 0 <= i < j < new_seq.len() implies loc_lt(
                new_seq[i],
                new_seq[j],
            ) by {
                if i == p {
                    if j - 1 > p {
                        assert(loc_lt(old_seq[p as int], old_seq[j - 1]));
                    }
                    assert(loc_lt(l, old_seq[j - 1]));
                } else if j == p {
                } else if i < p && j > p {
                    assert(loc_lt(old_seq[i], old_seq[j - 1]) || i == j - 1);
                }
            }
            assert forall|x: Location| new_seq.contains(x) implies old_seq.contains(x) || x
                == l by {
                let i = choose|i: int| 0 <= i < new_seq.len() && new_seq[i] == x;
                if i < p {
                    assert(old_seq[i] == x);
                } else if i > p {
                    assert(old_seq[i - 1] == x);
                }
            }
            assert forall|x: Location| old_seq.contains(x) implies new_seq.contains(x) by {
                let i = choose|i: int| 0 <= i < old_seq.len() && old_seq[i] == x;
                if i < p {
                    assert(new_seq[i] == x);
                } else {
                    assert(new_seq[i + 1] == x);
                }
            }
            assert(new_seq.to_set() =~= old_seq.to_set().insert(l)) by {
                assert(new_seq.contains(l)) by {
                    assert(new_seq[p as int] == l);
                }
            }
        }
    }

    /// Whether the set holds `l`.
    pub fn contains(&self, l: &Location) -> (r: bool)
        ensures
            r == self@.contains(*l),
    {
        let n = self.items.len();
        let mut i: usize = 0;
        while i < n
            invariant
                i <= n,
                n == self.seq().len(),
                forall|k: int| 0 <= k < i ==> self.seq()[k] != *l,
            decreases n - i,
        {
            if *self.items.get(i).unwrap() == *l {
                proof {
                    assert(self.seq().contains(*l)) by {
                        assert(self.seq()[i as int] == *l);
                    }
                }
                return true;
            }
            i = i + 1;
        }
        proof {
            if self.seq().contains(*l) {
                let k = choose|k: int| 0 <= k < self.seq().len() && self.seq()[k] == *l;
                assert(false);
            }
        }
        false
    }

    /// Whether every location of this set is in `other`.
    pub fn is_subset(&self, other: &LocationSet) -> (r: bool)
        ensures
            r == self@.subset_of(other@),
    {
        let n = self.items.len();
        let mut i: usize = 0;
        while i < n
            invariant
                i <= n,
                n == self.seq().len(),
                forall|k: int| 0 <= k < i ==> other@.contains(#[trigger] self.seq()[k]),
            decreases n - i,
        {
            let l = *self.items.get(i).unwrap();
            if !other.contains(&l) {
                proof {
                    assert(self@.contains(l)) by {
                        assert(self.seq()[i as int] == l);
                    }
                }
                return false;
            }
            i = i + 1;
        }
        proof {
            assert forall|x: Location| self@.contains(x) implies other@.contains(x) by {
                let k = choose|k: int| 0 <= k < self.seq().len() && self.seq()[k] == x;
                assert(other@.contains(self.seq()[k]));
            }
        }
        true
    }

    /// The locations of this set that are also in `other`.
    pub fn intersection(&self, other: &LocationSet) -> (r: LocationSet)
        requires
            self.wf(),
        ensures
            r.wf(),
            r@ == self@.intersect(other@),
    {
        let n = self.items.len();
        let mut items: Vec<Location> = Vec::new();
        let mut i: usize = 0;
        while i < n
            invariant
                i <= n,
                n == self.seq().len(),
                self.wf(),
                loc_sorted(items@),
                forall|k: int|
                    0 <= k < items@.len() ==> self@.contains(#[trigger] items@[k]) && other@.contains(
                        items@[k],
                    ),
                forall|k: int|
                    #![trigger self.seq()[k]]
                    0 <= k < i && other@.contains(self.seq()[k]) ==> items@.contains(
                        self.seq()[k],
                    ),
                forall|k: int, k2: int|
                    0 <= k < items@.len() && 0 <= k2 < i ==> (items@[k] == self.seq()[k2]
                        || loc_lt(items@[k], self.seq()[k2]) || loc_lt(self.seq()[k2], items@[k])),
                items@.len() <= i,
                forall|k: int|
                    0 <= k < items@.len() ==> exists|k2: int|
                        0 <= k2 < i && #[trigger] items@[k] == self.seq()[k2],
            decreases n - i,
        {
            let l = *self.items.get(i).unwrap();
            let ghost old_items = items@;
            if other.contains(&l) {
                items.push(l);
                proof {
                    assert(self@.contains(l)) by {
                        assert(self.seq()[i as int] == l);
                    }
                    assert(items@[old_items.len() as int] == l);
                    assert forall|k: int, j: int|
                        0 <= k < j < items@.len() implies loc_lt(items@[k], items@[j]) by {
                        if j == items@.len() - 1 {
                            let k2 = choose|k2: int|
                                0 <= k2 < i && #[trigger] old_items[k] == self.seq()[k2];
                            assert(loc_lt(self.seq()[k2], self.seq()[i as int]));
                        }
                    }
                    assert forall|k: int|
                        0 <= k < items@.len() implies exists|k2: int|
                        0 <= k2 <= i && #[trigger] items@[k] == self.seq()[k2] by {
                        if k < old_items.len() {
                            let k2 = choose|k2: int|
                                0 <= k2 < i && #[trigger] old_items[k] == self.seq()[k2];
                            assert(items@[k] == self.seq()[k2]);
                        } else {
                            assert(items@[k] == self.seq()[i as int]);
                        }
                    }
                }
            }
            proof {
                assert forall|k: int|
                    0 <= k < i + 1 && other@.contains(#[trigger] self.seq()[k]) implies items@.contains(
                    self.seq()[k],
                ) by {
                    if k < i {
                        let k3 = choose|k3: int|
                            0 <= k3 < old_items.len() && old_items[k3] == self.seq()[k];
                        assert(items@[k3] == self.seq()[k]);
                    } else {
                        assert(items@[items@.len() - 1] == self.seq()[k]);
                    }
                }
            }
            i = i + 1;
        }
        let r = LocationSet { items };
        proof {
            assert forall|x: Location| r@.contains(x) implies self@.contains(x)
                && other@.contains(x) by {
                let k = choose|k: int| 0 <= k < r.seq().len() && r.seq()[k] == x;
            }
            assert forall|x: Location|
                self@.contains(x) && other@.contains(x) implies r@.contains(x) by {
                let k = choose|k: int| 0 <= k < self.seq().len() && self.seq()[k] == x;
                assert(r.seq().contains(self.seq()[k]));
            }
            assert(r@ =~= self@.intersect(other@));
        }
        r
    }

    /// The locations of this set that are not in `other`.
    pub fn difference(&self, other: &LocationSet) -> (r: LocationSet)
        requires
            self.wf(),
        ensures
            r.wf(),
            r@ == self@.difference(other@),
    {
        let n = self.items.len();
        let mut items: Vec<Location> = Vec::new();
        let mut i: usize = 0;
        while i < n
            invariant
                i <= n,
                n == self.seq().len(),
                self.wf(),
                loc_sorted(items@),
                forall|k: int|
                    0 <= k < items@.len() ==> self@.contains(#[trigger] items@[k]) && !other@.contains(
                        items@[k],
                    ),
                forall|k: int|
                    #![trigger self.seq()[k]]
                    0 <= k < i && !other@.contains(self.seq()[k]) ==> items@.contains(
                        self.seq()[k],
                    ),
                items@.len() <= i,
                forall|k: int|
                    0 <= k < items@.len() ==> exists|k2: int|
                        0 <= k2 < i && #[trigger] items@[k] == self.seq()[k2],
            decreases n - i,
        {
            let l = *self.items.get(i).unwrap();
            let ghost old_items = items@;
            if !other.contains(&l) {
                items.push(l);
                proof {
                    assert(self@.contains(l)) by {
                        assert(self.seq()[i as int] == l);
                    }
                    assert(items@[old_items.len() as int] == l);
                    assert forall|k: int, j: int|
                        0 <= k < j < items@.len() implies loc_lt(items@[k], items@[j]) by {
                        if j == items@.len() - 1 {
                            let k2 = choose|k2: int|
                                0 <= k2 < i && #[trigger] old_items[k] == self.seq()[k2];
                            assert(loc_lt(self.seq()[k2], self.seq()[i as int]));
                        }
                    }
                    assert forall|k: int|
                        0 <= k < items@.len() implies exists|k2: int|
                        0 <= k2 <= i && #[trigger] items@[k] == self.seq()[k2] by {
                        if k < old_items.len() {
                            let k2 = choose|k2: int|
                                0 <= k2 < i && #[trigger] old_items[k] == self.seq()[k2];
                            assert(items@[k] == self.seq()[k2]);
                        } else {
                            assert(items@[k] == self.seq()[i as int]);
                        }
                    }
                }
            }
            proof {
                assert forall|k: int|
                    0 <= k < i + 1 && !other@.contains(#[trigger] self.seq()[k]) implies items@.contains(
                    self.seq()[k],
                ) by {
                    if k < i {
                        let k3 = choose|k3: int|
                            0 <= k3 < old_items.len() && old_items[k3] == self.seq()[k];
                        assert(items@[k3] == self.seq()[k]);
                    } else {
                        assert(items@[items@.len() - 1] == self.seq()[k]);
                    }
                }
            }
            i = i + 1;
        }
        let r = LocationSet { items };
        proof {
            assert forall|x: Location| r@.contains(x) implies self@.contains(x)
                && !other@.contains(x) by {
                let k = choose|k: int| 0 <= k < r.seq().len() && r.seq()[k] == x;
            }
            assert forall|x: Location|
                self@.contains(x) && !other@.contains(x) implies r@.contains(x) by {
                let k = choose|k: int| 0 <= k < self.seq().len() && self.seq()[k] == x;
                assert(r.seq().contains(self.seq()[k]));
            }
            assert(r@ =~= self@.difference(other@));
        }
        r
    }
}

impl PartialEq for LocationSet {
    /// Canonical representations are compared element by element.
    fn eq(&self, other: &Self) -> (r: bool) {
        let n = self.items.len();
        if n != other.items.len() {
            return false;
        }
        let mut i: usize = 0;
        while i < n
            invariant
                i <= n,
                n == self.seq().len(),
                n == other.seq().len(),
                forall|k: int| 0 <= k < i ==> self.seq()[k] == other.seq()[k],
            decreases n - i,
        {
            if *self.items.get(i).unwrap() != *other.items.get(i).unwrap() {
                return false;
            }
            i = i + 1;
        }
        proof {
            assert(self.seq() =~= other.seq());
        }
        true
    }
}

impl Eq for LocationSet {

}

impl vstd::std_specs::cmp::PartialEqSpecImpl for LocationSet {
    open spec fn obeys_eq_spec() -> bool {
        true
    }

    open spec fn eq_spec(&self, other: &LocationSet) -> bool {
        self.seq() == other.seq()
    }
}

} // verus!
