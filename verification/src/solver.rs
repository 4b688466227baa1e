//! The logical solver: a saturating, forward-chaining inference engine over
//! set-valued mine constraints.  Revealed cells seed `Exact` facts over
//! their hidden neighbours; a small rulebase derives new facts until none
//! appear; the `Exact 0` and `Exact all` facts name the provably safe and
//! provably mined cells.

use vstd::prelude::*;

use vstd::arithmetic::power2::{lemma_pow2_pos, lemma_pow2_strictly_increases, pow2};
use vstd::set_lib::{lemma_int_range, lemma_len_subset, set_int_range};

use crate::area::{lemma_get_in_grid, Area, AreaView};
use crate::counting::{
    count_where, lemma_count_as_filter, lemma_count_le_len, lemma_count_take_all,
    lemma_count_take_succ, lemma_len_disjoint_union,
};
use crate::location::{
    lemma_neighbours_distinct, lemma_to_from_index, lemma_to_index_injective, loc_in_grid,
    spec_from_index, spec_neighbours, spec_to_index, Location,
};
use crate::locset::{loc_lt, loc_valid, LocationSet};
use crate::mine_field::{
    is_mine_pred, mine_at_pred, spec_adj_mines, spec_mine_count, GroundKind, Minefield,
    MinefieldGenerator, MinefieldView, State,
};

verus! {

/// The sense of a constraint: at least, exactly, or at most this many
/// mines in the proximity set.
#[derive(Debug, Clone, Copy, PartialEq, Eq, Hash, Structural)]
pub enum Constraint {
    Min,
    Exact,
    Max,
}

/// Where a fact came from: the cell it was seeded at, if any, and the name
/// of the rule that produced it.  Diagnostics only; never part of a fact's
/// identity.
#[derive(Debug, Clone, Copy)]
pub struct FactDebug {
    pub base_location: Option<Location>,
    pub produced_by: &'static str,
}

impl FactDebug {
    /// Provenance of a seeded fact.
    pub fn base(base_location: Option<Location>, produced_by: &'static str) -> (r: Self)
        ensures
            r.base_location == base_location,
            r.produced_by == produced_by,
    {
        Self { base_location, produced_by }
    }

    /// Provenance of a fact derived from one parent.
    pub fn derived_one(produced_by: &'static str) -> (r: Self)
        ensures
            r.base_location is None,
            r.produced_by == produced_by,
    {
        Self { base_location: None, produced_by }
    }

    /// Provenance of a fact derived from two parents.
    pub fn derived_two(produced_by: &'static str) -> (r: Self)
        ensures
            r.base_location is None,
            r.produced_by == produced_by,
    {
        Self { base_location: None, produced_by }
    }
}

/// A constraint: among the cells of `proximity`, the number of mines
/// relates to `count` as `kind` says.  Identity for deduplication is
/// `(kind, count, proximity)`; `iteration` and `debug` are metadata.
#[derive(Debug)]
pub struct Fact {
    pub kind: Constraint,
    pub count: usize,
    pub proximity: LocationSet,
    pub iteration: usize,
    pub debug: FactDebug,
}

/// The number of mines of `g` inside the location set `s`.
pub open spec fn spec_mines_of(s: Set<Location>, g: AreaView<GroundKind>) -> nat {
    s.filter(mine_at_pred(g)).len()
}

/// The fact's claim, read against a ground layer.
pub open spec fn fact_holds(f: Fact, g: AreaView<GroundKind>) -> bool {
    match f.kind {
        Constraint::Min => spec_mines_of(f.proximity@, g) >= f.count,
        Constraint::Exact => spec_mines_of(f.proximity@, g) == f.count,
        Constraint::Max => spec_mines_of(f.proximity@, g) <= f.count,
    }
}

/// A fact shaped for a `width` x `height` board: canonical proximity of
/// in-grid cells and a count that cannot exceed the board plus the eight
/// neighbours a seed can see.
pub open spec fn fact_wf(f: Fact, width: nat, height: nat) -> bool {
    &&& f.proximity.wf()
    &&& forall|i: int|
        0 <= i < f.proximity.seq().len() ==> loc_in_grid(
            #[trigger] f.proximity.seq()[i],
            width as int,
            height as int,
        )
    &&& f.count <= width * height + 8
}

/// Two facts are the same constraint: equal kind, count and proximity.
pub open spec fn fact_same(a: Fact, b: Fact) -> bool {
    a.kind == b.kind && a.count == b.count && a.proximity.seq() == b.proximity.seq()
}

/// The fact list holds a fact with this kind, count and proximity.
pub open spec fn has_fact(s: Seq<Fact>, kind: Constraint, count: int, prox: Set<Location>) -> bool {
    exists|k: int|
        0 <= k < s.len() && s[k].kind == kind && s[k].count == count && s[k].proximity@ == prox
}

/// The still-hidden Moore neighbours of a cell, as a set: the proximity a
/// revealed cell seeds.
pub open spec fn spec_hidden_neighbours(fog: AreaView<State>, l: Location) -> Set<Location> {
    Set::new(|x: Location| spec_neighbours(l).contains(x) && fog.get(x) == Some(State::Hidden))
}

/// The cells the player has not resolved: hidden or marked.  The universal
/// fact ranges over them.
pub open spec fn spec_unresolved_cells(fog: AreaView<State>) -> Set<Location> {
    Set::new(|x: Location| fog.get(x) matches Some(s) && (s is Hidden || s is Marked))
}

/// Every revealed cell of the board has its seeded constraint in the fact
/// list: an `Exact` fact of its neighbour count over its still-hidden
/// neighbours.
pub open spec fn spec_seeded_facts_present(v: MinefieldView, facts: Seq<Fact>) -> bool {
    forall|i: int|
        0 <= i < v.fog.cells.len() ==> ((#[trigger] v.fog.cells[i]) matches State::Revealed {
            adj_mines,
        } ==> has_fact(
            facts,
            Constraint::Exact,
            adj_mines as int,
            spec_hidden_neighbours(v.fog, spec_from_index(i, v.fog.width as int)),
        ))
}

/// The fact list is closed under the six rules when every premise is
/// tagged before iteration `it`: the saturation ledger the solver's loop
/// carries forward.
pub open spec fn spec_saturated_below(facts: Seq<Fact>, it: int) -> bool {
    &&& forall|i: int|
        #![trigger facts[i]]
        0 <= i < facts.len() && facts[i].iteration < it && facts[i].kind is Min
            && facts[i].proximity@.len() == facts[i].count ==> has_fact(
            facts,
            Constraint::Exact,
            facts[i].count as int,
            facts[i].proximity@,
        )
    &&& forall|i: int|
        #![trigger facts[i]]
        0 <= i < facts.len() && facts[i].iteration < it && facts[i].kind is Max && facts[i].count
            == 0 ==> has_fact(facts, Constraint::Exact, 0, facts[i].proximity@)
    &&& forall|i: int|
        #![trigger facts[i]]
        0 <= i < facts.len() && facts[i].iteration < it && facts[i].kind is Exact ==> has_fact(
            facts,
            Constraint::Min,
            facts[i].count as int,
            facts[i].proximity@,
        )
    &&& forall|i: int|
        #![trigger facts[i]]
        0 <= i < facts.len() && facts[i].iteration < it && facts[i].kind is Exact ==> has_fact(
            facts,
            Constraint::Max,
            facts[i].count as int,
            facts[i].proximity@,
        )
    &&& forall|i: int, j: int|
        #![trigger facts[i], facts[j]]
        0 <= i < facts.len() && 0 <= j < facts.len() && facts[i].iteration < it
            && facts[j].iteration < it && min_within_max_applies(facts[i], facts[j]) ==> has_fact(
            facts,
            Constraint::Max,
            facts[j].count - facts[i].count,
            facts[j].proximity@.difference(facts[i].proximity@),
        )
    &&& forall|i: int, j: int|
        #![trigger facts[i], facts[j]]
        0 <= i < facts.len() && 0 <= j < facts.len() && facts[i].iteration < it
            && facts[j].iteration < it && max_intersects_min_applies(facts[i], facts[j])
            ==> has_fact(
            facts,
            Constraint::Min,
            facts[i].count - overlap_cap(facts[i], facts[j]),
            facts[i].proximity@.difference(facts[j].proximity@),
        )
}

/// The fact list is closed under all six rules outright: one more pass of
/// every rule can only restate constraints already present.
pub open spec fn spec_rules_saturated(facts: Seq<Fact>) -> bool {
    &&& forall|i: int|
        #![trigger facts[i]]
        0 <= i < facts.len() && facts[i].kind is Min && facts[i].proximity@.len()
            == facts[i].count ==> has_fact(
            facts,
            Constraint::Exact,
            facts[i].count as int,
            facts[i].proximity@,
        )
    &&& forall|i: int|
        #![trigger facts[i]]
        0 <= i < facts.len() && facts[i].kind is Max && facts[i].count == 0 ==> has_fact(
            facts,
            Constraint::Exact,
            0,
            facts[i].proximity@,
        )
    &&& forall|i: int|
        #![trigger facts[i]]
        0 <= i < facts.len() && facts[i].kind is Exact ==> has_fact(
            facts,
            Constraint::Min,
            facts[i].count as int,
            facts[i].proximity@,
        )
    &&& forall|i: int|
        #![trigger facts[i]]
        0 <= i < facts.len() && facts[i].kind is Exact ==> has_fact(
            facts,
            Constraint::Max,
            facts[i].count as int,
            facts[i].proximity@,
        )
    &&& forall|i: int, j: int|
        #![trigger facts[i], facts[j]]
        0 <= i < facts.len() && 0 <= j < facts.len() && min_within_max_applies(
            facts[i],
            facts[j],
        ) ==> has_fact(
            facts,
            Constraint::Max,
            facts[j].count - facts[i].count,
            facts[j].proximity@.difference(facts[i].proximity@),
        )
    &&& forall|i: int, j: int|
        #![trigger facts[i], facts[j]]
        0 <= i < facts.len() && 0 <= j < facts.len() && max_intersects_min_applies(
            facts[i],
            facts[j],
        ) ==> has_fact(
            facts,
            Constraint::Min,
            facts[i].count - overlap_cap(facts[i], facts[j]),
            facts[i].proximity@.difference(facts[j].proximity@),
        )
}

impl Fact {
    /// A fact from all five parts.
    pub fn new(
        kind: Constraint,
        count: usize,
        proximity: LocationSet,
        iteration: usize,
        debug: FactDebug,
    ) -> (r: Self)
        ensures
            r.kind == kind,
            r.count == count,
            r.proximity == proximity,
            r.iteration == iteration,
            r.debug == debug,
    {
        Self { kind, count, proximity, iteration, debug }
    }

    /// An `Exact` fact seeded from the board before any derivation.
    pub fn seeded(count: usize, proximity: LocationSet, base_location: Option<Location>) -> (r:
        Self)
        ensures
            r.kind == Constraint::Exact,
            r.count == count,
            r.proximity == proximity,
            r.iteration == 0,
            r.debug.base_location == base_location,
    {
        Self {
            kind: Constraint::Exact,
            count,
            proximity,
            iteration: 0,
            debug: FactDebug::base(base_location, "Seeder"),
        }
    }

    /// The same constraint under another kind, tagged with the deriving
    /// rule and iteration.
    pub fn derive_kind(&self, kind: Constraint, iteration: usize, produced_by: &'static str) -> (r:
        Self)
        ensures
            r.kind == kind,
            r.count == self.count,
            r.proximity.seq() == self.proximity.seq(),
            r.proximity@ == self.proximity@,
            r.iteration == iteration,
    {
        Self {
            kind,
            count: self.count,
            proximity: self.proximity.duplicate(),
            iteration,
            debug: FactDebug::derived_one(produced_by),
        }
    }

    /// The size of the proximity set.
    pub fn cardinality(&self) -> (r: usize)
        requires
            self.proximity.wf(),
        ensures
            r == self.proximity@.len(),
            r == self.proximity.seq().len(),
    {
        self.proximity.len()
    }

    /// Returns `true` if the fact is a [`Constraint::Min`] constraint.
    pub fn is_min(&self) -> (r: bool)
        ensures
            r == (self.kind is Min),
    {
        matches!(self.kind, Constraint::Min)
    }

    /// Returns `true` if the fact is a [`Constraint::Max`] constraint.
    pub fn is_max(&self) -> (r: bool)
        ensures
            r == (self.kind is Max),
    {
        matches!(self.kind, Constraint::Max)
    }

    /// Returns `true` if the fact is a [`Constraint::Exact`] constraint.
    pub fn is_exact(&self) -> (r: bool)
        ensures
            r == (self.kind is Exact),
    {
        matches!(self.kind, Constraint::Exact)
    }
}

impl PartialEq for Fact {
    /// Identity: kind, count and proximity; iteration and provenance are
    /// metadata.
    fn eq(&self, other: &Self) -> (r: bool) {
        self.kind == other.kind && self.count == other.count && self.proximity == other.proximity
    }
}

impl Eq for Fact {

}

impl vstd::std_specs::cmp::PartialEqSpecImpl for Fact {
    open spec fn obeys_eq_spec() -> bool {
        true
    }

    open spec fn eq_spec(&self, other: &Fact) -> bool {
        fact_same(*self, *other)
    }
}

/// Every mine of the board is still under hidden fog: no mine has been
/// marked or exploded.  Seeding trusts the player's marks, so the solver's
/// guarantees are read against boards where that trust is not yet needed.
pub open spec fn mines_all_hidden(v: MinefieldView) -> bool {
    forall|i: int|
        0 <= i < v.ground.cells.len() && #[trigger] v.ground.cells[i] is Mine ==> (i
            < v.fog.cells.len() && v.fog.cells[i] is Hidden)
}

/// A proximity set has at most as many mines as members.
proof fn lemma_mines_le_card(s: LocationSet, g: AreaView<GroundKind>)
    requires
        s.wf(),
    ensures
        spec_mines_of(s@, g) <= s@.len(),
        s@.finite(),
{
    s.lemma_card();
    s@.lemma_len_filter(mine_at_pred(g));
}

/// Splitting a finite set against another distributes its mines: the part
/// inside and the part outside add up.
proof fn lemma_mines_split(a: Set<Location>, b: Set<Location>, g: AreaView<GroundKind>)
    requires
        a.finite(),
    ensures
        spec_mines_of(a, g) == spec_mines_of(a.intersect(b), g) + spec_mines_of(
            a.difference(b),
            g,
        ),
        a.intersect(b).finite(),
        a.difference(b).finite(),
{
    let p = mine_at_pred(g);
    let x = a.intersect(b).filter(p);
    let y = a.difference(b).filter(p);
    assert(a.intersect(b) =~= a.difference(a.difference(b)));
    lemma_len_subset(a.intersect(b), a);
    lemma_len_subset(a.difference(b), a);
    a.intersect(b).lemma_len_filter(p);
    a.difference(b).lemma_len_filter(p);
    assert(x.disjoint(y));
    lemma_len_disjoint_union(x, y);
    assert(a.filter(p) =~= x.union(y));
}

/// Mines in a subset are no more than mines in the whole.
proof fn lemma_mines_subset(a: Set<Location>, b: Set<Location>, g: AreaView<GroundKind>)
    requires
        b.finite(),
        a.subset_of(b),
    ensures
        spec_mines_of(a, g) <= spec_mines_of(b, g),
{
    let p = mine_at_pred(g);
    b.lemma_len_filter(p);
    assert(a.filter(p).subset_of(b.filter(p)));
    lemma_len_subset(a.filter(p), b.filter(p));
}

/// The numeral of a constraint kind, for the fact encoding.
spec fn kind_num(k: Constraint) -> int {
    match k {
        Constraint::Min => 0,
        Constraint::Exact => 1,
        Constraint::Max => 2,
    }
}

/// The flat row-major index of a valid location, as plain arithmetic.
spec fn flat_of(l: Location, w: int) -> int {
    (l.y->Valid_0 as int) * w + (l.x->Valid_0 as int)
}

/// A proximity sequence as a bit mask: one bit per flat cell index.
spec fn prox_mask(s: Seq<Location>, w: int) -> nat
    decreases s.len(),
{
    if s.len() == 0 {
        0
    } else {
        prox_mask(s.drop_last(), w) + pow2(flat_of(s.last(), w) as nat)
    }
}

/// Row-major order on in-grid locations is flat-index order.
proof fn lemma_flat_lt(a: Location, b: Location, w: int, h: int)
    requires
        loc_in_grid(a, w, h),
        loc_in_grid(b, w, h),
        loc_lt(a, b),
    ensures
        flat_of(a, w) < flat_of(b, w),
        0 <= flat_of(a, w),
        flat_of(b, w) < w * h,
{
    let ax = a.x->Valid_0 as int;
    let ay = a.y->Valid_0 as int;
    let bx = b.x->Valid_0 as int;
    let by = b.y->Valid_0 as int;
    assert(ay * w + ax < by * w + bx && 0 <= ay * w + ax && by * w + bx < w * h) by (
    nonlinear_arith)
        requires
            0 <= ax < w,
            0 <= bx < w,
            0 <= ay < h,
            0 <= by < h,
            ay < by || (ay == by && ax < bx),
    ;
}

/// The flat index of an in-grid location is within the grid.
proof fn lemma_flat_bound(l: Location, w: int, h: int)
    requires
        loc_in_grid(l, w, h),
    ensures
        0 <= flat_of(l, w) < w * h,
{
    let x = l.x->Valid_0 as int;
    let y = l.y->Valid_0 as int;
    assert(0 <= y * w + x < w * h) by (nonlinear_arith)
        requires
            0 <= x < w,
            0 <= y < h,
    ;
}

/// A sorted in-grid proximity's mask is sandwiched by the powers of two of
/// its greatest member.
proof fn lemma_mask_last(s: Seq<Location>, w: int, h: int)
    requires
        crate::locset::loc_sorted(s),
        forall|i: int| 0 <= i < s.len() ==> loc_in_grid(#[trigger] s[i], w, h),
        s.len() > 0,
    ensures
        pow2(flat_of(s.last(), w) as nat) <= prox_mask(s, w) < pow2(
            (flat_of(s.last(), w) + 1) as nat,
        ),
    decreases s.len(),
{
    let f = flat_of(s.last(), w);
    lemma_flat_bound(s.last(), w, h);
    vstd::arithmetic::power2::lemma_pow2_unfold((f + 1) as nat);
    lemma_pow2_pos(f as nat);
    assert((((f + 1) as nat) - 1) as nat == f as nat);
    assert(pow2((f + 1) as nat) == 2 * pow2(f as nat));
    if s.len() == 1 {
        assert(prox_mask(s, w) == prox_mask(s.drop_last(), w) + pow2(f as nat));
        assert(prox_mask(s.drop_last(), w) == 0);
    } else {
        let t = s.drop_last();
        assert(crate::locset::loc_sorted(t) && forall|i: int|
            0 <= i < t.len() ==> loc_in_grid(#[trigger] t[i], w, h));
        lemma_mask_last(t, w, h);
        let ft = flat_of(t.last(), w);
        assert(loc_lt(t.last(), s.last())) by {
            assert(t.last() == s[s.len() - 2]);
        }
        lemma_flat_lt(t.last(), s.last(), w, h);
        if ft + 1 < f {
            lemma_pow2_strictly_increases((ft + 1) as nat, f as nat);
        }
        assert(prox_mask(t, w) < pow2(f as nat));
        assert(prox_mask(s, w) == prox_mask(t, w) + pow2(f as nat));
    }
}

/// A sorted in-grid proximity's mask stays below the grid's power of two.
proof fn lemma_mask_bound(s: Seq<Location>, w: int, h: int)
    requires
        crate::locset::loc_sorted(s),
        forall|i: int| 0 <= i < s.len() ==> loc_in_grid(#[trigger] s[i], w, h),
    ensures
        prox_mask(s, w) < pow2((w * h) as nat),
{
    lemma_pow2_pos((w * h) as nat);
    if s.len() > 0 {
        lemma_mask_last(s, w, h);
        let f = flat_of(s.last(), w);
        lemma_flat_bound(s.last(), w, h);
        if f + 1 < w * h {
            lemma_pow2_strictly_increases((f + 1) as nat, (w * h) as nat);
        }
    }
}

/// Distinct sorted in-grid proximities have distinct masks.
proof fn lemma_mask_injective(s1: Seq<Location>, s2: Seq<Location>, w: int, h: int)
    requires
        crate::locset::loc_sorted(s1),
        crate::locset::loc_sorted(s2),
        forall|i: int| 0 <= i < s1.len() ==> loc_in_grid(#[trigger] s1[i], w, h),
        forall|i: int| 0 <= i < s2.len() ==> loc_in_grid(#[trigger] s2[i], w, h),
        prox_mask(s1, w) == prox_mask(s2, w),
    ensures
        s1 == s2,
    decreases s1.len(),
{
    if s1.len() == 0 && s2.len() == 0 {
        assert(s1 =~= s2);
    } else if s1.len() == 0 {
        lemma_mask_last(s2, w, h);
        lemma_pow2_pos(flat_of(s2.last(), w) as nat);
        assert(false);
    } else if s2.len() == 0 {
        lemma_mask_last(s1, w, h);
        lemma_pow2_pos(flat_of(s1.last(), w) as nat);
        assert(false);
    } else {
        let f1 = flat_of(s1.last(), w);
        let f2 = flat_of(s2.last(), w);
        lemma_mask_last(s1, w, h);
        lemma_mask_last(s2, w, h);
        if f1 < f2 {
            if f1 + 1 < f2 {
                lemma_pow2_strictly_increases((f1 + 1) as nat, f2 as nat);
            }
            assert(false);
        } else if f2 < f1 {
            if f2 + 1 < f1 {
                lemma_pow2_strictly_increases((f2 + 1) as nat, f1 as nat);
            }
            assert(false);
        }
        // equal greatest flat index: the greatest members coincide
        lemma_flat_bound(s1.last(), w, h);
        lemma_flat_bound(s2.last(), w, h);
        assert(s1.last() == s2.last()) by {
            let a = s1.last();
            let b = s2.last();
            let ax = a.x->Valid_0 as int;
            let ay = a.y->Valid_0 as int;
            let bx = b.x->Valid_0 as int;
            let by = b.y->Valid_0 as int;
            assert(ax == bx && ay == by) by (nonlinear_arith)
                requires
                    0 <= ax < w,
                    0 <= bx < w,
                    0 <= ay,
                    0 <= by,
                    ay * w + ax == by * w + bx,
            ;
        }
        let t1 = s1.drop_last();
        let t2 = s2.drop_last();
        assert(crate::locset::loc_sorted(t1) && forall|i: int|
            0 <= i < t1.len() ==> loc_in_grid(#[trigger] t1[i], w, h));
        assert(crate::locset::loc_sorted(t2) && forall|i: int|
            0 <= i < t2.len() ==> loc_in_grid(#[trigger] t2[i], w, h));
        assert(prox_mask(s1, w) == prox_mask(t1, w) + pow2(f1 as nat));
        assert(prox_mask(s2, w) == prox_mask(t2, w) + pow2(f2 as nat));
        lemma_mask_injective(t1, t2, w, h);
        assert forall|i: int| 0 <= i < s1.len() implies s1[i] == s2[i] by {
            if i < s1.len() - 1 {
                assert(s1[i] == t1[i] && s2[i] == t2[i]);
            }
        }
        assert(s1 =~= s2);
    }
}

/// A fact as a single number below `3 * (w*h + 9) * 2^(w*h)`.
spec fn encode(f: Fact, w: int, h: int) -> int {
    kind_num(f.kind) + 3 * (f.count + (w * h + 9) * prox_mask(f.proximity.seq(), w))
}

/// The encoding of a board-shaped fact lands inside the bound.
proof fn lemma_encode_bound(f: Fact, w: int, h: int)
    requires
        fact_wf(f, w as nat, h as nat),
        w >= 0,
        h >= 0,
    ensures
        0 <= encode(f, w, h) < 3 * (w * h + 9) * pow2((w * h) as nat),
{
    let m = w * h + 9;
    let p = pow2((w * h) as nat) as int;
    lemma_mask_bound(f.proximity.seq(), w, h);
    lemma_pow2_pos((w * h) as nat);
    let c = f.count as int;
    let msk = prox_mask(f.proximity.seq(), w) as int;
    assert(0 <= kind_num(f.kind) < 3);
    assert(kind_num(f.kind) + 3 * (c + m * msk) < 3 * m * p) by (nonlinear_arith)
        requires
            0 <= kind_num(f.kind) < 3,
            0 <= c < m,
            0 <= msk < p,
            m >= 9,
            p >= 1,
    ;
    assert(kind_num(f.kind) + 3 * (c + m * msk) >= 0) by (nonlinear_arith)
        requires
            0 <= kind_num(f.kind),
            0 <= c,
            0 <= msk,
            m >= 9,
    ;
}

/// The encoding separates distinct constraints.
proof fn lemma_encode_injective(f1: Fact, f2: Fact, w: int, h: int)
    requires
        fact_wf(f1, w as nat, h as nat),
        fact_wf(f2, w as nat, h as nat),
        w >= 0,
        h >= 0,
        encode(f1, w, h) == encode(f2, w, h),
    ensures
        fact_same(f1, f2),
{
    let m = w * h + 9;
    let k1 = kind_num(f1.kind);
    let k2 = kind_num(f2.kind);
    let c1 = f1.count as int;
    let c2 = f2.count as int;
    let m1 = prox_mask(f1.proximity.seq(), w) as int;
    let m2 = prox_mask(f2.proximity.seq(), w) as int;
    assert(k1 == k2 && c1 + m * m1 == c2 + m * m2) by (nonlinear_arith)
        requires
            0 <= k1 < 3,
            0 <= k2 < 3,
            c1 >= 0,
            c2 >= 0,
            m1 >= 0,
            m2 >= 0,
            m >= 9,
            k1 + 3 * (c1 + m * m1) == k2 + 3 * (c2 + m * m2),
    ;
    assert(c1 == c2 && m1 == m2) by (nonlinear_arith)
        requires
            0 <= c1 < m,
            0 <= c2 < m,
            m1 >= 0,
            m2 >= 0,
            c1 + m * m1 == c2 + m * m2,
    ;
    lemma_mask_injective(f1.proximity.seq(), f2.proximity.seq(), w, h);
    assert(f1.kind == f2.kind);
}

/// A duplicate-free repository of board-shaped facts cannot outgrow the
/// fact space: three kinds, a bounded count, and a subset of the grid.
proof fn lemma_facts_len_bound(facts: Seq<Fact>, w: int, h: int)
    requires
        w >= 0,
        h >= 0,
        forall|j: int| 0 <= j < facts.len() ==> fact_wf(#[trigger] facts[j], w as nat, h as nat),
        forall|i: int, j: int| 0 <= i < j < facts.len() ==> !fact_same(facts[i], facts[j]),
    ensures
        facts.len() <= 3 * (w * h + 9) * pow2((w * h) as nat),
{
    let b = 3 * (w * h + 9) * pow2((w * h) as nat);
    let es = facts.map_values(|f: Fact| encode(f, w, h));
    assert(es.len() == facts.len());
    assert forall|i: int, j: int| 0 <= i < j < es.len() implies es[i] != es[j] by {
        if es[i] == es[j] {
            lemma_encode_injective(facts[i], facts[j], w, h);
        }
    }
    assert(es.no_duplicates());
    es.unique_seq_to_set();
    assert(es.to_set().subset_of(set_int_range(0, b))) by {
        assert forall|x: int| es.to_set().contains(x) implies set_int_range(0, b).contains(x) by {
            let i = choose|i: int| 0 <= i < es.len() && es[i] == x;
            lemma_encode_bound(facts[i], w, h);
        }
    }
    lemma_int_range(0, b);
    lemma_len_subset(es.to_set(), set_int_range(0, b));
}

/// A seeded fact is true of an honest board: when every mine is hidden,
/// the mines among a revealed cell's hidden neighbours are exactly the
/// mines among all its neighbours.
proof fn lemma_seed_fact_sound(v: MinefieldView, l: Location, prox: Set<Location>)
    requires
        v.inv(),
        v.dims_match(),
        mines_all_hidden(v),
        loc_valid(l),
        forall|x: Location|
            prox.contains(x) <==> (spec_neighbours(l).contains(x) && v.fog.get(x) == Some(
                State::Hidden,
            )),
    ensures
        spec_mines_of(prox, v.ground) == spec_adj_mines(v.ground, l),
{
    let g = v.ground;
    let p = mine_at_pred(g);
    let ns = spec_neighbours(l);
    lemma_neighbours_distinct(l);
    lemma_count_as_filter(ns, p);
    assert(g.cells.len() == v.fog.cells.len()) by {
        assert(g.width * g.height == v.fog.width * v.fog.height);
    }
    assert(prox.filter(p) =~= ns.to_set().filter(p)) by {
        assert forall|x: Location|
            ns.to_set().contains(x) && p(x) implies prox.contains(x) by {
            assert(g.get(x) is Some);
            let xi = spec_to_index(x, g.width as int)->Some_0;
            assert(g.cells[xi] is Mine);
            assert(v.fog.cells[xi] is Hidden);
            assert(v.fog.get(x) == Some(v.fog.cells[xi]));
        }
    }
}

/// The in-grid mine locations with flat index below `i`, as a set.
spec fn mines_below(g: AreaView<GroundKind>, i: int) -> Set<Location> {
    Set::new(
        |x: Location|
            mine_at_pred(g)(x) && (spec_to_index(x, g.width as int) matches Some(xi) && xi < i),
    )
}

/// Counting mines cell by cell counts the set of mine locations.
proof fn lemma_mine_set_count(g: AreaView<GroundKind>, i: int)
    requires
        g.wf(),
        0 <= i <= g.cells.len(),
    ensures
        mines_below(g, i).finite(),
        mines_below(g, i).len() == count_where(g.cells.take(i), is_mine_pred()),
    decreases i,
{
    if i == 0 {
        assert(mines_below(g, 0) =~= Set::<Location>::empty());
        assert(g.cells.take(0) =~= Seq::<GroundKind>::empty());
    } else {
        lemma_mine_set_count(g, i - 1);
        lemma_count_take_succ(g.cells, is_mine_pred(), i - 1);
        let w = g.width as int;
        let h = g.height as int;
        assert(w >= 1) by {
            if w == 0 {
                assert(g.width * g.height == 0) by (nonlinear_arith)
                    requires
                        g.width == 0,
                ;
            }
        };
        crate::location::lemma_from_index_to_index(i - 1, w, h);
        let c = spec_from_index(i - 1, w);
        assert(g.get(c) == Some(g.cells[i - 1]));
        if g.cells[i - 1] is Mine {
            assert(mine_at_pred(g)(c));
            assert(mines_below(g, i) =~= mines_below(g, i - 1).insert(c)) by {
                assert forall|x: Location|
                    mines_below(g, i).contains(x) implies mines_below(g, i - 1).insert(c).contains(
                    x,
                ) by {
                    let xi = spec_to_index(x, w)->Some_0;
                    if xi == i - 1 {
                        lemma_get_in_grid(g, x);
                        lemma_get_in_grid(g, c);
                        lemma_to_index_injective(x, c, w, h);
                    }
                }
            }
            assert(!mines_below(g, i - 1).contains(c));
        } else {
            assert(mines_below(g, i) =~= mines_below(g, i - 1)) by {
                assert forall|x: Location|
                    mines_below(g, i).contains(x) implies mines_below(g, i - 1).contains(x) by {
                    let xi = spec_to_index(x, w)->Some_0;
                    if xi == i - 1 {
                        lemma_get_in_grid(g, x);
                        lemma_get_in_grid(g, c);
                        lemma_to_index_injective(x, c, w, h);
                        assert(g.cells[i - 1] is Mine);
                    }
                }
            }
        }
    }
}

/// The universal fact is true of an honest board: when every mine is
/// hidden, the hidden-or-marked cells hold every mine of the ground.
proof fn lemma_universal_sound(v: MinefieldView, prox: Set<Location>)
    requires
        v.inv(),
        v.dims_match(),
        mines_all_hidden(v),
        forall|x: Location|
            prox.contains(x) <==> (v.fog.get(x) matches Some(s) && (s is Hidden || s is Marked)),
    ensures
        spec_mines_of(prox, v.ground) == spec_mine_count(v.ground.cells),
{
    let g = v.ground;
    let p = mine_at_pred(g);
    let n = g.cells.len() as int;
    lemma_mine_set_count(g, n);
    lemma_count_take_all(g.cells, is_mine_pred());
    assert(g.cells.len() == v.fog.cells.len()) by {
        assert(g.width * g.height == v.fog.width * v.fog.height);
    }
    assert(prox.filter(p) =~= mines_below(g, n)) by {
        assert forall|x: Location| prox.filter(p).contains(x) implies mines_below(g, n).contains(
            x,
        ) by {
            assert(g.get(x) is Some);
        }
        assert forall|x: Location| mines_below(g, n).contains(x) implies prox.filter(p).contains(
            x,
        ) by {
            let xi = spec_to_index(x, g.width as int)->Some_0;
            assert(g.cells[xi] is Mine);
            assert(v.fog.cells[xi] is Hidden);
            assert(v.fog.get(x) == Some(v.fog.cells[xi]));
        }
    }
}

/// If a set of N locations has at least N mines, it has exactly N mines.
pub struct MinAllToExact;

/// If a set of locations has at most 0 mines, it has exactly 0 mines.
pub struct MaxZeroToExact;

/// If a set of locations has exactly N mines, it has at least N mines.
pub struct ExactToMin;

/// If a set of locations has exactly N mines, it has at most N mines.
pub struct ExactToMax;

/// If a min proximity is a true subset of a max proximity with at least as
/// many mines, the remainder of the max proximity has at most the
/// difference of the counts.
pub struct MinWithinMaxCombinator;

/// If a min proximity overlaps a max proximity that cannot absorb all its
/// mines, the part of the min proximity outside the overlap keeps the
/// excess.
pub struct MaxIntersectsMinCombinator;

/// The solver: the fact repository, the saturation counter, and the board
/// being solved.
pub struct Solver<'mf, G: MinefieldGenerator> {
    pub facts: Vec<Fact>,
    pub iteration: usize,
    pub mine_field: &'mf Minefield<G>,
}

impl<'mf, G: MinefieldGenerator> Solver<'mf, G> {
    /// The board under inspection.
    pub open spec fn board(&self) -> MinefieldView {
        self.mine_field@
    }

    /// The board is sound and every stored fact is acceptable: shaped for
    /// the board, stated only once, and -- whenever every mine is still
    /// hidden -- true of the ground.
    pub open spec fn facts_ok(&self) -> bool {
        &&& self.board().inv()
        &&& self.board().dims_match()
        &&& forall|j: int|
            0 <= j < self.facts@.len() ==> fact_wf(
                #[trigger] self.facts@[j],
                self.board().fog.width,
                self.board().fog.height,
            )
        &&& forall|i: int, j: int|
            0 <= i < j < self.facts@.len() ==> !fact_same(self.facts@[i], self.facts@[j])
        &&& (mines_all_hidden(self.board()) ==> forall|j: int|
            0 <= j < self.facts@.len() ==> fact_holds(
                #[trigger] self.facts@[j],
                self.board().ground,
            ))
    }

    /// The repository invariant: the facts are acceptable, each entered no
    /// later than the current iteration, the iteration counter never
    /// outruns the repository, and derivations from strictly earlier
    /// iterations are already saturated.
    pub open spec fn inv(&self) -> bool {
        &&& self.facts_ok()
        &&& forall|j: int|
            0 <= j < self.facts@.len() ==> (#[trigger] self.facts@[j]).iteration
                <= self.iteration
        &&& self.iteration <= self.facts@.len()
        &&& spec_saturated_below(self.facts@, self.iteration as int)
    }

    /// A fresh, empty repository over the given board.
    pub fn new(mine_field: &'mf Minefield<G>) -> (r: Self)
        requires
            mine_field@.inv(),
            mine_field@.dims_match(),
        ensures
            r.inv(),
            r.board() == mine_field@,
            r.facts@ == Seq::<Fact>::empty(),
            r.iteration == 0,
    {
        let r = Self { facts: Vec::new(), iteration: 0, mine_field };
        proof {
            assert(r.facts@ =~= Seq::<Fact>::empty());
        }
        r
    }

    /// Whether the repository already states this constraint.
    pub fn contains_fact(&self, f: &Fact) -> (r: bool)
        ensures
            r == exists|j: int| 0 <= j < self.facts@.len() && fact_same(#[trigger] self.facts@[j], *f),
    {
        let n = self.facts.len();
        let mut i: usize = 0;
        while i < n
            invariant
                i <= n,
                n == self.facts@.len(),
                forall|j: int| 0 <= j < i ==> !fact_same(#[trigger] self.facts@[j], *f),
            decreases n - i,
        {
            let g = self.facts.get(i).unwrap();
            if g.kind == f.kind && g.count == f.count && g.proximity == f.proximity {
                proof {
                    assert(fact_same(self.facts@[i as int], *f));
                }
                return true;
            }
            i = i + 1;
        }
        false
    }

    /// Inserts every genuinely new fact of the container, reporting whether
    /// the repository grew.  Facts equal to a stored one are dropped, so
    /// afterwards every constraint of the container is stated, once.
    pub fn add(&mut self, container: Vec<Fact>) -> (grew: bool)
        requires
            old(self).facts_ok(),
            forall|j: int|
                0 <= j < container@.len() ==> fact_wf(
                    #[trigger] container@[j],
                    old(self).board().fog.width,
                    old(self).board().fog.height,
                ),
            forall|j: int|
                0 <= j < container@.len() ==> (#[trigger] container@[j]).iteration == old(
                    self,
                ).iteration,
            mines_all_hidden(old(self).board()) ==> forall|j: int|
                0 <= j < container@.len() ==> fact_holds(
                    #[trigger] container@[j],
                    old(self).board().ground,
                ),
        ensures
            final(self).facts_ok(),
            spec_saturated_below(old(self).facts@, old(self).iteration as int)
                ==> spec_saturated_below(final(self).facts@, old(self).iteration as int),
            old(self).inv() ==> final(self).inv(),
            final(self).board() == old(self).board(),
            final(self).iteration == old(self).iteration,
            final(self).facts@.len() >= old(self).facts@.len(),
            forall|j: int|
                0 <= j < old(self).facts@.len() ==> final(self).facts@[j] == old(self).facts@[j],
            forall|j: int|
                old(self).facts@.len() <= j < final(self).facts@.len()
                    ==> (#[trigger] final(self).facts@[j]).iteration == old(self).iteration,
            grew == (final(self).facts@.len() > old(self).facts@.len()),
            !grew ==> final(self).facts@ == old(self).facts@,
            forall|j: int|
                0 <= j < container@.len() ==> has_fact(
                    final(self).facts@,
                    (#[trigger] container@[j]).kind,
                    container@[j].count as int,
                    container@[j].proximity@,
                ),
    {
        let ghost c0 = container@;
        let mut container = container;
        let before = self.facts.len();
        let ghost mut consumed: int = 0;
        while container.len() > 0
            invariant
                self.facts_ok(),
                spec_saturated_below(old(self).facts@, old(self).iteration as int)
                    ==> spec_saturated_below(self.facts@, old(self).iteration as int),
                self.board() == old(self).board(),
                self.iteration == old(self).iteration,
                before <= self.facts@.len(),
                forall|j: int|
                    0 <= j < old(self).facts@.len() ==> self.facts@[j] == old(self).facts@[j],
                old(self).facts@.len() == before,
                forall|j: int|
                    before <= j < self.facts@.len() ==> (#[trigger] self.facts@[j]).iteration
                        == self.iteration,
                consumed == c0.len() - container@.len(),
                0 <= consumed <= c0.len(),
                forall|j: int| 0 <= j < container@.len() ==> container@[j] == c0[consumed + j],
                forall|j: int|
                    0 <= j < consumed ==> has_fact(
                        self.facts@,
                        (#[trigger] c0[j]).kind,
                        c0[j].count as int,
                        c0[j].proximity@,
                    ),
                forall|j: int|
                    0 <= j < container@.len() ==> fact_wf(
                        #[trigger] container@[j],
                        self.board().fog.width,
                        self.board().fog.height,
                    ),
                forall|j: int|
                    0 <= j < container@.len() ==> (#[trigger] container@[j]).iteration
                        == self.iteration,
                mines_all_hidden(self.board()) ==> forall|j: int|
                    0 <= j < container@.len() ==> fact_holds(
                        #[trigger] container@[j],
                        self.board().ground,
                    ),
            decreases container@.len(),
        {
            let ghost facts_before = self.facts@;
            let f = container.remove(0);
            proof {
                assert(f == c0[consumed]);
            }
            if !self.contains_fact(&f) {
                self.facts.push(f);
                proof {
                    assert(self.facts@[facts_before.len() as int] == c0[consumed]);
                    assert(has_fact(
                        self.facts@,
                        c0[consumed].kind,
                        c0[consumed].count as int,
                        c0[consumed].proximity@,
                    ));
                    lemma_has_fact_extends(facts_before, self.facts@);
                    if spec_saturated_below(old(self).facts@, old(self).iteration as int) {
                        lemma_saturated_below_extends(
                            facts_before,
                            self.facts@,
                            self.iteration as int,
                        );
                    }
                }
            } else {
                proof {
                    let k = choose|k: int|
                        0 <= k < self.facts@.len() && fact_same(
                            #[trigger] self.facts@[k],
                            c0[consumed],
                        );
                    assert(self.facts@[k].proximity@ == c0[consumed].proximity@);
                    assert(has_fact(
                        self.facts@,
                        c0[consumed].kind,
                        c0[consumed].count as int,
                        c0[consumed].proximity@,
                    ));
                }
            }
            proof {
                consumed = consumed + 1;
            }
        }
        proof {
            if self.facts@.len() == old(self).facts@.len() {
                assert(self.facts@ =~= old(self).facts@);
            }
        }
        self.facts.len() > before
    }

    /// Emits one `Exact` fact for every revealed cell: its neighbour count
    /// over its still-hidden neighbours.  Afterwards every revealed cell's
    /// constraint is in the repository.
    pub fn seed(&mut self)
        requires
            old(self).inv(),
        ensures
            final(self).inv(),
            final(self).board() == old(self).board(),
            final(self).iteration == old(self).iteration,
            final(self).facts@.len() >= old(self).facts@.len(),
            forall|j: int|
                0 <= j < old(self).facts@.len() ==> final(self).facts@[j] == old(self).facts@[j],
            spec_seeded_facts_present(old(self).board(), final(self).facts@),
    {
        let ghost v = self.board();
        let cells = self.mine_field.fog().loc_iter();
        let n = cells.len();
        let mut i: usize = 0;
        while i < n
            invariant
                i <= n,
                v == self.board(),
                self.inv(),
                self.board() == old(self).board(),
                self.iteration == old(self).iteration,
                n == cells@.len(),
                n == v.fog.cells.len(),
                forall|k: int|
                    0 <= k < cells@.len() ==> cells@[k] == (
                        spec_from_index(k, v.fog.width as int),
                        v.fog.cells[k],
                    ),
                self.facts@.len() >= old(self).facts@.len(),
                forall|j: int|
                    0 <= j < old(self).facts@.len() ==> self.facts@[j] == old(self).facts@[j],
                forall|i2: int|
                    0 <= i2 < i ==> ((#[trigger] v.fog.cells[i2]) matches State::Revealed {
                        adj_mines,
                    } ==> has_fact(
                        self.facts@,
                        Constraint::Exact,
                        adj_mines as int,
                        spec_hidden_neighbours(v.fog, spec_from_index(i2, v.fog.width as int)),
                    )),
            decreases n - i,
        {
            let ghost facts_at_top = self.facts@;
            let (l, st) = *cells.get(i).unwrap();
            match st.as_revealed() {
                Some(adj) => {
                    proof {
                        assert(v.fog.width >= 1) by {
                            if v.fog.width == 0 {
                                assert(v.fog.width * v.fog.height == 0) by (nonlinear_arith)
                                    requires
                                        v.fog.width == 0,
                                ;
                            }
                        };
                        crate::location::lemma_from_index_to_index(
                            i as int,
                            v.fog.width as int,
                            v.fog.height as int,
                        );
                    }
                    let prox = hidden_neighbours(self.mine_field.fog(), l);
                    proof {
                        // the seeded claim is the board's claim at this cell
                        assert(v.fog.get(l) == Some(v.fog.cells[i as int]));
                        assert(adj == spec_adj_mines(v.ground, l));
                        if mines_all_hidden(v) {
                            lemma_seed_fact_sound(v, l, prox@);
                        }
                        crate::mine_field::lemma_adj_mines_le_8(v.ground, l);
                    }
                    let mut fact = Fact::seeded(adj, prox, Some(l));
                    fact.iteration = self.iteration;
                    let ghost seeded = fact;
                    let mut one: Vec<Fact> = Vec::new();
                    one.push(fact);
                    proof {
                        assert(one@[0] == seeded);
                    }
                    self.add(one);
                    proof {
                        lemma_has_fact_extends(facts_at_top, self.facts@);
                        assert(has_fact(
                            self.facts@,
                            Constraint::Exact,
                            adj as int,
                            spec_hidden_neighbours(
                                v.fog,
                                spec_from_index(i as int, v.fog.width as int),
                            ),
                        ));
                    }
                },
                None => {},
            }
            i = i + 1;
        }
    }

    /// Emits the universal fact: the whole unresolved board accounts for
    /// every mine.  Tagged with the current iteration so that the
    /// combinators re-examine it; afterwards the universal constraint is in
    /// the repository.
    pub fn seed_universal_fact(&mut self)
        requires
            old(self).inv(),
        ensures
            final(self).inv(),
            final(self).board() == old(self).board(),
            final(self).iteration == old(self).iteration,
            final(self).facts@.len() >= old(self).facts@.len(),
            forall|j: int|
                0 <= j < old(self).facts@.len() ==> final(self).facts@[j] == old(self).facts@[j],
            has_fact(
                final(self).facts@,
                Constraint::Exact,
                spec_mine_count(old(self).board().ground.cells) as int,
                spec_unresolved_cells(old(self).board().fog),
            ),
    {
        let ghost v = self.board();
        let mc = self.mine_field.mine_count();
        proof {
            lemma_count_le_len(v.ground.cells, is_mine_pred());
            assert(v.ground.cells.len() == v.fog.width * v.fog.height) by {
                assert(v.ground.width * v.ground.height == v.fog.width * v.fog.height);
            };
        }
        let cells = self.mine_field.fog().loc_iter();
        let n = cells.len();
        let mut prox = LocationSet::new();
        let mut i: usize = 0;
        while i < n
            invariant
                i <= n,
                v == self.board(),
                self.inv(),
                n == cells@.len(),
                n == v.fog.cells.len(),
                forall|k: int|
                    0 <= k < cells@.len() ==> cells@[k] == (
                        spec_from_index(k, v.fog.width as int),
                        v.fog.cells[k],
                    ),
                prox.wf(),
                forall|x: Location|
                    prox@.contains(x) <==> exists|k: int|
                        0 <= k < i && x == spec_from_index(k, v.fog.width as int) && (
                        #[trigger] v.fog.cells[k] is Hidden || v.fog.cells[k] is Marked),
                forall|k2: int|
                    0 <= k2 < prox.seq().len() ==> loc_in_grid(
                        #[trigger] prox.seq()[k2],
                        v.fog.width as int,
                        v.fog.height as int,
                    ),
            decreases n - i,
        {
            let (l, st) = *cells.get(i).unwrap();
            let ghost old_prox = prox@;
            if st.is_hidden() || st.is_marked() {
                proof {
                    assert(v.fog.width >= 1) by {
                        if v.fog.width == 0 {
                            assert(v.fog.width * v.fog.height == 0) by (nonlinear_arith)
                                requires
                                    v.fog.width == 0,
                            ;
                        }
                    };
                    crate::location::lemma_from_index_to_index(
                        i as int,
                        v.fog.width as int,
                        v.fog.height as int,
                    );
                }
                prox.insert(l);
                proof {
                    assert forall|x: Location|
                        prox@.contains(x) implies exists|k: int|
                        0 <= k < i + 1 && x == spec_from_index(k, v.fog.width as int) && (
                        #[trigger] v.fog.cells[k] is Hidden || v.fog.cells[k] is Marked) by {
                        if old_prox.contains(x) {
                            let k = choose|k: int|
                                0 <= k < i && x == spec_from_index(k, v.fog.width as int) && (
                                #[trigger] v.fog.cells[k] is Hidden || v.fog.cells[k] is Marked);
                            assert(0 <= k < i + 1 && x == spec_from_index(k, v.fog.width as int));
                        } else {
                            assert(x == l);
                            assert(x == spec_from_index(i as int, v.fog.width as int));
                        }
                    }
                    assert forall|k2: int|
                        0 <= k2 < prox.seq().len() implies loc_in_grid(
                        #[trigger] prox.seq()[k2],
                        v.fog.width as int,
                        v.fog.height as int,
                    ) by {
                        let x = prox.seq()[k2];
                        assert(prox@.contains(x)) by {
                            assert(prox.seq()[k2] == x);
                        }
                        let k = choose|k: int|
                            0 <= k < i + 1 && x == spec_from_index(k, v.fog.width as int) && (
                            #[trigger] v.fog.cells[k] is Hidden || v.fog.cells[k] is Marked);
                        crate::location::lemma_from_index_to_index(
                            k,
                            v.fog.width as int,
                            v.fog.height as int,
                        );
                    }
                }
            }
            i = i + 1;
        }
        proof {
            {
                assert forall|x: Location|
                    prox@.contains(x) <==> (v.fog.get(x) matches Some(s2) && (s2 is Hidden || s2
                        is Marked)) by {
                    if prox@.contains(x) {
                        let k = choose|k: int|
                            0 <= k < n && x == spec_from_index(k, v.fog.width as int) && (
                            #[trigger] v.fog.cells[k] is Hidden || v.fog.cells[k] is Marked);
                        assert(v.fog.width >= 1) by {
                            if v.fog.width == 0 {
                                assert(v.fog.width * v.fog.height == 0) by (nonlinear_arith)
                                    requires
                                        v.fog.width == 0,
                                ;
                            }
                        };
                        crate::location::lemma_from_index_to_index(
                            k,
                            v.fog.width as int,
                            v.fog.height as int,
                        );
                        assert(v.fog.get(x) == Some(v.fog.cells[k]));
                    } else {
                        if v.fog.get(x) matches Some(s2) && (s2 is Hidden || s2 is Marked) {
                            lemma_get_in_grid(v.fog, x);
                            crate::location::lemma_to_from_index(
                                x,
                                v.fog.width as int,
                                v.fog.height as int,
                            );
                            let k = spec_to_index(x, v.fog.width as int)->Some_0;
                            assert(x == spec_from_index(k, v.fog.width as int));
                            assert(v.fog.get(x) == Some(v.fog.cells[k]));
                            assert(false);
                        }
                    }
                }
                assert(prox@ =~= spec_unresolved_cells(v.fog));
            }
            if mines_all_hidden(v) {
                lemma_universal_sound(v, prox@);
            }
        }
        let mut fact = Fact::seeded(mc, prox, None);
        fact.iteration = self.iteration;
        let ghost seeded = fact;
        let mut one: Vec<Fact> = Vec::new();
        one.push(fact);
        proof {
            assert(one@[0] == seeded);
        }
        self.add(one);
    }
}

/// The still-hidden Moore neighbours of `l`, as a canonical set of in-grid
/// cells.
fn hidden_neighbours(fog: &Area<State>, l: Location) -> (r: LocationSet)
    requires
        fog@.wf(),
    ensures
        r.wf(),
        r@ == spec_hidden_neighbours(fog@, l),
        forall|x: Location|
            r@.contains(x) <==> (spec_neighbours(l).contains(x) && fog@.get(x) == Some(
                State::Hidden,
            )),
        forall|k: int|
            0 <= k < r.seq().len() ==> loc_in_grid(
                #[trigger] r.seq()[k],
                fog@.width as int,
                fog@.height as int,
            ),
{
    let ns = l.neighbours();
    let mut prox = LocationSet::new();
    let mut k: usize = 0;
    while k < 8
        invariant
            k <= 8,
            ns@ == spec_neighbours(l),
            fog@.wf(),
            prox.wf(),
            forall|x: Location|
                prox@.contains(x) <==> exists|k2: int|
                    0 <= k2 < k && #[trigger] spec_neighbours(l)[k2] == x && fog@.get(x) == Some(
                        State::Hidden,
                    ),
        decreases 8 - k,
    {
        let n = *ns.get(k).unwrap();
        let hid = match fog.get(n) {
            Some(s) => s.is_hidden(),
            None => false,
        };
        let ghost old_prox = prox@;
        if hid {
            proof {
                lemma_get_in_grid(fog@, n);
            }
            prox.insert(n);
            proof {
                assert forall|x: Location|
                    prox@.contains(x) implies exists|k2: int|
                    0 <= k2 < k + 1 && #[trigger] spec_neighbours(l)[k2] == x && fog@.get(x)
                        == Some(State::Hidden) by {
                    if old_prox.contains(x) {
                        let k2 = choose|k2: int|
                            0 <= k2 < k && #[trigger] spec_neighbours(l)[k2] == x && fog@.get(x)
                                == Some(State::Hidden);
                        assert(0 <= k2 < k + 1 && spec_neighbours(l)[k2] == x);
                    } else {
                        assert(x == n);
                        assert(spec_neighbours(l)[k as int] == x);
                    }
                }
            }
        }
        k = k + 1;
    }
    proof {
        assert forall|x: Location|
            prox@.contains(x) <==> (spec_neighbours(l).contains(x) && fog@.get(x) == Some(
                State::Hidden,
            )) by {
            if spec_neighbours(l).contains(x) && fog@.get(x) == Some(State::Hidden) {
                let k2 = choose|k2: int|
                    0 <= k2 < spec_neighbours(l).len() && spec_neighbours(l)[k2] == x;
                assert(0 <= k2 < 8 && spec_neighbours(l)[k2] == x);
            }
        }
        assert(prox@ =~= spec_hidden_neighbours(fog@, l));
        assert forall|k2: int|
            0 <= k2 < prox.seq().len() implies loc_in_grid(
            #[trigger] prox.seq()[k2],
            fog@.width as int,
            fog@.height as int,
        ) by {
            let x = prox.seq()[k2];
            assert(prox@.contains(x)) by {
                assert(prox.seq()[k2] == x);
            }
            lemma_get_in_grid(fog@, x);
        }
    }
    prox
}

/// The conditions under which `MinWithinMaxCombinator` fires on a
/// (min, max) pair of facts.
pub open spec fn min_within_max_applies(fmin: Fact, fmax: Fact) -> bool {
    &&& fmin.kind is Min
    &&& fmax.kind is Max
    &&& fmax.count >= fmin.count
    &&& fmin.proximity@.len() < fmax.proximity@.len()
    &&& fmin.proximity@.subset_of(fmax.proximity@)
}

/// The cap on the overlap's mines that `MaxIntersectsMinCombinator` uses.
pub open spec fn overlap_cap(fmin: Fact, fmax: Fact) -> int {
    let icard = fmin.proximity@.intersect(fmax.proximity@).len() as int;
    if fmax.count <= icard {
        fmax.count as int
    } else {
        icard
    }
}

/// The conditions under which `MaxIntersectsMinCombinator` fires.
pub open spec fn max_intersects_min_applies(fmin: Fact, fmax: Fact) -> bool {
    &&& fmin.kind is Min
    &&& fmax.kind is Max
    &&& fmin.proximity@.intersect(fmax.proximity@).len() != 0
    &&& fmin.count > overlap_cap(fmin, fmax)
}

/// What every rule promises of its derivations, given a sound repository:
/// facts shaped for the board, tagged with the current iteration, and true
/// of the ground whenever every mine is still hidden.
pub open spec fn derived_ok<G: MinefieldGenerator>(repo: &Solver<G>, r: Seq<Fact>) -> bool {
    &&& forall|j: int|
        0 <= j < r.len() ==> fact_wf(#[trigger] r[j], repo.board().fog.width, repo.board().fog.height)
            && r[j].iteration == repo.iteration
    &&& (mines_all_hidden(repo.board()) ==> forall|j: int|
        0 <= j < r.len() ==> fact_holds(#[trigger] r[j], repo.board().ground))
}

/// `f` restates, as `Exact`, a previous-iteration `Min` fact that
/// saturates its set: the only shape `MinAllToExact` emits.
pub open spec fn min_all_conclusion(facts: Seq<Fact>, it: int, f: Fact) -> bool {
    exists|i: int|
        0 <= i < facts.len() && (#[trigger] facts[i]).iteration == it - 1 && facts[i].kind is Min
            && facts[i].proximity@.len() == facts[i].count && f.kind == Constraint::Exact
            && f.count == facts[i].count && f.proximity@ == facts[i].proximity@
}

/// `f` restates, as `Exact`, a previous-iteration `Max 0` fact: the only
/// shape `MaxZeroToExact` emits.
pub open spec fn max_zero_conclusion(facts: Seq<Fact>, it: int, f: Fact) -> bool {
    exists|i: int|
        0 <= i < facts.len() && (#[trigger] facts[i]).iteration == it - 1 && facts[i].kind is Max
            && facts[i].count == 0 && f.kind == Constraint::Exact && f.count == facts[i].count
            && f.proximity@ == facts[i].proximity@
}

/// `f` weakens a previous-iteration `Exact` fact to `Min`: the only shape
/// `ExactToMin` emits.
pub open spec fn exact_to_min_conclusion(facts: Seq<Fact>, it: int, f: Fact) -> bool {
    exists|i: int|
        0 <= i < facts.len() && (#[trigger] facts[i]).iteration == it - 1 && facts[i].kind
            is Exact && f.kind == Constraint::Min && f.count == facts[i].count && f.proximity@
            == facts[i].proximity@
}

/// `f` weakens a previous-iteration `Exact` fact to `Max`: the only shape
/// `ExactToMax` emits.
pub open spec fn exact_to_max_conclusion(facts: Seq<Fact>, it: int, f: Fact) -> bool {
    exists|i: int|
        0 <= i < facts.len() && (#[trigger] facts[i]).iteration == it - 1 && facts[i].kind
            is Exact && f.kind == Constraint::Max && f.count == facts[i].count && f.proximity@
            == facts[i].proximity@
}

/// `f` is the remainder constraint of an applicable (min, max) pair with a
/// previous-iteration side: the only shape `MinWithinMaxCombinator` emits.
pub open spec fn min_within_max_conclusion(facts: Seq<Fact>, it: int, f: Fact) -> bool {
    exists|i: int, j: int|
        0 <= i < facts.len() && 0 <= j < facts.len() && ((#[trigger] facts[i]).iteration == it - 1
            || (#[trigger] facts[j]).iteration == it - 1) && min_within_max_applies(
            facts[i],
            facts[j],
        ) && f.kind == Constraint::Max && f.count == facts[j].count - facts[i].count
            && f.proximity@ == facts[j].proximity@.difference(facts[i].proximity@)
}

/// `f` is the excess constraint of an applicable (min, max) pair with a
/// previous-iteration side: the only shape `MaxIntersectsMinCombinator`
/// emits.
pub open spec fn max_intersects_min_conclusion(facts: Seq<Fact>, it: int, f: Fact) -> bool {
    exists|i: int, j: int|
        0 <= i < facts.len() && 0 <= j < facts.len() && ((#[trigger] facts[i]).iteration == it - 1
            || (#[trigger] facts[j]).iteration == it - 1) && max_intersects_min_applies(
            facts[i],
            facts[j],
        ) && f.kind == Constraint::Min && f.count == facts[i].count - overlap_cap(
            facts[i],
            facts[j],
        ) && f.proximity@ == facts[i].proximity@.difference(facts[j].proximity@)
}

impl MinAllToExact {
    /// Rewrites every previous-iteration `Min` fact that saturates its set
    /// into an `Exact` fact.
    pub fn derive<G: MinefieldGenerator>(&self, repo: &Solver<G>) -> (r: Vec<Fact>)
        requires
            repo.facts_ok(),
            repo.iteration >= 1,
        ensures
            derived_ok(repo, r@),
            forall|k: int|
                0 <= k < r@.len() ==> min_all_conclusion(
                    repo.facts@,
                    repo.iteration as int,
                    #[trigger] r@[k],
                ),
            forall|i: int|
                0 <= i < repo.facts@.len() && (#[trigger] repo.facts@[i]).iteration
                    == repo.iteration - 1 && repo.facts@[i].kind is Min
                    && repo.facts@[i].proximity@.len() == repo.facts@[i].count ==> has_fact(
                    r@,
                    Constraint::Exact,
                    repo.facts@[i].count as int,
                    repo.facts@[i].proximity@,
                ),
    {
        let mut out: Vec<Fact> = Vec::new();
        let n = repo.facts.len();
        let mut i: usize = 0;
        while i < n
            invariant
                i <= n,
                n == repo.facts@.len(),
                repo.facts_ok(),
                repo.iteration >= 1,
                derived_ok(repo, out@),
                forall|k: int|
                    0 <= k < out@.len() ==> min_all_conclusion(
                        repo.facts@,
                        repo.iteration as int,
                        #[trigger] out@[k],
                    ),
                forall|i2: int|
                    0 <= i2 < i && (#[trigger] repo.facts@[i2]).iteration == repo.iteration - 1
                        && repo.facts@[i2].kind is Min && repo.facts@[i2].proximity@.len()
                        == repo.facts@[i2].count ==> has_fact(
                        out@,
                        Constraint::Exact,
                        repo.facts@[i2].count as int,
                        repo.facts@[i2].proximity@,
                    ),
            decreases n - i,
        {
            let f = repo.facts.get(i).unwrap();
            if f.iteration == repo.iteration - 1 && f.is_min() && f.cardinality() == f.count {
                let nf = f.derive_kind(Constraint::Exact, repo.iteration, "MinAllToExact");
                proof {
                    if mines_all_hidden(repo.board()) {
                        lemma_mines_le_card(f.proximity, repo.board().ground);
                    }
                }
                let ghost old_out = out@;
                out.push(nf);
                proof {
                    assert(out@[old_out.len() as int] == nf);
                    assert(min_all_conclusion(repo.facts@, repo.iteration as int, nf)) by {
                        assert(repo.facts@[i as int].iteration == repo.iteration - 1);
                    }
                    assert forall|i2: int|
                        0 <= i2 < i + 1 && (#[trigger] repo.facts@[i2]).iteration == repo.iteration
                            - 1 && repo.facts@[i2].kind is Min && repo.facts@[i2].proximity@.len()
                            == repo.facts@[i2].count implies has_fact(
                        out@,
                        Constraint::Exact,
                        repo.facts@[i2].count as int,
                        repo.facts@[i2].proximity@,
                    ) by {
                        if i2 < i {
                            let k = choose|k: int|
                                0 <= k < old_out.len() && old_out[k].kind == Constraint::Exact
                                    && old_out[k].count == repo.facts@[i2].count as int
                                    && old_out[k].proximity@ == repo.facts@[i2].proximity@;
                            assert(out@[k] == old_out[k]);
                        } else {
                            assert(out@[old_out.len() as int].proximity@
                                == repo.facts@[i2].proximity@);
                        }
                    }
                }
            }
            i = i + 1;
        }
        out
    }
}

impl MaxZeroToExact {
    /// Rewrites every previous-iteration `Max 0` fact into an `Exact 0`
    /// fact.
    pub fn derive<G: MinefieldGenerator>(&self, repo: &Solver<G>) -> (r: Vec<Fact>)
        requires
            repo.facts_ok(),
            repo.iteration >= 1,
        ensures
            derived_ok(repo, r@),
            forall|k: int|
                0 <= k < r@.len() ==> max_zero_conclusion(
                    repo.facts@,
                    repo.iteration as int,
                    #[trigger] r@[k],
                ),
            forall|i: int|
                0 <= i < repo.facts@.len() && (#[trigger] repo.facts@[i]).iteration
                    == repo.iteration - 1 && repo.facts@[i].kind is Max && repo.facts@[i].count
                    == 0 ==> has_fact(r@, Constraint::Exact, 0, repo.facts@[i].proximity@),
    {
        let mut out: Vec<Fact> = Vec::new();
        let n = repo.facts.len();
        let mut i: usize = 0;
        while i < n
            invariant
                i <= n,
                n == repo.facts@.len(),
                repo.facts_ok(),
                repo.iteration >= 1,
                derived_ok(repo, out@),
                forall|k: int|
                    0 <= k < out@.len() ==> max_zero_conclusion(
                        repo.facts@,
                        repo.iteration as int,
                        #[trigger] out@[k],
                    ),
                forall|i2: int|
                    0 <= i2 < i && (#[trigger] repo.facts@[i2]).iteration == repo.iteration - 1
                        && repo.facts@[i2].kind is Max && repo.facts@[i2].count == 0 ==> has_fact(
                        out@,
                        Constraint::Exact,
                        0,
                        repo.facts@[i2].proximity@,
                    ),
            decreases n - i,
        {
            let f = repo.facts.get(i).unwrap();
            if f.iteration == repo.iteration - 1 && f.is_max() && f.count == 0 {
                let nf = f.derive_kind(Constraint::Exact, repo.iteration, "MaxZeroToExact");
                let ghost old_out = out@;
                out.push(nf);
                proof {
                    assert(out@[old_out.len() as int] == nf);
                    assert(max_zero_conclusion(repo.facts@, repo.iteration as int, nf)) by {
                        assert(repo.facts@[i as int].iteration == repo.iteration - 1);
                    }
                    assert forall|i2: int|
                        0 <= i2 < i + 1 && (#[trigger] repo.facts@[i2]).iteration == repo.iteration
                            - 1 && repo.facts@[i2].kind is Max && repo.facts@[i2].count
                            == 0 implies has_fact(
                        out@,
                        Constraint::Exact,
                        0,
                        repo.facts@[i2].proximity@,
                    ) by {
                        if i2 < i {
                            let k = choose|k: int|
                                0 <= k < old_out.len() && old_out[k].kind == Constraint::Exact
                                    && old_out[k].count == 0 && old_out[k].proximity@
                                    == repo.facts@[i2].proximity@;
                            assert(out@[k] == old_out[k]);
                        } else {
                            assert(out@[old_out.len() as int].proximity@
                                == repo.facts@[i2].proximity@);
                        }
                    }
                }
            }
            i = i + 1;
        }
        out
    }
}

impl ExactToMin {
    /// Weakens every previous-iteration `Exact` fact to a `Min` fact.
    pub fn derive<G: MinefieldGenerator>(&self, repo: &Solver<G>) -> (r: Vec<Fact>)
        requires
            repo.facts_ok(),
            repo.iteration >= 1,
        ensures
            derived_ok(repo, r@),
            forall|k: int|
                0 <= k < r@.len() ==> exact_to_min_conclusion(
                    repo.facts@,
                    repo.iteration as int,
                    #[trigger] r@[k],
                ),
            forall|i: int|
                0 <= i < repo.facts@.len() && (#[trigger] repo.facts@[i]).iteration
                    == repo.iteration - 1 && repo.facts@[i].kind is Exact ==> has_fact(
                    r@,
                    Constraint::Min,
                    repo.facts@[i].count as int,
                    repo.facts@[i].proximity@,
                ),
    {
        let mut out: Vec<Fact> = Vec::new();
        let n = repo.facts.len();
        let mut i: usize = 0;
        while i < n
            invariant
                i <= n,
                n == repo.facts@.len(),
                repo.facts_ok(),
                repo.iteration >= 1,
                derived_ok(repo, out@),
                forall|k: int|
                    0 <= k < out@.len() ==> exact_to_min_conclusion(
                        repo.facts@,
                        repo.iteration as int,
                        #[trigger] out@[k],
                    ),
                forall|i2: int|
                    0 <= i2 < i && (#[trigger] repo.facts@[i2]).iteration == repo.iteration - 1
                        && repo.facts@[i2].kind is Exact ==> has_fact(
                        out@,
                        Constraint::Min,
                        repo.facts@[i2].count as int,
                        repo.facts@[i2].proximity@,
                    ),
            decreases n - i,
        {
            let f = repo.facts.get(i).unwrap();
            if f.iteration == repo.iteration - 1 && f.is_exact() {
                let nf = f.derive_kind(Constraint::Min, repo.iteration, "ExactToMin");
                let ghost old_out = out@;
                out.push(nf);
                proof {
                    assert(out@[old_out.len() as int] == nf);
                    assert(exact_to_min_conclusion(repo.facts@, repo.iteration as int, nf)) by {
                        assert(repo.facts@[i as int].iteration == repo.iteration - 1);
                    }
                    assert forall|i2: int|
                        0 <= i2 < i + 1 && (#[trigger] repo.facts@[i2]).iteration == repo.iteration
                            - 1 && repo.facts@[i2].kind is Exact implies has_fact(
                        out@,
                        Constraint::Min,
                        repo.facts@[i2].count as int,
                        repo.facts@[i2].proximity@,
                    ) by {
                        if i2 < i {
                            let k = choose|k: int|
                                0 <= k < old_out.len() && old_out[k].kind == Constraint::Min
                                    && old_out[k].count == repo.facts@[i2].count as int
                                    && old_out[k].proximity@ == repo.facts@[i2].proximity@;
                            assert(out@[k] == old_out[k]);
                        } else {
                            assert(out@[old_out.len() as int].proximity@
                                == repo.facts@[i2].proximity@);
                        }
                    }
                }
            }
            i = i + 1;
        }
        out
    }
}

impl ExactToMax {
    /// Weakens every previous-iteration `Exact` fact to a `Max` fact.
    pub fn derive<G: MinefieldGenerator>(&self, repo: &Solver<G>) -> (r: Vec<Fact>)
        requires
            repo.facts_ok(),
            repo.iteration >= 1,
        ensures
            derived_ok(repo, r@),
            forall|k: int|
                0 <= k < r@.len() ==> exact_to_max_conclusion(
                    repo.facts@,
                    repo.iteration as int,
                    #[trigger] r@[k],
                ),
            forall|i: int|
                0 <= i < repo.facts@.len() && (#[trigger] repo.facts@[i]).iteration
                    == repo.iteration - 1 && repo.facts@[i].kind is Exact ==> has_fact(
                    r@,
                    Constraint::Max,
                    repo.facts@[i].count as int,
                    repo.facts@[i].proximity@,
                ),
    {
        let mut out: Vec<Fact> = Vec::new();
        let n = repo.facts.len();
        let mut i: usize = 0;
        while i < n
            invariant
                i <= n,
                n == repo.facts@.len(),
                repo.facts_ok(),
                repo.iteration >= 1,
                derived_ok(repo, out@),
                forall|k: int|
                    0 <= k < out@.len() ==> exact_to_max_conclusion(
                        repo.facts@,
                        repo.iteration as int,
                        #[trigger] out@[k],
                    ),
                forall|i2: int|
                    0 <= i2 < i && (#[trigger] repo.facts@[i2]).iteration == repo.iteration - 1
                        && repo.facts@[i2].kind is Exact ==> has_fact(
                        out@,
                        Constraint::Max,
                        repo.facts@[i2].count as int,
                        repo.facts@[i2].proximity@,
                    ),
            decreases n - i,
        {
            let f = repo.facts.get(i).unwrap();
            if f.iteration == repo.iteration - 1 && f.is_exact() {
                let nf = f.derive_kind(Constraint::Max, repo.iteration, "ExactToMax");
                let ghost old_out = out@;
                out.push(nf);
                proof {
                    assert(out@[old_out.len() as int] == nf);
                    assert(exact_to_max_conclusion(repo.facts@, repo.iteration as int, nf)) by {
                        assert(repo.facts@[i as int].iteration == repo.iteration - 1);
                    }
                    assert forall|i2: int|
                        0 <= i2 < i + 1 && (#[trigger] repo.facts@[i2]).iteration == repo.iteration
                            - 1 && repo.facts@[i2].kind is Exact implies has_fact(
                        out@,
                        Constraint::Max,
                        repo.facts@[i2].count as int,
                        repo.facts@[i2].proximity@,
                    ) by {
                        if i2 < i {
                            let k = choose|k: int|
                                0 <= k < old_out.len() && old_out[k].kind == Constraint::Max
                                    && old_out[k].count == repo.facts@[i2].count as int
                                    && old_out[k].proximity@ == repo.facts@[i2].proximity@;
                            assert(out@[k] == old_out[k]);
                        } else {
                            assert(out@[old_out.len() as int].proximity@
                                == repo.facts@[i2].proximity@);
                        }
                    }
                }
            }
            i = i + 1;
        }
        out
    }
}

/// A saturation ledger survives appending facts tagged at or above its
/// bound: the new facts fall outside the ledger's premises, and every old
/// conclusion stays present.
proof fn lemma_saturated_below_extends(f_old: Seq<Fact>, f_new: Seq<Fact>, it: int)
    requires
        f_old.len() <= f_new.len(),
        forall|k: int| 0 <= k < f_old.len() ==> f_new[k] == f_old[k],
        forall|k: int| f_old.len() <= k < f_new.len() ==> (#[trigger] f_new[k]).iteration >= it,
        spec_saturated_below(f_old, it),
    ensures
        spec_saturated_below(f_new, it),
{
    lemma_has_fact_extends(f_old, f_new);
    assert forall|i: int|
        #![trigger f_new[i]]
        0 <= i < f_new.len() && f_new[i].iteration < it && f_new[i].kind is Min
            && f_new[i].proximity@.len() == f_new[i].count implies has_fact(
        f_new,
        Constraint::Exact,
        f_new[i].count as int,
        f_new[i].proximity@,
    ) by {
        assert(f_old[i] == f_new[i]);
        assert(has_fact(f_old, Constraint::Exact, f_old[i].count as int, f_old[i].proximity@));
    }
    assert forall|i: int|
        #![trigger f_new[i]]
        0 <= i < f_new.len() && f_new[i].iteration < it && f_new[i].kind is Max && f_new[i].count
            == 0 implies has_fact(f_new, Constraint::Exact, 0, f_new[i].proximity@) by {
        assert(f_old[i] == f_new[i]);
        assert(has_fact(f_old, Constraint::Exact, 0, f_old[i].proximity@));
    }
    assert forall|i: int|
        #![trigger f_new[i]]
        0 <= i < f_new.len() && f_new[i].iteration < it && f_new[i].kind is Exact implies has_fact(
        f_new,
        Constraint::Min,
        f_new[i].count as int,
        f_new[i].proximity@,
    ) by {
        assert(f_old[i] == f_new[i]);
        assert(has_fact(f_old, Constraint::Min, f_old[i].count as int, f_old[i].proximity@));
    }
    assert forall|i: int|
        #![trigger f_new[i]]
        0 <= i < f_new.len() && f_new[i].iteration < it && f_new[i].kind is Exact implies has_fact(
        f_new,
        Constraint::Max,
        f_new[i].count as int,
        f_new[i].proximity@,
    ) by {
        assert(f_old[i] == f_new[i]);
        assert(has_fact(f_old, Constraint::Max, f_old[i].count as int, f_old[i].proximity@));
    }
    assert forall|i: int, j: int|
        #![trigger f_new[i], f_new[j]]
        0 <= i < f_new.len() && 0 <= j < f_new.len() && f_new[i].iteration < it
            && f_new[j].iteration < it && min_within_max_applies(
        f_new[i],
        f_new[j],
    ) implies has_fact(
        f_new,
        Constraint::Max,
        f_new[j].count - f_new[i].count,
        f_new[j].proximity@.difference(f_new[i].proximity@),
    ) by {
        assert(f_old[i] == f_new[i] && f_old[j] == f_new[j]);
        assert(has_fact(
            f_old,
            Constraint::Max,
            f_old[j].count - f_old[i].count,
            f_old[j].proximity@.difference(f_old[i].proximity@),
        ));
    }
    assert forall|i: int, j: int|
        #![trigger f_new[i], f_new[j]]
        0 <= i < f_new.len() && 0 <= j < f_new.len() && f_new[i].iteration < it
            && f_new[j].iteration < it && max_intersects_min_applies(
        f_new[i],
        f_new[j],
    ) implies has_fact(
        f_new,
        Constraint::Min,
        f_new[i].count - overlap_cap(f_new[i], f_new[j]),
        f_new[i].proximity@.difference(f_new[j].proximity@),
    ) by {
        assert(f_old[i] == f_new[i] && f_old[j] == f_new[j]);
        assert(has_fact(
            f_old,
            Constraint::Min,
            f_old[i].count - overlap_cap(f_old[i], f_old[j]),
            f_old[i].proximity@.difference(f_old[j].proximity@),
        ));
    }
}

/// What one saturation pass establishes: extending facts tagged below `p`
/// by facts tagged `p`, where the previous pass was saturated and every
/// conclusion with a premise tagged exactly `p - 1` is present, yields a
/// ledger saturated below `p`.
#[verifier::rlimit(60)]
proof fn lemma_saturation_advance(f_old: Seq<Fact>, f_new: Seq<Fact>, p: int)
    requires
        f_old.len() <= f_new.len(),
        forall|k: int| 0 <= k < f_old.len() ==> f_new[k] == f_old[k],
        forall|k: int| f_old.len() <= k < f_new.len() ==> (#[trigger] f_new[k]).iteration == p,
        forall|k: int| 0 <= k < f_old.len() ==> (#[trigger] f_old[k]).iteration < p,
        spec_saturated_below(f_old, p - 1),
        forall|i: int|
            #![trigger f_old[i]]
            0 <= i < f_old.len() && f_old[i].iteration == p - 1 && f_old[i].kind is Min
                && f_old[i].proximity@.len() == f_old[i].count ==> has_fact(
                f_new,
                Constraint::Exact,
                f_old[i].count as int,
                f_old[i].proximity@,
            ),
        forall|i: int|
            #![trigger f_old[i]]
            0 <= i < f_old.len() && f_old[i].iteration == p - 1 && f_old[i].kind is Max
                && f_old[i].count == 0 ==> has_fact(f_new, Constraint::Exact, 0, f_old[i].proximity@),
        forall|i: int|
            #![trigger f_old[i]]
            0 <= i < f_old.len() && f_old[i].iteration == p - 1 && f_old[i].kind is Exact
                ==> has_fact(f_new, Constraint::Min, f_old[i].count as int, f_old[i].proximity@),
        forall|i: int|
            #![trigger f_old[i]]
            0 <= i < f_old.len() && f_old[i].iteration == p - 1 && f_old[i].kind is Exact
                ==> has_fact(f_new, Constraint::Max, f_old[i].count as int, f_old[i].proximity@),
        forall|i: int, j: int|
            #![trigger f_old[i], f_old[j]]
            0 <= i < f_old.len() && 0 <= j < f_old.len() && (f_old[i].iteration == p - 1
                || f_old[j].iteration == p - 1) && min_within_max_applies(f_old[i], f_old[j])
                ==> has_fact(
                f_new,
                Constraint::Max,
                f_old[j].count - f_old[i].count,
                f_old[j].proximity@.difference(f_old[i].proximity@),
            ),
        forall|i: int, j: int|
            #![trigger f_old[i], f_old[j]]
            0 <= i < f_old.len() && 0 <= j < f_old.len() && (f_old[i].iteration == p - 1
                || f_old[j].iteration == p - 1) && max_intersects_min_applies(f_old[i], f_old[j])
                ==> has_fact(
                f_new,
                Constraint::Min,
                f_old[i].count - overlap_cap(f_old[i], f_old[j]),
                f_old[i].proximity@.difference(f_old[j].proximity@),
            ),
    ensures
        spec_saturated_below(f_new, p),
{
    lemma_has_fact_extends(f_old, f_new);
    assert forall|i: int|
        #![trigger f_new[i]]
        0 <= i < f_new.len() && f_new[i].iteration < p && f_new[i].kind is Min
            && f_new[i].proximity@.len() == f_new[i].count implies has_fact(
        f_new,
        Constraint::Exact,
        f_new[i].count as int,
        f_new[i].proximity@,
    ) by {
        assert(f_old[i] == f_new[i]);
        if f_old[i].iteration < p - 1 {
            assert(has_fact(f_old, Constraint::Exact, f_old[i].count as int, f_old[i].proximity@));
        }
    }
    assert forall|i: int|
        #![trigger f_new[i]]
        0 <= i < f_new.len() && f_new[i].iteration < p && f_new[i].kind is Max && f_new[i].count
            == 0 implies has_fact(f_new, Constraint::Exact, 0, f_new[i].proximity@) by {
        assert(f_old[i] == f_new[i]);
        if f_old[i].iteration < p - 1 {
            assert(has_fact(f_old, Constraint::Exact, 0, f_old[i].proximity@));
        }
    }
    assert forall|i: int|
        #![trigger f_new[i]]
        0 <= i < f_new.len() && f_new[i].iteration < p && f_new[i].kind is Exact implies has_fact(
        f_new,
        Constraint::Min,
        f_new[i].count as int,
        f_new[i].proximity@,
    ) by {
        assert(f_old[i] == f_new[i]);
        if f_old[i].iteration < p - 1 {
            assert(has_fact(f_old, Constraint::Min, f_old[i].count as int, f_old[i].proximity@));
        }
    }
    assert forall|i: int|
        #![trigger f_new[i]]
        0 <= i < f_new.len() && f_new[i].iteration < p && f_new[i].kind is Exact implies has_fact(
        f_new,
        Constraint::Max,
        f_new[i].count as int,
        f_new[i].proximity@,
    ) by {
        assert(f_old[i] == f_new[i]);
        if f_old[i].iteration < p - 1 {
            assert(has_fact(f_old, Constraint::Max, f_old[i].count as int, f_old[i].proximity@));
        }
    }
    assert forall|i: int, j: int|
        #![trigger f_new[i], f_new[j]]
        0 <= i < f_new.len() && 0 <= j < f_new.len() && f_new[i].iteration < p
            && f_new[j].iteration < p && min_within_max_applies(
        f_new[i],
        f_new[j],
    ) implies has_fact(
        f_new,
        Constraint::Max,
        f_new[j].count - f_new[i].count,
        f_new[j].proximity@.difference(f_new[i].proximity@),
    ) by {
        assert(f_old[i] == f_new[i] && f_old[j] == f_new[j]);
        if f_old[i].iteration < p - 1 && f_old[j].iteration < p - 1 {
            assert(has_fact(
                f_old,
                Constraint::Max,
                f_old[j].count - f_old[i].count,
                f_old[j].proximity@.difference(f_old[i].proximity@),
            ));
        }
    }
    assert forall|i: int, j: int|
        #![trigger f_new[i], f_new[j]]
        0 <= i < f_new.len() && 0 <= j < f_new.len() && f_new[i].iteration < p
            && f_new[j].iteration < p && max_intersects_min_applies(
        f_new[i],
        f_new[j],
    ) implies has_fact(
        f_new,
        Constraint::Min,
        f_new[i].count - overlap_cap(f_new[i], f_new[j]),
        f_new[i].proximity@.difference(f_new[j].proximity@),
    ) by {
        assert(f_old[i] == f_new[i] && f_old[j] == f_new[j]);
        if f_old[i].iteration < p - 1 && f_old[j].iteration < p - 1 {
            assert(has_fact(
                f_old,
                Constraint::Min,
                f_old[i].count - overlap_cap(f_old[i], f_old[j]),
                f_old[i].proximity@.difference(f_old[j].proximity@),
            ));
        }
    }
}

/// Constraints found in an embedded segment of a pass's output are present
/// wherever every output constraint landed.
proof fn lemma_conclusions_flow(seg: Seq<Fact>, whole: Seq<Fact>, off: int, f_final: Seq<Fact>)
    requires
        0 <= off,
        off + seg.len() <= whole.len(),
        forall|q: int| 0 <= q < seg.len() ==> whole[off + q] == seg[q],
        forall|j: int|
            0 <= j < whole.len() ==> has_fact(
                f_final,
                (#[trigger] whole[j]).kind,
                whole[j].count as int,
                whole[j].proximity@,
            ),
    ensures
        forall|kind: Constraint, count: int, prox: Set<Location>|
            #[trigger] has_fact(seg, kind, count, prox) ==> has_fact(f_final, kind, count, prox),
{
    assert forall|kind: Constraint, count: int, prox: Set<Location>|
        #[trigger] has_fact(seg, kind, count, prox) implies has_fact(f_final, kind, count, prox) by {
        let k = choose|k: int|
            0 <= k < seg.len() && seg[k].kind == kind && seg[k].count == count && seg[k].proximity@
                == prox;
        assert(whole[off + k] == seg[k]);
        assert(has_fact(f_final, whole[off + k].kind, whole[off + k].count as int, whole[off + k].proximity@));
    }
}

/// Presence of the seeded constraints survives appending facts.
proof fn lemma_seeded_present_extends(v: MinefieldView, f1: Seq<Fact>, f2: Seq<Fact>)
    requires
        f1.len() <= f2.len(),
        forall|k: int| 0 <= k < f1.len() ==> f2[k] == f1[k],
        spec_seeded_facts_present(v, f1),
    ensures
        spec_seeded_facts_present(v, f2),
{
    lemma_has_fact_extends(f1, f2);
    assert forall|i: int|
        0 <= i < v.fog.cells.len() implies ((#[trigger] v.fog.cells[i]) matches State::Revealed {
        adj_mines,
    } ==> has_fact(
        f2,
        Constraint::Exact,
        adj_mines as int,
        spec_hidden_neighbours(v.fog, spec_from_index(i, v.fog.width as int)),
    )) by {
        if v.fog.cells[i] is Revealed {
            assert(has_fact(
                f1,
                Constraint::Exact,
                v.fog.cells[i]->adj_mines as int,
                spec_hidden_neighbours(v.fog, spec_from_index(i, v.fog.width as int)),
            ));
        }
    }
}

/// A ledger whose bound clears every stored tag is full saturation.
proof fn lemma_sat_below_is_full(facts: Seq<Fact>, it: int)
    requires
        spec_saturated_below(facts, it),
        forall|k: int| 0 <= k < facts.len() ==> (#[trigger] facts[k]).iteration < it,
    ensures
        spec_rules_saturated(facts),
{
}

/// A fact list keeps every constraint it had when it grows at the end.
proof fn lemma_has_fact_extends(s1: Seq<Fact>, s2: Seq<Fact>)
    requires
        s1.len() <= s2.len(),
        forall|k: int| 0 <= k < s1.len() ==> s2[k] == s1[k],
    ensures
        forall|kind: Constraint, count: int, prox: Set<Location>|
            has_fact(s1, kind, count, prox) ==> #[trigger] has_fact(s2, kind, count, prox),
{
    assert forall|kind: Constraint, count: int, prox: Set<Location>|
        has_fact(s1, kind, count, prox) implies #[trigger] has_fact(s2, kind, count, prox) by {
        let k = choose|k: int|
            0 <= k < s1.len() && s1[k].kind == kind && s1[k].count == count && s1[k].proximity@
                == prox;
        assert(s2[k] == s1[k]);
    }
}

impl MinWithinMaxCombinator {
    /// For a `Min` proximity strictly inside a `Max` proximity with at
    /// least as many mines, the remainder of the `Max` proximity has at
    /// most the difference of the counts.  Pairs with at least one
    /// previous-iteration fact are examined.
    #[verifier::rlimit(60)]
    pub fn derive<G: MinefieldGenerator>(&self, repo: &Solver<G>) -> (r: Vec<Fact>)
        requires
            repo.facts_ok(),
            repo.iteration >= 1,
        ensures
            derived_ok(repo, r@),
            forall|k: int|
                0 <= k < r@.len() ==> min_within_max_conclusion(
                    repo.facts@,
                    repo.iteration as int,
                    #[trigger] r@[k],
                ),
            forall|i: int, j: int|
                0 <= i < repo.facts@.len() && 0 <= j < repo.facts@.len() && ((
                #[trigger] repo.facts@[i]).iteration == repo.iteration - 1 || (
                #[trigger] repo.facts@[j]).iteration == repo.iteration - 1)
                    && min_within_max_applies(repo.facts@[i], repo.facts@[j]) ==> has_fact(
                    r@,
                    Constraint::Max,
                    repo.facts@[j].count - repo.facts@[i].count,
                    repo.facts@[j].proximity@.difference(repo.facts@[i].proximity@),
                ),
    {
        let mut out: Vec<Fact> = Vec::new();
        let n = repo.facts.len();
        let mut i: usize = 0;
        while i < n
            invariant
                i <= n,
                n == repo.facts@.len(),
                repo.facts_ok(),
                repo.iteration >= 1,
                derived_ok(repo, out@),
                forall|k: int|
                    0 <= k < out@.len() ==> min_within_max_conclusion(
                        repo.facts@,
                        repo.iteration as int,
                        #[trigger] out@[k],
                    ),
                forall|i2: int, j2: int|
                    0 <= i2 < i && 0 <= j2 < n && ((#[trigger] repo.facts@[i2]).iteration
                        == repo.iteration - 1 || (#[trigger] repo.facts@[j2]).iteration
                        == repo.iteration - 1) && min_within_max_applies(
                        repo.facts@[i2],
                        repo.facts@[j2],
                    ) ==> has_fact(
                        out@,
                        Constraint::Max,
                        repo.facts@[j2].count - repo.facts@[i2].count,
                        repo.facts@[j2].proximity@.difference(repo.facts@[i2].proximity@),
                    ),
            decreases n - i,
        {
            let mut j: usize = 0;
            while j < n
                invariant
                    i < n,
                    j <= n,
                    n == repo.facts@.len(),
                    repo.facts_ok(),
                    repo.iteration >= 1,
                    derived_ok(repo, out@),
                    forall|k: int|
                        0 <= k < out@.len() ==> min_within_max_conclusion(
                            repo.facts@,
                            repo.iteration as int,
                            #[trigger] out@[k],
                        ),
                    forall|i2: int, j2: int|
                        0 <= i2 < i && 0 <= j2 < n && ((#[trigger] repo.facts@[i2]).iteration
                            == repo.iteration - 1 || (#[trigger] repo.facts@[j2]).iteration
                            == repo.iteration - 1) && min_within_max_applies(
                            repo.facts@[i2],
                            repo.facts@[j2],
                        ) ==> has_fact(
                            out@,
                            Constraint::Max,
                            repo.facts@[j2].count - repo.facts@[i2].count,
                            repo.facts@[j2].proximity@.difference(repo.facts@[i2].proximity@),
                        ),
                    forall|j2: int|
                        0 <= j2 < j && ((#[trigger] repo.facts@[i as int]).iteration
                            == repo.iteration - 1 || (#[trigger] repo.facts@[j2]).iteration
                            == repo.iteration - 1) && min_within_max_applies(
                            repo.facts@[i as int],
                            repo.facts@[j2],
                        ) ==> has_fact(
                            out@,
                            Constraint::Max,
                            repo.facts@[j2].count - repo.facts@[i as int].count,
                            repo.facts@[j2].proximity@.difference(
                                repo.facts@[i as int].proximity@,
                            ),
                        ),
                decreases n - j,
            {
                let fmin = repo.facts.get(i).unwrap();
                let fmax = repo.facts.get(j).unwrap();
                let prev_ok = fmin.iteration == repo.iteration - 1 || fmax.iteration
                    == repo.iteration - 1;
                let ghost old_out = out@;
                if prev_ok && fmin.is_min() && fmax.is_max() && fmax.count >= fmin.count
                    && fmin.cardinality() < fmax.cardinality() && fmin.proximity.is_subset(
                    &fmax.proximity,
                ) {
                    let diff = fmax.proximity.difference(&fmin.proximity);
                    proof {
                        if mines_all_hidden(repo.board()) {
                            // the max set splits into the min part and the rest
                            fmax.proximity.lemma_card();
                            lemma_mines_split(
                                fmax.proximity@,
                                fmin.proximity@,
                                repo.board().ground,
                            );
                            assert(fmax.proximity@.intersect(fmin.proximity@)
                                =~= fmin.proximity@);
                        }
                        // the remainder stays on the board
                        assert forall|k: int|
                            0 <= k < diff.seq().len() implies loc_in_grid(
                            #[trigger] diff.seq()[k],
                            repo.board().fog.width as int,
                            repo.board().fog.height as int,
                        ) by {
                            let x = diff.seq()[k];
                            assert(diff@.contains(x)) by {
                                assert(diff.seq()[k] == x);
                            }
                            let k2 = choose|k2: int|
                                0 <= k2 < fmax.proximity.seq().len() && fmax.proximity.seq()[k2]
                                    == x;
                            assert(loc_in_grid(
                                fmax.proximity.seq()[k2],
                                repo.board().fog.width as int,
                                repo.board().fog.height as int,
                            ));
                        }
                    }
                    let nf = Fact::new(
                        Constraint::Max,
                        fmax.count - fmin.count,
                        diff,
                        repo.iteration,
                        FactDebug::derived_two("MinWithinMaxCombinator"),
                    );
                    out.push(nf);
                    proof {
                        assert(out@[old_out.len() as int] == nf);
                        assert(min_within_max_conclusion(
                            repo.facts@,
                            repo.iteration as int,
                            nf,
                        )) by {
                            assert(repo.facts@[i as int].iteration == repo.iteration - 1
                                || repo.facts@[j as int].iteration == repo.iteration - 1);
                            assert(min_within_max_applies(
                                repo.facts@[i as int],
                                repo.facts@[j as int],
                            ));
                        }
                    }
                }
                proof {
                    lemma_has_fact_extends(old_out, out@);
                    assert forall|j2: int|
                        0 <= j2 < j + 1 && ((#[trigger] repo.facts@[i as int]).iteration
                            == repo.iteration - 1 || (#[trigger] repo.facts@[j2]).iteration
                            == repo.iteration - 1) && min_within_max_applies(
                        repo.facts@[i as int],
                        repo.facts@[j2],
                    ) implies has_fact(
                        out@,
                        Constraint::Max,
                        repo.facts@[j2].count - repo.facts@[i as int].count,
                        repo.facts@[j2].proximity@.difference(repo.facts@[i as int].proximity@),
                    ) by {
                        if j2 < j {
                            let k = choose|k: int|
                                0 <= k < old_out.len() && old_out[k].kind == Constraint::Max
                                    && old_out[k].count == repo.facts@[j2].count
                                    - repo.facts@[i as int].count && old_out[k].proximity@
                                    == repo.facts@[j2].proximity@.difference(
                                    repo.facts@[i as int].proximity@,
                                );
                            assert(out@[k] == old_out[k]);
                        } else {
                            assert(out@[out@.len() - 1].proximity@
                                == repo.facts@[j2].proximity@.difference(
                                repo.facts@[i as int].proximity@,
                            ));
                        }
                    }
                }
                j = j + 1;
            }
            i = i + 1;
        }
        out
    }
}

impl MaxIntersectsMinCombinator {
    /// For a `Min` proximity overlapping a `Max` proximity that cannot
    /// absorb all its mines, the part outside the overlap keeps the
    /// excess.  Pairs with at least one previous-iteration fact are
    /// examined.
    #[verifier::rlimit(60)]
    pub fn derive<G: MinefieldGenerator>(&self, repo: &Solver<G>) -> (r: Vec<Fact>)
        requires
            repo.facts_ok(),
            repo.iteration >= 1,
        ensures
            derived_ok(repo, r@),
            forall|k: int|
                0 <= k < r@.len() ==> max_intersects_min_conclusion(
                    repo.facts@,
                    repo.iteration as int,
                    #[trigger] r@[k],
                ),
            forall|i: int, j: int|
                0 <= i < repo.facts@.len() && 0 <= j < repo.facts@.len() && ((
                #[trigger] repo.facts@[i]).iteration == repo.iteration - 1 || (
                #[trigger] repo.facts@[j]).iteration == repo.iteration - 1)
                    && max_intersects_min_applies(repo.facts@[i], repo.facts@[j]) ==> has_fact(
                    r@,
                    Constraint::Min,
                    repo.facts@[i].count - overlap_cap(repo.facts@[i], repo.facts@[j]),
                    repo.facts@[i].proximity@.difference(repo.facts@[j].proximity@),
                ),
    {
        let mut out: Vec<Fact> = Vec::new();
        let n = repo.facts.len();
        let mut i: usize = 0;
        while i < n
            invariant
                i <= n,
                n == repo.facts@.len(),
                repo.facts_ok(),
                repo.iteration >= 1,
                derived_ok(repo, out@),
                forall|k: int|
                    0 <= k < out@.len() ==> max_intersects_min_conclusion(
                        repo.facts@,
                        repo.iteration as int,
                        #[trigger] out@[k],
                    ),
                forall|i2: int, j2: int|
                    0 <= i2 < i && 0 <= j2 < n && ((#[trigger] repo.facts@[i2]).iteration
                        == repo.iteration - 1 || (#[trigger] repo.facts@[j2]).iteration
                        == repo.iteration - 1) && max_intersects_min_applies(
                        repo.facts@[i2],
                        repo.facts@[j2],
                    ) ==> has_fact(
                        out@,
                        Constraint::Min,
                        repo.facts@[i2].count - overlap_cap(repo.facts@[i2], repo.facts@[j2]),
                        repo.facts@[i2].proximity@.difference(repo.facts@[j2].proximity@),
                    ),
            decreases n - i,
        {
            let mut j: usize = 0;
            while j < n
                invariant
                    i < n,
                    j <= n,
                    n == repo.facts@.len(),
                    repo.facts_ok(),
                    repo.iteration >= 1,
                    derived_ok(repo, out@),
                    forall|k: int|
                        0 <= k < out@.len() ==> max_intersects_min_conclusion(
                            repo.facts@,
                            repo.iteration as int,
                            #[trigger] out@[k],
                        ),
                    forall|i2: int, j2: int|
                        0 <= i2 < i && 0 <= j2 < n && ((#[trigger] repo.facts@[i2]).iteration
                            == repo.iteration - 1 || (#[trigger] repo.facts@[j2]).iteration
                            == repo.iteration - 1) && max_intersects_min_applies(
                            repo.facts@[i2],
                            repo.facts@[j2],
                        ) ==> has_fact(
                            out@,
                            Constraint::Min,
                            repo.facts@[i2].count - overlap_cap(repo.facts@[i2], repo.facts@[j2]),
                            repo.facts@[i2].proximity@.difference(repo.facts@[j2].proximity@),
                        ),
                    forall|j2: int|
                        0 <= j2 < j && ((#[trigger] repo.facts@[i as int]).iteration
                            == repo.iteration - 1 || (#[trigger] repo.facts@[j2]).iteration
                            == repo.iteration - 1) && max_intersects_min_applies(
                            repo.facts@[i as int],
                            repo.facts@[j2],
                        ) ==> has_fact(
                            out@,
                            Constraint::Min,
                            repo.facts@[i as int].count - overlap_cap(
                                repo.facts@[i as int],
                                repo.facts@[j2],
                            ),
                            repo.facts@[i as int].proximity@.difference(
                                repo.facts@[j2].proximity@,
                            ),
                        ),
                decreases n - j,
            {
                let fmin = repo.facts.get(i).unwrap();
                let fmax = repo.facts.get(j).unwrap();
                let prev_ok = fmin.iteration == repo.iteration - 1 || fmax.iteration
                    == repo.iteration - 1;
                let ghost old_out = out@;
                if prev_ok && fmin.is_min() && fmax.is_max() {
                    let inter = fmin.proximity.intersection(&fmax.proximity);
                    let icard = inter.len();
                    let cap = if fmax.count <= icard {
                        fmax.count
                    } else {
                        icard
                    };
                    proof {
                        assert(icard == fmin.proximity@.intersect(fmax.proximity@).len()) by {
                            inter.lemma_card();
                        }
                    }
                    if icard != 0 && fmin.count > cap {
                        let diff = fmin.proximity.difference(&fmax.proximity);
                        proof {
                            if mines_all_hidden(repo.board()) {
                                let g = repo.board().ground;
                                fmin.proximity.lemma_card();
                                fmax.proximity.lemma_card();
                                lemma_mines_split(fmin.proximity@, fmax.proximity@, g);
                                lemma_mines_subset(
                                    fmin.proximity@.intersect(fmax.proximity@),
                                    fmax.proximity@,
                                    g,
                                );
                                fmin.proximity@.intersect(fmax.proximity@).lemma_len_filter(
                                    mine_at_pred(g),
                                );
                            }
                            assert forall|k: int|
                                0 <= k < diff.seq().len() implies loc_in_grid(
                                #[trigger] diff.seq()[k],
                                repo.board().fog.width as int,
                                repo.board().fog.height as int,
                            ) by {
                                let x = diff.seq()[k];
                                assert(diff@.contains(x)) by {
                                    assert(diff.seq()[k] == x);
                                }
                                let k2 = choose|k2: int|
                                    0 <= k2 < fmin.proximity.seq().len()
                                        && fmin.proximity.seq()[k2] == x;
                                assert(loc_in_grid(
                                    fmin.proximity.seq()[k2],
                                    repo.board().fog.width as int,
                                    repo.board().fog.height as int,
                                ));
                            }
                        }
                        let nf = Fact::new(
                            Constraint::Min,
                            fmin.count - cap,
                            diff,
                            repo.iteration,
                            FactDebug::derived_two("MaxIntersectsMinCombinator"),
                        );
                        out.push(nf);
                        proof {
                            assert(out@[old_out.len() as int] == nf);
                            assert(max_intersects_min_conclusion(
                                repo.facts@,
                                repo.iteration as int,
                                nf,
                            )) by {
                                assert(repo.facts@[i as int].iteration == repo.iteration - 1
                                    || repo.facts@[j as int].iteration == repo.iteration - 1);
                                assert(max_intersects_min_applies(
                                    repo.facts@[i as int],
                                    repo.facts@[j as int],
                                ));
                            }
                        }
                    }
                }
                proof {
                    lemma_has_fact_extends(old_out, out@);
                    assert forall|j2: int|
                        0 <= j2 < j + 1 && ((#[trigger] repo.facts@[i as int]).iteration
                            == repo.iteration - 1 || (#[trigger] repo.facts@[j2]).iteration
                            == repo.iteration - 1) && max_intersects_min_applies(
                        repo.facts@[i as int],
                        repo.facts@[j2],
                    ) implies has_fact(
                        out@,
                        Constraint::Min,
                        repo.facts@[i as int].count - overlap_cap(
                            repo.facts@[i as int],
                            repo.facts@[j2],
                        ),
                        repo.facts@[i as int].proximity@.difference(repo.facts@[j2].proximity@),
                    ) by {
                        if j2 < j {
                            let k = choose|k: int|
                                0 <= k < old_out.len() && old_out[k].kind == Constraint::Min
                                    && old_out[k].count == repo.facts@[i as int].count
                                    - overlap_cap(repo.facts@[i as int], repo.facts@[j2])
                                    && old_out[k].proximity@
                                    == repo.facts@[i as int].proximity@.difference(
                                    repo.facts@[j2].proximity@,
                                );
                            assert(out@[k] == old_out[k]);
                        } else {
                            assert(out@[out@.len() - 1].proximity@
                                == repo.facts@[i as int].proximity@.difference(
                                repo.facts@[j2].proximity@,
                            ));
                        }
                    }
                }
                j = j + 1;
            }
            i = i + 1;
        }
        out
    }
}

/// The cells some `Exact 0` fact covers: provably safe when every fact is
/// true.
pub open spec fn spec_safe_locs(facts: Seq<Fact>) -> Set<Location> {
    Set::new(
        |x: Location|
            exists|j: int|
                0 <= j < facts.len() && (#[trigger] facts[j]).kind is Exact && facts[j].count == 0
                    && facts[j].proximity@.contains(x),
    )
}

/// The cells some saturated `Exact` fact covers entirely: provably mined
/// when every fact is true.
pub open spec fn spec_mine_locs(facts: Seq<Fact>) -> Set<Location> {
    Set::new(
        |x: Location|
            exists|j: int|
                0 <= j < facts.len() && (#[trigger] facts[j]).kind is Exact && facts[j].count
                    == facts[j].proximity@.len() && facts[j].proximity@.contains(x),
    )
}

/// Soundness of the solver's outputs: when every fact is true of the
/// ground, no guaranteed-safe cell is a mine and every guaranteed mine is
/// one.
pub proof fn lemma_outputs_sound(facts: Seq<Fact>, g: AreaView<GroundKind>)
    requires
        forall|j: int| 0 <= j < facts.len() ==> fact_holds(#[trigger] facts[j], g),
        forall|j: int| 0 <= j < facts.len() ==> (#[trigger] facts[j]).proximity.wf(),
    ensures
        forall|l: Location| spec_safe_locs(facts).contains(l) ==> !mine_at_pred(g)(l),
        forall|l: Location| spec_mine_locs(facts).contains(l) ==> mine_at_pred(g)(l),
{
    let p = mine_at_pred(g);
    assert forall|l: Location| spec_safe_locs(facts).contains(l) implies !p(l) by {
        let j = choose|j: int|
            0 <= j < facts.len() && (#[trigger] facts[j]).kind is Exact && facts[j].count == 0
                && facts[j].proximity@.contains(l);
        let s = facts[j].proximity@;
        if p(l) {
            facts[j].proximity.lemma_card();
            assert(s.filter(p).contains(l));
            s.lemma_len_filter(p);
            if s.filter(p).len() == 0 {
                s.filter(p).lemma_len0_is_empty();
            }
            assert(false);
        }
    }
    assert forall|l: Location| spec_mine_locs(facts).contains(l) implies p(l) by {
        let j = choose|j: int|
            0 <= j < facts.len() && (#[trigger] facts[j]).kind is Exact && facts[j].count
                == facts[j].proximity@.len() && facts[j].proximity@.contains(l);
        let s = facts[j].proximity@;
        facts[j].proximity.lemma_card();
        s.lemma_len_filter(p);
        // a filtered subset of full size is the whole set
        let rest = s.difference(s.filter(p));
        lemma_len_disjoint_union(s.filter(p), rest);
        assert(s.filter(p).union(rest) =~= s);
        assert(rest.len() == 0);
        rest.lemma_len0_is_empty();
        if !s.filter(p).contains(l) {
            assert(rest.contains(l));
            assert(false);
        }
    }
}

/// Output monotonicity: as the fact repository grows, the guaranteed-safe
/// and guaranteed-mine sets can only grow.
pub proof fn lemma_outputs_monotone(facts1: Seq<Fact>, facts2: Seq<Fact>)
    requires
        facts1.len() <= facts2.len(),
        forall|j: int| 0 <= j < facts1.len() ==> facts2[j] == facts1[j],
    ensures
        spec_safe_locs(facts1).subset_of(spec_safe_locs(facts2)),
        spec_mine_locs(facts1).subset_of(spec_mine_locs(facts2)),
{
    assert forall|x: Location|
        spec_safe_locs(facts1).contains(x) implies spec_safe_locs(facts2).contains(x) by {
        let j = choose|j: int|
            0 <= j < facts1.len() && (#[trigger] facts1[j]).kind is Exact && facts1[j].count == 0
                && facts1[j].proximity@.contains(x);
        assert(facts2[j] == facts1[j]);
    }
    assert forall|x: Location|
        spec_mine_locs(facts1).contains(x) implies spec_mine_locs(facts2).contains(x) by {
        let j = choose|j: int|
            0 <= j < facts1.len() && (#[trigger] facts1[j]).kind is Exact && facts1[j].count
                == facts1[j].proximity@.len() && facts1[j].proximity@.contains(x);
        assert(facts2[j] == facts1[j]);
    }
}

impl<'mf, G: MinefieldGenerator> Solver<'mf, G> {
    /// Runs all rules against the repository until a pass adds nothing
    /// new.  Terminates because facts are never removed and the space of
    /// distinct facts on a finite board is finite; on exit -- short of a
    /// repository that has filled the whole address space -- the facts are
    /// saturated: one more pass of every rule yields nothing new.  The
    /// iteration counter ends at the last pass that added facts.
    #[verifier::rlimit(100)]
    pub fn run(&mut self)
        requires
            old(self).inv(),
        ensures
            final(self).inv(),
            final(self).board() == old(self).board(),
            final(self).iteration >= old(self).iteration,
            final(self).facts@.len() >= old(self).facts@.len(),
            forall|j: int|
                0 <= j < old(self).facts@.len() ==> final(self).facts@[j] == old(self).facts@[j],
            final(self).facts@.len() < usize::MAX ==> spec_rules_saturated(final(self).facts@),
    {
        let ghost w = self.board().fog.width as int;
        let ghost h = self.board().fog.height as int;
        loop
            invariant
                self.inv(),
                w == self.board().fog.width as int,
                h == self.board().fog.height as int,
                self.board() == old(self).board(),
                self.iteration >= old(self).iteration,
                self.facts@.len() >= old(self).facts@.len(),
                forall|j: int|
                    0 <= j < old(self).facts@.len() ==> self.facts@[j] == old(self).facts@[j],
            ensures
                self.inv(),
                self.board() == old(self).board(),
                self.iteration >= old(self).iteration,
                self.facts@.len() >= old(self).facts@.len(),
                forall|j: int|
                    0 <= j < old(self).facts@.len() ==> self.facts@[j] == old(self).facts@[j],
                self.facts@.len() < usize::MAX ==> spec_rules_saturated(self.facts@),
            decreases 3 * (w * h + 9) * pow2((w * h) as nat) - self.facts@.len(),
        {
            proof {
                lemma_facts_len_bound(self.facts@, w, h);
            }
            if self.facts.len() == usize::MAX {
                // a repository that already fills the address space cannot
                // grow, so no further pass can add anything
                break ;
            }
            let ghost f_top = self.facts@;
            let ghost q = self.iteration as int;
            self.iteration = self.iteration + 1;
            let ghost p = self.iteration as int;
            let mut new_facts: Vec<Fact> = Vec::new();
            let mut r1 = MinAllToExact.derive(&*self);
            let ghost s1 = r1@;
            new_facts.append(&mut r1);
            let ghost n1 = new_facts@;
            let mut r2 = MaxZeroToExact.derive(&*self);
            let ghost s2 = r2@;
            new_facts.append(&mut r2);
            let ghost n2 = new_facts@;
            let mut r3 = ExactToMin.derive(&*self);
            let ghost s3 = r3@;
            new_facts.append(&mut r3);
            let ghost n3 = new_facts@;
            let mut r4 = ExactToMax.derive(&*self);
            let ghost s4 = r4@;
            new_facts.append(&mut r4);
            let ghost n4 = new_facts@;
            let mut r5 = MinWithinMaxCombinator.derive(&*self);
            let ghost s5 = r5@;
            new_facts.append(&mut r5);
            let ghost n5 = new_facts@;
            let mut r6 = MaxIntersectsMinCombinator.derive(&*self);
            let ghost s6 = r6@;
            new_facts.append(&mut r6);
            let ghost nf = new_facts@;
            proof {
                assert(nf == n5 + s6 && n5 == n4 + s5 && n4 == n3 + s4 && n3 == n2 + s3 && n2 == n1
                    + s2 && n1 == s1);
                assert(forall|q2: int| 0 <= q2 < s1.len() ==> nf[q2] == s1[q2]);
                assert(forall|q2: int|
                    0 <= q2 < s2.len() ==> nf[s1.len() + q2] == s2[q2]);
                assert(forall|q2: int|
                    0 <= q2 < s3.len() ==> nf[s1.len() + s2.len() + q2] == s3[q2]);
                assert(forall|q2: int|
                    0 <= q2 < s4.len() ==> nf[s1.len() + s2.len() + s3.len() + q2] == s4[q2]);
                assert(forall|q2: int|
                    0 <= q2 < s5.len() ==> nf[s1.len() + s2.len() + s3.len() + s4.len() + q2]
                        == s5[q2]);
                assert(forall|q2: int|
                    0 <= q2 < s6.len() ==> nf[s1.len() + s2.len() + s3.len() + s4.len() + s5.len()
                        + q2] == s6[q2]);
            }
            let added = self.add(new_facts);
            proof {
                let f_final = self.facts@;
                lemma_conclusions_flow(s1, nf, 0, f_final);
                lemma_conclusions_flow(s2, nf, s1.len() as int, f_final);
                lemma_conclusions_flow(s3, nf, s1.len() + s2.len() as int, f_final);
                lemma_conclusions_flow(s4, nf, s1.len() + s2.len() + s3.len() as int, f_final);
                lemma_conclusions_flow(
                    s5,
                    nf,
                    s1.len() + s2.len() + s3.len() + s4.len() as int,
                    f_final,
                );
                lemma_conclusions_flow(
                    s6,
                    nf,
                    s1.len() + s2.len() + s3.len() + s4.len() + s5.len() as int,
                    f_final,
                );
                lemma_saturation_advance(f_top, f_final, p);
            }
            if !added {
                proof {
                    assert(self.facts@ == f_top);
                    lemma_sat_below_is_full(self.facts@, p);
                }
                self.iteration = self.iteration - 1;
                break ;
            }
            proof {
                lemma_facts_len_bound(self.facts@, w, h);
            }
        }
    }

    /// The union of the proximities of all `Exact 0` facts: cells that
    /// provably hold no mine.
    pub fn guaranteed_safe_locations(&self) -> (r: LocationSet)
        requires
            self.inv(),
        ensures
            r.wf(),
            r@ == spec_safe_locs(self.facts@),
    {
        let mut out = LocationSet::new();
        let n = self.facts.len();
        let mut j: usize = 0;
        while j < n
            invariant
                j <= n,
                n == self.facts@.len(),
                self.inv(),
                out.wf(),
                forall|x: Location|
                    out@.contains(x) <==> exists|j2: int|
                        0 <= j2 < j && (#[trigger] self.facts@[j2]).kind is Exact
                            && self.facts@[j2].count == 0 && self.facts@[j2].proximity@.contains(x),
            decreases n - j,
        {
            let f = self.facts.get(j).unwrap();
            if f.is_exact() && f.count == 0 {
                let m = f.proximity.len();
                let mut k: usize = 0;
                while k < m
                    invariant
                        k <= m,
                        j < n,
                        n == self.facts@.len(),
                        self.inv(),
                        m == self.facts@[j as int].proximity.seq().len(),
                        f == self.facts@[j as int],
                        out.wf(),
                        forall|x: Location|
                            out@.contains(x) <==> ((exists|j2: int|
                                0 <= j2 < j && (#[trigger] self.facts@[j2]).kind is Exact
                                    && self.facts@[j2].count == 0
                                    && self.facts@[j2].proximity@.contains(x)) || (exists|k2: int|
                                0 <= k2 < k && self.facts@[j as int].proximity.seq()[k2] == x)),
                    decreases m - k,
                {
                    let l = f.proximity.get(k);
                    proof {
                        assert(loc_in_grid(
                            self.facts@[j as int].proximity.seq()[k as int],
                            self.board().fog.width as int,
                            self.board().fog.height as int,
                        ));
                    }
                    let ghost old_out = out@;
                    out.insert(l);
                    proof {
                        assert forall|x: Location|
                            out@.contains(x) implies ((exists|j2: int|
                            0 <= j2 < j && (#[trigger] self.facts@[j2]).kind is Exact
                                && self.facts@[j2].count == 0
                                && self.facts@[j2].proximity@.contains(x)) || (exists|k2: int|
                            0 <= k2 < k + 1 && self.facts@[j as int].proximity.seq()[k2]
                                == x)) by {
                            if !old_out.contains(x) {
                                assert(self.facts@[j as int].proximity.seq()[k as int] == x);
                            } else {
                                if !(exists|j2: int|
                                    0 <= j2 < j && (#[trigger] self.facts@[j2]).kind is Exact
                                        && self.facts@[j2].count == 0
                                        && self.facts@[j2].proximity@.contains(x)) {
                                    let k2 = choose|k2: int|
                                        0 <= k2 < k && self.facts@[j as int].proximity.seq()[k2]
                                            == x;
                                    assert(0 <= k2 < k + 1);
                                }
                            }
                        }
                    }
                    k = k + 1;
                }
                proof {
                    assert forall|x: Location|
                        out@.contains(x) implies exists|j2: int|
                        0 <= j2 < j + 1 && (#[trigger] self.facts@[j2]).kind is Exact
                            && self.facts@[j2].count == 0
                            && self.facts@[j2].proximity@.contains(x) by {
                        if exists|k2: int|
                            0 <= k2 < m && self.facts@[j as int].proximity.seq()[k2] == x {
                            let k2 = choose|k2: int|
                                0 <= k2 < m && self.facts@[j as int].proximity.seq()[k2] == x;
                            assert(self.facts@[j as int].proximity.seq().contains(x)) by {
                                assert(self.facts@[j as int].proximity.seq()[k2] == x);
                            }
                            assert(self.facts@[j as int].proximity@.contains(x));
                        } else {
                            let j2 = choose|j2: int|
                                0 <= j2 < j && (#[trigger] self.facts@[j2]).kind is Exact
                                    && self.facts@[j2].count == 0
                                    && self.facts@[j2].proximity@.contains(x);
                            assert(0 <= j2 < j + 1);
                        }
                    }
                    assert forall|x: Location|
                        (exists|j2: int|
                            0 <= j2 < j + 1 && (#[trigger] self.facts@[j2]).kind is Exact
                                && self.facts@[j2].count == 0
                                && self.facts@[j2].proximity@.contains(x)) implies out@.contains(
                        x,
                    ) by {
                        let j2 = choose|j2: int|
                            0 <= j2 < j + 1 && (#[trigger] self.facts@[j2]).kind is Exact
                                && self.facts@[j2].count == 0
                                && self.facts@[j2].proximity@.contains(x);
                        if j2 == j {
                            let k2 = choose|k2: int|
                                0 <= k2 < m && self.facts@[j as int].proximity.seq()[k2] == x;
                        }
                    }
                }
            }
            j = j + 1;
        }
        proof {
            assert(out@ =~= spec_safe_locs(self.facts@));
        }
        out
    }

    /// The union of the proximities of all saturated `Exact` facts: cells
    /// that provably hold a mine.
    pub fn guaranteed_mines(&self) -> (r: LocationSet)
        requires
            self.inv(),
        ensures
            r.wf(),
            r@ == spec_mine_locs(self.facts@),
    {
        let mut out = LocationSet::new();
        let n = self.facts.len();
        let mut j: usize = 0;
        while j < n
            invariant
                j <= n,
                n == self.facts@.len(),
                self.inv(),
                out.wf(),
                forall|x: Location|
                    out@.contains(x) <==> exists|j2: int|
                        0 <= j2 < j && (#[trigger] self.facts@[j2]).kind is Exact
                            && self.facts@[j2].count == self.facts@[j2].proximity@.len()
                            && self.facts@[j2].proximity@.contains(x),
            decreases n - j,
        {
            let f = self.facts.get(j).unwrap();
            if f.is_exact() && f.count == f.cardinality() {
                let m = f.proximity.len();
                let mut k: usize = 0;
                while k < m
                    invariant
                        k <= m,
                        j < n,
                        n == self.facts@.len(),
                        self.inv(),
                        m == self.facts@[j as int].proximity.seq().len(),
                        f == self.facts@[j as int],
                        self.facts@[j as int].kind is Exact,
                        self.facts@[j as int].count == self.facts@[j as int].proximity@.len(),
                        out.wf(),
                        forall|x: Location|
                            out@.contains(x) <==> ((exists|j2: int|
                                0 <= j2 < j && (#[trigger] self.facts@[j2]).kind is Exact
                                    && self.facts@[j2].count == self.facts@[j2].proximity@.len()
                                    && self.facts@[j2].proximity@.contains(x)) || (exists|k2: int|
                                0 <= k2 < k && self.facts@[j as int].proximity.seq()[k2] == x)),
                    decreases m - k,
                {
                    let l = f.proximity.get(k);
                    proof {
                        assert(loc_in_grid(
                            self.facts@[j as int].proximity.seq()[k as int],
                            self.board().fog.width as int,
                            self.board().fog.height as int,
                        ));
                    }
                    let ghost old_out = out@;
                    out.insert(l);
                    proof {
                        assert forall|x: Location|
                            out@.contains(x) implies ((exists|j2: int|
                            0 <= j2 < j && (#[trigger] self.facts@[j2]).kind is Exact
                                && self.facts@[j2].count == self.facts@[j2].proximity@.len()
                                && self.facts@[j2].proximity@.contains(x)) || (exists|k2: int|
                            0 <= k2 < k + 1 && self.facts@[j as int].proximity.seq()[k2]
                                == x)) by {
                            if !old_out.contains(x) {
                                assert(self.facts@[j as int].proximity.seq()[k as int] == x);
                            } else {
                                if !(exists|j2: int|
                                    0 <= j2 < j && (#[trigger] self.facts@[j2]).kind is Exact
                                        && self.facts@[j2].count
                                        == self.facts@[j2].proximity@.len()
                                        && self.facts@[j2].proximity@.contains(x)) {
                                    let k2 = choose|k2: int|
                                        0 <= k2 < k && self.facts@[j as int].proximity.seq()[k2]
                                            == x;
                                    assert(0 <= k2 < k + 1);
                                }
                            }
                        }
                    }
                    k = k + 1;
                }
                proof {
                    assert forall|x: Location|
                        out@.contains(x) implies exists|j2: int|
                        0 <= j2 < j + 1 && (#[trigger] self.facts@[j2]).kind is Exact
                            && self.facts@[j2].count == self.facts@[j2].proximity@.len()
                            && self.facts@[j2].proximity@.contains(x) by {
                        if exists|k2: int|
                            0 <= k2 < m && self.facts@[j as int].proximity.seq()[k2] == x {
                            let k2 = choose|k2: int|
                                0 <= k2 < m && self.facts@[j as int].proximity.seq()[k2] == x;
                            assert(self.facts@[j as int].proximity.seq().contains(x)) by {
                                assert(self.facts@[j as int].proximity.seq()[k2] == x);
                            }
                            assert(self.facts@[j as int].proximity@.contains(x));
                        } else {
                            let j2 = choose|j2: int|
                                0 <= j2 < j && (#[trigger] self.facts@[j2]).kind is Exact
                                    && self.facts@[j2].count == self.facts@[j2].proximity@.len()
                                    && self.facts@[j2].proximity@.contains(x);
                            assert(0 <= j2 < j + 1);
                        }
                    }
                    assert forall|x: Location|
                        (exists|j2: int|
                            0 <= j2 < j + 1 && (#[trigger] self.facts@[j2]).kind is Exact
                                && self.facts@[j2].count == self.facts@[j2].proximity@.len()
                                && self.facts@[j2].proximity@.contains(x)) implies out@.contains(
                        x,
                    ) by {
                        let j2 = choose|j2: int|
                            0 <= j2 < j + 1 && (#[trigger] self.facts@[j2]).kind is Exact
                                && self.facts@[j2].count == self.facts@[j2].proximity@.len()
                                && self.facts@[j2].proximity@.contains(x);
                        if j2 == j {
                            let k2 = choose|k2: int|
                                0 <= k2 < m && self.facts@[j as int].proximity.seq()[k2] == x;
                        }
                    }
                }
            }
            j = j + 1;
        }
        proof {
            assert(out@ =~= spec_mine_locs(self.facts@));
        }
        out
    }

    /// Solves a board: seeds, saturates, re-seeds the universal fact when
    /// the endgame can need it, saturates again, and returns the provably
    /// safe and the provably mined cells.  The outputs are exactly the
    /// extractions from a repository that carries every revealed cell's
    /// seeded constraint and is closed under all six rules; and when every
    /// mine of the board is still hidden, the first set holds no mine and
    /// the second set holds only mines.
    pub fn solve(mf: &Minefield<G>) -> (r: (LocationSet, LocationSet))
        requires
            mf@.inv(),
            mf@.dims_match(),
        ensures
            r.0.wf(),
            r.1.wf(),
            mines_all_hidden(mf@) ==> ((forall|l: Location|
                r.0@.contains(l) ==> !(mine_at_pred(mf@.ground)(l))) && (forall|l: Location|
                r.1@.contains(l) ==> mine_at_pred(mf@.ground)(l))),
            exists|fs: Seq<Fact>|
                {
                    &&& #[trigger] spec_seeded_facts_present(mf@, fs)
                    &&& (fs.len() < usize::MAX ==> spec_rules_saturated(fs))
                    &&& r.0@ == spec_safe_locs(fs)
                    &&& r.1@ == spec_mine_locs(fs)
                },
    {
        let mut solver = Solver::new(mf);
        solver.seed();
        let ghost after_seed = solver.facts@;
        solver.run();
        proof {
            lemma_has_fact_extends(after_seed, solver.facts@);
            lemma_seeded_present_extends(mf@, after_seed, solver.facts@);
        }
        let found = solver.guaranteed_mines();
        let found_len = found.len();
        let mc = mf.mine_count();
        let remaining_mines = if mc >= found_len {
            mc - found_len
        } else {
            0
        };
        if mf.unobserved_count() <= remaining_mines {
            // endgame bridge: the remaining board must account for every
            // mine, so the universal fact can re-trigger the combinators
            let ghost before_universal = solver.facts@;
            solver.seed_universal_fact();
            proof {
                lemma_has_fact_extends(before_universal, solver.facts@);
                lemma_seeded_present_extends(mf@, before_universal, solver.facts@);
            }
            let ghost before_second = solver.facts@;
            solver.run();
            proof {
                lemma_has_fact_extends(before_second, solver.facts@);
                lemma_seeded_present_extends(mf@, before_second, solver.facts@);
            }
        }
        let safe_locations = solver.guaranteed_safe_locations();
        let mines = solver.guaranteed_mines();
        proof {
            if mines_all_hidden(mf@) {
                assert(forall|j: int|
                    0 <= j < solver.facts@.len() ==> (#[trigger] solver.facts@[j]).proximity.wf());
                lemma_outputs_sound(solver.facts@, mf@.ground);
            }
            let fs = solver.facts@;
            assert(spec_seeded_facts_present(mf@, fs) && (fs.len() < usize::MAX
                ==> spec_rules_saturated(fs)) && safe_locations@ == spec_safe_locs(fs) && mines@
                == spec_mine_locs(fs));
        }
        (safe_locations, mines)
    }
}

/// The decimal digit character for a value below ten.
pub open spec fn spec_digit(d: nat) -> char {
    if d == 0 {
        '0'
    } else if d == 1 {
        '1'
    } else if d == 2 {
        '2'
    } else if d == 3 {
        '3'
    } else if d == 4 {
        '4'
    } else if d == 5 {
        '5'
    } else if d == 6 {
        '6'
    } else if d == 7 {
        '7'
    } else if d == 8 {
        '8'
    } else {
        '9'
    }
}

/// The decimal rendering of a number, most significant digit first.
pub open spec fn spec_dec(n: nat) -> Seq<char>
    decreases n,
{
    if n < 10 {
        seq![spec_digit(n)]
    } else {
        spec_dec(n / 10) + seq![spec_digit(n % 10)]
    }
}

/// The rendering of one coordinate: its number, or `NaN` when invalid.
pub open spec fn spec_bounded_str(b: crate::location::Bounded) -> Seq<char> {
    match b {
        crate::location::Bounded::Invalid => seq!['N', 'a', 'N'],
        crate::location::Bounded::Valid(v) => spec_dec(v as nat),
    }
}

/// The rendering of a location: `(x,y)`.
pub open spec fn spec_loc_str(l: Location) -> Seq<char> {
    seq!['('] + spec_bounded_str(l.x) + seq![','] + spec_bounded_str(l.y) + seq![')']
}

/// The rendering of a constraint kind.
pub open spec fn spec_kind_str(k: Constraint) -> Seq<char> {
    match k {
        Constraint::Min => seq!['M', 'i', 'n'],
        Constraint::Exact => seq!['E', 'x', 'a', 'c', 't'],
        Constraint::Max => seq!['M', 'a', 'x'],
    }
}

/// The rendering of a proximity: its locations, comma-separated.
pub open spec fn spec_prox_str(s: Seq<Location>) -> Seq<char>
    decreases s.len(),
{
    if s.len() == 0 {
        Seq::empty()
    } else if s.len() == 1 {
        spec_loc_str(s[0])
    } else {
        spec_prox_str(s.drop_last()) + seq![','] + spec_loc_str(s.last())
    }
}

/// The CSV line of a fact: base location, rule, iteration, kind, count and
/// proximity, semicolon-separated.
pub open spec fn spec_fact_csv(f: Fact) -> Seq<char> {
    let base = match f.debug.base_location {
        Some(l) => l,
        None => Location {
            x: crate::location::Bounded::Invalid,
            y: crate::location::Bounded::Invalid,
        },
    };
    spec_loc_str(base) + seq![';'] + f.debug.produced_by@ + seq![';'] + spec_dec(
        f.iteration as nat,
    ) + seq![';'] + spec_kind_str(f.kind) + seq![';'] + spec_dec(f.count as nat) + seq![';']
        + spec_prox_str(f.proximity.seq())
}

/// One decimal digit as text.
fn digit_str(d: usize) -> (r: &'static str)
    requires
        d < 10,
    ensures
        r@ == seq![spec_digit(d as nat)],
{
    let r = match d {
        0 => "0",
        1 => "1",
        2 => "2",
        3 => "3",
        4 => "4",
        5 => "5",
        6 => "6",
        7 => "7",
        8 => "8",
        _ => "9",
    };
    proof {
        reveal_strlit("0");
        reveal_strlit("1");
        reveal_strlit("2");
        reveal_strlit("3");
        reveal_strlit("4");
        reveal_strlit("5");
        reveal_strlit("6");
        reveal_strlit("7");
        reveal_strlit("8");
        reveal_strlit("9");
        assert(r@ =~= seq![spec_digit(d as nat)]);
    }
    r
}

/// Appends the decimal rendering of `n`.
fn push_decimal(out: &mut String, n: usize)
    ensures
        final(out)@ == old(out)@ + spec_dec(n as nat),
    decreases n,
{
    if n < 10 {
        out.append(digit_str(n));
    } else {
        push_decimal(out, n / 10);
        out.append(digit_str(n % 10));
        proof {
            assert((old(out)@ + spec_dec((n / 10) as nat)) + seq![spec_digit((n % 10) as nat)]
                =~= old(out)@ + (spec_dec((n / 10) as nat) + seq![spec_digit((n % 10) as nat)]));
        }
    }
}

/// Appends one coordinate.
fn push_bounded(out: &mut String, b: crate::location::Bounded)
    ensures
        final(out)@ == old(out)@ + spec_bounded_str(b),
{
    match b {
        crate::location::Bounded::Invalid => {
            out.append("NaN");
            proof {
                reveal_strlit("NaN");
                assert(("NaN")@ =~= seq!['N', 'a', 'N']);
            }
        },
        crate::location::Bounded::Valid(v) => {
            push_decimal(out, v);
        },
    }
}

/// Appends a location as `(x,y)`.
fn push_location(out: &mut String, l: Location)
    ensures
        final(out)@ == old(out)@ + spec_loc_str(l),
{
    proof {
        reveal_strlit("(");
        reveal_strlit(",");
        reveal_strlit(")");
        assert(("(")@ =~= seq!['(']);
        assert((",")@ =~= seq![',']);
        assert((")")@ =~= seq![')']);
    }
    out.append("(");
    push_bounded(out, l.x);
    out.append(",");
    push_bounded(out, l.y);
    out.append(")");
    proof {
        assert(final(out)@ =~= old(out)@ + spec_loc_str(l));
    }
}

impl Fact {
    /// The fact as one semicolon-separated CSV line: base location,
    /// producing rule, iteration, kind, count, and the comma-separated
    /// proximity.
    pub fn serialize(&self) -> (r: String)
        requires
            self.proximity.wf(),
        ensures
            r@ == spec_fact_csv(*self),
    {
        proof {
            reveal_strlit(";");
            assert((";")@ =~= seq![';']);
        }
        let mut out = String::new();
        let base = match self.debug.base_location {
            Some(l) => l,
            None => Location::invalid(),
        };
        push_location(&mut out, base);
        out.append(";");
        out.append(self.debug.produced_by);
        out.append(";");
        push_decimal(&mut out, self.iteration);
        out.append(";");
        match self.kind {
            Constraint::Min => {
                out.append("Min");
                proof {
                    reveal_strlit("Min");
                    assert(("Min")@ =~= seq!['M', 'i', 'n']);
                }
            },
            Constraint::Exact => {
                out.append("Exact");
                proof {
                    reveal_strlit("Exact");
                    assert(("Exact")@ =~= seq!['E', 'x', 'a', 'c', 't']);
                }
            },
            Constraint::Max => {
                out.append("Max");
                proof {
                    reveal_strlit("Max");
                    assert(("Max")@ =~= seq!['M', 'a', 'x']);
                }
            },
        }
        out.append(";");
        push_decimal(&mut out, self.count);
        out.append(";");
        let ghost head = out@;
        let m = self.proximity.len();
        let mut k: usize = 0;
        while k < m
            invariant
                k <= m,
                m == self.proximity.seq().len(),
                self.proximity.wf(),
                out@ == head + spec_prox_str(self.proximity.seq().take(k as int)),
            decreases m - k,
        {
            if k > 0 {
                out.append(",");
                proof {
                    reveal_strlit(",");
                    assert((",")@ =~= seq![',']);
                }
            }
            let l = self.proximity.get(k);
            push_location(&mut out, l);
            proof {
                let t = self.proximity.seq();
                assert(t.take(k as int + 1).drop_last() =~= t.take(k as int));
                assert(t.take(k as int + 1).last() == t[k as int]);
                if k == 0 {
                    assert(spec_prox_str(t.take(0)) =~= Seq::<char>::empty());
                    assert(head + Seq::<char>::empty() =~= head);
                    assert(out@ =~= head + spec_prox_str(t.take(1)));
                } else {
                    assert(out@ =~= head + spec_prox_str(t.take(k as int + 1)));
                }
            }
            k = k + 1;
        }
        proof {
            let t = self.proximity.seq();
            assert(t.take(m as int) =~= t);
            if m == 0 {
                assert(head + spec_prox_str(t.take(0)) =~= head);
            }
            assert(out@ =~= spec_fact_csv(*self));
        }
        out
    }
}

} // verus!
