//! Mine placement.  [`ImprovedGenerator`] samples mine positions from the
//! grid minus a nine-cell safe region around the first click and maps them
//! through a monotone skip function, so that the first reveal always opens a
//! mine-free neighbourhood.  [`DummyGenerator`] backs boards that are loaded
//! already initialized and must never generate.

use vstd::prelude::*;

use crate::area::Area;
use crate::counting::{
    count_where, lemma_count_implies, lemma_count_le_len, lemma_count_prefix, lemma_count_update,
};
use crate::location::{lemma_from_index_to_index, spec_neighbours, spec_to_index, Location};
use crate::mine_field::{is_mine_pred, spec_mine_count, GroundKind, MinefieldGenerator, Parameters};

verus! {

/// Declares rand::rngs::ThreadRng: the opaque handle the sampler draws
/// from.
#[verifier::external_type_specification]
#[verifier::external_body]
pub struct ExThreadRng(rand::rngs::ThreadRng);

/// Relies on rand::thread_rng: a handle to the thread-local random number
/// generator.  Nothing is promised about the values it will produce.
#[verifier::external_body]
fn thread_rng_handle() -> rand::rngs::ThreadRng {
    rand::thread_rng()
}

/// Relies on rand::seq::index::sample: it draws exactly `amount` distinct
/// indices from `0..length` (and panics only when `amount > length`, which
/// the precondition rules out).  Which indices come back is random, so only
/// their number, range and distinctness are stated.
#[verifier::external_body]
fn sample_indices(rng: &mut rand::rngs::ThreadRng, length: usize, amount: usize) -> (r: Vec<usize>)
    requires
        amount <= length,
    ensures
        r@.len() == amount,
        forall|i: int| 0 <= i < r@.len() ==> r@[i] < length,
        forall|i: int, j: int| 0 <= i < j < r@.len() ==> r@[i] != r@[j],
{
    rand::seq::index::sample(rng, length, amount).into_vec()
}

/// A strictly ascending sequence of indices.
pub open spec fn sorted_strict(s: Seq<usize>) -> bool {
    forall|i: int, j: int| 0 <= i < j < s.len() ==> s[i] < s[j]
}

/// Holds of the indices at or below `v`.
pub open spec fn le_pred(v: int) -> spec_fn(usize) -> bool {
    |p: usize| p <= v
}

/// The sequence holds `x` somewhere.
pub open spec fn contains_index(s: Seq<usize>, x: int) -> bool {
    exists|i: int| 0 <= i < s.len() && s[i] == x
}

/// `v` is the flat index of the safe cell or of one of its eight
/// neighbours.
pub open spec fn is_safe_index(not_a_mine: Location, width: int, v: int) -> bool {
    ||| spec_to_index(not_a_mine, width) == Some(v)
    ||| exists|k: int|
        0 <= k < 8 && spec_to_index(#[trigger] spec_neighbours(not_a_mine)[k], width) == Some(v)
}

/// Inserts `v` into a strictly ascending sequence, keeping it one and
/// keeping every element it already had.
fn insert_sorted_dedup(out: &mut Vec<usize>, v: usize)
    requires
        sorted_strict(old(out)@),
    ensures
        sorted_strict(final(out)@),
        final(out)@.len() <= old(out)@.len() + 1,
        contains_index(final(out)@, v as int),
        forall|x: int| contains_index(old(out)@, x) ==> contains_index(final(out)@, x),
        forall|x: int|
            contains_index(final(out)@, x) ==> contains_index(old(out)@, x) || x == v,
{
    let mut p: usize = 0;
    while p < out.len() && *out.get(p).unwrap() < v
        invariant
            p <= out@.len(),
            forall|k: int| 0 <= k < p ==> out@[k] < v,
        decreases out@.len() - p,
    {
        p = p + 1;
    }
    if p < out.len() && *out.get(p).unwrap() == v {
        assert(contains_index(out@, v as int));
        return ;
    }
    let ghost old_seq = out@;
    proof {
        assert(p < old_seq.len() ==> old_seq[p as int] > v);
        assert(forall|k: int| p < k < old_seq.len() ==> old_seq[k] > old_seq[p as int]);
    }
    out.insert(p, v);
    proof {
        assert(forall|k: int| 0 <= k < p ==> out@[k] == old_seq[k]);
        assert(forall|k: int| p < k < out@.len() ==> out@[k] == old_seq[k - 1]);
        assert(out@[p as int] == v);
        assert(forall|k: int| p < k < out@.len() ==> out@[k] > v);
        assert(contains_index(out@, v as int));
        assert forall|x: int| contains_index(old_seq, x) implies contains_index(out@, x) by {
            let i = choose|i: int| 0 <= i < old_seq.len() && old_seq[i] == x;
            if i < p {
                assert(out@[i] == x);
            } else {
                assert(out@[i + 1] == x);
            }
        }
        assert forall|x: int|
            contains_index(out@, x) implies contains_index(old_seq, x) || x == v by {
            let i = choose|i: int| 0 <= i < out@.len() && out@[i] == x;
            if i < p {
                assert(old_seq[i] == x);
            } else if i > p {
                assert(old_seq[i - 1] == x);
            }
        }
    }
}

/// A generator that samples outside a fixed nine-cell safe region: the
/// first-clicked cell and its eight neighbours can never hold a mine.
pub struct ImprovedGenerator;

impl ImprovedGenerator {
    /// The table behind the skip function: the sorted flat indices of the
    /// safe cell and its in-grid neighbours.  At most nine entries, and
    /// every safe index is among them.
    pub fn build_safe_location_skipper(not_a_mine: Location, width: usize) -> (r: Vec<usize>)
        ensures
            sorted_strict(r@),
            r@.len() <= 9,
            forall|v: int| is_safe_index(not_a_mine, width as int, v) ==> contains_index(r@, v),
            forall|i: int|
                #![trigger r@[i]]
                0 <= i < r@.len() ==> is_safe_index(not_a_mine, width as int, r@[i] as int),
    {
        let mut candidates: Vec<Location> = Vec::new();
        candidates.push(not_a_mine);
        let mut around = not_a_mine.neighbours();
        candidates.append(&mut around);
        let mut out: Vec<usize> = Vec::new();
        let mut c: usize = 0;
        while c < candidates.len()
            invariant
                c <= candidates@.len(),
                candidates@.len() == 9,
                candidates@[0] == not_a_mine,
                forall|k: int| 0 <= k < 8 ==> candidates@[k + 1] == spec_neighbours(not_a_mine)[k],
                sorted_strict(out@),
                out@.len() <= c,
                forall|j: int|
                    0 <= j < c ==> (spec_to_index(#[trigger] candidates@[j], width as int) matches
                        Some(v) ==> contains_index(out@, v)),
                forall|i: int|
                    #![trigger out@[i]]
                    0 <= i < out@.len() ==> exists|j: int|
                        0 <= j < c && spec_to_index(#[trigger] candidates@[j], width as int)
                            == Some(out@[i] as int),
            decreases candidates@.len() - c,
        {
            let cand = *candidates.get(c).unwrap();
            let ghost before = out@;
            match cand.to_index(width) {
                Some(idx) => {
                    insert_sorted_dedup(&mut out, idx);
                },
                None => {},
            }
            proof {
                assert forall|i: int| #![trigger out@[i]]
                    0 <= i < out@.len() implies exists|j: int|
                    0 <= j < c + 1 && spec_to_index(#[trigger] candidates@[j], width as int)
                        == Some(out@[i] as int) by {
                    if contains_index(before, out@[i] as int) {
                        let k = choose|k: int|
                            0 <= k < before.len() && before[k] == out@[i] as int;
                        let j = choose|j: int|
                            0 <= j < c && spec_to_index(#[trigger] candidates@[j], width as int)
                                == Some(before[k] as int);
                        assert(spec_to_index(candidates@[j], width as int) == Some(
                            out@[i] as int,
                        ));
                    } else {
                        assert(spec_to_index(candidates@[c as int], width as int) == Some(
                            out@[i] as int,
                        ));
                    }
                }
            }
            c = c + 1;
        }
        proof {
            assert forall|i: int| #![trigger out@[i]]
                0 <= i < out@.len() implies is_safe_index(
                not_a_mine,
                width as int,
                out@[i] as int,
            ) by {
                let j = choose|j: int|
                    0 <= j < 9 && spec_to_index(#[trigger] candidates@[j], width as int) == Some(
                        out@[i] as int,
                    );
                if j == 0 {
                } else {
                    assert(candidates@[j] == spec_neighbours(not_a_mine)[j - 1]);
                    assert(spec_to_index(spec_neighbours(not_a_mine)[j - 1], width as int) == Some(
                        out@[i] as int,
                    ));
                }
            }
            assert forall|v: int| is_safe_index(not_a_mine, width as int, v) implies contains_index(
                out@,
                v,
            ) by {
                if spec_to_index(not_a_mine, width as int) == Some(v) {
                    assert(spec_to_index(candidates@[0], width as int) == Some(v));
                } else {
                    let k = choose|k: int|
                        0 <= k < 8 && spec_to_index(
                            #[trigger] spec_neighbours(not_a_mine)[k],
                            width as int,
                        ) == Some(v);
                    assert(spec_to_index(candidates@[k + 1], width as int) == Some(v));
                }
            }
        }
        out
    }

    /// Maps a sample index to a board index, skipping the safe indices.
    /// The fixpoint equation in the contract pins the result: it is the
    /// unique non-safe index preceded by exactly `index` non-safe indices.
    pub fn skip_safe(safe: &Vec<usize>, index: usize) -> (r: usize)
        requires
            sorted_strict(safe@),
            index + safe@.len() <= usize::MAX,
        ensures
            r == index + count_where(safe@, le_pred(r as int)),
            forall|i: int| 0 <= i < safe@.len() ==> safe@[i] != r,
            index <= r <= index + safe@.len(),
    {
        let mut adjusted_index: usize = index;
        let ghost mut prev: int = -1;
        proof {
            lemma_count_le_len(safe@, le_pred(index as int));
        }
        loop
            invariant
                sorted_strict(safe@),
                index + safe@.len() <= usize::MAX,
                index <= adjusted_index,
                adjusted_index <= index + count_where(safe@, le_pred(adjusted_index as int)),
                count_where(safe@, le_pred(adjusted_index as int)) <= safe@.len(),
                adjusted_index == index || (0 <= prev < adjusted_index && adjusted_index == index
                    + count_where(safe@, le_pred(prev))),
            ensures
                adjusted_index == index + count_where(safe@, le_pred(adjusted_index as int)),
                index <= adjusted_index,
                adjusted_index == index || (0 <= prev < adjusted_index && adjusted_index == index
                    + count_where(safe@, le_pred(prev))),
            decreases index + safe@.len() - adjusted_index,
        {
            // count the safe indices at or below the current candidate
            let mut j: usize = 0;
            while j < safe.len() && *safe.get(j).unwrap() <= adjusted_index
                invariant
                    j <= safe@.len(),
                    forall|k: int| 0 <= k < j ==> safe@[k] <= adjusted_index,
                decreases safe@.len() - j,
            {
                j = j + 1;
            }
            proof {
                assert(forall|k: int| j <= k < safe@.len() ==> safe@[k] > adjusted_index);
                lemma_count_prefix(safe@, le_pred(adjusted_index as int), j as int);
            }
            if index + j == adjusted_index {
                break ;
            }
            let next = index + j;
            proof {
                lemma_count_implies(safe@, le_pred(adjusted_index as int), le_pred(next as int));
                lemma_count_le_len(safe@, le_pred(next as int));
                prev = adjusted_index as int;
            }
            adjusted_index = next;
        }
        proof {
            let r = adjusted_index as int;
            if exists|i: int| 0 <= i < safe@.len() && safe@[i] == adjusted_index {
                // the fixpoint cannot sit on a safe index: counting through it
                // would overshoot the count reached just below it
                let i = choose|i: int| 0 <= i < safe@.len() && safe@[i] == adjusted_index;
                lemma_count_prefix(safe@, le_pred(r), i + 1);
                assert(0 <= prev < adjusted_index && adjusted_index == index + count_where(
                    safe@,
                    le_pred(prev),
                ));
                lemma_count_prefix(safe@, le_pred(r - 1), i);
                lemma_count_implies(safe@, le_pred(prev), le_pred(r - 1));
                assert(false);
            }
            lemma_count_le_len(safe@, le_pred(r));
        }
        adjusted_index
    }
}

impl MinefieldGenerator for ImprovedGenerator {
    /// The grid must fit in memory and leave room for the mines plus the
    /// nine-cell safe region.
    open spec fn accepts(&self, width: int, height: int, mine_count: int) -> bool {
        &&& mine_count + 9 <= width * height
        &&& width * height <= usize::MAX
    }

    fn generate(&mut self, params: Parameters, not_a_mine: Location) -> (r: Area<GroundKind>) {
        let width = params.width;
        let height = params.height;
        let mine_count = params.mine_count;
        let total: usize = width * height;
        let sample_len: usize = total - 9;
        let mut a: Area<GroundKind> = Area::filled(width, height, GroundKind::Dirt);
        proof {
            lemma_count_prefix(a@.cells, is_mine_pred(), 0);
            assert(width >= 1) by (nonlinear_arith)
                requires
                    width * height >= 9,
                    width >= 0,
                    height >= 0,
            ;
        }
        let mut rng = thread_rng_handle();
        let result = sample_indices(&mut rng, sample_len, mine_count);
        let safe = Self::build_safe_location_skipper(not_a_mine, width);
        let ghost mut adjs: Seq<int> = Seq::empty();
        let mut k: usize = 0;
        while k < result.len()
            invariant
                result@.len() == mine_count,
                forall|i: int| 0 <= i < result@.len() ==> result@[i] < sample_len,
                forall|i: int, j: int| 0 <= i < j < result@.len() ==> result@[i] != result@[j],
                sorted_strict(safe@),
                safe@.len() <= 9,
                sample_len == total - 9,
                total == width * height,
                total >= 9,
                width >= 1,
                forall|v: int|
                    is_safe_index(not_a_mine, width as int, v) ==> contains_index(safe@, v),
                a@.wf(),
                a@.width == width,
                a@.height == height,
                k <= result@.len(),
                adjs.len() == k,
                forall|j: int| 0 <= j < k ==> 0 <= #[trigger] adjs[j] < total,
                forall|j: int|
                    0 <= j < k ==> #[trigger] adjs[j] == result@[j] + count_where(
                        safe@,
                        le_pred(adjs[j]),
                    ),
                forall|j: int| 0 <= j < k ==> !contains_index(safe@, #[trigger] adjs[j]),
                forall|i: int|
                    0 <= i < a@.cells.len() ==> (a@.cells[i] is Mine <==> exists|j: int|
                        0 <= j < k && adjs[j] == i),
                spec_mine_count(a@.cells) == k,
            decreases result@.len() - k,
        {
            let index = *result.get(k).unwrap();
            let adjusted_index = Self::skip_safe(&safe, index);
            let mine_location = Location::from_index(adjusted_index, width);
            let ghost before = a@.cells;
            proof {
                lemma_from_index_to_index(adjusted_index as int, width as int, height as int);
                // the target cell is still dirt: an earlier mine at the same
                // index would force an earlier equal sample index
                if before[adjusted_index as int] is Mine {
                    let j = choose|j: int| 0 <= j < k && adjs[j] == adjusted_index as int;
                    assert(result@[j] == result@[k as int]);
                    assert(false);
                }
                lemma_count_update(before, is_mine_pred(), adjusted_index as int, GroundKind::Mine);
            }
            a.set(mine_location, GroundKind::Mine);
            proof {
                let old_adjs = adjs;
                adjs = adjs.push(adjusted_index as int);
                assert(adjs[k as int] == adjusted_index as int);
                assert(forall|j: int| 0 <= j < k ==> adjs[j] == old_adjs[j]);
                assert(!contains_index(safe@, adjusted_index as int));
                assert forall|i: int|
                    0 <= i < a@.cells.len() implies (a@.cells[i] is Mine <==> exists|j: int|
                    0 <= j < k + 1 && adjs[j] == i) by {
                    if a@.cells[i] is Mine {
                        if i == adjusted_index as int {
                            assert(adjs[k as int] == i);
                        } else {
                            assert(before[i] is Mine);
                            let j = choose|j: int| 0 <= j < k && old_adjs[j] == i;
                            assert(adjs[j] == i);
                        }
                    } else {
                        assert forall|j: int| 0 <= j < k + 1 implies adjs[j] != i by {
                            if adjs[j] == i {
                                if j == k {
                                    assert(a@.cells[i] is Mine);
                                } else {
                                    assert(before[i] is Mine);
                                    assert(a@.cells[i] is Mine);
                                }
                            }
                        }
                    }
                }
            }
            k = k + 1;
        }
        proof {
            assert forall|i: int|
                0 <= i < a@.cells.len() && is_safe_index(
                    not_a_mine,
                    width as int,
                    i,
                ) implies a@.cells[i] is Dirt by {
                if a@.cells[i] is Mine {
                    let j = choose|j: int| 0 <= j < adjs.len() && adjs[j] == i;
                    assert(contains_index(safe@, adjs[j]));
                }
            }
        }
        a
    }
}

/// Mine placement by plain rejection sampling: one attempt draws mines
/// over the whole grid and reports whether the safe region came out clear.
/// Retrying until it does terminates only with probability one, so the
/// retry loop is the caller's; each attempt is verified here.
pub struct SimpleGenerator;

impl SimpleGenerator {
    /// One sampling attempt: places exactly `mine_count` mines uniformly
    /// over the whole grid, then accepts the result only if the
    /// first-clicked cell and its in-grid neighbours are all dirt.
    pub fn try_generate(params: Parameters, not_a_mine: Location) -> (r: Option<Area<GroundKind>>)
        requires
            params.mine_count <= params.width * params.height,
            params.width * params.height <= usize::MAX,
        ensures
            r matches Some(a) ==> {
                &&& a@.wf()
                &&& a@.width == params.width
                &&& a@.height == params.height
                &&& spec_mine_count(a@.cells) == params.mine_count
                &&& (a@.get(not_a_mine) matches Some(g) ==> g is Dirt)
                &&& forall|k: int|
                    0 <= k < 8 ==> (a@.get(#[trigger] spec_neighbours(not_a_mine)[k]) matches Some(
                        g,
                    ) ==> g is Dirt)
            },
    {
        let width = params.width;
        let height = params.height;
        let mine_count = params.mine_count;
        let total: usize = width * height;
        let mut a: Area<GroundKind> = Area::filled(width, height, GroundKind::Dirt);
        proof {
            lemma_count_prefix(a@.cells, is_mine_pred(), 0);
        }
        let mut rng = thread_rng_handle();
        let result = sample_indices(&mut rng, total, mine_count);
        let mut k: usize = 0;
        while k < result.len()
            invariant
                result@.len() == mine_count,
                forall|i: int| 0 <= i < result@.len() ==> result@[i] < total,
                forall|i: int, j: int| 0 <= i < j < result@.len() ==> result@[i] != result@[j],
                total == width * height,
                a@.wf(),
                a@.width == width,
                a@.height == height,
                k <= result@.len(),
                forall|i: int|
                    0 <= i < a@.cells.len() ==> (a@.cells[i] is Mine <==> exists|j: int|
                        0 <= j < k && result@[j] == i),
                spec_mine_count(a@.cells) == k,
            decreases result@.len() - k,
        {
            let index = *result.get(k).unwrap();
            proof {
                assert(width >= 1) by (nonlinear_arith)
                    requires
                        width * height > index >= 0,
                        width >= 0,
                        height >= 0,
                ;
            }
            let mine_location = Location::from_index(index, width);
            let ghost before = a@.cells;
            proof {
                lemma_from_index_to_index(index as int, width as int, height as int);
                if before[index as int] is Mine {
                    let j = choose|j: int| 0 <= j < k && result@[j] == index as int;
                    assert(result@[j] == result@[k as int]);
                    assert(false);
                }
                lemma_count_update(before, is_mine_pred(), index as int, GroundKind::Mine);
            }
            a.set(mine_location, GroundKind::Mine);
            proof {
                assert forall|i: int|
                    0 <= i < a@.cells.len() implies (a@.cells[i] is Mine <==> exists|j: int|
                    0 <= j < k + 1 && result@[j] == i) by {
                    if a@.cells[i] is Mine {
                        if i == index as int {
                            assert(result@[k as int] == i);
                        } else {
                            assert(before[i] is Mine);
                            let j = choose|j: int| 0 <= j < k && result@[j] == i;
                            assert(0 <= j < k + 1 && result@[j] == i);
                        }
                    } else {
                        assert forall|j: int| 0 <= j < k + 1 implies result@[j] != i by {
                            if result@[j] == i {
                                if j == k {
                                    assert(a@.cells[i] is Mine);
                                } else {
                                    assert(before[i] is Mine);
                                    assert(a@.cells[i] is Mine);
                                }
                            }
                        }
                    }
                }
            }
            k = k + 1;
        }
        // accept only a placement that leaves the safe region clear
        let centre_clear = match a.get(not_a_mine) {
            Some(g) => g.is_dirt(),
            None => true,
        };
        if !centre_clear {
            return None;
        }
        let around = not_a_mine.neighbours();
        let mut n: usize = 0;
        while n < 8
            invariant
                n <= 8,
                around@ == spec_neighbours(not_a_mine),
                a@.wf(),
                a@.width == width,
                a@.height == height,
                spec_mine_count(a@.cells) == mine_count,
                a@.get(not_a_mine) matches Some(g) ==> g is Dirt,
                forall|k2: int|
                    0 <= k2 < n ==> (a@.get(#[trigger] spec_neighbours(not_a_mine)[k2]) matches
                        Some(g) ==> g is Dirt),
            decreases 8 - n,
        {
            let clear = match a.get(*around.get(n).unwrap()) {
                Some(g) => g.is_dirt(),
                None => true,
            };
            if !clear {
                return None;
            }
            n = n + 1;
        }
        Some(a)
    }
}

/// Stands in for the generator of a board that was loaded already
/// initialized; it accepts no request and can never be asked to generate.
pub struct DummyGenerator;

impl MinefieldGenerator for DummyGenerator {
    open spec fn accepts(&self, width: int, height: int, mine_count: int) -> bool {
        false
    }

    fn generate(&mut self, params: Parameters, not_a_mine: Location) -> (r: Area<GroundKind>) {
        vstd::pervasive::unreached()
    }
}

} // verus!
