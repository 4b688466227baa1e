//! The minefield: a hidden ground layer, a player-visible fog layer, and the
//! state machine that applies player commands to them.

use vstd::prelude::*;

use crate::area::{lemma_get_in_grid, lemma_set_frame, lemma_set_get, Area, AreaView};
use crate::command::{Action, PendingCommand};
use crate::counting::{
    count_where, lemma_count_le_len, lemma_count_take_all, lemma_count_take_succ,
    lemma_count_update,
};
use crate::game_state::{spec_update, GameState, GameStateView};
use vstd::string::StrSliceExecFns;
use crate::location::{
    lemma_from_index_to_index, lemma_to_from_index, loc_in_grid, spec_from_index, spec_neighbours,
    spec_to_index, Location,
};

verus! {

/// The hidden truth of one cell.
#[derive(Clone, Copy, Debug, PartialEq, Eq, Hash, Structural)]
pub enum GroundKind {
    Mine,
    Dirt,
}

impl GroundKind {
    /// Returns `true` if the ground kind is [`GroundKind::Dirt`].
    pub fn is_dirt(&self) -> (r: bool)
        ensures
            r == (*self is Dirt),
    {
        matches!(self, Self::Dirt)
    }

    /// Returns `true` if the ground kind is [`GroundKind::Mine`].
    pub fn is_mine(&self) -> (r: bool)
        ensures
            r == (*self is Mine),
    {
        matches!(self, Self::Mine)
    }
}

impl Default for GroundKind {
    fn default() -> (r: Self)
        ensures
            r == GroundKind::Dirt,
    {
        Self::Dirt
    }
}

/// The player-visible layer of one cell.
#[derive(Clone, Copy, Debug, PartialEq, Eq, Hash, Structural)]
pub enum State {
    Hidden,
    Marked,
    Revealed { adj_mines: usize },
    Exploded,
}

impl State {
    /// Returns `true` if the state is [`State::Exploded`].
    pub fn is_exploded(&self) -> (r: bool)
        ensures
            r == (*self is Exploded),
    {
        matches!(self, Self::Exploded)
    }

    /// Returns `true` if the state is [`State::Revealed`].
    pub fn is_revealed(&self) -> (r: bool)
        ensures
            r == (*self is Revealed),
    {
        matches!(self, Self::Revealed { .. })
    }

    /// Returns `true` if the state is [`State::Hidden`].
    pub fn is_hidden(&self) -> (r: bool)
        ensures
            r == (*self is Hidden),
    {
        matches!(self, Self::Hidden)
    }

    /// Returns `true` if the state is [`State::Marked`].
    pub fn is_marked(&self) -> (r: bool)
        ensures
            r == (*self is Marked),
    {
        matches!(self, Self::Marked)
    }

    /// The adjacent-mine count of a revealed cell.
    pub fn as_revealed(&self) -> (r: Option<usize>)
        ensures
            *self matches State::Revealed { adj_mines } ==> r == Some(adj_mines),
            !(*self is Revealed) ==> r is None,
    {
        if let Self::Revealed { adj_mines } = self {
            Some(*adj_mines)
        } else {
            None
        }
    }
}

impl Default for State {
    fn default() -> (r: Self)
        ensures
            r == State::Hidden,
    {
        Self::Hidden
    }
}

/// Every fog cell is still hidden.
pub open spec fn spec_all_hidden(fog: Seq<State>) -> bool {
    forall|i: int| 0 <= i < fog.len() ==> fog[i] is Hidden
}

/// Some fog cell is exploded: the game is lost.
pub open spec fn spec_lost(fog: Seq<State>) -> bool {
    exists|i: int| 0 <= i < fog.len() && fog[i] is Exploded
}

/// One cell satisfies the winning condition: revealed, exclusive-or a marked
/// mine.
pub open spec fn spec_cell_done(s: State, g: GroundKind) -> bool {
    (s is Revealed) != (g is Mine && s is Marked)
}

/// Every cell satisfies the winning condition: every dirt cell is revealed
/// and every mine is marked.
pub open spec fn spec_won(fog: Seq<State>, ground: Seq<GroundKind>) -> bool
    recommends
        fog.len() == ground.len(),
{
    forall|i: int| 0 <= i < fog.len() ==> spec_cell_done(fog[i], #[trigger] ground[i])
}

/// Holds of a location whose cell on `ground` is a mine.
pub open spec fn mine_at_pred(ground: AreaView<GroundKind>) -> spec_fn(Location) -> bool {
    |n: Location| ground.get(n) matches Some(g) && g is Mine
}

/// How many of `l`'s eight Moore neighbours hold a mine.
pub open spec fn spec_adj_mines(ground: AreaView<GroundKind>, l: Location) -> nat {
    count_where(spec_neighbours(l), mine_at_pred(ground))
}

/// Holds of a mine cell.
pub open spec fn is_mine_pred() -> spec_fn(GroundKind) -> bool {
    |g: GroundKind| g is Mine
}

/// The number of mines on the ground.
pub open spec fn spec_mine_count(ground: Seq<GroundKind>) -> nat {
    count_where(ground, is_mine_pred())
}

/// The geometry and mine budget a generator is asked for.
#[derive(Clone, Copy, Debug, PartialEq, Eq, Structural)]
pub struct Parameters {
    pub width: usize,
    pub height: usize,
    pub mine_count: usize,
}

impl Parameters {
    /// Bundles a generation request.
    pub fn new(width: usize, height: usize, mine_count: usize) -> (r: Self)
        ensures
            r == (Parameters { width, height, mine_count }),
    {
        Self { width, height, mine_count }
    }
}

/// What `Minefield::execute` reports: a rejected command, or an applied one
/// together with whether the game state changed.
pub enum ExecutionResult {
    Failed,
    SuccessAndStateChange(crate::command::ExecutedCommand),
    SuccessNoStateChange(crate::command::ExecutedCommand),
}

/// A source of mine placements.  An implementation promises the full
/// first-click-safety contract: right dimensions, exactly the requested
/// number of mines, and no mine on the safe cell or any of its eight
/// neighbours.
pub trait MinefieldGenerator: Sized {
    /// Which generation requests this generator serves; `generate` may only
    /// be called for those.
    spec fn accepts(&self, width: int, height: int, mine_count: int) -> bool;

    /// Produces the ground layer for a fresh game, keeping the safe cell and
    /// its neighbours free of mines.  Which requests the generator accepts
    /// does not change when it generates.
    fn generate(&mut self, params: Parameters, not_a_mine: Location) -> (r: Area<GroundKind>)
        requires
            old(self).accepts(params.width as int, params.height as int, params.mine_count as int),
        ensures
            r@.wf(),
            r@.width == params.width,
            r@.height == params.height,
            spec_mine_count(r@.cells) == params.mine_count,
            r@.get(not_a_mine) matches Some(g) ==> g is Dirt,
            forall|k: int|
                0 <= k < 8 ==> (r@.get(#[trigger] spec_neighbours(not_a_mine)[k]) matches Some(g)
                    ==> g is Dirt),
            forall|w: int, h: int, m: int|
                #[trigger] final(self).accepts(w, h, m) == old(self).accepts(w, h, m),
    ;
}

/// Holds of a hidden fog cell.
pub open spec fn is_hidden_pred() -> spec_fn(State) -> bool {
    |s: State| s is Hidden
}

/// Holds of a marked fog cell.
pub open spec fn is_marked_pred() -> spec_fn(State) -> bool {
    |s: State| s is Marked
}

/// No revealed cell borders `l`: the board shows nothing about it.
pub open spec fn spec_cell_unobserved(fog: AreaView<State>, l: Location) -> bool {
    forall|k: int|
        0 <= k < 8 ==> !(#[trigger] fog.get(spec_neighbours(l)[k]) matches Some(s) && s
            is Revealed)
}

/// Holds of the flat indices of cells that are hidden and unobserved.
pub open spec fn unobserved_pred(fog: AreaView<State>) -> spec_fn(int) -> bool {
    |i: int| fog.cells[i] is Hidden && spec_cell_unobserved(
        fog,
        spec_from_index(i, fog.width as int),
    )
}

/// The flat indices `0` to `n`.
pub open spec fn index_seq(n: nat) -> Seq<int> {
    Seq::new(n, |i: int| i)
}

/// The number of unobserved cells of the board: hidden, not marked as
/// known, and with no revealed neighbour.
pub open spec fn spec_unobserved_count(fog: AreaView<State>) -> nat {
    count_where(index_seq(fog.cells.len()), unobserved_pred(fog))
}

/// The mathematical model of a [`Minefield`]: its two layers and the game
/// state.
pub struct MinefieldView {
    pub ground: AreaView<GroundKind>,
    pub fog: AreaView<State>,
    pub state: GameStateView,
}

impl MinefieldView {
    /// The two layers describe the same grid.
    pub open spec fn dims_match(self) -> bool {
        self.ground.width == self.fog.width && self.ground.height == self.fog.height
    }

    /// What a revealed or exploded cell says is true of the ground: an
    /// exploded cell sits on a mine, and a revealed cell sits on dirt and
    /// shows the exact number of neighbouring mines.
    pub open spec fn cells_consistent(self) -> bool {
        self.dims_match() ==> forall|i: int|
            0 <= i < self.fog.cells.len() ==> {
                &&& (#[trigger] self.fog.cells[i] is Exploded ==> self.ground.cells[i] is Mine)
                &&& (self.fog.cells[i] matches State::Revealed { adj_mines }
                    ==> self.ground.cells[i] is Dirt && adj_mines == spec_adj_mines(
                    self.ground,
                    spec_from_index(i, self.fog.width as int),
                ))
            }
    }

    /// The structural invariant every reachable minefield satisfies: both
    /// layers are dense grids, they agree on the grid (the ground may still
    /// be the empty placeholder before the first command), the fog tells no
    /// lies about the ground, and nothing is uncovered before the first
    /// command.
    pub open spec fn inv(self) -> bool {
        &&& self.fog.wf()
        &&& self.ground.wf()
        &&& self.dims_match() || (self.ground.width == 0 && self.ground.height == 0
            && self.state is Initial)
        &&& self.cells_consistent()
        &&& (self.state is Initial ==> spec_all_hidden(self.fog.cells))
    }

    /// A won game shows a fully resolved board.  Commands preserve this;
    /// forcing reveals or unreveals after the game ends need not.
    pub open spec fn win_consistent(self) -> bool {
        self.state is Win ==> spec_won(self.fog.cells, self.ground.cells)
    }
}

/// A command applies when the action matches the fog at its location:
/// revealing and marking want a hidden cell, unmarking wants a marked one,
/// and toggling accepts either.
pub open spec fn spec_execute_applies(fog: AreaView<State>, cmd: PendingCommand) -> bool {
    match fog.get(cmd.location) {
        Some(s) => match cmd.action {
            Action::Reveal => s is Hidden,
            Action::Mark => s is Hidden,
            Action::Unmark => s is Marked,
            Action::ToggleMark => s is Hidden || s is Marked,
        },
        None => false,
    }
}

/// How the ground after a command relates to the board before it: the first
/// command installs a generated ground (right grid, exact mine budget, and
/// the commanded cell with its neighbours mine-free); later commands leave
/// the ground alone.
pub open spec fn spec_generated_ok(
    pre: MinefieldView,
    ground: AreaView<GroundKind>,
    cmd: PendingCommand,
) -> bool {
    match pre.state {
        GameStateView::Initial { mine_count } => {
            &&& ground.wf()
            &&& ground.width == pre.fog.width
            &&& ground.height == pre.fog.height
            &&& spec_mine_count(ground.cells) == mine_count
            &&& (ground.get(cmd.location) matches Some(g) ==> g is Dirt)
            &&& forall|k: int|
                0 <= k < 8 ==> (ground.get(#[trigger] spec_neighbours(cmd.location)[k]) matches Some(
                    g,
                ) ==> g is Dirt)
        },
        _ => ground == pre.ground,
    }
}

/// A cell that spreads the reveal: hidden dirt with no neighbouring mine.
pub open spec fn spec_spreader(
    fog: AreaView<State>,
    ground: AreaView<GroundKind>,
    l: Location,
) -> bool {
    &&& fog.get(l) == Some(State::Hidden)
    &&& ground.get(l) == Some(GroundKind::Dirt)
    &&& spec_adj_mines(ground, l) == 0
}

/// A flood-fill path: it starts at the seed, each step moves to a Moore
/// neighbour, and every cell before the last spreads the reveal.
pub open spec fn spec_reveal_path(
    fog: AreaView<State>,
    ground: AreaView<GroundKind>,
    seed: Location,
    p: Seq<Location>,
) -> bool {
    &&& p.len() >= 1
    &&& p[0] == seed
    &&& forall|k: int| 0 <= k < p.len() - 1 ==> spec_spreader(fog, ground, #[trigger] p[k])
    &&& forall|k: int|
        0 <= k < p.len() - 1 ==> spec_neighbours(#[trigger] p[k]).contains(p[k + 1])
}

/// The flood fill started at `seed` reaches `c`: the seed itself, or any
/// cell connected to it through hidden zero-count dirt.
pub open spec fn spec_reveal_reaches(
    fog: AreaView<State>,
    ground: AreaView<GroundKind>,
    seed: Location,
    c: Location,
) -> bool {
    exists|p: Seq<Location>| spec_reveal_path(fog, ground, seed, p) && p.last() == c
}

/// A hidden cell the flood fill reaches: exactly the cells a reveal
/// command at `seed` uncovers.
pub open spec fn spec_revealed_cell(
    fog: AreaView<State>,
    ground: AreaView<GroundKind>,
    seed: Location,
    c: Location,
) -> bool {
    &&& fog.get(c) == Some(State::Hidden)
    &&& spec_reveal_reaches(fog, ground, seed, c)
}

/// What a reveal leaves on a reached cell: an explosion on a mine, the
/// neighbouring-mine count on dirt.
pub open spec fn spec_reveal_target(ground: AreaView<GroundKind>, c: Location) -> State {
    if ground.get(c) == Some(GroundKind::Mine) {
        State::Exploded
    } else {
        State::Revealed { adj_mines: spec_adj_mines(ground, c) as usize }
    }
}

/// The sequence holds the location `l` somewhere.
pub open spec fn seq_has_loc(s: Seq<Location>, l: Location) -> bool {
    exists|i: int| 0 <= i < s.len() && s[i] == l
}

/// The adjacent-mine count never exceeds the eight neighbours.
pub proof fn lemma_adj_mines_le_8(ground: AreaView<GroundKind>, l: Location)
    ensures
        spec_adj_mines(ground, l) <= 8,
{
    lemma_count_le_len(spec_neighbours(l), mine_at_pred(ground));
}

/// The seed reaches itself.
pub proof fn lemma_reaches_self(
    fog: AreaView<State>,
    ground: AreaView<GroundKind>,
    seed: Location,
)
    ensures
        spec_reveal_reaches(fog, ground, seed, seed),
{
    let p = seq![seed];
    assert(spec_reveal_path(fog, ground, seed, p));
    assert(p.last() == seed);
}

/// Reaching extends across one spreading cell to each of its neighbours.
pub proof fn lemma_reaches_step(
    fog: AreaView<State>,
    ground: AreaView<GroundKind>,
    seed: Location,
    z: Location,
    n: Location,
)
    requires
        spec_reveal_reaches(fog, ground, seed, z),
        spec_spreader(fog, ground, z),
        spec_neighbours(z).contains(n),
    ensures
        spec_reveal_reaches(fog, ground, seed, n),
{
    let p = choose|p: Seq<Location>| spec_reveal_path(fog, ground, seed, p) && p.last() == z;
    let q = p.push(n);
    assert(q[0] == seed);
    assert forall|k: int| 0 <= k < q.len() - 1 implies spec_spreader(fog, ground, #[trigger] q[k])
        && spec_neighbours(q[k]).contains(q[k + 1]) by {
        if k < p.len() - 1 {
            assert(q[k] == p[k] && q[k + 1] == p[k + 1]);
        } else {
            assert(q[k] == p.last() && q[k + 1] == n);
        }
    }
    assert(spec_reveal_path(fog, ground, seed, q) && q.last() == n);
}

/// Once the work list has drained, every cell the flood fill reaches has
/// been uncovered: along any path, the seed is handled, and each handled
/// spreading cell has had all its neighbours handled.
#[verifier::rlimit(60)]
proof fn lemma_reveal_complete(
    of: AreaView<State>,
    gr: AreaView<GroundKind>,
    nf: AreaView<State>,
    seed: Location,
    p: Seq<Location>,
)
    requires
        spec_reveal_path(of, gr, seed, p),
        nf.get(seed) != Some(State::Hidden),
        forall|z: Location, k: int|
            spec_spreader(of, gr, z) && nf.get(z) != Some(State::Hidden) && 0 <= k < 8
                ==> nf.get(#[trigger] spec_neighbours(z)[k]) != Some(State::Hidden),
    ensures
        of.get(p.last()) == Some(State::Hidden) ==> nf.get(p.last()) != Some(State::Hidden),
    decreases p.len(),
{
    if p.len() == 1 {
        assert(p.last() == seed);
    } else {
        let q = p.drop_last();
        let z = q.last();
        assert(z == p[p.len() - 2]);
        assert(spec_reveal_path(of, gr, seed, q));
        assert(spec_spreader(of, gr, z));
        lemma_reveal_complete(of, gr, nf, seed, q);
        assert(nf.get(z) != Some(State::Hidden));
        assert(spec_neighbours(z).contains(p.last())) by {
            assert(spec_neighbours(z).contains(p[p.len() - 1]));
        }
        let k = choose|k: int|
            0 <= k < spec_neighbours(z).len() && spec_neighbours(z)[k] == p.last();
        assert(nf.get(spec_neighbours(z)[k]) != Some(State::Hidden));
    }
}

/// The bookkeeping the flood-fill work loop maintains: every change so far
/// is a correctly uncovered reachable cell, every queued cell is reachable,
/// the seed and the neighbours of every uncovered spreading cell are queued
/// or already uncovered, and the affected list holds exactly the changed
/// cells, once each.
#[verifier::opaque]
spec fn reveal_loop_inv(
    of: AreaView<State>,
    gr: AreaView<GroundKind>,
    seed: Location,
    fog: AreaView<State>,
    pending: Seq<Location>,
    affected: Seq<Location>,
) -> bool {
    &&& of.wf()
    &&& gr.wf()
    &&& fog.wf()
    &&& gr.width == of.width
    &&& gr.height == of.height
    &&& fog.width == of.width
    &&& fog.height == of.height
    &&& fog.cells.len() == of.cells.len()
    &&& forall|i: int|
        0 <= i < fog.cells.len() ==> (#[trigger] fog.cells[i] == of.cells[i] || (of.cells[i]
            is Hidden && spec_reveal_reaches(of, gr, seed, spec_from_index(i, of.width as int))
            && fog.cells[i] == spec_reveal_target(gr, spec_from_index(i, of.width as int)) && !(
        fog.cells[i] is Hidden)))
    &&& forall|qi: int|
        0 <= qi < pending.len() ==> spec_reveal_reaches(of, gr, seed, #[trigger] pending[qi])
    &&& (seq_has_loc(pending, seed) || fog.get(seed) != Some(State::Hidden))
    &&& forall|z: Location, k: int|
        spec_spreader(of, gr, z) && fog.get(z) != Some(State::Hidden) && 0 <= k < 8 ==> (
        seq_has_loc(pending, spec_neighbours(z)[k]) || fog.get(#[trigger] spec_neighbours(z)[k])
            != Some(State::Hidden))
    &&& forall|j: int|
        0 <= j < affected.len() ==> spec_revealed_cell(of, gr, seed, #[trigger] affected[j])
    &&& forall|j: int|
        0 <= j < affected.len() ==> fog.get(#[trigger] affected[j]) != Some(State::Hidden)
    &&& forall|i: int|
        0 <= i < fog.cells.len() && #[trigger] fog.cells[i] != of.cells[i] ==> seq_has_loc(
            affected,
            spec_from_index(i, of.width as int),
        )
    &&& forall|i: int, j: int| 0 <= i < j < affected.len() ==> affected[i] != affected[j]
}

/// A fresh work list holding just the seed satisfies the loop's
/// bookkeeping.
proof fn lemma_reveal_inv_init(of: AreaView<State>, gr: AreaView<GroundKind>, seed: Location)
    requires
        of.wf(),
        gr.wf(),
        gr.width == of.width,
        gr.height == of.height,
    ensures
        reveal_loop_inv(of, gr, seed, of, seq![seed], Seq::empty()),
{
    reveal(reveal_loop_inv);
    lemma_reaches_self(of, gr, seed);
    assert(seq![seed][0] == seed);
    assert(seq_has_loc(seq![seed], seed));
}

/// The board shapes the loop's bookkeeping guarantees.
proof fn lemma_reveal_inv_dims(
    of: AreaView<State>,
    gr: AreaView<GroundKind>,
    seed: Location,
    fog: AreaView<State>,
    pending: Seq<Location>,
    affected: Seq<Location>,
)
    requires
        reveal_loop_inv(of, gr, seed, fog, pending, affected),
    ensures
        of.wf(),
        gr.wf(),
        fog.wf(),
        gr.width == of.width,
        gr.height == of.height,
        fog.width == of.width,
        fog.height == of.height,
        fog.cells.len() == of.cells.len(),
        pending.len() > 0 ==> spec_reveal_reaches(of, gr, seed, pending[0]),
{
    reveal(reveal_loop_inv);
}

/// Popping a cell that is no longer hidden keeps the loop's bookkeeping:
/// everything it owed the queue is already uncovered.
proof fn lemma_reveal_skip(
    of: AreaView<State>,
    gr: AreaView<GroundKind>,
    seed: Location,
    fog: AreaView<State>,
    pend1: Seq<Location>,
    affected: Seq<Location>,
    current: Location,
)
    requires
        reveal_loop_inv(of, gr, seed, fog, seq![current] + pend1, affected),
        fog.get(current) != Some(State::Hidden),
    ensures
        reveal_loop_inv(of, gr, seed, fog, pend1, affected),
{
    reveal(reveal_loop_inv);
    let full = seq![current] + pend1;
    assert(forall|qi: int| 0 <= qi < pend1.len() ==> pend1[qi] == full[qi + 1]);
    if seq_has_loc(full, seed) && seed != current {
        let qi = choose|qi: int| 0 <= qi < full.len() && full[qi] == seed;
        assert(pend1[qi - 1] == seed);
        assert(seq_has_loc(pend1, seed));
    }
    assert forall|z: Location, k: int|
        spec_spreader(of, gr, z) && fog.get(z) != Some(State::Hidden) && 0 <= k
            < 8 implies (seq_has_loc(pend1, spec_neighbours(z)[k]) || fog.get(
        #[trigger] spec_neighbours(z)[k],
    ) != Some(State::Hidden)) by {
        let n = spec_neighbours(z)[k];
        if seq_has_loc(full, n) && fog.get(n) == Some(State::Hidden) {
            let qi = choose|qi: int| 0 <= qi < full.len() && full[qi] == n;
            assert(n != current);
            assert(pend1[qi - 1] == n);
            assert(seq_has_loc(pend1, n));
        }
    }
}

/// Uncovering the popped hidden cell and queueing its neighbours (when it
/// spreads) re-establishes the loop's bookkeeping.
#[verifier::rlimit(100)]
proof fn lemma_reveal_step(
    of: AreaView<State>,
    gr: AreaView<GroundKind>,
    seed: Location,
    fog0: AreaView<State>,
    pend1: Seq<Location>,
    aff0: Seq<Location>,
    current: Location,
    target: State,
    spreading: bool,
    fog1: AreaView<State>,
    pend2: Seq<Location>,
)
    requires
        reveal_loop_inv(of, gr, seed, fog0, seq![current] + pend1, aff0),
        fog0.get(current) == Some(State::Hidden),
        target == spec_reveal_target(gr, current),
        fog1 == fog0.set(current, target),
        spreading == (target matches State::Revealed { adj_mines } && adj_mines == 0),
        pend2 == if spreading {
            pend1 + spec_neighbours(current)
        } else {
            pend1
        },
    ensures
        reveal_loop_inv(of, gr, seed, fog1, pend2, aff0.push(current)),
{
    reveal(reveal_loop_inv);
    let full = seq![current] + pend1;
    let w = of.width as int;
    let h = of.height as int;
    let aff1 = aff0.push(current);
    assert(forall|qi: int| 0 <= qi < pend1.len() ==> pend1[qi] == full[qi + 1]);
    assert(fog0.wf());
    lemma_get_in_grid(fog0, current);
    lemma_get_in_grid(gr, current);
    lemma_to_from_index(current, w, h);
    lemma_adj_mines_le_8(gr, current);
    let ci = spec_to_index(current, w)->Some_0;
    assert(fog0.cells[ci] is Hidden);
    assert(of.cells[ci] is Hidden);
    assert(spec_reveal_reaches(of, gr, seed, current)) by {
        assert(full[0] == current);
    }
    assert(!(target is Hidden));
    assert(fog1.cells == fog0.cells.update(ci, target));
    assert(fog1.get(current) == Some(target)) by {
        lemma_set_get(fog0, current, target);
    }
    assert forall|x: Location| x != current implies fog1.get(x) == fog0.get(x) by {
        lemma_set_frame(fog0, current, target, x);
    }
    if spreading {
        assert(spec_spreader(of, gr, current)) by {
            assert(of.get(current) == Some(of.cells[ci]));
            assert(gr.get(current) is Some);
            assert(gr.get(current) != Some(GroundKind::Mine));
            assert(spec_adj_mines(gr, current) == 0);
        }
    }
    // queued cells stay reachable; new neighbours reach through the
    // freshly uncovered spreading cell
    assert forall|qi: int|
        0 <= qi < pend2.len() implies spec_reveal_reaches(of, gr, seed, #[trigger] pend2[qi]) by {
        if qi < pend1.len() {
            assert(pend2[qi] == pend1[qi]);
        } else {
            let n = pend2[qi];
            assert(spec_neighbours(current)[qi - pend1.len()] == n);
            assert(spec_neighbours(current).contains(n));
            lemma_reaches_step(of, gr, seed, current, n);
        }
    }
    // the seed stays queued or uncovered
    assert(seq_has_loc(pend2, seed) || fog1.get(seed) != Some(State::Hidden)) by {
        if seed == current {
        } else if seq_has_loc(full, seed) {
            let qi = choose|qi: int| 0 <= qi < full.len() && full[qi] == seed;
            if qi == 0 {
            } else {
                assert(pend1[qi - 1] == seed);
                assert(pend2[qi - 1] == seed);
                assert(seq_has_loc(pend2, seed));
            }
        } else {
            assert(fog1.get(seed) == fog0.get(seed));
        }
    }
    // every uncovered spreading cell still has its neighbours queued or
    // uncovered
    assert forall|z: Location, k: int|
        spec_spreader(of, gr, z) && fog1.get(z) != Some(State::Hidden) && 0 <= k
            < 8 implies (seq_has_loc(pend2, spec_neighbours(z)[k]) || fog1.get(
        #[trigger] spec_neighbours(z)[k],
    ) != Some(State::Hidden)) by {
        let n = spec_neighbours(z)[k];
        if z == current {
            if spreading {
                assert(pend2[pend1.len() + k] == n);
                assert(seq_has_loc(pend2, n));
            } else {
                assert(!spec_spreader(of, gr, current));
            }
        } else {
            assert(fog0.get(z) == fog1.get(z));
            if fog0.get(z) != Some(State::Hidden) {
                if n == current {
                    assert(fog1.get(n) == Some(target));
                } else if seq_has_loc(full, n) {
                    let qi = choose|qi: int| 0 <= qi < full.len() && full[qi] == n;
                    assert(qi >= 1);
                    assert(pend1[qi - 1] == n);
                    if spreading {
                        assert(pend2[qi - 1] == n);
                    }
                    assert(seq_has_loc(pend2, n));
                } else {
                    assert(fog0.get(n) != Some(State::Hidden));
                    assert(fog1.get(n) == fog0.get(n));
                }
            }
        }
    }
    // the affected list grows by exactly the freshly uncovered cell
    assert forall|j: int|
        0 <= j < aff1.len() implies spec_revealed_cell(of, gr, seed, #[trigger] aff1[j])
            && fog1.get(aff1[j]) != Some(State::Hidden) by {
        if j < aff0.len() {
            assert(aff1[j] == aff0[j]);
            if aff0[j] == current {
            } else {
                assert(fog1.get(aff0[j]) == fog0.get(aff0[j]));
            }
        } else {
            assert(aff1[j] == current);
            assert(spec_revealed_cell(of, gr, seed, current)) by {
                assert(of.get(current) == Some(of.cells[ci]));
            }
        }
    }
    assert forall|i: int|
        0 <= i < fog1.cells.len() && #[trigger] fog1.cells[i] != of.cells[i] implies seq_has_loc(
        aff1,
        spec_from_index(i, w),
    ) by {
        if i == ci {
            assert(aff1[aff1.len() - 1] == current);
            assert(spec_from_index(ci, w) == current);
            assert(seq_has_loc(aff1, current));
        } else {
            assert(fog1.cells[i] == fog0.cells[i]);
            assert(seq_has_loc(aff0, spec_from_index(i, w)));
            let j = choose|j: int| 0 <= j < aff0.len() && aff0[j] == spec_from_index(i, w);
            assert(aff1[j] == spec_from_index(i, w));
        }
    }
    assert forall|i: int, j: int| 0 <= i < j < aff1.len() implies aff1[i] != aff1[j] by {
        if j == aff1.len() - 1 {
            assert(aff1[j] == current);
            assert(fog0.get(aff0[i]) != Some(State::Hidden));
        }
    }
    // the uncovered cell itself satisfies the pointwise account
    assert forall|i: int|
        0 <= i < fog1.cells.len() implies (#[trigger] fog1.cells[i] == of.cells[i] || (
        of.cells[i] is Hidden && spec_reveal_reaches(of, gr, seed, spec_from_index(i, w))
            && fog1.cells[i] == spec_reveal_target(gr, spec_from_index(i, w)) && !(fog1.cells[i]
            is Hidden))) by {
        if i == ci {
            assert(spec_from_index(ci, w) == current);
        } else {
            assert(fog1.cells[i] == fog0.cells[i]);
        }
    }
}

/// When the work list has drained, the fog is exactly the reveal closure
/// of the seed and the affected list names exactly the changed cells.
#[verifier::rlimit(60)]
proof fn lemma_reveal_inv_final(
    of: AreaView<State>,
    gr: AreaView<GroundKind>,
    seed: Location,
    fog: AreaView<State>,
    affected: Seq<Location>,
)
    requires
        reveal_loop_inv(of, gr, seed, fog, Seq::empty(), affected),
    ensures
        fog.wf(),
        fog.width == of.width,
        fog.height == of.height,
        fog.cells.len() == of.cells.len(),
        forall|i: int|
            0 <= i < fog.cells.len() ==> fog.cells[i] == (if spec_revealed_cell(
                of,
                gr,
                seed,
                spec_from_index(i, of.width as int),
            ) {
                spec_reveal_target(gr, spec_from_index(i, of.width as int))
            } else {
                of.cells[i]
            }),
        forall|j: int|
            0 <= j < affected.len() ==> spec_revealed_cell(of, gr, seed, #[trigger] affected[j]),
        forall|c: Location| spec_revealed_cell(of, gr, seed, c) ==> seq_has_loc(affected, c),
        forall|i: int, j: int| 0 <= i < j < affected.len() ==> affected[i] != affected[j],
{
    reveal(reveal_loop_inv);
    let w = of.width as int;
    let h = of.height as int;
    assert(fog.get(seed) != Some(State::Hidden)) by {
        assert(!seq_has_loc(Seq::<Location>::empty(), seed));
    }
    assert forall|z: Location, k: int|
        spec_spreader(of, gr, z) && fog.get(z) != Some(State::Hidden) && 0 <= k < 8 implies fog.get(
        #[trigger] spec_neighbours(z)[k],
    ) != Some(State::Hidden) by {
        assert(!seq_has_loc(Seq::<Location>::empty(), spec_neighbours(z)[k]));
    }
    assert forall|i: int|
        0 <= i < fog.cells.len() implies fog.cells[i] == (if spec_revealed_cell(
        of,
        gr,
        seed,
        spec_from_index(i, w),
    ) {
        spec_reveal_target(gr, spec_from_index(i, w))
    } else {
        of.cells[i]
    }) by {
        let c = spec_from_index(i, w);
        assert(w >= 1) by {
            if w == 0 {
                assert(of.width * of.height == 0) by (nonlinear_arith)
                    requires
                        of.width == 0,
                ;
            }
        };
        lemma_from_index_to_index(i, w, h);
        assert(of.get(c) == Some(of.cells[i]));
        assert(fog.get(c) == Some(fog.cells[i]));
        if spec_revealed_cell(of, gr, seed, c) {
            let p = choose|p: Seq<Location>| spec_reveal_path(of, gr, seed, p) && p.last() == c;
            lemma_reveal_complete(of, gr, fog, seed, p);
            assert(fog.get(c) != Some(State::Hidden));
            assert(fog.cells[i] != of.cells[i]);
        } else {
            if fog.cells[i] != of.cells[i] {
                assert(of.cells[i] is Hidden && spec_reveal_reaches(of, gr, seed, c));
                assert(spec_revealed_cell(of, gr, seed, c));
                assert(false);
            }
        }
    }
    assert forall|c: Location|
        spec_revealed_cell(of, gr, seed, c) implies seq_has_loc(affected, c) by {
        lemma_get_in_grid(of, c);
        lemma_to_from_index(c, w, h);
        let i = spec_to_index(c, w)->Some_0;
        assert(spec_from_index(i, w) == c);
        assert(fog.cells[i] != of.cells[i]);
    }
}

/// The characters the board text format treats as spacing: ASCII
/// whitespace, including the newline that separates rows.
pub open spec fn is_grid_ws(c: char) -> bool {
    c == ' ' || c == '\t' || c == '\n' || c == '\r' || c == '\u{c}'
}

/// The characters that encode one cell of the board text format.
pub open spec fn is_cell_char(c: char) -> bool {
    ||| c == 'm'
    ||| c == 'M'
    ||| c == 'F'
    ||| c == 'f'
    ||| c == 'e'
    ||| c == 'E'
    ||| c == '0'
    ||| c == '1'
    ||| c == '2'
    ||| c == '3'
    ||| c == '4'
    ||| c == '5'
    ||| c == '6'
    ||| c == '7'
    ||| c == '8'
}

/// The cell characters of the grid text from position `i` on, in order:
/// everything that is not spacing.
pub open spec fn grid_cells_from(s: Seq<char>, i: int) -> Seq<char>
    decreases s.len() - i,
{
    if i < 0 || i >= s.len() {
        Seq::empty()
    } else if is_grid_ws(s[i]) {
        grid_cells_from(s, i + 1)
    } else {
        seq![s[i]] + grid_cells_from(s, i + 1)
    }
}

/// The scan that validates the grid text from position `i` on, carrying the
/// number of cells seen on the current row and the row width fixed by the
/// first non-blank row: every cell character is legal, and every non-blank
/// row has the same width.
pub open spec fn grid_scan_ok(s: Seq<char>, i: int, cur: nat, width: Option<nat>) -> bool
    decreases s.len() - i,
{
    if i < 0 {
        false
    } else if i >= s.len() {
        cur == 0 || width is None || width == Some(cur)
    } else if s[i] == '\n' {
        if cur == 0 {
            grid_scan_ok(s, i + 1, 0, width)
        } else if width is None || width == Some(cur) {
            grid_scan_ok(s, i + 1, 0, Some(cur))
        } else {
            false
        }
    } else if is_grid_ws(s[i]) {
        grid_scan_ok(s, i + 1, cur, width)
    } else if is_cell_char(s[i]) {
        grid_scan_ok(s, i + 1, cur + 1, width)
    } else {
        false
    }
}

/// A well-formed board text: legal characters, equal row widths, and at
/// least one cell.
pub open spec fn valid_grid(s: Seq<char>) -> bool {
    &&& grid_scan_ok(s, 0, 0, None)
    &&& grid_cells_from(s, 0).len() > 0
}

/// The width of the first non-blank row of the grid text.
pub open spec fn grid_width_from(s: Seq<char>, i: int, cur: nat) -> nat
    decreases s.len() - i,
{
    if i < 0 || i >= s.len() {
        cur
    } else if s[i] == '\n' && cur > 0 {
        cur
    } else if is_grid_ws(s[i]) {
        grid_width_from(s, i + 1, cur)
    } else {
        grid_width_from(s, i + 1, cur + 1)
    }
}

/// The row width of a well-formed grid text.
pub open spec fn spec_grid_width(s: Seq<char>) -> nat {
    grid_width_from(s, 0, 0)
}

/// The ground a cell character encodes.
pub open spec fn spec_ground_of(c: char) -> GroundKind {
    if c == 'm' || c == 'M' || c == 'F' {
        GroundKind::Mine
    } else {
        GroundKind::Dirt
    }
}

/// How a reveal command transforms the fog: every reached hidden cell
/// shows its target and everything else is untouched.
pub open spec fn spec_reveal_fog_ok(
    pre_fog: AreaView<State>,
    ground: AreaView<GroundKind>,
    seed: Location,
    post_fog: AreaView<State>,
) -> bool {
    &&& post_fog.width == pre_fog.width
    &&& post_fog.height == pre_fog.height
    &&& post_fog.cells.len() == pre_fog.cells.len()
    &&& forall|i: int|
        0 <= i < post_fog.cells.len() ==> post_fog.cells[i] == (if spec_revealed_cell(
            pre_fog,
            ground,
            seed,
            spec_from_index(i, pre_fog.width as int),
        ) {
            spec_reveal_target(ground, spec_from_index(i, pre_fog.width as int))
        } else {
            pre_fog.cells[i]
        })
}

/// The changed-cell list of a successful command: for a reveal, exactly the
/// reached cells, once each; for the marking actions, just the commanded
/// cell.
pub open spec fn spec_updated_ok(
    pre: MinefieldView,
    post: MinefieldView,
    cmd: PendingCommand,
    updated: Seq<Location>,
) -> bool {
    match cmd.action {
        Action::Reveal => {
            &&& forall|j: int|
                0 <= j < updated.len() ==> spec_revealed_cell(
                    pre.fog,
                    post.ground,
                    cmd.location,
                    #[trigger] updated[j],
                )
            &&& forall|c: Location|
                spec_revealed_cell(pre.fog, post.ground, cmd.location, c) ==> seq_has_loc(
                    updated,
                    c,
                )
            &&& forall|i: int, j: int| 0 <= i < j < updated.len() ==> updated[i] != updated[j]
        },
        _ => updated == seq![cmd.location],
    }
}

/// The full transition relation of `Minefield::execute`: what the command
/// did to the ground, the fog and the game state, and what it reported.
pub open spec fn spec_execute_post(
    pre: MinefieldView,
    post: MinefieldView,
    cmd: PendingCommand,
    failed: bool,
    state_changed: bool,
    updated: Seq<Location>,
) -> bool {
    &&& post.fog.width == pre.fog.width
    &&& post.fog.height == pre.fog.height
    &&& post.fog.cells.len() == pre.fog.cells.len()
    &&& spec_generated_ok(pre, post.ground, cmd)
    &&& failed == !spec_execute_applies(pre.fog, cmd)
    &&& (failed ==> post.fog == pre.fog && post.state == pre.state)
    &&& (!failed ==> {
        &&& (match cmd.action {
            Action::Reveal => spec_reveal_fog_ok(pre.fog, post.ground, cmd.location, post.fog),
            Action::Mark => post.fog == pre.fog.set(cmd.location, State::Marked),
            Action::Unmark => post.fog == pre.fog.set(cmd.location, State::Hidden),
            Action::ToggleMark => post.fog == pre.fog.set(
                cmd.location,
                if pre.fog.get(cmd.location) == Some(State::Hidden) {
                    State::Marked
                } else {
                    State::Hidden
                },
            ),
        })
        &&& post.state == spec_update(pre.state, post.fog.cells, post.ground.cells)
        &&& state_changed == (post.state != pre.state)
        &&& spec_updated_ok(pre, post, cmd, updated)
    })
}

/// A successful command leaves the board invariant intact, and a game won
/// by a command really is fully resolved.
#[verifier::rlimit(100)]
proof fn lemma_execute_success_inv(pre: MinefieldView, post: MinefieldView, cmd: PendingCommand)
    requires
        pre.inv(),
        spec_execute_applies(pre.fog, cmd),
        spec_generated_ok(pre, post.ground, cmd),
        post.fog.width == pre.fog.width,
        post.fog.height == pre.fog.height,
        post.fog.cells.len() == pre.fog.cells.len(),
        match cmd.action {
            Action::Reveal => spec_reveal_fog_ok(pre.fog, post.ground, cmd.location, post.fog),
            Action::Mark => post.fog == pre.fog.set(cmd.location, State::Marked),
            Action::Unmark => post.fog == pre.fog.set(cmd.location, State::Hidden),
            Action::ToggleMark => post.fog == pre.fog.set(
                cmd.location,
                if pre.fog.get(cmd.location) == Some(State::Hidden) {
                    State::Marked
                } else {
                    State::Hidden
                },
            ),
        },
        post.state == spec_update(pre.state, post.fog.cells, post.ground.cells),
    ensures
        post.inv(),
        pre.state !is Win ==> post.win_consistent(),
{
    let w = pre.fog.width as int;
    let h = pre.fog.height as int;
    let g = post.ground;
    assert(g.wf() && g.width == pre.fog.width && g.height == pre.fog.height) by {
        if pre.state is Initial {
        } else {
            assert(g == pre.ground);
            assert(pre.dims_match() || (pre.ground.width == 0 && pre.ground.height == 0
                && pre.state is Initial));
        }
    }
    assert(post.fog.wf());
    assert(post.dims_match());
    assert(g.cells.len() == post.fog.cells.len()) by {
        assert(g.width * g.height == post.fog.width * post.fog.height);
    }
    // the fog before the command tells no lies about the ground after it
    assert forall|i: int|
        0 <= i < pre.fog.cells.len() implies {
        &&& (#[trigger] pre.fog.cells[i] is Exploded ==> g.cells[i] is Mine)
        &&& (pre.fog.cells[i] matches State::Revealed { adj_mines } ==> g.cells[i] is Dirt
            && adj_mines == spec_adj_mines(g, spec_from_index(i, w)))
    } by {
        if pre.state is Initial {
            assert(pre.fog.cells[i] is Hidden);
        } else {
            assert(g == pre.ground);
            assert(pre.dims_match());
        }
    }
    // and neither does the fog after it
    match cmd.action {
        Action::Reveal => {
            assert forall|i: int|
                0 <= i < post.fog.cells.len() implies {
                &&& (#[trigger] post.fog.cells[i] is Exploded ==> g.cells[i] is Mine)
                &&& (post.fog.cells[i] matches State::Revealed { adj_mines } ==> g.cells[i]
                    is Dirt && adj_mines == spec_adj_mines(g, spec_from_index(i, w)))
            } by {
                let c = spec_from_index(i, w);
                if post.fog.cells[i] != pre.fog.cells[i] {
                    assert(spec_revealed_cell(pre.fog, g, cmd.location, c));
                    assert(post.fog.cells[i] == spec_reveal_target(g, c));
                    assert(w >= 1) by {
                        if w == 0 {
                            assert(pre.fog.width * pre.fog.height == 0) by (nonlinear_arith)
                                requires
                                    pre.fog.width == 0,
                            ;
                        }
                    };
                    lemma_from_index_to_index(i, w, h);
                    assert(g.get(c) == Some(g.cells[i]));
                    lemma_adj_mines_le_8(g, c);
                }
            }
        },
        _ => {
            assert forall|i: int|
                0 <= i < post.fog.cells.len() implies {
                &&& (#[trigger] post.fog.cells[i] is Exploded ==> g.cells[i] is Mine)
                &&& (post.fog.cells[i] matches State::Revealed { adj_mines } ==> g.cells[i]
                    is Dirt && adj_mines == spec_adj_mines(g, spec_from_index(i, w)))
            } by {
                if post.fog.cells[i] != pre.fog.cells[i] {
                    assert(post.fog.cells[i] is Marked || post.fog.cells[i] is Hidden);
                }
            }
        },
    }
    assert(post.cells_consistent());
    // a board still waiting for its first command shows nothing
    assert(post.state is Initial ==> spec_all_hidden(post.fog.cells)) by {
        if post.state is Initial {
            assert(pre.state is Initial);
            assert(spec_all_hidden(post.fog.cells));
        }
    }
    assert(post.inv());
    if pre.state !is Win && post.state is Win {
        assert(spec_won(post.fog.cells, post.ground.cells));
    }
}

/// The minefield: the hidden ground, the visible fog, the game state, and
/// the generator that will place the mines on the first command.
pub struct Minefield<G: MinefieldGenerator> {
    ground: Area<GroundKind>,
    fog: Area<State>,
    state: GameState,
    generator: G,
}

impl<G: MinefieldGenerator> View for Minefield<G> {
    type V = MinefieldView;

    closed spec fn view(&self) -> MinefieldView {
        MinefieldView { ground: self.ground@, fog: self.fog@, state: self.state@ }
    }
}

impl<G: MinefieldGenerator> Minefield<G> {
    /// Which generation requests the installed generator serves.
    pub closed spec fn accepts_request(&self, width: int, height: int, mine_count: int) -> bool {
        self.generator.accepts(width, height, mine_count)
    }

    /// While the board still waits for its first command, the installed
    /// generator accepts the request that command will make.
    pub open spec fn gen_ready(&self) -> bool {
        self@.state matches GameStateView::Initial { mine_count } ==> self.accepts_request(
            self@.fog.width as int,
            self@.fog.height as int,
            mine_count as int,
        )
    }

    /// A fresh board with the given generator: fog all hidden, no ground
    /// yet, waiting for the first command.
    pub fn with_generator(params: Parameters, generator: G) -> (r: Self)
        requires
            params.width * params.height <= usize::MAX,
        ensures
            r@.fog.width == params.width,
            r@.fog.height == params.height,
            spec_all_hidden(r@.fog.cells),
            r@.ground.cells.len() == 0,
            r@.state == (GameStateView::Initial { mine_count: params.mine_count as nat }),
            r@.inv(),
            r@.win_consistent(),
            forall|w: int, h: int, m: int|
                #[trigger] r.accepts_request(w, h, m) == generator.accepts(w, h, m),
            r.gen_ready() == generator.accepts(
                params.width as int,
                params.height as int,
                params.mine_count as int,
            ),
    {
        Self {
            ground: Default::default(),
            fog: Area::filled(params.width, params.height, State::Hidden),
            state: GameState::new(params.mine_count),
            generator,
        }
    }

    /// Read-only access to the fog layer.
    pub fn fog(&self) -> (r: &Area<State>)
        ensures
            r@ == self@.fog,
    {
        &self.fog
    }

    /// Read-only access to the ground layer.
    pub fn ground(&self) -> (r: &Area<GroundKind>)
        ensures
            r@ == self@.ground,
    {
        &self.ground
    }

    /// The current game state.
    pub fn state(&self) -> (r: &GameState)
        ensures
            r@ == self@.state,
    {
        &self.state
    }

    /// The board's width.
    pub fn width(&self) -> (r: usize)
        ensures
            r == self@.fog.width,
    {
        self.fog.width()
    }

    /// The board's height.
    pub fn height(&self) -> (r: usize)
        ensures
            r == self@.fog.height,
    {
        self.fog.height()
    }

    /// The number of mines on the ground; zero while the ground has not
    /// been generated.
    pub fn mine_count(&self) -> (r: usize)
        ensures
            r == spec_mine_count(self@.ground.cells),
    {
        let n = self.ground.len();
        let mut count: usize = 0;
        let mut i: usize = 0;
        while i < n
            invariant
                i <= n,
                n == self@.ground.cells.len(),
                count == count_where(self@.ground.cells.take(i as int), is_mine_pred()),
                count <= i,
            decreases n - i,
        {
            proof {
                lemma_count_take_succ(self@.ground.cells, is_mine_pred(), i as int);
            }
            if self.ground.get_index(i).unwrap().is_mine() {
                count = count + 1;
            }
            i = i + 1;
        }
        proof {
            lemma_count_take_all(self@.ground.cells, is_mine_pred());
        }
        count
    }

    /// The number of marked cells.
    pub fn mark_count(&self) -> (r: usize)
        ensures
            r == count_where(self@.fog.cells, is_marked_pred()),
    {
        let n = self.fog.len();
        let mut count: usize = 0;
        let mut i: usize = 0;
        while i < n
            invariant
                i <= n,
                n == self@.fog.cells.len(),
                count == count_where(self@.fog.cells.take(i as int), is_marked_pred()),
                count <= i,
            decreases n - i,
        {
            proof {
                lemma_count_take_succ(self@.fog.cells, is_marked_pred(), i as int);
            }
            if self.fog.get_index(i).unwrap().is_marked() {
                count = count + 1;
            }
            i = i + 1;
        }
        proof {
            lemma_count_take_all(self@.fog.cells, is_marked_pred());
        }
        count
    }

    /// The number of cells the player has observed nothing about: still
    /// hidden, not marked as known, and without a single revealed
    /// neighbour to constrain them.  A hidden cell beside a revealed count
    /// is already observed through that count; only the cells beyond every
    /// constraint make the endgame bridge worthwhile.
    pub fn unobserved_count(&self) -> (r: usize)
        requires
            self@.fog.wf(),
        ensures
            r == spec_unobserved_count(self@.fog),
    {
        let n = self.fog.len();
        let mut count: usize = 0;
        let mut i: usize = 0;
        while i < n
            invariant
                i <= n,
                self@.fog.wf(),
                n == self@.fog.cells.len(),
                count == count_where(index_seq(n as nat).take(i as int), unobserved_pred(self@.fog)),
                count <= i,
            decreases n - i,
        {
            proof {
                lemma_count_take_succ(index_seq(n as nat), unobserved_pred(self@.fog), i as int);
                assert(self@.fog.width >= 1) by {
                    if self@.fog.width == 0 {
                        assert(self@.fog.width * self@.fog.height == 0) by (nonlinear_arith)
                            requires
                                self@.fog.width == 0,
                        ;
                    }
                };
            }
            let hidden = self.fog.get_index(i).unwrap().is_hidden();
            let mut unobserved = false;
            if hidden {
                let l = Location::from_index(i, self.fog.width());
                let ns = l.neighbours();
                let mut any_revealed = false;
                let mut k: usize = 0;
                while k < 8
                    invariant
                        k <= 8,
                        ns@ == spec_neighbours(l),
                        any_revealed ==> !spec_cell_unobserved(self@.fog, l),
                        !any_revealed ==> forall|k2: int|
                            0 <= k2 < k ==> !(#[trigger] self@.fog.get(spec_neighbours(l)[k2])
                                matches Some(s) && s is Revealed),
                    decreases 8 - k,
                {
                    let revealed = match self.fog.get(*ns.get(k).unwrap()) {
                        Some(s) => s.is_revealed(),
                        None => false,
                    };
                    if revealed {
                        proof {
                            assert(!spec_cell_unobserved(self@.fog, l)) by {
                                assert(self@.fog.get(spec_neighbours(l)[k as int]) matches Some(s)
                                    && s is Revealed);
                            }
                        }
                        any_revealed = true;
                    }
                    k = k + 1;
                }
                unobserved = !any_revealed;
            }
            proof {
                assert(index_seq(n as nat)[i as int] == i as int);
                assert(unobserved_pred(self@.fog)(i as int) == (unobserved && hidden));
            }
            if unobserved {
                count = count + 1;
            }
            i = i + 1;
        }
        proof {
            assert(index_seq(n as nat).take(n as int) =~= index_seq(n as nat));
        }
        count
    }

    /// Back to a fresh board with the same dimensions and the same mine
    /// budget: the configured count while the board still waits for its
    /// first command, and the number of placed mines afterwards, which the
    /// generator fixed at that same configured count.
    pub fn reset(&mut self)
        requires
            old(self)@.inv(),
        ensures
            final(self)@.fog.width == old(self)@.fog.width,
            final(self)@.fog.height == old(self)@.fog.height,
            spec_all_hidden(final(self)@.fog.cells),
            final(self)@.ground.cells.len() == 0,
            final(self)@.state == (GameStateView::Initial {
                mine_count: match old(self)@.state {
                    GameStateView::Initial { mine_count } => mine_count,
                    _ => spec_mine_count(old(self)@.ground.cells),
                },
            }),
            final(self)@.inv(),
            final(self)@.win_consistent(),
            forall|w: int, h: int, m: int|
                #[trigger] final(self).accepts_request(w, h, m) == old(self).accepts_request(
                    w,
                    h,
                    m,
                ),
            final(self).gen_ready() == final(self).accepts_request(
                old(self)@.fog.width as int,
                old(self)@.fog.height as int,
                final(self)@.state->mine_count as int,
            ),
    {
        let width = self.width();
        let height = self.height();
        let mine_count = match *self.state() {
            GameState::Initial { mine_count } => mine_count,
            _ => self.mine_count(),
        };
        proof {
            lemma_count_le_len(self@.ground.cells, is_mine_pred());
        }
        self.ground = Default::default();
        self.fog = Area::filled(width, height, State::Hidden);
        self.state = GameState::new(mine_count);
    }

    /// The number of mines among the eight Moore neighbours of `location`.
    pub fn mines_in_proximity(ground: &Area<GroundKind>, location: Location) -> (r: usize)
        ensures
            r == spec_adj_mines(ground@, location),
    {
        let neighbours = location.neighbours();
        let mut count: usize = 0;
        let mut k: usize = 0;
        while k < 8
            invariant
                k <= 8,
                neighbours@ == spec_neighbours(location),
                count == count_where(spec_neighbours(location).take(k as int), mine_at_pred(ground@)),
                count <= k,
            decreases 8 - k,
        {
            proof {
                lemma_count_take_succ(spec_neighbours(location), mine_at_pred(ground@), k as int);
            }
            let is_mine = match ground.get(*neighbours.get(k).unwrap()) {
                Some(g) => g.is_mine(),
                None => false,
            };
            if is_mine {
                count = count + 1;
            }
            k = k + 1;
        }
        proof {
            lemma_count_take_all(spec_neighbours(location), mine_at_pred(ground@));
        }
        count
    }

    /// Breadth-first flood-fill reveal from `location`: uncovers exactly
    /// the hidden cells the reveal reaches, turning mines into explosions
    /// and dirt into its neighbour count, and returns exactly the changed
    /// cells, each once.
    #[verifier::rlimit(100)]
    pub fn reveal_location(
        fog: &mut Area<State>,
        ground: &Area<GroundKind>,
        location: Location,
    ) -> (affected: Vec<Location>)
        requires
            old(fog)@.wf(),
            ground@.wf(),
            ground@.width == old(fog)@.width,
            ground@.height == old(fog)@.height,
        ensures
            final(fog)@.wf(),
            final(fog)@.width == old(fog)@.width,
            final(fog)@.height == old(fog)@.height,
            final(fog)@.cells.len() == old(fog)@.cells.len(),
            forall|i: int|
                0 <= i < final(fog)@.cells.len() ==> final(fog)@.cells[i] == (
                if spec_revealed_cell(
                    old(fog)@,
                    ground@,
                    location,
                    spec_from_index(i, old(fog)@.width as int),
                ) {
                    spec_reveal_target(ground@, spec_from_index(i, old(fog)@.width as int))
                } else {
                    old(fog)@.cells[i]
                }),
            forall|j: int|
                0 <= j < affected@.len() ==> spec_revealed_cell(
                    old(fog)@,
                    ground@,
                    location,
                    #[trigger] affected@[j],
                ),
            forall|c: Location|
                spec_revealed_cell(old(fog)@, ground@, location, c) ==> seq_has_loc(affected@, c),
            forall|i: int, j: int| 0 <= i < j < affected@.len() ==> affected@[i] != affected@[j],
    {
        let ghost of = old(fog)@;
        let ghost gr = ground@;
        let ghost w = of.width as int;
        let ghost h = of.height as int;
        let mut pending: std::collections::VecDeque<Location> =
            std::collections::VecDeque::new();
        pending.push_back(location);
        let mut affected: Vec<Location> = Vec::new();
        proof {
            assert(pending@ =~= seq![location]);
            assert(affected@ =~= Seq::<Location>::empty());
            lemma_reveal_inv_init(of, gr, location);
        }
        loop
            invariant
                w == of.width as int,
                h == of.height as int,
                gr == ground@,
                reveal_loop_inv(of, gr, location, fog@, pending@, affected@),
            ensures
                pending@.len() == 0,
                reveal_loop_inv(of, gr, location, fog@, pending@, affected@),
            decreases count_where(fog@.cells, is_hidden_pred()) * 9 + pending@.len(),
        {
            let ghost pend_before = pending@;
            proof {
                lemma_reveal_inv_dims(of, gr, location, fog@, pending@, affected@);
            }
            let current = match pending.pop_front() {
                Some(c) => c,
                None => {
                    break ;
                },
            };
            proof {
                assert(pend_before =~= seq![current] + pending@);
                assert(reveal_loop_inv(of, gr, location, fog@, seq![current] + pending@, affected@));
            }
            let is_hidden_now = match fog.get(current) {
                Some(s) => s.is_hidden(),
                None => false,
            };
            if !is_hidden_now {
                proof {
                    lemma_reveal_skip(of, gr, location, fog@, pending@, affected@, current);
                }
                continue ;
            }
            proof {
                assert(fog@.get(current) is Some && fog@.get(current)->Some_0 is Hidden);
                lemma_get_in_grid(fog@, current);
                assert(loc_in_grid(current, w, h));
                lemma_get_in_grid(gr, current);
                assert(gr.get(current) is Some);
                lemma_to_from_index(current, w, h);
                lemma_adj_mines_le_8(gr, current);
            }
            let ghost ci = spec_to_index(current, w)->Some_0;
            let target = match ground.get(current) {
                Some(g) => match *g {
                    GroundKind::Dirt => State::Revealed {
                        adj_mines: Self::mines_in_proximity(ground, current),
                    },
                    GroundKind::Mine => State::Exploded,
                },
                None => vstd::pervasive::unreached(),
            };
            proof {
                assert(target == spec_reveal_target(gr, current));
                assert(fog@.cells[ci] is Hidden);
                assert(!(target is Hidden));
                lemma_count_update(fog@.cells, is_hidden_pred(), ci, target);
            }
            let ghost fog_mid = fog@;
            let ghost pend_popped = pending@;
            let ghost aff0 = affected@;
            fog.set(current, target);
            affected.push(current);
            let is_spreading = matches!(target, State::Revealed { adj_mines: 0 });
            if is_spreading {
                let ns = current.neighbours();
                let ghost pend0 = pending@;
                let mut k: usize = 0;
                while k < 8
                    invariant
                        k <= 8,
                        ns@ == spec_neighbours(current),
                        pending@ == pend0 + spec_neighbours(current).take(k as int),
                    decreases 8 - k,
                {
                    pending.push_back(*ns.get(k).unwrap());
                    proof {
                        assert(pending@ =~= pend0 + spec_neighbours(current).take(k as int + 1));
                    }
                    k = k + 1;
                }
                proof {
                    assert(pending@ =~= pend0 + spec_neighbours(current));
                }
            }
            proof {
                assert(fog@ == fog_mid.set(current, target));
                assert(fog@.cells == fog_mid.cells.update(ci, target));
                assert(count_where(fog@.cells, is_hidden_pred()) < count_where(
                    fog_mid.cells,
                    is_hidden_pred(),
                ));
                lemma_reveal_step(
                    of,
                    gr,
                    location,
                    fog_mid,
                    pend_popped,
                    aff0,
                    current,
                    target,
                    is_spreading,
                    fog@,
                    pending@,
                );
                assert(aff0.push(current) =~= affected@);
            }
        }
        proof {
            assert(pending@ =~= Seq::<Location>::empty());
            lemma_reveal_inv_final(of, gr, location, fog@, affected@);
        }
        affected
    }


    /// Forcibly uncovers the whole board: every mine explodes and every
    /// dirt cell shows its count.  Used for display after a loss; the game
    /// state is not touched.
    pub fn reveal_all(&mut self)
        requires
            old(self)@.inv(),
        ensures
            final(self)@.state == old(self)@.state,
            final(self)@.ground == old(self)@.ground,
            final(self)@.fog.width == old(self)@.fog.width,
            final(self)@.fog.height == old(self)@.fog.height,
            final(self)@.fog.cells.len() == old(self)@.fog.cells.len(),
            forall|i: int|
                0 <= i < old(self)@.ground.cells.len() && i < old(self)@.fog.cells.len() ==> (
                if old(self)@.ground.cells[i] is Mine {
                    final(self)@.fog.cells[i] is Exploded
                } else {
                    final(self)@.fog.cells[i] matches State::Revealed { adj_mines } && adj_mines
                        == spec_adj_mines(
                        old(self)@.ground,
                        spec_from_index(i, old(self)@.ground.width as int),
                    )
                }),
            forall|i: int|
                old(self)@.ground.cells.len() <= i < old(self)@.fog.cells.len()
                    ==> final(self)@.fog.cells[i] == old(self)@.fog.cells[i],
            old(self)@.state !is Initial || old(self)@.ground.cells.len() == 0
                ==> final(self)@.inv(),
    {
        let n = self.ground.len();
        let mut i: usize = 0;
        while i < n
            invariant
                i <= n,
                n == self@.ground.cells.len(),
                self@.ground == old(self)@.ground,
                self@.state == old(self)@.state,
                self@.fog.width == old(self)@.fog.width,
                self@.fog.height == old(self)@.fog.height,
                self@.fog.cells.len() == old(self)@.fog.cells.len(),
                old(self)@.inv(),
                forall|j: int|
                    0 <= j < i && j < self@.fog.cells.len() ==> (
                    if old(self)@.ground.cells[j] is Mine {
                        self@.fog.cells[j] is Exploded
                    } else {
                        self@.fog.cells[j] matches State::Revealed { adj_mines } && adj_mines
                            == spec_adj_mines(
                            old(self)@.ground,
                            spec_from_index(j, old(self)@.ground.width as int),
                        )
                    }),
                forall|j: int|
                    i <= j < self@.fog.cells.len() ==> self@.fog.cells[j] == old(
                        self,
                    )@.fog.cells[j],
            decreases n - i,
        {
            proof {
                assert(self@.ground.width >= 1) by {
                    if self@.ground.width == 0 {
                        assert(self@.ground.width * self@.ground.height == 0) by (nonlinear_arith)
                            requires
                                self@.ground.width == 0,
                        ;
                    }
                };
            }
            let location = Location::from_index(i, self.ground.width());
            let new_state = match self.ground.get_index(i).unwrap() {
                GroundKind::Mine => State::Exploded,
                GroundKind::Dirt => State::Revealed {
                    adj_mines: Self::mines_in_proximity(&self.ground, location),
                },
            };
            self.fog.set_index(i, new_state);
            i = i + 1;
        }
        proof {
            if old(self)@.state !is Initial || old(self)@.ground.cells.len() == 0 {
                assert(old(self)@.dims_match() || old(self)@.ground.cells.len() == 0);
                if self@.dims_match() {
                    assert forall|i: int|
                        0 <= i < self@.fog.cells.len() implies {
                        &&& (#[trigger] self@.fog.cells[i] is Exploded ==> self@.ground.cells[i]
                            is Mine)
                        &&& (self@.fog.cells[i] matches State::Revealed { adj_mines }
                            ==> self@.ground.cells[i] is Dirt && adj_mines == spec_adj_mines(
                            self@.ground,
                            spec_from_index(i, self@.fog.width as int),
                        ))
                    } by {
                        if i < old(self)@.ground.cells.len() {
                        } else {
                            assert(self@.fog.cells[i] == old(self)@.fog.cells[i]);
                        }
                    }
                }
            }
        }
    }

    /// Covers one hidden or revealed cell back up; marked and exploded
    /// cells stay as they are.
    pub fn unreveal(&mut self, location: Location) -> (r: Option<State>)
        requires
            old(self)@.inv(),
        ensures
            final(self)@.ground == old(self)@.ground,
            final(self)@.state == old(self)@.state,
            final(self)@.inv(),
            match old(self)@.fog.get(location) {
                Some(s) => if s is Hidden || s is Revealed {
                    r == Some(State::Hidden) && final(self)@.fog == old(self)@.fog.set(
                        location,
                        State::Hidden,
                    )
                } else {
                    r is None && final(self)@.fog == old(self)@.fog
                },
                None => r is None && final(self)@.fog == old(self)@.fog,
            },
    {
        let can = match self.fog.get(location) {
            Some(s) => s.is_hidden() || s.is_revealed(),
            None => false,
        };
        if !can {
            return None;
        }
        self.fog.set(location, State::Hidden);
        proof {
            let pre = old(self)@;
            let post = self@;
            assert(post.fog.cells.len() == pre.fog.cells.len());
            if post.dims_match() {
                assert forall|i: int|
                    0 <= i < post.fog.cells.len() implies {
                    &&& (#[trigger] post.fog.cells[i] is Exploded ==> post.ground.cells[i] is Mine)
                    &&& (post.fog.cells[i] matches State::Revealed { adj_mines }
                        ==> post.ground.cells[i] is Dirt && adj_mines == spec_adj_mines(
                        post.ground,
                        spec_from_index(i, post.fog.width as int),
                    ))
                } by {
                    if post.fog.cells[i] != pre.fog.cells[i] {
                        assert(post.fog.cells[i] == State::Hidden);
                    }
                }
            }
        }
        Some(State::Hidden)
    }

    /// Applies one player command.  The very first command installs the
    /// generated ground; then the action is dispatched against the fog at
    /// the commanded cell, and the game state advances.  A command that
    /// does not fit its cell is rejected with `Failed` and changes neither
    /// fog nor state.
    #[verifier::rlimit(100)]
    pub fn execute(&mut self, cmd: PendingCommand) -> (r: ExecutionResult)
        requires
            old(self)@.inv(),
            old(self).gen_ready(),
        ensures
            final(self)@.inv(),
            final(self).gen_ready(),
            forall|w: int, h: int, m: int|
                #[trigger] final(self).accepts_request(w, h, m) == old(self).accepts_request(
                    w,
                    h,
                    m,
                ),
            old(self)@.state !is Win ==> final(self)@.win_consistent(),
            match r {
                ExecutionResult::Failed => spec_execute_post(
                    old(self)@,
                    final(self)@,
                    cmd,
                    true,
                    false,
                    Seq::empty(),
                ),
                ExecutionResult::SuccessAndStateChange(done) => done.location == cmd.location
                    && done.action == cmd.action && spec_execute_post(
                    old(self)@,
                    final(self)@,
                    cmd,
                    false,
                    true,
                    done.updated_locations@,
                ),
                ExecutionResult::SuccessNoStateChange(done) => done.location == cmd.location
                    && done.action == cmd.action && spec_execute_post(
                    old(self)@,
                    final(self)@,
                    cmd,
                    false,
                    false,
                    done.updated_locations@,
                ),
            },
    {
        let ghost pre = old(self)@;
        if let GameState::Initial { mine_count } = *self.state() {
            let params = Parameters::new(self.fog.width(), self.fog.height(), mine_count);
            let new_ground = self.generator.generate(params, cmd.location);
            self.ground = new_ground;
        }
        let ghost gv = self@.ground;
        proof {
            assert(spec_generated_ok(pre, gv, cmd));
            assert(self@.fog == pre.fog);
            assert(self@.state == pre.state);
            assert(gv.width == pre.fog.width && gv.height == pre.fog.height);
            assert(gv.cells.len() == pre.fog.cells.len()) by {
                assert(gv.width * gv.height == pre.fog.width * pre.fog.height);
            };
        }
        let cell: Option<State> = match self.fog.get(cmd.location) {
            Some(s) => Some(*s),
            None => None,
        };
        let applies = match (cmd.action, cell) {
            (Action::Reveal, Some(State::Hidden)) => true,
            (Action::Mark, Some(State::Hidden)) => true,
            (Action::ToggleMark, Some(State::Hidden)) => true,
            (Action::Unmark, Some(State::Marked)) => true,
            (Action::ToggleMark, Some(State::Marked)) => true,
            _ => false,
        };
        proof {
            assert(applies == spec_execute_applies(pre.fog, cmd));
        }
        if !applies {
            proof {
                if pre.state is Initial {
                    assert(self@.cells_consistent()) by {
                        assert(forall|i: int|
                            0 <= i < self@.fog.cells.len() ==> #[trigger] self@.fog.cells[i]
                                is Hidden);
                    };
                }
                assert(self@.inv());
            }
            return ExecutionResult::Failed;
        }
        let updated: Vec<Location> = match (cmd.action, cell) {
            (Action::Reveal, Some(State::Hidden)) => {
                Self::reveal_location(&mut self.fog, &self.ground, cmd.location)
            },
            (Action::Mark, Some(State::Hidden))
            | (Action::ToggleMark, Some(State::Hidden)) => {
                self.fog.set(cmd.location, State::Marked);
                let mut one: Vec<Location> = Vec::new();
                one.push(cmd.location);
                proof {
                    assert(one@ =~= seq![cmd.location]);
                }
                one
            },
            (Action::Unmark, Some(State::Marked))
            | (Action::ToggleMark, Some(State::Marked)) => {
                self.fog.set(cmd.location, State::Hidden);
                let mut one: Vec<Location> = Vec::new();
                one.push(cmd.location);
                proof {
                    assert(one@ =~= seq![cmd.location]);
                }
                one
            },
            _ => vstd::pervasive::unreached(),
        };
        proof {
            assert(self@.ground == gv);
            assert(self@.fog.cells.len() == self@.ground.cells.len());
        }
        let state_changed = self.state.update(&self.fog, &self.ground);
        proof {
            lemma_execute_success_inv(pre, self@, cmd);
        }
        match state_changed {
            true => ExecutionResult::SuccessAndStateChange(cmd.executed(updated)),
            false => ExecutionResult::SuccessNoStateChange(cmd.executed(updated)),
        }
    }
}

impl Minefield<crate::generator::ImprovedGenerator> {
    /// A fresh board with the default first-click-safe generator.
    pub fn new(params: Parameters) -> (r: Self)
        requires
            params.width * params.height <= usize::MAX,
            params.mine_count + 9 <= params.width * params.height,
        ensures
            r@.fog.width == params.width,
            r@.fog.height == params.height,
            spec_all_hidden(r@.fog.cells),
            r@.ground.cells.len() == 0,
            r@.state == (GameStateView::Initial { mine_count: params.mine_count as nat }),
            r@.inv(),
            r@.win_consistent(),
            forall|w: int, h: int, m: int|
                #[trigger] r.accepts_request(w, h, m) == (m + 9 <= w * h && w * h <= usize::MAX),
            r.gen_ready(),
    {
        Self::with_generator(params, crate::generator::ImprovedGenerator)
    }
}

impl Minefield<crate::generator::DummyGenerator> {
    /// Loads an active game from the given board text.
    ///
    /// Cell characters: `m` hidden mine, `M` exploded mine, `F` marked
    /// mine, `f` marked dirt, `e` hidden dirt, `E` revealed dirt, and the
    /// digits `0` to `8` for revealed dirt with an advisory count.  Rows
    /// are separated by newlines, other whitespace within a row is
    /// ignored, blank rows are skipped, and every row must have the same
    /// width.  The neighbouring-mine count of every revealed cell is
    /// recomputed from the grid; a stated digit is advisory only.
    #[verifier::rlimit(100)]
    pub fn new_active_game(grid: &str) -> (r: Self)
        requires
            valid_grid(grid@),
        ensures
            r@.inv(),
            r.gen_ready(),
            r@.state is InProgress,
            r@.fog.width == spec_grid_width(grid@),
            r@.ground.width == r@.fog.width,
            r@.ground.height == r@.fog.height,
            r@.ground.cells.len() == grid_cells_from(grid@, 0).len(),
            r@.fog.cells.len() == r@.ground.cells.len(),
            forall|i: int|
                0 <= i < r@.ground.cells.len() ==> r@.ground.cells[i] == spec_ground_of(
                    grid_cells_from(grid@, 0)[i],
                ),
            forall|i: int|
                0 <= i < r@.fog.cells.len() ==> {
                    let c = grid_cells_from(grid@, 0)[i];
                    &&& (c == 'M' ==> #[trigger] r@.fog.cells[i] is Exploded)
                    &&& (c == 'm' || c == 'e' ==> r@.fog.cells[i] is Hidden)
                    &&& (c == 'F' || c == 'f' ==> r@.fog.cells[i] is Marked)
                    &&& (c == 'E' || c == '0' || c == '1' || c == '2' || c == '3' || c == '4' || c
                        == '5' || c == '6' || c == '7' || c == '8' ==> r@.fog.cells[i] is Revealed)
                },
    {
        let n = grid.unicode_len();
        let mut cells: Vec<char> = Vec::new();
        let mut width: usize = 0;
        let mut have_width = false;
        let mut rows: usize = 0;
        let mut cur: usize = 0;
        let mut i: usize = 0;
        while i < n
            invariant
                i <= n,
                n == grid@.len(),
                valid_grid(grid@),
                grid_scan_ok(
                    grid@,
                    i as int,
                    cur as nat,
                    if have_width {
                        Some(width as nat)
                    } else {
                        None
                    },
                ),
                cells@ + grid_cells_from(grid@, i as int) == grid_cells_from(grid@, 0),
                spec_grid_width(grid@) == if have_width {
                    width as nat
                } else {
                    grid_width_from(grid@, i as int, cur as nat)
                },
                have_width ==> cells@.len() == width * rows + cur && width >= 1 && rows >= 1,
                !have_width ==> rows == 0 && cells@.len() == cur,
                cells@.len() <= i,
                rows <= cells@.len(),
                cur <= cells@.len(),
                forall|j: int| 0 <= j < cells@.len() ==> is_cell_char(#[trigger] cells@[j]),
            decreases n - i,
        {
            let c = grid.get_char(i);
            if c == '\n' {
                if cur == 0 {
                } else if !have_width {
                    width = cur;
                    have_width = true;
                    rows = 1;
                    cur = 0;
                    proof {
                        assert(cells@.len() == width * 1 + 0) by (nonlinear_arith)
                            requires
                                cells@.len() == width,
                        ;
                    }
                } else {
                    assert(width == cur);
                    rows = rows + 1;
                    cur = 0;
                    proof {
                        assert(width * (rows - 1) + width == width * rows) by (nonlinear_arith);
                        assert(rows <= width * rows) by (nonlinear_arith)
                            requires
                                width >= 1,
                                rows >= 0,
                        ;
                    }
                }
            } else if c == ' ' || c == '\t' || c == '\r' || c == '\u{c}' {
            } else {
                proof {
                    assert(is_cell_char(c));
                }
                let ghost old_cells = cells@;
                cells.push(c);
                cur = cur + 1;
                proof {
                    assert(old_cells + (seq![c] + grid_cells_from(grid@, i as int + 1)) =~= (
                    old_cells + seq![c]) + grid_cells_from(grid@, i as int + 1));
                }
            }
            i = i + 1;
        }
        if cur > 0 {
            if !have_width {
                width = cur;
                have_width = true;
                rows = 1;
                proof {
                    assert(cells@.len() == width * 1) by (nonlinear_arith)
                        requires
                            cells@.len() == width,
                    ;
                }
            } else {
                assert(width == cur);
                proof {
                    assert(rows < width * rows + cur) by (nonlinear_arith)
                        requires
                            width >= 1,
                            rows >= 0,
                            cur >= 1,
                    ;
                }
                rows = rows + 1;
                proof {
                    assert(width * (rows - 1) + width == width * rows) by (nonlinear_arith);
                }
            }
        }
        proof {
            assert(grid_cells_from(grid@, n as int) =~= Seq::empty());
            assert(cells@ =~= grid_cells_from(grid@, 0));
            if !have_width {
                assert(cells@.len() == 0);
                assert(false);
            }
            assert(cells@.len() == width * rows);
        }
        let total = cells.len();
        let mut garea: Vec<GroundKind> = Vec::new();
        let mut gi: usize = 0;
        while gi < total
            invariant
                gi <= total,
                total == cells@.len(),
                garea@.len() == gi,
                forall|j: int|
                    0 <= j < gi ==> garea@[j] == spec_ground_of(#[trigger] cells@[j]),
            decreases total - gi,
        {
            let c = *cells.get(gi).unwrap();
            let g = match c {
                'm' | 'M' | 'F' => GroundKind::Mine,
                _ => GroundKind::Dirt,
            };
            garea.push(g);
            gi = gi + 1;
        }
        let ground: Area<GroundKind> = Area::with_area(width, rows, garea);
        let mut farea: Vec<State> = Vec::new();
        let mut fi: usize = 0;
        while fi < total
            invariant
                fi <= total,
                total == cells@.len(),
                width >= 1,
                ground@.width == width,
                ground@.cells.len() == total,
                farea@.len() == fi,
                forall|j: int|
                    0 <= j < fi ==> {
                        let c = #[trigger] cells@[j];
                        &&& (c == 'M' ==> farea@[j] is Exploded)
                        &&& (c == 'm' || c == 'e' ==> farea@[j] is Hidden)
                        &&& (c == 'F' || c == 'f' ==> farea@[j] is Marked)
                        &&& (c != 'M' && c != 'm' && c != 'e' && c != 'F' && c != 'f' ==> (
                        farea@[j] matches State::Revealed { adj_mines } && adj_mines
                            == spec_adj_mines(ground@, spec_from_index(j, width as int))))
                    },
            decreases total - fi,
        {
            let c = *cells.get(fi).unwrap();
            let st = if c == 'M' {
                State::Exploded
            } else if c == 'm' || c == 'e' {
                State::Hidden
            } else if c == 'F' || c == 'f' {
                State::Marked
            } else {
                let loc = Location::from_index(fi, width);
                proof {
                    lemma_adj_mines_le_8(ground@, loc);
                }
                State::Revealed { adj_mines: Self::mines_in_proximity(&ground, loc) }
            };
            farea.push(st);
            fi = fi + 1;
        }
        let fog: Area<State> = Area::with_area(width, rows, farea);
        let r = Self {
            ground,
            fog,
            state: GameState::InProgress { start_time: crate::clock::instant_now() },
            generator: crate::generator::DummyGenerator,
        };
        proof {
            assert(r@.fog.cells.len() == r@.ground.cells.len());
            assert(r@.dims_match());
            assert forall|i2: int|
                0 <= i2 < r@.fog.cells.len() implies {
                &&& (#[trigger] r@.fog.cells[i2] is Exploded ==> r@.ground.cells[i2] is Mine)
                &&& (r@.fog.cells[i2] matches State::Revealed { adj_mines } ==> r@.ground.cells[i2]
                    is Dirt && adj_mines == spec_adj_mines(
                    r@.ground,
                    spec_from_index(i2, r@.fog.width as int),
                ))
            } by {
                let c = cells@[i2];
                assert(is_cell_char(c));
                if r@.fog.cells[i2] is Exploded {
                    assert(c == 'M');
                }
                if r@.fog.cells[i2] is Revealed {
                    assert(c != 'm' && c != 'M' && c != 'F');
                }
            }
            assert(r@.inv());
        }
        r
    }
}

/// What a revealed cell shows is the truth: on any board satisfying the
/// invariant, a revealed cell sits on dirt and shows exactly the number of
/// neighbouring mines.  Every constructor establishes the invariant and
/// every command preserves it, so this holds of every reachable board.
pub proof fn lemma_revealed_cells_truthful(v: MinefieldView, i: int)
    requires
        v.inv(),
        v.dims_match(),
        0 <= i < v.fog.cells.len(),
        v.fog.cells[i] is Revealed,
    ensures
        v.ground.cells[i] is Dirt,
        v.fog.cells[i]->adj_mines == spec_adj_mines(v.ground, spec_from_index(i, v.fog.width as int)),
{
}

/// First-click safety: after the first command on a fresh board, neither
/// the commanded cell nor any of its eight neighbours is exploded, because
/// the generator kept them all mine-free.
pub proof fn lemma_first_command_safe(pre: MinefieldView, post: MinefieldView, cmd: PendingCommand)
    requires
        pre.state is Initial,
        post.inv(),
        spec_generated_ok(pre, post.ground, cmd),
        post.fog.width == pre.fog.width,
        post.fog.height == pre.fog.height,
    ensures
        post.fog.get(cmd.location) != Some(State::Exploded),
        forall|k: int|
            0 <= k < 8 ==> post.fog.get(#[trigger] spec_neighbours(cmd.location)[k]) != Some(
                State::Exploded,
            ),
{
    if post.dims_match() {
        assert(post.ground.cells.len() == post.fog.cells.len()) by {
            assert(post.ground.width * post.ground.height == post.fog.width * post.fog.height);
        }
        assert forall|l: Location|
            l == cmd.location || spec_neighbours(cmd.location).contains(l) implies post.fog.get(l)
            != Some(State::Exploded) by {
            if post.fog.get(l) == Some(State::Exploded) {
                let i = spec_to_index(l, post.fog.width as int)->Some_0;
                assert(post.fog.cells[i] is Exploded);
                assert(post.ground.cells[i] is Mine);
                assert(post.ground.get(l) == Some(post.ground.cells[i]));
                assert(false);
            }
        }
        assert forall|k: int|
            0 <= k < 8 implies post.fog.get(#[trigger] spec_neighbours(cmd.location)[k]) != Some(
            State::Exploded,
        ) by {
            assert(spec_neighbours(cmd.location).contains(spec_neighbours(cmd.location)[k]));
        }
    } else {
        assert(post.state is Initial);
        assert forall|l: Location| post.fog.get(l) != Some(State::Exploded) by {
            if post.fog.get(l) is Some {
                let i = spec_to_index(l, post.fog.width as int)->Some_0;
                assert(post.fog.cells[i] is Hidden);
            }
        }
    }
}

/// Idempotence of the plain commands: after a successful `Reveal`, `Mark`
/// or `Unmark`, issuing the very same command again is rejected and leaves
/// the whole board unchanged.  (`ToggleMark` is excluded: it alternates.)
pub proof fn lemma_command_idempotent(
    pre: MinefieldView,
    mid: MinefieldView,
    post: MinefieldView,
    cmd: PendingCommand,
    changed1: bool,
    updated1: Seq<Location>,
    failed2: bool,
    changed2: bool,
    updated2: Seq<Location>,
)
    requires
        pre.inv(),
        mid.inv(),
        cmd.action != Action::ToggleMark,
        spec_execute_applies(pre.fog, cmd),
        spec_execute_post(pre, mid, cmd, false, changed1, updated1),
        spec_execute_post(mid, post, cmd, failed2, changed2, updated2),
    ensures
        failed2,
        post.fog == mid.fog,
        post.state == mid.state,
        post.ground == mid.ground,
{
    let l = cmd.location;
    let w = pre.fog.width as int;
    let h = pre.fog.height as int;
    lemma_get_in_grid(pre.fog, l);
    lemma_to_from_index(l, w, h);
    let li = spec_to_index(l, w)->Some_0;
    assert(!spec_execute_applies(mid.fog, cmd)) by {
        match cmd.action {
            Action::Reveal => {
                assert(spec_revealed_cell(pre.fog, mid.ground, l, l)) by {
                    lemma_reaches_self(pre.fog, mid.ground, l);
                }
                assert(mid.fog.cells[li] == spec_reveal_target(mid.ground, l));
                assert(mid.fog.get(l) == Some(mid.fog.cells[li]));
                assert(!(mid.fog.cells[li] is Hidden));
            },
            Action::Mark => {
                lemma_set_get(pre.fog, l, State::Marked);
            },
            Action::Unmark => {
                lemma_set_get(pre.fog, l, State::Hidden);
            },
            Action::ToggleMark => {},
        }
    }
    assert(failed2);
    // the second command finds a board past its first command, so the
    // ground is not regenerated either
    assert(mid.state !is Initial) by {
        match pre.state {
            GameStateView::Initial { .. } => {
                assert(spec_all_hidden(pre.fog.cells));
                match cmd.action {
                    Action::Reveal => {
                        assert(spec_revealed_cell(pre.fog, mid.ground, l, l)) by {
                            lemma_reaches_self(pre.fog, mid.ground, l);
                        }
                        assert(!(mid.fog.cells[li] is Hidden));
                        assert(!spec_all_hidden(mid.fog.cells));
                    },
                    Action::Mark => {
                        assert(mid.fog == pre.fog.set(l, State::Marked));
                        assert(mid.fog.cells[li] is Marked);
                        assert(!spec_all_hidden(mid.fog.cells));
                    },
                    Action::Unmark => {
                        assert(pre.fog.cells[li] is Hidden);
                        assert(pre.fog.get(l) == Some(pre.fog.cells[li]));
                        assert(false);
                    },
                    Action::ToggleMark => {},
                }
            },
            _ => {},
        }
    }
}

/// ToggleMark is self-inverse on a hidden cell: toggling twice returns the
/// fog to exactly what it was.
pub proof fn lemma_toggle_self_inverse(
    pre: MinefieldView,
    mid: MinefieldView,
    post: MinefieldView,
    cmd: PendingCommand,
    changed1: bool,
    updated1: Seq<Location>,
    failed2: bool,
    changed2: bool,
    updated2: Seq<Location>,
)
    requires
        pre.inv(),
        cmd.action == Action::ToggleMark,
        pre.fog.get(cmd.location) == Some(State::Hidden),
        spec_execute_post(pre, mid, cmd, false, changed1, updated1),
        spec_execute_post(mid, post, cmd, failed2, changed2, updated2),
    ensures
        !failed2,
        post.fog.cells == pre.fog.cells,
        post.fog.width == pre.fog.width,
        post.fog.height == pre.fog.height,
{
    let l = cmd.location;
    let w = pre.fog.width as int;
    let h = pre.fog.height as int;
    lemma_get_in_grid(pre.fog, l);
    lemma_to_from_index(l, w, h);
    let li = spec_to_index(l, w)->Some_0;
    assert(mid.fog == pre.fog.set(l, State::Marked));
    lemma_set_get(pre.fog, l, State::Marked);
    assert(mid.fog.get(l) == Some(State::Marked));
    assert(spec_execute_applies(mid.fog, cmd));
    assert(!failed2);
    assert(post.fog == mid.fog.set(l, State::Hidden));
    assert(mid.fog.cells == pre.fog.cells.update(li, State::Marked));
    assert(post.fog.cells == mid.fog.cells.update(li, State::Hidden));
    assert(pre.fog.cells[li] is Hidden);
    assert(post.fog.cells =~= pre.fog.cells);
}

/// A game won by a command really is fully resolved: when a command moves
/// the state to `Win`, every dirt cell is revealed and every mine is
/// marked.  (Forced reveals and unreveals after the game has ended are not
/// commands and need not preserve this.)
pub proof fn lemma_win_is_resolved(
    pre: MinefieldView,
    post: MinefieldView,
    cmd: PendingCommand,
    failed: bool,
    changed: bool,
    updated: Seq<Location>,
)
    requires
        spec_execute_post(pre, post, cmd, failed, changed, updated),
        pre.state !is Win,
        post.state is Win,
    ensures
        spec_won(post.fog.cells, post.ground.cells),
{
    assert(!failed);
}

} // verus!
