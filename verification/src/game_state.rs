//! The game lifecycle: `Initial` until the first command, `InProgress` while
//! playing, and the terminal `Win` and `Loss` states with their captured
//! durations.

use vstd::prelude::*;

use crate::area::Area;
use crate::clock;
use crate::mine_field::{spec_all_hidden, spec_cell_done, spec_lost, spec_won, GroundKind, State};

verus! {

/// Where the game stands.  Durations and instants are opaque clock readings;
/// no contract depends on their values.
#[derive(Debug, Clone, Copy)]
pub enum GameState {
    Initial { mine_count: usize },
    InProgress { start_time: std::time::Instant },
    Loss { game_duration: std::time::Duration },
    Win { game_duration: std::time::Duration },
}

/// The mathematical model of a [`GameState`]: the lifecycle tag, with the
/// mine budget while no command has been applied.  Clock payloads carry no
/// promised meaning and are dropped.
pub enum GameStateView {
    Initial { mine_count: nat },
    InProgress,
    Loss,
    Win,
}

impl View for GameState {
    type V = GameStateView;

    open spec fn view(&self) -> GameStateView {
        match *self {
            GameState::Initial { mine_count } => GameStateView::Initial {
                mine_count: mine_count as nat,
            },
            GameState::InProgress { .. } => GameStateView::InProgress,
            GameState::Loss { .. } => GameStateView::Loss,
            GameState::Win { .. } => GameStateView::Win,
        }
    }
}

/// The lifecycle transition relation.  From `Initial`, the first observable
/// fog change starts (or immediately loses) the game; while `InProgress`,
/// the won and lost conditions decide; the terminal states never move.
pub open spec fn spec_update(
    s: GameStateView,
    fog: Seq<State>,
    ground: Seq<GroundKind>,
) -> GameStateView {
    match s {
        GameStateView::Initial { .. } => if spec_all_hidden(fog) {
            s
        } else if spec_lost(fog) {
            GameStateView::Loss
        } else {
            GameStateView::InProgress
        },
        GameStateView::InProgress => if spec_won(fog, ground) && !spec_lost(fog) {
            GameStateView::Win
        } else if spec_lost(fog) && !spec_won(fog, ground) {
            GameStateView::Loss
        } else {
            s
        },
        _ => s,
    }
}

/// Whether some cell of `fog` is exploded.
fn any_exploded(fog: &Area<State>) -> (r: bool)
    ensures
        r == spec_lost(fog@.cells),
{
    let n = fog.len();
    let mut i: usize = 0;
    while i < n
        invariant
            i <= n,
            n == fog@.cells.len(),
            forall|j: int| 0 <= j < i ==> !(fog@.cells[j] is Exploded),
        decreases n - i,
    {
        if fog.get_index(i).unwrap().is_exploded() {
            return true;
        }
        i = i + 1;
    }
    false
}

/// Whether every cell of `fog` is still hidden.
fn fog_all_hidden(fog: &Area<State>) -> (r: bool)
    ensures
        r == spec_all_hidden(fog@.cells),
{
    let n = fog.len();
    let mut i: usize = 0;
    while i < n
        invariant
            i <= n,
            n == fog@.cells.len(),
            forall|j: int| 0 <= j < i ==> fog@.cells[j] is Hidden,
        decreases n - i,
    {
        if !fog.get_index(i).unwrap().is_hidden() {
            return false;
        }
        i = i + 1;
    }
    true
}

/// Whether every cell satisfies the winning condition.
fn all_done(fog: &Area<State>, ground: &Area<GroundKind>) -> (r: bool)
    requires
        fog@.cells.len() == ground@.cells.len(),
    ensures
        r == spec_won(fog@.cells, ground@.cells),
{
    let n = fog.len();
    let mut i: usize = 0;
    while i < n
        invariant
            i <= n,
            n == fog@.cells.len(),
            n == ground@.cells.len(),
            forall|j: int| 0 <= j < i ==> spec_cell_done(fog@.cells[j], #[trigger] ground@.cells[j]),
        decreases n - i,
    {
        let s = *fog.get_index(i).unwrap();
        let g = *ground.get_index(i).unwrap();
        let done = s.is_revealed() != (g.is_mine() && s.is_marked());
        if !done {
            return false;
        }
        i = i + 1;
    }
    true
}

impl GameState {
    /// A fresh game that will place `mine_count` mines on its first command.
    pub fn new(mine_count: usize) -> (r: Self)
        ensures
            r@ == (GameStateView::Initial { mine_count: mine_count as nat }),
    {
        Self::Initial { mine_count }
    }

    /// Advances the lifecycle after a command, reading the winning and
    /// losing conditions off the two layers; returns whether the state
    /// moved.
    pub fn update(&mut self, fog: &Area<State>, ground: &Area<GroundKind>) -> (changed: bool)
        requires
            fog@.cells.len() == ground@.cells.len(),
        ensures
            final(self)@ == spec_update(old(self)@, fog@.cells, ground@.cells),
            changed == (final(self)@ != old(self)@),
    {
        let lost = any_exploded(fog);
        let won = all_done(fog, ground);
        let old_state: GameState = *self;
        let (new_state, changed): (GameState, bool) = match old_state {
            GameState::Initial { .. } => {
                if fog_all_hidden(fog) {
                    (old_state, false)
                } else if lost {
                    (GameState::Loss { game_duration: clock::duration_zero() }, true)
                } else {
                    (GameState::InProgress { start_time: clock::instant_now() }, true)
                }
            },
            GameState::InProgress { start_time } => {
                match (won, lost) {
                    (false, true) => (
                        GameState::Loss { game_duration: clock::instant_elapsed(&start_time) },
                        true,
                    ),
                    (true, false) => (
                        GameState::Win { game_duration: clock::instant_elapsed(&start_time) },
                        true,
                    ),
                    (false, false) => (old_state, false),
                    (true, true) => {
                        proof {
                            let i = choose|i: int|
                                0 <= i < fog@.cells.len() && fog@.cells[i] is Exploded;
                            assert(spec_cell_done(fog@.cells[i], ground@.cells[i]));
                            assert(false);
                        }
                        (old_state, false)
                    },
                }
            },
            _ => (old_state, false),
        };
        *self = new_state;
        changed
    }

    /// Returns `true` if the game state is [`GameState::Win`].
    pub fn is_win(&self) -> (r: bool)
        ensures
            r == (self@ is Win),
    {
        matches!(self, Self::Win { .. })
    }

    /// Returns `true` if the game state is [`GameState::Loss`].
    pub fn is_loss(&self) -> (r: bool)
        ensures
            r == (self@ is Loss),
    {
        matches!(self, Self::Loss { .. })
    }
}

} // verus!
