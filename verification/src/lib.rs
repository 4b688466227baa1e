//! A verified Minesweeper engine: a two-layer minefield state machine with
//! flood-fill reveal semantics and first-click safety, and a forward-chaining
//! constraint solver that derives provably safe and provably mined cells.

pub mod area;
mod clock;
pub mod command;
pub mod counting;
pub mod game_state;
pub mod generator;
pub mod location;
pub mod locset;
pub mod mine_field;
pub mod solver;

pub use area::Area;
pub use command::{Action, ExecutedCommand, PendingCommand};
pub use game_state::GameState;
pub use generator::{DummyGenerator, ImprovedGenerator, SimpleGenerator};
pub use location::{Bounded, Direction, Location};
pub use locset::LocationSet;
pub use mine_field::{ExecutionResult, GroundKind, Minefield, MinefieldGenerator, Parameters, State};
pub use solver::{Constraint, Fact, FactDebug, Solver};
