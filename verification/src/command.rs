//! Player commands: a location paired with an action, before and after
//! execution.

use vstd::prelude::*;

use crate::location::Location;

verus! {

/// What the player asks to do at a cell.
#[derive(Debug, Copy, Clone, PartialEq, Eq, Structural)]
pub enum Action {
    Reveal,
    Mark,
    Unmark,
    ToggleMark,
}

/// A command that has not been applied yet.
#[derive(Debug, Copy, Clone, PartialEq, Eq, Structural)]
pub struct PendingCommand {
    pub location: Location,
    pub action: Action,
}

/// A command that was applied, together with the cells whose fog changed.
#[derive(Debug, Clone)]
pub struct ExecutedCommand {
    pub location: Location,
    pub action: Action,
    pub updated_locations: Vec<Location>,
}

impl ExecutedCommand {
    /// Records that `cmd` was applied and changed exactly
    /// `updated_locations`.
    pub fn new(cmd: PendingCommand, updated_locations: Vec<Location>) -> (r: Self)
        ensures
            r.location == cmd.location,
            r.action == cmd.action,
            r.updated_locations@ == updated_locations@,
    {
        Self { location: cmd.location, action: cmd.action, updated_locations }
    }
}

impl PendingCommand {
    /// A command to apply `action` at `location`.
    pub fn new(location: Location, action: Action) -> (r: Self)
        ensures
            r.location == location,
            r.action == action,
    {
        Self { location, action }
    }

    /// Marks this command as executed with the given changed cells.
    pub fn executed(self, updated_locations: Vec<Location>) -> (r: ExecutedCommand)
        ensures
            r.location == self.location,
            r.action == self.action,
            r.updated_locations@ == updated_locations@,
    {
        ExecutedCommand::new(self, updated_locations)
    }
}

} // verus!
