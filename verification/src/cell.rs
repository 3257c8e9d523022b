//! A single square of the board and what it shows to the player.

use vstd::prelude::*;

verus! {

/// One square of the board.
#[derive(Clone, Copy, Debug, PartialEq, Eq, Structural)]
pub struct Cell {
    /// Whether a mine lies under this square.
    pub is_mine: bool,
    /// Whether the square has been uncovered.
    pub is_revealed: bool,
    /// Whether the player has planted a flag on the square.
    pub is_flagged: bool,
    /// Whether this is the mine that the player stepped on.
    pub was_triggering_click: bool,
    /// How many of the up to eight surrounding squares hold a mine.
    pub adjacent_mine_count: u8,
}

/// What a square looks like from the outside.
#[derive(Clone, Copy, Debug, PartialEq, Eq, Structural)]
pub enum DisplayState {
    /// Still covered, and not flagged.
    Hidden,
    /// Carries a flag; nothing has shown the flag to be wrong.
    Flagged,
    /// Carries a flag, but was uncovered and holds no mine.
    FlaggedIncorrectly,
    /// The mine that ended the game.
    ExplodedMine,
    /// A mine uncovered when the game ended.
    Mine,
    /// Uncovered and safe, with the number of mines around it.
    Number(u8),
}

impl Cell {
    /// A covered square with no mine, no flag and no mines around it.
    pub open spec fn blank() -> Cell {
        Cell {
            is_mine: false,
            is_revealed: false,
            is_flagged: false,
            was_triggering_click: false,
            adjacent_mine_count: 0,
        }
    }

    /// The square's appearance, as a function of its five fields.
    ///
    /// A flag wins over everything else; it is reported as wrong only once
    /// the square is uncovered and turns out to be safe.
    pub open spec fn shown(self) -> DisplayState {
        if self.is_flagged {
            if self.is_revealed && !self.is_mine {
                DisplayState::FlaggedIncorrectly
            } else {
                DisplayState::Flagged
            }
        } else if self.is_revealed {
            if self.is_mine {
                if self.was_triggering_click {
                    DisplayState::ExplodedMine
                } else {
                    DisplayState::Mine
                }
            } else {
                DisplayState::Number(self.adjacent_mine_count)
            }
        } else {
            DisplayState::Hidden
        }
    }

    /// Computes the square's appearance. The square itself is left untouched.
    pub fn display_state(&self) -> (state: DisplayState)
        ensures
            state == self.shown(),
    {
        if self.is_flagged {
            if self.is_revealed && !self.is_mine {
                DisplayState::FlaggedIncorrectly
            } else {
                DisplayState::Flagged
            }
        } else if self.is_revealed {
            if self.is_mine {
                if self.was_triggering_click {
                    DisplayState::ExplodedMine
                } else {
                    DisplayState::Mine
                }
            } else {
                DisplayState::Number(self.adjacent_mine_count)
            }
        } else {
            DisplayState::Hidden
        }
    }
}

impl Default for Cell {
    fn default() -> (cell: Cell)
        ensures
            cell == Cell::blank(),
    {
        Cell {
            is_mine: false,
            is_revealed: false,
            is_flagged: false,
            was_triggering_click: false,
            adjacent_mine_count: 0,
        }
    }
}

} // verus!
