//! What a player that chooses its own moves offers.

use crate::game::{Command, Game};
use vstd::prelude::*;

verus! {

/// A player that, shown a game, says what it does on its turn. It looks at the
/// game and leaves it as it is.
pub trait Bot: Sized {
    /// A new player.
    fn new() -> Self;

    /// What the player does on its turn in this game.
    fn next_command(&mut self, game: &Game) -> Command;
}

} // verus!
