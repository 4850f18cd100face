//! A player that places its stone on a legal point chosen at random.

use crate::board::{Point, Stone};
use crate::bot::bot_trait::Bot;
use crate::game::{Command, Game};
use crate::rules::legal_points;
use rand::rngs::ThreadRng;
use rand::seq::IndexedRandom;
use vstd::prelude::*;

verus! {

/// The generator of random numbers of the running thread.
#[verifier::external_type_specification]
#[verifier::external_body]
pub struct ExThreadRng(ThreadRng);

/// `rand::rng` hands out the generator of the running thread. Nothing is said
/// of what it will produce.
pub assume_specification[ rand::rng ]() -> (generator: ThreadRng)
;

/// `IndexedRandom::choose` on the points: one of them, whichever the
/// generator picks, or `None` if and only if there is none.
#[verifier::external_body]
fn choose_point(generator: &mut ThreadRng, points: &Vec<Point>) -> (choice: Option<Point>)
    ensures
        points.len() == 0 ==> choice is None,
        points.len() > 0 ==> choice is Some,
        choice matches Some(point) ==> points@.contains(point),
{
    points.choose(generator).copied()
}

/// The command that places a stone of colour `turn` on the chosen point, or
/// the pass where no point was chosen.
pub fn command_for(turn: Stone, choice: Option<Point>) -> (command: Command)
    ensures
        command == match choice {
            Some(point) => Command::Move { stone: turn, point },
            None => Command::Pass,
        },
{
    match choice {
        Some(point) => Command::Move { stone: turn, point },
        None => Command::Pass,
    }
}

/// A player that places its stone on any legal point, and passes only when
/// there is none.
pub struct RandomBot {
    random_generator: ThreadRng,
}

impl Bot for RandomBot {
    fn new() -> Self {
        RandomBot { random_generator: rand::rng() }
    }

    /// A stone of the colour to play on one of the legal points, or a pass if
    /// and only if there is no legal point.
    fn next_command(&mut self, game: &Game) -> (command: Command)
        ensures
            match command {
                Command::Move { stone, point } => stone == game@.turn && legal_points(
                    game@.board,
                    game@.turn,
                ).contains(point),
                Command::Pass => legal_points(game@.board, game@.turn).len() == 0,
            },
    {
        // The search works on a copy: the game that was shown stays as it is.
        let mut virtual_game = game.clone();
        proof {
            game.lemma_view();
            virtual_game.lemma_view();
        }
        let available_points = virtual_game.board.find_available_points(game.turn);
        let random_point = choose_point(&mut self.random_generator, &available_points);
        command_for(game.turn, random_point)
    }
}

} // verus!
