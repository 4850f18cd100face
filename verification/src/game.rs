//! A game: whose turn it is, the board, and when the game is over.

use crate::board::{Board, BoardCell, PlaceError, Point, Stone, BOARD_SIZE};
use crate::frac::Frac;
use crate::rules::{
    after_placement, lemma_count_ends, lemma_count_step, new_board, nth_point,
    placement_error, prisoners_fit, stones_before, stones_of, BoardView,
};
use vstd::prelude::*;

verus! {

/// What a player does on a turn.
#[derive(Debug, Clone, Copy, PartialEq, Eq, Structural)]
pub enum Command {
    /// Place a stone.
    Move { stone: Stone, point: Point },
    /// Place nothing.
    Pass,
}

/// Whether the game goes on.
#[derive(Debug, Clone, Copy, PartialEq, Eq, Structural)]
pub enum GameStatus {
    Continue,
    End,
}

/// Who has won.
#[derive(Debug, Clone, Copy, PartialEq, Eq, Structural)]
pub enum Winner {
    Black,
    White,
    Draw,
}

/// The count at the end of a game: the stones of each colour on the board, the
/// compensation that White gets on top of its stones, and the winner.
#[derive(Debug, Clone, Copy)]
pub struct GameResult {
    pub black: usize,
    pub white: usize,
    pub komi: Frac,
    pub winner: Winner,
}

/// A game of Go.
#[derive(Debug)]
pub struct Game {
    pub turn: Stone,
    pub board: Board,
    pub status: GameStatus,
    pub komi: Frac,
    pub(crate) pass_count: u8,
}

/// A game as the rules see it.
pub struct GameView {
    /// The colour to play.
    pub turn: Stone,
    /// The board.
    pub board: BoardView,
    /// Whether the game goes on.
    pub status: GameStatus,
    /// What White gets on top of its stones.
    pub komi: Frac,
    /// How many passes have followed one another.
    pub passes: nat,
}

/// Who wins with `black` stones against `white` stones and a compensation of
/// `komi_num / komi_denom` for White.
pub open spec fn winner_of(black: nat, white: nat, komi_num: nat, komi_denom: nat) -> Winner {
    if black * komi_denom > white * komi_denom + komi_num {
        Winner::Black
    } else if black * komi_denom < white * komi_denom + komi_num {
        Winner::White
    } else {
        Winner::Draw
    }
}

/// The game after a pass: the turn goes over, and the second pass in a row
/// ends the game.
pub open spec fn after_pass(game: GameView) -> GameView {
    GameView {
        turn: game.turn.flipped(),
        status: if game.passes >= 1 {
            GameStatus::End
        } else {
            game.status
        },
        passes: if game.passes >= 1 {
            2
        } else {
            1
        },
        ..game
    }
}

/// The game after the command. A game that is over stays as it is; a refused
/// placement changes nothing; an accepted one hands the turn over and ends the
/// run of passes.
pub open spec fn after_command(game: GameView, command: Command) -> GameView {
    if game.status == GameStatus::End {
        game
    } else {
        match command {
            Command::Move { stone, point } => if placement_error(game.board, stone, point)
                is None {
                GameView {
                    turn: game.turn.flipped(),
                    board: after_placement(game.board, stone, point),
                    passes: 0,
                    ..game
                }
            } else {
                game
            },
            Command::Pass => after_pass(game),
        }
    }
}

/// Why the command is refused, or `None` where it is accepted. Only a
/// placement against the rules in a running game is refused.
pub open spec fn command_error(game: GameView, command: Command) -> Option<PlaceError> {
    if game.status == GameStatus::End {
        None
    } else {
        match command {
            Command::Move { stone, point } => placement_error(game.board, stone, point),
            Command::Pass => None,
        }
    }
}

/// Two passes in a row end a running game, whoever begins.
pub proof fn two_passes_end_the_game(game: GameView)
    requires
        game.status == GameStatus::Continue,
    ensures
        after_command(after_command(game, Command::Pass), Command::Pass).status
            == GameStatus::End,
        game.passes == 0 ==> after_command(after_command(game, Command::Pass), Command::Pass).turn
            == game.turn,
        after_command(after_command(game, Command::Pass), Command::Pass).board == game.board,
{
}

/// A game that is over accepts every command and stays as it is.
pub proof fn ended_game_stays(game: GameView, command: Command)
    requires
        game.status == GameStatus::End,
    ensures
        after_command(game, command) == game,
        command_error(game, command) is None,
{
}

/// Every accepted command in a running game hands the turn to the other
/// colour, and a refused one leaves the game as it is.
pub proof fn turn_goes_over_when_accepted(game: GameView, command: Command)
    requires
        game.status == GameStatus::Continue,
    ensures
        command_error(game, command) is None ==> after_command(game, command).turn
            == game.turn.flipped(),
        command_error(game, command) is Some ==> after_command(game, command) == game,
{
}

impl View for Game {
    type V = GameView;

    closed spec fn view(&self) -> GameView {
        GameView {
            turn: self.turn,
            board: self.board@,
            status: self.status,
            komi: self.komi,
            passes: self.pass_count as nat,
        }
    }
}

impl Game {
    /// The view of a game is made of its fields.
    pub(crate) proof fn lemma_view(&self)
        ensures
            self@.turn == self.turn,
            self@.board == self.board@,
            self@.status == self.status,
            self@.komi == self.komi,
    {
    }

    /// A new game: Black to play on an empty board, with a compensation of
    /// three and three quarters for White.
    pub fn new() -> (game: Game)
        ensures
            game@ == (GameView {
                turn: Stone::Black,
                board: new_board(),
                status: GameStatus::Continue,
                komi: Frac::of(15, 4),
                passes: 0,
            }),
    {
        let komi = match Frac::new(15, 4) {
            Ok(komi) => komi,
            Err(_) => vstd::pervasive::unreached(),
        };
        Game {
            turn: Stone::Black,
            board: Board::new(),
            status: GameStatus::Continue,
            komi,
            pass_count: 0,
        }
    }

    /// Carries out the command. In a game that is over nothing happens and the
    /// command counts as accepted. A placement against the rules is refused
    /// and changes nothing.
    pub fn play(&mut self, command: Command) -> (outcome: Result<(), PlaceError>)
        requires
            old(self)@.status == GameStatus::Continue ==> (command matches Command::Move {
                stone,
                point,
            } ==> placement_error(old(self)@.board, stone, point) is None ==> prisoners_fit(
                old(self)@.board,
                stone,
                point,
            )),
        ensures
            final(self)@ == after_command(old(self)@, command),
            match outcome {
                Ok(_) => command_error(old(self)@, command) is None,
                Err(reason) => command_error(old(self)@, command) == Some(reason),
            },
    {
        match self.status {
            GameStatus::End => {
                return Ok(());
            },
            GameStatus::Continue => {},
        }
        match command {
            Command::Move { stone, point } => match self.board.put(stone, point) {
                Ok(_) => {
                    self.flip_turn();
                    self.pass_count = 0;
                    Ok(())
                },
                Err(err) => Err(err),
            },
            Command::Pass => {
                self.flip_turn();
                if self.pass_count >= 1 {
                    self.pass_count = 2;
                    self.status = GameStatus::End;
                } else {
                    self.pass_count = 1;
                }
                Ok(())
            },
        }
    }

    /// Hands the turn to the other colour.
    pub fn flip_turn(&mut self)
        ensures
            final(self)@ == (GameView { turn: old(self)@.turn.flipped(), ..old(self)@ }),
    {
        self.turn = self.turn.flip();
    }

    /// Counts the stones of each colour on the board and names the winner:
    /// Black with more stones than White has stones and compensation together,
    /// White with more than Black, nobody where they are level. The game is
    /// left as it was.
    pub fn game_end(&mut self) -> (result: GameResult)
        ensures
            *final(self) == *old(self),
            result.black == stones_of(old(self)@.board.grid, Stone::Black).len(),
            result.white == stones_of(old(self)@.board.grid, Stone::White).len(),
            result.komi == old(self)@.komi,
            result.winner == winner_of(
                result.black as nat,
                result.white as nat,
                result.komi.numerator(),
                result.komi.denominator(),
            ),
    {
        let ghost grid = self@.board.grid;
        let mut black: usize = 0;
        let mut white: usize = 0;
        proof {
            lemma_count_ends(grid, Stone::Black);
            lemma_count_ends(grid, Stone::White);
        }
        let mut row: usize = 1;
        while row <= BOARD_SIZE
            invariant
                1 <= row <= BOARD_SIZE + 1,
                *self == *old(self),
                grid == self@.board.grid,
                stones_before(grid, Stone::Black, (row - 1) * BOARD_SIZE).finite(),
                stones_before(grid, Stone::White, (row - 1) * BOARD_SIZE).finite(),
                black == stones_before(grid, Stone::Black, (row - 1) * BOARD_SIZE).len(),
                white == stones_before(grid, Stone::White, (row - 1) * BOARD_SIZE).len(),
                black <= (row - 1) * BOARD_SIZE,
                white <= (row - 1) * BOARD_SIZE,
            decreases BOARD_SIZE + 1 - row,
        {
            let mut col: usize = 1;
            while col <= BOARD_SIZE
                invariant
                    1 <= row <= BOARD_SIZE,
                    1 <= col <= BOARD_SIZE + 1,
                    *self == *old(self),
                    grid == self@.board.grid,
                    stones_before(
                        grid,
                        Stone::Black,
                        (row - 1) * BOARD_SIZE + (col - 1),
                    ).finite(),
                    stones_before(
                        grid,
                        Stone::White,
                        (row - 1) * BOARD_SIZE + (col - 1),
                    ).finite(),
                    black == stones_before(
                        grid,
                        Stone::Black,
                        (row - 1) * BOARD_SIZE + (col - 1),
                    ).len(),
                    white == stones_before(
                        grid,
                        Stone::White,
                        (row - 1) * BOARD_SIZE + (col - 1),
                    ).len(),
                    black <= (row - 1) * BOARD_SIZE + (col - 1),
                    white <= (row - 1) * BOARD_SIZE + (col - 1),
                decreases BOARD_SIZE + 1 - col,
            {
                let point = Point { row: row as i8, col: col as i8 };
                proof {
                    let index = (row - 1) * BOARD_SIZE + (col - 1);
                    assert(nth_point(index) == point);
                    lemma_count_step(grid, Stone::Black, index);
                    lemma_count_step(grid, Stone::White, index);
                }
                match self.board.get(point) {
                    BoardCell::Space(Some(Stone::Black)) => {
                        black += 1;
                    },
                    BoardCell::Space(Some(Stone::White)) => {
                        white += 1;
                    },
                    _ => {},
                }
                col += 1;
            }
            row += 1;
        }
        let komi = self.komi;
        let denom = komi.denom() as u128;
        let num = komi.num() as u128;
        proof {
            assert(black <= 81 && white <= 81);
            assert(denom <= 0xffff_ffff_ffff_ffff && num <= 0xffff_ffff_ffff_ffff);
            assert(black * denom <= 81 * 0xffff_ffff_ffff_ffff) by (nonlinear_arith)
                requires
                    black <= 81,
                    denom <= 0xffff_ffff_ffff_ffff,
            ;
            assert(white * denom <= 81 * 0xffff_ffff_ffff_ffff) by (nonlinear_arith)
                requires
                    white <= 81,
                    denom <= 0xffff_ffff_ffff_ffff,
            ;
        }
        let black_side = black as u128 * denom;
        let white_side = white as u128 * denom + num;
        let winner = if black_side > white_side {
            Winner::Black
        } else if black_side < white_side {
            Winner::White
        } else {
            Winner::Draw
        };
        GameResult { black, white, komi, winner }
    }
}

impl Clone for Game {
    fn clone(&self) -> (copy: Self)
        ensures
            copy@ == self@,
    {
        Game {
            turn: self.turn,
            board: self.board.clone(),
            status: self.status,
            komi: self.komi,
            pass_count: self.pass_count,
        }
    }
}

} // verus!
