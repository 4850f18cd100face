use go_game::board::{Board, BoardCell, PlaceError, Point, Stone};
use go_game::bot::random::command_for;
use go_game::bot::{Bot, RandomBot};
use go_game::game::{Command, Game, GameStatus, Winner};

#[test]
fn game_flip_turn() {
    let mut game = Game::new();
    let previous_stone = game.turn.clone();
    game.flip_turn();
    let new_stone = game.turn.clone();

    assert_eq!(previous_stone, Stone::Black);
    assert_eq!(new_stone, Stone::White);
}

#[test]
fn a_new_game_starts_with_black_on_an_empty_board() {
    let game = Game::new();
    assert_eq!(game.turn, Stone::Black);
    assert_eq!(game.status, GameStatus::Continue);
    assert_eq!(game.board, Board::new());
    assert_eq!((game.komi.num(), game.komi.denom()), (15, 4));
}

#[test]
fn an_accepted_move_hands_the_turn_over() {
    let mut game = Game::new();
    let point = Point { row: 3, col: 3 };
    assert_eq!(game.play(Command::Move { stone: Stone::Black, point }), Ok(()));
    assert_eq!(game.turn, Stone::White);
    assert_eq!(game.board.get(point), BoardCell::Space(Some(Stone::Black)));
    assert_eq!(game.status, GameStatus::Continue);
}

#[test]
fn a_refused_move_changes_nothing() {
    let mut game = Game::new();
    let point = Point { row: 3, col: 3 };
    game.play(Command::Move { stone: Stone::Black, point }).unwrap();
    assert_eq!(
        game.play(Command::Move { stone: Stone::White, point }),
        Err(PlaceError::Occupied)
    );
    assert_eq!(
        game.play(Command::Move { stone: Stone::White, point: Point { row: 0, col: 0 } }),
        Err(PlaceError::OutOfRange)
    );
    assert_eq!(game.turn, Stone::White);
    assert_eq!(game.board.history_len(), 2);
}

#[test]
fn two_passes_in_a_row_end_the_game() {
    let mut game = Game::new();
    assert_eq!(game.play(Command::Pass), Ok(()));
    assert_eq!(game.status, GameStatus::Continue);
    assert_eq!(game.turn, Stone::White);
    // a move between two passes starts the count again
    game.play(Command::Move { stone: Stone::White, point: Point { row: 1, col: 1 } }).unwrap();
    assert_eq!(game.play(Command::Pass), Ok(()));
    assert_eq!(game.status, GameStatus::Continue);
    assert_eq!(game.play(Command::Pass), Ok(()));
    assert_eq!(game.status, GameStatus::End);
}

#[test]
fn nothing_happens_in_a_game_that_is_over() {
    let mut game = Game::new();
    game.play(Command::Pass).unwrap();
    game.play(Command::Pass).unwrap();
    assert_eq!(game.status, GameStatus::End);
    let turn = game.turn;
    let point = Point { row: 4, col: 4 };
    assert_eq!(game.play(Command::Move { stone: Stone::Black, point }), Ok(()));
    assert_eq!(game.play(Command::Pass), Ok(()));
    assert_eq!(game.play(Command::Move { stone: Stone::Black, point: Point { row: 0, col: 0 } }), Ok(()));
    assert_eq!(game.turn, turn);
    assert_eq!(game.status, GameStatus::End);
    assert_eq!(game.board, Board::new());
    assert_eq!(game.board.history_len(), 1);
}

#[test]
fn the_count_at_the_end() {
    let mut game = Game::new();
    let result = game.game_end();
    assert_eq!((result.black, result.white), (0, 0));
    assert_eq!(result.winner, Winner::White);

    // three stones lose to three and three quarters, four win
    for col in 1..=3 {
        game.board.put(Stone::Black, Point { row: 5, col }).unwrap();
    }
    let result = game.game_end();
    assert_eq!((result.black, result.white), (3, 0));
    assert_eq!(result.winner, Winner::White);
    game.board.put(Stone::Black, Point { row: 5, col: 4 }).unwrap();
    game.board.put(Stone::White, Point { row: 9, col: 9 }).unwrap();
    let result = game.game_end();
    assert_eq!((result.black, result.white), (4, 1));
    assert_eq!(result.winner, Winner::White);
    game.board.put(Stone::Black, Point { row: 5, col: 5 }).unwrap();
    let result = game.game_end();
    assert_eq!((result.black, result.white), (5, 1));
    assert_eq!(result.winner, Winner::Black);
    assert_eq!((result.komi.num(), result.komi.denom()), (15, 4));
}

#[test]
fn a_level_count_is_a_draw() {
    let mut game = Game::new();
    game.komi = go_game::frac::Frac::new(2, 1).unwrap();
    game.board.put(Stone::Black, Point { row: 1, col: 1 }).unwrap();
    game.board.put(Stone::Black, Point { row: 1, col: 2 }).unwrap();
    game.board.put(Stone::Black, Point { row: 1, col: 3 }).unwrap();
    game.board.put(Stone::White, Point { row: 9, col: 9 }).unwrap();
    assert_eq!(game.game_end().winner, Winner::Draw);
}

#[test]
fn a_copy_of_a_game_is_its_own() {
    let mut game = Game::new();
    game.play(Command::Move { stone: Stone::Black, point: Point { row: 2, col: 2 } }).unwrap();
    let mut copy = game.clone();
    copy.play(Command::Pass).unwrap();
    copy.board.put(Stone::White, Point { row: 3, col: 3 }).unwrap();
    assert_eq!(game.turn, Stone::White);
    assert_eq!(game.board.get(Point { row: 3, col: 3 }), BoardCell::Space(None));
    assert_eq!(game.board.history_len(), 2);
}

#[test]
fn the_command_for_a_choice() {
    let point = Point { row: 7, col: 2 };
    assert_eq!(
        command_for(Stone::White, Some(point)),
        Command::Move { stone: Stone::White, point }
    );
    assert_eq!(command_for(Stone::Black, None), Command::Pass);
}

#[test]
fn the_random_player_places_a_legal_stone() {
    let mut bot = RandomBot::new();
    let mut game = Game::new();
    for _ in 0..40 {
        let turn = game.turn;
        let before = game.board.clone();
        let command = bot.next_command(&game);
        // the game that was shown stays as it is
        assert_eq!(game.board, before);
        assert_eq!(game.turn, turn);
        match command {
            Command::Move { stone, point } => {
                assert_eq!(stone, turn);
                assert_eq!(game.board.can_put(stone, point), Ok(()));
            }
            Command::Pass => {
                assert!(game.board.find_available_points(turn).is_empty());
            }
        }
        assert_eq!(game.play(command), Ok(()));
    }
}

#[test]
fn the_random_player_passes_only_without_a_legal_point() {
    // White stands everywhere but on (1,1) and (9,9).
    let mut game = Game::new();
    for row in 1..=9 {
        for col in 1..=9 {
            if (row, col) != (1, 1) && (row, col) != (9, 9) {
                game.board.put(Stone::White, Point { row, col }).unwrap();
            }
        }
    }
    // (1,1) and (9,9) are the two liberties of the one White group: both are suicide for Black.
    let mut bot = RandomBot::new();
    assert_eq!(bot.next_command(&game), Command::Pass);
    // White may fill either of them: the other is left as a liberty.
    game.flip_turn();
    assert_eq!(game.turn, Stone::White);
    let command = bot.next_command(&game);
    match command {
        Command::Move { stone, point } => {
            assert_eq!(stone, Stone::White);
            assert!(point == Point { row: 1, col: 1 } || point == Point { row: 9, col: 9 });
        }
        Command::Pass => panic!("White has two legal points"),
    }
}
