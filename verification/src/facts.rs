//! What follows from the rules: statements about placements, captures and the
//! course of a game, each proved from the definitions.

use crate::board::{PlaceError, Point, Stone, BOARD_SIZE};
use crate::rules::{
    accepted, after_placement, captured_by, group_of, lemma_captured_stones,
    lemma_connected_self, lemma_group_finite, new_board, placement_error, played, played_all,
    repeats, smothered, takes_group_of, vacant, BoardView,
};
use vstd::prelude::*;
use vstd::set_lib::lemma_set_disjoint_lens;

verus! {

/// The prisoners that colour `stone` has taken.
pub open spec fn prisoners_of(board: BoardView, stone: Stone) -> nat {
    match stone {
        Stone::Black => board.black_prisoners,
        Stone::White => board.white_prisoners,
    }
}

/// A placement outside the board is refused as out of range, whatever the
/// colour and whatever the board.
pub proof fn outside_is_out_of_range(board: BoardView, stone: Stone, point: Point)
    requires
        point.row <= 0 || point.row > BOARD_SIZE || point.col <= 0 || point.col > BOARD_SIZE,
    ensures
        placement_error(board, stone, point) == Some(PlaceError::OutOfRange),
        played(board, stone, point) == board,
{
}

/// A placement on a point that holds a stone, of either colour, is refused as
/// occupied.
pub proof fn taken_point_is_occupied(board: BoardView, stone: Stone, point: Point)
    requires
        point.on_board(),
        board.grid[point] is Some,
    ensures
        placement_error(board, stone, point) == Some(PlaceError::Occupied),
        played(board, stone, point) == board,
{
}

/// A placement whose group would have no liberty and that captures nothing is
/// refused as suicide, and the board stays as it was.
pub proof fn smothered_without_capture_is_suicide(board: BoardView, stone: Stone, point: Point)
    requires
        vacant(board.grid, point),
        smothered(board.grid, stone, point),
        captured_by(board.grid, stone, point) == Set::<Point>::empty(),
    ensures
        placement_error(board, stone, point) == Some(PlaceError::Suicide),
        played(board, stone, point) == board,
{
}

/// A placement that captures is never suicide: it is legal unless it repeats
/// the position of two plies before, however few liberties the stone would
/// have had before the capture.
pub proof fn capture_overrides_suicide(board: BoardView, stone: Stone, point: Point)
    requires
        vacant(board.grid, point),
        captured_by(board.grid, stone, point) != Set::<Point>::empty(),
    ensures
        placement_error(board, stone, point) != Some(PlaceError::Suicide),
        !repeats(board, stone, point) ==> placement_error(board, stone, point) is None,
        repeats(board, stone, point) ==> placement_error(board, stone, point) == Some(
            PlaceError::KoViolation,
        ),
{
}

/// A placement that takes a group stands on a vacant point, captures
/// something, and is legal unless it repeats the position of two plies before.
proof fn lemma_taking_is_legal(board: BoardView, stone: Stone, point: Point, neighbor: Point)
    requires
        takes_group_of(board.grid, stone, point, neighbor),
        !repeats(board, stone, point),
    ensures
        vacant(board.grid, point),
        captured_by(board.grid, stone, point).contains(neighbor),
        placement_error(board, stone, point) is None,
        played(board, stone, point) == after_placement(board, stone, point),
{
    assert(set![point].contains(point));
    lemma_connected_self(board.grid, stone.flipped(), neighbor);
    assert(group_of(board.grid, stone.flipped(), neighbor).contains(neighbor));
    assert(captured_by(board.grid, stone, point).contains(neighbor));
    assert(!Set::<Point>::empty().contains(neighbor));
}

/// A placement on the last liberty of a group, which takes no other group and
/// does not repeat the position of two plies before, is legal, removes every
/// stone of the group and adds the size of the group to the prisoners of the
/// placing colour.
pub proof fn capture_of_one_group(board: BoardView, stone: Stone, point: Point, neighbor: Point)
    requires
        takes_group_of(board.grid, stone, point, neighbor),
        forall|other: Point| #[trigger]
            takes_group_of(board.grid, stone, point, other) ==> group_of(
                board.grid,
                stone.flipped(),
                other,
            ) == group_of(board.grid, stone.flipped(), neighbor),
        !repeats(board, stone, point),
    ensures
        placement_error(board, stone, point) is None,
        captured_by(board.grid, stone, point) == group_of(board.grid, stone.flipped(), neighbor),
        forall|q: Point|
            group_of(board.grid, stone.flipped(), neighbor).contains(q) ==> #[trigger] played(
                board,
                stone,
                point,
            ).grid[q] is None,
        played(board, stone, point).grid[point] == Some(stone),
        prisoners_of(played(board, stone, point), stone) == prisoners_of(board, stone) + group_of(
            board.grid,
            stone.flipped(),
            neighbor,
        ).len(),
        prisoners_of(played(board, stone, point), stone.flipped()) == prisoners_of(
            board,
            stone.flipped(),
        ),
{
    lemma_taking_is_legal(board, stone, point, neighbor);
    let group = group_of(board.grid, stone.flipped(), neighbor);
    let taken = captured_by(board.grid, stone, point);
    assert(taken =~= group);
    lemma_captured_stones(board.grid, stone, point);
    assert forall|q: Point| group.contains(q) implies #[trigger] played(board, stone, point).grid[q]
        is None by {
        assert(taken.contains(q));
    }
}

/// A placement on the last liberty of a lone stone, which takes nothing else
/// and does not repeat the position of two plies before, removes the stone
/// and adds exactly one prisoner.
pub proof fn capture_of_one_stone(board: BoardView, stone: Stone, point: Point, neighbor: Point)
    requires
        takes_group_of(board.grid, stone, point, neighbor),
        group_of(board.grid, stone.flipped(), neighbor) == set![neighbor],
        forall|other: Point| #[trigger]
            takes_group_of(board.grid, stone, point, other) ==> other == neighbor,
        !repeats(board, stone, point),
    ensures
        placement_error(board, stone, point) is None,
        played(board, stone, point).grid[neighbor] is None,
        prisoners_of(played(board, stone, point), stone) == prisoners_of(board, stone) + 1,
{
    capture_of_one_group(board, stone, point, neighbor);
    assert(set![neighbor].contains(neighbor));
    assert(set![neighbor].len() == 1);
}

/// A placement on the last liberty of two groups that share no stone, which
/// takes no third and does not repeat the position of two plies before, is
/// legal, removes both groups and adds the sum of their sizes to the prisoners
/// of the placing colour.
pub proof fn capture_of_two_groups(
    board: BoardView,
    stone: Stone,
    point: Point,
    first: Point,
    second: Point,
)
    requires
        takes_group_of(board.grid, stone, point, first),
        takes_group_of(board.grid, stone, point, second),
        group_of(board.grid, stone.flipped(), first).disjoint(
            group_of(board.grid, stone.flipped(), second),
        ),
        forall|other: Point| #[trigger]
            takes_group_of(board.grid, stone, point, other) ==> {
                ||| group_of(board.grid, stone.flipped(), other) == group_of(
                    board.grid,
                    stone.flipped(),
                    first,
                )
                ||| group_of(board.grid, stone.flipped(), other) == group_of(
                    board.grid,
                    stone.flipped(),
                    second,
                )
            },
        !repeats(board, stone, point),
    ensures
        placement_error(board, stone, point) is None,
        captured_by(board.grid, stone, point) == group_of(board.grid, stone.flipped(), first)
            + group_of(board.grid, stone.flipped(), second),
        forall|q: Point|
            group_of(board.grid, stone.flipped(), first).contains(q) || group_of(
                board.grid,
                stone.flipped(),
                second,
            ).contains(q) ==> #[trigger] played(board, stone, point).grid[q] is None,
        prisoners_of(played(board, stone, point), stone) == prisoners_of(board, stone) + group_of(
            board.grid,
            stone.flipped(),
            first,
        ).len() + group_of(board.grid, stone.flipped(), second).len(),
{
    lemma_taking_is_legal(board, stone, point, first);
    let one = group_of(board.grid, stone.flipped(), first);
    let two = group_of(board.grid, stone.flipped(), second);
    let taken = captured_by(board.grid, stone, point);
    assert(taken =~= one + two);
    lemma_group_finite(board.grid, stone.flipped(), first);
    lemma_group_finite(board.grid, stone.flipped(), second);
    lemma_set_disjoint_lens(one, two);
    lemma_captured_stones(board.grid, stone, point);
    assert forall|q: Point| one.contains(q) || two.contains(q) implies #[trigger] played(
        board,
        stone,
        point,
    ).grid[q] is None by {
        assert(taken.contains(q));
    }
}

/// Each accepted placement adds one position to the history and no refused
/// one adds any; no placement lowers a count of prisoners.
pub proof fn history_grows_with_placements(board: BoardView, moves: Seq<(Stone, Point)>)
    ensures
        played_all(board, moves).history.len() == board.history.len() + accepted(board, moves),
        played_all(board, moves).black_prisoners >= board.black_prisoners,
        played_all(board, moves).white_prisoners >= board.white_prisoners,
    decreases moves.len(),
{
    if moves.len() > 0 {
        history_grows_with_placements(board, moves.drop_last());
    }
}

/// After n accepted placements on a new board the history holds n + 1
/// positions.
pub proof fn history_of_new_board(moves: Seq<(Stone, Point)>)
    ensures
        played_all(new_board(), moves).history.len() == accepted(new_board(), moves) + 1,
{
    history_grows_with_placements(new_board(), moves);
}

} // verus!
