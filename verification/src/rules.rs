//! The rules as mathematics: positions, groups, liberties, captures and the
//! legality of a placement, with the facts about them that the engine rests on.

use crate::board::{BoardCell, PlaceError, Point, Stone, BOARD_SIZE};
use vstd::prelude::*;
use vstd::set_lib::{lemma_int_range, lemma_len_subset, lemma_map_size, set_int_range};

verus! {

/// A position: what each point of the board holds.
pub type Grid = Map<Point, Option<Stone>>;

/// The board as the rules see it.
pub struct BoardView {
    /// The position now.
    pub grid: Grid,
    /// White stones that Black has captured.
    pub black_prisoners: nat,
    /// Black stones that White has captured.
    pub white_prisoners: nat,
    /// The empty position, then the position after each placement so far.
    pub history: Seq<Grid>,
}

/// The points of the board.
pub open spec fn board_points() -> Set<Point> {
    Set::new(|p: Point| p.on_board())
}

/// The position with no stone on it.
pub open spec fn empty_grid() -> Grid {
    Map::new(|p: Point| p.on_board(), |p: Point| None::<Stone>)
}

/// A position says something of every point of the board and of no other.
pub open spec fn covers_board(grid: Grid) -> bool {
    grid.dom() == board_points()
}

/// The point is on the board and holds a stone of that colour.
pub open spec fn holds(grid: Grid, p: Point, stone: Stone) -> bool {
    p.on_board() && grid[p] == Some(stone)
}

/// The point is on the board and holds no stone.
pub open spec fn vacant(grid: Grid, p: Point) -> bool {
    p.on_board() && grid[p] is None
}

/// What a coordinate holds in a position.
pub open spec fn cell_at(grid: Grid, p: Point) -> BoardCell {
    if p.on_board() {
        BoardCell::Space(grid[p])
    } else {
        BoardCell::Wall
    }
}

/// A chain: one point or more, each holding a stone of colour `stone`, each
/// adjacent to the next.
pub open spec fn is_chain(grid: Grid, stone: Stone, chain: Seq<Point>) -> bool {
    &&& chain.len() > 0
    &&& forall|i: int| 0 <= i < chain.len() ==> holds(grid, #[trigger] chain[i], stone)
    &&& forall|i: int, j: int|
        0 <= i && j == i + 1 && j < chain.len() ==> (#[trigger] chain[i]).adjacent(
            #[trigger] chain[j],
        )
}

/// `a` and `b` hold `stone` and a chain of such stones leads from one to the
/// other.
pub open spec fn connected(grid: Grid, stone: Stone, a: Point, b: Point) -> bool {
    exists|chain: Seq<Point>|
        #[trigger] is_chain(grid, stone, chain) && chain[0] == a && chain.last() == b
}

/// The group of `seed`: every point joined to it by stones of that colour.
/// Empty where `seed` does not hold such a stone.
pub open spec fn group_of(grid: Grid, stone: Stone, seed: Point) -> Set<Point> {
    Set::new(|p: Point| connected(grid, stone, seed, p))
}

/// The point is adjacent to a point of the set.
pub open spec fn touches(group: Set<Point>, q: Point) -> bool {
    exists|p: Point| group.contains(p) && #[trigger] p.adjacent(q)
}

/// The liberties of a set of points: the vacant points adjacent to one of them.
pub open spec fn liberties(grid: Grid, group: Set<Point>) -> Set<Point> {
    Set::new(|q: Point| vacant(grid, q) && touches(group, q))
}

/// `neighbor` holds a stone of the other colour whose group has `point` as its
/// one liberty, so that a stone placed at `point` takes the group.
pub open spec fn takes_group_of(grid: Grid, stone: Stone, point: Point, neighbor: Point) -> bool {
    &&& point.adjacent(neighbor)
    &&& holds(grid, neighbor, stone.flipped())
    &&& liberties(grid, group_of(grid, stone.flipped(), neighbor)) == set![point]
}

/// `group` is a whole group that a stone of colour `stone` placed at `point`
/// takes.
pub open spec fn taken_group(grid: Grid, stone: Stone, point: Point, group: Set<Point>) -> bool {
    exists|n: Point|
        #[trigger] takes_group_of(grid, stone, point, n) && group == group_of(
            grid,
            stone.flipped(),
            n,
        )
}

/// The stones that a stone of colour `stone` placed at `point` captures.
pub open spec fn captured_by(grid: Grid, stone: Stone, point: Point) -> Set<Point> {
    Set::new(
        |q: Point|
            exists|n: Point|
                #[trigger] takes_group_of(grid, stone, point, n) && group_of(
                    grid,
                    stone.flipped(),
                    n,
                ).contains(q),
    )
}

/// The position with the stones of `taken` removed.
pub open spec fn without(grid: Grid, taken: Set<Point>) -> Grid {
    Map::new(
        |p: Point| p.on_board(),
        |p: Point|
            if taken.contains(p) {
                None
            } else {
                grid[p]
            },
    )
}

/// The position after a stone of colour `stone` is placed at `point`: what it
/// captures is removed first, then the stone stands.
pub open spec fn placed(grid: Grid, stone: Stone, point: Point) -> Grid {
    without(grid, captured_by(grid, stone, point)).insert(point, Some(stone))
}

/// The stone placed at `point`, before anything is removed, would belong to a
/// group without a liberty.
pub open spec fn smothered(grid: Grid, stone: Stone, point: Point) -> bool {
    let trial = grid.insert(point, Some(stone));
    liberties(trial, group_of(trial, stone, point)) == Set::<Point>::empty()
}

/// The placement would bring back the position of two plies before.
pub open spec fn repeats(board: BoardView, stone: Stone, point: Point) -> bool {
    board.history.len() >= 4 && placed(board.grid, stone, point) == board.history[board.history.len()
        - 2]
}

/// Why the placement is refused, or `None` where it is legal. The rules are
/// tried in this order, and the first that fails decides.
pub open spec fn placement_error(board: BoardView, stone: Stone, point: Point) -> Option<
    PlaceError,
> {
    if !point.on_board() {
        Some(PlaceError::OutOfRange)
    } else if board.grid[point] is Some {
        Some(PlaceError::Occupied)
    } else if smothered(board.grid, stone, point) && captured_by(board.grid, stone, point)
        == Set::<Point>::empty() {
        Some(PlaceError::Suicide)
    } else if repeats(board, stone, point) {
        Some(PlaceError::KoViolation)
    } else {
        None
    }
}

/// The board with `taken` more prisoners counted for colour `stone`.
pub open spec fn credited(board: BoardView, stone: Stone, taken: nat) -> BoardView {
    match stone {
        Stone::Black => BoardView { black_prisoners: board.black_prisoners + taken, ..board },
        Stone::White => BoardView { white_prisoners: board.white_prisoners + taken, ..board },
    }
}

/// The board after what a stone of colour `stone` at `point` captures has been
/// removed and counted for the placing colour. The stone itself does not
/// stand yet.
pub open spec fn after_capture(board: BoardView, stone: Stone, point: Point) -> BoardView {
    let taken = captured_by(board.grid, stone, point);
    credited(BoardView { grid: without(board.grid, taken), ..board }, stone, taken.len())
}

/// The board after the placement: the new position, the captured stones
/// counted for the placing colour, and the new position appended to the
/// history.
pub open spec fn after_placement(board: BoardView, stone: Stone, point: Point) -> BoardView {
    let grid = placed(board.grid, stone, point);
    BoardView {
        grid,
        history: board.history.push(grid),
        ..after_capture(board, stone, point)
    }
}

/// The prisoners of colour `stone`, counted with what the placement captures,
/// fit the counter.
pub open spec fn prisoners_fit(board: BoardView, stone: Stone, point: Point) -> bool {
    let taken = captured_by(board.grid, stone, point).len();
    match stone {
        Stone::Black => board.black_prisoners + taken <= usize::MAX,
        Stone::White => board.white_prisoners + taken <= usize::MAX,
    }
}

/// A board on which nothing has happened yet.
pub open spec fn new_board() -> BoardView {
    BoardView {
        grid: empty_grid(),
        black_prisoners: 0,
        white_prisoners: 0,
        history: seq![empty_grid()],
    }
}

/// The board after a placement is tried: changed if it is legal, else as it
/// was.
pub open spec fn played(board: BoardView, stone: Stone, point: Point) -> BoardView {
    if placement_error(board, stone, point) is None {
        after_placement(board, stone, point)
    } else {
        board
    }
}

/// The board after the placements are tried one after the other.
pub open spec fn played_all(board: BoardView, moves: Seq<(Stone, Point)>) -> BoardView
    decreases moves.len(),
{
    if moves.len() == 0 {
        board
    } else {
        played(played_all(board, moves.drop_last()), moves.last().0, moves.last().1)
    }
}

/// How many of the placements, tried one after the other, are accepted.
pub open spec fn accepted(board: BoardView, moves: Seq<(Stone, Point)>) -> nat
    decreases moves.len(),
{
    if moves.len() == 0 {
        0
    } else {
        let before = played_all(board, moves.drop_last());
        let earlier = accepted(board, moves.drop_last());
        if placement_error(before, moves.last().0, moves.last().1) is None {
            earlier + 1
        } else {
            earlier
        }
    }
}

/// The point with the given number, counting the board row by row from 0.
pub open spec fn nth_point(index: int) -> Point {
    Point { row: (index / BOARD_SIZE as int + 1) as i8, col: (index % BOARD_SIZE as int + 1) as i8 }
}

/// The number of a point of the board, counting row by row from 0.
pub open spec fn point_index(p: Point) -> int {
    (p.row - 1) * BOARD_SIZE + (p.col - 1)
}

/// The stones of colour `stone` on the board.
pub open spec fn stones_of(grid: Grid, stone: Stone) -> Set<Point> {
    Set::new(|p: Point| holds(grid, p, stone))
}

/// The stones of colour `stone` among the first `upto` points of the board.
pub open spec fn stones_before(grid: Grid, stone: Stone, upto: int) -> Set<Point> {
    Set::new(|p: Point| holds(grid, p, stone) && point_index(p) < upto)
}

/// The points of the board, row by row.
pub open spec fn all_points() -> Seq<Point> {
    Seq::new((BOARD_SIZE * BOARD_SIZE) as nat, |index: int| nth_point(index))
}

/// The test that a point is a legal placement for colour `stone`.
pub open spec fn is_legal(board: BoardView, stone: Stone) -> spec_fn(Point) -> bool {
    |p: Point| placement_error(board, stone, p) is None
}

/// The legal placements for colour `stone`, row by row.
pub open spec fn legal_points(board: BoardView, stone: Stone) -> Seq<Point> {
    all_points().filter(is_legal(board, stone))
}

/// The board has `BOARD_SIZE * BOARD_SIZE` points.
pub proof fn lemma_board_points()
    ensures
        board_points().finite(),
        board_points().len() == BOARD_SIZE * BOARD_SIZE,
{
    let indices = set_int_range(0, 81);
    let f = |i: int| nth_point(i);
    lemma_int_range(0, 81);
    assert forall|i: int, j: int|
        indices.contains(i) && indices.contains(j) && #[trigger] f(i) == #[trigger] f(j) implies i
        == j by {
        assert(nth_point(i).row == i / 9 + 1);
        assert(nth_point(j).row == j / 9 + 1);
        assert(nth_point(i).col == i % 9 + 1);
        assert(nth_point(j).col == j % 9 + 1);
    }
    assert forall|p: Point| board_points().contains(p) implies indices.map(f).contains(p) by {
        let i = (p.row - 1) * 9 + (p.col - 1);
        assert(indices.contains(i));
        assert(f(i) == p);
    }
    assert(indices.map(f) =~= board_points());
    lemma_map_size(indices, board_points(), f);
}

/// Distinct points of the board are at most as many as the board has points.
pub proof fn lemma_distinct_points(points: Seq<Point>)
    requires
        points.no_duplicates(),
        forall|i: int| 0 <= i < points.len() ==> (#[trigger] points[i]).on_board(),
    ensures
        points.len() <= BOARD_SIZE * BOARD_SIZE,
{
    lemma_board_points();
    points.unique_seq_to_set();
    assert(points.to_set().subset_of(board_points()));
    lemma_len_subset(points.to_set(), board_points());
}

/// A stone is connected to itself.
pub proof fn lemma_connected_self(grid: Grid, stone: Stone, p: Point)
    requires
        holds(grid, p, stone),
    ensures
        connected(grid, stone, p, p),
{
    assert(is_chain(grid, stone, seq![p]));
}

/// Connected points hold stones of the colour.
pub proof fn lemma_connected_holds(grid: Grid, stone: Stone, a: Point, b: Point)
    requires
        connected(grid, stone, a, b),
    ensures
        holds(grid, a, stone),
        holds(grid, b, stone),
{
    let chain = choose|chain: Seq<Point>|
        #[trigger] is_chain(grid, stone, chain) && chain[0] == a && chain.last() == b;
    assert(holds(grid, chain[0], stone));
    assert(holds(grid, chain[chain.len() - 1], stone));
}

/// A chain goes on to an adjacent stone of its colour.
pub proof fn lemma_connected_step(grid: Grid, stone: Stone, a: Point, b: Point, c: Point)
    requires
        connected(grid, stone, a, b),
        b.adjacent(c),
        holds(grid, c, stone),
    ensures
        connected(grid, stone, a, c),
{
    let chain = choose|chain: Seq<Point>|
        #[trigger] is_chain(grid, stone, chain) && chain[0] == a && chain.last() == b;
    let longer = chain.push(c);
    assert forall|i: int| 0 <= i < longer.len() implies holds(grid, #[trigger] longer[i], stone) by {
        if i < chain.len() {
            assert(longer[i] == chain[i]);
        }
    }
    assert forall|i: int, j: int| 0 <= i && j == i + 1 && j < longer.len() implies (
    #[trigger] longer[i]).adjacent(#[trigger] longer[j]) by {
        if j < chain.len() {
            assert(chain[i].adjacent(chain[j]));
        }
    }
    assert(is_chain(grid, stone, longer));
    assert(longer[0] == a && longer.last() == c);
}

/// A set that is closed under adjacency among the stones of a colour holds the
/// end of every chain that starts in it.
pub proof fn lemma_chain_stays_within(
    grid: Grid,
    stone: Stone,
    within: Set<Point>,
    chain: Seq<Point>,
)
    requires
        is_chain(grid, stone, chain),
        within.contains(chain[0]),
        forall|p: Point, q: Point|
            within.contains(p) && #[trigger] p.adjacent(q) && holds(grid, q, stone)
                ==> within.contains(q),
    ensures
        within.contains(chain.last()),
    decreases chain.len(),
{
    if chain.len() > 1 {
        let shorter = chain.drop_last();
        assert forall|i: int| 0 <= i < shorter.len() implies holds(
            grid,
            #[trigger] shorter[i],
            stone,
        ) by {
            assert(shorter[i] == chain[i]);
        }
        assert forall|i: int, j: int| 0 <= i && j == i + 1 && j < shorter.len() implies (
        #[trigger] shorter[i]).adjacent(#[trigger] shorter[j]) by {
            assert(chain[i].adjacent(chain[j]));
        }
        lemma_chain_stays_within(grid, stone, within, shorter);
        let i = chain.len() - 2;
        let j = chain.len() - 1;
        assert(chain[i].adjacent(chain[j]));
        assert(holds(grid, chain[j], stone));
    }
}

/// A set that holds the seed, if it is a stone of the colour, and is closed
/// under adjacency among such stones holds the seed's whole group.
pub proof fn lemma_group_within(grid: Grid, stone: Stone, seed: Point, within: Set<Point>)
    requires
        holds(grid, seed, stone) ==> within.contains(seed),
        forall|p: Point, q: Point|
            within.contains(p) && #[trigger] p.adjacent(q) && holds(grid, q, stone)
                ==> within.contains(q),
    ensures
        group_of(grid, stone, seed).subset_of(within),
{
    assert forall|p: Point| group_of(grid, stone, seed).contains(p) implies within.contains(p) by {
        let chain = choose|chain: Seq<Point>|
            #[trigger] is_chain(grid, stone, chain) && chain[0] == seed && chain.last() == p;
        assert(holds(grid, chain[0], stone));
        lemma_chain_stays_within(grid, stone, within, chain);
    }
}

/// Connection goes both ways.
pub proof fn lemma_connected_symmetric(grid: Grid, stone: Stone, a: Point, b: Point)
    requires
        connected(grid, stone, a, b),
    ensures
        connected(grid, stone, b, a),
{
    let chain = choose|chain: Seq<Point>|
        #[trigger] is_chain(grid, stone, chain) && chain[0] == a && chain.last() == b;
    let n = chain.len() as int;
    let back = Seq::new(chain.len(), |i: int| chain[n - 1 - i]);
    assert forall|i: int| 0 <= i < back.len() implies holds(grid, #[trigger] back[i], stone) by {
        assert(holds(grid, chain[n - 1 - i], stone));
    }
    assert forall|i: int, j: int| 0 <= i && j == i + 1 && j < back.len() implies (
    #[trigger] back[i]).adjacent(#[trigger] back[j]) by {
        assert(chain[n - 1 - j].adjacent(chain[n - 1 - i]));
    }
    assert(is_chain(grid, stone, back));
    assert(back[0] == b && back.last() == a);
}

/// Two chains that meet make one.
pub proof fn lemma_connected_transitive(grid: Grid, stone: Stone, a: Point, b: Point, c: Point)
    requires
        connected(grid, stone, a, b),
        connected(grid, stone, b, c),
    ensures
        connected(grid, stone, a, c),
{
    let first = choose|chain: Seq<Point>|
        #[trigger] is_chain(grid, stone, chain) && chain[0] == a && chain.last() == b;
    let second = choose|chain: Seq<Point>|
        #[trigger] is_chain(grid, stone, chain) && chain[0] == b && chain.last() == c;
    let n = first.len() as int;
    let joined = first + second.subrange(1, second.len() as int);
    assert forall|i: int| 0 <= i < joined.len() implies holds(grid, #[trigger] joined[i], stone) by {
        if i < n {
            assert(holds(grid, first[i], stone));
        } else {
            assert(holds(grid, second[i - n + 1], stone));
        }
    }
    assert forall|i: int, j: int| 0 <= i && j == i + 1 && j < joined.len() implies (
    #[trigger] joined[i]).adjacent(#[trigger] joined[j]) by {
        if j < n {
            assert(first[i].adjacent(first[j]));
        } else if i < n {
            assert(second[0].adjacent(second[1]));
        } else {
            assert(second[i - n + 1].adjacent(second[j - n + 1]));
        }
    }
    assert(is_chain(grid, stone, joined));
    assert(joined[0] == a && joined.last() == c);
}

/// A stone's group is the group of each of its stones.
pub proof fn lemma_same_group(grid: Grid, stone: Stone, a: Point, b: Point)
    requires
        group_of(grid, stone, a).contains(b),
    ensures
        group_of(grid, stone, b) == group_of(grid, stone, a),
{
    lemma_connected_symmetric(grid, stone, a, b);
    assert forall|p: Point| group_of(grid, stone, b).contains(p) implies group_of(
        grid,
        stone,
        a,
    ).contains(p) by {
        lemma_connected_transitive(grid, stone, a, b, p);
    }
    assert forall|p: Point| group_of(grid, stone, a).contains(p) implies group_of(
        grid,
        stone,
        b,
    ).contains(p) by {
        lemma_connected_transitive(grid, stone, b, a, p);
    }
    assert(group_of(grid, stone, b) =~= group_of(grid, stone, a));
}

/// Two groups of one colour that share a stone are one group.
pub proof fn lemma_groups_meet(grid: Grid, stone: Stone, a: Point, b: Point, shared: Point)
    requires
        group_of(grid, stone, a).contains(shared),
        group_of(grid, stone, b).contains(shared),
    ensures
        group_of(grid, stone, a) == group_of(grid, stone, b),
{
    lemma_same_group(grid, stone, a, shared);
    lemma_same_group(grid, stone, b, shared);
}

/// A group lies on the board, so it is finite.
pub proof fn lemma_group_finite(grid: Grid, stone: Stone, seed: Point)
    ensures
        group_of(grid, stone, seed).finite(),
        group_of(grid, stone, seed).len() <= BOARD_SIZE * BOARD_SIZE,
{
    lemma_board_points();
    assert forall|p: Point| group_of(grid, stone, seed).contains(p) implies board_points().contains(
        p,
    ) by {
        lemma_connected_holds(grid, stone, seed, p);
    }
    lemma_len_subset(group_of(grid, stone, seed), board_points());
}

/// What a placement captures are stones of the other colour on the board, so
/// at most as many as the board has points.
pub proof fn lemma_captured_stones(grid: Grid, stone: Stone, point: Point)
    ensures
        captured_by(grid, stone, point).finite(),
        captured_by(grid, stone, point).len() <= BOARD_SIZE * BOARD_SIZE,
        forall|q: Point| #[trigger]
            captured_by(grid, stone, point).contains(q) ==> holds(grid, q, stone.flipped()),
{
    lemma_board_points();
    assert forall|q: Point| #[trigger] captured_by(grid, stone, point).contains(q) implies holds(
        grid,
        q,
        stone.flipped(),
    ) by {
        let n = choose|n: Point|
            #[trigger] takes_group_of(grid, stone, point, n) && group_of(
                grid,
                stone.flipped(),
                n,
            ).contains(q);
        lemma_connected_holds(grid, stone.flipped(), n, q);
    }
    assert(captured_by(grid, stone, point).subset_of(board_points()));
    lemma_len_subset(captured_by(grid, stone, point), board_points());
}

/// Counting the stones of a colour point by point: the next point adds one
/// if it holds such a stone, and nothing otherwise.
pub proof fn lemma_count_step(grid: Grid, stone: Stone, upto: int)
    requires
        0 <= upto < BOARD_SIZE * BOARD_SIZE,
        stones_before(grid, stone, upto).finite(),
    ensures
        stones_before(grid, stone, upto + 1).finite(),
        stones_before(grid, stone, upto + 1).len() == stones_before(grid, stone, upto).len() + (
        if holds(grid, nth_point(upto), stone) {
            1nat
        } else {
            0nat
        }),
{
    let next = nth_point(upto);
    let before = stones_before(grid, stone, upto);
    let after = stones_before(grid, stone, upto + 1);
    assert(next.row == upto / 9 + 1 && next.col == upto % 9 + 1);
    assert(point_index(next) == upto);
    assert forall|p: Point| p.on_board() && point_index(p) == upto implies p == next by {
        assert(p.row - 1 == upto / 9);
    }
    if holds(grid, next, stone) {
        assert(after =~= before.insert(next));
    } else {
        assert(after =~= before);
    }
}

/// Counting starts from nothing and ends with every stone of the colour.
pub proof fn lemma_count_ends(grid: Grid, stone: Stone)
    ensures
        stones_before(grid, stone, 0) == Set::<Point>::empty(),
        stones_before(grid, stone, BOARD_SIZE * BOARD_SIZE) == stones_of(grid, stone),
        stones_of(grid, stone).finite(),
        stones_of(grid, stone).len() <= BOARD_SIZE * BOARD_SIZE,
{
    assert(stones_before(grid, stone, 0) =~= Set::<Point>::empty());
    assert(stones_before(grid, stone, BOARD_SIZE * BOARD_SIZE) =~= stones_of(grid, stone));
    lemma_board_points();
    assert(stones_of(grid, stone).subset_of(board_points()));
    lemma_len_subset(stones_of(grid, stone), board_points());
}

} // verus!
