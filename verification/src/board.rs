//! The board: stones, points, and the engine that places stones by the rules.

use crate::rules::{
    after_capture, after_placement, all_points, board_points, captured_by, cell_at, connected,
    covers_board, empty_grid, group_of, holds, is_legal, legal_points, lemma_captured_stones,
    lemma_connected_self, lemma_connected_step, lemma_distinct_points, lemma_group_within,
    lemma_groups_meet, lemma_same_group, liberties, new_board, placed, placement_error, played,
    prisoners_fit, repeats, smothered, taken_group, takes_group_of, touches, vacant, without,
    BoardView, Grid,
};
use vstd::prelude::*;
use vstd::set_lib::{lemma_len_subset, lemma_set_disjoint_lens};
use vstd::std_specs::cmp::PartialEqSpecImpl;

verus! {

/// Number of lines of the board in each direction.
pub const BOARD_SIZE: usize = 9;

/// The colour of a stone, and of the player who places it.
#[derive(Debug, Copy, Clone, PartialEq, Eq, Structural)]
pub enum Stone {
    Black,
    White,
}

impl Stone {
    /// The other colour.
    pub open spec fn flipped(self) -> Stone {
        match self {
            Stone::Black => Stone::White,
            Stone::White => Stone::Black,
        }
    }

    /// The other colour.
    pub fn flip(self) -> (other: Stone)
        ensures
            other == self.flipped(),
            other != self,
    {
        match self {
            Self::Black => Self::White,
            Self::White => Self::Black,
        }
    }

    /// Flipping twice gives the colour back.
    pub proof fn flip_involution(self)
        ensures
            self.flipped().flipped() == self,
    {
    }
}

/// What a coordinate holds: `Wall` outside the board, otherwise a space that is
/// empty or occupied. `Wall` is only ever an answer, never stored.
#[derive(Debug, Copy, Clone, PartialEq, Eq, Structural)]
pub enum BoardCell {
    Wall,
    Space(Option<Stone>),
}

/// A coordinate, counted from 1 in both directions. Points on the board have
/// both coordinates in `1..=BOARD_SIZE`; a point may lie outside.
#[derive(Debug, PartialEq, Eq, Hash, Clone, Copy, Structural)]
pub struct Point {
    pub row: i8,
    pub col: i8,
}

impl Point {
    /// Whether the point lies on the board.
    pub open spec fn on_board(self) -> bool {
        1 <= self.row <= BOARD_SIZE && 1 <= self.col <= BOARD_SIZE
    }

    /// Whether `other` is one step up, down, left or right of this point.
    pub open spec fn adjacent(self, other: Point) -> bool {
        ||| other.row == self.row - 1 && other.col == self.col
        ||| other.row == self.row + 1 && other.col == self.col
        ||| other.row == self.row && other.col == self.col - 1
        ||| other.row == self.row && other.col == self.col + 1
    }

    /// The point one row up.
    pub fn up(&self) -> (p: Point)
        requires
            self.row > i8::MIN,
        ensures
            p.row == self.row - 1,
            p.col == self.col,
    {
        Point { row: self.row - 1, col: self.col }
    }

    /// The point one row down.
    pub fn down(&self) -> (p: Point)
        requires
            self.row < i8::MAX,
        ensures
            p.row == self.row + 1,
            p.col == self.col,
    {
        Point { row: self.row + 1, col: self.col }
    }

    /// The point one column to the left.
    pub fn left(&self) -> (p: Point)
        requires
            self.col > i8::MIN,
        ensures
            p.row == self.row,
            p.col == self.col - 1,
    {
        Point { row: self.row, col: self.col - 1 }
    }

    /// The point one column to the right.
    pub fn right(&self) -> (p: Point)
        requires
            self.col < i8::MAX,
        ensures
            p.row == self.row,
            p.col == self.col + 1,
    {
        Point { row: self.row, col: self.col + 1 }
    }
}

/// Why a placement was refused.
#[derive(Debug, Copy, Clone, PartialEq, Eq, Structural)]
pub enum PlaceError {
    /// The point lies outside the board.
    OutOfRange,
    /// The point already holds a stone.
    Occupied,
    /// The stone would have no liberty and would capture nothing.
    Suicide,
    /// The placement would bring back the position of two plies before.
    KoViolation,
}

/// The cells of the board, row by row.
type Space = [[Option<Stone>; BOARD_SIZE]; BOARD_SIZE];

/// One mark for each point of the board.
type Marks = [[bool; BOARD_SIZE]; BOARD_SIZE];

/// The position that the cells stand for.
spec fn grid_of(space: Space) -> Grid {
    Map::new(|p: Point| p.on_board(), |p: Point| space[p.row - 1][p.col - 1])
}

/// Whether the point, which lies on the board, carries a mark.
spec fn marked(marks: Marks, p: Point) -> bool {
    marks[p.row - 1][p.col - 1]
}

/// Whether the point lies on the board or right beside it. No other point is
/// adjacent to a point of the board.
spec fn near_board(p: Point) -> bool {
    0 <= p.row <= BOARD_SIZE + 1 && 0 <= p.col <= BOARD_SIZE + 1
}

/// Whether the point lies on the board or right beside it.
fn is_near(point: Point) -> (near: bool)
    ensures
        near == near_board(point),
{
    0 <= point.row && point.row as usize <= BOARD_SIZE + 1 && 0 <= point.col && point.col as usize
        <= BOARD_SIZE + 1
}

/// Whether the point lies on the board.
fn in_range(point: Point) -> (inside: bool)
    ensures
        inside == point.on_board(),
{
    1 <= point.row && point.row as usize <= BOARD_SIZE && 1 <= point.col && point.col as usize
        <= BOARD_SIZE
}

/// The board: the position, the prisoners that each colour has taken, and the
/// positions that the game has gone through.
#[derive(Debug)]
pub struct Board {
    space: Space,
    pub black_prisoners: usize,
    pub white_prisoners: usize,
    previous_spaces: Vec<Space>,
}

impl View for Board {
    type V = BoardView;

    closed spec fn view(&self) -> BoardView {
        BoardView {
            grid: grid_of(self.space),
            black_prisoners: self.black_prisoners as nat,
            white_prisoners: self.white_prisoners as nat,
            history: self.previous_spaces@.map_values(|space: Space| grid_of(space)),
        }
    }
}

impl Board {
    /// An empty board with no prisoners.
    pub fn new() -> (board: Self)
        ensures
            board@ == new_board(),
    {
        let space: Space = [[None; BOARD_SIZE]; BOARD_SIZE];
        let mut previous_spaces: Vec<Space> = Vec::new();
        previous_spaces.push(space);
        proof {
            assert(grid_of(space) =~= empty_grid());
            assert(previous_spaces@.map_values(|space: Space| grid_of(space)) =~= seq![
                empty_grid(),
            ]);
        }
        Self { space, black_prisoners: 0, white_prisoners: 0, previous_spaces }
    }

    /// An empty board on which prisoners have been taken already.
    pub fn new_with_prisoners(black_prisoners: usize, white_prisoners: usize) -> (board: Self)
        ensures
            board@ == (BoardView {
                black_prisoners: black_prisoners as nat,
                white_prisoners: white_prisoners as nat,
                ..new_board()
            }),
    {
        let mut board = Self::new();
        board.black_prisoners += black_prisoners;
        board.white_prisoners += white_prisoners;
        board
    }

    /// The position of a board, and each position of its history, says
    /// something of every point of the board and of no other.
    pub proof fn lemma_positions_cover_board(&self)
        ensures
            covers_board(self@.grid),
            forall|i: int|
                0 <= i < self@.history.len() ==> covers_board(#[trigger] self@.history[i]),
    {
        assert(self@.grid.dom() =~= board_points());
        assert forall|i: int| 0 <= i < self@.history.len() implies covers_board(
            #[trigger] self@.history[i],
        ) by {
            assert(self@.history[i].dom() =~= board_points());
        }
    }

    /// How many positions the history holds: one for the empty board and one
    /// for each placement so far.
    pub fn history_len(&self) -> (positions: usize)
        ensures
            positions == self@.history.len(),
    {
        self.previous_spaces.len()
    }

    /// What the coordinate holds.
    pub fn get(&self, point: Point) -> (cell: BoardCell)
        ensures
            cell == cell_at(self@.grid, point),
    {
        if !in_range(point) {
            BoardCell::Wall
        } else {
            BoardCell::Space(self.space[point.row as usize - 1][point.col as usize - 1])
        }
    }

    /// The group of `start_point`: the stones of colour `stone` that are joined
    /// to it. Empty where `start_point` holds no such stone.
    pub fn find_group(&self, stone: Stone, start_point: Point) -> (group: Vec<Point>)
        ensures
            group@.no_duplicates(),
            group@.to_set() == group_of(self@.grid, stone, start_point),
            group.len() > 0 ==> group[0] == start_point,
    {
        let ghost grid = self@.grid;
        let mut group: Vec<Point> = Vec::new();
        let mut checked: Marks = [[false; BOARD_SIZE]; BOARD_SIZE];
        let mut check_points: Vec<Point> = Vec::new();
        check_points.push(start_point);
        proof {
            assert(check_points@[0] == start_point);
            if holds(grid, start_point, stone) {
                lemma_connected_self(grid, stone, start_point);
            }
        }

        while check_points.len() > 0
            invariant
                grid == self@.grid,
                group@.no_duplicates(),
                group.len() <= BOARD_SIZE * BOARD_SIZE,
                forall|i: int|
                    0 <= i < group.len() ==> {
                        &&& holds(grid, #[trigger] group[i], stone)
                        &&& connected(grid, stone, start_point, group[i])
                        &&& marked(checked, group[i])
                    },
                forall|i: int|
                    0 <= i < check_points.len() && holds(grid, #[trigger] check_points[i], stone)
                        ==> connected(grid, stone, start_point, check_points[i]),
                forall|p: Point|
                    p.on_board() && #[trigger] marked(checked, p) && holds(grid, p, stone)
                        ==> group@.contains(p),
                forall|i: int, q: Point|
                    0 <= i < group.len() && #[trigger] group[i].adjacent(q) && holds(grid, q, stone)
                        ==> group@.contains(q) || check_points@.contains(q),
                holds(grid, start_point, stone) ==> group@.contains(start_point)
                    || check_points@.contains(start_point),
                group.len() > 0 ==> group[0] == start_point,
                group.len() == 0 ==> forall|i: int|
                    0 <= i < check_points.len() ==> check_points[i] == start_point,
            decreases BOARD_SIZE * BOARD_SIZE - group.len(), check_points.len(),
        {
            let ghost before = check_points@;
            let ghost members = group@;
            let point = check_points.pop().unwrap();
            let ghost waiting = check_points@;
            proof {
                assert forall|q: Point| before.contains(q) && q != point implies waiting.contains(
                    q,
                ) by {
                    let j = choose|j: int| 0 <= j < before.len() && before[j] == q;
                    assert(waiting[j] == q);
                }
                assert(before[before.len() - 1] == point);
            }
            match self.get(point) {
                BoardCell::Wall => {},
                BoardCell::Space(content) => {
                    let row = point.row as usize - 1;
                    let col = point.col as usize - 1;
                    if !checked[row][col] {
                        let same_colour = match content {
                            Some(s) => s == stone,
                            None => false,
                        };
                        let ghost marks = checked;
                        checked[row][col] = true;
                        proof {
                            assert(same_colour == holds(grid, point, stone));
                            assert(!marked(marks, point));
                            assert forall|p: Point| p.on_board() implies marked(checked, p) == (p
                                == point || marked(marks, p)) by {
                                if p.row - 1 != row {
                                    assert(checked[p.row - 1] == marks[p.row - 1]);
                                }
                            }
                        }
                        if same_colour {
                            let up = point.up();
                            let down = point.down();
                            let left = point.left();
                            let right = point.right();
                            group.push(point);
                            check_points.push(up);
                            check_points.push(down);
                            check_points.push(left);
                            check_points.push(right);
                            proof {
                                let n = waiting.len() as int;
                                assert(check_points@[n] == up);
                                assert(check_points@[n + 1] == down);
                                assert(check_points@[n + 2] == left);
                                assert(check_points@[n + 3] == right);
                                assert(group@[members.len() as int] == point);
                                assert(!members.contains(point));
                                assert forall|q: Point| members.contains(q) implies group@.contains(
                                    q,
                                ) by {
                                    let j = choose|j: int| 0 <= j < members.len() && members[j] == q;
                                    assert(group@[j] == q);
                                }
                                assert forall|q: Point| waiting.contains(q) implies check_points@.contains(
                                    q,
                                ) by {
                                    let j = choose|j: int| 0 <= j < waiting.len() && waiting[j] == q;
                                    assert(check_points@[j] == q);
                                }
                                assert forall|i: int|
                                    0 <= i < check_points.len() && holds(
                                        grid,
                                        #[trigger] check_points[i],
                                        stone,
                                    ) implies connected(grid, stone, start_point, check_points[i]) by {
                                    if i >= n {
                                        lemma_connected_step(
                                            grid,
                                            stone,
                                            start_point,
                                            point,
                                            check_points[i],
                                        );
                                    } else {
                                        assert(check_points[i] == before[i]);
                                    }
                                }
                                assert forall|i: int, q: Point|
                                    0 <= i < group.len() && #[trigger] group[i].adjacent(q) && holds(
                                        grid,
                                        q,
                                        stone,
                                    ) implies group@.contains(q) || check_points@.contains(q) by {
                                    if i < members.len() {
                                        assert(members[i].adjacent(q));
                                    } else {
                                        assert(q == up || q == down || q == left || q == right);
                                    }
                                }
                                lemma_distinct_points(group@);
                            }
                        }
                    } else {
                        assert(marked(checked, point));
                    }
                },
            }
        }
        proof {
            let found = group@.to_set();
            assert forall|p: Point, q: Point|
                found.contains(p) && #[trigger] p.adjacent(q) && holds(grid, q, stone) implies found.contains(
                q,
            ) by {
                let i = choose|i: int| 0 <= i < group.len() && group[i] == p;
                assert(group[i].adjacent(q));
            }
            lemma_group_within(grid, stone, start_point, found);
            assert(found =~= group_of(grid, stone, start_point));
        }
        group
    }

    /// The liberties of the points of `group`: the empty points adjacent to one
    /// of them, each once.
    pub fn find_breathing_space(&self, group: Vec<Point>) -> (breathing_points: Vec<Point>)
        ensures
            breathing_points@.no_duplicates(),
            breathing_points@.to_set() == liberties(self@.grid, group@.to_set()),
    {
        let ghost grid = self@.grid;
        let ghost stones = group@.to_set();
        let mut breathing_points: Vec<Point> = Vec::new();
        let mut checked: Marks = [[false; BOARD_SIZE]; BOARD_SIZE];
        let mut check_points: Vec<Point> = Vec::new();
        let mut i: usize = 0;
        while i < group.len()
            invariant
                i <= group.len(),
                stones == group@.to_set(),
                forall|k: int|
                    0 <= k < check_points.len() ==> touches(stones, #[trigger] check_points[k]),
                forall|j: int, q: Point|
                    0 <= j < i && #[trigger] group[j].adjacent(q) && q.on_board()
                        ==> check_points@.contains(q),
            decreases group.len() - i,
        {
            let p = group[i];
            let ghost waiting = check_points@;
            if is_near(p) {
                let up = p.up();
                let down = p.down();
                let right = p.right();
                let left = p.left();
                check_points.push(up);
                check_points.push(down);
                check_points.push(right);
                check_points.push(left);
                proof {
                    let n = waiting.len() as int;
                    assert(check_points@[n] == up);
                    assert(check_points@[n + 1] == down);
                    assert(check_points@[n + 2] == right);
                    assert(check_points@[n + 3] == left);
                    assert(stones.contains(p));
                    assert(p.adjacent(up) && p.adjacent(down) && p.adjacent(right) && p.adjacent(
                        left,
                    ));
                    assert forall|k: int| 0 <= k < check_points.len() implies touches(
                        stones,
                        #[trigger] check_points[k],
                    ) by {
                        if k < n {
                            assert(check_points[k] == waiting[k]);
                        }
                    }
                }
            }
            proof {
                assert forall|q: Point| waiting.contains(q) implies check_points@.contains(q) by {
                    let j = choose|j: int| 0 <= j < waiting.len() && waiting[j] == q;
                    assert(check_points@[j] == q);
                }
                assert forall|j: int, q: Point|
                    0 <= j < i + 1 && #[trigger] group[j].adjacent(q) && q.on_board() implies check_points@.contains(
                    q,
                ) by {
                    if j == i {
                        assert(near_board(p));
                    }
                }
            }
            i += 1;
        }
        proof {
            assert forall|q: Point| #[trigger]
                liberties(grid, stones).contains(q) implies check_points@.contains(q) by {
                let p = choose|p: Point| stones.contains(p) && #[trigger] p.adjacent(q);
                let j = choose|j: int| 0 <= j < group.len() && group[j] == p;
                assert(group[j].adjacent(q));
            }
        }
        while check_points.len() > 0
            invariant
                grid == self@.grid,
                breathing_points@.no_duplicates(),
                forall|k: int|
                    0 <= k < breathing_points.len() ==> {
                        &&& vacant(grid, #[trigger] breathing_points[k])
                        &&& touches(stones, breathing_points[k])
                        &&& marked(checked, breathing_points[k])
                    },
                forall|p: Point|
                    p.on_board() && #[trigger] marked(checked, p) ==> breathing_points@.contains(p),
                forall|k: int|
                    0 <= k < check_points.len() ==> touches(stones, #[trigger] check_points[k]),
                forall|q: Point| #[trigger]
                    liberties(grid, stones).contains(q) ==> breathing_points@.contains(q)
                        || check_points@.contains(q),
            decreases check_points.len(),
        {
            let ghost before = check_points@;
            let ghost found = breathing_points@;
            let check_point = check_points.pop().unwrap();
            proof {
                assert forall|q: Point| before.contains(q) && q != check_point implies check_points@.contains(
                    q,
                ) by {
                    let j = choose|j: int| 0 <= j < before.len() && before[j] == q;
                    assert(check_points@[j] == q);
                }
                assert(before[before.len() - 1] == check_point);
            }
            match self.get(check_point) {
                BoardCell::Space(None) => {
                    let row = check_point.row as usize - 1;
                    let col = check_point.col as usize - 1;
                    if !checked[row][col] {
                        let ghost marks = checked;
                        breathing_points.push(check_point);
                        checked[row][col] = true;
                        proof {
                            assert(!marked(marks, check_point));
                            assert forall|p: Point| p.on_board() implies marked(checked, p) == (p
                                == check_point || marked(marks, p)) by {
                                if p.row - 1 != row {
                                    assert(checked[p.row - 1] == marks[p.row - 1]);
                                }
                            }
                            assert(!found.contains(check_point));
                            assert(breathing_points@[found.len() as int] == check_point);
                            assert forall|q: Point| found.contains(q) implies breathing_points@.contains(
                                q,
                            ) by {
                                let j = choose|j: int| 0 <= j < found.len() && found[j] == q;
                                assert(breathing_points@[j] == q);
                            }
                        }
                    } else {
                        assert(marked(checked, check_point));
                    }
                },
                _ => {},
            }
        }
        proof {
            assert(breathing_points@.to_set() =~= liberties(grid, stones));
        }
        breathing_points
    }
}

/// The points of the first `upto` groups.
spec fn stones_in(groups: Seq<Vec<Point>>, upto: int) -> Set<Point> {
    Set::new(
        |q: Point|
            exists|i: int| 0 <= i < upto && i < groups.len() && (#[trigger] groups[i])@.contains(q),
    )
}

/// The first `upto` points of a list.
spec fn first_points(points: Seq<Point>, upto: int) -> Set<Point> {
    Set::new(|q: Point| exists|k: int| 0 <= k < upto && k < points.len() && points[k] == q)
}

/// Puts `content` on the point, which lies on the board.
fn write_cell(space: &mut Space, point: Point, content: Option<Stone>)
    requires
        point.on_board(),
    ensures
        grid_of(*final(space)) == grid_of(*old(space)).insert(point, content),
{
    let row = point.row as usize - 1;
    let col = point.col as usize - 1;
    let ghost before = *space;
    space[row][col] = content;
    proof {
        assert forall|q: Point| q.on_board() implies grid_of(*space)[q] == grid_of(before).insert(
            point,
            content,
        )[q] by {
            if q.row - 1 != row {
                assert(space[q.row - 1] == before[q.row - 1]);
            }
        }
        assert(grid_of(*space) =~= grid_of(before).insert(point, content));
    }
}

/// Whether the two hold the same position.
fn same_space(a: &Space, b: &Space) -> (same: bool)
    ensures
        same == (grid_of(*a) == grid_of(*b)),
{
    let mut i: usize = 0;
    while i < BOARD_SIZE
        invariant
            i <= BOARD_SIZE,
            forall|x: int, y: int| 0 <= x < i && 0 <= y < BOARD_SIZE ==> a[x][y] == b[x][y],
        decreases BOARD_SIZE - i,
    {
        let mut j: usize = 0;
        while j < BOARD_SIZE
            invariant
                i < BOARD_SIZE,
                j <= BOARD_SIZE,
                forall|x: int, y: int| 0 <= x < i && 0 <= y < BOARD_SIZE ==> a[x][y] == b[x][y],
                forall|y: int| 0 <= y < j ==> a[i as int][y] == b[i as int][y],
            decreases BOARD_SIZE - j,
        {
            if a[i][j] != b[i][j] {
                proof {
                    let p = Point { row: (i + 1) as i8, col: (j + 1) as i8 };
                    assert(p.on_board());
                    assert(grid_of(*a)[p] != grid_of(*b)[p]);
                }
                return false;
            }
            j += 1;
        }
        i += 1;
    }
    proof {
        assert(grid_of(*a) =~= grid_of(*b));
    }
    true
}

/// Whether the point lies in one of the groups.
fn listed(groups: &Vec<Vec<Point>>, point: Point) -> (found: bool)
    ensures
        found == exists|i: int| 0 <= i < groups.len() && (#[trigger] groups[i])@.contains(point),
{
    let mut i: usize = 0;
    while i < groups.len()
        invariant
            i <= groups.len(),
            forall|a: int| 0 <= a < i ==> !(#[trigger] groups[a])@.contains(point),
        decreases groups.len() - i,
    {
        let group = &groups[i];
        let mut j: usize = 0;
        while j < group.len()
            invariant
                i < groups.len(),
                *group == groups[i as int],
                j <= group.len(),
                forall|b: int| 0 <= b < j ==> group[b] != point,
            decreases group.len() - j,
        {
            if group[j] == point {
                assert(groups@[i as int]@[j as int] == point);
                return true;
            }
            j += 1;
        }
        i += 1;
    }
    false
}

impl Board {
    /// The groups of the other colour that a stone of colour `stone` placed at
    /// `point` captures: each group adjacent to `point` whose one liberty is
    /// `point`, each once.
    pub fn find_groups_can_kill(&self, stone: Stone, point: Point) -> (groups: Vec<Vec<Point>>)
        ensures
            forall|i: int|
                0 <= i < groups.len() ==> {
                    &&& (#[trigger] groups[i])@.no_duplicates()
                    &&& taken_group(self@.grid, stone, point, groups[i]@.to_set())
                },
            forall|i: int, j: int|
                0 <= i < j < groups.len() ==> (#[trigger] groups[i])@.to_set().disjoint(
                    (#[trigger] groups[j])@.to_set(),
                ),
            forall|q: Point|
                captured_by(self@.grid, stone, point).contains(q) <==> exists|i: int|
                    0 <= i < groups.len() && (#[trigger] groups[i])@.contains(q),
    {
        let ghost grid = self@.grid;
        let mut groups: Vec<Vec<Point>> = Vec::new();
        if !in_range(point) {
            // Only a stone on the board takes a liberty away.
            proof {
                assert forall|q: Point| !captured_by(grid, stone, point).contains(q) by {
                    if captured_by(grid, stone, point).contains(q) {
                        let n = choose|n: Point|
                            #[trigger] takes_group_of(grid, stone, point, n) && group_of(
                                grid,
                                stone.flipped(),
                                n,
                            ).contains(q);
                        assert(set![point].contains(point));
                    }
                }
            }
            return groups;
        }
        let other = stone.flip();
        let around = [point.up(), point.down(), point.left(), point.right()];
        let mut k: usize = 0;
        while k < 4
            invariant
                k <= 4,
                grid == self@.grid,
                other == stone.flipped(),
                point.on_board(),
                forall|a: int| 0 <= a < 4 ==> point.adjacent(#[trigger] around[a]),
                forall|i: int|
                    0 <= i < groups.len() ==> {
                        &&& (#[trigger] groups[i])@.no_duplicates()
                        &&& taken_group(grid, stone, point, groups[i]@.to_set())
                    },
                forall|i: int, j: int|
                    0 <= i < j < groups.len() ==> (#[trigger] groups[i])@.to_set().disjoint(
                        (#[trigger] groups[j])@.to_set(),
                    ),
                forall|a: int|
                    0 <= a < k && takes_group_of(grid, stone, point, #[trigger] around[a])
                        ==> exists|i: int|
                        0 <= i < groups.len() && (#[trigger] groups[i])@.to_set() == group_of(
                            grid,
                            other,
                            around[a],
                        ),
            decreases 4 - k,
        {
            let p = around[k];
            let ghost listed_before = groups@;
            let is_other = match self.get(p) {
                BoardCell::Space(Some(s)) => s == other,
                _ => false,
            };
            if is_other {
                proof {
                    lemma_connected_self(grid, other, p);
                }
                if listed(&groups, p) {
                    proof {
                        let i = choose|i: int|
                            0 <= i < groups.len() && (#[trigger] groups[i])@.contains(p);
                        let n = choose|n: Point|
                            #[trigger] takes_group_of(grid, stone, point, n) && groups[i]@.to_set()
                                == group_of(grid, other, n);
                        assert(group_of(grid, other, n).contains(p));
                        lemma_same_group(grid, other, n, p);
                        assert(groups[i]@.to_set() == group_of(grid, other, p));
                    }
                } else {
                    let group = self.find_group(other, p);
                    let members = group.clone();
                    assert(members@ =~= group@);
                    let breathing_space = self.find_breathing_space(members);
                    if breathing_space.len() == 1 && breathing_space[0] == point {
                        proof {
                            assert(breathing_space@.to_set() =~= set![point]);
                            assert(takes_group_of(grid, stone, point, p));
                            assert(taken_group(grid, stone, point, group@.to_set()));
                            assert forall|i: int| 0 <= i < groups.len() implies (
                            #[trigger] groups[i])@.to_set().disjoint(group@.to_set()) by {
                                let n = choose|n: Point|
                                    #[trigger] takes_group_of(grid, stone, point, n)
                                        && groups[i]@.to_set() == group_of(grid, other, n);
                                if exists|q: Point|
                                    groups[i]@.to_set().contains(q) && group@.to_set().contains(q) {
                                    let q = choose|q: Point|
                                        groups[i]@.to_set().contains(q) && group@.to_set().contains(
                                            q,
                                        );
                                    lemma_groups_meet(grid, other, n, p, q);
                                    assert(groups[i]@.to_set().contains(p));
                                    assert(groups[i]@.contains(p));
                                }
                            }
                        }
                        groups.push(group);
                        proof {
                            let last = listed_before.len() as int;
                            assert(groups@[last]@.to_set() == group_of(grid, other, p));
                            assert forall|i: int| 0 <= i < last implies groups@[i]
                                == listed_before[i] by {}
                        }
                    } else {
                        proof {
                            if liberties(grid, group_of(grid, other, p)) == set![point] {
                                breathing_space@.unique_seq_to_set();
                                assert(breathing_space@.to_set().contains(breathing_space@[0]));
                            }
                            assert(!takes_group_of(grid, stone, point, p));
                        }
                    }
                }
            } else {
                assert(!holds(grid, p, other));
            }
            k += 1;
        }
        proof {
            assert forall|q: Point| captured_by(grid, stone, point).contains(q) implies exists|
                i: int,
            |
                0 <= i < groups.len() && (#[trigger] groups[i])@.contains(q) by {
                let n = choose|n: Point|
                    #[trigger] takes_group_of(grid, stone, point, n) && group_of(
                        grid,
                        other,
                        n,
                    ).contains(q);
                assert(n == around[0] || n == around[1] || n == around[2] || n == around[3]);
                let a = if n == around[0] {
                    0int
                } else if n == around[1] {
                    1int
                } else if n == around[2] {
                    2int
                } else {
                    3int
                };
                assert(takes_group_of(grid, stone, point, around[a]));
                let i = choose|i: int|
                    0 <= i < groups.len() && (#[trigger] groups[i])@.to_set() == group_of(
                        grid,
                        other,
                        around[a],
                    );
                assert(groups[i]@.to_set().contains(q));
            }
            assert forall|q: Point|
                (exists|i: int|
                    0 <= i < groups.len() && (#[trigger] groups[i])@.contains(
                        q,
                    )) implies captured_by(grid, stone, point).contains(q) by {
                let i = choose|i: int| 0 <= i < groups.len() && (#[trigger] groups[i])@.contains(q);
                let n = choose|n: Point|
                    #[trigger] takes_group_of(grid, stone, point, n) && groups[i]@.to_set()
                        == group_of(grid, other, n);
                assert(groups[i]@.to_set().contains(q));
            }
        }
        groups
    }

    /// Removes what a stone of colour `stone` placed at `point` captures, and
    /// counts the stones removed for that colour.
    fn kill_by(&mut self, stone: Stone, point: Point)
        requires
            point.on_board(),
            prisoners_fit(old(self)@, stone, point),
        ensures
            final(self)@ == after_capture(old(self)@, stone, point),
    {
        let ghost start = self@;
        let ghost grid = self@.grid;
        let ghost taken = captured_by(grid, stone, point);
        let groups = self.find_groups_can_kill(stone, point);
        proof {
            lemma_captured_stones(grid, stone, point);
            assert(stones_in(groups@, 0) =~= Set::<Point>::empty());
            assert(grid_of(self.space) =~= without(grid, stones_in(groups@, 0)));
        }
        let mut i: usize = 0;
        while i < groups.len()
            invariant
                i <= groups.len(),
                grid == start.grid,
                taken == captured_by(grid, stone, point),
                taken.finite(),
                prisoners_fit(start, stone, point),
                forall|a: int| 0 <= a < groups.len() ==> (#[trigger] groups[a])@.no_duplicates(),
                forall|a: int, b: int|
                    0 <= a < b < groups.len() ==> (#[trigger] groups[a])@.to_set().disjoint(
                        (#[trigger] groups[b])@.to_set(),
                    ),
                forall|q: Point|
                    taken.contains(q) <==> exists|a: int|
                        0 <= a < groups.len() && (#[trigger] groups[a])@.contains(q),
                forall|q: Point| #[trigger] taken.contains(q) ==> q.on_board(),
                grid_of(self.space) == without(grid, stones_in(groups@, i as int)),
                stones_in(groups@, i as int).finite(),
                self@.history == start.history,
                match stone {
                    Stone::Black => self.black_prisoners == start.black_prisoners + stones_in(
                        groups@,
                        i as int,
                    ).len() && self.white_prisoners == start.white_prisoners,
                    Stone::White => self.white_prisoners == start.white_prisoners + stones_in(
                        groups@,
                        i as int,
                    ).len() && self.black_prisoners == start.black_prisoners,
                },
            decreases groups.len() - i,
        {
            let group = &groups[i];
            let ghost removed = stones_in(groups@, i as int);
            proof {
                assert(first_points(group@, 0) =~= Set::<Point>::empty());
                assert(removed + first_points(group@, 0) =~= removed);
                assert forall|k: int| 0 <= k < group.len() implies (#[trigger] group[k]).on_board() by {
                    assert(groups[i as int]@.contains(group[k]));
                    assert(taken.contains(group[k]));
                }
            }
            let mut j: usize = 0;
            while j < group.len()
                invariant
                    j <= group.len(),
                    forall|k: int| 0 <= k < group.len() ==> (#[trigger] group[k]).on_board(),
                    grid_of(self.space) == without(grid, removed + first_points(group@, j as int)),
                    self@.history == start.history,
                    match stone {
                        Stone::Black => self.black_prisoners == start.black_prisoners
                            + removed.len() && self.white_prisoners == start.white_prisoners,
                        Stone::White => self.white_prisoners == start.white_prisoners
                            + removed.len() && self.black_prisoners == start.black_prisoners,
                    },
                decreases group.len() - j,
            {
                let p = group[j];
                write_cell(&mut self.space, p, None);
                proof {
                    let fewer = removed + first_points(group@, j as int);
                    let more = removed + first_points(group@, j + 1);
                    assert forall|q: Point| more.contains(q) == (fewer.contains(q) || q == p) by {
                        if first_points(group@, j + 1).contains(q) {
                            let k = choose|k: int| 0 <= k < j + 1 && k < group.len() && group[k] == q;
                        }
                        if q == p {
                            assert(group@[j as int] == q);
                        }
                    }
                    assert(grid_of(self.space) =~= without(grid, more));
                }
                j += 1;
            }
            proof {
                let whole = group@.to_set();
                let next = stones_in(groups@, i + 1);
                assert(first_points(group@, group.len() as int) =~= whole);
                assert forall|q: Point| next.contains(q) == (removed + whole).contains(q) by {
                    if next.contains(q) {
                        let a = choose|a: int|
                            0 <= a < i + 1 && a < groups.len() && (#[trigger] groups[a])@.contains(
                                q,
                            );
                    }
                    if whole.contains(q) {
                        assert(groups[i as int]@.contains(q));
                    }
                }
                assert(next =~= removed + whole);
                assert forall|q: Point| removed.contains(q) implies !whole.contains(q) by {
                    let a = choose|a: int|
                        0 <= a < i && a < groups.len() && (#[trigger] groups[a])@.contains(q);
                    assert(groups[a]@.to_set().contains(q));
                    assert(groups[a]@.to_set().disjoint(groups[i as int]@.to_set()));
                }
                vstd::seq_lib::seq_to_set_is_finite(group@);
                group@.unique_seq_to_set();
                lemma_set_disjoint_lens(removed, whole);
                assert forall|q: Point| next.contains(q) implies taken.contains(q) by {
                    let a = choose|a: int|
                        0 <= a < i + 1 && a < groups.len() && (#[trigger] groups[a])@.contains(q);
                }
                lemma_len_subset(next, taken);
            }
            match stone {
                Stone::Black => {
                    self.black_prisoners += group.len();
                },
                Stone::White => {
                    self.white_prisoners += group.len();
                },
            }
            i += 1;
        }
        proof {
            assert(stones_in(groups@, groups.len() as int) =~= taken);
        }
    }

    /// Whether a stone of colour `stone` placed at `point`, before anything is
    /// removed, would belong to a group without a liberty. The trial is made
    /// on a copy of the position.
    fn is_suicide(&self, stone: Stone, point: Point) -> (smothers: bool)
        requires
            point.on_board(),
        ensures
            smothers == smothered(self@.grid, stone, point),
    {
        let mut trial = Self::new();
        trial.space = self.space;
        write_cell(&mut trial.space, point, Some(stone));
        let group = trial.find_group(stone, point);
        let breathing_space = trial.find_breathing_space(group);
        proof {
            if breathing_space.len() > 0 {
                assert(breathing_space@.to_set().contains(breathing_space@[0]));
            } else {
                assert(breathing_space@.to_set() =~= Set::<Point>::empty());
            }
        }
        breathing_space.len() == 0
    }

    /// Whether the placement would bring back the position of two plies
    /// before. The trial is made on a copy of the position.
    fn is_same_last_space(&self, stone: Stone, point: Point) -> (same: bool)
        requires
            point.on_board(),
        ensures
            same == repeats(self@, stone, point),
    {
        let history_length = self.previous_spaces.len();
        if history_length < 4 {
            return false;
        }
        let mut temp_board = Self::new();
        temp_board.space = self.space;
        proof {
            lemma_captured_stones(self@.grid, stone, point);
        }
        temp_board.kill_by(stone, point);
        write_cell(&mut temp_board.space, point, Some(stone));
        same_space(&temp_board.space, &self.previous_spaces[history_length - 2])
    }

    /// Whether a stone of colour `stone` may be placed at `point`, and if not,
    /// why not. The board is left as it was.
    pub fn can_put(&mut self, stone: Stone, point: Point) -> (verdict: Result<(), PlaceError>)
        ensures
            *final(self) == *old(self),
            match verdict {
                Ok(_) => placement_error(old(self)@, stone, point) is None,
                Err(reason) => placement_error(old(self)@, stone, point) == Some(reason),
            },
    {
        let board_cell = self.get(point);
        match board_cell {
            BoardCell::Wall => Err(PlaceError::OutOfRange),
            BoardCell::Space(Some(_)) => Err(PlaceError::Occupied),
            BoardCell::Space(None) => {
                let groups = self.find_groups_can_kill(stone, point);
                proof {
                    let taken = captured_by(self@.grid, stone, point);
                    if groups.len() > 0 {
                        let n = choose|n: Point|
                            #[trigger] takes_group_of(self@.grid, stone, point, n)
                                && groups[0]@.to_set() == group_of(
                                self@.grid,
                                stone.flipped(),
                                n,
                            );
                        lemma_connected_self(self@.grid, stone.flipped(), n);
                        assert(groups[0]@.to_set().contains(n));
                        assert(groups[0]@.contains(n));
                        assert(taken.contains(n));
                    } else {
                        assert(taken =~= Set::<Point>::empty());
                    }
                }
                if self.is_suicide(stone, point) && groups.len() == 0 {
                    Err(PlaceError::Suicide)
                } else if self.is_same_last_space(stone, point) {
                    Err(PlaceError::KoViolation)
                } else {
                    Ok(())
                }
            },
        }
    }

    /// Places a stone of colour `stone` at `point` if the rules allow it: what
    /// it captures is removed and counted, the stone stands, and the new
    /// position joins the history. A refused placement leaves the board as it
    /// was and says why.
    pub fn put(&mut self, stone: Stone, point: Point) -> (outcome: Result<(), PlaceError>)
        requires
            placement_error(old(self)@, stone, point) is None ==> prisoners_fit(
                old(self)@,
                stone,
                point,
            ),
        ensures
            match outcome {
                Ok(_) => placement_error(old(self)@, stone, point) is None && final(self)@
                    == after_placement(old(self)@, stone, point),
                Err(reason) => placement_error(old(self)@, stone, point) == Some(reason)
                    && *final(self) == *old(self),
            },
            !point.on_board() ==> outcome == Err::<(), PlaceError>(PlaceError::OutOfRange),
            point.on_board() && old(self)@.grid[point] is Some ==> outcome == Err::<
                (),
                PlaceError,
            >(PlaceError::Occupied),
            vacant(old(self)@.grid, point) && smothered(old(self)@.grid, stone, point)
                && captured_by(old(self)@.grid, stone, point) == Set::<Point>::empty() ==> outcome
                == Err::<(), PlaceError>(PlaceError::Suicide),
            vacant(old(self)@.grid, point) && captured_by(old(self)@.grid, stone, point)
                != Set::<Point>::empty() && !repeats(old(self)@, stone, point) ==> outcome is Ok,
            final(self)@ == played(old(self)@, stone, point),
            outcome is Ok ==> final(self)@.history.len() == old(self)@.history.len() + 1,
            outcome is Ok ==> final(self)@.black_prisoners >= old(self)@.black_prisoners
                && final(self)@.white_prisoners >= old(self)@.white_prisoners,
    {
        match self.can_put(stone, point) {
            Ok(_) => {
                let ghost before = self@;
                self.kill_by(stone, point);
                write_cell(&mut self.space, point, Some(stone));
                let ghost earlier = self.previous_spaces@;
                self.previous_spaces.push(self.space);
                proof {
                    let view_of = |space: Space| grid_of(space);
                    assert(self.previous_spaces@.map_values(view_of) =~= earlier.map_values(
                        view_of,
                    ).push(grid_of(self.space)));
                }
                Ok(())
            },
            Err(err) => Err(err),
        }
    }

    /// The points where a stone of colour `stone` may be placed, row by row.
    /// The board is left as it was.
    pub fn find_available_points(&mut self, stone: Stone) -> (available_points: Vec<Point>)
        ensures
            *final(self) == *old(self),
            available_points@ == legal_points(old(self)@, stone),
    {
        let ghost board = self@;
        let ghost legal = is_legal(board, stone);
        let mut available_points: Vec<Point> = Vec::new();
        proof {
            assert(all_points().take(0) =~= Seq::<Point>::empty());
            reveal(Seq::filter);
        }
        let mut row: usize = 1;
        while row <= BOARD_SIZE
            invariant
                1 <= row <= BOARD_SIZE + 1,
                *self == *old(self),
                board == self@,
                legal == is_legal(board, stone),
                available_points@ == all_points().take((row - 1) * BOARD_SIZE).filter(legal),
            decreases BOARD_SIZE + 1 - row,
        {
            let mut col: usize = 1;
            while col <= BOARD_SIZE
                invariant
                    1 <= row <= BOARD_SIZE,
                    1 <= col <= BOARD_SIZE + 1,
                    *self == *old(self),
                    board == self@,
                    legal == is_legal(board, stone),
                    available_points@ == all_points().take(
                        (row - 1) * BOARD_SIZE + (col - 1),
                    ).filter(legal),
                decreases BOARD_SIZE + 1 - col,
            {
                let point = Point { row: row as i8, col: col as i8 };
                let verdict = self.can_put(stone, point);
                proof {
                    let index = (row - 1) * BOARD_SIZE + (col - 1);
                    let so_far = all_points().take(index);
                    assert(all_points()[index] == point);
                    assert(all_points().take(index + 1) =~= so_far.push(point));
                    so_far.lemma_filter_push(point, legal);
                    assert(legal(point) == (verdict is Ok));
                }
                if verdict.is_ok() {
                    available_points.push(point);
                }
                col += 1;
            }
            row += 1;
        }
        proof {
            assert(all_points().take((BOARD_SIZE * BOARD_SIZE) as int) =~= all_points());
        }
        available_points
    }
}

impl PartialEq for Board {
    /// Two boards are equal when they hold the same position and the same
    /// prisoners, however they came to it.
    fn eq(&self, other: &Self) -> (same: bool) {
        same_space(&self.space, &other.space) && self.black_prisoners == other.black_prisoners
            && self.white_prisoners == other.white_prisoners
    }
}

impl PartialEqSpecImpl for Board {
    open spec fn obeys_eq_spec() -> bool {
        true
    }

    open spec fn eq_spec(&self, other: &Self) -> bool {
        &&& self@.grid == other@.grid
        &&& self@.black_prisoners == other@.black_prisoners
        &&& self@.white_prisoners == other@.white_prisoners
    }
}

impl Clone for Board {
    fn clone(&self) -> (copy: Self)
        ensures
            copy@ == self@,
    {
        let mut previous_spaces: Vec<Space> = Vec::new();
        let mut i: usize = 0;
        while i < self.previous_spaces.len()
            invariant
                i <= self.previous_spaces.len(),
                previous_spaces@ == self.previous_spaces@.take(i as int),
            decreases self.previous_spaces.len() - i,
        {
            previous_spaces.push(self.previous_spaces[i]);
            assert(previous_spaces@ =~= self.previous_spaces@.take(i + 1));
            i += 1;
        }
        assert(previous_spaces@ =~= self.previous_spaces@);
        Self {
            space: self.space,
            black_prisoners: self.black_prisoners,
            white_prisoners: self.white_prisoners,
            previous_spaces,
        }
    }
}

} // verus!
