//! The board as text: a frame, the numbers of the rows and columns, and on each
//! point its stone or the piece of the grid that shows through.

use crate::board::{Board, BoardCell, Point, Stone, BOARD_SIZE};
use crate::rules::Grid;
use vstd::prelude::*;
use vstd::string::StringExecFns;

verus! {

/// The sign of the line with the given number, counted from 0.
pub open spec fn label_text(index: int) -> Seq<char> {
    if index == 0 {
        "①"@
    } else if index == 1 {
        "②"@
    } else if index == 2 {
        "③"@
    } else if index == 3 {
        "④"@
    } else if index == 4 {
        "⑤"@
    } else if index == 5 {
        "⑥"@
    } else if index == 6 {
        "⑦"@
    } else if index == 7 {
        "⑧"@
    } else if index == 8 {
        "⑨"@
    } else if index == 9 {
        "⑩"@
    } else if index == 10 {
        "⑪"@
    } else if index == 11 {
        "⑫"@
    } else if index == 12 {
        "⑬"@
    } else if index == 13 {
        "⑭"@
    } else if index == 14 {
        "⑮"@
    } else if index == 15 {
        "⑯"@
    } else if index == 16 {
        "⑰"@
    } else if index == 17 {
        "⑱"@
    } else {
        "⑲"@
    }
}

/// The sign of a stone.
pub open spec fn stone_text(stone: Stone) -> Seq<char> {
    match stone {
        Stone::Black => "○"@,
        Stone::White => "●"@,
    }
}

/// Whether the point in row `i` and column `j`, counted from 0, is a star
/// point: the four near the corners and the one in the middle, and on the
/// larger boards the four in the middle of the sides.
pub open spec fn is_star(i: int, j: int) -> bool {
    let n = BOARD_SIZE as int;
    ||| n == 9 && {
        ||| i == 2 && j == 2
        ||| i == 2 && j == n - 3
        ||| i == n - 3 && j == 2
        ||| i == n - 3 && j == n - 3
        ||| i == n / 2 && j == n / 2
    }
    ||| (n == 13 || n == 19) && {
        ||| i == 3 && j == 3
        ||| i == 3 && j == n - 4
        ||| i == n - 4 && j == 3
        ||| i == n - 4 && j == n - 4
        ||| i == n / 2 && j == n / 2
        ||| i == 3 && j == n / 2
        ||| i == n / 2 && j == 3
        ||| i == n - 4 && j == n / 2
        ||| i == n / 2 && j == n - 4
    }
}

/// What an empty point in row `i` and column `j`, counted from 0, shows of
/// the grid.
pub open spec fn grid_text(i: int, j: int) -> Seq<char> {
    let last = BOARD_SIZE - 1;
    if i == 0 && j == 0 {
        "┌─"@
    } else if is_star(i, j) {
        "•─"@
    } else if i == 0 && j == last {
        "┐ "@
    } else if i == last && j == 0 {
        "└─"@
    } else if i == last && j == last {
        "┘ "@
    } else if i == 0 {
        "┬─"@
    } else if i == last {
        "┴─"@
    } else if j == 0 {
        "├─"@
    } else if j == last {
        "┤ "@
    } else {
        "┼─"@
    }
}

/// What the point in row `i` and column `j`, counted from 0, shows: its stone
/// and a blank, or the grid.
pub open spec fn point_text(grid: Grid, i: int, j: int) -> Seq<char> {
    match grid[Point { row: (i + 1) as i8, col: (j + 1) as i8 }] {
        Some(stone) => stone_text(stone) + " "@,
        None => grid_text(i, j),
    }
}

/// `piece`, `times` times over.
pub open spec fn repeated(piece: Seq<char>, times: nat) -> Seq<char>
    decreases times,
{
    if times == 0 {
        Seq::empty()
    } else {
        repeated(piece, (times - 1) as nat) + piece
    }
}

/// The signs of the first `upto` columns, each after a blank.
pub open spec fn labels_text(upto: nat) -> Seq<char>
    decreases upto,
{
    if upto == 0 {
        Seq::empty()
    } else {
        labels_text((upto - 1) as nat) + " "@ + label_text(upto - 1)
    }
}

/// The first `upto` points of row `i`.
pub open spec fn points_text(grid: Grid, i: int, upto: nat) -> Seq<char>
    decreases upto,
{
    if upto == 0 {
        Seq::empty()
    } else {
        points_text(grid, i, (upto - 1) as nat) + point_text(grid, i, upto - 1)
    }
}

/// The line of row `i`: the frame, the sign of the row, its points, the sign
/// again and the frame.
pub open spec fn row_text(grid: Grid, i: int) -> Seq<char> {
    "│ "@ + label_text(i) + " "@ + points_text(grid, i, BOARD_SIZE as nat) + label_text(i)
        + " │\n"@
}

/// The lines of the first `upto` rows.
pub open spec fn rows_text(grid: Grid, upto: nat) -> Seq<char>
    decreases upto,
{
    if upto == 0 {
        Seq::empty()
    } else {
        rows_text(grid, (upto - 1) as nat) + row_text(grid, upto - 1)
    }
}

/// The line of the signs of the columns.
pub open spec fn header_text() -> Seq<char> {
    "│  "@ + labels_text(BOARD_SIZE as nat) + "   │\n"@
}

/// How many strokes the top and the bottom of the frame take.
pub open spec fn frame_width() -> nat {
    (BOARD_SIZE * 2 + 5) as nat
}

/// The whole picture of a position.
pub open spec fn board_text(grid: Grid) -> Seq<char> {
    "┌"@ + repeated("─"@, frame_width()) + "┐\n"@ + header_text() + rows_text(
        grid,
        BOARD_SIZE as nat,
    ) + header_text() + "└"@ + repeated("─"@, frame_width()) + "┘\n"@
}

/// The sign of the line with the given number, counted from 0.
pub fn label(index: usize) -> (sign: &'static str)
    requires
        index < 19,
    ensures
        sign@ == label_text(index as int),
{
    if index == 0 {
        "①"
    } else if index == 1 {
        "②"
    } else if index == 2 {
        "③"
    } else if index == 3 {
        "④"
    } else if index == 4 {
        "⑤"
    } else if index == 5 {
        "⑥"
    } else if index == 6 {
        "⑦"
    } else if index == 7 {
        "⑧"
    } else if index == 8 {
        "⑨"
    } else if index == 9 {
        "⑩"
    } else if index == 10 {
        "⑪"
    } else if index == 11 {
        "⑫"
    } else if index == 12 {
        "⑬"
    } else if index == 13 {
        "⑭"
    } else if index == 14 {
        "⑮"
    } else if index == 15 {
        "⑯"
    } else if index == 16 {
        "⑰"
    } else if index == 17 {
        "⑱"
    } else {
        "⑲"
    }
}

impl Stone {
    /// The sign of the stone.
    pub fn sign(self) -> (sign: &'static str)
        ensures
            sign@ == stone_text(self),
    {
        match self {
            Stone::Black => "○",
            Stone::White => "●",
        }
    }
}

/// What an empty point in row `i` and column `j`, counted from 0, shows of
/// the grid.
pub fn grid_sign(i: usize, j: usize) -> (sign: &'static str)
    ensures
        sign@ == grid_text(i as int, j as int),
{
    if i == 0 && j == 0 {
        "┌─"
    } else if BOARD_SIZE == 9 && ((i == 2 && j == 2) || (i == 2 && j == BOARD_SIZE - 3) || (i
        == BOARD_SIZE - 3 && j == 2) || (i == BOARD_SIZE - 3 && j == BOARD_SIZE - 3) || (i
        == BOARD_SIZE / 2 && j == BOARD_SIZE / 2)) {
        "•─"
    } else if (BOARD_SIZE == 13 || BOARD_SIZE == 19) && ((i == 3 && j == 3) || (i == 3 && j
        == BOARD_SIZE - 4) || (i == BOARD_SIZE - 4 && j == 3) || (i == BOARD_SIZE - 4 && j
        == BOARD_SIZE - 4) || (i == BOARD_SIZE / 2 && j == BOARD_SIZE / 2) || (i == 3 && j
        == BOARD_SIZE / 2) || (i == BOARD_SIZE / 2 && j == 3) || (i == BOARD_SIZE - 4 && j
        == BOARD_SIZE / 2) || (i == BOARD_SIZE / 2 && j == BOARD_SIZE - 4)) {
        "•─"
    } else if i == 0 && j == BOARD_SIZE - 1 {
        "┐ "
    } else if i == BOARD_SIZE - 1 && j == 0 {
        "└─"
    } else if i == BOARD_SIZE - 1 && j == BOARD_SIZE - 1 {
        "┘ "
    } else if i == 0 && j != 0 {
        "┬─"
    } else if i == BOARD_SIZE - 1 && j != 0 {
        "┴─"
    } else if i != 0 && j == 0 {
        "├─"
    } else if i != 0 && j == BOARD_SIZE - 1 {
        "┤ "
    } else {
        "┼─"
    }
}

/// Adds the top or the bottom of the frame between its two corners.
fn append_edge(text: &mut String, left: &str, right: &str)
    ensures
        final(text)@ == old(text)@ + left@ + repeated("─"@, frame_width()) + right@,
{
    text.append(left);
    let ghost start = text@;
    let mut k: usize = 0;
    while k < BOARD_SIZE * 2 + 5
        invariant
            k <= BOARD_SIZE * 2 + 5,
            text@ == start + repeated("─"@, k as nat),
        decreases BOARD_SIZE * 2 + 5 - k,
    {
        text.append("─");
        k += 1;
    }
    text.append(right);
}

/// Adds the line of the signs of the columns.
fn append_header(text: &mut String)
    ensures
        final(text)@ == old(text)@ + header_text(),
{
    text.append("│  ");
    let ghost start = text@;
    let mut i: usize = 0;
    while i < BOARD_SIZE
        invariant
            i <= BOARD_SIZE,
            text@ == start + labels_text(i as nat),
        decreases BOARD_SIZE - i,
    {
        text.append(" ");
        text.append(label(i));
        i += 1;
    }
    text.append("   │\n");
}

impl Board {
    /// The picture of the board.
    pub fn render(&self) -> (text: String)
        ensures
            text@ == board_text(self@.grid),
    {
        let ghost grid = self@.grid;
        let mut text = String::new();
        append_edge(&mut text, "┌", "┐\n");
        append_header(&mut text);
        let ghost top = text@;
        let mut i: usize = 0;
        while i < BOARD_SIZE
            invariant
                i <= BOARD_SIZE,
                grid == self@.grid,
                text@ == top + rows_text(grid, i as nat),
            decreases BOARD_SIZE - i,
        {
            let ghost above = text@;
            text.append("│ ");
            text.append(label(i));
            text.append(" ");
            let ghost start = text@;
            let mut j: usize = 0;
            while j < BOARD_SIZE
                invariant
                    i < BOARD_SIZE,
                    j <= BOARD_SIZE,
                    grid == self@.grid,
                    text@ == start + points_text(grid, i as int, j as nat),
                decreases BOARD_SIZE - j,
            {
                let point = Point { row: (i + 1) as i8, col: (j + 1) as i8 };
                match self.get(point) {
                    BoardCell::Space(Some(stone)) => {
                        text.append(stone.sign());
                        text.append(" ");
                    },
                    _ => {
                        text.append(grid_sign(i, j));
                    },
                }
                j += 1;
            }
            text.append(label(i));
            text.append(" │\n");
            assert(text@ == above + row_text(grid, i as int));
            i += 1;
        }
        append_header(&mut text);
        append_edge(&mut text, "└", "┘\n");
        text
    }
}

} // verus!
