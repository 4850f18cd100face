use go_game::board::{Board, Point, Stone};
use go_game::render::{grid_sign, label};

#[test]
fn the_picture_of_an_empty_board() {
    let expected = [
        "┌───────────────────────┐\n",
        "│   ① ② ③ ④ ⑤ ⑥ ⑦ ⑧ ⑨   │\n",
        "│ ① ┌─┬─┬─┬─┬─┬─┬─┬─┐ ① │\n",
        "│ ② ├─┼─┼─┼─┼─┼─┼─┼─┤ ② │\n",
        "│ ③ ├─┼─•─┼─┼─┼─•─┼─┤ ③ │\n",
        "│ ④ ├─┼─┼─┼─┼─┼─┼─┼─┤ ④ │\n",
        "│ ⑤ ├─┼─┼─┼─•─┼─┼─┼─┤ ⑤ │\n",
        "│ ⑥ ├─┼─┼─┼─┼─┼─┼─┼─┤ ⑥ │\n",
        "│ ⑦ ├─┼─•─┼─┼─┼─•─┼─┤ ⑦ │\n",
        "│ ⑧ ├─┼─┼─┼─┼─┼─┼─┼─┤ ⑧ │\n",
        "│ ⑨ └─┴─┴─┴─┴─┴─┴─┴─┘ ⑨ │\n",
        "│   ① ② ③ ④ ⑤ ⑥ ⑦ ⑧ ⑨   │\n",
        "└───────────────────────┘\n",
    ]
    .concat();
    assert_eq!(Board::new().render(), expected);
}

#[test]
fn the_picture_of_a_board_with_stones() {
    let mut board = Board::new();
    board.put(Stone::Black, Point { row: 1, col: 1 }).unwrap();
    board.put(Stone::White, Point { row: 3, col: 3 }).unwrap();
    board.put(Stone::Black, Point { row: 9, col: 9 }).unwrap();
    board.put(Stone::White, Point { row: 5, col: 6 }).unwrap();
    let expected = [
        "┌───────────────────────┐\n",
        "│   ① ② ③ ④ ⑤ ⑥ ⑦ ⑧ ⑨   │\n",
        "│ ① ○ ┬─┬─┬─┬─┬─┬─┬─┐ ① │\n",
        "│ ② ├─┼─┼─┼─┼─┼─┼─┼─┤ ② │\n",
        "│ ③ ├─┼─● ┼─┼─┼─•─┼─┤ ③ │\n",
        "│ ④ ├─┼─┼─┼─┼─┼─┼─┼─┤ ④ │\n",
        "│ ⑤ ├─┼─┼─┼─•─● ┼─┼─┤ ⑤ │\n",
        "│ ⑥ ├─┼─┼─┼─┼─┼─┼─┼─┤ ⑥ │\n",
        "│ ⑦ ├─┼─•─┼─┼─┼─•─┼─┤ ⑦ │\n",
        "│ ⑧ ├─┼─┼─┼─┼─┼─┼─┼─┤ ⑧ │\n",
        "│ ⑨ └─┴─┴─┴─┴─┴─┴─┴─○ ⑨ │\n",
        "│   ① ② ③ ④ ⑤ ⑥ ⑦ ⑧ ⑨   │\n",
        "└───────────────────────┘\n",
    ]
    .concat();
    assert_eq!(board.render(), expected);
}

#[test]
fn the_signs_of_the_stones() {
    assert_eq!(Stone::Black.sign(), "○");
    assert_eq!(Stone::White.sign(), "●");
}

#[test]
fn the_signs_of_the_lines() {
    assert_eq!(label(0), "①");
    assert_eq!(label(8), "⑨");
    assert_eq!(label(9), "⑩");
    assert_eq!(label(18), "⑲");
}

#[test]
fn the_pieces_of_the_grid() {
    assert_eq!(grid_sign(0, 0), "┌─");
    assert_eq!(grid_sign(0, 8), "┐ ");
    assert_eq!(grid_sign(8, 0), "└─");
    assert_eq!(grid_sign(8, 8), "┘ ");
    assert_eq!(grid_sign(0, 4), "┬─");
    assert_eq!(grid_sign(8, 4), "┴─");
    assert_eq!(grid_sign(4, 0), "├─");
    assert_eq!(grid_sign(4, 8), "┤ ");
    assert_eq!(grid_sign(3, 5), "┼─");
    for (i, j) in [(2, 2), (2, 6), (6, 2), (6, 6), (4, 4)] {
        assert_eq!(grid_sign(i, j), "•─");
    }
    // the star points of the larger boards are none here
    assert_eq!(grid_sign(3, 3), "┼─");
    assert_eq!(grid_sign(2, 4), "┼─");
}
