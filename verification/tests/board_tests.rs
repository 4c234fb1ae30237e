use goban::board::Board;
use goban::cell::Cell;
use goban::cell::PlaceOutcome;

#[test]
fn new_board_is_empty() {
    let b = Board::new(3);
    assert_eq!(b.size, 3);
    assert_eq!(b.captured_black, 0);
    assert_eq!(b.captured_white, 0);
    for y in 0..3 {
        for x in 0..3 {
            assert_eq!(b.get(x, y), Cell::Empty);
            assert!(b.value(x, y));
        }
    }
}

#[test]
fn placed_cell_is_color_or_empty() {
    let mut b = Board::new(5);
    let r = b.place(2, 2, Cell::Black);
    assert_eq!(r, PlaceOutcome::Applied);
    // The lone stone keeps its liberties, so the cell holds the color.
    assert_eq!(b.get(2, 2), Cell::Black);
    let r = b.place(3, 2, Cell::White);
    assert_eq!(r, PlaceOutcome::Applied);
    assert_eq!(b.get(3, 2), Cell::White);
}

#[test]
fn out_of_range_is_a_no_op() {
    let mut b = Board::new(3);
    b.place(0, 0, Cell::Black);
    b.place(1, 1, Cell::White);
    let grid_before = b.grid.clone();
    let cb = b.captured_black;
    let cw = b.captured_white;
    // x == size
    assert_eq!(b.place(3, 0, Cell::Black), PlaceOutcome::OutOfRange);
    // x == size + 5
    assert_eq!(b.place(8, 2, Cell::White), PlaceOutcome::OutOfRange);
    assert_eq!(b.place(0, 3, Cell::Black), PlaceOutcome::OutOfRange);
    assert_eq!(b.grid, grid_before);
    assert_eq!(b.captured_black, cb);
    assert_eq!(b.captured_white, cw);
}

#[test]
fn counters_never_decrease() {
    let mut b = Board::new(5);
    let moves = [
        (1usize, 1usize, Cell::White),
        (0, 1, Cell::Black),
        (2, 1, Cell::Black),
        (1, 0, Cell::Black),
        (1, 2, Cell::Black),
        (3, 3, Cell::White),
        (3, 3, Cell::Empty),
        (0, 0, Cell::White),
    ];
    let mut last_black = 0;
    let mut last_white = 0;
    for (x, y, c) in moves {
        b.place(x, y, c);
        assert!(b.captured_black >= last_black);
        assert!(b.captured_white >= last_white);
        last_black = b.captured_black;
        last_white = b.captured_white;
    }
}

#[test]
fn replacing_empty_on_empty_changes_nothing() {
    let mut b = Board::new(4);
    b.place(0, 0, Cell::Black);
    b.place(2, 2, Cell::White);
    let grid_before = b.grid.clone();
    let cb = b.captured_black;
    let cw = b.captured_white;
    let r = b.place(1, 3, Cell::Empty);
    assert_eq!(r, PlaceOutcome::Applied);
    assert_eq!(b.grid, grid_before);
    assert_eq!(b.captured_black, cb);
    assert_eq!(b.captured_white, cw);
}

#[test]
fn placing_empty_removes_a_stone_without_capture_credit() {
    let mut b = Board::new(4);
    b.place(2, 2, Cell::White);
    let r = b.place(2, 2, Cell::Empty);
    assert_eq!(r, PlaceOutcome::Applied);
    assert_eq!(b.get(2, 2), Cell::Empty);
    assert_eq!(b.captured_black, 0);
    assert_eq!(b.captured_white, 0);
}

#[test]
fn surrounding_a_single_white_stone_captures_it() {
    // 3x3 board: White at (1,1), Black on the four orthogonal neighbors.
    let mut b = Board::new(3);
    b.place(1, 1, Cell::White);
    b.place(0, 1, Cell::Black);
    b.place(2, 1, Cell::Black);
    b.place(1, 0, Cell::Black);
    assert_eq!(b.get(1, 1), Cell::White);
    assert_eq!(b.captured_black, 0);
    b.place(1, 2, Cell::Black);
    // Removing a white cluster credits captured_black.
    assert_eq!(b.get(1, 1), Cell::Empty);
    assert_eq!(b.captured_black, 1);
    assert_eq!(b.captured_white, 0);
    assert_eq!(b.get(0, 1), Cell::Black);
    assert_eq!(b.get(2, 1), Cell::Black);
    assert_eq!(b.get(1, 0), Cell::Black);
    assert_eq!(b.get(1, 2), Cell::Black);
}

#[test]
fn corner_group_with_liberties_survives() {
    // 19x19 board: a two-stone black group in the corner keeps its
    // liberties while stones land elsewhere, so it is never removed.
    let mut b = Board::new(19);
    b.place(0, 0, Cell::Black);
    b.place(1, 0, Cell::Black);
    let far_moves = [
        (10usize, 10usize, Cell::White),
        (5, 7, Cell::Black),
        (10, 11, Cell::Black),
        (12, 3, Cell::White),
        (3, 0, Cell::White),
        (0, 2, Cell::White),
        (18, 18, Cell::Black),
    ];
    for (x, y, c) in far_moves {
        b.place(x, y, c);
        assert_eq!(b.get(0, 0), Cell::Black);
        assert_eq!(b.get(1, 0), Cell::Black);
    }
    assert_eq!(b.captured_black, 0);
    assert_eq!(b.captured_white, 0);
}

#[test]
fn filling_last_liberty_removes_five_stones_at_once() {
    // 7x7 board: a five-stone white plus shape centered at (2,2).
    let mut b = Board::new(7);
    for (x, y) in [(2usize, 2usize), (1, 2), (3, 2), (2, 1), (2, 3)] {
        b.place(x, y, Cell::White);
    }
    // Black takes every orthogonal neighbor of the plus but (4, 2).
    for (x, y) in [(0, 2), (1, 1), (1, 3), (2, 0), (2, 4), (3, 1), (3, 3)] {
        b.place(x, y, Cell::Black);
    }
    for (x, y) in [(2usize, 2usize), (1, 2), (3, 2), (2, 1), (2, 3)] {
        assert_eq!(b.get(x, y), Cell::White);
    }
    assert_eq!(b.captured_black, 0);
    // One placement fills the last liberty: all five members go at once.
    b.place(4, 2, Cell::Black);
    for (x, y) in [(2usize, 2usize), (1, 2), (3, 2), (2, 1), (2, 3)] {
        assert_eq!(b.get(x, y), Cell::Empty);
    }
    assert_eq!(b.captured_black, 5);
    assert_eq!(b.captured_white, 0);
    assert_eq!(b.get(4, 2), Cell::Black);
}

#[test]
fn self_capture_is_not_prevented() {
    // The placed cell's own cluster is evaluated first, so playing into a
    // spot with no liberty removes the played stone at once.
    let mut b = Board::new(3);
    b.place(1, 0, Cell::Black);
    b.place(0, 1, Cell::Black);
    b.place(0, 0, Cell::White);
    assert_eq!(b.get(0, 0), Cell::Empty);
    assert_eq!(b.captured_black, 1);
    assert_eq!(b.captured_white, 0);
}
