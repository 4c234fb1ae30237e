use goban::board::Board;
use goban::cell::Cell;
use goban::cluster::Cluster;

#[test]
fn clear_cluster_credits_opposite_counter_exactly() {
    let mut b = Board::new(3);
    b.place(0, 0, Cell::Black);
    b.place(1, 0, Cell::Black);
    b.place(2, 2, Cell::White);
    let c = Cluster { pieces: vec![(0, 0), (1, 0)], color: Cell::Black };
    b.clear_cluster(&c);
    // Removing a black cluster credits captured_white by the member count.
    assert_eq!(b.captured_white, 2);
    assert_eq!(b.captured_black, 0);
    assert_eq!(b.get(0, 0), Cell::Empty);
    assert_eq!(b.get(1, 0), Cell::Empty);
    // Cells outside the cluster are untouched.
    assert_eq!(b.get(2, 2), Cell::White);
}

#[test]
fn rows_round_trip_reproduces_the_board() {
    // A board with a mixed grid and a nonzero capture count: surround and
    // capture a white stone first.
    let mut b = Board::new(4);
    b.place(1, 1, Cell::White);
    b.place(0, 1, Cell::Black);
    b.place(2, 1, Cell::Black);
    b.place(1, 0, Cell::Black);
    b.place(1, 2, Cell::Black);
    b.place(3, 3, Cell::White);
    assert_eq!(b.captured_black, 1);
    assert_eq!(b.get(3, 3), Cell::White);
    let rows = b.rows();
    let rebuilt = Board::from_rows(&rows, b.captured_black, b.captured_white)
        .expect("a square layout must be accepted");
    assert_eq!(rebuilt.size, b.size);
    assert_eq!(rebuilt.grid, b.grid);
    assert_eq!(rebuilt.captured_black, b.captured_black);
    assert_eq!(rebuilt.captured_white, b.captured_white);
}

#[test]
fn rows_reflect_the_grid() {
    let mut b = Board::new(2);
    b.place(0, 0, Cell::Black);
    b.place(1, 1, Cell::White);
    let rows = b.rows();
    assert_eq!(rows.len(), 2);
    assert_eq!(rows[0], vec![Cell::Black, Cell::Empty]);
    assert_eq!(rows[1], vec![Cell::Empty, Cell::White]);
}

#[test]
fn from_rows_rejects_bad_layouts() {
    let empty: Vec<Vec<Cell>> = Vec::new();
    assert!(Board::from_rows(&empty, 0, 0).is_none());
    let ragged = vec![vec![Cell::Empty, Cell::Empty], vec![Cell::Empty]];
    assert!(Board::from_rows(&ragged, 0, 0).is_none());
    let wide = vec![vec![Cell::Empty, Cell::Empty, Cell::Empty]];
    assert!(Board::from_rows(&wide, 0, 0).is_none());
}

#[test]
fn from_rows_accepts_a_square_layout() {
    let rows = vec![
        vec![Cell::Black, Cell::Empty],
        vec![Cell::Empty, Cell::White],
    ];
    let b = Board::from_rows(&rows, 4, 7).expect("square layout");
    assert_eq!(b.size, 2);
    assert_eq!(b.get(0, 0), Cell::Black);
    assert_eq!(b.get(1, 1), Cell::White);
    assert_eq!(b.get(1, 0), Cell::Empty);
    assert_eq!(b.captured_black, 4);
    assert_eq!(b.captured_white, 7);
}

#[test]
fn liberty_queries_match_the_grid() {
    let mut b = Board::new(3);
    assert!(b.has_liberty(0, 0));
    b.place(1, 0, Cell::Black);
    b.place(0, 1, Cell::Black);
    // (0,0) is empty, but both of its neighbors now hold stones, so the
    // cell itself has no liberty.
    assert!(b.value(0, 0));
    assert!(!b.has_liberty(0, 0));
    // A stone with empty neighbors has a liberty.
    assert!(b.has_liberty(1, 0));
    b.place(0, 0, Cell::White);
    // The white stone was self-captured; the cell is empty again.
    assert!(b.value(0, 0));
}
