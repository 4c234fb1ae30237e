//! The mathematical model of the board and of the capture rule.
//!
//! `BoardModel` is the ghost value of a board: a flat row-major sequence of
//! cells plus the two capture counters. Every contract of the executable
//! code is stated over this model. Connectivity of same-colored stones is
//! defined through chains of orthogonally adjacent coordinates, and the
//! result of a placement is the spec-level function `place_spec`.

use vstd::arithmetic::div_mod::lemma_fundamental_div_mod;
use vstd::arithmetic::div_mod::lemma_fundamental_div_mod_converse;
use vstd::arithmetic::div_mod::lemma_mod_bound;
use vstd::prelude::*;
use vstd::set_lib::lemma_int_range;
use vstd::set_lib::lemma_len_subset;
use vstd::set_lib::set_int_range;
use vstd::seq_lib::seq_to_set_is_finite;

use crate::cell::Cell;

verus! {

/// The ghost value of a board: `grid` holds row `y` of the `size`-by-`size`
/// board at indices `y * size .. (y + 1) * size`, column `x` at offset `x`.
#[verifier::ext_equal]
pub ghost struct BoardModel {
    pub size: nat,
    pub grid: Seq<Cell>,
    pub captured_black: nat,
    pub captured_white: nat,
}

impl BoardModel {
    /// A well-formed board: a positive side length, one grid entry per
    /// coordinate, and a grid small enough to index with a machine word.
    pub open spec fn wf(self) -> bool {
        &&& 1 <= self.size
        &&& self.grid.len() == self.size * self.size
        &&& self.size * self.size <= usize::MAX
    }

    pub open spec fn in_bounds(self, x: int, y: int) -> bool {
        0 <= x < self.size && 0 <= y < self.size
    }

    /// The flat grid index of coordinate (x, y).
    pub open spec fn idx(self, x: int, y: int) -> int {
        y * self.size + x
    }

    /// The coordinate stored at flat grid index `i`.
    pub open spec fn coord_of(self, i: int) -> (int, int) {
        (i % (self.size as int), i / (self.size as int))
    }

    pub open spec fn cell_at(self, x: int, y: int) -> Cell {
        self.grid[self.idx(x, y)]
    }

    /// The cell at (x, y) exists and is empty.
    pub open spec fn empty_at(self, x: int, y: int) -> bool {
        self.in_bounds(x, y) && self.cell_at(x, y) == Cell::Empty
    }

    /// A single cell has a liberty: some in-bounds orthogonal neighbor is
    /// empty.
    pub open spec fn cell_has_liberty(self, x: int, y: int) -> bool {
        ||| self.empty_at(x + 1, y)
        ||| self.empty_at(x - 1, y)
        ||| self.empty_at(x, y + 1)
        ||| self.empty_at(x, y - 1)
    }

    /// The cell at (x, y) exists and holds color `c`.
    pub open spec fn in_color(self, c: Cell, x: int, y: int) -> bool {
        self.in_bounds(x, y) && self.cell_at(x, y) == c
    }

    /// The board after overwriting the cell at (x, y); counters unchanged.
    pub open spec fn with_cell(self, x: int, y: int, c: Cell) -> BoardModel {
        BoardModel {
            size: self.size,
            grid: self.grid.update(self.idx(x, y), c),
            captured_black: self.captured_black,
            captured_white: self.captured_white,
        }
    }

    /// Both capture counters have room for the at most five cluster
    /// removals (each at most `size * size` stones) of one placement.
    pub open spec fn captures_fit(self) -> bool {
        &&& self.captured_black + 5 * (self.size * self.size) <= usize::MAX
        &&& self.captured_white + 5 * (self.size * self.size) <= usize::MAX
    }
}

/// Orthogonal adjacency of two coordinates.
pub open spec fn adjacent(x1: int, y1: int, x2: int, y2: int) -> bool {
    ||| (x2 == x1 + 1 && y2 == y1)
    ||| (x2 == x1 - 1 && y2 == y1)
    ||| (x2 == x1 && y2 == y1 + 1)
    ||| (x2 == x1 && y2 == y1 - 1)
}

/// A nonempty path of coordinates, each in bounds and of color `c`, with
/// consecutive entries orthogonally adjacent.
pub open spec fn is_chain(m: BoardModel, c: Cell, p: Seq<(int, int)>) -> bool {
    &&& p.len() > 0
    &&& forall|i: int|
        0 <= i < p.len() ==> m.in_color(c, (#[trigger] p[i]).0, p[i].1)
    &&& forall|i: int|
        0 <= i < p.len() - 1 ==> adjacent((#[trigger] p[i]).0, p[i].1, p[i + 1].0, p[i + 1].1)
}

/// Two coordinates lie in one connected group of color `c`: some chain of
/// `c`-colored cells joins them.
pub open spec fn connected(m: BoardModel, c: Cell, x1: int, y1: int, x2: int, y2: int) -> bool {
    exists|p: Seq<(int, int)>|
        #[trigger] is_chain(m, c, p) && p.first() == (x1, y1) && p.last() == (x2, y2)
}

/// The maximal connected cluster of same-colored stones containing (x, y):
/// every coordinate joined to (x, y) by a chain of the seed's color.
pub open spec fn cluster_set(m: BoardModel, x: int, y: int) -> Set<(int, int)> {
    Set::new(|q: (int, int)| connected(m, m.cell_at(x, y), x, y, q.0, q.1))
}

/// A set of coordinates has a liberty: some member cell has an empty
/// in-bounds orthogonal neighbor.
pub open spec fn set_has_liberty(m: BoardModel, s: Set<(int, int)>) -> bool {
    exists|q: (int, int)| #[trigger] s.contains(q) && m.cell_has_liberty(q.0, q.1)
}

/// A coordinate set closed under same-color adjacency: every in-bounds
/// `c`-colored neighbor of a member is itself a member.
pub open spec fn closed_set(m: BoardModel, c: Cell, s: Set<(int, int)>) -> bool {
    forall|q: (int, int)| #[trigger] s.contains(q) ==> {
        &&& m.in_color(c, q.0 + 1, q.1) ==> s.contains((q.0 + 1, q.1))
        &&& m.in_color(c, q.0 - 1, q.1) ==> s.contains((q.0 - 1, q.1))
        &&& m.in_color(c, q.0, q.1 + 1) ==> s.contains((q.0, q.1 + 1))
        &&& m.in_color(c, q.0, q.1 - 1) ==> s.contains((q.0, q.1 - 1))
    }
}

/// The board after removing every coordinate of `s` (set to `Empty`) and
/// crediting the counter of the color opposing `c` with `s`'s cardinality:
/// removing black stones rewards white's counter and vice versa.
pub open spec fn clear_spec(m: BoardModel, s: Set<(int, int)>, c: Cell) -> BoardModel {
    BoardModel {
        size: m.size,
        grid: Seq::new(
            m.grid.len(),
            |i: int| if s.contains(m.coord_of(i)) { Cell::Empty } else { m.grid[i] },
        ),
        captured_black: if c == Cell::White { m.captured_black + s.len() } else { m.captured_black },
        captured_white: if c == Cell::Black { m.captured_white + s.len() } else { m.captured_white },
    }
}

/// One step of placement resolution at seed (sx, sy): if the seed is in
/// bounds and holds a stone whose cluster has no liberty, that cluster is
/// removed; otherwise the board is unchanged.
pub open spec fn resolve_one(m: BoardModel, sx: int, sy: int) -> BoardModel {
    if m.in_bounds(sx, sy) && m.cell_at(sx, sy) != Cell::Empty
        && !set_has_liberty(m, cluster_set(m, sx, sy)) {
        clear_spec(m, cluster_set(m, sx, sy), m.cell_at(sx, sy))
    } else {
        m
    }
}

/// The full placement resolution around (x, y): the placed cell's cluster
/// first, then the clusters of the four orthogonal neighbors, in a fixed
/// order (left, right, up, down).
pub open spec fn resolve_all(m: BoardModel, x: int, y: int) -> BoardModel {
    let m1 = resolve_one(m, x, y);
    let m2 = resolve_one(m1, x - 1, y);
    let m3 = resolve_one(m2, x + 1, y);
    let m4 = resolve_one(m3, x, y - 1);
    resolve_one(m4, x, y + 1)
}

/// The board after `place(x, y, c)`: out-of-bounds coordinates change
/// nothing; otherwise the cell is overwritten with `c` and the placement
/// resolution runs around it.
pub open spec fn place_spec(m: BoardModel, x: int, y: int, c: Cell) -> BoardModel {
    if m.in_bounds(x, y) {
        resolve_all(m.with_cell(x, y, c), x, y)
    } else {
        m
    }
}

/// A sequence of coordinate pairs (as stored by executable code) holds the
/// coordinate (x, y).
pub open spec fn contains_coord(s: Seq<(usize, usize)>, x: int, y: int) -> bool {
    exists|j: int| 0 <= j < s.len() && (#[trigger] s[j]).0 == x && s[j].1 == y
}

/// A strict prefix of a coordinate-pair sequence holds the coordinate
/// (x, y): some entry before position `j` matches it.
pub open spec fn contains_coord_prefix(s: Seq<(usize, usize)>, j: int, x: int, y: int) -> bool {
    exists|k: int| 0 <= k < j && k < s.len() && (#[trigger] s[k]).0 == x && s[k].1 == y
}

/// Membership in the whole sequence is membership in the full-length
/// prefix.
pub proof fn lemma_contains_coord_full(s: Seq<(usize, usize)>, x: int, y: int)
    ensures
        contains_coord(s, x, y) <==> contains_coord_prefix(s, s.len() as int, x, y),
{
    if contains_coord(s, x, y) {
        let j = choose|j: int| 0 <= j < s.len() && (#[trigger] s[j]).0 == x && s[j].1 == y;
        assert(0 <= j < s.len() && j < s.len() && s[j].0 == x && s[j].1 == y);
    }
    if contains_coord_prefix(s, s.len() as int, x, y) {
        let k = choose|k: int|
            0 <= k < s.len() && k < s.len() && (#[trigger] s[k]).0 == x && s[k].1 == y;
        assert(0 <= k < s.len() && s[k].0 == x && s[k].1 == y);
    }
}

/// One resolution step keeps the board well-formed, never changes a cell
/// to anything but `Empty`, and never decreases a capture counter.
pub proof fn lemma_resolve_one_cell(m: BoardModel, sx: int, sy: int, x: int, y: int)
    requires
        m.wf(),
        m.in_bounds(x, y),
    ensures
        resolve_one(m, sx, sy).wf(),
        resolve_one(m, sx, sy).size == m.size,
        resolve_one(m, sx, sy).cell_at(x, y) == m.cell_at(x, y) || resolve_one(
            m,
            sx,
            sy,
        ).cell_at(x, y) == Cell::Empty,
        resolve_one(m, sx, sy).captured_black >= m.captured_black,
        resolve_one(m, sx, sy).captured_white >= m.captured_white,
{
    lemma_idx(m, x, y);
}

/// After an in-bounds placement the placed cell holds the placed value or
/// was captured back to `Empty` — never any third value — and the board
/// stays well-formed.
pub proof fn lemma_place_cell(m: BoardModel, x: int, y: int, c: Cell)
    requires
        m.wf(),
        m.in_bounds(x, y),
    ensures
        place_spec(m, x, y, c).wf(),
        place_spec(m, x, y, c).size == m.size,
        place_spec(m, x, y, c).cell_at(x, y) == c || place_spec(m, x, y, c).cell_at(x, y)
            == Cell::Empty,
{
    let m0 = m.with_cell(x, y, c);
    lemma_idx(m, x, y);
    assert(m0.wf());
    assert(m0.cell_at(x, y) == c);
    let m1 = resolve_one(m0, x, y);
    lemma_resolve_one_cell(m0, x, y, x, y);
    let m2 = resolve_one(m1, x - 1, y);
    lemma_resolve_one_cell(m1, x - 1, y, x, y);
    let m3 = resolve_one(m2, x + 1, y);
    lemma_resolve_one_cell(m2, x + 1, y, x, y);
    let m4 = resolve_one(m3, x, y - 1);
    lemma_resolve_one_cell(m3, x, y - 1, x, y);
    lemma_resolve_one_cell(m4, x, y + 1, x, y);
}

/// The flat index of an in-bounds coordinate lies inside the grid and
/// decodes back to the coordinate.
pub proof fn lemma_idx(m: BoardModel, x: int, y: int)
    requires
        m.wf(),
        m.in_bounds(x, y),
    ensures
        0 <= m.idx(x, y) < m.size * m.size,
        m.coord_of(m.idx(x, y)) == (x, y),
{
    let n = m.size as int;
    assert(0 <= y * n + x < n * n) by (nonlinear_arith)
        requires
            0 <= x < n,
            0 <= y < n,
    ;
    lemma_fundamental_div_mod_converse(y * n + x, n, y, x);
}

/// Every flat grid index decodes to an in-bounds coordinate whose flat
/// index is the original index.
pub proof fn lemma_coord_of(m: BoardModel, i: int)
    requires
        m.wf(),
        0 <= i < m.size * m.size,
    ensures
        m.in_bounds(m.coord_of(i).0, m.coord_of(i).1),
        m.idx(m.coord_of(i).0, m.coord_of(i).1) == i,
{
    let n = m.size as int;
    lemma_fundamental_div_mod(i, n);
    lemma_mod_bound(i, n);
    assert((i / n) * n == n * (i / n)) by (nonlinear_arith);
    assert(0 <= i / n < n) by (nonlinear_arith)
        requires
            i == n * (i / n) + (i % n),
            0 <= i % n < n,
            0 <= i < n * n,
            1 <= n,
    ;
}

/// A coordinate that is in bounds and of color `c` is connected to itself.
pub proof fn lemma_connected_refl(m: BoardModel, c: Cell, x: int, y: int)
    requires
        m.in_color(c, x, y),
    ensures
        connected(m, c, x, y, x, y),
{
    let p = seq![(x, y)];
    assert(is_chain(m, c, p));
    assert(p.first() == (x, y) && p.last() == (x, y));
}

/// Connectivity extends across one adjacent cell of the same color.
pub proof fn lemma_connected_extend(
    m: BoardModel,
    c: Cell,
    x1: int,
    y1: int,
    x2: int,
    y2: int,
    x3: int,
    y3: int,
)
    requires
        connected(m, c, x1, y1, x2, y2),
        adjacent(x2, y2, x3, y3),
        m.in_color(c, x3, y3),
    ensures
        connected(m, c, x1, y1, x3, y3),
{
    let p = choose|p: Seq<(int, int)>|
        #[trigger] is_chain(m, c, p) && p.first() == (x1, y1) && p.last() == (x2, y2);
    let p2 = p.push((x3, y3));
    assert forall|i: int| 0 <= i < p2.len() implies m.in_color(c, (#[trigger] p2[i]).0, p2[i].1) by {
        if i < p.len() {
            assert(p2[i] == p[i]);
        }
    }
    assert forall|i: int|
        0 <= i < p2.len() - 1 implies adjacent(
        (#[trigger] p2[i]).0,
        p2[i].1,
        p2[i + 1].0,
        p2[i + 1].1,
    ) by {
        if i < p.len() - 1 {
            assert(p2[i] == p[i] && p2[i + 1] == p[i + 1]);
        } else {
            assert(p2[i] == p.last() && p2[i + 1] == (x3, y3));
        }
    }
    assert(is_chain(m, c, p2));
    assert(p2.first() == (x1, y1) && p2.last() == (x3, y3));
}

/// Every entry of a chain whose start lies in a set closed under
/// same-color adjacency lies in that set too.
proof fn lemma_chain_in_closed(
    m: BoardModel,
    c: Cell,
    p: Seq<(int, int)>,
    s: Set<(int, int)>,
    i: int,
)
    requires
        is_chain(m, c, p),
        closed_set(m, c, s),
        s.contains(p.first()),
        0 <= i < p.len(),
    ensures
        s.contains(p[i]),
    decreases i,
{
    if i > 0 {
        lemma_chain_in_closed(m, c, p, s, i - 1);
        let a = p[i - 1];
        let b = p[i];
        assert(adjacent(a.0, a.1, b.0, b.1));
        assert(m.in_color(c, b.0, b.1));
        if b.0 == a.0 + 1 && b.1 == a.1 {
            assert(s.contains((a.0 + 1, a.1)));
            assert(b == (a.0 + 1, a.1));
        } else if b.0 == a.0 - 1 && b.1 == a.1 {
            assert(b == (a.0 - 1, a.1));
        } else if b.0 == a.0 && b.1 == a.1 + 1 {
            assert(b == (a.0, a.1 + 1));
        } else {
            assert(b == (a.0, a.1 - 1));
        }
    }
}

/// A set that contains a seed and is closed under same-color adjacency
/// contains the seed's whole connected cluster.
pub proof fn lemma_closed_complete(
    m: BoardModel,
    c: Cell,
    x: int,
    y: int,
    s: Set<(int, int)>,
)
    requires
        closed_set(m, c, s),
        s.contains((x, y)),
    ensures
        forall|qx: int, qy: int| connected(m, c, x, y, qx, qy) ==> s.contains((qx, qy)),
{
    assert forall|qx: int, qy: int| connected(m, c, x, y, qx, qy) implies s.contains((qx, qy)) by {
        let p = choose|p: Seq<(int, int)>|
            #[trigger] is_chain(m, c, p) && p.first() == (x, y) && p.last() == (qx, qy);
        lemma_chain_in_closed(m, c, p, s, p.len() - 1);
        assert(p.last() == (qx, qy));
    }
}

/// The board after a whole sequence of placements, applied in order.
pub open spec fn place_seq(m: BoardModel, moves: Seq<(int, int, Cell)>) -> BoardModel
    decreases moves.len(),
{
    if moves.len() == 0 {
        m
    } else {
        place_seq(place_spec(m, moves[0].0, moves[0].1, moves[0].2), moves.drop_first())
    }
}

/// One placement never decreases a capture counter.
pub proof fn lemma_place_monotone(m: BoardModel, x: int, y: int, c: Cell)
    ensures
        place_spec(m, x, y, c).captured_black >= m.captured_black,
        place_spec(m, x, y, c).captured_white >= m.captured_white,
{
}

/// Capture counters are monotonically non-decreasing across any sequence
/// of placements.
pub proof fn lemma_place_seq_monotone(m: BoardModel, moves: Seq<(int, int, Cell)>)
    ensures
        place_seq(m, moves).captured_black >= m.captured_black,
        place_seq(m, moves).captured_white >= m.captured_white,
    decreases moves.len(),
{
    if moves.len() > 0 {
        lemma_place_monotone(m, moves[0].0, moves[0].1, moves[0].2);
        lemma_place_seq_monotone(
            place_spec(m, moves[0].0, moves[0].1, moves[0].2),
            moves.drop_first(),
        );
    }
}

/// Resolution at a seed adjacent to an empty cell changes nothing: the
/// seed's cluster (if any) owns that empty cell as a liberty.
proof fn lemma_resolve_skip_near_empty(m: BoardModel, sx: int, sy: int, ex: int, ey: int)
    requires
        m.empty_at(ex, ey),
        adjacent(sx, sy, ex, ey),
    ensures
        resolve_one(m, sx, sy) == m,
{
    if m.in_bounds(sx, sy) && m.cell_at(sx, sy) != Cell::Empty {
        let c = m.cell_at(sx, sy);
        lemma_connected_refl(m, c, sx, sy);
        assert(cluster_set(m, sx, sy).contains((sx, sy)));
        assert(m.cell_has_liberty(sx, sy));
        assert(set_has_liberty(m, cluster_set(m, sx, sy)));
    }
}

/// Idempotence of removal by hand: re-placing `Empty` onto an already
/// empty cell changes no counter and no cell. The write itself is a
/// no-op, the empty cell is its own neighbors' liberty, and an empty seed
/// is never a cluster.
pub proof fn lemma_place_empty_noop(m: BoardModel, x: int, y: int)
    requires
        m.wf(),
        m.in_bounds(x, y),
        m.cell_at(x, y) == Cell::Empty,
    ensures
        place_spec(m, x, y, Cell::Empty) == m,
{
    lemma_idx(m, x, y);
    let m0 = m.with_cell(x, y, Cell::Empty);
    assert(m0 =~= m) by {
        assert(m0.grid =~= m.grid);
    }
    assert(resolve_one(m, x, y) == m);
    lemma_resolve_skip_near_empty(m, x - 1, y, x, y);
    lemma_resolve_skip_near_empty(m, x + 1, y, x, y);
    lemma_resolve_skip_near_empty(m, x, y - 1, x, y);
    lemma_resolve_skip_near_empty(m, x, y + 1, x, y);
}

/// The grid of a board as rows of cells: row `y` lists the cells of that
/// row from column 0 upward.
pub open spec fn rows_of(m: BoardModel) -> Seq<Seq<Cell>> {
    Seq::new(m.size, |y: int| Seq::new(m.size, |x: int| m.cell_at(x, y)))
}

/// A square, nonempty row layout: as many rows as each row has cells.
pub open spec fn rows_ok(rows: Seq<Seq<Cell>>) -> bool {
     1 <= rows.len() && forall|y: int| 0 <= y < rows.len() ==> (#[trigger] rows[y]).len() == rows.len()
}

/// The board assembled from a row layout and two counter values.
pub open spec fn model_of_rows(rows: Seq<Seq<Cell>>, cb: nat, cw: nat) -> BoardModel {
    let n = rows.len();
    BoardModel {
        size: n,
        grid: Seq::new(n * n, |i: int| rows[i / n as int][i % n as int]),
        captured_black: cb,
        captured_white: cw,
    }
}

/// Round trip: taking a board apart into its rows and counters and
/// assembling a board from them reproduces the original exactly.
pub proof fn lemma_rows_round_trip(m: BoardModel)
    requires
        m.wf(),
    ensures
        rows_ok(rows_of(m)),
        model_of_rows(rows_of(m), m.captured_black, m.captured_white) == m,
{
    let rows = rows_of(m);
    let m2 = model_of_rows(rows, m.captured_black, m.captured_white);
    assert forall|i: int| 0 <= i < m.grid.len() implies m2.grid[i] == m.grid[i] by {
        lemma_coord_of(m, i);
        let qx = m.coord_of(i).0;
        let qy = m.coord_of(i).1;
        assert(rows[qy][qx] == m.cell_at(qx, qy));
    }
    assert(m2 =~= m) by {
        assert(m2.grid =~= m.grid);
    }
}

/// A duplicate-free sequence of coordinates inside an `n`-by-`n` grid has
/// at most `n * n` entries.
pub proof fn lemma_pieces_len_bound(s: Seq<(usize, usize)>, n: int)
    requires
        1 <= n,
        s.no_duplicates(),
        forall|j: int|
            0 <= j < s.len() ==> (#[trigger] s[j]).0 < n && s[j].1 < n,
    ensures
        s.len() <= n * n,
{
    let f = |p: (usize, usize)| (p.1 as int) * n + (p.0 as int);
    let codes = s.map_values(f);
    assert forall|i: int, j: int|
        0 <= i < codes.len() && 0 <= j < codes.len() && i != j implies codes[i] != codes[j] by {
        let a = s[i];
        let b = s[j];
        assert(a != b);
        assert(codes[i] == f(a) && codes[j] == f(b));
        assert((a.1 as int) * n + (a.0 as int) != (b.1 as int) * n + (b.0 as int))
            by (nonlinear_arith)
            requires
                0 <= (a.0 as int) < n,
                0 <= (b.0 as int) < n,
                0 <= (a.1 as int),
                0 <= (b.1 as int),
                !((a.0 as int) == (b.0 as int) && (a.1 as int) == (b.1 as int)),
        ;
    }
    assert(codes.no_duplicates());
    codes.unique_seq_to_set();
    seq_to_set_is_finite(codes);
    assert forall|e: int| codes.to_set().contains(e) implies set_int_range(0, n * n).contains(e) by {
        let j = choose|j: int| 0 <= j < codes.len() && codes[j] == e;
        let a = s[j];
        assert(e == (a.1 as int) * n + (a.0 as int));
        assert(0 <= (a.1 as int) * n + (a.0 as int) < n * n) by (nonlinear_arith)
            requires
                0 <= (a.0 as int) < n,
                0 <= (a.1 as int) < n,
        ;
    }
    lemma_int_range(0, n * n);
    lemma_len_subset(codes.to_set(), set_int_range(0, n * n));
}

} // verus!
