//! The executable board: grid storage, placement, liberty tests, and
//! cluster removal, each verified against the ghost model in `model`.

use vstd::prelude::*;

use crate::cell::Cell;
use crate::cell::PlaceOutcome;
use crate::cluster::Cluster;
use crate::model::clear_spec;
use crate::model::contains_coord_prefix;
use crate::model::lemma_contains_coord_full;
use crate::model::lemma_coord_of;
use crate::model::lemma_idx;
use crate::model::lemma_place_cell;
use crate::model::place_spec;
use crate::model::resolve_all;
use crate::model::resolve_one;
use crate::model::model_of_rows;
use crate::model::rows_of;
use crate::model::rows_ok;
use crate::model::BoardModel;
use vstd::arithmetic::div_mod::lemma_fundamental_div_mod_converse;

verus! {

/// The grid rows of a row vector, as a sequence of cell sequences.
pub open spec fn rows_view(rows: Seq<Vec<Cell>>) -> Seq<Seq<Cell>> {
    rows.map_values(|v: Vec<Cell>| v@)
}

/// A Go board: an N-by-N grid of cells in row-major order, and the running
/// counters of captured stones. `captured_white` grows when black stones
/// are removed, `captured_black` when white stones are removed.
#[derive(Clone, Debug)]
pub struct Board {
    pub size: usize,
    pub grid: Vec<Cell>,
    pub captured_black: usize,
    pub captured_white: usize,
}

impl View for Board {
    type V = BoardModel;

    open spec fn view(&self) -> BoardModel {
        BoardModel {
            size: self.size as nat,
            grid: self.grid@,
            captured_black: self.captured_black as nat,
            captured_white: self.captured_white as nat,
        }
    }
}

impl Board {
    /// A fresh board of the given side length, every cell empty and both
    /// capture counters zero.
    pub fn new(size: usize) -> (r: Board)
        requires
            1 <= size,
            size * size <= usize::MAX,
        ensures
            r@.wf(),
            r@.size == size,
            r@.captured_black == 0,
            r@.captured_white == 0,
            forall|x: int, y: int| r@.in_bounds(x, y) ==> r@.cell_at(x, y) == Cell::Empty,
    {
        let total = size * size;
        let mut grid: Vec<Cell> = Vec::new();
        let mut i: usize = 0;
        while i < total
            invariant
                i <= total,
                total == size * size,
                grid@.len() == i,
                forall|k: int| 0 <= k < i ==> grid@[k] == Cell::Empty,
            decreases total - i,
        {
            grid.push(Cell::Empty);
            i += 1;
        }
        let r = Board { size, grid, captured_black: 0, captured_white: 0 };
        proof {
            assert forall|x: int, y: int| r@.in_bounds(x, y) implies r@.cell_at(x, y)
                == Cell::Empty by {
                lemma_idx(r@, x, y);
            }
        }
        r
    }

    /// The flat grid index of the in-bounds coordinate (x, y).
    pub fn cell_index(&self, x: usize, y: usize) -> (i: usize)
        requires
            self@.wf(),
            self@.in_bounds(x as int, y as int),
        ensures
            i == self@.idx(x as int, y as int),
            i < self.grid.len(),
    {
        proof {
            lemma_idx(self@, x as int, y as int);
        }
        y * self.size + x
    }

    /// The cell at the in-bounds coordinate (x, y).
    pub fn get(&self, x: usize, y: usize) -> (r: Cell)
        requires
            self@.wf(),
            self@.in_bounds(x as int, y as int),
        ensures
            r == self@.cell_at(x as int, y as int),
    {
        let i = self.cell_index(x, y);
        self.grid[i]
    }

    /// Whether the cell at (x, y) exists and is empty; false for any
    /// out-of-bounds coordinate.
    pub fn value(&self, x: usize, y: usize) -> (r: bool)
        requires
            self@.wf(),
        ensures
            r == self@.empty_at(x as int, y as int),
    {
        if x < self.size && y < self.size {
            let i = self.cell_index(x, y);
            self.grid[i] == Cell::Empty
        } else {
            false
        }
    }

    /// Whether the in-bounds cell at (x, y) has a liberty: at least one
    /// in-bounds orthogonal neighbor is empty.
    pub fn has_liberty(&self, x: usize, y: usize) -> (r: bool)
        requires
            self@.wf(),
            self@.in_bounds(x as int, y as int),
        ensures
            r == self@.cell_has_liberty(x as int, y as int),
    {
        let mut r = self.value(x + 1, y);
        if x > 0 {
            r = r || self.value(x - 1, y);
        }
        r = r || self.value(x, y + 1);
        if y > 0 {
            r = r || self.value(x, y - 1);
        }
        r
    }

    /// Remove a cluster: set every member cell to `Empty` and credit the
    /// counter of the opposing color with exactly the member count
    /// (removing black stones grows `captured_white`, removing white
    /// stones grows `captured_black`). Must not be invoked for an
    /// empty-colored cluster.
    pub fn clear_cluster(&mut self, c: &Cluster)
        requires
            old(self)@.wf(),
            c.wf_for(old(self)@),
            c.color == Cell::Black ==> old(self)@.captured_white + c.pieces@.len() <= usize::MAX,
            c.color == Cell::White ==> old(self)@.captured_black + c.pieces@.len() <= usize::MAX,
        ensures
            final(self)@ == clear_spec(old(self)@, c.coords(), c.color),
            final(self)@.wf(),
            final(self)@.size == old(self)@.size,
            forall|j: int|
                0 <= j < c.pieces@.len() ==> final(self)@.cell_at(
                    (#[trigger] c.pieces@[j]).0 as int,
                    c.pieces@[j].1 as int,
                ) == Cell::Empty,
            forall|px: int, py: int|
                old(self)@.in_bounds(px, py) && !c.coords().contains((px, py))
                    ==> final(self)@.cell_at(px, py) == old(self)@.cell_at(px, py),
            c.color == Cell::Black ==> final(self)@.captured_white == old(self)@.captured_white
                + c.pieces@.len() && final(self)@.captured_black == old(self)@.captured_black,
            c.color == Cell::White ==> final(self)@.captured_black == old(self)@.captured_black
                + c.pieces@.len() && final(self)@.captured_white == old(self)@.captured_white,
    {
        let ghost m0 = self@;
        match c.color {
            Cell::Black => {
                self.captured_white = self.captured_white + c.pieces.len();
            },
            Cell::White => {
                self.captured_black = self.captured_black + c.pieces.len();
            },
            Cell::Empty => {
            },
        }
        let mut j: usize = 0;
        while j < c.pieces.len()
            invariant
                self@.wf(),
                self@.size == m0.size,
                m0.wf(),
                c.wf_for(m0),
                self@.grid.len() == m0.grid.len(),
                j <= c.pieces@.len(),
                self@.captured_black == m0.captured_black + (if c.color == Cell::White {
                    c.pieces@.len() as int
                } else {
                    0
                }),
                self@.captured_white == m0.captured_white + (if c.color == Cell::Black {
                    c.pieces@.len() as int
                } else {
                    0
                }),
                forall|i2: int|
                    0 <= i2 < self@.grid.len() ==> #[trigger] self@.grid[i2]
                        == (if contains_coord_prefix(
                            c.pieces@,
                            j as int,
                            m0.coord_of(i2).0,
                            m0.coord_of(i2).1,
                        ) {
                            Cell::Empty
                        } else {
                            m0.grid[i2]
                        }),
            decreases c.pieces@.len() - j,
        {
            let p = c.pieces[j];
            let i = self.cell_index(p.0, p.1);
            let ghost gprev = self@.grid;
            self.grid[i] = Cell::Empty;
            proof {
                lemma_idx(m0, p.0 as int, p.1 as int);
                assert forall|i2: int| 0 <= i2 < self@.grid.len() implies #[trigger] self@.grid[i2]
                    == (if contains_coord_prefix(
                        c.pieces@,
                        j + 1,
                        m0.coord_of(i2).0,
                        m0.coord_of(i2).1,
                    ) {
                        Cell::Empty
                    } else {
                        m0.grid[i2]
                    }) by {
                    lemma_coord_of(m0, i2);
                    let qx = m0.coord_of(i2).0;
                    let qy = m0.coord_of(i2).1;
                    if i2 == i {
                        assert(contains_coord_prefix(c.pieces@, j + 1, qx, qy)) by {
                            assert(c.pieces@[j as int].0 == qx && c.pieces@[j as int].1 == qy);
                        }
                    } else {
                        assert(self@.grid[i2] == gprev[i2]);
                        if contains_coord_prefix(c.pieces@, j + 1, qx, qy) {
                            let k = choose|k: int|
                                0 <= k < j + 1 && k < c.pieces@.len()
                                    && (#[trigger] c.pieces@[k]).0 == qx && c.pieces@[k].1 == qy;
                            if k == j {
                                assert(m0.idx(qx, qy) == i2);
                                assert(false);
                            }
                            assert(contains_coord_prefix(c.pieces@, j as int, qx, qy));
                        }
                    }
                }
            }
            j += 1;
        }
        proof {
            c.lemma_coords_card();
            assert forall|i2: int| 0 <= i2 < self@.grid.len() implies #[trigger] self@.grid[i2]
                == (if c.coords().contains(m0.coord_of(i2)) {
                    Cell::Empty
                } else {
                    m0.grid[i2]
                }) by {
                lemma_contains_coord_full(c.pieces@, m0.coord_of(i2).0, m0.coord_of(i2).1);
            }
            assert(self@ =~= clear_spec(m0, c.coords(), c.color));
            assert forall|jx: int|
                0 <= jx < c.pieces@.len() implies self@.cell_at(
                (#[trigger] c.pieces@[jx]).0 as int,
                c.pieces@[jx].1 as int,
            ) == Cell::Empty by {
                let px = c.pieces@[jx].0 as int;
                let py = c.pieces@[jx].1 as int;
                lemma_idx(m0, px, py);
                assert(c.coords().contains((px, py)));
            }
            assert forall|px: int, py: int|
                m0.in_bounds(px, py) && !c.coords().contains((px, py)) implies self@.cell_at(px, py)
                == m0.cell_at(px, py) by {
                lemma_idx(m0, px, py);
            }
        }
    }

    /// One placement-resolution step at (sx, sy): if the coordinate is in
    /// bounds and holds a stone whose cluster has no liberty, remove that
    /// cluster; otherwise change nothing.
    fn resolve_at(&mut self, sx: usize, sy: usize)
        requires
            old(self)@.wf(),
            old(self)@.captured_black + old(self)@.size * old(self)@.size <= usize::MAX,
            old(self)@.captured_white + old(self)@.size * old(self)@.size <= usize::MAX,
        ensures
            final(self)@ == resolve_one(old(self)@, sx as int, sy as int),
            final(self)@.wf(),
            final(self)@.size == old(self)@.size,
            old(self)@.captured_black <= final(self)@.captured_black <= old(self)@.captured_black
                + old(self)@.size * old(self)@.size,
            old(self)@.captured_white <= final(self)@.captured_white <= old(self)@.captured_white
                + old(self)@.size * old(self)@.size,
    {
        let ghost m = self@;
        if sx < self.size && sy < self.size {
            let ci = self.cell_index(sx, sy);
            let cell = self.grid[ci];
            if cell != Cell::Empty {
                let c = Cluster::from(self, sx, sy);
                if !c.has_liberties(self) {
                    self.clear_cluster(&c);
                    proof {
                        assert(c.coords() == crate::model::cluster_set(m, sx as int, sy as int));
                        assert(self@ == resolve_one(m, sx as int, sy as int));
                    }
                }
            }
        }
    }

    /// The placement-resolution pass around the just-written cell (x, y):
    /// re-evaluate the cell's own cluster first, then the clusters of its
    /// four orthogonal neighbors (left, right, up, down), removing each
    /// one that has no liberty.
    pub fn update(&mut self, x: usize, y: usize)
        requires
            old(self)@.wf(),
            old(self)@.in_bounds(x as int, y as int),
            old(self)@.captures_fit(),
        ensures
            final(self)@ == resolve_all(old(self)@, x as int, y as int),
            final(self)@.wf(),
            final(self)@.size == old(self)@.size,
            old(self)@.captured_black <= final(self)@.captured_black <= old(self)@.captured_black
                + 5 * (old(self)@.size * old(self)@.size),
            old(self)@.captured_white <= final(self)@.captured_white <= old(self)@.captured_white
                + 5 * (old(self)@.size * old(self)@.size),
    {
        self.resolve_at(x, y);
        let ghost m1 = self@;
        if x > 0 {
            self.resolve_at(x - 1, y);
        }
        proof {
            assert(self@ == resolve_one(m1, x as int - 1, y as int));
        }
        self.resolve_at(x + 1, y);
        let ghost m3 = self@;
        if y > 0 {
            self.resolve_at(x, y - 1);
        }
        proof {
            assert(self@ == resolve_one(m3, x as int, y as int - 1));
        }
        self.resolve_at(x, y + 1);
    }

    /// Place `color` at (x, y). Out-of-range coordinates change nothing
    /// and report `OutOfRange`. In range, the cell is overwritten (placing
    /// `Empty` removes a stone by hand) and the placement resolution runs:
    /// afterwards the placed cell holds `color` or, if its cluster was
    /// captured, `Empty` — never any third value — and neither capture
    /// counter has decreased.
    pub fn place(&mut self, x: usize, y: usize, color: Cell) -> (r: PlaceOutcome)
        requires
            old(self)@.wf(),
            old(self)@.captures_fit(),
        ensures
            final(self)@ == place_spec(old(self)@, x as int, y as int, color),
            final(self)@.wf(),
            final(self)@.size == old(self)@.size,
            r == PlaceOutcome::Applied <==> old(self)@.in_bounds(x as int, y as int),
            !old(self)@.in_bounds(x as int, y as int) ==> final(self)@ == old(self)@,
            old(self)@.captured_black <= final(self)@.captured_black <= old(self)@.captured_black
                + 5 * (old(self)@.size * old(self)@.size),
            old(self)@.captured_white <= final(self)@.captured_white <= old(self)@.captured_white
                + 5 * (old(self)@.size * old(self)@.size),
            old(self)@.in_bounds(x as int, y as int) ==> (final(self)@.cell_at(x as int, y as int)
                == color || final(self)@.cell_at(x as int, y as int) == Cell::Empty),
    {
        let ghost m = self@;
        if x < self.size && y < self.size {
            let i = self.cell_index(x, y);
            self.grid[i] = color;
            proof {
                assert(self@ =~= m.with_cell(x as int, y as int, color));
            }
            self.update(x, y);
            proof {
                lemma_place_cell(m, x as int, y as int, color);
            }
            PlaceOutcome::Applied
        } else {
            PlaceOutcome::OutOfRange
        }
    }

    /// The grid as rows of cells, outermost a row per `y`, suitable for a
    /// persisted row-major layout.
    pub fn rows(&self) -> (r: Vec<Vec<Cell>>)
        requires
            self@.wf(),
        ensures
            rows_view(r@) == rows_of(self@),
    {
        let n = self.size;
        let mut rows: Vec<Vec<Cell>> = Vec::new();
        let mut y: usize = 0;
        while y < n
            invariant
                self@.wf(),
                n == self@.size,
                y <= n,
                rows@.len() == y,
                forall|yy: int| 0 <= yy < y ==> (#[trigger] rows@[yy])@ == rows_of(self@)[yy],
            decreases n - y,
        {
            let mut row: Vec<Cell> = Vec::new();
            let mut x: usize = 0;
            while x < n
                invariant
                    self@.wf(),
                    n == self@.size,
                    y < n,
                    x <= n,
                    row@.len() == x,
                    forall|xx: int| 0 <= xx < x ==> #[trigger] row@[xx] == self@.cell_at(
                        xx,
                        y as int,
                    ),
                decreases n - x,
            {
                let i = self.cell_index(x, y);
                row.push(self.grid[i]);
                x += 1;
            }
            proof {
                assert(row@ =~= rows_of(self@)[y as int]);
            }
            rows.push(row);
            y += 1;
        }
        proof {
            assert(rows_view(rows@) =~= rows_of(self@));
        }
        rows
    }

    /// Assemble a board from a row layout and two capture counters. The
    /// layout must be square and nonempty: exactly as many rows as each
    /// row has cells. Any other layout yields `None`.
    pub fn from_rows(rows: &Vec<Vec<Cell>>, captured_black: usize, captured_white: usize) -> (r:
        Option<Board>)
        ensures
            r is Some <==> rows_ok(rows_view(rows@)),
            match r {
                Some(b) => b@ == model_of_rows(
                    rows_view(rows@),
                    captured_black as nat,
                    captured_white as nat,
                ) && b@.wf(),
                None => true,
            },
    {
        let n = rows.len();
        if n == 0 {
            return None;
        }
        let mut grid: Vec<Cell> = Vec::new();
        let mut y: usize = 0;
        while y < n
            invariant
                n == rows@.len(),
                1 <= n,
                y <= n,
                forall|yy: int| 0 <= yy < y ==> (#[trigger] rows@[yy])@.len() == n,
                grid@.len() == y * n,
                forall|i: int| 0 <= i < grid@.len() ==> #[trigger] grid@[i] == rows@[i / (
                n as int
                )]@[i % (n as int)],
            decreases n - y,
        {
            let row = &rows[y];
            if row.len() != n {
                proof {
                    assert(rows_view(rows@)[y as int].len() != n);
                }
                return None;
            }
            let mut x: usize = 0;
            while x < n
                invariant
                    n == rows@.len(),
                    1 <= n,
                    y < n,
                    x <= n,
                    row@ == rows@[y as int]@,
                    row@.len() == n,
                    grid@.len() == y * n + x,
                    forall|i: int| 0 <= i < grid@.len() ==> #[trigger] grid@[i] == rows@[i / (
                    n as int
                    )]@[i % (n as int)],
                decreases n - x,
            {
                grid.push(row[x]);
                proof {
                    lemma_fundamental_div_mod_converse(
                        (y as int) * (n as int) + (x as int),
                        n as int,
                        y as int,
                        x as int,
                    );
                }
                x += 1;
            }
            proof {
                assert(((y + 1) as int) * (n as int) == (y as int) * (n as int) + (n as int))
                    by (nonlinear_arith);
            }
            y += 1;
        }
        let glen = grid.len();
        let b = Board { size: n, grid, captured_black, captured_white };
        proof {
            assert(glen <= usize::MAX);
            assert(b@.wf());
            assert(rows_ok(rows_view(rows@)));
            let mm = model_of_rows(
                rows_view(rows@),
                captured_black as nat,
                captured_white as nat,
            );
            assert forall|i: int| 0 <= i < b@.grid.len() implies b@.grid[i] == mm.grid[i] by {
                crate::model::lemma_coord_of(b@, i);
                assert(rows_view(rows@)[i / (n as int)] == rows@[i / (n as int)]@);
            }
            assert(b@ =~= mm) by {
                assert(b@.grid =~= mm.grid);
            }
        }
        Some(b)
    }
}

} // verus!


