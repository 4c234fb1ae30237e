//! Connected clusters of same-colored stones, computed by an iterative
//! flood fill with an explicit work list and a visited set.

use vstd::prelude::*;

use crate::board::Board;
use crate::cell::Cell;
use crate::model::adjacent;
use crate::model::closed_set;
use crate::model::cluster_set;
use crate::model::connected;
use crate::model::contains_coord;
use crate::model::lemma_closed_complete;
use crate::model::lemma_connected_extend;
use crate::model::lemma_connected_refl;
use crate::model::lemma_pieces_len_bound;
use crate::model::set_has_liberty;
use crate::model::BoardModel;

verus! {

/// A cluster: the coordinates of a maximal connected group of
/// same-colored stones, plus that shared color. A cluster is a transient
/// value computed from a board snapshot; it is never stored on the board.
pub struct Cluster {
    pub pieces: Vec<(usize, usize)>,
    pub color: Cell,
}

/// A recorded member: in bounds, of the cluster's color, and joined to the
/// seed (sx, sy) by a chain of that color.
pub open spec fn piece_ok(m: BoardModel, c: Cell, sx: int, sy: int, p: (usize, usize)) -> bool {
    m.in_color(c, p.0 as int, p.1 as int) && connected(m, c, sx, sy, p.0 as int, p.1 as int)
}

/// Every in-bounds neighbor of `p` holding color `c` has been recorded
/// in `s`.
pub open spec fn neighbors_done(
    m: BoardModel,
    c: Cell,
    s: Seq<(usize, usize)>,
    p: (usize, usize),
) -> bool {
    let x = p.0 as int;
    let y = p.1 as int;
    &&& m.in_color(c, x + 1, y) ==> contains_coord(s, x + 1, y)
    &&& m.in_color(c, x - 1, y) ==> contains_coord(s, x - 1, y)
    &&& m.in_color(c, x, y + 1) ==> contains_coord(s, x, y + 1)
    &&& m.in_color(c, x, y - 1) ==> contains_coord(s, x, y - 1)
}

/// Membership of a coordinate survives extending the sequence at the end.
proof fn lemma_contains_coord_mono(s1: Seq<(usize, usize)>, s2: Seq<(usize, usize)>, x: int, y: int)
    requires
        contains_coord(s1, x, y),
        s1.len() <= s2.len(),
        forall|j: int| 0 <= j < s1.len() ==> s2[j] == s1[j],
    ensures
        contains_coord(s2, x, y),
{
    let j = choose|j: int| 0 <= j < s1.len() && (#[trigger] s1[j]).0 == x && s1[j].1 == y;
    assert(s2[j] == s1[j]);
}

/// `neighbors_done` survives extending the sequence at the end.
proof fn lemma_neighbors_done_mono(
    m: BoardModel,
    c: Cell,
    s1: Seq<(usize, usize)>,
    s2: Seq<(usize, usize)>,
    p: (usize, usize),
)
    requires
        neighbors_done(m, c, s1, p),
        s1.len() <= s2.len(),
        forall|j: int| 0 <= j < s1.len() ==> s2[j] == s1[j],
    ensures
        neighbors_done(m, c, s2, p),
{
    let x = p.0 as int;
    let y = p.1 as int;
    if m.in_color(c, x + 1, y) {
        lemma_contains_coord_mono(s1, s2, x + 1, y);
    }
    if m.in_color(c, x - 1, y) {
        lemma_contains_coord_mono(s1, s2, x - 1, y);
    }
    if m.in_color(c, x, y + 1) {
        lemma_contains_coord_mono(s1, s2, x, y + 1);
    }
    if m.in_color(c, x, y - 1) {
        lemma_contains_coord_mono(s1, s2, x, y - 1);
    }
}

/// Linear scan for a coordinate in the recorded members.
fn pieces_contain(pieces: &Vec<(usize, usize)>, x: usize, y: usize) -> (r: bool)
    ensures
        r == contains_coord(pieces@, x as int, y as int),
{
    let mut j: usize = 0;
    while j < pieces.len()
        invariant
            j <= pieces@.len(),
            forall|k: int|
                0 <= k < j ==> !((#[trigger] pieces@[k]).0 == x && pieces@[k].1 == y),
        decreases pieces@.len() - j,
    {
        let p = pieces[j];
        if p.0 == x && p.1 == y {
            return true;
        }
        j += 1;
    }
    false
}

/// One flood-fill step: if the in-bounds cell (nx, ny) holds `color` and
/// is not yet recorded, record it. The coordinate is adjacent to the
/// already-recorded member `from_p`, so it stays connected to the seed.
fn try_extend(
    pieces: &mut Vec<(usize, usize)>,
    board: &Board,
    color: Cell,
    nx: usize,
    ny: usize,
    seed: Ghost<(int, int)>,
    from_p: Ghost<(int, int)>,
)
    requires
        board@.wf(),
        color != Cell::Empty,
        board@.in_bounds(nx as int, ny as int),
        connected(board@, color, seed@.0, seed@.1, from_p@.0, from_p@.1),
        adjacent(from_p@.0, from_p@.1, nx as int, ny as int),
        old(pieces)@.no_duplicates(),
        forall|j: int|
            0 <= j < old(pieces)@.len() ==> piece_ok(
                board@,
                color,
                seed@.0,
                seed@.1,
                #[trigger] old(pieces)@[j],
            ),
    ensures
        final(pieces)@.no_duplicates(),
        forall|j: int|
            0 <= j < final(pieces)@.len() ==> piece_ok(
                board@,
                color,
                seed@.0,
                seed@.1,
                #[trigger] final(pieces)@[j],
            ),
        old(pieces)@.len() <= final(pieces)@.len() <= old(pieces)@.len() + 1,
        forall|j: int| 0 <= j < old(pieces)@.len() ==> final(pieces)@[j] == old(pieces)@[j],
        board@.cell_at(nx as int, ny as int) == color ==> contains_coord(
            final(pieces)@,
            nx as int,
            ny as int,
        ),
{
    let ci = board.cell_index(nx, ny);
    if board.grid[ci] == color {
        if !pieces_contain(pieces, nx, ny) {
            let ghost s0 = pieces@;
            pieces.push((nx, ny));
            proof {
                lemma_connected_extend(
                    board@,
                    color,
                    seed@.0,
                    seed@.1,
                    from_p@.0,
                    from_p@.1,
                    nx as int,
                    ny as int,
                );
                assert forall|j: int, k: int|
                    0 <= j < pieces@.len() && 0 <= k < pieces@.len() && j != k implies pieces@[j]
                    != pieces@[k] by {
                    if j < s0.len() && k < s0.len() {
                        assert(s0[j] != s0[k]);
                    }
                }
                assert(contains_coord(pieces@, nx as int, ny as int)) by {
                    assert(pieces@[s0.len() as int] == (nx, ny));
                }
            }
        } else {
            proof {
                assert(contains_coord(pieces@, nx as int, ny as int));
            }
        }
    }
}

impl Cluster {
    /// The member coordinates as a set of integer pairs.
    pub open spec fn coords(self) -> Set<(int, int)> {
        Set::new(|q: (int, int)| contains_coord(self.pieces@, q.0, q.1))
    }

    /// A cluster fit for removal from a board of model `m`: a stone color,
    /// no duplicate members, and every member in bounds.
    pub open spec fn wf_for(self, m: BoardModel) -> bool {
        &&& self.color != Cell::Empty
        &&& self.pieces@.no_duplicates()
        &&& forall|j: int|
            0 <= j < self.pieces@.len() ==> m.in_bounds(
                (#[trigger] self.pieces@[j]).0 as int,
                self.pieces@[j].1 as int,
            )
    }

    /// With no duplicate members, the coordinate set is finite and has
    /// exactly one element per recorded member.
    pub proof fn lemma_coords_card(self)
        requires
            self.pieces@.no_duplicates(),
        ensures
            self.coords().finite(),
            self.coords().len() == self.pieces@.len(),
    {
        let f = |p: (usize, usize)| (p.0 as int, p.1 as int);
        let mapped = self.pieces@.map_values(f);
        assert(vstd::relations::injective(f)) by {
            assert forall|a: (usize, usize), b: (usize, usize)|
                #[trigger] f(a) == #[trigger] f(b) implies a == b by {
                assert(a.0 == b.0 && a.1 == b.1);
            }
        }
        self.pieces@.lemma_no_duplicates_injective(f);
        mapped.unique_seq_to_set();
        vstd::seq_lib::seq_to_set_is_finite(mapped);
        assert forall|q: (int, int)| #[trigger] self.coords().contains(q) implies
            mapped.to_set().contains(q) by {
            let j = choose|j: int|
                0 <= j < self.pieces@.len() && (#[trigger] self.pieces@[j]).0 == q.0
                    && self.pieces@[j].1 == q.1;
            assert(mapped[j] == q);
        }
        assert forall|q: (int, int)| #[trigger] mapped.to_set().contains(q) implies
            self.coords().contains(q) by {
            let j = choose|j: int| 0 <= j < mapped.len() && mapped[j] == q;
            assert(self.pieces@[j].0 == q.0 && self.pieces@[j].1 == q.1);
        }
        assert(self.coords() =~= mapped.to_set());
    }

    /// Compute the maximal connected cluster of same-colored stones
    /// containing the seed (x, y), by flood fill over orthogonal
    /// neighbors. The seed cell must hold a stone.
    pub fn from(board: &Board, x: usize, y: usize) -> (r: Cluster)
        requires
            board@.wf(),
            board@.in_bounds(x as int, y as int),
            board@.cell_at(x as int, y as int) != Cell::Empty,
        ensures
            r.wf_for(board@),
            r.color == board@.cell_at(x as int, y as int),
            r.coords() == cluster_set(board@, x as int, y as int),
            r.pieces@.len() <= board@.size * board@.size,
    {
        let ghost m = board@;
        let ghost sx = x as int;
        let ghost sy = y as int;
        let ci = board.cell_index(x, y);
        let color = board.grid[ci];
        let mut pieces: Vec<(usize, usize)> = Vec::new();
        pieces.push((x, y));
        proof {
            lemma_connected_refl(m, color, sx, sy);
        }
        let mut i: usize = 0;
        while i < pieces.len()
            invariant
                board@ == m,
                m.wf(),
                m.in_bounds(sx, sy),
                sx == x as int,
                sy == y as int,
                color == m.cell_at(sx, sy),
                color != Cell::Empty,
                i <= pieces@.len(),
                1 <= pieces@.len(),
                pieces@[0] == (x, y),
                pieces@.no_duplicates(),
                forall|j: int|
                    0 <= j < pieces@.len() ==> piece_ok(m, color, sx, sy, #[trigger] pieces@[j]),
                forall|j: int|
                    0 <= j < i ==> neighbors_done(m, color, pieces@, #[trigger] pieces@[j]),
            decreases m.size * m.size - i,
        {
            proof {
                lemma_pieces_len_bound(pieces@, m.size as int);
            }
            let p = pieces[i];
            let ghost pp = (p.0 as int, p.1 as int);
            let ghost s0 = pieces@;
            assert(piece_ok(m, color, sx, sy, p));
            if p.0 + 1 < board.size {
                try_extend(&mut pieces, board, color, p.0 + 1, p.1, Ghost((sx, sy)), Ghost(pp));
            }
            let ghost s1 = pieces@;
            if p.0 > 0 {
                try_extend(&mut pieces, board, color, p.0 - 1, p.1, Ghost((sx, sy)), Ghost(pp));
            }
            let ghost s2 = pieces@;
            if p.1 + 1 < board.size {
                try_extend(&mut pieces, board, color, p.0, p.1 + 1, Ghost((sx, sy)), Ghost(pp));
            }
            let ghost s3 = pieces@;
            if p.1 > 0 {
                try_extend(&mut pieces, board, color, p.0, p.1 - 1, Ghost((sx, sy)), Ghost(pp));
            }
            let ghost s4 = pieces@;
            proof {
                // The one processed member keeps all four neighbor facts as
                // the list grows within this iteration.
                assert(neighbors_done(m, color, s4, p)) by {
                    if m.in_color(color, pp.0 + 1, pp.1) {
                        lemma_contains_coord_mono(s1, s4, pp.0 + 1, pp.1);
                    }
                    if m.in_color(color, pp.0 - 1, pp.1) {
                        lemma_contains_coord_mono(s2, s4, pp.0 - 1, pp.1);
                    }
                    if m.in_color(color, pp.0, pp.1 + 1) {
                        lemma_contains_coord_mono(s3, s4, pp.0, pp.1 + 1);
                    }
                }
                assert forall|j: int| 0 <= j < i + 1 implies neighbors_done(
                    m,
                    color,
                    pieces@,
                    #[trigger] pieces@[j],
                ) by {
                    if j < i {
                        assert(neighbors_done(m, color, s0, s0[j]));
                        lemma_neighbors_done_mono(m, color, s0, s4, s0[j]);
                        assert(pieces@[j] == s0[j]);
                    } else {
                        assert(pieces@[j] == p);
                    }
                }
            }
            i += 1;
        }
        let cl = Cluster { pieces, color };
        proof {
            lemma_pieces_len_bound(cl.pieces@, m.size as int);
            let s = cl.coords();
            assert forall|q: (int, int)| #[trigger] s.contains(q) implies cluster_set(
                m,
                sx,
                sy,
            ).contains(q) by {
                let j = choose|j: int|
                    0 <= j < cl.pieces@.len() && (#[trigger] cl.pieces@[j]).0 == q.0
                        && cl.pieces@[j].1 == q.1;
                assert(piece_ok(m, color, sx, sy, cl.pieces@[j]));
            }
            assert forall|q: (int, int)| #[trigger] s.contains(q) implies {
                &&& m.in_color(color, q.0 + 1, q.1) ==> s.contains((q.0 + 1, q.1))
                &&& m.in_color(color, q.0 - 1, q.1) ==> s.contains((q.0 - 1, q.1))
                &&& m.in_color(color, q.0, q.1 + 1) ==> s.contains((q.0, q.1 + 1))
                &&& m.in_color(color, q.0, q.1 - 1) ==> s.contains((q.0, q.1 - 1))
            } by {
                let j = choose|j: int|
                    0 <= j < cl.pieces@.len() && (#[trigger] cl.pieces@[j]).0 == q.0
                        && cl.pieces@[j].1 == q.1;
                assert(neighbors_done(m, color, cl.pieces@, cl.pieces@[j]));
            }
            assert(closed_set(m, color, s));
            assert(s.contains((sx, sy))) by {
                assert(cl.pieces@[0] == (x, y));
            }
            lemma_closed_complete(m, color, sx, sy, s);
            assert forall|q: (int, int)| cluster_set(m, sx, sy).contains(q) implies s.contains(
                q,
            ) by {
                assert(connected(m, color, sx, sy, q.0, q.1));
            }
            assert(s =~= cluster_set(m, sx, sy));
        }
        cl
    }

    /// Whether any member of the cluster has a liberty on the given board.
    pub fn has_liberties(&self, board: &Board) -> (r: bool)
        requires
            board@.wf(),
            self.wf_for(board@),
        ensures
            r == set_has_liberty(board@, self.coords()),
    {
        let ghost m = board@;
        let mut j: usize = 0;
        while j < self.pieces.len()
            invariant
                board@ == m,
                m.wf(),
                self.wf_for(m),
                j <= self.pieces@.len(),
                forall|k: int|
                    0 <= k < j ==> !m.cell_has_liberty(
                        (#[trigger] self.pieces@[k]).0 as int,
                        self.pieces@[k].1 as int,
                    ),
            decreases self.pieces@.len() - j,
        {
            let p = self.pieces[j];
            if board.has_liberty(p.0, p.1) {
                proof {
                    assert(self.coords().contains((p.0 as int, p.1 as int))) by {
                        assert(self.pieces@[j as int] == p);
                    }
                }
                return true;
            }
            j += 1;
        }
        proof {
            assert forall|q: (int, int)| #[trigger] self.coords().contains(q) implies
                !m.cell_has_liberty(q.0, q.1) by {
                let k = choose|k: int|
                    0 <= k < self.pieces@.len() && (#[trigger] self.pieces@[k]).0 == q.0
                        && self.pieces@[k].1 == q.1;
                assert(!m.cell_has_liberty(self.pieces@[k].0 as int, self.pieces@[k].1 as int));
            }
        }
        false
    }
}

} // verus!
