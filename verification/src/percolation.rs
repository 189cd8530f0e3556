use crate::board::in_bounds;
use crate::board::Marble;
use crate::board::MarbleBoard;
use crate::board::BOARD_CELLS;
use crate::board::BOARD_HEIGHT;
use crate::board::BOARD_WIDTH;
use vstd::prelude::*;

verus! {

/// True when cells `a` and `b` share an edge (4-adjacency; no diagonals).
pub open spec fn adjacent(a: (int, int), b: (int, int)) -> bool {
    ||| a.0 == b.0 && (a.1 == b.1 + 1 || a.1 + 1 == b.1)
    ||| a.1 == b.1 && (a.0 == b.0 + 1 || a.0 + 1 == b.0)
}

/// Cell `i` of candidate path `p` lies on the board and holds steel.
pub open spec fn path_cell_ok(g: MarbleBoard, p: Seq<(int, int)>, i: int) -> bool {
    in_bounds(p[i].0, p[i].1) && g.cell(p[i].0, p[i].1) == Marble::Steel
}

/// Step `i` of candidate path `p` moves between edge-adjacent cells.
pub open spec fn path_step_ok(p: Seq<(int, int)>, i: int) -> bool {
    adjacent(p[i - 1], p[i])
}

/// `p` is a chain of steel cells that starts in the top row and moves one
/// edge at a time.
pub open spec fn is_steel_path(g: MarbleBoard, p: Seq<(int, int)>) -> bool {
    &&& p.len() > 0
    &&& p[0].0 == 0
    &&& forall|i: int| 0 <= i < p.len() ==> #[trigger] path_cell_ok(g, p, i)
    &&& forall|i: int| 1 <= i < p.len() ==> #[trigger] path_step_ok(p, i)
}

/// Some steel chain from the top row ends at `(y, x)`.
pub open spec fn reaches(g: MarbleBoard, y: int, x: int) -> bool {
    exists|p: Seq<(int, int)>| is_steel_path(g, p) && p.last() == (y, x)
}

/// The board conducts: a steel chain joins the top row to the bottom row,
/// and so to the boundary just past it.
pub open spec fn percolates(g: MarbleBoard) -> bool {
    exists|p: Seq<(int, int)>| is_steel_path(g, p) && p.last().0 == BOARD_HEIGHT as int - 1
}

/// Marker for cell `(y, x)` in the row-major visited map.
spec fn vis_at(vis: Seq<bool>, y: int, x: int) -> bool {
    vis[y * (BOARD_WIDTH as int) + x]
}

/// Queue entry `p` is an on-board steel cell, marked visited, and reached
/// by some steel chain from the top row.
spec fn queue_entry_ok(g: MarbleBoard, vis: Seq<bool>, p: (usize, usize)) -> bool {
    &&& (p.0 as int) < BOARD_HEIGHT as int
    &&& (p.1 as int) < BOARD_WIDTH as int
    &&& g.cell(p.0 as int, p.1 as int) == Marble::Steel
    &&& vis_at(vis, p.0 as int, p.1 as int)
    &&& reaches(g, p.0 as int, p.1 as int)
}

/// Shape of the search state: the marker map covers the board, every queue
/// entry is sound, every marked cell sits somewhere in the queue, and no
/// cell is queued twice.
spec fn search_inv(g: MarbleBoard, vis: Seq<bool>, q: Seq<(usize, usize)>) -> bool {
    &&& g.well_formed()
    &&& vis.len() == BOARD_CELLS as int
    &&& q.len() <= BOARD_CELLS as int
    &&& forall|i: int| 0 <= i < q.len() ==> #[trigger] queue_entry_ok(g, vis, q[i])
    &&& forall|y: int, x: int|
        in_bounds(y, x) && #[trigger] vis_at(vis, y, x)
            ==> q.contains((y as usize, x as usize))
    &&& q.no_duplicates()
}

/// If `(y, x)` is an on-board steel cell, it is marked visited.
spec fn neighbor_settled(g: MarbleBoard, vis: Seq<bool>, y: int, x: int) -> bool {
    in_bounds(y, x) && g.cell(y, x) == Marble::Steel ==> vis_at(vis, y, x)
}

/// A dequeued cell was fully expanded: it lies above the bottom row and its
/// four edge neighbors that hold steel are all marked.
spec fn expanded(g: MarbleBoard, vis: Seq<bool>, p: (usize, usize)) -> bool {
    &&& (p.0 as int) < BOARD_HEIGHT as int - 1
    &&& neighbor_settled(g, vis, p.0 as int - 1, p.1 as int)
    &&& neighbor_settled(g, vis, p.0 as int + 1, p.1 as int)
    &&& neighbor_settled(g, vis, p.0 as int, p.1 as int - 1)
    &&& neighbor_settled(g, vis, p.0 as int, p.1 as int + 1)
}

/// Every steel cell of the top row is marked visited.
spec fn top_row_settled(g: MarbleBoard, vis: Seq<bool>) -> bool {
    forall|x: int|
        0 <= x < BOARD_WIDTH as int && g.cell(0, x) == Marble::Steel
            ==> #[trigger] vis_at(vis, 0, x)
}

/// A chain that reaches `(y, x)` extends across one edge onto a steel cell.
proof fn lemma_reach_step(g: MarbleBoard, y: int, x: int, ny: int, nx: int)
    requires
        reaches(g, y, x),
        in_bounds(ny, nx),
        g.cell(ny, nx) == Marble::Steel,
        adjacent((y, x), (ny, nx)),
    ensures
        reaches(g, ny, nx),
{
    let p = choose|p: Seq<(int, int)>| is_steel_path(g, p) && p.last() == (y, x);
    let p2 = p.push((ny, nx));
    assert(p2.last() == (ny, nx));
    assert(p2[0] == p[0]);
    assert forall|i: int| 0 <= i < p2.len() implies #[trigger] path_cell_ok(g, p2, i) by {
        if i < p.len() {
            assert(path_cell_ok(g, p, i));
            assert(p2[i] == p[i]);
        } else {
            assert(p2[i] == (ny, nx));
        }
    }
    assert forall|i: int| 1 <= i < p2.len() implies #[trigger] path_step_ok(p2, i) by {
        if i < p.len() {
            assert(path_step_ok(p, i));
            assert(p2[i] == p[i]);
            assert(p2[i - 1] == p[i - 1]);
        } else {
            assert(p2[i] == (ny, nx));
            assert(p2[i - 1] == p[p.len() - 1]);
        }
    }
    assert(is_steel_path(g, p2));
}

/// A duplicate-free queue of on-board cells that misses at least one
/// on-board cell cannot fill the whole board.
proof fn lemma_queue_not_full(q: Seq<(usize, usize)>, e: (usize, usize))
    requires
        q.no_duplicates(),
        forall|i: int|
            0 <= i < q.len() ==> ((#[trigger] q[i]).0 as int) < BOARD_HEIGHT as int
                && (q[i].1 as int) < BOARD_WIDTH as int,
        (e.0 as int) < BOARD_HEIGHT as int,
        (e.1 as int) < BOARD_WIDTH as int,
        !q.contains(e),
    ensures
        q.len() < BOARD_CELLS as int,
{
    broadcast use vstd::set::group_set_axioms;

    let f = |p: (usize, usize)| (p.0 as int) * (BOARD_WIDTH as int) + p.1 as int;
    let s = q.map_values(f);
    assert forall|i: int, j: int|
        0 <= i < s.len() && 0 <= j < s.len() && i != j implies s[i] != s[j] by {
        assert(q[i] != q[j]);
    }
    assert(s.no_duplicates());
    s.unique_seq_to_set();
    let all = vstd::set_lib::set_int_range(0, BOARD_CELLS as int);
    vstd::set_lib::lemma_int_range(0, BOARD_CELLS as int);
    let rest = all.remove(f(e));
    assert(all.contains(f(e)));
    assert forall|v: int| s.to_set().contains(v) implies rest.contains(v) by {
        assert(s.contains(v));
        let i = choose|i: int| 0 <= i < s.len() && s[i] == v;
        assert(q[i] != e);
        assert(s[i] == f(q[i]));
    }
    vstd::set_lib::lemma_len_subset(s.to_set(), rest);
}

/// Expand one neighbor: if `(y, x)` holds steel and is not yet marked,
/// mark it and append it to the queue.
fn try_visit(
    g: &MarbleBoard,
    visited: &mut Vec<bool>,
    q: &mut Vec<(usize, usize)>,
    y: usize,
    x: usize,
)
    requires
        y < BOARD_HEIGHT,
        x < BOARD_WIDTH,
        search_inv(*g, old(visited)@, old(q)@),
        g.cell(y as int, x as int) == Marble::Steel ==> reaches(*g, y as int, x as int),
    ensures
        search_inv(*g, final(visited)@, final(q)@),
        final(visited)@.len() == old(visited)@.len(),
        final(q)@.len() >= old(q)@.len(),
        forall|i: int| 0 <= i < old(q)@.len() ==> final(q)@[i] == old(q)@[i],
        forall|j: int| 0 <= j < old(visited)@.len() && old(visited)@[j] ==> final(visited)@[j],
        neighbor_settled(*g, final(visited)@, y as int, x as int),
{
    let idx: usize = y * BOARD_WIDTH + x;
    if g.get(y, x) == Marble::Steel && !visited[idx] {
        let ghost vis0 = visited@;
        let ghost q0 = q@;
        proof {
            // an unmarked cell cannot already be queued, so the queue is not full
            if q0.contains((y, x)) {
                let i = choose|i: int| 0 <= i < q0.len() && q0[i] == (y, x);
                assert(queue_entry_ok(*g, vis0, q0[i]));
                assert(false);
            }
            assert forall|i: int|
                0 <= i < q0.len() implies ((#[trigger] q0[i]).0 as int) < BOARD_HEIGHT as int && (
            q0[i].1 as int) < BOARD_WIDTH as int by {
                assert(queue_entry_ok(*g, vis0, q0[i]));
            }
            lemma_queue_not_full(q0, (y, x));
        }
        visited[idx] = true;
        q.push((y, x));
        proof {
            let vis1 = visited@;
            let q1 = q@;
            assert(q1[q0.len() as int] == (y, x));
            assert(q1.contains((y, x)));
            assert forall|i: int| 0 <= i < q1.len() implies #[trigger] queue_entry_ok(
                *g,
                vis1,
                q1[i],
            ) by {
                if i < q0.len() {
                    assert(q1[i] == q0[i]);
                    assert(queue_entry_ok(*g, vis0, q0[i]));
                    assert(vis_at(vis1, q0[i].0 as int, q0[i].1 as int));
                } else {
                    assert(q1[i] == (y, x));
                    assert(vis_at(vis1, y as int, x as int));
                }
            }
            assert forall|yy: int, xx: int|
                in_bounds(yy, xx) && #[trigger] vis_at(vis1, yy, xx) implies q1.contains(
                ((yy as usize), (xx as usize)),
            ) by {
                if yy * (BOARD_WIDTH as int) + xx == idx as int {
                    assert(yy == y as int && xx == x as int);
                    assert(q1[q0.len() as int] == ((yy as usize), (xx as usize)));
                } else {
                    assert(vis_at(vis0, yy, xx));
                    assert(q0.contains(((yy as usize), (xx as usize))));
                    let i = choose|i: int|
                        0 <= i < q0.len() && q0[i] == ((yy as usize), (xx as usize));
                    assert(q1[i] == ((yy as usize), (xx as usize)));
                }
            }
            assert forall|i: int, j: int|
                0 <= i < q1.len() && 0 <= j < q1.len() && i != j implies q1[i] != q1[j] by {
                if i < q0.len() && j < q0.len() {
                    assert(q1[i] == q0[i] && q1[j] == q0[j]);
                    assert(q0[i] != q0[j]);
                } else if i < q0.len() {
                    assert(q1[j] == (y, x) && q1[i] == q0[i]);
                    if q0[i] == (y, x) {
                        assert(q0.contains((y, x)));
                    }
                } else {
                    assert(q1[i] == (y, x) && q1[j] == q0[j]);
                    if q0[j] == (y, x) {
                        assert(q0.contains((y, x)));
                    }
                }
            }
            assert(q1.no_duplicates());
            assert(search_inv(*g, vis1, q1));
        }
    }
}

/// After the queue has been fully expanded, every cell on a steel chain
/// from the top row is marked, and none of them sits on the bottom row.
proof fn lemma_path_all_expanded(
    g: MarbleBoard,
    vis: Seq<bool>,
    q: Seq<(usize, usize)>,
    p: Seq<(int, int)>,
    i: int,
)
    requires
        search_inv(g, vis, q),
        top_row_settled(g, vis),
        forall|j: int| 0 <= j < q.len() ==> #[trigger] expanded(g, vis, q[j]),
        is_steel_path(g, p),
        0 <= i < p.len(),
    ensures
        vis_at(vis, p[i].0, p[i].1),
        p[i].0 < BOARD_HEIGHT as int - 1,
    decreases i,
{
    assert(path_cell_ok(g, p, i));
    let cur = p[i];
    if i == 0 {
        assert(vis_at(vis, 0, cur.1));
    } else {
        lemma_path_all_expanded(g, vis, q, p, i - 1);
        let prev = p[i - 1];
        assert(path_cell_ok(g, p, i - 1));
        assert(q.contains(((prev.0 as usize), (prev.1 as usize))));
        let j = choose|j: int|
            0 <= j < q.len() && q[j] == ((prev.0 as usize), (prev.1 as usize));
        assert(expanded(g, vis, q[j]));
        assert(path_step_ok(p, i));
        if cur.0 == prev.0 - 1 && cur.1 == prev.1 {
            assert(neighbor_settled(g, vis, prev.0 - 1, prev.1));
        } else if cur.0 == prev.0 + 1 && cur.1 == prev.1 {
            assert(neighbor_settled(g, vis, prev.0 + 1, prev.1));
        } else if cur.0 == prev.0 && cur.1 == prev.1 - 1 {
            assert(neighbor_settled(g, vis, prev.0, prev.1 - 1));
        } else {
            assert(cur.0 == prev.0 && cur.1 == prev.1 + 1);
            assert(neighbor_settled(g, vis, prev.0, prev.1 + 1));
        }
        assert(vis_at(vis, cur.0, cur.1));
    }
    assert(q.contains(((cur.0 as usize), (cur.1 as usize))));
    let j2 = choose|j: int| 0 <= j < q.len() && q[j] == ((cur.0 as usize), (cur.1 as usize));
    assert(expanded(g, vis, q[j2]));
}

impl MarbleBoard {
    /// Breadth-first flood fill from every steel cell of the top row; the
    /// answer says exactly whether the board percolates. The result depends
    /// on the board alone, so repeated calls agree.
    #[verifier::rlimit(100)]
    pub fn is_connected(&self) -> (r: bool)
        requires
            self.well_formed(),
        ensures
            r == percolates(*self),
    {
        let mut visited: Vec<bool> = Vec::new();
        let mut i: usize = 0;
        while i < BOARD_CELLS
            invariant
                i <= BOARD_CELLS,
                visited@.len() == i as int,
                forall|j: int| 0 <= j < i as int ==> !visited@[j],
            decreases BOARD_CELLS - i,
        {
            visited.push(false);
            i += 1;
        }

        let mut q: Vec<(usize, usize)> = Vec::new();
        proof {
            assert forall|y: int, x: int|
                in_bounds(y, x) && #[trigger] vis_at(visited@, y, x) implies q@.contains(
                ((y as usize), (x as usize)),
            ) by {
                assert(!visited@[y * (BOARD_WIDTH as int) + x]);
            }
            assert(search_inv(*self, visited@, q@));
        }

        let mut x: usize = 0;
        while x < BOARD_WIDTH
            invariant
                self.well_formed(),
                search_inv(*self, visited@, q@),
                x <= BOARD_WIDTH,
                forall|c: int|
                    0 <= c < x as int && self.cell(0, c) == Marble::Steel
                        ==> #[trigger] vis_at(visited@, 0, c),
            decreases BOARD_WIDTH - x,
        {
            proof {
                if self.cell(0, x as int) == Marble::Steel {
                    let p = seq![(0int, x as int)];
                    assert(p.last() == (0int, x as int));
                    assert(path_cell_ok(*self, p, 0));
                    assert(is_steel_path(*self, p));
                    assert(reaches(*self, 0, x as int));
                }
            }
            let ghost vis_s = visited@;
            try_visit(self, &mut visited, &mut q, 0, x);
            proof {
                assert forall|c: int|
                    0 <= c < x as int + 1 && self.cell(0, c) == Marble::Steel
                        implies #[trigger] vis_at(visited@, 0, c) by {
                    if c < x as int {
                        assert(vis_at(vis_s, 0, c));
                        assert(vis_s[0 * (BOARD_WIDTH as int) + c]);
                        assert(visited@[0 * (BOARD_WIDTH as int) + c]);
                    } else {
                        assert(neighbor_settled(*self, visited@, 0, x as int));
                    }
                }
            }
            x += 1;
        }

        let mut head: usize = 0;
        while head < q.len()
            invariant
                self.well_formed(),
                search_inv(*self, visited@, q@),
                head <= q@.len(),
                top_row_settled(*self, visited@),
                forall|j: int| 0 <= j < head as int ==> #[trigger] expanded(*self, visited@, q@[j]),
            decreases BOARD_CELLS - head,
        {
            let pos = q[head];
            let y: usize = pos.0;
            let x: usize = pos.1;
            let ghost vis_start = visited@;
            let ghost q_start = q@;
            proof {
                assert(queue_entry_ok(*self, vis_start, q_start[head as int]));
            }

            // neighbor above
            if y > 0 {
                proof {
                    if self.cell(y as int - 1, x as int) == Marble::Steel {
                        lemma_reach_step(*self, y as int, x as int, y as int - 1, x as int);
                    }
                }
                try_visit(self, &mut visited, &mut q, y - 1, x);
            }
            let ghost vis_a = visited@;
            let ghost q_a = q@;

            // neighbor below; crossing the bottom boundary means contact
            if y + 1 == BOARD_HEIGHT {
                proof {
                    let p = choose|p: Seq<(int, int)>|
                        is_steel_path(*self, p) && p.last() == (y as int, x as int);
                    assert(p.last().0 == BOARD_HEIGHT as int - 1);
                    assert(percolates(*self));
                }
                return true;
            }
            proof {
                if self.cell(y as int + 1, x as int) == Marble::Steel {
                    lemma_reach_step(*self, y as int, x as int, y as int + 1, x as int);
                }
            }
            try_visit(self, &mut visited, &mut q, y + 1, x);
            let ghost vis_b = visited@;
            let ghost q_b = q@;

            // neighbor to the left
            if x > 0 {
                proof {
                    if self.cell(y as int, x as int - 1) == Marble::Steel {
                        lemma_reach_step(*self, y as int, x as int, y as int, x as int - 1);
                    }
                }
                try_visit(self, &mut visited, &mut q, y, x - 1);
            }
            let ghost vis_c = visited@;
            let ghost q_c = q@;

            // neighbor to the right
            if x + 1 < BOARD_WIDTH {
                proof {
                    if self.cell(y as int, x as int + 1) == Marble::Steel {
                        lemma_reach_step(*self, y as int, x as int, y as int, x as int + 1);
                    }
                }
                try_visit(self, &mut visited, &mut q, y, x + 1);
            }

            head = head + 1;

            proof {
                let vis_end = visited@;
                let q_end = q@;
                assert(forall|j: int|
                    0 <= j < vis_start.len() && vis_start[j] ==> vis_end[j]);
                assert(forall|i: int| 0 <= i < q_start.len() ==> q_end[i] == q_start[i]);
                assert(neighbor_settled(*self, vis_end, y as int - 1, x as int)) by {
                    if y > 0 {
                        assert(neighbor_settled(*self, vis_a, y as int - 1, x as int));
                        if in_bounds(y as int - 1, x as int)
                            && self.cell(y as int - 1, x as int) == Marble::Steel {
                            assert(vis_at(vis_a, y as int - 1, x as int));
                        }
                    }
                }
                assert(neighbor_settled(*self, vis_end, y as int + 1, x as int)) by {
                    assert(neighbor_settled(*self, vis_b, y as int + 1, x as int));
                    if in_bounds(y as int + 1, x as int)
                        && self.cell(y as int + 1, x as int) == Marble::Steel {
                        assert(vis_at(vis_b, y as int + 1, x as int));
                    }
                }
                assert(neighbor_settled(*self, vis_end, y as int, x as int - 1)) by {
                    if x > 0 {
                        assert(neighbor_settled(*self, vis_c, y as int, x as int - 1));
                        if in_bounds(y as int, x as int - 1)
                            && self.cell(y as int, x as int - 1) == Marble::Steel {
                            assert(vis_at(vis_c, y as int, x as int - 1));
                        }
                    }
                }
                assert(neighbor_settled(*self, vis_end, y as int, x as int + 1));
                assert(expanded(*self, vis_end, (y, x)));
                assert forall|j: int| 0 <= j < head as int implies #[trigger] expanded(
                    *self,
                    vis_end,
                    q_end[j],
                ) by {
                    if j < head as int - 1 {
                        assert(expanded(*self, vis_start, q_start[j]));
                        let c = q_start[j];
                        assert(q_end[j] == c);
                        if in_bounds(c.0 as int - 1, c.1 as int)
                            && self.cell(c.0 as int - 1, c.1 as int) == Marble::Steel {
                            assert(vis_at(vis_start, c.0 as int - 1, c.1 as int));
                        }
                        if in_bounds(c.0 as int + 1, c.1 as int)
                            && self.cell(c.0 as int + 1, c.1 as int) == Marble::Steel {
                            assert(vis_at(vis_start, c.0 as int + 1, c.1 as int));
                        }
                        if in_bounds(c.0 as int, c.1 as int - 1)
                            && self.cell(c.0 as int, c.1 as int - 1) == Marble::Steel {
                            assert(vis_at(vis_start, c.0 as int, c.1 as int - 1));
                        }
                        if in_bounds(c.0 as int, c.1 as int + 1)
                            && self.cell(c.0 as int, c.1 as int + 1) == Marble::Steel {
                            assert(vis_at(vis_start, c.0 as int, c.1 as int + 1));
                        }
                    } else {
                        assert(q_end[j] == (y, x));
                    }
                }
                assert forall|c: int|
                    0 <= c < BOARD_WIDTH as int && self.cell(0, c) == Marble::Steel
                        implies #[trigger] vis_at(vis_end, 0, c) by {
                    assert(vis_at(vis_start, 0, c));
                }
            }
        }

        proof {
            if percolates(*self) {
                let p = choose|p: Seq<(int, int)>|
                    is_steel_path(*self, p) && p.last().0 == BOARD_HEIGHT as int - 1;
                lemma_path_all_expanded(*self, visited@, q@, p, p.len() - 1);
                assert(false);
            }
        }
        false
    }
}

/// An all-glass board never percolates: a conducting chain would need a
/// steel cell somewhere, and there is none.
pub proof fn lemma_all_glass_not_percolating(g: MarbleBoard)
    requires
        forall|y: int, x: int|
            in_bounds(y, x) ==> (#[trigger] g.cell(y, x)) == Marble::Glass,
    ensures
        !percolates(g),
{
    assert forall|x: int| 0 <= x < BOARD_WIDTH as int implies (#[trigger] g.cell(0, x))
        == Marble::Glass by {
        assert(in_bounds(0, x));
    }
    lemma_top_row_glass_not_percolating(g);
}

/// A board whose top row holds no steel never percolates: every conducting
/// chain must start on a steel cell of the top row.
pub proof fn lemma_top_row_glass_not_percolating(g: MarbleBoard)
    requires
        forall|x: int| 0 <= x < BOARD_WIDTH as int ==> (#[trigger] g.cell(0, x)) == Marble::Glass,
    ensures
        !percolates(g),
{
    if percolates(g) {
        let p = choose|p: Seq<(int, int)>|
            is_steel_path(g, p) && p.last().0 == BOARD_HEIGHT as int - 1;
        assert(path_cell_ok(g, p, 0));
        assert(g.cell(0, p[0].1) == Marble::Glass);
        assert(false);
    }
}

/// A full steel column percolates: the column itself is a conducting chain
/// from the top row to the bottom row.
pub proof fn lemma_full_column_percolates(g: MarbleBoard, c: int)
    requires
        0 <= c < BOARD_WIDTH as int,
        forall|y: int|
            0 <= y < BOARD_HEIGHT as int ==> (#[trigger] g.cell(y, c)) == Marble::Steel,
    ensures
        percolates(g),
{
    let p = Seq::new(BOARD_HEIGHT as nat, |i: int| (i, c));
    assert(p[0].0 == 0);
    assert forall|i: int| 0 <= i < p.len() implies #[trigger] path_cell_ok(g, p, i) by {
        assert(p[i] == (i, c));
    }
    assert forall|i: int| 1 <= i < p.len() implies #[trigger] path_step_ok(p, i) by {
        assert(p[i] == (i, c));
        assert(p[i - 1] == (i - 1, c));
    }
    assert(is_steel_path(g, p));
    assert(p.last().0 == BOARD_HEIGHT as int - 1);
}

/// The low end of the probability curve: a board sampled with no steel at
/// all never percolates.
pub proof fn lemma_no_steel_not_percolating(g: MarbleBoard)
    requires
        g.well_formed(),
        g.steel_count() == 0,
    ensures
        !percolates(g),
{
    crate::board::lemma_no_steel_all_glass(g);
    lemma_all_glass_not_percolating(g);
}

/// The high end of the probability curve: a board filled with steel always
/// percolates.
pub proof fn lemma_full_board_percolates(g: MarbleBoard)
    requires
        g.well_formed(),
        g.steel_count() == BOARD_CELLS as nat,
    ensures
        percolates(g),
{
    crate::board::lemma_full_steel_all_steel(g);
    assert forall|y: int| 0 <= y < BOARD_HEIGHT as int implies (#[trigger] g.cell(y, 0))
        == Marble::Steel by {
        assert(in_bounds(y, 0));
    }
    lemma_full_column_percolates(g, 0);
}

/// Turning glass into steel can only help: a board that percolates still
/// percolates after any set of cells is upgraded from glass to steel.
pub proof fn lemma_more_steel_preserves_percolation(g1: MarbleBoard, g2: MarbleBoard)
    requires
        forall|y: int, x: int|
            in_bounds(y, x) && (#[trigger] g1.cell(y, x)) == Marble::Steel ==> g2.cell(y, x)
                == Marble::Steel,
        percolates(g1),
    ensures
        percolates(g2),
{
    let p = choose|p: Seq<(int, int)>|
        is_steel_path(g1, p) && p.last().0 == BOARD_HEIGHT as int - 1;
    assert forall|i: int| 0 <= i < p.len() implies #[trigger] path_cell_ok(g2, p, i) by {
        assert(path_cell_ok(g1, p, i));
    }
    assert(is_steel_path(g2, p));
}

} // verus!
