//! Shortest hill paths on an elevation grid.
//!
//! A step from one cell to a 4-neighbour is legal when the destination is
//! at most one unit higher. Costs are found by sweeping a cost grid to a
//! fixpoint: every sweep lowers each cell to the cheapest of its current
//! cost and one more than a legal neighbour's cost. The contracts pin the
//! outcome as the unique greatest fixpoint below the initial cost grid.
use vstd::prelude::*;
use vstd::string::StringSliceAdditionalSpecFns;

use crate::grid::{Grid, grid_cells, grid_const, grid_dims, grid_in_range};
use crate::text::spec_lines;
use crate::text::split_lines;
use crate::text::views_of;
use crate::text::lines_total_len;
use crate::text::lemma_lines_len_bound;
use crate::text::lemma_uniform_lines_total;

verus! {

/// The sentinel cost of a cell that no path has reached.
pub const UNREACHED: u32 = u32::MAX;

/// The integer pair of an exec position.
pub open spec fn ip(p: (usize, usize)) -> (int, int) {
    (p.0 as int, p.1 as int)
}

/// `q` and `p` share an edge of the grid (4-neighbourhood).
pub open spec fn adjacent(q: (int, int), p: (int, int)) -> bool {
    (q.0 == p.0 && (q.1 == p.1 + 1 || q.1 + 1 == p.1)) || (q.1 == p.1 && (q.0 == p.0 + 1 || q.0
        + 1 == p.0))
}

/// A step from `q` into `p` is legal: `p` is at most one unit higher.
pub open spec fn step_ok(h: Map<(int, int), u32>, q: (int, int), p: (int, int)) -> bool {
    h[p] <= h[q] + 1
}

/// No single relaxation of cell `p` over the costs `c` can lower it.
pub open spec fn cell_fixed(
    h: Map<(int, int), u32>,
    dims: (int, int),
    c: Map<(int, int), u32>,
    p: (int, int),
) -> bool {
    forall|q: (int, int)|
        grid_in_range(dims, q) && #[trigger] adjacent(q, p) && step_ok(h, q, p) && c[q]
            < UNREACHED ==> c[p] <= c[q] + 1
}

/// No relaxation of any cell can lower the costs `c`: a fixpoint.
pub open spec fn fixed(h: Map<(int, int), u32>, dims: (int, int), c: Map<(int, int), u32>) -> bool {
    forall|p: (int, int)| grid_in_range(dims, p) ==> #[trigger] cell_fixed(h, dims, c, p)
}

/// `a` is pointwise at most `b` on every in-range cell.
pub open spec fn le_costs(
    dims: (int, int),
    a: Map<(int, int), u32>,
    b: Map<(int, int), u32>,
) -> bool {
    forall|p: (int, int)| #[trigger] grid_in_range(dims, p) ==> a[p] <= b[p]
}

/// `c` is what relaxing `init` to a fixpoint yields: a fixpoint below
/// `init` that lies above every fixpoint below `init`. These three
/// clauses determine `c` on all in-range cells (`lemma_relaxed_unique`).
pub open spec fn relaxed_from(
    h: Map<(int, int), u32>,
    dims: (int, int),
    init: Map<(int, int), u32>,
    c: Map<(int, int), u32>,
) -> bool {
    &&& fixed(h, dims, c)
    &&& le_costs(dims, c, init)
    &&& forall|f: Map<(int, int), u32>|
        fixed(h, dims, f) && #[trigger] le_costs(dims, f, init) ==> le_costs(dims, f, c)
}

/// The cost map that relaxing `init` yields, named through its
/// characterisation.
pub open spec fn relax_result(
    h: Map<(int, int), u32>,
    dims: (int, int),
    init: Map<(int, int), u32>,
) -> Map<(int, int), u32> {
    choose|c: Map<(int, int), u32>| relaxed_from(h, dims, init, c)
}

/// Sum of the costs of the first `len` cells of row `r`.
pub open spec fn row_cost(c: Map<(int, int), u32>, r: int, len: int) -> int
    decreases len,
{
    if len <= 0 {
        0
    } else {
        row_cost(c, r, len - 1) + c[(r, len - 1)]
    }
}

/// Sum of the costs of the first `rows` full rows.
pub open spec fn total_cost(c: Map<(int, int), u32>, rows: int, cols: int) -> int
    decreases rows,
{
    if rows <= 0 {
        0
    } else {
        total_cost(c, rows - 1, cols) + row_cost(c, rows - 1, cols)
    }
}

proof fn lemma_row_nonneg(c: Map<(int, int), u32>, r: int, len: int)
    ensures
        row_cost(c, r, len) >= 0,
    decreases len,
{
    if len > 0 {
        lemma_row_nonneg(c, r, len - 1);
    }
}

proof fn lemma_total_nonneg(c: Map<(int, int), u32>, rows: int, cols: int)
    ensures
        total_cost(c, rows, cols) >= 0,
    decreases rows,
{
    if rows > 0 {
        lemma_total_nonneg(c, rows - 1, cols);
        lemma_row_nonneg(c, rows - 1, cols);
    }
}

proof fn lemma_row_le(a: Map<(int, int), u32>, b: Map<(int, int), u32>, r: int, len: int)
    requires
        forall|j: int| 0 <= j < len ==> a[(r, j)] <= #[trigger] b[(r, j)],
    ensures
        row_cost(a, r, len) <= row_cost(b, r, len),
    decreases len,
{
    if len > 0 {
        lemma_row_le(a, b, r, len - 1);
    }
}

proof fn lemma_row_lt(a: Map<(int, int), u32>, b: Map<(int, int), u32>, r: int, len: int, jw: int)
    requires
        forall|j: int| 0 <= j < len ==> a[(r, j)] <= #[trigger] b[(r, j)],
        0 <= jw < len,
        a[(r, jw)] < b[(r, jw)],
    ensures
        row_cost(a, r, len) < row_cost(b, r, len),
    decreases len,
{
    if jw == len - 1 {
        lemma_row_le(a, b, r, len - 1);
    } else {
        lemma_row_lt(a, b, r, len - 1, jw);
    }
}

proof fn lemma_total_le(a: Map<(int, int), u32>, b: Map<(int, int), u32>, rows: int, cols: int)
    requires
        le_costs((rows, cols), a, b),
    ensures
        total_cost(a, rows, cols) <= total_cost(b, rows, cols),
    decreases rows,
{
    if rows > 0 {
        assert(le_costs((rows - 1, cols), a, b)) by {
            assert forall|p: (int, int)| #[trigger]
                grid_in_range((rows - 1, cols), p) implies a[p] <= b[p] by {
                assert(grid_in_range((rows, cols), p));
            }
        }
        lemma_total_le(a, b, rows - 1, cols);
        assert forall|j: int| 0 <= j < cols implies a[(rows - 1, j)] <= #[trigger] b[(rows - 1, j)] by {
            assert(grid_in_range((rows, cols), (rows - 1, j)));
        }
        lemma_row_le(a, b, rows - 1, cols);
    }
}

proof fn lemma_total_lt(
    a: Map<(int, int), u32>,
    b: Map<(int, int), u32>,
    rows: int,
    cols: int,
    pw: (int, int),
)
    requires
        le_costs((rows, cols), a, b),
        grid_in_range((rows, cols), pw),
        a[pw] < b[pw],
    ensures
        total_cost(a, rows, cols) < total_cost(b, rows, cols),
    decreases rows,
{
    assert forall|j: int| 0 <= j < cols implies a[(rows - 1, j)] <= #[trigger] b[(rows - 1, j)] by {
        assert(grid_in_range((rows, cols), (rows - 1, j)));
    }
    assert(le_costs((rows - 1, cols), a, b)) by {
        assert forall|p: (int, int)| #[trigger]
            grid_in_range((rows - 1, cols), p) implies a[p] <= b[p] by {
            assert(grid_in_range((rows, cols), p));
        }
    }
    if pw.0 == rows - 1 {
        lemma_total_le(a, b, rows - 1, cols);
        lemma_row_lt(a, b, rows - 1, cols, pw.1);
    } else {
        lemma_total_lt(a, b, rows - 1, cols, pw);
        lemma_row_le(a, b, rows - 1, cols);
    }
}

/// An elevation grid with its start and end cells and the cost grid of
/// the relaxation in progress.
pub struct HeightMap {
    pub start: (usize, usize),
    pub end: (usize, usize),
    pub map: Grid,
    pub costs: Grid,
}

impl HeightMap {
    /// The (rows, columns) dimensions.
    pub open spec fn dims(&self) -> (int, int) {
        grid_dims(self.map)
    }

    /// The elevation at each cell.
    pub open spec fn heights(&self) -> Map<(int, int), u32> {
        grid_cells(self.map)
    }

    /// The current best-known cost at each cell.
    pub open spec fn cost_map(&self) -> Map<(int, int), u32> {
        grid_cells(self.costs)
    }

    /// Both grids share positive dimensions and the marked cells are in
    /// range.
    pub open spec fn wf(&self) -> bool {
        &&& grid_dims(self.costs) == self.dims()
        &&& self.dims().0 > 0
        &&& self.dims().1 > 0
        &&& grid_in_range(self.dims(), ip(self.start))
        &&& grid_in_range(self.dims(), ip(self.end))
    }

    /// The elevation at `position`.
    pub fn height(&self, position: (usize, usize)) -> (r: u32)
        requires
            self.wf(),
            grid_in_range(self.dims(), ip(position)),
        ensures
            r == self.heights()[ip(position)],
    {
        self.map.get(position.0, position.1)
    }

    /// The cheapest cost `position` can take from one relaxation: the
    /// least of its current cost and one step more than a legal,
    /// reached neighbour.
    pub fn compute_cost(&self, position: (usize, usize)) -> (r: u32)
        requires
            self.wf(),
            grid_in_range(self.dims(), ip(position)),
        ensures
            r <= self.cost_map()[ip(position)],
            forall|q: (int, int)|
                grid_in_range(self.dims(), q) && #[trigger] adjacent(q, ip(position)) && step_ok(
                    self.heights(),
                    q,
                    ip(position),
                ) && self.cost_map()[q] < UNREACHED ==> r <= self.cost_map()[q] + 1,
            r == self.cost_map()[ip(position)] || exists|q: (int, int)|
                grid_in_range(self.dims(), q) && #[trigger] adjacent(q, ip(position)) && step_ok(
                    self.heights(),
                    q,
                    ip(position),
                ) && self.cost_map()[q] < UNREACHED && r == self.cost_map()[q] + 1,
    {
        let (row, column) = position;
        let rows = self.costs.rows();
        let cols = self.costs.cols();
        let here = self.map.get(row, column);
        let mut result = self.costs.get(row, column);
        if row > 0 {
            let nc = self.costs.get(row - 1, column);
            let nh = self.map.get(row - 1, column);
            if nc < UNREACHED && nh as u64 + 1 >= here as u64 && nc + 1 < result {
                result = nc + 1;
                proof {
                    assert(adjacent(((row - 1) as int, column as int), ip(position)));
                }
            }
        }
        if column > 0 {
            let nc = self.costs.get(row, column - 1);
            let nh = self.map.get(row, column - 1);
            if nc < UNREACHED && nh as u64 + 1 >= here as u64 && nc + 1 < result {
                result = nc + 1;
                proof {
                    assert(adjacent((row as int, (column - 1) as int), ip(position)));
                }
            }
        }
        if row + 1 < rows {
            let nc = self.costs.get(row + 1, column);
            let nh = self.map.get(row + 1, column);
            if nc < UNREACHED && nh as u64 + 1 >= here as u64 && nc + 1 < result {
                result = nc + 1;
                proof {
                    assert(adjacent((row + 1 as int, column as int), ip(position)));
                }
            }
        }
        if column + 1 < cols {
            let nc = self.costs.get(row, column + 1);
            let nh = self.map.get(row, column + 1);
            if nc < UNREACHED && nh as u64 + 1 >= here as u64 && nc + 1 < result {
                result = nc + 1;
                proof {
                    assert(adjacent((row as int, column + 1 as int), ip(position)));
                }
            }
        }
        result
    }

    /// One full relaxation sweep in row-major order, updating costs in
    /// place. Costs never rise (and, being unsigned, never drop below
    /// zero); a sweep that changes nothing certifies a fixpoint.
    pub fn sweep(&mut self) -> (changed: bool)
        requires
            old(self).wf(),
        ensures
            final(self).wf(),
            final(self).map == old(self).map,
            final(self).start == old(self).start,
            final(self).end == old(self).end,
            grid_dims(final(self).costs) == grid_dims(old(self).costs),
            le_costs(final(self).dims(), final(self).cost_map(), old(self).cost_map()),
            forall|f: Map<(int, int), u32>|
                fixed(old(self).heights(), old(self).dims(), f) && #[trigger] le_costs(
                    old(self).dims(),
                    f,
                    old(self).cost_map(),
                ) ==> le_costs(old(self).dims(), f, final(self).cost_map()),
            !changed ==> final(self).cost_map() == old(self).cost_map() && fixed(
                old(self).heights(),
                old(self).dims(),
                final(self).cost_map(),
            ),
            changed ==> exists|p: (int, int)|
                #[trigger] grid_in_range(old(self).dims(), p) && final(self).cost_map()[p] < old(
                    self,
                ).cost_map()[p],
    {
        let ghost h = old(self).heights();
        let ghost dims = old(self).dims();
        let ghost c0 = old(self).cost_map();
        let rows = self.costs.rows();
        let cols = self.costs.cols();
        let mut changed = false;
        let mut row: usize = 0;
        while row < rows
            invariant
                self.wf(),
                self.map == old(self).map,
                self.start == old(self).start,
                self.end == old(self).end,
                grid_dims(self.costs) == grid_dims(old(self).costs),
                h == self.heights(),
                dims == self.dims(),
                rows == dims.0,
                cols == dims.1,
                0 <= row <= rows,
                le_costs(dims, self.cost_map(), c0),
                forall|f: Map<(int, int), u32>|
                    fixed(h, dims, f) && #[trigger] le_costs(dims, f, c0) ==> le_costs(
                        dims,
                        f,
                        self.cost_map(),
                    ),
                !changed ==> self.cost_map() == c0,
                !changed ==> forall|p: (int, int)|
                    grid_in_range(dims, p) && p.0 < row ==> #[trigger] cell_fixed(
                        h,
                        dims,
                        self.cost_map(),
                        p,
                    ),
                changed ==> exists|p: (int, int)|
                    #[trigger] grid_in_range(dims, p) && self.cost_map()[p] < c0[p],
            decreases rows - row,
        {
            let mut col: usize = 0;
            while col < cols
                invariant
                    self.wf(),
                    self.map == old(self).map,
                    self.start == old(self).start,
                    self.end == old(self).end,
                    grid_dims(self.costs) == grid_dims(old(self).costs),
                    h == self.heights(),
                    dims == self.dims(),
                    rows == dims.0,
                    cols == dims.1,
                    0 <= row < rows,
                    0 <= col <= cols,
                    le_costs(dims, self.cost_map(), c0),
                    forall|f: Map<(int, int), u32>|
                        fixed(h, dims, f) && #[trigger] le_costs(dims, f, c0) ==> le_costs(
                            dims,
                            f,
                            self.cost_map(),
                        ),
                    !changed ==> self.cost_map() == c0,
                    !changed ==> forall|p: (int, int)|
                        grid_in_range(dims, p) && (p.0 < row || (p.0 == row && p.1 < col))
                            ==> #[trigger] cell_fixed(h, dims, self.cost_map(), p),
                    changed ==> exists|p: (int, int)|
                        #[trigger] grid_in_range(dims, p) && self.cost_map()[p] < c0[p],
                decreases cols - col,
            {
                let position = (row, col);
                let ghost cur = self.cost_map();
                let new_cost = self.compute_cost(position);
                let old_cost = self.costs.get(row, col);
                if new_cost != old_cost {
                    self.costs.set(row, col, new_cost);
                    changed = true;
                    proof {
                        let pi = ip(position);
                        let cur2 = self.cost_map();
                        assert(grid_in_range(dims, pi));
                        assert(cur2 == cur.insert(pi, new_cost));
                        assert(new_cost < cur[pi]);
                        assert(cur[pi] <= c0[pi]);
                        assert(cur2[pi] <= c0[pi]);
                        assert forall|p: (int, int)| #[trigger]
                            grid_in_range(dims, p) implies cur2[p] <= c0[p] by {
                            if p != pi {
                                assert(cur2[p] == cur[p]);
                            }
                        }
                        assert forall|f: Map<(int, int), u32>|
                            fixed(h, dims, f) && #[trigger] le_costs(dims, f, c0) implies le_costs(
                            dims,
                            f,
                            cur2,
                        ) by {
                            assert(le_costs(dims, f, cur));
                            assert forall|p: (int, int)| #[trigger]
                                grid_in_range(dims, p) implies f[p] <= cur2[p] by {
                                if p == pi {
                                    if new_cost == cur[pi] {
                                    } else {
                                        let q = choose|q: (int, int)|
                                            grid_in_range(dims, q) && #[trigger] adjacent(q, pi)
                                                && step_ok(h, q, pi) && cur[q] < UNREACHED
                                                && new_cost == cur[q] + 1;
                                        assert(f[q] <= cur[q]);
                                        assert(cell_fixed(h, dims, f, pi));
                                        assert(f[pi] <= f[q] + 1);
                                    }
                                }
                            }
                        }
                        assert(grid_in_range(dims, pi) && cur2[pi] < c0[pi]) by {
                            assert(cur[pi] <= c0[pi]);
                        }
                    }
                } else {
                    proof {
                        let pi = ip(position);
                        if !changed {
                            assert(cell_fixed(h, dims, self.cost_map(), pi)) by {
                                assert forall|q: (int, int)|
                                    grid_in_range(dims, q) && #[trigger] adjacent(q, pi) && step_ok(
                                        h,
                                        q,
                                        pi,
                                    ) && self.cost_map()[q] < UNREACHED implies self.cost_map()[pi]
                                    <= self.cost_map()[q] + 1 by {}
                            }
                        }
                    }
                }
                col += 1;
            }
            row += 1;
        }
        changed
    }

    /// Relaxes the cost grid to a fixpoint after starting the marked
    /// start cell at cost 0, and reads the cost at `target`. The final
    /// costs are the unique relaxation outcome of the initial costs.
    pub fn shortest_path(&mut self, target: (usize, usize)) -> (r: u32)
        requires
            old(self).wf(),
            grid_in_range(old(self).dims(), ip(target)),
        ensures
            final(self).wf(),
            final(self).map == old(self).map,
            final(self).start == old(self).start,
            final(self).end == old(self).end,
            relaxed_from(
                old(self).heights(),
                old(self).dims(),
                old(self).cost_map().insert(ip(old(self).start), 0),
                final(self).cost_map(),
            ),
            r == final(self).cost_map()[ip(target)],
    {
        let ghost h = old(self).heights();
        let ghost dims = old(self).dims();
        self.costs.set(self.start.0, self.start.1, 0);
        let ghost init = self.cost_map();
        proof {
            assert(le_costs(dims, self.cost_map(), init));
            assert forall|f: Map<(int, int), u32>|
                fixed(h, dims, f) && #[trigger] le_costs(dims, f, init) implies le_costs(
                dims,
                f,
                self.cost_map(),
            ) by {}
        }
        loop
            invariant
                self.wf(),
                self.map == old(self).map,
                self.start == old(self).start,
                self.end == old(self).end,
                h == self.heights(),
                dims == self.dims(),
                le_costs(dims, self.cost_map(), init),
                forall|f: Map<(int, int), u32>|
                    fixed(h, dims, f) && #[trigger] le_costs(dims, f, init) ==> le_costs(
                        dims,
                        f,
                        self.cost_map(),
                    ),
            ensures
                fixed(h, dims, self.cost_map()),
            decreases total_cost(self.cost_map(), dims.0, dims.1),
        {
            let ghost prev = self.cost_map();
            let changed = self.sweep();
            proof {
                assert forall|f: Map<(int, int), u32>|
                    fixed(h, dims, f) && #[trigger] le_costs(dims, f, init) implies le_costs(
                    dims,
                    f,
                    self.cost_map(),
                ) by {
                    assert(le_costs(dims, f, prev));
                }
            }
            if !changed {
                break ;
            }
            proof {
                let pw = choose|p: (int, int)|
                    #[trigger] grid_in_range(dims, p) && self.cost_map()[p] < prev[p];
                lemma_total_lt(self.cost_map(), prev, dims.0, dims.1, pw);
                lemma_total_nonneg(self.cost_map(), dims.0, dims.1);
            }
        }
        proof {
            assert(relaxed_from(h, dims, init, self.cost_map()));
        }
        self.costs.get(target.0, target.1)
    }

    /// Single-source query: only the marked start cell begins at cost 0
    /// (on a fresh cost grid every other cell holds the sentinel).
    pub fn shortest_path_form_start(&mut self, target: (usize, usize)) -> (r: u32)
        requires
            old(self).wf(),
            grid_in_range(old(self).dims(), ip(target)),
        ensures
            final(self).wf(),
            final(self).map == old(self).map,
            final(self).start == old(self).start,
            final(self).end == old(self).end,
            relaxed_from(
                old(self).heights(),
                old(self).dims(),
                old(self).cost_map().insert(ip(old(self).start), 0),
                final(self).cost_map(),
            ),
            r == final(self).cost_map()[ip(target)],
    {
        self.shortest_path(target)
    }

    /// Multi-source query: every cell at elevation 0 begins at cost 0,
    /// the marked start cell as well.
    pub fn shortest_path_anywhere(&mut self, target: (usize, usize)) -> (r: u32)
        requires
            old(self).wf(),
            grid_in_range(old(self).dims(), ip(target)),
        ensures
            final(self).wf(),
            final(self).map == old(self).map,
            final(self).start == old(self).start,
            final(self).end == old(self).end,
            relaxed_from(
                old(self).heights(),
                old(self).dims(),
                multi_source_init(
                    old(self).heights(),
                    old(self).dims(),
                    ip(old(self).start),
                    old(self).cost_map(),
                ),
                final(self).cost_map(),
            ),
            r == final(self).cost_map()[ip(target)],
    {
        let ghost h = old(self).heights();
        let ghost dims = old(self).dims();
        let ghost c0 = old(self).cost_map();
        let rows = self.costs.rows();
        let cols = self.costs.cols();
        proof {
            assert(self.cost_map() =~= zero_upto(h, dims, c0, 0, 0));
        }
        let mut row: usize = 0;
        while row < rows
            invariant
                self.wf(),
                self.map == old(self).map,
                self.start == old(self).start,
                self.end == old(self).end,
                h == self.heights(),
                dims == self.dims(),
                rows == dims.0,
                cols == dims.1,
                0 <= row <= rows,
                self.cost_map() == zero_upto(h, dims, c0, row as int, 0),
            decreases rows - row,
        {
            let mut col: usize = 0;
            while col < cols
                invariant
                    self.wf(),
                    self.map == old(self).map,
                    self.start == old(self).start,
                    self.end == old(self).end,
                    h == self.heights(),
                    dims == self.dims(),
                    rows == dims.0,
                    cols == dims.1,
                    0 <= row < rows,
                    0 <= col <= cols,
                    self.cost_map() == zero_upto(h, dims, c0, row as int, col as int),
                decreases cols - col,
            {
                if self.height((row, col)) == 0 {
                    self.costs.set(row, col, 0);
                }
                proof {
                    assert(self.cost_map() =~= zero_upto(h, dims, c0, row as int, col + 1));
                }
                col += 1;
            }
            proof {
                assert(zero_upto(h, dims, c0, row as int, cols as int) =~= zero_upto(
                    h,
                    dims,
                    c0,
                    row + 1,
                    0,
                ));
            }
            row += 1;
        }
        proof {
            assert(zero_upto(h, dims, c0, rows as int, 0) =~= zero_at_low(h, dims, c0));
        }
        self.shortest_path(target)
    }
}

/// Cells strictly before column `c` of row `r` in row-major order.
pub open spec fn before_cell(p: (int, int), r: int, c: int) -> bool {
    p.0 < r || (p.0 == r && p.1 < c)
}

/// `c0` with every elevation-0 cell among the first cells (row-major,
/// up to row `r`, column `c`) lowered to 0.
pub open spec fn zero_upto(
    h: Map<(int, int), u32>,
    dims: (int, int),
    c0: Map<(int, int), u32>,
    r: int,
    c: int,
) -> Map<(int, int), u32> {
    Map::new(
        |p: (int, int)|
            c0.dom().contains(p) || (grid_in_range(dims, p) && before_cell(p, r, c) && h[p] == 0),
        |p: (int, int)|
            if grid_in_range(dims, p) && before_cell(p, r, c) && h[p] == 0 {
                0u32
            } else {
                c0[p]
            },
    )
}

/// `c0` with every elevation-0 cell lowered to 0.
pub open spec fn zero_at_low(
    h: Map<(int, int), u32>,
    dims: (int, int),
    c0: Map<(int, int), u32>,
) -> Map<(int, int), u32> {
    zero_upto(h, dims, c0, dims.0, 0)
}

/// The initial costs of the multi-source query: every elevation-0 cell
/// and the start cell at 0, anything else as in `c0`.
pub open spec fn multi_source_init(
    h: Map<(int, int), u32>,
    dims: (int, int),
    start: (int, int),
    c0: Map<(int, int), u32>,
) -> Map<(int, int), u32> {
    zero_at_low(h, dims, c0).insert(start, 0)
}

/// Law: the three clauses of `relaxed_from` leave room for one
/// outcome only, up to the cells in range.
pub proof fn lemma_relaxed_unique(
    h: Map<(int, int), u32>,
    dims: (int, int),
    init: Map<(int, int), u32>,
    c1: Map<(int, int), u32>,
    c2: Map<(int, int), u32>,
)
    requires
        relaxed_from(h, dims, init, c1),
        relaxed_from(h, dims, init, c2),
    ensures
        forall|p: (int, int)| #[trigger] grid_in_range(dims, p) ==> c1[p] == c2[p],
{
    assert(le_costs(dims, c1, c2));
    assert(le_costs(dims, c2, c1));
}

/// Law: a cell whose initial cost is 0 — the designated start cell in
/// particular — still costs 0 after relaxation.
pub proof fn lemma_start_cost_zero(
    h: Map<(int, int), u32>,
    dims: (int, int),
    init: Map<(int, int), u32>,
    c: Map<(int, int), u32>,
    start: (int, int),
)
    requires
        relaxed_from(h, dims, init, c),
        grid_in_range(dims, start),
        init[start] == 0,
    ensures
        c[start] == 0,
{
    assert(c[start] <= init[start]);
}

/// Law: relaxing to a fixpoint is idempotent — a relaxation outcome,
/// taken as the initial costs of a second relaxation, is its own
/// outcome, so the second run changes nothing.
pub proof fn lemma_relax_idempotent(
    h: Map<(int, int), u32>,
    dims: (int, int),
    init: Map<(int, int), u32>,
    c: Map<(int, int), u32>,
)
    requires
        relaxed_from(h, dims, init, c),
    ensures
        relaxed_from(h, dims, c, c),
{
    assert(le_costs(dims, c, c));
}

/// Law: lower initial costs can only lower the outcome. With the
/// multi-source initial costs below the single-source ones, the
/// multi-source cost of any cell is at most the single-source cost.
pub proof fn lemma_more_sources_cheaper(
    h: Map<(int, int), u32>,
    dims: (int, int),
    i1: Map<(int, int), u32>,
    i2: Map<(int, int), u32>,
    c1: Map<(int, int), u32>,
    c2: Map<(int, int), u32>,
)
    requires
        relaxed_from(h, dims, i1, c1),
        relaxed_from(h, dims, i2, c2),
        le_costs(dims, i1, i2),
    ensures
        le_costs(dims, c1, c2),
{
    assert(le_costs(dims, c1, i2)) by {
        assert forall|p: (int, int)| #[trigger] grid_in_range(dims, p) implies c1[p] <= i2[p] by {
            assert(c1[p] <= i1[p]);
        }
    }
}

/// Law: the multi-source initial costs lie below the single-source
/// initial costs built from the same cost grid.
pub proof fn lemma_multi_init_le(
    h: Map<(int, int), u32>,
    dims: (int, int),
    start: (int, int),
    c0: Map<(int, int), u32>,
)
    requires
        forall|p: (int, int)| #[trigger] grid_in_range(dims, p) ==> c0.dom().contains(p),
    ensures
        le_costs(dims, multi_source_init(h, dims, start, c0), c0.insert(start, 0)),
{
    assert forall|p: (int, int)| #[trigger] grid_in_range(dims, p) implies multi_source_init(
        h,
        dims,
        start,
        c0,
    )[p] <= c0.insert(start, 0)[p] by {
        assert(c0.dom().contains(p));
        if p != start {
            assert(multi_source_init(h, dims, start, c0)[p] == zero_at_low(h, dims, c0)[p]);
        }
    }
}

/// A byte a grid cell may hold: a lowercase letter or a marker.
pub open spec fn valid_cell(b: u8) -> bool {
    b == 83 || b == 69 || (97 <= b <= 122)
}

/// The elevation a cell byte denotes: 'S' stands at 0, 'E' at 25, a
/// letter at its alphabet position.
pub open spec fn elevation_of(b: u8) -> u32 {
    if b == 83 {
        0
    } else if b == 69 {
        25
    } else {
        (b - 97) as u32
    }
}

/// The input holds a carriage return somewhere. The grid reader takes
/// bytes as they come, so a carriage return is a foreign character to
/// it, not a line ending.
pub open spec fn has_cr(s: Seq<u8>) -> bool {
    exists|k: int| 0 <= k < s.len() && s[k] == 13
}

/// The bytes of `s` form a grid: no carriage return anywhere, at least
/// one line, no empty line, all lines of one length, every byte a
/// valid cell.
pub open spec fn grid_ok(s: Seq<u8>) -> bool {
    let lines = spec_lines(s);
    &&& !has_cr(s)
    &&& lines.len() > 0
    &&& lines[0].len() > 0
    &&& forall|i: int| 0 <= i < lines.len() ==> #[trigger] lines[i].len() == lines[0].len()
    &&& forall|i: int, k: int|
        0 <= i < lines.len() && 0 <= k < lines[i].len() ==> valid_cell(#[trigger] lines[i][k])
}

/// The elevation at each (row, column) of the grid the lines spell.
pub open spec fn spec_heights(lines: Seq<Seq<u8>>) -> Map<(int, int), u32> {
    Map::new(
        |p: (int, int)| 0 <= p.0 < lines.len() && 0 <= p.1 < lines[0].len(),
        |p: (int, int)| elevation_of(lines[p.0][p.1]),
    )
}

/// The column of the last occurrence of `m` among the first `len`
/// bytes of `line`, if any.
pub open spec fn row_marker(line: Seq<u8>, m: u8, len: int) -> Option<int>
    decreases len,
{
    if len <= 0 {
        None
    } else if line[len - 1] == m {
        Some(len - 1)
    } else {
        row_marker(line, m, len - 1)
    }
}

/// The position of the last occurrence of `m` among the first `rows`
/// lines, in row-major order, if any.
pub open spec fn marker_pos(lines: Seq<Seq<u8>>, m: u8, rows: int) -> Option<(int, int)>
    decreases rows,
{
    if rows <= 0 {
        None
    } else {
        match row_marker(lines[rows - 1], m, lines[rows - 1].len() as int) {
            Some(j) => Some((rows - 1, j)),
            None => marker_pos(lines, m, rows - 1),
        }
    }
}

/// The recorded start cell: where the last 'S' stands, or (0, 0).
pub open spec fn start_cell(lines: Seq<Seq<u8>>) -> (int, int) {
    match marker_pos(lines, 83, lines.len() as int) {
        Some(p) => p,
        None => (0, 0),
    }
}

/// The recorded end cell: where the last 'E' stands, or (0, 0).
pub open spec fn end_cell(lines: Seq<Seq<u8>>) -> (int, int) {
    match marker_pos(lines, 69, lines.len() as int) {
        Some(p) => p,
        None => (0, 0),
    }
}

/// Why an input spells no grid.
#[derive(Clone, Copy, Debug, PartialEq, Eq, Structural)]
pub enum ParseError {
    /// No line, or an empty first line.
    EmptyGrid,
    /// A line of another length than the first.
    RaggedLine,
    /// A byte outside the lowercase letters and the two markers; a
    /// carriage return counts as one.
    BadCharacter,
}

/// Reads the elevation grid: one line per row, one byte per column,
/// recording where the last 'S' and 'E' stand, and a cost grid of
/// sentinels.
pub fn parse_input(input: &str) -> (r: Result<HeightMap, ParseError>)
    ensures
        ({
            let s = input.spec_bytes();
            let lines = spec_lines(s);
            &&& (r is Ok <==> grid_ok(s))
            &&& (r matches Ok(m) ==> {
                &&& m.wf()
                &&& m.dims() == (lines.len() as int, lines[0].len() as int)
                &&& m.heights() == spec_heights(lines)
                &&& m.cost_map() == grid_const(m.dims(), UNREACHED)
                &&& ip(m.start) == start_cell(lines)
                &&& ip(m.end) == end_cell(lines)
            })
            &&& (r == Err::<HeightMap, ParseError>(ParseError::EmptyGrid) <==> !has_cr(s) && (
            lines.len() == 0 || lines[0].len() == 0))
            &&& (r == Err::<HeightMap, ParseError>(ParseError::RaggedLine) <==> !has_cr(s)
                && lines.len() > 0 && lines[0].len() > 0 && exists|i: int|
                0 <= i < lines.len() && #[trigger] lines[i].len() != lines[0].len())
            &&& (r == Err::<HeightMap, ParseError>(ParseError::BadCharacter) <==> has_cr(s) || (
            lines.len() > 0 && lines[0].len() > 0 && (forall|i: int|
                0 <= i < lines.len() ==> #[trigger] lines[i].len() == lines[0].len()) && exists|
                i: int,
                k: int,
            |
                0 <= i < lines.len() && 0 <= k < lines[i].len() && !valid_cell(
                    #[trigger] lines[i][k],
                )))
        }),
{
    let bytes = input.as_bytes();
    let ghost s = input.spec_bytes();
    let nbytes = bytes.len();
    let mut j: usize = 0;
    while j < nbytes
        invariant
            s == input.spec_bytes(),
            bytes@ == s,
            0 <= j <= nbytes,
            nbytes == s.len(),
            forall|k: int| 0 <= k < j ==> s[k] != 13,
        decreases nbytes - j,
    {
        if bytes[j] == 13 {
            proof {
                assert(has_cr(s));
            }
            return Err(ParseError::BadCharacter);
        }
        j += 1;
    }
    proof {
        assert(!has_cr(s));
    }
    let lines = split_lines(bytes);
    let ghost ls = spec_lines(s);
    proof {
        assert(views_of(lines@) == ls);
    }
    let rows = lines.len();
    if rows == 0 {
        return Err(ParseError::EmptyGrid);
    }
    let cols = lines[0].len();
    proof {
        assert(ls[0] == lines@[0]@);
    }
    if cols == 0 {
        return Err(ParseError::EmptyGrid);
    }
    let mut i: usize = 1;
    while i < rows
        invariant
            s == input.spec_bytes(),
            ls == spec_lines(s),
            !has_cr(s),
            1 <= i <= rows,
            0 < cols,
            rows == ls.len(),
            views_of(lines@) == ls,
            rows == lines@.len(),
            cols == ls[0].len(),
            forall|k: int| 0 <= k < i ==> #[trigger] ls[k].len() == cols,
        decreases rows - i,
    {
        proof {
            assert(ls[i as int] == lines@[i as int]@);
        }
        if lines[i].len() != cols {
            proof {
                assert(ls[i as int].len() != ls[0].len());
                assert(!grid_ok(s));
                assert(ls.len() > 0 && ls[0].len() > 0);
                assert(exists|k: int|
                    0 <= k < ls.len() && #[trigger] ls[k].len() != ls[0].len());
            }
            return Err(ParseError::RaggedLine);
        }
        i += 1;
    }
    let mut row: usize = 0;
    while row < rows
        invariant
            s == input.spec_bytes(),
            ls == spec_lines(s),
            !has_cr(s),
            0 <= row <= rows,
            0 < cols,
            rows == ls.len(),
            views_of(lines@) == ls,
            rows == lines@.len(),
            cols == ls[0].len(),
            forall|k: int| 0 <= k < rows ==> #[trigger] ls[k].len() == cols,
            forall|a: int, k: int|
                0 <= a < row && 0 <= k < cols ==> valid_cell(#[trigger] ls[a][k]),
        decreases rows - row,
    {
        let mut col: usize = 0;
        proof {
            assert(ls[row as int] == lines@[row as int]@);
        }
        while col < cols
            invariant
                s == input.spec_bytes(),
                ls == spec_lines(s),
                !has_cr(s),
                0 <= row < rows,
                0 <= col <= cols,
                rows == ls.len(),
                views_of(lines@) == ls,
                rows == lines@.len(),
                0 < cols,
                cols == ls[0].len(),
                cols == ls[row as int].len(),
                ls[row as int] == lines@[row as int]@,
                forall|k: int| 0 <= k < rows ==> #[trigger] ls[k].len() == cols,
                forall|a: int, k: int|
                    0 <= a < row && 0 <= k < cols ==> valid_cell(#[trigger] ls[a][k]),
                forall|k: int| 0 <= k < col ==> valid_cell(#[trigger] ls[row as int][k]),
            decreases cols - col,
        {
            let b = lines[row][col];
            if !(b == 83 || b == 69 || (97 <= b && b <= 122)) {
                proof {
                    assert(!valid_cell(ls[row as int][col as int]));
                    assert(!grid_ok(s));
                    assert(forall|k: int| 0 <= k < ls.len() ==> #[trigger] ls[k].len() == ls[0].len());
                    assert(exists|a: int, k: int|
                        0 <= a < ls.len() && 0 <= k < ls[a].len() && !valid_cell(
                            #[trigger] ls[a][k]));
                }
                return Err(ParseError::BadCharacter);
            }
            col += 1;
        }
        row += 1;
    }
    proof {
        lemma_lines_len_bound(s);
        lemma_uniform_lines_total(ls, cols as int);
        assert(rows * cols == lines_total_len(ls));
        assert(rows * cols <= nbytes);
    }
    let mut map = Grid::new(rows, cols);
    let mut costs = Grid::new(rows, cols);
    costs.fill(UNREACHED);
    let ghost dims = (rows as int, cols as int);
    let mut start: (usize, usize) = (0, 0);
    let mut end: (usize, usize) = (0, 0);
    let mut row: usize = 0;
    while row < rows
        invariant
            s == input.spec_bytes(),
            ls == spec_lines(s),
            0 <= row <= rows,
            rows == ls.len(),
            views_of(lines@) == ls,
            rows == lines@.len(),
            cols == ls[0].len(),
            forall|k: int| 0 <= k < rows ==> #[trigger] ls[k].len() == cols,
            forall|a: int, k: int|
                0 <= a < rows && 0 <= k < cols ==> valid_cell(#[trigger] ls[a][k]),
            dims == (rows as int, cols as int),
            grid_dims(map) == dims,
            grid_cells(map) == Map::new(
                |p: (int, int)| grid_in_range(dims, p),
                |p: (int, int)|
                    if before_cell(p, row as int, 0) {
                        elevation_of(ls[p.0][p.1])
                    } else {
                        0u32
                    },
            ),
            ip(start) == (match marker_pos(ls, 83, row as int) {
                Some(p) => p,
                None => (0int, 0int),
            }),
            ip(end) == (match marker_pos(ls, 69, row as int) {
                Some(p) => p,
                None => (0int, 0int),
            }),
            grid_in_range(dims, ip(start)),
            grid_in_range(dims, ip(end)),
        decreases rows - row,
    {
        let mut col: usize = 0;
        proof {
            assert(ls[row as int] == lines@[row as int]@);
        }
        while col < cols
            invariant
                s == input.spec_bytes(),
                ls == spec_lines(s),
                0 <= row < rows,
                0 <= col <= cols,
                rows == ls.len(),
                views_of(lines@) == ls,
                rows == lines@.len(),
                cols == ls[0].len(),
                cols == ls[row as int].len(),
                ls[row as int] == lines@[row as int]@,
                forall|k: int| 0 <= k < rows ==> #[trigger] ls[k].len() == cols,
                forall|a: int, k: int|
                    0 <= a < rows && 0 <= k < cols ==> valid_cell(#[trigger] ls[a][k]),
                dims == (rows as int, cols as int),
                grid_dims(map) == dims,
                grid_cells(map) == Map::new(
                    |p: (int, int)| grid_in_range(dims, p),
                    |p: (int, int)|
                        if before_cell(p, row as int, col as int) {
                            elevation_of(ls[p.0][p.1])
                        } else {
                            0u32
                        },
                ),
                ip(start) == (match row_marker(ls[row as int], 83, col as int) {
                    Some(j) => (row as int, j),
                    None => match marker_pos(ls, 83, row as int) {
                        Some(p) => p,
                        None => (0int, 0int),
                    },
                }),
                ip(end) == (match row_marker(ls[row as int], 69, col as int) {
                    Some(j) => (row as int, j),
                    None => match marker_pos(ls, 69, row as int) {
                        Some(p) => p,
                        None => (0int, 0int),
                    },
                }),
                grid_in_range(dims, ip(start)),
                grid_in_range(dims, ip(end)),
            decreases cols - col,
        {
            let b = lines[row][col];
            let elevation: u32 = if b == 83 {
                start = (row, col);
                0
            } else if b == 69 {
                end = (row, col);
                25
            } else {
                (b - 97) as u32
            };
            proof {
                assert(elevation == elevation_of(ls[row as int][col as int]));
            }
            map.set(row, col, elevation);
            proof {
                assert(grid_cells(map) =~= Map::new(
                    |p: (int, int)| grid_in_range(dims, p),
                    |p: (int, int)|
                        if before_cell(p, row as int, col + 1) {
                            elevation_of(ls[p.0][p.1])
                        } else {
                            0u32
                        },
                ));
            }
            col += 1;
        }
        proof {
            assert(grid_cells(map) =~= Map::new(
                |p: (int, int)| grid_in_range(dims, p),
                |p: (int, int)|
                    if before_cell(p, row + 1, 0) {
                        elevation_of(ls[p.0][p.1])
                    } else {
                        0u32
                    },
            ));
        }
        row += 1;
    }
    proof {
        assert(grid_cells(map) =~= spec_heights(ls));
    }
    Ok(HeightMap { start, end, map, costs })
}

/// The initial cost grid of a single-source query: the sentinel
/// everywhere but the start cell, which holds 0.
pub open spec fn single_init(dims: (int, int), start: (int, int)) -> Map<(int, int), u32> {
    grid_const(dims, UNREACHED).insert(start, 0)
}

/// Minimum number of steps from the recorded start cell to the recorded
/// end cell; the sentinel when no path exists.
pub fn steps_to_signal(input: &str) -> (r: u32)
    requires
        grid_ok(input.spec_bytes()),
    ensures
        ({
            let lines = spec_lines(input.spec_bytes());
            let dims = (lines.len() as int, lines[0].len() as int);
            r == relax_result(
                spec_heights(lines),
                dims,
                single_init(dims, start_cell(lines)),
            )[end_cell(lines)]
        }),
{
    let ghost lines = spec_lines(input.spec_bytes());
    let ghost dims = (lines.len() as int, lines[0].len() as int);
    let mut height_map = match parse_input(input) {
        Ok(m) => m,
        Err(_) => {
            proof {
                assert(false);
            }
            vstd::pervasive::unreached()
        },
    };
    let end = height_map.end;
    let r = height_map.shortest_path_form_start(end);
    proof {
        let h = spec_heights(lines);
        let init = single_init(dims, start_cell(lines));
        assert(relaxed_from(h, dims, init, height_map.cost_map()));
        let c2 = relax_result(h, dims, init);
        assert(relaxed_from(h, dims, init, c2));
        lemma_relaxed_unique(h, dims, init, height_map.cost_map(), c2);
        assert(grid_in_range(dims, end_cell(lines)));
    }
    r
}

/// Minimum number of steps from any elevation-0 cell (the start cell
/// included) to the recorded end cell; the sentinel when no path exists.
pub fn shortest_hike(input: &str) -> (r: u32)
    requires
        grid_ok(input.spec_bytes()),
    ensures
        ({
            let lines = spec_lines(input.spec_bytes());
            let dims = (lines.len() as int, lines[0].len() as int);
            r == relax_result(
                spec_heights(lines),
                dims,
                multi_source_init(
                    spec_heights(lines),
                    dims,
                    start_cell(lines),
                    grid_const(dims, UNREACHED),
                ),
            )[end_cell(lines)]
        }),
{
    let ghost lines = spec_lines(input.spec_bytes());
    let ghost dims = (lines.len() as int, lines[0].len() as int);
    let mut height_map = match parse_input(input) {
        Ok(m) => m,
        Err(_) => {
            proof {
                assert(false);
            }
            vstd::pervasive::unreached()
        },
    };
    let end = height_map.end;
    let r = height_map.shortest_path_anywhere(end);
    proof {
        let h = spec_heights(lines);
        let init = multi_source_init(h, dims, start_cell(lines), grid_const(dims, UNREACHED));
        assert(relaxed_from(h, dims, init, height_map.cost_map()));
        let c2 = relax_result(h, dims, init);
        assert(relaxed_from(h, dims, init, c2));
        lemma_relaxed_unique(h, dims, init, height_map.cost_map(), c2);
        assert(grid_in_range(dims, end_cell(lines)));
    }
    r
}

} // verus!
