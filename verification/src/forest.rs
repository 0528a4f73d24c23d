//! Tree visibility in a square grid of heights.
//!
//! A tree is visible when every tree between it and some edge is
//! strictly lower; a tree's scenic score multiplies its viewing
//! distances in the four directions.
use vstd::prelude::*;
use vstd::string::StringSliceAdditionalSpecFns;

use crate::grid::{Grid, grid_cells, grid_dims, grid_in_range};
use crate::text::all_digits;
use crate::text::lemma_lines_len_bound;
use crate::text::lemma_uniform_lines_total;
use crate::text::spec_lines;
use crate::text::split_lines;
use crate::text::views_of;

verus! {

/// The lines spell a square grid of decimal digits.
pub open spec fn forest_ok(s: Seq<u8>) -> bool {
    let ls = spec_lines(s);
    &&& ls.len() > 0
    &&& forall|i: int| 0 <= i < ls.len() ==> (#[trigger] ls[i]).len() == ls.len()
    &&& forall|i: int| 0 <= i < ls.len() ==> all_digits(#[trigger] ls[i])
}

/// The height at each (row, column): the digit's value.
pub open spec fn forest_heights(ls: Seq<Seq<u8>>) -> Map<(int, int), u32> {
    Map::new(
        |p: (int, int)| 0 <= p.0 < ls.len() && 0 <= p.1 < ls.len(),
        |p: (int, int)| (ls[p.0][p.1] - 48) as u32,
    )
}

/// No tree left of `p` reaches its height.
pub open spec fn vis_left(h: Map<(int, int), u32>, p: (int, int)) -> bool {
    forall|c: int| 0 <= c < p.1 ==> h[(p.0, c)] < h[p]
}

/// No tree right of `p` (up to `size`) reaches its height.
pub open spec fn vis_right(h: Map<(int, int), u32>, size: int, p: (int, int)) -> bool {
    forall|c: int| p.1 < c < size ==> h[(p.0, c)] < h[p]
}

/// No tree above `p` reaches its height.
pub open spec fn vis_top(h: Map<(int, int), u32>, p: (int, int)) -> bool {
    forall|r: int| 0 <= r < p.0 ==> h[(r, p.1)] < h[p]
}

/// No tree below `p` (up to `size`) reaches its height.
pub open spec fn vis_bottom(h: Map<(int, int), u32>, size: int, p: (int, int)) -> bool {
    forall|r: int| p.0 < r < size ==> h[(r, p.1)] < h[p]
}

/// The tree at `p` can be seen from some edge.
pub open spec fn visible(h: Map<(int, int), u32>, size: int, p: (int, int)) -> bool {
    vis_left(h, p) || vis_right(h, size, p) || vis_top(h, p) || vis_bottom(h, size, p)
}

/// Number of visible interior trees of row `r` among columns [1, c).
pub open spec fn vis_row_count(h: Map<(int, int), u32>, size: int, r: int, c: int) -> int
    decreases c,
{
    if c <= 1 {
        0
    } else {
        vis_row_count(h, size, r, c - 1) + (if visible(h, size, (r, c - 1)) {
            1int
        } else {
            0int
        })
    }
}

/// Number of visible interior trees among rows [1, r).
pub open spec fn vis_count(h: Map<(int, int), u32>, size: int, r: int) -> int
    decreases r,
{
    if r <= 1 {
        0
    } else {
        vis_count(h, size, r - 1) + vis_row_count(h, size, r - 1, size - 1)
    }
}

/// Total count: the border trees plus the visible interior trees.
pub open spec fn count_visible_spec(h: Map<(int, int), u32>, size: int) -> int {
    size * 2 + (size - 2) * 2 + vis_count(h, size, size - 1)
}

/// Reads the square grid of digits.
pub fn parse_tree_matrix(input: &str) -> (r: (usize, Grid))
    requires
        forest_ok(input.spec_bytes()),
    ensures
        r.0 == spec_lines(input.spec_bytes()).len(),
        grid_dims(r.1) == (r.0 as int, r.0 as int),
        grid_cells(r.1) == forest_heights(spec_lines(input.spec_bytes())),
{
    let ghost s = input.spec_bytes();
    let ghost ls = spec_lines(s);
    let lines = split_lines(input.as_bytes());
    let nbytes = input.as_bytes().len();
    let size = lines.len();
    proof {
        assert(ls[0] == lines@[0]@);
        assert(ls[0].len() == ls.len());
        lemma_lines_len_bound(s);
        lemma_uniform_lines_total(ls, size as int);
        assert(size * size <= nbytes);
    }
    let mut m = Grid::new(size, size);
    let ghost dims = (size as int, size as int);
    let mut row: usize = 0;
    while row < size
        invariant
            s == input.spec_bytes(),
            ls == spec_lines(s),
            views_of(lines@) == ls,
            size == ls.len(),
            size == lines@.len(),
            0 <= row <= size,
            forall|i: int| 0 <= i < ls.len() ==> (#[trigger] ls[i]).len() == ls.len(),
            forall|i: int| 0 <= i < ls.len() ==> all_digits(#[trigger] ls[i]),
            dims == (size as int, size as int),
            grid_dims(m) == dims,
            grid_cells(m) == Map::new(
                |p: (int, int)| grid_in_range(dims, p),
                |p: (int, int)|
                    if p.0 < row {
                        (ls[p.0][p.1] - 48) as u32
                    } else {
                        0u32
                    },
            ),
        decreases size - row,
    {
        let mut col: usize = 0;
        proof {
            assert(ls[row as int] == lines@[row as int]@);
        }
        while col < size
            invariant
                s == input.spec_bytes(),
                ls == spec_lines(s),
                views_of(lines@) == ls,
                size == ls.len(),
                size == lines@.len(),
                0 <= row < size,
                0 <= col <= size,
                ls[row as int] == lines@[row as int]@,
                forall|i: int| 0 <= i < ls.len() ==> (#[trigger] ls[i]).len() == ls.len(),
                forall|i: int| 0 <= i < ls.len() ==> all_digits(#[trigger] ls[i]),
                dims == (size as int, size as int),
                grid_dims(m) == dims,
                grid_cells(m) == Map::new(
                    |p: (int, int)| grid_in_range(dims, p),
                    |p: (int, int)|
                        if p.0 < row || (p.0 == row && p.1 < col) {
                            (ls[p.0][p.1] - 48) as u32
                        } else {
                            0u32
                        },
                ),
            decreases size - col,
        {
            let b = lines[row][col];
            proof {
                assert(is_digit_at(ls, row as int, col as int));
            }
            m.set(row, col, (b - 48) as u32);
            proof {
                assert(grid_cells(m) =~= Map::new(
                    |p: (int, int)| grid_in_range(dims, p),
                    |p: (int, int)|
                        if p.0 < row || (p.0 == row && p.1 < col + 1) {
                            (ls[p.0][p.1] - 48) as u32
                        } else {
                            0u32
                        },
                ));
            }
            col += 1;
        }
        proof {
            assert(grid_cells(m) =~= Map::new(
                |p: (int, int)| grid_in_range(dims, p),
                |p: (int, int)|
                    if p.0 < row + 1 {
                        (ls[p.0][p.1] - 48) as u32
                    } else {
                        0u32
                    },
            ));
        }
        row += 1;
    }
    proof {
        assert(grid_cells(m) =~= forest_heights(ls));
    }
    (size, m)
}

/// The byte at (r, c) of the lines is a digit.
pub open spec fn is_digit_at(ls: Seq<Seq<u8>>, r: int, c: int) -> bool {
    48 <= ls[r][c] <= 57
}

fn visible_left(m: &Grid, row: usize, col: usize) -> (r: bool)
    requires
        grid_dims(*m).0 == grid_dims(*m).1,
        grid_in_range(grid_dims(*m), (row as int, col as int)),
    ensures
        r == vis_left(grid_cells(*m), (row as int, col as int)),
{
    let hp = m.get(row, col);
    let mut c: usize = 0;
    while c < col
        invariant
            grid_dims(*m).0 == grid_dims(*m).1,
            grid_in_range(grid_dims(*m), (row as int, col as int)),
            hp == grid_cells(*m)[(row as int, col as int)],
            0 <= c <= col,
            forall|t: int| 0 <= t < c ==> grid_cells(*m)[(row as int, t)] < hp,
        decreases col - c,
    {
        if m.get(row, c) >= hp {
            return false;
        }
        c += 1;
    }
    true
}

fn visible_top(m: &Grid, row: usize, col: usize) -> (r: bool)
    requires
        grid_dims(*m).0 == grid_dims(*m).1,
        grid_in_range(grid_dims(*m), (row as int, col as int)),
    ensures
        r == vis_top(grid_cells(*m), (row as int, col as int)),
{
    let hp = m.get(row, col);
    let mut t: usize = 0;
    while t < row
        invariant
            grid_dims(*m).0 == grid_dims(*m).1,
            grid_in_range(grid_dims(*m), (row as int, col as int)),
            hp == grid_cells(*m)[(row as int, col as int)],
            0 <= t <= row,
            forall|x: int| 0 <= x < t ==> grid_cells(*m)[(x, col as int)] < hp,
        decreases row - t,
    {
        if m.get(t, col) >= hp {
            return false;
        }
        t += 1;
    }
    true
}

fn visible_right(m: &Grid, row: usize, col: usize) -> (r: bool)
    requires
        grid_dims(*m).0 == grid_dims(*m).1,
        grid_in_range(grid_dims(*m), (row as int, col as int)),
    ensures
        r == vis_right(grid_cells(*m), grid_dims(*m).0, (row as int, col as int)),
{
    let hp = m.get(row, col);
    let size = m.rows();
    let mut c: usize = col + 1;
    while c < size
        invariant
            grid_dims(*m).0 == grid_dims(*m).1,
            grid_in_range(grid_dims(*m), (row as int, col as int)),
            hp == grid_cells(*m)[(row as int, col as int)],
            size == grid_dims(*m).0,
            col < c <= size,
            forall|t: int| col < t < c ==> grid_cells(*m)[(row as int, t)] < hp,
        decreases size - c,
    {
        if m.get(row, c) >= hp {
            return false;
        }
        c += 1;
    }
    true
}

fn visible_bottom(m: &Grid, row: usize, col: usize) -> (r: bool)
    requires
        grid_dims(*m).0 == grid_dims(*m).1,
        grid_in_range(grid_dims(*m), (row as int, col as int)),
    ensures
        r == vis_bottom(grid_cells(*m), grid_dims(*m).0, (row as int, col as int)),
{
    let hp = m.get(row, col);
    let size = m.rows();
    let mut t: usize = row + 1;
    while t < size
        invariant
            grid_dims(*m).0 == grid_dims(*m).1,
            grid_in_range(grid_dims(*m), (row as int, col as int)),
            hp == grid_cells(*m)[(row as int, col as int)],
            size == grid_dims(*m).0,
            row < t <= size,
            forall|x: int| row < x < t ==> grid_cells(*m)[(x, col as int)] < hp,
        decreases size - t,
    {
        if m.get(t, col) >= hp {
            return false;
        }
        t += 1;
    }
    true
}

/// Counts the trees visible from outside the grid: the whole border
/// plus every interior tree with a clear line to some edge.
pub fn count_visible_trees(input: &str) -> (r: u32)
    requires
        forest_ok(input.spec_bytes()),
        spec_lines(input.spec_bytes()).len() >= 2,
        count_visible_spec(
            forest_heights(spec_lines(input.spec_bytes())),
            spec_lines(input.spec_bytes()).len() as int,
        ) <= u32::MAX,
    ensures
        r == count_visible_spec(
            forest_heights(spec_lines(input.spec_bytes())),
            spec_lines(input.spec_bytes()).len() as int,
        ),
{
    let (size, m) = parse_tree_matrix(input);
    let ghost h = grid_cells(m);
    let ghost sz = size as int;
    proof {
        lemma_vis_count_bounds(h, sz, sz - 1);
    }
    let mut visible_count: u32 = {
        let border = size * 2 + (size - 2) * 2;
        proof {
            assert(size * 2 + (size - 2) * 2 <= u32::MAX);
        }
        (border) as u32
    };
    let mut row: usize = 1;
    while row + 1 < size
        invariant
            grid_dims(m).0 == sz,
            grid_dims(m).1 == sz,
            h == grid_cells(m),
            sz == size,
            size >= 2,
            1 <= row <= sz - 1,
            count_visible_spec(h, sz) <= u32::MAX,
            visible_count == sz * 2 + (sz - 2) * 2 + vis_count(h, sz, row as int),
            vis_count(h, sz, row as int) <= vis_count(h, sz, sz - 1),
        decreases size - row,
    {
        let mut col: usize = 1;
        while col + 1 < size
            invariant
                grid_dims(m).0 == sz,
                grid_dims(m).1 == sz,
                h == grid_cells(m),
                sz == size,
                size >= 2,
                1 <= row < sz - 1,
                1 <= col <= sz - 1,
                count_visible_spec(h, sz) <= u32::MAX,
                visible_count == sz * 2 + (sz - 2) * 2 + vis_count(h, sz, row as int)
                    + vis_row_count(h, sz, row as int, col as int),
                vis_count(h, sz, row as int) + vis_row_count(h, sz, row as int, col as int)
                    <= vis_count(h, sz, sz - 1),
            decreases size - col,
        {
            let v = visible_left(&m, row, col) || visible_right(&m, row, col) || visible_bottom(
                &m,
                row,
                col,
            ) || visible_top(&m, row, col);
            proof {
                assert(v == visible(h, sz, (row as int, col as int)));
                lemma_vis_counts_step(h, sz, row as int, col as int);
            }
            if v {
                visible_count += 1;
            }
            col += 1;
        }
        proof {
            lemma_vis_count_unfold(h, sz, row + 1);
            if row + 1 < sz - 1 {
                lemma_vis_count_mono_row(h, sz, row + 1);
                lemma_vis_row_nonneg(h, sz, row + 1, sz - 1);
            }
        }
        row += 1;
    }
    visible_count
}

proof fn lemma_vis_counts_step(h: Map<(int, int), u32>, sz: int, r: int, c: int)
    requires
        1 <= r < sz - 1,
        1 <= c < sz - 1,
        vis_count(h, sz, r) + vis_row_count(h, sz, r, c) <= vis_count(h, sz, sz - 1),
    ensures
        vis_count(h, sz, r) + vis_row_count(h, sz, r, c + 1) <= vis_count(h, sz, sz - 1),
        vis_row_count(h, sz, r, c + 1) == vis_row_count(h, sz, r, c) + (if visible(
            h,
            sz,
            (r, c),
        ) {
            1int
        } else {
            0int
        }),
{
    lemma_vis_row_mono(h, sz, r, c + 1, sz - 1);
    lemma_vis_count_mono_row(h, sz, r);
}

proof fn lemma_vis_row_mono(h: Map<(int, int), u32>, sz: int, r: int, a: int, b: int)
    requires
        a <= b,
    ensures
        vis_row_count(h, sz, r, a) <= vis_row_count(h, sz, r, b),
    decreases b - a,
{
    if a < b {
        lemma_vis_row_mono(h, sz, r, a, b - 1);
    }
}

proof fn lemma_vis_count_mono_row(h: Map<(int, int), u32>, sz: int, r: int)
    requires
        1 <= r < sz - 1,
    ensures
        vis_count(h, sz, r) + vis_row_count(h, sz, r, sz - 1) <= vis_count(h, sz, sz - 1),
    decreases sz - r,
{
    if r + 1 == sz - 1 {
    } else {
        lemma_vis_count_mono_row(h, sz, r + 1);
        lemma_vis_row_nonneg(h, sz, r + 1, sz - 1);
    }
}

proof fn lemma_vis_row_nonneg(h: Map<(int, int), u32>, sz: int, r: int, c: int)
    ensures
        vis_row_count(h, sz, r, c) >= 0,
    decreases c,
{
    if c > 1 {
        lemma_vis_row_nonneg(h, sz, r, c - 1);
    }
}

proof fn lemma_vis_count_bounds(h: Map<(int, int), u32>, sz: int, r: int)
    ensures
        vis_count(h, sz, r) >= 0,
    decreases r,
{
    if r > 1 {
        lemma_vis_count_bounds(h, sz, r - 1);
        lemma_vis_row_nonneg(h, sz, r - 1, sz - 1);
    }
}

proof fn lemma_vis_count_unfold(h: Map<(int, int), u32>, sz: int, r: int)
    requires
        r >= 2,
    ensures
        vis_count(h, sz, r) == vis_count(h, sz, r - 1) + vis_row_count(h, sz, r - 1, sz - 1),
{
}

/// Trees seen looking left from `p`, scanning from column `c` down:
/// each tree counts, and a tree at least as tall stops the view.
pub open spec fn scan_left(h: Map<(int, int), u32>, p: (int, int), c: int) -> int
    decreases c + 1,
{
    if c < 0 {
        0
    } else if h[(p.0, c)] >= h[p] {
        1
    } else {
        1 + scan_left(h, p, c - 1)
    }
}

/// Trees seen looking right from `p`, scanning from column `c` up.
pub open spec fn scan_right(h: Map<(int, int), u32>, sz: int, p: (int, int), c: int) -> int
    decreases sz - c,
{
    if c >= sz {
        0
    } else if h[(p.0, c)] >= h[p] {
        1
    } else {
        1 + scan_right(h, sz, p, c + 1)
    }
}

/// Trees seen looking up from `p`, scanning from row `r` down.
pub open spec fn scan_top(h: Map<(int, int), u32>, p: (int, int), r: int) -> int
    decreases r + 1,
{
    if r < 0 {
        0
    } else if h[(r, p.1)] >= h[p] {
        1
    } else {
        1 + scan_top(h, p, r - 1)
    }
}

/// Trees seen looking down from `p`, scanning from row `r` up.
pub open spec fn scan_bottom(h: Map<(int, int), u32>, sz: int, p: (int, int), r: int) -> int
    decreases sz - r,
{
    if r >= sz {
        0
    } else if h[(r, p.1)] >= h[p] {
        1
    } else {
        1 + scan_bottom(h, sz, p, r + 1)
    }
}

/// The scenic score of `p`: the product of its four viewing distances.
pub open spec fn scenic_spec(h: Map<(int, int), u32>, sz: int, p: (int, int)) -> int {
    scan_top(h, p, p.0 - 1) * scan_bottom(h, sz, p, p.0 + 1) * scan_left(h, p, p.1 - 1)
        * scan_right(h, sz, p, p.1 + 1)
}

/// The larger of two values.
pub open spec fn fmax2(a: int, b: int) -> int {
    if a >= b {
        a
    } else {
        b
    }
}

/// Largest scenic score of row `r` among columns [1, c).
pub open spec fn row_max_scenic(h: Map<(int, int), u32>, sz: int, r: int, c: int) -> int
    decreases c,
{
    if c <= 1 {
        0
    } else {
        fmax2(row_max_scenic(h, sz, r, c - 1), scenic_spec(h, sz, (r, c - 1)))
    }
}

/// Largest scenic score among rows [1, r).
pub open spec fn max_scenic(h: Map<(int, int), u32>, sz: int, r: int) -> int
    decreases r,
{
    if r <= 1 {
        0
    } else {
        fmax2(max_scenic(h, sz, r - 1), row_max_scenic(h, sz, r - 1, sz))
    }
}

/// The scenic score of `position`: how many trees it sees in each of
/// the four directions, multiplied.
pub fn compute_scenic_score(m: &Grid, position: (usize, usize)) -> (r: u32)
    requires
        grid_dims(*m).0 == grid_dims(*m).1,
        grid_dims(*m).0 <= 255,
        grid_in_range(grid_dims(*m), (position.0 as int, position.1 as int)),
    ensures
        r == scenic_spec(
            grid_cells(*m),
            grid_dims(*m).0,
            (position.0 as int, position.1 as int),
        ),
{
    let (row, col) = position;
    let ghost h = grid_cells(*m);
    let ghost sz = grid_dims(*m).0;
    let ghost p = (row as int, col as int);
    let size = m.rows();
    let hp = m.get(row, col);
    let mut trees_left: u32 = 0;
    let mut c: usize = col;
    while c > 0
        invariant_except_break
            h == grid_cells(*m),
            sz == grid_dims(*m).0,
            sz == grid_dims(*m).1,
            p == (row as int, col as int),
            grid_in_range(grid_dims(*m), p),
            sz <= 255,
            hp == h[p],
            0 <= c <= col,
            trees_left == col - c,
            scan_left(h, p, col - 1) == trees_left + scan_left(h, p, c - 1),
        ensures
            h == grid_cells(*m),
            sz == grid_dims(*m).0,
            sz == grid_dims(*m).1,
            p == (row as int, col as int),
            grid_in_range(grid_dims(*m), p),
            sz <= 255,
            hp == h[p],
            trees_left <= col,
            trees_left == scan_left(h, p, col - 1),
        decreases c,
    {
        c -= 1;
        trees_left += 1;
        if m.get(row, c) >= hp {
            proof {
                assert(scan_left(h, p, c as int) == 1);
            }
            break ;
        }
        proof {
            assert(scan_left(h, p, c as int) == 1 + scan_left(h, p, c - 1));
        }
    }
    let mut trees_top: u32 = 0;
    let mut t: usize = row;
    while t > 0
        invariant_except_break
            h == grid_cells(*m),
            sz == grid_dims(*m).0,
            sz == grid_dims(*m).1,
            p == (row as int, col as int),
            grid_in_range(grid_dims(*m), p),
            sz <= 255,
            hp == h[p],
            0 <= t <= row,
            trees_top == row - t,
            scan_top(h, p, row - 1) == trees_top + scan_top(h, p, t - 1),
        ensures
            h == grid_cells(*m),
            sz == grid_dims(*m).0,
            sz == grid_dims(*m).1,
            p == (row as int, col as int),
            grid_in_range(grid_dims(*m), p),
            sz <= 255,
            hp == h[p],
            trees_top <= row,
            trees_top == scan_top(h, p, row - 1),
        decreases t,
    {
        t -= 1;
        trees_top += 1;
        if m.get(t, col) >= hp {
            proof {
                assert(scan_top(h, p, t as int) == 1);
            }
            break ;
        }
        proof {
            assert(scan_top(h, p, t as int) == 1 + scan_top(h, p, t - 1));
        }
    }
    let mut trees_right: u32 = 0;
    let mut c2: usize = col;
    while c2 + 1 < size
        invariant_except_break
            h == grid_cells(*m),
            sz == grid_dims(*m).0,
            sz == grid_dims(*m).1,
            size == sz,
            p == (row as int, col as int),
            grid_in_range(grid_dims(*m), p),
            sz <= 255,
            hp == h[p],
            col <= c2 <= sz - 1,
            trees_right == c2 - col,
            scan_right(h, sz, p, col + 1) == trees_right + scan_right(h, sz, p, c2 + 1),
        ensures
            h == grid_cells(*m),
            sz == grid_dims(*m).0,
            sz == grid_dims(*m).1,
            size == sz,
            p == (row as int, col as int),
            grid_in_range(grid_dims(*m), p),
            sz <= 255,
            hp == h[p],
            trees_right <= sz - 1 - col,
            trees_right == scan_right(h, sz, p, col + 1),
        decreases size - c2,
    {
        c2 += 1;
        trees_right += 1;
        if m.get(row, c2) >= hp {
            proof {
                assert(scan_right(h, sz, p, c2 as int) == 1);
            }
            break ;
        }
        proof {
            assert(scan_right(h, sz, p, c2 as int) == 1 + scan_right(h, sz, p, c2 + 1));
        }
    }
    let mut trees_bottom: u32 = 0;
    let mut t2: usize = row;
    while t2 + 1 < size
        invariant_except_break
            h == grid_cells(*m),
            sz == grid_dims(*m).0,
            sz == grid_dims(*m).1,
            size == sz,
            p == (row as int, col as int),
            grid_in_range(grid_dims(*m), p),
            sz <= 255,
            hp == h[p],
            row <= t2 <= sz - 1,
            trees_bottom == t2 - row,
            scan_bottom(h, sz, p, row + 1) == trees_bottom + scan_bottom(h, sz, p, t2 + 1),
        ensures
            h == grid_cells(*m),
            sz == grid_dims(*m).0,
            sz == grid_dims(*m).1,
            size == sz,
            p == (row as int, col as int),
            grid_in_range(grid_dims(*m), p),
            sz <= 255,
            hp == h[p],
            trees_bottom <= sz - 1 - row,
            trees_bottom == scan_bottom(h, sz, p, row + 1),
        decreases size - t2,
    {
        t2 += 1;
        trees_bottom += 1;
        if m.get(t2, col) >= hp {
            proof {
                assert(scan_bottom(h, sz, p, t2 as int) == 1);
            }
            break ;
        }
        proof {
            assert(scan_bottom(h, sz, p, t2 as int) == 1 + scan_bottom(h, sz, p, t2 + 1));
        }
    }
    proof {
        assert(trees_top * trees_bottom <= 65025 && trees_top * trees_bottom * trees_left
            <= 16581375 && trees_top * trees_bottom * trees_left * trees_right
            <= 4228250625) by (nonlinear_arith)
            requires
                0 <= trees_top <= 255,
                0 <= trees_bottom <= 255,
                0 <= trees_left <= 255,
                0 <= trees_right <= 255,
        ;
    }
    trees_top * trees_bottom * trees_left * trees_right
}

/// The largest scenic score over the grid.
pub fn highest_scenic_score(input: &str) -> (r: u32)
    requires
        forest_ok(input.spec_bytes()),
        spec_lines(input.spec_bytes()).len() <= 255,
    ensures
        r == max_scenic(
            forest_heights(spec_lines(input.spec_bytes())),
            spec_lines(input.spec_bytes()).len() as int,
            spec_lines(input.spec_bytes()).len() as int,
        ),
{
    let (size, m) = parse_tree_matrix(input);
    let ghost h = grid_cells(m);
    let ghost sz = size as int;
    let mut score: u32 = 0;
    let mut row: usize = 1;
    while row < size
        invariant
            grid_dims(m).0 == sz,
            grid_dims(m).1 == sz,
            h == grid_cells(m),
            sz == size,
            1 <= sz <= 255,
            1 <= row <= fmax2(sz, 1),
            row <= sz || row == 1,
            score == max_scenic(h, sz, row as int),
        decreases size - row,
    {
        let mut col: usize = 1;
        while col < size
            invariant
                grid_dims(m).0 == sz,
                grid_dims(m).1 == sz,
                h == grid_cells(m),
                sz == size,
                1 <= sz <= 255,
                1 <= row < sz,
                1 <= col <= sz,
                score == fmax2(max_scenic(h, sz, row as int), row_max_scenic(h, sz, row as int, col as int)),
            decreases size - col,
        {
            let sc = compute_scenic_score(&m, (row, col));
            if sc > score {
                score = sc;
            }
            col += 1;
        }
        row += 1;
    }
    score
}

} // verus!
