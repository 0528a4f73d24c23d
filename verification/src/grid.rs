//! Trusted face of the dense matrix type of the `matrix` crate.
//!
//! The puzzles store rectangular grids of numbers in
//! `matrix::format::Conventional<u32>`. Verus refuses a declaration of
//! that type (its `Element` bound is a trait of the outside crate), so
//! the matrix lives in the private field of the opaque struct below.
//! `grid_cells` names what the matrix holds, as a map from
//! (row, column) to the stored value, and `grid_dims` names its
//! dimensions. Each wrapper states over those two names what the
//! crate's source shows of one operation.
use vstd::prelude::*;

verus! {

/// A rows x columns grid of `u32` values, dense storage.
#[verifier::external_body]
pub struct Grid {
    inner: matrix::format::Conventional<u32>,
}

/// What the grid holds: the value at each (row, column) position.
pub uninterp spec fn grid_cells(m: Grid) -> Map<(int, int), u32>;

/// The (rows, columns) pair the grid was made with.
pub uninterp spec fn grid_dims(m: Grid) -> (int, int);

/// The position (r, c) lies inside a grid of dimensions `dims`.
pub open spec fn grid_in_range(dims: (int, int), p: (int, int)) -> bool {
    0 <= p.0 < dims.0 && 0 <= p.1 < dims.1
}

/// The map of a grid whose cells all hold `v`.
pub open spec fn grid_const(dims: (int, int), v: u32) -> Map<(int, int), u32> {
    Map::new(|p: (int, int)| grid_in_range(dims, p), |p: (int, int)| v)
}

impl Grid {
    /// Relies on `Conventional::new`, which fills a rows x columns matrix
    /// with the zero element; for `u32` that element is 0.
    #[verifier::external_body]
    pub fn new(rows: usize, cols: usize) -> (m: Grid)
        requires
            rows * cols <= usize::MAX,
        ensures
            grid_dims(m) == (rows as int, cols as int),
            grid_cells(m) == grid_const((rows as int, cols as int), 0),
    {
        Grid { inner: matrix::format::Conventional::new((rows, cols)) }
    }

    /// Relies on `Conventional`'s `Index` impl: position (r, c) reads the
    /// value stored in column-major order at c * rows + r.
    #[verifier::external_body]
    pub fn get(&self, r: usize, c: usize) -> (v: u32)
        requires
            grid_in_range(grid_dims(*self), (r as int, c as int)),
        ensures
            v == grid_cells(*self)[(r as int, c as int)],
    {
        self.inner[(r, c)]
    }

    /// Relies on `Conventional`'s `IndexMut` impl, which writes the same
    /// column-major slot that `Index` reads.
    #[verifier::external_body]
    pub fn set(&mut self, r: usize, c: usize, v: u32)
        requires
            grid_in_range(grid_dims(*old(self)), (r as int, c as int)),
        ensures
            grid_dims(*final(self)) == grid_dims(*old(self)),
            grid_cells(*final(self)) == grid_cells(*old(self)).insert((r as int, c as int), v),
    {
        self.inner[(r, c)] = v;
    }

    /// Relies on the public `rows` field of `Conventional`.
    #[verifier::external_body]
    pub fn rows(&self) -> (r: usize)
        ensures
            r == grid_dims(*self).0,
    {
        self.inner.rows
    }

    /// Relies on the public `columns` field of `Conventional`.
    #[verifier::external_body]
    pub fn cols(&self) -> (c: usize)
        ensures
            c == grid_dims(*self).1,
    {
        self.inner.columns
    }

    /// Relies on `Conventional`'s `DerefMut` impl, which exposes the
    /// backing slice of all rows x columns values, and on `slice::fill`.
    #[verifier::external_body]
    pub fn fill(&mut self, v: u32)
        ensures
            grid_dims(*final(self)) == grid_dims(*old(self)),
            grid_cells(*final(self)) == grid_const(grid_dims(*old(self)), v),
    {
        self.inner.fill(v);
    }
}

} // verus!
