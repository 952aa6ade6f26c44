//! The dense matrix type: a flat vector of scalars, a logical row and column
//! count, and a layout tag saying whether the flat storage is row-major or
//! column-major.  Every element access goes through one offset computation
//! that branches on the tag, so all higher operations are layout-transparent.

use vstd::prelude::*;
use vstd::arithmetic::div_mod::lemma_fundamental_div_mod;
use vstd::arithmetic::div_mod::lemma_fundamental_div_mod_converse_div;
use vstd::arithmetic::div_mod::lemma_fundamental_div_mod_converse_mod;
use vstd::arithmetic::div_mod::lemma_mod_bound;
use vstd::arithmetic::div_mod::lemma_div_pos_is_pos;
use crate::fixed::Fixed;

verus! {

broadcast use vstd::arithmetic::mul::lemma_mul_is_commutative;

/// Physical layout of the flat storage: row-major or column-major.
#[derive(Debug, Clone, Copy, PartialEq, Eq, Structural)]
pub enum Shape {
    Row,
    Col,
}

impl Shape {
    /// The opposite layout tag.
    pub open spec fn flipped(self) -> Shape {
        match self {
            Shape::Row => Shape::Col,
            Shape::Col => Shape::Row,
        }
    }
}

/// The failure conditions of matrix operations.  Each is immediate and local
/// to the call: nothing is clamped, truncated or broadcast.
#[derive(Debug, Clone, Copy, PartialEq, Eq, Structural)]
pub enum MatError {
    /// Row or column counts incompatible for a binary operation.
    DimensionMismatch,
    /// A coordinate outside `[0, row) x [0, col)`.
    IndexOutOfBounds,
    /// A range whose end lies before its start.
    InvalidRange,
}

/// A dense matrix: `data` holds `row * col` scalars in the order given by
/// `shape`.
#[derive(Debug)]
pub struct Matrix {
    pub data: Vec<Fixed>,
    pub row: usize,
    pub col: usize,
    pub shape: Shape,
}

impl Matrix {
    /// Structural invariant: the flat storage holds exactly one scalar per
    /// logical position.
    pub open spec fn wf(self) -> bool {
        self.data@.len() == self.row * self.col
    }

    /// Whether `(i, j)` is a valid logical coordinate.
    pub open spec fn in_bounds(self, i: int, j: int) -> bool {
        0 <= i < self.row && 0 <= j < self.col
    }

    /// The physical offset of logical coordinate `(i, j)` under the current
    /// layout tag.
    pub open spec fn offset(self, i: int, j: int) -> int {
        match self.shape {
            Shape::Row => i * (self.col as int) + j,
            Shape::Col => j * (self.row as int) + i,
        }
    }

    /// The mantissa of the logical entry at `(i, j)`: the mathematical value
    /// of the matrix is independent of the layout tag.
    pub open spec fn entry(self, i: int, j: int) -> int {
        self.data@[self.offset(i, j)].m as int
    }
}

/// `b` is `a` after one layout conversion: same logical content, opposite tag.
pub open spec fn converted(a: Matrix, b: Matrix) -> bool {
    &&& b.wf()
    &&& b.row == a.row
    &&& b.col == a.col
    &&& b.shape == a.shape.flipped()
    &&& forall|i: int, j: int| a.in_bounds(i, j) ==> b.entry(i, j) == a.entry(i, j)
}

/// For `0 <= q < n` and `0 <= r < d`, the index `q * d + r` lies in
/// `[0, n * d)` and decomposes back into `q` and `r` by division.
pub(crate) proof fn lemma_pair_index(q: int, r: int, d: int, n: int)
    requires
        0 <= q < n,
        0 <= r < d,
    ensures
        0 <= q * d + r < n * d,
        (q * d + r) / d == q,
        (q * d + r) % d == r,
{
    assert(0 <= q * d + r < n * d) by (nonlinear_arith)
        requires 0 <= q < n, 0 <= r < d;
    lemma_fundamental_div_mod_converse_div(q * d + r, d, q, r);
    lemma_fundamental_div_mod_converse_mod(q * d + r, d, q, r);
}

/// Every index `k` in `[0, n * d)` with `d > 0` decomposes as
/// `k == (k / d) * d + k % d` with the quotient below `n`.
pub(crate) proof fn lemma_index_decompose(k: int, d: int, n: int)
    requires
        d > 0,
        0 <= k < n * d,
    ensures
        0 <= k / d < n,
        0 <= k % d < d,
        k == (k / d) * d + k % d,
{
    lemma_fundamental_div_mod(k, d);
    lemma_mod_bound(k, d);
    lemma_div_pos_is_pos(k, d);
    if k / d >= n {
        assert(d * (k / d) >= d * n) by (nonlinear_arith)
            requires d > 0, k / d >= n;
        assert(false);
    }
}

/// A well-formed matrix's flat storage is determined by its dimensions, its
/// layout tag and its logical entries.
pub proof fn lemma_data_determined(a: Matrix, b: Matrix)
    requires
        a.wf(),
        b.wf(),
        a.row == b.row,
        a.col == b.col,
        a.shape == b.shape,
        forall|i: int, j: int| a.in_bounds(i, j) ==> a.entry(i, j) == b.entry(i, j),
    ensures
        a.data@ == b.data@,
{
    let rows = a.row as int;
    let cols = a.col as int;
    assert forall|k: int| 0 <= k < a.data@.len() implies a.data@[k] == b.data@[k] by {
        match a.shape {
            Shape::Row => {
                lemma_index_decompose(k, cols, rows);
                let i = k / cols;
                let j = k % cols;
                assert(a.offset(i, j) == k);
                assert(a.entry(i, j) == b.entry(i, j));
            },
            Shape::Col => {
                lemma_index_decompose(k, rows, cols);
                let j = k / rows;
                let i = k % rows;
                assert(a.offset(i, j) == k);
                assert(a.entry(i, j) == b.entry(i, j));
            },
        }
    }
    assert(a.data@ =~= b.data@);
}

/// Law: converting the layout twice reproduces the original matrix
/// bit-for-bit — the flat storage, not only the logical content, returns to
/// its original ordering.
pub proof fn lemma_change_shape_involutive(a: Matrix, b: Matrix, c: Matrix)
    requires
        a.wf(),
        converted(a, b),
        converted(b, c),
    ensures
        c.row == a.row,
        c.col == a.col,
        c.shape == a.shape,
        c.data@ == a.data@,
{
    assert(forall|i: int, j: int| a.in_bounds(i, j) ==> c.entry(i, j) == a.entry(i, j));
    lemma_data_determined(a, c);
}

/// Direct assembly of a matrix from its canonical representation: the flat
/// scalar sequence, the two counts, and the layout tag.
pub fn matrix(data: Vec<Fixed>, r: usize, c: usize, shape: Shape) -> (m: Matrix)
    requires
        data@.len() == r * c,
    ensures
        m.wf(),
        m.data@ == data@,
        m.row == r,
        m.col == c,
        m.shape == shape,
{
    Matrix { data, row: r, col: c, shape }
}

impl Matrix {
    /// Layout-transparent read; the coordinate must be in bounds.
    pub fn get(&self, i: usize, j: usize) -> (r: Fixed)
        requires
            self.wf(),
            self.in_bounds(i as int, j as int),
        ensures
            r.m == self.entry(i as int, j as int),
    {
        proof {
            vstd::std_specs::vec::axiom_spec_len(&self.data);
            lemma_pair_index(i as int, j as int, self.col as int, self.row as int);
            lemma_pair_index(j as int, i as int, self.row as int, self.col as int);
        }
        let off: usize = match self.shape {
            Shape::Row => i * self.col + j,
            Shape::Col => j * self.row + i,
        };
        self.data[off]
    }

    /// Layout-transparent write; the coordinate must be in bounds.  Every
    /// other entry is unchanged.
    pub fn put(&mut self, i: usize, j: usize, v: Fixed)
        requires
            old(self).wf(),
            old(self).in_bounds(i as int, j as int),
        ensures
            final(self).wf(),
            final(self).row == old(self).row,
            final(self).col == old(self).col,
            final(self).shape == old(self).shape,
            final(self).entry(i as int, j as int) == v.m,
            forall|a: int, b: int|
                old(self).in_bounds(a, b) && !(a == i && b == j)
                    ==> final(self).entry(a, b) == old(self).entry(a, b),
    {
        proof {
            vstd::std_specs::vec::axiom_spec_len(&self.data);
            lemma_pair_index(i as int, j as int, self.col as int, self.row as int);
            lemma_pair_index(j as int, i as int, self.row as int, self.col as int);
        }
        let off: usize = match self.shape {
            Shape::Row => i * self.col + j,
            Shape::Col => j * self.row + i,
        };
        self.data[off] = v;
        proof {
            assert forall|a: int, b: int|
                old(self).in_bounds(a, b) && !(a == i && b == j)
                    implies final(self).entry(a, b) == old(self).entry(a, b) by {
                match old(self).shape {
                    Shape::Row => {
                        lemma_pair_index(a, b, old(self).col as int, old(self).row as int);
                        lemma_pair_index(i as int, j as int, old(self).col as int, old(self).row as int);
                    },
                    Shape::Col => {
                        lemma_pair_index(b, a, old(self).row as int, old(self).col as int);
                        lemma_pair_index(j as int, i as int, old(self).row as int, old(self).col as int);
                    },
                }
            }
        }
    }

    /// Indexed read with an explicit bounds check: `Ok` exactly on valid
    /// coordinates, `Err(IndexOutOfBounds)` otherwise.
    pub fn at(&self, i: usize, j: usize) -> (r: Result<Fixed, MatError>)
        requires
            self.wf(),
        ensures
            r is Ok <==> self.in_bounds(i as int, j as int),
            (r matches Ok(v) ==> v.m == self.entry(i as int, j as int)),
            (r matches Err(e) ==> e == MatError::IndexOutOfBounds),
    {
        if i < self.row && j < self.col {
            Ok(self.get(i, j))
        } else {
            Err(MatError::IndexOutOfBounds)
        }
    }

    /// Indexed write with an explicit bounds check: on an out-of-range
    /// coordinate nothing is written and `Err(IndexOutOfBounds)` is returned.
    pub fn set(&mut self, i: usize, j: usize, v: Fixed) -> (r: Result<(), MatError>)
        requires
            old(self).wf(),
        ensures
            r is Ok <==> old(self).in_bounds(i as int, j as int),
            (r matches Err(e) ==> e == MatError::IndexOutOfBounds && *final(self) == *old(self)),
            r is Ok ==> {
                &&& final(self).wf()
                &&& final(self).row == old(self).row
                &&& final(self).col == old(self).col
                &&& final(self).shape == old(self).shape
                &&& final(self).entry(i as int, j as int) == v.m
                &&& forall|a: int, b: int|
                    old(self).in_bounds(a, b) && !(a == i && b == j)
                        ==> final(self).entry(a, b) == old(self).entry(a, b)
            },
    {
        if i < self.row && j < self.col {
            self.put(i, j, v);
            Ok(())
        } else {
            Err(MatError::IndexOutOfBounds)
        }
    }

    /// Full materialization into the opposite layout: the logical content is
    /// unchanged (law: the logical value survives conversion), the tag flips,
    /// and the flat storage is re-permuted accordingly.
    #[verifier::loop_isolation(false)]
    pub fn change_shape(&self) -> (r: Matrix)
        requires
            self.wf(),
        ensures
            converted(*self, r),
    {
        let rows = self.row;
        let cols = self.col;
        let mut out: Vec<Fixed> = Vec::new();
        match self.shape {
            Shape::Row => {
                let mut j: usize = 0;
                while j < cols
                    invariant
                        j <= cols,
                        out@.len() == j * rows,
                        forall|jj: int, ii: int|
                            0 <= jj < j && 0 <= ii < rows
                                ==> out@[jj * (rows as int) + ii].m == self.entry(ii, jj),
                    decreases cols - j,
                {
                    let mut i: usize = 0;
                    while i < rows
                        invariant
                            i <= rows,
                            j < cols,
                            out@.len() == j * rows + i,
                            forall|jj: int, ii: int|
                                0 <= jj < j && 0 <= ii < rows
                                    ==> out@[jj * (rows as int) + ii].m == self.entry(ii, jj),
                            forall|ii: int|
                                0 <= ii < i
                                    ==> out@[(j as int) * (rows as int) + ii].m == self.entry(ii, j as int),
                        decreases rows - i,
                    {
                        let v = self.get(i, j);
                        out.push(v);
                        proof {
                            assert forall|jj: int, ii: int|
                                0 <= jj < j && 0 <= ii < rows
                                    implies out@[jj * (rows as int) + ii].m == self.entry(ii, jj) by {
                                lemma_pair_index(jj, ii, rows as int, cols as int);
                                assert(jj * (rows as int) + ii < j * (rows as int)) by (nonlinear_arith)
                                    requires 0 <= jj < j as int, 0 <= ii < rows as int;
                            }
                        }
                        i += 1;
                    }
                    j += 1;
                    proof {
                        assert(j * rows == (j - 1) * rows + rows) by (nonlinear_arith);
                    }
                }
                let r = Matrix { data: out, row: rows, col: cols, shape: Shape::Col };
                proof {
                    assert forall|i: int, j: int| self.in_bounds(i, j)
                        implies r.entry(i, j) == self.entry(i, j) by {
                        lemma_pair_index(j, i, rows as int, cols as int);
                    }
                }
                r
            },
            Shape::Col => {
                let mut i: usize = 0;
                while i < rows
                    invariant
                        i <= rows,
                        out@.len() == i * cols,
                        forall|ii: int, jj: int|
                            0 <= ii < i && 0 <= jj < cols
                                ==> out@[ii * (cols as int) + jj].m == self.entry(ii, jj),
                    decreases rows - i,
                {
                    let mut j: usize = 0;
                    while j < cols
                        invariant
                            j <= cols,
                            i < rows,
                            out@.len() == i * cols + j,
                            forall|ii: int, jj: int|
                                0 <= ii < i && 0 <= jj < cols
                                    ==> out@[ii * (cols as int) + jj].m == self.entry(ii, jj),
                            forall|jj: int|
                                0 <= jj < j
                                    ==> out@[(i as int) * (cols as int) + jj].m == self.entry(i as int, jj),
                        decreases cols - j,
                    {
                        let v = self.get(i, j);
                        out.push(v);
                        proof {
                            assert forall|ii: int, jj: int|
                                0 <= ii < i && 0 <= jj < cols
                                    implies out@[ii * (cols as int) + jj].m == self.entry(ii, jj) by {
                                lemma_pair_index(ii, jj, cols as int, rows as int);
                                assert(ii * (cols as int) + jj < i * (cols as int)) by (nonlinear_arith)
                                    requires 0 <= ii < i as int, 0 <= jj < cols as int;
                            }
                        }
                        j += 1;
                    }
                    i += 1;
                    proof {
                        assert(i * cols == (i - 1) * cols + cols) by (nonlinear_arith);
                    }
                }
                let r = Matrix { data: out, row: rows, col: cols, shape: Shape::Row };
                proof {
                    assert forall|i: int, j: int| self.in_bounds(i, j)
                        implies r.entry(i, j) == self.entry(i, j) by {
                        lemma_pair_index(i, j, cols as int, rows as int);
                    }
                }
                r
            },
        }
    }
}

} // verus!
