//! The algebraic trait hierarchy: vector spaces, norms, inner products,
//! linear maps, and vector and matrix products.  Each trait states its
//! methods' behaviour over the implementor's logical contents (`vals`, a
//! sequence of scalar mantissas), so the scalar type, plain vectors and the
//! matrix type all meet one set of contracts.

use vstd::prelude::*;
use crate::fixed::Fixed;
use crate::fixed::SCALE;
use crate::fixed::fxmul;
use crate::fixed::fxdiv;
use crate::matrix::Matrix;
use crate::matrix::Shape;
use crate::matrix::matrix;
use crate::matrix::lemma_pair_index;
use crate::matrix::lemma_index_decompose;

verus! {

broadcast use vstd::arithmetic::mul::lemma_mul_is_commutative;

/// Mathematical vector: a space closed under addition, subtraction and
/// scalar multiplication.  The operations act element-wise on the logical
/// contents.
pub trait Vector: Sized {
    type Scalar;

    /// The logical contents: one mantissa per element.
    spec fn vals(&self) -> Seq<int>;

    /// The mantissa a scalar of this space stands for.
    spec fn scalar_val(s: &Self::Scalar) -> int;

    /// When the element-wise sum is defined: operands compatible, results in
    /// machine range.
    spec fn add_req(&self, rhs: &Self) -> bool;

    /// When the element-wise difference is defined.
    spec fn sub_req(&self, rhs: &Self) -> bool;

    /// When scaling is defined: every product in machine range.
    spec fn scale_req(&self, s: &Self::Scalar) -> bool;

    fn add_vec(&self, rhs: &Self) -> (r: Self)
        requires
            self.add_req(rhs),
        ensures
            r.vals().len() == self.vals().len(),
            forall|k: int| 0 <= k < self.vals().len()
                ==> r.vals()[k] == self.vals()[k] + rhs.vals()[k],
    ;

    fn sub_vec(&self, rhs: &Self) -> (r: Self)
        requires
            self.sub_req(rhs),
        ensures
            r.vals().len() == self.vals().len(),
            forall|k: int| 0 <= k < self.vals().len()
                ==> r.vals()[k] == self.vals()[k] - rhs.vals()[k],
    ;

    fn mul_scalar(&self, rhs: Self::Scalar) -> (r: Self)
        requires
            self.scale_req(&rhs),
        ensures
            r.vals().len() == self.vals().len(),
            forall|k: int| 0 <= k < self.vals().len()
                ==> r.vals()[k] == fxmul(self.vals()[k], Self::scalar_val(&rhs)),
    ;
}

/// Kinds of vector and matrix norm.  `L1`, `L2`, `Lp`, `LInf` select vector
/// norms; `F` (Frobenius) and `Lpq` select matrix norms.
#[derive(Debug, Copy, Clone)]
pub enum Norm {
    L1,
    L2,
    Lp(Fixed),
    LInf,
    F,
    Lpq(Fixed, Fixed),
}

/// Normed vector: adds a norm and normalization.  Normalizing divides every
/// element by the norm, so the result has unit norm; a zero norm is excluded
/// by `normalize_req` — with exact scalars there is no non-finite sentinel to
/// hand back, so the division is refused outright.
pub trait Normed: Vector {
    type UnsignedScalar;

    /// The mantissa the unsigned scalar stands for.
    spec fn unsigned_val(u: &Self::UnsignedScalar) -> int;

    /// When the norm is defined (machine range of the intermediate sums).
    spec fn norm_req(&self, kind: Norm) -> bool;

    /// The mantissa of the norm of the requested kind.
    spec fn norm_spec(&self, kind: Norm) -> int;

    fn norm(&self, kind: Norm) -> (r: Self::UnsignedScalar)
        requires
            self.norm_req(kind),
        ensures
            Self::unsigned_val(&r) == self.norm_spec(kind),
    ;

    /// When normalization is defined: the norm is defined and nonzero.
    spec fn normalize_req(&self, kind: Norm) -> bool;

    fn normalize(&self, kind: Norm) -> (r: Self)
        requires
            self.normalize_req(kind),
        ensures
            r.vals().len() == self.vals().len(),
            forall|k: int| 0 <= k < self.vals().len()
                ==> r.vals()[k] == fxdiv(self.vals()[k], self.norm_spec(kind)),
    ;
}

/// Inner product vector space.
pub trait InnerProduct: Normed {
    /// When the inner product is defined (machine range).
    spec fn dot_req(&self, rhs: &Self) -> bool;

    /// The mantissa of the inner product.
    spec fn dot_spec(&self, rhs: &Self) -> int;

    fn dot(&self, rhs: &Self) -> (r: Self::Scalar)
        requires
            self.dot_req(rhs),
        ensures
            Self::scalar_val(&r) == self.dot_spec(rhs),
    ;
}

/// A linear map from the vector space `T` to the vector space `S`.
pub trait LinearOp<T: Vector, S: Vector> {
    /// When the application is defined.
    spec fn apply_req(&self, rhs: &T) -> bool;

    /// The logical contents of the image.
    spec fn apply_spec(&self, rhs: &T) -> Seq<int>;

    fn apply(&self, rhs: &T) -> (s: S)
        requires
            self.apply_req(rhs),
        ensures
            s.vals() == self.apply_spec(rhs),
    ;
}

/// Vector products: the three-dimensional cross product and the outer
/// product.  `cross` is defined for three-dimensional vectors only.
pub trait VectorProduct: Vector {
    /// When the cross product is defined: both operands three-dimensional,
    /// products in machine range.
    spec fn cross_req(&self, other: &Self) -> bool;

    /// The logical contents of the cross product.
    spec fn cross_spec(&self, other: &Self) -> Seq<int>;

    fn cross(&self, other: &Self) -> (r: Self)
        requires
            self.cross_req(other),
        ensures
            r.vals() == self.cross_spec(other),
    ;

    /// When the outer product is defined (machine range, size fits).
    spec fn outer_req(&self, other: &Self) -> bool;

    fn outer(&self, other: &Self) -> (m: Matrix)
        requires
            self.outer_req(other),
        ensures
            m.wf(),
            m.row == self.vals().len(),
            m.col == other.vals().len(),
            forall|i: int, j: int| m.in_bounds(i, j)
                ==> m.entry(i, j) == fxmul(self.vals()[i], other.vals()[j]),
    ;
}

/// Matrix products: Kronecker and Hadamard.  The Hadamard product requires
/// identical dimensions; the Kronecker product's dimensions are the products
/// of the operands' dimensions.
pub trait MatrixProduct: Sized {
    /// Logical row count.
    spec fn rows(&self) -> int;

    /// Logical column count.
    spec fn cols(&self) -> int;

    /// The mantissa of the logical entry at `(i, j)`.
    spec fn ent(&self, i: int, j: int) -> int;

    /// When the Kronecker product is defined (well-formed operands, machine
    /// range, size fits).
    spec fn kronecker_req(&self, other: &Self) -> bool;

    fn kronecker(&self, other: &Self) -> (m: Matrix)
        requires
            self.kronecker_req(other),
        ensures
            m.wf(),
            m.row == self.rows() * other.rows(),
            m.col == self.cols() * other.cols(),
            forall|i: int, j: int| m.in_bounds(i, j)
                ==> m.entry(i, j) == fxmul(
                    self.ent(i / other.rows(), j / other.cols()),
                    other.ent(i % other.rows(), j % other.cols()),
                ),
    ;

    /// When the Hadamard product is defined beyond the dimension equality
    /// (well-formed operands, machine range).
    spec fn hadamard_req(&self, other: &Self) -> bool;

    fn hadamard(&self, other: &Self) -> (m: Matrix)
        requires
            self.rows() == other.rows(),
            self.cols() == other.cols(),
            self.hadamard_req(other),
        ensures
            m.wf(),
            m.row == self.rows(),
            m.col == self.cols(),
            forall|i: int, j: int| m.in_bounds(i, j)
                ==> m.entry(i, j) == fxmul(self.ent(i, j), other.ent(i, j)),
    ;
}

/// The scalar as the degenerate one-dimensional vector space over itself.
impl Vector for Fixed {
    type Scalar = Fixed;

    open spec fn vals(&self) -> Seq<int> {
        seq![self.m as int]
    }

    open spec fn scalar_val(s: &Fixed) -> int {
        s.m as int
    }

    open spec fn add_req(&self, rhs: &Self) -> bool {
        i64::MIN <= self.m + rhs.m <= i64::MAX
    }

    open spec fn sub_req(&self, rhs: &Self) -> bool {
        i64::MIN <= self.m - rhs.m <= i64::MAX
    }

    open spec fn scale_req(&self, s: &Fixed) -> bool {
        -i64::MAX <= fxmul(self.m as int, s.m as int) <= i64::MAX
    }

    fn add_vec(&self, rhs: &Self) -> (r: Self) {
        self.add(rhs)
    }

    fn sub_vec(&self, rhs: &Self) -> (r: Self) {
        self.sub(rhs)
    }

    fn mul_scalar(&self, rhs: Fixed) -> (r: Self) {
        self.mul(&rhs)
    }
}

/// Every norm kind of a scalar degenerates to its absolute value, and
/// normalization to its sign.
impl Normed for Fixed {
    type UnsignedScalar = Fixed;

    open spec fn unsigned_val(u: &Fixed) -> int {
        u.m as int
    }

    open spec fn norm_req(&self, kind: Norm) -> bool {
        self.m != i64::MIN
    }

    open spec fn norm_spec(&self, kind: Norm) -> int {
        if self.m >= 0 {
            self.m as int
        } else {
            -(self.m as int)
        }
    }

    fn norm(&self, kind: Norm) -> (r: Fixed) {
        self.abs()
    }

    open spec fn normalize_req(&self, kind: Norm) -> bool {
        self.m != 0 && self.m != i64::MIN
    }

    fn normalize(&self, kind: Norm) -> (r: Fixed) {
        let n = self.abs();
        proof {
            lemma_fxdiv_by_abs(self.m as int);
        }
        self.div(&n)
    }
}

/// Dividing a nonzero mantissa by its own absolute value gives the unit
/// mantissa with the argument's sign.
proof fn lemma_fxdiv_by_abs(a: int)
    requires
        a != 0,
        -0x7fff_ffff_ffff_ffff <= a <= 0x7fff_ffff_ffff_ffff,
    ensures
        a > 0 ==> fxdiv(a, if a >= 0 { a } else { -a }) == SCALE as int,
        a < 0 ==> fxdiv(a, if a >= 0 { a } else { -a }) == -(SCALE as int),
{
    if a > 0 {
        vstd::arithmetic::div_mod::lemma_div_by_multiple(SCALE as int, a);
        assert(a * (SCALE as int) == (SCALE as int) * a);
    } else {
        let b = -a;
        vstd::arithmetic::div_mod::lemma_div_by_multiple(SCALE as int, b);
        vstd::arithmetic::mul::lemma_mul_unary_negation(b, SCALE as int);
        assert(a * (SCALE as int) == -(b * (SCALE as int)));
        assert(b * (SCALE as int) == (SCALE as int) * b);
    }
}

/// The degenerate inner product of two scalars: their product.
impl InnerProduct for Fixed {
    open spec fn dot_req(&self, rhs: &Self) -> bool {
        -i64::MAX <= fxmul(self.m as int, rhs.m as int) <= i64::MAX
    }

    open spec fn dot_spec(&self, rhs: &Self) -> int {
        fxmul(self.m as int, rhs.m as int)
    }

    fn dot(&self, rhs: &Self) -> (r: Fixed) {
        self.mul(rhs)
    }
}

/// A scalar as a linear map on the one-dimensional space: multiplication.
impl LinearOp<Fixed, Fixed> for Fixed {
    open spec fn apply_req(&self, rhs: &Fixed) -> bool {
        -i64::MAX <= fxmul(self.m as int, rhs.m as int) <= i64::MAX
    }

    open spec fn apply_spec(&self, rhs: &Fixed) -> Seq<int> {
        seq![fxmul(self.m as int, rhs.m as int)]
    }

    fn apply(&self, rhs: &Fixed) -> (s: Fixed) {
        let r = self.mul(rhs);
        proof {
            assert(r.vals() =~= self.apply_spec(rhs));
        }
        r
    }
}

/// A plain vector of scalars under element-wise operations.
impl Vector for Vec<Fixed> {
    type Scalar = Fixed;

    open spec fn vals(&self) -> Seq<int> {
        Seq::new(self@.len(), |k: int| self@[k].m as int)
    }

    open spec fn scalar_val(s: &Fixed) -> int {
        s.m as int
    }

    open spec fn add_req(&self, rhs: &Self) -> bool {
        &&& self@.len() == rhs@.len()
        &&& forall|k: int| 0 <= k < self@.len()
            ==> i64::MIN <= (#[trigger] self@[k]).m + rhs@[k].m <= i64::MAX
    }

    open spec fn sub_req(&self, rhs: &Self) -> bool {
        &&& self@.len() == rhs@.len()
        &&& forall|k: int| 0 <= k < self@.len()
            ==> i64::MIN <= (#[trigger] self@[k]).m - rhs@[k].m <= i64::MAX
    }

    open spec fn scale_req(&self, s: &Fixed) -> bool {
        forall|k: int| 0 <= k < self@.len()
            ==> -i64::MAX <= fxmul((#[trigger] self@[k]).m as int, s.m as int) <= i64::MAX
    }

    #[verifier::loop_isolation(false)]
    fn add_vec(&self, rhs: &Self) -> (r: Self) {
        let mut out: Vec<Fixed> = Vec::new();
        let mut k: usize = 0;
        while k < self.len()
            invariant
                k <= self@.len(),
                out@.len() == k,
                forall|x: int| 0 <= x < k ==> out@[x].m == self@[x].m + rhs@[x].m,
            decreases self@.len() - k,
        {
            out.push(self[k].add(&rhs[k]));
            k += 1;
        }
        out
    }

    #[verifier::loop_isolation(false)]
    fn sub_vec(&self, rhs: &Self) -> (r: Self) {
        let mut out: Vec<Fixed> = Vec::new();
        let mut k: usize = 0;
        while k < self.len()
            invariant
                k <= self@.len(),
                out@.len() == k,
                forall|x: int| 0 <= x < k ==> out@[x].m == self@[x].m - rhs@[x].m,
            decreases self@.len() - k,
        {
            out.push(self[k].sub(&rhs[k]));
            k += 1;
        }
        out
    }

    #[verifier::loop_isolation(false)]
    fn mul_scalar(&self, rhs: Fixed) -> (r: Self) {
        let mut out: Vec<Fixed> = Vec::new();
        let mut k: usize = 0;
        while k < self.len()
            invariant
                k <= self@.len(),
                out@.len() == k,
                forall|x: int| 0 <= x < k
                    ==> out@[x].m == fxmul(self@[x].m as int, rhs.m as int),
            decreases self@.len() - k,
        {
            out.push(self[k].mul(&rhs));
            k += 1;
        }
        out
    }
}

/// The cross and outer products of plain vectors; the cross product is
/// defined for three-dimensional vectors only.
impl VectorProduct for Vec<Fixed> {
    open spec fn cross_req(&self, other: &Self) -> bool {
        &&& self@.len() == 3
        &&& other@.len() == 3
        &&& forall|x: int, y: int| #![trigger self@[x], other@[y]] 0 <= x < 3 && 0 <= y < 3
            ==> -i64::MAX <= fxmul(self@[x].m as int, other@[y].m as int) <= i64::MAX
        &&& forall|x: int, y: int| #![trigger self@[x], other@[y]] 0 <= x < 3 && 0 <= y < 3
            ==> i64::MIN <= fxmul(self@[x].m as int, other@[y].m as int) - fxmul(
                self@[y].m as int,
                other@[x].m as int,
            ) <= i64::MAX
    }

    open spec fn cross_spec(&self, other: &Self) -> Seq<int> {
        let a = self.vals();
        let b = other.vals();
        seq![
            fxmul(a[1], b[2]) - fxmul(a[2], b[1]),
            fxmul(a[2], b[0]) - fxmul(a[0], b[2]),
            fxmul(a[0], b[1]) - fxmul(a[1], b[0]),
        ]
    }

    fn cross(&self, other: &Self) -> (r: Self) {
        let c0 = self[1].mul(&other[2]).sub(&self[2].mul(&other[1]));
        let c1 = self[2].mul(&other[0]).sub(&self[0].mul(&other[2]));
        let c2 = self[0].mul(&other[1]).sub(&self[1].mul(&other[0]));
        let mut out: Vec<Fixed> = Vec::new();
        out.push(c0);
        out.push(c1);
        out.push(c2);
        proof {
            assert(out.vals() =~= self.cross_spec(other));
        }
        out
    }

    open spec fn outer_req(&self, other: &Self) -> bool {
        &&& self@.len() * other@.len() <= usize::MAX
        &&& forall|x: int, y: int| #![trigger self@[x], other@[y]] 0 <= x < self@.len() && 0 <= y
            < other@.len() ==> -i64::MAX <= fxmul(self@[x].m as int, other@[y].m as int)
            <= i64::MAX
    }

    #[verifier::loop_isolation(false)]
    fn outer(&self, other: &Self) -> (m: Matrix) {
        let rows = self.len();
        let cols = other.len();
        let mut out: Vec<Fixed> = Vec::new();
        let mut i: usize = 0;
        while i < rows
            invariant
                i <= rows,
                out@.len() == i * cols,
                forall|ii: int, jj: int| 0 <= ii < i && 0 <= jj < cols
                    ==> out@[ii * (cols as int) + jj].m == fxmul(
                        self@[ii].m as int,
                        other@[jj].m as int,
                    ),
            decreases rows - i,
        {
            let mut j: usize = 0;
            while j < cols
                invariant
                    i < rows,
                    j <= cols,
                    out@.len() == i * cols + j,
                    forall|ii: int, jj: int| 0 <= ii < i && 0 <= jj < cols
                        ==> out@[ii * (cols as int) + jj].m == fxmul(
                            self@[ii].m as int,
                            other@[jj].m as int,
                        ),
                    forall|jj: int| 0 <= jj < j
                        ==> out@[(i as int) * (cols as int) + jj].m == fxmul(
                            self@[i as int].m as int,
                            other@[jj].m as int,
                        ),
                decreases cols - j,
            {
                out.push(self[i].mul(&other[j]));
                proof {
                    assert forall|ii: int, jj: int| 0 <= ii < i && 0 <= jj < cols
                        implies out@[ii * (cols as int) + jj].m == fxmul(
                            self@[ii].m as int,
                            other@[jj].m as int,
                        ) by {
                        lemma_pair_index(ii, jj, cols as int, rows as int);
                        assert(ii * (cols as int) + jj < i * (cols as int)) by (nonlinear_arith)
                            requires 0 <= ii < i as int, 0 <= jj < cols as int;
                    }
                }
                j += 1;
            }
            i += 1;
            proof {
                assert(i * cols == (i - 1) * cols + cols) by (nonlinear_arith);
            }
        }
        let m = matrix(out, rows, cols, Shape::Row);
        proof {
            assert forall|i2: int, j2: int| m.in_bounds(i2, j2)
                implies m.entry(i2, j2) == fxmul(self.vals()[i2], other.vals()[j2]) by {
                lemma_pair_index(i2, j2, cols as int, rows as int);
            }
        }
        m
    }
}

/// Matrices under element-wise addition, subtraction and scaling.  The
/// logical contents are the row-major flattening of the entries, so the
/// operations are independent of either operand's layout tag; the result is
/// assembled row-major.
impl Vector for Matrix {
    type Scalar = Fixed;

    open spec fn vals(&self) -> Seq<int> {
        Seq::new(
            (self.row * self.col) as nat,
            |k: int| self.entry(k / (self.col as int), k % (self.col as int)),
        )
    }

    open spec fn scalar_val(s: &Fixed) -> int {
        s.m as int
    }

    open spec fn add_req(&self, rhs: &Self) -> bool {
        &&& self.wf()
        &&& rhs.wf()
        &&& self.row == rhs.row
        &&& self.col == rhs.col
        &&& forall|i: int, j: int| #![trigger self.entry(i, j), rhs.entry(i, j)]
            self.in_bounds(i, j) ==> i64::MIN <= self.entry(i, j) + rhs.entry(i, j) <= i64::MAX
    }

    open spec fn sub_req(&self, rhs: &Self) -> bool {
        &&& self.wf()
        &&& rhs.wf()
        &&& self.row == rhs.row
        &&& self.col == rhs.col
        &&& forall|i: int, j: int| #![trigger self.entry(i, j), rhs.entry(i, j)]
            self.in_bounds(i, j) ==> i64::MIN <= self.entry(i, j) - rhs.entry(i, j) <= i64::MAX
    }

    open spec fn scale_req(&self, s: &Fixed) -> bool {
        &&& self.wf()
        &&& forall|i: int, j: int| #![trigger self.entry(i, j)]
            self.in_bounds(i, j) ==> -i64::MAX <= fxmul(self.entry(i, j), s.m as int) <= i64::MAX
    }

    #[verifier::loop_isolation(false)]
    fn add_vec(&self, rhs: &Self) -> (r: Self) {
        let rows = self.row;
        let cols = self.col;
        let mut out: Vec<Fixed> = Vec::new();
        let mut i: usize = 0;
        while i < rows
            invariant
                i <= rows,
                out@.len() == i * cols,
                forall|ii: int, jj: int| #![trigger out@[ii * (cols as int) + jj]]
                    0 <= ii < i && 0 <= jj < cols
                    ==> out@[ii * (cols as int) + jj].m == self.entry(ii, jj) + rhs.entry(ii, jj),
            decreases rows - i,
        {
            let mut j: usize = 0;
            while j < cols
                invariant
                    i < rows,
                    j <= cols,
                    out@.len() == i * cols + j,
                    forall|ii: int, jj: int| #![trigger out@[ii * (cols as int) + jj]]
                        0 <= ii < i && 0 <= jj < cols
                        ==> out@[ii * (cols as int) + jj].m == self.entry(ii, jj) + rhs.entry(
                            ii,
                            jj,
                        ),
                    forall|jj: int| #![trigger out@[(i as int) * (cols as int) + jj]]
                        0 <= jj < j
                        ==> out@[(i as int) * (cols as int) + jj].m == self.entry(i as int, jj)
                            + rhs.entry(i as int, jj),
                decreases cols - j,
            {
                let a = self.get(i, j);
                let b = rhs.get(i, j);
                proof {
                    assert(i64::MIN <= self.entry(i as int, j as int) + rhs.entry(
                        i as int,
                        j as int,
                    ) <= i64::MAX);
                }
                out.push(a.add(&b));
                proof {
                    assert forall|ii: int, jj: int| #![trigger out@[ii * (cols as int) + jj]]
                        0 <= ii < i && 0 <= jj < cols
                        implies out@[ii * (cols as int) + jj].m == self.entry(ii, jj) + rhs.entry(
                            ii,
                            jj,
                        ) by {
                        lemma_pair_index(ii, jj, cols as int, rows as int);
                        assert(ii * (cols as int) + jj < i * (cols as int)) by (nonlinear_arith)
                            requires 0 <= ii < i as int, 0 <= jj < cols as int;
                    }
                }
                j += 1;
            }
            i += 1;
            proof {
                assert(i * cols == (i - 1) * cols + cols) by (nonlinear_arith);
            }
        }
        let m = matrix(out, rows, cols, Shape::Row);
        proof {
            lemma_flat_sum(*self, rhs, m);
        }
        m
    }

    #[verifier::loop_isolation(false)]
    fn sub_vec(&self, rhs: &Self) -> (r: Self) {
        let rows = self.row;
        let cols = self.col;
        let mut out: Vec<Fixed> = Vec::new();
        let mut i: usize = 0;
        while i < rows
            invariant
                i <= rows,
                out@.len() == i * cols,
                forall|ii: int, jj: int| #![trigger out@[ii * (cols as int) + jj]]
                    0 <= ii < i && 0 <= jj < cols
                    ==> out@[ii * (cols as int) + jj].m == self.entry(ii, jj) - rhs.entry(ii, jj),
            decreases rows - i,
        {
            let mut j: usize = 0;
            while j < cols
                invariant
                    i < rows,
                    j <= cols,
                    out@.len() == i * cols + j,
                    forall|ii: int, jj: int| #![trigger out@[ii * (cols as int) + jj]]
                        0 <= ii < i && 0 <= jj < cols
                        ==> out@[ii * (cols as int) + jj].m == self.entry(ii, jj) - rhs.entry(
                            ii,
                            jj,
                        ),
                    forall|jj: int| #![trigger out@[(i as int) * (cols as int) + jj]]
                        0 <= jj < j
                        ==> out@[(i as int) * (cols as int) + jj].m == self.entry(i as int, jj)
                            - rhs.entry(i as int, jj),
                decreases cols - j,
            {
                let a = self.get(i, j);
                let b = rhs.get(i, j);
                proof {
                    assert(i64::MIN <= self.entry(i as int, j as int) - rhs.entry(
                        i as int,
                        j as int,
                    ) <= i64::MAX);
                }
                out.push(a.sub(&b));
                proof {
                    assert forall|ii: int, jj: int| #![trigger out@[ii * (cols as int) + jj]]
                        0 <= ii < i && 0 <= jj < cols
                        implies out@[ii * (cols as int) + jj].m == self.entry(ii, jj) - rhs.entry(
                            ii,
                            jj,
                        ) by {
                        lemma_pair_index(ii, jj, cols as int, rows as int);
                        assert(ii * (cols as int) + jj < i * (cols as int)) by (nonlinear_arith)
                            requires 0 <= ii < i as int, 0 <= jj < cols as int;
                    }
                }
                j += 1;
            }
            i += 1;
            proof {
                assert(i * cols == (i - 1) * cols + cols) by (nonlinear_arith);
            }
        }
        let m = matrix(out, rows, cols, Shape::Row);
        proof {
            lemma_flat_diff(*self, rhs, m);
        }
        m
    }

    #[verifier::loop_isolation(false)]
    fn mul_scalar(&self, rhs: Fixed) -> (r: Self) {
        let rows = self.row;
        let cols = self.col;
        let mut out: Vec<Fixed> = Vec::new();
        let mut i: usize = 0;
        while i < rows
            invariant
                i <= rows,
                out@.len() == i * cols,
                forall|ii: int, jj: int| #![trigger out@[ii * (cols as int) + jj]]
                    0 <= ii < i && 0 <= jj < cols
                    ==> out@[ii * (cols as int) + jj].m == fxmul(self.entry(ii, jj), rhs.m as int),
            decreases rows - i,
        {
            let mut j: usize = 0;
            while j < cols
                invariant
                    i < rows,
                    j <= cols,
                    out@.len() == i * cols + j,
                    forall|ii: int, jj: int| #![trigger out@[ii * (cols as int) + jj]]
                        0 <= ii < i && 0 <= jj < cols
                        ==> out@[ii * (cols as int) + jj].m == fxmul(
                            self.entry(ii, jj),
                            rhs.m as int,
                        ),
                    forall|jj: int| #![trigger out@[(i as int) * (cols as int) + jj]]
                        0 <= jj < j
                        ==> out@[(i as int) * (cols as int) + jj].m == fxmul(
                            self.entry(i as int, jj),
                            rhs.m as int,
                        ),
                decreases cols - j,
            {
                let a = self.get(i, j);
                proof {
                    assert(-i64::MAX <= fxmul(self.entry(i as int, j as int), rhs.m as int)
                        <= i64::MAX);
                }
                out.push(a.mul(&rhs));
                proof {
                    assert forall|ii: int, jj: int| #![trigger out@[ii * (cols as int) + jj]]
                        0 <= ii < i && 0 <= jj < cols
                        implies out@[ii * (cols as int) + jj].m == fxmul(
                            self.entry(ii, jj),
                            rhs.m as int,
                        ) by {
                        lemma_pair_index(ii, jj, cols as int, rows as int);
                        assert(ii * (cols as int) + jj < i * (cols as int)) by (nonlinear_arith)
                            requires 0 <= ii < i as int, 0 <= jj < cols as int;
                    }
                }
                j += 1;
            }
            i += 1;
            proof {
                assert(i * cols == (i - 1) * cols + cols) by (nonlinear_arith);
            }
        }
        let m = matrix(out, rows, cols, Shape::Row);
        proof {
            lemma_flat_scale(*self, rhs, m);
        }
        m
    }
}

/// A row-major matrix whose storage holds the element-wise sums has the
/// element-wise sum of the operands' logical contents.
proof fn lemma_flat_sum(a: Matrix, b: &Matrix, m: Matrix)
    requires
        a.wf(),
        m.wf(),
        b.row == a.row,
        b.col == a.col,
        m.row == a.row,
        m.col == a.col,
        m.shape == Shape::Row,
        forall|ii: int, jj: int| #![trigger m.data@[ii * (a.col as int) + jj]]
            0 <= ii < a.row && 0 <= jj < a.col
            ==> m.data@[ii * (a.col as int) + jj].m == a.entry(ii, jj) + b.entry(ii, jj),
    ensures
        m.vals().len() == a.vals().len(),
        forall|k: int| 0 <= k < a.vals().len() ==> m.vals()[k] == a.vals()[k] + b.vals()[k],
{
    assert forall|k: int| 0 <= k < a.vals().len()
        implies m.vals()[k] == a.vals()[k] + b.vals()[k] by {
        lemma_flat_cell(a, m, k);
        let i = k / (a.col as int);
        let j = k % (a.col as int);
        assert(m.data@[i * (a.col as int) + j].m == a.entry(i, j) + b.entry(i, j));
        assert(i * (a.col as int) + j == k);
    }
}

/// As `lemma_flat_sum`, for element-wise differences.
proof fn lemma_flat_diff(a: Matrix, b: &Matrix, m: Matrix)
    requires
        a.wf(),
        m.wf(),
        b.row == a.row,
        b.col == a.col,
        m.row == a.row,
        m.col == a.col,
        m.shape == Shape::Row,
        forall|ii: int, jj: int| #![trigger m.data@[ii * (a.col as int) + jj]]
            0 <= ii < a.row && 0 <= jj < a.col
            ==> m.data@[ii * (a.col as int) + jj].m == a.entry(ii, jj) - b.entry(ii, jj),
    ensures
        m.vals().len() == a.vals().len(),
        forall|k: int| 0 <= k < a.vals().len() ==> m.vals()[k] == a.vals()[k] - b.vals()[k],
{
    assert forall|k: int| 0 <= k < a.vals().len()
        implies m.vals()[k] == a.vals()[k] - b.vals()[k] by {
        lemma_flat_cell(a, m, k);
        let i = k / (a.col as int);
        let j = k % (a.col as int);
        assert(m.data@[i * (a.col as int) + j].m == a.entry(i, j) - b.entry(i, j));
        assert(i * (a.col as int) + j == k);
    }
}

/// As `lemma_flat_sum`, for scaling by one mantissa.
proof fn lemma_flat_scale(a: Matrix, s: Fixed, m: Matrix)
    requires
        a.wf(),
        m.wf(),
        m.row == a.row,
        m.col == a.col,
        m.shape == Shape::Row,
        forall|ii: int, jj: int| #![trigger m.data@[ii * (a.col as int) + jj]]
            0 <= ii < a.row && 0 <= jj < a.col
            ==> m.data@[ii * (a.col as int) + jj].m == fxmul(a.entry(ii, jj), s.m as int),
    ensures
        m.vals().len() == a.vals().len(),
        forall|k: int| 0 <= k < a.vals().len() ==> m.vals()[k] == fxmul(a.vals()[k], s.m as int),
{
    assert forall|k: int| 0 <= k < a.vals().len()
        implies m.vals()[k] == fxmul(a.vals()[k], s.m as int) by {
        lemma_flat_cell(a, m, k);
        let i = k / (a.col as int);
        let j = k % (a.col as int);
        assert(m.data@[i * (a.col as int) + j].m == fxmul(a.entry(i, j), s.m as int));
        assert(i * (a.col as int) + j == k);
    }
}

/// Position `k` of a row-major matrix's flattened contents is its logical
/// entry at row `k / col`, column `k % col`, and the physical offset of that
/// coordinate is `k` itself.
proof fn lemma_flat_cell(a: Matrix, m: Matrix, k: int)
    requires
        m.row == a.row,
        m.col == a.col,
        m.shape == Shape::Row,
        0 <= k < a.row * a.col,
    ensures
        0 <= k / (a.col as int) < a.row,
        0 <= k % (a.col as int) < a.col,
        m.offset(k / (a.col as int), k % (a.col as int)) == k,
{
    assert(a.col as int > 0) by (nonlinear_arith)
        requires 0 <= k < (a.row as int) * (a.col as int);
    lemma_index_decompose(k, a.col as int, a.row as int);
}

/// The matrix products, read layout-transparently from both operands; the
/// result is assembled row-major.
impl MatrixProduct for Matrix {
    open spec fn rows(&self) -> int {
        self.row as int
    }

    open spec fn cols(&self) -> int {
        self.col as int
    }

    open spec fn ent(&self, i: int, j: int) -> int {
        self.entry(i, j)
    }

    open spec fn kronecker_req(&self, other: &Self) -> bool {
        &&& self.wf()
        &&& other.wf()
        &&& self.row * other.row <= usize::MAX
        &&& self.col * other.col <= usize::MAX
        &&& (self.row * other.row) * (self.col * other.col) <= usize::MAX
        &&& forall|a: int, b: int, x: int, y: int|
            #![trigger self.entry(a, b), other.entry(x, y)]
            self.in_bounds(a, b) && other.in_bounds(x, y)
                ==> -i64::MAX <= fxmul(self.entry(a, b), other.entry(x, y)) <= i64::MAX
    }

    #[verifier::loop_isolation(false)]
    fn kronecker(&self, other: &Self) -> (m: Matrix) {
        let rows = self.row * other.row;
        let cols = self.col * other.col;
        let r2 = other.row;
        let c2 = other.col;
        let mut out: Vec<Fixed> = Vec::new();
        let mut i: usize = 0;
        while i < rows
            invariant
                i <= rows,
                out@.len() == i * cols,
                forall|ii: int, jj: int| #![trigger out@[ii * (cols as int) + jj]]
                    0 <= ii < i && 0 <= jj < cols
                    ==> out@[ii * (cols as int) + jj].m == fxmul(
                        self.entry(ii / (r2 as int), jj / (c2 as int)),
                        other.entry(ii % (r2 as int), jj % (c2 as int)),
                    ),
            decreases rows - i,
        {
            proof {
                assert(r2 >= 1) by (nonlinear_arith)
                    requires (i as int) < (self.row as int) * (r2 as int), 0 <= i as int;
            }
            let mut j: usize = 0;
            while j < cols
                invariant
                    i < rows,
                    j <= cols,
                    out@.len() == i * cols + j,
                    forall|ii: int, jj: int| #![trigger out@[ii * (cols as int) + jj]]
                        0 <= ii < i && 0 <= jj < cols
                        ==> out@[ii * (cols as int) + jj].m == fxmul(
                            self.entry(ii / (r2 as int), jj / (c2 as int)),
                            other.entry(ii % (r2 as int), jj % (c2 as int)),
                        ),
                    forall|jj: int| #![trigger out@[(i as int) * (cols as int) + jj]]
                        0 <= jj < j
                        ==> out@[(i as int) * (cols as int) + jj].m == fxmul(
                            self.entry((i as int) / (r2 as int), jj / (c2 as int)),
                            other.entry((i as int) % (r2 as int), jj % (c2 as int)),
                        ),
                decreases cols - j,
            {
                proof {
                    assert(c2 >= 1) by (nonlinear_arith)
                        requires (j as int) < (self.col as int) * (c2 as int), 0 <= j as int;
                    lemma_index_decompose(i as int, r2 as int, self.row as int);
                    lemma_index_decompose(j as int, c2 as int, self.col as int);
                }
                let a = self.get(i / r2, j / c2);
                let b = other.get(i % r2, j % c2);
                out.push(a.mul(&b));
                proof {
                    assert forall|ii: int, jj: int| #![trigger out@[ii * (cols as int) + jj]]
                        0 <= ii < i && 0 <= jj < cols
                        implies out@[ii * (cols as int) + jj].m == fxmul(
                            self.entry(ii / (r2 as int), jj / (c2 as int)),
                            other.entry(ii % (r2 as int), jj % (c2 as int)),
                        ) by {
                        lemma_pair_index(ii, jj, cols as int, rows as int);
                        assert(ii * (cols as int) + jj < i * (cols as int)) by (nonlinear_arith)
                            requires 0 <= ii < i as int, 0 <= jj < cols as int;
                    }
                }
                j += 1;
            }
            i += 1;
            proof {
                assert(i * cols == (i - 1) * cols + cols) by (nonlinear_arith);
            }
        }
        let m = matrix(out, rows, cols, Shape::Row);
        proof {
            assert forall|i2: int, j2: int| m.in_bounds(i2, j2)
                implies m.entry(i2, j2) == fxmul(
                    self.ent(i2 / other.rows(), j2 / other.cols()),
                    other.ent(i2 % other.rows(), j2 % other.cols()),
                ) by {
                lemma_pair_index(i2, j2, cols as int, rows as int);
            }
        }
        m
    }

    open spec fn hadamard_req(&self, other: &Self) -> bool {
        &&& self.wf()
        &&& other.wf()
        &&& forall|a: int, b: int| #![trigger self.entry(a, b), other.entry(a, b)]
            self.in_bounds(a, b)
                ==> -i64::MAX <= fxmul(self.entry(a, b), other.entry(a, b)) <= i64::MAX
    }

    #[verifier::loop_isolation(false)]
    fn hadamard(&self, other: &Self) -> (m: Matrix) {
        let rows = self.row;
        let cols = self.col;
        let mut out: Vec<Fixed> = Vec::new();
        let mut i: usize = 0;
        proof {
            vstd::std_specs::vec::axiom_spec_len(&self.data);
        }
        while i < rows
            invariant
                i <= rows,
                out@.len() == i * cols,
                forall|ii: int, jj: int| 0 <= ii < i && 0 <= jj < cols
                    ==> out@[ii * (cols as int) + jj].m == fxmul(
                        self.entry(ii, jj),
                        other.entry(ii, jj),
                    ),
            decreases rows - i,
        {
            let mut j: usize = 0;
            while j < cols
                invariant
                    i < rows,
                    j <= cols,
                    out@.len() == i * cols + j,
                    forall|ii: int, jj: int| 0 <= ii < i && 0 <= jj < cols
                        ==> out@[ii * (cols as int) + jj].m == fxmul(
                            self.entry(ii, jj),
                            other.entry(ii, jj),
                        ),
                    forall|jj: int| 0 <= jj < j
                        ==> out@[(i as int) * (cols as int) + jj].m == fxmul(
                            self.entry(i as int, jj),
                            other.entry(i as int, jj),
                        ),
                decreases cols - j,
            {
                let a = self.get(i, j);
                let b = other.get(i, j);
                proof {
                    assert(-i64::MAX <= fxmul(
                        self.entry(i as int, j as int),
                        other.entry(i as int, j as int),
                    ) <= i64::MAX);
                }
                out.push(a.mul(&b));
                proof {
                    assert forall|ii: int, jj: int| 0 <= ii < i && 0 <= jj < cols
                        implies out@[ii * (cols as int) + jj].m == fxmul(
                            self.entry(ii, jj),
                            other.entry(ii, jj),
                        ) by {
                        lemma_pair_index(ii, jj, cols as int, rows as int);
                        assert(ii * (cols as int) + jj < i * (cols as int)) by (nonlinear_arith)
                            requires 0 <= ii < i as int, 0 <= jj < cols as int;
                    }
                }
                j += 1;
            }
            i += 1;
            proof {
                assert(i * cols == (i - 1) * cols + cols) by (nonlinear_arith);
            }
        }
        let m = matrix(out, rows, cols, Shape::Row);
        proof {
            assert forall|i2: int, j2: int| m.in_bounds(i2, j2)
                implies m.entry(i2, j2) == fxmul(self.ent(i2, j2), other.ent(i2, j2)) by {
                lemma_pair_index(i2, j2, cols as int, rows as int);
            }
        }
        m
    }
}

} // verus!
