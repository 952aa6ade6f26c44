//! Construction utilities: zero and identity matrices, ranges, evenly and
//! logarithmically spaced sequences, concatenation of vectors and matrices,
//! and a uniformly random matrix.  All of them are pure constructors; the
//! matrix builders read and write elements only through the
//! layout-transparent indexing of `Matrix`.

use vstd::prelude::*;
use vstd::arithmetic::div_mod::lemma_fundamental_div_mod;
use vstd::arithmetic::div_mod::lemma_mod_bound;
use vstd::arithmetic::div_mod::lemma_div_pos_is_pos;
use crate::fixed::Fixed;
use crate::fixed::SCALE;
use crate::fixed::div_trunc;
use crate::fixed::round_prec;
use crate::fixed::lemma_round_unit_close;
use crate::fixed::pow10;
use crate::matrix::Matrix;
use crate::matrix::MatError;
use crate::matrix::Shape;
use crate::matrix::matrix;
use crate::matrix::lemma_pair_index;
use vstd::arithmetic::power::pow;
use vstd::arithmetic::power::lemma_pow_increases;
use vstd::arithmetic::power::lemma_pow_positive;

verus! {

broadcast use vstd::arithmetic::mul::lemma_mul_is_commutative;

/// An `r` by `c` matrix of zeros in the requested layout.
#[verifier::loop_isolation(false)]
pub fn zeros_shape(r: usize, c: usize, shape: Shape) -> (m: Matrix)
    requires
        r * c <= usize::MAX,
    ensures
        m.wf(),
        m.row == r,
        m.col == c,
        m.shape == shape,
        forall|i: int, j: int| m.in_bounds(i, j) ==> m.entry(i, j) == 0,
{
    let total: usize = r * c;
    let mut data: Vec<Fixed> = Vec::new();
    let mut k: usize = 0;
    while k < total
        invariant
            k <= total,
            data@.len() == k,
            forall|x: int| 0 <= x < k ==> data@[x].m == 0,
        decreases total - k,
    {
        data.push(Fixed { m: 0 });
        k += 1;
    }
    let m = matrix(data, r, c, shape);
    proof {
        assert forall|i: int, j: int| m.in_bounds(i, j) implies m.entry(i, j) == 0 by {
            lemma_pair_index(i, j, c as int, r as int);
            lemma_pair_index(j, i, r as int, c as int);
        }
    }
    m
}

/// An `r` by `c` matrix of zeros, row-major.
pub fn zeros(r: usize, c: usize) -> (m: Matrix)
    requires
        r * c <= usize::MAX,
    ensures
        m.wf(),
        m.row == r,
        m.col == c,
        m.shape == Shape::Row,
        forall|i: int, j: int| m.in_bounds(i, j) ==> m.entry(i, j) == 0,
{
    zeros_shape(r, c, Shape::Row)
}

/// The `n` by `n` identity matrix in the requested layout.  Law: the
/// diagonal entries are one and every off-diagonal entry is zero.
#[verifier::loop_isolation(false)]
pub fn eye_shape(n: usize, shape: Shape) -> (m: Matrix)
    requires
        n * n <= usize::MAX,
    ensures
        m.wf(),
        m.row == n,
        m.col == n,
        m.shape == shape,
        forall|i: int, j: int|
            m.in_bounds(i, j) ==> m.entry(i, j) == if i == j { SCALE as int } else { 0 },
{
    let mut m = zeros_shape(n, n, shape);
    let mut i: usize = 0;
    while i < n
        invariant
            i <= n,
            m.wf(),
            m.row == n,
            m.col == n,
            m.shape == shape,
            forall|a: int, b: int|
                m.in_bounds(a, b)
                    ==> m.entry(a, b) == if a == b && a < i { SCALE as int } else { 0 },
        decreases n - i,
    {
        m.put(i, i, Fixed { m: SCALE });
        i += 1;
    }
    m
}

/// The `n` by `n` identity matrix, row-major.
pub fn eye(n: usize) -> (m: Matrix)
    requires
        n * n <= usize::MAX,
    ensures
        m.wf(),
        m.row == n,
        m.col == n,
        m.shape == Shape::Row,
        forall|i: int, j: int|
            m.in_bounds(i, j) ==> m.entry(i, j) == if i == j { SCALE as int } else { 0 },
{
    eye_shape(n, Shape::Row)
}

/// The concatenation of two vectors, first followed by second.
#[verifier::loop_isolation(false)]
pub fn concat<T: Clone + Copy>(v1: &Vec<T>, v2: &Vec<T>) -> (r: Vec<T>)
    ensures
        r@ == v1@ + v2@,
{
    let mut v: Vec<T> = Vec::new();
    let mut k: usize = 0;
    while k < v1.len()
        invariant
            k <= v1@.len(),
            v@ == v1@.subrange(0, k as int),
        decreases v1@.len() - k,
    {
        v.push(v1[k]);
        proof {
            assert(v@ =~= v1@.subrange(0, k + 1));
        }
        k += 1;
    }
    let mut k2: usize = 0;
    while k2 < v2.len()
        invariant
            k2 <= v2@.len(),
            v@ == v1@ + v2@.subrange(0, k2 as int),
        decreases v2@.len() - k2,
    {
        v.push(v2[k2]);
        proof {
            assert(v@ =~= v1@ + v2@.subrange(0, k2 + 1));
        }
        k2 += 1;
    }
    proof {
        assert(v1@ =~= v1@.subrange(0, v1@.len() as int));
        assert(v@ =~= v1@ + v2@);
    }
    v
}

/// A vector with `val` prepended to `vec`.
#[verifier::loop_isolation(false)]
pub fn cat<T: Clone + Copy + Default>(val: T, vec: &Vec<T>) -> (r: Vec<T>)
    ensures
        r@ == seq![val] + vec@,
{
    let mut v: Vec<T> = Vec::new();
    v.push(val);
    let mut k: usize = 0;
    while k < vec.len()
        invariant
            k <= vec@.len(),
            v@ == seq![val] + vec@.subrange(0, k as int),
        decreases vec@.len() - k,
    {
        v.push(vec[k]);
        proof {
            assert(v@ =~= seq![val] + vec@.subrange(0, k + 1));
        }
        k += 1;
    }
    proof {
        assert(v@ =~= seq![val] + vec@);
    }
    v
}

/// Concatenate two matrices by column: both inputs are first normalized to
/// column-major storage, then the flat storages are appended.  Law: the
/// result has the shared row count and the summed column count; a mismatch of
/// row counts fails with `DimensionMismatch`.
pub fn cbind(m1: Matrix, m2: Matrix) -> (r: Result<Matrix, MatError>)
    requires
        m1.wf(),
        m2.wf(),
        m1.col + m2.col <= usize::MAX,
    ensures
        r is Ok <==> m1.row == m2.row,
        (r matches Err(e) ==> e == MatError::DimensionMismatch),
        (r matches Ok(m) ==> {
            &&& m.wf()
            &&& m.row == m1.row
            &&& m.col == m1.col + m2.col
            &&& m.shape == Shape::Col
            &&& forall|i: int, j: int|
                0 <= i < m1.row && 0 <= j < m1.col ==> m.entry(i, j) == m1.entry(i, j)
            &&& forall|i: int, j: int|
                0 <= i < m1.row && m1.col <= j < m1.col + m2.col
                    ==> m.entry(i, j) == m2.entry(i, j - m1.col)
        }),
{
    if m1.row != m2.row {
        return Err(MatError::DimensionMismatch);
    }
    let temp = if let Shape::Col = m1.shape { m1 } else { m1.change_shape() };
    let temp2 = if let Shape::Col = m2.shape { m2 } else { m2.change_shape() };
    let ghost t1 = temp;
    let ghost t2 = temp2;
    let rr: usize = temp.row;
    let c1: usize = temp.col;
    let c2: usize = temp2.col;
    let mut v = temp.data;
    let mut tail = temp2.data;
    v.append(&mut tail);
    proof {
        assert((rr as int) * ((c1 + c2) as int) == rr * c1 + rr * c2) by (nonlinear_arith);
    }
    let m = matrix(v, rr, c1 + c2, Shape::Col);
    proof {
        assert forall|i: int, j: int| 0 <= i < m1.row && 0 <= j < m1.col
            implies m.entry(i, j) == m1.entry(i, j) by {
            lemma_pair_index(j, i, rr as int, c1 as int);
            assert(m.entry(i, j) == t1.entry(i, j));
        }
        assert forall|i: int, j: int| 0 <= i < m1.row && m1.col <= j < m1.col + m2.col
            implies m.entry(i, j) == m2.entry(i, j - m1.col) by {
            lemma_pair_index(j - c1, i, rr as int, c2 as int);
            assert(j * (rr as int) + i == (c1 as int) * (rr as int) + ((j - c1) * (rr as int) + i))
                by (nonlinear_arith);
            assert(m.entry(i, j) == t2.entry(i, j - c1));
        }
    }
    Ok(m)
}

/// Concatenate two matrices by row: both inputs are first normalized to
/// row-major storage, then the flat storages are appended.  Law: the result
/// has the shared column count and the summed row count; a mismatch of column
/// counts fails with `DimensionMismatch`.
pub fn rbind(m1: Matrix, m2: Matrix) -> (r: Result<Matrix, MatError>)
    requires
        m1.wf(),
        m2.wf(),
        m1.row + m2.row <= usize::MAX,
    ensures
        r is Ok <==> m1.col == m2.col,
        (r matches Err(e) ==> e == MatError::DimensionMismatch),
        (r matches Ok(m) ==> {
            &&& m.wf()
            &&& m.row == m1.row + m2.row
            &&& m.col == m1.col
            &&& m.shape == Shape::Row
            &&& forall|i: int, j: int|
                0 <= i < m1.row && 0 <= j < m1.col ==> m.entry(i, j) == m1.entry(i, j)
            &&& forall|i: int, j: int|
                m1.row <= i < m1.row + m2.row && 0 <= j < m1.col
                    ==> m.entry(i, j) == m2.entry(i - m1.row, j)
        }),
{
    if m1.col != m2.col {
        return Err(MatError::DimensionMismatch);
    }
    let temp = if let Shape::Row = m1.shape { m1 } else { m1.change_shape() };
    let temp2 = if let Shape::Row = m2.shape { m2 } else { m2.change_shape() };
    let ghost t1 = temp;
    let ghost t2 = temp2;
    let cc: usize = temp.col;
    let r1: usize = temp.row;
    let r2: usize = temp2.row;
    let mut v = temp.data;
    let mut tail = temp2.data;
    v.append(&mut tail);
    proof {
        assert(((r1 + r2) as int) * (cc as int) == r1 * cc + r2 * cc) by (nonlinear_arith);
    }
    let m = matrix(v, r1 + r2, cc, Shape::Row);
    proof {
        assert forall|i: int, j: int| 0 <= i < m1.row && 0 <= j < m1.col
            implies m.entry(i, j) == m1.entry(i, j) by {
            lemma_pair_index(i, j, cc as int, r1 as int);
            assert(m.entry(i, j) == t1.entry(i, j));
        }
        assert forall|i: int, j: int| m1.row <= i < m1.row + m2.row && 0 <= j < m1.col
            implies m.entry(i, j) == m2.entry(i - m1.row, j) by {
            lemma_pair_index(i - r1, j, cc as int, r2 as int);
            assert(i * (cc as int) + j == (r1 as int) * (cc as int) + ((i - r1) * (cc as int) + j))
                by (nonlinear_arith);
            assert(m.entry(i, j) == t2.entry(i - r1, j));
        }
    }
    Ok(m)
}

/// An arithmetic progression from `start` in increments of `step`, of
/// `(end - start) / step + 1` terms (integer division): every term
/// `start + k * step` that does not exceed `end`, and always `start` itself.
/// A descending range fails with `InvalidRange` before any allocation.
#[verifier::loop_isolation(false)]
pub fn seq(start: Fixed, end: Fixed, step: Fixed) -> (r: Result<Vec<Fixed>, MatError>)
    requires
        step.m > 0,
        start.m <= end.m ==> end.m - start.m < i64::MAX,
        start.m <= end.m ==> (end.m - start.m) / (step.m as int) + 1 <= usize::MAX,
    ensures
        r is Ok <==> start.m <= end.m,
        (r matches Err(e) ==> e == MatError::InvalidRange),
        (r matches Ok(v) ==> {
            &&& v@.len() == (end.m - start.m) / (step.m as int) + 1
            &&& forall|k: int| 0 <= k < v@.len() ==> v@[k].m == start.m + step.m * k
        }),
{
    if end.m < start.m {
        return Err(MatError::InvalidRange);
    }
    let d: i64 = end.m - start.m;
    let q: i64 = d / step.m;
    proof {
        lemma_fundamental_div_mod(d as int, step.m as int);
        lemma_mod_bound(d as int, step.m as int);
        lemma_div_pos_is_pos(d as int, step.m as int);
    }
    let l: usize = (q + 1) as usize;
    let mut out: Vec<Fixed> = Vec::new();
    let mut k: usize = 0;
    while k < l
        invariant
            k <= l,
            out@.len() == k,
            forall|x: int| 0 <= x < k ==> out@[x].m == start.m + step.m * x,
        decreases l - k,
    {
        let kk: i64 = k as i64;
        proof {
            vstd::arithmetic::mul::lemma_mul_inequality(kk as int, q as int, step.m as int);
            vstd::arithmetic::mul::lemma_mul_nonnegative(kk as int, step.m as int);
        }
        let val: i64 = start.m + step.m * kk;
        out.push(Fixed { m: val });
        k += 1;
    }
    Ok(out)
}

/// As `seq`, with every produced value rounded to `precision` decimal digits,
/// halves away from zero.
#[verifier::loop_isolation(false)]
pub fn seq_with_precision(start: Fixed, end: Fixed, step: Fixed, precision: usize) -> (r: Result<
    Vec<Fixed>,
    MatError,
>)
    requires
        step.m > 0,
        precision <= 9,
        start.m <= end.m ==> end.m - start.m < i64::MAX,
        start.m <= end.m ==> (end.m - start.m) / (step.m as int) + 1 <= usize::MAX,
        start.m <= end.m ==> -(i64::MAX - 500_000_000) <= start.m,
        start.m <= end.m ==> end.m <= i64::MAX - 500_000_000,
    ensures
        r is Ok <==> start.m <= end.m,
        (r matches Err(e) ==> e == MatError::InvalidRange),
        (r matches Ok(v) ==> {
            &&& v@.len() == (end.m - start.m) / (step.m as int) + 1
            &&& forall|k: int| 0 <= k < v@.len()
                ==> v@[k].m == round_prec(start.m + step.m * k, precision as nat)
        }),
{
    if end.m < start.m {
        return Err(MatError::InvalidRange);
    }
    let d: i64 = end.m - start.m;
    let q: i64 = d / step.m;
    proof {
        lemma_fundamental_div_mod(d as int, step.m as int);
        lemma_mod_bound(d as int, step.m as int);
        lemma_div_pos_is_pos(d as int, step.m as int);
    }
    let l: usize = (q + 1) as usize;
    let mut out: Vec<Fixed> = Vec::new();
    let mut k: usize = 0;
    while k < l
        invariant
            k <= l,
            out@.len() == k,
            forall|x: int| 0 <= x < k
                ==> out@[x].m == round_prec(start.m + step.m * x, precision as nat),
        decreases l - k,
    {
        let kk: i64 = k as i64;
        proof {
            vstd::arithmetic::mul::lemma_mul_inequality(kk as int, q as int, step.m as int);
            vstd::arithmetic::mul::lemma_mul_nonnegative(kk as int, step.m as int);
        }
        let val = Fixed { m: start.m + step.m * kk };
        out.push(val.round_to(precision));
        k += 1;
    }
    Ok(out)
}

/// Exactly `length` evenly spaced values from `start` to `end`, both included:
/// the first slot holds `start`, the last holds `end`, and each slot between
/// holds `start` plus the truncated step `(end - start) / (length - 1)` taken
/// `k` times.  With `length == 1` the single slot holds `end` (the defined
/// overwrite: `end` lands in the last slot after `start`, in the same slot).
#[verifier::loop_isolation(false)]
pub fn linspace(start: Fixed, end: Fixed, length: usize) -> (v: Vec<Fixed>)
    requires
        length >= 1,
        length - 1 <= i64::MAX,
        -i64::MAX <= end.m - start.m <= i64::MAX,
    ensures
        v@.len() == length,
        length == 1 ==> v@[0] == end,
        length > 1 ==> v@[0] == start && v@[length - 1] == end,
        forall|k: int| 1 <= k < length - 1
            ==> v@[k].m == start.m + div_trunc(end.m - start.m, length - 1) * k,
{
    let mut out: Vec<Fixed> = Vec::new();
    if length == 1 {
        out.push(end);
        return out;
    }
    let len1: i64 = (length - 1) as i64;
    let d: i64 = end.m - start.m;
    let step: i64 = if d >= 0 {
        proof {
            lemma_fundamental_div_mod(d as int, len1 as int);
            lemma_mod_bound(d as int, len1 as int);
            lemma_div_pos_is_pos(d as int, len1 as int);
        }
        d / len1
    } else {
        proof {
            lemma_fundamental_div_mod(-(d as int), len1 as int);
            lemma_mod_bound(-(d as int), len1 as int);
            lemma_div_pos_is_pos(-(d as int), len1 as int);
            vstd::arithmetic::mul::lemma_mul_unary_negation(
                (-(d as int)) / (len1 as int),
                len1 as int,
            );
        }
        -((-d) / len1)
    };
    out.push(start);
    let mut k: usize = 1;
    while k < length - 1
        invariant
            1 <= k <= length - 1,
            out@.len() == k,
            out@[0] == start,
            step == div_trunc(end.m - start.m, len1 as int),
            d >= 0 ==> 0 <= step && (step as int) * (len1 as int) <= d,
            d < 0 ==> step <= 0 && (step as int) * (len1 as int) >= d,
            forall|x: int| 1 <= x < k ==> out@[x].m == start.m + (step as int) * x,
        decreases length - 1 - k,
    {
        let kk: i64 = k as i64;
        proof {
            if d >= 0 {
                assert(0 <= (step as int) * (kk as int) <= d) by (nonlinear_arith)
                    requires
                        0 <= step as int,
                        (step as int) * (len1 as int) <= d as int,
                        0 <= kk as int <= len1 as int;
            } else {
                assert(d <= (step as int) * (kk as int) <= 0) by (nonlinear_arith)
                    requires
                        step as int <= 0,
                        (step as int) * (len1 as int) >= d as int,
                        0 <= kk as int <= len1 as int;
            }
        }
        out.push(Fixed { m: start.m + step * kk });
        k += 1;
    }
    out.push(end);
    out
}

/// As `linspace`, with the endpoints and every interior value rounded to
/// `precision` decimal digits; each interior value is the rounded start plus
/// `k` steps, rounded again, as the plain spacing accumulates sub-resolution
/// truncation that the rounding is meant to absorb.
#[verifier::loop_isolation(false)]
pub fn linspace_with_precision(start: Fixed, end: Fixed, length: usize, precision: usize) -> (v:
    Vec<Fixed>)
    requires
        length >= 1,
        length - 1 <= i64::MAX,
        precision <= 9,
        -i64::MAX <= end.m - start.m <= i64::MAX,
        -(i64::MAX - 2_000_000_000) <= start.m <= i64::MAX - 2_000_000_000,
        -(i64::MAX - 2_000_000_000) <= end.m <= i64::MAX - 2_000_000_000,
    ensures
        v@.len() == length,
        length == 1 ==> v@[0].m == round_prec(end.m as int, precision as nat),
        length > 1 ==> v@[0].m == round_prec(start.m as int, precision as nat)
            && v@[length - 1].m == round_prec(end.m as int, precision as nat),
        forall|k: int| 1 <= k < length - 1
            ==> v@[k].m == round_prec(
                round_prec(start.m as int, precision as nat)
                    + div_trunc(end.m - start.m, length - 1) * k,
                precision as nat,
            ),
{
    let mut out: Vec<Fixed> = Vec::new();
    if length == 1 {
        out.push(end.round_to(precision));
        return out;
    }
    let len1: i64 = (length - 1) as i64;
    let d: i64 = end.m - start.m;
    let step: i64 = if d >= 0 {
        proof {
            lemma_fundamental_div_mod(d as int, len1 as int);
            lemma_mod_bound(d as int, len1 as int);
            lemma_div_pos_is_pos(d as int, len1 as int);
        }
        d / len1
    } else {
        proof {
            lemma_fundamental_div_mod(-(d as int), len1 as int);
            lemma_mod_bound(-(d as int), len1 as int);
            lemma_div_pos_is_pos(-(d as int), len1 as int);
            vstd::arithmetic::mul::lemma_mul_unary_negation(
                (-(d as int)) / (len1 as int),
                len1 as int,
            );
        }
        -((-d) / len1)
    };
    let first = start.round_to(precision);
    proof {
        crate::fixed::lemma_pow10_in_range(precision as nat);
        lemma_round_unit_close(start.m as int, pow10((9 - precision) as nat));
    }
    out.push(first);
    let mut k: usize = 1;
    while k < length - 1
        invariant
            1 <= k <= length - 1,
            out@.len() == k,
            out@[0] == first,
            first.m == round_prec(start.m as int, precision as nat),
            start.m - 1_000_000_000 < first.m < start.m + 1_000_000_000,
            step == div_trunc(end.m - start.m, len1 as int),
            d >= 0 ==> 0 <= step && (step as int) * (len1 as int) <= d,
            d < 0 ==> step <= 0 && (step as int) * (len1 as int) >= d,
            forall|x: int| 1 <= x < k
                ==> out@[x].m == round_prec(
                    first.m + (step as int) * x,
                    precision as nat,
                ),
        decreases length - 1 - k,
    {
        let kk: i64 = k as i64;
        proof {
            if d >= 0 {
                assert(0 <= (step as int) * (kk as int) <= d) by (nonlinear_arith)
                    requires
                        0 <= step as int,
                        (step as int) * (len1 as int) <= d as int,
                        0 <= kk as int <= len1 as int;
            } else {
                assert(d <= (step as int) * (kk as int) <= 0) by (nonlinear_arith)
                    requires
                        step as int <= 0,
                        (step as int) * (len1 as int) >= d as int,
                        0 <= kk as int <= len1 as int;
            }
        }
        let val = Fixed { m: first.m + step * kk };
        out.push(val.round_to(precision));
        k += 1;
    }
    out.push(end.round_to(precision));
    out
}

/// `b` to the `e`-th power by repeated multiplication.
#[verifier::loop_isolation(false)]
fn int_pow(b: i64, e: i64) -> (r: i64)
    requires
        1 <= b,
        0 <= e,
        pow(b as int, e as nat) <= i64::MAX,
    ensures
        r == pow(b as int, e as nat),
        r >= 1,
{
    let mut acc: i64 = 1;
    let mut j: i64 = 0;
    proof {
        vstd::arithmetic::power::lemma_pow0(b as int);
    }
    while j < e
        invariant
            0 <= j <= e,
            acc == pow(b as int, j as nat),
            acc >= 1,
        decreases e - j,
    {
        proof {
            lemma_pow_positive(b as int, (j + 1) as nat);
            lemma_pow_increases(b as nat, (j + 1) as nat, e as nat);
            assert(pow(b as int, (j + 1) as nat) == (b as int) * pow(b as int, j as nat)) by {
                reveal(pow);
            }
        }
        acc = acc * b;
        j += 1;
    }
    acc
}

/// As `linspace` in exponent space, mapped through powers of `base`: value
/// `k` is `base` raised to `start + k * (end - start) / (length - 1)`.  The
/// scalars are exact decimals, so the bounds and the base must be integers
/// and the exponent spacing must be integral; a descending range fails with
/// `InvalidRange`.
#[verifier::loop_isolation(false)]
pub fn logspace(start: Fixed, end: Fixed, length: usize, base: Fixed) -> (r: Result<
    Vec<Fixed>,
    MatError,
>)
    requires
        (start.m as int) % (SCALE as int) == 0,
        (end.m as int) % (SCALE as int) == 0,
        (base.m as int) % (SCALE as int) == 0,
        base.m >= SCALE,
        start.m >= 0,
        length - 1 <= i64::MAX,
        length > 1 ==> ((end.m as int) / (SCALE as int) - (start.m as int) / (SCALE as int)) % (
        (length - 1) as int) == 0,
        start.m <= end.m ==> pow(
            (base.m as int) / (SCALE as int),
            ((end.m as int) / (SCALE as int)) as nat,
        ) * (SCALE as int) <= i64::MAX,
    ensures
        r is Ok <==> start.m <= end.m,
        (r matches Err(e) ==> e == MatError::InvalidRange),
        (r matches Ok(v) ==> {
            &&& v@.len() == length
            &&& forall|k: int| 0 <= k < length ==> v@[k].m == pow(
                (base.m as int) / (SCALE as int),
                ((start.m as int) / (SCALE as int) + (if length > 1 {
                    ((end.m as int) / (SCALE as int) - (start.m as int) / (SCALE as int)) / (
                    (length - 1) as int)
                } else {
                    0int
                }) * k) as nat,
            ) * (SCALE as int)
        }),
{
    if end.m < start.m {
        return Err(MatError::InvalidRange);
    }
    let ks: i64 = start.m / SCALE;
    let ke: i64 = end.m / SCALE;
    let bi: i64 = base.m / SCALE;
    proof {
        lemma_fundamental_div_mod(start.m as int, SCALE as int);
        lemma_fundamental_div_mod(end.m as int, SCALE as int);
        lemma_fundamental_div_mod(base.m as int, SCALE as int);
        lemma_div_pos_is_pos(start.m as int, SCALE as int);
        vstd::arithmetic::div_mod::lemma_div_is_ordered(start.m as int, end.m as int, SCALE as int);
        assert(bi >= 1) by {
            vstd::arithmetic::div_mod::lemma_div_is_ordered(SCALE as int, base.m as int, SCALE as int);
        }
    }
    let kstep: i64 = if length > 1 {
        let diff: i64 = ke - ks;
        proof {
            lemma_fundamental_div_mod(diff as int, (length - 1) as int);
            lemma_div_pos_is_pos(diff as int, (length - 1) as int);
        }
        diff / ((length - 1) as i64)
    } else {
        0
    };
    let ghost kstep_g = kstep as int;
    proof {
        if length > 1 {
            assert((kstep as int) * ((length - 1) as int) == ke - ks);
        }
    }
    let mut out: Vec<Fixed> = Vec::new();
    let mut k: usize = 0;
    while k < length
        invariant
            k <= length,
            out@.len() == k,
            kstep >= 0,
            length > 1 ==> (kstep as int) * ((length - 1) as int) == ke - ks,
            length == 1 ==> kstep == 0,
            forall|x: int| 0 <= x < k ==> out@[x].m == pow(
                bi as int,
                (ks + (kstep as int) * x) as nat,
            ) * (SCALE as int),
        decreases length - k,
    {
        let kk: i64 = k as i64;
        proof {
            vstd::arithmetic::mul::lemma_mul_inequality(
                kk as int,
                (length - 1) as int,
                kstep as int,
            );
            vstd::arithmetic::mul::lemma_mul_nonnegative(kk as int, kstep as int);
        }
        let ek: i64 = ks + kstep * kk;
        proof {
            lemma_pow_increases(bi as nat, ek as nat, ke as nat);
            lemma_pow_positive(bi as int, ek as nat);
            vstd::arithmetic::mul::lemma_mul_inequality(
                pow(bi as int, ek as nat),
                pow(bi as int, ke as nat),
                SCALE as int,
            );
        }
        let p: i64 = int_pow(bi, ek);
        out.push(Fixed { m: p * SCALE });
        k += 1;
    }
    Ok(out)
}

/// The thread-local generator of the rand crate, opaque to the library: a
/// value of it is only carried between draws.
#[verifier::external_type_specification]
#[verifier::external_body]
pub struct ExThreadRng(rand::rngs::ThreadRng);

/// Relies on rand::thread_rng: a handle to the thread-local generator.
/// Nothing is assumed of it.
#[verifier::external_body]
fn new_rng() -> rand::rngs::ThreadRng {
    rand::thread_rng()
}

/// Relies on rand::Rng::gen_range over the half-open mantissa range
/// `0..SCALE`: the draw lies in `[0, 1)` at the scalar resolution.  Nothing
/// is assumed of the distribution, only the range.
#[verifier::external_body]
fn draw_unit(rng: &mut rand::rngs::ThreadRng) -> (r: Fixed)
    ensures
        0 <= r.m < SCALE,
{
    Fixed { m: rand::Rng::gen_range(rng, 0..1_000_000_000i64) }
}

/// An `r` by `c` row-major matrix of independent draws from the uniform
/// source, each in `[0, 1)`.
#[verifier::loop_isolation(false)]
pub fn rand(r: usize, c: usize) -> (m: Matrix)
    requires
        r * c <= usize::MAX,
    ensures
        m.wf(),
        m.row == r,
        m.col == c,
        m.shape == Shape::Row,
        forall|i: int, j: int| m.in_bounds(i, j) ==> 0 <= m.entry(i, j) < SCALE,
{
    let mut m = zeros(r, c);
    let mut rng = new_rng();
    let mut i: usize = 0;
    while i < r
        invariant
            i <= r,
            m.wf(),
            m.row == r,
            m.col == c,
            m.shape == Shape::Row,
            forall|a: int, b: int| m.in_bounds(a, b) ==> 0 <= m.entry(a, b) < SCALE,
        decreases r - i,
    {
        let mut j: usize = 0;
        while j < c
            invariant
                i < r,
                j <= c,
                m.wf(),
                m.row == r,
                m.col == c,
                m.shape == Shape::Row,
                forall|a: int, b: int| m.in_bounds(a, b) ==> 0 <= m.entry(a, b) < SCALE,
            decreases c - j,
        {
            let v = draw_unit(&mut rng);
            m.put(i, j, v);
            j += 1;
        }
        i += 1;
    }
    m
}

} // verus!
