use peroxide::fixed::{Fixed, SCALE};
use peroxide::math::{InnerProduct, LinearOp, MatrixProduct, Norm, Normed, Vector, VectorProduct};
use peroxide::matrix::{matrix, MatError, Shape};
use peroxide::non_macro::{
    cat, cbind, eye, eye_shape, linspace, linspace_with_precision, logspace, rand, rbind,
    seq_with_precision, zeros, zeros_shape,
};

fn fx(v: i64) -> Fixed {
    Fixed { m: v * SCALE }
}

fn fxs(vals: &[i64]) -> Vec<Fixed> {
    vals.iter().map(|&v| fx(v)).collect()
}

fn mantissas(v: &[Fixed]) -> Vec<i64> {
    v.iter().map(|f| f.m).collect()
}

#[test]
fn layout_transparency_single_conversion() {
    let m = matrix(fxs(&[1, 2, 3, 4, 5, 6]), 2, 3, Shape::Row);
    let c = m.change_shape();
    assert_eq!(c.shape, Shape::Col);
    for i in 0..2 {
        for j in 0..3 {
            assert_eq!(m.at(i, j).unwrap(), c.at(i, j).unwrap());
        }
    }
}

#[test]
fn layout_transparency_double_conversion_bit_for_bit() {
    let m = matrix(fxs(&[1, 2, 3, 4, 5, 6]), 3, 2, Shape::Col);
    let back = m.change_shape().change_shape();
    assert_eq!(back.shape, Shape::Col);
    assert_eq!(back.row, 3);
    assert_eq!(back.col, 2);
    assert_eq!(back.data, m.data);
    for i in 0..3 {
        for j in 0..2 {
            assert_eq!(m.at(i, j).unwrap(), back.at(i, j).unwrap());
        }
    }
}

#[test]
fn change_shape_permutes_storage() {
    let m = matrix(fxs(&[1, 2, 3, 4]), 2, 2, Shape::Row);
    let c = m.change_shape();
    assert_eq!(mantissas(&c.data), vec![SCALE, 3 * SCALE, 2 * SCALE, 4 * SCALE]);
}

#[test]
fn matrix_get_respects_layout() {
    let r = matrix(fxs(&[1, 2, 3, 4, 5, 6]), 2, 3, Shape::Row);
    let c = matrix(fxs(&[1, 4, 2, 5, 3, 6]), 2, 3, Shape::Col);
    for i in 0..2 {
        for j in 0..3 {
            assert_eq!(r.at(i, j).unwrap(), c.at(i, j).unwrap());
        }
    }
}

#[test]
fn at_out_of_bounds_fails() {
    let m = zeros(2, 2);
    assert_eq!(m.at(2, 0), Err(MatError::IndexOutOfBounds));
    assert_eq!(m.at(0, 2), Err(MatError::IndexOutOfBounds));
    assert!(m.at(1, 1).is_ok());
}

#[test]
fn set_writes_and_checks_bounds() {
    let mut m = zeros(2, 2);
    assert_eq!(m.set(0, 1, fx(7)), Ok(()));
    assert_eq!(m.at(0, 1).unwrap(), fx(7));
    assert_eq!(m.at(0, 0).unwrap(), fx(0));
    let before = m.data.clone();
    assert_eq!(m.set(5, 0, fx(9)), Err(MatError::IndexOutOfBounds));
    assert_eq!(m.data, before);
}

#[test]
fn zeros_has_requested_shape() {
    let m = zeros_shape(2, 3, Shape::Col);
    assert_eq!(m.row, 2);
    assert_eq!(m.col, 3);
    assert_eq!(m.shape, Shape::Col);
    assert!(m.data.iter().all(|f| f.m == 0));
}

#[test]
fn eye_is_identity() {
    let m = eye(3);
    for i in 0..3 {
        for j in 0..3 {
            let expected = if i == j { fx(1) } else { fx(0) };
            assert_eq!(m.at(i, j).unwrap(), expected);
        }
    }
}

#[test]
fn eye_shape_is_identity_in_both_layouts() {
    let m = eye_shape(4, Shape::Col);
    assert_eq!(m.shape, Shape::Col);
    for i in 0..4 {
        for j in 0..4 {
            let expected = if i == j { fx(1) } else { fx(0) };
            assert_eq!(m.at(i, j).unwrap(), expected);
        }
    }
}

#[test]
fn cbind_concatenates_columns() {
    let a = matrix(fxs(&[1, 2, 3, 4]), 2, 2, Shape::Col);
    let b = matrix(fxs(&[5, 6, 7, 8]), 2, 2, Shape::Col);
    let c = cbind(a, b).unwrap();
    assert_eq!(c.row, 2);
    assert_eq!(c.col, 4);
    assert_eq!(c.shape, Shape::Col);
    assert_eq!(mantissas(&c.data), mantissas(&fxs(&[1, 2, 3, 4, 5, 6, 7, 8])));
}

#[test]
fn cbind_normalizes_row_major_inputs() {
    let a = matrix(fxs(&[1, 2, 3, 4]), 2, 2, Shape::Row);
    let b = matrix(fxs(&[5, 6]), 2, 1, Shape::Row);
    let c = cbind(a, b).unwrap();
    assert_eq!((c.row, c.col), (2, 3));
    assert_eq!(c.at(0, 0).unwrap(), fx(1));
    assert_eq!(c.at(1, 1).unwrap(), fx(4));
    assert_eq!(c.at(0, 2).unwrap(), fx(5));
    assert_eq!(c.at(1, 2).unwrap(), fx(6));
}

#[test]
fn cbind_mismatched_rows_fails() {
    let a = zeros(2, 2);
    let b = zeros(3, 2);
    assert_eq!(cbind(a, b).unwrap_err(), MatError::DimensionMismatch);
}

#[test]
fn rbind_concatenates_rows() {
    let a = matrix(fxs(&[1, 2, 3, 4]), 2, 2, Shape::Row);
    let b = matrix(fxs(&[5, 6, 7, 8]), 2, 2, Shape::Row);
    let c = rbind(a, b).unwrap();
    assert_eq!(c.row, 4);
    assert_eq!(c.col, 2);
    assert_eq!(c.shape, Shape::Row);
    assert_eq!(mantissas(&c.data), mantissas(&fxs(&[1, 2, 3, 4, 5, 6, 7, 8])));
}

#[test]
fn rbind_mismatched_cols_fails() {
    let a = zeros(2, 2);
    let b = zeros(2, 3);
    assert_eq!(rbind(a, b).unwrap_err(), MatError::DimensionMismatch);
}

#[test]
fn seq_steps_by_two() {
    let v = peroxide::non_macro::seq(fx(1), fx(10), fx(2)).unwrap();
    assert_eq!(mantissas(&v), mantissas(&fxs(&[1, 3, 5, 7, 9])));
}

#[test]
fn seq_single_element() {
    let v = peroxide::non_macro::seq(fx(1), fx(1), fx(1)).unwrap();
    assert_eq!(mantissas(&v), vec![SCALE]);
}

#[test]
fn seq_descending_range_fails() {
    assert_eq!(peroxide::non_macro::seq(fx(2), fx(1), fx(1)).unwrap_err(), MatError::InvalidRange);
}

#[test]
fn linspace_matches_unit_seq() {
    let a = linspace(fx(1), fx(10), 10);
    let b = peroxide::non_macro::seq(fx(1), fx(10), fx(1)).unwrap();
    assert_eq!(a.len(), 10);
    assert_eq!(mantissas(&a), mantissas(&b));
}

#[test]
fn linspace_length_one_holds_end() {
    let v = linspace(fx(1), fx(5), 1);
    assert_eq!(mantissas(&v), vec![5 * SCALE]);
}

#[test]
fn linspace_descending() {
    let v = linspace(fx(10), fx(0), 11);
    assert_eq!(v.len(), 11);
    assert_eq!(v[0], fx(10));
    assert_eq!(v[3], fx(7));
    assert_eq!(v[10], fx(0));
}

#[test]
fn logspace_gives_powers_of_two() {
    let v = logspace(fx(0), fx(10), 11, fx(2)).unwrap();
    let expected = fxs(&[1, 2, 4, 8, 16, 32, 64, 128, 256, 512, 1024]);
    assert_eq!(mantissas(&v), mantissas(&expected));
}

#[test]
fn logspace_single_value() {
    let v = logspace(fx(0), fx(0), 1, fx(10)).unwrap();
    assert_eq!(mantissas(&v), vec![SCALE]);
}

#[test]
fn logspace_descending_range_fails() {
    assert_eq!(logspace(fx(3), fx(0), 4, fx(2)).unwrap_err(), MatError::InvalidRange);
}

#[test]
fn seq_with_precision_lands_exactly() {
    // start 0, end 0.01, step 0.001, three digits: slot 9 is exactly 0.009.
    let start = Fixed { m: 0 };
    let end = Fixed { m: 10_000_000 };
    let step = Fixed { m: 1_000_000 };
    let v = seq_with_precision(start, end, step, 3).unwrap();
    assert_eq!(v.len(), 11);
    assert_eq!(v[9].m, 9_000_000);
}

#[test]
fn seq_with_precision_rounds_half_up() {
    // step 0.0015 rounded to three digits: 0.0015 -> 0.002.
    let v = seq_with_precision(Fixed { m: 0 }, Fixed { m: 3_000_000 }, Fixed { m: 1_500_000 }, 3)
        .unwrap();
    assert_eq!(mantissas(&v), vec![0, 2_000_000, 3_000_000]);
}

#[test]
fn linspace_with_precision_rounds_interior() {
    // 0 to 1 in four slots: thirds do not land on the two-digit grid, so the
    // interior values are rounded to it.
    let v = linspace_with_precision(fx(0), fx(1), 4, 2);
    assert_eq!(mantissas(&v), vec![0, 330_000_000, 670_000_000, SCALE]);
}

#[test]
fn from_int_scales_exactly() {
    assert_eq!(Fixed::from_int(3), fx(3));
    assert_eq!(Fixed::from_int(-7), fx(-7));
    assert_eq!(Fixed::from_int(0), Fixed { m: 0 });
}

#[test]
fn round_to_truncates_and_rounds() {
    assert_eq!(Fixed { m: 123_456_789 }.round_to(3).m, 123_000_000);
    assert_eq!(Fixed { m: 1_500_000 }.round_to(3).m, 2_000_000);
    assert_eq!(Fixed { m: -1_500_000 }.round_to(3).m, -2_000_000);
    assert_eq!(Fixed { m: 123_456_789 }.round_to(9).m, 123_456_789);
}

#[test]
fn scalar_norm_is_absolute_value() {
    assert_eq!(fx(-3).norm(Norm::L2), fx(3));
    assert_eq!(fx(3).norm(Norm::L1), fx(3));
    assert_eq!(fx(0).norm(Norm::LInf), fx(0));
}

#[test]
fn scalar_normalize_is_sign() {
    assert_eq!(fx(-3).normalize(Norm::L2), fx(-1));
    assert_eq!(fx(7).normalize(Norm::L1), fx(1));
}

#[test]
fn scalar_vector_space_operations() {
    assert_eq!(fx(2).add_vec(&fx(3)), fx(5));
    assert_eq!(fx(2).sub_vec(&fx(3)), fx(-1));
    assert_eq!(fx(2).mul_scalar(fx(3)), fx(6));
    assert_eq!(fx(2).dot(&fx(3)), fx(6));
    let applied: Fixed = fx(4).apply(&fx(5));
    assert_eq!(applied, fx(20));
}

#[test]
fn vec_vector_space_operations() {
    let a = fxs(&[1, 2, 3]);
    let b = fxs(&[10, 20, 30]);
    assert_eq!(mantissas(&a.add_vec(&b)), mantissas(&fxs(&[11, 22, 33])));
    assert_eq!(mantissas(&b.sub_vec(&a)), mantissas(&fxs(&[9, 18, 27])));
    assert_eq!(mantissas(&a.mul_scalar(fx(2))), mantissas(&fxs(&[2, 4, 6])));
}

#[test]
fn matrix_vector_space_operations() {
    // one operand row-major, the other column-major: the operations act on
    // the logical entries, not the raw storage
    let a = matrix(fxs(&[1, 2, 3, 4]), 2, 2, Shape::Row);
    let b = matrix(fxs(&[10, 30, 20, 40]), 2, 2, Shape::Col);
    let s = a.add_vec(&b);
    assert_eq!((s.row, s.col), (2, 2));
    assert_eq!(s.at(0, 0).unwrap(), fx(11));
    assert_eq!(s.at(0, 1).unwrap(), fx(22));
    assert_eq!(s.at(1, 0).unwrap(), fx(33));
    assert_eq!(s.at(1, 1).unwrap(), fx(44));
    let a2 = matrix(fxs(&[1, 2, 3, 4]), 2, 2, Shape::Row);
    let b2 = matrix(fxs(&[10, 30, 20, 40]), 2, 2, Shape::Col);
    let d = b2.sub_vec(&a2);
    assert_eq!(d.at(1, 1).unwrap(), fx(36));
    let a3 = matrix(fxs(&[1, 2, 3, 4]), 2, 2, Shape::Row);
    let t = a3.mul_scalar(fx(3));
    assert_eq!(t.at(1, 0).unwrap(), fx(9));
}

#[test]
fn cross_product_of_axes() {
    let x = fxs(&[1, 0, 0]);
    let y = fxs(&[0, 1, 0]);
    assert_eq!(mantissas(&x.cross(&y)), mantissas(&fxs(&[0, 0, 1])));
    assert_eq!(mantissas(&y.cross(&x)), mantissas(&fxs(&[0, 0, -1])));
}

#[test]
fn cross_product_general() {
    let a = fxs(&[1, 2, 3]);
    let b = fxs(&[4, 5, 6]);
    assert_eq!(mantissas(&a.cross(&b)), mantissas(&fxs(&[-3, 6, -3])));
}

#[test]
fn outer_product_entries() {
    let a = fxs(&[1, 2]);
    let b = fxs(&[3, 4, 5]);
    let m = a.outer(&b);
    assert_eq!((m.row, m.col), (2, 3));
    assert_eq!(m.at(0, 0).unwrap(), fx(3));
    assert_eq!(m.at(0, 2).unwrap(), fx(5));
    assert_eq!(m.at(1, 0).unwrap(), fx(6));
    assert_eq!(m.at(1, 2).unwrap(), fx(10));
}

#[test]
fn hadamard_is_entrywise() {
    let a = matrix(fxs(&[1, 2, 3, 4]), 2, 2, Shape::Row);
    let b = matrix(fxs(&[5, 6, 7, 8]), 2, 2, Shape::Col);
    let h = a.hadamard(&b);
    assert_eq!((h.row, h.col), (2, 2));
    assert_eq!(h.at(0, 0).unwrap(), fx(5));
    assert_eq!(h.at(0, 1).unwrap(), fx(14));
    assert_eq!(h.at(1, 0).unwrap(), fx(18));
    assert_eq!(h.at(1, 1).unwrap(), fx(32));
}

#[test]
fn kronecker_dimensions_multiply() {
    let a = matrix(fxs(&[1, 2, 3, 4, 5, 6]), 2, 3, Shape::Row);
    let b = matrix(fxs(&[1, 0, 0, 1, 1, 1]), 3, 2, Shape::Row);
    let k = a.kronecker(&b);
    assert_eq!((k.row, k.col), (6, 6));
}

#[test]
fn kronecker_entries() {
    let a = matrix(fxs(&[1, 2, 3, 4]), 2, 2, Shape::Row);
    let b = matrix(fxs(&[0, 5, 6, 7]), 2, 2, Shape::Row);
    let k = a.kronecker(&b);
    assert_eq!((k.row, k.col), (4, 4));
    // top-left block is 1 * B, bottom-right block is 4 * B
    assert_eq!(k.at(0, 0).unwrap(), fx(0));
    assert_eq!(k.at(0, 1).unwrap(), fx(5));
    assert_eq!(k.at(1, 0).unwrap(), fx(6));
    assert_eq!(k.at(0, 2).unwrap(), fx(0));
    assert_eq!(k.at(0, 3).unwrap(), fx(10));
    assert_eq!(k.at(2, 2).unwrap(), fx(0));
    assert_eq!(k.at(3, 3).unwrap(), fx(28));
}

#[test]
fn concat_appends() {
    let a = fxs(&[1, 2]);
    let b = fxs(&[3]);
    assert_eq!(mantissas(&peroxide::non_macro::concat(&a, &b)), mantissas(&fxs(&[1, 2, 3])));
}

#[test]
fn cat_prepends() {
    let v = fxs(&[2, 3]);
    assert_eq!(mantissas(&cat(fx(1), &v)), mantissas(&fxs(&[1, 2, 3])));
}

#[test]
fn rand_fills_unit_interval() {
    let m = rand(3, 4);
    assert_eq!((m.row, m.col), (3, 4));
    assert_eq!(m.shape, Shape::Row);
    assert_eq!(m.data.len(), 12);
    assert!(m.data.iter().all(|f| 0 <= f.m && f.m < SCALE));
}

#[test]
fn rand_draws_vary() {
    // With 64 draws of nine-digit resolution, all-equal values would mean the
    // generator call handed a constant back.
    let m = rand(8, 8);
    let first = m.data[0];
    assert!(m.data.iter().any(|f| *f != first));
}
