use brakingbase::brakingbase_helper::{eq_xy, evaluate_poly};
use brakingbase::field::PrimeField;
use brakingbase::fr::Fr;
use brakingbase::poly::MultilinearPolynomial;
use brakingbase::snark::er1cs::{construct_matrices, rows_from_draws, satisfied_system};
use brakingbase::snark::helper::{
    get_timestamps, get_tuples, sparse_matrix_multiply, ColumnData, SparseMetaData, SparseRep,
    TimeStamps,
};
use brakingbase::snark::sum_check::{evaluate_PI, extend_if_required};
use std::collections::HashMap;

fn number(x: i64) -> Fr {
    if x < 0 {
        Fr::from_u64(x.unsigned_abs()).neg()
    } else {
        Fr::from_u64(x as u64)
    }
}

fn numbers(v: &[i64]) -> Vec<Fr> {
    v.iter().map(|x| number(*x)).collect()
}

fn same(a: &[Fr], b: &[i64]) -> bool {
    a.len() == b.len() && a.iter().zip(b.iter()).all(|(x, y)| x.equals(number(*y)))
}

fn rows(entries: &[&[(usize, i64)]]) -> HashMap<usize, Vec<ColumnData<Fr>>> {
    let mut m = HashMap::new();
    for (i, row) in entries.iter().enumerate() {
        let data = row.iter().map(|(c, v)| ColumnData::new(*c, number(*v))).collect();
        m.insert(i, data);
    }
    m
}

/// The rows (0, 5, 0, 7), (0, 0, 0, 0), (2, 0, 3, 0).
fn sample() -> SparseRep<Fr> {
    SparseRep::new(rows(&[&[(1, 5), (3, 7)], &[], &[(2, 3), (0, 2)]]))
}

#[test]
fn sizes_of_a_matrix() {
    let m = sample();
    assert_eq!(m.dim(2), 4);
    assert_eq!(m.dim(5), 8);
    assert_eq!(m.sparsity(), 4);
}

#[test]
fn products_with_a_vector() {
    let m = sample();
    let z = numbers(&[1, 10, 100, 1000]);
    assert!(same(&sparse_matrix_multiply(&m, &z), &[7050, 0, 302, 0]));
}

#[test]
fn entries_are_padded_to_a_power_of_two() {
    let m = SparseRep::new(rows(&[&[(1, 5), (3, 7)], &[(2, 3)]]));
    let (row, col, val) = get_tuples(&m, 3);
    assert!(same(&row, &[0, 0, 1, 3]));
    assert!(same(&col, &[1, 3, 2, 0]));
    assert!(same(&val, &[5, 7, 3, 0]));
}

#[test]
fn times_of_the_entries() {
    let t = get_timestamps(&numbers(&[1, 3, 1, 1]), &numbers(&[0, 0, 2, 0]), 4, 4);
    assert!(same(t.read_ts_row.evals(), &[0, 0, 1, 2]));
    assert!(same(t.read_ts_col.evals(), &[0, 1, 0, 2]));
    assert!(same(t.final_ts_row.evals(), &[0, 3, 0, 1]));
    assert!(same(t.final_ts_col.evals(), &[3, 0, 1, 0]));
    let again = TimeStamps::new(t.read_ts_col, t.read_ts_row, t.final_ts_row, t.final_ts_col);
    assert!(same(again.read_ts_row.evals(), &[0, 1, 0, 2]));
}

#[test]
fn metadata_of_a_matrix() {
    let m = sample();
    for meta in [m.get_metadata(4), SparseMetaData::generate(&m, 4)] {
        assert!(same(meta.row.evals(), &[0, 0, 2, 2]));
        assert!(same(meta.col.evals(), &[1, 3, 2, 0]));
        assert!(same(meta.val.evals(), &[5, 7, 3, 2]));
        assert!(same(meta.timestamps.read_ts_row.evals(), &[0, 1, 0, 1]));
        assert!(same(meta.timestamps.read_ts_col.evals(), &[0, 0, 0, 0]));
        assert!(same(meta.timestamps.final_ts_row.evals(), &[2, 0, 2, 0]));
        assert!(same(meta.timestamps.final_ts_col.evals(), &[1, 1, 1, 1]));
    }
}

#[test]
fn values_at_a_point() {
    let m = sample();
    let (r_x, r_y) = (numbers(&[2, 3]), numbers(&[5, 7]));
    let dense = numbers(&[0, 5, 0, 7, 0, 0, 0, 0, 2, 0, 3, 0, 0, 0, 0, 0]);
    let expected = evaluate_poly(&dense, &numbers(&[2, 3, 5, 7]));
    let bound = m.bind_row_variable(&eq_xy(&r_x), 4);
    assert!(evaluate_poly(&bound, &r_y).equals(expected));
    let basis = eq_xy(&numbers(&[2, 3, 5, 7]));
    assert!(m.evaluate(&basis, 2).equals(expected));
}

#[test]
fn rows_bound_by_hand() {
    let bound = sample().bind_row_variable(&numbers(&[1, 10, 100, 1000]), 4);
    assert!(same(&bound, &[200, 5, 300, 7]));
}

#[test]
fn errors_make_up_for_the_difference() {
    let a: &[&[(usize, i64)]] = &[&[(0, 1)], &[(1, 2), (2, 1)]];
    let b: &[&[(usize, i64)]] = &[&[(3, 4)], &[(0, 1)]];
    let c: &[&[(usize, i64)]] = &[&[(2, 3)], &[(2, 5)]];
    let (ma, mb, mc, z, e, w, u, pi) = satisfied_system(
        rows(a),
        rows(b),
        rows(c),
        numbers(&[1, 2, 3, 4]),
        number(10),
        numbers(&[6, 8]),
    );
    assert!(same(&z, &[7, 10, 3, 4]));
    assert!(same(w.evals(), &[1, 2, 3, 4]));
    assert!(u.equals(number(10)));
    assert!(same(&pi, &[6, 8]));
    assert!(same(&sparse_matrix_multiply(&ma, &z), &[7, 23, 0, 0]));
    assert!(same(&sparse_matrix_multiply(&mb, &z), &[16, 7, 0, 0]));
    assert!(same(&sparse_matrix_multiply(&mc, &z), &[9, 15, 0, 0]));
    assert!(same(e.evals(), &[7 * 16 - 10 * 9, 23 * 7 - 10 * 15, 0, 0]));
}

#[test]
fn public_inputs_at_a_point() {
    let pi = MultilinearPolynomial::new(numbers(&[6, 8]));
    let point = numbers(&[3, 5]);
    let padded = numbers(&[6, 8, 0, 0]);
    let value = evaluate_PI(&vec![0, 1, 2, 3], &pi, &point);
    assert!(value.equals(evaluate_poly(&padded, &point)));
    let moved = evaluate_PI(&vec![3, 1], &pi, &point);
    assert!(moved.equals(evaluate_poly(&numbers(&[0, 8, 0, 6]), &point)));
}

#[test]
fn short_points_are_extended() {
    let mut points = vec![
        numbers(&[1, 2, 3]),
        numbers(&[4, 5, 6]),
        numbers(&[7, 8, 9, 10]),
        numbers(&[11, 12, 13, 14]),
        numbers(&[15, 16, 17]),
    ];
    extend_if_required(&mut points);
    assert!(same(&points[0], &[1, 1, 2, 3]));
    assert!(same(&points[1], &[4, 4, 5, 6]));
    assert!(same(&points[2], &[7, 8, 9, 10]));
    assert!(same(&points[3], &[11, 12, 13, 14]));
    assert!(same(&points[4], &[15, 15, 16, 17]));
}

#[test]
fn rows_are_taken_from_the_draws() {
    let draws: Vec<(usize, Fr)> = vec![
        (3, number(5)),
        (0, number(6)),
        (2, number(7)),
        (2, number(8)),
        (1, number(9)),
        (3, number(4)),
    ];
    let m = rows_from_draws(3, 4, 2, &draws);
    assert_eq!(m.len(), 3);
    for i in 0..3usize {
        assert_eq!(m[&i].len(), 2);
        for k in 0..2usize {
            assert_eq!(m[&i][k].column, draws[2 * i + k].0);
            assert!(m[&i][k].value.equals(draws[2 * i + k].1));
        }
    }
    assert_eq!(rows_from_draws::<Fr>(0, 4, 2, &Vec::new()).len(), 0);
}

#[test]
fn systems_are_made_of_draws() {
    let draws = |x: i64| -> Vec<(usize, Fr)> {
        (0..6).map(|j| ((j % 3) as usize, number(x + j))).collect()
    };
    let (a, b, c, z, e, w, u, pi) = construct_matrices(
        2,
        4,
        4,
        1,
        number(2),
        number(10),
        number(3),
        &draws(1),
        &draws(2),
        &draws(3),
    );
    assert_eq!(a.sparsity(), 6);
    assert_eq!(b.sparsity(), 6);
    assert_eq!(c.sparsity(), 6);
    assert!(same(w.evals(), &[2, 2, 2, 2]));
    assert!(same(&pi, &[3]));
    assert!(same(&z, &[5, 2, 2, 2]));
    assert!(u.equals(number(10)));
    let az = sparse_matrix_multiply(&a, &z);
    let bz = sparse_matrix_multiply(&b, &z);
    let cz = sparse_matrix_multiply(&c, &z);
    assert!(same(&az, &[1 * 5 + 2 * 2, 3 * 2 + 4 * 5, 5 * 2 + 6 * 2, 0]));
    for i in 0..4 {
        assert!(az[i].mul(bz[i]).equals(u.mul(cz[i]).add(e.evals()[i])));
    }
}

#[test]
fn rows_may_have_gaps() {
    let mut m = HashMap::new();
    m.insert(1usize, vec![ColumnData::new(0, number(5)), ColumnData::new(2, number(7))]);
    m.insert(3usize, vec![ColumnData::new(2, number(11))]);
    let m = SparseRep::new(m);
    assert_eq!(m.dim(4), 4);
    let bound = m.bind_row_variable(&numbers(&[1, 10, 100, 1000]), 4);
    assert!(same(&bound, &[50, 0, 11070, 0]));
    let basis: Vec<Fr> = (0..16).map(number).collect();
    assert!(m.evaluate(&basis, 2).equals(number(4 * 5 + 6 * 7 + 14 * 11)));
}
