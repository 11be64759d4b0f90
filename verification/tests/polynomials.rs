use brakingbase::brakingbase_helper::{
    eq, eq_xy, eval, evaluate_eq, evaluate_poly, fold_by_msb, inner_product, len_3_interpolate,
    line_at, par_fold_by_msb, partial_evaluate_poly, point_to_tensor, point_to_tensor_for_commit,
};
use brakingbase::error::Error;
use brakingbase::field::PrimeField;
use brakingbase::fr::Fr;
use brakingbase::gkr::helper::{
    compute_fourier_bases, evaluate_indicies, input_layer_check1, input_layer_check2,
    len_4_interpolate, reverse_elements,
};
use brakingbase::poly::MultilinearPolynomial;

fn number(x: i64) -> Fr {
    if x < 0 {
        Fr::from_u64(x.unsigned_abs()).neg()
    } else {
        Fr::from_u64(x as u64)
    }
}

fn numbers(v: &[i64]) -> Vec<Fr> {
    v.iter().map(|x| number(*x)).collect()
}

fn same(a: &[Fr], b: &[i64]) -> bool {
    a.len() == b.len() && a.iter().zip(b.iter()).all(|(x, y)| x.equals(number(*y)))
}

#[test]
fn basis_polynomials_at_a_point() {
    let point = numbers(&[3, 5]);
    assert!(eq(0, &point).equals(number(8)));
    assert!(eq(1, &point).equals(number(-10)));
    assert!(eq(2, &point).equals(number(-12)));
    assert!(eq(3, &point).equals(number(15)));
    assert!(eq(0, &Vec::<Fr>::new()).equals(number(1)));
}

#[test]
fn tables_of_basis_polynomials() {
    assert!(same(&eq_xy(&numbers(&[3, 5])), &[8, -10, -12, 15]));
    assert!(same(&eq_xy(&numbers(&[7])), &[-6, 7]));
    let empty: Vec<Fr> = Vec::new();
    assert!(same(&eq_xy(&empty), &[0]));
}

#[test]
fn table_entries_add_up_to_one() {
    let point = numbers(&[3, 5, -7, 11]);
    let table = eq_xy(&point);
    assert_eq!(table.len(), 16);
    let mut sum = number(0);
    for i in 0..16usize {
        assert!(table[i].equals(eq(i, &point)));
        sum = sum.add(table[i]);
    }
    assert!(sum.equals(number(1)));
}

#[test]
fn tensors_of_two_halves() {
    let point = numbers(&[0, 1, 2, 3]);
    let (x_0, x_1) = point_to_tensor(4, &point);
    assert!(same(&x_0, &[2, -3, -4, 6]));
    assert!(same(&x_1, &[0, 1, 0, 0]));
    let (y_0, y_1) = point_to_tensor_for_commit(4, &point);
    assert!(same(&y_0, &[0, 1, 0, 0]));
    assert!(same(&y_1, &[2, -3, -4, 6]));
    let (z_0, z_1) = point_to_tensor(1, &numbers(&[3, 5]));
    assert!(same(&z_0, &[0]));
    assert!(same(&z_1, &[8, -10, -12, 15]));
}

#[test]
fn evaluations_are_multilinear() {
    let coeffs = numbers(&[1, 2, 3, 4]);
    assert!(evaluate_poly(&coeffs, &numbers(&[3, 5])).equals(number(12)));
    for i in 0..4i64 {
        let corner = numbers(&[i / 2, i % 2]);
        assert!(evaluate_poly(&coeffs, &corner).equals(number(i + 1)));
    }
    assert!(partial_evaluate_poly(&coeffs, &numbers(&[9, 3, 5]), 1).equals(number(12)));
    let poly = MultilinearPolynomial::new(numbers(&[1, 2, 3, 4]));
    assert_eq!(poly.num_vars(), 2);
    assert!(same(poly.evals(), &[1, 2, 3, 4]));
    assert!(poly.evaluate(&numbers(&[3, 5])).equals(number(12)));
}

#[test]
fn folding_binds_the_first_variable() {
    let poly = numbers(&[1, 2, 3, 4]);
    assert!(same(&fold_by_msb(&poly, number(10)), &[21, 22]));
    assert!(same(&par_fold_by_msb(&poly, number(10)), &[21, 22]));
    let once = fold_by_msb(&poly, number(3));
    let twice = fold_by_msb(&once, number(5));
    assert!(twice[0].equals(evaluate_poly(&poly, &numbers(&[3, 5]))));
}

#[test]
fn quadratics_from_three_values() {
    let mut v = numbers(&[2, 10, 28, 77]);
    len_3_interpolate(&mut v);
    assert!(same(&v, &[2, 3, 5, 77]));
}

#[test]
fn cubics_from_four_values() {
    let mut v = [number(1), number(10), number(-2), number(49)];
    len_4_interpolate(&mut v);
    assert!(same(&v, &[1, 2, 3, 4]));
}

#[test]
fn polynomials_at_a_value() {
    assert!(eval(&numbers(&[2, 3, 5]), number(2)).equals(number(28)));
    let empty: Vec<Fr> = Vec::new();
    assert!(eval(&empty, number(2)).equals(number(0)));
    assert!(line_at(number(4), number(10), number(3)).equals(number(22)));
    assert!(inner_product(&numbers(&[1, 2, 3]), &numbers(&[4, 5, 6])).equals(number(32)));
}

#[test]
fn equality_of_two_points() {
    assert!(evaluate_eq(&numbers(&[3, 5]), &numbers(&[2, 7])).equals(number(472)));
    assert!(evaluate_eq(&numbers(&[1, 0]), &numbers(&[1, 0])).equals(number(1)));
    assert!(evaluate_eq(&numbers(&[1, 0]), &numbers(&[1, 1])).equals(number(0)));
    let mut sum = number(0);
    let (x, y) = (eq_xy(&numbers(&[3, 5])), eq_xy(&numbers(&[2, 7])));
    for i in 0..4 {
        sum = sum.add(x[i].mul(y[i]));
    }
    assert!(sum.equals(number(472)));
}

#[test]
fn indices_as_a_polynomial() {
    assert!(evaluate_indicies(&numbers(&[3, 5, 7])).equals(number(3 + 2 * 5 + 4 * 7)));
    let point = numbers(&[3, 5, 7]);
    let indices = numbers(&[0, 1, 2, 3, 4, 5, 6, 7]);
    let reversed = reverse_elements(&point);
    assert!(same(&reversed, &[7, 5, 3]));
    assert!(evaluate_indicies(&reversed).equals(evaluate_poly(&indices, &point)));
}

#[test]
fn fourier_bases_read_the_point_backwards() {
    assert!(same(&compute_fourier_bases(numbers(&[5, 3])), &[8, -10, -12, 15]));
    assert!(same(&compute_fourier_bases(numbers(&[2, 3])), &[2, -4, -3, 6]));
}

#[test]
fn input_layer_of_the_tables() {
    let gamma_tau = numbers(&[2, 3]);
    let r_x = numbers(&[1, 0]);
    let r_y = numbers(&[0, 0]);
    let random_points = numbers(&[1, 0]);
    let combiners = numbers(&[1, 10, 100, 1000]);
    let row = 2 + 2 - 3;
    let col = 2 - 3;
    let expected = row + 10 * (row + 4 * 5) + 100 * col + 1000 * (col + 4 * 6);
    let check = |value: i64| {
        input_layer_check1(
            &gamma_tau,
            &r_x,
            &r_y,
            &combiners,
            &random_points,
            number(value),
            4,
            number(5),
            number(6),
        )
    };
    assert_eq!(check(expected), Ok(()));
    assert_eq!(check(expected + 1), Err(Error::InputLayer));
}

#[test]
fn input_layer_of_the_reads() {
    let gamma_tau = numbers(&[2, 3]);
    let combiners = numbers(&[1, 10, 100, 1000]);
    let e = [1, 2, 3, 4, 5, 6];
    let row = e[2] + 2 * e[0] + 4 * e[4] - 3;
    let col = e[3] + 2 * e[1] + 4 * e[5] - 3;
    let expected = (row + 4) + 10 * row + 100 * (col + 4) + 1000 * col;
    assert_eq!(
        input_layer_check2(&gamma_tau, number(expected), &combiners, 4, &numbers(&e)),
        Ok(())
    );
    assert_eq!(
        input_layer_check2(&gamma_tau, number(expected - 1), &combiners, 4, &numbers(&e)),
        Err(Error::InputLayer)
    );
}
