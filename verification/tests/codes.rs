use brakingbase::basefold::{
    basefold_commit, basefold_one_round_by_interpolation_weights, evaluate_over_foldable_domain,
    get_table_aes, query_point, TableStream,
};
use brakingbase::brakingbase::{basefold_setup, basefold_trim, padded_elements, repeat_table, Five};
use brakingbase::brakingbase_helper::fold_by_msb;
use brakingbase::code::{Brakedown, ParityCheckMatrix};
use brakingbase::error::Error;
use brakingbase::field::PrimeField;
use brakingbase::fr::Fr;
use brakingbase::hash::{hash_elements, hash_pair, Blake2s256, Output};
use brakingbase::merkle::{
    authenticate_merkle_path, authenticate_merkle_path_hash, batch_merkelize, hash_level,
    merkelize, merkle_path,
};

fn number(x: i64) -> Fr {
    if x < 0 {
        Fr::from_u64(x.unsigned_abs()).neg()
    } else {
        Fr::from_u64(x as u64)
    }
}

fn numbers(v: &[i64]) -> Vec<Fr> {
    v.iter().map(|x| number(*x)).collect()
}

fn same(a: &[Fr], b: &[Fr]) -> bool {
    a.len() == b.len() && a.iter().zip(b.iter()).all(|(x, y)| x.equals(*y))
}

fn small_code() -> Brakedown<Fr> {
    Brakedown {
        row_len: 2,
        codeword_len: 4,
        num_column_opening: 3,
        matrix: ParityCheckMatrix {
            row: vec![0, 1, 0, 2],
            col: vec![0, 0, 1, 1],
            val: numbers(&[3, 5, 7, 11]),
        },
    }
}

#[test]
fn codewords_start_with_the_message() {
    let code = small_code();
    let c = code.encode(&numbers(&[10, 20]));
    assert!(same(&c, &numbers(&[10, 20, 130, 1500])));
    assert_eq!(code.row_len(), 2);
    assert_eq!(code.codeword_len(), 4);
    assert_eq!(code.num_column_opening(), 3);
    let matrix = code.parity_check_matrix();
    assert_eq!(matrix.row, vec![0, 1, 0, 2]);
    assert_eq!(matrix.col, vec![0, 0, 1, 1]);
    assert!(same(&matrix.val, &numbers(&[3, 5, 7, 11])));
}

#[test]
fn codewords_add_up() {
    let code = small_code();
    let a = code.encode(&numbers(&[10, 20]));
    let b = code.encode(&numbers(&[-4, 9]));
    let c = code.encode(&numbers(&[10 - 3 * 4, 20 + 3 * 9]));
    for i in 0..4 {
        assert!(c[i].equals(a[i].add(number(3).mul(b[i]))));
    }
}

#[test]
fn tables_come_from_the_seed() {
    let seed = [7u8; 32];
    let (weights, table) = get_table_aes::<Fr>(2, 1, seed);
    assert_eq!(table.len(), 3);
    let stream = TableStream::new(seed);
    for level in 0..3 {
        assert_eq!(table[level].len(), 1 << level);
        for i in 0..1usize << level {
            assert!(table[level][i].equals(stream.entry::<Fr>(level, i)));
            let (x, w) = weights[level][i];
            assert!(number(-2).mul(x).mul(w).equals(number(1)));
        }
    }
    assert!(weights[2][1].0.equals(table[2][2]));
    assert!(weights[2][2].0.equals(table[2][1]));
    assert!(!table[2][1].equals(table[2][2]));
    let (_, other) = get_table_aes::<Fr>(2, 1, [8u8; 32]);
    assert!(!other[2][1].equals(table[2][1]));
    let (_, again) = get_table_aes::<Fr>(2, 1, seed);
    assert!(same(&again[2], &table[2]));
}

#[test]
fn query_points_come_in_pairs() {
    let stream = TableStream::new([3u8; 32]);
    for i in 0..4 {
        let a: Fr = query_point(8, i, &stream, 2);
        let b: Fr = query_point(8, i + 4, &stream, 2);
        let c: Fr = query_point(8, i + 16, &stream, 2);
        assert!(a.equals(stream.entry::<Fr>(2, i)));
        assert!(b.equals(a.neg()));
        assert!(c.equals(a));
    }
}

#[test]
fn foldable_codewords_by_hand() {
    let table = vec![numbers(&[1]), numbers(&[2, 3])];
    let c = evaluate_over_foldable_domain(1, &numbers(&[10, 14]), &table);
    // 10 + 4x at 2, -2, 3, -3
    assert!(same(&c, &numbers(&[18, 2, 22, -2])));
    let one = evaluate_over_foldable_domain(1, &numbers(&[9]), &table);
    assert!(same(&one, &numbers(&[9, 9])));
}

#[test]
fn folding_a_codeword_folds_the_message() {
    let (weights, table) = get_table_aes::<Fr>(3, 1, [5u8; 32]);
    let m = numbers(&[3, 1, 4, 1, 5, 9, 2, 6]);
    let r = number(77);
    let c = evaluate_over_foldable_domain(1, &m, &table);
    let folded = basefold_one_round_by_interpolation_weights(&weights, 0, &c, r);
    let expected = evaluate_over_foldable_domain(1, &fold_by_msb(&m, r), &table);
    assert!(same(&folded, &expected));
    let twice = basefold_one_round_by_interpolation_weights(&weights, 1, &folded, r);
    let expected = evaluate_over_foldable_domain(1, &fold_by_msb(&fold_by_msb(&m, r), r), &table);
    assert!(same(&twice, &expected));
}

#[test]
fn committing_to_one_polynomial() {
    let params = basefold_setup::<Fr, Five>(3, [9u8; 32]);
    let (pp, vp) = basefold_trim(&params);
    assert_eq!(vp.num_vars, 3);
    assert_eq!(vp.log_rate, 3);
    assert_eq!(vp.num_verifier_queries, 656);
    assert_eq!(vp.seed, [9u8; 32]);
    let m = numbers(&[3, 1, 4, 1, 5, 9, 2, 6]);
    let c = basefold_commit::<Fr, Blake2s256>(&pp, &m);
    assert!(same(&c.codeword.poly, &evaluate_over_foldable_domain(3, &m, &pp.table)));
    assert_eq!(c.codeword.poly.len(), 64);
    assert!(same(&c.bh_evals.poly, &numbers(&[3, 5, 4, 2, 1, 9, 1, 6])));
    let tree = merkelize::<Fr, Blake2s256>(&c.codeword.poly);
    assert_eq!(*c.codeword_tree_root(), tree[tree.len() - 1][0]);
}

#[test]
fn paddings() {
    let padded: Vec<Fr> = padded_elements(&vec![4, 7, 5], 5);
    assert!(same(&padded, &numbers(&[4, 7, 5, 4, 4])));
    assert!(same(&repeat_table(&numbers(&[1, 2]), 5), &numbers(&[1, 2, 1, 2, 1])));
}

#[test]
fn trees_of_pairs() {
    let v = numbers(&[1, 2, 3, 4]);
    let tree = merkelize::<Fr, Blake2s256>(&v);
    assert_eq!(tree.len(), 2);
    let left = hash_elements::<Fr, Blake2s256>(&numbers(&[1, 2]));
    let right = hash_elements::<Fr, Blake2s256>(&numbers(&[3, 4]));
    assert_eq!(tree[0], vec![left, right]);
    assert_eq!(tree[1], vec![hash_pair::<Blake2s256>(&left, &right)]);
    assert_eq!(hash_level::<Blake2s256>(&tree[0]), tree[1]);
}

#[test]
fn trees_of_columns() {
    let v = vec![numbers(&[1, 2, 3, 4]), numbers(&[5, 6, 7, 8])];
    let tree = batch_merkelize::<Fr, Blake2s256>(&v);
    let root = tree[tree.len() - 1][0];
    let leaves: Vec<Output> = tree[0].clone();
    assert_eq!(leaves.len(), 2);
    assert_eq!(root, hash_pair::<Blake2s256>(&leaves[0], &leaves[1]));
    let first = hash_elements::<Fr, Blake2s256>(&numbers(&[1, 5]));
    let second = hash_elements::<Fr, Blake2s256>(&numbers(&[2, 6]));
    assert_eq!(leaves[0], hash_pair::<Blake2s256>(&first, &second));
}

#[test]
fn trees_of_a_single_column_are_empty() {
    let v = vec![numbers(&[1]), numbers(&[5])];
    assert_eq!(batch_merkelize::<Fr, Blake2s256>(&v).len(), 0);
    let odd = vec![numbers(&[1, 2, 3])];
    let tree = batch_merkelize::<Fr, Blake2s256>(&odd);
    assert_eq!(tree.len(), 1);
    assert_eq!(tree[0].len(), 1);
}

#[test]
fn paths_lead_to_the_root() {
    let v: Vec<Fr> = (0..16).map(|i| number(i * i)).collect();
    let tree = merkelize::<Fr, Blake2s256>(&v);
    let root = tree[tree.len() - 1][0];
    for idx in 0..16usize {
        let path = merkle_path(idx, &tree);
        let base = idx / 2 * 2;
        let pair = (v[base], v[base + 1]);
        assert_eq!(authenticate_merkle_path::<Fr, Blake2s256>(idx, &pair, &path, &root), Ok(()));
        let swapped = (v[base + 1], v[base]);
        assert_eq!(
            authenticate_merkle_path::<Fr, Blake2s256>(idx, &swapped, &path, &root),
            Err(Error::MerklePath)
        );
        let elsewhere = (idx + 2) % 16;
        assert_eq!(
            authenticate_merkle_path::<Fr, Blake2s256>(elsewhere, &pair, &path, &root),
            Err(Error::MerklePath)
        );
        assert_eq!(
            authenticate_merkle_path::<Fr, Blake2s256>(idx, &pair, &path, &tree[0][0]),
            Err(Error::MerklePath)
        );
    }
}

#[test]
fn paths_of_digests() {
    let digests: Vec<Output> = (0..8u8).map(|i| [i; 32]).collect();
    let mut tree = vec![hash_level::<Blake2s256>(&digests)];
    while tree[tree.len() - 1].len() > 1 {
        let next = hash_level::<Blake2s256>(&tree[tree.len() - 1]);
        tree.push(next);
    }
    let root = tree[tree.len() - 1][0];
    for idx in 0..8usize {
        let path = merkle_path(idx, &tree);
        let base = idx / 2 * 2;
        let pair = (digests[base], digests[base + 1]);
        assert_eq!(authenticate_merkle_path_hash::<Blake2s256>(idx, &pair, &path, &root), Ok(()));
        let wrong = (digests[base], [9u8; 32]);
        assert_eq!(
            authenticate_merkle_path_hash::<Blake2s256>(idx, &wrong, &path, &root),
            Err(Error::MerklePath)
        );
    }
}

#[test]
fn errors_have_messages() {
    assert_eq!(Error::MerklePath.message(), "a Merkle path does not lead to its root");
    assert_eq!(Error::Folding.message(), "a folded codeword is inconsistent");
    assert_eq!(Error::SumCheck.message(), "Sum check failed");
    assert_eq!(Error::SecondSumCheck.message(), "Second Sum check failed");
    assert_eq!(Error::FinalOracle.message(), "Final oracle wrong");
}
