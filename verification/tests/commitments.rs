use brakingbase::brakingbase::{Brakingbase, BrakingbaseCommitment, BrakingbaseParams, Five};
use brakingbase::brakingbase_helper::{eq, point_to_tensor};
use brakingbase::code::{Brakedown, ParityCheckMatrix};
use brakingbase::error::Error;
use brakingbase::field::PrimeField;
use brakingbase::fr::Fr;
use brakingbase::hash::{hash_elements, hash_pair, Blake2s256, Output};
use brakingbase::merkle::{authenticate_merkle_path, merkelize, write_merkle_path_2};
use brakingbase::poly::MultilinearPolynomial;
use brakingbase::transcript::{FiatShamirTranscript, ProofItem};
use rand_chacha::rand_core::{RngCore, SeedableRng};
use rand_chacha::ChaCha8Rng;

type Pcs = Brakingbase<Fr, Blake2s256, Five>;
type Transcript = FiatShamirTranscript<Fr, Blake2s256>;

fn random_element(rng: &mut ChaCha8Rng) -> Fr {
    Fr::from_raw([rng.next_u64(), rng.next_u64(), rng.next_u64(), rng.next_u64()])
}

/// A sparse triangular code for polynomials with `num_vars` variables.
fn random_code(num_vars: usize, rng: &mut ChaCha8Rng) -> Brakedown<Fr> {
    let num_rows = 2 * num_vars.next_power_of_two();
    let row_len = (1usize << num_vars) / num_rows;
    let parity = (row_len / 2).max(1);
    let codeword_len = row_len + parity;
    let per_column = 6;
    let mut row = Vec::new();
    let mut col = Vec::new();
    let mut val = Vec::new();
    for j in 0..parity {
        for _ in 0..per_column {
            row.push((rng.next_u64() as usize) % (row_len + j));
            col.push(j);
            val.push(random_element(rng));
        }
    }
    Brakedown {
        row_len,
        codeword_len,
        num_column_opening: 20,
        matrix: ParityCheckMatrix { row, col, val },
    }
}

fn random_seed(rng: &mut ChaCha8Rng) -> [u8; 32] {
    let mut seed = [0u8; 32];
    rng.fill_bytes(&mut seed);
    seed
}

fn params_for(num_vars: usize, rng: &mut ChaCha8Rng) -> BrakingbaseParams<Fr> {
    let code = random_code(num_vars, rng);
    let seed = random_seed(rng);
    Pcs::setup(1 << num_vars, 1, code, seed).unwrap()
}

fn proof_of(
    num_vars: usize,
    rng: &mut ChaCha8Rng,
) -> (
    brakingbase::brakingbase::BrakingbaseVerifierParams<Fr>,
    Vec<Fr>,
    Fr,
    Vec<ProofItem<Fr>>,
) {
    let params = params_for(num_vars, rng);
    let (pp, vp) = Pcs::trim(&params, 1 << num_vars, 1).unwrap();
    let evals: Vec<Fr> = (0..1 << num_vars).map(|_| random_element(rng)).collect();
    let poly = MultilinearPolynomial::new(evals);
    let point: Vec<Fr> = (0..num_vars).map(|_| random_element(rng)).collect();
    let mut transcript = Transcript::new();
    let comm = Pcs::commit_and_write(&pp, &poly, &mut transcript).unwrap();
    let eval = poly.evaluate(&point);
    Pcs::open(&pp, &poly, &comm, &point, &eval, &mut transcript).unwrap();
    (vp, point, eval, transcript.into_proof())
}

fn verify(
    vp: &brakingbase::brakingbase::BrakingbaseVerifierParams<Fr>,
    point: &Vec<Fr>,
    eval: &Fr,
    proof: Vec<ProofItem<Fr>>,
) -> Result<(), Error> {
    let mut transcript = Transcript::from_proof(proof);
    let comms = Pcs::read_commitments(vp, 1, &mut transcript)?;
    Pcs::verify(vp, &comms[0], point, eval, &mut transcript)
}

/// The proof with one added to the element at `at`, or with one bit of the digest there flipped.
fn changed_at(proof: &Vec<ProofItem<Fr>>, at: usize) -> Vec<ProofItem<Fr>> {
    let mut changed = proof.clone();
    changed[at] = match changed[at] {
        ProofItem::Element(x) => ProofItem::Element(x.add(Fr::one())),
        ProofItem::Commitment(mut d) => {
            d[0] ^= 1;
            ProofItem::Commitment(d)
        }
    };
    changed
}

#[test]
fn test_merkle_paths() {
    let mut msg = vec![Fr::zero(); 4096];
    for i in 1..msg.len() {
        msg[i] = msg[i - 1];
    }
    let merkle_tree = merkelize::<Fr, Blake2s256>(&msg);
    let mut transcript = Vec::<Output>::new();
    let idx = 767;
    write_merkle_path_2(idx, &merkle_tree, &mut transcript);
    let mut elems = (Fr::zero(), Fr::zero());
    if idx % 2 == 0 {
        elems.0 = msg[idx];
        elems.1 = msg[idx + 1];
    } else {
        elems.0 = msg[idx + 1];
        elems.1 = msg[idx];
    }
    authenticate_merkle_path::<Fr, Blake2s256>(
        idx,
        &elems,
        &transcript,
        &merkle_tree[merkle_tree.len() - 1][0],
    )
    .unwrap();
}

#[test]
fn test_eq() {
    let mut b = Vec::<Fr>::new();
    b.push(Fr::one().add(Fr::one()));
    b.push(b[0].add(Fr::one()));
    b.push(b[1].add(Fr::one()));
    b.push(b[2].add(Fr::one()));
    let mut a = Fr::zero();
    for i in 0..16 {
        let temp = eq(i, &b);
        a = a.add(temp);
    }
    assert!(a.equals(Fr::one()));
}

#[test]
fn test_point_to_tensor() {
    let mut point = vec![Fr::zero(); 4];
    for i in 1..point.len() {
        point[i] = point[i - 1].add(Fr::one());
    }
    let (x_0, x_1) = point_to_tensor(4, &point);
    assert_eq!(x_0.len(), 4);
    assert_eq!(x_1.len(), 4);
}

#[test]
fn test_trim() {
    let num_vars = 13;
    let batch_size = 1;
    let mut rng = ChaCha8Rng::from_entropy();
    let code = random_code(num_vars, &mut rng);
    let seed = random_seed(&mut rng);
    let params = Pcs::setup(1 << num_vars, batch_size, code, seed).unwrap();
    let (pp, vp) = Pcs::trim(&params, 1 << num_vars, 1).unwrap();
    assert_eq!(pp.num_vars(), 13);
    assert_eq!(pp.brakedown.num_column_opening, params.brakedown.num_column_opening);
    assert_eq!(vp.num_vars, 13);
}

#[test]
fn brakingbase_commit_open_verify() {
    let mut rng = ChaCha8Rng::from_entropy();
    for num_vars in 4..10 {
        let (vp, point, eval, proof) = proof_of(num_vars, &mut rng);
        verify(&vp, &point, &eval, proof).unwrap();
    }
}

#[test]
fn setups_keep_the_sizes() {
    let mut rng = ChaCha8Rng::from_seed([1u8; 32]);
    for num_vars in 4..9 {
        let code = random_code(num_vars, &mut rng);
        let (row_len, codeword_len, entries) = (code.row_len, code.codeword_len, code.matrix.row.len());
        let params = Pcs::setup(1 << num_vars, 1, code, [2u8; 32]).unwrap();
        assert_eq!(params.num_vars, num_vars);
        assert_eq!(params.brakedown_row_len, row_len);
        assert_eq!(params.brakedown_codeword_len, codeword_len);
        assert_eq!(params.brakedown_num_rows * row_len, 1 << num_vars);
        assert_eq!(params.basefold_poly_size, entries.next_power_of_two());
        assert_eq!(params.basefold.seed, [2u8; 32]);
        assert_eq!(params.parity_check_matrix.row.len(), entries);
    }
}

#[test]
fn polynomials_with_too_many_variables_are_refused() {
    let mut rng = ChaCha8Rng::from_seed([3u8; 32]);
    let params = params_for(5, &mut rng);
    let (pp, _) = Pcs::trim(&params, 1 << 5, 1).unwrap();
    let large = MultilinearPolynomial::new(vec![Fr::one(); 64]);
    let fitting = MultilinearPolynomial::new(vec![Fr::one(); 32]);
    assert_eq!(Pcs::commit(&pp, &large).err(), Some(Error::TooManyVariates));
    let mut transcript = Transcript::new();
    assert_eq!(
        Pcs::commit_and_write(&pp, &large, &mut transcript).err(),
        Some(Error::TooManyVariates)
    );
    assert_eq!(transcript.into_proof().len(), 0);
    assert_eq!(
        Pcs::batch_commit(&pp, &vec![fitting, large]).err(),
        Some(Error::TooManyVariates)
    );
}

#[test]
fn batches_commit_one_by_one() {
    let mut rng = ChaCha8Rng::from_seed([4u8; 32]);
    let params = params_for(5, &mut rng);
    let (pp, vp) = Pcs::trim(&params, 1 << 5, 1).unwrap();
    let draw = |rng: &mut ChaCha8Rng| {
        MultilinearPolynomial::new((0..32).map(|_| random_element(rng)).collect())
    };
    let polys = vec![draw(&mut rng), draw(&mut rng)];
    let comms = Pcs::batch_commit(&pp, &polys).unwrap();
    assert_eq!(comms.len(), 2);
    let mut transcript = Transcript::new();
    for i in 0..2 {
        let one = Pcs::commit_and_write(&pp, &polys[i], &mut transcript).unwrap();
        assert_eq!(one.as_ref(), comms[i].as_ref());
        assert_eq!(one.rows.len(), pp.brakedown_num_rows * pp.brakedown.codeword_len);
    }
    assert_ne!(comms[0].as_ref(), comms[1].as_ref());
    let mut transcript = Transcript::from_proof(transcript.into_proof());
    let read = Pcs::read_commitments(&vp, 2, &mut transcript).unwrap();
    assert_eq!(read[1].as_ref(), comms[1].as_ref());
    assert_eq!(
        Pcs::read_commitments(&vp, 1, &mut transcript).err(),
        Some(Error::Transcript)
    );
}

#[test]
fn rows_of_a_commitment_are_codewords() {
    let mut rng = ChaCha8Rng::from_seed([5u8; 32]);
    let params = params_for(5, &mut rng);
    let (pp, _) = Pcs::trim(&params, 1 << 5, 1).unwrap();
    let evals: Vec<Fr> = (0..32).map(|_| random_element(&mut rng)).collect();
    let comm = Pcs::commit(&pp, &MultilinearPolynomial::new(evals.clone())).unwrap();
    let row_len = pp.brakedown.row_len;
    let codeword_len = pp.brakedown.codeword_len;
    assert_eq!(comm.rows.len(), pp.brakedown_num_rows * codeword_len);
    for i in 0..pp.brakedown_num_rows {
        let expected = pp.brakedown.encode(&evals[i * row_len..(i + 1) * row_len].to_vec());
        let row = &comm.rows[i * codeword_len..(i + 1) * codeword_len];
        assert_eq!(row.len(), expected.len());
        assert!(row.iter().zip(expected.iter()).all(|(x, y)| x.equals(*y)));
    }
    let column: Vec<Fr> = (0..pp.brakedown_num_rows).map(|i| comm.rows[i * codeword_len]).collect();
    let width = codeword_len.next_power_of_two();
    assert_eq!(comm.intermediate_hashes.len(), 2 * width - 2);
    assert_eq!(comm.intermediate_hashes[0], hash_elements::<Fr, Blake2s256>(&column));
    assert_eq!(comm.intermediate_hashes[width - 1], [0u8; 32]);
    assert_eq!(
        comm.intermediate_hashes[width],
        hash_pair::<Blake2s256>(&comm.intermediate_hashes[0], &comm.intermediate_hashes[1])
    );
    let n = comm.intermediate_hashes.len();
    assert_eq!(
        comm.root,
        hash_pair::<Blake2s256>(&comm.intermediate_hashes[n - 2], &comm.intermediate_hashes[n - 1])
    );
}

#[test]
fn commitments_without_a_polynomial() {
    let empty = BrakingbaseCommitment::<Fr>::default();
    assert_eq!(*empty.as_ref(), [0u8; 32]);
    assert_eq!(empty.intermediate_hashes, vec![[0u8; 32]]);
    assert_eq!(empty.rows.len(), 0);
    let root = BrakingbaseCommitment::<Fr>::from_root([6u8; 32]);
    assert_eq!(*root.as_ref(), [6u8; 32]);
    assert_eq!(root.intermediate_hashes.len(), 0);
    assert_eq!(root.as_slice(), &[[6u8; 32]]);
    let slice: &[Output] = AsRef::<[Output]>::as_ref(&root);
    assert_eq!(slice, &[[6u8; 32]]);
    let digest: &Output = AsRef::<Output>::as_ref(&root);
    assert_eq!(digest, &[6u8; 32]);
}

#[test]
fn batched_openings_send_nothing() {
    let mut rng = ChaCha8Rng::from_seed([7u8; 32]);
    let params = params_for(4, &mut rng);
    let (pp, vp) = Pcs::trim(&params, 1 << 4, 1).unwrap();
    let mut transcript = Transcript::new();
    Pcs::batch_open(&pp, &vec![], &vec![], &vec![], &vec![], &mut transcript).unwrap();
    let proof = transcript.into_proof();
    assert_eq!(proof.len(), 0);
    let mut transcript = Transcript::from_proof(proof);
    Pcs::batch_verify(&vp, &vec![], &vec![], &vec![], &mut transcript).unwrap();
}

#[test]
fn openings_that_were_changed_are_refused() {
    let mut rng = ChaCha8Rng::from_seed([8u8; 32]);
    let (vp, point, eval, proof) = proof_of(5, &mut rng);
    assert_eq!(verify(&vp, &point, &eval, proof.clone()), Ok(()));
    let mut seen = Vec::new();
    let mut at = 0;
    while at < proof.len() {
        let refused = verify(&vp, &point, &eval, changed_at(&proof, at)).err();
        assert!(refused.is_some(), "item {} may be changed", at);
        seen.push(refused.unwrap());
        at += 1 + at / 8;
    }
    assert!(seen.contains(&Error::SumCheck));
    assert!(seen.contains(&Error::MerklePath));
    assert!(seen.contains(&Error::GrandProduct));
    let mut short = proof.clone();
    short.pop();
    assert_eq!(verify(&vp, &point, &eval, short), Err(Error::Transcript));
}

#[test]
fn openings_at_another_point_are_refused() {
    let mut rng = ChaCha8Rng::from_seed([9u8; 32]);
    let (vp, point, eval, proof) = proof_of(5, &mut rng);
    for i in 0..point.len() {
        let mut other = point.clone();
        other[i] = other[i].add(Fr::one());
        assert!(verify(&vp, &other, &eval, proof.clone()).is_err());
    }
}

#[test]
fn foldings_with_other_weights_are_refused() {
    let mut rng = ChaCha8Rng::from_seed([10u8; 32]);
    let params = params_for(5, &mut rng);
    let (mut pp, vp) = Pcs::trim(&params, 1 << 5, 1).unwrap();
    let weights = &mut pp.basefold.table_w_weights;
    let top = weights.len() - 1;
    for w in weights[top].iter_mut() {
        w.1 = w.1.add(Fr::one());
    }
    let poly = MultilinearPolynomial::new((0..32).map(|_| random_element(&mut rng)).collect());
    let point: Vec<Fr> = (0..5).map(|_| random_element(&mut rng)).collect();
    let mut transcript = Transcript::new();
    let comm = Pcs::commit_and_write(&pp, &poly, &mut transcript).unwrap();
    let eval = poly.evaluate(&point);
    Pcs::open(&pp, &poly, &comm, &point, &eval, &mut transcript).unwrap();
    assert_eq!(verify(&vp, &point, &eval, transcript.into_proof()), Err(Error::FinalOracle));
}

#[test]
fn openings_are_refused_by_another_table() {
    let mut rng = ChaCha8Rng::from_seed([11u8; 32]);
    let (mut vp, point, eval, proof) = proof_of(5, &mut rng);
    vp.basefold.seed[0] ^= 1;
    assert_eq!(verify(&vp, &point, &eval, proof), Err(Error::Folding));
}

#[test]
fn sum_checks_of_an_opening_are_told_apart() {
    let mut rng = ChaCha8Rng::from_seed([12u8; 32]);
    let (vp, point, eval, proof) = proof_of(5, &mut rng);
    let refused = |at: usize| verify(&vp, &point, &eval, changed_at(&proof, at));
    let depth = vp.brakedown_codeword_len.next_power_of_two().trailing_zeros() as usize;
    let first = 3 + vp.num_brakedown_queries * (vp.brakedown_num_rows + depth);
    let first_evals = first + 3 * (vp.brakedown_row_len.trailing_zeros() as usize + 1);
    for at in first..first_evals + 3 {
        assert_eq!(refused(at), Err(Error::SumCheck));
    }
    let second = first_evals + 4;
    let second_evals = second + 4 * vp.basefold.num_vars;
    for at in second..second_evals {
        assert_eq!(refused(at), Err(Error::SecondSumCheck));
    }
    for at in second_evals..second_evals + 3 {
        assert_eq!(refused(at), Err(Error::SumCheck));
    }
}

#[test]
fn the_last_folded_codeword_is_checked() {
    let mut rng = ChaCha8Rng::from_seed([13u8; 32]);
    let (vp, point, eval, proof) = proof_of(5, &mut rng);
    let digest = |at: usize| matches!(proof[at], ProofItem::Commitment(_));
    let mut last = proof.len() - 1;
    while !(digest(last)
        && !digest(last - 1)
        && !digest(last - 2)
        && !digest(last - 3)
        && digest(last - 4))
    {
        last -= 1;
    }
    assert_eq!(verify(&vp, &point, &eval, changed_at(&proof, last)), Err(Error::FinalOracle));
    assert_eq!(verify(&vp, &point, &eval, changed_at(&proof, last - 1)), Err(Error::SumCheck));
}
