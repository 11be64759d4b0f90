use brakingbase::brakingbase::{Brakingbase, BrakingbaseProverParams, BrakingbaseVerifierParams, Five};
use brakingbase::brakingbase_helper::{eq_xy, evaluate_poly};
use brakingbase::code::{Brakedown, ParityCheckMatrix};
use brakingbase::error::Error;
use brakingbase::field::PrimeField;
use brakingbase::fr::Fr;
use brakingbase::gkr::gkr::gkr_prover;
use brakingbase::hash::Blake2s256;
use brakingbase::indices::low_word;
use brakingbase::poly::MultilinearPolynomial;
use brakingbase::snark::batcheval::extend_if_required;
use brakingbase::snark::er1cs::{construct_matrices, er1cs_commit};
use brakingbase::snark::helper::SparseRep;
use brakingbase::snark::spartan::{prove_sat, verify_sat};
use brakingbase::snark::sum_check::{
    first_layer_sum_check, matrix_eval_sum_check, matrix_eval_sum_check_verifier,
    parallel_sum_checks,
};
use brakingbase::transcript::{
    read_challenges, squeeze_challenges, FiatShamirTranscript, ProofItem, TranscriptWrite,
};
use rand::rngs::OsRng;
use rand::Rng;

type Pcs = Brakingbase<Fr, Blake2s256, Five>;
type Transcript = FiatShamirTranscript<Fr, Blake2s256>;

fn random_element() -> Fr {
    let mut rng = OsRng;
    Fr::from_raw([rng.gen(), rng.gen(), rng.gen(), rng.gen()])
}

fn random_code(num_vars: usize) -> Brakedown<Fr> {
    let mut rng = OsRng;
    let num_rows = 2 * num_vars.next_power_of_two();
    let row_len = (1usize << num_vars) / num_rows;
    let parity = row_len / 2;
    let mut row = Vec::new();
    let mut col = Vec::new();
    let mut val = Vec::new();
    for j in 0..parity {
        for _ in 0..6 {
            row.push(rng.gen_range(0..row_len + j));
            col.push(j);
            val.push(random_element());
        }
    }
    Brakedown {
        row_len,
        codeword_len: row_len + parity,
        num_column_opening: 20,
        matrix: ParityCheckMatrix { row, col, val },
    }
}

fn random_entries(count: usize, num_cols: usize) -> Vec<(usize, Fr)> {
    let mut rng = OsRng;
    (0..count).map(|_| (rng.gen_range(0..num_cols), random_element())).collect()
}

struct Instance {
    a: SparseRep<Fr>,
    b: SparseRep<Fr>,
    c: SparseRep<Fr>,
    z: Vec<Fr>,
    e: MultilinearPolynomial<Fr>,
    w: MultilinearPolynomial<Fr>,
    u: Fr,
    pi: Vec<Fr>,
}

fn random_instance(sparsity: usize, num_const: usize, num_var: usize, num_pi: usize) -> Instance {
    let entries = (num_const - 1) * sparsity;
    let (a, b, c, z, e, w, u, pi) = construct_matrices(
        sparsity,
        num_const,
        num_var,
        num_pi,
        random_element(),
        random_element(),
        random_element(),
        &random_entries(entries, num_var - 1),
        &random_entries(entries, num_var - 1),
        &random_entries(entries, num_var - 1),
    );
    Instance { a, b, c, z, e, w, u, pi }
}

fn params(size: usize) -> (BrakingbaseProverParams<Fr>, BrakingbaseVerifierParams<Fr>) {
    let mut rng = OsRng;
    let num_vars = size.trailing_zeros() as usize;
    let param = Pcs::setup(size, 1, random_code(num_vars), rng.gen()).unwrap();
    Pcs::trim(&param, size, 1).unwrap()
}

fn prove(x: &Instance, pp: &BrakingbaseProverParams<Fr>, sparsity: usize) -> Vec<ProofItem<Fr>> {
    let mut transcript = Transcript::new();
    let (er1cs_metadata, commit1, commit2) = er1cs_commit::<Fr, Blake2s256, Five, Transcript>(
        &x.a,
        &x.b,
        &x.c,
        &x.e,
        &x.w,
        pp,
        sparsity,
        &mut transcript,
    );
    prove_sat::<Fr, Blake2s256, Five, Transcript>(
        &x.a,
        &x.b,
        &x.c,
        &x.u,
        &MultilinearPolynomial::new(x.z.clone()),
        &x.e,
        &x.w,
        er1cs_metadata,
        pp,
        &commit1,
        &commit2,
        &mut transcript,
    );
    transcript.into_proof()
}

fn check(
    num_const: usize,
    sparsity: usize,
    vp: &BrakingbaseVerifierParams<Fr>,
    u: Fr,
    pi: Vec<Fr>,
    proof: Vec<ProofItem<Fr>>,
) -> Result<(), Error> {
    let pi_indices: Vec<usize> = (0..1 << 5).collect();
    let mut transcript = Transcript::from_proof(proof);
    verify_sat::<Fr, Blake2s256, Five, Transcript>(
        num_const,
        sparsity,
        vp,
        u,
        MultilinearPolynomial::new(pi),
        pi_indices,
        &mut transcript,
    )
}

#[test]
fn er1cs_test() {
    let num_const = 1 << 10;
    let num_pi_inputs: usize = 8;
    let num_var = num_const - 1;
    let sparsity: usize = 2;
    assert_eq!(sparsity.is_power_of_two(), true, "sparsity must be a power of 2");
    assert_eq!(num_pi_inputs.is_power_of_two(), true, "num_pi_inputs must be a power of 2");
    let (pp, vp) = params(num_const * sparsity);
    let x = random_instance(sparsity, num_const, num_var, num_pi_inputs);
    let proof = prove(&x, &pp, sparsity);
    check(num_const, sparsity, &vp, x.u, x.pi.clone(), proof).unwrap();
}

#[test]
fn unsatisfied_constraints_are_refused() {
    let (num_const, sparsity) = (1 << 4, 2);
    let (pp, vp) = params(num_const * sparsity);
    let mut x = random_instance(sparsity, num_const, num_const - 1, 4);
    let proof = prove(&x, &pp, sparsity);
    assert_eq!(check(num_const, sparsity, &vp, x.u, x.pi.clone(), proof), Ok(()));
    x.e.evals[3] = x.e.evals[3].add(Fr::one());
    let proof = prove(&x, &pp, sparsity);
    assert_eq!(
        check(num_const, sparsity, &vp, x.u, x.pi.clone(), proof),
        Err(Error::SumCheck)
    );
}

#[test]
fn other_public_inputs_are_refused() {
    let (num_const, sparsity) = (1 << 4, 2);
    let (pp, vp) = params(num_const * sparsity);
    let x = random_instance(sparsity, num_const, num_const - 1, 4);
    let proof = prove(&x, &pp, sparsity);
    let mut pi = x.pi.clone();
    pi[1] = pi[1].add(Fr::one());
    let refused = check(num_const, sparsity, &vp, x.u, pi, proof.clone());
    assert_eq!(refused, Err(Error::SumCheckEvaluation));
    let u = x.u.add(Fr::one());
    let refused = check(num_const, sparsity, &vp, u, x.pi.clone(), proof);
    assert_eq!(refused, Err(Error::SumCheckEvaluation));
}

#[test]
fn proofs_that_were_changed_are_refused() {
    let (num_const, sparsity) = (1 << 3, 2);
    let (pp, vp) = params(num_const * sparsity);
    let x = random_instance(sparsity, num_const, num_const - 1, 2);
    let proof = prove(&x, &pp, sparsity);
    let n = proof.len();
    for at in 0..n {
        let mut changed = proof.clone();
        changed[at] = match changed[at] {
            ProofItem::Element(y) => ProofItem::Element(y.add(Fr::one())),
            ProofItem::Commitment(mut d) => {
                d[0] ^= 1;
                ProofItem::Commitment(d)
            }
        };
        // Thirty items from the end stands a table value that the others determine.
        let refused = check(num_const, sparsity, &vp, x.u, x.pi.clone(), changed).is_err();
        assert_eq!(refused, at != n - 30, "item {}", at);
        let short = proof[0..at].to_vec();
        assert_eq!(
            check(num_const, sparsity, &vp, x.u, x.pi.clone(), short),
            Err(Error::Transcript)
        );
    }
}

/// The layers of a product of the leaves.
fn product_circuit(leaves: Vec<Fr>) -> Vec<Vec<Fr>> {
    let mut layers = vec![leaves];
    while layers[layers.len() - 1].len() > 1 {
        let below = &layers[layers.len() - 1];
        let next: Vec<Fr> = below.chunks(2).map(|c| c[0].mul(c[1])).collect();
        layers.push(next);
    }
    layers
}

#[test]
fn products_that_do_not_balance_are_refused() {
    let (num_const, sparsity) = (1 << 4, 2);
    let (pp, vp) = params(num_const * sparsity);
    let x = random_instance(sparsity, num_const, num_const - 1, 4);
    let mut transcript = Transcript::new();
    let (metadata, _, _) = er1cs_commit::<Fr, Blake2s256, Five, Transcript>(
        &x.a,
        &x.b,
        &x.c,
        &x.e,
        &x.w,
        &pp,
        sparsity,
        &mut transcript,
    );
    let rx = first_layer_sum_check(
        &x.a,
        &x.b,
        &x.c,
        &x.u,
        &x.z,
        x.e.evals().clone(),
        &mut transcript,
    );
    let rx_basis = eq_xy(&rx);
    let ry = parallel_sum_checks(
        &x.a,
        &x.b,
        &x.c,
        x.z.clone(),
        rx_basis.clone(),
        &mut transcript,
    );
    transcript.write_field_element(&x.w.evaluate(&ry));
    let ry_basis = eq_xy(&ry);
    let metas = [metadata.A, metadata.B, metadata.C];
    let look_up = |t: &Vec<Fr>, at: &Vec<Fr>| -> Vec<Fr> {
        at.iter().map(|i| t[low_word(*i) as usize]).collect()
    };
    let e_rx: Vec<Vec<Fr>> = metas.iter().map(|m| look_up(&rx_basis, m.row.evals())).collect();
    let e_ry: Vec<Vec<Fr>> = metas.iter().map(|m| look_up(&ry_basis, m.col.evals())).collect();
    for t in e_rx.iter().chain(e_ry.iter()) {
        let poly = MultilinearPolynomial::new(t.clone());
        Pcs::commit_and_write(&pp, &poly, &mut transcript).unwrap();
    }
    let val: Vec<Vec<Fr>> = metas.iter().map(|m| m.val.evals().clone()).collect();
    matrix_eval_sum_check(val, e_rx, e_ry, &mut transcript);
    squeeze_challenges::<Fr, Transcript>(&mut transcript, 2);
    let draw = |n: usize| -> Vec<Fr> { (0..n).map(|_| random_element()).collect() };
    let first: Vec<Vec<Vec<Fr>>> = (0..8).map(|_| product_circuit(draw(num_const))).collect();
    gkr_prover(&first.iter().collect(), &mut transcript);
    let second: Vec<Vec<Vec<Fr>>> =
        (0..12).map(|_| product_circuit(draw(num_const * sparsity))).collect();
    gkr_prover(&second.iter().collect(), &mut transcript);
    assert_eq!(
        check(num_const, sparsity, &vp, x.u, x.pi.clone(), transcript.into_proof()),
        Err(Error::MemoryCheck)
    );
}

#[test]
fn values_of_the_matrices_are_checked() {
    let draw = |n: usize| -> Vec<Fr> { (0..n).map(|_| random_element()).collect() };
    let draw3 = || -> Vec<Vec<Fr>> { vec![draw(8), draw(8), draw(8)] };
    let (val, e_rx, e_ry) = (draw3(), draw3(), draw3());
    let mut transcript = Transcript::new();
    let point = matrix_eval_sum_check(val.clone(), e_rx.clone(), e_ry.clone(), &mut transcript);
    let proof = transcript.into_proof();
    let run = |wrong: Fr| {
        let mut transcript = Transcript::from_proof(proof.clone());
        let rc = read_challenges::<Fr, Transcript>(&mut transcript, 3);
        let mut claim = wrong;
        for c in 0..3 {
            for j in 0..8 {
                claim = claim.add(rc[c].mul(val[c][j].mul(e_rx[c][j]).mul(e_ry[c][j])));
            }
        }
        matrix_eval_sum_check_verifier(4, 2, claim, rc, &mut transcript)
    };
    let (p, at_rx, at_ry, at_val) = run(Fr::zero()).unwrap();
    assert_eq!(p.len(), 3);
    assert!(p.iter().zip(point.iter()).all(|(x, y)| x.equals(*y)));
    for c in 0..3 {
        assert!(at_rx[c].equals(evaluate_poly(&e_rx[c], &point)));
        assert!(at_ry[c].equals(evaluate_poly(&e_ry[c], &point)));
        assert!(at_val[c].equals(evaluate_poly(&val[c], &point)));
    }
    assert_eq!(run(Fr::one()).err(), Some(Error::SumCheck));
}

#[test]
fn short_tables_are_repeated() {
    let draw = |n: usize| -> Vec<Fr> { (0..n).map(|_| random_element()).collect() };
    let (mut t1, mut t2, mut t5) = (draw(4), draw(4), draw(4));
    let (mut y1, mut y2, mut y5) = (draw(2), draw(2), draw(2));
    let before = [
        evaluate_poly(&t1, &y1),
        evaluate_poly(&t2, &y2),
        evaluate_poly(&t5, &y5),
    ];
    extend_if_required(8, &mut t1, &mut t2, &mut t5, &mut y5, &mut y1, &mut y2);
    assert_eq!((t1.len(), t2.len(), t5.len()), (8, 8, 8));
    assert_eq!((y1.len(), y2.len(), y5.len()), (3, 3, 3));
    assert!(evaluate_poly(&t1, &y1).equals(before[0]));
    assert!(evaluate_poly(&t2, &y2).equals(before[1]));
    assert!(evaluate_poly(&t5, &y5).equals(before[2]));
    let kept = t1.clone();
    extend_if_required(8, &mut t1, &mut t2, &mut t5, &mut y5, &mut y1, &mut y2);
    assert!(t1.iter().zip(kept.iter()).all(|(x, y)| x.equals(*y)));
    assert_eq!(y1.len(), 3);
}

#[test]
fn metadata_can_be_cloned() {
    let x = random_instance(2, 1 << 3, (1 << 3) - 1, 2);
    let meta = x.a.get_metadata(2);
    let copy = meta.clone();
    assert!(copy.val.evals().iter().zip(meta.val.evals().iter()).all(|(a, b)| a.equals(*b)));
    assert_eq!(copy.timestamps.final_ts_row.num_vars(), meta.timestamps.final_ts_row.num_vars());
}
