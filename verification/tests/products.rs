use brakingbase::brakingbase_helper::{eq_xy, evaluate_eq, evaluate_poly};
use brakingbase::error::Error;
use brakingbase::field::PrimeField;
use brakingbase::fr::Fr;
use brakingbase::gkr::gkr::{gkr_prover, gkr_verifier, GkrTranscript};
use brakingbase::gkr::gpc::grand_product_circuits;
use brakingbase::hash::Blake2s256;
use brakingbase::sum_checks::{
    batch_sum_check_prover, batch_sum_check_verifier, first_sum_check_prover,
    second_sum_check_prover,
};
use brakingbase::timestamps::get_timestamps;
use brakingbase::transcript::{
    read_challenges, read_commitments, read_field_elements, squeeze_challenges, write_commitments,
    write_field_elements, FiatShamirTranscript, ProofItem, TranscriptRead, TranscriptWrite,
};

type Transcript = FiatShamirTranscript<Fr, Blake2s256>;

fn number(x: i64) -> Fr {
    if x < 0 {
        Fr::from_u64(x.unsigned_abs()).neg()
    } else {
        Fr::from_u64(x as u64)
    }
}

fn numbers(v: &[i64]) -> Vec<Fr> {
    v.iter().map(|x| number(*x)).collect()
}

fn same(a: &[Fr], b: &[Fr]) -> bool {
    a.len() == b.len() && a.iter().zip(b.iter()).all(|(x, y)| x.equals(*y))
}

#[test]
fn times_of_reads() {
    let row = numbers(&[1, 3, 1, 1]);
    let col = numbers(&[0, 0, 2, 0]);
    let (read_row, final_row, read_col, final_col) = get_timestamps(&row, &col, 4, 4);
    assert!(same(&read_row, &numbers(&[0, 0, 1, 2])));
    assert!(same(&final_row, &numbers(&[0, 3, 0, 1])));
    assert!(same(&read_col, &numbers(&[0, 1, 0, 2])));
    assert!(same(&final_col, &numbers(&[3, 0, 1, 0])));
}

#[test]
fn padded_reads_go_to_the_first_address() {
    let row = numbers(&[2, 1, 9, 9]);
    let col = numbers(&[0, 1, 9, 9]);
    let (read_row, final_row, read_col, final_col) = get_timestamps(&row, &col, 4, 2);
    assert!(same(&read_row, &numbers(&[0, 0, 1, 2])));
    assert!(same(&final_row, &numbers(&[0, 1, 3, 0])));
    assert!(same(&read_col, &numbers(&[0, 0, 1, 2])));
    assert!(same(&final_col, &numbers(&[3, 1, 0, 0])));
}

struct Memory {
    init: Vec<Vec<Fr>>,
    writes: Vec<Vec<Fr>>,
    finals: Vec<Vec<Fr>>,
    reads: Vec<Vec<Fr>>,
}

fn memory() -> Memory {
    let table = eq_xy(&numbers(&[3, 5]));
    let addresses = numbers(&[1, 3, 1, 1]);
    let values = vec![table[1], table[3], table[1], table[1]];
    let (read_ts, final_ts, _, _) = get_timestamps(&addresses, &addresses, 4, 4);
    let (mut init, mut writes, mut finals, mut reads) = grand_product_circuits(
        4,
        4,
        &vec![addresses],
        &vec![values],
        &vec![read_ts],
        &vec![final_ts],
        &table,
        &numbers(&[2, 3]),
    );
    Memory {
        init: init.remove(0),
        writes: writes.remove(0),
        finals: finals.remove(0),
        reads: reads.remove(0),
    }
}

#[test]
fn circuits_of_a_memory() {
    let m = memory();
    let table = [8, -10, -12, 15];
    let times = [0, 3, 0, 1];
    let init: Vec<i64> = (0..4).map(|i| i as i64 + 2 * table[i] - 3).collect();
    let finals: Vec<i64> = (0..4).map(|i| i as i64 + 2 * table[i] + 4 * times[i] - 3).collect();
    let addresses = [1usize, 3, 1, 1];
    let read_ts = [0, 0, 1, 2];
    let reads: Vec<i64> = (0..4)
        .map(|i| addresses[i] as i64 + 2 * table[addresses[i]] + 4 * read_ts[i] - 3)
        .collect();
    let writes: Vec<i64> = reads.iter().map(|x| x + 4).collect();
    assert!(same(&m.init[0], &numbers(&init)));
    assert!(same(&m.finals[0], &numbers(&finals)));
    assert!(same(&m.reads[0], &numbers(&reads)));
    assert!(same(&m.writes[0], &numbers(&writes)));
    assert!(same(&m.init[1], &numbers(&[init[0] * init[1], init[2] * init[3]])));
    assert_eq!(m.init.len(), 3);
    let product = |c: &Vec<Vec<Fr>>| c[2][0];
    assert!(product(&m.init)
        .mul(product(&m.writes))
        .equals(product(&m.finals).mul(product(&m.reads))));
}

fn gkr_proof(m: &Memory) -> (Vec<Fr>, Vec<ProofItem<Fr>>) {
    let mut transcript = Transcript::new();
    let point = gkr_prover(&vec![&m.init, &m.writes, &m.finals, &m.reads], &mut transcript);
    (point, transcript.into_proof())
}

#[test]
fn grand_products_are_accepted() {
    let m = memory();
    let (point, proof) = gkr_proof(&m);
    let mut transcript = Transcript::from_proof(proof);
    let (claim, coeff, read_point, finals) = gkr_verifier(2, &mut transcript, 4).unwrap();
    assert!(same(&point, &read_point));
    assert_eq!(finals.len(), 8);
    assert!(same(&finals[0..2], &m.init[1]));
    assert!(same(&finals[6..8], &m.reads[1]));
    let leaves = [&m.init[0], &m.writes[0], &m.finals[0], &m.reads[0]];
    let mut expected = number(0);
    for c in 0..4 {
        expected = expected.add(coeff[c].mul(evaluate_poly(leaves[c], &point)));
    }
    assert!(claim.equals(expected));
}

#[test]
fn grand_products_that_were_changed_are_refused() {
    let m = memory();
    let (_, proof) = gkr_proof(&m);
    let refusal = |proof: Vec<ProofItem<Fr>>| {
        let mut transcript = Transcript::from_proof(proof);
        gkr_verifier(2, &mut transcript, 4).err()
    };
    let mut changed = proof.clone();
    changed[0] = ProofItem::Element(number(1));
    assert_eq!(refusal(changed), Some(Error::SumCheck));
    let mut changed = proof.clone();
    let last = changed.len() - 1;
    changed[last] = ProofItem::Element(number(1));
    assert_eq!(refusal(changed), Some(Error::GrandProduct));
    let mut changed = proof.clone();
    changed.pop();
    assert_eq!(refusal(changed), Some(Error::Transcript));
    let mut changed = proof;
    changed[1] = ProofItem::Commitment([0u8; 32]);
    assert_eq!(refusal(changed), Some(Error::Transcript));
}

#[test]
fn records_of_grand_products() {
    let t = GkrTranscript::new(vec![numbers(&[1])], vec![], vec![vec![numbers(&[2])]]);
    assert!(same(&t.final_evaluations[0], &numbers(&[1])));
    assert_eq!(t.claimed_values.len(), 0);
    assert!(same(&t.polynomials[0][0], &numbers(&[2])));
}

#[test]
fn first_sum_check_sends_the_coefficients_backwards() {
    let mut transcript = Transcript::new();
    let mut points = numbers(&[0, 77]);
    first_sum_check_prover(
        1,
        numbers(&[2, 3]),
        numbers(&[5, 7]),
        numbers(&[1, 4]),
        numbers(&[1, 10]),
        &mut points,
        &mut transcript,
    );
    let proof = transcript.into_proof();
    assert_eq!(proof.len(), 4);
    let sent: Vec<Fr> = proof
        .iter()
        .map(|item| match item {
            ProofItem::Element(x) => *x,
            ProofItem::Commitment(_) => number(0),
        })
        .collect();
    // (5 + 2x)(2 + x) + 10 (1 + 3x)(2 + x) = 30 + 79x + 32x^2
    assert!(same(&sent[0..3], &numbers(&[32, 79, 30])));
    assert!(points[1].equals(number(77)));
    assert!(sent[3].equals(number(1).add(number(3).mul(points[0]))));
}

#[test]
fn second_sum_check_sends_a_cubic_backwards() {
    let mut transcript = Transcript::new();
    let mut points = numbers(&[0]);
    second_sum_check_prover(
        1,
        numbers(&[1, 2]),
        numbers(&[3, 5]),
        numbers(&[2, 3]),
        &mut points,
        &mut transcript,
    );
    let sent: Vec<Fr> = transcript
        .into_proof()
        .iter()
        .map(|item| match item {
            ProofItem::Element(x) => *x,
            ProofItem::Commitment(_) => number(0),
        })
        .collect();
    // (1 + x)(3 + 2x)(2 + x) = 6 + 13x + 9x^2 + 2x^3
    assert!(same(&sent[0..4], &numbers(&[2, 9, 13, 6])));
    let r = points[0];
    assert!(sent[4].equals(number(2).add(r)));
    assert!(sent[5].equals(number(1).add(r)));
    assert!(sent[6].equals(number(3).add(r).add(r)));
}

fn batch_proof(tables: &[Vec<Fr>], points: &[Vec<Fr>], c: &[Fr]) -> (Vec<Fr>, Vec<ProofItem<Fr>>) {
    // tables: wide, val, erow, ecol, row, col, read_row, read_col, times
    let n = tables[0].len();
    let weigh = |coeffs: &[Fr], ts: &[&Vec<Fr>]| -> Vec<Fr> {
        (0..n)
            .map(|j| {
                let mut x = number(0);
                for (c, t) in coeffs.iter().zip(ts.iter()) {
                    x = x.add(c.mul(t[j]));
                }
                x
            })
            .collect()
    };
    let bases: Vec<Vec<Fr>> = points.iter().map(eq_xy).collect();
    let mut polys = vec![
        weigh(&c[0..3], &[&bases[0], &bases[1], &bases[2]]),
        weigh(&c[3..6], &[&tables[1], &tables[2], &tables[3]]),
        weigh(
            &c[6..12],
            &[&tables[2], &tables[3], &tables[4], &tables[5], &tables[6], &tables[7]],
        ),
        weigh(&c[12..13], &[&tables[8]]),
    ];
    let eqs = vec![tables[0].clone(), bases[3].clone(), bases[4].clone(), bases[5].clone()];
    let mut transcript = Transcript::new();
    let (_, rp) = batch_sum_check_prover(&mut polys, eqs, &mut transcript);
    for t in &tables[1..] {
        transcript.write_field_element(&evaluate_poly(t, &rp));
    }
    (rp, transcript.into_proof())
}

#[test]
fn batched_claims_are_checked() {
    let tables: Vec<Vec<Fr>> = (0..9).map(|i| numbers(&[i + 1, 2 * i, 3 - i, 7])).collect();
    let points: Vec<Vec<Fr>> = (0..6).map(|i| numbers(&[i + 2, 5 - i])).collect();
    let c: Vec<Fr> = (0..13).map(|i| number(i * i + 1)).collect();
    let claims = [(0, 0), (0, 1), (0, 2), (1, 3), (2, 3), (3, 3), (2, 4), (3, 4), (4, 4), (5, 4), (6, 4), (7, 4), (8, 5)];
    let mut claim = number(0);
    for (i, (t, y)) in claims.iter().enumerate() {
        claim = claim.add(c[i].mul(evaluate_poly(&tables[*t], &points[*y])));
    }
    let (rp, proof) = batch_proof(&tables, &points, &c);
    let refs: Vec<&Vec<Fr>> = points.iter().collect();
    let mut transcript = Transcript::from_proof(proof.clone());
    let (evals, point) = batch_sum_check_verifier(&refs, claim, &mut transcript, &c).unwrap();
    assert!(same(&point, &rp));
    let order = [0usize, 2, 3, 1, 4, 5, 6, 7, 8];
    for i in 0..9 {
        assert!(evals[i].equals(evaluate_poly(&tables[order[i]], &rp)));
    }
    let mut transcript = Transcript::from_proof(proof.clone());
    let wrong = claim.add(number(1));
    assert_eq!(
        batch_sum_check_verifier(&refs, wrong, &mut transcript, &c).err(),
        Some(Error::SumCheck)
    );
    let mut changed = proof;
    let last = changed.len() - 1;
    changed[last] = ProofItem::Element(number(3));
    let mut transcript = Transcript::from_proof(changed);
    assert_eq!(
        batch_sum_check_verifier(&refs, claim, &mut transcript, &c).err(),
        Some(Error::SumCheckEvaluation)
    );
}

#[test]
fn both_sides_draw_the_same_challenges() {
    let mut sender = Transcript::new();
    write_field_elements(&mut sender, &numbers(&[4, 5]));
    write_commitments::<Fr, Transcript>(&mut sender, &vec![[7u8; 32]]);
    let sent = squeeze_challenges::<Fr, Transcript>(&mut sender, 3);
    sender.write_field_element(&number(6));
    let next = TranscriptWrite::<Fr>::squeeze_challenge(&mut sender);
    let mut receiver = Transcript::from_proof(sender.into_proof());
    assert!(same(&read_field_elements::<Fr, Transcript>(&mut receiver, 2).unwrap(), &numbers(&[4, 5])));
    assert_eq!(read_commitments::<Fr, Transcript>(&mut receiver, 1).unwrap(), vec![[7u8; 32]]);
    assert!(same(&read_challenges::<Fr, Transcript>(&mut receiver, 3), &sent));
    assert!(receiver.read_field_element().unwrap().equals(number(6)));
    assert!(TranscriptRead::<Fr>::squeeze_challenge(&mut receiver).equals(next));
    assert_eq!(receiver.read_field_element().err(), Some(Error::Transcript));
    assert!(!sent[0].equals(sent[1]));
    assert!(evaluate_eq(&sent, &sent).equals(evaluate_eq(&sent, &sent)));
}
