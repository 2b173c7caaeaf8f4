use gkr::circuit::{Circuit, Gate, Layer, Op};
use gkr::error::GkrError;
use gkr::field::Fq;
use gkr::gkr::{eval_wb_wc, prove, verify};
use gkr::mle::MultilinearPolynomial;
use gkr::shamir::reconstruct_secret;

fn to_field(input: Vec<u64>) -> Vec<Fq> {
    input.into_iter().map(Fq::from_u64).collect()
}

fn gate(op: char, left: usize, right: usize, output: usize) -> Gate {
    Gate::new(op, left, right, output).unwrap()
}

fn layers() -> Vec<Layer> {
    vec![
        Layer::init(vec![gate('+', 0, 1, 0)]),
        Layer::init(vec![gate('+', 0, 1, 0), gate('*', 2, 3, 1)]),
        Layer::init(vec![gate('+', 0, 1, 0), gate('*', 2, 3, 1), gate('*', 4, 5, 2), gate('*', 6, 7, 3)]),
    ]
}

fn circuit() -> Circuit {
    Circuit::create(to_field(vec![1, 2, 3, 4, 5, 6, 7, 8]), layers())
}

#[test]
fn honest_circuit_proof_is_accepted() {
    let mut prover_circuit = circuit();
    let proof = prove(&mut prover_circuit).unwrap();
    assert_eq!(proof.sumcheck_proofs.len(), 3);
    assert_eq!(proof.wb_evals.len(), 3);
    let mut verifier_circuit = circuit();
    assert!(verify(&mut verifier_circuit, &to_field(vec![1695]), &proof).unwrap());
}

#[test]
fn two_layer_circuit_proof_is_accepted() {
    let build = || {
        Circuit::create(
            to_field(vec![1, 2, 3, 4]),
            vec![
                Layer::init(vec![gate('+', 0, 1, 0)]),
                Layer::init(vec![gate('+', 0, 1, 0), gate('*', 2, 3, 1)]),
            ],
        )
    };
    let mut c = build();
    let proof = prove(&mut c).unwrap();
    assert!(verify(&mut build(), &to_field(vec![15]), &proof).unwrap());
    assert!(!verify(&mut build(), &to_field(vec![16]), &proof).unwrap());
}

#[test]
fn wrong_output_claim_is_rejected() {
    let proof = prove(&mut circuit()).unwrap();
    assert!(!verify(&mut circuit(), &to_field(vec![1696]), &proof).unwrap());
}

#[test]
fn flipping_any_gate_is_rejected() {
    let base = layers();
    for l in 0..base.len() {
        for g in 0..base[l].gates.len() {
            let mut flipped = base.clone();
            let op = flipped[l].gates[g].op;
            flipped[l].gates[g].op = if op == Op::Add { Op::Mul } else { Op::Add };
            let mut bad = Circuit::create(to_field(vec![1, 2, 3, 4, 5, 6, 7, 8]), flipped);
            let proof = prove(&mut bad).unwrap();
            assert!(!verify(&mut circuit(), &to_field(vec![1695]), &proof).unwrap());
        }
    }
}

#[test]
fn truncated_proof_is_malformed() {
    let mut proof = prove(&mut circuit()).unwrap();
    proof.sumcheck_proofs.pop();
    assert_eq!(
        verify(&mut circuit(), &to_field(vec![1695]), &proof).unwrap_err(),
        GkrError::MalformedProof
    );
}

#[test]
fn tampered_layer_value_is_rejected() {
    let mut proof = prove(&mut circuit()).unwrap();
    proof.wb_evals[2] = proof.wb_evals[2].add(&Fq::one());
    assert!(!verify(&mut circuit(), &to_field(vec![1695]), &proof).unwrap());
}

#[test]
fn eval_wb_wc_splits_the_challenges() {
    let w = MultilinearPolynomial::new(to_field(vec![0, 2, 0, 5]));
    let challenges = to_field(vec![5, 2, 1, 1]);
    let (b, c) = eval_wb_wc(&w, &w, &challenges).unwrap();
    assert_eq!(b, Fq::from_u64(34));
    assert_eq!(c, Fq::from_u64(5));
    assert_eq!(eval_wb_wc(&w, &w, &to_field(vec![1, 2])).unwrap_err(), GkrError::InvalidArity);
}

#[test]
fn secret_is_reconstructed_from_shares() {
    // 123 + 5x + 2x^2 at x = 1, 2, 3.
    let shares = [(1, 130), (2, 141), (3, 156)];
    assert_eq!(reconstruct_secret(&shares), Some(123));
    assert_eq!(reconstruct_secret(&[(1, 5), (1, 6)]), None);
    assert_eq!(reconstruct_secret(&[]), Some(0));
}

#[test]
fn round_with_wrong_sample_count_is_malformed() {
    let mut proof = prove(&mut circuit()).unwrap();
    proof.sumcheck_proofs[1].round_polys[0].pop();
    assert_eq!(
        verify(&mut circuit(), &to_field(vec![1695]), &proof).unwrap_err(),
        GkrError::MalformedProof
    );
}

#[test]
fn circuit_without_layer_shapes_is_refused() {
    // Layer 1 reads three values, which is not a power of two.
    let build = || {
        Circuit::create(
            to_field(vec![1, 2, 3]),
            vec![
                Layer::init(vec![gate('+', 0, 1, 0)]),
                Layer::init(vec![gate('+', 0, 1, 0), gate('*', 1, 2, 1)]),
            ],
        )
    };
    assert_eq!(prove(&mut build()).unwrap_err(), GkrError::DimensionMismatch);
    let honest = prove(&mut circuit()).unwrap();
    assert!(verify(&mut build(), &to_field(vec![9]), &honest).is_err());
}

#[test]
fn claimed_output_of_three_values_is_refused() {
    let proof = prove(&mut circuit()).unwrap();
    assert_eq!(
        verify(&mut circuit(), &to_field(vec![1, 2, 3]), &proof).unwrap_err(),
        GkrError::DimensionMismatch
    );
}
