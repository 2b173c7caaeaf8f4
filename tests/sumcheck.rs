use gkr::error::GkrError;
use gkr::field::Fq;
use gkr::mle::MultilinearPolynomial;
use gkr::poly::{ProductPoly, SumPoly};
use gkr::sumcheck::{interpolate_at, split_and_sum, GKRProver};
use gkr::transcript::{HashTrait, KeccakHasher, Transcript};

fn to_field(input: Vec<u64>) -> Vec<Fq> {
    input.into_iter().map(Fq::from_u64).collect()
}

fn mle(v: Vec<u64>) -> MultilinearPolynomial {
    MultilinearPolynomial::new(to_field(v))
}

fn example_poly() -> SumPoly {
    let poly1 = ProductPoly::new(vec![mle(vec![0, 0, 0, 2]), mle(vec![0, 0, 0, 3])]);
    let poly2 = ProductPoly::new(vec![mle(vec![0, 0, 0, 1]), mle(vec![0, 0, 0, 7])]);
    SumPoly::new(vec![poly1, poly2])
}

#[test]
fn test_split_and_sum() {
    let result = split_and_sum(&example_poly(), 2);
    assert_eq!(result, [Fq::from_u64(0), Fq::from_u64(13), Fq::from_u64(52)]);
}

#[test]
fn sumcheck_test_sumcheck() {
    let prover = GKRProver::new(example_poly(), Fq::from_u64(13));
    let proof = prover.prove().unwrap();
    let verify = prover.verify(&proof).unwrap();
    assert_eq!(verify, true);
}

#[test]
fn test_transcript() {
    let mut transcript = Transcript::init(KeccakHasher::new());
    transcript.absorb(b"hello world");
    let challenge = transcript.squeeze();
    // The same bytes give the same challenge; more bytes give another.
    let mut again = Transcript::init(KeccakHasher::new());
    again.absorb(b"hello ");
    again.absorb(b"world");
    assert_eq!(again.squeeze(), challenge);
    again.absorb(b"!");
    assert_ne!(again.squeeze(), challenge);
}

#[test]
fn keccak_hasher_hashes_what_was_appended() {
    let mut h = KeccakHasher::new();
    h.append(b"");
    let empty = h.generate_hash();
    // Keccak-256 of the empty string.
    assert_eq!(empty[0], 0xc5);
    assert_eq!(empty[1], 0xd2);
    assert_eq!(empty[31], 0x70);
    h.append(b"abc");
    let abc = h.generate_hash();
    assert_eq!(abc.len(), 32);
    assert_eq!(abc[0], 0x4e);
    assert_eq!(abc[1], 0x03);
}

#[test]
fn honest_proof_has_one_round_per_variable() {
    let prover = GKRProver::new(example_poly(), Fq::from_u64(13));
    let proof = prover.prove().unwrap();
    assert_eq!(proof.claimed_sum, Fq::from_u64(13));
    assert_eq!(proof.round_polys.len(), 2);
    assert_eq!(proof.random_challenges.len(), 2);
    assert_eq!(proof.round_polys[0], to_field(vec![0, 13, 52]));
    let first = proof.round_polys[0][0].add(&proof.round_polys[0][1]);
    assert_eq!(first, Fq::from_u64(13));
}

#[test]
fn honest_prover_is_accepted_on_a_larger_polynomial() {
    let poly1 = ProductPoly::new(vec![
        mle(vec![3, 1, 4, 1, 5, 9, 2, 6]),
        mle(vec![2, 7, 1, 8, 2, 8, 1, 8]),
        mle(vec![1, 1, 2, 3, 5, 8, 13, 21]),
    ]);
    let poly2 = ProductPoly::new(vec![mle(vec![0, 0, 0, 1, 0, 0, 2, 5])]);
    let poly = SumPoly::new(vec![poly1, poly2]);
    // Sum over the cube: 6 + 7 + 8 + 24 + 50 + 576 + 26 + 1008, plus 8.
    let prover = GKRProver::new(poly, Fq::from_u64(1713));
    let proof = prover.prove().unwrap();
    assert_eq!(proof.round_polys[0].len(), 4);
    assert!(prover.verify(&proof).unwrap());
}

#[test]
fn mutating_any_sample_is_rejected() {
    let prover = GKRProver::new(example_poly(), Fq::from_u64(13));
    let proof = prover.prove().unwrap();
    for round in 0..proof.round_polys.len() {
        for sample in 0..proof.round_polys[round].len() {
            let mut bad = proof.clone();
            bad.round_polys[round][sample] = bad.round_polys[round][sample].add(&Fq::one());
            assert_eq!(prover.verify(&bad).unwrap(), false);
        }
    }
}

#[test]
fn wrong_claim_is_rejected() {
    let honest = GKRProver::new(example_poly(), Fq::from_u64(13));
    let proof = honest.prove().unwrap();
    let lying = GKRProver::new(example_poly(), Fq::from_u64(14));
    assert_eq!(lying.verify(&proof).unwrap(), false);
    let lying_proof = lying.prove().unwrap();
    assert_eq!(lying.verify(&lying_proof).unwrap(), false);
}

#[test]
fn malformed_proofs_are_errors() {
    let prover = GKRProver::new(example_poly(), Fq::from_u64(13));
    let proof = prover.prove().unwrap();
    let mut short = proof.clone();
    short.round_polys.pop();
    assert_eq!(prover.verify(&short).unwrap_err(), GkrError::MalformedProof);
    let mut few = proof.clone();
    few.round_polys[1].pop();
    assert_eq!(prover.verify(&few).unwrap_err(), GkrError::MalformedProof);
    // The listed challenges are not read: the verifier derives its own.
    let mut forged = proof.clone();
    forged.random_challenges[0] = Fq::from_u64(5);
    forged.random_challenges.pop();
    assert_eq!(prover.verify(&forged).unwrap(), true);
}

#[test]
fn unshaped_polynomial_is_a_dimension_error() {
    let poly = SumPoly::new(vec![ProductPoly::new(vec![mle(vec![1, 2, 3, 4]), mle(vec![1, 2])])]);
    let prover = GKRProver::new(poly, Fq::zero());
    assert_eq!(prover.prove().unwrap_err(), GkrError::DimensionMismatch);
}

#[test]
fn interpolation_through_samples() {
    // The samples 1, 6, 17 of 1 + 2x + 3x^2; at x = 5 it is 86.
    let ys = to_field(vec![1, 6, 17]);
    assert_eq!(interpolate_at(&ys, Fq::from_u64(5)), Some(Fq::from_u64(86)));
    assert_eq!(interpolate_at(&ys, Fq::from_u64(2)), Some(Fq::from_u64(17)));
}
