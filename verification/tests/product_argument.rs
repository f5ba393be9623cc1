use shuffle::commitment::{CommitKey, PedersenCommitment};
use shuffle::config::PublicConfig;
use shuffle::error::Error;
use shuffle::group::Point;
use shuffle::product_argument::{Nonces, Proof};
use shuffle::scalar::Scalar;
use shuffle::transcript::ProofTranscript;

fn config_of(n: usize) -> PublicConfig {
    let generators = (0..n)
        .map(|i| Point::generator().mul(&Scalar::from_u64(1000 + i as u64)))
        .collect::<Vec<_>>();
    let key = CommitKey::new(generators, Point::generator().mul(&Scalar::from_u64(77)));
    PublicConfig::new(key, n).unwrap()
}

fn scalars(values: &[u64]) -> Vec<Scalar> {
    values.iter().map(|v| Scalar::from_u64(*v)).collect()
}

fn product(values: &[Scalar]) -> Scalar {
    values.iter().fold(Scalar::one(), |acc, v| acc.mul(v))
}

fn proof_for(config: &PublicConfig, a: &Vec<Scalar>, r: Scalar) -> (Point, Proof) {
    let a_commit = PedersenCommitment::commit_vector(config.commit_key(), a, r).unwrap();
    let mut transcript = ProofTranscript::new(b"product_argument_test");
    let nonces = Nonces::random(a.len());
    let proof = Proof::prove(config, &mut transcript, a_commit, a, r, &nonces).unwrap();
    (a_commit, proof)
}

#[test]
fn product_argument_accepts_an_honest_proof() {
    for n in 1..6usize {
        let config = config_of(n);
        let a = (0..n).map(|_| Scalar::random()).collect::<Vec<_>>();
        let r = Scalar::random();
        let (a_commit, proof) = proof_for(&config, &a, r);
        let mut transcript = ProofTranscript::new(b"product_argument_test");
        assert_eq!(proof.verify(&config, product(&a), a_commit, &mut transcript), Ok(()));
    }
}

#[test]
fn product_argument_rejects_a_wrong_product() {
    let config = config_of(3);
    let a = scalars(&[2, 3, 5]);
    let (a_commit, proof) = proof_for(&config, &a, Scalar::from_u64(9));
    let mut transcript = ProofTranscript::new(b"product_argument_test");
    assert_eq!(
        proof.verify(&config, Scalar::from_u64(31), a_commit, &mut transcript),
        Err(Error::VerificationFailure)
    );
    let mut transcript = ProofTranscript::new(b"product_argument_test");
    assert_eq!(proof.verify(&config, Scalar::from_u64(30), a_commit, &mut transcript), Ok(()));
}

#[test]
fn product_argument_rejects_a_forged_answer() {
    let config = config_of(3);
    let a = scalars(&[2, 3, 5]);
    let b = Scalar::from_u64(30);
    let (a_commit, proof) = proof_for(&config, &a, Scalar::from_u64(9));

    let mut forged = proof_for(&config, &a, Scalar::from_u64(9)).1;
    forged.a_blinded[1] = forged.a_blinded[1].add(&Scalar::one());
    let mut transcript = ProofTranscript::new(b"product_argument_test");
    assert_eq!(
        forged.verify(&config, b, a_commit, &mut transcript),
        Err(Error::VerificationFailure)
    );

    let mut forged = proof_for(&config, &a, Scalar::from_u64(9)).1;
    forged.s_blinded = forged.s_blinded.add(&Scalar::one());
    let mut transcript = ProofTranscript::new(b"product_argument_test");
    assert_eq!(
        forged.verify(&config, b, a_commit, &mut transcript),
        Err(Error::VerificationFailure)
    );

    let mut forged = proof_for(&config, &a, Scalar::from_u64(9)).1;
    forged.d_commit = forged.d_commit.add(&Point::generator());
    let mut transcript = ProofTranscript::new(b"product_argument_test");
    assert_eq!(
        forged.verify(&config, b, a_commit, &mut transcript),
        Err(Error::VerificationFailure)
    );

    let mut transcript = ProofTranscript::new(b"product_argument_test");
    assert_eq!(proof.verify(&config, b, a_commit, &mut transcript), Ok(()));
}

#[test]
fn product_argument_rejects_another_transcript() {
    let config = config_of(3);
    let a = scalars(&[2, 3, 5]);
    let (a_commit, proof) = proof_for(&config, &a, Scalar::from_u64(9));
    let mut transcript = ProofTranscript::new(b"another_label");
    assert_eq!(
        proof.verify(&config, Scalar::from_u64(30), a_commit, &mut transcript),
        Err(Error::VerificationFailure)
    );
}

#[test]
fn product_argument_reports_vectors_of_the_wrong_length() {
    let config = config_of(3);
    let a = scalars(&[2, 3, 5]);
    let (a_commit, mut proof) = proof_for(&config, &a, Scalar::from_u64(9));
    proof.a_blinded.push(Scalar::zero());
    let mut transcript = ProofTranscript::new(b"product_argument_test");
    assert_eq!(
        proof.verify(&config, Scalar::from_u64(30), a_commit, &mut transcript),
        Err(Error::DotProductLenError)
    );

    let mut transcript = ProofTranscript::new(b"product_argument_test");
    let short = scalars(&[2, 3]);
    let nonces = Nonces::random(3);
    assert!(matches!(
        Proof::prove(&config, &mut transcript, a_commit, &short, Scalar::one(), &nonces),
        Err(Error::DotProductLenError)
    ));
    let nonces = Nonces::random(2);
    assert!(matches!(
        Proof::prove(&config, &mut transcript, a_commit, &a, Scalar::one(), &nonces),
        Err(Error::DotProductLenError)
    ));
}

#[test]
fn product_argument_leaves_the_same_log_on_both_sides() {
    let config = config_of(2);
    let a = scalars(&[7, 11]);
    let r = Scalar::from_u64(5);
    let a_commit = PedersenCommitment::commit_vector(config.commit_key(), &a, r).unwrap();
    let mut prover = ProofTranscript::new(b"product_argument_test");
    let nonces = Nonces::random(2);
    let proof = Proof::prove(&config, &mut prover, a_commit, &a, r, &nonces).unwrap();
    let mut verifier = ProofTranscript::new(b"product_argument_test");
    assert_eq!(proof.verify(&config, Scalar::from_u64(77), a_commit, &mut verifier), Ok(()));
    assert_eq!(prover.challenge_scalar(b"next"), verifier.challenge_scalar(b"next"));
}
