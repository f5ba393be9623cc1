use shuffle::chaum_pedersen_dl_equality as chaum_pedersen;
use shuffle::chaum_pedersen_dl_equality::DLEquality;
use shuffle::cipher::ElgamalCipher;
use shuffle::discrete_log_cards::remasking;
use shuffle::discrete_log_cards::revealing;
use shuffle::discrete_log_cards::{
    ComputationStatement, EncryptionParameters, Parameters, RevealToken,
};
use shuffle::error::Error;
use shuffle::group::Point;
use shuffle::scalar::Scalar;
use shuffle::schnorr_identification as schnorr;
use shuffle::transcript::ProofTranscript;

fn multiple(n: u64) -> Point {
    Point::generator().mul(&Scalar::from_u64(n))
}

#[test]
fn schnorr_proof_of_the_secret_key_is_valid() {
    let pp = schnorr::Parameters { generator: multiple(5) };
    for _ in 0..5 {
        let secret = Scalar::random();
        let public_key = pp.generator.mul(&secret);
        let statement = schnorr::Statement { statement: &public_key };
        let witness = schnorr::Witness { discrete_log_representation: secret };
        let proof = schnorr::Prover::create_proof(&pp, &statement, &witness);
        assert_eq!(proof.verify(&pp, &statement), Ok(()));
    }
}

#[test]
fn schnorr_proof_is_made_from_the_nonce() {
    let pp = schnorr::Parameters { generator: Point::generator() };
    let secret = Scalar::from_u64(1234);
    let public_key = pp.generator.mul(&secret);
    let statement = schnorr::Statement { statement: &public_key };
    let witness = schnorr::Witness { discrete_log_representation: secret };
    let nonce = Scalar::from_u64(987654321);
    let proof = schnorr::Prover::create_proof_with_nonce(&pp, &statement, &witness, nonce);

    let random_commit = pp.generator.mul(&nonce);
    let mut transcript = ProofTranscript::new(b"schnorr_identity");
    transcript.append_point(b"public_generator", &pp.generator);
    transcript.append_point(b"public_key", &public_key);
    transcript.append_point(b"witness_commit", &random_commit);
    let c = transcript.challenge_scalar(b"c");

    assert_eq!(proof.random_commit, random_commit);
    assert_eq!(proof.opening, nonce.sub(&c.mul(&secret)));
    assert_eq!(proof.verify(&pp, &statement), Ok(()));

    let again = schnorr::Prover::create_proof_with_nonce(&pp, &statement, &witness, nonce);
    assert_eq!(again.random_commit, proof.random_commit);
    assert_eq!(again.opening, proof.opening);
}

#[test]
fn schnorr_proof_for_another_key_is_invalid() {
    let pp = schnorr::Parameters { generator: Point::generator() };
    let secret = Scalar::from_u64(1234);
    let public_key = pp.generator.mul(&secret);
    let statement = schnorr::Statement { statement: &public_key };
    let witness = schnorr::Witness { discrete_log_representation: secret };
    let proof = schnorr::Prover::create_proof(&pp, &statement, &witness);

    let other_key = multiple(1235);
    let other = schnorr::Statement { statement: &other_key };
    assert_eq!(proof.verify(&pp, &other), Err(Error::VerificationFailure));

    let wrong = schnorr::Witness { discrete_log_representation: Scalar::from_u64(1235) };
    let proof = schnorr::Prover::create_proof(&pp, &statement, &wrong);
    assert_eq!(proof.verify(&pp, &statement), Err(Error::VerificationFailure));

    let mut proof = schnorr::Prover::create_proof(&pp, &statement, &witness);
    proof.opening = proof.opening.add(&Scalar::one());
    assert_eq!(proof.verify(&pp, &statement), Err(Error::VerificationFailure));

    let other_pp = schnorr::Parameters { generator: multiple(2) };
    let proof = schnorr::Prover::create_proof(&pp, &statement, &witness);
    assert_eq!(proof.verify(&other_pp, &statement), Err(Error::VerificationFailure));
}

#[test]
fn chaum_pedersen_proof_of_equal_logarithms_is_valid() {
    let parameters = chaum_pedersen::Parameters::new(multiple(3), multiple(7));
    for _ in 0..5 {
        let secret = Scalar::random();
        let statement =
            chaum_pedersen::Statement::new(parameters.g.mul(&secret), parameters.h.mul(&secret));
        let proof = DLEquality::prove(&parameters, &statement, &secret).unwrap();
        assert_eq!(DLEquality::verify(&parameters, &statement, &proof), Ok(()));
    }
}

#[test]
fn chaum_pedersen_proof_is_made_from_the_nonce() {
    let parameters = chaum_pedersen::Parameters::new(multiple(3), multiple(7));
    let secret = Scalar::from_u64(55);
    let statement = chaum_pedersen::Statement::new(multiple(165), multiple(385));
    let omega = Scalar::from_u64(1000003);
    let proof = DLEquality::prove_with_nonce(&parameters, &statement, &secret, omega);

    let mut transcript = ProofTranscript::new(b"chaum_pedersen");
    transcript.append_point(b"g", &parameters.g);
    transcript.append_point(b"h", &parameters.h);
    transcript.append_point(b"x", &statement.0);
    transcript.append_point(b"y", &statement.1);
    transcript.append_point(b"a", &multiple(3000009));
    transcript.append_point(b"b", &multiple(7000021));
    let c = transcript.challenge_scalar(b"c");

    assert_eq!(proof.a, multiple(3000009));
    assert_eq!(proof.b, multiple(7000021));
    assert_eq!(proof.r, omega.add(&c.mul(&secret)));
    assert_eq!(DLEquality::verify(&parameters, &statement, &proof), Ok(()));
}

#[test]
fn chaum_pedersen_proof_of_unequal_logarithms_is_invalid() {
    let parameters = chaum_pedersen::Parameters::new(multiple(3), multiple(7));
    let secret = Scalar::from_u64(55);
    let unequal = chaum_pedersen::Statement::new(multiple(165), multiple(386));
    let proof = DLEquality::prove(&parameters, &unequal, &secret).unwrap();
    assert_eq!(
        DLEquality::verify(&parameters, &unequal, &proof),
        Err(Error::VerificationFailure)
    );

    let statement = chaum_pedersen::Statement::new(multiple(165), multiple(385));
    let mut proof = DLEquality::prove(&parameters, &statement, &secret).unwrap();
    assert_eq!(DLEquality::verify(&parameters, &statement, &proof), Ok(()));
    proof.r = proof.r.add(&Scalar::one());
    assert_eq!(
        DLEquality::verify(&parameters, &statement, &proof),
        Err(Error::VerificationFailure)
    );
    let mut proof = DLEquality::prove(&parameters, &statement, &secret).unwrap();
    proof.b = proof.b.add(&Point::generator());
    assert_eq!(
        DLEquality::verify(&parameters, &statement, &proof),
        Err(Error::VerificationFailure)
    );
}

fn card_parameters() -> Parameters {
    Parameters { enc_parameters: EncryptionParameters { generator: multiple(9) } }
}

#[test]
fn remasking_comes_down_to_the_difference_of_the_cards() {
    let parameters = card_parameters();
    let generator = parameters.enc_parameters.generator;
    let public_key = generator.mul(&Scalar::from_u64(4321));
    let card = ElgamalCipher(multiple(100), multiple(200));
    let alpha = Scalar::from_u64(17);
    let remasked = card.add(&ElgamalCipher(generator.mul(&alpha), public_key.mul(&alpha)));
    let statement = remasking::Statement::new(card, remasked, (parameters, public_key));

    let (cp_parameters, cp_statement) = statement.to_chaum_pedersen();
    assert_eq!(cp_parameters, chaum_pedersen::Parameters::new(generator, public_key));
    assert_eq!(
        cp_statement,
        chaum_pedersen::Statement::new(generator.mul(&alpha), public_key.mul(&alpha))
    );
    let minus_one = Scalar::one().neg();
    assert_eq!(cp_statement.0, remasked.0.add(&card.0.mul(&minus_one)));
    assert_eq!(cp_statement.1, remasked.1.add(&card.1.mul(&minus_one)));
}

#[test]
fn remasking_proof_of_the_masking_factor_is_valid() {
    let parameters = card_parameters();
    let generator = parameters.enc_parameters.generator;
    let public_key = generator.mul(&Scalar::random());
    let card = ElgamalCipher(multiple(100), multiple(200));
    let alpha = Scalar::random();
    let remasked = card.add(&ElgamalCipher(generator.mul(&alpha), public_key.mul(&alpha)));
    let statement = remasking::Statement::new(card, remasked, (parameters, public_key));

    let proof = statement.prove(alpha).unwrap();
    assert_eq!(proof.verify(&statement), Ok(()));

    let wrong = statement.prove(alpha.add(&Scalar::one())).unwrap();
    assert_eq!(wrong.verify(&statement), Err(Error::VerificationFailure));

    let other_card = ElgamalCipher(multiple(101), multiple(200));
    let other = remasking::Statement::new(other_card, remasked, (parameters, public_key));
    assert_eq!(proof.verify(&other), Err(Error::VerificationFailure));
}

#[test]
fn reveal_comes_down_to_the_token_and_the_key() {
    let parameters = card_parameters();
    let generator = parameters.enc_parameters.generator;
    let secret = Scalar::from_u64(31337);
    let public_key = generator.mul(&secret);
    let card = ElgamalCipher(multiple(100), multiple(200));
    let token = RevealToken(card.0.mul(&secret));
    let statement = revealing::Statement::new(card, token, (parameters, public_key));

    let (cp_parameters, cp_statement) = statement.to_chaum_pedersen();
    assert_eq!(cp_parameters, chaum_pedersen::Parameters::new(card.0, generator));
    assert_eq!(cp_statement, chaum_pedersen::Statement::new(token.0, public_key));
}

#[test]
fn reveal_proof_of_the_secret_key_is_valid() {
    let parameters = card_parameters();
    let generator = parameters.enc_parameters.generator;
    let secret = Scalar::random();
    let public_key = generator.mul(&secret);
    let card = ElgamalCipher(multiple(100), multiple(200));
    let token = RevealToken(card.0.mul(&secret));
    let statement = revealing::Statement::new(card, token, (parameters, public_key));

    let proof = statement.prove(secret).unwrap();
    assert_eq!(proof.verify(&statement), Ok(()));

    let forged_token = RevealToken(card.0.mul(&secret).add(&Point::generator()));
    let forged = revealing::Statement::new(card, forged_token, (parameters, public_key));
    assert_eq!(proof.verify(&forged), Err(Error::VerificationFailure));
    let wrong = forged.prove(secret).unwrap();
    assert_eq!(wrong.verify(&forged), Err(Error::VerificationFailure));
}

#[test]
fn computation_statement_keeps_its_parts() {
    let statement = ComputationStatement::new(1u8, 2u16, (3u32, 4u64));
    assert_eq!(statement.input, 1);
    assert_eq!(statement.output, 2);
    assert_eq!(statement.public_parameters, (3, 4));
}
