use shuffle::commitment::{CommitKey, PedersenCommitment};
use shuffle::error::Error;
use shuffle::group::Point;
use shuffle::multi_exponent_argument::{DotProduct, DotProductCalculator};
use shuffle::scalar::Scalar;
use shuffle::transcript::ProofTranscript;

fn key_of(n: u64) -> CommitKey {
    let generators =
        (0..n).map(|i| Point::generator().mul(&Scalar::from_u64(10 + i))).collect::<Vec<_>>();
    CommitKey::new(generators, Point::generator().mul(&Scalar::from_u64(3)))
}

#[test]
fn commitment_is_the_blinded_dot_product() {
    let key = key_of(3);
    let scalars = vec![Scalar::from_u64(2), Scalar::from_u64(5), Scalar::from_u64(7)];
    let blinding = Scalar::from_u64(11);
    let commitment = PedersenCommitment::commit_vector(&key, &scalars, blinding).unwrap();
    let by_hand = key
        .blinding_generator
        .mul(&blinding)
        .add(&key.generators[0].mul(&scalars[0]))
        .add(&key.generators[1].mul(&scalars[1]))
        .add(&key.generators[2].mul(&scalars[2]));
    assert_eq!(commitment, by_hand);
    // 3 * 11 + 10 * 2 + 11 * 5 + 12 * 7 = 192 times the generator.
    assert_eq!(commitment, Point::generator().mul(&Scalar::from_u64(192)));
}

#[test]
fn commitment_to_nothing_is_the_blinding_term() {
    let key = key_of(0);
    let commitment =
        PedersenCommitment::commit_vector(&key, &vec![], Scalar::from_u64(4)).unwrap();
    assert_eq!(commitment, Point::generator().mul(&Scalar::from_u64(12)));
    assert_eq!(key.len(), 0);
}

#[test]
fn commitment_asks_for_a_vector_as_long_as_the_key() {
    for n in 0..4u64 {
        for m in 0..4usize {
            let key = key_of(n);
            let scalars = vec![Scalar::one(); m];
            let result = PedersenCommitment::commit_vector(&key, &scalars, Scalar::one());
            if n as usize == m {
                assert!(result.is_ok());
            } else {
                assert_eq!(result, Err(Error::DotProductLenError));
            }
        }
    }
}

#[test]
fn commitment_hides_behind_the_blinding_factor() {
    let key = key_of(2);
    let scalars = vec![Scalar::from_u64(1), Scalar::from_u64(2)];
    let one = PedersenCommitment::commit_vector(&key, &scalars, Scalar::from_u64(1)).unwrap();
    let two = PedersenCommitment::commit_vector(&key, &scalars, Scalar::from_u64(2)).unwrap();
    assert_ne!(one, two);
    assert_eq!(one.add(&key.blinding_generator), two);
}

#[test]
fn commitments_add_up() {
    let key = key_of(2);
    let a = vec![Scalar::from_u64(1), Scalar::from_u64(2)];
    let b = vec![Scalar::from_u64(30), Scalar::from_u64(40)];
    let sum = vec![Scalar::from_u64(31), Scalar::from_u64(42)];
    let ca = PedersenCommitment::commit_vector(&key, &a, Scalar::from_u64(5)).unwrap();
    let cb = PedersenCommitment::commit_vector(&key, &b, Scalar::from_u64(6)).unwrap();
    let cs = PedersenCommitment::commit_vector(&key, &sum, Scalar::from_u64(11)).unwrap();
    assert_eq!(ca.add(&cb), cs);
}

#[test]
fn commit_key_is_absorbed_generator_by_generator() {
    let key = key_of(2);
    let mut by_key = ProofTranscript::new(b"key");
    key.append_to(&mut by_key, b"commit_key");
    let mut by_hand = ProofTranscript::new(b"key");
    by_hand.append_point(b"commit_key", &key.generators[0]);
    by_hand.append_point(b"commit_key", &key.generators[1]);
    by_hand.append_point(b"commit_key", &key.blinding_generator);
    assert_eq!(by_key.challenge_scalar(b"x"), by_hand.challenge_scalar(b"x"));

    let mut other = ProofTranscript::new(b"key");
    key_of(3).append_to(&mut other, b"commit_key");
    let mut again = ProofTranscript::new(b"key");
    key.append_to(&mut again, b"commit_key");
    assert_ne!(other.challenge_scalar(b"x"), again.challenge_scalar(b"x"));
}

#[test]
fn dot_products_have_their_values() {
    let g = Point::generator();
    let scalars = vec![Scalar::from_u64(2), Scalar::from_u64(3), Scalar::from_u64(4)];
    let others = vec![Scalar::from_u64(5), Scalar::from_u64(6), Scalar::from_u64(7)];
    assert_eq!(
        DotProductCalculator::scalars_by_scalars(&scalars, &others),
        Ok(Scalar::from_u64(56))
    );
    let points = vec![g, g.add(&g), g.mul(&Scalar::from_u64(10))];
    assert_eq!(
        DotProductCalculator::scalars_by_points(&scalars, &points),
        Ok(g.mul(&Scalar::from_u64(48)))
    );
    assert_eq!(DotProductCalculator::scalars_by_scalars(&vec![], &vec![]), Ok(Scalar::zero()));
    assert_eq!(DotProductCalculator::scalars_by_points(&vec![], &vec![]), Ok(Point::identity()));
    let minus_one = Scalar::one().neg();
    assert_eq!(
        DotProductCalculator::scalars_by_scalars(&vec![minus_one, minus_one], &vec![
            Scalar::from_u64(2),
            Scalar::from_u64(3)
        ]),
        Ok(Scalar::from_u64(5).neg())
    );
}
