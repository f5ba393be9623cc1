use shuffle::commitment::CommitKey;
use shuffle::config::PublicConfig;
use shuffle::error::Error;
use shuffle::group::Point;
use shuffle::product_argument;
use shuffle::product_argument::Nonces;
use shuffle::scalar::Scalar;
use shuffle::shuffle_proof::Proof;
use shuffle::transcript::ProofTranscript;
use shuffle::wire::{
    bytes_of_words, decode, encode, is_well_formed, words_of_bytes, HEADER_WORDS,
};

const MODULUS: [u64; 4] = [
    4891460686036598785,
    2896914383306846353,
    13281191951274694749,
    3486998266802970665,
];

fn wire_config(n: usize) -> PublicConfig {
    let generators = (0..n)
        .map(|i| Point::generator().mul(&Scalar::from_u64(500 + i as u64)))
        .collect::<Vec<_>>();
    PublicConfig::new(CommitKey::new(generators, Point::generator()), n).unwrap()
}

fn wire_proof(config: &PublicConfig, permutation: &Vec<u64>) -> Proof {
    let mut transcript = ProofTranscript::new(b"wire_test");
    let nonces = Nonces::random(permutation.len());
    Proof::prove(config, &mut transcript, permutation, Scalar::random(), Scalar::random(), &nonces)
        .unwrap()
}

fn small_proof() -> Proof {
    Proof {
        pi_commit: Point::generator(),
        exp_pi_commit: Point::identity(),
        product_argument_proof: product_argument::Proof {
            d_commit: Point::generator(),
            delta_commit: Point::generator(),
            diff_commit: Point::identity(),
            a_blinded: vec![Scalar::from_u64(7)],
            b_blinded: vec![],
            r_blinded: Scalar::from_limbs([1, 2, 3, 4]).unwrap(),
            s_blinded: Scalar::zero(),
        },
    }
}

fn same(a: &Proof, b: &Proof) -> bool {
    a.pi_commit == b.pi_commit
        && a.exp_pi_commit == b.exp_pi_commit
        && a.product_argument_proof.d_commit == b.product_argument_proof.d_commit
        && a.product_argument_proof.delta_commit == b.product_argument_proof.delta_commit
        && a.product_argument_proof.diff_commit == b.product_argument_proof.diff_commit
        && a.product_argument_proof.a_blinded == b.product_argument_proof.a_blinded
        && a.product_argument_proof.b_blinded == b.product_argument_proof.b_blinded
        && a.product_argument_proof.r_blinded == b.product_argument_proof.r_blinded
        && a.product_argument_proof.s_blinded == b.product_argument_proof.s_blinded
}

#[test]
fn words_are_written_least_significant_byte_first() {
    assert_eq!(bytes_of_words(&vec![]), Vec::<u8>::new());
    assert_eq!(
        bytes_of_words(&vec![0x0102030405060708, 1]),
        vec![8, 7, 6, 5, 4, 3, 2, 1, 1, 0, 0, 0, 0, 0, 0, 0]
    );
    assert_eq!(
        words_of_bytes(&[8, 7, 6, 5, 4, 3, 2, 1, 1, 0, 0, 0, 0, 0, 0, 0]),
        Some(vec![0x0102030405060708, 1])
    );
    assert_eq!(words_of_bytes(&[]), Some(vec![]));
    assert_eq!(words_of_bytes(&[1, 2, 3]), None);
    assert_eq!(words_of_bytes(&[0; 9]), None);
    let words = vec![u64::MAX, 0, 42, 1 << 63];
    assert_eq!(words_of_bytes(&bytes_of_words(&words)), Some(words));
}

#[test]
fn proof_is_laid_out_word_by_word() {
    let bytes = encode(&small_proof());
    let words = words_of_bytes(&bytes).unwrap();
    let generator = [0u64, 1, 0, 0, 0, 2, 0, 0, 0];
    let infinity = [1u64, 0, 0, 0, 0, 1, 0, 0, 0];
    let mut expected = Vec::new();
    expected.extend_from_slice(&generator);
    expected.extend_from_slice(&infinity);
    expected.extend_from_slice(&generator);
    expected.extend_from_slice(&generator);
    expected.extend_from_slice(&infinity);
    expected.extend_from_slice(&[1, 2, 3, 4]);
    expected.extend_from_slice(&[0, 0, 0, 0]);
    expected.extend_from_slice(&[1, 7, 0, 0, 0]);
    expected.extend_from_slice(&[0]);
    assert_eq!(words, expected);
    assert_eq!(words.len(), HEADER_WORDS + 2 + 4);
    assert_eq!(bytes.len(), 8 * 59);
}

#[test]
fn decoding_inverts_encoding() {
    assert!(same(&decode(&encode(&small_proof())).unwrap(), &small_proof()));
    for permutation in [vec![0], vec![1, 0, 2], vec![3, 2, 1, 0, 4]] {
        let config = wire_config(permutation.len());
        let proof = wire_proof(&config, &permutation);
        let received = decode(&encode(&proof)).unwrap();
        assert!(same(&received, &proof));
        assert_eq!(encode(&received), encode(&proof));
    }
}

#[test]
fn proof_that_went_over_the_wire_keeps_its_verdict() {
    let config = wire_config(4);
    let valid = wire_proof(&config, &vec![2, 3, 0, 1]);
    let invalid = wire_proof(&config, &vec![2, 2, 0, 1]);
    let mut changed = wire_proof(&config, &vec![0, 1, 2, 3]);
    changed.product_argument_proof.a_blinded.pop();
    for proof in [valid, invalid, changed] {
        let mut transcript = ProofTranscript::new(b"wire_test");
        let before = proof.verify(&config, &mut transcript);
        let received = decode(&encode(&proof)).unwrap();
        let mut transcript = ProofTranscript::new(b"wire_test");
        assert_eq!(received.verify(&config, &mut transcript), before);
    }
    let valid = wire_proof(&config, &vec![2, 3, 0, 1]);
    let mut transcript = ProofTranscript::new(b"wire_test");
    assert_eq!(decode(&encode(&valid)).unwrap().verify(&config, &mut transcript), Ok(()));
    let invalid = wire_proof(&config, &vec![2, 2, 0, 1]);
    let mut transcript = ProofTranscript::new(b"wire_test");
    assert_eq!(
        decode(&encode(&invalid)).unwrap().verify(&config, &mut transcript),
        Err(Error::VerificationFailure)
    );
}

#[test]
fn decoding_rejects_bytes_that_are_missing_or_left_over() {
    let bytes = encode(&small_proof());
    assert!(decode(&bytes).is_some());
    assert!(decode(&[]).is_none());
    assert!(decode(&bytes[..bytes.len() - 1]).is_none());
    assert!(decode(&bytes[..bytes.len() - 8]).is_none());
    assert!(decode(&bytes[..8 * HEADER_WORDS]).is_none());
    assert!(decode(&bytes[..8 * (HEADER_WORDS + 1)]).is_none());
    let mut longer = bytes.clone();
    longer.push(0);
    assert!(decode(&longer).is_none());
    longer.extend_from_slice(&[0; 7]);
    assert!(decode(&longer).is_none());
    longer.extend_from_slice(&[0; 24]);
    assert!(decode(&longer).is_none());
}

fn with_word(words: &Vec<u64>, at: usize, value: u64) -> Vec<u8> {
    let mut changed = words.clone();
    changed[at] = value;
    bytes_of_words(&changed)
}

#[test]
fn decoding_rejects_what_is_no_proof() {
    let words = words_of_bytes(&encode(&small_proof())).unwrap();
    assert!(decode(&bytes_of_words(&words)).is_some());
    // A flag that is neither zero nor one, and a flag that does not fit the coordinates.
    assert!(decode(&with_word(&words, 0, 2)).is_none());
    assert!(decode(&with_word(&words, 0, 1)).is_none());
    assert!(decode(&with_word(&words, 9, 0)).is_none());
    // A point off the curve: (1, 3).
    assert!(decode(&with_word(&words, 5, 3)).is_none());
    // A point at infinity with other coordinates.
    assert!(decode(&with_word(&words, 10, 1)).is_none());
    assert!(decode(&with_word(&words, 14, 2)).is_none());
    // A coordinate at or above the modulus.
    assert!(decode(&with_word(&words, 4, u64::MAX)).is_none());
    // A scalar at or above the group order: the blinding factor, then an entry.
    assert!(decode(&with_word(&words, 48, u64::MAX)).is_none());
    let mut modulus = words.clone();
    modulus[49..53].copy_from_slice(&MODULUS);
    assert!(decode(&bytes_of_words(&modulus)).is_none());
    modulus[49] -= 1;
    assert!(decode(&bytes_of_words(&modulus)).is_some());
    assert!(decode(&with_word(&words, 57, u64::MAX)).is_none());
    // Lengths that do not fit what follows.
    assert!(decode(&with_word(&words, 53, 0)).is_none());
    assert!(decode(&with_word(&words, 53, 2)).is_none());
    assert!(decode(&with_word(&words, 53, u64::MAX)).is_none());
    assert!(decode(&with_word(&words, 58, 1)).is_none());
    assert!(decode(&with_word(&words, 58, u64::MAX)).is_none());
}

#[test]
fn proofs_held_in_memory_are_well_formed() {
    assert!(is_well_formed(&small_proof()));
    let config = wire_config(3);
    let proof = wire_proof(&config, &vec![1, 2, 0]);
    assert!(is_well_formed(&proof));
    assert!(is_well_formed(&decode(&encode(&proof)).unwrap()));
    let mut changed = wire_proof(&config, &vec![1, 2, 0]);
    changed.product_argument_proof.b_blinded.clear();
    changed.pi_commit = Point::identity();
    assert!(is_well_formed(&changed));
}
