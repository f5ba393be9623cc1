use ark_bn254::Fr;
use ark_ff::{BigInteger256, Field, PrimeField};
use rand::Rng;
use shuffle::scalar::Scalar;

const MODULUS: [u64; 4] = [
    4891460686036598785,
    2896914383306846353,
    13281191951274694749,
    3486998266802970665,
];

fn modulus_minus(n: u64) -> Scalar {
    Scalar::from_limbs([MODULUS[0] - n, MODULUS[1], MODULUS[2], MODULUS[3]]).unwrap()
}

fn as_field(s: &Scalar) -> Fr {
    Fr::from_repr(BigInteger256(s.to_limbs())).unwrap()
}

fn from_field(f: Fr) -> Scalar {
    Scalar::from_limbs(f.into_repr().0).unwrap()
}

#[test]
fn scalar_constants_have_their_values() {
    assert_eq!(Scalar::zero().to_limbs(), [0, 0, 0, 0]);
    assert_eq!(Scalar::one().to_limbs(), [1, 0, 0, 0]);
    assert_eq!(Scalar::from_u64(u64::MAX).to_limbs(), [u64::MAX, 0, 0, 0]);
    assert_eq!(Scalar::from_u64(0), Scalar::zero());
}

#[test]
fn scalar_from_limbs_accepts_exactly_what_lies_below_the_modulus() {
    assert!(Scalar::from_limbs(MODULUS).is_none());
    assert!(Scalar::from_limbs([MODULUS[0] + 1, MODULUS[1], MODULUS[2], MODULUS[3]]).is_none());
    assert!(Scalar::from_limbs([0, 0, 0, MODULUS[3] + 1]).is_none());
    assert!(Scalar::from_limbs([u64::MAX; 4]).is_none());
    assert!(Scalar::from_limbs([u64::MAX, u64::MAX, u64::MAX, MODULUS[3] - 1]).is_some());
    assert!(Scalar::from_limbs([u64::MAX, u64::MAX, MODULUS[2] - 1, MODULUS[3]]).is_some());
    assert_eq!(modulus_minus(1).to_limbs(), [MODULUS[0] - 1, MODULUS[1], MODULUS[2], MODULUS[3]]);
    assert_eq!(Scalar::from_limbs([5, 6, 7, 8]).unwrap().to_limbs(), [5, 6, 7, 8]);
}

#[test]
fn scalar_sum_wraps_at_the_modulus() {
    assert_eq!(Scalar::from_u64(2).add(&Scalar::from_u64(3)), Scalar::from_u64(5));
    assert_eq!(modulus_minus(1).add(&Scalar::one()), Scalar::zero());
    assert_eq!(modulus_minus(1).add(&Scalar::from_u64(10)), Scalar::from_u64(9));
    assert_eq!(
        Scalar::from_u64(u64::MAX).add(&Scalar::one()).to_limbs(),
        [0, 1, 0, 0]
    );
}

#[test]
fn scalar_difference_wraps_below_zero() {
    assert_eq!(Scalar::from_u64(7).sub(&Scalar::from_u64(3)), Scalar::from_u64(4));
    assert_eq!(Scalar::from_u64(3).sub(&Scalar::from_u64(7)), modulus_minus(4));
    assert_eq!(Scalar::zero().sub(&Scalar::one()), modulus_minus(1));
    assert_eq!(Scalar::from_u64(9).sub(&Scalar::from_u64(9)), Scalar::zero());
}

#[test]
fn scalar_product_is_reduced() {
    assert_eq!(Scalar::from_u64(6).mul(&Scalar::from_u64(7)), Scalar::from_u64(42));
    assert_eq!(
        Scalar::from_u64(1 << 63).mul(&Scalar::from_u64(4)).to_limbs(),
        [0, 2, 0, 0]
    );
    assert_eq!(modulus_minus(1).mul(&modulus_minus(1)), Scalar::one());
    assert_eq!(modulus_minus(1).mul(&Scalar::from_u64(5)), modulus_minus(5));
    assert_eq!(Scalar::from_u64(12345).mul(&Scalar::zero()), Scalar::zero());
}

#[test]
fn scalar_negation_of_zero_is_zero() {
    assert_eq!(Scalar::zero().neg(), Scalar::zero());
    assert_eq!(Scalar::one().neg(), modulus_minus(1));
    assert_eq!(modulus_minus(3).neg(), Scalar::from_u64(3));
}

#[test]
fn scalar_power_follows_the_exponent_limbs() {
    let two = Scalar::from_u64(2);
    assert_eq!(two.pow(&[0, 0, 0, 0]), Scalar::one());
    assert_eq!(two.pow(&[1, 0, 0, 0]), two);
    assert_eq!(two.pow(&[10, 0, 0, 0]), Scalar::from_u64(1024));
    assert_eq!(two.pow(&[64, 0, 0, 0]).to_limbs(), [0, 1, 0, 0]);
    // The second limb of the exponent weighs 2^64.
    let half = two.pow(&[1 << 32, 0, 0, 0]);
    assert_eq!(two.pow(&[0, 1, 0, 0]), half.pow(&[1 << 32, 0, 0, 0]));
    assert_eq!(two.pow(&[3, 1, 0, 0]), two.pow(&[0, 1, 0, 0]).mul(&Scalar::from_u64(8)));
    assert_eq!(Scalar::zero().pow(&[0, 0, 0, 0]), Scalar::one());
    assert_eq!(Scalar::from_u64(3).pow(&[4, 0, 0, 0]), Scalar::from_u64(81));
    // Fermat: x^(p - 1) is one.
    assert_eq!(
        Scalar::from_u64(5).pow(&[MODULUS[0] - 1, MODULUS[1], MODULUS[2], MODULUS[3]]),
        Scalar::one()
    );
}

#[test]
fn scalar_is_read_from_bytes_of_any_length() {
    assert_eq!(Scalar::from_le_bytes_mod_order(&[]), Scalar::zero());
    assert_eq!(Scalar::from_le_bytes_mod_order(&[7]), Scalar::from_u64(7));
    assert_eq!(Scalar::from_le_bytes_mod_order(&[1, 1]), Scalar::from_u64(257));
    let mut nine = [0u8; 9];
    nine[8] = 1;
    assert_eq!(Scalar::from_le_bytes_mod_order(&nine).to_limbs(), [0, 1, 0, 0]);
    // The modulus itself reads as zero, and the modulus plus two as two.
    let mut bytes = Vec::new();
    for limb in MODULUS {
        bytes.extend_from_slice(&limb.to_le_bytes());
    }
    assert_eq!(Scalar::from_le_bytes_mod_order(&bytes), Scalar::zero());
    bytes[0] += 2;
    assert_eq!(Scalar::from_le_bytes_mod_order(&bytes), Scalar::from_u64(2));
    // 2^256 reduced.
    let mut wide = [0u8; 33];
    wide[32] = 1;
    let expected = Scalar::from_u64(2).pow(&[256, 0, 0, 0]);
    assert_eq!(Scalar::from_le_bytes_mod_order(&wide), expected);
    let all = [0xffu8; 64];
    let expected = Scalar::from_u64(2).pow(&[512, 0, 0, 0]).sub(&Scalar::one());
    assert_eq!(Scalar::from_le_bytes_mod_order(&all), expected);
}

#[test]
fn scalar_is_written_as_thirty_two_bytes() {
    let mut expected = [0u8; 32];
    assert_eq!(Scalar::zero().to_le_bytes(), expected.to_vec());
    expected[0] = 0x02;
    expected[1] = 0x01;
    assert_eq!(Scalar::from_u64(258).to_le_bytes(), expected.to_vec());
    let s = Scalar::from_limbs([1, 2, 3, 4]).unwrap();
    let mut expected = Vec::new();
    for limb in [1u64, 2, 3, 4] {
        expected.extend_from_slice(&limb.to_le_bytes());
    }
    assert_eq!(s.to_le_bytes(), expected);
    assert_eq!(Scalar::from_le_bytes_mod_order(&s.to_le_bytes()), s);
}

#[test]
fn scalar_equality_is_equality_of_values() {
    let a = Scalar::from_limbs([1, 2, 3, 4]).unwrap();
    assert!(a.is_equal(&Scalar::from_limbs([1, 2, 3, 4]).unwrap()));
    assert!(!a.is_equal(&Scalar::from_limbs([0, 2, 3, 4]).unwrap()));
    assert!(!a.is_equal(&Scalar::from_limbs([1, 0, 3, 4]).unwrap()));
    assert!(!a.is_equal(&Scalar::from_limbs([1, 2, 0, 4]).unwrap()));
    assert!(!a.is_equal(&Scalar::from_limbs([1, 2, 3, 0]).unwrap()));
}

#[test]
fn scalar_arithmetic_is_the_field_arithmetic() {
    for _ in 0..20 {
        let a = Scalar::random();
        let b = Scalar::random();
        assert_eq!(a.add(&b), from_field(as_field(&a) + as_field(&b)));
        assert_eq!(a.sub(&b), from_field(as_field(&a) - as_field(&b)));
        assert_eq!(a.mul(&b), from_field(as_field(&a) * as_field(&b)));
        assert_eq!(a.neg(), from_field(-as_field(&a)));
        assert_eq!(a.pow(&b.to_limbs()), from_field(as_field(&a).pow(b.to_limbs())));
    }
}

#[test]
fn scalar_random_draws_differ() {
    let a = Scalar::random();
    let b = Scalar::random();
    let c = Scalar::random();
    assert!(a != b || b != c);
    assert!(Scalar::from_limbs(a.to_limbs()).is_some());
}

#[test]
fn scalars_of_small_numbers_add_and_multiply_as_numbers() {
    let mut rng = rand::thread_rng();
    for _ in 0..50 {
        let a: u32 = rng.gen();
        let b: u32 = rng.gen();
        let (a, b) = (a as u64, b as u64);
        assert_eq!(Scalar::from_u64(a).add(&Scalar::from_u64(b)), Scalar::from_u64(a + b));
        assert_eq!(Scalar::from_u64(a).mul(&Scalar::from_u64(b)), Scalar::from_u64(a * b));
        if a >= b {
            assert_eq!(Scalar::from_u64(a).sub(&Scalar::from_u64(b)), Scalar::from_u64(a - b));
        }
    }
}
