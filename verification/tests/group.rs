use ark_bn254::{Fq, Fr, G1Affine, G1Projective};
use ark_ec::{AffineCurve, ProjectiveCurve};
use ark_ff::{BigInteger256, PrimeField};
use ark_serialize::CanonicalSerialize;
use shuffle::cipher::ElgamalCipher;
use shuffle::commitment::CommitKey;
use shuffle::group::Point;
use shuffle::scalar::Scalar;

const BASE_MODULUS: [u64; 4] = [
    0x3c208c16d87cfd47,
    0x97816a916871ca8d,
    0xb85045b68181585d,
    0x30644e72e131a029,
];

fn from_curve(p: G1Affine) -> Point {
    if p.infinity {
        Point::identity()
    } else {
        Point::from_coordinates(p.x.into_repr().0, p.y.into_repr().0).unwrap()
    }
}

fn to_curve(p: &Point) -> G1Projective {
    match p.to_coordinates() {
        None => G1Projective::prime_subgroup_generator().mul([0u64]),
        Some((x, y)) => G1Affine::new(
            Fq::from_repr(BigInteger256(x)).unwrap(),
            Fq::from_repr(BigInteger256(y)).unwrap(),
            false,
        )
        .into_projective(),
    }
}

fn field(s: &Scalar) -> Fr {
    Fr::from_repr(BigInteger256(s.to_limbs())).unwrap()
}

#[test]
fn generator_is_the_point_one_two() {
    assert_eq!(
        Point::generator().to_coordinates(),
        Some(([1, 0, 0, 0], [2, 0, 0, 0]))
    );
    assert_eq!(Point::generator(), from_curve(G1Affine::prime_subgroup_generator()));
    assert_eq!(Point::identity().to_coordinates(), None);
}

#[test]
fn point_from_coordinates_asks_for_a_point_of_the_curve() {
    assert_eq!(
        Point::from_coordinates([1, 0, 0, 0], [2, 0, 0, 0]),
        Some(Point::generator())
    );
    // (1, 3) is not on the curve, nor is (0, 0).
    assert_eq!(Point::from_coordinates([1, 0, 0, 0], [3, 0, 0, 0]), None);
    assert_eq!(Point::from_coordinates([0, 0, 0, 0], [0, 0, 0, 0]), None);
    // (1, -2) is.
    let minus_two = [BASE_MODULUS[0] - 2, BASE_MODULUS[1], BASE_MODULUS[2], BASE_MODULUS[3]];
    assert!(Point::from_coordinates([1, 0, 0, 0], minus_two).is_some());
    // Coordinates at or above the modulus are refused, though 1 + q stands for 1.
    let one_more = [BASE_MODULUS[0] + 1, BASE_MODULUS[1], BASE_MODULUS[2], BASE_MODULUS[3]];
    assert_eq!(Point::from_coordinates(one_more, [2, 0, 0, 0]), None);
    assert_eq!(Point::from_coordinates([1, 0, 0, 0], BASE_MODULUS), None);
    assert_eq!(Point::from_coordinates([u64::MAX; 4], [2, 0, 0, 0]), None);
}

#[test]
fn point_sum_has_the_point_at_infinity_as_neutral_element() {
    let g = Point::generator();
    let o = Point::identity();
    assert_eq!(g.add(&o), g);
    assert_eq!(o.add(&g), g);
    assert_eq!(o.add(&o), o);
    let minus_g = g.mul(&Scalar::one().neg());
    assert_eq!(g.add(&minus_g), o);
    assert!(g.add(&minus_g).is_equal(&Point::identity()));
}

#[test]
fn point_sum_is_the_sum_on_the_curve() {
    let g = Point::generator();
    let two_g = g.add(&g);
    assert_ne!(two_g, g);
    assert_eq!(two_g, from_curve((to_curve(&g) + to_curve(&g)).into_affine()));
    for _ in 0..10 {
        let p = g.mul(&Scalar::random());
        let q = g.mul(&Scalar::random());
        assert_eq!(p.add(&q), from_curve((to_curve(&p) + to_curve(&q)).into_affine()));
        assert_eq!(p.add(&q), q.add(&p));
        assert_eq!(p.add(&p), p.mul(&Scalar::from_u64(2)));
    }
}

#[test]
fn point_multiple_is_the_multiple_on_the_curve() {
    let g = Point::generator();
    assert_eq!(g.mul(&Scalar::zero()), Point::identity());
    assert_eq!(g.mul(&Scalar::one()), g);
    assert_eq!(g.mul(&Scalar::from_u64(3)), g.add(&g).add(&g));
    assert_eq!(Point::identity().mul(&Scalar::from_u64(5)), Point::identity());
    for _ in 0..10 {
        let k = Scalar::random();
        let expected = G1Affine::prime_subgroup_generator().mul(field(&k).into_repr());
        assert_eq!(g.mul(&k), from_curve(expected.into_affine()));
        let l = Scalar::random();
        assert_eq!(g.mul(&k).mul(&l), g.mul(&k.mul(&l)));
        assert_eq!(g.mul(&k).add(&g.mul(&l)), g.mul(&k.add(&l)));
    }
}

#[test]
fn point_encoding_is_the_compressed_encoding() {
    let mut expected = Vec::new();
    G1Affine::prime_subgroup_generator().serialize(&mut expected).unwrap();
    assert_eq!(Point::generator().to_bytes(), expected);
    assert_eq!(expected.len(), 32);

    let p = Point::generator().mul(&Scalar::from_u64(99));
    let mut expected = Vec::new();
    to_curve(&p).into_affine().serialize(&mut expected).unwrap();
    assert_eq!(p.to_bytes(), expected);
    assert_ne!(p.to_bytes(), Point::generator().to_bytes());

    let mut infinity = vec![0u8; 32];
    infinity[31] = 1 << 6;
    assert_eq!(Point::identity().to_bytes(), infinity);
}

#[test]
fn point_equality_is_equality_of_coordinates() {
    let g = Point::generator();
    let h = g.add(&g);
    assert!(g.is_equal(&Point::generator()));
    assert!(!g.is_equal(&h));
    assert!(!g.is_equal(&Point::identity()));
    assert!(Point::identity().is_equal(&Point::identity()));
    let minus_g = g.mul(&Scalar::one().neg());
    assert!(!g.is_equal(&minus_g));
}

#[test]
fn cipher_operations_work_entry_by_entry() {
    let g = Point::generator();
    let a = ElgamalCipher(g.mul(&Scalar::from_u64(2)), g.mul(&Scalar::from_u64(3)));
    let b = ElgamalCipher(g.mul(&Scalar::from_u64(5)), g.mul(&Scalar::from_u64(7)));
    assert_eq!(
        a.add(&b),
        ElgamalCipher(g.mul(&Scalar::from_u64(7)), g.mul(&Scalar::from_u64(10)))
    );
    assert_eq!(
        a.mul(&Scalar::from_u64(4)),
        ElgamalCipher(g.mul(&Scalar::from_u64(8)), g.mul(&Scalar::from_u64(12)))
    );
    assert_eq!(ElgamalCipher::zero(), ElgamalCipher(Point::identity(), Point::identity()));
    assert_eq!(a.add(&ElgamalCipher::zero()), a);
    assert_eq!(ElgamalCipher::zero().add(&a), a);
    assert_eq!(a.mul(&Scalar::zero()), ElgamalCipher::zero());
    assert!(a.is_equal(&a));
    assert!(!a.is_equal(&b));
    assert!(!a.is_equal(&ElgamalCipher(a.0, b.1)));
}

#[test]
fn points_made_by_the_library_are_in_the_group() {
    let g = Point::generator();
    assert!(g.is_in_group());
    assert!(Point::identity().is_in_group());
    assert!(g.add(&g).is_in_group());
    assert!(g.mul(&Scalar::random()).is_in_group());
    assert!(g.mul(&Scalar::one().neg()).add(&g).is_in_group());
    let p = Point::from_coordinates([1, 0, 0, 0], [2, 0, 0, 0]).unwrap();
    assert!(p.is_in_group());
    for _ in 0..5 {
        let q = g.mul(&Scalar::random()).add(&g.mul(&Scalar::random()));
        assert!(q.is_in_group());
        assert_eq!(q.is_in_group(), to_curve(&q).into_affine().is_on_curve());
    }
}

#[test]
fn commit_key_of_points_is_in_the_group() {
    let key = CommitKey::new(
        vec![Point::generator(), Point::generator().mul(&Scalar::from_u64(9)), Point::identity()],
        Point::generator().mul(&Scalar::from_u64(5)),
    );
    assert!(key.is_in_group());
    assert!(CommitKey::new(vec![], Point::identity()).is_in_group());
}

#[test]
fn point_encoding_flags_the_larger_root() {
    // The generator (1, 2): 2 is the smaller of 2 and q - 2.
    let mut expected = vec![0u8; 32];
    expected[0] = 1;
    assert_eq!(Point::generator().to_bytes(), expected);
    // Its negative (1, q - 2) has the top bit set.
    let minus_g = Point::generator().mul(&Scalar::one().neg());
    expected[31] = 0x80;
    assert_eq!(minus_g.to_bytes(), expected);
    assert_eq!(
        minus_g.to_coordinates().unwrap().1,
        [BASE_MODULUS[0] - 2, BASE_MODULUS[1], BASE_MODULUS[2], BASE_MODULUS[3]]
    );
    // A point with a wide first coordinate: its limbs, least significant byte first.
    let p = Point::generator().mul(&Scalar::from_u64(7));
    let (x, y) = p.to_coordinates().unwrap();
    let mut expected = Vec::new();
    for limb in x {
        expected.extend_from_slice(&limb.to_le_bytes());
    }
    let negative = (-Fq::from_repr(BigInteger256(y)).unwrap()).into_repr().0;
    let larger = (y[3], y[2], y[1], y[0]) > (negative[3], negative[2], negative[1], negative[0]);
    if larger {
        expected[31] |= 0x80;
    }
    assert_eq!(p.to_bytes(), expected);
    let q = p.mul(&Scalar::one().neg());
    assert_eq!(q.to_bytes()[31] & 0x80 != 0, !larger);
    assert_eq!(q.to_bytes()[..31], p.to_bytes()[..31]);
}
