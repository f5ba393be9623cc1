//! The group: points of the BN254 curve `y^2 = x^3 + 3` in affine coordinates.
//!
//! A [`Point`] holds the limbs of its two coordinates. The group law is that of
//! ark-ec's short Weierstrass arithmetic, which this module calls; what a sum
//! or a multiple is, as coordinates, is left to [`point_sum`] and
//! [`point_product`].

use crate::scalar::{
    le_bytes_of, lemma_limbs_value_injective, limbs_below, limbs_value, scalar_modulus, Scalar,
};
use ark_bn254::{Fq, G1Affine};
use ark_ec::{AffineCurve, ProjectiveCurve};
use ark_ff::{BigInteger256, PrimeField};
use ark_serialize::CanonicalSerialize;
use vstd::prelude::*;

verus! {

/// The order of the field that the coordinates live in, a 254-bit prime.
pub open spec fn base_modulus() -> nat {
    21888242871839275222246405745257275088696311157297823662689037894645226208583nat
}

/// A point as numbers: its coordinates, or the point at infinity.
pub struct AffinePoint {
    pub x: nat,
    pub y: nat,
    pub infinity: bool,
}

/// The neutral element of the group, the point at infinity.
pub open spec fn identity_point() -> AffinePoint {
    AffinePoint { x: 0, y: 1, infinity: true }
}

/// Whether two coordinates satisfy the curve equation.
pub open spec fn on_curve(x: nat, y: nat) -> bool {
    (y * y) % base_modulus() == (x * x * x + 3) % base_modulus()
}

/// The sum of two points under the group law.
pub uninterp spec fn point_sum(a: AffinePoint, b: AffinePoint) -> AffinePoint;

/// The multiple of a point by a number.
pub uninterp spec fn point_product(p: AffinePoint, k: nat) -> AffinePoint;

/// Whether a coordinate, as a number, is larger than its negative in the
/// coordinate field.
pub open spec fn is_larger_root(y: nat) -> bool {
    y > (base_modulus() - y) % (base_modulus() as int)
}

/// The compressed encoding of a point, 32 bytes: the first coordinate, least
/// significant byte first, with the top bit of the last byte set where the
/// second coordinate is larger than its negative; and for the point at
/// infinity 31 zero bytes and the byte `0x40`.
pub open spec fn point_encoding(p: AffinePoint) -> Seq<u8> {
    if p.infinity {
        Seq::new(32, |i: int| if i == 31 { 0x40u8 } else { 0u8 })
    } else {
        let bytes = le_bytes_of(p.x, 32);
        bytes.update(31, bytes[31] | (if is_larger_root(p.y) { 0x80u8 } else { 0u8 }))
    }
}

/// Whether a point as numbers is an element of the group: the point at
/// infinity in its one form, or two coordinates below the modulus that
/// satisfy the curve equation.
pub open spec fn is_member(p: AffinePoint) -> bool {
    if p.infinity {
        p == identity_point()
    } else {
        p.x < base_modulus() && p.y < base_modulus() && on_curve(p.x, p.y)
    }
}

/// Whether sums and multiples obey the laws of a module over the scalar
/// field on the elements of the group: both stay in the group, the sum is
/// associative and commutative with the point at infinity as its neutral
/// element, and multiples distribute over sums of points and of scalars and
/// compose by the product of the scalars.
///
/// Nothing in this crate shows these laws of the curve arithmetic that it
/// calls. They are the hypothesis under which honest proofs are shown to be
/// accepted.
#[verifier::opaque]
pub open spec fn module_laws() -> bool {
    &&& forall|p: AffinePoint, q: AffinePoint| #![trigger point_sum(p, q)]
        is_member(p) && is_member(q) ==> is_member(point_sum(p, q)) && point_sum(p, q)
            == point_sum(q, p)
    &&& forall|p: AffinePoint, k: nat| #![trigger point_product(p, k)]
        is_member(p) ==> is_member(point_product(p, k))
    &&& forall|p: AffinePoint, q: AffinePoint, r: AffinePoint|
        #![trigger point_sum(point_sum(p, q), r)]
        is_member(p) && is_member(q) && is_member(r) ==> point_sum(point_sum(p, q), r)
            == point_sum(p, point_sum(q, r))
    &&& forall|p: AffinePoint| #![trigger point_sum(identity_point(), p)]
        is_member(p) ==> point_sum(identity_point(), p) == p
    &&& forall|p: AffinePoint| #![trigger point_product(p, 0)]
        is_member(p) ==> point_product(p, 0) == identity_point()
    &&& forall|p: AffinePoint| #![trigger point_product(p, 1)]
        is_member(p) ==> point_product(p, 1) == p
    &&& forall|p: AffinePoint, a: nat, b: nat|
        #![trigger point_sum(point_product(p, a), point_product(p, b))]
        is_member(p) && a < scalar_modulus() && b < scalar_modulus() ==> point_sum(
            point_product(p, a),
            point_product(p, b),
        ) == point_product(p, (a + b) % scalar_modulus())
    &&& forall|p: AffinePoint, q: AffinePoint, k: nat| #![trigger point_product(point_sum(p, q), k)]
        is_member(p) && is_member(q) && k < scalar_modulus() ==> point_product(point_sum(p, q), k)
            == point_sum(point_product(p, k), point_product(q, k))
    &&& forall|p: AffinePoint, a: nat, b: nat| #![trigger point_product(point_product(p, a), b)]
        is_member(p) && a < scalar_modulus() && b < scalar_modulus() ==> point_product(
            point_product(p, a),
            b,
        ) == point_product(p, (a * b) % scalar_modulus())
}

/// Under the laws of a module, a sum of two elements is an element, and does
/// not depend on their order.
pub proof fn lemma_sum_commutes(p: AffinePoint, q: AffinePoint)
    requires
        module_laws(),
        is_member(p),
        is_member(q),
    ensures
        is_member(point_sum(p, q)),
        point_sum(p, q) == point_sum(q, p),
{
    reveal(module_laws);
}

/// Under the laws of a module, a multiple of an element is an element.
pub proof fn lemma_product_is_member(p: AffinePoint, k: nat)
    requires
        module_laws(),
        is_member(p),
    ensures
        is_member(point_product(p, k)),
{
    reveal(module_laws);
}

/// Under the laws of a module, a sum of three elements does not depend on
/// where the brackets stand.
pub proof fn lemma_sum_associates(p: AffinePoint, q: AffinePoint, r: AffinePoint)
    requires
        module_laws(),
        is_member(p),
        is_member(q),
        is_member(r),
    ensures
        point_sum(point_sum(p, q), r) == point_sum(p, point_sum(q, r)),
{
    reveal(module_laws);
}

/// Under the laws of a module, the point at infinity is neutral on both
/// sides.
pub proof fn lemma_identity_is_neutral(p: AffinePoint)
    requires
        module_laws(),
        is_member(p),
    ensures
        point_sum(identity_point(), p) == p,
        point_sum(p, identity_point()) == p,
{
    reveal(module_laws);
    assert(point_sum(identity_point(), p) == p);
    assert(point_sum(p, identity_point()) == point_sum(identity_point(), p));
}

/// Under the laws of a module, the multiple by zero is the point at
/// infinity, and the multiple by one is the element itself.
pub proof fn lemma_multiples_by_zero_and_one(p: AffinePoint)
    requires
        module_laws(),
        is_member(p),
    ensures
        point_product(p, 0) == identity_point(),
        point_product(p, 1) == p,
{
    reveal(module_laws);
}

/// Under the laws of a module, the multiples of one element by two scalars
/// add up to its multiple by their sum.
pub proof fn lemma_multiples_add(p: AffinePoint, a: nat, b: nat)
    requires
        module_laws(),
        is_member(p),
        a < scalar_modulus(),
        b < scalar_modulus(),
    ensures
        point_sum(point_product(p, a), point_product(p, b)) == point_product(
            p,
            (a + b) % scalar_modulus(),
        ),
{
    reveal(module_laws);
}

/// Under the laws of a module, the multiple of a sum is the sum of the
/// multiples.
pub proof fn lemma_multiple_of_sum(p: AffinePoint, q: AffinePoint, k: nat)
    requires
        module_laws(),
        is_member(p),
        is_member(q),
        k < scalar_modulus(),
    ensures
        point_product(point_sum(p, q), k) == point_sum(point_product(p, k), point_product(q, k)),
{
    reveal(module_laws);
}

/// Under the laws of a module, a multiple of a multiple is the multiple by
/// the product of the two scalars.
pub proof fn lemma_multiples_compose(p: AffinePoint, a: nat, b: nat)
    requires
        module_laws(),
        is_member(p),
        a < scalar_modulus(),
        b < scalar_modulus(),
    ensures
        point_product(point_product(p, a), b) == point_product(p, (a * b) % scalar_modulus()),
{
    reveal(module_laws);
}

/// The values of a sequence of points.
pub open spec fn point_values(s: Seq<Point>) -> Seq<AffinePoint> {
    s.map_values(|p: Point| p@)
}

/// The limbs of the coordinate field's modulus.
fn base_modulus_limbs() -> (m: [u64; 4])
    ensures
        limbs_value(m) == base_modulus(),
{
    [0x3c208c16d87cfd47u64, 0x97816a916871ca8du64, 0xb85045b68181585du64, 0x30644e72e131a029u64]
}

/// Whether two limb quadruples are equal.
fn limbs_equal(a: &[u64; 4], b: &[u64; 4]) -> (r: bool)
    ensures
        r == (limbs_value(*a) == limbs_value(*b)),
        r == (*a == *b),
{
    let r = a[0] == b[0] && a[1] == b[1] && a[2] == b[2] && a[3] == b[3];
    proof {
        if limbs_value(*a) == limbs_value(*b) {
            lemma_limbs_value_injective(*a, *b);
        }
        if r {
            assert(a@ =~= b@);
        }
    }
    r
}

/// An element of the group.
#[derive(Clone, Copy, Debug, PartialEq, Eq)]
pub struct Point {
    x: [u64; 4],
    y: [u64; 4],
    infinity: bool,
}

impl View for Point {
    type V = AffinePoint;

    closed spec fn view(&self) -> AffinePoint {
        AffinePoint { x: limbs_value(self.x), y: limbs_value(self.y), infinity: self.infinity }
    }
}

impl Point {
    /// Every point is held in one form: coordinates below the modulus, and
    /// the point at infinity with the coordinates 0 and 1.
    #[verifier::type_invariant]
    pub closed spec fn canonical(&self) -> bool {
        &&& limbs_value(self.x) < base_modulus()
        &&& limbs_value(self.y) < base_modulus()
        &&& self.infinity ==> limbs_value(self.x) == 0 && limbs_value(self.y) == 1
    }

    /// The neutral element.
    pub fn identity() -> (r: Point)
        ensures
            r@ == identity_point(),
            is_member(r@),
    {
        Point { x: [0u64, 0u64, 0u64, 0u64], y: [1u64, 0u64, 0u64, 0u64], infinity: true }
    }

    /// The generator of the group, the point (1, 2).
    pub fn generator() -> (r: Point)
        ensures
            r@ == (AffinePoint { x: 1, y: 2, infinity: false }),
            is_member(r@),
    {
        Point { x: [1u64, 0u64, 0u64, 0u64], y: [2u64, 0u64, 0u64, 0u64], infinity: false }
    }

    /// The point with the given coordinates, limbs least significant first,
    /// where both lie below the modulus and satisfy the curve equation.
    pub fn from_coordinates(x: [u64; 4], y: [u64; 4]) -> (r: Option<Point>)
        ensures
            r is Some <==> limbs_value(x) < base_modulus() && limbs_value(y) < base_modulus()
                && on_curve(limbs_value(x), limbs_value(y)),
            r matches Some(p) ==> p@ == (AffinePoint {
                x: limbs_value(x),
                y: limbs_value(y),
                infinity: false,
            }),
    {
        let m = base_modulus_limbs();
        if limbs_below(&x, &m) && limbs_below(&y, &m) {
            if curve_equation_holds(&x, &y) {
                Some(Point { x, y, infinity: false })
            } else {
                None
            }
        } else {
            None
        }
    }

    /// Whether the point is an element of the group: the point at infinity,
    /// or a point whose coordinates satisfy the curve equation.
    pub fn is_in_group(&self) -> (r: bool)
        ensures
            r == is_member(self@),
    {
        proof {
            use_type_invariant(self);
        }
        if self.infinity {
            true
        } else {
            curve_equation_holds(&self.x, &self.y)
        }
    }

    /// The coordinates of a point, or nothing for the point at infinity.
    pub fn to_coordinates(&self) -> (r: Option<([u64; 4], [u64; 4])>)
        ensures
            r is None <==> self@.infinity,
            r is None ==> self@ == identity_point(),
            r matches Some(c) ==> limbs_value(c.0) == self@.x && limbs_value(c.1) == self@.y,
            self@.x < base_modulus(),
            self@.y < base_modulus(),
    {
        proof {
            use_type_invariant(self);
        }
        if self.infinity {
            None
        } else {
            Some((self.x, self.y))
        }
    }

    /// Whether two points are the same element.
    pub fn is_equal(&self, other: &Point) -> (r: bool)
        ensures
            r == (self@ == other@),
    {
        limbs_equal(&self.x, &other.x) && limbs_equal(&self.y, &other.y) && self.infinity
            == other.infinity
    }

    /// The sum of two points. The neutral element leaves the other point as
    /// it is.
    pub fn add(&self, other: &Point) -> (r: Point)
        ensures
            r@ == point_sum(self@, other@),
            self@ == identity_point() ==> r@ == other@,
            other@ == identity_point() ==> r@ == self@,
    {
        proof {
            use_type_invariant(self);
            use_type_invariant(other);
        }
        group_add(self, other)
    }

    /// The multiple of a point by a scalar.
    pub fn mul(&self, k: &Scalar) -> (r: Point)
        ensures
            r@ == point_product(self@, k@),
    {
        proof {
            use_type_invariant(self);
            use_type_invariant(k);
        }
        group_mul(self, k)
    }

    /// The compressed encoding of a point.
    pub fn to_bytes(&self) -> (r: Vec<u8>)
        ensures
            r@ == point_encoding(self@),
            r@.len() == 32,
    {
        proof {
            use_type_invariant(self);
        }
        group_serialize(self)
    }
}

/// `GroupAffine::is_on_curve` of ark-ec on a finite point of BN254: whether
/// `y^2` and `x^3 + 3` agree in the coordinate field.
#[verifier::external_body]
fn curve_equation_holds(x: &[u64; 4], y: &[u64; 4]) -> (r: bool)
    requires
        limbs_value(*x) < base_modulus(),
        limbs_value(*y) < base_modulus(),
    ensures
        r == on_curve(limbs_value(*x), limbs_value(*y)),
{
    let px = Fq::from_repr(BigInteger256(*x)).unwrap();
    let py = Fq::from_repr(BigInteger256(*y)).unwrap();
    G1Affine::new(px, py, false).is_on_curve()
}

/// `+` of ark-ec on the two points in Jacobian form, brought back to affine
/// form: the result is named by [`point_sum`], comes in the one form that
/// points are held in, and is the other point where one of the two is the
/// point at infinity.
#[verifier::external_body]
fn group_add(a: &Point, b: &Point) -> (r: Point)
    requires
        a.canonical(),
        b.canonical(),
    ensures
        r.canonical(),
        r@ == point_sum(a@, b@),
        a@ == identity_point() ==> r@ == b@,
        b@ == identity_point() ==> r@ == a@,
{
    let ax = Fq::from_repr(BigInteger256(a.x)).unwrap();
    let ay = Fq::from_repr(BigInteger256(a.y)).unwrap();
    let bx = Fq::from_repr(BigInteger256(b.x)).unwrap();
    let by = Fq::from_repr(BigInteger256(b.y)).unwrap();
    let p = G1Affine::new(ax, ay, a.infinity).into_projective();
    let s = (p + G1Affine::new(bx, by, b.infinity).into_projective()).into_affine();
    Point { x: s.x.into_repr().0, y: s.y.into_repr().0, infinity: s.infinity }
}

/// `ProjectiveCurve::mul` of ark-ec, which doubles and adds along the bits of
/// the scalar's least residue, brought back to affine form: the result is
/// named by [`point_product`] and comes in the one form that points are held
/// in.
#[verifier::external_body]
fn group_mul(a: &Point, k: &Scalar) -> (r: Point)
    requires
        a.canonical(),
        k.reduced(),
    ensures
        r.canonical(),
        r@ == point_product(a@, k@),
{
    let ax = Fq::from_repr(BigInteger256(a.x)).unwrap();
    let ay = Fq::from_repr(BigInteger256(a.y)).unwrap();
    let p = G1Affine::new(ax, ay, a.infinity).into_projective();
    let s = p.mul(BigInteger256(k.limbs)).into_affine();
    Point { x: s.x.into_repr().0, y: s.y.into_repr().0, infinity: s.infinity }
}

/// `CanonicalSerialize::serialize` of ark-serialize on the affine point: its
/// compressed encoding, 32 bytes long. The first coordinate is written least
/// significant byte first, and the two bits that its 254 bits leave free in
/// the last byte hold the flags: `0x80` where the second coordinate compares
/// above its negative, `0x40` on an all-zero coordinate for the point at
/// infinity.
#[verifier::external_body]
fn group_serialize(a: &Point) -> (r: Vec<u8>)
    requires
        a.canonical(),
    ensures
        r@ == point_encoding(a@),
        r@.len() == 32,
{
    let ax = Fq::from_repr(BigInteger256(a.x)).unwrap();
    let ay = Fq::from_repr(BigInteger256(a.y)).unwrap();
    let mut bytes = Vec::new();
    G1Affine::new(ax, ay, a.infinity).serialize(&mut bytes).unwrap();
    bytes
}

} // verus!
