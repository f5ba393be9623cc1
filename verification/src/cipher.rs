//! Masked values: pairs of points that add and scale entry by entry.

use crate::group::{identity_point, point_product, point_sum, AffinePoint, Point};
use crate::scalar::Scalar;
use vstd::prelude::*;

verus! {

/// The neutral ciphertext.
pub open spec fn cipher_zero() -> (AffinePoint, AffinePoint) {
    (identity_point(), identity_point())
}

/// The sum of two ciphertexts, entry by entry.
pub open spec fn cipher_sum(a: (AffinePoint, AffinePoint), b: (AffinePoint, AffinePoint)) -> (
    AffinePoint,
    AffinePoint,
) {
    (point_sum(a.0, b.0), point_sum(a.1, b.1))
}

/// The multiple of a ciphertext by a number, entry by entry.
pub open spec fn cipher_product(c: (AffinePoint, AffinePoint), k: nat) -> (AffinePoint, AffinePoint) {
    (point_product(c.0, k), point_product(c.1, k))
}

/// The values of a sequence of ciphertexts.
pub open spec fn cipher_values(s: Seq<ElgamalCipher>) -> Seq<(AffinePoint, AffinePoint)> {
    s.map_values(|c: ElgamalCipher| c@)
}

/// A homomorphically masked value: two points.
#[derive(Clone, Copy, Debug, PartialEq, Eq)]
pub struct ElgamalCipher(pub Point, pub Point);

impl View for ElgamalCipher {
    type V = (AffinePoint, AffinePoint);

    open spec fn view(&self) -> (AffinePoint, AffinePoint) {
        (self.0@, self.1@)
    }
}

impl ElgamalCipher {
    /// The neutral ciphertext: two points at infinity.
    pub fn zero() -> (r: ElgamalCipher)
        ensures
            r@ == cipher_zero(),
    {
        ElgamalCipher(Point::identity(), Point::identity())
    }

    /// The sum of two ciphertexts. The neutral ciphertext leaves the other
    /// as it is.
    pub fn add(&self, other: &ElgamalCipher) -> (r: ElgamalCipher)
        ensures
            r@ == cipher_sum(self@, other@),
            self@ == cipher_zero() ==> r@ == other@,
            other@ == cipher_zero() ==> r@ == self@,
    {
        ElgamalCipher(self.0.add(&other.0), self.1.add(&other.1))
    }

    /// The multiple of a ciphertext by a scalar.
    pub fn mul(&self, k: &Scalar) -> (r: ElgamalCipher)
        ensures
            r@ == cipher_product(self@, k@),
    {
        ElgamalCipher(self.0.mul(k), self.1.mul(k))
    }

    /// Whether two ciphertexts are the same pair of points.
    pub fn is_equal(&self, other: &ElgamalCipher) -> (r: bool)
        ensures
            r == (self@ == other@),
    {
        self.0.is_equal(&other.0) && self.1.is_equal(&other.1)
    }
}

} // verus!
