//! Pedersen commitments to vectors of scalars.

use crate::error::Error;
use crate::group::{
    identity_point, is_member, lemma_identity_is_neutral, lemma_multiple_of_sum, lemma_multiples_add,
    lemma_multiples_by_zero_and_one, lemma_multiples_compose, lemma_product_is_member,
    lemma_sum_associates, lemma_sum_commutes, module_laws, point_product, point_sum, point_values,
    AffinePoint, Point,
};
use crate::cipher::{cipher_product, cipher_sum};
use crate::multi_exponent_argument::{
    ciphers_dot, first_entries, lemma_ciphers_dot_is_entrywise, points_dot, second_entries,
    DotProduct, DotProductCalculator,
};
use crate::scalar::{all_reduced, blinded, residue, scalar_modulus, scalar_values, Scalar};
use crate::transcript::{appended_point, appended_points, ProofTranscript, TranscriptEvent};
use vstd::arithmetic::div_mod::lemma_add_mod_noop_right;
use vstd::prelude::*;

verus! {

/// A commitment key: one generator for each entry of a vector, and one more
/// for the blinding factor.
pub struct CommitKey {
    pub generators: Vec<Point>,
    pub blinding_generator: Point,
}

/// A commitment key as values.
pub struct CommitKeyValue {
    pub generators: Seq<AffinePoint>,
    pub blinding_generator: AffinePoint,
}

impl View for CommitKey {
    type V = CommitKeyValue;

    open spec fn view(&self) -> CommitKeyValue {
        CommitKeyValue {
            generators: point_values(self.generators@),
            blinding_generator: self.blinding_generator@,
        }
    }
}

/// The commitment to a vector as long as the key: the blinding generator
/// times the blinding factor, plus the dot product of the vector with the
/// generators.
pub open spec fn pedersen_commitment(key: CommitKeyValue, scalars: Seq<nat>, blinding: nat) -> AffinePoint {
    point_sum(point_product(key.blinding_generator, blinding), points_dot(scalars, key.generators))
}

/// The log after a commitment key: its generators, first to last, then the
/// blinding generator, all under one label.
pub open spec fn appended_commit_key(events: Seq<TranscriptEvent>, label: Seq<u8>, key: CommitKeyValue) -> Seq<
    TranscriptEvent,
> {
    appended_point(appended_points(events, label, key.generators), label, key.blinding_generator)
}

/// Whether every generator of a key is an element of the group.
pub open spec fn key_in_group(key: CommitKeyValue) -> bool {
    &&& is_member(key.blinding_generator)
    &&& forall|i: int| 0 <= i < key.generators.len() ==> is_member(#[trigger] key.generators[i])
}

/// Under the laws of a module, two sums of two elements add up to the sum
/// of the sums of their first and of their second terms.
proof fn lemma_sums_interchange(x: AffinePoint, u: AffinePoint, y: AffinePoint, v: AffinePoint)
    requires
        module_laws(),
        is_member(x),
        is_member(u),
        is_member(y),
        is_member(v),
    ensures
        point_sum(point_sum(x, u), point_sum(y, v)) == point_sum(point_sum(x, y), point_sum(u, v)),
        is_member(point_sum(point_sum(x, y), point_sum(u, v))),
{
    lemma_sum_commutes(y, v);
    lemma_sum_commutes(u, y);
    lemma_sum_commutes(u, v);
    lemma_sum_commutes(x, y);
    lemma_sum_commutes(point_sum(x, y), point_sum(u, v));
    // (x + u) + (y + v) = x + (u + (y + v))
    lemma_sum_associates(x, u, point_sum(y, v));
    // u + (y + v) = (u + y) + v = (y + u) + v = y + (u + v)
    lemma_sum_associates(u, y, v);
    lemma_sum_associates(y, u, v);
    // x + (y + (u + v)) = (x + y) + (u + v)
    lemma_sum_associates(x, y, point_sum(u, v));
}

/// Under the laws of a module, every multiple of the point at infinity is
/// the point at infinity.
proof fn lemma_multiple_of_identity(k: nat)
    requires
        module_laws(),
        k < scalar_modulus(),
    ensures
        point_product(identity_point(), k) == identity_point(),
{
    lemma_multiples_by_zero_and_one(identity_point());
    lemma_multiples_compose(identity_point(), 0, k);
    assert((0 * k) % scalar_modulus() == 0) by (nonlinear_arith)
        requires
            scalar_modulus() > 0,
    ;
}

/// Under the laws of a module, a dot product with elements of the group is
/// an element, and a dot product of at least one term is the dot product of
/// all but the last, plus the last multiple.
pub proof fn lemma_points_dot_unfolds(scalars: Seq<nat>, points: Seq<AffinePoint>)
    requires
        module_laws(),
        scalars.len() == points.len(),
        forall|i: int| 0 <= i < points.len() ==> is_member(#[trigger] points[i]),
    ensures
        is_member(points_dot(scalars, points)),
        scalars.len() > 0 ==> points_dot(scalars, points) == point_sum(
            points_dot(scalars.drop_last(), points.drop_last()),
            point_product(points.last(), scalars.last()),
        ),
    decreases scalars.len(),
{
    if scalars.len() > 0 {
        lemma_points_dot_unfolds(scalars.drop_last(), points.drop_last());
        lemma_product_is_member(points.last(), scalars.last());
        lemma_sum_commutes(
            points_dot(scalars.drop_last(), points.drop_last()),
            point_product(points.last(), scalars.last()),
        );
        if scalars.len() == 1 {
            assert(points_dot(scalars.drop_last(), points.drop_last()) == identity_point());
            lemma_identity_is_neutral(point_product(points[0], scalars[0]));
        }
    }
}

/// Under the laws of a module, the dot product of `a` times `x`, plus the
/// dot product of `d`, is the dot product of the vector `x * a + d`.
pub proof fn lemma_dot_products_combine(x: nat, a: Seq<nat>, d: Seq<nat>, points: Seq<AffinePoint>)
    requires
        module_laws(),
        a.len() == points.len(),
        d.len() == points.len(),
        forall|i: int| 0 <= i < points.len() ==> is_member(#[trigger] points[i]),
        x < scalar_modulus(),
        all_reduced(a),
        all_reduced(d),
    ensures
        point_sum(point_product(points_dot(a, points), x), points_dot(d, points)) == points_dot(
            blinded(x, a, d),
            points,
        ),
    decreases points.len(),
{
    let both = blinded(x, a, d);
    if points.len() == 0 {
        lemma_multiple_of_identity(x);
        lemma_identity_is_neutral(identity_point());
    } else {
        let a0 = a.drop_last();
        let d0 = d.drop_last();
        let p0 = points.drop_last();
        let g = points.last();
        let alpha = a.last();
        let delta = d.last();
        lemma_dot_products_combine(x, a0, d0, p0);
        lemma_points_dot_unfolds(a, points);
        lemma_points_dot_unfolds(d, points);
        lemma_points_dot_unfolds(both, points);
        lemma_points_dot_unfolds(a0, p0);
        lemma_points_dot_unfolds(d0, p0);
        assert(both.drop_last() =~= blinded(x, a0, d0));
        assert(both.last() == residue((x * alpha + delta) as int));
        let scaled = ((alpha * x) % scalar_modulus()) as nat;
        // x * (dot(a0) + alpha * g) = x * dot(a0) + (alpha * x) * g
        lemma_product_is_member(g, alpha);
        lemma_multiple_of_sum(points_dot(a0, p0), point_product(g, alpha), x);
        lemma_multiples_compose(g, alpha, x);
        // (X + U) + (Y + V) = (X + Y) + (U + V)
        lemma_product_is_member(points_dot(a0, p0), x);
        lemma_product_is_member(g, scaled);
        lemma_product_is_member(g, delta);
        lemma_sums_interchange(
            point_product(points_dot(a0, p0), x),
            point_product(g, scaled),
            points_dot(d0, p0),
            point_product(g, delta),
        );
        // (alpha * x) * g + delta * g = (x * alpha + delta) * g
        lemma_multiples_add(g, scaled, delta);
        assert(alpha * x == x * alpha) by (nonlinear_arith);
        lemma_add_mod_noop_right(delta as int, (x * alpha) as int, scalar_modulus() as int);
        assert((scaled + delta) % scalar_modulus() == both.last());
    }
}

/// Under the laws of a module, the dot product of `a` with ciphertexts
/// times `x`, plus the dot product of `d` with them, is the dot product of
/// the vector `x * a + d`.
pub proof fn lemma_cipher_dot_products_combine(
    x: nat,
    a: Seq<nat>,
    d: Seq<nat>,
    ciphers: Seq<(AffinePoint, AffinePoint)>,
)
    requires
        module_laws(),
        a.len() == ciphers.len(),
        d.len() == ciphers.len(),
        forall|i: int|
            0 <= i < ciphers.len() ==> is_member((#[trigger] ciphers[i]).0) && is_member(
                ciphers[i].1,
            ),
        x < scalar_modulus(),
        all_reduced(a),
        all_reduced(d),
    ensures
        cipher_sum(cipher_product(ciphers_dot(a, ciphers), x), ciphers_dot(d, ciphers))
            == ciphers_dot(blinded(x, a, d), ciphers),
{
    let firsts = first_entries(ciphers);
    let seconds = second_entries(ciphers);
    lemma_ciphers_dot_is_entrywise(a, ciphers);
    lemma_ciphers_dot_is_entrywise(d, ciphers);
    lemma_ciphers_dot_is_entrywise(blinded(x, a, d), ciphers);
    assert forall|i: int| 0 <= i < firsts.len() implies is_member(#[trigger] firsts[i]) by {
        assert(is_member(ciphers[i].0));
    }
    assert forall|i: int| 0 <= i < seconds.len() implies is_member(#[trigger] seconds[i]) by {
        assert(is_member(ciphers[i].1));
    }
    lemma_dot_products_combine(x, a, d, firsts);
    lemma_dot_products_combine(x, a, d, seconds);
}

/// Under the laws of a module, the commitment to `a` times `x`, plus the
/// commitment to `d`, is the commitment to the vector `x * a + d` under the
/// blinding factor `x * r + s`.
pub proof fn lemma_commitments_combine(
    key: CommitKeyValue,
    x: nat,
    a: Seq<nat>,
    r: nat,
    d: Seq<nat>,
    s: nat,
)
    requires
        module_laws(),
        key_in_group(key),
        a.len() == key.generators.len(),
        d.len() == key.generators.len(),
        x < scalar_modulus(),
        r < scalar_modulus(),
        s < scalar_modulus(),
        all_reduced(a),
        all_reduced(d),
    ensures
        point_sum(
            point_product(pedersen_commitment(key, a, r), x),
            pedersen_commitment(key, d, s),
        ) == pedersen_commitment(key, blinded(x, a, d), residue((x * r + s) as int)),
        is_member(pedersen_commitment(key, a, r)),
{
    let h = key.blinding_generator;
    let dot_a = points_dot(a, key.generators);
    let dot_d = points_dot(d, key.generators);
    let scaled = ((r * x) % scalar_modulus()) as nat;
    lemma_points_dot_unfolds(a, key.generators);
    lemma_points_dot_unfolds(d, key.generators);
    lemma_dot_products_combine(x, a, d, key.generators);
    lemma_product_is_member(h, r);
    lemma_product_is_member(h, s);
    lemma_product_is_member(h, scaled);
    lemma_product_is_member(dot_a, x);
    lemma_sum_commutes(point_product(h, r), dot_a);
    // x * (r * h + dot(a)) = (r * x) * h + x * dot(a)
    lemma_multiple_of_sum(point_product(h, r), dot_a, x);
    lemma_multiples_compose(h, r, x);
    lemma_sums_interchange(point_product(h, scaled), point_product(dot_a, x), point_product(h, s), dot_d);
    lemma_multiples_add(h, scaled, s);
    assert(r * x == x * r) by (nonlinear_arith);
    lemma_add_mod_noop_right(s as int, (x * r) as int, scalar_modulus() as int);
    assert((scaled + s) % scalar_modulus() == residue((x * r + s) as int));
}

impl CommitKey {
    /// The key with the given generators.
    pub fn new(generators: Vec<Point>, blinding_generator: Point) -> (r: CommitKey)
        ensures
            r.generators == generators,
            r.blinding_generator == blinding_generator,
    {
        CommitKey { generators, blinding_generator }
    }

    /// The length of the vectors that the key commits to.
    pub fn len(&self) -> (r: usize)
        ensures
            r == self@.generators.len(),
    {
        self.generators.len()
    }

    /// Whether every generator of the key is an element of the group.
    pub fn is_in_group(&self) -> (r: bool)
        ensures
            r == key_in_group(self@),
    {
        if !self.blinding_generator.is_in_group() {
            return false;
        }
        let mut i: usize = 0;
        while i < self.generators.len()
            invariant
                i <= self.generators.len(),
                forall|j: int| 0 <= j < i ==> is_member(#[trigger] self@.generators[j]),
            decreases self.generators.len() - i,
        {
            if !self.generators[i].is_in_group() {
                assert(!is_member(self@.generators[i as int]));
                return false;
            }
            i += 1;
        }
        true
    }

    /// Absorbs the key into a transcript under `label`.
    pub fn append_to(&self, transcript: &mut ProofTranscript, label: &'static [u8])
        ensures
            final(transcript)@ == appended_commit_key(old(transcript)@, label@, self@),
    {
        transcript.append_points(label, &self.generators);
        transcript.append_point(label, &self.blinding_generator);
    }
}

/// The Pedersen commitment scheme over the group.
pub struct PedersenCommitment;

impl PedersenCommitment {
    /// Commits to `scalars` under `key` with the blinding factor `blinding`.
    ///
    /// Fails where the vector and the key differ in length.
    pub fn commit_vector(key: &CommitKey, scalars: &Vec<Scalar>, blinding: Scalar) -> (r: Result<
        Point,
        Error,
    >)
        ensures
            r is Err <==> scalars.len() != key.generators.len(),
            r matches Err(e) ==> e == Error::DotProductLenError,
            r matches Ok(p) ==> p@ == pedersen_commitment(key@, scalar_values(scalars@), blinding@),
    {
        match DotProductCalculator::scalars_by_points(scalars, &key.generators) {
            Ok(dot) => Ok(key.blinding_generator.mul(&blinding).add(&dot)),
            Err(e) => Err(e),
        }
    }
}

} // verus!
