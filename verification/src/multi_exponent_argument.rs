//! The multi-exponentiation argument: its public parameters, statement and
//! witness, the dot products it rests on, and the diagonal sums of a chunked
//! matrix of ciphertexts against a chunked matrix of exponents.

use crate::cipher::{cipher_product, cipher_sum, cipher_values, cipher_zero, ElgamalCipher};
use crate::error::Error;
use crate::group::{
    identity_point, is_member, lemma_multiples_add, module_laws, point_product, point_sum,
    point_values, AffinePoint, Point,
};
use crate::scalar::{scalar_modulus, scalar_values, Scalar};
use vstd::arithmetic::div_mod::{lemma_add_mod_noop, lemma_small_mod};
use vstd::prelude::*;

verus! {

/// What the prover and the verifier share: the public key under which the
/// ciphertexts are masked, the commitment key, and the masking generator.
pub struct Parameters<'a> {
    pub public_key: &'a Point,
    pub commit_key: &'a Vec<Point>,
    pub masking_generator: Point,
}

impl<'a> Parameters<'a> {
    /// The parameters with the given parts.
    pub fn new(public_key: &'a Point, commit_key: &'a Vec<Point>, masking_generator: Point) -> (r:
        Self)
        ensures
            r.public_key == public_key,
            r.commit_key == commit_key,
            r.masking_generator == masking_generator,
    {
        Self { public_key, commit_key, masking_generator }
    }
}

/// What the prover alone knows: the matrix of exponents, one blinder for each
/// of its chunks, and the factor that re-masks the product.
pub struct Witness<'a> {
    pub matrix_a: &'a Vec<Vec<Scalar>>,
    pub matrix_blinders: &'a Vec<Scalar>,
    pub ro: Scalar,
}

impl<'a> Witness<'a> {
    /// The witness with the given parts.
    pub fn new(matrix_a: &'a Vec<Vec<Scalar>>, matrix_blinders: &'a Vec<Scalar>, ro: Scalar) -> (r:
        Self)
        ensures
            r.matrix_a == matrix_a,
            r.matrix_blinders == matrix_blinders,
            r.ro == ro,
    {
        Self { matrix_a, matrix_blinders, ro }
    }
}

/// What is claimed: the chunked ciphertexts, their product under the secret
/// exponents, and the commitments to those exponents.
pub struct Statement<'a> {
    pub shuffled_ciphers: &'a Vec<Vec<ElgamalCipher>>,
    pub product: ElgamalCipher,
    pub commitments_to_exponents: &'a Vec<Point>,
}

impl<'a> Statement<'a> {
    /// The statement with the given parts.
    pub fn new(
        shuffled_ciphers: &'a Vec<Vec<ElgamalCipher>>,
        product: ElgamalCipher,
        commitments_to_exponents: &'a Vec<Point>,
    ) -> (r: Self)
        ensures
            r.shuffled_ciphers == shuffled_ciphers,
            r.product == product,
            r.commitments_to_exponents == commitments_to_exponents,
    {
        Self { shuffled_ciphers, product, commitments_to_exponents }
    }
}

/// The sum of the products `a[i] * b[i]`, as a number.
pub open spec fn sum_of_products(a: Seq<nat>, b: Seq<nat>) -> nat
    decreases a.len(),
{
    if a.len() == 0 {
        0
    } else {
        sum_of_products(a.drop_last(), b.drop_last()) + a.last() * b.last()
    }
}

/// The dot product of two vectors of scalars of one length, in the field.
pub open spec fn scalars_dot(a: Seq<nat>, b: Seq<nat>) -> nat {
    sum_of_products(a, b) % scalar_modulus()
}

/// The dot product of scalars with points of one length: the multiples
/// `points[i] * scalars[i]` summed from the first on, and the neutral element
/// where there is none.
pub open spec fn points_dot(scalars: Seq<nat>, points: Seq<AffinePoint>) -> AffinePoint
    decreases scalars.len(),
{
    if scalars.len() == 0 {
        identity_point()
    } else if scalars.len() == 1 {
        point_product(points[0], scalars[0])
    } else {
        point_sum(
            points_dot(scalars.drop_last(), points.drop_last()),
            point_product(points.last(), scalars.last()),
        )
    }
}

/// The dot product of scalars with ciphertexts of one length: the multiples
/// `ciphers[i] * scalars[i]` summed from the first on, and the neutral
/// ciphertext where there is none.
pub open spec fn ciphers_dot(scalars: Seq<nat>, ciphers: Seq<(AffinePoint, AffinePoint)>) -> (
    AffinePoint,
    AffinePoint,
)
    decreases scalars.len(),
{
    if scalars.len() == 0 {
        cipher_zero()
    } else if scalars.len() == 1 {
        cipher_product(ciphers[0], scalars[0])
    } else {
        cipher_sum(
            ciphers_dot(scalars.drop_last(), ciphers.drop_last()),
            cipher_product(ciphers.last(), scalars.last()),
        )
    }
}

/// The dot product of three scalars with three ciphertexts is the sum of the
/// three multiples, taken from the left.
pub proof fn lemma_ciphers_dot_of_three(
    scalars: Seq<nat>,
    ciphers: Seq<(AffinePoint, AffinePoint)>,
)
    requires
        scalars.len() == 3,
        ciphers.len() == 3,
    ensures
        ciphers_dot(scalars, ciphers) == cipher_sum(
            cipher_sum(cipher_product(ciphers[0], scalars[0]), cipher_product(ciphers[1], scalars[1])),
            cipher_product(ciphers[2], scalars[2]),
        ),
{
    let s2 = scalars.drop_last();
    let c2 = ciphers.drop_last();
    let s1 = s2.drop_last();
    let c1 = c2.drop_last();
    assert(ciphers_dot(s1, c1) == cipher_product(ciphers[0], scalars[0]));
    assert(ciphers_dot(s2, c2) == cipher_sum(
        ciphers_dot(s1, c1),
        cipher_product(ciphers[1], scalars[1]),
    ));
}

/// The values of a chunked matrix of scalars.
pub open spec fn scalar_matrix(m: Seq<Vec<Scalar>>) -> Seq<Seq<nat>> {
    m.map_values(|row: Vec<Scalar>| scalar_values(row@))
}

/// The values of a chunked matrix of ciphertexts.
pub open spec fn cipher_matrix(m: Seq<Vec<ElgamalCipher>>) -> Seq<Seq<(AffinePoint, AffinePoint)>> {
    m.map_values(|row: Vec<ElgamalCipher>| cipher_values(row@))
}

/// Whether two chunked matrices and a blinding vector fit together: at least
/// one chunk of ciphertexts, at least as many chunks of scalars, and every
/// chunk of ciphertexts and each of as many first chunks of scalars as wide
/// as the blinding vector. Chunks of scalars beyond those are not looked at.
pub open spec fn chunks_well_shaped(
    ciphers: Seq<Seq<(AffinePoint, AffinePoint)>>,
    scalars: Seq<Seq<nat>>,
    blinding: Seq<nat>,
) -> bool {
    &&& ciphers.len() >= 1
    &&& scalars.len() >= ciphers.len()
    &&& forall|i: int| 0 <= i < ciphers.len() ==> (#[trigger] ciphers[i]).len() == blinding.len()
    &&& forall|i: int| 0 <= i < ciphers.len() ==> (#[trigger] scalars[i]).len() == blinding.len()
}

/// The sum above the diagonal at offset `d`, up to chunk `end`: the dot
/// products of scalar chunk `i - d` with cipher chunk `i` for `i` from `d` to
/// `end - 1`, summed from the first on.
pub open spec fn upper_sum(
    ciphers: Seq<Seq<(AffinePoint, AffinePoint)>>,
    scalars: Seq<Seq<nat>>,
    d: int,
    end: int,
) -> (AffinePoint, AffinePoint)
    decreases end - d,
{
    if end <= d + 1 {
        ciphers_dot(scalars[0], ciphers[d])
    } else {
        cipher_sum(
            upper_sum(ciphers, scalars, d, end - 1),
            ciphers_dot(scalars[end - 1 - d], ciphers[end - 1]),
        )
    }
}

/// The sum below the diagonal at offset `d`, up to chunk `end`: the dot
/// products of scalar chunk `i` with cipher chunk `i - d` for `i` from `d` to
/// `end - 1`, summed from the first on.
pub open spec fn lower_sum(
    ciphers: Seq<Seq<(AffinePoint, AffinePoint)>>,
    scalars: Seq<Seq<nat>>,
    d: int,
    end: int,
) -> (AffinePoint, AffinePoint)
    decreases end - d,
{
    if end <= d + 1 {
        ciphers_dot(scalars[d], ciphers[0])
    } else {
        cipher_sum(
            lower_sum(ciphers, scalars, d, end - 1),
            ciphers_dot(scalars[end - 1], ciphers[end - 1 - d]),
        )
    }
}

/// The diagonal sums of `m` chunks, `2m` entries: first the blinding vector
/// against the last cipher chunk; then, for the offsets `m - 1` down to 1, the
/// upper sum plus the blinding vector against cipher chunk `d - 1`; then the
/// claimed product in the centre; then the lower sums for the offsets 1 to
/// `m - 1`.
pub open spec fn diagonal_sums(
    ciphers: Seq<Seq<(AffinePoint, AffinePoint)>>,
    scalars: Seq<Seq<nat>>,
    claimed: (AffinePoint, AffinePoint),
    blinding: Seq<nat>,
) -> Seq<(AffinePoint, AffinePoint)> {
    let m = ciphers.len() as int;
    Seq::new(
        (2 * m) as nat,
        |k: int|
            if k == 0 {
                ciphers_dot(blinding, ciphers[m - 1])
            } else if k < m {
                cipher_sum(
                    upper_sum(ciphers, scalars, m - k, m),
                    ciphers_dot(blinding, ciphers[m - k - 1]),
                )
            } else if k == m {
                claimed
            } else {
                lower_sum(ciphers, scalars, k - m, m)
            },
    )
}

/// The dot product of two vectors of scalars does not depend on their
/// order.
pub proof fn lemma_scalars_dot_commutes(a: Seq<nat>, b: Seq<nat>)
    requires
        a.len() == b.len(),
    ensures
        scalars_dot(a, b) == scalars_dot(b, a),
        sum_of_products(a, b) == sum_of_products(b, a),
    decreases a.len(),
{
    if a.len() > 0 {
        lemma_scalars_dot_commutes(a.drop_last(), b.drop_last());
        assert(a.last() * b.last() == b.last() * a.last()) by (nonlinear_arith);
    }
}

/// The first entries of a sequence of ciphertexts.
pub open spec fn first_entries(ciphers: Seq<(AffinePoint, AffinePoint)>) -> Seq<AffinePoint> {
    ciphers.map_values(|c: (AffinePoint, AffinePoint)| c.0)
}

/// The second entries of a sequence of ciphertexts.
pub open spec fn second_entries(ciphers: Seq<(AffinePoint, AffinePoint)>) -> Seq<AffinePoint> {
    ciphers.map_values(|c: (AffinePoint, AffinePoint)| c.1)
}

/// A dot product with ciphertexts is the pair of the dot products with
/// their first and with their second entries.
pub proof fn lemma_ciphers_dot_is_entrywise(
    scalars: Seq<nat>,
    ciphers: Seq<(AffinePoint, AffinePoint)>,
)
    requires
        scalars.len() == ciphers.len(),
    ensures
        ciphers_dot(scalars, ciphers) == (
            points_dot(scalars, first_entries(ciphers)),
            points_dot(scalars, second_entries(ciphers)),
        ),
    decreases scalars.len(),
{
    if scalars.len() > 1 {
        lemma_ciphers_dot_is_entrywise(scalars.drop_last(), ciphers.drop_last());
        assert(first_entries(ciphers).drop_last() =~= first_entries(ciphers.drop_last()));
        assert(second_entries(ciphers).drop_last() =~= second_entries(ciphers.drop_last()));
    }
}

/// Under the laws of a module, the multiples of one ciphertext by two
/// scalars add up to its multiple by their sum.
proof fn lemma_cipher_multiples_add(t: (AffinePoint, AffinePoint), a: nat, b: nat)
    requires
        module_laws(),
        is_member(t.0),
        is_member(t.1),
        a < scalar_modulus(),
        b < scalar_modulus(),
    ensures
        cipher_sum(cipher_product(t, a), cipher_product(t, b)) == cipher_product(
            t,
            (a + b) % scalar_modulus(),
        ),
{
    lemma_multiples_add(t.0, a, b);
    lemma_multiples_add(t.1, a, b);
}

/// Under the laws of a module, the dot product of two scalars with one
/// ciphertext twice is its multiple by their sum.
proof fn lemma_dot_with_a_repeated_cipher(t: (AffinePoint, AffinePoint), a: nat, b: nat)
    requires
        module_laws(),
        is_member(t.0),
        is_member(t.1),
        a < scalar_modulus(),
        b < scalar_modulus(),
    ensures
        ciphers_dot(seq![a, b], seq![t, t]) == cipher_product(t, (a + b) % scalar_modulus()),
{
    let scalars = seq![a, b];
    let ciphers = seq![t, t];
    assert(scalars.drop_last() =~= seq![a]);
    assert(ciphers.drop_last() =~= seq![t]);
    assert(ciphers_dot(seq![a], seq![t]) == cipher_product(t, a));
    assert(ciphers_dot(scalars, ciphers) == cipher_sum(
        ciphers_dot(seq![a], seq![t]),
        cipher_product(t, b),
    ));
    lemma_cipher_multiples_add(t, a, b);
}

/// Under the laws of a module, the diagonal sums of three chunks of two
/// entries, built from one ciphertext `t` repeated and the scalars `s0` to
/// `s5`, with the blinding vector `r0`, `r1` and the full dot product as the
/// claimed product, are multiples of `t`: by `r0 + r1`; by that plus `s0 +
/// s1`; by that plus `s2 + s3`; by the sum of all six scalars; by `s2 + s3 +
/// s4 + s5`; and by `s4 + s5`.
pub proof fn lemma_diagonal_sums_of_a_repeated_cipher(
    t: (AffinePoint, AffinePoint),
    s0: nat,
    s1: nat,
    s2: nat,
    s3: nat,
    s4: nat,
    s5: nat,
    r0: nat,
    r1: nat,
)
    requires
        module_laws(),
        is_member(t.0),
        is_member(t.1),
        s0 < scalar_modulus(),
        s1 < scalar_modulus(),
        s2 < scalar_modulus(),
        s3 < scalar_modulus(),
        s4 < scalar_modulus(),
        s5 < scalar_modulus(),
        r0 < scalar_modulus(),
        r1 < scalar_modulus(),
    ensures
        diagonal_sums(
            seq![seq![t, t], seq![t, t], seq![t, t]],
            seq![seq![s0, s1], seq![s2, s3], seq![s4, s5]],
            cipher_product(t, (s0 + s1 + s2 + s3 + s4 + s5) % scalar_modulus()),
            seq![r0, r1],
        ) == seq![
            cipher_product(t, (r0 + r1) % scalar_modulus()),
            cipher_product(t, (r0 + r1 + s0 + s1) % scalar_modulus()),
            cipher_product(t, (r0 + r1 + s0 + s1 + s2 + s3) % scalar_modulus()),
            cipher_product(t, (s0 + s1 + s2 + s3 + s4 + s5) % scalar_modulus()),
            cipher_product(t, (s2 + s3 + s4 + s5) % scalar_modulus()),
            cipher_product(t, (s4 + s5) % scalar_modulus()),
        ],
{
    let p = scalar_modulus();
    let pair = seq![t, t];
    let ciphers = seq![pair, pair, pair];
    let scalars = seq![seq![s0, s1], seq![s2, s3], seq![s4, s5]];
    let blinding = seq![r0, r1];
    let claimed = cipher_product(t, (s0 + s1 + s2 + s3 + s4 + s5) % p);
    let sums = diagonal_sums(ciphers, scalars, claimed, blinding);
    let r = (r0 + r1) % p;
    let a = (s0 + s1) % p;
    let b = (s2 + s3) % p;
    let c = (s4 + s5) % p;
    lemma_dot_with_a_repeated_cipher(t, r0, r1);
    lemma_dot_with_a_repeated_cipher(t, s0, s1);
    lemma_dot_with_a_repeated_cipher(t, s2, s3);
    lemma_dot_with_a_repeated_cipher(t, s4, s5);
    // The entry before the centre by one, and by two.
    assert(upper_sum(ciphers, scalars, 2, 3) == cipher_product(t, a));
    lemma_cipher_multiples_add(t, a, r);
    lemma_add_mod_noop((s0 + s1) as int, (r0 + r1) as int, p as int);
    assert(upper_sum(ciphers, scalars, 1, 2) == cipher_product(t, a));
    assert(upper_sum(ciphers, scalars, 1, 3) == cipher_sum(
        upper_sum(ciphers, scalars, 1, 2),
        ciphers_dot(scalars[1], ciphers[2]),
    ));
    lemma_cipher_multiples_add(t, a, b);
    let ab = (a + b) % p;
    lemma_add_mod_noop((s0 + s1) as int, (s2 + s3) as int, p as int);
    lemma_cipher_multiples_add(t, ab, r);
    lemma_add_mod_noop((s0 + s1 + s2 + s3) as int, (r0 + r1) as int, p as int);
    // The entries behind the centre.
    assert(lower_sum(ciphers, scalars, 1, 2) == cipher_product(t, b));
    assert(lower_sum(ciphers, scalars, 1, 3) == cipher_sum(
        lower_sum(ciphers, scalars, 1, 2),
        ciphers_dot(scalars[2], ciphers[1]),
    ));
    lemma_cipher_multiples_add(t, b, c);
    lemma_add_mod_noop((s2 + s3) as int, (s4 + s5) as int, p as int);
    assert(lower_sum(ciphers, scalars, 2, 3) == cipher_product(t, c));
    assert(sums[0] == cipher_product(t, r));
    assert(sums[1] == cipher_product(t, (r0 + r1 + s0 + s1) % p));
    assert(sums[2] == cipher_product(t, (r0 + r1 + s0 + s1 + s2 + s3) % p));
    assert(sums[3] == claimed);
    assert(sums[4] == cipher_product(t, (s2 + s3 + s4 + s5) % p));
    assert(sums[5] == cipher_product(t, c));
    assert(sums =~= seq![
        cipher_product(t, (r0 + r1) % p),
        cipher_product(t, (r0 + r1 + s0 + s1) % p),
        cipher_product(t, (r0 + r1 + s0 + s1 + s2 + s3) % p),
        cipher_product(t, (s0 + s1 + s2 + s3 + s4 + s5) % p),
        cipher_product(t, (s2 + s3 + s4 + s5) % p),
        cipher_product(t, (s4 + s5) % p),
    ]);
}

/// Whether each of the first `count` chunks of a matrix holds `width`
/// entries.
fn first_chunks_have_width<T>(chunks: &Vec<Vec<T>>, count: usize, width: usize) -> (r: bool)
    requires
        count <= chunks.len(),
    ensures
        r == forall|i: int| 0 <= i < count ==> (#[trigger] chunks[i]).len() == width,
{
    let mut i: usize = 0;
    while i < count
        invariant
            i <= count,
            count <= chunks.len(),
            forall|j: int| 0 <= j < i ==> (#[trigger] chunks[j]).len() == width,
        decreases count - i,
    {
        if chunks[i].len() != width {
            return false;
        }
        i += 1;
    }
    true
}

/// The sum above (`upper`) or below the diagonal at offset `d`.
fn diagonal_at(
    cipher_chunks: &Vec<Vec<ElgamalCipher>>,
    scalar_chunks: &Vec<Vec<Scalar>>,
    d: usize,
    upper: bool,
) -> (r: Result<ElgamalCipher, Error>)
    requires
        1 <= d < cipher_chunks.len(),
        scalar_chunks.len() >= cipher_chunks.len(),
        forall|i: int, j: int|
            0 <= i < cipher_chunks.len() && 0 <= j < cipher_chunks.len() ==> (
            #[trigger] cipher_chunks[i]).len() == (#[trigger] scalar_chunks[j]).len(),
    ensures
        r is Ok,
        r matches Ok(c) ==> c@ == if upper {
            upper_sum(cipher_matrix(cipher_chunks@), scalar_matrix(scalar_chunks@), d as int, cipher_chunks.len() as int)
        } else {
            lower_sum(cipher_matrix(cipher_chunks@), scalar_matrix(scalar_chunks@), d as int, cipher_chunks.len() as int)
        },
{
    let m = cipher_chunks.len();
    let ghost cm = cipher_matrix(cipher_chunks@);
    let ghost sm = scalar_matrix(scalar_chunks@);
    let mut acc = ElgamalCipher::zero();
    let mut i: usize = d;
    while i < m
        invariant
            1 <= d <= i <= m,
            m == cipher_chunks.len(),
            m <= scalar_chunks.len(),
            cm == cipher_matrix(cipher_chunks@),
            sm == scalar_matrix(scalar_chunks@),
            forall|i: int, j: int|
                0 <= i < cipher_chunks.len() && 0 <= j < cipher_chunks.len() ==> (
                #[trigger] cipher_chunks[i]).len() == (#[trigger] scalar_chunks[j]).len(),
            i == d ==> acc@ == cipher_zero(),
            i > d && upper ==> acc@ == upper_sum(cm, sm, d as int, i as int),
            i > d && !upper ==> acc@ == lower_sum(cm, sm, d as int, i as int),
        decreases m - i,
    {
        let dot = if upper {
            DotProductCalculator::scalars_by_ciphers(&scalar_chunks[i - d], &cipher_chunks[i])
        } else {
            DotProductCalculator::scalars_by_ciphers(&scalar_chunks[i], &cipher_chunks[i - d])
        };
        match dot {
            Ok(term) => {
                acc = acc.add(&term);
            },
            Err(e) => {
                return Err(e);
            },
        }
        i += 1;
    }
    Ok(acc)
}

/// The diagonal sums of a chunked matrix of ciphertexts against a chunked
/// matrix of scalars, with the claimed product in the centre and the blinding
/// vector `a_0_randomness` folded into the upper half.
///
/// Fails where the shapes do not fit together, before anything is computed.
/// Chunks of scalars beyond the number of chunks of ciphertexts are left
/// unread.
pub fn diagonals_from_chunks_for_testing(
    cipher_chunks: &Vec<Vec<ElgamalCipher>>,
    scalar_chunks: &Vec<Vec<Scalar>>,
    claimed_product: ElgamalCipher,
    a_0_randomness: &Vec<Scalar>,
) -> (r: Result<Vec<ElgamalCipher>, Error>)
    ensures
        r is Ok <==> chunks_well_shaped(
            cipher_matrix(cipher_chunks@),
            scalar_matrix(scalar_chunks@),
            scalar_values(a_0_randomness@),
        ),
        r matches Ok(v) ==> cipher_values(v@) == diagonal_sums(
            cipher_matrix(cipher_chunks@),
            scalar_matrix(scalar_chunks@),
            claimed_product@,
            scalar_values(a_0_randomness@),
        ),
        r matches Err(e) ==> e == Error::DotProductLenError,
{
    let m = cipher_chunks.len();
    let n = a_0_randomness.len();
    let ghost cm = cipher_matrix(cipher_chunks@);
    let ghost sm = scalar_matrix(scalar_chunks@);
    let ghost bv = scalar_values(a_0_randomness@);
    let ghost want = diagonal_sums(cm, sm, claimed_product@, bv);
    if m == 0 || scalar_chunks.len() < m {
        return Err(Error::DotProductLenError);
    }
    let cipher_width_fits = first_chunks_have_width(cipher_chunks, m, n);
    let scalar_width_fits = first_chunks_have_width(scalar_chunks, m, n);
    proof {
        assert forall|i: int| 0 <= i < m implies (#[trigger] cm[i]).len()
            == cipher_chunks[i].len() by {}
        assert forall|i: int| 0 <= i < m implies (#[trigger] sm[i]).len()
            == scalar_chunks[i].len() by {}
        if cipher_width_fits {
            assert forall|i: int| 0 <= i < m implies (#[trigger] cm[i]).len() == bv.len() by {
                assert(cipher_chunks[i].len() == n);
            }
        }
        if scalar_width_fits {
            assert forall|i: int| 0 <= i < m implies (#[trigger] sm[i]).len() == bv.len() by {
                assert(scalar_chunks[i].len() == n);
            }
        }
        if chunks_well_shaped(cm, sm, bv) {
            assert forall|i: int| 0 <= i < m implies (#[trigger] cipher_chunks[i]).len() == n by {
                assert(cm[i].len() == bv.len());
            }
            assert forall|i: int| 0 <= i < m implies (#[trigger] scalar_chunks[i]).len() == n by {
                assert(sm[i].len() == bv.len());
            }
        }
    }
    if !cipher_width_fits || !scalar_width_fits {
        return Err(Error::DotProductLenError);
    }
    let mut out: Vec<ElgamalCipher> = Vec::new();
    match DotProductCalculator::scalars_by_ciphers(a_0_randomness, &cipher_chunks[m - 1]) {
        Ok(zeroth) => {
            out.push(zeroth);
        },
        Err(e) => {
            return Err(e);
        },
    }
    proof {
        assert(cipher_values(out@) =~= want.take(1));
    }
    let mut d: usize = m - 1;
    while d >= 1
        invariant
            d < m,
            m == cipher_chunks.len(),
            m <= scalar_chunks.len(),
            n == a_0_randomness.len(),
            cm == cipher_matrix(cipher_chunks@),
            sm == scalar_matrix(scalar_chunks@),
            bv == scalar_values(a_0_randomness@),
            want == diagonal_sums(cm, sm, claimed_product@, bv),
            chunks_well_shaped(cm, sm, bv),
            forall|i: int| 0 <= i < cipher_chunks.len() ==> (#[trigger] cipher_chunks[i]).len() == n,
            forall|i: int| 0 <= i < m ==> (#[trigger] scalar_chunks[i]).len() == n,
            out.len() == m - d,
            cipher_values(out@) == want.take(m - d),
        decreases d,
    {
        let sum = diagonal_at(cipher_chunks, scalar_chunks, d, true);
        let extra = DotProductCalculator::scalars_by_ciphers(a_0_randomness, &cipher_chunks[d - 1]);
        match (sum, extra) {
            (Ok(sum), Ok(extra)) => {
                let entry = sum.add(&extra);
                out.push(entry);
                proof {
                    let k = m - d;
                    assert(want[k] == entry@);
                    assert(cipher_values(out@) =~= want.take(k + 1));
                }
            },
            _ => {
                return Err(Error::DotProductLenError);
            },
        }
        d -= 1;
    }
    out.push(claimed_product);
    proof {
        assert(cipher_values(out@) =~= want.take(m + 1));
    }
    let mut d: usize = 1;
    while d < m
        invariant
            1 <= d <= m,
            m == cipher_chunks.len(),
            m <= scalar_chunks.len(),
            cm == cipher_matrix(cipher_chunks@),
            sm == scalar_matrix(scalar_chunks@),
            bv == scalar_values(a_0_randomness@),
            want == diagonal_sums(cm, sm, claimed_product@, bv),
            chunks_well_shaped(cm, sm, bv),
            forall|i: int| 0 <= i < cipher_chunks.len() ==> (#[trigger] cipher_chunks[i]).len() == n,
            forall|i: int| 0 <= i < m ==> (#[trigger] scalar_chunks[i]).len() == n,
            out.len() == m + d,
            cipher_values(out@) == want.take(m + d),
        decreases m - d,
    {
        match diagonal_at(cipher_chunks, scalar_chunks, d, false) {
            Ok(entry) => {
                out.push(entry);
                proof {
                    assert(want[m + d] == entry@);
                    assert(cipher_values(out@) =~= want.take(m + d + 1));
                }
            },
            Err(e) => {
                return Err(e);
            },
        }
        d += 1;
    }
    proof {
        assert(want.take(2 * m) =~= want);
    }
    Ok(out)
}

/// Dot products over scalars, points and ciphertexts. Each asks for two
/// vectors of one length and fails on any other pair.
pub trait DotProduct {
    type Scalar;

    type Point;

    type Ciphertext;

    fn scalars_by_ciphers(scalars: &Vec<Self::Scalar>, ciphers: &Vec<Self::Ciphertext>) -> (r:
        Result<Self::Ciphertext, Error>)
        ensures
            r is Err <==> scalars.len() != ciphers.len(),
            r matches Err(e) ==> e == Error::DotProductLenError,
    ;

    fn scalars_by_points(scalars: &Vec<Self::Scalar>, points: &Vec<Self::Point>) -> (r: Result<
        Self::Point,
        Error,
    >)
        ensures
            r is Err <==> scalars.len() != points.len(),
            r matches Err(e) ==> e == Error::DotProductLenError,
    ;

    fn scalars_by_scalars(scalars_a: &Vec<Self::Scalar>, scalars_b: &Vec<Self::Scalar>) -> (r:
        Result<Self::Scalar, Error>)
        ensures
            r is Err <==> scalars_a.len() != scalars_b.len(),
            r matches Err(e) ==> e == Error::DotProductLenError,
    ;
}

/// The dot products of this crate's scalars, points and ciphertexts.
pub struct DotProductCalculator;

impl DotProduct for DotProductCalculator {
    type Scalar = Scalar;

    type Point = Point;

    type Ciphertext = ElgamalCipher;

    fn scalars_by_ciphers(scalars: &Vec<Scalar>, ciphers: &Vec<ElgamalCipher>) -> (r: Result<
        ElgamalCipher,
        Error,
    >)
        ensures
            r matches Ok(c) ==> c@ == ciphers_dot(scalar_values(scalars@), cipher_values(ciphers@)),
    {
        if ciphers.len() != scalars.len() {
            return Err(Error::DotProductLenError);
        }
        let n = scalars.len();
        let ghost sv = scalar_values(scalars@);
        let ghost cv = cipher_values(ciphers@);
        let mut acc = ElgamalCipher::zero();
        let mut i: usize = 0;
        while i < n
            invariant
                i <= n,
                n == scalars.len(),
                n == ciphers.len(),
                sv == scalar_values(scalars@),
                cv == cipher_values(ciphers@),
                acc@ == ciphers_dot(sv.take(i as int), cv.take(i as int)),
            decreases n - i,
        {
            let term = ciphers[i].mul(&scalars[i]);
            acc = acc.add(&term);
            proof {
                let s1 = sv.take(i + 1);
                let c1 = cv.take(i + 1);
                assert(s1.drop_last() =~= sv.take(i as int));
                assert(c1.drop_last() =~= cv.take(i as int));
                assert(s1.last() == scalars[i as int]@);
                assert(c1.last() == ciphers[i as int]@);
            }
            i += 1;
        }
        proof {
            assert(sv.take(n as int) =~= sv);
            assert(cv.take(n as int) =~= cv);
        }
        Ok(acc)
    }

    fn scalars_by_points(scalars: &Vec<Scalar>, points: &Vec<Point>) -> (r: Result<Point, Error>)
        ensures
            r matches Ok(p) ==> p@ == points_dot(scalar_values(scalars@), point_values(points@)),
    {
        if points.len() != scalars.len() {
            return Err(Error::DotProductLenError);
        }
        let n = scalars.len();
        let ghost sv = scalar_values(scalars@);
        let ghost pv = point_values(points@);
        let mut acc = Point::identity();
        let mut i: usize = 0;
        while i < n
            invariant
                i <= n,
                n == scalars.len(),
                n == points.len(),
                sv == scalar_values(scalars@),
                pv == point_values(points@),
                acc@ == points_dot(sv.take(i as int), pv.take(i as int)),
            decreases n - i,
        {
            let term = points[i].mul(&scalars[i]);
            acc = acc.add(&term);
            proof {
                let s1 = sv.take(i + 1);
                let p1 = pv.take(i + 1);
                assert(s1.drop_last() =~= sv.take(i as int));
                assert(p1.drop_last() =~= pv.take(i as int));
                assert(s1.last() == scalars[i as int]@);
                assert(p1.last() == points[i as int]@);
            }
            i += 1;
        }
        proof {
            assert(sv.take(n as int) =~= sv);
            assert(pv.take(n as int) =~= pv);
        }
        Ok(acc)
    }

    fn scalars_by_scalars(scalars_a: &Vec<Scalar>, scalars_b: &Vec<Scalar>) -> (r: Result<
        Scalar,
        Error,
    >)
        ensures
            r matches Ok(s) ==> s@ == scalars_dot(scalar_values(scalars_a@), scalar_values(scalars_b@)),
    {
        if scalars_a.len() != scalars_b.len() {
            return Err(Error::DotProductLenError);
        }
        let n = scalars_a.len();
        let ghost av = scalar_values(scalars_a@);
        let ghost bv = scalar_values(scalars_b@);
        let mut acc = Scalar::zero();
        let mut i: usize = 0;
        proof {
            lemma_small_mod(0, scalar_modulus());
        }
        while i < n
            invariant
                i <= n,
                n == scalars_a.len(),
                n == scalars_b.len(),
                av == scalar_values(scalars_a@),
                bv == scalar_values(scalars_b@),
                acc@ == scalars_dot(av.take(i as int), bv.take(i as int)),
            decreases n - i,
        {
            let term = scalars_a[i].mul(&scalars_b[i]);
            let ghost before = sum_of_products(av.take(i as int), bv.take(i as int));
            acc = acc.add(&term);
            proof {
                let a1 = av.take(i + 1);
                let b1 = bv.take(i + 1);
                assert(a1.drop_last() =~= av.take(i as int));
                assert(b1.drop_last() =~= bv.take(i as int));
                assert(a1.last() == scalars_a[i as int]@);
                assert(b1.last() == scalars_b[i as int]@);
                lemma_add_mod_noop(
                    before as int,
                    (a1.last() * b1.last()) as int,
                    scalar_modulus() as int,
                );
            }
            i += 1;
        }
        proof {
            assert(av.take(n as int) =~= av);
            assert(bv.take(n as int) =~= bv);
        }
        Ok(acc)
    }
}

} // verus!
