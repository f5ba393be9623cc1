//! The single value product argument: a proof that the entries of a committed
//! vector multiply to a claimed scalar.

use crate::commitment::{
    key_in_group, lemma_commitments_combine, pedersen_commitment, CommitKeyValue, PedersenCommitment,
};
use crate::config::PublicConfig;
use crate::error::Error;
use crate::group::{module_laws, point_product, point_sum, AffinePoint, Point};
use crate::scalar::{
    all_reduced, blinded, lemma_congruent_differences, lemma_congruent_products,
    lemma_congruent_sums, lemma_residue_is_congruent, residue, scalar_modulus, scalar_values, Scalar,
};
use crate::transcript::{
    appended_point, challenge_value, challenged, label, label_bytes, ProofTranscript, TranscriptEvent,
};
use vstd::arithmetic::div_mod::{
    lemma_add_mod_noop_right, lemma_mul_mod_noop_general, lemma_small_mod, lemma_sub_mod_noop,
    lemma_sub_mod_noop_right,
};
use vstd::prelude::*;

verus! {

/// The prover's messages: three commitments, then the blinded vectors and
/// blinding factors that answer the challenge.
pub struct Proof {
    pub d_commit: Point,
    pub delta_commit: Point,
    pub diff_commit: Point,
    pub a_blinded: Vec<Scalar>,
    pub b_blinded: Vec<Scalar>,
    pub r_blinded: Scalar,
    pub s_blinded: Scalar,
}

/// A proof as values.
pub struct ProofValue {
    pub d_commit: AffinePoint,
    pub delta_commit: AffinePoint,
    pub diff_commit: AffinePoint,
    pub a_blinded: Seq<nat>,
    pub b_blinded: Seq<nat>,
    pub r_blinded: nat,
    pub s_blinded: nat,
}

impl View for Proof {
    type V = ProofValue;

    open spec fn view(&self) -> ProofValue {
        ProofValue {
            d_commit: self.d_commit@,
            delta_commit: self.delta_commit@,
            diff_commit: self.diff_commit@,
            a_blinded: scalar_values(self.a_blinded@),
            b_blinded: scalar_values(self.b_blinded@),
            r_blinded: self.r_blinded@,
            s_blinded: self.s_blinded@,
        }
    }
}

/// The entry of the vector that the verifier recomputes from the blinded
/// answers is the entry of the second and third committed vectors, blinded.
proof fn lemma_blinded_diff_entry(
    x: int,
    prefix: int,
    a1: int,
    d1: int,
    delta0: int,
    delta1: int,
)
    ensures
        ({
            let b0 = residue(prefix) as int;
            let b1 = residue(prefix * a1) as int;
            let answer_b0 = residue(x * b0 + delta0) as int;
            let answer_b1 = residue(x * b1 + delta1) as int;
            let answer_a1 = residue(x * a1 + d1) as int;
            let third = residue(delta1 - a1 * delta0 - b0 * d1) as int;
            let second = residue(-(delta0 * d1)) as int;
            residue(x * answer_b1 - answer_b0 * answer_a1) == residue(x * third + second)
        }),
{
    let b0 = residue(prefix) as int;
    let b1 = residue(prefix * a1) as int;
    let answer_b0 = residue(x * b0 + delta0) as int;
    let answer_b1 = residue(x * b1 + delta1) as int;
    let answer_a1 = residue(x * a1 + d1) as int;
    let third = residue(delta1 - a1 * delta0 - b0 * d1) as int;
    let second = residue(-(delta0 * d1)) as int;
    lemma_residue_is_congruent(prefix);
    lemma_residue_is_congruent(prefix * a1);
    lemma_residue_is_congruent(x * b0 + delta0);
    lemma_residue_is_congruent(x * b1 + delta1);
    lemma_residue_is_congruent(x * a1 + d1);
    lemma_residue_is_congruent(delta1 - a1 * delta0 - b0 * d1);
    lemma_residue_is_congruent(-(delta0 * d1));
    // The left side, down to the prefix product.
    lemma_congruent_products(x, x, b1, prefix * a1);
    lemma_congruent_sums(x * b1, x * (prefix * a1), delta1, delta1);
    lemma_congruent_products(x, x, answer_b1, x * (prefix * a1) + delta1);
    lemma_congruent_products(x, x, b0, prefix);
    lemma_congruent_sums(x * b0, x * prefix, delta0, delta0);
    lemma_congruent_products(answer_b0, x * prefix + delta0, answer_a1, x * a1 + d1);
    lemma_congruent_differences(
        x * answer_b1,
        x * (x * (prefix * a1) + delta1),
        answer_b0 * answer_a1,
        (x * prefix + delta0) * (x * a1 + d1),
    );
    // The right side, down to the prefix product.
    lemma_congruent_products(b0, prefix, d1, d1);
    lemma_congruent_differences(delta1 - a1 * delta0, delta1 - a1 * delta0, b0 * d1, prefix * d1);
    lemma_congruent_products(x, x, third, delta1 - a1 * delta0 - prefix * d1);
    lemma_congruent_sums(
        x * third,
        x * (delta1 - a1 * delta0 - prefix * d1),
        second,
        -(delta0 * d1),
    );
    // Both are one polynomial.
    assert(x * (x * (prefix * a1) + delta1) - (x * prefix + delta0) * (x * a1 + d1) == x * (delta1
        - a1 * delta0 - prefix * d1) + (-(delta0 * d1))) by (nonlinear_arith);
}

/// The vector that the verifier recomputes from the answers of an honest
/// prover is the second and third committed vectors, blinded.
pub proof fn lemma_blinded_diffs_of_honest_answers(x: nat, a: Seq<nat>, d: Seq<nat>, delta: Seq<nat>)
    requires
        a.len() == d.len(),
        a.len() == delta.len(),
    ensures
        blinded_diffs(x, blinded(x, a, d), blinded(x, partial_products(a), delta)) == blinded(
            x,
            diff_vector(a, partial_products(a), d, delta),
            delta_vector(d, delta),
        ),
{
    let b = partial_products(a);
    let left = blinded_diffs(x, blinded(x, a, d), blinded(x, b, delta));
    let right = blinded(x, diff_vector(a, b, d, delta), delta_vector(d, delta));
    assert forall|i: int| 0 <= i < a.len() implies left[i] == right[i] by {
        if i + 1 < a.len() {
            let prefix = product_of(a.take(i + 1));
            let next = a.take(i + 2);
            assert(next.drop_last() =~= a.take(i + 1));
            assert(next.last() == a[i + 1]);
            assert(product_of(next) == prefix * a[i + 1]);
            lemma_blinded_diff_entry(
                x as int,
                prefix,
                a[i + 1] as int,
                d[i + 1] as int,
                delta[i] as int,
                delta[i + 1] as int,
            );
        } else {
            lemma_small_mod(0, scalar_modulus());
            assert(x * 0 + 0 == 0);
        }
    }
    assert(left =~= right);
}

/// Where the group operations obey the laws of a module, the proof that an
/// honest prover makes of a committed vector, with any coins, is accepted for
/// the product of the vector's entries.
pub proof fn lemma_honest_proof_is_accepted(
    key: CommitKeyValue,
    a: Seq<nat>,
    r: nat,
    nonces: NoncesValue,
    events: Seq<TranscriptEvent>,
)
    requires
        module_laws(),
        key_in_group(key),
        key.generators.len() >= 1,
        a.len() == key.generators.len(),
        nonces.d.len() == key.generators.len(),
        nonces.delta.len() == key.generators.len(),
        all_reduced(a),
        all_reduced(nonces.d),
        all_reduced(nonces.delta),
        r < scalar_modulus(),
        nonces.r_d < scalar_modulus(),
        nonces.s_1 < scalar_modulus(),
        nonces.s_x < scalar_modulus(),
    ensures
        accepted(
            key,
            residue(product_of(a)),
            pedersen_commitment(key, a, r),
            honest_proof(key, pedersen_commitment(key, a, r), a, r, nonces, events),
            events,
        ),
{
    let a_commit = pedersen_commitment(key, a, r);
    let proof = honest_proof(key, a_commit, a, r, nonces, events);
    let x = argument_challenge(events, a_commit, proof);
    let d = masking(nonces.d);
    let delta = bridging(nonces.d, nonces.delta);
    let b = partial_products(a);
    let second = delta_vector(d, delta);
    let third = diff_vector(a, b, d, delta);
    let n = a.len() as int;
    assert(all_reduced(d));
    assert(all_reduced(delta));
    assert forall|i: int| 0 <= i < n implies #[trigger] second[i] < scalar_modulus() && third[i]
        < scalar_modulus() by {}
    lemma_commitments_combine(key, x, a, r, d, nonces.r_d);
    lemma_commitments_combine(key, x, third, nonces.s_x, second, nonces.s_1);
    lemma_blinded_diffs_of_honest_answers(x, a, d, delta);
    // The first answers of both vectors agree.
    assert(a.take(1).drop_last() =~= Seq::<nat>::empty());
    assert(product_of(a.take(1)) == a[0]) by {
        assert(product_of(a.take(1).drop_last()) == 1);
        assert(a.take(1).last() == a[0]);
    }
    lemma_small_mod(a[0], scalar_modulus());
    assert(b[0] == a[0]);
    assert(delta[0] == d[0]);
    assert(proof.b_blinded[0] == proof.a_blinded[0]);
    // The last answer is the product at the challenge.
    assert(a.take(n) =~= a);
    assert(b[n - 1] == residue(product_of(a)));
    assert(delta[n - 1] == 0);
    assert(proof.b_blinded.last() == (x * residue(product_of(a))) % scalar_modulus());
}

/// The prover's secret coins: a masking vector with its blinding factor, a
/// second masking vector, and two more blinding factors.
pub struct Nonces {
    pub d: Vec<Scalar>,
    pub r_d: Scalar,
    pub delta: Vec<Scalar>,
    pub s_1: Scalar,
    pub s_x: Scalar,
}

/// The prover's coins as values.
pub struct NoncesValue {
    pub d: Seq<nat>,
    pub r_d: nat,
    pub delta: Seq<nat>,
    pub s_1: nat,
    pub s_x: nat,
}

impl View for Nonces {
    type V = NoncesValue;

    open spec fn view(&self) -> NoncesValue {
        NoncesValue {
            d: scalar_values(self.d@),
            r_d: self.r_d@,
            delta: scalar_values(self.delta@),
            s_1: self.s_1@,
            s_x: self.s_x@,
        }
    }
}

/// A vector of `n` scalars drawn at random.
fn random_vector(n: usize) -> (r: Vec<Scalar>)
    ensures
        r.len() == n,
{
    let mut v: Vec<Scalar> = Vec::with_capacity(n);
    let mut i: usize = 0;
    while i < n
        invariant
            i <= n,
            v.len() == i,
        decreases n - i,
    {
        v.push(Scalar::random());
        i += 1;
    }
    v
}

impl Nonces {
    /// Coins for a vector of `n` entries, drawn at random.
    pub fn random(n: usize) -> (r: Nonces)
        ensures
            r@.d.len() == n,
            r@.delta.len() == n,
    {
        Nonces {
            d: random_vector(n),
            r_d: Scalar::random(),
            delta: random_vector(n),
            s_1: Scalar::random(),
            s_x: Scalar::random(),
        }
    }
}

/// The log after the statement's commitment and the prover's three
/// commitments.
pub open spec fn committed_log(
    events: Seq<TranscriptEvent>,
    a_commit: AffinePoint,
    d_commit: AffinePoint,
    delta_commit: AffinePoint,
    diff_commit: AffinePoint,
) -> Seq<TranscriptEvent> {
    appended_point(
        appended_point(
            appended_point(
                appended_point(events, label("a_commit"), a_commit),
                label("d_commit"),
                d_commit,
            ),
            label("delta_commit"),
            delta_commit,
        ),
        label("diff_commit"),
        diff_commit,
    )
}

/// The challenge that the argument draws.
pub open spec fn argument_challenge(events: Seq<TranscriptEvent>, a_commit: AffinePoint, proof: ProofValue) -> nat {
    challenge_value(
        committed_log(events, a_commit, proof.d_commit, proof.delta_commit, proof.diff_commit),
        label("x"),
    )
}

/// The log that the argument leaves behind.
pub open spec fn argument_log(events: Seq<TranscriptEvent>, a_commit: AffinePoint, proof: ProofValue) -> Seq<
    TranscriptEvent,
> {
    challenged(
        committed_log(events, a_commit, proof.d_commit, proof.delta_commit, proof.diff_commit),
        label("x"),
    )
}

/// The product of the entries of a vector, as a number.
pub open spec fn product_of(s: Seq<nat>) -> int
    decreases s.len(),
{
    if s.len() == 0 {
        1
    } else {
        product_of(s.drop_last()) * s.last()
    }
}

/// The products of the first entries of a vector: the first, the first two,
/// and so on up to all of them, in the field.
pub open spec fn partial_products(a: Seq<nat>) -> Seq<nat> {
    Seq::new(a.len(), |i: int| residue(product_of(a.take(i + 1))))
}

/// The vector that masks the committed one: the prover's coins `d`, or a
/// single zero where the vector has one entry, which nothing can mask.
pub open spec fn masking(d: Seq<nat>) -> Seq<nat> {
    if d.len() == 1 {
        seq![0nat]
    } else {
        d
    }
}

/// The vector that masks the partial products: the prover's coins `delta`,
/// pinned to the first entry of the masking vector at the start and to zero
/// at the end.
pub open spec fn bridging(d: Seq<nat>, delta: Seq<nat>) -> Seq<nat> {
    Seq::new(
        d.len(),
        |i: int|
            if i == 0 {
                masking(d)[0]
            } else if i == d.len() - 1 {
                0nat
            } else {
                delta[i]
            },
    )
}

/// The vector behind the second commitment: the entries
/// `-delta[i] * d[i + 1]`, and a zero in the last place.
pub open spec fn delta_vector(d: Seq<nat>, delta: Seq<nat>) -> Seq<nat> {
    Seq::new(
        d.len(),
        |i: int|
            if i + 1 < d.len() {
                residue(-(delta[i] * d[i + 1]))
            } else {
                0nat
            },
    )
}

/// The vector behind the third commitment: the entries
/// `delta[i + 1] - a[i + 1] * delta[i] - b[i] * d[i + 1]`, and a zero in the
/// last place.
pub open spec fn diff_vector(a: Seq<nat>, b: Seq<nat>, d: Seq<nat>, delta: Seq<nat>) -> Seq<nat> {
    Seq::new(
        a.len(),
        |i: int|
            if i + 1 < a.len() {
                residue(delta[i + 1] - a[i + 1] * delta[i] - b[i] * d[i + 1])
            } else {
                0nat
            },
    )
}

/// The proof that an honest prover makes of the vector `a`, committed to in
/// `a_commit` under the blinding factor `r`, with the given coins, on a
/// transcript with the log `events`.
pub open spec fn honest_proof(
    key: CommitKeyValue,
    a_commit: AffinePoint,
    a: Seq<nat>,
    r: nat,
    nonces: NoncesValue,
    events: Seq<TranscriptEvent>,
) -> ProofValue {
    let d = masking(nonces.d);
    let delta = bridging(nonces.d, nonces.delta);
    let b = partial_products(a);
    let d_commit = pedersen_commitment(key, d, nonces.r_d);
    let delta_commit = pedersen_commitment(key, delta_vector(d, delta), nonces.s_1);
    let diff_commit = pedersen_commitment(key, diff_vector(a, b, d, delta), nonces.s_x);
    let x = challenge_value(
        committed_log(events, a_commit, d_commit, delta_commit, diff_commit),
        label("x"),
    );
    ProofValue {
        d_commit,
        delta_commit,
        diff_commit,
        a_blinded: blinded(x, a, d),
        b_blinded: blinded(x, b, delta),
        r_blinded: residue((x * r + nonces.r_d) as int),
        s_blinded: residue((x * nonces.s_x + nonces.s_1) as int),
    }
}

/// The vector that the second commitment must open to: the entries
/// `x * b[i + 1] - b[i] * a[i + 1]`, and a zero in the last place.
pub open spec fn blinded_diffs(x: nat, a: Seq<nat>, b: Seq<nat>) -> Seq<nat> {
    Seq::new(
        a.len(),
        |i: int|
            if i + 1 < a.len() {
                ((x * b[i + 1] - b[i] * a[i + 1]) % (scalar_modulus() as int)) as nat
            } else {
                0nat
            },
    )
}

/// Whether the blinded vectors of a proof are as long as the key.
pub open spec fn lengths_fit(key: CommitKeyValue, proof: ProofValue) -> bool {
    proof.a_blinded.len() == key.generators.len() && proof.b_blinded.len() == key.generators.len()
}

/// Whether a proof is accepted for the claim that the vector committed to in
/// `a_commit` multiplies to `b`, at the challenge `x`.
pub open spec fn accepted_at(
    key: CommitKeyValue,
    b: nat,
    a_commit: AffinePoint,
    proof: ProofValue,
    x: nat,
) -> bool {
    &&& lengths_fit(key, proof)
    &&& point_sum(point_product(a_commit, x), proof.d_commit) == pedersen_commitment(
        key,
        proof.a_blinded,
        proof.r_blinded,
    )
    &&& point_sum(point_product(proof.diff_commit, x), proof.delta_commit) == pedersen_commitment(
        key,
        blinded_diffs(x, proof.a_blinded, proof.b_blinded),
        proof.s_blinded,
    )
    &&& proof.b_blinded[0] == proof.a_blinded[0]
    &&& proof.b_blinded.last() == (x * b) % scalar_modulus()
}

/// Whether a proof is accepted on a transcript with the log `events`.
pub open spec fn accepted(
    key: CommitKeyValue,
    b: nat,
    a_commit: AffinePoint,
    proof: ProofValue,
    events: Seq<TranscriptEvent>,
) -> bool {
    accepted_at(key, b, a_commit, proof, argument_challenge(events, a_commit, proof))
}

/// The masking vector that the coins `d` give.
fn masking_vector(d: &Vec<Scalar>) -> (r: Vec<Scalar>)
    ensures
        r.len() == d.len(),
        scalar_values(r@) == masking(scalar_values(d@)),
{
    if d.len() == 1 {
        let mut v: Vec<Scalar> = Vec::new();
        v.push(Scalar::zero());
        proof {
            assert(scalar_values(v@) =~= seq![0nat]);
        }
        v
    } else {
        let r = d.clone();
        proof {
            assert(r@ =~= d@);
        }
        r
    }
}

/// The bridging vector that the masking vector `d` and the coins `delta`
/// give.
fn bridging_vector(d: &Vec<Scalar>, delta: &Vec<Scalar>) -> (r: Vec<Scalar>)
    requires
        d.len() == delta.len(),
    ensures
        r.len() == d.len(),
        forall|coins: Seq<nat>|
            coins.len() == d.len() && masking(coins) == scalar_values(d@) ==> scalar_values(r@)
                == #[trigger] bridging(coins, scalar_values(delta@)),
{
    let n = d.len();
    let mut v: Vec<Scalar> = Vec::with_capacity(n);
    let mut i: usize = 0;
    while i < n
        invariant
            i <= n,
            n == d.len(),
            n == delta.len(),
            v.len() == i,
            forall|j: int|
                0 <= j < i ==> (#[trigger] v[j])@ == if j == 0 {
                    d[0]@
                } else if j == n - 1 {
                    0nat
                } else {
                    delta[j]@
                },
        decreases n - i,
    {
        let entry = if i == 0 {
            d[0]
        } else if i == n - 1 {
            Scalar::zero()
        } else {
            delta[i]
        };
        v.push(entry);
        i += 1;
    }
    proof {
        assert forall|coins: Seq<nat>|
            coins.len() == d.len() && masking(coins) == scalar_values(d@) implies scalar_values(v@)
            == #[trigger] bridging(coins, scalar_values(delta@)) by {
            assert(scalar_values(v@) =~= bridging(coins, scalar_values(delta@)));
        }
    }
    v
}

/// The partial products of a vector.
fn partial_products_of(a: &Vec<Scalar>) -> (r: Vec<Scalar>)
    ensures
        r.len() == a.len(),
        scalar_values(r@) == partial_products(scalar_values(a@)),
{
    let n = a.len();
    let ghost av = scalar_values(a@);
    let ghost want = partial_products(av);
    let ghost p = scalar_modulus() as int;
    let mut v: Vec<Scalar> = Vec::with_capacity(n);
    let mut acc = Scalar::one();
    let mut i: usize = 0;
    proof {
        lemma_small_mod(1, scalar_modulus());
        assert(av.take(0).len() == 0);
    }
    while i < n
        invariant
            i <= n,
            n == a.len(),
            av == scalar_values(a@),
            want == partial_products(av),
            p == scalar_modulus() as int,
            v.len() == i,
            acc@ == residue(product_of(av.take(i as int))),
            scalar_values(v@) == want.take(i as int),
        decreases n - i,
    {
        let ghost before = product_of(av.take(i as int));
        acc = acc.mul(&a[i]);
        proof {
            let next = av.take(i + 1);
            assert(next.drop_last() =~= av.take(i as int));
            assert(next.last() == a[i as int]@);
            lemma_mul_mod_noop_general(before, a[i as int]@ as int, p);
            assert(acc@ == residue(product_of(next)));
        }
        v.push(acc);
        proof {
            assert(want[i as int] == acc@);
            assert(scalar_values(v@) =~= want.take(i + 1));
        }
        i += 1;
    }
    proof {
        assert(want.take(n as int) =~= want);
    }
    v
}

/// The vector behind the second commitment.
fn delta_vector_of(d: &Vec<Scalar>, delta: &Vec<Scalar>) -> (r: Vec<Scalar>)
    requires
        d.len() == delta.len(),
    ensures
        r.len() == d.len(),
        scalar_values(r@) == delta_vector(scalar_values(d@), scalar_values(delta@)),
{
    let n = d.len();
    let ghost want = delta_vector(scalar_values(d@), scalar_values(delta@));
    let mut v: Vec<Scalar> = Vec::with_capacity(n);
    let mut i: usize = 0;
    while i < n
        invariant
            i <= n,
            n == d.len(),
            n == delta.len(),
            want == delta_vector(scalar_values(d@), scalar_values(delta@)),
            v.len() == i,
            scalar_values(v@) == want.take(i as int),
        decreases n - i,
    {
        let entry = if i + 1 < n {
            let product = delta[i].mul(&d[i + 1]);
            proof {
                lemma_sub_mod_noop_right(
                    0,
                    (delta[i as int]@ * d[i + 1]@) as int,
                    scalar_modulus() as int,
                );
            }
            Scalar::zero().sub(&product)
        } else {
            Scalar::zero()
        };
        v.push(entry);
        proof {
            assert(want[i as int] == entry@);
            assert(scalar_values(v@) =~= want.take(i + 1));
        }
        i += 1;
    }
    proof {
        assert(want.take(n as int) =~= want);
    }
    v
}

/// The vector behind the third commitment.
fn diff_vector_of(a: &Vec<Scalar>, b: &Vec<Scalar>, d: &Vec<Scalar>, delta: &Vec<Scalar>) -> (r:
    Vec<Scalar>)
    requires
        a.len() == b.len(),
        a.len() == d.len(),
        a.len() == delta.len(),
    ensures
        r.len() == a.len(),
        scalar_values(r@) == diff_vector(
            scalar_values(a@),
            scalar_values(b@),
            scalar_values(d@),
            scalar_values(delta@),
        ),
{
    let n = a.len();
    let ghost want = diff_vector(
        scalar_values(a@),
        scalar_values(b@),
        scalar_values(d@),
        scalar_values(delta@),
    );
    let ghost p = scalar_modulus() as int;
    let mut v: Vec<Scalar> = Vec::with_capacity(n);
    let mut i: usize = 0;
    while i < n
        invariant
            i <= n,
            n == a.len(),
            n == b.len(),
            n == d.len(),
            n == delta.len(),
            p == scalar_modulus() as int,
            want == diff_vector(
                scalar_values(a@),
                scalar_values(b@),
                scalar_values(d@),
                scalar_values(delta@),
            ),
            v.len() == i,
            scalar_values(v@) == want.take(i as int),
        decreases n - i,
    {
        let entry = if i + 1 < n {
            let carried = a[i + 1].mul(&delta[i]);
            let masked = b[i].mul(&d[i + 1]);
            let first = delta[i + 1].sub(&carried);
            proof {
                lemma_sub_mod_noop_right(
                    delta[i + 1]@ as int,
                    (a[i + 1]@ * delta[i as int]@) as int,
                    p,
                );
                lemma_sub_mod_noop(
                    delta[i + 1]@ - a[i + 1]@ * delta[i as int]@,
                    (b[i as int]@ * d[i + 1]@) as int,
                    p,
                );
            }
            first.sub(&masked)
        } else {
            Scalar::zero()
        };
        v.push(entry);
        proof {
            assert(want[i as int] == entry@);
            assert(scalar_values(v@) =~= want.take(i + 1));
        }
        i += 1;
    }
    proof {
        assert(want.take(n as int) =~= want);
    }
    v
}

/// The vector `v` blinded with `w` at the challenge `x`.
fn blinded_vector(x: &Scalar, v: &Vec<Scalar>, w: &Vec<Scalar>) -> (r: Vec<Scalar>)
    requires
        v.len() == w.len(),
    ensures
        r.len() == v.len(),
        scalar_values(r@) == blinded(x@, scalar_values(v@), scalar_values(w@)),
{
    let n = v.len();
    let ghost want = blinded(x@, scalar_values(v@), scalar_values(w@));
    let mut out: Vec<Scalar> = Vec::with_capacity(n);
    let mut i: usize = 0;
    while i < n
        invariant
            i <= n,
            n == v.len(),
            n == w.len(),
            want == blinded(x@, scalar_values(v@), scalar_values(w@)),
            out.len() == i,
            scalar_values(out@) == want.take(i as int),
        decreases n - i,
    {
        let entry = x.mul(&v[i]).add(&w[i]);
        proof {
            lemma_add_mod_noop_right(
                w[i as int]@ as int,
                (x@ * v[i as int]@) as int,
                scalar_modulus() as int,
            );
        }
        out.push(entry);
        proof {
            assert(want[i as int] == entry@);
            assert(scalar_values(out@) =~= want.take(i + 1));
        }
        i += 1;
    }
    proof {
        assert(want.take(n as int) =~= want);
    }
    out
}

impl Proof {
    /// Checks the proof that the vector committed to in `a_commit` multiplies
    /// to `b`.
    ///
    /// The commitments are absorbed into the transcript and the challenge is
    /// drawn from it whatever the outcome. A proof whose vectors are not as
    /// long as the key fails with the length error, any other proof that is
    /// not accepted with a verification failure.
    pub fn verify(
        &self,
        config: &PublicConfig,
        b: Scalar,
        a_commit: Point,
        transcript: &mut ProofTranscript,
    ) -> (r: Result<(), Error>)
        ensures
            final(transcript)@ == argument_log(old(transcript)@, a_commit@, self@),
            r is Ok <==> accepted(config@, b@, a_commit@, self@, old(transcript)@),
            r matches Err(e) ==> e == if lengths_fit(config@, self@) {
                Error::VerificationFailure
            } else {
                Error::DotProductLenError
            },
    {
        transcript.append_point(label_bytes("a_commit"), &a_commit);
        transcript.append_point(label_bytes("d_commit"), &self.d_commit);
        transcript.append_point(label_bytes("delta_commit"), &self.delta_commit);
        transcript.append_point(label_bytes("diff_commit"), &self.diff_commit);
        let x = transcript.challenge_scalar(label_bytes("x"));

        let n = config.size();
        let key = config.commit_key();
        if self.a_blinded.len() != n || self.b_blinded.len() != n {
            return Err(Error::DotProductLenError);
        }
        let left = a_commit.mul(&x).add(&self.d_commit);
        let right = match PedersenCommitment::commit_vector(key, &self.a_blinded, self.r_blinded) {
            Ok(p) => p,
            Err(e) => {
                return Err(e);
            },
        };
        if !left.is_equal(&right) {
            return Err(Error::VerificationFailure);
        }
        let diffs = self.blinded_diffs(&x);
        let left = self.diff_commit.mul(&x).add(&self.delta_commit);
        let right = match PedersenCommitment::commit_vector(key, &diffs, self.s_blinded) {
            Ok(p) => p,
            Err(e) => {
                return Err(e);
            },
        };
        if !left.is_equal(&right) {
            return Err(Error::VerificationFailure);
        }
        if !self.b_blinded[0].is_equal(&self.a_blinded[0]) {
            return Err(Error::VerificationFailure);
        }
        if !self.b_blinded[n - 1].is_equal(&x.mul(&b)) {
            return Err(Error::VerificationFailure);
        }
        Ok(())
    }

    /// Proves that the vector `a`, committed to in `a_commit` under the
    /// blinding factor `r`, multiplies to the product of its entries.
    ///
    /// The commitments are absorbed into the transcript and the challenge is
    /// drawn from it, as the verifier will. Fails, before the transcript is
    /// touched, where the vector or a vector of coins is not as long as the
    /// key.
    pub fn prove(
        config: &PublicConfig,
        transcript: &mut ProofTranscript,
        a_commit: Point,
        a: &Vec<Scalar>,
        r: Scalar,
        nonces: &Nonces,
    ) -> (res: Result<Proof, Error>)
        ensures
            res is Ok <==> a.len() == config@.generators.len() && nonces@.d.len()
                == config@.generators.len() && nonces@.delta.len() == config@.generators.len(),
            res matches Ok(proof) ==> proof@ == honest_proof(
                config@,
                a_commit@,
                scalar_values(a@),
                r@,
                nonces@,
                old(transcript)@,
            ) && final(transcript)@ == argument_log(old(transcript)@, a_commit@, proof@),
            res matches Err(e) ==> e == Error::DotProductLenError && final(transcript)@ == old(
                transcript,
            )@,
    {
        let n = config.size();
        let key = config.commit_key();
        if a.len() != n || nonces.d.len() != n || nonces.delta.len() != n {
            return Err(Error::DotProductLenError);
        }
        let d = masking_vector(&nonces.d);
        let delta = bridging_vector(&d, &nonces.delta);
        let b = partial_products_of(a);
        let second = delta_vector_of(&d, &delta);
        let third = diff_vector_of(a, &b, &d, &delta);
        proof {
            assert(scalar_values(d@) == masking(nonces@.d));
            assert(scalar_values(delta@) == bridging(nonces@.d, nonces@.delta));
        }
        let commitments = (
            PedersenCommitment::commit_vector(key, &d, nonces.r_d),
            PedersenCommitment::commit_vector(key, &second, nonces.s_1),
            PedersenCommitment::commit_vector(key, &third, nonces.s_x),
        );
        let (d_commit, delta_commit, diff_commit) = match commitments {
            (Ok(d_commit), Ok(delta_commit), Ok(diff_commit)) => (d_commit, delta_commit, diff_commit),
            _ => {
                return Err(Error::DotProductLenError);
            },
        };
        transcript.append_point(label_bytes("a_commit"), &a_commit);
        transcript.append_point(label_bytes("d_commit"), &d_commit);
        transcript.append_point(label_bytes("delta_commit"), &delta_commit);
        transcript.append_point(label_bytes("diff_commit"), &diff_commit);
        let x = transcript.challenge_scalar(label_bytes("x"));

        let a_blinded = blinded_vector(&x, a, &d);
        let b_blinded = blinded_vector(&x, &b, &delta);
        let r_blinded = x.mul(&r).add(&nonces.r_d);
        let s_blinded = x.mul(&nonces.s_x).add(&nonces.s_1);
        proof {
            lemma_add_mod_noop_right(nonces.r_d@ as int, (x@ * r@) as int, scalar_modulus() as int);
            lemma_add_mod_noop_right(
                nonces.s_1@ as int,
                (x@ * nonces.s_x@) as int,
                scalar_modulus() as int,
            );
        }
        Ok(Proof { d_commit, delta_commit, diff_commit, a_blinded, b_blinded, r_blinded, s_blinded })
    }

    /// The vector that the second commitment must open to at the challenge
    /// `x`.
    fn blinded_diffs(&self, x: &Scalar) -> (r: Vec<Scalar>)
        requires
            self.a_blinded.len() == self.b_blinded.len(),
        ensures
            scalar_values(r@) == blinded_diffs(x@, self@.a_blinded, self@.b_blinded),
    {
        let n = self.a_blinded.len();
        let ghost want = blinded_diffs(x@, self@.a_blinded, self@.b_blinded);
        let mut diffs: Vec<Scalar> = Vec::new();
        let mut i: usize = 0;
        while i < n
            invariant
                i <= n,
                n == self.a_blinded.len(),
                n == self.b_blinded.len(),
                want == blinded_diffs(x@, self@.a_blinded, self@.b_blinded),
                diffs.len() == i,
                scalar_values(diffs@) == want.take(i as int),
            decreases n - i,
        {
            let entry = if i + 1 < n {
                let forward = x.mul(&self.b_blinded[i + 1]);
                let backward = self.b_blinded[i].mul(&self.a_blinded[i + 1]);
                proof {
                    lemma_sub_mod_noop(
                        (x@ * self.b_blinded[i + 1]@) as int,
                        (self.b_blinded[i as int]@ * self.a_blinded[i + 1]@) as int,
                        scalar_modulus() as int,
                    );
                }
                forward.sub(&backward)
            } else {
                Scalar::zero()
            };
            diffs.push(entry);
            proof {
                assert(want[i as int] == entry@);
                assert(scalar_values(diffs@) =~= want.take(i + 1));
            }
            i += 1;
        }
        proof {
            assert(want.take(n as int) =~= want);
        }
        diffs
    }
}

} // verus!
