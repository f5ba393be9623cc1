//! The shuffle proof: a committed permutation, tied by one transcript to a
//! product argument which shows that the commitment holds a permutation of
//! the indices.

use crate::commitment::{
    appended_commit_key, key_in_group, lemma_commitments_combine, pedersen_commitment, CommitKeyValue,
    PedersenCommitment,
};
use crate::config::PublicConfig;
use crate::error::Error;
use crate::group::{
    lemma_multiples_by_zero_and_one, module_laws, point_product, point_sum, AffinePoint, Point,
};
use crate::product_argument;
use crate::product_argument::product_of;
use crate::scalar::{
    all_reduced, blinded, congruent, lemma_congruent_products, lemma_congruent_sums,
    lemma_residue_is_congruent, limbs_value, residue, scalar_modulus, scalar_values, Scalar,
};
use crate::transcript::{
    appended_point, appended_scalar, challenge_value, challenged, label, label_bytes, ProofTranscript,
    TranscriptEvent,
};
use vstd::arithmetic::div_mod::{
    lemma_add_mod_noop, lemma_add_mod_noop_right, lemma_mod_add_multiples_vanish,
    lemma_mul_mod_noop_general, lemma_small_mod, lemma_sub_mod_noop,
};
use vstd::arithmetic::power::pow;
use vstd::prelude::*;
use vstd::seq_lib::lemma_fold_left_permutation;

verus! {

/// A shuffle proof: the commitment to the permutation, the commitment to the
/// challenge raised to the permuted indices, and the product argument.
pub struct Proof {
    pub pi_commit: Point,
    pub exp_pi_commit: Point,
    pub product_argument_proof: product_argument::Proof,
}

/// A shuffle proof as values.
pub struct ProofValue {
    pub pi_commit: AffinePoint,
    pub exp_pi_commit: AffinePoint,
    pub product_argument_proof: product_argument::ProofValue,
}

impl View for Proof {
    type V = ProofValue;

    open spec fn view(&self) -> ProofValue {
        ProofValue {
            pi_commit: self.pi_commit@,
            exp_pi_commit: self.exp_pi_commit@,
            product_argument_proof: self.product_argument_proof@,
        }
    }
}

/// The log once the key and the first commitment are absorbed.
pub open spec fn first_log(events: Seq<TranscriptEvent>, key: CommitKeyValue, pi_commit: AffinePoint) -> Seq<
    TranscriptEvent,
> {
    appended_point(appended_commit_key(events, label("commit_key"), key), label("pi_commit"), pi_commit)
}

/// The three challenges of a shuffle proof, and the log once they are drawn.
pub struct Challenges {
    pub x: nat,
    pub y: nat,
    pub z: nat,
    pub log: Seq<TranscriptEvent>,
}

/// The challenges that a transcript with the log `events` yields for a
/// proof: `x` once the key and the first commitment are absorbed, then `y`
/// and `z`, in that order, once the second commitment is.
pub open spec fn challenges(
    events: Seq<TranscriptEvent>,
    key: CommitKeyValue,
    pi_commit: AffinePoint,
    exp_pi_commit: AffinePoint,
) -> Challenges {
    let first = first_log(events, key, pi_commit);
    let x = challenge_value(first, label("x"));
    let second = appended_point(challenged(first, label("x")), label("exp_pi_commit"), exp_pi_commit);
    let y = challenge_value(second, label("y"));
    let third = challenged(second, label("y"));
    let z = challenge_value(third, label("z"));
    Challenges { x, y, z, log: challenged(third, label("z")) }
}

/// The factor that the index `i` contributes to the target: `i * y + x^i - z`.
pub open spec fn target_term(x: nat, y: nat, z: nat, i: nat) -> int {
    i * y + pow(x as int, i) - z
}

/// The product of the factors of the indices below `n`.
pub open spec fn product_of_terms(x: nat, y: nat, z: nat, n: nat) -> int
    decreases n,
{
    if n == 0 {
        1
    } else {
        product_of_terms(x, y, z, (n - 1) as nat) * target_term(x, y, z, (n - 1) as nat)
    }
}

/// The scalar that the committed vector must multiply to: the product of
/// `i * y + x^i - z` over the indices below `n`, in the field.
pub open spec fn target_product(x: nat, y: nat, z: nat, n: nat) -> nat {
    (product_of_terms(x, y, z, n) % (scalar_modulus() as int)) as nat
}

/// The vector of `n` entries that all equal `-z`.
pub open spec fn minus_z_vector(z: nat, n: nat) -> Seq<nat> {
    Seq::new(n, |i: int| ((scalar_modulus() - z) % (scalar_modulus() as int)) as nat)
}

/// The commitment that the product argument speaks of: the first commitment
/// times `y`, plus the second, plus the commitment to the vector of `-z`
/// under the blinding factor zero.
pub open spec fn combined_commitment(
    key: CommitKeyValue,
    pi_commit: AffinePoint,
    exp_pi_commit: AffinePoint,
    y: nat,
    z: nat,
) -> AffinePoint {
    point_sum(
        point_sum(point_product(pi_commit, y), exp_pi_commit),
        pedersen_commitment(key, minus_z_vector(z, key.generators.len()), 0),
    )
}

/// Whether a shuffle proof is accepted on a transcript with the log
/// `events`: whether its product argument is accepted for the target product
/// and the combined commitment, on the log that the challenges and the target
/// leave behind.
pub open spec fn accepted(key: CommitKeyValue, proof: ProofValue, events: Seq<TranscriptEvent>) -> bool {
    let c = challenges(events, key, proof.pi_commit, proof.exp_pi_commit);
    let b = target_product(c.x, c.y, c.z, key.generators.len());
    product_argument::accepted(
        key,
        b,
        combined_commitment(key, proof.pi_commit, proof.exp_pi_commit, c.y, c.z),
        proof.product_argument_proof,
        appended_scalar(c.log, label("b"), b),
    )
}

/// The values of a vector of indices.
pub open spec fn index_values(indices: Seq<u64>) -> Seq<nat> {
    indices.map_values(|i: u64| i as nat)
}

/// The challenge `x` raised to each index, in the field.
pub open spec fn powers_at(x: nat, indices: Seq<nat>) -> Seq<nat> {
    Seq::new(indices.len(), |i: int| residue(pow(x as int, indices[i])))
}

/// The vector that the product argument speaks of: the entries
/// `y * pi[i] + x^pi[i] - z`, in the field.
pub open spec fn folded_permutation(x: nat, y: nat, z: nat, indices: Seq<nat>) -> Seq<nat> {
    Seq::new(indices.len(), |i: int| residue(target_term(x, y, z, indices[i])))
}

/// The proof that an honest prover makes of the vector `permutation` under
/// the two blinding factors and the coins of the product argument, on a
/// transcript with the log `events`.
pub open spec fn honest_proof(
    key: CommitKeyValue,
    permutation: Seq<nat>,
    pi_blinder: nat,
    exp_blinder: nat,
    nonces: product_argument::NoncesValue,
    events: Seq<TranscriptEvent>,
) -> ProofValue {
    let pi_commit = pedersen_commitment(key, permutation, pi_blinder);
    let x = challenge_value(first_log(events, key, pi_commit), label("x"));
    let exp_pi_commit = pedersen_commitment(key, powers_at(x, permutation), exp_blinder);
    let c = challenges(events, key, pi_commit, exp_pi_commit);
    let b = target_product(c.x, c.y, c.z, key.generators.len());
    ProofValue {
        pi_commit,
        exp_pi_commit,
        product_argument_proof: product_argument::honest_proof(
            key,
            combined_commitment(key, pi_commit, exp_pi_commit, c.y, c.z),
            folded_permutation(c.x, c.y, c.z, permutation),
            residue((c.y * pi_blinder + exp_blinder) as int),
            nonces,
            appended_scalar(c.log, label("b"), b),
        ),
    }
}

/// Whether a vector holds each index below its length exactly once.
pub open spec fn is_permutation(v: Seq<nat>) -> bool {
    v.to_multiset() == Seq::new(v.len(), |i: int| i as nat).to_multiset()
}

/// The step that multiplies a product by the factor of one more index.
pub open spec fn times_term(x: nat, y: nat, z: nat) -> spec_fn(int, nat) -> int {
    |so_far: int, i: nat| so_far * target_term(x, y, z, i)
}

/// The product of the factors of the indices below `n` is the product over
/// the indices in their order.
proof fn lemma_product_of_terms_folds(x: nat, y: nat, z: nat, n: nat)
    ensures
        product_of_terms(x, y, z, n) == Seq::new(n, |i: int| i as nat).fold_left(
            1int,
            times_term(x, y, z),
        ),
    decreases n,
{
    let indices = Seq::new(n, |i: int| i as nat);
    if n > 0 {
        lemma_product_of_terms_folds(x, y, z, (n - 1) as nat);
        assert(indices.drop_last() =~= Seq::new((n - 1) as nat, |i: int| i as nat));
        assert(indices.last() == (n - 1) as nat);
    }
}

/// The product of the folded entries of a vector of indices is congruent to
/// the product of the factors of those indices.
proof fn lemma_product_of_folded(x: nat, y: nat, z: nat, indices: Seq<nat>)
    ensures
        congruent(
            product_of(folded_permutation(x, y, z, indices)),
            indices.fold_left(1int, times_term(x, y, z)),
        ),
    decreases indices.len(),
{
    let folded = folded_permutation(x, y, z, indices);
    if indices.len() > 0 {
        let front = indices.drop_last();
        lemma_product_of_folded(x, y, z, front);
        assert(folded.drop_last() =~= folded_permutation(x, y, z, front));
        assert(folded.last() == residue(target_term(x, y, z, indices.last())));
        lemma_residue_is_congruent(target_term(x, y, z, indices.last()));
        lemma_congruent_products(
            product_of(folded.drop_last()),
            front.fold_left(1int, times_term(x, y, z)),
            folded.last() as int,
            target_term(x, y, z, indices.last()),
        );
    }
}

/// The folded entries of a permutation of the indices multiply to the
/// target product.
pub proof fn lemma_permutation_reaches_the_target(x: nat, y: nat, z: nat, permutation: Seq<nat>)
    requires
        is_permutation(permutation),
    ensures
        residue(product_of(folded_permutation(x, y, z, permutation))) == target_product(
            x,
            y,
            z,
            permutation.len(),
        ),
{
    let step = times_term(x, y, z);
    let indices = Seq::new(permutation.len(), |i: int| i as nat);
    assert forall|a: nat, b: nat, v: int| #[trigger] step(step(v, a), b) == step(step(v, b), a) by {
        let ta = target_term(x, y, z, a);
        let tb = target_term(x, y, z, b);
        assert(v * ta * tb == v * tb * ta) by (nonlinear_arith);
    }
    lemma_fold_left_permutation(permutation, indices, step, 1int);
    lemma_product_of_folded(x, y, z, permutation);
    lemma_product_of_terms_folds(x, y, z, permutation.len());
}

/// Where the group operations obey the laws of a module, the combined
/// commitment of an honest prover is the commitment to the folded vector
/// under the blinding factor `y * r + s`.
proof fn lemma_combined_commitment_opens(
    key: CommitKeyValue,
    permutation: Seq<nat>,
    pi_blinder: nat,
    exp_blinder: nat,
    x: nat,
    y: nat,
    z: nat,
)
    requires
        module_laws(),
        key_in_group(key),
        permutation.len() == key.generators.len(),
        all_reduced(permutation),
        pi_blinder < scalar_modulus(),
        exp_blinder < scalar_modulus(),
        y < scalar_modulus(),
        z < scalar_modulus(),
    ensures
        combined_commitment(
            key,
            pedersen_commitment(key, permutation, pi_blinder),
            pedersen_commitment(key, powers_at(x, permutation), exp_blinder),
            y,
            z,
        ) == pedersen_commitment(
            key,
            folded_permutation(x, y, z, permutation),
            residue((y * pi_blinder + exp_blinder) as int),
        ),
{
    let p = scalar_modulus() as int;
    let n = key.generators.len();
    let powers = powers_at(x, permutation);
    let shift = minus_z_vector(z, n);
    let scaled = blinded(y, permutation, powers);
    let blinder = residue((y * pi_blinder + exp_blinder) as int);
    let folded = folded_permutation(x, y, z, permutation);
    lemma_residue_is_congruent((y * pi_blinder + exp_blinder) as int);
    assert(all_reduced(powers));
    assert(all_reduced(shift));
    assert(all_reduced(scaled));
    lemma_commitments_combine(key, y, permutation, pi_blinder, powers, exp_blinder);
    lemma_commitments_combine(key, 1, scaled, blinder, shift, 0);
    lemma_multiples_by_zero_and_one(pedersen_commitment(key, scaled, blinder));
    lemma_small_mod(blinder, scalar_modulus());
    assert(residue((1 * blinder + 0) as int) == blinder);
    assert forall|i: int| 0 <= i < n implies #[trigger] blinded(1, scaled, shift)[i]
        == folded[i] by {
        let index = permutation[i];
        let power = pow(x as int, index);
        lemma_residue_is_congruent(power);
        lemma_residue_is_congruent((y * index + powers[i]) as int);
        lemma_congruent_sums((y * index) as int, (y * index) as int, powers[i] as int, power);
        lemma_mod_add_multiples_vanish(-(z as int), p);
        assert(congruent(shift[i] as int, -(z as int)));
        lemma_congruent_sums(scaled[i] as int, y * index + power, shift[i] as int, -(z as int));
        assert(y * index == index * y) by (nonlinear_arith);
        assert(1 * scaled[i] + shift[i] == scaled[i] + shift[i]);
        assert(y * index + power + (-(z as int)) == target_term(x, y, z, index));
    }
    assert(blinded(1, scaled, shift) =~= folded);
}

/// Where the group operations obey the laws of a module, the proof that an
/// honest prover makes of a permutation of the indices, with any blinding
/// factors and coins, is accepted.
pub proof fn lemma_honest_proof_is_accepted(
    key: CommitKeyValue,
    permutation: Seq<nat>,
    pi_blinder: nat,
    exp_blinder: nat,
    nonces: product_argument::NoncesValue,
    events: Seq<TranscriptEvent>,
)
    requires
        module_laws(),
        key_in_group(key),
        key.generators.len() >= 1,
        permutation.len() == key.generators.len(),
        is_permutation(permutation),
        all_reduced(permutation),
        nonces.d.len() == key.generators.len(),
        nonces.delta.len() == key.generators.len(),
        all_reduced(nonces.d),
        all_reduced(nonces.delta),
        pi_blinder < scalar_modulus(),
        exp_blinder < scalar_modulus(),
        nonces.r_d < scalar_modulus(),
        nonces.s_1 < scalar_modulus(),
        nonces.s_x < scalar_modulus(),
    ensures
        accepted(
            key,
            honest_proof(key, permutation, pi_blinder, exp_blinder, nonces, events),
            events,
        ),
{
    let proof = honest_proof(key, permutation, pi_blinder, exp_blinder, nonces, events);
    let c = challenges(events, key, proof.pi_commit, proof.exp_pi_commit);
    let b = target_product(c.x, c.y, c.z, key.generators.len());
    let folded = folded_permutation(c.x, c.y, c.z, permutation);
    let blinder = residue((c.y * pi_blinder + exp_blinder) as int);
    lemma_residue_is_congruent((c.y * pi_blinder + exp_blinder) as int);
    assert(all_reduced(folded));
    lemma_combined_commitment_opens(key, permutation, pi_blinder, exp_blinder, c.x, c.y, c.z);
    lemma_permutation_reaches_the_target(c.x, c.y, c.z, permutation);
    product_argument::lemma_honest_proof_is_accepted(
        key,
        folded,
        blinder,
        nonces,
        appended_scalar(c.log, label("b"), b),
    );
}

/// The indices below `n`, in order.
fn identity_permutation(n: usize) -> (r: Vec<u64>)
    ensures
        r.len() == n,
        forall|i: int| 0 <= i < n ==> r[i] == i,
{
    let mut permutation: Vec<u64> = Vec::with_capacity(n);
    let mut i: usize = 0;
    while i < n
        invariant
            i <= n,
            permutation.len() == i,
            forall|j: int| 0 <= j < i ==> permutation[j] == j,
        decreases n - i,
    {
        permutation.push(i as u64);
        i += 1;
    }
    permutation
}

/// The vector of `n` entries that all equal `entry`.
fn repeated(entry: Scalar, n: usize) -> (r: Vec<Scalar>)
    ensures
        r.len() == n,
        scalar_values(r@) == Seq::new(n as nat, |i: int| entry@),
{
    let mut v: Vec<Scalar> = Vec::with_capacity(n);
    let mut i: usize = 0;
    while i < n
        invariant
            i <= n,
            v.len() == i,
            forall|j: int| 0 <= j < i ==> v[j]@ == entry@,
        decreases n - i,
    {
        v.push(entry);
        i += 1;
    }
    proof {
        assert(scalar_values(v@) =~= Seq::new(n as nat, |i: int| entry@));
    }
    v
}

/// A vector of indices as scalars.
fn index_scalars(indices: &Vec<u64>) -> (r: Vec<Scalar>)
    ensures
        r.len() == indices.len(),
        scalar_values(r@) == index_values(indices@),
{
    let n = indices.len();
    let mut v: Vec<Scalar> = Vec::with_capacity(n);
    let mut i: usize = 0;
    while i < n
        invariant
            i <= n,
            n == indices.len(),
            v.len() == i,
            forall|j: int| 0 <= j < i ==> (#[trigger] v[j])@ == indices[j],
        decreases n - i,
    {
        v.push(Scalar::from_u64(indices[i]));
        i += 1;
    }
    proof {
        assert(scalar_values(v@) =~= index_values(indices@));
    }
    v
}

/// The challenge `x` raised to each index.
fn powers(x: &Scalar, indices: &Vec<u64>) -> (r: Vec<Scalar>)
    ensures
        r.len() == indices.len(),
        scalar_values(r@) == powers_at(x@, index_values(indices@)),
{
    let n = indices.len();
    let mut v: Vec<Scalar> = Vec::with_capacity(n);
    let mut i: usize = 0;
    while i < n
        invariant
            i <= n,
            n == indices.len(),
            v.len() == i,
            forall|j: int|
                0 <= j < i ==> (#[trigger] v[j])@ == residue(pow(x@ as int, indices[j] as nat)),
        decreases n - i,
    {
        v.push(x.pow(&Proof::as_limbs(indices[i])));
        i += 1;
    }
    proof {
        assert(scalar_values(v@) =~= powers_at(x@, index_values(indices@)));
    }
    v
}

impl Proof {
    /// Proves that the committed vector is a permutation of the indices.
    ///
    /// The steps are the verifier's: on a fork of the transcript the key and
    /// the commitment to the permutation are absorbed and `x` is drawn, the
    /// commitment to the powers of `x` is absorbed and `y` and `z` are drawn,
    /// and the product argument is made of the entries `y * pi[i] + x^pi[i] -
    /// z`. Fails where the permutation or a vector of coins is not as long as
    /// the key.
    pub fn prove(
        config: &PublicConfig,
        transcript: &mut ProofTranscript,
        permutation: &Vec<u64>,
        pi_blinder: Scalar,
        exp_blinder: Scalar,
        nonces: &product_argument::Nonces,
    ) -> (r: Result<Proof, Error>)
        ensures
            final(transcript)@ == old(transcript)@,
            r is Ok <==> permutation.len() == config@.generators.len() && nonces@.d.len()
                == config@.generators.len() && nonces@.delta.len() == config@.generators.len(),
            r matches Ok(proof) ==> proof@ == honest_proof(
                config@,
                index_values(permutation@),
                pi_blinder@,
                exp_blinder@,
                nonces@,
                old(transcript)@,
            ),
            r matches Err(e) ==> e == Error::DotProductLenError,
    {
        let key = config.commit_key();
        let size = config.size();
        if permutation.len() != size || nonces.d.len() != size || nonces.delta.len() != size {
            return Err(Error::DotProductLenError);
        }
        let mut forked = transcript.fork();
        key.append_to(&mut forked, label_bytes("commit_key"));

        let pi = index_scalars(permutation);
        let pi_commit = match PedersenCommitment::commit_vector(key, &pi, pi_blinder) {
            Ok(p) => p,
            Err(e) => {
                return Err(e);
            },
        };
        forked.append_point(label_bytes("pi_commit"), &pi_commit);
        let x = forked.challenge_scalar(label_bytes("x"));

        let exp_pi = powers(&x, permutation);
        let exp_pi_commit = match PedersenCommitment::commit_vector(key, &exp_pi, exp_blinder) {
            Ok(p) => p,
            Err(e) => {
                return Err(e);
            },
        };
        forked.append_point(label_bytes("exp_pi_commit"), &exp_pi_commit);
        let y = forked.challenge_scalar(label_bytes("y"));
        let z = forked.challenge_scalar(label_bytes("z"));

        let z_arr = repeated(z.neg(), size);
        let z_commit = match PedersenCommitment::commit_vector(key, &z_arr, Scalar::zero()) {
            Ok(p) => p,
            Err(e) => {
                return Err(e);
            },
        };
        let d_minus_z_commit = pi_commit.mul(&y).add(&exp_pi_commit).add(&z_commit);

        let folded = Self::folded(permutation, &x, &y, &z);
        let blinder = y.mul(&pi_blinder).add(&exp_blinder);
        proof {
            lemma_add_mod_noop_right(exp_blinder@ as int, (y@ * pi_blinder@) as int, scalar_modulus() as int);
        }
        let b = Self::target(&identity_permutation(size), &x, &y, &z);
        forked.append_scalar(label_bytes("b"), &b);

        match product_argument::Proof::prove(config, &mut forked, d_minus_z_commit, &folded, blinder, nonces) {
            Ok(product_argument_proof) => Ok(Proof { pi_commit, exp_pi_commit, product_argument_proof }),
            Err(e) => Err(e),
        }
    }

    /// The entries `y * pi[i] + x^pi[i] - z` of a vector of indices.
    fn folded(indices: &Vec<u64>, x: &Scalar, y: &Scalar, z: &Scalar) -> (r: Vec<Scalar>)
        ensures
            r.len() == indices.len(),
            scalar_values(r@) == folded_permutation(x@, y@, z@, index_values(indices@)),
    {
        let n = indices.len();
        let ghost p = scalar_modulus() as int;
        let mut v: Vec<Scalar> = Vec::with_capacity(n);
        let mut k: usize = 0;
        proof {
            use_type_invariant(z);
            z.lemma_reduced();
            lemma_small_mod(z@, scalar_modulus());
        }
        while k < n
            invariant
                k <= n,
                n == indices.len(),
                p == scalar_modulus() as int,
                z@ % scalar_modulus() == z@,
                v.len() == k,
                forall|j: int|
                    0 <= j < k ==> (#[trigger] v[j])@ == residue(
                        target_term(x@, y@, z@, indices[j] as nat),
                    ),
            decreases n - k,
        {
            let term = Self::term(indices[k], x, y, z);
            v.push(term);
            k += 1;
        }
        proof {
            assert(scalar_values(v@) =~= folded_permutation(x@, y@, z@, index_values(indices@)));
        }
        v
    }

    /// The factor `i * y + x^i - z` of an index.
    fn term(i: u64, x: &Scalar, y: &Scalar, z: &Scalar) -> (r: Scalar)
        ensures
            r@ == residue(target_term(x@, y@, z@, i as nat)),
    {
        let ghost p = scalar_modulus() as int;
        let scaled = Scalar::from_u64(i).mul(y);
        let power = x.pow(&Self::as_limbs(i));
        proof {
            use_type_invariant(z);
            z.lemma_reduced();
            lemma_small_mod(z@, scalar_modulus());
            lemma_add_mod_noop((i * y@) as int, pow(x@ as int, i as nat), p);
            lemma_sub_mod_noop(i * y@ + pow(x@ as int, i as nat), z@ as int, p);
        }
        scaled.add(&power).sub(z)
    }

    /// Checks the proof against the configuration.
    ///
    /// The check works on a fork of the transcript and leaves the transcript
    /// itself as it was. It draws the challenges `x`, `y` and `z` in that
    /// order, computes the target product and the combined commitment, and
    /// hands both to the product argument: the proof is valid exactly if the
    /// product argument is. An invalid proof is a verification failure.
    pub fn verify(&self, config: &PublicConfig, transcript: &mut ProofTranscript) -> (r: Result<
        (),
        Error,
    >)
        ensures
            final(transcript)@ == old(transcript)@,
            r is Ok <==> accepted(config@, self@, old(transcript)@),
            r matches Err(e) ==> e == Error::VerificationFailure,
    {
        let mut forked = transcript.fork();
        let key = config.commit_key();
        let size = config.size();
        key.append_to(&mut forked, label_bytes("commit_key"));

        forked.append_point(label_bytes("pi_commit"), &self.pi_commit);
        let x = forked.challenge_scalar(label_bytes("x"));

        forked.append_point(label_bytes("exp_pi_commit"), &self.exp_pi_commit);

        let y = forked.challenge_scalar(label_bytes("y"));
        let z = forked.challenge_scalar(label_bytes("z"));

        let identity_permutation = identity_permutation(size);

        let zero = Scalar::zero();
        let z_arr = repeated(z.neg(), size);
        let z_commit = match PedersenCommitment::commit_vector(key, &z_arr, zero) {
            Ok(p) => p,
            Err(_) => {
                return Err(Error::VerificationFailure);
            },
        };

        let d_commit = self.pi_commit.mul(&y).add(&self.exp_pi_commit);
        let d_minus_z_commit = d_commit.add(&z_commit);

        let b = Self::target(&identity_permutation, &x, &y, &z);

        forked.append_scalar(label_bytes("b"), &b);

        match self.product_argument_proof.verify(config, b, d_minus_z_commit, &mut forked) {
            Ok(()) => Ok(()),
            Err(_) => Err(Error::VerificationFailure),
        }
    }

    /// The product of `i * y + x^i - z` over the first indices.
    fn target(indices: &Vec<u64>, x: &Scalar, y: &Scalar, z: &Scalar) -> (b: Scalar)
        requires
            forall|i: int| 0 <= i < indices.len() ==> indices[i] == i,
        ensures
            b@ == target_product(x@, y@, z@, indices.len() as nat),
    {
        let n = indices.len();
        let ghost p = scalar_modulus() as int;
        let mut b = Scalar::one();
        let mut k: usize = 0;
        proof {
            lemma_small_mod(1, scalar_modulus());
        }
        while k < n
            invariant
                k <= n,
                n == indices.len(),
                p == scalar_modulus() as int,
                forall|i: int| 0 <= i < indices.len() ==> indices[i] == i,
                b@ == product_of_terms(x@, y@, z@, k as nat) % p,
            decreases n - k,
        {
            let term = Self::term(indices[k], x, y, z);
            let ghost so_far = product_of_terms(x@, y@, z@, k as nat);
            proof {
                lemma_mul_mod_noop_general(so_far, target_term(x@, y@, z@, k as nat), p);
            }
            b = b.mul(&term);
            k += 1;
        }
        b
    }

    /// An index as the four limbs of an exponent.
    fn as_limbs(p_i: u64) -> (r: [u64; 4])
        ensures
            limbs_value(r) == p_i,
    {
        [p_i, 0, 0, 0]
    }
}

} // verus!
