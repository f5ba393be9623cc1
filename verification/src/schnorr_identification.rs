//! Schnorr's identification protocol: a proof of knowledge of the discrete
//! logarithm of a public key, made non-interactive with a transcript.

use crate::error::Error;
use crate::group::{
    is_member, lemma_multiples_add, lemma_multiples_compose, module_laws, point_product, point_sum,
    AffinePoint, Point,
};
use crate::scalar::{scalar_modulus, Scalar};
use crate::transcript::{
    appended_point, challenge_value, label, label_bytes, ProofTranscript, TranscriptEvent,
};
use vstd::arithmetic::div_mod::{lemma_add_mod_noop, lemma_small_mod, lemma_sub_mod_noop_right};
use vstd::prelude::*;
use vstd::string::is_ascii_spec_bytes;

verus! {

/// The generator that public keys are multiples of.
pub struct Parameters {
    pub generator: Point,
}

/// The public key whose discrete logarithm is claimed to be known.
pub struct Statement<'a> {
    pub statement: &'a Point,
}

/// The discrete logarithm of the public key.
pub struct Witness {
    pub discrete_log_representation: Scalar,
}

/// A proof: the commitment to the prover's nonce, and the opening that
/// answers the challenge.
pub struct Proof {
    pub random_commit: Point,
    pub opening: Scalar,
}

/// A proof as values.
pub struct ProofValue {
    pub random_commit: AffinePoint,
    pub opening: nat,
}

impl View for Proof {
    type V = ProofValue;

    open spec fn view(&self) -> ProofValue {
        ProofValue { random_commit: self.random_commit@, opening: self.opening@ }
    }
}

/// The log once the generator, the public key and the commitment are
/// absorbed.
pub open spec fn committed_log(generator: AffinePoint, public_key: AffinePoint, random_commit: AffinePoint) -> Seq<
    TranscriptEvent,
> {
    appended_point(
        appended_point(
            appended_point(
                seq![TranscriptEvent::Start { label: label("schnorr_identity") }],
                label("public_generator"),
                generator,
            ),
            label("public_key"),
            public_key,
        ),
        label("witness_commit"),
        random_commit,
    )
}

/// The challenge of the protocol.
pub open spec fn challenge(generator: AffinePoint, public_key: AffinePoint, random_commit: AffinePoint) -> nat {
    challenge_value(committed_log(generator, public_key, random_commit), label("c"))
}

/// The proof that the nonce `random` gives: the generator times the nonce,
/// and the nonce less the challenge times the witness.
pub open spec fn proof_from(generator: AffinePoint, public_key: AffinePoint, witness: nat, random: nat) -> ProofValue {
    let random_commit = point_product(generator, random);
    let c = challenge(generator, public_key, random_commit);
    ProofValue {
        random_commit,
        opening: ((random - c * witness) % (scalar_modulus() as int)) as nat,
    }
}

/// Whether a proof is accepted: whether the generator times the opening,
/// plus the public key times the challenge, is the commitment.
pub open spec fn accepted(generator: AffinePoint, public_key: AffinePoint, proof: ProofValue) -> bool {
    point_sum(
        point_product(generator, proof.opening),
        point_product(public_key, challenge(generator, public_key, proof.random_commit)),
    ) == proof.random_commit
}

/// Where the group operations obey the laws of a module, the proof that any
/// nonce gives for a public key and its discrete logarithm is accepted.
pub proof fn lemma_honest_proof_is_accepted(generator: AffinePoint, witness: nat, random: nat)
    requires
        module_laws(),
        is_member(generator),
        witness < scalar_modulus(),
        random < scalar_modulus(),
    ensures
        accepted(
            generator,
            point_product(generator, witness),
            proof_from(generator, point_product(generator, witness), witness, random),
        ),
{
    let p = scalar_modulus() as int;
    let public_key = point_product(generator, witness);
    let proof = proof_from(generator, public_key, witness, random);
    let c = challenge(generator, public_key, proof.random_commit);
    let carried = ((witness * c) % scalar_modulus()) as nat;
    assert(c * witness == witness * c) by (nonlinear_arith);
    lemma_multiples_compose(generator, witness, c);
    lemma_add_mod_noop(random - c * witness, (witness * c) as int, p);
    lemma_small_mod(random, scalar_modulus());
    assert((proof.opening + carried) % scalar_modulus() == random);
    lemma_multiples_add(generator, proof.opening, carried);
}

/// The challenge for a commitment, drawn from a fresh transcript.
fn draw_challenge(pp: &Parameters, statement: &Statement, random_commit: &Point) -> (c: Scalar)
    ensures
        c@ == challenge(pp.generator@, statement.statement@, random_commit@),
{
    proof {
        reveal_strlit("schnorr_identity");
        is_ascii_spec_bytes("schnorr_identity");
    }
    let mut transcript = ProofTranscript::new(label_bytes("schnorr_identity"));
    transcript.append_point(label_bytes("public_generator"), &pp.generator);
    transcript.append_point(label_bytes("public_key"), statement.statement);
    transcript.append_point(label_bytes("witness_commit"), random_commit);
    transcript.challenge_scalar(label_bytes("c"))
}

/// The prover of the protocol.
pub struct Prover;

impl Prover {
    /// A proof under a nonce drawn at random: the proof that some nonce
    /// gives.
    pub fn create_proof(pp: &Parameters, statement: &Statement, witness: &Witness) -> (r: Proof)
        ensures
            exists|random: nat|
                random < scalar_modulus() && r@ == #[trigger] proof_from(
                    pp.generator@,
                    statement.statement@,
                    witness.discrete_log_representation@,
                    random,
                ),
    {
        let random = Scalar::random();
        proof {
            use_type_invariant(&random);
            random.lemma_reduced();
        }
        Self::create_proof_with_nonce(pp, statement, witness, random)
    }

    /// The proof under the nonce `random`.
    pub fn create_proof_with_nonce(
        pp: &Parameters,
        statement: &Statement,
        witness: &Witness,
        random: Scalar,
    ) -> (r: Proof)
        ensures
            r@ == proof_from(
                pp.generator@,
                statement.statement@,
                witness.discrete_log_representation@,
                random@,
            ),
    {
        let random_commit = pp.generator.mul(&random);
        let c = draw_challenge(pp, statement, &random_commit);
        let product = c.mul(&witness.discrete_log_representation);
        let opening = random.sub(&product);
        proof {
            lemma_sub_mod_noop_right(
                random@ as int,
                (c@ * witness.discrete_log_representation@) as int,
                scalar_modulus() as int,
            );
        }
        Proof { random_commit, opening }
    }
}

impl Proof {
    /// Checks the proof for a public key.
    pub fn verify(&self, pp: &Parameters, statement: &Statement) -> (r: Result<(), Error>)
        ensures
            r is Ok <==> accepted(pp.generator@, statement.statement@, self@),
            r matches Err(e) ==> e == Error::VerificationFailure,
    {
        let c = draw_challenge(pp, statement, &self.random_commit);
        let left = pp.generator.mul(&self.opening).add(&statement.statement.mul(&c));
        if left.is_equal(&self.random_commit) {
            Ok(())
        } else {
            Err(Error::VerificationFailure)
        }
    }
}

} // verus!
