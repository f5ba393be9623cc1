//! The Chaum-Pedersen protocol: a proof that two points are the same multiple
//! of two generators.

use crate::error::Error;
use crate::group::{
    is_member, lemma_multiples_add, lemma_multiples_compose, module_laws, point_product, point_sum,
    AffinePoint, Point,
};
use crate::scalar::{scalar_modulus, Scalar};
use crate::transcript::{
    appended_point, challenge_value, label, label_bytes, ProofTranscript, TranscriptEvent,
};
use vstd::arithmetic::div_mod::lemma_add_mod_noop_right;
use vstd::prelude::*;
use vstd::string::is_ascii_spec_bytes;

verus! {

/// The two generators.
#[derive(Clone, Copy, Debug, PartialEq, Eq)]
pub struct Parameters {
    pub g: Point,
    pub h: Point,
}

/// The two points that are claimed to be one multiple of `g` and of `h`.
#[derive(Clone, Copy, Debug, PartialEq, Eq)]
pub struct Statement(pub Point, pub Point);

/// A proof: the two commitments to the prover's nonce, and the response to
/// the challenge.
#[derive(Clone, Copy, Debug, PartialEq, Eq)]
pub struct Proof {
    pub a: Point,
    pub b: Point,
    pub r: Scalar,
}

/// Parameters as values.
pub struct ParametersValue {
    pub g: AffinePoint,
    pub h: AffinePoint,
}

/// A proof as values.
pub struct ProofValue {
    pub a: AffinePoint,
    pub b: AffinePoint,
    pub r: nat,
}

impl View for Parameters {
    type V = ParametersValue;

    open spec fn view(&self) -> ParametersValue {
        ParametersValue { g: self.g@, h: self.h@ }
    }
}

impl View for Statement {
    type V = (AffinePoint, AffinePoint);

    open spec fn view(&self) -> (AffinePoint, AffinePoint) {
        (self.0@, self.1@)
    }
}

impl View for Proof {
    type V = ProofValue;

    open spec fn view(&self) -> ProofValue {
        ProofValue { a: self.a@, b: self.b@, r: self.r@ }
    }
}

impl Parameters {
    /// The parameters with the generators `g` and `h`.
    pub fn new(g: Point, h: Point) -> (r: Parameters)
        ensures
            r.g == g,
            r.h == h,
    {
        Parameters { g, h }
    }
}

impl Statement {
    /// The statement about the points `a` and `b`.
    pub fn new(a: Point, b: Point) -> (r: Statement)
        ensures
            r.0 == a,
            r.1 == b,
    {
        Statement(a, b)
    }
}

/// The log once the generators, the statement and the two commitments are
/// absorbed.
pub open spec fn committed_log(
    parameters: ParametersValue,
    statement: (AffinePoint, AffinePoint),
    a: AffinePoint,
    b: AffinePoint,
) -> Seq<TranscriptEvent> {
    let start = seq![TranscriptEvent::Start { label: label("chaum_pedersen") }];
    let with_g = appended_point(start, label("g"), parameters.g);
    let with_h = appended_point(with_g, label("h"), parameters.h);
    let with_x = appended_point(with_h, label("x"), statement.0);
    let with_y = appended_point(with_x, label("y"), statement.1);
    let with_a = appended_point(with_y, label("a"), a);
    appended_point(with_a, label("b"), b)
}

/// The challenge of the protocol.
pub open spec fn challenge(
    parameters: ParametersValue,
    statement: (AffinePoint, AffinePoint),
    a: AffinePoint,
    b: AffinePoint,
) -> nat {
    challenge_value(committed_log(parameters, statement, a, b), label("c"))
}

/// The proof that the nonce `omega` gives: both generators times the nonce,
/// and the nonce plus the challenge times the secret.
pub open spec fn proof_from(
    parameters: ParametersValue,
    statement: (AffinePoint, AffinePoint),
    secret: nat,
    omega: nat,
) -> ProofValue {
    let a = point_product(parameters.g, omega);
    let b = point_product(parameters.h, omega);
    let c = challenge(parameters, statement, a, b);
    ProofValue { a, b, r: (omega + c * secret) % scalar_modulus() }
}

/// Whether a proof is accepted: whether each generator times the response
/// is the matching commitment plus the matching point times the challenge.
pub open spec fn accepted(
    parameters: ParametersValue,
    statement: (AffinePoint, AffinePoint),
    proof: ProofValue,
) -> bool {
    let c = challenge(parameters, statement, proof.a, proof.b);
    &&& point_product(parameters.g, proof.r) == point_sum(proof.a, point_product(statement.0, c))
    &&& point_product(parameters.h, proof.r) == point_sum(proof.b, point_product(statement.1, c))
}

/// Where the group operations obey the laws of a module, the proof that any
/// nonce gives for two points that are the same multiple of the two
/// generators is accepted.
pub proof fn lemma_honest_proof_is_accepted(parameters: ParametersValue, secret: nat, omega: nat)
    requires
        module_laws(),
        is_member(parameters.g),
        is_member(parameters.h),
        secret < scalar_modulus(),
        omega < scalar_modulus(),
    ensures
        accepted(
            parameters,
            (point_product(parameters.g, secret), point_product(parameters.h, secret)),
            proof_from(
                parameters,
                (point_product(parameters.g, secret), point_product(parameters.h, secret)),
                secret,
                omega,
            ),
        ),
{
    let statement = (point_product(parameters.g, secret), point_product(parameters.h, secret));
    let proof = proof_from(parameters, statement, secret, omega);
    let c = challenge(parameters, statement, proof.a, proof.b);
    let carried = (secret * c) % scalar_modulus();
    assert(c * secret == secret * c) by (nonlinear_arith);
    lemma_add_mod_noop_right(omega as int, (secret * c) as int, scalar_modulus() as int);
    assert((omega + carried) % scalar_modulus() == proof.r);
    lemma_multiples_compose(parameters.g, secret, c);
    lemma_multiples_compose(parameters.h, secret, c);
    lemma_multiples_add(parameters.g, omega, carried);
    lemma_multiples_add(parameters.h, omega, carried);
}

/// The challenge for two commitments, drawn from a fresh transcript.
fn draw_challenge(parameters: &Parameters, statement: &Statement, a: &Point, b: &Point) -> (c:
    Scalar)
    ensures
        c@ == challenge(parameters@, statement@, a@, b@),
{
    proof {
        reveal_strlit("chaum_pedersen");
        is_ascii_spec_bytes("chaum_pedersen");
    }
    let mut transcript = ProofTranscript::new(label_bytes("chaum_pedersen"));
    transcript.append_point(label_bytes("g"), &parameters.g);
    transcript.append_point(label_bytes("h"), &parameters.h);
    transcript.append_point(label_bytes("x"), &statement.0);
    transcript.append_point(label_bytes("y"), &statement.1);
    transcript.append_point(label_bytes("a"), a);
    transcript.append_point(label_bytes("b"), b);
    transcript.challenge_scalar(label_bytes("c"))
}

/// The argument of knowledge for the equality of two discrete logarithms.
pub struct DLEquality;

impl DLEquality {
    /// A proof under a nonce drawn at random: the proof that some nonce
    /// gives.
    pub fn prove(parameters: &Parameters, statement: &Statement, witness: &Scalar) -> (r: Result<
        Proof,
        Error,
    >)
        ensures
            r matches Ok(proof) && exists|omega: nat|
                omega < scalar_modulus() && proof@ == #[trigger] proof_from(
                    parameters@,
                    statement@,
                    witness@,
                    omega,
                ),
    {
        let omega = Scalar::random();
        proof {
            use_type_invariant(&omega);
            omega.lemma_reduced();
        }
        Ok(Self::prove_with_nonce(parameters, statement, witness, omega))
    }

    /// The proof under the nonce `omega`.
    pub fn prove_with_nonce(
        parameters: &Parameters,
        statement: &Statement,
        witness: &Scalar,
        omega: Scalar,
    ) -> (r: Proof)
        ensures
            r@ == proof_from(parameters@, statement@, witness@, omega@),
    {
        let a = parameters.g.mul(&omega);
        let b = parameters.h.mul(&omega);
        let c = draw_challenge(parameters, statement, &a, &b);
        let r = omega.add(&c.mul(witness));
        proof {
            lemma_add_mod_noop_right(omega@ as int, (c@ * witness@) as int, scalar_modulus() as int);
        }
        Proof { a, b, r }
    }

    /// Checks a proof for a statement.
    pub fn verify(parameters: &Parameters, statement: &Statement, proof: &Proof) -> (r: Result<
        (),
        Error,
    >)
        ensures
            r is Ok <==> accepted(parameters@, statement@, proof@),
            r matches Err(e) ==> e == Error::VerificationFailure,
    {
        let c = draw_challenge(parameters, statement, &proof.a, &proof.b);
        if !parameters.g.mul(&proof.r).is_equal(&proof.a.add(&statement.0.mul(&c))) {
            return Err(Error::VerificationFailure);
        }
        if !parameters.h.mul(&proof.r).is_equal(&proof.b.add(&statement.1.mul(&c))) {
            return Err(Error::VerificationFailure);
        }
        Ok(())
    }
}

} // verus!
