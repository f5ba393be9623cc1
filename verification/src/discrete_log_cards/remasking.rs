//! Re-masking: the claim that a masked card is another one under fresh
//! masking, proved as an equality of discrete logarithms.

use crate::chaum_pedersen_dl_equality;
use crate::chaum_pedersen_dl_equality::DLEquality;
use crate::cipher::{cipher_product, cipher_sum};
use crate::discrete_log_cards::{ComputationStatement, MaskedCard, Parameters, PublicKey};
use crate::error::Error;
use crate::group::{
    is_member, lemma_identity_is_neutral, lemma_multiples_add, lemma_multiples_by_zero_and_one,
    lemma_product_is_member, lemma_sum_associates, lemma_sum_commutes, module_laws, point_product,
    point_sum, AffinePoint,
};
use crate::scalar::{scalar_modulus, Scalar};
use vstd::arithmetic::div_mod::lemma_small_mod;
use vstd::prelude::*;

verus! {

/// The claim that the output card is the input card, masked once more.
pub type Statement = ComputationStatement<MaskedCard, MaskedCard, (Parameters, PublicKey)>;

/// The statement about discrete logarithms that a re-masking comes down to:
/// the output card less the input card, entry by entry.
pub open spec fn masking_difference(statement: Statement) -> (AffinePoint, AffinePoint) {
    cipher_sum(
        statement.output@,
        cipher_product(statement.input@, (scalar_modulus() - 1) as nat),
    )
}

impl Statement {
    /// The re-masking as an equality of discrete logarithms: the generators
    /// are the scheme's generator and the public key, and the two points are
    /// the entries of the output card less the input card.
    pub fn to_chaum_pedersen(&self) -> (r: (
        chaum_pedersen_dl_equality::Parameters,
        chaum_pedersen_dl_equality::Statement,
    ))
        ensures
            r.0.g == self.public_parameters.0.enc_parameters.generator,
            r.0.h == self.public_parameters.1,
            r.1@ == masking_difference(*self),
    {
        let input_masked_card = self.input;
        let output_remasked_card = self.output;

        let cp_parameters = chaum_pedersen_dl_equality::Parameters::new(
            self.public_parameters.0.enc_parameters.generator,
            self.public_parameters.1,
        );

        let minus_one = Scalar::one().neg();
        proof {
            lemma_small_mod((scalar_modulus() - 1) as nat, scalar_modulus());
        }
        let negated_input = input_masked_card.mul(&minus_one);
        let statement_cipher = output_remasked_card.add(&negated_input);
        let cp_statement = chaum_pedersen_dl_equality::Statement::new(
            statement_cipher.0,
            statement_cipher.1,
        );

        (cp_parameters, cp_statement)
    }

    /// A proof of the re-masking from the masking factor, under a nonce
    /// drawn at random.
    pub fn prove(&self, witness: Scalar) -> (r: Result<Proof, Error>)
        ensures
            r matches Ok(proof) && exists|omega: nat|
                omega < scalar_modulus() && proof.0@
                    == #[trigger] chaum_pedersen_dl_equality::proof_from(
                    remasking_parameters(*self),
                    masking_difference(*self),
                    witness@,
                    omega,
                ),
    {
        let (cp_parameters, cp_statement) = self.to_chaum_pedersen();

        match DLEquality::prove(&cp_parameters, &cp_statement, &witness) {
            Ok(cp_proof) => {
                proof {
                    assert(cp_parameters@ == remasking_parameters(*self));
                    assert(cp_statement@ == masking_difference(*self));
                    let omega = choose|omega: nat|
                        omega < scalar_modulus() && cp_proof@
                            == #[trigger] chaum_pedersen_dl_equality::proof_from(
                            cp_parameters@,
                            cp_statement@,
                            witness@,
                            omega,
                        );
                    assert(cp_proof@ == chaum_pedersen_dl_equality::proof_from(
                        remasking_parameters(*self),
                        masking_difference(*self),
                        witness@,
                        omega,
                    ));
                }
                Ok(Proof(cp_proof))
            },
            Err(e) => Err(e),
        }
    }
}

/// The generators of a re-masking's equality of discrete logarithms.
pub open spec fn remasking_parameters(statement: Statement) -> chaum_pedersen_dl_equality::ParametersValue {
    chaum_pedersen_dl_equality::ParametersValue {
        g: statement.public_parameters.0.enc_parameters.generator@,
        h: statement.public_parameters.1@,
    }
}

/// Where the group operations obey the laws of a module, the proof that any
/// nonce gives for a card masked once more with the factor `alpha` is
/// accepted.
pub proof fn lemma_honest_proof_is_accepted(statement: Statement, alpha: nat, omega: nat)
    requires
        module_laws(),
        is_member(statement.input@.0),
        is_member(statement.input@.1),
        is_member(remasking_parameters(statement).g),
        is_member(remasking_parameters(statement).h),
        alpha < scalar_modulus(),
        omega < scalar_modulus(),
        statement.output@ == cipher_sum(
            statement.input@,
            (
                point_product(remasking_parameters(statement).g, alpha),
                point_product(remasking_parameters(statement).h, alpha),
            ),
        ),
    ensures
        chaum_pedersen_dl_equality::accepted(
            remasking_parameters(statement),
            masking_difference(statement),
            chaum_pedersen_dl_equality::proof_from(
                remasking_parameters(statement),
                masking_difference(statement),
                alpha,
                omega,
            ),
        ),
{
    let parameters = remasking_parameters(statement);
    lemma_product_is_member(parameters.g, alpha);
    lemma_product_is_member(parameters.h, alpha);
    lemma_masked_less_unmasked(statement.input@.0, point_product(parameters.g, alpha));
    lemma_masked_less_unmasked(statement.input@.1, point_product(parameters.h, alpha));
    chaum_pedersen_dl_equality::lemma_honest_proof_is_accepted(parameters, alpha, omega);
}

/// Where the group operations obey the laws of a module, a point plus a
/// mask, less the point, is the mask.
proof fn lemma_masked_less_unmasked(unmasked: AffinePoint, mask: AffinePoint)
    requires
        module_laws(),
        is_member(unmasked),
        is_member(mask),
    ensures
        point_sum(
            point_sum(unmasked, mask),
            point_product(unmasked, (scalar_modulus() - 1) as nat),
        ) == mask,
{
    let minus_one = (scalar_modulus() - 1) as nat;
    let negated = point_product(unmasked, minus_one);
    lemma_product_is_member(unmasked, minus_one);
    lemma_sum_commutes(unmasked, mask);
    lemma_sum_associates(mask, unmasked, negated);
    lemma_multiples_by_zero_and_one(unmasked);
    assert((1 + minus_one) % scalar_modulus() == 0);
    lemma_multiples_add(unmasked, 1, minus_one);
    lemma_identity_is_neutral(mask);
}

/// A proof of a re-masking.
pub struct Proof(pub chaum_pedersen_dl_equality::Proof);

impl Proof {
    /// Checks the proof for a re-masking.
    pub fn verify(&self, statement: &Statement) -> (r: Result<(), Error>)
        ensures
            r is Ok <==> chaum_pedersen_dl_equality::accepted(
                remasking_parameters(*statement),
                masking_difference(*statement),
                self.0@,
            ),
            r matches Err(e) ==> e == Error::VerificationFailure,
    {
        let (cp_parameters, cp_statement) = statement.to_chaum_pedersen();

        DLEquality::verify(&cp_parameters, &cp_statement, &self.0)
    }
}

} // verus!
