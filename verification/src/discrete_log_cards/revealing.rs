//! Revealing: the claim that a reveal token is a player's share for a masked
//! card, proved as an equality of discrete logarithms.

use crate::chaum_pedersen_dl_equality;
use crate::chaum_pedersen_dl_equality::DLEquality;
use crate::discrete_log_cards::{
    ComputationStatement, MaskedCard, Parameters, PlayerSecretKey, PublicKey, RevealToken,
};
use crate::error::Error;
use crate::group::{is_member, module_laws, point_product, AffinePoint};
use crate::scalar::scalar_modulus;
use vstd::prelude::*;

verus! {

/// The claim that the token was computed from the card with the secret key
/// of the public key.
pub type Statement = ComputationStatement<MaskedCard, RevealToken, (Parameters, PublicKey)>;

/// The generators of a reveal's equality of discrete logarithms: the card's
/// first entry, and the scheme's generator.
pub open spec fn reveal_parameters(statement: Statement) -> chaum_pedersen_dl_equality::ParametersValue {
    chaum_pedersen_dl_equality::ParametersValue {
        g: statement.input.0@,
        h: statement.public_parameters.0.enc_parameters.generator@,
    }
}

/// The two points of a reveal's equality of discrete logarithms: the token,
/// and the player's public key.
pub open spec fn reveal_points(statement: Statement) -> (AffinePoint, AffinePoint) {
    (statement.output.0@, statement.public_parameters.1@)
}

impl Statement {
    /// The reveal as an equality of discrete logarithms: the generators are
    /// the card's first entry and the scheme's generator, and the two points
    /// are the token and the player's public key.
    pub fn to_chaum_pedersen(&self) -> (r: (
        chaum_pedersen_dl_equality::Parameters,
        chaum_pedersen_dl_equality::Statement,
    ))
        ensures
            r.0.g == self.input.0,
            r.0.h == self.public_parameters.0.enc_parameters.generator,
            r.1.0 == self.output.0,
            r.1.1 == self.public_parameters.1,
    {
        let masked_card = self.input;
        let token = self.output;
        let parameters = self.public_parameters.0;
        let player_public_key = self.public_parameters.1;

        let cp_parameters = chaum_pedersen_dl_equality::Parameters::new(
            masked_card.0,
            parameters.enc_parameters.generator,
        );

        let cp_statement = chaum_pedersen_dl_equality::Statement::new(token.0, player_public_key);

        (cp_parameters, cp_statement)
    }

    /// A proof of the reveal from the player's secret key, under a nonce
    /// drawn at random.
    pub fn prove(&self, witness: PlayerSecretKey) -> (r: Result<Proof, Error>)
        ensures
            r matches Ok(proof) && exists|omega: nat|
                omega < scalar_modulus() && proof.0@
                    == #[trigger] chaum_pedersen_dl_equality::proof_from(
                    reveal_parameters(*self),
                    reveal_points(*self),
                    witness@,
                    omega,
                ),
    {
        let (cp_parameters, cp_statement) = self.to_chaum_pedersen();

        match DLEquality::prove(&cp_parameters, &cp_statement, &witness) {
            Ok(cp_proof) => {
                proof {
                    assert(cp_parameters@ == reveal_parameters(*self));
                    assert(cp_statement@ == reveal_points(*self));
                    let omega = choose|omega: nat|
                        omega < scalar_modulus() && cp_proof@
                            == #[trigger] chaum_pedersen_dl_equality::proof_from(
                            cp_parameters@,
                            cp_statement@,
                            witness@,
                            omega,
                        );
                    assert(cp_proof@ == chaum_pedersen_dl_equality::proof_from(
                        reveal_parameters(*self),
                        reveal_points(*self),
                        witness@,
                        omega,
                    ));
                }
                Ok(Proof(cp_proof))
            },
            Err(e) => Err(e),
        }
    }
}

/// Where the group operations obey the laws of a module, the proof that any
/// nonce gives for the token and the public key of one secret key is
/// accepted.
pub proof fn lemma_honest_proof_is_accepted(statement: Statement, secret: nat, omega: nat)
    requires
        module_laws(),
        is_member(reveal_parameters(statement).g),
        is_member(reveal_parameters(statement).h),
        secret < scalar_modulus(),
        omega < scalar_modulus(),
        reveal_points(statement) == (
            point_product(reveal_parameters(statement).g, secret),
            point_product(reveal_parameters(statement).h, secret),
        ),
    ensures
        chaum_pedersen_dl_equality::accepted(
            reveal_parameters(statement),
            reveal_points(statement),
            chaum_pedersen_dl_equality::proof_from(
                reveal_parameters(statement),
                reveal_points(statement),
                secret,
                omega,
            ),
        ),
{
    chaum_pedersen_dl_equality::lemma_honest_proof_is_accepted(
        reveal_parameters(statement),
        secret,
        omega,
    );
}

/// A proof of a reveal.
pub struct Proof(pub chaum_pedersen_dl_equality::Proof);

impl Proof {
    /// Checks the proof for a reveal.
    pub fn verify(&self, statement: &Statement) -> (r: Result<(), Error>)
        ensures
            r is Ok <==> chaum_pedersen_dl_equality::accepted(
                reveal_parameters(*statement),
                reveal_points(*statement),
                self.0@,
            ),
            r matches Err(e) ==> e == Error::VerificationFailure,
    {
        let (cp_parameters, cp_statement) = statement.to_chaum_pedersen();

        DLEquality::verify(&cp_parameters, &cp_statement, &self.0)
    }
}

} // verus!
