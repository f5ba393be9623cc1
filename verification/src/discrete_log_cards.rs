//! Cards masked under a discrete-logarithm scheme, and the statements about
//! re-masking and revealing them.

use crate::cipher::ElgamalCipher;
use crate::group::Point;
use crate::scalar::Scalar;
use vstd::prelude::*;

pub mod remasking;
pub mod revealing;

verus! {

/// The parameters of the masking scheme's encryption.
#[derive(Clone, Copy, Debug, PartialEq, Eq)]
pub struct EncryptionParameters {
    pub generator: Point,
}

/// The parameters of the card protocol.
#[derive(Clone, Copy, Debug, PartialEq, Eq)]
pub struct Parameters {
    pub enc_parameters: EncryptionParameters,
}

/// A public key: a multiple of the generator.
pub type PublicKey = Point;

/// A player's secret key: the discrete logarithm of their public key.
pub type PlayerSecretKey = Scalar;

/// A masked card: a ciphertext.
pub type MaskedCard = ElgamalCipher;

/// A player's share of what unmasks a card.
#[derive(Clone, Copy, Debug, PartialEq, Eq)]
pub struct RevealToken(pub Point);

/// A claim that `output` was computed from `input` under the public
/// parameters.
pub struct ComputationStatement<In, Out, Params> {
    pub input: In,
    pub output: Out,
    pub public_parameters: Params,
}

impl<In, Out, Params> ComputationStatement<In, Out, Params> {
    /// The statement with the given parts.
    pub fn new(input: In, output: Out, public_parameters: Params) -> (r: Self)
        ensures
            r.input == input,
            r.output == output,
            r.public_parameters == public_parameters,
    {
        Self { input, output, public_parameters }
    }
}

} // verus!
