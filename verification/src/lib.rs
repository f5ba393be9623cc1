//! Zero-knowledge arguments for verifiable shuffles of masked cards.
//!
//! The arguments run on the BN254 curve: a [`scalar::Scalar`] is an integer
//! modulo the order of its first group, a [`group::Point`] an element of that
//! group, and a [`cipher::ElgamalCipher`] a pair of points. The field and
//! curve arithmetic is that of ark-ff and ark-ec, and challenges come from a
//! merlin transcript; what this crate adds is stated and proved over the names
//! that it gives to their results.
//!
//! - [`transcript`]: Fiat-Shamir transcripts, as a log that determines every
//!   challenge.
//! - [`commitment`]: Pedersen commitments to vectors.
//! - [`multi_exponent_argument`]: dot products and the diagonal sums of the
//!   multi-exponentiation argument.
//! - [`product_argument`]: the argument that a committed vector multiplies
//!   to a claimed scalar.
//! - [`shuffle_proof`]: the proof that a committed vector is a permutation,
//!   and [`wire`], its encoding.
//! - [`schnorr_identification`], [`chaum_pedersen_dl_equality`] and
//!   [`discrete_log_cards`]: the sigma protocols for keys, re-masked cards and
//!   reveal tokens.

pub mod chaum_pedersen_dl_equality;
pub mod cipher;
pub mod commitment;
pub mod config;
pub mod discrete_log_cards;
pub mod error;
pub mod group;
pub mod multi_exponent_argument;
pub mod product_argument;
pub mod scalar;
pub mod schnorr_identification;
pub mod shuffle_proof;
pub mod transcript;
pub mod wire;
