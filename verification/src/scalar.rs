//! The scalar field: integers modulo the order of the group.
//!
//! A [`Scalar`] holds the four limbs of its least residue. The arithmetic is
//! that of ark-ff's `Fp256`; each operation states its result as a number.

use ark_bn254::Fr;
use ark_ff::{BigInteger256, Field, PrimeField, UniformRand};
use ark_serialize::CanonicalSerialize;
use vstd::arithmetic::div_mod::{
    lemma_add_mod_noop, lemma_mod_twice, lemma_mul_mod_noop_general, lemma_sub_mod_noop,
};
use vstd::arithmetic::power::pow;
use vstd::prelude::*;

verus! {

/// The order of the group, a 254-bit prime.
pub open spec fn scalar_modulus() -> nat {
    21888242871839275222246405745257275088548364400416034343698204186575808495617nat
}

/// The number that four 64-bit limbs stand for, least significant limb first.
pub open spec fn limbs_value(l: [u64; 4]) -> nat {
    (l[0] as nat) + (l[1] as nat) * 0x1_0000_0000_0000_0000nat + (l[2] as nat)
        * 0x1_0000_0000_0000_0000_0000_0000_0000_0000nat + (l[3] as nat)
        * 0x1_0000_0000_0000_0000_0000_0000_0000_0000_0000_0000_0000_0000nat
}

/// The number that a byte string stands for, least significant byte first.
pub open spec fn le_bytes_value(b: Seq<u8>) -> nat
    decreases b.len(),
{
    if b.len() == 0 {
        0
    } else {
        (b[0] as nat) + 256 * le_bytes_value(b.drop_first())
    }
}

/// The `len` low bytes of a number, least significant byte first.
pub open spec fn le_bytes_of(v: nat, len: nat) -> Seq<u8>
    decreases len,
{
    if len == 0 {
        Seq::empty()
    } else {
        seq![(v % 256) as u8] + le_bytes_of(v / 256, (len - 1) as nat)
    }
}

/// The encoding of a scalar: the 32 bytes of its value, least significant
/// byte first.
pub open spec fn scalar_encoding(v: nat) -> Seq<u8> {
    le_bytes_of(v, 32)
}

/// The least residue of a number modulo the group order.
pub open spec fn residue(v: int) -> nat {
    (v % (scalar_modulus() as int)) as nat
}

/// A vector blinded at the challenge `x`: the entries `x * v[i] + w[i]`.
pub open spec fn blinded(x: nat, v: Seq<nat>, w: Seq<nat>) -> Seq<nat> {
    Seq::new(v.len(), |i: int| residue((x * v[i] + w[i]) as int))
}

/// Whether two numbers have the same residue modulo the group order.
pub open spec fn congruent(u: int, v: int) -> bool {
    u % (scalar_modulus() as int) == v % (scalar_modulus() as int)
}

/// A number and its residue are congruent.
pub proof fn lemma_residue_is_congruent(u: int)
    ensures
        congruent(residue(u) as int, u),
        residue(u) < scalar_modulus(),
{
    lemma_mod_twice(u, scalar_modulus() as int);
}

/// Sums of congruent numbers are congruent.
pub proof fn lemma_congruent_sums(u: int, u2: int, v: int, v2: int)
    requires
        congruent(u, u2),
        congruent(v, v2),
    ensures
        congruent(u + v, u2 + v2),
{
    lemma_add_mod_noop(u, v, scalar_modulus() as int);
    lemma_add_mod_noop(u2, v2, scalar_modulus() as int);
}

/// Differences of congruent numbers are congruent.
pub proof fn lemma_congruent_differences(u: int, u2: int, v: int, v2: int)
    requires
        congruent(u, u2),
        congruent(v, v2),
    ensures
        congruent(u - v, u2 - v2),
{
    lemma_sub_mod_noop(u, v, scalar_modulus() as int);
    lemma_sub_mod_noop(u2, v2, scalar_modulus() as int);
}

/// Products of congruent numbers are congruent.
pub proof fn lemma_congruent_products(u: int, u2: int, v: int, v2: int)
    requires
        congruent(u, u2),
        congruent(v, v2),
    ensures
        congruent(u * v, u2 * v2),
{
    lemma_mul_mod_noop_general(u, v, scalar_modulus() as int);
    lemma_mul_mod_noop_general(u2, v2, scalar_modulus() as int);
}

/// Whether every entry of a vector lies below the group order.
pub open spec fn all_reduced(v: Seq<nat>) -> bool {
    forall|i: int| 0 <= i < v.len() ==> #[trigger] v[i] < scalar_modulus()
}

/// The values of a sequence of scalars.
pub open spec fn scalar_values(s: Seq<Scalar>) -> Seq<nat> {
    s.map_values(|x: Scalar| x@)
}

/// The weight of the second limb.
pub open spec fn limb_base() -> int {
    0x1_0000_0000_0000_0000int
}

/// A number written as a low limb and a high part is below another one
/// exactly if its high part is lower, or equal with a lower low limb; and the
/// two numbers are equal only if both parts are.
pub proof fn lemma_limb_split(lo_a: int, hi_a: int, lo_b: int, hi_b: int)
    requires
        0 <= lo_a < limb_base(),
        0 <= lo_b < limb_base(),
    ensures
        (lo_a + limb_base() * hi_a < lo_b + limb_base() * hi_b) <==> (hi_a < hi_b || (hi_a == hi_b
            && lo_a < lo_b)),
        (lo_a + limb_base() * hi_a == lo_b + limb_base() * hi_b) <==> (hi_a == hi_b && lo_a == lo_b),
{
    if hi_a < hi_b {
        assert(limb_base() * hi_a + limb_base() <= limb_base() * hi_b);
    } else if hi_b < hi_a {
        assert(limb_base() * hi_b + limb_base() <= limb_base() * hi_a);
    }
}

/// The part of a limb quadruple's value above its `k` lowest limbs, in units
/// of the first limb above them.
pub open spec fn limbs_high(l: [u64; 4], k: int) -> int {
    if k >= 3 {
        l[3] as int
    } else if k == 2 {
        l[2] as int + limb_base() * (l[3] as int)
    } else if k == 1 {
        l[1] as int + limb_base() * (l[2] as int + limb_base() * (l[3] as int))
    } else {
        l[0] as int + limb_base() * (l[1] as int + limb_base() * (l[2] as int + limb_base() * (
        l[3] as int)))
    }
}

/// A limb quadruple's value, limb by limb.
pub proof fn lemma_limbs_value_nested(l: [u64; 4])
    ensures
        limbs_value(l) == limbs_high(l, 0),
        limbs_high(l, 0) == l[0] as int + limb_base() * limbs_high(l, 1),
        limbs_high(l, 1) == l[1] as int + limb_base() * limbs_high(l, 2),
        limbs_high(l, 2) == l[2] as int + limb_base() * limbs_high(l, 3),
{
}

/// Two limb quadruples stand for the same number only if they are equal.
pub proof fn lemma_limbs_value_injective(a: [u64; 4], b: [u64; 4])
    requires
        limbs_value(a) == limbs_value(b),
    ensures
        a == b,
{
    lemma_limbs_value_nested(a);
    lemma_limbs_value_nested(b);
    lemma_limb_split(a[0] as int, limbs_high(a, 1), b[0] as int, limbs_high(b, 1));
    lemma_limb_split(a[1] as int, limbs_high(a, 2), b[1] as int, limbs_high(b, 2));
    lemma_limb_split(a[2] as int, limbs_high(a, 3), b[2] as int, limbs_high(b, 3));
    assert(a[0] == b[0] && a[1] == b[1] && a[2] == b[2] && a[3] == b[3]);
    assert(a@ =~= b@);
}

/// Whether `l` stands for a number below the limbs `m`, compared from the
/// most significant limb down.
pub(crate) fn limbs_below(l: &[u64; 4], m: &[u64; 4]) -> (r: bool)
    ensures
        r == (limbs_value(*l) < limbs_value(*m)),
{
    proof {
        lemma_limbs_value_nested(*l);
        lemma_limbs_value_nested(*m);
        lemma_limb_split(l[0] as int, limbs_high(*l, 1), m[0] as int, limbs_high(*m, 1));
        lemma_limb_split(l[1] as int, limbs_high(*l, 2), m[1] as int, limbs_high(*m, 2));
        lemma_limb_split(l[2] as int, limbs_high(*l, 3), m[2] as int, limbs_high(*m, 3));
    }
    if l[3] != m[3] {
        l[3] < m[3]
    } else if l[2] != m[2] {
        l[2] < m[2]
    } else if l[1] != m[1] {
        l[1] < m[1]
    } else {
        l[0] < m[0]
    }
}

/// The limbs of the scalar modulus.
fn scalar_modulus_limbs() -> (m: [u64; 4])
    ensures
        limbs_value(m) == scalar_modulus(),
{
    [4891460686036598785u64, 2896914383306846353u64, 13281191951274694749u64, 3486998266802970665u64]
}

/// An element of the scalar field, held as its least residue.
#[derive(Clone, Copy, Debug, PartialEq, Eq)]
pub struct Scalar {
    pub(crate) limbs: [u64; 4],
}

impl View for Scalar {
    type V = nat;

    closed spec fn view(&self) -> nat {
        limbs_value(self.limbs)
    }
}

impl Scalar {
    /// Every scalar is reduced: its value lies below the modulus.
    #[verifier::type_invariant]
    pub closed spec fn reduced(&self) -> bool {
        limbs_value(self.limbs) < scalar_modulus()
    }

    /// A reduced scalar's value lies below the modulus.
    pub proof fn lemma_reduced(self)
        requires
            self.reduced(),
        ensures
            self@ < scalar_modulus(),
    {
    }

    /// The scalar zero.
    pub fn zero() -> (r: Scalar)
        ensures
            r@ == 0,
    {
        Scalar { limbs: [0u64, 0u64, 0u64, 0u64] }
    }

    /// The scalar one.
    pub fn one() -> (r: Scalar)
        ensures
            r@ == 1,
    {
        Scalar { limbs: [1u64, 0u64, 0u64, 0u64] }
    }

    /// The scalar that stands for a 64-bit number.
    pub fn from_u64(n: u64) -> (r: Scalar)
        ensures
            r@ == n,
    {
        Scalar { limbs: [n, 0u64, 0u64, 0u64] }
    }

    /// The scalar with the given limbs, least significant first, where they
    /// stand for a number below the modulus.
    pub fn from_limbs(limbs: [u64; 4]) -> (r: Option<Scalar>)
        ensures
            r is Some <==> limbs_value(limbs) < scalar_modulus(),
            r matches Some(s) ==> s@ == limbs_value(limbs),
    {
        let m = scalar_modulus_limbs();
        if limbs_below(&limbs, &m) {
            Some(Scalar { limbs })
        } else {
            None
        }
    }

    /// The limbs of the scalar's value, least significant first.
    pub fn to_limbs(&self) -> (r: [u64; 4])
        ensures
            limbs_value(r) == self@,
            self@ < scalar_modulus(),
    {
        proof {
            use_type_invariant(self);
        }
        self.limbs
    }

    /// Whether two scalars have the same value.
    pub fn is_equal(&self, other: &Scalar) -> (r: bool)
        ensures
            r == (self@ == other@),
    {
        let r = self.limbs[0] == other.limbs[0] && self.limbs[1] == other.limbs[1]
            && self.limbs[2] == other.limbs[2] && self.limbs[3] == other.limbs[3];
        proof {
            if self@ == other@ {
                lemma_limbs_value_injective(self.limbs, other.limbs);
            }
            if r {
                assert(self.limbs@ =~= other.limbs@);
            }
        }
        r
    }

    /// The sum of two scalars.
    pub fn add(&self, other: &Scalar) -> (r: Scalar)
        ensures
            r@ == (self@ + other@) % scalar_modulus(),
    {
        proof {
            use_type_invariant(self);
            use_type_invariant(other);
        }
        field_add(self, other)
    }

    /// The difference of two scalars.
    pub fn sub(&self, other: &Scalar) -> (r: Scalar)
        ensures
            r@ == (self@ - other@) % (scalar_modulus() as int),
    {
        proof {
            use_type_invariant(self);
            use_type_invariant(other);
        }
        field_sub(self, other)
    }

    /// The product of two scalars.
    pub fn mul(&self, other: &Scalar) -> (r: Scalar)
        ensures
            r@ == (self@ * other@) % scalar_modulus(),
    {
        proof {
            use_type_invariant(self);
            use_type_invariant(other);
        }
        field_mul(self, other)
    }

    /// The additive inverse of a scalar.
    pub fn neg(&self) -> (r: Scalar)
        ensures
            r@ == (scalar_modulus() - self@) % (scalar_modulus() as int),
    {
        proof {
            use_type_invariant(self);
        }
        field_neg(self)
    }

    /// The scalar raised to the power that `exp` stands for, limbs least
    /// significant first.
    pub fn pow(&self, exp: &[u64; 4]) -> (r: Scalar)
        ensures
            r@ == pow(self@ as int, limbs_value(*exp)) % (scalar_modulus() as int),
    {
        proof {
            use_type_invariant(self);
        }
        field_pow(self, exp)
    }

    /// The scalar that a byte string of any length stands for, least
    /// significant byte first, reduced modulo the group order.
    pub fn from_le_bytes_mod_order(bytes: &[u8]) -> (r: Scalar)
        ensures
            r@ == le_bytes_value(bytes@) % scalar_modulus(),
    {
        field_from_le_bytes_mod_order(bytes)
    }

    /// The 32 bytes of the scalar's value, least significant byte first.
    pub fn to_le_bytes(&self) -> (r: Vec<u8>)
        ensures
            r@ == scalar_encoding(self@),
            r@.len() == 32,
    {
        proof {
            use_type_invariant(self);
        }
        field_serialize(self)
    }

    /// A scalar drawn from the thread's random number generator. Which one
    /// comes back is not known.
    pub fn random() -> (r: Scalar)
        ensures
            r@ < scalar_modulus(),
    {
        field_sample()
    }
}

/// `Fp256`'s `+` of ark-ff on two elements of the scalar field: the result is
/// the least residue of the sum of the two values.
#[verifier::external_body]
fn field_add(a: &Scalar, b: &Scalar) -> (r: Scalar)
    requires
        a.reduced(),
        b.reduced(),
    ensures
        r.reduced(),
        r@ == (a@ + b@) % scalar_modulus(),
{
    let x = Fr::from_repr(BigInteger256(a.limbs)).unwrap();
    let y = Fr::from_repr(BigInteger256(b.limbs)).unwrap();
    Scalar { limbs: (x + y).into_repr().0 }
}

/// `Fp256`'s `-` of ark-ff on two elements of the scalar field: the result is
/// the least residue of the difference of the two values.
#[verifier::external_body]
fn field_sub(a: &Scalar, b: &Scalar) -> (r: Scalar)
    requires
        a.reduced(),
        b.reduced(),
    ensures
        r.reduced(),
        r@ == (a@ - b@) % (scalar_modulus() as int),
{
    let x = Fr::from_repr(BigInteger256(a.limbs)).unwrap();
    let y = Fr::from_repr(BigInteger256(b.limbs)).unwrap();
    Scalar { limbs: (x - y).into_repr().0 }
}

/// `Fp256`'s `*` of ark-ff on two elements of the scalar field: the result is
/// the least residue of the product of the two values.
#[verifier::external_body]
fn field_mul(a: &Scalar, b: &Scalar) -> (r: Scalar)
    requires
        a.reduced(),
        b.reduced(),
    ensures
        r.reduced(),
        r@ == (a@ * b@) % scalar_modulus(),
{
    let x = Fr::from_repr(BigInteger256(a.limbs)).unwrap();
    let y = Fr::from_repr(BigInteger256(b.limbs)).unwrap();
    Scalar { limbs: (x * y).into_repr().0 }
}

/// `Fp256`'s unary `-` of ark-ff: zero for zero, else the modulus less the
/// value.
#[verifier::external_body]
fn field_neg(a: &Scalar) -> (r: Scalar)
    requires
        a.reduced(),
    ensures
        r.reduced(),
        r@ == (scalar_modulus() - a@) % (scalar_modulus() as int),
{
    let x = Fr::from_repr(BigInteger256(a.limbs)).unwrap();
    Scalar { limbs: (-x).into_repr().0 }
}

/// `Field::pow` of ark-ff, which squares and multiplies along the bits of the
/// exponent: the result is the least residue of the value raised to the
/// number that the exponent's limbs stand for.
#[verifier::external_body]
fn field_pow(a: &Scalar, exp: &[u64; 4]) -> (r: Scalar)
    requires
        a.reduced(),
    ensures
        r.reduced(),
        r@ == pow(a@ as int, limbs_value(*exp)) % (scalar_modulus() as int),
{
    let x = Fr::from_repr(BigInteger256(a.limbs)).unwrap();
    Scalar { limbs: x.pow(exp).into_repr().0 }
}

/// `PrimeField::from_le_bytes_mod_order` of ark-ff: the bytes are read as one
/// number, least significant byte first, and reduced modulo the group order.
#[verifier::external_body]
fn field_from_le_bytes_mod_order(bytes: &[u8]) -> (r: Scalar)
    ensures
        r.reduced(),
        r@ == le_bytes_value(bytes@) % scalar_modulus(),
{
    Scalar { limbs: Fr::from_le_bytes_mod_order(bytes).into_repr().0 }
}

/// `CanonicalSerialize::serialize` of ark-serialize on an element of the
/// scalar field: the 32 bytes of its least residue, least significant first.
#[verifier::external_body]
fn field_serialize(a: &Scalar) -> (r: Vec<u8>)
    requires
        a.reduced(),
    ensures
        r@ == scalar_encoding(a@),
        r@.len() == 32,
{
    let x = Fr::from_repr(BigInteger256(a.limbs)).unwrap();
    let mut bytes = Vec::new();
    x.serialize(&mut bytes).unwrap();
    bytes
}

/// `UniformRand::rand` of ark-ff with the thread's generator of ark-std: some
/// element of the scalar field.
#[verifier::external_body]
fn field_sample() -> (r: Scalar)
    ensures
        r.reduced(),
{
    Scalar { limbs: Fr::rand(&mut ark_std::rand::thread_rng()).into_repr().0 }
}

} // verus!
