//! The wire format of a shuffle proof.
//!
//! A proof is laid out as 64-bit words, each written as eight bytes, least
//! significant first. A point takes nine words: a flag that tells the point at
//! infinity, then the limbs of its two coordinates. A scalar takes four words,
//! its limbs. A vector of scalars takes a word for its length and then its
//! entries. The five commitments come first, then the two blinding factors,
//! then the two blinded vectors.
//!
//! Decoding accepts exactly what encoding writes: scalars below the group
//! order, points of the curve in the one form in which points are held, and no
//! byte more.

use crate::group::{base_modulus, identity_point, is_member, on_curve, AffinePoint, Point};
use crate::product_argument;
use crate::scalar::{
    all_reduced, lemma_limb_split, lemma_limbs_value_nested, limb_base, limbs_high, limbs_value, scalar_modulus,
    scalar_values, Scalar,
};
use crate::shuffle_proof::{Proof, ProofValue};
use vstd::bytes::{
    lemma_auto_spec_u64_to_from_le_bytes, spec_u64_from_le_bytes, spec_u64_to_le_bytes,
    u64_from_le_bytes, u64_to_le_bytes,
};
use vstd::prelude::*;
use vstd::slice::slice_subrange;

verus! {

/// The bytes of a sequence of words: eight for each word, least significant
/// first.
pub open spec fn words_to_bytes(w: Seq<u64>) -> Seq<u8>
    decreases w.len(),
{
    if w.len() == 0 {
        Seq::empty()
    } else {
        words_to_bytes(w.drop_last()) + spec_u64_to_le_bytes(w.last())
    }
}

/// The words that a byte string holds, eight bytes to a word.
pub open spec fn bytes_to_words(b: Seq<u8>) -> Seq<u64> {
    Seq::new((b.len() / 8) as nat, |i: int| spec_u64_from_le_bytes(b.subrange(8 * i, 8 * i + 8)))
}

/// Words take eight bytes each.
pub proof fn lemma_words_to_bytes_len(w: Seq<u64>)
    ensures
        words_to_bytes(w).len() == 8 * w.len(),
    decreases w.len(),
{
    lemma_auto_spec_u64_to_from_le_bytes();
    if w.len() > 0 {
        lemma_words_to_bytes_len(w.drop_last());
    }
}

/// The words of the bytes of a sequence of words are that sequence.
pub proof fn lemma_words_round_trip(w: Seq<u64>)
    ensures
        bytes_to_words(words_to_bytes(w)) == w,
    decreases w.len(),
{
    lemma_auto_spec_u64_to_from_le_bytes();
    lemma_words_to_bytes_len(w);
    if w.len() > 0 {
        let front = w.drop_last();
        lemma_words_round_trip(front);
        lemma_words_to_bytes_len(front);
        let bytes = words_to_bytes(w);
        let front_bytes = words_to_bytes(front);
        let last_bytes = spec_u64_to_le_bytes(w.last());
        assert forall|i: int| 0 <= i < w.len() implies #[trigger] bytes_to_words(bytes)[i]
            == w[i] by {
            if i < front.len() {
                assert(bytes.subrange(8 * i, 8 * i + 8) =~= front_bytes.subrange(8 * i, 8 * i + 8));
                assert(bytes_to_words(front_bytes)[i] == front[i]);
            } else {
                assert(bytes.subrange(8 * i, 8 * i + 8) =~= last_bytes);
            }
        }
        assert(bytes_to_words(bytes) =~= w);
    } else {
        assert(bytes_to_words(words_to_bytes(w)) =~= w);
    }
}

/// The bytes of a vector of words.
pub fn bytes_of_words(words: &Vec<u64>) -> (r: Vec<u8>)
    ensures
        r@ == words_to_bytes(words@),
{
    let mut out: Vec<u8> = Vec::new();
    let mut i: usize = 0;
    while i < words.len()
        invariant
            i <= words.len(),
            out@ == words_to_bytes(words@.take(i as int)),
        decreases words.len() - i,
    {
        let mut chunk = u64_to_le_bytes(words[i]);
        out.append(&mut chunk);
        proof {
            let next = words@.take(i + 1);
            assert(next.drop_last() =~= words@.take(i as int));
            assert(next.last() == words[i as int]);
        }
        i += 1;
    }
    proof {
        assert(words@.take(words.len() as int) =~= words@);
    }
    out
}

/// The words that a byte string holds, where its length is a multiple of
/// eight.
pub fn words_of_bytes(bytes: &[u8]) -> (r: Option<Vec<u64>>)
    ensures
        r is Some <==> bytes@.len() % 8 == 0,
        r matches Some(w) ==> w@ == bytes_to_words(bytes@),
{
    if bytes.len() % 8 != 0 {
        return None;
    }
    let len = bytes.len();
    let n = len / 8;
    let mut words: Vec<u64> = Vec::with_capacity(n);
    let mut i: usize = 0;
    while i < n
        invariant
            i <= n,
            len == bytes@.len(),
            8 * n == len,
            words.len() == i,
            forall|j: int| 0 <= j < i ==> #[trigger] words[j] == bytes_to_words(bytes@)[j],
        decreases n - i,
    {
        let chunk = slice_subrange(bytes, 8 * i, 8 * i + 8);
        words.push(u64_from_le_bytes(chunk));
        i += 1;
    }
    proof {
        assert(words@ =~= bytes_to_words(bytes@));
    }
    Some(words)
}

/// The limb of a number at the place `j`, the least significant at 0.
pub open spec fn limb_of(v: nat, j: int) -> u64 {
    if j <= 0 {
        (v as int % limb_base()) as u64
    } else if j == 1 {
        ((v as int / limb_base()) % limb_base()) as u64
    } else if j == 2 {
        ((v as int / limb_base() / limb_base()) % limb_base()) as u64
    } else {
        ((v as int / limb_base() / limb_base() / limb_base()) % limb_base()) as u64
    }
}

/// The number that the four words from the place `off` on stand for.
pub open spec fn words_value(w: Seq<u64>, off: int) -> nat {
    (w[off] as int + limb_base() * (w[off + 1] as int + limb_base() * (w[off + 2] as int
        + limb_base() * (w[off + 3] as int)))) as nat
}

/// The limbs of the number that four limbs stand for are those limbs.
pub proof fn lemma_limbs_of_value(l: [u64; 4])
    ensures
        limb_of(limbs_value(l), 0) == l[0],
        limb_of(limbs_value(l), 1) == l[1],
        limb_of(limbs_value(l), 2) == l[2],
        limb_of(limbs_value(l), 3) == l[3],
{
    lemma_limbs_value_nested(l);
    let v = limbs_value(l) as int;
    let b = limb_base();
    lemma_limb_split(l[0] as int, limbs_high(l, 1), v % b, v / b);
    let v1 = v / b;
    lemma_limb_split(l[1] as int, limbs_high(l, 2), v1 % b, v1 / b);
    let v2 = v1 / b;
    lemma_limb_split(l[2] as int, limbs_high(l, 3), v2 % b, v2 / b);
}

/// A number below `2^256` is the number that its four limbs stand for.
pub proof fn lemma_value_of_limbs(v: nat)
    requires
        v < 0x1_0000_0000_0000_0000_0000_0000_0000_0000_0000_0000_0000_0000_0000_0000_0000_0000nat,
    ensures
        words_value(scalar_words(v), 0) == v,
{
    let b = limb_base();
    let v0 = v as int;
    let v1 = v0 / b;
    let v2 = v1 / b;
    let v3 = v2 / b;
    assert(v0 == v0 % b + b * v1);
    assert(v1 == v1 % b + b * v2);
    assert(v2 == v2 % b + b * v3);
    assert(v3 < b);
}

/// The words of a scalar: its four limbs.
pub open spec fn scalar_words(v: nat) -> Seq<u64> {
    seq![limb_of(v, 0), limb_of(v, 1), limb_of(v, 2), limb_of(v, 3)]
}

/// The words of a point: a flag that is one for the point at infinity, then
/// the limbs of the two coordinates.
pub open spec fn point_words(p: AffinePoint) -> Seq<u64> {
    seq![if p.infinity { 1u64 } else { 0u64 }] + scalar_words(p.x) + scalar_words(p.y)
}

/// The words of a vector of scalars: its length, then the limbs of its
/// entries.
pub open spec fn vector_words(v: Seq<nat>) -> Seq<u64> {
    Seq::new(
        1 + 4 * v.len(),
        |k: int|
            if k == 0 {
                v.len() as u64
            } else {
                limb_of(v[(k - 1) / 4], (k - 1) % 4)
            },
    )
}

/// The words of a proof.
pub open spec fn proof_words(p: ProofValue) -> Seq<u64> {
    point_words(p.pi_commit) + point_words(p.exp_pi_commit) + point_words(
        p.product_argument_proof.d_commit,
    ) + point_words(p.product_argument_proof.delta_commit) + point_words(
        p.product_argument_proof.diff_commit,
    ) + scalar_words(p.product_argument_proof.r_blinded) + scalar_words(
        p.product_argument_proof.s_blinded,
    ) + vector_words(p.product_argument_proof.a_blinded) + vector_words(
        p.product_argument_proof.b_blinded,
    )
}

/// The encoding of a proof.
pub open spec fn encoding(p: ProofValue) -> Seq<u8> {
    words_to_bytes(proof_words(p))
}

/// The scalar that the four words from `off` on hold, where they stand for a
/// number below the group order.
pub open spec fn scalar_in(w: Seq<u64>, off: int) -> Option<nat> {
    if words_value(w, off) < scalar_modulus() {
        Some(words_value(w, off))
    } else {
        None
    }
}

/// The point that the nine words from `off` on hold: the point at infinity
/// for the flag one and the coordinates 0 and 1, a point of the curve for the
/// flag zero and coordinates below the modulus that satisfy its equation.
pub open spec fn point_in(w: Seq<u64>, off: int) -> Option<AffinePoint> {
    let x = words_value(w, off + 1);
    let y = words_value(w, off + 5);
    if w[off] == 1 && x == 0 && y == 1 {
        Some(identity_point())
    } else if w[off] == 0 && x < base_modulus() && y < base_modulus() && on_curve(x, y) {
        Some(AffinePoint { x, y, infinity: false })
    } else {
        None
    }
}

/// The vector of `len` scalars that the words from `off` on hold, where each
/// is a scalar.
pub open spec fn vector_in(w: Seq<u64>, off: int, len: int) -> Option<Seq<nat>> {
    if forall|i: int| 0 <= i < len ==> #[trigger] words_value(w, off + 4 * i) < scalar_modulus() {
        Some(Seq::new(len as nat, |i: int| words_value(w, off + 4 * i)))
    } else {
        None
    }
}

/// The number of words before the first vector: five points and two
/// scalars.
pub const HEADER_WORDS: usize = 53;

/// The proof that a sequence of words holds, where it holds one and nothing
/// else.
pub open spec fn words_proof(w: Seq<u64>) -> Option<ProofValue> {
    if w.len() < HEADER_WORDS + 2 {
        None
    } else {
        let a_len = w[HEADER_WORDS as int] as int;
        if w.len() < HEADER_WORDS + 2 + 4 * a_len {
            None
        } else {
            let b_at = HEADER_WORDS + 1 + 4 * a_len;
            let b_len = w[b_at] as int;
            if w.len() != b_at + 1 + 4 * b_len {
                None
            } else {
                match (
                    point_in(w, 0),
                    point_in(w, 9),
                    point_in(w, 18),
                    point_in(w, 27),
                    point_in(w, 36),
                    scalar_in(w, 45),
                    scalar_in(w, 49),
                    vector_in(w, HEADER_WORDS + 1, a_len),
                    vector_in(w, b_at + 1, b_len),
                ) {
                    (
                        Some(pi_commit),
                        Some(exp_pi_commit),
                        Some(d_commit),
                        Some(delta_commit),
                        Some(diff_commit),
                        Some(r_blinded),
                        Some(s_blinded),
                        Some(a_blinded),
                        Some(b_blinded),
                    ) => Some(
                        ProofValue {
                            pi_commit,
                            exp_pi_commit,
                            product_argument_proof: product_argument::ProofValue {
                                d_commit,
                                delta_commit,
                                diff_commit,
                                a_blinded,
                                b_blinded,
                                r_blinded,
                                s_blinded,
                            },
                        },
                    ),
                    _ => None,
                }
            }
        }
    }
}

/// The proof that a byte string holds, where it holds one and nothing else.
pub open spec fn decoding(b: Seq<u8>) -> Option<ProofValue> {
    if b.len() % 8 == 0 {
        words_proof(bytes_to_words(b))
    } else {
        None
    }
}

/// Appends four limbs.
fn push_limbs(words: &mut Vec<u64>, l: &[u64; 4])
    ensures
        final(words)@ == old(words)@ + scalar_words(limbs_value(*l)),
{
    proof {
        lemma_limbs_of_value(*l);
    }
    words.push(l[0]);
    words.push(l[1]);
    words.push(l[2]);
    words.push(l[3]);
    proof {
        assert(words@ =~= old(words)@ + scalar_words(limbs_value(*l)));
    }
}

/// Appends the words of a point.
fn push_point(words: &mut Vec<u64>, p: &Point)
    ensures
        final(words)@ == old(words)@ + point_words(p@),
{
    match p.to_coordinates() {
        None => {
            words.push(1);
            push_limbs(words, &[0, 0, 0, 0]);
            push_limbs(words, &[1, 0, 0, 0]);
        },
        Some((x, y)) => {
            words.push(0);
            push_limbs(words, &x);
            push_limbs(words, &y);
        },
    }
    proof {
        assert(words@ =~= old(words)@ + point_words(p@));
    }
}

/// Appends the words of a vector of scalars.
fn push_vector(words: &mut Vec<u64>, v: &Vec<Scalar>)
    ensures
        final(words)@ == old(words)@ + vector_words(scalar_values(v@)),
{
    let ghost values = scalar_values(v@);
    let ghost want = vector_words(values);
    words.push(v.len() as u64);
    proof {
        assert(words@ =~= old(words)@ + want.take(1));
    }
    let mut i: usize = 0;
    while i < v.len()
        invariant
            i <= v.len(),
            values == scalar_values(v@),
            want == vector_words(values),
            words@ == old(words)@ + want.take(1 + 4 * i),
        decreases v.len() - i,
    {
        let l = v[i].to_limbs();
        push_limbs(words, &l);
        proof {
            let k = 1 + 4 * i;
            assert(want[k] == limb_of(values[i as int], 0));
            assert(want[k + 1] == limb_of(values[i as int], 1));
            assert(want[k + 2] == limb_of(values[i as int], 2));
            assert(want[k + 3] == limb_of(values[i as int], 3));
            assert(want.take(k + 4) =~= want.take(k) + scalar_words(values[i as int]));
            assert(words@ =~= old(words)@ + want.take(k + 4));
        }
        i += 1;
    }
    proof {
        assert(want.take(1 + 4 * v.len()) =~= want);
    }
}

/// The bytes of a proof.
pub fn encode(proof: &Proof) -> (r: Vec<u8>)
    ensures
        r@ == encoding(proof@),
{
    let mut words: Vec<u64> = Vec::new();
    push_point(&mut words, &proof.pi_commit);
    push_point(&mut words, &proof.exp_pi_commit);
    push_point(&mut words, &proof.product_argument_proof.d_commit);
    push_point(&mut words, &proof.product_argument_proof.delta_commit);
    push_point(&mut words, &proof.product_argument_proof.diff_commit);
    push_limbs(&mut words, &proof.product_argument_proof.r_blinded.to_limbs());
    push_limbs(&mut words, &proof.product_argument_proof.s_blinded.to_limbs());
    push_vector(&mut words, &proof.product_argument_proof.a_blinded);
    push_vector(&mut words, &proof.product_argument_proof.b_blinded);
    proof {
        assert(words@ =~= proof_words(proof@));
    }
    bytes_of_words(&words)
}

/// The four limbs from the place `off` on.
fn read_limbs(words: &Vec<u64>, off: usize) -> (l: [u64; 4])
    requires
        off + 4 <= words.len(),
    ensures
        limbs_value(l) == words_value(words@, off as int),
{
    let l = [words[off], words[off + 1], words[off + 2], words[off + 3]];
    proof {
        lemma_limbs_value_nested(l);
    }
    l
}

/// The scalar that the four words from `off` on hold.
fn read_scalar(words: &Vec<u64>, off: usize) -> (r: Option<Scalar>)
    requires
        off + 4 <= words.len(),
    ensures
        match r {
            Some(s) => scalar_in(words@, off as int) == Some(s@),
            None => scalar_in(words@, off as int) is None,
        },
{
    Scalar::from_limbs(read_limbs(words, off))
}

/// The point that the nine words from `off` on hold.
fn read_point(words: &Vec<u64>, off: usize) -> (r: Option<Point>)
    requires
        off + 9 <= words.len(),
    ensures
        match r {
            Some(p) => point_in(words@, off as int) == Some(p@),
            None => point_in(words@, off as int) is None,
        },
{
    let flag = words[off];
    let x = read_limbs(words, off + 1);
    let y = read_limbs(words, off + 5);
    if flag == 1 {
        let zero = Scalar::zero().to_limbs();
        let one = Scalar::one().to_limbs();
        let x_is_zero = x[0] == zero[0] && x[1] == zero[1] && x[2] == zero[2] && x[3] == zero[3];
        let y_is_one = y[0] == one[0] && y[1] == one[1] && y[2] == one[2] && y[3] == one[3];
        proof {
            if limbs_value(x) == 0 {
                crate::scalar::lemma_limbs_value_injective(x, zero);
            }
            if limbs_value(y) == 1 {
                crate::scalar::lemma_limbs_value_injective(y, one);
            }
            if x_is_zero {
                assert(x@ =~= zero@);
            }
            if y_is_one {
                assert(y@ =~= one@);
            }
        }
        if x_is_zero && y_is_one {
            Some(Point::identity())
        } else {
            None
        }
    } else if flag == 0 {
        Point::from_coordinates(x, y)
    } else {
        None
    }
}

/// The vector of `len` scalars that the words from `off` on hold.
fn read_vector(words: &Vec<u64>, off: usize, len: usize) -> (r: Option<Vec<Scalar>>)
    requires
        off + 4 * len <= words.len(),
    ensures
        match r {
            Some(v) => vector_in(words@, off as int, len as int) == Some(scalar_values(v@)),
            None => vector_in(words@, off as int, len as int) is None,
        },
{
    let mut v: Vec<Scalar> = Vec::new();
    let mut i: usize = 0;
    while i < len
        invariant
            i <= len,
            off + 4 * len <= words.len(),
            v.len() == i,
            forall|j: int|
                0 <= j < i ==> (#[trigger] v[j])@ == words_value(words@, off + 4 * j)
                    && words_value(words@, off + 4 * j) < scalar_modulus(),
        decreases len - i,
    {
        match read_scalar(words, off + 4 * i) {
            Some(s) => {
                v.push(s);
            },
            None => {
                proof {
                    assert(!(words_value(words@, off + 4 * i) < scalar_modulus()));
                }
                return None;
            },
        }
        i += 1;
    }
    proof {
        assert forall|j: int| 0 <= j < len implies #[trigger] words_value(words@, off + 4 * j)
            < scalar_modulus() by {
            assert(v[j]@ == words_value(words@, off + 4 * j));
        }
        assert(scalar_values(v@) =~= Seq::new(len as nat, |j: int| words_value(words@, off + 4 * j)));
    }
    Some(v)
}

/// The proof that a byte string holds, where it holds one and nothing else.
#[verifier::rlimit(40)]
pub fn decode(bytes: &[u8]) -> (r: Option<Proof>)
    ensures
        match r {
            Some(p) => decoding(bytes@) == Some(p@),
            None => decoding(bytes@) is None,
        },
{
    let words = match words_of_bytes(bytes) {
        Some(words) => words,
        None => {
            return None;
        },
    };
    let total = words.len();
    if total < HEADER_WORDS + 2 {
        return None;
    }
    let a_word = words[HEADER_WORDS];
    if a_word > ((total - HEADER_WORDS - 2) / 4) as u64 {
        return None;
    }
    let a_len = a_word as usize;
    let b_at = HEADER_WORDS + 1 + 4 * a_len;
    let b_word = words[b_at];
    let rest = total - b_at - 1;
    if rest % 4 != 0 || b_word != (rest / 4) as u64 {
        return None;
    }
    let b_len = rest / 4;
    let parts = (
        read_point(&words, 0),
        read_point(&words, 9),
        read_point(&words, 18),
        read_point(&words, 27),
        read_point(&words, 36),
        read_scalar(&words, 45),
        read_scalar(&words, 49),
        read_vector(&words, HEADER_WORDS + 1, a_len),
        read_vector(&words, b_at + 1, b_len),
    );
    match parts {
        (
            Some(pi_commit),
            Some(exp_pi_commit),
            Some(d_commit),
            Some(delta_commit),
            Some(diff_commit),
            Some(r_blinded),
            Some(s_blinded),
            Some(a_blinded),
            Some(b_blinded),
        ) => Some(
            Proof {
                pi_commit,
                exp_pi_commit,
                product_argument_proof: product_argument::Proof {
                    d_commit,
                    delta_commit,
                    diff_commit,
                    a_blinded,
                    b_blinded,
                    r_blinded,
                    s_blinded,
                },
            },
        ),
        _ => None,
    }
}

/// Whether a proof is one that can be held in memory: its points are points
/// of the curve, its scalars lie below the group order, and the lengths of
/// its vectors fit a word.
pub open spec fn well_formed(p: ProofValue) -> bool {
    &&& is_member(p.pi_commit)
    &&& is_member(p.exp_pi_commit)
    &&& is_member(p.product_argument_proof.d_commit)
    &&& is_member(p.product_argument_proof.delta_commit)
    &&& is_member(p.product_argument_proof.diff_commit)
    &&& p.product_argument_proof.r_blinded < scalar_modulus()
    &&& p.product_argument_proof.s_blinded < scalar_modulus()
    &&& all_reduced(p.product_argument_proof.a_blinded)
    &&& all_reduced(p.product_argument_proof.b_blinded)
    &&& p.product_argument_proof.a_blinded.len() <= u64::MAX
    &&& p.product_argument_proof.b_blinded.len() <= u64::MAX
}

/// Walks a vector of scalars to learn that every entry lies below the group
/// order.
fn entries_are_reduced(v: &Vec<Scalar>)
    ensures
        all_reduced(scalar_values(v@)),
{
    let mut i: usize = 0;
    while i < v.len()
        invariant
            i <= v.len(),
            forall|j: int| 0 <= j < i ==> (#[trigger] v[j])@ < scalar_modulus(),
        decreases v.len() - i,
    {
        let entry = &v[i];
        proof {
            use_type_invariant(entry);
            entry.lemma_reduced();
        }
        i += 1;
    }
}

/// Whether a proof is well formed: whether its five points are elements of
/// the group. Its scalars lie below the group order and its lengths fit a
/// word as it is.
pub fn is_well_formed(proof: &Proof) -> (r: bool)
    ensures
        r == well_formed(proof@),
{
    let q = &proof.product_argument_proof;
    entries_are_reduced(&q.a_blinded);
    entries_are_reduced(&q.b_blinded);
    let a_len = q.a_blinded.len();
    let b_len = q.b_blinded.len();
    proof {
        use_type_invariant(&q.r_blinded);
        use_type_invariant(&q.s_blinded);
        q.r_blinded.lemma_reduced();
        q.s_blinded.lemma_reduced();
        assert(proof@.product_argument_proof.a_blinded.len() == a_len);
        assert(proof@.product_argument_proof.b_blinded.len() == b_len);
    }
    let first = proof.pi_commit.is_in_group();
    let second = proof.exp_pi_commit.is_in_group();
    let third = q.d_commit.is_in_group();
    let fourth = q.delta_commit.is_in_group();
    let fifth = q.diff_commit.is_in_group();
    first && second && third && fourth && fifth
}

/// Four words that are the limbs of a number below `2^256` stand for it.
proof fn lemma_number_in(w: Seq<u64>, off: int, v: nat)
    requires
        0 <= off,
        off + 4 <= w.len(),
        w.subrange(off, off + 4) == scalar_words(v),
        v < 0x1_0000_0000_0000_0000_0000_0000_0000_0000_0000_0000_0000_0000_0000_0000_0000_0000nat,
    ensures
        words_value(w, off) == v,
{
    let part = w.subrange(off, off + 4);
    assert(part[0] == w[off] && part[1] == w[off + 1] && part[2] == w[off + 2] && part[3] == w[off
        + 3]);
    lemma_value_of_limbs(v);
}

/// Nine words that are the words of a well-formed point hold it.
proof fn lemma_point_in(w: Seq<u64>, off: int, p: AffinePoint)
    requires
        0 <= off,
        off + 9 <= w.len(),
        w.subrange(off, off + 9) == point_words(p),
        is_member(p),
    ensures
        point_in(w, off) == Some(p),
{
    let part = w.subrange(off, off + 9);
    assert(part[0] == w[off]);
    assert(w.subrange(off + 1, off + 5) =~= part.subrange(1, 5));
    assert(w.subrange(off + 5, off + 9) =~= part.subrange(5, 9));
    assert(part.subrange(1, 5) =~= scalar_words(p.x));
    assert(part.subrange(5, 9) =~= scalar_words(p.y));
    lemma_number_in(w, off + 1, p.x);
    lemma_number_in(w, off + 5, p.y);
}

/// Words that are the words of a vector of scalars hold its length and it.
proof fn lemma_vector_in(w: Seq<u64>, off: int, v: Seq<nat>)
    requires
        0 <= off,
        off + 1 + 4 * v.len() <= w.len(),
        w.subrange(off, off + 1 + 4 * v.len()) == vector_words(v),
        all_reduced(v),
        v.len() <= u64::MAX,
    ensures
        w[off] == v.len(),
        vector_in(w, off + 1, v.len() as int) == Some(v),
{
    let part = w.subrange(off, off + 1 + 4 * v.len());
    assert(part[0] == w[off]);
    assert forall|i: int| 0 <= i < v.len() implies #[trigger] words_value(w, off + 1 + 4 * i)
        == v[i] by {
        let at = off + 1 + 4 * i;
        assert(part[1 + 4 * i] == w[at] && part[2 + 4 * i] == w[at + 1] && part[3 + 4 * i] == w[at
            + 2] && part[4 + 4 * i] == w[at + 3]);
        assert(w.subrange(at, at + 4) =~= scalar_words(v[i]));
        lemma_number_in(w, at, v[i]);
    }
    assert(Seq::new(v.len(), |i: int| words_value(w, off + 1 + 4 * i)) =~= v);
}

/// A piece that follows a front part at the start of a sequence lies
/// behind that front part.
proof fn lemma_piece(w: Seq<u64>, front: Seq<u64>, piece: Seq<u64>)
    requires
        front.len() + piece.len() <= w.len(),
        w.subrange(0, (front.len() + piece.len()) as int) == front + piece,
    ensures
        w.subrange(0, front.len() as int) == front,
        w.subrange(front.len() as int, (front.len() + piece.len()) as int) == piece,
{
    let mid = front.len() as int;
    let end = (front.len() + piece.len()) as int;
    let both = w.subrange(0, end);
    assert(w.subrange(0, mid) =~= both.subrange(0, mid));
    assert(both.subrange(0, mid) =~= front);
    assert(w.subrange(mid, end) =~= both.subrange(mid, end));
    assert(both.subrange(mid, end) =~= piece);
}

/// Where each of nine pieces lies in the sequence that they make up.
proof fn lemma_nine_pieces(
    a: Seq<u64>,
    b: Seq<u64>,
    c: Seq<u64>,
    d: Seq<u64>,
    e: Seq<u64>,
    f: Seq<u64>,
    g: Seq<u64>,
    h: Seq<u64>,
    i: Seq<u64>,
)
    ensures
        ({
            let w = a + b + c + d + e + f + g + h + i;
            let n1 = a.len() as int;
            let n2 = n1 + b.len();
            let n3 = n2 + c.len();
            let n4 = n3 + d.len();
            let n5 = n4 + e.len();
            let n6 = n5 + f.len();
            let n7 = n6 + g.len();
            let n8 = n7 + h.len();
            let n9 = n8 + i.len();
            &&& w.len() == n9
            &&& w.subrange(0, n1) == a
            &&& w.subrange(n1, n2) == b
            &&& w.subrange(n2, n3) == c
            &&& w.subrange(n3, n4) == d
            &&& w.subrange(n4, n5) == e
            &&& w.subrange(n5, n6) == f
            &&& w.subrange(n6, n7) == g
            &&& w.subrange(n7, n8) == h
            &&& w.subrange(n8, n9) == i
        }),
{
    let w2 = a + b;
    let w3 = w2 + c;
    let w4 = w3 + d;
    let w5 = w4 + e;
    let w6 = w5 + f;
    let w7 = w6 + g;
    let w8 = w7 + h;
    let w = w8 + i;
    assert(w.subrange(0, w.len() as int) =~= w);
    lemma_piece(w, w8, i);
    lemma_piece(w, w7, h);
    lemma_piece(w, w6, g);
    lemma_piece(w, w5, f);
    lemma_piece(w, w4, e);
    lemma_piece(w, w3, d);
    lemma_piece(w, w2, c);
    lemma_piece(w, a, b);
}

/// Where each part of a proof lies among its words.
proof fn lemma_proof_words_layout(p: ProofValue)
    ensures
        ({
            let q = p.product_argument_proof;
            let w = proof_words(p);
            let a_len = q.a_blinded.len() as int;
            let b_len = q.b_blinded.len() as int;
            &&& w.len() == 55 + 4 * a_len + 4 * b_len
            &&& w.subrange(0, 9) == point_words(p.pi_commit)
            &&& w.subrange(9, 18) == point_words(p.exp_pi_commit)
            &&& w.subrange(18, 27) == point_words(q.d_commit)
            &&& w.subrange(27, 36) == point_words(q.delta_commit)
            &&& w.subrange(36, 45) == point_words(q.diff_commit)
            &&& w.subrange(45, 49) == scalar_words(q.r_blinded)
            &&& w.subrange(49, 53) == scalar_words(q.s_blinded)
            &&& w.subrange(53, 54 + 4 * a_len) == vector_words(q.a_blinded)
            &&& w.subrange(54 + 4 * a_len, 55 + 4 * a_len + 4 * b_len) == vector_words(q.b_blinded)
        }),
{
    let q = p.product_argument_proof;
    assert(point_words(p.pi_commit).len() == 9);
    assert(point_words(p.exp_pi_commit).len() == 9);
    assert(point_words(q.d_commit).len() == 9);
    assert(point_words(q.delta_commit).len() == 9);
    assert(point_words(q.diff_commit).len() == 9);
    assert(scalar_words(q.r_blinded).len() == 4);
    assert(scalar_words(q.s_blinded).len() == 4);
    assert(vector_words(q.a_blinded).len() == 1 + 4 * q.a_blinded.len());
    assert(vector_words(q.b_blinded).len() == 1 + 4 * q.b_blinded.len());
    lemma_nine_pieces(
        point_words(p.pi_commit),
        point_words(p.exp_pi_commit),
        point_words(q.d_commit),
        point_words(q.delta_commit),
        point_words(q.diff_commit),
        scalar_words(q.r_blinded),
        scalar_words(q.s_blinded),
        vector_words(q.a_blinded),
        vector_words(q.b_blinded),
    );
}

/// The words of a well-formed proof hold that proof.
pub proof fn lemma_words_proof_inverts_proof_words(p: ProofValue)
    requires
        well_formed(p),
    ensures
        words_proof(proof_words(p)) == Some(p),
{
    let q = p.product_argument_proof;
    let w = proof_words(p);
    let a_len = q.a_blinded.len() as int;
    let b_len = q.b_blinded.len() as int;
    let b_at = 54 + 4 * a_len;
    lemma_proof_words_layout(p);
    lemma_point_in(w, 0, p.pi_commit);
    lemma_point_in(w, 9, p.exp_pi_commit);
    lemma_point_in(w, 18, q.d_commit);
    lemma_point_in(w, 27, q.delta_commit);
    lemma_point_in(w, 36, q.diff_commit);
    lemma_number_in(w, 45, q.r_blinded);
    lemma_number_in(w, 49, q.s_blinded);
    lemma_vector_in(w, 53, q.a_blinded);
    lemma_vector_in(w, b_at, q.b_blinded);
    assert(w[53] as int == a_len);
    assert(w[b_at] as int == b_len);
}

/// Decoding inverts encoding: the bytes of a well-formed proof hold that
/// proof.
pub proof fn lemma_decoding_inverts_encoding(p: ProofValue)
    requires
        well_formed(p),
    ensures
        decoding(encoding(p)) == Some(p),
{
    lemma_words_to_bytes_len(proof_words(p));
    lemma_words_round_trip(proof_words(p));
    lemma_words_proof_inverts_proof_words(p);
}

/// A proof that went over the wire is accepted exactly if the proof that was
/// sent is.
pub proof fn lemma_round_trip_keeps_the_verdict(
    p: ProofValue,
    key: crate::commitment::CommitKeyValue,
    events: Seq<crate::transcript::TranscriptEvent>,
)
    requires
        well_formed(p),
    ensures
        decoding(encoding(p)) matches Some(received) && (crate::shuffle_proof::accepted(
            key,
            received,
            events,
        ) <==> crate::shuffle_proof::accepted(key, p, events)),
{
    lemma_decoding_inverts_encoding(p);
}

} // verus!
