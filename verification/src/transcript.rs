//! Fiat-Shamir transcripts: an append-only log from which challenges are
//! derived.
//!
//! A [`ProofTranscript`] wraps a merlin transcript. Its value is the log of
//! what was done to it; a challenge is a function of that log and of the
//! challenge's label, so that the prover and the verifier, logging the same
//! things in the same order, draw the same challenges.

use crate::group::{point_encoding, AffinePoint, Point};
use crate::scalar::{le_bytes_value, scalar_encoding, scalar_modulus, Scalar};
use vstd::prelude::*;
use vstd::string::StringSliceAdditionalSpecFns;

verus! {

/// merlin's transcript. Nothing of its state is looked into: what is known of
/// a transcript is its log, [`transcript_events`].
#[verifier::external_type_specification]
#[verifier::external_body]
pub struct ExMerlinTranscript(merlin::Transcript);

/// One entry of a transcript's log.
pub enum TranscriptEvent {
    /// The transcript was created under a domain separation label.
    Start { label: Seq<u8> },
    /// A labelled message was absorbed.
    Append { label: Seq<u8>, message: Seq<u8> },
    /// A labelled challenge of `len` bytes was drawn.
    Challenge { label: Seq<u8>, len: nat },
}

/// Everything that has happened to a transcript since its creation, in order.
pub uninterp spec fn transcript_events(t: merlin::Transcript) -> Seq<TranscriptEvent>;

/// The bytes that a transcript with the given log returns for a challenge of
/// `len` bytes under `label`.
pub uninterp spec fn challenge_output(events: Seq<TranscriptEvent>, label: Seq<u8>, len: nat) -> Seq<u8>;

/// The number of bytes drawn for one scalar challenge: twice the width of a
/// scalar, so that the reduced value is close to uniform.
pub const CHALLENGE_BYTES: usize = 64;

/// The bytes of a label written as text.
pub open spec fn label(text: &str) -> Seq<u8> {
    text.spec_bytes()
}

/// The bytes of a label written as text.
pub fn label_bytes(text: &'static str) -> (r: &'static [u8])
    ensures
        r@ == label(text),
{
    text.as_bytes()
}

/// The log after a labelled message.
pub open spec fn appended(events: Seq<TranscriptEvent>, label: Seq<u8>, message: Seq<u8>) -> Seq<
    TranscriptEvent,
> {
    events.push(TranscriptEvent::Append { label, message })
}

/// The log after a labelled scalar.
pub open spec fn appended_scalar(events: Seq<TranscriptEvent>, label: Seq<u8>, s: nat) -> Seq<
    TranscriptEvent,
> {
    appended(events, label, scalar_encoding(s))
}

/// The log after a labelled point.
pub open spec fn appended_point(events: Seq<TranscriptEvent>, label: Seq<u8>, p: AffinePoint) -> Seq<
    TranscriptEvent,
> {
    appended(events, label, point_encoding(p))
}

/// The log after a sequence of points, each under the same label, first to
/// last.
pub open spec fn appended_points(
    events: Seq<TranscriptEvent>,
    label: Seq<u8>,
    points: Seq<AffinePoint>,
) -> Seq<TranscriptEvent>
    decreases points.len(),
{
    if points.len() == 0 {
        events
    } else {
        appended_point(appended_points(events, label, points.drop_last()), label, points.last())
    }
}

/// The log after a scalar challenge was drawn under `label`.
pub open spec fn challenged(events: Seq<TranscriptEvent>, label: Seq<u8>) -> Seq<TranscriptEvent> {
    events.push(TranscriptEvent::Challenge { label, len: CHALLENGE_BYTES as nat })
}

/// The scalar challenge that a transcript with the given log yields under
/// `label`: the challenge bytes read as a number, least significant byte
/// first, and reduced modulo the group order.
pub open spec fn challenge_value(events: Seq<TranscriptEvent>, label: Seq<u8>) -> nat {
    le_bytes_value(challenge_output(events, label, CHALLENGE_BYTES as nat)) % scalar_modulus()
}

/// A challenge is a function of the log: two transcripts that absorbed the
/// same message under the same label after the same history yield the same
/// challenge.
pub proof fn lemma_challenge_deterministic(
    first: Seq<TranscriptEvent>,
    second: Seq<TranscriptEvent>,
    label: Seq<u8>,
    message: Seq<u8>,
    challenge_label: Seq<u8>,
)
    requires
        first == second,
    ensures
        challenge_value(appended(first, label, message), challenge_label) == challenge_value(
            appended(second, label, message),
            challenge_label,
        ),
        challenged(appended(first, label, message), challenge_label) == challenged(
            appended(second, label, message),
            challenge_label,
        ),
{
}

/// A transcript of a public-coin argument.
pub struct ProofTranscript {
    inner: merlin::Transcript,
}

impl View for ProofTranscript {
    type V = Seq<TranscriptEvent>;

    closed spec fn view(&self) -> Seq<TranscriptEvent> {
        transcript_events(self.inner)
    }
}

impl ProofTranscript {
    /// A fresh transcript under the domain separation label `label`, whose
    /// length must fit 32 bits.
    pub fn new(label: &'static [u8]) -> (r: ProofTranscript)
        requires
            label@.len() <= u32::MAX,
        ensures
            r@ == seq![TranscriptEvent::Start { label: label@ }],
    {
        ProofTranscript { inner: merlin_new(label) }
    }

    /// A second transcript with the same log. What is then appended to
    /// either does not reach the other.
    pub fn fork(&self) -> (r: ProofTranscript)
        ensures
            r@ == self@,
    {
        ProofTranscript { inner: merlin_clone(&self.inner) }
    }

    /// Absorbs `message` under `label`.
    pub fn append_message(&mut self, label: &'static [u8], message: &[u8])
        requires
            message@.len() <= u32::MAX,
        ensures
            final(self)@ == appended(old(self)@, label@, message@),
    {
        merlin_append_message(&mut self.inner, label, message);
    }

    /// Absorbs a scalar under `label`.
    pub fn append_scalar(&mut self, label: &'static [u8], s: &Scalar)
        ensures
            final(self)@ == appended_scalar(old(self)@, label@, s@),
    {
        let bytes = s.to_le_bytes();
        merlin_append_message(&mut self.inner, label, bytes.as_slice());
    }

    /// Absorbs a point under `label`.
    pub fn append_point(&mut self, label: &'static [u8], p: &Point)
        ensures
            final(self)@ == appended_point(old(self)@, label@, p@),
    {
        let bytes = p.to_bytes();
        merlin_append_message(&mut self.inner, label, bytes.as_slice());
    }

    /// Absorbs a vector of points, each under `label`, first to last.
    pub fn append_points(&mut self, label: &'static [u8], points: &Vec<Point>)
        ensures
            final(self)@ == appended_points(old(self)@, label@, crate::group::point_values(points@)),
    {
        let ghost pv = crate::group::point_values(points@);
        let mut i: usize = 0;
        while i < points.len()
            invariant
                i <= points.len(),
                pv == crate::group::point_values(points@),
                self@ == appended_points(old(self)@, label@, pv.take(i as int)),
            decreases points.len() - i,
        {
            self.append_point(label, &points[i]);
            proof {
                let p1 = pv.take(i + 1);
                assert(p1.drop_last() =~= pv.take(i as int));
                assert(p1.last() == points[i as int]@);
            }
            i += 1;
        }
        proof {
            assert(pv.take(points.len() as int) =~= pv);
        }
    }

    /// Draws a scalar challenge under `label`. The challenge depends on the
    /// log so far and on the label alone; drawing it is logged too.
    pub fn challenge_scalar(&mut self, label: &'static [u8]) -> (r: Scalar)
        ensures
            r@ == challenge_value(old(self)@, label@),
            final(self)@ == challenged(old(self)@, label@),
    {
        let bytes = merlin_challenge_bytes(&mut self.inner, label, CHALLENGE_BYTES);
        Scalar::from_le_bytes_mod_order(bytes.as_slice())
    }
}

/// `Transcript::new` of merlin: a transcript whose log holds the label alone.
/// The call absorbs the label as a message, and so panics on a label whose
/// length does not fit 32 bits.
#[verifier::external_body]
fn merlin_new(label: &'static [u8]) -> (r: merlin::Transcript)
    requires
        label@.len() <= u32::MAX,
    ensures
        transcript_events(r) == seq![TranscriptEvent::Start { label: label@ }],
{
    merlin::Transcript::new(label)
}

/// `Clone::clone` of merlin's transcript: a transcript with the same log.
#[verifier::external_body]
fn merlin_clone(t: &merlin::Transcript) -> (r: merlin::Transcript)
    ensures
        transcript_events(r) == transcript_events(*t),
{
    t.clone()
}

/// `Transcript::append_message` of merlin: the log grows by one entry that
/// holds the label and the message. The call panics on a message whose
/// length does not fit 32 bits.
#[verifier::external_body]
fn merlin_append_message(t: &mut merlin::Transcript, label: &'static [u8], message: &[u8])
    requires
        message@.len() <= u32::MAX,
    ensures
        transcript_events(*final(t)) == appended(transcript_events(*old(t)), label@, message@),
{
    t.append_message(label, message)
}

/// `Transcript::challenge_bytes` of merlin, on a buffer of `len` bytes: the
/// bytes that come back depend on the log, the label and the length alone, and
/// the log grows by one entry for the challenge. The call panics on a length
/// that does not fit 32 bits.
#[verifier::external_body]
fn merlin_challenge_bytes(t: &mut merlin::Transcript, label: &'static [u8], len: usize) -> (r: Vec<
    u8,
>)
    requires
        len <= u32::MAX,
    ensures
        r@ == challenge_output(transcript_events(*old(t)), label@, len as nat),
        r@.len() == len,
        transcript_events(*final(t)) == transcript_events(*old(t)).push(
            TranscriptEvent::Challenge { label: label@, len: len as nat },
        ),
{
    let mut buf = vec![0u8; len];
    t.challenge_bytes(label, &mut buf);
    buf
}

} // verus!
