use merlin::Transcript;
use shuffle::group::Point;
use shuffle::scalar::Scalar;
use shuffle::transcript::{label_bytes, ProofTranscript, CHALLENGE_BYTES};

#[test]
fn challenge_is_a_function_of_the_log() {
    let run = || {
        let mut t = ProofTranscript::new(b"determinism");
        t.append_message(b"first", b"one");
        t.append_scalar(b"second", &Scalar::from_u64(2));
        t.append_point(b"third", &Point::generator());
        let x = t.challenge_scalar(b"x");
        t.append_scalar(b"fourth", &x);
        (x, t.challenge_scalar(b"y"))
    };
    assert_eq!(run(), run());
}

#[test]
fn challenge_depends_on_order_labels_and_content() {
    let challenge_of = |steps: &[(&'static [u8], &[u8])], label: &'static [u8]| {
        let mut t = ProofTranscript::new(b"order");
        for (l, m) in steps {
            t.append_message(l, m);
        }
        t.challenge_scalar(label)
    };
    let base = challenge_of(&[(b"a", b"1"), (b"b", b"2")], b"x");
    assert_eq!(base, challenge_of(&[(b"a", b"1"), (b"b", b"2")], b"x"));
    assert_ne!(base, challenge_of(&[(b"b", b"2"), (b"a", b"1")], b"x"));
    assert_ne!(base, challenge_of(&[(b"a", b"1"), (b"b", b"3")], b"x"));
    assert_ne!(base, challenge_of(&[(b"a", b"1"), (b"c", b"2")], b"x"));
    assert_ne!(base, challenge_of(&[(b"a", b"1"), (b"b", b"2")], b"y"));
    assert_ne!(base, challenge_of(&[(b"a", b"1")], b"x"));
    let mut other = ProofTranscript::new(b"other");
    other.append_message(b"a", b"1");
    other.append_message(b"b", b"2");
    assert_ne!(base, other.challenge_scalar(b"x"));
}

#[test]
fn challenges_drawn_in_turn_differ() {
    let mut t = ProofTranscript::new(b"turns");
    let first = t.challenge_scalar(b"x");
    let second = t.challenge_scalar(b"x");
    assert_ne!(first, second);
    let mut u = ProofTranscript::new(b"turns");
    assert_eq!(u.challenge_scalar(b"x"), first);
    assert_eq!(u.challenge_scalar(b"x"), second);
}

#[test]
fn fork_continues_the_log_on_its_own() {
    let mut parent = ProofTranscript::new(b"fork");
    parent.append_message(b"shared", b"data");
    let mut child = parent.fork();
    child.append_message(b"child", b"only");
    let from_child = child.challenge_scalar(b"x");

    let mut same_as_parent = ProofTranscript::new(b"fork");
    same_as_parent.append_message(b"shared", b"data");
    let mut same_as_child = same_as_parent.fork();
    same_as_child.append_message(b"child", b"only");

    assert_eq!(parent.challenge_scalar(b"x"), same_as_parent.challenge_scalar(b"x"));
    assert_eq!(from_child, same_as_child.challenge_scalar(b"x"));
    assert_ne!(from_child, {
        let mut t = ProofTranscript::new(b"fork");
        t.append_message(b"shared", b"data");
        t.challenge_scalar(b"x")
    });
}

#[test]
fn challenge_is_the_reduced_output_of_the_underlying_transcript() {
    let p = Point::generator().mul(&Scalar::from_u64(42));
    let s = Scalar::from_u64(4242);

    let mut ours = ProofTranscript::new(b"reference");
    ours.append_message(b"raw", b"bytes");
    ours.append_point(b"point", &p);
    ours.append_scalar(b"scalar", &s);
    ours.append_points(b"points", &vec![Point::generator(), p]);
    let x = ours.challenge_scalar(b"x");
    let y = ours.challenge_scalar(b"y");

    let mut reference = Transcript::new(b"reference");
    reference.append_message(b"raw", b"bytes");
    reference.append_message(b"point", &p.to_bytes());
    reference.append_message(b"scalar", &s.to_le_bytes());
    reference.append_message(b"points", &Point::generator().to_bytes());
    reference.append_message(b"points", &p.to_bytes());
    let mut buf = [0u8; 64];
    reference.challenge_bytes(b"x", &mut buf);
    assert_eq!(x, Scalar::from_le_bytes_mod_order(&buf));
    reference.challenge_bytes(b"y", &mut buf);
    assert_eq!(y, Scalar::from_le_bytes_mod_order(&buf));
    assert_eq!(CHALLENGE_BYTES, 64);
}

#[test]
fn label_bytes_are_the_bytes_of_the_text() {
    assert_eq!(label_bytes("pi_commit"), b"pi_commit");
    assert_eq!(label_bytes(""), b"");
    let mut by_text = ProofTranscript::new(label_bytes("labels"));
    let mut by_bytes = ProofTranscript::new(b"labels");
    assert_eq!(
        by_text.challenge_scalar(label_bytes("x")),
        by_bytes.challenge_scalar(b"x")
    );
}

#[test]
fn transcripts_under_other_labels_differ() {
    let mut short = ProofTranscript::new(b"");
    let mut long = ProofTranscript::new(b"a label of some length, well within what fits 32 bits");
    let mut same = ProofTranscript::new(b"");
    let x = short.challenge_scalar(b"x");
    assert_ne!(x, long.challenge_scalar(b"x"));
    assert_eq!(x, same.challenge_scalar(b"x"));
    let mut reference = Transcript::new(b"");
    let mut buf = [0u8; 64];
    reference.challenge_bytes(b"x", &mut buf);
    assert_eq!(x, Scalar::from_le_bytes_mod_order(&buf));
}
