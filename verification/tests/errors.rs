use sigcheck::error::{SigCheckError, SigCheckErrorKind};
use sigcheck::signature::Signature;

#[test]
fn errors_from_text_are_incorrect() {
    let expected = SigCheckError {
        message: "some trouble".to_string(),
        kind: SigCheckErrorKind::Incorrect,
    };
    assert_eq!(SigCheckError::from("some trouble"), expected);
    assert_eq!(SigCheckError::from("some trouble".to_string()), expected);
}

#[test]
fn marks_change_the_kind_and_keep_the_message() {
    let sig = Signature::new(1, 2);
    let error = || SigCheckError::from("some trouble");
    assert_eq!(error().ambiguous().kind, SigCheckErrorKind::Ambiguous);
    assert_eq!(error().loop_overreach().kind, SigCheckErrorKind::LoopOverreach);
    assert_eq!(
        error().loop_excess(sig, true).kind,
        SigCheckErrorKind::LoopExcess { sig, inf: true }
    );
    assert_eq!(
        error().loop_excess(sig, false).kind,
        SigCheckErrorKind::LoopExcess { sig, inf: false }
    );
    assert_eq!(error().ambiguous().message, "some trouble");
    assert_eq!(error().loop_overreach().message, "some trouble");
    assert_eq!(error().loop_excess(sig, true).message, "some trouble");
}

#[test]
fn the_text_of_an_error_is_its_message() {
    assert_eq!(SigCheckError::from("some trouble").ambiguous().text(), "some trouble");
}

#[test]
fn signature_text() {
    let mut text = String::new();
    Signature::new(12, 0).push_text(&mut text);
    assert_eq!(text, "|12.0");
}

#[test]
fn composed_signatures() {
    let compose = |f: (usize, usize), g: (usize, usize)| {
        let sig = Signature::new(f.0, f.1).compose(Signature::new(g.0, g.1));
        (sig.args, sig.outputs)
    };
    assert_eq!(compose((2, 1), (1, 1)), (2, 1));
    assert_eq!(compose((1, 1), (2, 3)), (2, 3));
    assert_eq!(compose((3, 1), (0, 1)), (2, 1));
    assert_eq!(compose((0, 2), (2, 0)), (2, 2));
}
