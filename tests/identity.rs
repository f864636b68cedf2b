use many_exec::address::Address;
use many_exec::envelope::Envelope;
use many_exec::error::ErrorKind;
use many_exec::identity::{AnonymousIdentity, AnonymousVerifier, ErrorVerifier, Identity, OneOfVerifier, Verifier};

fn envelope(key_id: Vec<u8>, signature: Vec<u8>) -> Envelope {
    Envelope { key_id, payload: Some(vec![1, 2, 3]), signature }
}

#[test]
fn anonymous_round_trip() {
    let signed = AnonymousIdentity.sign_1(envelope(vec![], vec![])).unwrap();
    assert_eq!(signed, envelope(vec![], vec![]));
    assert_eq!(AnonymousVerifier.verify_1(&signed), Ok(Address::anonymous()));
    assert!(AnonymousIdentity.public_key().is_none());
}

#[test]
fn anonymous_verifier_shapes() {
    assert_eq!(AnonymousVerifier.verify_1(&envelope(vec![0; 32], vec![])), Ok(Address::anonymous()));
    assert!(AnonymousVerifier.verify_1(&envelope(vec![0; 32], vec![1])).is_err());
    assert!(AnonymousVerifier.verify_1(&envelope(vec![], vec![1])).is_err());
    assert!(AnonymousVerifier.verify_1(&envelope(vec![1; 32], vec![])).is_err());
    let bad = AnonymousVerifier.verify_1(&envelope(vec![0; 3], vec![])).unwrap_err();
    assert_eq!(bad.kind, ErrorKind::DeserializationError);
}

#[test]
fn error_verifier_always_fails() {
    let e = ErrorVerifier.verify_1(&envelope(vec![], vec![])).unwrap_err();
    assert_eq!(e.kind, ErrorKind::CouldNotVerifySignature);
    assert_eq!(e.message, "No verifier");
}

#[test]
fn one_of_returns_first_success() {
    let v = OneOfVerifier { verifiers: vec![AnonymousVerifier, AnonymousVerifier] };
    assert_eq!(v.verify_1(&envelope(vec![], vec![])), Ok(Address::anonymous()));
}

#[test]
fn one_of_joins_member_messages() {
    let v = OneOfVerifier { verifiers: vec![ErrorVerifier, ErrorVerifier] };
    let e = v.verify_1(&envelope(vec![], vec![])).unwrap_err();
    assert_eq!(e.kind, ErrorKind::CouldNotVerifySignature);
    assert_eq!(e.message, "No verifier, No verifier");
    let anonymous = OneOfVerifier { verifiers: vec![AnonymousVerifier] };
    let e = anonymous.verify_1(&envelope(vec![], vec![9])).unwrap_err();
    assert_eq!(e.message, "Anonymous requires no signature.");
}

#[test]
fn one_of_with_no_members_fails() {
    let v: OneOfVerifier<AnonymousVerifier> = OneOfVerifier { verifiers: vec![] };
    let e = v.verify_1(&envelope(vec![], vec![])).unwrap_err();
    assert_eq!(e.kind, ErrorKind::CouldNotVerifySignature);
    assert_eq!(e.message, "");
}

#[test]
fn address_matching_ignores_subaddress() {
    let mut a = [4u8; 32];
    let b = Address { bytes: a };
    a[31] = 9;
    let c = Address { bytes: a };
    assert!(b.matches(&c));
    a[0] = 0;
    assert!(!b.matches(&Address { bytes: a }));
    assert!(Address::from_bytes(&[1, 2]).is_err());
    assert_eq!(Address::from_bytes(&[4u8; 32]).unwrap(), b);
    assert!(Address::anonymous().is_anonymous());
}

#[test]
fn boxed_identity_and_verifier_delegate() {
    let boxed = Box::new(AnonymousIdentity);
    assert_eq!(boxed.address(), Address::anonymous());
    let signed = boxed.sign_1(envelope(vec![], vec![])).unwrap();
    let verifier = Box::new(AnonymousVerifier);
    assert_eq!(verifier.verify_1(&signed), Ok(Address::anonymous()));
}

#[test]
fn boxed_identity_reports_inner_public_key() {
    let boxed = Box::new(AnonymousIdentity);
    assert_eq!(boxed.public_key(), AnonymousIdentity.public_key());
    assert_eq!(boxed.public_key(), None);
}
