use many_exec::address::Address;
use many_exec::delegation::Certificate;
use many_exec::envelope::Envelope;
use many_exec::error::ErrorKind;
use many_exec::identity::{AcceptAllVerifier, AnonymousIdentity, Identity, KeyIdIdentity};

fn identity(seed: u8) -> KeyIdIdentity {
    let mut bytes = [seed; 32];
    bytes[0] = 1;
    KeyIdIdentity { address: Address { bytes } }
}

fn now() -> u64 {
    std::time::SystemTime::now().duration_since(std::time::UNIX_EPOCH).unwrap().as_secs()
}

#[test]
fn valid() {
    let id1 = identity(7);
    let id2 = identity(9);

    let now = now();
    let certificate = Certificate::new(id1.address(), vec![id2.address()], now + 1000);

    let envelope = certificate.sign(&id1).unwrap();
    let result = Certificate::decode_and_verify(&envelope, &AcceptAllVerifier, now, true);

    assert_eq!(result, Ok(certificate));
}

#[test]
fn valid_final() {
    let id1 = identity(7);
    let id2 = identity(9);

    let now = now();
    let mut certificate = Certificate::new(id1.address(), vec![id2.address()], now + 1000);
    certificate.finality = Some(true);

    let envelope = certificate.sign(&id1).unwrap();
    let result = Certificate::decode_and_verify(&envelope, &AcceptAllVerifier, now, true);

    assert_eq!(result, Ok(certificate));
}

#[test]
fn invalid_expiration() {
    let id1 = identity(7);
    let id2 = identity(9);

    let now = now();
    let certificate = Certificate::new(id1.address(), vec![id2.address()], now);

    let envelope = certificate.sign(&id1).unwrap();
    let result = Certificate::decode_and_verify(&envelope, &AcceptAllVerifier, now, true);

    assert!(result.is_err());
    assert_eq!(result.unwrap_err().kind, ErrorKind::CertificateExpired);
}

#[test]
fn invalid_from_sign() {
    let id1 = identity(7);
    let id2 = identity(9);

    let now = now();
    let certificate = Certificate::new(AnonymousIdentity.address(), vec![id2.address()], now);
    assert!(certificate.sign(&id1).is_err());
}

#[test]
fn invalid_from() {
    let id1 = identity(7);
    let id2 = identity(9);

    let now = now();
    let certificate = Certificate::new(AnonymousIdentity.address(), vec![id2.address()], now);

    // The envelope is signed by an identity other than `from`.
    let envelope = id1.sign_1(Envelope::with_payload(certificate.encode())).unwrap();

    let result = Certificate::decode_and_verify(&envelope, &AcceptAllVerifier, now, true);
    assert!(result.is_err());
    assert_eq!(result.unwrap_err().kind, ErrorKind::IdentityMismatch);
}

#[test]
fn invalid_final() {
    let id1 = identity(7);
    let id2 = identity(9);

    let now = now();
    let mut certificate = Certificate::new(AnonymousIdentity.address(), vec![id2.address()], now);
    certificate.finality = Some(true);

    // The envelope is signed by an identity other than `from`.
    let envelope = id1.sign_1(Envelope::with_payload(certificate.encode())).unwrap();

    let result = Certificate::decode_and_verify(&envelope, &AcceptAllVerifier, now, false);
    assert!(result.is_err());
}

#[test]
fn final_certificate_rejected_unless_last() {
    let id1 = identity(3);
    let id2 = identity(4);
    let certificate = Certificate::new(id1.address(), vec![id2.address()], 2000).with_final(true);
    let envelope = certificate.sign(&id1).unwrap();
    let not_last = Certificate::decode_and_verify(&envelope, &AcceptAllVerifier, 1000, false);
    assert_eq!(not_last.unwrap_err().kind, ErrorKind::CertificateFinalNotLast);
    let last = Certificate::decode_and_verify(&envelope, &AcceptAllVerifier, 1000, true);
    assert_eq!(last, Ok(certificate));
}

#[test]
fn expiration_is_strict() {
    let id1 = identity(3);
    let certificate = Certificate::new(id1.address(), vec![], 1000);
    let envelope = certificate.sign(&id1).unwrap();
    assert!(Certificate::decode_and_verify(&envelope, &AcceptAllVerifier, 1000, true).is_err());
    assert_eq!(Certificate::decode_and_verify(&envelope, &AcceptAllVerifier, 999, true), Ok(certificate));
}

#[test]
fn round_trip_with_every_field() {
    let id1 = identity(5);
    let certificate = Certificate::new(id1.address(), vec![identity(6).address(), identity(8).address()], 70000)
        .with_threshold(2)
        .with_final(true);
    let certificate = Certificate { memo: Some(vec![1, 2, 3]), ..certificate };
    let bytes = certificate.encode();
    assert_eq!(Certificate::decode(&bytes), Some(certificate));
}

#[test]
fn encoding_of_a_small_certificate() {
    let certificate = Certificate::new(Address { bytes: [0; 32] }, vec![], 5);
    let bytes = certificate.encode();
    // map(3), 0, tag(10000), bytes(32) ..., 1, array(0), 2, tag(1), 5
    assert_eq!(&bytes[..6], &[0xa3, 0x00, 0xd9, 0x27, 0x10, 0x58]);
    assert_eq!(bytes[6], 32);
    assert_eq!(&bytes[39..], &[0x01, 0x80, 0x02, 0xc1, 0x05]);
}

#[test]
fn truncated_payload_is_a_deserialization_error() {
    let id1 = identity(5);
    let certificate = Certificate::new(id1.address(), vec![], 5000);
    let mut bytes = certificate.encode();
    bytes.pop();
    let envelope = id1.sign_1(Envelope::with_payload(bytes)).unwrap();
    let result = Certificate::decode_and_verify(&envelope, &AcceptAllVerifier, 10, true);
    assert_eq!(result.unwrap_err().kind, ErrorKind::DeserializationError);
}

#[test]
fn empty_envelope_is_rejected() {
    let envelope = Envelope { key_id: vec![], payload: None, signature: vec![] };
    let result = Certificate::decode_and_verify(&envelope, &AcceptAllVerifier, 10, true);
    assert_eq!(result.unwrap_err().kind, ErrorKind::Unknown);
}

#[test]
fn chain_resolves_in_order() {
    let a = identity(1);
    let b = identity(2);
    let c = identity(3);
    let first = Certificate::new(a.address(), vec![b.address()], 5000);
    let second = Certificate::new(b.address(), vec![c.address()], 5000).with_final(true);
    let chain = vec![first.sign(&a).unwrap(), second.sign(&b).unwrap()];
    let resolved = many_exec::delegation::decode_chain(&chain, &AcceptAllVerifier, 100).unwrap();
    assert_eq!(resolved, vec![first, second]);
}

#[test]
fn chain_with_final_link_first_fails() {
    let a = identity(1);
    let b = identity(2);
    let first = Certificate::new(a.address(), vec![b.address()], 5000).with_final(true);
    let second = Certificate::new(b.address(), vec![a.address()], 5000);
    let chain = vec![first.sign(&a).unwrap(), second.sign(&b).unwrap()];
    let e = many_exec::delegation::decode_chain(&chain, &AcceptAllVerifier, 100).unwrap_err();
    assert_eq!(e.kind, ErrorKind::CertificateFinalNotLast);
}

#[test]
fn broken_chain_fails() {
    let a = identity(1);
    let b = identity(2);
    let c = identity(3);
    let first = Certificate::new(a.address(), vec![b.address()], 5000);
    let second = Certificate::new(c.address(), vec![a.address()], 5000);
    let chain = vec![first.sign(&a).unwrap(), second.sign(&c).unwrap()];
    let e = many_exec::delegation::decode_chain(&chain, &AcceptAllVerifier, 100).unwrap_err();
    assert_eq!(e.kind, ErrorKind::IdentityMismatch);
}

#[test]
fn threshold_rules() {
    let a = identity(1);
    let c = Certificate::new(a.address(), vec![], 10);
    assert_eq!(c.effective_threshold(), Some(1));
    let c = c.with_threshold(0);
    assert_eq!(c.effective_threshold(), None);
    let c = c.with_threshold(3);
    assert_eq!(c.effective_threshold(), Some(3));
}

#[test]
fn indefinite_length_map_decodes() {
    let certificate = Certificate::new(identity(4).address(), vec![identity(5).address()], 77).with_threshold(2);
    let mut bytes = certificate.encode();
    assert_eq!(bytes[0], 0xa4);
    bytes[0] = 0xbf;
    bytes.push(0xff);
    assert_eq!(Certificate::decode(&bytes), Some(certificate));
}

#[test]
fn entries_in_any_order_decode() {
    let from = Address { bytes: [6; 32] };
    let certificate = Certificate::new(from, vec![], 5).with_final(true);
    let bytes = certificate.encode();
    // map(4), then entries 0 (key and address, 38 bytes), 1, 2, 4 in that order.
    let address_entry = &bytes[1..39];
    let mut reordered = vec![0xa4, 0x04, 0xf5, 0x02, 0xc1, 0x05, 0x01, 0x80];
    reordered.extend_from_slice(address_entry);
    assert_eq!(Certificate::decode(&reordered), Some(certificate));
}

#[test]
fn missing_required_entry_fails() {
    // map(2) with only keys 1 and 2.
    let bytes = vec![0xa2, 0x01, 0x80, 0x02, 0xc1, 0x05];
    assert_eq!(Certificate::decode(&bytes), None);
    // An indefinite map without its break.
    assert_eq!(Certificate::decode(&[0xbf, 0x02, 0xc1, 0x05]), None);
}
