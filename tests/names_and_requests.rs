use rg_resolver::{
    encode_name, ClientRequest, DomainName, DomainNameError, Error, Field, Qname, QnameError, AA, QR,
};

#[test]
fn encode_name_simple() {
    let encoded = encode_name("google.com");

    let mut expected = Vec::new();
    expected.push(6);
    expected.extend_from_slice(b"google");
    expected.push(3);
    expected.extend_from_slice(b"com");
    expected.push(0);

    assert_eq!(encoded, expected);
}

#[test]
fn build_qr() {
    let query = QR::Query;
    assert_eq!(query.build(), 0);

    let response = QR::Response;
    assert_eq!(response.build(), 0x8000);
}

#[test]
fn lib_qname_too_long() {
    let name = "abcdefghij".repeat(30);
    let qname = Qname::new(name);
    assert!(qname.is_err() && matches!(qname, Err(QnameError::NameTooLong)))
}

#[test]
fn lib_qname_not_ascii() {
    let mut name = String::from("test");
    name.push(char::from_u32(0x99).unwrap());
    name.push_str(".google.com");
    let qname = Qname::new(name);
    assert!(qname.is_err() && matches!(qname, Err(QnameError::NotAscii)))
}

#[test]
fn lib_qname_label_too_long() {
    let bad_label = "abcdefghij".repeat(7);
    let name = format!("test.{}.google.com", bad_label);
    let qname = Qname::new(name);
    assert!(
        qname.is_err()
            && match qname {
                Err(QnameError::LabelTooLong(label)) => label == bad_label,
                _ => false,
            }
    )
}

// Checks beyond those carried over.

#[test]
fn qname_accepts_plain_name() {
    assert!(Qname::new("www.example.com".to_string()).is_ok());
}

#[test]
fn domain_name_too_long() {
    let name = "abcdefghij".repeat(30);
    assert!(matches!(DomainName::new(name), Err(DomainNameError::NameTooLong)));
}

#[test]
fn domain_name_label_not_ascii() {
    let mut name = String::from("test");
    name.push(char::from_u32(0x99).unwrap());
    name.push_str(".google.com");
    let expected = format!("test{}", char::from_u32(0x99).unwrap());
    match DomainName::new(name) {
        Err(DomainNameError::LabelNotAscii(label)) => assert_eq!(label, expected),
        other => panic!("unexpected {:?}", other),
    }
}

#[test]
fn domain_name_label_too_long() {
    let bad_label = "abcdefghij".repeat(7);
    let name = format!("test.{}.google.com", bad_label);
    match DomainName::new(name) {
        Err(DomainNameError::LabelTooLong(label)) => assert_eq!(label, bad_label),
        other => panic!("unexpected {:?}", other),
    }
}

#[test]
fn domain_name_missing_labels() {
    assert_eq!(DomainName::new(".com".to_string()).unwrap_err(), DomainNameError::FirstLabelMissing);
    assert_eq!(DomainName::new("a..com".to_string()).unwrap_err(), DomainNameError::InteriorLabelMissing);
}

#[test]
fn domain_name_absolute_or_not() {
    assert!(DomainName::new("google.com.".to_string()).unwrap().is_absolute());
    assert!(!DomainName::new("google.com".to_string()).unwrap().is_absolute());
}

#[test]
fn authoritative_flag() {
    assert_eq!(AA::Authoritative.build(), 0x0400);
    assert_eq!(AA::NonAuthoritative.build(), 0);
    assert_eq!(AA::parse(0x0400), AA::Authoritative);
    assert_eq!(AA::parse(0x8000), AA::NonAuthoritative);
    assert_eq!(QR::parse(0x8000), QR::Response);
    assert_eq!(QR::parse(0x7fff), QR::Query);
}

#[test]
fn client_request_decode() {
    let r = ClientRequest::decode(&[9, b'e', b'x', b'.', b'c', b'o', b'm']).unwrap();
    assert_eq!(r.id(), 9);
    assert_eq!(r.name(), "ex.com");
    assert_eq!(ClientRequest::decode(&[]), Err(Error::Incomplete(Field::Id)));
    assert_eq!(ClientRequest::decode(&[1, 0xff]), Err(Error::StringNotUtf8));
    let made = ClientRequest::new(3, "a.b".to_string());
    assert_eq!(made.id(), 3);
    assert_eq!(made.name(), "a.b");
}

#[test]
fn domain_name_trims_labels() {
    assert!(DomainName::new("a .b".to_string()).is_ok());
    assert!(DomainName::new("a. ".to_string()).unwrap().is_absolute());
    assert!(DomainName::new(" a . b .".to_string()).unwrap().is_absolute());
    assert_eq!(DomainName::new(" .com".to_string()).unwrap_err(), DomainNameError::FirstLabelMissing);
    assert_eq!(DomainName::new("a. .b".to_string()).unwrap_err(), DomainNameError::InteriorLabelMissing);
    let bad_label = "abcdefghij".repeat(7);
    let name = format!("test.\t{} .com", bad_label);
    assert_eq!(DomainName::new(name).unwrap_err(), DomainNameError::LabelTooLong(bad_label));
    // A label of 63 letters with blanks around it fits once trimmed.
    let name = format!(" {} .com", "x".repeat(63));
    assert!(DomainName::new(name).is_ok());
    // Unicode whitespace is trimmed too.
    assert!(DomainName::new("a\u{3000}.b".to_string()).is_ok());
}
