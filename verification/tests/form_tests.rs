use zero2prod::form::decode_component;
use zero2prod::form::parse_form_body;
use zero2prod::form::DecodeError;

#[test]
fn decodes_plain_bytes() {
    let out = decode_component(b"hello").unwrap();
    assert_eq!(out, b"hello".to_vec());
}

#[test]
fn decodes_plus_as_space() {
    let out = decode_component(b"le+guin").unwrap();
    assert_eq!(out, b"le guin".to_vec());
}

#[test]
fn decodes_percent_escapes() {
    let out = decode_component(b"a%20b%40c").unwrap();
    assert_eq!(out, b"a b@c".to_vec());
}

#[test]
fn decodes_lower_and_upper_hex() {
    assert_eq!(decode_component(b"%2b").unwrap(), b"+".to_vec());
    assert_eq!(decode_component(b"%2B").unwrap(), b"+".to_vec());
}

#[test]
fn rejects_bad_escape_digits() {
    assert!(decode_component(b"a%zzb").is_err());
}

#[test]
fn rejects_truncated_escape() {
    assert!(decode_component(b"abc%4").is_err());
    assert!(decode_component(b"abc%").is_err());
}

#[test]
fn empty_component_decodes_to_empty() {
    assert_eq!(decode_component(b"").unwrap(), Vec::<u8>::new());
}

#[test]
fn parses_both_fields() {
    let form = parse_form_body(b"email=ursula_le_guin%40gmail.com&name=le%20guin").unwrap();
    assert_eq!(form.email, b"ursula_le_guin@gmail.com".to_vec());
    assert_eq!(form.name, b"le guin".to_vec());
}

#[test]
fn parses_fields_in_either_order() {
    let form = parse_form_body(b"name=le+guin&email=ursula%40sea.org").unwrap();
    assert_eq!(form.email, b"ursula@sea.org".to_vec());
    assert_eq!(form.name, b"le guin".to_vec());
}

#[test]
fn accepts_empty_values() {
    let form = parse_form_body(b"email=&name=").unwrap();
    assert_eq!(form.email, Vec::<u8>::new());
    assert_eq!(form.name, Vec::<u8>::new());
}

#[test]
fn accepts_pairs_without_equals_sign() {
    let form = parse_form_body(b"email&name").unwrap();
    assert_eq!(form.email, Vec::<u8>::new());
    assert_eq!(form.name, Vec::<u8>::new());
}

#[test]
fn ignores_extra_keys() {
    let form = parse_form_body(b"colour=grey&email=a&name=b").unwrap();
    assert_eq!(form.email, b"a".to_vec());
    assert_eq!(form.name, b"b".to_vec());
}

#[test]
fn first_occurrence_of_a_key_wins() {
    let form = parse_form_body(b"email=first&email=second&name=n").unwrap();
    assert_eq!(form.email, b"first".to_vec());
}

#[test]
fn encoded_keys_are_recognised() {
    let form = parse_form_body(b"%65mail=a&nam%65=b").unwrap();
    assert_eq!(form.email, b"a".to_vec());
    assert_eq!(form.name, b"b".to_vec());
}

#[test]
fn missing_email_is_reported() {
    assert_eq!(
        parse_form_body(b"name=le%20guin").unwrap_err(),
        DecodeError::MissingEmail
    );
}

#[test]
fn missing_name_is_reported() {
    assert_eq!(
        parse_form_body(b"email=a%40b.c").unwrap_err(),
        DecodeError::MissingName
    );
}

#[test]
fn empty_body_is_missing_email() {
    assert_eq!(parse_form_body(b"").unwrap_err(), DecodeError::MissingEmail);
}

#[test]
fn bad_escape_is_invalid_encoding() {
    assert_eq!(
        parse_form_body(b"email=a%xyb&name=c").unwrap_err(),
        DecodeError::InvalidEncoding
    );
}

#[test]
fn bad_escape_in_unused_key_is_still_invalid() {
    assert_eq!(
        parse_form_body(b"junk=%G1&email=a&name=b").unwrap_err(),
        DecodeError::InvalidEncoding
    );
}

#[test]
fn invalid_encoding_takes_precedence_over_missing_keys() {
    assert_eq!(
        parse_form_body(b"junk=%%").unwrap_err(),
        DecodeError::InvalidEncoding
    );
}
