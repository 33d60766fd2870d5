use zero2prod::routes::handle_request;
use zero2prod::routes::subscribe;
use zero2prod::FormData;

#[test]
fn subscribe_returns_200_with_empty_body() {
    let form = FormData {
        email: b"ursula_le_guin@gmail.com".to_vec(),
        name: b"le guin".to_vec(),
    };
    let resp = subscribe(form);
    assert_eq!(resp.status, 200);
    assert!(resp.body.is_empty());
}

#[test]
fn valid_form_returns_200() {
    let resp = handle_request(
        b"POST",
        b"/subscriptions",
        b"email=ursula_le_guin%40gmail.com&name=le%20guin",
    );
    assert_eq!(resp.status, 200);
    assert!(resp.body.is_empty());
}

#[test]
fn empty_field_values_still_return_200() {
    let resp = handle_request(b"POST", b"/subscriptions", b"email=&name=");
    assert_eq!(resp.status, 200);
    assert!(resp.body.is_empty());
}

#[test]
fn missing_email_returns_400() {
    let resp = handle_request(b"POST", b"/subscriptions", b"name=le%20guin");
    assert!((400..500).contains(&resp.status));
    assert_eq!(resp.status, 400);
}

#[test]
fn missing_name_returns_400() {
    let resp = handle_request(b"POST", b"/subscriptions", b"email=ursula_le_guin%40gmail.com");
    assert_eq!(resp.status, 400);
}

#[test]
fn empty_body_returns_400() {
    let resp = handle_request(b"POST", b"/subscriptions", b"");
    assert!((400..500).contains(&resp.status));
    assert_eq!(resp.status, 400);
}

#[test]
fn ill_encoded_body_returns_400() {
    let resp = handle_request(b"POST", b"/subscriptions", b"email=%G1&name=x");
    assert_eq!(resp.status, 400);
}

#[test]
fn get_on_subscriptions_is_neither_200_nor_400() {
    let resp = handle_request(b"GET", b"/subscriptions", b"");
    assert_ne!(resp.status, 200);
    assert_ne!(resp.status, 400);
    assert_eq!(resp.status, 405);
}

#[test]
fn unknown_path_returns_404() {
    let resp = handle_request(b"POST", b"/health_check", b"email=a&name=b");
    assert_eq!(resp.status, 404);
}

#[test]
fn unknown_path_and_method_returns_404() {
    let resp = handle_request(b"GET", b"/", b"");
    assert_eq!(resp.status, 404);
}

#[test]
fn valid_body_off_route_is_not_accepted() {
    let resp = handle_request(b"PUT", b"/subscriptions", b"email=a&name=b");
    assert_eq!(resp.status, 405);
}
