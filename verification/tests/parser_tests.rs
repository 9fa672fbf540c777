use user_service::parser::{
    get_id_from_request, parse_user_body, route_request, ParseError, Route,
};

#[test]
fn route_get_one_with_id() {
    let r = route_request("GET /users/42 HTTP/1.1\r\nHost: x\r\n\r\n");
    assert_eq!(r, Route::ReadOne);
}

#[test]
fn route_get_all() {
    let r = route_request("GET /users HTTP/1.1\r\nHost: x\r\n\r\n");
    assert_eq!(r, Route::ReadAll);
}

#[test]
fn route_post_put_delete() {
    assert_eq!(route_request("POST /users HTTP/1.1\r\n\r\n"), Route::Create);
    assert_eq!(route_request("PUT /users/3 HTTP/1.1\r\n\r\n"), Route::Update);
    assert_eq!(route_request("DELETE /users/3 HTTP/1.1\r\n\r\n"), Route::Delete);
}

#[test]
fn route_unmatched() {
    assert_eq!(route_request("PATCH /users/3 HTTP/1.1\r\n\r\n"), Route::NoRoute);
    assert_eq!(route_request("GET /items HTTP/1.1\r\n\r\n"), Route::NoRoute);
    assert_eq!(route_request(""), Route::NoRoute);
}

#[test]
fn id_from_numeric_path() {
    let r = get_id_from_request("GET /users/42 HTTP/1.1\r\nHost: x\r\n\r\n");
    assert_eq!(r, Ok(42));
}

#[test]
fn id_non_numeric_is_an_error_not_zero() {
    let r = get_id_from_request("GET /users/abc HTTP/1.1\r\n\r\n");
    assert_eq!(r, Err(ParseError::InvalidId));
}

#[test]
fn id_missing_segment_is_an_error() {
    let r = get_id_from_request("PUT /users HTTP/1.1\r\n\r\n");
    assert_eq!(r, Err(ParseError::InvalidId));
    let r2 = get_id_from_request("DELETE /users/ HTTP/1.1\r\n\r\n");
    assert_eq!(r2, Err(ParseError::InvalidId));
}

#[test]
fn id_short_request_line_is_an_error() {
    let r = get_id_from_request("GETONLY\r\n\r\n");
    assert_eq!(r, Err(ParseError::InvalidId));
    assert_eq!(get_id_from_request(""), Err(ParseError::InvalidId));
}

#[test]
fn id_negative_and_overflow() {
    assert_eq!(get_id_from_request("GET /users/-7 HTTP/1.1\r\n\r\n"), Ok(-7));
    assert_eq!(
        get_id_from_request("GET /users/99999999999 HTTP/1.1\r\n\r\n"),
        Err(ParseError::InvalidId)
    );
    assert_eq!(get_id_from_request("GET /users/2147483647 HTTP/1.1\r\n\r\n"), Ok(2147483647));
    assert_eq!(
        get_id_from_request("GET /users/2147483648 HTTP/1.1\r\n\r\n"),
        Err(ParseError::InvalidId)
    );
}

#[test]
fn body_after_blank_line_decodes() {
    let req = "POST /users HTTP/1.1\r\nContent-Type: application/json\r\n\r\n{\"name\":\"Ana\",\"email\":\"ana@x.com\"}";
    let u = parse_user_body(req).unwrap();
    assert_eq!(u.id, None);
    assert_eq!(u.name, "Ana");
    assert_eq!(u.email, "ana@x.com");
}

#[test]
fn missing_body_is_invalid() {
    let r = parse_user_body("POST /users HTTP/1.1\r\nHost: x");
    assert_eq!(r, Err(ParseError::InvalidBody));
}

#[test]
fn body_runs_to_the_end_of_the_request() {
    // a second blank line does not cut the body off: the trailing text
    // makes the body malformed
    let req = "POST /users HTTP/1.1\r\n\r\n{\"name\":\"A\",\"email\":\"a@x\"}\r\n\r\njunk";
    assert_eq!(parse_user_body(req), Err(ParseError::InvalidBody));
}
