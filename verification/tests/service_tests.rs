use user_service::handler::{handle_request, render_response, Status};
use user_service::store::{setup, UserStore};

fn post(body: &str) -> String {
    format!("POST /users HTTP/1.1\r\nContent-Type: application/json\r\n\r\n{}", body)
}

#[test]
fn create_then_read_all_shows_the_record() {
    let mut store: UserStore = setup();
    let r1 = handle_request(&mut store, &post("{\"name\":\"Ana\",\"email\":\"ana@x.com\"}"));
    assert_eq!(r1.status, Status::Success);
    assert_eq!(r1.body, "User created");
    let r2 = handle_request(&mut store, "GET /users HTTP/1.1\r\n\r\n");
    assert_eq!(r2.status, Status::Success);
    assert_eq!(r2.body, "[{\"id\":1,\"name\":\"Ana\",\"email\":\"ana@x.com\"}]");
}

#[test]
fn delete_of_a_missing_id_is_not_found() {
    let mut store: UserStore = setup();
    let r = handle_request(&mut store, "DELETE /users/999 HTTP/1.1\r\n\r\n");
    assert_eq!(r.status, Status::NotFound);
    assert_eq!(r.body, "User not found");
}

#[test]
fn missing_ids_answer_not_found_never_server_error() {
    let mut store: UserStore = setup();
    let g = handle_request(&mut store, "GET /users/5 HTTP/1.1\r\n\r\n");
    assert_eq!(g.status, Status::NotFound);
    let p = handle_request(
        &mut store,
        "PUT /users/5 HTTP/1.1\r\n\r\n{\"name\":\"A\",\"email\":\"a@x\"}",
    );
    assert_eq!(p.status, Status::NotFound);
    let d = handle_request(&mut store, "DELETE /users/5 HTTP/1.1\r\n\r\n");
    assert_eq!(d.status, Status::NotFound);
}

#[test]
fn malformed_body_is_server_error_and_mutates_nothing() {
    let mut store: UserStore = setup();
    let r = handle_request(&mut store, &post("{\"name\":\"Ana\""));
    assert_eq!(r.status, Status::ServerError);
    assert_eq!(r.body, "Failed to parse or connect");
    let all = handle_request(&mut store, "GET /users HTTP/1.1\r\n\r\n");
    assert_eq!(all.body, "[]");
    // same for update against an existing record
    handle_request(&mut store, &post("{\"name\":\"Ana\",\"email\":\"ana@x.com\"}"));
    let u = handle_request(&mut store, "PUT /users/1 HTTP/1.1\r\n\r\nnot json");
    assert_eq!(u.status, Status::ServerError);
    let one = handle_request(&mut store, "GET /users/1 HTTP/1.1\r\n\r\n");
    assert_eq!(one.body, "{\"id\":1,\"name\":\"Ana\",\"email\":\"ana@x.com\"}");
}

#[test]
fn duplicate_email_insert_fails() {
    let mut store: UserStore = setup();
    handle_request(&mut store, &post("{\"name\":\"Ana\",\"email\":\"ana@x.com\"}"));
    let r = handle_request(&mut store, &post("{\"name\":\"Other\",\"email\":\"ana@x.com\"}"));
    assert_eq!(r.status, Status::ServerError);
    assert_eq!(r.body, "Failed to insert user");
    let all = handle_request(&mut store, "GET /users HTTP/1.1\r\n\r\n");
    assert_eq!(all.body, "[{\"id\":1,\"name\":\"Ana\",\"email\":\"ana@x.com\"}]");
}

#[test]
fn update_overwrites_both_fields() {
    let mut store: UserStore = setup();
    handle_request(&mut store, &post("{\"name\":\"Ana\",\"email\":\"ana@x.com\"}"));
    let r = handle_request(
        &mut store,
        "PUT /users/1 HTTP/1.1\r\n\r\n{\"name\":\"Anna\",\"email\":\"anna@x.com\"}",
    );
    assert_eq!(r.status, Status::Success);
    assert_eq!(r.body, "User updated");
    let one = handle_request(&mut store, "GET /users/1 HTTP/1.1\r\n\r\n");
    assert_eq!(one.body, "{\"id\":1,\"name\":\"Anna\",\"email\":\"anna@x.com\"}");
}

#[test]
fn update_to_anothers_email_is_refused() {
    let mut store: UserStore = setup();
    handle_request(&mut store, &post("{\"name\":\"A\",\"email\":\"a@x\"}"));
    handle_request(&mut store, &post("{\"name\":\"B\",\"email\":\"b@x\"}"));
    let r = handle_request(
        &mut store,
        "PUT /users/2 HTTP/1.1\r\n\r\n{\"name\":\"B\",\"email\":\"a@x\"}",
    );
    assert_eq!(r.status, Status::ServerError);
    assert_eq!(r.body, "Failed to update");
}

#[test]
fn delete_removes_the_record() {
    let mut store: UserStore = setup();
    handle_request(&mut store, &post("{\"name\":\"A\",\"email\":\"a@x\"}"));
    handle_request(&mut store, &post("{\"name\":\"B\",\"email\":\"b@x\"}"));
    let r = handle_request(&mut store, "DELETE /users/1 HTTP/1.1\r\n\r\n");
    assert_eq!(r.status, Status::Success);
    assert_eq!(r.body, "User deleted");
    let all = handle_request(&mut store, "GET /users HTTP/1.1\r\n\r\n");
    assert_eq!(all.body, "[{\"id\":2,\"name\":\"B\",\"email\":\"b@x\"}]");
    let again = handle_request(&mut store, "DELETE /users/1 HTTP/1.1\r\n\r\n");
    assert_eq!(again.status, Status::NotFound);
}

#[test]
fn bad_id_segments_are_server_errors() {
    let mut store: UserStore = setup();
    let g = handle_request(&mut store, "GET /users/abc HTTP/1.1\r\n\r\n");
    assert_eq!(g.status, Status::ServerError);
    assert_eq!(g.body, "Error fetching user");
    let d = handle_request(&mut store, "DELETE /users/abc HTTP/1.1\r\n\r\n");
    assert_eq!(d.status, Status::ServerError);
    assert_eq!(d.body, "Invalid input or connection error");
}

#[test]
fn unmatched_route_is_not_found() {
    let mut store: UserStore = setup();
    let r = handle_request(&mut store, "PATCH /users/1 HTTP/1.1\r\n\r\n");
    assert_eq!(r.status, Status::NotFound);
    assert_eq!(r.body, "Route not found");
}

#[test]
fn rendered_responses_carry_the_status_line() {
    let mut store: UserStore = setup();
    let ok = handle_request(&mut store, &post("{\"name\":\"A\",\"email\":\"a@x\"}"));
    assert_eq!(
        render_response(&ok),
        "HTTP/1.1 200 OK\r\nContent-Type: application/json\r\n\r\nUser created"
    );
    let nf = handle_request(&mut store, "GET /users/9 HTTP/1.1\r\n\r\n");
    assert_eq!(render_response(&nf), "HTTP/1.1 404 NOT FOUND\r\n\r\nUser not found");
    let err = handle_request(&mut store, &post("bad"));
    assert_eq!(
        render_response(&err),
        "HTTP/1.1 500 INTERNAL SERVER ERROR\r\n\r\nFailed to parse or connect"
    );
}

#[test]
fn serial_ids_grow_from_one() {
    let mut store: UserStore = setup();
    handle_request(&mut store, &post("{\"name\":\"A\",\"email\":\"a@x\"}"));
    handle_request(&mut store, &post("{\"name\":\"B\",\"email\":\"b@x\"}"));
    handle_request(&mut store, "DELETE /users/1 HTTP/1.1\r\n\r\n");
    handle_request(&mut store, &post("{\"name\":\"C\",\"email\":\"c@x\"}"));
    let all = handle_request(&mut store, "GET /users HTTP/1.1\r\n\r\n");
    assert_eq!(
        all.body,
        "[{\"id\":2,\"name\":\"B\",\"email\":\"b@x\"},{\"id\":3,\"name\":\"C\",\"email\":\"c@x\"}]"
    );
}

#[test]
fn store_operations_directly() {
    let mut store: UserStore = setup();
    let a = store.insert_user("A".to_string(), "a@x".to_string()).unwrap();
    let b = store.insert_user("B".to_string(), "b@x".to_string()).unwrap();
    assert_eq!((a, b), (1, 2));
    assert!(store.insert_user("C".to_string(), "a@x".to_string()).is_err());
    let found = store.find_user(2).unwrap();
    assert_eq!(found.name, "B");
    assert_eq!(store.update_user(9, "X".to_string(), "x@x".to_string()).unwrap(), 0);
    assert_eq!(store.delete_user(9), 0);
    assert_eq!(store.delete_user(1), 1);
    assert_eq!(store.all_users().len(), 1);
}
