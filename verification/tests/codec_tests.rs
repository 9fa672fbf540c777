use user_service::codec::{decode_user, encode_user, encode_users};
use user_service::user::User;

fn user(id: Option<i32>, name: &str, email: &str) -> User {
    User { id, name: name.to_string(), email: email.to_string() }
}

#[test]
fn decode_plain_object() {
    let u = decode_user("{\"name\":\"Ana\",\"email\":\"ana@x.com\"}").unwrap();
    assert_eq!(u, user(None, "Ana", "ana@x.com"));
}

#[test]
fn decode_any_field_order() {
    let u = decode_user("{\"email\":\"b@x\",\"id\":7,\"name\":\"B\"}").unwrap();
    assert_eq!(u, user(Some(7), "B", "b@x"));
    let v = decode_user("{\"id\":7,\"email\":\"b@x\",\"name\":\"B\"}").unwrap();
    assert_eq!(u, v);
}

#[test]
fn decode_null_id_and_whitespace() {
    let u = decode_user(" {\u{20}\"id\" : null , \"name\" : \"A\", \"email\" : \"a@x\" }\r\n").unwrap();
    assert_eq!(u, user(None, "A", "a@x"));
}

#[test]
fn decode_escapes() {
    let u = decode_user("{\"name\":\"a\\\"b\\\\c\\n\",\"email\":\"e@x\"}").unwrap();
    assert_eq!(u.name, "a\"b\\c\n");
}

#[test]
fn decode_negative_id() {
    let u = decode_user("{\"id\":-12,\"name\":\"A\",\"email\":\"a@x\"}").unwrap();
    assert_eq!(u.id, Some(-12));
}

#[test]
fn decode_rejects_malformed() {
    assert_eq!(decode_user(""), None);
    assert_eq!(decode_user("not json"), None);
    assert_eq!(decode_user("{"), None);
    assert_eq!(decode_user("{}"), None);
    assert_eq!(decode_user("{\"name\":\"A\"}"), None);
    assert_eq!(decode_user("{\"name\":\"A\",\"email\":\"a@x\""), None);
    assert_eq!(decode_user("{\"name\":\"A\",\"email\":\"a@x\"} x"), None);
    assert_eq!(decode_user("{\"name\":\"A\",\"name\":\"B\",\"email\":\"a@x\"}"), None);
    assert_eq!(decode_user("{\"id\":01,\"name\":\"A\",\"email\":\"a@x\"}"), None);
    assert_eq!(decode_user("{\"id\":99999999999,\"name\":\"A\",\"email\":\"a@x\"}"), None);
    assert_eq!(decode_user("{\"name\":\"A\\q\",\"email\":\"a@x\"}"), None);
    // a raw control character inside a string literal is not JSON
    assert_eq!(decode_user("{\"name\":\"a\nb\",\"email\":\"a@x\"}"), None);
    assert_eq!(decode_user("{\"name\":\"a\u{1}b\",\"email\":\"a@x\"}"), None);
    // lone surrogates are not JSON text
    assert_eq!(decode_user("{\"name\":\"\\uD83D\",\"email\":\"a@x\"}"), None);
    assert_eq!(decode_user("{\"name\":\"\\uDE00x\",\"email\":\"a@x\"}"), None);
    assert_eq!(decode_user("{\"name\":\"\\uD83Dx\",\"email\":\"a@x\"}"), None);
}

#[test]
fn decode_ignores_unknown_members() {
    let u = decode_user(
        "{\"name\":\"A\",\"role\":\"admin\",\"email\":\"a@x\",\"meta\":{\"a\":[1,2.5e3,true,null],\"b\":{}},\"n\":-0.5}",
    )
    .unwrap();
    assert_eq!(u, user(None, "A", "a@x"));
    // an unknown member still has to be well-formed
    assert_eq!(decode_user("{\"name\":\"A\",\"email\":\"a@x\",\"meta\":{]}"), None);
    assert_eq!(decode_user("{\"name\":\"A\",\"email\":\"a@x\",\"n\":01}"), None);
}

#[test]
fn decode_hex_and_short_escapes() {
    let u = decode_user("{\"name\":\"N\\u006fo\\b\\f\",\"email\":\"\\u00e9@x\"}").unwrap();
    assert_eq!(u.name, "Noo\u{8}\u{c}");
    assert_eq!(u.email, "\u{e9}@x");
    let v = decode_user("{\"name\":\"\\uD83D\\uDE00\",\"email\":\"a@x\"}").unwrap();
    assert_eq!(v.name, "\u{1F600}");
}

#[test]
fn encode_is_canonical() {
    let s = encode_user(&user(Some(1), "Ana", "ana@x.com"));
    assert_eq!(s, "{\"id\":1,\"name\":\"Ana\",\"email\":\"ana@x.com\"}");
    let t = encode_user(&user(None, "Ana", "ana@x.com"));
    assert_eq!(t, "{\"id\":null,\"name\":\"Ana\",\"email\":\"ana@x.com\"}");
    let n = encode_user(&user(Some(-205), "N", "n@x"));
    assert_eq!(n, "{\"id\":-205,\"name\":\"N\",\"email\":\"n@x\"}");
}

#[test]
fn encode_escapes_quotes_and_backslashes() {
    let s = encode_user(&user(None, "a\"b\\c", "e@x"));
    assert_eq!(s, "{\"id\":null,\"name\":\"a\\\"b\\\\c\",\"email\":\"e@x\"}");
}

#[test]
fn round_trip_decode_of_encode() {
    let cases = vec![
        user(None, "", ""),
        user(Some(0), "zero", "z@x"),
        user(Some(2147483647), "max", "m@x"),
        user(Some(-2147483648), "min", "mi@x"),
        user(Some(9), "quote\" and back\\slash", "q@x"),
        user(Some(7), "ctrl\n\t\u{3}chars", "c@x"),
        user(None, "Ana", "ana@x.com"),
    ];
    for c in cases {
        let encoded = encode_user(&c);
        let back = decode_user(&encoded).unwrap();
        assert_eq!(back, c);
    }
}

#[test]
fn encode_list_shapes() {
    let empty: Vec<User> = Vec::new();
    assert_eq!(encode_users(&empty), "[]");
    let two = vec![user(Some(1), "A", "a@x"), user(Some(2), "B", "b@x")];
    assert_eq!(
        encode_users(&two),
        "[{\"id\":1,\"name\":\"A\",\"email\":\"a@x\"},{\"id\":2,\"name\":\"B\",\"email\":\"b@x\"}]"
    );
}

#[test]
fn encoded_output_agrees_with_a_reference_parser() {
    let s = encode_user(&user(Some(5), "a\"b\\c", "e@x.com"));
    let v: serde_json::Value = serde_json::from_str(&s).unwrap();
    assert_eq!(v.get("id").and_then(|x| x.as_i64()), Some(5));
    assert_eq!(v.get("name").and_then(|x| x.as_str()), Some("a\"b\\c"));
    assert_eq!(v.get("email").and_then(|x| x.as_str()), Some("e@x.com"));
}

#[test]
fn decode_agrees_with_a_reference_parser_on_escapes() {
    let raw = "{ \"id\": 3, \"name\": \"N\\u006fo\\n\", \"email\": \"e@x\" }";
    let ours = decode_user(raw).unwrap();
    let theirs: serde_json::Value = serde_json::from_str(raw).unwrap();
    assert_eq!(Some(ours.name.as_str()), theirs.get("name").and_then(|x| x.as_str()));
    // and both refuse a malformed hex escape and a raw control character
    let bad = "{\"name\":\"N\\u{6e}o\",\"email\":\"e@x\"}";
    assert_eq!(decode_user(bad), None);
    assert!(serde_json::from_str::<serde_json::Value>(bad).is_err());
    let ctrl = "{\"name\":\"a\tb\",\"email\":\"e@x\"}";
    assert_eq!(decode_user(ctrl), None);
    assert!(serde_json::from_str::<serde_json::Value>(ctrl).is_err());
}

#[test]
fn encode_escapes_control_characters() {
    let s = encode_user(&user(None, "a\nb\u{1}c", "e@x"));
    assert_eq!(s, "{\"id\":null,\"name\":\"a\\nb\\u0001c\",\"email\":\"e@x\"}");
    let t = encode_user(&user(None, "\u{8}\u{c}\r\t", "e@x"));
    assert_eq!(t, "{\"id\":null,\"name\":\"\\b\\f\\r\\t\",\"email\":\"e@x\"}");
    let v: serde_json::Value = serde_json::from_str(&s).unwrap();
    assert_eq!(v.get("name").and_then(|x| x.as_str()), Some("a\nb\u{1}c"));
}
