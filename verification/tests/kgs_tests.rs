use fulgurobot::kgs::{Client, Config};
use fulgurobot::protocol::{get_kgs_messages, get_kgs_messages_text, get_messages_map, JsonValue, KgsError};

fn s(x: &str) -> String {
    x.to_string()
}

fn obj(fields: Vec<(&str, JsonValue)>) -> JsonValue {
    JsonValue::Object(fields.into_iter().map(|(k, v)| (s(k), v)).collect())
}

#[test]
fn config_new_keeps_credentials() {
    let c = Config::new("theo", "super");
    assert_eq!(c.username, "theo");
    assert_eq!(c.password, "super");
}

#[test]
fn login_data_of_started_client() {
    let client = Client::start(s("FulguroBot"), s("correcthorsebatterystaple"));
    assert_eq!(client.login_data(), vec![
        (s("type"), s("LOGIN")),
        (s("name"), s("FulguroBot")),
        (s("password"), s("correcthorsebatterystaple")),
        (s("locale"), s("fr_FR")),
    ]);
}

#[test]
fn kgs_messages_of_answer() {
    let answer = obj(vec![
        ("other", JsonValue::Null),
        ("messages", JsonValue::Array(vec![JsonValue::Bool(true), JsonValue::Number(s("3"))])),
    ]);
    assert_eq!(get_kgs_messages(answer), Ok(vec![JsonValue::Bool(true), JsonValue::Number(s("3"))]));
}

#[test]
fn kgs_messages_parsing_errors() {
    assert_eq!(get_kgs_messages(JsonValue::Array(vec![])), Err(KgsError::ParsingError));
    assert_eq!(get_kgs_messages(obj(vec![("msgs", JsonValue::Array(vec![]))])), Err(KgsError::ParsingError));
    assert_eq!(get_kgs_messages(obj(vec![("messages", JsonValue::Str(s("x")))])), Err(KgsError::ParsingError));
}

#[test]
fn messages_map_by_type_later_wins() {
    let m1 = obj(vec![("type", JsonValue::Str(s("LOGIN_SUCCESS"))), ("n", JsonValue::Number(s("1")))]);
    let m2 = obj(vec![("type", JsonValue::Str(s("CHAT"))), ("text", JsonValue::Str(s("hi")))]);
    let m3 = obj(vec![("n", JsonValue::Number(s("2"))), ("type", JsonValue::Str(s("LOGIN_SUCCESS")))]);
    let map = get_messages_map(vec![m1, m2, m3]);
    let login = map.get(&s("LOGIN_SUCCESS")).unwrap();
    assert_eq!(login[0], (s("n"), JsonValue::Number(s("2"))));
    assert_eq!(map.get(&s("CHAT")).unwrap()[1], (s("text"), JsonValue::Str(s("hi"))));
    assert!(map.get(&s("LOGOUT")).is_none());
}

#[test]
fn kgs_messages_of_answer_text() {
    let text = r#"{"other": true, "messages": [{"type": "HELLO"}, 3, null]}"#;
    assert_eq!(
        get_kgs_messages_text(text),
        Ok(vec![obj(vec![("type", JsonValue::Str(s("HELLO")))]), JsonValue::Number(s("3")), JsonValue::Null])
    );
}

#[test]
fn kgs_messages_text_parsing_errors() {
    assert_eq!(get_kgs_messages_text("not json"), Err(KgsError::ParsingError));
    assert_eq!(get_kgs_messages_text(r#"{"messages": "x"}"#), Err(KgsError::ParsingError));
    assert_eq!(get_kgs_messages_text("[1, 2]"), Err(KgsError::ParsingError));
}
