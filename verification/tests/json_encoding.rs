use script_sessions::response::{EvalResponse, Object, ObjectMember, ObjectTable, Reference, Value};

fn reference(name: &str) -> Reference {
    Reference(name.to_string())
}

fn pointer(name: &str) -> Value {
    Value::ObjectRef(reference(name))
}

#[test]
fn failure_as_json() {
    let input = EvalResponse::Failure { error: "uh oh".to_string() };
    assert_eq!(input.to_json().as_str(), r#"{"success":false,"error":"uh oh"}"#);
}

#[test]
fn null_as_json() {
    let input = EvalResponse::Success { objects: ObjectTable::new(), value: Value::Null };
    assert_eq!(input.to_json().as_str(), r#"{"success":true,"objects":{},"value":null}"#);
}

#[test]
fn empty_object_as_json() {
    let mut objects = ObjectTable::new();
    assert!(objects.insert(reference("01"), Object { members: vec![] }));
    let input = EvalResponse::Success { objects, value: pointer("01") };
    assert_eq!(
        input.to_json().as_str(),
        r#"{"success":true,"objects":{"01":{"members":[]}},"value":{"kind":"ref","value":"01"}}"#
    );
}

#[test]
fn mutually_recursive_objects_as_json() {
    let mut objects = ObjectTable::new();
    assert!(objects.insert(
        reference("y"),
        Object { members: vec![ObjectMember { key: pointer("x"), value: pointer("x") }] }
    ));
    assert!(objects.insert(
        reference("x"),
        Object { members: vec![ObjectMember { key: pointer("y"), value: pointer("y") }] }
    ));
    let input = EvalResponse::Success { objects, value: pointer("x") };
    assert_eq!(
        input.to_json().as_str(),
        r#"{"success":true,"objects":{"y":{"members":[{"key":{"kind":"ref","value":"x"},"value":{"kind":"ref","value":"x"}}]},"x":{"members":[{"key":{"kind":"ref","value":"y"},"value":{"kind":"ref","value":"y"}}]}},"value":{"kind":"ref","value":"x"}}"#
    );
}

#[test]
fn values_as_json() {
    assert_eq!(Value::Null.to_json(), "null");
    assert_eq!(Value::Number(1.0f64.to_bits()).to_json(), r#"{"kind":"number","value":1.0}"#);
    assert_eq!(Value::Number(1.1f64.to_bits()).to_json(), r#"{"kind":"number","value":1.1}"#);
    assert_eq!(Value::Number((-0.5f64).to_bits()).to_json(), r#"{"kind":"number","value":-0.5}"#);
    assert_eq!(
        Value::String("hello, world!".to_string()).to_json(),
        r#"{"kind":"string","value":"hello, world!"}"#
    );
    assert_eq!(
        Value::String("a\"b\\c\n".to_string()).to_json(),
        r#"{"kind":"string","value":"a\"b\\c\n"}"#
    );
    assert_eq!(pointer("table: 0x01").to_json(), r#"{"kind":"ref","value":"table: 0x01"}"#);
}

#[test]
fn members_as_json() {
    let member = ObjectMember { key: Value::String("foo".to_string()), value: Value::Null };
    assert_eq!(member.to_json(), r#"{"key":{"kind":"string","value":"foo"},"value":null}"#);
    let object = Object {
        members: vec![
            ObjectMember { key: Value::Null, value: Value::Null },
            ObjectMember { key: Value::Null, value: pointer("a") },
            ObjectMember { key: Value::Number(2.0f64.to_bits()), value: Value::Null },
        ],
    };
    assert_eq!(
        object.to_json(),
        r#"{"members":[{"key":null,"value":null},{"key":null,"value":{"kind":"ref","value":"a"}},{"key":{"kind":"number","value":2.0},"value":null}]}"#
    );
}

#[test]
fn json_text_parses_back() {
    let mut objects = ObjectTable::new();
    assert!(objects.insert(
        reference("a \"quoted\" name"),
        Object { members: vec![ObjectMember { key: Value::Null, value: pointer("a \"quoted\" name") }] }
    ));
    let input = EvalResponse::Success { objects, value: pointer("a \"quoted\" name") };
    let parsed: serde_json::Value = serde_json::from_str(input.to_json().as_str()).unwrap();
    assert_eq!(parsed["success"], serde_json::Value::Bool(true));
    assert_eq!(parsed["value"]["kind"], serde_json::Value::String("ref".to_string()));
    assert_eq!(
        parsed["objects"]["a \"quoted\" name"]["members"][0]["value"]["value"],
        serde_json::Value::String("a \"quoted\" name".to_string())
    );
}
