use script_sessions::lua::{runtime_value, LuaKind};
use script_sessions::response::{EvalResponse, Object, ObjectMember, ObjectTable, Reference, Value};
use script_sessions::lua::answer;
use script_sessions::session::{SessionLang, SessionRuntimeMap, SessionStore};
use script_sessions::walk::RuntimeValue;

fn eval(lua: &rlua::Lua, code: &str) -> EvalResponse {
    lua.context(|ctx| answer(ctx, ctx.load(code).eval::<rlua::Value>()))
}

fn parts(response: EvalResponse) -> (ObjectTable, Value) {
    match response {
        EvalResponse::Success { objects, value } => (objects, value),
        EvalResponse::Failure { error } => panic!("failure: {error}"),
    }
}

fn error_of(response: EvalResponse) -> String {
    match response {
        EvalResponse::Failure { error } => error,
        EvalResponse::Success { .. } => panic!("not a failure"),
    }
}

fn name_of(value: &Value) -> Reference {
    match value {
        Value::ObjectRef(r) => r.clone(),
        other => panic!("not a reference: {other:?}"),
    }
}

#[test]
fn lua_nil() {
    let (objects, value) = parts(eval(&rlua::Lua::new(), "nil"));
    assert_eq!(objects.len(), 0);
    assert_eq!(value, Value::Null);
}

#[test]
fn lua_integer_becomes_a_double() {
    let (objects, value) = parts(eval(&rlua::Lua::new(), "1"));
    assert_eq!(objects.len(), 0);
    assert_eq!(value, Value::Number(1.0f64.to_bits()));
}

#[test]
fn lua_float() {
    let (objects, value) = parts(eval(&rlua::Lua::new(), "1.1"));
    assert_eq!(objects.len(), 0);
    assert_eq!(value, Value::Number(1.1f64.to_bits()));
}

#[test]
fn lua_string() {
    let (objects, value) = parts(eval(&rlua::Lua::new(), r#""hello, world!""#));
    assert_eq!(objects.len(), 0);
    assert_eq!(value, Value::String("hello, world!".to_string()));
}

#[test]
fn lua_empty_table() {
    let lua = rlua::Lua::new();
    let (objects, value) = parts(eval(&lua, "x = {}; return x"));
    let name = name_of(&value);
    assert!(name.0.starts_with("table: "));
    assert_eq!(objects.len(), 1);
    assert_eq!(objects.get(&name), Some(&Object { members: vec![] }));
    let (_, again) = parts(eval(&lua, "return x"));
    assert_eq!(name_of(&again), name);
}

#[test]
fn lua_table_with_a_member() {
    let (objects, value) = parts(eval(&rlua::Lua::new(), "return {foo = 2}"));
    let expected = Object {
        members: vec![ObjectMember {
            key: Value::String("foo".to_string()),
            value: Value::Number(2.0f64.to_bits()),
        }],
    };
    assert_eq!(objects.len(), 1);
    assert_eq!(objects.get(&name_of(&value)), Some(&expected));
}

#[test]
fn lua_sequence_keeps_its_order() {
    let (objects, value) = parts(eval(&rlua::Lua::new(), r#"return {"a", "b", "c"}"#));
    let object = objects.get(&name_of(&value)).unwrap();
    let expected: Vec<ObjectMember> = ["a", "b", "c"]
        .iter()
        .enumerate()
        .map(|(i, s)| ObjectMember {
            key: Value::Number(((i + 1) as f64).to_bits()),
            value: Value::String(s.to_string()),
        })
        .collect();
    assert_eq!(object.members, expected);
}

#[test]
fn lua_siblings_that_point_at_each_other() {
    let code = "x = {}; y = {}; x.y = y; y.x = x; return x";
    let (objects, value) = parts(eval(&rlua::Lua::new(), code));
    assert_eq!(objects.len(), 2);
    let x = name_of(&value);
    let of_x = objects.get(&x).unwrap();
    assert_eq!(of_x.members.len(), 1);
    assert_eq!(of_x.members[0].key, Value::String("y".to_string()));
    let y = name_of(&of_x.members[0].value);
    assert!(!x.same(&y));
    let of_y = objects.get(&y).unwrap();
    assert_eq!(
        of_y.members,
        vec![ObjectMember { key: Value::String("x".to_string()), value: Value::ObjectRef(x) }]
    );
}

#[test]
fn lua_table_that_holds_itself() {
    let (objects, value) = parts(eval(&rlua::Lua::new(), "x = {}; x.me = x; x[x] = x; return x"));
    assert_eq!(objects.len(), 1);
    let x = name_of(&value);
    let object = objects.get(&x).unwrap();
    assert_eq!(object.members.len(), 2);
    for member in &object.members {
        assert_eq!(member.value, Value::ObjectRef(x.clone()));
    }
}

#[test]
fn lua_shared_table_is_emitted_once() {
    let code = "s = {}; return {s, s, s, {s}}";
    let (objects, _) = parts(eval(&rlua::Lua::new(), code));
    assert_eq!(objects.len(), 3);
}

#[test]
fn lua_value_without_a_wire_form_fails() {
    let error = error_of(eval(&rlua::Lua::new(), "return print"));
    assert_eq!(error, "value of an unsupported kind");
    let nested = error_of(eval(&rlua::Lua::new(), "return {1, true}"));
    assert_eq!(nested, "value of an unsupported kind");
}

#[test]
fn lua_code_that_does_not_evaluate() {
    let error = error_of(eval(&rlua::Lua::new(), "return +"));
    assert!(error.starts_with("failed to evaluate code: "));
    assert!(error.len() > "failed to evaluate code: ".len());
}

#[test]
fn kinds_become_runtime_values() {
    assert!(matches!(runtime_value(LuaKind::Nil, String::new()), Some(RuntimeValue::Null)));
    assert!(matches!(
        runtime_value(LuaKind::Integer(3), String::new()),
        Some(RuntimeValue::Number(bits)) if bits == 3.0f64.to_bits()
    ));
    assert!(matches!(
        runtime_value(LuaKind::Integer(-1), String::new()),
        Some(RuntimeValue::Number(bits)) if bits == (-1.0f64).to_bits()
    ));
    assert!(matches!(
        runtime_value(LuaKind::Number(0.5f64.to_bits()), String::new()),
        Some(RuntimeValue::Number(bits)) if bits == 0.5f64.to_bits()
    ));
    assert!(runtime_value(LuaKind::Other, String::new()).is_none());
}

#[test]
fn value_is_serialized_in_its_context() {
    let lua = rlua::Lua::new();
    let response = lua.context(|ctx| {
        let table = ctx.create_table().unwrap();
        table.set(1, "one").unwrap();
        EvalResponse::from_lua(ctx, rlua::Value::Table(table))
    });
    let (objects, value) = parts(response);
    let expected = Object {
        members: vec![ObjectMember {
            key: Value::Number(1.0f64.to_bits()),
            value: Value::String("one".to_string()),
        }],
    };
    assert_eq!(objects.get(&name_of(&value)), Some(&expected));
}

#[test]
fn adapter_keeps_globals() {
    let adapter = SessionLang::create("lua").unwrap();
    assert_eq!(adapter.name(), "lua");
    let (_, defined) = parts(adapter.evaluate("answer = 42"));
    assert_eq!(defined, Value::Null);
    let (_, read) = parts(adapter.evaluate("return answer + 1"));
    assert_eq!(read, Value::Number(43.0f64.to_bits()));
    let error = error_of(adapter.evaluate("error('boom')"));
    assert!(error.starts_with("failed to evaluate code: "));
    assert!(error.contains("boom"));
    let (_, still) = parts(adapter.evaluate("return answer"));
    assert_eq!(still, Value::Number(42.0f64.to_bits()));
}

#[test]
fn globals_persist_within_a_session() {
    let mut store: SessionStore<SessionRuntimeMap> = SessionStore::new();
    let mut map = SessionRuntimeMap::new();
    assert_eq!(map.len(), 0);
    let (_, defined) = parts(map.evaluate("lua", "answer = 42"));
    assert_eq!(defined, Value::Null);
    assert_eq!(map.len(), 1);
    let (_, read) = parts(map.evaluate("lua", "return answer"));
    assert_eq!(read, Value::Number(42.0f64.to_bits()));
    assert_eq!(map.len(), 1);
    assert!(store.register("a".to_string(), map));
    let found = store.get("a").unwrap();
    let (_, later) = parts(found.adapter(0).unwrap().evaluate("return answer"));
    assert_eq!(later, Value::Number(42.0f64.to_bits()));
}

#[test]
fn globals_do_not_cross_sessions() {
    let mut first = SessionRuntimeMap::new();
    let mut second = SessionRuntimeMap::new();
    parts(first.evaluate("lua", "answer = 42"));
    let (_, in_second) = parts(second.evaluate("lua", "return answer"));
    assert_eq!(in_second, Value::Null);
    let (_, in_first) = parts(first.evaluate("lua", "return answer"));
    assert_eq!(in_first, Value::Number(42.0f64.to_bits()));
}

#[test]
fn unsupported_language_creates_no_adapter() {
    let mut map = SessionRuntimeMap::new();
    let error = error_of(map.evaluate("python", "print(1)"));
    assert_eq!(error, "language `python` not supported");
    assert_eq!(map.len(), 0);
    match map.get_or_create("python") {
        Err(response) => assert_eq!(error_of(response), "language `python` not supported"),
        Ok(_) => panic!("python has no adapter"),
    }
    assert_eq!(map.len(), 0);
    assert!(map.slot_of("python").is_none());
    assert!(map.slot_of("lua").is_none());
}

#[test]
fn adapter_is_created_once_and_reused() {
    let mut map = SessionRuntimeMap::new();
    assert!(matches!(map.get_or_create("lua"), Ok(0)));
    assert!(matches!(map.get_or_create("lua"), Ok(0)));
    assert_eq!(map.len(), 1);
    assert_eq!(map.slot_of("lua"), Some(0));
    assert!(map.adapter(0).is_some());
    assert!(map.adapter(1).is_none());
}

#[test]
fn evaluation_as_json() {
    let mut map = SessionRuntimeMap::new();
    assert_eq!(
        map.evaluate("lua", "return 1.5").to_json(),
        r#"{"success":true,"objects":{},"value":{"kind":"number","value":1.5}}"#
    );
    assert_eq!(
        map.evaluate("ruby", "1").to_json(),
        r#"{"success":false,"error":"language `ruby` not supported"}"#
    );
}

#[test]
fn lua_deep_chain_is_walked_without_recursion() {
    let code = "local root = {}; local t = root; for i = 1, 2000 do t.next = {}; t = t.next end; return root";
    let (objects, value) = parts(eval(&rlua::Lua::new(), code));
    assert_eq!(objects.len(), 2001);
    assert!(objects.contains(&name_of(&value)));
}

#[test]
fn lua_unreachable_tables_are_not_emitted() {
    let code = "orphan = {}; x = {1}; orphan.x = x; return x";
    let (objects, value) = parts(eval(&rlua::Lua::new(), code));
    assert_eq!(objects.len(), 1);
    assert_eq!(objects.entry(0).0, &name_of(&value));
}

#[test]
fn lua_table_without_pairs_has_no_members() {
    let lua = rlua::Lua::new();
    let response = lua.context(|ctx| {
        let table = ctx.create_table().unwrap();
        EvalResponse::from_lua(ctx, rlua::Value::Table(table))
    });
    let (objects, value) = parts(response);
    assert_eq!(objects.len(), 1);
    assert_eq!(objects.get(&name_of(&value)), Some(&Object { members: vec![] }));
}
