use script_sessions::graph::ValueGraph;
use script_sessions::response::{EvalResponse, Object, ObjectMember, ObjectTable, Reference, Value};
use script_sessions::walk::{GraphWalk, RuntimeValue};

fn reference(name: &str) -> Reference {
    Reference(name.to_string())
}

fn pointer(name: &str) -> Value {
    Value::ObjectRef(reference(name))
}

fn parts(response: EvalResponse) -> (ObjectTable, Value) {
    match response {
        EvalResponse::Success { objects, value } => (objects, value),
        EvalResponse::Failure { error } => panic!("failure: {error}"),
    }
}

fn targets(object: &Object) -> Vec<String> {
    let mut found = Vec::new();
    for member in &object.members {
        for side in [&member.key, &member.value] {
            if let Value::ObjectRef(r) = side {
                found.push(r.0.clone());
            }
        }
    }
    found
}

fn assert_closed_without_orphans(objects: &ObjectTable, value: &Value) {
    let mut reached: Vec<String> = Vec::new();
    let mut todo: Vec<String> = Vec::new();
    if let Value::ObjectRef(r) = value {
        todo.push(r.0.clone());
    }
    while let Some(name) = todo.pop() {
        if reached.contains(&name) {
            continue;
        }
        let object = objects.get(&Reference(name.clone()));
        assert!(object.is_some(), "dangling reference {name}");
        reached.push(name);
        todo.extend(targets(object.unwrap()));
    }
    assert_eq!(reached.len(), objects.len());
}

#[test]
fn scalar_null_has_no_objects() {
    let graph = ValueGraph::new();
    let (objects, value) = parts(graph.serialize(RuntimeValue::Null));
    assert_eq!(objects.len(), 0);
    assert_eq!(value, Value::Null);
}

#[test]
fn scalar_number_keeps_its_bits() {
    let graph = ValueGraph::new();
    let (objects, value) = parts(graph.serialize(RuntimeValue::Number(1.1f64.to_bits())));
    assert_eq!(objects.len(), 0);
    assert_eq!(value, Value::Number(1.1f64.to_bits()));
}

#[test]
fn scalar_string_keeps_its_text() {
    let graph = ValueGraph::new();
    let root = RuntimeValue::String("hello, world!".to_string());
    let (objects, value) = parts(graph.serialize(root));
    assert_eq!(objects.len(), 0);
    assert_eq!(value, Value::String("hello, world!".to_string()));
}

#[test]
fn empty_composite_is_one_object_without_members() {
    let mut graph = ValueGraph::new();
    let x = graph.composite("x");
    let (objects, value) = parts(graph.serialize(x));
    assert_eq!(value, pointer("x"));
    assert_eq!(objects.len(), 1);
    assert_eq!(objects.get(&reference("x")), Some(&Object { members: vec![] }));
}

#[test]
fn members_keep_their_order() {
    let mut graph = ValueGraph::new();
    let x = graph.composite("x");
    assert!(graph.add_member(
        &x,
        RuntimeValue::String("foo".to_string()),
        RuntimeValue::Number(2.0f64.to_bits())
    ));
    assert!(graph.add_member(&x, RuntimeValue::String("bar".to_string()), RuntimeValue::Null));
    let (objects, value) = parts(graph.serialize(x));
    assert_eq!(value, pointer("x"));
    assert_eq!(objects.len(), 1);
    let expected = Object {
        members: vec![
            ObjectMember {
                key: Value::String("foo".to_string()),
                value: Value::Number(2.0f64.to_bits()),
            },
            ObjectMember { key: Value::String("bar".to_string()), value: Value::Null },
        ],
    };
    assert_eq!(objects.get(&reference("x")), Some(&expected));
}

#[test]
fn siblings_that_point_at_each_other() {
    let mut graph = ValueGraph::new();
    let x = graph.composite("x");
    let y = graph.composite("y");
    let x2 = graph.composite("x");
    let y2 = graph.composite("y");
    assert_eq!(graph.len(), 2);
    assert!(graph.add_member(&x, RuntimeValue::String("y".to_string()), y2));
    assert!(graph.add_member(&y, RuntimeValue::String("x".to_string()), x2));
    let (objects, value) = parts(graph.serialize(x));
    assert_eq!(value, pointer("x"));
    assert_eq!(objects.len(), 2);
    let of_x = Object {
        members: vec![ObjectMember { key: Value::String("y".to_string()), value: pointer("y") }],
    };
    let of_y = Object {
        members: vec![ObjectMember { key: Value::String("x".to_string()), value: pointer("x") }],
    };
    assert_eq!(objects.get(&reference("x")), Some(&of_x));
    assert_eq!(objects.get(&reference("y")), Some(&of_y));
    assert_closed_without_orphans(&objects, &value);
}

#[test]
fn composite_that_holds_itself_is_expanded_once() {
    let mut graph = ValueGraph::new();
    let x = graph.composite("x");
    let again = graph.composite("x");
    let once_more = graph.composite("x");
    assert!(graph.add_member(&x, again, once_more));
    let (objects, value) = parts(graph.serialize(x));
    assert_eq!(objects.len(), 1);
    let expected = Object { members: vec![ObjectMember { key: pointer("x"), value: pointer("x") }] };
    assert_eq!(objects.get(&reference("x")), Some(&expected));
    assert_closed_without_orphans(&objects, &value);
}

#[test]
fn cycle_through_an_intermediate_composite() {
    let mut graph = ValueGraph::new();
    let a = graph.composite("a");
    let b = graph.composite("b");
    let c = graph.composite("c");
    let to_b = graph.composite("b");
    let to_c = graph.composite("c");
    let to_a = graph.composite("a");
    assert!(graph.add_member(&a, RuntimeValue::Number(1.0f64.to_bits()), to_b));
    assert!(graph.add_member(&b, RuntimeValue::Number(1.0f64.to_bits()), to_c));
    assert!(graph.add_member(&c, RuntimeValue::Number(1.0f64.to_bits()), to_a));
    let (objects, value) = parts(graph.serialize(a));
    assert_eq!(objects.len(), 3);
    assert_closed_without_orphans(&objects, &value);
}

#[test]
fn shared_composite_is_emitted_once() {
    let mut graph = ValueGraph::new();
    let root = graph.composite("root");
    for i in 0..5u64 {
        let shared = graph.composite("shared");
        assert!(graph.add_member(&root, RuntimeValue::Number(i), shared));
    }
    let as_key = graph.composite("shared");
    let as_value = graph.composite("shared");
    assert!(graph.add_member(&root, as_key, as_value));
    let (objects, value) = parts(graph.serialize(root));
    assert_eq!(objects.len(), 2);
    assert_eq!(objects.get(&reference("root")).unwrap().members.len(), 6);
    assert_eq!(objects.get(&reference("shared")), Some(&Object { members: vec![] }));
    assert_closed_without_orphans(&objects, &value);
}

#[test]
fn unreachable_composites_are_not_emitted() {
    let mut graph = ValueGraph::new();
    let x = graph.composite("x");
    let orphan = graph.composite("orphan");
    let to_x = graph.composite("x");
    assert!(graph.add_member(&orphan, RuntimeValue::Null, to_x));
    let (objects, value) = parts(graph.serialize(x));
    assert_eq!(objects.len(), 1);
    assert!(objects.contains(&reference("x")));
    assert!(!objects.contains(&reference("orphan")));
    assert_closed_without_orphans(&objects, &value);
}

#[test]
fn deep_chain_is_walked_without_recursion() {
    let mut graph = ValueGraph::new();
    let count = 300;
    let mut previous = graph.composite("n0");
    let root = graph.composite("n0");
    for i in 1..count {
        let name = format!("n{i}");
        let next = graph.composite(&name);
        let link = graph.composite(&name);
        assert!(graph.add_member(&previous, RuntimeValue::Null, link));
        previous = next;
    }
    let (objects, value) = parts(graph.serialize(root));
    assert_eq!(objects.len(), count);
    assert_closed_without_orphans(&objects, &value);
}

#[test]
fn root_from_elsewhere_is_refused() {
    let graph = ValueGraph::new();
    let response = graph.serialize(RuntimeValue::Composite("x".to_string(), 0));
    match response {
        EvalResponse::Failure { error } => {
            assert_eq!(error, "unable to serialize object: unknown composite")
        },
        EvalResponse::Success { .. } => panic!("a foreign composite was serialized"),
    }
}

#[test]
fn member_from_elsewhere_is_refused() {
    let mut graph = ValueGraph::new();
    let x = graph.composite("x");
    assert!(!graph.add_member(&x, RuntimeValue::Null, RuntimeValue::Composite("y".to_string(), 7)));
    assert!(!graph.add_member(&x, RuntimeValue::Composite("x".to_string(), 1), RuntimeValue::Null));
    assert!(!graph.add_member(&x, RuntimeValue::Composite("z".to_string(), 0), RuntimeValue::Null));
    assert!(!graph.add_member(&RuntimeValue::Null, RuntimeValue::Null, RuntimeValue::Null));
    assert!(graph.is_valid(&x));
    let (objects, _) = parts(graph.serialize(x));
    assert_eq!(objects.get(&reference("x")), Some(&Object { members: vec![] }));
}

#[test]
fn walk_step_by_step() {
    let root: RuntimeValue<u8> = RuntimeValue::Composite("a".to_string(), 1);
    let mut walk = GraphWalk::start(root);
    assert!(!walk.is_done());
    assert_eq!(walk.count(), 0);
    {
        let (name, handle) = walk.next().unwrap();
        assert_eq!(name, &reference("a"));
        assert_eq!(*handle, 1);
    }
    walk.expand(vec![
        (RuntimeValue::Composite("a".to_string(), 1), RuntimeValue::Composite("b".to_string(), 2)),
        (RuntimeValue::Composite("b".to_string(), 2), RuntimeValue::Composite("c".to_string(), 3)),
    ]);
    assert_eq!(walk.count(), 1);
    {
        let (name, handle) = walk.next().unwrap();
        assert_eq!(name, &reference("c"));
        assert_eq!(*handle, 3);
    }
    walk.expand(vec![]);
    {
        let (name, handle) = walk.next().unwrap();
        assert_eq!(name, &reference("b"));
        assert_eq!(*handle, 2);
    }
    walk.expand(vec![(RuntimeValue::Null, RuntimeValue::Composite("c".to_string(), 3))]);
    assert!(walk.is_done());
    assert!(walk.next().is_none());
    let (objects, value) = parts(walk.finish());
    assert_eq!(value, pointer("a"));
    assert_eq!(objects.len(), 3);
    assert_eq!(objects.entry(0).0, &reference("a"));
    assert_eq!(objects.entry(1).0, &reference("c"));
    assert_eq!(objects.entry(2).0, &reference("b"));
    assert_closed_without_orphans(&objects, &value);
}

#[test]
fn object_table_keeps_the_first_entry_of_a_reference() {
    let mut table = ObjectTable::new();
    assert!(table.insert(reference("01"), Object { members: vec![] }));
    let other = Object { members: vec![ObjectMember { key: Value::Null, value: Value::Null }] };
    assert!(!table.insert(reference("01"), other));
    assert_eq!(table.len(), 1);
    assert_eq!(table.get(&reference("01")), Some(&Object { members: vec![] }));
    assert_eq!(table.get(&reference("02")), None);
    assert!(reference("01").same(&reference("01").duplicate()));
    assert!(!reference("01").same(&reference("02")));
    assert_eq!(pointer("01").duplicate(), pointer("01"));
}

#[test]
fn failure_carries_its_text() {
    let response = EvalResponse::failure("uh oh".to_string());
    assert!(!response.is_success());
    match response {
        EvalResponse::Failure { error } => assert_eq!(error, "uh oh"),
        EvalResponse::Success { .. } => panic!("not a failure"),
    }
}
