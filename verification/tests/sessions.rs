use script_sessions::response::EvalResponse;
use script_sessions::session::{
    evaluation_failed, session_not_found, unreadable_object, unsupported_language, SessionLang,
    SessionStore,
};

fn error_of(response: EvalResponse) -> String {
    match response {
        EvalResponse::Failure { error } => error,
        EvalResponse::Success { .. } => panic!("not a failure"),
    }
}

#[test]
fn language_names() {
    assert!(SessionLang::supports("lua"));
    assert!(!SessionLang::supports("Lua"));
    assert!(!SessionLang::supports(""));
    assert!(!SessionLang::supports("python"));
    assert!(SessionLang::create("python").is_none());
}

#[test]
fn failure_texts() {
    assert_eq!(error_of(unsupported_language("python")), "language `python` not supported");
    assert_eq!(error_of(evaluation_failed("syntax error")), "failed to evaluate code: syntax error");
    assert_eq!(error_of(unreadable_object("oops")), "unable to serialize object: oops");
    assert_eq!(error_of(session_not_found("abc")), "session `abc` not found");
}

#[test]
fn created_sessions_are_found() {
    let mut store: SessionStore<u32> = SessionStore::new();
    let first = loop {
        if let Some(id) = store.create(1) {
            break id;
        }
    };
    let second = loop {
        if let Some(id) = store.create(2) {
            break id;
        }
    };
    assert_eq!(first.len(), 36);
    assert_eq!(second.len(), 36);
    assert_ne!(first, second);
    assert_eq!(store.len(), 2);
    assert_eq!(store.get(&first), Some(&1));
    assert_eq!(store.get(&second), Some(&2));
    assert!(store.contains(&first));
}

#[test]
fn unknown_session_is_not_found() {
    let mut store: SessionStore<u32> = SessionStore::new();
    assert_eq!(store.get("nobody"), None);
    assert!(store.register("a".to_string(), 1));
    assert_eq!(store.get("nobody"), None);
    assert!(!store.contains("nobody"));
}

#[test]
fn taken_identifier_registers_nothing() {
    let mut store: SessionStore<u32> = SessionStore::new();
    assert!(store.register("a".to_string(), 1));
    assert!(!store.register("a".to_string(), 2));
    assert!(store.register("b".to_string(), 3));
    assert_eq!(store.len(), 2);
    assert_eq!(store.get("a"), Some(&1));
    assert_eq!(store.get("b"), Some(&3));
}

#[test]
fn first_session_is_always_created() {
    let mut store: SessionStore<u32> = SessionStore::new();
    let id = store.create(5).unwrap();
    assert_eq!(id.len(), 36);
    assert_eq!(store.len(), 1);
    assert_eq!(store.get(&id), Some(&5));
    assert!(store.register("short".to_string(), 6));
    assert_eq!(store.len(), 2);
}
