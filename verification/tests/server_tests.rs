use kvs::server::engine_allowed;
use kvs::server::get_response;
use kvs::server::remove_response;
use kvs::server::render_response;
use kvs::server::set_response;
use kvs::KvStoreError;
use kvs::server::handle_request_line;
use kvs::server::process_request;
use kvs::CommandRequest;
use kvs::CommandResponse;
use kvs::KvStore;

fn chars(s: &str) -> Vec<char> {
    s.chars().collect()
}

fn text(v: &[char]) -> String {
    v.iter().collect()
}

#[test]
fn process_request_set_get_remove() {
    let mut engine = KvStore::open(Vec::new()).unwrap();
    let resp = process_request(
        &mut engine,
        CommandRequest::Put {
            key: "a".to_string(),
            value: "1".to_string(),
        },
    );
    assert!(matches!(resp, CommandResponse::Success));
    let resp = process_request(&mut engine, CommandRequest::Get { key: "a".to_string() });
    match resp {
        CommandResponse::Value { value } => assert_eq!(value, Some("1".to_string())),
        _ => panic!("expected a value"),
    }
    let resp = process_request(&mut engine, CommandRequest::Remove { key: "a".to_string() });
    assert!(matches!(resp, CommandResponse::Success));
    let resp = process_request(&mut engine, CommandRequest::Remove { key: "a".to_string() });
    assert!(matches!(resp, CommandResponse::KeyNotFound));
    let resp = process_request(&mut engine, CommandRequest::Get { key: "a".to_string() });
    match resp {
        CommandResponse::Value { value } => assert_eq!(value, None),
        _ => panic!("expected a value"),
    }
}

#[test]
fn handle_request_line_round_trip() {
    let mut engine = KvStore::open(Vec::new()).unwrap();
    let (resp, out) = handle_request_line(
        &mut engine,
        &chars("{\"Set\":{\"key\":\"a\",\"value\":\"1\"}}\n"),
    );
    assert!(matches!(resp, CommandResponse::Success));
    assert_eq!(text(&out), "{\"Success\":{}}");
    let (_resp, out) = handle_request_line(&mut engine, &chars("{\"Get\":{\"key\":\"a\"}}\n"));
    assert_eq!(text(&out), "{\"Value\":{\"value\":\"1\"}}");
    let (_resp, out) = handle_request_line(&mut engine, &chars("{\"Get\":{\"key\":\"b\"}}\n"));
    assert_eq!(text(&out), "{\"Value\":{\"value\":null}}");
    let (_resp, out) = handle_request_line(&mut engine, &chars("{\"Remove\":{\"key\":\"b\"}}\n"));
    assert_eq!(text(&out), "{\"KeyNotFound\":{}}");
}

#[test]
fn handle_request_line_rejects_malformed_lines() {
    let mut engine = KvStore::open(Vec::new()).unwrap();
    let (resp, out) = handle_request_line(&mut engine, &chars("not a request\n"));
    assert!(matches!(resp, CommandResponse::Error { .. }));
    assert!(text(&out).starts_with("{\"Error\":{\"reason\":\""));
}

#[test]
fn engine_lock_allows_first_use_and_same_engine() {
    assert!(engine_allowed(&None, &"kvs".to_string()));
    assert!(engine_allowed(
        &Some("kvs".to_string()),
        &"kvs".to_string()
    ));
    assert!(engine_allowed(
        &Some("sled".to_string()),
        &"sled".to_string()
    ));
}

#[test]
fn engine_lock_refuses_a_switch() {
    assert!(!engine_allowed(
        &Some("kvs".to_string()),
        &"sled".to_string()
    ));
    assert!(!engine_allowed(
        &Some("sled".to_string()),
        &"kvs".to_string()
    ));
}

#[test]
fn outcome_conversion_tables() {
    match get_response(Ok(Some("v".to_string()))) {
        CommandResponse::Value { value } => assert_eq!(value, Some("v".to_string())),
        _ => panic!("wrong response"),
    }
    match get_response(Ok(None)) {
        CommandResponse::Value { value } => assert_eq!(value, None),
        _ => panic!("wrong response"),
    }
    match get_response(Err(KvStoreError::InvalidFileHandler)) {
        CommandResponse::Error { reason } => {
            assert_eq!(reason, "internal error: invalid file handler")
        }
        _ => panic!("wrong response"),
    }
    assert!(matches!(set_response(Ok(())), CommandResponse::Success));
    match set_response(Err(KvStoreError::IOError {
        message: "disk full".to_string(),
    })) {
        CommandResponse::Error { reason } => assert_eq!(reason, "disk full"),
        _ => panic!("wrong response"),
    }
    assert!(matches!(remove_response(Ok(())), CommandResponse::Success));
    assert!(matches!(
        remove_response(Err(KvStoreError::KeyNotFound { key: "a".to_string() })),
        CommandResponse::KeyNotFound
    ));
    match remove_response(Err(KvStoreError::IntoInner)) {
        CommandResponse::Error { reason } => {
            assert_eq!(reason, "internal error: failed to acquire file")
        }
        _ => panic!("wrong response"),
    }
}

#[test]
fn client_rendering_follows_the_protocol() {
    let a = render_response(&CommandResponse::Success);
    assert!(a.message.is_none() && !a.to_stderr && a.exit_code == 0);
    let a = render_response(&CommandResponse::Value {
        value: Some("v".to_string()),
    });
    assert_eq!(a.message, Some("v".to_string()));
    assert!(!a.to_stderr && a.exit_code == 0);
    let a = render_response(&CommandResponse::Value { value: None });
    assert_eq!(a.message, Some("Key not found".to_string()));
    assert!(!a.to_stderr && a.exit_code == 0);
    let a = render_response(&CommandResponse::KeyNotFound);
    assert_eq!(a.message, Some("Key not found".to_string()));
    assert!(!a.to_stderr && a.exit_code == 1);
    let a = render_response(&CommandResponse::Error {
        reason: "boom".to_string(),
    });
    assert_eq!(a.message, Some("boom".to_string()));
    assert!(a.to_stderr && a.exit_code == 1);
}
