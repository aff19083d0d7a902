use kvs::codec::encode_command_exec;
use kvs::codec::encode_request_exec;
use kvs::codec::encode_response_exec;
use kvs::codec::parse_command_exec;
use kvs::codec::parse_request_exec;
use kvs::codec::parse_response_exec;
use kvs::Command;
use kvs::CommandRequest;
use kvs::CommandResponse;

fn chars(s: &str) -> Vec<char> {
    s.chars().collect()
}

fn text(v: &[char]) -> String {
    v.iter().collect()
}

#[test]
fn record_set_encodes_as_json_object() {
    let cmd = Command::Put {
        key: "a".to_string(),
        value: "1".to_string(),
    };
    let enc = encode_command_exec(&cmd);
    assert_eq!(text(&enc), "{\"Set\":{\"key\":\"a\",\"value\":\"1\"}}");
}

#[test]
fn record_remove_encodes_as_json_object() {
    let cmd = Command::Remove { key: "a".to_string() };
    let enc = encode_command_exec(&cmd);
    assert_eq!(text(&enc), "{\"Remove\":{\"key\":\"a\"}}");
}

#[test]
fn record_round_trip_plain() {
    let cmd = Command::Put {
        key: "key1".to_string(),
        value: "value1".to_string(),
    };
    let enc = encode_command_exec(&cmd);
    let (back, used) = parse_command_exec(&enc, 0).unwrap();
    assert_eq!(used, enc.len());
    match back {
        Command::Put { key, value } => {
            assert_eq!(key, "key1");
            assert_eq!(value, "value1");
        }
        _ => panic!("wrong variant"),
    }
}

#[test]
fn record_round_trip_with_escapes() {
    let cmd = Command::Put {
        key: "a\"b\\c\nd\te\u{0001}f".to_string(),
        value: "per\u{00e9}\u{20ac}".to_string(),
    };
    let enc = encode_command_exec(&cmd);
    let (back, used) = parse_command_exec(&enc, 0).unwrap();
    assert_eq!(used, enc.len());
    match back {
        Command::Put { key, value } => {
            assert_eq!(key, "a\"b\\c\nd\te\u{0001}f");
            assert_eq!(value, "per\u{00e9}\u{20ac}");
        }
        _ => panic!("wrong variant"),
    }
}

#[test]
fn record_stream_without_separators() {
    let a = encode_command_exec(&Command::Put {
        key: "x".to_string(),
        value: "1".to_string(),
    });
    let b = encode_command_exec(&Command::Remove { key: "x".to_string() });
    let mut stream = a.clone();
    stream.extend_from_slice(&b);
    let (first, n1) = parse_command_exec(&stream, 0).unwrap();
    assert!(matches!(first, Command::Put { .. }));
    let (second, n2) = parse_command_exec(&stream, n1).unwrap();
    assert!(matches!(second, Command::Remove { .. }));
    assert_eq!(n1 + n2, stream.len());
    assert!(parse_command_exec(&stream, stream.len()).is_none());
}

#[test]
fn record_rejects_garbage() {
    assert!(parse_command_exec(&chars("garbage"), 0).is_none());
    assert!(parse_command_exec(&chars("{\"Set\":{\"key"), 0).is_none());
    assert!(parse_command_exec(&chars(""), 0).is_none());
}

#[test]
fn record_decoded_by_general_json_parser() {
    // The record form is plain JSON: a general JSON parser agrees on the
    // fields, escapes included.
    let cmd = Command::Put {
        key: "a\"b\\c\nd".to_string(),
        value: "v\u{0002}".to_string(),
    };
    let enc = text(&encode_command_exec(&cmd));
    let v: serde_json::Value = serde_json::from_str(&enc).unwrap();
    assert_eq!(v["Set"]["key"].as_str().unwrap(), "a\"b\\c\nd");
    assert_eq!(v["Set"]["value"].as_str().unwrap(), "v\u{0002}");
}

#[test]
fn record_parses_general_json_output() {
    // What a general JSON encoder writes for the same shape parses back.
    let mut inner = serde_json::Map::new();
    inner.insert(
        "key".to_string(),
        serde_json::Value::String("k".to_string()),
    );
    inner.insert(
        "value".to_string(),
        serde_json::Value::String("v".to_string()),
    );
    let mut outer = serde_json::Map::new();
    outer.insert("Set".to_string(), serde_json::Value::Object(inner));
    let enc = serde_json::to_string(&serde_json::Value::Object(outer)).unwrap();
    let encv: Vec<char> = enc.chars().collect();
    let (back, used) = parse_command_exec(&encv, 0).unwrap();
    assert_eq!(used, encv.len());
    match back {
        Command::Put { key, value } => {
            assert_eq!(key, "k");
            assert_eq!(value, "v");
        }
        _ => panic!("wrong variant"),
    }
}

#[test]
fn request_round_trip_all_variants() {
    let reqs = vec![
        CommandRequest::Put {
            key: "k".to_string(),
            value: "v".to_string(),
        },
        CommandRequest::Remove { key: "k".to_string() },
        CommandRequest::Get { key: "k".to_string() },
    ];
    for req in reqs {
        let enc = encode_request_exec(&req);
        let (back, used) = parse_request_exec(&enc, 0).unwrap();
        assert_eq!(used, enc.len());
        match (&req, &back) {
            (
                CommandRequest::Put { key: k1, value: v1 },
                CommandRequest::Put { key: k2, value: v2 },
            ) => {
                assert_eq!(k1, k2);
                assert_eq!(v1, v2);
            }
            (CommandRequest::Remove { key: k1 }, CommandRequest::Remove { key: k2 }) => {
                assert_eq!(k1, k2)
            }
            (CommandRequest::Get { key: k1 }, CommandRequest::Get { key: k2 }) => {
                assert_eq!(k1, k2)
            }
            _ => panic!("variant changed in the round trip"),
        }
    }
}

#[test]
fn response_round_trip_all_variants() {
    let resps = vec![
        CommandResponse::Success,
        CommandResponse::KeyNotFound,
        CommandResponse::Error {
            reason: "broken \"pipe\"".to_string(),
        },
        CommandResponse::Value {
            value: Some("v1".to_string()),
        },
        CommandResponse::Value { value: None },
    ];
    for resp in resps {
        let enc = encode_response_exec(&resp);
        let (back, used) = parse_response_exec(&enc, 0).unwrap();
        assert_eq!(used, enc.len());
        match (&resp, &back) {
            (CommandResponse::Success, CommandResponse::Success) => {}
            (CommandResponse::KeyNotFound, CommandResponse::KeyNotFound) => {}
            (CommandResponse::Error { reason: a }, CommandResponse::Error { reason: b }) => {
                assert_eq!(a, b)
            }
            (CommandResponse::Value { value: a }, CommandResponse::Value { value: b }) => {
                assert_eq!(a, b)
            }
            _ => panic!("variant changed in the round trip"),
        }
    }
}

#[test]
fn response_encodings_are_exact() {
    assert_eq!(
        text(&encode_response_exec(&CommandResponse::Success)),
        "{\"Success\":{}}"
    );
    assert_eq!(
        text(&encode_response_exec(&CommandResponse::KeyNotFound)),
        "{\"KeyNotFound\":{}}"
    );
    assert_eq!(
        text(&encode_response_exec(&CommandResponse::Value { value: None })),
        "{\"Value\":{\"value\":null}}"
    );
    assert_eq!(
        text(&encode_response_exec(&CommandResponse::Value {
            value: Some("x".to_string())
        })),
        "{\"Value\":{\"value\":\"x\"}}"
    );
    assert_eq!(
        text(&encode_response_exec(&CommandResponse::Error {
            reason: "why".to_string()
        })),
        "{\"Error\":{\"reason\":\"why\"}}"
    );
}

#[test]
fn record_parses_short_escapes_from_general_encoder() {
    // A general JSON encoder writes `\n` and `\"` as their short forms; the
    // record parser reads them back.
    let mut inner = serde_json::Map::new();
    inner.insert(
        "key".to_string(),
        serde_json::Value::String("a\nb\"c".to_string()),
    );
    let mut outer = serde_json::Map::new();
    outer.insert("Remove".to_string(), serde_json::Value::Object(inner));
    let enc = serde_json::to_string(&serde_json::Value::Object(outer)).unwrap();
    assert!(enc.contains("\\n"));
    let encv: Vec<char> = enc.chars().collect();
    let (back, used) = parse_command_exec(&encv, 0).unwrap();
    assert_eq!(used, encv.len());
    match back {
        Command::Remove { key } => assert_eq!(key, "a\nb\"c"),
        _ => panic!("wrong variant"),
    }
}
