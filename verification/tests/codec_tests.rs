//! Tests of the command codec: exact encodings, escaping, streaming
//! decode, and compatibility with a standard JSON parser.
use kvs::Requests;
use kvs::Response4Get;
use kvs::Response4Remove;
use kvs::Response4Set;
use kvs::codec::encode_request;
use kvs::codec::encode_response_get;
use kvs::codec::encode_response_remove;
use kvs::codec::encode_response_set;
use kvs::decode::Decoded;
use kvs::decode::decode_request;
use kvs::decode::decode_response_get;
use kvs::decode::decode_response_remove;
use kvs::decode::decode_response_set;

fn chars(s: &str) -> Vec<char> {
    s.chars().collect()
}

fn string_of(v: &[char]) -> String {
    v.iter().collect()
}

fn put(key: &str, value: &str) -> Requests {
    Requests::Put { key: key.to_owned(), value: value.to_owned() }
}

#[test]
fn encodes_set_exactly() {
    let out = encode_request(&put("k", "v"));
    assert_eq!(string_of(&out), r#"{"Set":{"key":"k","value":"v"}}"#);
}

#[test]
fn encodes_get_and_remove_exactly() {
    let g = encode_request(&Requests::Get { key: "a b".to_owned() });
    assert_eq!(string_of(&g), r#"{"Get":{"key":"a b"}}"#);
    let r = encode_request(&Requests::Remove { key: "".to_owned() });
    assert_eq!(string_of(&r), r#"{"Remove":{"key":""}}"#);
}

#[test]
fn escapes_like_a_json_encoder() {
    let out = encode_request(&put("q\"q", "back\\slash"));
    assert_eq!(
        string_of(&out),
        "{\"Set\":{\"key\":\"q\\\"q\",\"value\":\"back\\\\slash\"}}"
    );
    let ctl = encode_request(&put("n\nl", "\u{1}\u{8}\t\r\u{c}"));
    assert_eq!(
        string_of(&ctl),
        "{\"Set\":{\"key\":\"n\\nl\",\"value\":\"\\u0001\\b\\t\\r\\f\"}}"
    );
    // characters outside ASCII pass through unescaped
    let uni = encode_request(&put("clé", "värde→"));
    assert_eq!(string_of(&uni), "{\"Set\":{\"key\":\"clé\",\"value\":\"värde→\"}}");
}

#[test]
fn decode_inverts_encode() {
    let cases = vec![
        put("k", "v"),
        put("", ""),
        put("q\"q", "a\\b"),
        put("tab\there", "line\nbreak\u{1}"),
        put("clé", "värde"),
        Requests::Get { key: "some key".to_owned() },
        Requests::Remove { key: "gone".to_owned() },
    ];
    for req in cases {
        let out = encode_request(&req);
        match decode_request(&out) {
            Decoded::Done { value, used } => {
                assert_eq!(value, req);
                assert_eq!(used, out.len());
            }
            other => panic!("expected Done, got {:?}", other),
        }
    }
}

#[test]
fn decode_is_self_delimiting() {
    // two frames back to back: the decoder takes exactly the first
    let mut buf = encode_request(&put("a", "1"));
    let first_len = buf.len();
    buf.extend(encode_request(&Requests::Get { key: "a".to_owned() }));
    match decode_request(&buf) {
        Decoded::Done { value, used } => {
            assert_eq!(value, put("a", "1"));
            assert_eq!(used, first_len);
        }
        other => panic!("expected Done, got {:?}", other),
    }
}

#[test]
fn decode_reports_incomplete_prefixes() {
    let full = encode_request(&put("key", "value"));
    for cut in 0..full.len() {
        let prefix: Vec<char> = full[..cut].to_vec();
        match decode_request(&prefix) {
            Decoded::Incomplete => {}
            other => panic!("prefix of length {} gave {:?}", cut, other),
        }
    }
}

#[test]
fn decode_rejects_garbage() {
    assert!(matches!(decode_request(&chars("nonsense")), Decoded::Invalid));
    assert!(matches!(decode_request(&chars("{\"Put\":{\"key\":\"k\"}}")), Decoded::Invalid));
    // a bad escape inside the key
    assert!(matches!(
        decode_request(&chars("{\"Set\":{\"key\":\"\\x\",\"value\":\"v\"}}")),
        Decoded::Invalid
    ));
    // a Get frame where a value object is required
    assert!(matches!(
        decode_request(&chars("{\"Set\":{\"key\":\"k\"}}")),
        Decoded::Invalid
    ));
}

#[test]
fn decode_accepts_conventional_escapes() {
    // \/ and \u0041-style escapes are not emitted, but are accepted
    match decode_request(&chars("{\"Get\":{\"key\":\"a\\/b\\u0041\"}}")) {
        Decoded::Done { value, used: _ } => {
            assert_eq!(value, Requests::Get { key: "a/bA".to_owned() });
        }
        other => panic!("expected Done, got {:?}", other),
    }
}

#[test]
fn response_frames_round_trip() {
    let ok_none = encode_response_get(&Response4Get::Okay(None));
    assert_eq!(string_of(&ok_none), r#"{"Ok":null}"#);
    assert!(matches!(
        decode_response_get(&ok_none),
        Decoded::Done { value: Response4Get::Okay(None), .. }
    ));

    let ok_some = encode_response_get(&Response4Get::Okay(Some("v2".to_owned())));
    assert_eq!(string_of(&ok_some), r#"{"Ok":"v2"}"#);
    match decode_response_get(&ok_some) {
        Decoded::Done { value, used } => {
            assert_eq!(value, Response4Get::Okay(Some("v2".to_owned())));
            assert_eq!(used, ok_some.len());
        }
        other => panic!("expected Done, got {:?}", other),
    }

    let err = encode_response_get(&Response4Get::Failed("boom \"x\"".to_owned()));
    match decode_response_get(&err) {
        Decoded::Done { value, .. } => {
            assert_eq!(value, Response4Get::Failed("boom \"x\"".to_owned()));
        }
        other => panic!("expected Done, got {:?}", other),
    }

    let set_ok = encode_response_set(&Response4Set::Okay);
    assert_eq!(string_of(&set_ok), r#"{"Ok":null}"#);
    assert!(matches!(
        decode_response_set(&set_ok),
        Decoded::Done { value: Response4Set::Okay, .. }
    ));

    let rm_err = encode_response_remove(&Response4Remove::Failed("Key not found".to_owned()));
    assert_eq!(string_of(&rm_err), r#"{"Err":"Key not found"}"#);
    assert!(matches!(
        decode_response_remove(&rm_err),
        Decoded::Done { value: Response4Remove::Failed(_), .. }
    ));
}

#[test]
fn wire_format_is_standard_json() {
    // a standard JSON parser reads our frames, and re-serializing them
    // compactly gives back the identical text
    let frames = vec![
        string_of(&encode_request(&put("k\"y", "v\\1\n"))),
        string_of(&encode_request(&Requests::Get { key: "ключ".to_owned() })),
        string_of(&encode_request(&Requests::Remove { key: "\u{1f}".to_owned() })),
        string_of(&encode_response_get(&Response4Get::Okay(Some("x".to_owned())))),
        string_of(&encode_response_get(&Response4Get::Okay(None))),
        string_of(&encode_response_set(&Response4Set::Failed("err".to_owned()))),
    ];
    for frame in frames {
        let v: serde_json::Value = serde_json::from_str(&frame).expect("standard parser rejects");
        let again = serde_json::to_string(&v).expect("re-serialize");
        assert_eq!(again, frame);
    }
}

#[test]
fn wire_format_matches_a_standard_encoder() {
    // what a serde-style encoder would produce for the Set request shape
    let mut m = serde_json::Map::new();
    let mut inner = serde_json::Map::new();
    inner.insert("key".to_owned(), serde_json::Value::String("k".to_owned()));
    inner.insert("value".to_owned(), serde_json::Value::String("v\n".to_owned()));
    m.insert("Set".to_owned(), serde_json::Value::Object(inner));
    let expected = serde_json::to_string(&serde_json::Value::Object(m)).unwrap();
    assert_eq!(string_of(&encode_request(&put("k", "v\n"))), expected);
}
