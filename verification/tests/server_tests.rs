//! Tests of the request-handling core, the client-side response
//! interpretation, the engine-selection rule, and the error messages.
use kvs::EngineKind;
use kvs::Error;
use kvs::KvStore;
use kvs::Requests;
use kvs::Response4Get;
use kvs::Response4Remove;
use kvs::Response4Set;
use kvs::client::read_get_response;
use kvs::client::read_remove_response;
use kvs::client::read_set_response;
use kvs::engines::engine_name;
use kvs::engines::parse_engine_name;
use kvs::engines::select_engine;
use kvs::server::handle_request;

fn string_of(v: &[char]) -> String {
    v.iter().collect()
}

#[test]
fn handler_answers_set_get_remove() {
    let mut store = KvStore::new();
    let r1 = handle_request(
        &mut store,
        Requests::Put { key: "k".to_owned(), value: "v".to_owned() },
    );
    assert_eq!(string_of(&r1), r#"{"Ok":null}"#);

    let r2 = handle_request(&mut store, Requests::Get { key: "k".to_owned() });
    assert_eq!(string_of(&r2), r#"{"Ok":"v"}"#);

    let r3 = handle_request(&mut store, Requests::Get { key: "absent".to_owned() });
    assert_eq!(string_of(&r3), r#"{"Ok":null}"#);

    let r4 = handle_request(&mut store, Requests::Remove { key: "k".to_owned() });
    assert_eq!(string_of(&r4), r#"{"Ok":null}"#);

    let r5 = handle_request(&mut store, Requests::Remove { key: "k".to_owned() });
    assert_eq!(string_of(&r5), r#"{"Err":"Key not found"}"#);
}

#[test]
fn set_then_get_observes_the_write() {
    // the dispatch-level shape of the client scenario: a set handled
    // first is observed by any later get, whoever carries the requests
    let mut store = KvStore::new();
    store.set("seed".to_owned(), "old".to_owned()).unwrap();
    handle_request(
        &mut store,
        Requests::Put { key: "x".to_owned(), value: "fresh".to_owned() },
    );
    let got = handle_request(&mut store, Requests::Get { key: "x".to_owned() });
    assert_eq!(string_of(&got), r#"{"Ok":"fresh"}"#);
}

#[test]
fn client_interprets_responses() {
    assert!(read_set_response(Response4Set::Okay).is_ok());
    match read_set_response(Response4Set::Failed("oops".to_owned())) {
        Err(Error::RemoteError(m)) => assert_eq!(m, "oops"),
        other => panic!("unexpected {:?}", other),
    }
    assert_eq!(read_get_response(Response4Get::Okay(None)).unwrap(), None);
    assert_eq!(
        read_get_response(Response4Get::Okay(Some("v".to_owned()))).unwrap(),
        Some("v".to_owned())
    );
    match read_get_response(Response4Get::Failed("gone".to_owned())) {
        Err(Error::RemoteError(m)) => assert_eq!(m, "gone"),
        other => panic!("unexpected {:?}", other),
    }
    assert!(read_remove_response(Response4Remove::Okay).is_ok());
    match read_remove_response(Response4Remove::Failed("Key not found".to_owned())) {
        Err(Error::RemoteError(m)) => assert_eq!(m, "Key not found"),
        other => panic!("unexpected {:?}", other),
    }
}

#[test]
fn error_messages() {
    assert_eq!(Error::KeyNotFound.message(), "Key not found");
    assert_eq!(Error::Corruption.message(), "Corruption");
    assert_eq!(Error::EncodingError.message(), "Encoding error");
    assert_eq!(Error::RemoteError("their words".to_owned()).message(), "their words");
}

#[test]
fn engine_selection_table() {
    let kvs_engine = EngineKind::Kvs;
    let jammdb = EngineKind::Jammdb;
    assert_eq!(select_engine(None, None), Some(kvs_engine));
    assert_eq!(select_engine(None, Some(kvs_engine)), Some(kvs_engine));
    assert_eq!(select_engine(None, Some(jammdb)), Some(jammdb));
    assert_eq!(select_engine(Some(kvs_engine), None), Some(kvs_engine));
    assert_eq!(select_engine(Some(jammdb), None), Some(jammdb));
    assert_eq!(select_engine(Some(kvs_engine), Some(kvs_engine)), Some(kvs_engine));
    assert_eq!(select_engine(Some(jammdb), Some(jammdb)), Some(jammdb));
    assert_eq!(select_engine(Some(kvs_engine), Some(jammdb)), None);
    assert_eq!(select_engine(Some(jammdb), Some(kvs_engine)), None);
}

#[test]
fn engine_names_round_trip() {
    for e in [EngineKind::Kvs, EngineKind::Jammdb] {
        let name = engine_name(e);
        assert_eq!(parse_engine_name(&name), Some(e));
    }
    assert_eq!(parse_engine_name("kvs"), Some(EngineKind::Kvs));
    assert_eq!(parse_engine_name("jammdb"), Some(EngineKind::Jammdb));
    // the recorded name is matched without regard to ASCII case
    assert_eq!(parse_engine_name("KVS"), Some(EngineKind::Kvs));
    assert_eq!(parse_engine_name("kVs"), Some(EngineKind::Kvs));
    assert_eq!(parse_engine_name("JAMMDB"), Some(EngineKind::Jammdb));
    assert_eq!(parse_engine_name("JaMmDb"), Some(EngineKind::Jammdb));
    assert_eq!(parse_engine_name("sled"), None);
    assert_eq!(parse_engine_name(""), None);
    assert_eq!(parse_engine_name("kv"), None);
    assert_eq!(parse_engine_name("kvss"), None);
}
