use kvs::{
    check_engine, encode_request, encode_response, get_response, handle_request_bytes,
    interpret_get_response, interpret_mutation_response, mutation_response, read_request,
    read_response, Error, ErrorKind, Request, Response, Store,
};

#[test]
fn request_round_trip() {
    let get = Request::Get { key: "k".to_string() };
    let bytes = encode_request(&get).unwrap();
    match read_request(&bytes, 0).unwrap() {
        (Request::Get { key }, end) => {
            assert_eq!(key, "k");
            assert_eq!(end, bytes.len());
        }
        other => panic!("wrong request: {:?}", other),
    }
    let put = Request::Put { key: "k".to_string(), value: "v".to_string() };
    let bytes = encode_request(&put).unwrap();
    match read_request(&bytes, 0).unwrap() {
        (Request::Put { key, value }, end) => {
            assert_eq!(key, "k");
            assert_eq!(value, "v");
            assert_eq!(end, bytes.len());
        }
        other => panic!("wrong request: {:?}", other),
    }
    let rm = Request::Remove { key: "k".to_string() };
    let bytes = encode_request(&rm).unwrap();
    match read_request(&bytes, 0).unwrap() {
        (Request::Remove { key }, end) => {
            assert_eq!(key, "k");
            assert_eq!(end, bytes.len());
        }
        other => panic!("wrong request: {:?}", other),
    }
}

#[test]
fn response_round_trip() {
    for resp in [
        Response::Done,
        Response::NotFound,
        Response::Found { value: "v".to_string() },
        Response::Failed { kind: ErrorKind::InvalidRequest, message: "bad".to_string() },
        Response::Failed { kind: ErrorKind::EngineError, message: "disk".to_string() },
    ] {
        let bytes = encode_response(&resp).unwrap();
        let (back, end) = read_response(&bytes, 0).unwrap();
        assert_eq!(end, bytes.len());
        match (&resp, &back) {
            (Response::Done, Response::Done) => {}
            (Response::NotFound, Response::NotFound) => {}
            (Response::Found { value: a }, Response::Found { value: b }) => assert_eq!(a, b),
            (
                Response::Failed { kind: ka, message: ma },
                Response::Failed { kind: kb, message: mb },
            ) => {
                assert_eq!(ka, kb);
                assert_eq!(ma, mb);
            }
            other => panic!("wrong response: {:?}", other),
        }
    }
}

#[test]
fn protocol_end_to_end() {
    let mut store = Store::open(Vec::new());
    // set("hello", "world") succeeds
    let req = encode_request(
        &Request::Put { key: "hello".to_string(), value: "world".to_string() },
    )
    .unwrap();
    let resp = handle_request_bytes(&mut store, &req);
    assert!(interpret_mutation_response(&resp).is_ok());
    // get("hello") returns "world"
    let req = encode_request(&Request::Get { key: "hello".to_string() }).unwrap();
    let resp = handle_request_bytes(&mut store, &req);
    assert_eq!(interpret_get_response(&resp).unwrap(), Some("world".to_string()));
    // get("missing") finds no value: the client prints "Key not found"
    let req = encode_request(&Request::Get { key: "missing".to_string() }).unwrap();
    let resp = handle_request_bytes(&mut store, &req);
    assert_eq!(interpret_get_response(&resp).unwrap(), None);
    // rm("missing") fails with KeyNotFound: the client exits 1, "Key not found"
    let req = encode_request(&Request::Remove { key: "missing".to_string() }).unwrap();
    let resp = handle_request_bytes(&mut store, &req);
    match interpret_mutation_response(&resp) {
        Err(e @ Error::KeyNotFound) => assert_eq!(e.message(), "Key not found"),
        other => panic!("expected KeyNotFound, got {:?}", other),
    }
}

#[test]
fn invalid_request_bytes_are_answered_invalid_request() {
    let mut store = Store::open(Vec::new());
    let resp = handle_request_bytes(&mut store, &[0xde, 0xad, 0xbe, 0xef]);
    match read_response(&resp, 0).unwrap() {
        (Response::Failed { kind: ErrorKind::InvalidRequest, .. }, _) => {}
        other => panic!("expected an invalid-request failure, got {:?}", other),
    }
}

#[test]
fn wrong_engine_is_refused() {
    // a fresh directory accepts any engine and asks for the marker
    match check_engine(None, &"kvs".to_string()) {
        Ok(true) => {}
        other => panic!("expected Ok(true), got {:?}", other),
    }
    // a matching marker is accepted without rewriting
    match check_engine(Some(&"kvs".to_string()), &"kvs".to_string()) {
        Ok(false) => {}
        other => panic!("expected Ok(false), got {:?}", other),
    }
    // a disagreeing marker refuses to open
    match check_engine(Some(&"kvs".to_string()), &"sled".to_string()) {
        Err(e @ Error::WrongEngine) => assert_eq!(e.message(), "Wrong engine"),
        other => panic!("expected WrongEngine, got {:?}", other),
    }
}

#[test]
fn mismatched_responses_are_protocol_errors() {
    let done = encode_response(&Response::Done).unwrap();
    match interpret_get_response(&done) {
        Err(Error::ProtocolError) => {}
        other => panic!("expected ProtocolError, got {:?}", other),
    }
    let found = encode_response(&Response::Found { value: "v".to_string() }).unwrap();
    match interpret_mutation_response(&found) {
        Err(Error::ProtocolError) => {}
        other => panic!("expected ProtocolError, got {:?}", other),
    }
    let failed = encode_response(
        &Response::Failed { kind: ErrorKind::EngineError, message: "m".to_string() },
    )
    .unwrap();
    match interpret_get_response(&failed) {
        Err(Error::ProtocolError) => {}
        other => panic!("expected ProtocolError, got {:?}", other),
    }
}

#[test]
fn undecodable_response_is_a_decode_error() {
    match interpret_get_response(&[0x01, 0x02]) {
        Err(Error::Decode) => {}
        other => panic!("expected Decode, got {:?}", other),
    }
    match interpret_mutation_response(&[]) {
        Err(Error::Decode) => {}
        other => panic!("expected Decode, got {:?}", other),
    }
}

#[test]
fn engine_results_map_to_their_responses() {
    // a present value is Found, a clean absence NotFound
    match get_response(Ok(Some("v".to_string()))) {
        Response::Found { value } => assert_eq!(value, "v"),
        other => panic!("expected Found, got {:?}", other),
    }
    assert!(matches!(get_response(Ok(None)), Response::NotFound));
    match get_response(Err(Error::Io)) {
        Response::Failed { kind: ErrorKind::EngineError, .. } => {}
        other => panic!("expected an engine failure, got {:?}", other),
    }
    // a successful mutation is Done, a missing key NotFound
    assert!(matches!(mutation_response(Ok(())), Response::Done));
    assert!(matches!(mutation_response(Err(Error::KeyNotFound)), Response::NotFound));
    match mutation_response(Err(Error::Encode)) {
        Response::Failed { kind: ErrorKind::EngineError, .. } => {}
        other => panic!("expected an engine failure, got {:?}", other),
    }
}
