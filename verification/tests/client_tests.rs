use stellar_horizon_client::client::HorizonHttpClient;
use stellar_horizon_client::dispatch::process_response;
use stellar_horizon_client::error::{Error, HorizonError};
use stellar_horizon_client::horizon_error::{decode_horizon_error, encode_horizon_error};
use stellar_horizon_client::status::{classify_status, StatusKind};

#[test]
fn classify_success_range() {
    assert_eq!(classify_status(200), StatusKind::Success);
    assert_eq!(classify_status(204), StatusKind::Success);
    assert_eq!(classify_status(299), StatusKind::Success);
}

#[test]
fn classify_client_error_range() {
    assert_eq!(classify_status(400), StatusKind::ClientError);
    assert_eq!(classify_status(404), StatusKind::ClientError);
    assert_eq!(classify_status(499), StatusKind::ClientError);
}

#[test]
fn classify_server_error_rest() {
    assert_eq!(classify_status(100), StatusKind::ServerError);
    assert_eq!(classify_status(199), StatusKind::ServerError);
    assert_eq!(classify_status(300), StatusKind::ServerError);
    assert_eq!(classify_status(301), StatusKind::ServerError);
    assert_eq!(classify_status(500), StatusKind::ServerError);
    assert_eq!(classify_status(503), StatusKind::ServerError);
    assert_eq!(classify_status(0), StatusKind::ServerError);
    assert_eq!(classify_status(65535), StatusKind::ServerError);
}

#[test]
fn classification_is_pure() {
    for code in [0u16, 199, 200, 299, 300, 399, 400, 499, 500, 999] {
        assert_eq!(classify_status(code), classify_status(code));
    }
}

#[test]
fn decode_error_payload() {
    let body = b"{\"status\":400,\"title\":\"Bad Request\"}".to_vec();
    let e = decode_horizon_error(&body).expect("payload matches the schema");
    assert_eq!(e.status, 400);
    assert_eq!(e.title, b"Bad Request".to_vec());
}

#[test]
fn decode_error_payload_extra_members() {
    let body =
        b"{\"type\":\"about\",\"title\":\"Bad Request\",\"status\":400,\"detail\":\"x\"}".to_vec();
    let e = decode_horizon_error(&body).expect("unknown members are ignored");
    assert_eq!(e.status, 400);
    assert_eq!(e.title, b"Bad Request".to_vec());
}

#[test]
fn decode_error_payload_rejects() {
    assert!(decode_horizon_error(&b"".to_vec()).is_none());
    assert!(decode_horizon_error(&b"{}".to_vec()).is_none());
    assert!(decode_horizon_error(&b"{\"title\":\"x\"}".to_vec()).is_none());
    assert!(decode_horizon_error(&b"{\"status\":400}".to_vec()).is_none());
    assert!(decode_horizon_error(&b"{\"status\":\"x\",\"title\":\"y\"}".to_vec()).is_none());
    assert!(decode_horizon_error(&b"{\"status\":070,\"title\":\"y\"}".to_vec()).is_none());
    assert!(decode_horizon_error(&b"{\"status\":99999,\"title\":\"y\"}".to_vec()).is_none());
    assert!(decode_horizon_error(&b"{\"status\":400,\"title\":\"y\"}x".to_vec()).is_none());
    assert!(decode_horizon_error(&b"{\"status\":400,\"title\":\"y".to_vec()).is_none());
    assert!(decode_horizon_error(&b"{\"status\":400,\"title\":\"\\uD800\"}".to_vec()).is_none());
    assert!(decode_horizon_error(&b"not json".to_vec()).is_none());
}

#[test]
fn error_payload_round_trip() {
    let e = HorizonError { status: 400, title: b"Bad Request".to_vec() };
    let bytes = encode_horizon_error(&e);
    assert_eq!(bytes, b"{\"status\":400,\"title\":\"Bad Request\"}".to_vec());
    let back = decode_horizon_error(&bytes).expect("own encoding decodes");
    assert_eq!(back.status, 400);
    assert_eq!(back.title, b"Bad Request".to_vec());
}

#[test]
fn error_payload_round_trip_edges() {
    for (status, title) in [
        (0u16, b"".to_vec()),
        (65535u16, b"weird \\ title with spaces".to_vec()),
        (404u16, b"Not Found".to_vec()),
    ] {
        let e = HorizonError { status, title: title.clone() };
        let back = decode_horizon_error(&encode_horizon_error(&e)).expect("round trip");
        assert_eq!(back.status, status);
        assert_eq!(back.title, title);
    }
}

#[test]
fn dispatch_success_hands_body_back() {
    let body = b"{\"id\": 1}".to_vec();
    let r = process_response(200, body.clone());
    match r {
        Ok(b) => assert_eq!(b, body),
        Err(_) => panic!("a success status must hand the body back"),
    }
}

#[test]
fn dispatch_client_error_decodes_payload() {
    let body = b"{\"status\":400,\"title\":\"Bad Request\"}".to_vec();
    match process_response(400, body) {
        Err(Error::RequestError(e)) => {
            assert_eq!(e.status, 400);
            assert_eq!(e.title, b"Bad Request".to_vec());
        }
        _ => panic!("a client error with a schema body must surface the payload"),
    }
}

#[test]
fn dispatch_client_error_bad_payload() {
    match process_response(404, b"garbage".to_vec()) {
        Err(Error::DeserializationError) => {}
        _ => panic!("a client error with a bad body is a deserialization error"),
    }
}

#[test]
fn dispatch_other_statuses_are_server_errors() {
    for code in [100u16, 300, 500, 503] {
        match process_response(code, b"ignored".to_vec()) {
            Err(Error::ServerError) => {}
            _ => panic!("other statuses are server errors"),
        }
    }
}

#[test]
fn new_from_str_accepts_a_url() {
    let c = HorizonHttpClient::new_from_str("https://horizon.stellar.org").expect("valid host");
    assert_eq!(c.host, "https://horizon.stellar.org".to_string());
    assert_eq!(c.client_name, "aurora-rs/stellar-sdk".to_string());
    assert_eq!(c.client_version, "0.1.0".to_string());
}

#[test]
fn new_from_str_rejects_a_bad_host() {
    match HorizonHttpClient::new_from_str("not a url") {
        Err(Error::InvalidHost) => {}
        _ => panic!("an invalid host must be rejected"),
    }
}

#[test]
fn decode_error_payload_with_blanks() {
    let body = b"{\"status\": 400,\"title\":\"x\"}".to_vec();
    let e = decode_horizon_error(&body).expect("blanks between tokens are allowed");
    assert_eq!(e.status, 400);
    assert_eq!(e.title, b"x".to_vec());
    let body = b" {\n\t\"title\" : \"Bad Request\" ,\r\n \"status\" : 404 } ".to_vec();
    let e = decode_horizon_error(&body).expect("blanks everywhere are allowed");
    assert_eq!(e.status, 404);
    assert_eq!(e.title, b"Bad Request".to_vec());
}

#[test]
fn decode_error_payload_with_escapes() {
    let body = b"{\"status\":400,\"title\":\"Bad\\u0020\\\"Request\\\\\\n\"}".to_vec();
    let e = decode_horizon_error(&body).expect("escapes are decoded");
    assert_eq!(e.title, b"Bad \"Request\\\n".to_vec());
}

#[test]
fn decode_error_payload_with_surrogate_pair() {
    let body = b"{\"status\":400,\"title\":\"\\uD83D\\uDE00\"}".to_vec();
    let e = decode_horizon_error(&body).expect("surrogate pairs are decoded");
    assert_eq!(e.title, vec![0xF0, 0x9F, 0x98, 0x80]);
}

#[test]
fn decode_error_payload_with_nested_extras() {
    let body = b"{\"type\":\"https://stellar.org/horizon-errors/bad_request\",\"title\":\"Bad Request\",\"status\":400,\"extras\":{\"invalid_field\":\"cursor\",\"reason\":[\"x\",-1.5e3,true,false,null,{}],\"empty\":[]}}".to_vec();
    let e = decode_horizon_error(&body).expect("ignored members may hold any value");
    assert_eq!(e.status, 400);
    assert_eq!(e.title, b"Bad Request".to_vec());
}

#[test]
fn error_payload_round_trip_with_escaped_bytes() {
    for title in [
        b"a\"b".to_vec(),
        b"back\\slash".to_vec(),
        vec![0u8, 1, 9, 10, 13, 31],
        b"plain".to_vec(),
    ] {
        let e = HorizonError { status: 400, title: title.clone() };
        let back = decode_horizon_error(&encode_horizon_error(&e)).expect("round trip");
        assert_eq!(back.status, 400);
        assert_eq!(back.title, title);
    }
}
