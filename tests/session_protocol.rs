use filexfer::{serve, Catalog, CatalogEntry, Packet, Reply, Request, SessionError};

fn catalog() -> Catalog {
    Catalog {
        entries: vec![
            CatalogEntry { name: "a.txt".to_string(), size: 10 },
            CatalogEntry { name: "b.bin".to_string(), size: 2048 },
        ],
    }
}

fn encode(r: &Request) -> Vec<u8> {
    let mut wire = Vec::new();
    r.send(&mut wire);
    wire
}

#[test]
fn stop_request_is_one_zero_byte() {
    assert_eq!(encode(&Request::Stop), vec![0]);
    let (r, used) = Request::recv(&[0, 9, 9]).unwrap();
    assert_eq!(used, 1);
    assert!(matches!(r, Request::Stop));
}

#[test]
fn fetch_request_wire_form() {
    let wire = encode(&Request::Fetch("b.bin".to_string()));
    let mut expected = vec![1, 0, 0, 0, 0, 0, 0, 0, 5];
    expected.extend(b"b.bin");
    assert_eq!(wire, expected);
    let (r, used) = Request::recv(&wire).unwrap();
    assert_eq!(used, wire.len());
    match r {
        Request::Fetch(name) => assert_eq!(name, "b.bin"),
        Request::Stop => panic!("expected a file request"),
    }
}

#[test]
fn any_nonzero_control_byte_continues() {
    let wire = vec![7, 0, 0, 0, 0, 0, 0, 0, 1, b'z'];
    match Request::recv(&wire).unwrap().0 {
        Request::Fetch(name) => assert_eq!(name, "z"),
        Request::Stop => panic!("expected a file request"),
    }
}

#[test]
fn malformed_requests_are_protocol_violations() {
    assert_eq!(Request::recv(&[]).err(), Some(SessionError::ProtocolViolation));
    assert_eq!(Request::recv(&[1, 0, 0]).err(), Some(SessionError::ProtocolViolation));
    assert_eq!(
        Request::recv(&[1, 0, 0, 0, 0, 0, 0, 0, 3, b'a']).err(),
        Some(SessionError::ProtocolViolation)
    );
    assert_eq!(
        Request::recv(&[1, 0, 0, 0, 0, 0, 0, 0, 1, 0xFF]).err(),
        Some(SessionError::ProtocolViolation)
    );
}

#[test]
fn request_wire_len() {
    assert_eq!(Request::wire_len(&[]), Ok(1));
    assert_eq!(Request::wire_len(&[0]), Ok(1));
    assert_eq!(Request::wire_len(&[1, 0]), Ok(9));
    assert_eq!(Request::wire_len(&[1, 0, 0, 0, 0, 0, 0, 0, 4]), Ok(13));
}

#[test]
fn serve_streams_known_file() {
    let c = catalog();
    assert_eq!(serve(&c, &Request::Fetch("b.bin".to_string())), Ok(Reply::Stream(1)));
    assert_eq!(serve(&c, &Request::Fetch("a.txt".to_string())), Ok(Reply::Stream(0)));
}

#[test]
fn serve_unknown_file_is_file_not_found() {
    let c = catalog();
    assert_eq!(serve(&c, &Request::Fetch("ghost.dat".to_string())), Err(SessionError::FileNotFound));
}

#[test]
fn serve_stop_closes_and_empty_name_is_ignored() {
    let c = catalog();
    assert_eq!(serve(&c, &Request::Stop), Ok(Reply::Close));
    assert_eq!(serve(&c, &Request::Fetch(String::new())), Ok(Reply::Ignore));
}
