use wiring::error::WireError;
use wiring::listener::ConnectInfo;
use wiring::listener::ListenerAction;
use wiring::listener::ListenerEvent;
use wiring::listener::UrlText;
use wiring::listener::WireInfo;
use wiring::listener::WireRegistry;
use wiring::unwire::BufUnWire;
use wiring::wire::BufWire;

#[test]
fn a_url_is_kept_by_its_serialization() {
    match ConnectInfo::url("ws://Example.COM:80/a/../b") {
        Some(ConnectInfo::Url(s)) => assert_eq!(s.as_str(), "ws://example.com/b"),
        other => panic!("unexpected {:?}", other),
    }
    match ConnectInfo::url("https://example.com") {
        Some(ConnectInfo::Url(s)) => assert_eq!(s.as_str(), "https://example.com/"),
        other => panic!("unexpected {:?}", other),
    }
}

#[test]
fn text_that_is_no_url_gives_nothing() {
    assert!(ConnectInfo::url("not a url").is_none());
    assert!(ConnectInfo::url("").is_none());
}

#[test]
fn connect_info_bytes() {
    let mut buf = Vec::new();
    BufWire::new(&mut buf).wire(&ConnectInfo::TcpStream("a".to_string())).unwrap();
    assert_eq!(buf, vec![0u8, 0, 0, 0, 0, 0, 0, 0, 1, b'a']);
    let url = ConnectInfo::url("http://h/").unwrap();
    let mut buf = Vec::new();
    BufWire::new(&mut buf).wire(&url).unwrap();
    let mut expected = vec![1u8, 0, 0, 0, 0, 0, 0, 0, 9];
    expected.extend_from_slice(b"http://h/");
    assert_eq!(buf, expected);
}

#[test]
fn connect_info_roundtrip() {
    let url = ConnectInfo::url("tcp://10.0.0.1:9000").unwrap();
    let mut buf = Vec::new();
    BufWire::new(&mut buf).wire(&url).unwrap();
    match BufUnWire::new(buf.as_slice()).unwire::<ConnectInfo>().unwrap() {
        ConnectInfo::Url(s) => assert_eq!(s.as_str(), "tcp://10.0.0.1:9000"),
        other => panic!("unexpected {:?}", other),
    }
}

#[test]
fn connect_info_with_a_bad_tag_or_url_is_invalid() {
    assert!(matches!(
        BufUnWire::new(&[2u8, 0, 0, 0, 0, 0, 0, 0, 0]).unwire::<ConnectInfo>(),
        Err(WireError::InvalidData)
    ));
    let mut bytes = vec![1u8, 0, 0, 0, 0, 0, 0, 0, 3];
    bytes.extend_from_slice(b"a b");
    assert!(matches!(BufUnWire::new(&bytes).unwire::<ConnectInfo>(), Err(WireError::InvalidData)));
}

#[test]
fn wire_info_travels_as_id_key_and_connect_info() {
    let info = WireInfo::new(1, 2, ConnectInfo::TcpStream("h:1".to_string()));
    let mut buf = Vec::new();
    BufWire::new(&mut buf).wire(&info).unwrap();
    let mut expected = vec![0u8, 0, 0, 0, 0, 0, 0, 1];
    expected.extend_from_slice(&[0u8; 15]);
    expected.push(2);
    expected.extend_from_slice(&[0u8, 0, 0, 0, 0, 0, 0, 0, 3]);
    expected.extend_from_slice(b"h:1");
    assert_eq!(buf, expected);

    let back = BufUnWire::new(buf.as_slice()).unwire::<WireInfo>().unwrap();
    assert_eq!(back.wire_id(), 1);
    assert_eq!(back.access_key(), 2);
    match back.connect_info() {
        ConnectInfo::TcpStream(s) => assert_eq!(s, "h:1"),
        other => panic!("unexpected {:?}", other),
    }
}

#[test]
fn registry_routes_by_id_and_key() {
    let mut reg = WireRegistry::new();
    let (id, key) = reg.open_wire();
    assert!(reg.contains(id));
    assert_eq!(reg.route(id, key), Ok(()));
    assert_eq!(reg.route(id, key.wrapping_add(1)), Err(WireError::PermissionDenied));
    assert_eq!(reg.route(id.wrapping_add(1), key), Err(WireError::NotFound));
    reg.drop_wire(id);
    assert!(!reg.contains(id));
    assert_eq!(reg.route(id, key), Err(WireError::NotFound));
}

#[test]
fn registry_gives_distinct_ids() {
    let mut reg = WireRegistry::new();
    let mut ids = Vec::new();
    for _ in 0..50 {
        let (id, _) = reg.open_wire();
        assert!(!ids.contains(&id));
        ids.push(id);
    }
    let fresh = reg.fresh_id();
    assert!(!reg.contains(fresh));
}

#[test]
fn listener_opens_forwards_and_drops() {
    let mut reg = WireRegistry::new();
    let (id, key) = match reg.handle(ListenerEvent::OutgoingWire) {
        ListenerAction::Opened { wire_id, access_key } => (wire_id, access_key),
        other => panic!("unexpected {:?}", other),
    };
    assert!(reg.contains(id));

    match reg.handle(ListenerEvent::Incomingwire { forward_info: None }) {
        ListenerAction::Opened { wire_id, .. } => {
            assert_ne!(wire_id, id);
            assert!(reg.contains(wire_id));
        }
        other => panic!("unexpected {:?}", other),
    }

    match reg.handle(ListenerEvent::Incomingwire { forward_info: Some((id, key)) }) {
        ListenerAction::Forwarded { wire_id, target, outcome, .. } => {
            assert_ne!(wire_id, id);
            assert!(!reg.contains(wire_id));
            assert_eq!(target, id);
            assert_eq!(outcome, Ok(()));
        }
        other => panic!("unexpected {:?}", other),
    }

    match reg.handle(ListenerEvent::Incomingwire { forward_info: Some((id, key ^ 1)) }) {
        ListenerAction::Forwarded { outcome, .. } => assert_eq!(outcome, Err(WireError::PermissionDenied)),
        other => panic!("unexpected {:?}", other),
    }

    assert!(matches!(reg.handle(ListenerEvent::DropWire(id)), ListenerAction::Dropped));
    assert!(!reg.contains(id));

    match reg.handle(ListenerEvent::Incomingwire { forward_info: Some((id, key)) }) {
        ListenerAction::Forwarded { outcome, .. } => assert_eq!(outcome, Err(WireError::NotFound)),
        other => panic!("unexpected {:?}", other),
    }

    assert!(matches!(reg.handle(ListenerEvent::Shutdown), ListenerAction::Shutdown));
}

#[test]
fn registering_or_dropping_one_wire_leaves_another_routed() {
    let mut reg = WireRegistry::new();
    let (first, first_key) = reg.open_wire();
    let (second, _) = reg.open_wire();
    assert_ne!(first, second);
    assert_eq!(reg.route(first, first_key), Ok(()));
    reg.drop_wire(second);
    assert_eq!(reg.route(first, first_key), Ok(()));
    assert_eq!(reg.route(first, first_key ^ 2), Err(WireError::PermissionDenied));
}

#[test]
fn a_url_text_parses_back_to_itself() {
    let url = UrlText::parse("HTTP://Example.com:80").unwrap();
    assert_eq!(url.as_str(), "http://example.com/");
    let again = UrlText::parse(url.as_str()).unwrap();
    assert_eq!(again.as_str(), url.as_str());
    assert_eq!(url.clone().as_str(), url.as_str());
    assert!(UrlText::parse("relative/path").is_none());
}
