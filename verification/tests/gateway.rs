use socket_gateway::gateway::{LenientStep, NetEvent, SocketGateway, StrictStep};

#[test]
fn configure_rejects_malformed_addresses() {
    let mut gw = SocketGateway::new();
    assert!(gw.configure("999.1.1.1", 80).is_err());
    assert_eq!(gw.last_error(), "E1\r\n");
    assert!(gw.configure("not-an-ip", 80).is_err());
    assert_eq!(gw.last_error(), "E1\r\n");
    assert!(gw.configure("", 80).is_err());
    assert_eq!(gw.last_error(), "E1\r\n");
    assert!(gw.configure("1.2.3.04", 80).is_err());
    assert!(gw.configure("1.2.3", 80).is_err());
    assert!(gw.configure("1.2.3.4.5", 80).is_err());
    assert!(gw.configure("256.1.1.1", 80).is_err());
    assert!(gw.configure("1.2.3.4 ", 80).is_err());
    assert!(!gw.is_configured());
}

#[test]
fn configure_accepts_port_boundaries() {
    let mut gw = SocketGateway::new();
    assert!(gw.configure("127.0.0.1", -1).is_err());
    assert_eq!(gw.last_error(), "E2\r\n");
    assert!(gw.configure("127.0.0.1", 65536).is_err());
    assert_eq!(gw.last_error(), "E2\r\n");
    assert!(!gw.is_configured());
    assert_eq!(gw.configure("127.0.0.1", 0).unwrap(), "Ok\r\n");
    assert_eq!(gw.configure("127.0.0.1", 65535).unwrap(), "Ok\r\n");
    assert!(gw.is_configured());
    // failures never touch the stored endpoint
    assert!(gw.configure("bad", 80).is_err());
    assert!(gw.is_configured());
}

#[test]
fn ipv6_literal_fails_endpoint_recheck() {
    let mut gw = SocketGateway::new();
    // a valid IPv6 literal passes address validation, but the combined
    // `address:port` endpoint literal cannot parse without brackets
    assert!(gw.configure("::1", 80).is_err());
    assert_eq!(gw.last_error(), "E1\r\n");
    assert!(gw.configure("2001:db8::ff00:42:8329", 80).is_err());
    assert_eq!(gw.last_error(), "E1\r\n");
    // yet an out-of-range port is still reported as the port's fault,
    // which tells a valid IPv6 literal apart from a malformed address
    assert!(gw.configure("::1", 70000).is_err());
    assert_eq!(gw.last_error(), "E2\r\n");
    assert!(gw.configure("gggg::1", 70000).is_err());
    assert_eq!(gw.last_error(), "E1\r\n");
    assert!(!gw.is_configured());
}

#[test]
fn ipv6_validation_covers_compressed_forms() {
    let mut gw = SocketGateway::new();
    // each valid literal is told apart from a malformed one by the port
    // error taking precedence only after the address check passes
    for good in [
        "::",
        "::1",
        "1::",
        "1:2:3:4:5:6:7:8",
        "1:2:3:4:5:6:7::",
        "::1:2:3:4:5:6:7",
        "fe80::A:b",
        "::ffff:127.0.0.1",
        "1:2:3:4:5:6:7.8.9.10",
        "1::2:1.2.3.4",
    ] {
        assert!(gw.configure(good, -1).is_err(), "{}", good);
        assert_eq!(gw.last_error(), "E2\r\n", "{}", good);
    }
    for bad in [
        ":",
        ":::",
        ":1:2:3:4:5:6:7",
        "1:2:3:4:5:6:7",
        "1:2:3:4:5:6:7:8:9",
        "1:2:3:4:5:6:7:8::",
        "1:2:3:4::5:6:7:8",
        "12345::",
        "1::2::3",
        "::1.2.3.4:5",
        "::1.2.3.04",
        "1:2:3:4:5:6:7:1.2.3.4",
        "fe80::1%eth0",
    ] {
        assert!(gw.configure(bad, -1).is_err(), "{}", bad);
        assert_eq!(gw.last_error(), "E1\r\n", "{}", bad);
    }
}

#[test]
fn unconfigured_operations_report_e3() {
    let mut gw = SocketGateway::new();
    assert!(!gw.is_configured());
    assert_eq!(gw.last_error(), "E0\r\n");
    assert!(gw.test_connection_begin().is_err());
    assert_eq!(gw.last_error(), "E3\r\n");

    let mut gw2 = SocketGateway::new();
    match gw2.send_strict_begin("{\"method\":\"x\"}") {
        StrictStep::Done(r) => assert!(r.is_err()),
        StrictStep::Dial(..) => panic!("dialed while unconfigured"),
    }
    assert_eq!(gw2.last_error(), "E3\r\n");

    let mut gw3 = SocketGateway::new();
    match gw3.send_lenient_begin("{\"method\":\"x\"}") {
        LenientStep::Done(s) => {
            assert_eq!(s, "{\"method\":\"sibling\", \"result\":\"ERROR\"}\r\n")
        }
        LenientStep::Dial(..) => panic!("dialed while unconfigured"),
    }
    assert_eq!(gw3.last_error(), "E3\r\n");
}

#[test]
fn failed_probe_reports_e4() {
    let mut gw = SocketGateway::new();
    gw.configure("127.0.0.1", 9999).unwrap();
    let ep = gw.test_connection_begin().unwrap();
    assert_eq!((ep.o0, ep.o1, ep.o2, ep.o3, ep.port), (127, 0, 0, 1, 9999));
    assert!(gw.test_connection_finish(false).is_err());
    assert_eq!(gw.last_error(), "E4\r\n");
    // a successful dial returns the fixed acknowledgement and leaves the
    // recorded error alone
    assert_eq!(gw.test_connection_finish(true).unwrap(), "Ok");
    assert_eq!(gw.last_error(), "E4\r\n");
}

#[test]
fn sibling_is_answered_locally() {
    // no endpoint is configured, so a dial would be impossible: the
    // sibling method must short-circuit before any connection
    let mut gw = SocketGateway::new();
    match gw.send_lenient_begin("{\"method\":\"sibling\"}") {
        LenientStep::Done(s) => {
            assert_eq!(s, "{\"method\":\"sibling\", \"result\": \"\u{41e}\u{41a}\"}\r\n")
        }
        LenientStep::Dial(..) => panic!("sibling must not dial"),
    }
    assert_eq!(gw.last_error(), "E0\r\n");

    match gw.send_strict_begin("{\"method\":\"sibling\", \"extra\":1}") {
        StrictStep::Done(r) => {
            assert_eq!(r.unwrap(), "{\"method\":\"sibling\", \"result\": \"\u{41e}\u{41a}\"}\r\n")
        }
        StrictStep::Dial(..) => panic!("sibling must not dial"),
    }
    assert_eq!(gw.last_error(), "E0\r\n");
}

#[test]
fn parse_failures_are_asymmetric() {
    let mut gw = SocketGateway::new();
    match gw.send_strict_begin("not json") {
        StrictStep::Done(r) => assert!(r.is_err()),
        StrictStep::Dial(..) => panic!("dialed on a parse failure"),
    }
    // ParseFailed maps to the catch-all code
    assert_eq!(gw.last_error(), "E0\r\n");

    let mut gw2 = SocketGateway::new();
    match gw2.send_lenient_begin("not json") {
        LenientStep::Done(s) => assert_eq!(s, "Json parse error"),
        LenientStep::Dial(..) => panic!("dialed on a parse failure"),
    }
    // the lenient parse failure does not touch the recorded error
    gw2.test_connection_begin().ok();
    assert_eq!(gw2.last_error(), "E3\r\n");
    match gw2.send_lenient_begin("not json") {
        LenientStep::Done(s) => assert_eq!(s, "Json parse error"),
        LenientStep::Dial(..) => panic!("dialed on a parse failure"),
    }
    assert_eq!(gw2.last_error(), "E3\r\n");
}

#[test]
fn empty_or_non_object_json_is_a_parse_failure() {
    let mut gw = SocketGateway::new();
    for bad in ["{}", "[1, 2]", "\"method\"", "42", "null"] {
        match gw.send_lenient_begin(bad) {
            LenientStep::Done(s) => assert_eq!(s, "Json parse error", "{}", bad),
            LenientStep::Dial(..) => panic!("dialed on {}", bad),
        }
    }
    // a non-empty object without a string "method" routes to the network
    gw.configure("127.0.0.1", 9999).unwrap();
    match gw.send_lenient_begin("{\"other\":1}") {
        LenientStep::Dial(_, payload) => assert_eq!(payload, "{\"other\":1}"),
        LenientStep::Done(s) => panic!("answered locally: {}", s),
    }
    match gw.send_lenient_begin("{\"method\":7}") {
        LenientStep::Dial(_, payload) => assert_eq!(payload, "{\"method\":7}"),
        LenientStep::Done(s) => panic!("answered locally: {}", s),
    }
}

#[test]
fn round_trip_echo() {
    let mut gw = SocketGateway::new();
    gw.configure("127.0.0.1", 9999).unwrap();
    let msg = "{\"method\":\"x\"}";
    match gw.send_strict_begin(msg) {
        StrictStep::Dial(ep, payload) => {
            assert_eq!((ep.o0, ep.o1, ep.o2, ep.o3, ep.port), (127, 0, 0, 1, 9999));
            // no NUL byte for an ordinary method
            assert_eq!(payload, msg);
            // the peer echoes the payload back
            let got = gw.send_strict_finish(NetEvent::Received(payload.into_bytes())).unwrap();
            assert_eq!(got, format!("{}\r\n", msg));
        }
        StrictStep::Done(..) => panic!("expected a dial"),
    }
    assert_eq!(gw.last_error(), "E0\r\n");
}

#[test]
fn ping_device_appends_a_nul_byte() {
    let mut gw = SocketGateway::new();
    gw.configure("10.0.0.2", 1234).unwrap();
    match gw.send_strict_begin("{\"method\":\"PingDevice\"}") {
        StrictStep::Dial(_, payload) => {
            assert_eq!(payload, "{\"method\":\"PingDevice\"}\0")
        }
        StrictStep::Done(..) => panic!("expected a dial"),
    }
}

#[test]
fn strict_network_failures_set_codes() {
    let mut gw = SocketGateway::new();
    gw.configure("127.0.0.1", 9999).unwrap();
    assert!(matches!(gw.send_strict_begin("{\"method\":\"x\"}"), StrictStep::Dial(..)));
    assert!(gw.send_strict_finish(NetEvent::ConnectFailed).is_err());
    assert_eq!(gw.last_error(), "E4\r\n");
    assert!(gw.send_strict_finish(NetEvent::WriteFailed).is_err());
    assert_eq!(gw.last_error(), "E0\r\n");
    assert!(gw.send_strict_finish(NetEvent::Received(Vec::new())).is_err());
    assert_eq!(gw.last_error(), "E5\r\n");
    assert!(gw.send_strict_finish(NetEvent::ReadFailed).is_err());
    assert_eq!(gw.last_error(), "E0\r\n");
}

#[test]
fn lenient_network_failures_yield_fixed_payload() {
    let mut gw = SocketGateway::new();
    gw.configure("127.0.0.1", 9999).unwrap();
    let fixed = "{\"method\":\"sibling\", \"result\":\"ERROR\"}\r\n";
    assert!(matches!(gw.send_lenient_begin("{\"method\":\"PingDevice\"}"), LenientStep::Dial(..)));
    // the peer closed without replying: zero bytes read
    assert_eq!(gw.send_lenient_finish(NetEvent::Received(Vec::new())), fixed);
    assert_eq!(gw.last_error(), "E5\r\n");
    assert_eq!(gw.send_lenient_finish(NetEvent::ConnectFailed), fixed);
    assert_eq!(gw.last_error(), "E4\r\n");
    assert_eq!(gw.send_lenient_finish(NetEvent::WriteFailed), fixed);
    assert_eq!(gw.last_error(), "E0\r\n");
}

#[test]
fn responses_are_decoded_leniently() {
    let mut gw = SocketGateway::new();
    gw.configure("127.0.0.1", 9999).unwrap();
    assert!(matches!(gw.send_lenient_begin("{\"method\":\"x\"}"), LenientStep::Dial(..)));
    // Cyrillic UTF-8 decodes as text, an invalid byte is replaced
    let reply = gw.send_lenient_finish(NetEvent::Received(vec![0xd0, 0x9e, 0xff, b'a']));
    assert_eq!(reply, "\u{41e}\u{fffd}a\r\n");
}

#[test]
fn last_error_is_stable() {
    let mut gw = SocketGateway::new();
    let a = gw.last_error();
    let b = gw.last_error();
    assert_eq!(a, b);
    assert_eq!(a, "E0\r\n");
    gw.test_connection_begin().ok();
    let c = gw.last_error();
    let d = gw.last_error();
    assert_eq!(c, d);
    assert_eq!(c, "E3\r\n");
}
