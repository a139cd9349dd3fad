use nemo::error::CoreError;
use nemo::home::HttpRequest;
use nemo::tor::{
    check_socks_greeting, http1_head, is_loopback_origin, origin_host, parse_http_response,
    parse_origin, socks_connect_request, socks_domain_skip, socks_greeting, socks_reply_tail,
    SocksTail,
};

#[test]
fn loopback_origins() {
    assert!(is_loopback_origin("http://127.0.0.1:8787"));
    assert!(is_loopback_origin("https://localhost:8443"));
    assert!(!is_loopback_origin("https://home.example:8443"));
}

#[test]
fn origin_host_cuts_scheme_port_and_path() {
    assert_eq!(origin_host("https://home.example:8443/x/"), "home.example");
    assert_eq!(origin_host("localhost///"), "localhost");
    assert_eq!(origin_host("http://[::1]:80"), "[::1]");
    assert_eq!(origin_host("https://[::1"), "[::1");
}

#[test]
fn ipv6_loopback_origins_stay_direct() {
    assert!(is_loopback_origin("http://[::1]:8787"));
    assert!(is_loopback_origin("https://[::1]"));
    assert!(is_loopback_origin("https://[::1]/path"));
    assert!(!is_loopback_origin("https://[::2]:8443"));
}

#[test]
fn parse_origin_defaults_and_ports() {
    assert_eq!(parse_origin("https://home.example").unwrap(), ("home.example".into(), 443, true));
    assert_eq!(parse_origin("http://home.example/").unwrap(), ("home.example".into(), 80, false));
    assert_eq!(parse_origin("http://h:8080/path").unwrap(), ("h".into(), 8080, false));
    assert_eq!(parse_origin("https://h:+443").unwrap(), ("h".into(), 443, true));
    assert_eq!(parse_origin("https://[::1]:9443").unwrap(), ("[::1]".into(), 9443, true));
    assert_eq!(parse_origin("https://[::1]:bad").unwrap(), ("[::1]".into(), 443, true));
    assert!(matches!(parse_origin("http://h:70000"), Err(CoreError::Transport(_))));
    assert!(matches!(parse_origin("http://h:"), Err(CoreError::Transport(_))));
    assert!(matches!(parse_origin("http://[::1"), Err(CoreError::Transport(_))));
}

#[test]
fn http_response_status_and_body() {
    let r = parse_http_response(b"HTTP/1.1 204 No Content\r\nX: y\r\n\r\nbody\r\n\r\nmore").unwrap();
    assert_eq!(r.status, 204);
    assert_eq!(r.body, b"body\r\n\r\nmore".to_vec());
    let r = parse_http_response(b"HTTP/1.1   200\r\n\r\n").unwrap();
    assert_eq!(r.status, 200);
    assert!(r.body.is_empty());
}

#[test]
fn http_response_faults_are_transport_errors() {
    let t = |m: &str| CoreError::Transport(m.to_string());
    assert_eq!(parse_http_response(b"HTTP/1.1 200 OK\r\n").unwrap_err(), t("Tor HTTP response has no header"));
    assert_eq!(parse_http_response(b"\xff\r\n\r\n").unwrap_err(), t("Tor HTTP header is not UTF-8"));
    assert_eq!(parse_http_response(b"HTTP/1.1\r\n\r\n").unwrap_err(), t("Tor HTTP status"));
    assert_eq!(parse_http_response(b"HTTP/1.1 99999\r\n\r\n").unwrap_err(), t("Tor HTTP status"));
    assert_eq!(parse_http_response(b"\r\n\r\n").unwrap_err(), t("Tor HTTP status"));
}

#[test]
fn socks_exchange_bytes() {
    assert_eq!(socks_greeting(), vec![5, 1, 0]);
    assert_eq!(check_socks_greeting([5, 0]), Ok(()));
    assert_eq!(check_socks_greeting([5, 2]), Err(CoreError::Transport("Tor SOCKS greeting refused".into())));
    assert_eq!(
        socks_connect_request(b"ab", 0x1f90).unwrap(),
        vec![5, 1, 0, 3, 2, b'a', b'b', 0x1f, 0x90]
    );
    assert_eq!(
        socks_connect_request(&[b'x'; 256], 80).unwrap_err(),
        CoreError::Transport("home host too long for SOCKS".into())
    );
    assert_eq!(socks_connect_request(&[b'x'; 255], 80).unwrap().len(), 262);
}

#[test]
fn socks_reply_tails() {
    assert_eq!(socks_reply_tail([5, 0, 0, 1]), Ok(SocksTail::Skip(6)));
    assert_eq!(socks_reply_tail([5, 0, 0, 3]), Ok(SocksTail::Domain));
    assert_eq!(socks_reply_tail([5, 0, 0, 4]), Ok(SocksTail::Skip(18)));
    assert_eq!(socks_reply_tail([5, 0, 0, 2]), Err(CoreError::Transport("Tor SOCKS address type".into())));
    assert_eq!(socks_reply_tail([5, 4, 0, 1]), Err(CoreError::Transport("Tor SOCKS connect failed (4)".into())));
    assert_eq!(socks_domain_skip(255), 257);
}

#[test]
fn http1_request_head() {
    let get = HttpRequest { method: "GET", path: "/v1/x".into(), headers: vec![("a".into(), "b".into())], body: vec![] };
    assert_eq!(http1_head("h.example", &get), "GET /v1/x HTTP/1.1\r\nHost: h.example\r\nConnection: close\r\na: b\r\n\r\n");
    let post = HttpRequest { method: "POST", path: "/p".into(), headers: vec![], body: vec![0; 12] };
    assert_eq!(
        http1_head("h", &post),
        "POST /p HTTP/1.1\r\nHost: h\r\nConnection: close\r\ncontent-type: application/cbor\r\ncontent-length: 12\r\n\r\n"
    );
}
