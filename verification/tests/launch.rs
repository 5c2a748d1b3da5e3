use blackhole::{
    always_200_response, spawn_blackhole_http_server, termination_report, Request, SocketAddress,
    Uri,
};

fn request(method: &str, target: &str, body: &[u8]) -> Request {
    Request {
        method: method.to_string(),
        target: target.to_string(),
        headers: vec![("content-type".to_string(), "text/plain".to_string())],
        body: body.to_vec(),
    }
}

#[test]
fn launch_on_loopback_gives_the_http_uri_of_the_address() {
    let address = SocketAddress::v4([127, 0, 0, 1], 43210);
    let launch = spawn_blackhole_http_server(address).expect("a socket address is an authority");
    assert_eq!(launch.uri.to_text(), "http://127.0.0.1:43210/");
    assert_eq!(launch.bind, address);
    let answer = always_200_response(request("GET", "/", b"")).unwrap();
    assert_eq!(answer.status, 200);
    assert!(answer.body.is_empty());
}

#[test]
fn launched_uri_has_scheme_authority_and_path() {
    let address = SocketAddress::v4([10, 0, 0, 7], 80);
    let launch = spawn_blackhole_http_server(address).unwrap();
    assert_eq!(launch.uri.scheme(), "http");
    assert_eq!(launch.uri.authority(), address.to_text());
    assert_eq!(launch.uri.authority(), "10.0.0.7:80");
    assert_eq!(launch.uri.path(), "/");
}

#[test]
fn launch_on_ipv6_puts_the_address_in_brackets() {
    let address = SocketAddress::v6([0, 0, 0, 0, 0, 0, 0, 1], 3000);
    let launch = spawn_blackhole_http_server(address).unwrap();
    assert_eq!(launch.uri.to_text(), "http://[::1]:3000/");
    assert_eq!(launch.uri.authority(), "[::1]:3000");
    assert_eq!(launch.bind, address);
}

#[test]
fn launch_on_port_zero() {
    let launch = spawn_blackhole_http_server(SocketAddress::v4([0, 0, 0, 0], 0)).unwrap();
    assert_eq!(launch.uri.to_text(), "http://0.0.0.0:0/");
}

#[test]
fn two_launches_have_each_their_own_uri() {
    let first = spawn_blackhole_http_server(SocketAddress::v4([127, 0, 0, 1], 4001)).unwrap();
    let second = spawn_blackhole_http_server(SocketAddress::v4([127, 0, 0, 1], 4002)).unwrap();
    assert_eq!(first.uri.to_text(), "http://127.0.0.1:4001/");
    assert_eq!(second.uri.to_text(), "http://127.0.0.1:4002/");
    assert_ne!(first.uri.to_text(), second.uri.to_text());
}

#[test]
fn every_request_is_answered_alike() {
    let requests = vec![
        request("GET", "/", b""),
        request("POST", "/submit?x=1&y=2", b"{\"key\": \"value\"}"),
        request("DELETE", "/a/b/c", b"\x00\x01\x02"),
        Request { method: String::new(), target: String::new(), headers: Vec::new(), body: Vec::new() },
    ];
    for one in requests {
        let answer = always_200_response(one).unwrap();
        assert_eq!(answer.status, 200);
        assert_eq!(answer.body, Vec::<u8>::new());
    }
}

#[test]
fn uri_takes_a_host_name_with_a_port() {
    let uri = Uri::http("example.org:8080").unwrap();
    assert_eq!(uri.scheme(), "http");
    assert_eq!(uri.authority(), "example.org:8080");
    assert_eq!(uri.path(), "/");
    assert_eq!(uri.to_text(), "http://example.org:8080/");
}

#[test]
fn uri_refuses_what_is_no_authority() {
    assert!(Uri::http("").is_none());
    assert!(Uri::http("two words").is_none());
    assert!(Uri::http("host/path").is_none());
}

#[test]
fn uri_from_built_wants_scheme_and_authority() {
    let whole = Uri::from_built(Some((
        Some("http".to_string()),
        Some("127.0.0.1:1".to_string()),
        "/".to_string(),
    )))
    .unwrap();
    assert_eq!(whole.to_text(), "http://127.0.0.1:1/");
    assert!(Uri::from_built(None).is_none());
    assert!(Uri::from_built(Some((None, Some("h".to_string()), "/".to_string()))).is_none());
    assert!(Uri::from_built(Some((Some("http".to_string()), None, "/".to_string()))).is_none());
}

#[test]
fn termination_in_order_reports_nothing() {
    assert_eq!(termination_report(Ok(())), None);
}

#[test]
fn termination_on_error_reports_one_line() {
    assert_eq!(
        termination_report(Err("address in use".to_string())),
        Some("blackhole HTTP server error: address in use".to_string())
    );
    assert_eq!(
        termination_report(Err(String::new())),
        Some("blackhole HTTP server error: ".to_string())
    );
}

#[test]
fn launches_on_ipv6_addresses_differ_with_zone_and_port() {
    let segments = [0xfe80, 0, 0, 0, 0, 0, 0, 1];
    let first = spawn_blackhole_http_server(SocketAddress::v6(segments, 8000)).unwrap();
    let second = spawn_blackhole_http_server(SocketAddress::v6(segments, 8001)).unwrap();
    assert_eq!(first.uri.to_text(), "http://[fe80::1]:8000/");
    assert_eq!(second.uri.to_text(), "http://[fe80::1]:8001/");
}

#[test]
fn launch_is_decided_by_the_address_alone() {
    let address = SocketAddress::v4([192, 168, 0, 1], 65535);
    let once = spawn_blackhole_http_server(address).unwrap();
    let again = spawn_blackhole_http_server(address).unwrap();
    assert_eq!(once.uri.to_text(), "http://192.168.0.1:65535/");
    assert_eq!(once.uri.to_text(), again.uri.to_text());
    assert_eq!(once.bind, again.bind);
}
