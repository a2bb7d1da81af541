use numbat::Emitter;
use numbat::Point;
use numbat::Transport;
use numbat::Value;
use numbat::dest::parse_destination;
use numbat::dest::rewrite_scheme;

#[test]
fn stream_address_parses() {
    let d = parse_destination("tcp://localhost:4677").expect("parses");
    assert_eq!(d.transport, Transport::Stream);
    assert_eq!(d.host, b"localhost".to_vec());
    assert_eq!(d.port, 4677);
    assert_eq!(d.path, Vec::<u8>::new());
}

#[test]
fn http_address_parses_with_path() {
    let d = parse_destination("http://collector:4151/pub?topic=metrics").expect("parses");
    assert_eq!(d.transport, Transport::Http);
    assert_eq!(d.host, b"collector".to_vec());
    assert_eq!(d.port, 4151);
    assert_eq!(d.path, b"/pub?topic=metrics".to_vec());
}

#[test]
fn http_port_defaults_to_eighty() {
    let d = parse_destination("http://collector/pub").expect("parses");
    assert_eq!(d.port, 80);
    assert_eq!(d.host, b"collector".to_vec());
    assert_eq!(d.path, b"/pub".to_vec());
}

#[test]
fn stream_address_must_name_a_port() {
    assert!(parse_destination("tcp://collector").is_none());
    assert!(parse_destination("tcp://collector/x").is_none());
}

#[test]
fn bad_addresses_do_not_parse() {
    assert!(parse_destination("").is_none());
    assert!(parse_destination("ftp://x:1").is_none());
    assert!(parse_destination("tcp://:123").is_none());
    assert!(parse_destination("tcp://h:").is_none());
    assert!(parse_destination("tcp://h:70000").is_none());
    assert!(parse_destination("tcp://h:12x4").is_none());
    assert!(parse_destination("tcp://h:123456").is_none());
    assert!(parse_destination("http://").is_none());
}

#[test]
fn scheme_case_does_not_matter() {
    let d = parse_destination("TCP://localhost:4677").expect("parses");
    assert_eq!(d.transport, Transport::Stream);
    assert_eq!(d.port, 4677);
    let d = parse_destination("Http://collector/pub").expect("parses");
    assert_eq!(d.transport, Transport::Http);
    assert_eq!(d.port, 80);
    // the host keeps its case; only the scheme folds
    let d = parse_destination("tcp://LocalHost:1").expect("parses");
    assert_eq!(d.host, b"LocalHost".to_vec());
}

#[test]
fn bracketed_ipv6_hosts_parse() {
    let d = parse_destination("tcp://[::1]:4677").expect("parses");
    assert_eq!(d.transport, Transport::Stream);
    assert_eq!(d.host, b"::1".to_vec());
    assert_eq!(d.port, 4677);
    assert_eq!(d.path, Vec::<u8>::new());
    let d = parse_destination("http://[2001:db8::7]:8080/pub?topic=metrics").expect("parses");
    assert_eq!(d.host, b"2001:db8::7".to_vec());
    assert_eq!(d.port, 8080);
    assert_eq!(d.path, b"/pub?topic=metrics".to_vec());
    let d = parse_destination("http://[::1]/x").expect("parses");
    assert_eq!(d.host, b"::1".to_vec());
    assert_eq!(d.port, 80);
    // malformed bracket forms
    assert!(parse_destination("tcp://[::1]").is_none());  // stream without a port
    assert!(parse_destination("tcp://[::1:4677").is_none());  // unclosed bracket
    assert!(parse_destination("tcp://[]:4677").is_none());  // empty host
    assert!(parse_destination("tcp://[::1]4677").is_none());  // missing colon
}

#[test]
fn queue_scheme_is_rewritten_to_http() {
    assert_eq!(rewrite_scheme("nsq://queue:4151/pub"), "http://queue:4151/pub");
    assert_eq!(rewrite_scheme("tcp://h:1"), "tcp://h:1");
    assert_eq!(rewrite_scheme("nsq:/"), "nsq:/");
    let mut e = Emitter::new(Point::new(), "svc", "h");
    e.connect("nsq://queue:4151/pub");
    let d = e.dial_request().expect("rewritten address parses");
    assert_eq!(d.transport, Transport::Http);
    assert_eq!(d.host, b"queue".to_vec());
    assert_eq!(d.port, 4151);
}

#[test]
fn http_request_head_is_exact() {
    let d = parse_destination("http://collector:4151/pub?topic=metrics").expect("parses");
    let head = numbat::http::http_request_head(&d, 42);
    assert_eq!(
        std::str::from_utf8(&head).unwrap(),
        "POST /pub?topic=metrics HTTP/1.1\r\nHost: collector\r\nContent-Type: application/json\r\nContent-Length: 42\r\nConnection: close\r\n\r\n"
    );
    let d = parse_destination("http://collector:80").expect("parses");
    let head = numbat::http::http_request_head(&d, 7);
    assert!(std::str::from_utf8(&head).unwrap().starts_with("POST / HTTP/1.1\r\nHost: collector\r\n"));
}

#[test]
fn point_fields_replace_and_remove() {
    let mut p = Point::new();
    p.insert(String::from("k"), Value::Int(1));
    p.insert(String::from("k"), Value::Int(2));
    assert_eq!(p.len(), 1);
    assert!(matches!(p.get("k"), Some(Value::Int(2))));
    assert!(p.contains_key("k"));
    assert!(!p.contains_key("missing"));
    let taken = p.remove("k");
    assert!(matches!(taken, Some(Value::Int(2))));
    assert_eq!(p.len(), 0);
    assert!(p.remove("k").is_none());
}

#[test]
fn point_keeps_fields_sorted_for_the_wire() {
    let mut p = Point::new();
    p.insert(String::from("zz"), Value::Int(1));
    p.insert(String::from("aa"), Value::Int(2));
    p.insert(String::from("mm"), Value::Int(3));
    let bytes = numbat::json::encode_point(&p);
    assert_eq!(std::str::from_utf8(&bytes).unwrap(), "{\"aa\":2,\"mm\":3,\"zz\":1}");
    // insertion order does not matter: the wire form is canonical
    let mut q = Point::new();
    q.insert(String::from("mm"), Value::Int(3));
    q.insert(String::from("zz"), Value::Int(1));
    q.insert(String::from("aa"), Value::Int(2));
    assert_eq!(numbat::json::encode_point(&q), bytes);
}
