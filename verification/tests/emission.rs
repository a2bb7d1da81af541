use numbat::EmitError;
use numbat::EmitPlan;
use numbat::Emitter;
use numbat::Point;
use numbat::Transport;
use numbat::Value;
use numbat::clock::now_millis;
use numbat::merge;

#[test]
fn it_works() {
}

fn text(s: &str) -> Value {
    Value::Text(String::from(s))
}

fn send_bytes(plan: EmitPlan) -> Vec<u8> {
    match plan {
        EmitPlan::Send(_, bytes) => bytes,
        EmitPlan::Drop(e) => panic!("expected a payload, point was dropped: {:?}", e),
    }
}

fn parse_line(bytes: &[u8]) -> serde_json::Value {
    let line = std::str::from_utf8(bytes).expect("payload is UTF-8");
    let line = line.strip_suffix('\n').unwrap_or(line);
    serde_json::from_str(line).expect("payload is one JSON object")
}

#[test]
fn merge_combines_and_override_wins() {
    let mut d = Point::new();
    d.insert(String::from("a"), Value::Int(1));
    d.insert(String::from("b"), text("x"));
    let mut p = Point::new();
    p.insert(String::from("b"), text("y"));
    p.insert(String::from("c"), Value::Bool(true));
    let m = merge(&d, &p);
    assert_eq!(m.len(), 3);
    assert!(matches!(m.get("a"), Some(Value::Int(1))));
    match m.get("b") {
        Some(Value::Text(s)) => assert_eq!(s, "y"),
        other => panic!("unexpected b: {:?}", other),
    }
    assert!(matches!(m.get("c"), Some(Value::Bool(true))));
    // neither input was changed
    assert_eq!(d.len(), 2);
    assert_eq!(p.len(), 2);
}

#[test]
fn missing_name_is_dropped_silently() {
    let mut e = Emitter::new(Point::new(), "svc", "h");
    e.connect("tcp://localhost:4677");
    let mut p = Point::new();
    p.insert(String::from("value"), Value::Int(3));
    match e.emit_point(&p) {
        EmitPlan::Drop(EmitError::MissingName) => {},
        other => panic!("unexpected plan: {:?}", other),
    }
}

#[test]
fn name_that_is_not_text_is_dropped() {
    let mut e = Emitter::new(Point::new(), "svc", "h");
    e.connect("tcp://localhost:4677");
    let mut p = Point::new();
    p.insert(String::from("name"), Value::Int(9));
    match e.emit_point(&p) {
        EmitPlan::Drop(EmitError::NameNotText) => {},
        other => panic!("unexpected plan: {:?}", other),
    }
}

#[test]
fn name_is_namespaced() {
    let mut e = Emitter::new(Point::new(), "svc", "h");
    e.connect("tcp://localhost:4677");
    let obj = parse_line(&send_bytes(e.emit_name("x")));
    assert_eq!(obj["name"], serde_json::Value::String(String::from("svc.x")));
}

#[test]
fn empty_namespace_leaves_name_alone() {
    let mut e = Emitter::new(Point::new(), "", "h");
    e.connect("tcp://localhost:4677");
    let obj = parse_line(&send_bytes(e.emit_name("x")));
    assert_eq!(obj["name"], serde_json::Value::String(String::from("x")));
}

#[test]
fn value_defaults_to_one_when_omitted() {
    let mut e = Emitter::new(Point::new(), "svc", "h");
    e.connect("tcp://localhost:4677");
    let obj = parse_line(&send_bytes(e.emit_name("x")));
    assert_eq!(obj["value"], serde_json::Value::from(1));
}

#[test]
fn supplied_value_is_kept() {
    let mut e = Emitter::new(Point::new(), "svc", "h");
    e.connect("tcp://localhost:4677");
    let obj = parse_line(&send_bytes(e.emit("x", Value::Int(42))));
    assert_eq!(obj["value"], serde_json::Value::from(42));
}

#[test]
fn time_is_a_nonnegative_integer_near_now() {
    let mut e = Emitter::new(Point::new(), "svc", "h");
    e.connect("tcp://localhost:4677");
    let before = now_millis();
    let obj = parse_line(&send_bytes(e.emit_name("x")));
    let after = now_millis();
    let t = obj["time"].as_i64().expect("time is an integer");
    assert!(t >= 0);
    assert!(t >= before && t <= after);
}

#[test]
fn emitted_object_carries_defaults_host_and_tags() {
    // the first wire scenario: defaults {tag:"prefilled"}, app "svc"
    let mut tmpl = Point::new();
    tmpl.insert(String::from("tag"), text("prefilled"));
    let mut e = Emitter::new(tmpl, "svc", "testhost");
    e.connect("tcp://localhost:4677");
    let obj = parse_line(&send_bytes(e.emit("unsigned16", Value::Int(256))));
    assert_eq!(obj["name"], serde_json::Value::String(String::from("svc.unsigned16")));
    assert_eq!(obj["tag"], serde_json::Value::String(String::from("prefilled")));
    assert_eq!(obj["value"], serde_json::Value::from(256));
    assert_eq!(obj["host"], serde_json::Value::String(String::from("testhost")));
    assert!(obj["time"].as_i64().expect("time is an integer") >= 0);
}

#[test]
fn exact_payload_at_a_fixed_clock() {
    let mut e = Emitter::new(Point::new(), "svc", "myhost");
    e.connect("tcp://localhost:4677");
    let mut p = Point::new();
    p.insert(String::from("name"), text("x"));
    let bytes = send_bytes(e.plan_point(&p, 42));
    assert_eq!(
        std::str::from_utf8(&bytes).unwrap(),
        "{\"host\":\"myhost\",\"name\":\"svc.x\",\"time\":42,\"value\":1}\n"
    );
}

#[test]
fn http_payload_has_no_trailing_newline() {
    let mut e = Emitter::new(Point::new(), "svc", "myhost");
    e.connect("http://localhost:4151/pub?topic=metrics");
    let mut p = Point::new();
    p.insert(String::from("name"), text("x"));
    match e.plan_point(&p, 42) {
        EmitPlan::Send(d, bytes) => {
            assert_eq!(d.transport, Transport::Http);
            assert_eq!(
                std::str::from_utf8(&bytes).unwrap(),
                "{\"host\":\"myhost\",\"name\":\"svc.x\",\"time\":42,\"value\":1}"
            );
        },
        other => panic!("unexpected plan: {:?}", other),
    }
}

#[test]
fn text_is_escaped() {
    let mut e = Emitter::new(Point::new(), "", "h");
    e.connect("tcp://localhost:4677");
    let mut p = Point::new();
    p.insert(String::from("name"), text("x"));
    p.insert(String::from("tag"), text("a\"b\\c\nd\u{1}e"));
    let bytes = send_bytes(e.plan_point(&p, 0));
    let s = std::str::from_utf8(&bytes).unwrap();
    assert!(s.contains("\"tag\":\"a\\\"b\\\\c\\nd\\u0001e\""));
    // and it still reads back as the same text
    let obj = parse_line(&bytes);
    assert_eq!(obj["tag"], serde_json::Value::String(String::from("a\"b\\c\nd\u{1}e")));
}

#[test]
fn negative_and_extreme_integers_encode_exactly() {
    let mut e = Emitter::new(Point::new(), "", "h");
    e.connect("tcp://localhost:4677");
    let obj = parse_line(&send_bytes(e.emit("x", Value::Int(-12))));
    assert_eq!(obj["value"], serde_json::Value::from(-12));
    let obj = parse_line(&send_bytes(e.emit("x", Value::Int(i64::MIN))));
    assert_eq!(obj["value"], serde_json::Value::from(i64::MIN));
    let obj = parse_line(&send_bytes(e.emit("x", Value::Int(i64::MAX))));
    assert_eq!(obj["value"], serde_json::Value::from(i64::MAX));
}

#[test]
fn bools_and_unicode_pass_through() {
    let mut e = Emitter::new(Point::new(), "", "h");
    e.connect("tcp://localhost:4677");
    let obj = parse_line(&send_bytes(e.emit_name_val_tag(
        "x",
        Value::Bool(true),
        "wo",
        text("w\u{f6}rld\u{2603}"),
    )));
    assert_eq!(obj["value"], serde_json::Value::Bool(true));
    assert_eq!(obj["wo"], serde_json::Value::String(String::from("w\u{f6}rld\u{2603}")));
}

#[test]
fn no_destination_means_no_bytes_and_no_error() {
    // never connected: the stored destination is unset
    let e = Emitter::new(Point::new(), "svc", "h");
    match e.emit_name("x") {
        EmitPlan::Drop(EmitError::BadDestination) => {},
        other => panic!("unexpected plan: {:?}", other),
    }
    assert!(!e.is_connected());
}

#[test]
fn connection_stays_down_until_a_dial_succeeds() {
    let mut e = Emitter::new(Point::new(), "svc", "h");
    e.connect("tcp://localhost:4677");
    assert!(!e.is_connected());
    e.on_dial_result(false);
    assert!(!e.is_connected());
    e.on_dial_result(false);
    assert!(!e.is_connected());
}

#[test]
fn failed_send_resets_and_reconnect_recovers() {
    // the listener-restart scenario, against the connection machine:
    // a successful connect, a failed write (that payload is lost), then a
    // fresh dial and a successful write of the next payload.
    let mut e = Emitter::new(Point::new(), "svc", "h");
    e.connect("tcp://localhost:4677");
    e.on_dial_result(true);
    assert!(e.is_connected());
    e.on_send_result(false);
    assert!(!e.is_connected());
    // the next attempt re-resolves the destination
    let d = e.dial_request().expect("destination still resolvable");
    assert_eq!(d.transport, Transport::Stream);
    e.on_dial_result(true);
    assert!(e.is_connected());
    e.on_send_result(true);
    assert!(e.is_connected());
}

#[test]
fn override_wins_wholesale_on_the_emitted_object() {
    let mut tmpl = Point::new();
    tmpl.insert(String::from("tag"), text("default"));
    tmpl.insert(String::from("only_d"), Value::Int(5));
    let mut e = Emitter::new(tmpl, "svc", "h");
    e.connect("tcp://localhost:4677");
    let mut p = Point::new();
    p.insert(String::from("name"), text("x"));
    p.insert(String::from("tag"), text("override"));
    let obj = parse_line(&send_bytes(e.emit_point(&p)));
    assert_eq!(obj["tag"], serde_json::Value::String(String::from("override")));
    assert_eq!(obj["only_d"], serde_json::Value::from(5));
}

#[test]
fn supplied_time_is_passed_through() {
    let mut e = Emitter::new(Point::new(), "svc", "h");
    e.connect("tcp://localhost:4677");
    let mut p = Point::new();
    p.insert(String::from("name"), text("x"));
    p.insert(String::from("time"), Value::Int(123));
    let obj = parse_line(&send_bytes(e.emit_point(&p)));
    assert_eq!(obj["time"], serde_json::Value::from(123));
}

#[test]
fn clock_reads_a_present_day_time() {
    let t = now_millis();
    // any sane clock is far past the epoch and non-negative
    assert!(t > 1_000_000_000_000);
}

#[test]
fn duplicate_starts_disconnected() {
    let mut e = Emitter::new(Point::new(), "svc", "h");
    e.connect("tcp://localhost:4677");
    e.on_dial_result(true);
    assert!(e.is_connected());
    let d = e.duplicate();
    assert!(!d.is_connected());
    let obj = parse_line(&send_bytes(d.emit_name("x")));
    assert_eq!(obj["name"], serde_json::Value::String(String::from("svc.x")));
}

#[test]
fn init_replaces_defaults_and_namespace() {
    let mut e = Emitter::empty("h0");
    let mut tmpl = Point::new();
    tmpl.insert(String::from("tag"), text("global"));
    e.init(tmpl, "numbat-emitter", "h1");
    e.connect("tcp://localhost:4677");
    let obj = parse_line(&send_bytes(e.emit_name("initialization")));
    assert_eq!(obj["name"], serde_json::Value::String(String::from("numbat-emitter.initialization")));
    assert_eq!(obj["tag"], serde_json::Value::String(String::from("global")));
    assert_eq!(obj["host"], serde_json::Value::String(String::from("h1")));
}

#[test]
fn empty_emitter_posts_to_the_stock_collector() {
    let e = Emitter::empty("h");
    match e.emit_name("x") {
        EmitPlan::Send(d, bytes) => {
            assert_eq!(d.transport, Transport::Http);
            assert_eq!(d.host, b"localhost".to_vec());
            assert_eq!(d.port, 4151);
            assert_eq!(d.path, b"/pub?topic=metrics".to_vec());
            assert!(!bytes.ends_with(b"\n"));
        },
        other => panic!("unexpected plan: {:?}", other),
    }
}
