use param_serv::config::ParamDef;
use param_serv::http::Request;
use param_serv::plain::parse_text;
use param_serv::server::{handle, moves_clock, route, serve_sse, Outcome, Route, SseStep, SSE_HEAD};
use param_serv::state::State;

fn params() -> Vec<ParamDef> {
    let mut ps = parse_text("a 1\nb 2").unwrap().params;
    ps[1].unit = Some("V".to_string());
    ps[1].unit_conv = vec![("V".to_string(), 0), ("mV".to_string(), -3)];
    ps
}

fn req(method: &str, path: &str, body: &[u8]) -> Request {
    Request { method: method.to_string(), path: path.to_string(), body: body.to_vec() }
}

fn reply(out: &Outcome) -> String {
    String::from_utf8(out.reply.clone().unwrap()).unwrap()
}

fn head(n: usize, extra: &str) -> String {
    format!(
        "HTTP/1.1 200 OK\r\nContent-Length: {}\r\nAccess-Control-Allow-Origin: *\r\n\
         Access-Control-Expose-Headers: X-Cursor\r\n{}\r\n",
        n, extra
    )
}

#[test]
fn routes() {
    assert!(matches!(route("GET", "/events"), Route::Events));
    assert!(matches!(route("GET", "/events?x"), Route::NotFound));
    assert!(matches!(route("GET", "/params"), Route::Params));
    assert!(matches!(route("GET", "/params?x=1"), Route::Params));
    assert!(matches!(route("PUT", "/params"), Route::PutParams));
    assert!(matches!(route("PUT", "/unit?"), Route::PutUnit));
    assert!(matches!(route("PUT", "/values"), Route::NotFound));
    assert!(matches!(route("OPTIONS", "/anything"), Route::Options));
    assert!(matches!(route("get", "/params"), Route::NotFound));
    assert!(matches!(route("GET", "/"), Route::NotFound));
    assert!(matches!(route("", ""), Route::NotFound));
}

#[test]
fn cursors() {
    for (path, want) in [
        ("/values", 0),
        ("/values?", 0),
        ("/values?cursor=7", 7),
        ("/values?x=1&cursor=12&cursor=3", 12),
        ("/values?cursor=&cursor=3", 0),
        ("/values?cursor=abc", 0),
        ("/values?mycursor=4", 0),
        ("/values?cursor=18446744073709551615", u64::MAX),
        ("/values?cursor=18446744073709551616", 0),
        ("/values?cursor=+5", 5),
        ("/values?a?cursor=5", 0),
    ] {
        match route("GET", path) {
            Route::Values(c) => assert_eq!(c, want, "{}", path),
            _ => panic!("{}", path),
        }
    }
}

#[test]
fn list_reply() {
    let ps = params();
    let mut s = State::new(&ps);
    let out = handle(&req("GET", "/params", b""), &ps, &mut s);
    let body = "a\nb\tunit:V\tunit_conv:V=0,mV=-3\n";
    assert_eq!(reply(&out), head(body.len(), "") + body);
    assert!(!out.notify && out.unknown.is_empty());
}

#[test]
fn polling() {
    let ps = params();
    let mut s = State::new(&ps);
    let out = handle(&req("GET", "/values", b""), &ps, &mut s);
    assert_eq!(reply(&out), head(8, "X-Cursor: 1\r\n") + "a\t1\nb\t2\n");
    let out = handle(&req("GET", "/values?cursor=1", b""), &ps, &mut s);
    assert_eq!(reply(&out), head(0, "X-Cursor: 1\r\n"));
    handle(&req("PUT", "/params", b"b\t7\n"), &ps, &mut s);
    let out = handle(&req("GET", "/values?cursor=1", b""), &ps, &mut s);
    assert_eq!(reply(&out), head(4, "X-Cursor: 2\r\n") + "b\t7\n");
    let out = handle(&req("GET", "/values?cursor=2", b""), &ps, &mut s);
    assert_eq!(reply(&out), head(0, "X-Cursor: 2\r\n"));
}

#[test]
fn nothing_missed_between_polls() {
    let ps = params();
    let mut s = State::new(&ps);
    handle(&req("PUT", "/params", b"a\t5"), &ps, &mut s);
    let cursor = s.clock;
    handle(&req("PUT", "/unit", b"a\tV"), &ps, &mut s);
    handle(&req("PUT", "/params", b"b\t6"), &ps, &mut s);
    handle(&req("GET", "/params", b""), &ps, &mut s);
    handle(&req("PUT", "/params", b"b\t7\nq\t1"), &ps, &mut s);
    assert_eq!(s.clock, cursor + 2);
    let out = handle(&req("GET", &format!("/values?cursor={}", cursor), b""), &ps, &mut s);
    assert_eq!(reply(&out), head(4, "X-Cursor: 4\r\n") + "b\t7\n");
}

#[test]
fn same_value_written_again() {
    let ps = params();
    let mut s = State::new(&ps);
    handle(&req("PUT", "/params", b"a\t1\na\t1"), &ps, &mut s);
    handle(&req("PUT", "/params", b"a\t1"), &ps, &mut s);
    let out = handle(&req("GET", "/values?cursor=1", b""), &ps, &mut s);
    assert_eq!(reply(&out), head(4, "X-Cursor: 3\r\n") + "a\t1\n");
    assert_eq!(s.versions, vec![3, 1]);
}

#[test]
fn writes() {
    let ps = params();
    let mut s = State::new(&ps);
    let put = req("PUT", "/params", b"a\t5\nz\t1\nno tab\r\nb\t\xc3\xa4\r\n");
    assert!(moves_clock(&put));
    let out = handle(&put, &ps, &mut s);
    assert_eq!(reply(&out), head(0, ""));
    assert!(out.notify);
    assert_eq!(out.unknown, vec!["z"]);
    assert_eq!(s.values, vec!["5", "ä"]);
    assert_eq!(s.clock, 2);
    let out = handle(&req("PUT", "/unit", b"b\tmV\na\tm\nb\tkV\n"), &ps, &mut s);
    assert_eq!(reply(&out), head(0, ""));
    assert!(!out.notify && out.unknown.is_empty());
    assert_eq!(s.units, vec![Some("m".to_string()), Some("mV".to_string())]);
    assert_eq!(s.clock, 2);
}

#[test]
fn bodies_that_are_no_text() {
    let ps = params();
    let mut s = State::new(&ps);
    let put = req("PUT", "/params", b"a\t5\n\xff\n");
    assert!(!moves_clock(&put));
    let out = handle(&put, &ps, &mut s);
    assert_eq!(reply(&out), head(0, ""));
    assert!(out.notify && out.unknown.is_empty());
    assert_eq!((s.values[0].as_str(), s.clock), ("1", 1));
    handle(&req("PUT", "/unit", b"a\tV\n\xc3"), &ps, &mut s);
    assert_eq!(s.units[0], None);
}

#[test]
fn other_replies() {
    let ps = params();
    let mut s = State::new(&ps);
    let out = handle(&req("OPTIONS", "/x", b""), &ps, &mut s);
    assert_eq!(
        reply(&out),
        "HTTP/1.1 204 No Content\r\nContent-Length: 0\r\nAccess-Control-Allow-Origin: *\r\n\
         Access-Control-Expose-Headers: X-Cursor\r\n\
         Access-Control-Allow-Methods: GET, PUT, OPTIONS\r\n\
         Access-Control-Allow-Headers: Content-Type\r\n\r\n"
    );
    let out = handle(&req("POST", "/params", b"a\t9"), &ps, &mut s);
    assert!(reply(&out).starts_with("HTTP/1.1 404 Not Found\r\nContent-Length: 0\r\n"));
    let out = handle(&req("GET", "/events", b""), &ps, &mut s);
    assert!(out.reply.is_none() && !out.notify);
    assert_eq!((s.values[0].as_str(), s.clock), ("1", 1));
}

#[test]
fn event_stream() {
    let ps = params();
    let mut s = State::new(&ps);
    let mut cursor = 0;
    match serve_sse(cursor, &s) {
        SseStep::Send { event, cursor: next } => {
            assert_eq!(event, "data: {\"c\":1,\"p\":{\"a\":\"1\",\"b\":\"2\"}}\n\n");
            cursor = next;
        }
        SseStep::Wait => panic!("nothing sent"),
    }
    assert_eq!(cursor, 1);
    assert!(matches!(serve_sse(cursor, &s), SseStep::Wait));
    handle(&req("PUT", "/unit", b"a\tV"), &ps, &mut s);
    assert!(matches!(serve_sse(cursor, &s), SseStep::Wait));
    handle(&req("PUT", "/params", b"a\t3"), &ps, &mut s);
    handle(&req("PUT", "/params", b"a\t4"), &ps, &mut s);
    match serve_sse(cursor, &s) {
        SseStep::Send { event, cursor: next } => {
            assert_eq!(event, "data: {\"c\":3,\"p\":{\"a\":\"4\",\"b\":\"2\"}}\n\n");
            assert_eq!(next, 3);
        }
        SseStep::Wait => panic!("nothing sent"),
    }
    assert_eq!(
        SSE_HEAD,
        "HTTP/1.1 200 OK\r\nContent-Type: text/event-stream\r\nCache-Control: no-cache\r\n\
         Access-Control-Allow-Origin: *\r\n\r\n"
    );
}
