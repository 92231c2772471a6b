use param_serv::client::{
    parse_sse_dedup, read_stream_line, response_text, scan_event, LastValues, EVENTS_REQUEST,
    LIST_REQUEST, REFRESH_REQUEST,
};
use param_serv::config::ParamDef;
use param_serv::http::{parse_request, recv, Request, RequestStep, ResponseHead, ResponseStep};
use param_serv::plain::parse_text;
use param_serv::server::{handle, route, Route, SSE_HEAD};
use param_serv::state::State;
use param_serv::{poll_key, set_led, tcp_addr, Connection, TCP_ADDR_DEFAULT};

fn owned(pairs: &[(&str, &str)]) -> Vec<(String, String)> {
    pairs.iter().map(|(a, b)| (a.to_string(), b.to_string())).collect()
}

fn params(text: &str) -> Vec<ParamDef> {
    parse_text(text).unwrap().params
}

/// The request that the server reads out of what a client sends.
fn received(sent: &str) -> Request {
    let mut head = None;
    let mut rest = sent;
    loop {
        let n = rest.find('\n').map(|i| i + 1).unwrap_or(rest.len());
        let (line, tail) = rest.split_at(n);
        rest = tail;
        match parse_request(head, line) {
            RequestStep::Line(h) => head = Some(h),
            RequestStep::Body(h) => {
                let body = rest.as_bytes()[..h.content_length].to_vec();
                return Request { method: h.method, path: h.path, body };
            }
            RequestStep::Close => panic!("no request"),
        }
    }
}

/// The body and the cursor that a client reads out of what the server answers.
fn answered(bytes: &[u8]) -> (String, u64) {
    let mut head: Option<ResponseHead> = None;
    let mut rest = bytes;
    loop {
        let n = rest.iter().position(|b| *b == b'\n').map(|i| i + 1).unwrap_or(rest.len());
        let (line, tail) = rest.split_at(n);
        rest = tail;
        match recv(head, std::str::from_utf8(line).unwrap()) {
            ResponseStep::Line(h) => head = Some(h),
            ResponseStep::Body(h) => return response_text(h, &rest[..h.content_length]),
        }
    }
}

/// Takes all lines of a stream in.
fn follow(c: &mut Connection, stream: &str) {
    let mut in_head = true;
    for line in stream.split_inclusive('\n') {
        let l = read_stream_line(in_head, line);
        in_head = l.in_head;
        if let Some(data) = l.data {
            assert!(scan_event(&data).is_some());
            c.deliver(&data);
        }
    }
}

#[test]
fn addresses() {
    assert_eq!(TCP_ADDR_DEFAULT, "127.0.0.1:7777");
    assert_eq!(tcp_addr(None), "127.0.0.1:7777");
    assert_eq!(tcp_addr(Some("8080")), "127.0.0.1:8080");
    assert_eq!(tcp_addr(Some("")), "127.0.0.1:");
}

#[test]
fn no_keys_and_lights() {
    assert_eq!(poll_key(), None);
    set_led("power", true);
}

#[test]
fn events_scanned() {
    let pairs = scan_event("{\"c\":1,\"p\":{\"a\":\"1\",\"b\":\"x y\"}}").unwrap();
    assert_eq!(pairs, owned(&[("a", "1"), ("b", "x y")]));
    assert_eq!(scan_event("{\"c\":1,\"p\":{}}").unwrap(), owned(&[]));
    assert_eq!(scan_event("{\"c\":1}").unwrap(), owned(&[]));
    assert_eq!(scan_event("\"p\":{\"a\":\"1\"").unwrap(), owned(&[]));
    assert_eq!(scan_event("").unwrap(), owned(&[]));
    // Values stay as they stand between quotes.
    let pairs = scan_event("{\"p\":{\"a\":\"\\\"\",\"b\":\"}\"}}").unwrap();
    assert_eq!(pairs, owned(&[("a", "\\\""), ("b", "}")]));
    // What is cut short inside a name is left out; inside a value there is no end.
    assert_eq!(scan_event("{\"p\":{\"a\":\"1\",\"b}").unwrap(), owned(&[("a", "1")]));
    assert_eq!(scan_event("{\"p\":{\"a\":1}").unwrap(), owned(&[]));
    assert!(scan_event("{\"p\":{\"a\":\"1}").is_none());
}

#[test]
fn only_changes_are_kept() {
    let mut last = LastValues::new();
    let mut out = owned(&[("given", "0")]);
    parse_sse_dedup("{\"p\":{\"a\":\"1\",\"b\":\"\\\\ \\\"\"}}", &mut last, &mut out);
    assert_eq!(out, owned(&[("given", "0"), ("a", "1"), ("b", "\\ \"")]));
    out.clear();
    parse_sse_dedup("{\"p\":{\"a\":\"1\",\"b\":\"\\\\ \\\"\"}}", &mut last, &mut out);
    assert_eq!(out, owned(&[]));
    parse_sse_dedup("{\"p\":{\"a\":\"1\",\"b\":\"3\",\"c\":\"\"}}", &mut last, &mut out);
    assert_eq!(out, owned(&[("b", "3"), ("c", "")]));
    out.clear();
    parse_sse_dedup("{\"p\":{\"x\":\"1\",\"x\":\"2\",\"x\":\"2\",\"x\":\"1\"}}", &mut last, &mut out);
    assert_eq!(out, owned(&[("x", "1"), ("x", "2"), ("x", "1")]));
}

#[test]
fn stream_lines() {
    let l = read_stream_line(true, "data: x\r\n");
    assert!(l.in_head && l.data.is_none());
    let l = read_stream_line(true, " \r\n");
    assert!(!l.in_head && l.data.is_none());
    let l = read_stream_line(false, "  data: {x} \r\n");
    assert_eq!((l.in_head, l.data.as_deref()), (false, Some("{x}")));
    let l = read_stream_line(false, "\n");
    assert!(!l.in_head && l.data.is_none());
    let l = read_stream_line(false, "data:x\n");
    assert!(l.data.is_none());
    // Without its space the tag is none, and white space at the end goes first.
    let l = read_stream_line(false, "data: \n");
    assert!(l.data.is_none());
}

#[test]
fn requests_of_a_client() {
    for (sent, method, path) in [
        (EVENTS_REQUEST, "GET", "/events"),
        (REFRESH_REQUEST, "GET", "/values?cursor=0"),
        (LIST_REQUEST, "GET", "/params"),
    ] {
        let r = received(sent);
        assert_eq!((r.method.as_str(), r.path.as_str(), r.body.len()), (method, path, 0));
    }
    assert!(matches!(route("GET", "/events"), Route::Events));
    assert!(matches!(route("GET", "/values?cursor=0"), Route::Values(0)));
    assert_eq!(
        Connection::set(&[("a", "1"), ("b", "ä")]),
        "PUT /params HTTP/1.1\r\nContent-Length: 9\r\n\r\na\t1\nb\tä\n"
    );
    assert_eq!(
        Connection::set_unit("a", "mV"),
        "PUT /unit HTTP/1.1\r\nContent-Length: 5\r\n\r\na\tmV\n"
    );
    assert_eq!(Connection::set(&[]), "PUT /params HTTP/1.1\r\nContent-Length: 0\r\n\r\n");
}

#[test]
fn writes_reach_the_server() {
    let ps = params("a 1\nb 2");
    let mut s = State::new(&ps);
    let r = received(&Connection::set(&[("b", "ä b"), ("a", "tab\there")]));
    handle(&r, &ps, &mut s);
    assert_eq!(s.values, vec!["tab\there", "ä b"]);
    let r = received(&Connection::set_unit("a", "mV"));
    handle(&r, &ps, &mut s);
    assert_eq!(s.units, vec![Some("mV".to_string()), None]);
    assert_eq!(s.clock, 2);
}

#[test]
fn refresh_reaches_the_client() {
    let ps = params("a 1\nb 2");
    let mut s = State::new(&ps);
    handle(&received(&Connection::set(&[("a", "ö")])), &ps, &mut s);
    let out = handle(&received(REFRESH_REQUEST), &ps, &mut s);
    let (body, cursor) = answered(&out.reply.unwrap());
    assert_eq!(cursor, 2);
    let mut c = Connection::new();
    assert_eq!(c.get(), owned(&[]));
    c.refresh(&body);
    assert_eq!(c.get(), owned(&[("a", "ö"), ("b", "2")]));
    assert_eq!(c.get(), owned(&[]));
}

#[test]
fn list_reaches_the_client() {
    let mut ps = params("a 1\nb 2");
    ps[0].opts = vec!["x".to_string(), "y".to_string()];
    ps[1].min = Some("0.5".to_string());
    let mut s = State::new(&ps);
    handle(&received(&Connection::set_unit("b", "Hz")), &ps, &mut s);
    let out = handle(&received(LIST_REQUEST), &ps, &mut s);
    let (body, cursor) = answered(&out.reply.unwrap());
    assert_eq!(cursor, 0);
    let list = Connection::list(&body);
    assert_eq!(list.len(), 2);
    assert_eq!((list[0].name.as_str(), list[0].opts.len()), ("a", 2));
    assert_eq!((list[1].name.as_str(), list[1].unit.as_deref()), ("b", Some("Hz")));
    assert_eq!(list[1].min.as_deref(), Some("0.5"));
}

#[test]
fn replies_that_are_no_text() {
    let head = ResponseHead { content_length: 3, cursor: 5 };
    let (text, cursor) = response_text(head, b"a\xffb");
    assert_eq!((text.as_str(), cursor), ("a\u{fffd}b", 5));
    let (text, _) = response_text(head, "ä".as_bytes());
    assert_eq!(text, "ä");
}

#[test]
fn subscriber_follows_the_server() {
    let ps = params("a 1\nb 2\nc 3");
    let mut s = State::new(&ps);
    let mut c = Connection::new();
    let mut stream = SSE_HEAD.to_string();
    stream.push_str(&s.sse_event);
    follow(&mut c, &stream);
    assert_eq!(c.get(), owned(&[("a", "1"), ("b", "2"), ("c", "3")]));
    // The same event again brings nothing.
    let again = format!("\n{}", s.sse_event);
    follow(&mut c, &again);
    assert_eq!(c.get(), owned(&[]));
    handle(&received(&Connection::set(&[("b", "\"q\" \\ {}}"), ("a", "1")])), &ps, &mut s);
    let mut more = format!("\n{}", s.sse_event);
    handle(&received(&Connection::set(&[("c", "")])), &ps, &mut s);
    more.push_str(&s.sse_event);
    follow(&mut c, &more);
    assert_eq!(c.get(), owned(&[("b", "\"q\" \\ {}}"), ("c", "")]));
}

#[test]
fn backslash_at_the_end_is_a_backslash() {
    let mut last = LastValues::new();
    let mut out = Vec::new();
    parse_sse_dedup(r#"{"c":1,"p":{"a":"x\\"}}"#, &mut last, &mut out);
    assert_eq!(out, owned(&[("a", r"x\")]));
    let ps = params("a 1\nb 2");
    let mut s = State::new(&ps);
    handle(&received(&Connection::set(&[("a", "x\\"), ("b", "\"")])), &ps, &mut s);
    let data = read_stream_line(false, s.sse_event.lines().next().unwrap()).data.unwrap();
    assert_eq!(data, "{\"c\":2,\"p\":{\"a\":\"x\\\\\",\"b\":\"\\\"\"}}");
    let mut c = Connection::new();
    c.deliver(&data);
    assert_eq!(c.get(), owned(&[("a", "x\\"), ("b", "\"")]));
    // A backslash at the very end escapes nothing.
    assert!(scan_event("{\"p\":{\"a\":\"1\\}").is_none());
}

#[test]
fn no_value_follows_itself() {
    let ps = params("a 1\nb 2");
    let mut s = State::new(&ps);
    let mut c = Connection::new();
    let mut stream = format!("{}{}", SSE_HEAD, s.sse_event);
    for v in ["1", "2", "2", "1", "3"] {
        handle(&received(&Connection::set(&[("a", v)])), &ps, &mut s);
        stream.push_str(&s.sse_event);
    }
    follow(&mut c, &stream);
    let got = c.get();
    assert_eq!(got, owned(&[("a", "1"), ("b", "2"), ("a", "2"), ("a", "1"), ("a", "3")]));
}

#[test]
fn escapes_read_back() {
    let ps = params("v 0");
    for v in ["", "\"", "\\\"", "\"\"", "\\\\\"", "a\\b", "\\\\x", "\\\"\\\" ", "\\", "\\\\", "x\\", "\u{1f600}\"\\n"] {
        let mut s = State::new(&ps);
        handle(&received(&Connection::set(&[("v", v)])), &ps, &mut s);
        let mut c = Connection::new();
        follow(&mut c, &format!("{}{}", SSE_HEAD, s.sse_event));
        assert_eq!(c.get(), owned(&[("v", v)]), "{:?}", v);
    }
}

#[test]
fn buffer_keeps_its_order() {
    let mut c = Connection::new();
    c.deliver("{\"p\":{\"a\":\"1\"}}");
    c.refresh("b\t2\nno pair\nc\t3\n");
    c.deliver("{\"p\":{\"a\":\"1\",\"d\":\"4\"}}");
    assert_eq!(c.get(), owned(&[("a", "1"), ("b", "2"), ("c", "3"), ("d", "4")]));
    assert_eq!(c.get(), owned(&[]));
}
