use param_serv::http::{
    parse_request, read_line, recv, respond, RequestHead, RequestStep, ResponseHead, ResponseStep,
};

/// Reads lines of `input` until the request is complete or there is none.
fn request(input: &str) -> Option<(RequestHead, String)> {
    let mut head = None;
    let mut rest = input;
    loop {
        let n = rest.find('\n').map(|i| i + 1).unwrap_or(rest.len());
        let (line, tail) = rest.split_at(n);
        rest = tail;
        match parse_request(head, line) {
            RequestStep::Line(h) => head = Some(h),
            RequestStep::Body(h) => return Some((h, rest.to_string())),
            RequestStep::Close => return None,
        }
    }
}

/// Reads lines of `input` until the head of the response is complete.
fn response(input: &str) -> (ResponseHead, String) {
    let mut head = None;
    let mut rest = input;
    loop {
        let n = rest.find('\n').map(|i| i + 1).unwrap_or(rest.len());
        let (line, tail) = rest.split_at(n);
        rest = tail;
        match recv(head, line) {
            ResponseStep::Line(h) => head = Some(h),
            ResponseStep::Body(h) => return (h, rest.to_string()),
        }
    }
}

#[test]
fn net_lines() {
    assert_eq!(read_line(""), None);
    assert_eq!(read_line("\r\n"), Some("".to_string()));
    assert_eq!(read_line("a b\r\n"), Some("a b".to_string()));
    assert_eq!(read_line("a"), Some("a".to_string()));
    assert_eq!(read_line("a\r\r\n\n"), Some("a".to_string()));
}

#[test]
fn requests() {
    let (h, rest) = request("PUT /params HTTP/1.1\r\nHost: x\r\nCONTENT-length:  3 \r\n\r\nabc").unwrap();
    assert_eq!((h.method.as_str(), h.path.as_str(), h.content_length), ("PUT", "/params", 3));
    assert_eq!(rest, "abc");
    let (h, rest) = request("GET /values?cursor=7\n\n").unwrap();
    assert_eq!((h.method.as_str(), h.path.as_str(), h.content_length), ("GET", "/values?cursor=7", 0));
    assert_eq!(rest, "");
    let (h, _) = request("GET\n\n").unwrap();
    assert_eq!((h.method.as_str(), h.path.as_str()), ("GET", "/"));
    let (h, _) = request(" /x\n\n").unwrap();
    assert_eq!((h.method.as_str(), h.path.as_str()), ("", "/x"));
}

#[test]
fn requests_in_a_row() {
    let put = "PUT /params HTTP/1.1\r\nContent-Length: 3\r\n\r\n\u{e4}x";
    let (h, rest) = request(&format!("{}GET /params\r\n\r\n", put)).unwrap();
    assert_eq!((h.path.as_str(), h.content_length), ("/params", 3));
    assert_eq!(&rest.as_bytes()[..3], "\u{e4}x".as_bytes());
    let (h, _) = request(std::str::from_utf8(&rest.as_bytes()[3..]).unwrap()).unwrap();
    assert_eq!((h.method.as_str(), h.path.as_str()), ("GET", "/params"));
}

#[test]
fn odd_lengths() {
    for (v, n) in [("12", 12), ("x", 0), ("-1", 0), ("+4", 4), ("99999999999999999999999", 0)] {
        let (h, _) = request(&format!("PUT / H\r\nContent-Length: {}\r\n\r\n", v)).unwrap();
        assert_eq!(h.content_length, n, "{}", v);
    }
    // The last one counts; without a space behind the colon it is none.
    let (h, _) = request("PUT / H\nContent-Length: 3\nContent-Length: 5\n\n").unwrap();
    assert_eq!(h.content_length, 5);
    let (h, _) = request("PUT / H\nContent-Length: 3\nContent-Length: no\n\n").unwrap();
    assert_eq!(h.content_length, 0);
    let (h, _) = request("PUT / H\nContent-Length:3\n\n").unwrap();
    assert_eq!(h.content_length, 0);
}

#[test]
fn no_request() {
    assert!(request("").is_none());
    assert!(request("\r\n").is_none());
    assert!(request("GET / HTTP/1.1\r\n").is_none());
    assert!(request("GET / HTTP/1.1\r\nHost: x").is_none());
}

#[test]
fn responses_written() {
    let bytes = respond(200, "OK", &[("X-Cursor", "9")], b"hi\n");
    assert_eq!(
        String::from_utf8(bytes).unwrap(),
        "HTTP/1.1 200 OK\r\nContent-Length: 3\r\nAccess-Control-Allow-Origin: *\r\n\
         Access-Control-Expose-Headers: X-Cursor\r\nX-Cursor: 9\r\n\r\nhi\n"
    );
    let bytes = respond(404, "Not Found", &[], &[]);
    assert_eq!(
        String::from_utf8(bytes).unwrap(),
        "HTTP/1.1 404 Not Found\r\nContent-Length: 0\r\nAccess-Control-Allow-Origin: *\r\n\
         Access-Control-Expose-Headers: X-Cursor\r\n\r\n"
    );
    assert_eq!(respond(200, "OK", &[], &[0xff, 0]).last(), Some(&0));
}

#[test]
fn responses_read_back() {
    let bytes = respond(200, "OK", &[("X-Cursor", "18446744073709551615")], "ä\n".as_bytes());
    let (h, rest) = response(&String::from_utf8(bytes).unwrap());
    assert_eq!((h.content_length, h.cursor), (3, u64::MAX));
    assert_eq!(rest, "ä\n");
    let bytes = respond(204, "No Content", &[("A", "b")], &[]);
    let (h, rest) = response(&String::from_utf8(bytes).unwrap());
    assert_eq!((h.content_length, h.cursor, rest.as_str()), (0, 0, ""));
}

#[test]
fn odd_responses() {
    let (h, rest) = response("whatever\ncontent-LENGTH: 4\nx-CURSOR: 8\nContent-Length: +2\n \nrest");
    assert_eq!((h.content_length, h.cursor, rest.as_str()), (2, 8, "rest"));
    let (h, _) = response("\nContent-Length: 1 2\nX-Cursor: -1\n\n");
    assert_eq!((h.content_length, h.cursor), (0, 0));
    // At the end of the input every line is empty.
    let (h, rest) = response("HTTP/1.1 200 OK");
    assert_eq!((h.content_length, h.cursor, rest.as_str()), (0, 0, ""));
}
