//! The HTTP subset that server and clients speak: request and response heads,
//! read line by line, and bodies framed by `Content-Length`.
use vstd::prelude::*;
use vstd::utf8::encode_utf8;

use crate::number::{decimal, decimal_text, parse_unsigned, parse_usize, unsigned_value};
use crate::text::{
    after_line, chars_of, cut, eq_ignore_case, pieces, raw_line, same_ignoring_case, slices, split,
    split_once, str_pairs, string_of, trim, trim_line_end, trimmed, trimmed_line_end,
};

verus! {

// ---- Requests ---------------------------------------------------------------

/// A line as it was read, without its line end; none at the end of the input.
pub open spec fn net_line(raw: Seq<char>) -> Option<Seq<char>> {
    if raw.len() == 0 {
        None
    } else {
        Some(trimmed_line_end(raw))
    }
}

/// The line that was read, without its line end. `raw` is empty at the end of the
/// input only.
pub fn read_line(raw: &str) -> (r: Option<String>)
    ensures
        match r {
            Some(line) => net_line(raw@) == Some(line@),
            None => net_line(raw@) is None,
        },
{
    if raw.is_empty() {
        return None;
    }
    let chars = chars_of(raw);
    Some(string_of(trim_line_end(chars.as_slice())))
}

/// A request.
pub struct Request {
    pub method: String,
    pub path: String,
    pub body: Vec<u8>,
}

/// What the lines read so far say of a request.
pub struct RequestHead {
    pub method: String,
    pub path: String,
    pub content_length: usize,
}

/// What to do after a line of a request.
pub enum RequestStep {
    /// Read one more line.
    Line(RequestHead),
    /// Read a body of the announced length; the request is then complete.
    Body(RequestHead),
    /// There is no request.
    Close,
}

#[verifier::ext_equal]
pub struct HeadModel {
    pub method: Seq<char>,
    pub path: Seq<char>,
    pub content_length: int,
}

#[verifier::ext_equal]
pub enum StepModel {
    Line(HeadModel),
    Body(HeadModel),
    Close,
}

impl View for RequestHead {
    type V = HeadModel;

    open spec fn view(&self) -> HeadModel {
        HeadModel {
            method: self.method@,
            path: self.path@,
            content_length: self.content_length as int,
        }
    }
}

impl View for RequestStep {
    type V = StepModel;

    open spec fn view(&self) -> StepModel {
        match self {
            RequestStep::Line(head) => StepModel::Line(head@),
            RequestStep::Body(head) => StepModel::Body(head@),
            RequestStep::Close => StepModel::Close,
        }
    }
}

pub open spec fn opt_head(head: Option<RequestHead>) -> Option<HeadModel> {
    match head {
        Some(h) => Some(h@),
        None => None,
    }
}

/// The number that a header gives, zero where it gives none.
pub open spec fn header_number(v: Seq<char>, max: int) -> int {
    match unsigned_value(v, max) {
        Some(n) => n,
        None => 0,
    }
}

/// The head that a request line begins: the first word is the method, the second
/// one the path.
pub open spec fn begun_head(line: Seq<char>) -> HeadModel {
    let words = pieces(line, ' ');
    HeadModel {
        method: words[0],
        path: if words.len() > 1 {
            words[1]
        } else {
            "/"@
        },
        content_length: 0,
    }
}

/// The head with one more header line taken into account.
pub open spec fn with_header(head: HeadModel, line: Seq<char>) -> HeadModel {
    match cut(line, ": "@) {
        Some((k, v)) => if same_ignoring_case(k, "content-length"@) {
            HeadModel { content_length: header_number(trimmed(v), usize::MAX as int), ..head }
        } else {
            head
        },
        None => head,
    }
}

/// What to do after a line: the request line while there is no head, a header
/// line after that, up to an empty line.
pub open spec fn request_step(head: Option<HeadModel>, raw: Seq<char>) -> StepModel {
    match net_line(raw) {
        None => StepModel::Close,
        Some(line) => match head {
            None => if line.len() == 0 {
                StepModel::Close
            } else {
                StepModel::Line(begun_head(line))
            },
            Some(h) => if line.len() == 0 {
                StepModel::Body(h)
            } else {
                StepModel::Line(with_header(h, line))
            },
        },
    }
}

/// Takes one more line of a request; `head` is what the lines before it say.
pub fn parse_request(head: Option<RequestHead>, raw: &str) -> (step: RequestStep)
    ensures
        step@ == request_step(opt_head(head), raw@),
        match step {
            RequestStep::Line(next) => head matches Some(h) ==> next.method@ == h.method@
                && next.path@ == h.path@,
            RequestStep::Body(done) => head == Some(done),
            RequestStep::Close => true,
        },
        head is None && step is Line ==> step->Line_0.content_length == 0,
{
    let line = match read_line(raw) {
        Some(line) => line,
        None => return RequestStep::Close,
    };
    let chars = chars_of(line.as_str());
    match head {
        None => {
            if chars.len() == 0 {
                return RequestStep::Close;
            }
            let words = split(chars.as_slice(), ' ');
            let ghost ws = slices(words@);
            assert(ws.len() > 0);
            assert(ws[0] == words@[0]@);
            let method = string_of(words[0]);
            let path = if words.len() > 1 {
                assert(ws[1] == words@[1]@);
                string_of(words[1])
            } else {
                "/".to_owned()
            };
            RequestStep::Line(RequestHead { method, path, content_length: 0 })
        },
        Some(h) => {
            if chars.len() == 0 {
                return RequestStep::Body(h);
            }
            let mut h = h;
            if let Some((k, v)) = split_once(chars.as_slice(), ": ") {
                if eq_ignore_case(k, "content-length") {
                    h.content_length = match parse_usize(trim(v)) {
                        Some(n) => n,
                        None => 0,
                    };
                }
            }
            RequestStep::Line(h)
        },
    }
}

/// A whole request read from `input`: its head, and what follows the empty line.
pub open spec fn read_request(head: Option<HeadModel>, input: Seq<char>) -> Option<
    (HeadModel, Seq<char>),
>
    decreases input.len(),
{
    match request_step(head, raw_line(input)) {
        StepModel::Close => None,
        StepModel::Body(h) => Some((h, after_line(input))),
        StepModel::Line(h) => if after_line(input).len() < input.len() {
            read_request(Some(h), after_line(input))
        } else {
            None
        },
    }
}

// ---- Responses --------------------------------------------------------------

/// The lines, each with a carriage return and a line feed behind it.
pub open spec fn crlf_lines(lines: Seq<Seq<char>>) -> Seq<char>
    decreases lines.len(),
{
    if lines.len() == 0 {
        Seq::empty()
    } else {
        lines[0] + "\r\n"@ + crlf_lines(lines.skip(1))
    }
}

/// A header as a line.
pub open spec fn header_line(h: (Seq<char>, Seq<char>)) -> Seq<char> {
    h.0 + ": "@ + h.1
}

pub open spec fn header_lines(hs: Seq<(Seq<char>, Seq<char>)>) -> Seq<Seq<char>> {
    Seq::new(hs.len(), |i: int| header_line(hs[i]))
}

pub open spec fn status_line(status: int, text: Seq<char>) -> Seq<char> {
    "HTTP/1.1 "@ + decimal(status) + " "@ + text
}

/// The lines of a response head for a body of `n` bytes.
pub open spec fn response_lines(
    status: int,
    text: Seq<char>,
    extra: Seq<(Seq<char>, Seq<char>)>,
    n: int,
) -> Seq<Seq<char>> {
    seq![
        status_line(status, text),
        "Content-Length: "@ + decimal(n),
        "Access-Control-Allow-Origin: *"@,
        "Access-Control-Expose-Headers: X-Cursor"@,
    ] + header_lines(extra)
}

/// The head of a response: its lines, then an empty one.
pub open spec fn response_head(
    status: int,
    text: Seq<char>,
    extra: Seq<(Seq<char>, Seq<char>)>,
    n: int,
) -> Seq<char> {
    crlf_lines(response_lines(status, text, extra, n)) + "\r\n"@
}

/// The bytes of a response.
pub open spec fn response_bytes(
    status: int,
    text: Seq<char>,
    extra: Seq<(Seq<char>, Seq<char>)>,
    body: Seq<u8>,
) -> Seq<u8> {
    encode_utf8(response_head(status, text, extra, body.len() as int)) + body
}

/// One more line.
pub proof fn lemma_crlf_lines_push(lines: Seq<Seq<char>>, last: Seq<char>)
    ensures
        crlf_lines(lines.push(last)) == crlf_lines(lines) + last + "\r\n"@,
    decreases lines.len(),
{
    if lines.len() == 0 {
        assert(lines.push(last).skip(1) =~= Seq::<Seq<char>>::empty());
        assert(crlf_lines(lines.push(last).skip(1)) =~= Seq::<char>::empty());
        assert(crlf_lines(lines.push(last)) =~= crlf_lines(lines) + last + "\r\n"@);
    } else {
        lemma_crlf_lines_push(lines.skip(1), last);
        assert(lines.push(last).skip(1) =~= lines.skip(1).push(last));
        assert(crlf_lines(lines.push(last)) =~= crlf_lines(lines) + last + "\r\n"@);
    }
}

/// The bytes of a response.
pub fn respond(status: u16, text: &str, extra: &[(&str, &str)], body: &[u8]) -> (r: Vec<u8>)
    ensures
        r@ == response_bytes(status as int, text@, str_pairs(extra@), body@),
{
    let ghost all = response_lines(status as int, text@, str_pairs(extra@), body@.len() as int);
    let mut hdr = String::new();
    hdr.append("HTTP/1.1 ");
    hdr.append(decimal_text(status as u64).as_str());
    hdr.append(" ");
    hdr.append(text);
    hdr.append("\r\n");
    proof {
        let none = Seq::<Seq<char>>::empty();
        lemma_crlf_lines_push(none, all[0]);
        assert(all.take(1) =~= none.push(all[0]));
        assert(hdr@ =~= crlf_lines(all.take(1)));
    }
    hdr.append("Content-Length: ");
    hdr.append(decimal_text(body.len() as u64).as_str());
    hdr.append("\r\n");
    proof {
        lemma_crlf_lines_push(all.take(1), all[1]);
        assert(all.take(2) =~= all.take(1).push(all[1]));
        assert(hdr@ =~= crlf_lines(all.take(2)));
    }
    hdr.append("Access-Control-Allow-Origin: *");
    hdr.append("\r\n");
    proof {
        lemma_crlf_lines_push(all.take(2), all[2]);
        assert(all.take(3) =~= all.take(2).push(all[2]));
    }
    hdr.append("Access-Control-Expose-Headers: X-Cursor");
    hdr.append("\r\n");
    proof {
        lemma_crlf_lines_push(all.take(3), all[3]);
        assert(all.take(4) =~= all.take(3).push(all[3]));
    }
    let mut i: usize = 0;
    while i < extra.len()
        invariant
            i <= extra@.len(),
            all == response_lines(status as int, text@, str_pairs(extra@), body@.len() as int),
            hdr@ == crlf_lines(all.take(4 + i as int)),
        decreases extra@.len() - i,
    {
        let ghost before = hdr@;
        hdr.append(extra[i].0);
        hdr.append(": ");
        hdr.append(extra[i].1);
        hdr.append("\r\n");
        proof {
            let k = 4 + i as int;
            assert(all[k] == header_line((extra@[i as int].0@, extra@[i as int].1@)));
            lemma_crlf_lines_push(all.take(k), all[k]);
            assert(all.take(k + 1) =~= all.take(k).push(all[k]));
            assert(hdr@ =~= before + all[k] + "\r\n"@);
        }
        i += 1;
    }
    assert(all.take(4 + i as int) =~= all);
    hdr.append("\r\n");
    let mut out: Vec<u8> = Vec::new();
    out.extend_from_slice(hdr.as_str().as_bytes());
    out.extend_from_slice(body);
    assert(out@ =~= response_bytes(status as int, text@, str_pairs(extra@), body@));
    out
}

/// What the lines read so far say of a response.
#[derive(Clone, Copy)]
pub struct ResponseHead {
    pub content_length: usize,
    pub cursor: u64,
}

/// What to do after a line of a response.
pub enum ResponseStep {
    /// Read one more line.
    Line(ResponseHead),
    /// Read a body of the announced length; the response is then complete.
    Body(ResponseHead),
}

/// The head with one more header line taken into account.
pub open spec fn with_response_header(head: ResponseHead, line: Seq<char>) -> ResponseHead {
    match cut(line, ": "@) {
        Some((k, v)) => if same_ignoring_case(k, "content-length"@) {
            ResponseHead {
                content_length: header_number(v, usize::MAX as int) as usize,
                ..head
            }
        } else if same_ignoring_case(k, "x-cursor"@) {
            ResponseHead { cursor: header_number(v, u64::MAX as int) as u64, ..head }
        } else {
            head
        },
        None => head,
    }
}

/// What to do after a line: the status line while there is no head, a header line
/// after that, up to a blank line.
pub open spec fn response_step(head: Option<ResponseHead>, raw: Seq<char>) -> ResponseStep {
    match head {
        None => ResponseStep::Line(ResponseHead { content_length: 0, cursor: 0 }),
        Some(h) => if trimmed(raw).len() == 0 {
            ResponseStep::Body(h)
        } else {
            ResponseStep::Line(with_response_header(h, trimmed(raw)))
        },
    }
}

/// Takes one more line of a response; `head` is what the lines before it say.
pub fn recv(head: Option<ResponseHead>, raw: &str) -> (step: ResponseStep)
    ensures
        step == response_step(head, raw@),
{
    match head {
        None => ResponseStep::Line(ResponseHead { content_length: 0, cursor: 0 }),
        Some(h) => {
            let chars = chars_of(raw);
            let line = trim(chars.as_slice());
            if line.len() == 0 {
                return ResponseStep::Body(h);
            }
            let mut h = h;
            if let Some((k, v)) = split_once(line, ": ") {
                if eq_ignore_case(k, "content-length") {
                    h.content_length = match parse_usize(v) {
                        Some(n) => n,
                        None => 0,
                    };
                } else if eq_ignore_case(k, "x-cursor") {
                    h.cursor = match parse_unsigned(v, u64::MAX) {
                        Some(n) => n,
                        None => 0,
                    };
                }
            }
            ResponseStep::Line(h)
        },
    }
}

/// A whole response read from `input`: its head, and what follows the blank line.
/// Past the end of the input every line is empty.
pub open spec fn read_response(head: Option<ResponseHead>, input: Seq<char>) -> (
    ResponseHead,
    Seq<char>,
)
    decreases input.len(),
{
    match response_step(head, raw_line(input)) {
        ResponseStep::Body(h) => (h, after_line(input)),
        ResponseStep::Line(h) => if after_line(input).len() < input.len() {
            read_response(Some(h), after_line(input))
        } else {
            (h, Seq::empty())
        },
    }
}

} // verus!
