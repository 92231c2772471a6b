//! The client's side: the requests it sends, the events it takes in and the
//! changes it keeps until they are asked for.
use vstd::hash_map::StringHashMap;
use vstd::prelude::*;
use vstd::slice::slice_subrange;
use vstd::utf8::{decode_utf8, encode_utf8, valid_utf8};

use crate::http::ResponseHead;
use crate::number::{decimal, decimal_text};
use crate::params::{info_list, infos, parse_param_lines, ParamInfo};
use crate::text::{
    after_line, chars_of, ended_lines, find, find_char, index_of, line_list, opt_text, pair_line,
    pair_lines, raw_line, read_pairs, replace, replaced, str_pairs, string_of, strip_prefix,
    tab_pairs, text_pairs, trim, trimmed, without_prefix, write_pairs,
};

verus! {

// ---- Events -----------------------------------------------------------------

/// Last position of `c` before position `n`.
pub open spec fn last_index(s: Seq<char>, c: char, n: int) -> Option<int>
    decreases n,
{
    if n <= 0 || n > s.len() {
        None
    } else if s[n - 1] == c {
        Some(n - 1)
    } else {
        last_index(s, c, n - 1)
    }
}

/// First position from `k` on of a quote that no backslash escapes; the length where
/// there is none. A backslash escapes the character behind it, another backslash too.
pub open spec fn quote_from(s: Seq<char>, k: int) -> int
    decreases s.len() - k,
{
    if k < 0 || k >= s.len() {
        s.len() as int
    } else if s[k] == '"' {
        k
    } else if s[k] != '\\' {
        quote_from(s, k + 1)
    } else if k + 1 < s.len() {
        quote_from(s, k + 2)
    } else {
        s.len() as int
    }
}

/// The names and values between quotes, as they stand there; none where a value
/// has no end.
pub open spec fn scanned(rest: Seq<char>) -> Option<Seq<(Seq<char>, Seq<char>)>>
    decreases rest.len(),
{
    match index_of(rest, seq!['"']) {
        None => Some(Seq::empty()),
        Some(k) => {
            let from_key = rest.skip(k + 1);
            match index_of(from_key, seq!['"']) {
                None => Some(Seq::empty()),
                Some(e) => {
                    let key = from_key.take(e);
                    let behind_key = from_key.skip(e + 1);
                    match index_of(behind_key, seq!['"']) {
                        None => Some(Seq::empty()),
                        Some(v) => {
                            let from_value = behind_key.skip(v + 1);
                            let end = quote_from(from_value, 0);
                            let behind = from_value.skip(end + 1);
                            if end >= from_value.len() {
                                None
                            } else if behind.len() < rest.len() {
                                match scanned(behind) {
                                    Some(more) => Some(seq![(key, from_value.take(end))] + more),
                                    None => None,
                                }
                            } else {
                                None
                            }
                        },
                    }
                },
            }
        },
    }
}

/// The inside of the object `p` of an event, up to the last brace.
pub open spec fn event_object(data: Seq<char>) -> Option<Seq<char>> {
    match index_of(data, "\"p\":{"@) {
        None => None,
        Some(i) => {
            let inner = data.skip(i + 5);
            match last_index(inner, '}', inner.len() as int) {
                None => None,
                Some(e) => Some(inner.take(e)),
            }
        },
    }
}

/// The names and values that an event carries, as they stand between quotes; none
/// where a value has no end.
pub open spec fn event_pairs(data: Seq<char>) -> Option<Seq<(Seq<char>, Seq<char>)>> {
    match event_object(data) {
        Some(object) => scanned(object),
        None => Some(Seq::empty()),
    }
}

/// A value out of its form between quotes.
pub open spec fn unescaped(raw: Seq<char>) -> Seq<char> {
    replaced(replaced(raw, "\\\""@, "\""@), "\\\\"@, "\\"@)
}

/// The last value of each name, and the pairs whose value was not the last one of
/// their name.
pub open spec fn deduplicated(
    last: Map<Seq<char>, Seq<char>>,
    pairs: Seq<(Seq<char>, Seq<char>)>,
) -> (Map<Seq<char>, Seq<char>>, Seq<(Seq<char>, Seq<char>)>)
    decreases pairs.len(),
{
    if pairs.len() == 0 {
        (last, Seq::empty())
    } else {
        let (key, raw) = pairs[0];
        if last.contains_key(key) && last[key] == raw {
            deduplicated(last, pairs.skip(1))
        } else {
            let (map, out) = deduplicated(last.insert(key, raw), pairs.skip(1));
            (map, seq![(key, unescaped(raw))] + out)
        }
    }
}

/// The last value of each name, as it stood between quotes.
pub struct LastValues {
    map: StringHashMap<String>,
}

impl View for LastValues {
    type V = Map<Seq<char>, Seq<char>>;

    closed spec fn view(&self) -> Map<Seq<char>, Seq<char>> {
        self.map@.map_values(|s: String| s@)
    }
}

impl LastValues {
    /// No value for any name.
    pub fn new() -> (r: LastValues)
        ensures
            r@ == Map::<Seq<char>, Seq<char>>::empty(),
    {
        let r = LastValues { map: StringHashMap::new() };
        assert(r@ =~= Map::<Seq<char>, Seq<char>>::empty());
        r
    }

    fn holds(&self, key: &String, raw: &String) -> (r: bool)
        ensures
            r == (self@.contains_key(key@) && self@[key@] == raw@),
    {
        match self.map.get(key.as_str()) {
            Some(prev) => *prev == *raw,
            None => false,
        }
    }

    fn insert(&mut self, key: String, raw: String)
        ensures
            final(self)@ == old(self)@.insert(key@, raw@),
    {
        self.map.insert(key, raw);
        assert(self@ =~= old(self)@.insert(key@, raw@));
    }
}

fn last_position(s: &[char], c: char) -> (r: Option<usize>)
    ensures
        match r {
            Some(i) => i < s@.len() && last_index(s@, c, s@.len() as int) == Some(i as int),
            None => last_index(s@, c, s@.len() as int) is None,
        },
{
    let mut n: usize = s.len();
    while n > 0
        invariant
            n <= s@.len(),
            last_index(s@, c, s@.len() as int) == last_index(s@, c, n as int),
        decreases n,
    {
        if s[n - 1] == c {
            return Some(n - 1);
        }
        n -= 1;
    }
    None
}

fn find_quote(s: &[char]) -> (r: usize)
    ensures
        r == quote_from(s@, 0),
        r <= s@.len(),
{
    let n: usize = s.len();
    let mut k: usize = 0;
    while k < n
        invariant
            n == s@.len(),
            k <= n,
            quote_from(s@, 0) == quote_from(s@, k as int),
        decreases n - k,
    {
        if s[k] == '"' {
            return k;
        }
        if s[k] != '\\' {
            k += 1;
        } else if k < n - 1 {
            k += 2;
        } else {
            return n;
        }
    }
    n
}

fn after<'a>(s: &'a [char], i: usize) -> (r: &'a [char])
    requires
        i < s@.len(),
    ensures
        r@ == s@.skip(i + 1),
        r@.len() == s@.len() - i - 1,
{
    let n: usize = s.len();
    let r = slice_subrange(s, i + 1, n);
    assert(r@ =~= s@.skip(i + 1));
    r
}

fn before<'a>(s: &'a [char], i: usize) -> (r: &'a [char])
    requires
        i <= s@.len(),
    ensures
        r@ == s@.take(i as int),
{
    let r = slice_subrange(s, 0, i);
    assert(r@ =~= s@.take(i as int));
    r
}

fn scan(object: &[char]) -> (r: Option<Vec<(String, String)>>)
    ensures
        match r {
            Some(v) => scanned(object@) == Some(text_pairs(v@)),
            None => scanned(object@) is None,
        },
{
    let mut out: Vec<(String, String)> = Vec::new();
    let mut rest: &[char] = object;
    proof {
        if scanned(rest@) is Some {
            assert(text_pairs(out@) + scanned(rest@)->0 =~= scanned(object@)->0);
        }
    }
    loop
        invariant
            scanned(object@) is Some <==> scanned(rest@) is Some,
            scanned(rest@) is Some ==> scanned(object@)->0 == text_pairs(out@) + scanned(rest@)->0,
        decreases rest@.len(),
    {
        let ghost sofar = text_pairs(out@);
        assert(sofar + Seq::<(Seq<char>, Seq<char>)>::empty() =~= sofar);
        let k = match find_char(rest, '"') {
            Some(k) => k,
            None => return Some(out),
        };
        let from_key = after(rest, k);
        let e = match find_char(from_key, '"') {
            Some(e) => e,
            None => return Some(out),
        };
        let key = before(from_key, e);
        let behind_key = after(from_key, e);
        let v = match find_char(behind_key, '"') {
            Some(v) => v,
            None => return Some(out),
        };
        let from_value = after(behind_key, v);
        let end = find_quote(from_value);
        if end >= from_value.len() {
            return None;
        }
        let raw = before(from_value, end);
        let behind = after(from_value, end);
        out.push((string_of(key), string_of(raw)));
        proof {
            assert(text_pairs(out@) =~= sofar.push((key@, raw@)));
            if scanned(behind@) is Some {
                assert(sofar + (seq![(key@, raw@)] + scanned(behind@)->0) =~= text_pairs(out@)
                    + scanned(behind@)->0);
            }
        }
        rest = behind;
    }
}

/// The names and values that an event carries, as they stand between quotes; none
/// where a value has no end.
pub fn scan_event(data: &str) -> (r: Option<Vec<(String, String)>>)
    ensures
        match r {
            Some(v) => event_pairs(data@) == Some(text_pairs(v@)),
            None => event_pairs(data@) is None,
        },
{
    proof {
        reveal_strlit("\"p\":{");
    }
    let none: Vec<(String, String)> = Vec::new();
    assert(text_pairs(none@) =~= Seq::<(Seq<char>, Seq<char>)>::empty());
    let chars = chars_of(data);
    let pat = chars_of("\"p\":{");
    let n: usize = chars.len();
    let i = match find(chars.as_slice(), pat.as_slice()) {
        Some(i) => i,
        None => return Some(none),
    };
    let inner = slice_subrange(chars.as_slice(), i + 5, n);
    assert(inner@ =~= chars@.skip(i + 5));
    let e = match last_position(inner, '}') {
        Some(e) => e,
        None => return Some(none),
    };
    scan(before(inner, e))
}

fn unescape(raw: &String) -> (r: String)
    ensures
        r@ == unescaped(raw@),
{
    proof {
        reveal_strlit("\\\"");
        reveal_strlit("\\\\");
    }
    let chars = chars_of(raw.as_str());
    let once = replace(chars.as_slice(), "\\\"", "\"");
    let twice = replace(once.as_slice(), "\\\\", "\\");
    string_of(twice.as_slice())
}

/// Takes an event in: every pair whose value is not the last one of its name goes
/// to `out`.
pub fn parse_sse_dedup(data: &str, last: &mut LastValues, out: &mut Vec<(String, String)>)
    requires
        event_pairs(data@) is Some,
    ensures
        final(last)@ == deduplicated(old(last)@, event_pairs(data@)->0).0,
        text_pairs(final(out)@) == text_pairs(old(out)@) + deduplicated(
            old(last)@,
            event_pairs(data@)->0,
        ).1,
{
    let pairs = match scan_event(data) {
        Some(pairs) => pairs,
        None => return,
    };
    let ghost ps = text_pairs(pairs@);
    let ghost start = last@;
    let ghost given = text_pairs(out@);
    let mut i: usize = 0;
    assert(ps.skip(0) =~= ps);
    while i < pairs.len()
        invariant
            i <= pairs@.len(),
            ps == text_pairs(pairs@),
            deduplicated(start, ps).0 == deduplicated(last@, ps.skip(i as int)).0,
            given + deduplicated(start, ps).1 == text_pairs(out@) + deduplicated(
                last@,
                ps.skip(i as int),
            ).1,
        decreases pairs@.len() - i,
    {
        let ghost sofar = text_pairs(out@);
        let ghost tail = ps.skip(i as int);
        assert(tail[0] == ps[i as int]);
        assert(tail.skip(1) =~= ps.skip(i + 1));
        if !last.holds(&pairs[i].0, &pairs[i].1) {
            let val = unescape(&pairs[i].1);
            last.insert(pairs[i].0.clone(), pairs[i].1.clone());
            let key = pairs[i].0.clone();
            out.push((key, val));
            proof {
                let more = deduplicated(last@, ps.skip(i + 1)).1;
                assert(text_pairs(out@) =~= sofar.push((key@, val@)));
                assert(sofar + (seq![(key@, val@)] + more) =~= text_pairs(out@) + more);
            }
        }
        i += 1;
    }
    assert(text_pairs(out@) + deduplicated(last@, ps.skip(i as int)).1 =~= text_pairs(out@));
}

// ---- Lines of the stream ----------------------------------------------------

/// The data that a line of the stream carries.
pub open spec fn line_data(line: Seq<char>) -> Option<Seq<char>> {
    without_prefix(trimmed(line), "data: "@)
}

/// Whether the head of a stream goes on behind a line; a blank line ends it.
pub open spec fn head_goes_on(in_head: bool, line: Seq<char>) -> bool {
    in_head && trimmed(line).len() > 0
}

/// The data that the lines of a stream carry, in their order; lines of its head carry
/// none.
pub open spec fn stream_data(in_head: bool, input: Seq<char>) -> Seq<Seq<char>>
    decreases input.len(),
{
    if after_line(input).len() >= input.len() {
        Seq::empty()
    } else {
        let line = raw_line(input);
        let more = stream_data(head_goes_on(in_head, line), after_line(input));
        if !in_head && line_data(line) is Some {
            seq![line_data(line)->0] + more
        } else {
            more
        }
    }
}

/// What a line of the stream means.
pub struct StreamLine {
    /// Whether the next line still belongs to the head.
    pub in_head: bool,
    /// The data that the line carries.
    pub data: Option<String>,
}

/// Takes one more line of the stream; `in_head` says whether it belongs to the head.
pub fn read_stream_line(in_head: bool, line: &str) -> (r: StreamLine)
    ensures
        r.in_head == head_goes_on(in_head, line@),
        opt_text(r.data) == if in_head {
            None
        } else {
            line_data(line@)
        },
{
    let chars = chars_of(line);
    let bare = trim(chars.as_slice());
    if in_head {
        return StreamLine { in_head: bare.len() > 0, data: None };
    }
    let data = match strip_prefix(bare, "data: ") {
        Some(data) => Some(string_of(data)),
        None => None,
    };
    StreamLine { in_head: false, data }
}

// ---- Requests ---------------------------------------------------------------

/// Asks for the stream of events.
pub const EVENTS_REQUEST: &'static str = "GET /events HTTP/1.1\r\n\r\n";

/// Asks for all current values.
pub const REFRESH_REQUEST: &'static str = "GET /values?cursor=0 HTTP/1.1\r\n\r\n";

/// Asks for the description of all parameters.
pub const LIST_REQUEST: &'static str = "GET /params HTTP/1.1\r\n\r\n";

/// A request that puts `body` to `path`.
pub open spec fn put_request(path: Seq<char>, body: Seq<char>) -> Seq<char> {
    "PUT "@ + path + " HTTP/1.1\r\nContent-Length: "@ + decimal(encode_utf8(body).len() as int)
        + "\r\n\r\n"@ + body
}

fn write_put(path: &str, body: &String) -> (r: String)
    ensures
        r@ == put_request(path@, body@),
{
    let mut req = String::new();
    req.append("PUT ");
    req.append(path);
    req.append(" HTTP/1.1\r\nContent-Length: ");
    let n: usize = body.as_str().as_bytes().len();
    req.append(decimal_text(n as u64).as_str());
    req.append("\r\n\r\n");
    req.append(body.as_str());
    assert(req@ =~= put_request(path@, body@));
    req
}

// ---- The connection ---------------------------------------------------------

/// The text that `String::from_utf8_lossy` makes of bytes.
pub uninterp spec fn lossy_text(bytes: Seq<u8>) -> Seq<char>;

/// `String::from_utf8_lossy`: a text for any bytes; for valid UTF-8 the text that
/// they encode.
#[verifier::external_body]
fn from_utf8_lossy(bytes: &[u8]) -> (r: String)
    ensures
        r@ == lossy_text(bytes@),
        valid_utf8(bytes@) ==> r@ == decode_utf8(bytes@),
{
    String::from_utf8_lossy(bytes).into_owned()
}

/// The body of a response as text, and the cursor that came with it.
pub fn response_text(head: ResponseHead, body: &[u8]) -> (r: (String, u64))
    ensures
        r.0@ == lossy_text(body@),
        valid_utf8(body@) ==> r.0@ == decode_utf8(body@),
        r.1 == head.cursor,
{
    (from_utf8_lossy(body), head.cursor)
}

/// The changes that came in and were not asked for yet.
pub struct Connection {
    buffer: Vec<(String, String)>,
    has_data: bool,
    last: LastValues,
}

/// What a connection holds.
#[verifier::ext_equal]
pub struct ConnectionModel {
    pub buffer: Seq<(Seq<char>, Seq<char>)>,
    pub last: Map<Seq<char>, Seq<char>>,
}

impl View for Connection {
    type V = ConnectionModel;

    closed spec fn view(&self) -> ConnectionModel {
        ConnectionModel { buffer: text_pairs(self.buffer@), last: self.last@ }
    }
}

impl Connection {
    /// Whenever there is a change in the buffer, the flag says so.
    #[verifier::type_invariant]
    spec fn flagged(self) -> bool {
        self.buffer@.len() > 0 ==> self.has_data
    }

    /// No change yet.
    pub fn new() -> (c: Connection)
        ensures
            c@.buffer == Seq::<(Seq<char>, Seq<char>)>::empty(),
            c@.last == Map::<Seq<char>, Seq<char>>::empty(),
    {
        let c = Connection { buffer: Vec::new(), has_data: false, last: LastValues::new() };
        assert(c@.buffer =~= Seq::<(Seq<char>, Seq<char>)>::empty());
        c
    }

    /// Takes the data of an event in: what changed waits for the next `get`.
    pub fn deliver(&mut self, data: &str)
        requires
            event_pairs(data@) is Some,
        ensures
            final(self)@.last == deduplicated(old(self)@.last, event_pairs(data@)->0).0,
            final(self)@.buffer == old(self)@.buffer + deduplicated(
                old(self)@.last,
                event_pairs(data@)->0,
            ).1,
    {
        proof {
            use_type_invariant(&*self);
        }
        let mut last = LastValues::new();
        std::mem::swap(&mut last, &mut self.last);
        let mut changed: Vec<(String, String)> = Vec::new();
        parse_sse_dedup(data, &mut last, &mut changed);
        proof {
            assert(text_pairs(Seq::<(String, String)>::empty()) =~= Seq::<
                (Seq<char>, Seq<char>),
            >::empty());
        }
        self.last = last;
        self.merge(changed);
    }

    fn merge(&mut self, changes: Vec<(String, String)>)
        ensures
            final(self)@.buffer == old(self)@.buffer + text_pairs(changes@),
            final(self)@.last == old(self)@.last,
    {
        proof {
            use_type_invariant(&*self);
        }
        let mut changes = changes;
        let ghost more = changes@;
        if changes.len() > 0 {
            self.has_data = true;
            let ghost sofar = self.buffer@;
            let mut buffer: Vec<(String, String)> = Vec::new();
            std::mem::swap(&mut buffer, &mut self.buffer);
            buffer.append(&mut changes);
            assert(text_pairs(buffer@) =~= text_pairs(sofar) + text_pairs(more));
            self.buffer = buffer;
        } else {
            assert(text_pairs(self.buffer@) + text_pairs(more) =~= text_pairs(self.buffer@));
        }
    }

    /// Non-blocking: drain all buffered changes since last call.
    pub fn get(&mut self) -> (r: Vec<(String, String)>)
        ensures
            text_pairs(r@) == old(self)@.buffer,
            final(self)@.buffer == Seq::<(Seq<char>, Seq<char>)>::empty(),
            final(self)@.last == old(self)@.last,
    {
        proof {
            use_type_invariant(&*self);
        }
        let mut r: Vec<(String, String)> = Vec::new();
        if !self.has_data {
            assert(text_pairs(self.buffer@) =~= Seq::<(Seq<char>, Seq<char>)>::empty());
            assert(text_pairs(r@) =~= Seq::<(Seq<char>, Seq<char>)>::empty());
            return r;
        }
        std::mem::swap(&mut r, &mut self.buffer);
        self.has_data = false;
        assert(text_pairs(self.buffer@) =~= Seq::<(Seq<char>, Seq<char>)>::empty());
        r
    }

    /// Merges the current values, as the server listed them, into the buffer.
    pub fn refresh(&mut self, body: &str)
        ensures
            final(self)@.buffer == old(self)@.buffer + tab_pairs(line_list(body@)),
            final(self)@.last == old(self)@.last,
    {
        let pairs = read_pairs(body);
        self.merge(pairs);
    }

    /// The descriptions that the server sent.
    pub fn list(body: &str) -> (r: Vec<ParamInfo>)
        ensures
            infos(r@) == info_list(line_list(body@)),
    {
        parse_param_lines(body)
    }

    /// A request that writes the values, in their order.
    pub fn set(updates: &[(&str, &str)]) -> (r: String)
        ensures
            r@ == put_request("/params"@, ended_lines(pair_lines(str_pairs(updates@)))),
    {
        let body = write_pairs(updates);
        write_put("/params", &body)
    }

    /// A request that writes the unit of one parameter.
    pub fn set_unit(name: &str, unit: &str) -> (r: String)
        ensures
            r@ == put_request("/unit"@, ended_lines(seq![pair_line((name@, unit@))])),
    {
        let one = [(name, unit)];
        let body = write_pairs(&one);
        assert(pair_lines(str_pairs(one@)) =~= seq![pair_line((name@, unit@))]);
        write_put("/unit", &body)
    }
}

} // verus!
