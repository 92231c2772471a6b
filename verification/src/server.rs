//! The server's answers: how a request is routed, what it replies and how it
//! changes the state.
use vstd::prelude::*;
use vstd::utf8::{decode_utf8, encode_utf8, valid_utf8};

use crate::config::{defs, DefModel, ParamDef};
use crate::http::{header_number, respond, response_bytes, Request};
use crate::number::{decimal, decimal_text, law_unsigned_only, parse_unsigned, unsigned_value};
use crate::params::{param_lines, write_param_line};
use crate::state::{after_put, unknown_names, with_units, State, StateModel};
use crate::text::{
    chars_of, cut, ended_lines, is_text, joined, law_without_prefix, lemma_absent,
    lemma_ended_lines_push, lemma_first_after, lemma_own_prefix, lemma_pieces_of_joined, line_list,
    pair_line, pair_lines, pieces, read_pairs, slices, split, split_at_char, str_pairs,
    strip_prefix, tab_pairs, texts, without_prefix,
};

verus! {

// ---- Routing ----------------------------------------------------------------

/// What a request asks for.
#[derive(Clone, Copy)]
pub enum Route {
    /// The stream of events.
    Events,
    /// The description of all parameters.
    Params,
    /// The values that changed after the given version.
    Values(u64),
    /// A write of values.
    PutParams,
    /// A write of units.
    PutUnit,
    /// The methods that a browser may use.
    Options,
    /// Nothing that the server has.
    NotFound,
}

/// The first query part that starts with `cursor=`, without that prefix.
pub open spec fn cursor_part(parts: Seq<Seq<char>>) -> Option<Seq<char>>
    decreases parts.len(),
{
    if parts.len() == 0 {
        None
    } else if without_prefix(parts[0], "cursor="@) is Some {
        without_prefix(parts[0], "cursor="@)
    } else {
        cursor_part(parts.skip(1))
    }
}

/// The cursor that a path asks for; zero where it names none.
pub open spec fn path_cursor(path: Seq<char>) -> int {
    match cut(path, seq!['?']) {
        Some((_, query)) => match cursor_part(pieces(query, '&')) {
            Some(v) => match unsigned_value(v, u64::MAX as int) {
                Some(n) => n,
                None => 0,
            },
            None => 0,
        },
        None => 0,
    }
}

/// What a method and a path ask for.
pub open spec fn route_of(method: Seq<char>, path: Seq<char>) -> Route {
    let place = pieces(path, '?')[0];
    if method == "GET"@ && path == "/events"@ {
        Route::Events
    } else if method == "GET"@ && place == "/params"@ {
        Route::Params
    } else if method == "GET"@ && place == "/values"@ {
        Route::Values(path_cursor(path) as u64)
    } else if method == "PUT"@ && place == "/params"@ {
        Route::PutParams
    } else if method == "PUT"@ && place == "/unit"@ {
        Route::PutUnit
    } else if method == "OPTIONS"@ {
        Route::Options
    } else {
        Route::NotFound
    }
}

fn find_cursor(path: &[char]) -> (r: u64)
    ensures
        r == path_cursor(path@),
{
    let query = match split_at_char(path, '?') {
        Some((_, query)) => query,
        None => return 0,
    };
    let parts = split(query, '&');
    let ghost ps = slices(parts@);
    let mut i: usize = 0;
    assert(ps.skip(0) =~= ps);
    while i < parts.len()
        invariant
            i <= parts@.len(),
            ps == slices(parts@),
            ps == pieces(query@, '&'),
            cut(path@, seq!['?']) is Some,
            (cut(path@, seq!['?'])->0).1 == query@,
            cursor_part(ps) == cursor_part(ps.skip(i as int)),
        decreases parts@.len() - i,
    {
        assert(ps.skip(i as int)[0] == parts@[i as int]@);
        assert(ps.skip(i as int).skip(1) =~= ps.skip(i + 1));
        if let Some(v) = strip_prefix(parts[i], "cursor=") {
            assert(cursor_part(ps) == Some(v@));
            return match parse_unsigned(v, u64::MAX) {
                Some(n) => n,
                None => 0,
            };
        }
        i += 1;
    }
    assert(cursor_part(ps) is None);
    0
}

/// What a method and a path ask for.
pub fn route(method: &str, path: &str) -> (r: Route)
    ensures
        r == route_of(method@, path@),
{
    let m = chars_of(method);
    let p = chars_of(path);
    let m = m.as_slice();
    let p = p.as_slice();
    let parts = split(p, '?');
    let ghost ps = slices(parts@);
    assert(ps.len() > 0);
    assert(ps[0] == parts@[0]@);
    let place = parts[0];
    let get = is_text(m, "GET");
    let put = is_text(m, "PUT");
    if get && is_text(p, "/events") {
        Route::Events
    } else if get && is_text(place, "/params") {
        Route::Params
    } else if get && is_text(place, "/values") {
        Route::Values(find_cursor(p))
    } else if put && is_text(place, "/params") {
        Route::PutParams
    } else if put && is_text(place, "/unit") {
        Route::PutUnit
    } else if is_text(m, "OPTIONS") {
        Route::Options
    } else {
        Route::NotFound
    }
}

// ---- Replies ----------------------------------------------------------------

/// The name and value of each parameter from place `i` on that changed after
/// version `cursor`.
pub open spec fn changed_from(ds: Seq<DefModel>, s: StateModel, cursor: int, i: int) -> Seq<
    (Seq<char>, Seq<char>),
>
    decreases ds.len() - i,
{
    if i < 0 || i >= ds.len() {
        Seq::empty()
    } else if s.versions[i] > cursor {
        seq![(ds[i].name, s.values[i])] + changed_from(ds, s, cursor, i + 1)
    } else {
        changed_from(ds, s, cursor, i + 1)
    }
}

/// The name and value of each parameter that changed after version `cursor`.
pub open spec fn changed(ds: Seq<DefModel>, s: StateModel, cursor: int) -> Seq<
    (Seq<char>, Seq<char>),
> {
    changed_from(ds, s, cursor, 0)
}

/// The body that lists the values that changed after version `cursor`.
pub open spec fn values_body(ds: Seq<DefModel>, s: StateModel, cursor: int) -> Seq<char> {
    ended_lines(pair_lines(changed(ds, s, cursor)))
}

/// The body that describes all parameters.
pub open spec fn params_body(ds: Seq<DefModel>, s: StateModel) -> Seq<char> {
    ended_lines(param_lines(ds, s.units))
}

fn write_params(params: &Vec<ParamDef>, state: &State) -> (r: String)
    requires
        state@.wf(defs(params@)),
    ensures
        r@ == params_body(defs(params@), state@),
{
    let ghost ls = param_lines(defs(params@), state@.units);
    let mut body = String::new();
    let mut i: usize = 0;
    assert(ls.take(0) =~= Seq::<Seq<char>>::empty());
    while i < params.len()
        invariant
            i <= params@.len(),
            state@.wf(defs(params@)),
            ls == param_lines(defs(params@), state@.units),
            body@ == ended_lines(ls.take(i as int)),
        decreases params@.len() - i,
    {
        let ghost before = body@;
        let line = write_param_line(&params[i], &state.units[i]);
        assert(line@ == ls[i as int]);
        body.append(line.as_str());
        body.push('\n');
        proof {
            lemma_ended_lines_push(ls.take(i as int), ls[i as int]);
            assert(ls.take(i + 1) =~= ls.take(i as int).push(ls[i as int]));
            assert(body@ =~= before + ls[i as int] + seq!['\n']);
        }
        i += 1;
    }
    assert(ls.take(i as int) =~= ls);
    body
}

fn write_values(params: &Vec<ParamDef>, state: &State, cursor: u64) -> (r: String)
    requires
        state@.wf(defs(params@)),
    ensures
        r@ == values_body(defs(params@), state@, cursor as int),
{
    let ghost ds = defs(params@);
    let ghost mut done = Seq::<(Seq<char>, Seq<char>)>::empty();
    let mut body = String::new();
    let mut i: usize = 0;
    assert(pair_lines(done) =~= Seq::<Seq<char>>::empty());
    assert(done + changed(ds, state@, cursor as int) =~= changed(ds, state@, cursor as int));
    while i < params.len()
        invariant
            i <= params@.len(),
            ds == defs(params@),
            state@.wf(ds),
            changed(ds, state@, cursor as int) == done + changed_from(
                ds,
                state@,
                cursor as int,
                i as int,
            ),
            body@ == ended_lines(pair_lines(done)),
        decreases params@.len() - i,
    {
        if state.versions[i] > cursor {
            let ghost before = body@;
            let ghost pair = (ds[i as int].name, state@.values[i as int]);
            body.append(params[i].name.as_str());
            body.push('\t');
            body.append(state.values[i].as_str());
            body.push('\n');
            proof {
                lemma_ended_lines_push(pair_lines(done), pair_line(pair));
                assert(pair_lines(done.push(pair)) =~= pair_lines(done).push(pair_line(pair)));
                assert(body@ =~= before + pair_line(pair) + seq!['\n']);
                assert(done.push(pair) + changed_from(ds, state@, cursor as int, i + 1) =~= done + (
                seq![pair] + changed_from(ds, state@, cursor as int, i + 1)));
                done = done.push(pair);
            }
        }
        i += 1;
    }
    assert(done + changed_from(ds, state@, cursor as int, i as int) =~= done);
    body
}

/// `std::str::from_utf8`: the text that the bytes encode; none where they are no
/// UTF-8.
#[verifier::external_body]
fn utf8_text(bytes: &[u8]) -> (r: Option<&str>)
    ensures
        match r {
            Some(s) => valid_utf8(bytes@) && s@ == decode_utf8(bytes@),
            None => !valid_utf8(bytes@),
        },
{
    std::str::from_utf8(bytes).ok()
}

/// The pairs that a body holds.
pub open spec fn body_pairs(body: Seq<u8>) -> Seq<(Seq<char>, Seq<char>)> {
    tab_pairs(line_list(decode_utf8(body)))
}

/// The state that a request leaves behind. A write whose body is no UTF-8 changes
/// nothing.
pub open spec fn next_state(
    route: Route,
    body: Seq<u8>,
    ds: Seq<DefModel>,
    s: StateModel,
) -> StateModel {
    match route {
        Route::PutParams => if valid_utf8(body) {
            after_put(s, ds, body_pairs(body))
        } else {
            s
        },
        Route::PutUnit => if valid_utf8(body) {
            with_units(s, ds, body_pairs(body))
        } else {
            s
        },
        _ => s,
    }
}

/// The bytes that a request is answered with; none where the stream of events
/// takes over.
pub open spec fn reply_bytes(route: Route, ds: Seq<DefModel>, s: StateModel) -> Option<Seq<u8>> {
    let none = Seq::<(Seq<char>, Seq<char>)>::empty();
    match route {
        Route::Events => None,
        Route::Params => Some(
            response_bytes(200, "OK"@, none, encode_utf8(params_body(ds, s))),
        ),
        Route::Values(cursor) => Some(
            response_bytes(
                200,
                "OK"@,
                seq![("X-Cursor"@, decimal(s.clock as int))],
                encode_utf8(values_body(ds, s, cursor as int)),
            ),
        ),
        Route::PutParams => Some(response_bytes(200, "OK"@, none, Seq::empty())),
        Route::PutUnit => Some(response_bytes(200, "OK"@, none, Seq::empty())),
        Route::Options => Some(
            response_bytes(
                204,
                "No Content"@,
                seq![
                    ("Access-Control-Allow-Methods"@, "GET, PUT, OPTIONS"@),
                    ("Access-Control-Allow-Headers"@, "Content-Type"@),
                ],
                Seq::empty(),
            ),
        ),
        Route::NotFound => Some(response_bytes(404, "Not Found"@, none, Seq::empty())),
    }
}

/// Whether a request moves the clock on.
pub open spec fn ticks(method: Seq<char>, path: Seq<char>, body: Seq<u8>) -> bool {
    route_of(method, path) is PutParams && valid_utf8(body)
}

/// Whether a request moves the clock on.
pub fn moves_clock(req: &Request) -> (r: bool)
    ensures
        r == ticks(req.method@, req.path@, req.body@),
{
    match route(req.method.as_str(), req.path.as_str()) {
        Route::PutParams => utf8_text(req.body.as_slice()).is_some(),
        _ => false,
    }
}

/// What follows from a request.
pub struct Outcome {
    /// The bytes to answer with; none where the stream of events takes over.
    pub reply: Option<Vec<u8>>,
    /// Whether the streams of events are to look at the state again.
    pub notify: bool,
    /// Names that a write used and that are no parameter's.
    pub unknown: Vec<String>,
}

pub open spec fn opt_bytes(o: Option<Vec<u8>>) -> Option<Seq<u8>> {
    match o {
        Some(v) => Some(v@),
        None => None,
    }
}

/// Answers a request.
pub fn handle(req: &Request, params: &Vec<ParamDef>, state: &mut State) -> (out: Outcome)
    requires
        old(state)@.wf(defs(params@)),
        ticks(req.method@, req.path@, req.body@) ==> old(state).clock < u64::MAX,
    ensures
        final(state)@ == next_state(
            route_of(req.method@, req.path@),
            req.body@,
            defs(params@),
            old(state)@,
        ),
        final(state)@.wf(defs(params@)),
        opt_bytes(out.reply) == reply_bytes(
            route_of(req.method@, req.path@),
            defs(params@),
            old(state)@,
        ),
        out.notify == (route_of(req.method@, req.path@) is PutParams),
        texts(out.unknown@) == (if ticks(req.method@, req.path@, req.body@) {
            unknown_names(defs(params@), body_pairs(req.body@))
        } else {
            Seq::empty()
        }),
{
    let empty: [u8; 0] = [];
    let none: [(&str, &str); 0] = [];
    let ghost no_headers = Seq::<(Seq<char>, Seq<char>)>::empty();
    assert(str_pairs(none@) =~= no_headers);
    assert(empty@ =~= Seq::<u8>::empty());
    let r = route(req.method.as_str(), req.path.as_str());
    let mut unknown: Vec<String> = Vec::new();
    let mut notify = false;
    let reply = match r {
        Route::Events => None,
        Route::Params => {
            let body = write_params(params, state);
            Some(respond(200, "OK", &none, body.as_str().as_bytes()))
        },
        Route::Values(cursor) => {
            let body = write_values(params, state, cursor);
            let clock = decimal_text(state.clock);
            let extra = [("X-Cursor", clock.as_str())];
            assert(str_pairs(extra@) =~= seq![("X-Cursor"@, decimal(state.clock as int))]);
            Some(respond(200, "OK", &extra, body.as_str().as_bytes()))
        },
        Route::PutParams => {
            if let Some(text) = utf8_text(req.body.as_slice()) {
                let pairs = read_pairs(text);
                unknown = state.put_values(params, &pairs);
            }
            notify = true;
            Some(respond(200, "OK", &none, &empty))
        },
        Route::PutUnit => {
            if let Some(text) = utf8_text(req.body.as_slice()) {
                let pairs = read_pairs(text);
                state.put_units(params, &pairs);
            }
            Some(respond(200, "OK", &none, &empty))
        },
        Route::Options => {
            let extra = [
                ("Access-Control-Allow-Methods", "GET, PUT, OPTIONS"),
                ("Access-Control-Allow-Headers", "Content-Type"),
            ];
            assert(str_pairs(extra@) =~= seq![
                ("Access-Control-Allow-Methods"@, "GET, PUT, OPTIONS"@),
                ("Access-Control-Allow-Headers"@, "Content-Type"@),
            ]);
            Some(respond(204, "No Content", &extra, &empty))
        },
        Route::NotFound => Some(respond(404, "Not Found", &none, &empty)),
    };
    if !notify {
        assert(texts(unknown@) =~= Seq::<Seq<char>>::empty());
    }
    Outcome { reply, notify, unknown }
}

// ---- The stream of events ---------------------------------------------------

/// The head that a stream of events begins with.
pub const SSE_HEAD: &'static str =
    "HTTP/1.1 200 OK\r\nContent-Type: text/event-stream\r\nCache-Control: no-cache\r\nAccess-Control-Allow-Origin: *\r\n\r\n";

/// What a stream of events does next.
pub enum SseStep {
    /// Wait until the state has changed.
    Wait,
    /// Send the event, and go on with the cursor.
    Send { event: String, cursor: u64 },
}

/// A stream that has sent everything up to version `cursor` has an event to send.
pub open spec fn sse_due(cursor: u64, s: StateModel) -> bool {
    s.clock > cursor
}

/// The next step of a stream that has sent everything up to version `cursor`.
pub fn serve_sse(cursor: u64, state: &State) -> (step: SseStep)
    ensures
        match step {
            SseStep::Wait => !sse_due(cursor, state@),
            SseStep::Send { event, cursor: next } => sse_due(cursor, state@) && event@
                == state@.event && next == state@.clock,
        },
        step is Wait <==> state.clock <= cursor,
        step matches SseStep::Send { event, cursor: next } ==> event@ == state.sse_event@ && next
            == state.clock,
{
    if state.clock <= cursor {
        SseStep::Wait
    } else {
        SseStep::Send { event: state.sse_event.clone(), cursor: state.clock }
    }
}

// ---- What is asked for --------------------------------------------------------

proof fn lemma_methods()
    ensures
        "GET"@ != "PUT"@,
        "GET"@ != "OPTIONS"@,
        "PUT"@ != "OPTIONS"@,
{
    reveal_strlit("GET");
    reveal_strlit("PUT");
    reveal_strlit("OPTIONS");
    assert("GET"@[0] != "PUT"@[0]);
    assert("GET"@.len() != "OPTIONS"@.len());
    assert("PUT"@.len() != "OPTIONS"@.len());
}

proof fn lemma_places()
    ensures
        "/events"@ != "/params"@,
        "/events"@ != "/values"@,
        "/params"@ != "/values"@,
        "/params"@ != "/unit"@,
        !"/events"@.contains('?'),
{
    reveal_strlit("/events");
    reveal_strlit("/params");
    reveal_strlit("/values");
    reveal_strlit("/unit");
    assert("/events"@[1] != "/params"@[1]);
    assert("/events"@[1] != "/values"@[1]);
    assert("/params"@[1] != "/values"@[1]);
    assert("/params"@.len() != "/unit"@.len());
}

/// What a method and a place ask for, where the path is the place alone.
pub proof fn law_route(method: Seq<char>, place: Seq<char>)
    requires
        !place.contains('?'),
    ensures
        method == "GET"@ && place == "/events"@ ==> route_of(method, place) == Route::Events,
        method == "GET"@ && place == "/params"@ ==> route_of(method, place) == Route::Params,
        method == "GET"@ && place == "/values"@ ==> route_of(method, place) == Route::Values(0),
        method == "GET"@ && place != "/events"@ && place != "/params"@ && place != "/values"@
            ==> route_of(method, place) == Route::NotFound,
        method == "PUT"@ && place == "/params"@ ==> route_of(method, place) == Route::PutParams,
        method == "PUT"@ && place == "/unit"@ ==> route_of(method, place) == Route::PutUnit,
        method == "PUT"@ && place != "/params"@ && place != "/unit"@ ==> route_of(method, place)
            == Route::NotFound,
        method == "OPTIONS"@ ==> route_of(method, place) == Route::Options,
        method != "GET"@ && method != "PUT"@ && method != "OPTIONS"@ ==> route_of(method, place)
            == Route::NotFound,
{
    lemma_methods();
    lemma_places();
    lemma_absent(place, '?');
    assert(pieces(place, '?')[0] == place);
}

/// A query behind the place changes what is asked for in two ways only: it tells the cursor
/// of a poll, and there are no events behind a path with a query.
pub proof fn law_route_with_query(method: Seq<char>, place: Seq<char>, query: Seq<char>)
    requires
        !place.contains('?'),
    ensures
        ({
            let path = place + seq!['?'] + query;
            &&& method == "GET"@ && place == "/values"@ ==> route_of(method, path) == Route::Values(
                path_cursor(path) as u64,
            )
            &&& 0 <= path_cursor(path) <= u64::MAX
            &&& method == "GET"@ && place == "/events"@ ==> route_of(method, path)
                == Route::NotFound
            &&& method != "GET"@ || place != "/values"@ && place != "/events"@ ==> route_of(
                method,
                path,
            ) == route_of(method, place)
        }),
{
    let path = place + seq!['?'] + query;
    lemma_methods();
    lemma_places();
    lemma_absent(place, '?');
    assert(pieces(place, '?')[0] == place);
    lemma_first_after(place, '?', query);
    assert(pieces(path, '?') == seq![place] + pieces(query, '?'));
    assert(pieces(path, '?')[0] == place);
    assert(path[place.len() as int] == '?');
    assert(path.contains('?'));
    match cursor_part(pieces(query, '&')) {
        Some(v) => {
            if unsigned_value(v, u64::MAX as int) is Some {
                law_unsigned_only(v, u64::MAX as int);
            }
        },
        None => {},
    }
}

proof fn lemma_cursor_part(parts: Seq<Seq<char>>, k: int)
    requires
        0 <= k <= parts.len(),
        forall|i: int| 0 <= i < k ==> without_prefix(#[trigger] parts[i], "cursor="@) is None,
        k < parts.len() ==> without_prefix(parts[k], "cursor="@) is Some,
    ensures
        cursor_part(parts) == if k < parts.len() {
            without_prefix(parts[k], "cursor="@)
        } else {
            None
        },
    decreases parts.len(),
{
    if parts.len() > 0 && k > 0 {
        let tail = parts.skip(1);
        assert(without_prefix(parts[0], "cursor="@) is None);
        assert forall|i: int| 0 <= i < k - 1 implies without_prefix(
            #[trigger] tail[i],
            "cursor="@,
        ) is None by {
            assert(tail[i] == parts[i + 1]);
        }
        lemma_cursor_part(tail, k - 1);
    }
}

/// The cursor that a path asks for is the number behind the first `cursor=` among the
/// parts of its query, which stand between ampersands; zero where that is no number,
/// where no part begins so, and where there is no query. `k` is the place of that part,
/// or the number of parts where there is none.
pub proof fn law_cursor_asked(place: Seq<char>, parts: Seq<Seq<char>>, k: int, v: Seq<char>)
    requires
        !place.contains('?'),
        parts.len() > 0,
        forall|i: int| 0 <= i < parts.len() ==> !(#[trigger] parts[i]).contains('&'),
        0 <= k <= parts.len(),
        forall|i: int, w: Seq<char>|
            0 <= i < k ==> #[trigger] parts[i] != #[trigger] ("cursor="@ + w),
        k < parts.len() ==> parts[k] == "cursor="@ + v,
    ensures
        path_cursor(place + seq!['?'] + joined(parts, '&')) == if k < parts.len() {
            header_number(v, u64::MAX as int)
        } else {
            0
        },
        path_cursor(place) == 0,
{
    let query = joined(parts, '&');
    lemma_first_after(place, '?', query);
    lemma_absent(place, '?');
    lemma_pieces_of_joined(parts, '&');
    assert forall|i: int| 0 <= i < k implies without_prefix(
        #[trigger] parts[i],
        "cursor="@,
    ) is None by {
        if without_prefix(parts[i], "cursor="@) is Some {
            let w = without_prefix(parts[i], "cursor="@)->0;
            law_without_prefix(parts[i], "cursor="@, w);
            assert(parts[i] != "cursor="@ + w);
        }
    }
    if k < parts.len() {
        lemma_own_prefix("cursor="@, v);
    }
    lemma_cursor_part(parts, k);
}

/// The clock moves on for a write of values whose body is text, and for nothing else.
pub proof fn law_ticks(method: Seq<char>, place: Seq<char>, query: Seq<char>, body: Seq<u8>)
    requires
        !place.contains('?'),
    ensures
        ticks(method, place, body) <==> method == "PUT"@ && place == "/params"@ && valid_utf8(body),
        ticks(method, place + seq!['?'] + query, body) <==> method == "PUT"@ && place
            == "/params"@ && valid_utf8(body),
{
    law_route(method, place);
    law_route_with_query(method, place, query);
    lemma_methods();
}

/// A write takes the pairs from the lines of its body that hold a tab, where the body is
/// text; values for one route, units for the other.
pub proof fn law_write_taken(text: Seq<char>, ds: Seq<DefModel>, s: StateModel)
    ensures
        next_state(Route::PutParams, encode_utf8(text), ds, s) == after_put(
            s,
            ds,
            tab_pairs(line_list(text)),
        ),
        next_state(Route::PutUnit, encode_utf8(text), ds, s) == with_units(
            s,
            ds,
            tab_pairs(line_list(text)),
        ),
{
    vstd::utf8::encode_utf8_valid_utf8(text);
    vstd::utf8::encode_utf8_decode_utf8(text);
}

} // verus!
