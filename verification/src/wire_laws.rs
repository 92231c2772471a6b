//! What holds of both sides of the wire: a request or a response that one side
//! writes, the other side reads back.
use vstd::prelude::*;
use vstd::utf8::{decode_utf8, encode_utf8, valid_utf8};

use crate::client::{put_request, EVENTS_REQUEST, LIST_REQUEST, REFRESH_REQUEST};
use crate::config::DefModel;
use crate::http::{
    begun_head, crlf_lines, header_line, header_lines, header_number, lemma_crlf_lines_push,
    read_request, read_response, request_step, response_bytes, response_head, response_lines,
    response_step, status_line, with_header, with_response_header, HeadModel, ResponseHead,
    ResponseStep, StepModel,
};
use crate::number::{
    are_digits, decimal, is_digit, law_run_value, law_unsigned_only, law_unsigned_read,
    law_unsigned_round_trip, lemma_decimal, run_value, unsigned_value,
};
use crate::params::{info_list, infos_of, law_list_round_trip, param_line, separable, valid_def};
use crate::server::{
    law_cursor_asked, law_route, law_route_with_query, next_state, params_body, reply_bytes,
    route_of, values_body, Route,
};
use crate::state::{after_put, named_values, with_units, StateModel};
use crate::state_laws::{law_refresh, law_values_read};
use crate::text::{
    after_line, all_line_end, all_white, cut, ended_lines, index_of, is_line, is_line_pair,
    is_white, joined, law_pairs_round_trip, law_raw_line, lemma_absent, lemma_first_after,
    lemma_index_from, lemma_index_of_is, lemma_pieces_of_joined, line_list, occurs_at, pair_line,
    pair_lines, pieces, raw_line, same_ignoring_case, tab_pairs, trimmed, trimmed_back,
    trimmed_front, trimmed_line_end,
};

verus! {

// ---- Lines and headers ------------------------------------------------------

/// A line that carriage return and line feed end is read up to them.
pub proof fn lemma_read_crlf(line: Seq<char>, rest: Seq<char>)
    requires
        !line.contains('\n'),
    ensures
        raw_line(line + "\r\n"@ + rest) == line + "\r\n"@,
        after_line(line + "\r\n"@ + rest) == rest,
{
    reveal_strlit("\r\n");
    let back = line + seq!['\r'];
    let s = line + "\r\n"@ + rest;
    assert(s =~= back + seq!['\n'] + rest);
    assert(!back.contains('\n')) by {
        assert forall|i: int| 0 <= i < back.len() implies back[i] != '\n' by {
            if i < line.len() {
                assert(line[i] == back[i]);
            }
        }
    }
    lemma_first_after(back, '\n', rest);
    assert(raw_line(s) =~= line + "\r\n"@);
}

/// A line without white space at its ends.
pub open spec fn is_tight(line: Seq<char>) -> bool {
    line.len() > 0 && !is_white(line[0]) && !is_white(line.last())
}

pub proof fn lemma_tight_trimmed(line: Seq<char>)
    requires
        is_tight(line),
    ensures
        trimmed(line) == line,
        trimmed(line + "\r\n"@) == line,
        trimmed_line_end(line + "\r\n"@) == line,
{
    reveal_strlit("\r\n");
    let one = line + seq!['\r'];
    let two = line + "\r\n"@;
    assert(two.drop_last() =~= one);
    assert(one.drop_last() =~= line);
    assert(trimmed_back(line) == line);
    assert(trimmed_back(one) == line);
    assert(trimmed_back(two) == line);
    assert(trimmed_front(line) == line);
    assert(trimmed_line_end(line) == line);
    assert(trimmed_line_end(one) == line);
}

/// The line end alone is a blank line.
pub proof fn lemma_blank_trimmed()
    ensures
        trimmed("\r\n"@) == Seq::<char>::empty(),
        trimmed_line_end("\r\n"@) == Seq::<char>::empty(),
        "\r\n"@.len() == 2,
{
    reveal_strlit("\r\n");
    let none = Seq::<char>::empty();
    let one = seq!['\r'];
    assert("\r\n"@.drop_last() =~= one);
    assert(one.drop_last() =~= none);
    assert(trimmed_back(none) == none);
    assert(trimmed_back(one) == none);
    assert(trimmed_back("\r\n"@) == none);
    assert(trimmed_front(none) == none);
    assert(trimmed_line_end(none) == none);
    assert(trimmed_line_end(one) == none);
}

/// A header is cut behind its name.
proof fn lemma_header_cut(k: Seq<char>, v: Seq<char>)
    requires
        !k.contains(':'),
    ensures
        cut(k + ": "@ + v, ": "@) == Some((k, v)),
{
    reveal_strlit(": ");
    let s = k + ": "@ + v;
    let n = k.len() as int;
    assert(occurs_at(s, ": "@, n));
    assert forall|j: int| 0 <= j < n implies !occurs_at(s, ": "@, j) by {
        if occurs_at(s, ": "@, j) {
            assert(s[j + 0] == ": "@[0]);
            assert(k[j] == ':');
        }
    }
    lemma_index_of_is(s, ": "@, n);
    assert(s.take(n) =~= k);
    assert(s.skip(n + 2) =~= v);
}

proof fn lemma_digits_tight(n: int)
    requires
        0 <= n,
    ensures
        is_tight(decimal(n)),
        !decimal(n).contains('\n'),
{
    lemma_decimal(n);
    assert(is_digit(decimal(n)[0]));
    assert(is_digit(decimal(n).last()));
    assert forall|i: int| 0 <= i < decimal(n).len() implies decimal(n)[i] != '\n' by {
        assert(is_digit(decimal(n)[i]));
    }
}

proof fn lemma_length_name()
    ensures
        same_ignoring_case("Content-Length"@, "content-length"@),
        !"Content-Length"@.contains(':'),
        !"Content-Length"@.contains('\n'),
        "Content-Length"@.len() == 14,
        "Content-Length"@[0] == 'C',
        "content-length"@.len() == 14,
{
    reveal_strlit("Content-Length");
    reveal_strlit("content-length");
}

// ---- Requests ---------------------------------------------------------------

/// A path that can stand in a request line.
pub open spec fn is_path(path: Seq<char>) -> bool {
    !path.contains(' ') && !path.contains('\n')
}

#[verifier::spinoff_prover]
#[verifier::rlimit(40)]
proof fn lemma_request_line(path: Seq<char>)
    requires
        is_path(path),
    ensures
        ({
            let line = "PUT "@ + path + " HTTP/1.1"@;
            &&& is_tight(line)
            &&& !line.contains('\n')
            &&& begun_head(line) == (HeadModel { method: "PUT"@, path, content_length: 0 })
        }),
{
    let line = "PUT "@ + path + " HTTP/1.1"@;
    reveal_strlit("PUT ");
    reveal_strlit("PUT");
    reveal_strlit(" HTTP/1.1");
    let version = " HTTP/1.1"@.skip(1);
    let parts = seq!["PUT"@, path, version];
    assert forall|i: int| 0 <= i < parts.len() implies !(#[trigger] parts[i]).contains(' ') by {
        if i == 1 {
        } else {
            assert(!"PUT"@.contains(' '));
            assert(!version.contains(' '));
        }
    }
    lemma_pieces_of_joined(parts, ' ');
    let tail = parts.skip(1);
    assert(tail.skip(1) =~= seq![version]);
    assert(joined(tail.skip(1), ' ') == version);
    assert(joined(tail, ' ') == path + seq![' '] + version);
    assert(joined(parts, ' ') =~= line);
    assert forall|i: int| 0 <= i < line.len() implies line[i] != '\n' by {
        if 4 <= i < 4 + path.len() {
            assert(path[i - 4] == line[i]);
        }
    }
}

proof fn lemma_encode_concat(a: Seq<char>, b: Seq<char>)
    ensures
        encode_utf8(a + b) == encode_utf8(a) + encode_utf8(b),
    decreases a.len(),
{
    if a.len() == 0 {
        assert(a + b =~= b);
        assert(encode_utf8(a) + encode_utf8(b) =~= encode_utf8(b));
    } else {
        lemma_encode_concat(a.drop_first(), b);
        assert((a + b).drop_first() =~= a.drop_first() + b);
        assert((a + b)[0] == a[0]);
        assert(encode_utf8(a + b) =~= encode_utf8(a) + encode_utf8(b));
    }
}

/// The server reads a write as the client wrote it, whatever else follows it: the method,
/// the path, the length of the body in bytes, and behind the head the body itself,
/// which takes up just as many bytes as the head announces.
pub proof fn law_put_request_read(path: Seq<char>, body: Seq<char>, more: Seq<char>)
    requires
        is_path(path),
        encode_utf8(body).len() <= usize::MAX,
    ensures
        read_request(None, put_request(path, body) + more) == Some(
            (
                HeadModel {
                    method: "PUT"@,
                    path,
                    content_length: encode_utf8(body).len() as int,
                },
                body + more,
            ),
        ),
        encode_utf8(body + more).take(encode_utf8(body).len() as int) == encode_utf8(body),
{
    let n = encode_utf8(body).len() as int;
    lemma_encode_concat(body, more);
    assert(encode_utf8(body + more).take(n) =~= encode_utf8(body));
    let end = "\r\n"@;
    let line1 = "PUT "@ + path + " HTTP/1.1"@;
    let line2 = "Content-Length"@ + ": "@ + decimal(n);
    let behind2 = end + (body + more);
    let behind1 = line2 + end + behind2;
    let input = put_request(path, body) + more;
    let begun = HeadModel { method: "PUT"@, path, content_length: 0 };
    let done = HeadModel { content_length: n, ..begun };
    assert(input =~= line1 + end + behind1) by {
        reveal_strlit(" HTTP/1.1\r\nContent-Length: ");
        reveal_strlit(" HTTP/1.1");
        reveal_strlit("\r\n");
        reveal_strlit("Content-Length");
        reveal_strlit(": ");
        reveal_strlit("\r\n\r\n");
    }
    lemma_request_line(path);
    lemma_read_crlf(line1, behind1);
    lemma_tight_trimmed(line1);
    assert(request_step(None, raw_line(input)) == StepModel::Line(begun));
    assert(end.len() == 2) by {
        lemma_blank_trimmed();
    }
    lemma_length_name();
    lemma_digits_tight(n);
    assert(is_tight(line2) && !line2.contains('\n')) by {
        reveal_strlit("Content-Length");
        reveal_strlit(": ");
        assert(line2.last() == decimal(n).last());
        assert forall|i: int| 0 <= i < line2.len() implies line2[i] != '\n' by {
            if i >= 16 {
                assert(decimal(n)[i - 16] == line2[i]);
            }
        }
    }
    lemma_read_crlf(line2, behind2);
    lemma_tight_trimmed(line2);
    lemma_tight_trimmed(decimal(n));
    lemma_header_cut("Content-Length"@, decimal(n));
    law_unsigned_round_trip(n, usize::MAX as int);
    assert(with_header(begun, line2) == done);
    assert(request_step(Some(begun), raw_line(behind1)) == StepModel::Line(done));
    let none = Seq::<char>::empty();
    assert(none + end + (body + more) =~= behind2);
    assert(none + end =~= end);
    lemma_read_crlf(none, body + more);
    lemma_blank_trimmed();
    assert(request_step(Some(done), raw_line(behind2)) == StepModel::Body(done));
    assert(read_request(Some(done), behind2) == Some((done, body + more)));
    assert(read_request(Some(begun), behind1) == Some((done, body + more)));
}

proof fn lemma_paths()
    ensures
        is_path("/params"@),
        is_path("/unit"@),
        route_of("PUT"@, "/params"@) == Route::PutParams,
        route_of("PUT"@, "/unit"@) == Route::PutUnit,
{
    reveal_strlit("/params");
    reveal_strlit("/unit");
    reveal_strlit("PUT");
    reveal_strlit("GET");
    assert("PUT"@[0] != "GET"@[0]);
    assert(!"/params"@.contains('?'));
    lemma_absent("/params"@, '?');
    assert(pieces("/params"@, '?')[0] == "/params"@);
    assert(!"/unit"@.contains('?'));
    lemma_absent("/unit"@, '?');
    assert(pieces("/unit"@, '?')[0] == "/unit"@);
    assert("/params"@.len() != "/unit"@.len());
}

/// Values that a client sets are written at the server, in their order, where every
/// name and value keeps its form as a line; `more` is what the client sends next.
pub proof fn law_set_reaches_server(
    updates: Seq<(Seq<char>, Seq<char>)>,
    more: Seq<char>,
    ds: Seq<DefModel>,
    s: StateModel,
)
    requires
        forall|i: int| 0 <= i < updates.len() ==> is_line_pair(#[trigger] updates[i]),
        encode_utf8(ended_lines(pair_lines(updates))).len() <= usize::MAX,
    ensures
        ({
            let body = ended_lines(pair_lines(updates));
            let bytes = encode_utf8(body);
            let head = HeadModel {
                method: "PUT"@,
                path: "/params"@,
                content_length: bytes.len() as int,
            };
            &&& read_request(None, put_request("/params"@, body) + more) == Some((head, body + more))
            &&& encode_utf8(body + more).take(head.content_length) == bytes
            &&& next_state(route_of(head.method, head.path), bytes, ds, s) == after_put(
                s,
                ds,
                updates,
            )
        }),
{
    let body = ended_lines(pair_lines(updates));
    lemma_paths();
    law_put_request_read("/params"@, body, more);
    law_pairs_round_trip(updates);
    vstd::utf8::encode_utf8_valid_utf8(body);
    vstd::utf8::encode_utf8_decode_utf8(body);
}

/// A unit that a client sets is written at the server, where name and unit keep
/// their form as a line; `more` is what the client sends next.
pub proof fn law_set_unit_reaches_server(
    name: Seq<char>,
    unit: Seq<char>,
    more: Seq<char>,
    ds: Seq<DefModel>,
    s: StateModel,
)
    requires
        is_line_pair((name, unit)),
        encode_utf8(ended_lines(seq![pair_line((name, unit))])).len() <= usize::MAX,
    ensures
        ({
            let body = ended_lines(seq![pair_line((name, unit))]);
            let bytes = encode_utf8(body);
            let head = HeadModel {
                method: "PUT"@,
                path: "/unit"@,
                content_length: bytes.len() as int,
            };
            &&& read_request(None, put_request("/unit"@, body) + more) == Some((head, body + more))
            &&& encode_utf8(body + more).take(head.content_length) == bytes
            &&& next_state(route_of(head.method, head.path), bytes, ds, s) == with_units(
                s,
                ds,
                seq![(name, unit)],
            )
        }),
{
    let one = seq![(name, unit)];
    let body = ended_lines(seq![pair_line((name, unit))]);
    assert(pair_lines(one) =~= seq![pair_line((name, unit))]);
    lemma_paths();
    law_put_request_read("/unit"@, body, more);
    law_pairs_round_trip(one);
    vstd::utf8::encode_utf8_valid_utf8(body);
    vstd::utf8::encode_utf8_decode_utf8(body);
}

// ---- Responses --------------------------------------------------------------

/// The head with the header lines taken into account from the left.
spec fn with_response_headers(head: ResponseHead, lines: Seq<Seq<char>>) -> ResponseHead
    decreases lines.len(),
{
    if lines.len() == 0 {
        head
    } else {
        with_response_headers(with_response_header(head, lines[0]), lines.skip(1))
    }
}

proof fn lemma_read_headers(head: ResponseHead, lines: Seq<Seq<char>>, rest: Seq<char>)
    requires
        forall|i: int|
            0 <= i < lines.len() ==> is_tight(#[trigger] lines[i]) && !lines[i].contains('\n'),
    ensures
        read_response(Some(head), crlf_lines(lines) + "\r\n"@ + rest) == (
            with_response_headers(head, lines),
            rest,
        ),
    decreases lines.len(),
{
    let end = "\r\n"@;
    let input = crlf_lines(lines) + end + rest;
    lemma_blank_trimmed();
    if lines.len() == 0 {
        let none = Seq::<char>::empty();
        assert(none + end + rest =~= input);
        assert(none + end =~= end);
        lemma_read_crlf(none, rest);
    } else {
        let tail = lines.skip(1);
        assert forall|i: int| 0 <= i < tail.len() implies is_tight(#[trigger] tail[i])
            && !tail[i].contains('\n') by {
            assert(tail[i] == lines[i + 1]);
        }
        let behind = crlf_lines(tail) + end + rest;
        assert(input =~= lines[0] + end + behind);
        assert(is_tight(lines[0]) && !lines[0].contains('\n'));
        lemma_read_crlf(lines[0], behind);
        lemma_tight_trimmed(lines[0]);
        lemma_read_headers(with_response_header(head, lines[0]), tail, rest);
    }
}

/// The headers that tell a client the cursor, where there is one to tell.
pub open spec fn cursor_headers(cursor: Option<u64>) -> Seq<(Seq<char>, Seq<char>)> {
    match cursor {
        Some(c) => seq![("X-Cursor"@, decimal(c as int))],
        None => Seq::empty(),
    }
}

proof fn lemma_length_header(head: ResponseHead, n: int)
    requires
        0 <= n <= usize::MAX,
    ensures
        ({
            let line = "Content-Length: "@ + decimal(n);
            &&& is_tight(line)
            &&& !line.contains('\n')
            &&& with_response_header(head, line) == (ResponseHead {
                content_length: n as usize,
                ..head
            })
        }),
{
    let line = "Content-Length: "@ + decimal(n);
    lemma_digits_tight(n);
    lemma_length_name();
    assert(line =~= "Content-Length"@ + ": "@ + decimal(n)) by {
        reveal_strlit("Content-Length: ");
        reveal_strlit("Content-Length");
        reveal_strlit(": ");
    }
    lemma_header_cut("Content-Length"@, decimal(n));
    law_unsigned_round_trip(n, usize::MAX as int);
    reveal_strlit("Content-Length: ");
    assert(line.last() == decimal(n).last());
    assert forall|i: int| 0 <= i < line.len() implies line[i] != '\n' by {
        if i >= 16 {
            assert(decimal(n)[i - 16] == line[i]);
        }
    }
}

proof fn lemma_cursor_header(head: ResponseHead, c: u64)
    ensures
        ({
            let line = header_line(("X-Cursor"@, decimal(c as int)));
            &&& is_tight(line)
            &&& !line.contains('\n')
            &&& with_response_header(head, line) == (ResponseHead { cursor: c, ..head })
        }),
{
    let line = header_line(("X-Cursor"@, decimal(c as int)));
    let n = c as int;
    lemma_digits_tight(n);
    reveal_strlit("X-Cursor");
    reveal_strlit("x-cursor");
    reveal_strlit("content-length");
    reveal_strlit(": ");
    assert(!"X-Cursor"@.contains(':'));
    lemma_header_cut("X-Cursor"@, decimal(n));
    law_unsigned_round_trip(n, u64::MAX as int);
    assert(!same_ignoring_case("X-Cursor"@, "content-length"@));
    assert(same_ignoring_case("X-Cursor"@, "x-cursor"@));
    assert(line.last() == decimal(n).last());
    assert forall|i: int| 0 <= i < line.len() implies line[i] != '\n' by {
        if i >= 10 {
            assert(decimal(n)[i - 10] == line[i]);
        }
    }
}

proof fn lemma_other_headers(head: ResponseHead)
    ensures
        is_tight("Access-Control-Allow-Origin: *"@),
        !"Access-Control-Allow-Origin: *"@.contains('\n'),
        with_response_header(head, "Access-Control-Allow-Origin: *"@) == head,
        is_tight("Access-Control-Expose-Headers: X-Cursor"@),
        !"Access-Control-Expose-Headers: X-Cursor"@.contains('\n'),
        with_response_header(head, "Access-Control-Expose-Headers: X-Cursor"@) == head,
{
    let a = "Access-Control-Allow-Origin"@;
    let b = "Access-Control-Expose-Headers"@;
    reveal_strlit("Access-Control-Allow-Origin");
    reveal_strlit("Access-Control-Expose-Headers");
    reveal_strlit("Access-Control-Allow-Origin: *");
    reveal_strlit("Access-Control-Expose-Headers: X-Cursor");
    reveal_strlit(": ");
    reveal_strlit("x-cursor");
    reveal_strlit("content-length");
    assert(!a.contains(':'));
    assert(!b.contains(':'));
    let va = "Access-Control-Allow-Origin: *"@.skip(29);
    let vb = "Access-Control-Expose-Headers: X-Cursor"@.skip(31);
    assert("Access-Control-Allow-Origin: *"@ =~= a + ": "@ + va);
    assert("Access-Control-Expose-Headers: X-Cursor"@ =~= b + ": "@ + vb);
    lemma_header_cut(a, va);
    lemma_header_cut(b, vb);
}

/// The client reads of a response what the server wrote: the length of the body, the
/// cursor where one is told, and what follows the head.
pub proof fn law_response_read(
    status: int,
    text: Seq<char>,
    cursor: Option<u64>,
    n: int,
    rest: Seq<char>,
)
    requires
        0 <= status,
        !text.contains('\n'),
        0 <= n <= usize::MAX,
    ensures
        read_response(None, response_head(status, text, cursor_headers(cursor), n) + rest) == (
            ResponseHead {
                content_length: n as usize,
                cursor: match cursor {
                    Some(c) => c,
                    None => 0,
                },
            },
            rest,
        ),
{
    let end = "\r\n"@;
    let extra = cursor_headers(cursor);
    let lines = response_lines(status, text, extra, n);
    let tail = lines.skip(1);
    let start = ResponseHead { content_length: 0, cursor: 0 };
    let sized = ResponseHead { content_length: n as usize, cursor: 0 };
    let input = response_head(status, text, extra, n) + rest;
    let behind = crlf_lines(tail) + end + rest;
    assert(input =~= lines[0] + end + behind);
    assert(!lines[0].contains('\n')) by {
        lemma_decimal(status);
        reveal_strlit("HTTP/1.1 ");
        reveal_strlit(" ");
        let s = status_line(status, text);
        let d = decimal(status);
        assert forall|i: int| 0 <= i < s.len() implies s[i] != '\n' by {
            if 9 <= i < 9 + d.len() {
                assert(is_digit(d[i - 9]));
            } else if i > 9 + d.len() {
                assert(text[i - 10 - d.len()] == s[i]);
            }
        }
    }
    lemma_read_crlf(lines[0], behind);
    lemma_blank_trimmed();
    assert(response_step(None, raw_line(input)) == ResponseStep::Line(start));
    lemma_length_header(start, n);
    lemma_other_headers(sized);
    if cursor is Some {
        lemma_cursor_header(sized, cursor->0);
    }
    assert forall|i: int| 0 <= i < tail.len() implies is_tight(#[trigger] tail[i])
        && !tail[i].contains('\n') by {
        assert(tail[i] == lines[i + 1]);
        if i == 3 {
            assert(lines[4] == header_lines(extra)[0]);
        }
    }
    lemma_read_headers(start, tail, rest);
    let t1 = tail.skip(1);
    let t2 = t1.skip(1);
    let t3 = t2.skip(1);
    assert(tail[0] == lines[1]);
    assert(t1[0] == lines[2]);
    assert(t2[0] == lines[3]);
    assert(with_response_headers(start, tail) == with_response_headers(sized, t1));
    assert(with_response_headers(sized, t1) == with_response_headers(sized, t2));
    assert(with_response_headers(sized, t2) == with_response_headers(sized, t3));
    match cursor {
        Some(c) => {
            assert(t3[0] == header_lines(extra)[0]);
            let told = ResponseHead { cursor: c, ..sized };
            assert(t3.skip(1).len() == 0);
            assert(with_response_headers(told, t3.skip(1)) == told);
            assert(with_response_headers(sized, t3) == told);
        },
        None => {
            assert(t3.len() == 0);
        },
    }
}

/// A client that asks for all values gets them: the reply is a head and a body, the
/// head tells the length of the body and the current clock as the cursor, and the
/// body gives the name and the value of every parameter.
pub proof fn law_refresh_reaches_client(ds: Seq<DefModel>, s: StateModel)
    requires
        s.wf(ds),
        forall|i: int|
            0 <= i < ds.len() ==> is_line_pair(#[trigger] named_values(ds, s.values)[i]),
        encode_utf8(values_body(ds, s, 0)).len() <= usize::MAX,
    ensures
        ({
            let body = values_body(ds, s, 0);
            let bytes = encode_utf8(body);
            let n = bytes.len() as int;
            let head = response_head(200, "OK"@, cursor_headers(Some(s.clock)), n);
            &&& reply_bytes(Route::Values(0), ds, s) == Some(encode_utf8(head) + bytes)
            &&& read_response(None, head + body) == (
                ResponseHead { content_length: n as usize, cursor: s.clock },
                body,
            )
            &&& valid_utf8(bytes) && decode_utf8(bytes) == body
            &&& tab_pairs(line_list(body)) == named_values(ds, s.values)
        }),
{
    let body = values_body(ds, s, 0);
    reveal_strlit("OK");
    law_response_read(200, "OK"@, Some(s.clock), encode_utf8(body).len() as int, body);
    vstd::utf8::encode_utf8_valid_utf8(body);
    vstd::utf8::encode_utf8_decode_utf8(body);
    law_refresh(ds, s);
    law_values_read(ds, s, 0);
}

/// A client that asks for the descriptions gets them: the reply is a head and a body,
/// the head tells the length of the body, and the body gives the description of
/// every parameter with its current unit.
pub proof fn law_list_reaches_client(ds: Seq<DefModel>, s: StateModel)
    requires
        s.wf(ds),
        forall|i: int|
            #![trigger ds[i]]
            0 <= i < ds.len() ==> valid_def(ds[i]) && separable(ds[i], s.units[i]) && is_line(
                param_line(ds[i], s.units[i]),
            ),
        encode_utf8(params_body(ds, s)).len() <= usize::MAX,
    ensures
        ({
            let body = params_body(ds, s);
            let bytes = encode_utf8(body);
            let n = bytes.len() as int;
            let head = response_head(200, "OK"@, cursor_headers(None), n);
            &&& reply_bytes(Route::Params, ds, s) == Some(encode_utf8(head) + bytes)
            &&& read_response(None, head + body) == (
                ResponseHead { content_length: n as usize, cursor: 0 },
                body,
            )
            &&& valid_utf8(bytes) && decode_utf8(bytes) == body
            &&& info_list(line_list(body)) == infos_of(ds, s.units)
        }),
{
    let body = params_body(ds, s);
    reveal_strlit("OK");
    law_response_read(200, "OK"@, None, encode_utf8(body).len() as int, body);
    vstd::utf8::encode_utf8_valid_utf8(body);
    vstd::utf8::encode_utf8_decode_utf8(body);
    law_list_round_trip(ds, s.units);
}

// ---- Heads, line by line ------------------------------------------------------

/// A text that the colon and the space of a header can stand behind: it holds no colon
/// with a space behind it.
pub open spec fn is_header_name(k: Seq<char>) -> bool {
    forall|i: int, j: int|
        0 <= i < j < k.len() && j == i + 1 ==> !(#[trigger] k[i] == ':' && #[trigger] k[j] == ' ')
}

proof fn lemma_name_cut(k: Seq<char>, v: Seq<char>)
    requires
        is_header_name(k),
    ensures
        cut(k + ": "@ + v, ": "@) == Some((k, v)),
        cut(k, ": "@) is None,
{
    reveal_strlit(": ");
    let s = k + ": "@ + v;
    let n = k.len() as int;
    assert(": "@[0] == ':' && ": "@[1] == ' ');
    assert(occurs_at(s, ": "@, n));
    assert forall|j: int| 0 <= j < n implies !occurs_at(s, ": "@, j) by {
        if occurs_at(s, ": "@, j) {
            assert(s[j + 0] == ": "@[0]);
            assert(s[j + 1] == ": "@[1]);
            assert(k[j] == ':');
            if j + 1 < n {
                assert(k[j + 1] == ' ');
            }
        }
    }
    lemma_index_of_is(s, ": "@, n);
    assert(s.take(n) =~= k);
    assert(s.skip(n + 2) =~= v);
    lemma_index_from(k, ": "@, 0);
    if index_of(k, ": "@) is Some {
        let j = index_of(k, ": "@)->0;
        assert(k[j + 0] == ": "@[0]);
        assert(k[j + 1] == ": "@[1]);
    }
}

/// A header gives the number that its digits denote, behind a plus sign or none; too
/// large a number, or any other text, gives zero.
pub proof fn law_header_number(digits: Seq<char>, plus: bool, other: Seq<char>, max: int)
    requires
        are_digits(digits),
        digits.len() > 0,
        !(are_digits(other) && other.len() > 0),
        !(other.len() > 1 && other[0] == '+' && are_digits(other.skip(1))),
    ensures
        header_number(
            if plus {
                seq!['+'] + digits
            } else {
                digits
            },
            max,
        ) == if run_value(digits) <= max {
            run_value(digits)
        } else {
            0
        },
        header_number(other, max) == 0,
{
    law_unsigned_read(digits, plus, max);
    if unsigned_value(other, max) is Some {
        law_unsigned_only(other, max);
    }
}

/// A header whose name is not that of the length, upper and lower case alike, leaves all of
/// the head as it was; so does a line that is no header. A header with that name changes
/// the length to its number, and leaves the method and the path as they were.
pub proof fn law_header_taken(head: HeadModel, k: Seq<char>, v: Seq<char>)
    requires
        is_header_name(k),
    ensures
        !same_ignoring_case(k, "content-length"@) ==> with_header(head, k + ": "@ + v) == head,
        same_ignoring_case(k, "content-length"@) ==> {
            let next = with_header(head, k + ": "@ + v);
            &&& next.method == head.method
            &&& next.path == head.path
            &&& next.content_length == header_number(trimmed(v), usize::MAX as int)
        },
        with_header(head, k) == head,
{
    lemma_name_cut(k, v);
}

/// A request line is a method, a path and more, with spaces between them: its first word
/// is the method, its second one the path, and the path is `/` where there is no second
/// word. No body is announced yet.
pub proof fn law_request_line(method: Seq<char>, path: Seq<char>, more: Seq<char>)
    requires
        !method.contains(' '),
        !path.contains(' '),
    ensures
        begun_head(method) == (HeadModel { method, path: "/"@, content_length: 0 }),
        begun_head(method + seq![' '] + path) == (HeadModel { method, path, content_length: 0 }),
        begun_head(method + seq![' '] + (path + seq![' '] + more)) == (HeadModel {
            method,
            path,
            content_length: 0,
        }),
{
    lemma_absent(method, ' ');
    lemma_absent(path, ' ');
    assert(pieces(method, ' ') == seq![method]);
    assert(pieces(path, ' ') == seq![path]);
    lemma_first_after(method, ' ', path);
    assert(pieces(method + seq![' '] + path, ' ') =~= seq![method, path]);
    lemma_first_after(path, ' ', more);
    let rest = path + seq![' '] + more;
    lemma_first_after(method, ' ', rest);
    assert(pieces(rest, ' ') == seq![path] + pieces(more, ' '));
    assert(pieces(method + seq![' '] + rest, ' ') == seq![method] + pieces(rest, ' '));
}

proof fn lemma_line_end_off(line: Seq<char>, end: Seq<char>)
    requires
        line.len() > 0 ==> line.last() != '\r' && line.last() != '\n',
        all_line_end(end),
    ensures
        trimmed_line_end(line + end) == line,
    decreases end.len(),
{
    let s = line + end;
    if end.len() == 0 {
        assert(s =~= line);
    } else {
        assert(end[end.len() - 1] == '\r' || end[end.len() - 1] == '\n');
        assert(s.last() == end.last());
        assert(s.drop_last() =~= line + end.drop_last());
        lemma_line_end_off(line, end.drop_last());
    }
}

/// A request ends where the input does, and where an empty line stands in place of its
/// request line; behind an empty line its head is complete as it is; any other line, of
/// which the line end says nothing, begins the head or is taken into account.
pub proof fn law_request_step(
    head: Option<HeadModel>,
    h: HeadModel,
    line: Seq<char>,
    end: Seq<char>,
)
    requires
        line.len() > 0,
        line.last() != '\r' && line.last() != '\n',
        all_line_end(end),
    ensures
        request_step(head, Seq::empty()) == StepModel::Close,
        end.len() > 0 ==> request_step(None, end) == StepModel::Close,
        end.len() > 0 ==> request_step(Some(h), end) == StepModel::Body(h),
        request_step(None, line + end) == StepModel::Line(begun_head(line)),
        request_step(Some(h), line + end) == StepModel::Line(with_header(h, line)),
{
    lemma_line_end_off(line, end);
    lemma_line_end_off(Seq::empty(), end);
    assert(Seq::<char>::empty() + end =~= end);
}

// ---- Whole requests -----------------------------------------------------------

/// Headers as they stand in a head: name, colon, space, value and line end, one behind the
/// other.
pub open spec fn written_headers(hs: Seq<(Seq<char>, Seq<char>)>) -> Seq<char>
    decreases hs.len(),
{
    if hs.len() == 0 {
        Seq::empty()
    } else {
        hs[0].0 + ": "@ + hs[0].1 + "\r\n"@ + written_headers(hs.skip(1))
    }
}

/// A header that keeps its form in a head.
pub open spec fn is_header(h: (Seq<char>, Seq<char>)) -> bool {
    &&& is_header_name(h.0)
    &&& !h.0.contains('\n')
    &&& is_line(h.1)
}

pub open spec fn are_headers(hs: Seq<(Seq<char>, Seq<char>)>) -> bool {
    forall|i: int| 0 <= i < hs.len() ==> is_header(#[trigger] hs[i])
}

/// The name of a header is that of the length, upper and lower case alike.
pub open spec fn tells_length(h: (Seq<char>, Seq<char>)) -> bool {
    same_ignoring_case(h.0, "content-length"@)
}

/// The head with the headers taken into account from the left.
spec fn with_headers(head: HeadModel, hs: Seq<(Seq<char>, Seq<char>)>) -> HeadModel
    decreases hs.len(),
{
    if hs.len() == 0 {
        head
    } else {
        with_headers(with_header(head, hs[0].0 + ": "@ + hs[0].1), hs.skip(1))
    }
}

proof fn lemma_headers_skip(hs: Seq<(Seq<char>, Seq<char>)>)
    requires
        are_headers(hs),
        hs.len() > 0,
    ensures
        are_headers(hs.skip(1)),
{
    assert forall|i: int| 0 <= i < hs.skip(1).len() implies is_header(
        #[trigger] hs.skip(1)[i],
    ) by {
        assert(hs.skip(1)[i] == hs[i + 1]);
    }
}

proof fn lemma_with_headers(head: HeadModel, hs: Seq<(Seq<char>, Seq<char>)>, i: int)
    requires
        are_headers(hs),
        0 <= i < hs.len() ==> tells_length(hs[i]),
        forall|j: int| i < j < hs.len() && 0 <= j ==> !tells_length(#[trigger] hs[j]),
        -1 <= i < hs.len(),
    ensures
        with_headers(head, hs).method == head.method,
        with_headers(head, hs).path == head.path,
        with_headers(head, hs).content_length == if i >= 0 {
            header_number(trimmed(hs[i].1), usize::MAX as int)
        } else {
            head.content_length
        },
    decreases hs.len(),
{
    if hs.len() > 0 {
        let tail = hs.skip(1);
        let next = with_header(head, hs[0].0 + ": "@ + hs[0].1);
        assert(is_header(hs[0]));
        law_header_taken(head, hs[0].0, hs[0].1);
        lemma_headers_skip(hs);
        let k = if i >= 0 {
            i - 1
        } else {
            -1
        };
        assert forall|j: int| k < j < tail.len() && 0 <= j implies !tells_length(
            #[trigger] tail[j],
        ) by {
            assert(tail[j] == hs[j + 1]);
        }
        if k >= 0 {
            assert(tail[k] == hs[i]);
        }
        lemma_with_headers(next, tail, k);
    }
}

proof fn lemma_read_request_headers(
    head: HeadModel,
    hs: Seq<(Seq<char>, Seq<char>)>,
    rest: Seq<char>,
)
    requires
        are_headers(hs),
    ensures
        read_request(Some(head), written_headers(hs) + "\r\n"@ + rest) == Some(
            (with_headers(head, hs), rest),
        ),
        read_request(Some(head), written_headers(hs)) is None,
    decreases hs.len(),
{
    let end = "\r\n"@;
    let none = Seq::<char>::empty();
    let input = written_headers(hs) + end + rest;
    lemma_blank_trimmed();
    assert(all_line_end(end)) by {
        reveal_strlit("\r\n");
    }
    if hs.len() == 0 {
        assert(none + end + rest =~= input);
        assert(none + end =~= end);
        lemma_read_crlf(none, rest);
        assert(request_step(Some(head), raw_line(input)) == StepModel::Body(head));
        law_raw_line(none, none);
        assert(request_step(Some(head), raw_line(none)) == StepModel::Close);
    } else {
        let line = hs[0].0 + ": "@ + hs[0].1;
        let tail = hs.skip(1);
        let behind = written_headers(tail) + end + rest;
        assert(is_header(hs[0]));
        lemma_header_is_line(hs[0]);
        lemma_headers_skip(hs);
        assert(input =~= line + end + behind);
        assert(written_headers(hs) =~= line + end + written_headers(tail));
        lemma_read_crlf(line, behind);
        lemma_read_crlf(line, written_headers(tail));
        law_request_step(None, head, line, end);
        lemma_read_request_headers(with_header(head, line), tail, rest);
    }
}

proof fn lemma_header_is_line(h: (Seq<char>, Seq<char>))
    requires
        is_header(h),
    ensures
        ({
            let line = h.0 + ": "@ + h.1;
            &&& line.len() > 0
            &&& !line.contains('\n')
            &&& line.last() != '\r' && line.last() != '\n'
        }),
{
    reveal_strlit(": ");
    let line = h.0 + ": "@ + h.1;
    assert forall|i: int| 0 <= i < line.len() implies line[i] != '\n' by {
        if i < h.0.len() {
            assert(h.0[i] == line[i]);
        } else if i >= h.0.len() + 2 {
            assert(h.1[i - h.0.len() - 2] == line[i]);
        }
    }
    if h.1.len() > 0 {
        assert(line.last() == h.1.last());
    } else {
        assert(line.last() == ' ');
    }
}

/// Whatever headers a request has, and in whatever order, the request is read up to the
/// empty line: its method and path are those of the request line, and the length of its
/// body is the number given by the last header that tells one, zero where none does.
/// `i` is the place of that header, or minus one. Without the empty line there is no
/// request.
pub proof fn law_request_read(
    method: Seq<char>,
    path: Seq<char>,
    version: Seq<char>,
    hs: Seq<(Seq<char>, Seq<char>)>,
    rest: Seq<char>,
    i: int,
)
    requires
        is_path(method),
        is_path(path),
        version.len() > 0,
        is_line(version),
        are_headers(hs),
        -1 <= i < hs.len(),
        i >= 0 ==> same_ignoring_case(hs[i].0, "content-length"@),
        forall|j: int|
            0 <= j < hs.len() && i < j ==> !same_ignoring_case(
                (#[trigger] hs[j]).0,
                "content-length"@,
            ),
    ensures
        ({
            let line = method + seq![' '] + (path + seq![' '] + version);
            read_request(None, line + "\r\n"@ + (written_headers(hs) + "\r\n"@ + rest)) == Some(
                (
                    HeadModel {
                        method,
                        path,
                        content_length: if i >= 0 {
                            header_number(trimmed(hs[i].1), usize::MAX as int)
                        } else {
                            0
                        },
                    },
                    rest,
                ),
            )
        }),
        ({
            let line = method + seq![' '] + (path + seq![' '] + version);
            read_request(None, line + "\r\n"@ + written_headers(hs)) is None
        }),
{
    let end = "\r\n"@;
    let line = method + seq![' '] + (path + seq![' '] + version);
    let begun = HeadModel { method, path, content_length: 0 };
    let behind = written_headers(hs) + end + rest;
    assert(!line.contains('\n')) by {
        assert forall|k: int| 0 <= k < line.len() implies line[k] != '\n' by {
            if k < method.len() {
                assert(method[k] == line[k]);
            } else if k > method.len() && k < method.len() + 1 + path.len() {
                assert(path[k - method.len() - 1] == line[k]);
            } else if k > method.len() + 1 + path.len() {
                assert(version[k - method.len() - 2 - path.len()] == line[k]);
            }
        }
    }
    assert(line.last() == version.last());
    assert(version.contains(version.last()));
    assert(all_line_end(end) && end.len() == 2) by {
        reveal_strlit("\r\n");
    }
    law_request_line(method, path, version);
    law_request_step(None, begun, line, end);
    lemma_read_crlf(line, behind);
    lemma_read_crlf(line, written_headers(hs));
    lemma_read_request_headers(begun, hs, rest);
    assert forall|j: int| i < j < hs.len() && 0 <= j implies !tells_length(#[trigger] hs[j]) by {}
    lemma_with_headers(begun, hs, i);
}

// ---- Whole responses ----------------------------------------------------------

/// A header of a response that tells the length of the body changes the length, one that
/// tells the cursor changes the cursor, upper and lower case alike; any other header, and
/// a line that is no header, leaves the head as it was.
pub proof fn law_response_header_taken(head: ResponseHead, k: Seq<char>, v: Seq<char>)
    requires
        is_header_name(k),
    ensures
        same_ignoring_case(k, "content-length"@) ==> {
            let next = with_response_header(head, k + ": "@ + v);
            &&& next.content_length == header_number(v, usize::MAX as int)
            &&& next.cursor == head.cursor
        },
        same_ignoring_case(k, "x-cursor"@) ==> {
            let next = with_response_header(head, k + ": "@ + v);
            &&& next.content_length == head.content_length
            &&& next.cursor == header_number(v, u64::MAX as int)
        },
        !same_ignoring_case(k, "content-length"@) && !same_ignoring_case(k, "x-cursor"@)
            ==> with_response_header(head, k + ": "@ + v) == head,
        with_response_header(head, k) == head,
{
    reveal_strlit("content-length");
    reveal_strlit("x-cursor");
    lemma_name_cut(k, v);
    if unsigned_value(v, usize::MAX as int) is Some {
        law_unsigned_only(v, usize::MAX as int);
    }
    if unsigned_value(v, u64::MAX as int) is Some {
        law_unsigned_only(v, u64::MAX as int);
    }
}

/// White space alone trims to nothing.
pub proof fn lemma_white_trimmed(s: Seq<char>)
    requires
        all_white(s),
    ensures
        trimmed(s) == Seq::<char>::empty(),
    decreases s.len(),
{
    if s.len() > 0 {
        assert(is_white(s[s.len() - 1]));
        lemma_white_trimmed(s.drop_last());
        assert(trimmed_back(s) == trimmed_back(s.drop_last()));
    } else {
        assert(trimmed_back(s) =~= Seq::<char>::empty());
    }
}

proof fn lemma_back_off(line: Seq<char>, back: Seq<char>)
    requires
        line.len() > 0,
        !is_white(line.last()),
        all_white(back),
    ensures
        trimmed_back(line + back) == line,
    decreases back.len(),
{
    let s = line + back;
    if back.len() == 0 {
        assert(s =~= line);
    } else {
        assert(is_white(back[back.len() - 1]));
        assert(s.last() == back.last());
        assert(s.drop_last() =~= line + back.drop_last());
        lemma_back_off(line, back.drop_last());
    }
}

proof fn lemma_front_off(front: Seq<char>, line: Seq<char>)
    requires
        line.len() > 0,
        !is_white(line[0]),
        all_white(front),
    ensures
        trimmed_front(front + line) == line,
    decreases front.len(),
{
    let s = front + line;
    if front.len() == 0 {
        assert(s =~= line);
    } else {
        assert(is_white(front[0]));
        assert(s.skip(1) =~= front.skip(1) + line);
        assert(all_white(front.skip(1))) by {
            assert forall|i: int| 0 <= i < front.skip(1).len() implies is_white(
                #[trigger] front.skip(1)[i],
            ) by {
                assert(front.skip(1)[i] == front[i + 1]);
            }
        }
        lemma_front_off(front.skip(1), line);
    }
}

/// A text without white space at its ends is what trimming leaves of it between white
/// space.
pub proof fn lemma_trimmed_is(front: Seq<char>, line: Seq<char>, back: Seq<char>)
    requires
        is_tight(line),
        all_white(front),
        all_white(back),
    ensures
        trimmed(front + line + back) == line,
{
    lemma_back_off(front + line, back);
    lemma_front_off(front, line);
}

/// The first line of a response says nothing, whatever it is; a blank line behind it
/// completes the head as it is; any other line is taken into account without the white
/// space around it.
pub proof fn law_response_step(
    h: ResponseHead,
    front: Seq<char>,
    line: Seq<char>,
    back: Seq<char>,
)
    requires
        is_tight(line),
        all_white(front),
        all_white(back),
    ensures
        response_step(None, line) == ResponseStep::Line(
            ResponseHead { content_length: 0, cursor: 0 },
        ),
        response_step(None, back) == ResponseStep::Line(
            ResponseHead { content_length: 0, cursor: 0 },
        ),
        response_step(Some(h), back) == ResponseStep::Body(h),
        response_step(Some(h), front + line + back) == ResponseStep::Line(
            with_response_header(h, line),
        ),
{
    lemma_white_trimmed(back);
    lemma_trimmed_is(front, line, back);
}

/// A header that keeps its form in the head of a response.
pub open spec fn is_response_header(h: (Seq<char>, Seq<char>)) -> bool {
    &&& is_header_name(h.0)
    &&& h.0.len() > 0 && !is_white(h.0[0])
    &&& h.1.len() > 0 && !is_white(h.1.last())
    &&& !h.0.contains('\n') && !h.1.contains('\n')
}

pub open spec fn are_response_headers(hs: Seq<(Seq<char>, Seq<char>)>) -> bool {
    forall|i: int| 0 <= i < hs.len() ==> is_response_header(#[trigger] hs[i])
}

proof fn lemma_written_headers(hs: Seq<(Seq<char>, Seq<char>)>)
    ensures
        written_headers(hs) == crlf_lines(header_lines(hs)),
    decreases hs.len(),
{
    if hs.len() > 0 {
        lemma_written_headers(hs.skip(1));
        assert(header_lines(hs).skip(1) =~= header_lines(hs.skip(1)));
    }
}

proof fn lemma_response_header_is_line(h: (Seq<char>, Seq<char>))
    requires
        is_response_header(h),
    ensures
        is_tight(header_line(h)),
        !header_line(h).contains('\n'),
{
    reveal_strlit(": ");
    let line = header_line(h);
    assert(line[0] == h.0[0]);
    assert(line.last() == h.1.last());
    assert forall|i: int| 0 <= i < line.len() implies line[i] != '\n' by {
        if i < h.0.len() {
            assert(h.0[i] == line[i]);
        } else if i >= h.0.len() + 2 {
            assert(h.1[i - h.0.len() - 2] == line[i]);
        }
    }
}

/// The place of the last header with the given name is `i`; there is none where it is
/// minus one.
pub open spec fn last_named(hs: Seq<(Seq<char>, Seq<char>)>, name: Seq<char>, i: int) -> bool {
    &&& -1 <= i < hs.len()
    &&& i >= 0 ==> same_ignoring_case(hs[i].0, name)
    &&& forall|j: int|
        0 <= j < hs.len() && i < j ==> !same_ignoring_case((#[trigger] hs[j]).0, name)
}

proof fn lemma_last_named_skip(hs: Seq<(Seq<char>, Seq<char>)>, name: Seq<char>, i: int)
    requires
        last_named(hs, name, i),
        hs.len() > 0,
    ensures
        last_named(
            hs.skip(1),
            name,
            if i >= 0 {
                i - 1
            } else {
                -1
            },
        ),
        i > 0 ==> hs.skip(1)[i - 1] == hs[i],
{
    let tail = hs.skip(1);
    let k = if i >= 0 {
        i - 1
    } else {
        -1
    };
    assert forall|j: int| 0 <= j < tail.len() && k < j implies !same_ignoring_case(
        (#[trigger] tail[j]).0,
        name,
    ) by {
        assert(tail[j] == hs[j + 1]);
    }
}

proof fn lemma_with_response_headers(
    head: ResponseHead,
    hs: Seq<(Seq<char>, Seq<char>)>,
    i: int,
    k: int,
)
    requires
        are_response_headers(hs),
        last_named(hs, "content-length"@, i),
        last_named(hs, "x-cursor"@, k),
    ensures
        with_response_headers(head, header_lines(hs)).content_length == if i >= 0 {
            header_number(hs[i].1, usize::MAX as int)
        } else {
            head.content_length as int
        },
        with_response_headers(head, header_lines(hs)).cursor == if k >= 0 {
            header_number(hs[k].1, u64::MAX as int)
        } else {
            head.cursor as int
        },
    decreases hs.len(),
{
    if hs.len() > 0 {
        let tail = hs.skip(1);
        let line = header_line(hs[0]);
        assert(is_response_header(hs[0]));
        law_response_header_taken(head, hs[0].0, hs[0].1);
        assert(header_lines(hs).skip(1) =~= header_lines(tail));
        assert(header_lines(hs)[0] == line);
        assert forall|j: int| 0 <= j < tail.len() implies is_response_header(
            #[trigger] tail[j],
        ) by {
            assert(tail[j] == hs[j + 1]);
        }
        lemma_last_named_skip(hs, "content-length"@, i);
        lemma_last_named_skip(hs, "x-cursor"@, k);
        reveal_strlit("content-length");
        reveal_strlit("x-cursor");
        lemma_with_response_headers(
            with_response_header(head, line),
            tail,
            if i >= 0 {
                i - 1
            } else {
                -1
            },
            if k >= 0 {
                k - 1
            } else {
                -1
            },
        );
    }
}

/// Whatever headers a response has, and in whatever order, it is read up to the blank line:
/// the length of its body is the number given by the last header that tells one, the
/// cursor the one given by the last header that tells one, zero where none does.
pub proof fn law_response_head_read(
    status: Seq<char>,
    hs: Seq<(Seq<char>, Seq<char>)>,
    rest: Seq<char>,
    i: int,
    k: int,
)
    requires
        !status.contains('\n'),
        are_response_headers(hs),
        last_named(hs, "content-length"@, i),
        last_named(hs, "x-cursor"@, k),
    ensures
        ({
            let (head, behind) = read_response(
                None,
                status + "\r\n"@ + (written_headers(hs) + "\r\n"@ + rest),
            );
            &&& behind == rest
            &&& head.content_length == if i >= 0 {
                header_number(hs[i].1, usize::MAX as int)
            } else {
                0
            }
            &&& head.cursor == if k >= 0 {
                header_number(hs[k].1, u64::MAX as int)
            } else {
                0
            }
        }),
{
    let start = ResponseHead { content_length: 0, cursor: 0 };
    let behind = written_headers(hs) + "\r\n"@ + rest;
    lemma_written_headers(hs);
    lemma_read_crlf(status, behind);
    lemma_blank_trimmed();
    let lines = header_lines(hs);
    assert forall|j: int| 0 <= j < lines.len() implies is_tight(#[trigger] lines[j])
        && !lines[j].contains('\n') by {
        assert(is_response_header(hs[j]));
        lemma_response_header_is_line(hs[j]);
    }
    lemma_read_headers(start, lines, rest);
    lemma_with_response_headers(start, hs, i, k);
}

/// The head of a response is the status line, the length of the body, and what allows a
/// browser to read it; one more header is one more line before the empty one.
#[verifier::spinoff_prover]
#[verifier::rlimit(40)]
pub proof fn law_response_head_is(
    status: int,
    text: Seq<char>,
    extra: Seq<(Seq<char>, Seq<char>)>,
    n: int,
    name: Seq<char>,
    value: Seq<char>,
)
    ensures
        response_head(status, text, Seq::empty(), n) == "HTTP/1.1 "@ + decimal(status) + " "@
            + text + "\r\nContent-Length: "@ + decimal(n)
            + "\r\nAccess-Control-Allow-Origin: *\r\nAccess-Control-Expose-Headers: X-Cursor\r\n\r\n"@,
        response_head(status, text, extra, n).len() >= 2,
        response_head(status, text, extra.push((name, value)), n) == response_head(
            status,
            text,
            extra,
            n,
        ).take(response_head(status, text, extra, n).len() - 2) + name + ": "@ + value + "\r\n\r\n"@,
{
    let end = "\r\n"@;
    let none = Seq::<Seq<char>>::empty();
    let l0 = status_line(status, text);
    let l1 = "Content-Length: "@ + decimal(n);
    let l2 = "Access-Control-Allow-Origin: *"@;
    let l3 = "Access-Control-Expose-Headers: X-Cursor"@;
    let lines = response_lines(status, text, Seq::empty(), n);
    assert(lines =~= none.push(l0).push(l1).push(l2).push(l3));
    lemma_crlf_lines_push(none, l0);
    lemma_crlf_lines_push(none.push(l0), l1);
    lemma_crlf_lines_push(none.push(l0).push(l1), l2);
    lemma_crlf_lines_push(none.push(l0).push(l1).push(l2), l3);
    assert(crlf_lines(none) =~= Seq::<char>::empty());
    assert(end + "Content-Length: "@ =~= "\r\nContent-Length: "@) by {
        reveal_strlit("\r\n");
        reveal_strlit("Content-Length: ");
        reveal_strlit("\r\nContent-Length: ");
    }
    assert(end + l2 + end + l3 + end + end
        =~= "\r\nAccess-Control-Allow-Origin: *\r\nAccess-Control-Expose-Headers: X-Cursor\r\n\r\n"@)
        by {
        reveal_strlit("\r\n");
        reveal_strlit("Access-Control-Allow-Origin: *");
        reveal_strlit("Access-Control-Expose-Headers: X-Cursor");
        reveal_strlit(
            "\r\nAccess-Control-Allow-Origin: *\r\nAccess-Control-Expose-Headers: X-Cursor\r\n\r\n",
        );
    }
    let head = "HTTP/1.1 "@ + decimal(status) + " "@ + text;
    assert(response_head(status, text, Seq::empty(), n) =~= head + (end + "Content-Length: "@)
        + decimal(n) + (end + l2 + end + l3 + end + end));
    let before = response_lines(status, text, extra, n);
    let line = header_line((name, value));
    assert(response_lines(status, text, extra.push((name, value)), n) =~= before.push(line));
    lemma_crlf_lines_push(before, line);
    assert(end + end =~= "\r\n\r\n"@ && end.len() == 2) by {
        reveal_strlit("\r\n");
        reveal_strlit("\r\n\r\n");
    }
    assert(response_head(status, text, extra, n).take(
        response_head(status, text, extra, n).len() - 2,
    ) =~= crlf_lines(before));
    assert(crlf_lines(before) + line + end + end =~= crlf_lines(before) + name + ": "@ + value + (
    end + end));
}

/// A response is its head and behind that its body, whose number of bytes the head tells.
pub proof fn law_response_bytes(
    status: int,
    text: Seq<char>,
    extra: Seq<(Seq<char>, Seq<char>)>,
    body: Seq<u8>,
)
    ensures
        response_bytes(status, text, extra, body) == encode_utf8(
            response_head(status, text, extra, body.len() as int),
        ) + body,
{
}

// ---- Replies ------------------------------------------------------------------

proof fn lemma_statuses()
    ensures
        decimal(200) == "200"@,
        decimal(204) == "204"@,
        decimal(404) == "404"@,
        decimal(0) == "0"@,
{
    reveal_with_fuel(decimal, 4);
    reveal_strlit("200");
    reveal_strlit("204");
    reveal_strlit("404");
    reveal_strlit("0");
    assert(decimal(200) =~= "200"@);
    assert(decimal(204) =~= "204"@);
    assert(decimal(404) =~= "404"@);
    assert(decimal(0) =~= "0"@);
}

/// What allows a browser to read a response, and the empty line.
spec fn open_end() -> Seq<char> {
    "\r\nAccess-Control-Allow-Origin: *\r\nAccess-Control-Expose-Headers: X-Cursor\r\n\r\n"@
}

/// The head of a response without a body and without headers of its own.
proof fn lemma_bare_head(status: int, text: Seq<char>, start: Seq<char>)
    requires
        "HTTP/1.1 "@ + decimal(status) + " "@ + text == start,
    ensures
        response_bytes(status, text, Seq::empty(), Seq::empty()) == encode_utf8(
            start + "\r\nContent-Length: 0"@ + open_end(),
        ),
{
    lemma_statuses();
    law_response_head_is(status, text, Seq::empty(), 0, Seq::empty(), Seq::empty());
    assert("\r\nContent-Length: "@ + "0"@ =~= "\r\nContent-Length: 0"@) by {
        reveal_strlit("\r\nContent-Length: ");
        reveal_strlit("0");
        reveal_strlit("\r\nContent-Length: 0");
    }
    let head = response_head(status, text, Seq::empty(), 0);
    assert(head =~= start + ("\r\nContent-Length: "@ + "0"@) + open_end());
    assert(encode_utf8(head) + Seq::<u8>::empty() =~= encode_utf8(head));
}

proof fn lemma_first_lines()
    ensures
        "HTTP/1.1 "@ + decimal(200) + " "@ + "OK"@ == "HTTP/1.1 200 OK"@,
        "HTTP/1.1 "@ + decimal(204) + " "@ + "No Content"@ == "HTTP/1.1 204 No Content"@,
        "HTTP/1.1 "@ + decimal(404) + " "@ + "Not Found"@ == "HTTP/1.1 404 Not Found"@,
{
    lemma_statuses();
    reveal_strlit("HTTP/1.1 ");
    reveal_strlit(" ");
    reveal_strlit("200");
    reveal_strlit("204");
    reveal_strlit("404");
    reveal_strlit("OK");
    reveal_strlit("No Content");
    reveal_strlit("Not Found");
    reveal_strlit("HTTP/1.1 200 OK");
    reveal_strlit("HTTP/1.1 204 No Content");
    reveal_strlit("HTTP/1.1 404 Not Found");
    assert("HTTP/1.1 "@ + decimal(200) + " "@ + "OK"@ =~= "HTTP/1.1 200 OK"@);
    assert("HTTP/1.1 "@ + decimal(204) + " "@ + "No Content"@ =~= "HTTP/1.1 204 No Content"@);
    assert("HTTP/1.1 "@ + decimal(404) + " "@ + "Not Found"@ =~= "HTTP/1.1 404 Not Found"@);
}

/// A write is answered with an empty body, whatever it writes; so is a request for nothing
/// that the server has, with another status. A request for events has no such answer.
pub proof fn law_empty_replies(ds: Seq<DefModel>, s: StateModel)
    ensures
        reply_bytes(Route::PutParams, ds, s) == Some(
            encode_utf8("HTTP/1.1 200 OK"@ + "\r\nContent-Length: 0"@ + "\r\nAccess-Control-Allow-Origin: *\r\nAccess-Control-Expose-Headers: X-Cursor\r\n\r\n"@),
        ),
        reply_bytes(Route::PutUnit, ds, s) == Some(
            encode_utf8("HTTP/1.1 200 OK"@ + "\r\nContent-Length: 0"@ + "\r\nAccess-Control-Allow-Origin: *\r\nAccess-Control-Expose-Headers: X-Cursor\r\n\r\n"@),
        ),
        reply_bytes(Route::NotFound, ds, s) == Some(
            encode_utf8("HTTP/1.1 404 Not Found"@ + "\r\nContent-Length: 0"@ + "\r\nAccess-Control-Allow-Origin: *\r\nAccess-Control-Expose-Headers: X-Cursor\r\n\r\n"@),
        ),
        reply_bytes(Route::Events, ds, s) is None,
{
    lemma_first_lines();
    lemma_bare_head(200, "OK"@, "HTTP/1.1 200 OK"@);
    lemma_bare_head(404, "Not Found"@, "HTTP/1.1 404 Not Found"@);
}

/// A browser that asks which methods it may use is told them, with an empty body.
pub proof fn law_options_reply(ds: Seq<DefModel>, s: StateModel)
    ensures
        reply_bytes(Route::Options, ds, s) == Some(
            encode_utf8(
                "HTTP/1.1 204 No Content"@ + "\r\nContent-Length: 0"@
                    + "\r\nAccess-Control-Allow-Origin: *\r\nAccess-Control-Expose-Headers: X-Cursor\r\n"@
                    + "Access-Control-Allow-Methods: GET, PUT, OPTIONS\r\n"@
                    + "Access-Control-Allow-Headers: Content-Type\r\n\r\n"@,
            ),
        ),
{
    let k1 = "Access-Control-Allow-Methods"@;
    let v1 = "GET, PUT, OPTIONS"@;
    let k2 = "Access-Control-Allow-Headers"@;
    let v2 = "Content-Type"@;
    let none = Seq::<(Seq<char>, Seq<char>)>::empty();
    let one = none.push((k1, v1));
    let two = one.push((k2, v2));
    assert(two =~= seq![(k1, v1), (k2, v2)]);
    lemma_first_lines();
    lemma_statuses();
    let start = "HTTP/1.1 204 No Content"@;
    let text = "No Content"@;
    law_response_head_is(204, text, none, 0, k1, v1);
    law_response_head_is(204, text, one, 0, k2, v2);
    let allow = "\r\nAccess-Control-Allow-Origin: *\r\nAccess-Control-Expose-Headers: X-Cursor\r\n"@;
    let end = "\r\n"@;
    let h0 = response_head(204, text, none, 0);
    let h1 = response_head(204, text, one, 0);
    let h2 = response_head(204, text, two, 0);
    assert("\r\nContent-Length: "@ + "0"@ =~= "\r\nContent-Length: 0"@) by {
        reveal_strlit("\r\nContent-Length: ");
        reveal_strlit("0");
        reveal_strlit("\r\nContent-Length: 0");
    }
    assert(allow + end =~= "\r\nAccess-Control-Allow-Origin: *\r\nAccess-Control-Expose-Headers: X-Cursor\r\n\r\n"@) by {
        reveal_strlit(
            "\r\nAccess-Control-Allow-Origin: *\r\nAccess-Control-Expose-Headers: X-Cursor\r\n",
        );
        reveal_strlit("\r\n");
        reveal_strlit(
            "\r\nAccess-Control-Allow-Origin: *\r\nAccess-Control-Expose-Headers: X-Cursor\r\n\r\n",
        );
    }
    assert(end + end =~= "\r\n\r\n"@ && end.len() == 2) by {
        reveal_strlit("\r\n");
        reveal_strlit("\r\n\r\n");
    }
    let front = start + "\r\nContent-Length: 0"@ + allow;
    assert(h0 =~= start + ("\r\nContent-Length: "@ + "0"@) + (allow + end));
    assert(h0.take(h0.len() - 2) =~= front);
    assert(h1 =~= front + k1 + ": "@ + v1 + (end + end));
    let l1 = "Access-Control-Allow-Methods: GET, PUT, OPTIONS\r\n"@;
    assert(k1 + ": "@ + v1 + end =~= l1) by {
        reveal_strlit("Access-Control-Allow-Methods");
        reveal_strlit(": ");
        reveal_strlit("GET, PUT, OPTIONS");
        reveal_strlit("\r\n");
        reveal_strlit("Access-Control-Allow-Methods: GET, PUT, OPTIONS\r\n");
    }
    assert(h1 =~= front + (k1 + ": "@ + v1 + end) + end);
    assert(h1.take(h1.len() - 2) =~= front + l1);
    let l2 = "Access-Control-Allow-Headers: Content-Type\r\n\r\n"@;
    assert(k2 + ": "@ + v2 + "\r\n\r\n"@ =~= l2) by {
        reveal_strlit("Access-Control-Allow-Headers");
        reveal_strlit(": ");
        reveal_strlit("Content-Type");
        reveal_strlit("\r\n\r\n");
        reveal_strlit("Access-Control-Allow-Headers: Content-Type\r\n\r\n");
    }
    assert(h2 =~= front + l1 + (k2 + ": "@ + v2 + "\r\n\r\n"@));
    assert(encode_utf8(h2) + Seq::<u8>::empty() =~= encode_utf8(h2));
}

/// A poll is answered with the values that changed after the cursor it asks for, and with
/// the clock as the next cursor; the descriptions are answered as they are.
pub proof fn law_read_replies(ds: Seq<DefModel>, s: StateModel, cursor: u64)
    ensures
        ({
            let body = encode_utf8(values_body(ds, s, cursor as int));
            reply_bytes(Route::Values(cursor), ds, s) == Some(
                encode_utf8(
                    "HTTP/1.1 200 OK"@ + "\r\nContent-Length: "@ + decimal(body.len() as int)
                        + "\r\nAccess-Control-Allow-Origin: *\r\nAccess-Control-Expose-Headers: X-Cursor\r\n"@
                        + "X-Cursor"@ + ": "@ + decimal(s.clock as int) + "\r\n\r\n"@,
                ) + body,
            )
        }),
        ({
            let body = encode_utf8(params_body(ds, s));
            reply_bytes(Route::Params, ds, s) == Some(
                encode_utf8(
                    "HTTP/1.1 200 OK"@ + "\r\nContent-Length: "@ + decimal(body.len() as int)
                        + "\r\nAccess-Control-Allow-Origin: *\r\nAccess-Control-Expose-Headers: X-Cursor\r\n\r\n"@,
                ) + body,
            )
        }),
{
    let none = Seq::<(Seq<char>, Seq<char>)>::empty();
    let start = "HTTP/1.1 200 OK"@;
    let length = "\r\nContent-Length: "@;
    let allow = "\r\nAccess-Control-Allow-Origin: *\r\nAccess-Control-Expose-Headers: X-Cursor\r\n"@;
    let end = "\r\n"@;
    lemma_first_lines();
    assert(allow + end =~= "\r\nAccess-Control-Allow-Origin: *\r\nAccess-Control-Expose-Headers: X-Cursor\r\n\r\n"@ && end.len() == 2) by {
        reveal_strlit(
            "\r\nAccess-Control-Allow-Origin: *\r\nAccess-Control-Expose-Headers: X-Cursor\r\n",
        );
        reveal_strlit("\r\n");
        reveal_strlit(
            "\r\nAccess-Control-Allow-Origin: *\r\nAccess-Control-Expose-Headers: X-Cursor\r\n\r\n",
        );
    }
    let n = encode_utf8(values_body(ds, s, cursor as int)).len() as int;
    let clock = decimal(s.clock as int);
    law_response_head_is(200, "OK"@, none, n, "X-Cursor"@, clock);
    assert(none.push(("X-Cursor"@, clock)) =~= seq![("X-Cursor"@, clock)]);
    let h0 = response_head(200, "OK"@, none, n);
    assert(h0 =~= start + length + decimal(n) + (allow + end));
    assert(h0.take(h0.len() - 2) =~= start + length + decimal(n) + allow);
    let m = encode_utf8(params_body(ds, s)).len() as int;
    law_response_head_is(200, "OK"@, none, m, Seq::empty(), Seq::empty());
    assert(response_head(200, "OK"@, none, m) =~= start + length + decimal(m) + (allow + end));
}

// ---- What a client asks -------------------------------------------------------

proof fn lemma_get_read(path: Seq<char>)
    requires
        is_path(path),
    ensures
        read_request(None, "GET"@ + seq![' '] + (path + seq![' '] + "HTTP/1.1"@) + "\r\n"@ + "\r\n"@)
            == Some((HeadModel { method: "GET"@, path, content_length: 0 }, Seq::<char>::empty())),
{
    reveal_strlit("GET");
    reveal_strlit("HTTP/1.1");
    let hs = Seq::<(Seq<char>, Seq<char>)>::empty();
    let none = Seq::<char>::empty();
    law_request_read("GET"@, path, "HTTP/1.1"@, hs, none, -1);
    assert(written_headers(hs) + "\r\n"@ + none =~= "\r\n"@);
}

/// The requests of a client are read as what they ask for: the events, all values from the
/// first version on, and the descriptions.
pub proof fn law_client_requests()
    ensures
        ({
            let head = HeadModel { method: "GET"@, path: "/events"@, content_length: 0 };
            &&& read_request(None, EVENTS_REQUEST@) == Some((head, Seq::<char>::empty()))
            &&& route_of(head.method, head.path) == Route::Events
        }),
        ({
            let head = HeadModel { method: "GET"@, path: "/params"@, content_length: 0 };
            &&& read_request(None, LIST_REQUEST@) == Some((head, Seq::<char>::empty()))
            &&& route_of(head.method, head.path) == Route::Params
        }),
        ({
            let head = HeadModel { method: "GET"@, path: "/values?cursor=0"@, content_length: 0 };
            &&& read_request(None, REFRESH_REQUEST@) == Some((head, Seq::<char>::empty()))
            &&& route_of(head.method, head.path) == Route::Values(0)
        }),
{
    reveal_strlit("GET");
    reveal_strlit("HTTP/1.1");
    reveal_strlit("\r\n");
    reveal_strlit("/events");
    reveal_strlit("/params");
    reveal_strlit("/values?cursor=0");
    reveal_strlit("GET /events HTTP/1.1\r\n\r\n");
    reveal_strlit("GET /params HTTP/1.1\r\n\r\n");
    reveal_strlit("GET /values?cursor=0 HTTP/1.1\r\n\r\n");
    assert(EVENTS_REQUEST@ =~= "GET"@ + seq![' '] + ("/events"@ + seq![' '] + "HTTP/1.1"@)
        + "\r\n"@ + "\r\n"@);
    assert(LIST_REQUEST@ =~= "GET"@ + seq![' '] + ("/params"@ + seq![' '] + "HTTP/1.1"@) + "\r\n"@
        + "\r\n"@);
    assert(REFRESH_REQUEST@ =~= "GET"@ + seq![' '] + ("/values?cursor=0"@ + seq![' ']
        + "HTTP/1.1"@) + "\r\n"@ + "\r\n"@);
    lemma_get_read("/events"@);
    lemma_get_read("/params"@);
    lemma_get_read("/values?cursor=0"@);
    law_route("GET"@, "/events"@);
    law_route("GET"@, "/params"@);
    lemma_refresh_cursor();
}

proof fn lemma_refresh_cursor()
    ensures
        route_of("GET"@, "/values?cursor=0"@) == Route::Values(0),
{
    let place = "/values"@;
    let part = "cursor=0"@;
    let parts = seq![part];
    reveal_strlit("/values");
    reveal_strlit("cursor=0");
    reveal_strlit("cursor=");
    reveal_strlit("/values?cursor=0");
    assert(joined(parts, '&') == part);
    assert("/values?cursor=0"@ =~= place + seq!['?'] + part);
    assert(part =~= "cursor="@ + seq!['0']);
    law_cursor_asked(place, parts, 0, seq!['0']);
    law_header_number(seq!['0'], false, Seq::empty(), u64::MAX as int);
    assert(run_value(seq!['0']) == 0) by {
        law_run_value(Seq::empty(), '0');
        assert(Seq::<char>::empty().push('0') =~= seq!['0']);
    }
    law_route_with_query("GET"@, place, part);
}

} // verus!
