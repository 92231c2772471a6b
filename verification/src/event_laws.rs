//! What holds of several parts together: what one side writes, the other side
//! reads back.
use vstd::prelude::*;

use crate::client::{
    deduplicated, event_object, event_pairs, head_goes_on, last_index, line_data, quote_from,
    scanned, stream_data, unescaped,
};
use crate::config::DefModel;
use crate::number::{decimal, is_digit, lemma_decimal};
use crate::server::SSE_HEAD;
use crate::state::{escaped, event_text, initial, member_text, members, named_values, StateModel};
use crate::state_laws::law_initial;
use crate::text::{
    after_line, all_white, index_of, joined, law_find, law_joined, law_without_prefix, lemma_absent,
    lemma_first_after, lemma_index_from, lemma_index_of_is, lemma_index_of_none,
    lemma_joined_chars, lemma_own_prefix, occurs_at, raw_line, replaced, trimmed, trimmed_back,
    trimmed_front, without_prefix,
};
use crate::wire_laws::{
    is_tight, lemma_blank_trimmed, lemma_read_crlf, lemma_tight_trimmed, lemma_trimmed_is,
    lemma_white_trimmed,
};

verus! {

// ---- Replacing, step by step ------------------------------------------------

proof fn lemma_occurs_behind(s: Seq<char>, pat: Seq<char>, j: int)
    requires
        s.len() > 0,
        0 <= j,
    ensures
        occurs_at(s, pat, j + 1) <==> occurs_at(s.skip(1), pat, j),
{
    if occurs_at(s, pat, j + 1) {
        assert forall|k: int| 0 <= k < pat.len() implies s.skip(1)[j + k] == #[trigger] pat[k] by {
            assert(s[j + 1 + k] == pat[k]);
        }
    }
    if occurs_at(s.skip(1), pat, j) {
        assert forall|k: int| 0 <= k < pat.len() implies s[j + 1 + k] == #[trigger] pat[k] by {
            assert(s.skip(1)[j + k] == pat[k]);
        }
    }
}

/// Where a text does not start with `pat`, its first occurrence is that of the rest.
proof fn lemma_index_behind(s: Seq<char>, pat: Seq<char>)
    requires
        s.len() > 0,
        !occurs_at(s, pat, 0),
    ensures
        index_of(s, pat) == (match index_of(s.skip(1), pat) {
            Some(i) => Some(i + 1),
            None => None,
        }),
{
    lemma_index_from(s.skip(1), pat, 0);
    match index_of(s.skip(1), pat) {
        Some(i) => {
            lemma_occurs_behind(s, pat, i);
            assert forall|j: int| 0 <= j < i + 1 implies !occurs_at(s, pat, j) by {
                if j > 0 {
                    lemma_occurs_behind(s, pat, j - 1);
                }
            }
            lemma_index_of_is(s, pat, i + 1);
        },
        None => {
            assert forall|j: int| 0 <= j implies !occurs_at(s, pat, j) by {
                if j > 0 {
                    lemma_occurs_behind(s, pat, j - 1);
                }
            }
            lemma_index_of_none(s, pat);
        },
    }
}

proof fn lemma_replaced_hit(s: Seq<char>, from: Seq<char>, to: Seq<char>)
    requires
        from.len() > 0,
        occurs_at(s, from, 0),
    ensures
        replaced(s, from, to) == to + replaced(s.skip(from.len() as int), from, to),
{
    lemma_index_of_is(s, from, 0);
    assert(s.take(0) + to =~= to);
}

proof fn lemma_replaced_miss(s: Seq<char>, from: Seq<char>, to: Seq<char>)
    requires
        from.len() > 0,
        s.len() > 0,
        !occurs_at(s, from, 0),
    ensures
        replaced(s, from, to) == seq![s[0]] + replaced(s.skip(1), from, to),
{
    lemma_index_behind(s, from);
    lemma_index_from(s.skip(1), from, 0);
    match index_of(s.skip(1), from) {
        Some(i) => {
            let rest = s.skip(1);
            let n = from.len() as int;
            assert(s.take(i + 1) =~= seq![s[0]] + rest.take(i));
            assert(s.skip(i + 1 + n) =~= rest.skip(i + n));
            let tail = replaced(rest.skip(i + n), from, to);
            assert((seq![s[0]] + rest.take(i)) + to + tail =~= seq![s[0]] + (rest.take(i) + to
                + tail));
        },
        None => {
            assert(s =~= seq![s[0]] + s.skip(1));
        },
    }
}

proof fn lemma_replaced_nothing(from: Seq<char>, to: Seq<char>)
    requires
        from.len() > 0,
    ensures
        replaced(Seq::empty(), from, to) == Seq::<char>::empty(),
{
    let s = Seq::<char>::empty();
    assert forall|j: int| 0 <= j implies !occurs_at(s, from, j) by {}
    lemma_index_of_none(s, from);
}

/// Replacing goes through a text from the left: where it begins with the pattern, that is
/// replaced and the text behind it is next; where it does not, its first character stays
/// and the one behind it is next.
pub proof fn law_replaced(c: char, rest: Seq<char>, from: Seq<char>, to: Seq<char>)
    requires
        from.len() > 0,
    ensures
        replaced(Seq::empty(), from, to) == Seq::<char>::empty(),
        replaced(from + rest, from, to) == to + replaced(rest, from, to),
        (forall|v: Seq<char>| seq![c] + rest != #[trigger] (from + v)) ==> replaced(
            seq![c] + rest,
            from,
            to,
        ) == seq![c] + replaced(rest, from, to),
{
    lemma_replaced_nothing(from, to);
    let hit = from + rest;
    assert(occurs_at(hit, from, 0));
    lemma_replaced_hit(hit, from, to);
    assert(hit.skip(from.len() as int) =~= rest);
    let s = seq![c] + rest;
    if forall|v: Seq<char>| s != #[trigger] (from + v) {
        if occurs_at(s, from, 0) {
            let v = s.skip(from.len() as int);
            assert(s =~= from + v) by {
                assert forall|k: int| 0 <= k < from.len() implies s[k] == from[k] by {
                    assert(s[0 + k] == from[k]);
                }
            }
            assert(s != from + v);
        }
        lemma_replaced_miss(s, from, to);
        assert(s.skip(1) =~= rest);
    }
}

// ---- Escaping ---------------------------------------------------------------

/// A character as it stands between quotes.
spec fn escaped_char(c: char) -> Seq<char> {
    if c == '\\' {
        seq!['\\', '\\']
    } else if c == '"' {
        seq!['\\', '"']
    } else {
        seq![c]
    }
}

spec fn escaped_chars(v: Seq<char>) -> Seq<char>
    decreases v.len(),
{
    if v.len() == 0 {
        Seq::empty()
    } else {
        escaped_char(v[0]) + escaped_chars(v.skip(1))
    }
}

/// `v` with every backslash doubled.
spec fn doubled(v: Seq<char>) -> Seq<char>
    decreases v.len(),
{
    if v.len() == 0 {
        Seq::empty()
    } else if v[0] == '\\' {
        seq!['\\', '\\'] + doubled(v.skip(1))
    } else {
        seq![v[0]] + doubled(v.skip(1))
    }
}

proof fn lemma_escape_literals()
    ensures
        "\\"@ == seq!['\\'],
        "\\\\"@ == seq!['\\', '\\'],
        "\""@ == seq!['"'],
        "\\\""@ == seq!['\\', '"'],
{
    reveal_strlit("\\");
    reveal_strlit("\\\\");
    reveal_strlit("\"");
    reveal_strlit("\\\"");
    assert("\\"@ =~= seq!['\\']);
    assert("\\\\"@ =~= seq!['\\', '\\']);
    assert("\""@ =~= seq!['"']);
    assert("\\\""@ =~= seq!['\\', '"']);
}

proof fn lemma_occurs_one(s: Seq<char>, c: char)
    requires
        s.len() > 0,
    ensures
        occurs_at(s, seq![c], 0) <==> s[0] == c,
{
    assert(seq![c][0] == c);
    if occurs_at(s, seq![c], 0) {
        assert(s[0int + 0] == seq![c][0]);
    }
}

proof fn lemma_occurs_two(s: Seq<char>, a: char, b: char)
    ensures
        occurs_at(s, seq![a, b], 0) <==> s.len() >= 2 && s[0] == a && s[1] == b,
{
    let pat = seq![a, b];
    assert(pat[0] == a && pat[1] == b);
    if occurs_at(s, pat, 0) {
        assert(s[0int + 0] == pat[0]);
        assert(s[0int + 1] == pat[1]);
    }
}

proof fn lemma_doubled(v: Seq<char>)
    ensures
        replaced(v, seq!['\\'], seq!['\\', '\\']) == doubled(v),
    decreases v.len(),
{
    let from = seq!['\\'];
    let to = seq!['\\', '\\'];
    if v.len() == 0 {
        assert(v =~= Seq::<char>::empty());
        lemma_replaced_nothing(from, to);
    } else {
        lemma_occurs_one(v, '\\');
        lemma_doubled(v.skip(1));
        if v[0] == '\\' {
            lemma_replaced_hit(v, from, to);
        } else {
            lemma_replaced_miss(v, from, to);
        }
    }
}

proof fn lemma_quotes_escaped(v: Seq<char>)
    ensures
        replaced(doubled(v), seq!['"'], seq!['\\', '"']) == escaped_chars(v),
    decreases v.len(),
{
    let from = seq!['"'];
    let to = seq!['\\', '"'];
    if v.len() == 0 {
        lemma_replaced_nothing(from, to);
    } else {
        let rest = doubled(v.skip(1));
        lemma_quotes_escaped(v.skip(1));
        let s = doubled(v);
        lemma_occurs_one(s, '"');
        if v[0] == '\\' {
            lemma_replaced_miss(s, from, to);
            let t = s.skip(1);
            assert(t =~= seq!['\\'] + rest);
            lemma_occurs_one(t, '"');
            lemma_replaced_miss(t, from, to);
            assert(t.skip(1) =~= rest);
            assert(seq!['\\'] + (seq!['\\'] + escaped_chars(v.skip(1))) =~= seq!['\\', '\\']
                + escaped_chars(v.skip(1)));
        } else if v[0] == '"' {
            lemma_replaced_hit(s, from, to);
            assert(s.skip(1) =~= rest);
        } else {
            lemma_replaced_miss(s, from, to);
            assert(s.skip(1) =~= rest);
        }
    }
}

proof fn lemma_escaped_is(v: Seq<char>)
    ensures
        escaped(v) == escaped_chars(v),
{
    lemma_escape_literals();
    lemma_doubled(v);
    lemma_quotes_escaped(v);
}

proof fn lemma_quotes_restored(v: Seq<char>)
    ensures
        replaced(escaped_chars(v), seq!['\\', '"'], seq!['"']) == doubled(v),
        escaped_chars(v).len() > 0 ==> escaped_chars(v)[0] != '"',
    decreases v.len(),
{
    let from = seq!['\\', '"'];
    let to = seq!['"'];
    let s = escaped_chars(v);
    if v.len() == 0 {
        lemma_replaced_nothing(from, to);
    } else {
        let rest = escaped_chars(v.skip(1));
        lemma_quotes_restored(v.skip(1));
        lemma_occurs_two(s, '\\', '"');
        if v[0] == '\\' {
            lemma_replaced_miss(s, from, to);
            let t = s.skip(1);
            assert(t =~= seq!['\\'] + rest);
            lemma_occurs_two(t, '\\', '"');
            lemma_replaced_miss(t, from, to);
            assert(t.skip(1) =~= rest);
            assert(seq!['\\'] + (seq!['\\'] + doubled(v.skip(1))) =~= seq!['\\', '\\'] + doubled(
                v.skip(1),
            ));
        } else if v[0] == '"' {
            lemma_replaced_hit(s, from, to);
            assert(s.skip(2) =~= rest);
        } else {
            lemma_replaced_miss(s, from, to);
            assert(s.skip(1) =~= rest);
        }
    }
}

proof fn lemma_halved(v: Seq<char>)
    ensures
        replaced(doubled(v), seq!['\\', '\\'], seq!['\\']) == v,
    decreases v.len(),
{
    let from = seq!['\\', '\\'];
    let to = seq!['\\'];
    let s = doubled(v);
    if v.len() == 0 {
        lemma_replaced_nothing(from, to);
        assert(v =~= Seq::<char>::empty());
    } else {
        let rest = doubled(v.skip(1));
        lemma_halved(v.skip(1));
        lemma_occurs_two(s, '\\', '\\');
        if v[0] == '\\' {
            lemma_replaced_hit(s, from, to);
            assert(s.skip(2) =~= rest);
            assert(to + v.skip(1) =~= v);
        } else {
            lemma_replaced_miss(s, from, to);
            assert(s.skip(1) =~= rest);
            assert(seq![v[0]] + v.skip(1) =~= v);
        }
    }
}

/// A value that was escaped comes back as it was.
pub proof fn law_escape_round_trip(v: Seq<char>)
    ensures
        unescaped(escaped(v)) == v,
{
    lemma_escape_literals();
    lemma_escaped_is(v);
    lemma_quotes_restored(v);
    lemma_halved(v);
}

// ---- What stands between quotes ---------------------------------------------

/// Behind `pre`, the end of an escaped value is the first quote that no backslash
/// escapes.
proof fn lemma_quote_behind(pre: Seq<char>, v: Seq<char>, behind: Seq<char>)
    ensures
        quote_from(pre + escaped_chars(v) + seq!['"'] + behind, pre.len() as int) == pre.len()
            + escaped_chars(v).len(),
    decreases v.len(),
{
    let s = pre + escaped_chars(v) + seq!['"'] + behind;
    let k = pre.len() as int;
    if v.len() == 0 {
        assert(s[k] == '"');
    } else {
        let head = escaped_char(v[0]);
        let rest = escaped_chars(v.skip(1));
        lemma_quote_behind(pre + head, v.skip(1), behind);
        assert(s =~= pre + head + rest + seq!['"'] + behind);
        assert(s[k] == head[0]);
    }
}

/// The end of an escaped value is the first quote that no backslash escapes.
proof fn lemma_value_end(v: Seq<char>, behind: Seq<char>)
    ensures
        quote_from(escaped(v) + seq!['"'] + behind, 0) == escaped(v).len(),
{
    let none = Seq::<char>::empty();
    lemma_escaped_is(v);
    lemma_quote_behind(none, v, behind);
    assert(none + escaped_chars(v) =~= escaped_chars(v));
}

/// Names and values as an event carries them.
pub open spec fn carried(ds: Seq<DefModel>, values: Seq<Seq<char>>) -> Seq<(Seq<char>, Seq<char>)> {
    Seq::new(ds.len(), |i: int| (ds[i].name, escaped(values[i])))
}

/// Scanning a text that starts with one member.
proof fn lemma_scan_member(
    pre: Seq<char>,
    name: Seq<char>,
    value: Seq<char>,
    behind: Seq<char>,
)
    requires
        !pre.contains('"'),
        !name.contains('"'),
    ensures
        scanned(pre + member_text(name, value) + behind) == (match scanned(behind) {
            Some(more) => Some(seq![(name, escaped(value))] + more),
            None => None,
        }),
{
    let e = escaped(value);
    let s = pre + member_text(name, value) + behind;
    let tail = e + seq!['"'] + behind;
    reveal_strlit("\":\"");
    let from_key = name + seq!['"'] + (seq![':'] + seq!['"'] + tail);
    assert(s =~= pre + seq!['"'] + from_key);
    lemma_first_after(pre, '"', from_key);
    let behind_key = seq![':'] + seq!['"'] + tail;
    lemma_first_after(name, '"', behind_key);
    assert(!seq![':'].contains('"')) by {
        assert forall|i: int| 0 <= i < seq![':'].len() implies seq![':'][i] != '"' by {}
    }
    lemma_first_after(seq![':'], '"', tail);
    assert(behind_key.skip(2) =~= tail);
    lemma_value_end(value, behind);
    assert(tail.take(e.len() as int) =~= e);
    assert(tail.skip(e.len() as int + 1) =~= behind);
}

proof fn lemma_concat_without(a: Seq<char>, b: Seq<char>, c: char)
    requires
        !a.contains(c),
        !b.contains(c),
    ensures
        !(a + b).contains(c),
{
    assert forall|i: int| 0 <= i < (a + b).len() implies (a + b)[i] != c by {
        if i < a.len() {
            assert(a[i] == (a + b)[i]);
        } else {
            assert(b[i - a.len()] == (a + b)[i]);
        }
    }
}

/// Scanning the members of an object gives the names and values back.
proof fn lemma_scan_members(
    pre: Seq<char>,
    ds: Seq<DefModel>,
    values: Seq<Seq<char>>,
    tail: Seq<char>,
)
    requires
        ds.len() <= values.len(),
        !pre.contains('"'),
        !tail.contains('"'),
        forall|i: int| 0 <= i < ds.len() ==> !(#[trigger] ds[i]).name.contains('"'),
    ensures
        scanned(pre + joined(members(ds, values), ',') + tail) == Some(carried(ds, values)),
    decreases ds.len(),
{
    let ms = members(ds, values);
    let s = pre + joined(ms, ',') + tail;
    if ds.len() == 0 {
        assert(s =~= pre + tail);
        lemma_concat_without(pre, tail, '"');
        lemma_absent(s, '"');
        assert(carried(ds, values) =~= Seq::<(Seq<char>, Seq<char>)>::empty());
    } else {
        let rest = ds.skip(1);
        let others = values.skip(1);
        assert(!ds[0].name.contains('"'));
        assert forall|i: int| 0 <= i < rest.len() implies !(#[trigger] rest[i]).name.contains(
            '"',
        ) by {
            assert(rest[i] == ds[i + 1]);
        }
        assert(ms[0] == member_text(ds[0].name, values[0]));
        assert(ms.skip(1) =~= members(rest, others));
        assert(seq![(ds[0].name, escaped(values[0]))] + carried(rest, others) =~= carried(
            ds,
            values,
        ));
        let comma = seq![','];
        if ds.len() == 1 {
            assert(s =~= pre + ms[0] + tail);
            lemma_scan_member(pre, ds[0].name, values[0], tail);
            lemma_absent(tail, '"');
            assert(carried(rest, others) =~= Seq::<(Seq<char>, Seq<char>)>::empty());
        } else {
            let behind = comma + joined(members(rest, others), ',') + tail;
            assert(s =~= pre + ms[0] + behind);
            assert(!comma.contains('"')) by {
                assert forall|i: int| 0 <= i < comma.len() implies comma[i] != '"' by {}
            }
            lemma_scan_members(comma, rest, others, tail);
            lemma_scan_member(pre, ds[0].name, values[0], behind);
        }
    }
}

// ---- The event on the wire --------------------------------------------------

/// What an event carries behind its tag.
pub open spec fn event_payload(clock: int, ds: Seq<DefModel>, values: Seq<Seq<char>>) -> Seq<char> {
    "{\"c\":"@ + decimal(clock) + ",\"p\":{"@ + joined(members(ds, values), ',') + "}}"@
}

/// The place of the object `p` in an event.
proof fn lemma_event_object(clock: int, ds: Seq<DefModel>, values: Seq<Seq<char>>)
    requires
        0 <= clock,
    ensures
        event_object(event_payload(clock, ds, values)) == Some(
            joined(members(ds, values), ',') + seq!['}'],
        ),
{
    let s = event_payload(clock, ds, values);
    let digits = decimal(clock);
    let list = joined(members(ds, values), ',');
    let pat = "\"p\":{"@;
    reveal_strlit("{\"c\":");
    reveal_strlit(",\"p\":{");
    reveal_strlit("}}");
    reveal_strlit("\"p\":{");
    lemma_decimal(clock);
    let at = 5 + digits.len() as int + 1;
    assert(occurs_at(s, pat, at));
    assert forall|j: int| 0 <= j < at implies !occurs_at(s, pat, j) by {
        if occurs_at(s, pat, j) {
            assert(s[j + 0] == pat[0]);
            assert(s[j + 1] == pat[1]);
            if 5 <= j < 5 + digits.len() {
                assert(s[j] == digits[j - 5]);
                assert(is_digit(digits[j - 5]));
            }
        }
    }
    lemma_index_of_is(s, pat, at);
    let inner = s.skip(at + 5);
    assert(inner =~= list + "}}"@);
    assert(inner[inner.len() - 1] == '}');
    assert(last_index(inner, '}', inner.len() as int) == Some(inner.len() - 1));
    assert(inner.take(inner.len() - 1) =~= list + seq!['}']);
}

/// What an event carries is what a client finds in it: the name of each parameter,
/// and its value as it stands between quotes. No name holds a quote.
pub proof fn law_event_read(clock: int, ds: Seq<DefModel>, values: Seq<Seq<char>>)
    requires
        0 <= clock,
        ds.len() <= values.len(),
        forall|i: int| 0 <= i < ds.len() ==> !(#[trigger] ds[i]).name.contains('"'),
    ensures
        event_pairs(event_payload(clock, ds, values)) == Some(carried(ds, values)),
{
    let list = joined(members(ds, values), ',');
    let brace = seq!['}'];
    let none = Seq::<char>::empty();
    lemma_event_object(clock, ds, values);
    assert(!brace.contains('"')) by {
        assert forall|i: int| 0 <= i < brace.len() implies brace[i] != '"' by {}
    }
    lemma_scan_members(none, ds, values, brace);
    assert(none + list + brace =~= list + brace);
}

/// An escaped value holds a character other than quote and backslash only where the
/// value does.
proof fn lemma_escaped_holds(v: Seq<char>, c: char)
    requires
        escaped_chars(v).contains(c),
        c != '\\',
        c != '"',
    ensures
        v.contains(c),
    decreases v.len(),
{
    if v.len() > 0 {
        let s = escaped_chars(v);
        let head = escaped_char(v[0]);
        let k = choose|k: int| 0 <= k < s.len() && s[k] == c;
        if k < head.len() {
            assert(head[k] == c);
            assert(v[0] == c);
        } else {
            assert(escaped_chars(v.skip(1))[k - head.len()] == c);
            lemma_escaped_holds(v.skip(1), c);
            let j = choose|j: int| 0 <= j < v.skip(1).len() && v.skip(1)[j] == c;
            assert(v[j + 1] == c);
        }
    }
}

proof fn lemma_member_without(name: Seq<char>, value: Seq<char>)
    requires
        !name.contains('\n'),
        !value.contains('\n'),
    ensures
        !member_text(name, value).contains('\n'),
{
    let m = member_text(name, value);
    let e = escaped(value);
    lemma_escaped_is(value);
    reveal_strlit("\":\"");
    assert forall|k: int| 0 <= k < m.len() implies m[k] != '\n' by {
        if m[k] == '\n' {
            let n = name.len() as int;
            if 1 <= k < 1 + n {
                assert(name[k - 1] == '\n');
            } else if n + 4 <= k < n + 4 + e.len() {
                assert(e[k - n - 4] == '\n');
                lemma_escaped_holds(value, '\n');
            }
        }
    }
}

/// A client skips the head that a stream begins with.
pub proof fn law_stream_head_skipped(more: Seq<char>)
    ensures
        stream_data(true, SSE_HEAD@ + more) == stream_data(false, more),
{
    let end = "\r\n"@;
    let none = Seq::<char>::empty();
    let l1 = "HTTP/1.1 200 OK"@;
    let l2 = "Content-Type: text/event-stream"@;
    let l3 = "Cache-Control: no-cache"@;
    let l4 = "Access-Control-Allow-Origin: *"@;
    let r4 = none + end + more;
    let r3 = l4 + end + r4;
    let r2 = l3 + end + r3;
    let r1 = l2 + end + r2;
    let input = l1 + end + r1;
    assert(SSE_HEAD@ + more =~= input) by {
        reveal_strlit("\r\n");
        reveal_strlit("HTTP/1.1 200 OK");
        reveal_strlit("Content-Type: text/event-stream");
        reveal_strlit("Cache-Control: no-cache");
        reveal_strlit("Access-Control-Allow-Origin: *");
        reveal_strlit(
            "HTTP/1.1 200 OK\r\nContent-Type: text/event-stream\r\nCache-Control: no-cache\r\nAccess-Control-Allow-Origin: *\r\n\r\n",
        );
    }
    assert(is_head_line(l1)) by {
        reveal_strlit("HTTP/1.1 200 OK");
    }
    assert(is_head_line(l2)) by {
        reveal_strlit("Content-Type: text/event-stream");
    }
    assert(is_head_line(l3)) by {
        reveal_strlit("Cache-Control: no-cache");
    }
    assert(is_head_line(l4)) by {
        reveal_strlit("Access-Control-Allow-Origin: *");
    }
    lemma_head_line(l1, r1);
    lemma_head_line(l2, r2);
    lemma_head_line(l3, r3);
    lemma_head_line(l4, r4);
    lemma_read_crlf(none, more);
    lemma_blank_trimmed();
    assert(none + end =~= end);
    assert(stream_data(true, r4) == stream_data(false, more));
}

spec fn is_head_line(line: Seq<char>) -> bool {
    is_tight(line) && !line.contains('\n')
}

proof fn lemma_head_line(line: Seq<char>, rest: Seq<char>)
    requires
        is_head_line(line),
    ensures
        stream_data(true, line + "\r\n"@ + rest) == stream_data(true, rest),
{
    lemma_read_crlf(line, rest);
    lemma_tight_trimmed(line);
    lemma_blank_trimmed();
}

/// No name and no value holds a line feed.
pub open spec fn one_line_each(ds: Seq<DefModel>, values: Seq<Seq<char>>) -> bool {
    &&& forall|i: int| 0 <= i < ds.len() ==> !(#[trigger] ds[i]).name.contains('\n')
    &&& forall|i: int| 0 <= i < values.len() ==> !(#[trigger] values[i]).contains('\n')
}

proof fn lemma_payload_line(clock: int, ds: Seq<DefModel>, values: Seq<Seq<char>>)
    requires
        0 <= clock,
        ds.len() <= values.len(),
        one_line_each(ds, values),
    ensures
        !event_payload(clock, ds, values).contains('\n'),
{
    let s = event_payload(clock, ds, values);
    let digits = decimal(clock);
    let ms = members(ds, values);
    let list = joined(ms, ',');
    reveal_strlit("{\"c\":");
    reveal_strlit(",\"p\":{");
    reveal_strlit("}}");
    lemma_decimal(clock);
    assert(!list.contains('\n')) by {
        if list.contains('\n') {
            lemma_joined_chars(ms, ',', '\n');
            let i = choose|i: int| 0 <= i < ms.len() && (#[trigger] ms[i]).contains('\n');
            assert(!ds[i].name.contains('\n'));
            assert(!values[i].contains('\n'));
            lemma_member_without(ds[i].name, values[i]);
        }
    }
    assert forall|k: int| 0 <= k < s.len() implies s[k] != '\n' by {
        if s[k] == '\n' {
            let n = digits.len() as int;
            if 5 <= k < 5 + n {
                assert(is_digit(digits[k - 5]));
            } else if 5 + n + 6 <= k < 5 + n + 6 + list.len() {
                assert(list[k - 5 - n - 6] == '\n');
            }
        }
    }
}

/// An event is one line that carries data, and a blank one behind it: its payload
/// holds no line feed. Values behind those of the parameters play no part.
pub proof fn law_event_is_one_line(clock: int, ds: Seq<DefModel>, values: Seq<Seq<char>>)
    requires
        0 <= clock,
        ds.len() <= values.len(),
        one_line_each(ds, values),
    ensures
        event_text(clock, ds, values) == "data: "@ + event_payload(clock, ds, values) + "\n\n"@,
        !event_payload(clock, ds, values).contains('\n'),
        event_text(clock, ds, values) == event_text(clock, ds, values.take(ds.len() as int)),
{
    lemma_payload_line(clock, ds, values);
    reveal_strlit("data: ");
    reveal_strlit("data: {\"c\":");
    reveal_strlit("{\"c\":");
    reveal_strlit("}}");
    reveal_strlit("}}\n\n");
    reveal_strlit("\n\n");
    assert(event_text(clock, ds, values) =~= "data: "@ + event_payload(clock, ds, values)
        + "\n\n"@);
    assert(members(ds, values) =~= members(ds, values.take(ds.len() as int)));
}

/// A client that reads a stream line by line gets what each event carries, event
/// after event; `more` is what follows the event on the stream.
pub proof fn law_stream_read(
    clock: int,
    ds: Seq<DefModel>,
    values: Seq<Seq<char>>,
    more: Seq<char>,
)
    requires
        0 <= clock,
        ds.len() <= values.len(),
        one_line_each(ds, values),
    ensures
        stream_data(false, event_text(clock, ds, values) + more) == seq![
            event_payload(clock, ds, values),
        ] + stream_data(false, more),
{
    let payload = event_payload(clock, ds, values);
    let tag = "data: "@;
    let feed = seq!['\n'];
    let line = tag + payload;
    let s = event_text(clock, ds, values) + more;
    reveal_strlit("data: ");
    reveal_strlit("data: {\"c\":");
    reveal_strlit("{\"c\":");
    reveal_strlit(",\"p\":{");
    reveal_strlit("}}");
    reveal_strlit("}}\n\n");
    assert(s =~= line + feed + (feed + more));
    lemma_payload_line(clock, ds, values);
    assert(!tag.contains('\n'));
    lemma_concat_without(tag, payload, '\n');
    lemma_first_after(line, '\n', feed + more);
    assert(raw_line(s) =~= line + feed);
    assert((line + feed).drop_last() =~= line);
    assert(line.last() == '}');
    assert(trimmed_back(line) == line);
    assert(trimmed_back(line + feed) == line);
    assert(line[0] == 'd');
    assert(trimmed(line + feed) == line);
    lemma_own_prefix(tag, payload);
    assert(line_data(raw_line(s)) == Some(payload));
    let rest = feed + more;
    let none = Seq::<char>::empty();
    assert(after_line(s) == rest);
    assert(rest =~= none + feed + more);
    lemma_first_after(none, '\n', more);
    assert(raw_line(rest) =~= feed);
    assert(feed.drop_last() =~= none);
    assert(trimmed_back(none) == none);
    assert(trimmed_back(feed) == none);
    assert(trimmed_front(none) == none);
    assert(line_data(feed) is None);
    assert(stream_data(false, rest) == stream_data(false, more));
}

// ---- Changes only -----------------------------------------------------------

/// No two pairs have the same name.
pub open spec fn distinct(pairs: Seq<(Seq<char>, Seq<char>)>) -> bool {
    forall|i: int, j: int|
        0 <= i < j < pairs.len() ==> (#[trigger] pairs[i]).0 != (#[trigger] pairs[j]).0
}

/// The pairs whose value is not the one that `last` has for their name.
pub open spec fn unlike(
    last: Map<Seq<char>, Seq<char>>,
    pairs: Seq<(Seq<char>, Seq<char>)>,
) -> Seq<(Seq<char>, Seq<char>)>
    decreases pairs.len(),
{
    if pairs.len() == 0 {
        Seq::empty()
    } else if last.contains_key(pairs[0].0) && last[pairs[0].0] == pairs[0].1 {
        unlike(last, pairs.skip(1))
    } else {
        seq![(pairs[0].0, unescaped(pairs[0].1))] + unlike(last, pairs.skip(1))
    }
}

/// An insertion of a name that is not among the pairs says nothing of them.
proof fn lemma_unlike_insert(
    last: Map<Seq<char>, Seq<char>>,
    pairs: Seq<(Seq<char>, Seq<char>)>,
    key: Seq<char>,
    raw: Seq<char>,
)
    requires
        forall|i: int| 0 <= i < pairs.len() ==> (#[trigger] pairs[i]).0 != key,
    ensures
        unlike(last.insert(key, raw), pairs) == unlike(last, pairs),
    decreases pairs.len(),
{
    if pairs.len() > 0 {
        let rest = pairs.skip(1);
        assert forall|i: int| 0 <= i < rest.len() implies (#[trigger] rest[i]).0 != key by {
            assert(rest[i] == pairs[i + 1]);
        }
        assert(pairs[0].0 != key);
        lemma_unlike_insert(last, rest, key, raw);
    }
}

/// One of the pairs has the name `key`.
pub open spec fn named(pairs: Seq<(Seq<char>, Seq<char>)>, key: Seq<char>) -> bool {
    exists|i: int| 0 <= i < pairs.len() && (#[trigger] pairs[i]).0 == key
}

/// Both maps have the same value for `key`, or none.
pub open spec fn same_at(
    a: Map<Seq<char>, Seq<char>>,
    b: Map<Seq<char>, Seq<char>>,
    key: Seq<char>,
) -> bool {
    if b.contains_key(key) {
        a.contains_key(key) && a[key] == b[key]
    } else {
        !a.contains_key(key)
    }
}

/// Of an event, those pairs reach the client whose value is not the last one of
/// their name, in their order; from then on the event's values are the last ones,
/// and those of all other names stay.
pub proof fn law_changes_only(
    last: Map<Seq<char>, Seq<char>>,
    pairs: Seq<(Seq<char>, Seq<char>)>,
)
    requires
        distinct(pairs),
    ensures
        deduplicated(last, pairs).1 == unlike(last, pairs),
        forall|i: int|
            0 <= i < pairs.len() ==> deduplicated(last, pairs).0.contains_key(
                (#[trigger] pairs[i]).0,
            ) && deduplicated(last, pairs).0[pairs[i].0] == pairs[i].1,
        forall|key: Seq<char>|
            !named(pairs, key) ==> #[trigger] same_at(deduplicated(last, pairs).0, last, key),
    decreases pairs.len(),
{
    if pairs.len() > 0 {
        let (key, raw) = pairs[0];
        let rest = pairs.skip(1);
        assert forall|i: int, j: int| 0 <= i < j < rest.len() implies (#[trigger] rest[i]).0 != (
        #[trigger] rest[j]).0 by {
            assert(rest[i] == pairs[i + 1]);
            assert(rest[j] == pairs[j + 1]);
        }
        assert forall|i: int| 0 <= i < rest.len() implies (#[trigger] rest[i]).0 != key by {
            assert(rest[i] == pairs[i + 1]);
            assert(pairs[0].0 != pairs[i + 1].0);
        }
        let same = last.contains_key(key) && last[key] == raw;
        let next = if same {
            last
        } else {
            last.insert(key, raw)
        };
        law_changes_only(next, rest);
        if !same {
            lemma_unlike_insert(last, rest, key, raw);
        }
        let map = deduplicated(last, pairs).0;
        assert(map == deduplicated(next, rest).0);
        assert(!named(rest, key));
        assert(same_at(map, next, key));
        assert forall|i: int| 0 <= i < pairs.len() implies map.contains_key(
            (#[trigger] pairs[i]).0,
        ) && map[pairs[i].0] == pairs[i].1 by {
            if i > 0 {
                assert(rest[i - 1] == pairs[i]);
            }
        }
        assert forall|k: Seq<char>| !named(pairs, k) implies #[trigger] same_at(map, last, k) by {
            assert(pairs[0].0 != k);
            if named(rest, k) {
                let i = choose|i: int| 0 <= i < rest.len() && (#[trigger] rest[i]).0 == k;
                assert(rest[i] == pairs[i + 1]);
            }
            assert(same_at(map, next, k));
        }
    }
}

/// An event that brings nothing new reaches nobody.
pub proof fn law_repeated_event(
    last: Map<Seq<char>, Seq<char>>,
    pairs: Seq<(Seq<char>, Seq<char>)>,
)
    requires
        distinct(pairs),
    ensures
        deduplicated(deduplicated(last, pairs).0, pairs) == (
            deduplicated(last, pairs).0,
            Seq::<(Seq<char>, Seq<char>)>::empty(),
        ),
{
    law_changes_only(last, pairs);
    lemma_nothing_new(deduplicated(last, pairs).0, pairs);
}

proof fn lemma_nothing_new(
    last: Map<Seq<char>, Seq<char>>,
    pairs: Seq<(Seq<char>, Seq<char>)>,
)
    requires
        forall|i: int|
            0 <= i < pairs.len() ==> last.contains_key((#[trigger] pairs[i]).0)
                && last[pairs[i].0] == pairs[i].1,
    ensures
        deduplicated(last, pairs) == (last, Seq::<(Seq<char>, Seq<char>)>::empty()),
    decreases pairs.len(),
{
    if pairs.len() > 0 {
        let rest = pairs.skip(1);
        assert forall|i: int| 0 <= i < rest.len() implies last.contains_key((#[trigger] rest[i]).0)
            && last[rest[i].0] == rest[i].1 by {
            assert(rest[i] == pairs[i + 1]);
        }
        assert(last.contains_key(pairs[0].0) && last[pairs[0].0] == pairs[0].1);
        lemma_nothing_new(last, rest);
    }
}

/// The parameters from place `i` on whose values differ, with the value in `new`.
pub open spec fn differing_from(
    ds: Seq<DefModel>,
    old_values: Seq<Seq<char>>,
    new_values: Seq<Seq<char>>,
    i: int,
) -> Seq<(Seq<char>, Seq<char>)>
    decreases ds.len() - i,
{
    if i < 0 || i >= ds.len() {
        Seq::empty()
    } else if old_values[i] == new_values[i] {
        differing_from(ds, old_values, new_values, i + 1)
    } else {
        seq![(ds[i].name, new_values[i])] + differing_from(ds, old_values, new_values, i + 1)
    }
}

/// No two parameters have the same name.
pub open spec fn distinct_names(ds: Seq<DefModel>) -> bool {
    forall|i: int, j: int|
        0 <= i < j < ds.len() ==> (#[trigger] ds[i]).name != (#[trigger] ds[j]).name
}

proof fn lemma_escape_injective(a: Seq<char>, b: Seq<char>)
    requires
        escaped(a) == escaped(b),
    ensures
        a == b,
{
    law_escape_round_trip(a);
    law_escape_round_trip(b);
}

proof fn lemma_unlike_from(
    last: Map<Seq<char>, Seq<char>>,
    ds: Seq<DefModel>,
    a: Seq<Seq<char>>,
    b: Seq<Seq<char>>,
    i: int,
)
    requires
        0 <= i <= ds.len(),
        forall|k: int|
            0 <= k < ds.len() ==> last.contains_key((#[trigger] ds[k]).name) && last[ds[k].name]
                == escaped(a[k]),
    ensures
        unlike(last, carried(ds, b).skip(i)) == differing_from(ds, a, b, i),
    decreases ds.len() - i,
{
    let tail = carried(ds, b).skip(i);
    if i < ds.len() {
        assert(tail[0] == (ds[i].name, escaped(b[i])));
        assert(tail.skip(1) =~= carried(ds, b).skip(i + 1));
        lemma_unlike_from(last, ds, a, b, i + 1);
        law_escape_round_trip(b[i]);
        if escaped(a[i]) == escaped(b[i]) {
            lemma_escape_injective(a[i], b[i]);
        }
    }
}

/// A client that has taken an event with the values `a` in gets of an event with the
/// values `b` the parameters whose values differ, with their values as they are.
pub proof fn law_client_follows(
    last: Map<Seq<char>, Seq<char>>,
    ds: Seq<DefModel>,
    a: Seq<Seq<char>>,
    b: Seq<Seq<char>>,
)
    requires
        distinct_names(ds),
        a.len() == ds.len(),
        b.len() == ds.len(),
    ensures
        deduplicated(deduplicated(last, carried(ds, a)).0, carried(ds, b)).1 == differing_from(
            ds,
            a,
            b,
            0,
        ),
{
    let pb = carried(ds, b);
    let next = deduplicated(last, carried(ds, a)).0;
    lemma_taken_in(last, ds, a);
    lemma_carried_distinct(ds, b);
    law_changes_only(next, pb);
    lemma_unlike_from(next, ds, a, b, 0);
    assert(pb.skip(0) =~= pb);
}

/// A client that has taken no event in gets of its first one the name and the value
/// of every parameter, as they are.
pub proof fn law_first_event(ds: Seq<DefModel>, values: Seq<Seq<char>>)
    requires
        distinct_names(ds),
        values.len() == ds.len(),
    ensures
        deduplicated(Map::empty(), carried(ds, values)).1 == named_values(ds, values),
{
    let none = Map::<Seq<char>, Seq<char>>::empty();
    let ps = carried(ds, values);
    lemma_carried_distinct(ds, values);
    law_changes_only(none, ps);
    lemma_all_unlike(ds, values, 0);
    assert(ps.skip(0) =~= ps);
    assert(named_values(ds, values).skip(0) =~= named_values(ds, values));
}

proof fn lemma_all_unlike(ds: Seq<DefModel>, values: Seq<Seq<char>>, i: int)
    requires
        0 <= i <= ds.len(),
        values.len() == ds.len(),
    ensures
        unlike(Map::empty(), carried(ds, values).skip(i)) == named_values(ds, values).skip(i),
    decreases ds.len() - i,
{
    let tail = carried(ds, values).skip(i);
    let all = named_values(ds, values);
    if i < ds.len() {
        assert(tail[0] == (ds[i].name, escaped(values[i])));
        assert(tail.skip(1) =~= carried(ds, values).skip(i + 1));
        lemma_all_unlike(ds, values, i + 1);
        law_escape_round_trip(values[i]);
        assert(all.skip(i) =~= seq![all[i]] + all.skip(i + 1));
    } else {
        assert(all.skip(i) =~= Seq::<(Seq<char>, Seq<char>)>::empty());
    }
}

/// What can travel in an event: no two parameters have the same name, no name holds
/// a quote, and each name and value keeps to one line.
pub open spec fn can_travel(ds: Seq<DefModel>, values: Seq<Seq<char>>) -> bool {
    &&& ds.len() == values.len()
    &&& distinct_names(ds)
    &&& one_line_each(ds, values)
    &&& forall|i: int| 0 <= i < ds.len() ==> !(#[trigger] ds[i]).name.contains('"')
}

/// A client that begins to read the stream of events gets the name and the value of
/// every parameter.
pub proof fn law_subscriber_sees_state(ds: Seq<DefModel>, s: StateModel, more: Seq<char>)
    requires
        s.wf(ds),
        can_travel(ds, s.values),
    ensures
        ({
            let data = event_payload(s.clock as int, ds, s.values);
            &&& stream_data(true, SSE_HEAD@ + s.event + more) == seq![data] + stream_data(false, more)
            &&& event_pairs(data) is Some
            &&& deduplicated(Map::empty(), event_pairs(data)->0).1 == named_values(ds, s.values)
        }),
{
    assert(SSE_HEAD@ + s.event + more =~= SSE_HEAD@ + (s.event + more));
    law_stream_head_skipped(s.event + more);
    law_stream_read(s.clock as int, ds, s.values, more);
    law_event_read(s.clock as int, ds, s.values);
    law_first_event(ds, s.values);
}

/// A client that begins to read the stream of a server to which nothing was written gets
/// every name with the default value of its definition, in the order of the definitions.
pub proof fn law_subscriber_sees_defaults(ds: Seq<DefModel>, more: Seq<char>)
    requires
        can_travel(ds, Seq::new(ds.len(), |i: int| ds[i].default)),
    ensures
        ({
            let defaults = Seq::new(ds.len(), |i: int| ds[i].default);
            let data = event_payload(1, ds, defaults);
            &&& stream_data(true, SSE_HEAD@ + initial(ds).event + more) == seq![data]
                + stream_data(false, more)
            &&& event_pairs(data) is Some
            &&& deduplicated(Map::empty(), event_pairs(data)->0).1 == Seq::new(
                ds.len(),
                |i: int| (ds[i].name, ds[i].default),
            )
        }),
{
    let defaults = Seq::new(ds.len(), |i: int| ds[i].default);
    law_initial(ds);
    assert(initial(ds).values =~= defaults);
    law_subscriber_sees_state(ds, initial(ds), more);
    assert(named_values(ds, defaults) =~= Seq::new(
        ds.len(),
        |i: int| (ds[i].name, ds[i].default),
    ));
}

/// A client that has taken the event of one state in gets of the event of another
/// state the parameters whose values differ, with their values there, and nothing
/// else.
pub proof fn law_subscriber_sees_changes(
    last: Map<Seq<char>, Seq<char>>,
    ds: Seq<DefModel>,
    s: StateModel,
    t: StateModel,
    more: Seq<char>,
)
    requires
        s.wf(ds),
        t.wf(ds),
        can_travel(ds, s.values),
        can_travel(ds, t.values),
    ensures
        ({
            let before = event_payload(s.clock as int, ds, s.values);
            let after = event_payload(t.clock as int, ds, t.values);
            &&& stream_data(false, s.event + t.event + more) == seq![before, after] + stream_data(
                false,
                more,
            )
            &&& event_pairs(before) is Some
            &&& event_pairs(after) is Some
            &&& deduplicated(
                deduplicated(last, event_pairs(before)->0).0,
                event_pairs(after)->0,
            ).1 == differing_from(ds, s.values, t.values, 0)
        }),
{
    let before = event_payload(s.clock as int, ds, s.values);
    let after = event_payload(t.clock as int, ds, t.values);
    assert(s.event + t.event + more =~= s.event + (t.event + more));
    law_stream_read(s.clock as int, ds, s.values, t.event + more);
    law_stream_read(t.clock as int, ds, t.values, more);
    let rest = stream_data(false, more);
    assert(seq![before] + (seq![after] + rest) =~= seq![before, after] + rest);
    law_event_read(s.clock as int, ds, s.values);
    law_event_read(t.clock as int, ds, t.values);
    law_client_follows(last, ds, s.values, t.values);
}

/// The events of the states, one behind the other.
pub open spec fn events_text(states: Seq<StateModel>) -> Seq<char>
    decreases states.len(),
{
    if states.len() == 0 {
        Seq::empty()
    } else {
        states[0].event + events_text(states.skip(1))
    }
}

/// What the events of the states carry behind their tags.
pub open spec fn state_payloads(ds: Seq<DefModel>, states: Seq<StateModel>) -> Seq<Seq<char>> {
    Seq::new(states.len(), |k: int| event_payload(states[k].clock as int, ds, states[k].values))
}

proof fn lemma_events_read(ds: Seq<DefModel>, states: Seq<StateModel>)
    requires
        forall|k: int|
            0 <= k < states.len() ==> (#[trigger] states[k]).wf(ds) && one_line_each(
                ds,
                states[k].values,
            ),
    ensures
        stream_data(false, events_text(states)) == state_payloads(ds, states),
    decreases states.len(),
{
    let all = state_payloads(ds, states);
    if states.len() == 0 {
        assert(all =~= Seq::<Seq<char>>::empty());
        assert(stream_data(false, events_text(states)) =~= all);
    } else {
        let rest = states.skip(1);
        let first = states[0];
        assert forall|k: int| 0 <= k < rest.len() implies (#[trigger] rest[k]).wf(ds)
            && one_line_each(ds, rest[k].values) by {
            assert(rest[k] == states[k + 1]);
        }
        lemma_events_read(ds, rest);
        assert(first.wf(ds) && one_line_each(ds, first.values));
        law_stream_read(first.clock as int, ds, first.values, events_text(rest));
        assert(all =~= seq![event_payload(first.clock as int, ds, first.values)] + state_payloads(
            ds,
            rest,
        ));
    }
}

/// Of a stream, its head and then the events of some states, a client gets what each of
/// the events carries, in their order.
pub proof fn law_stream_delivers(ds: Seq<DefModel>, states: Seq<StateModel>)
    requires
        forall|k: int|
            0 <= k < states.len() ==> (#[trigger] states[k]).wf(ds) && one_line_each(
                ds,
                states[k].values,
            ),
    ensures
        stream_data(true, SSE_HEAD@ + events_text(states)) == state_payloads(ds, states),
{
    law_stream_head_skipped(events_text(states));
    lemma_events_read(ds, states);
}

// ---- Events in a row --------------------------------------------------------

/// The last values and the changes that a client has, where it began with none and the
/// data of the events was delivered in this order.
pub open spec fn delivered(datas: Seq<Seq<char>>) -> (
    Map<Seq<char>, Seq<char>>,
    Seq<(Seq<char>, Seq<char>)>,
)
    decreases datas.len(),
{
    if datas.len() == 0 {
        (Map::empty(), Seq::empty())
    } else {
        let (last, buffer) = delivered(datas.drop_last());
        let (map, out) = deduplicated(last, event_pairs(datas.last())->0);
        (map, buffer + out)
    }
}

/// The values that the pairs give for a name, in their order.
pub open spec fn history(pairs: Seq<(Seq<char>, Seq<char>)>, name: Seq<char>) -> Seq<Seq<char>>
    decreases pairs.len(),
{
    if pairs.len() == 0 {
        Seq::empty()
    } else if pairs[0].0 == name {
        seq![pairs[0].1] + history(pairs.skip(1), name)
    } else {
        history(pairs.skip(1), name)
    }
}

/// No value follows itself.
pub open spec fn no_repeats(h: Seq<Seq<char>>) -> bool {
    forall|j: int, k: int| 0 <= j && k < h.len() && k == j + 1 ==> #[trigger] h[j] != #[trigger] h[k]
}

/// What the events carry behind their tags.
pub open spec fn payloads(
    ds: Seq<DefModel>,
    clocks: Seq<int>,
    values: Seq<Seq<Seq<char>>>,
) -> Seq<Seq<char>> {
    Seq::new(values.len(), |k: int| event_payload(clocks[k], ds, values[k]))
}

proof fn lemma_history_concat(
    a: Seq<(Seq<char>, Seq<char>)>,
    b: Seq<(Seq<char>, Seq<char>)>,
    name: Seq<char>,
)
    ensures
        history(a + b, name) == history(a, name) + history(b, name),
    decreases a.len(),
{
    if a.len() == 0 {
        assert(a + b =~= b);
        assert(history(a, name) + history(b, name) =~= history(b, name));
    } else {
        assert((a + b)[0] == a[0]);
        assert((a + b).skip(1) =~= a.skip(1) + b);
        lemma_history_concat(a.skip(1), b, name);
        assert(history(a + b, name) =~= history(a, name) + history(b, name));
    }
}

proof fn lemma_history_step(
    pair: (Seq<char>, Seq<char>),
    more: Seq<(Seq<char>, Seq<char>)>,
    name: Seq<char>,
)
    ensures
        history(seq![pair] + more, name) == if pair.0 == name {
            seq![pair.1] + history(more, name)
        } else {
            history(more, name)
        },
{
    let all = seq![pair] + more;
    assert(all[0] == pair);
    assert(all.skip(1) =~= more);
}

proof fn lemma_history_differing(
    ds: Seq<DefModel>,
    a: Seq<Seq<char>>,
    b: Seq<Seq<char>>,
    i: int,
    k: int,
)
    requires
        distinct_names(ds),
        0 <= i < ds.len(),
        0 <= k <= ds.len(),
    ensures
        history(differing_from(ds, a, b, k), ds[i].name) == if k <= i && a[i] != b[i] {
            seq![b[i]]
        } else {
            Seq::empty()
        },
    decreases ds.len() - k,
{
    if k < ds.len() {
        lemma_history_differing(ds, a, b, i, k + 1);
        if k < i {
            assert(ds[k].name != ds[i].name);
        } else if i < k {
            assert(ds[i].name != ds[k].name);
        }
        lemma_history_step((ds[k].name, b[k]), differing_from(ds, a, b, k + 1), ds[i].name);
        if k == i {
            assert(seq![b[i]] + Seq::<Seq<char>>::empty() =~= seq![b[i]]);
        }
    }
}

proof fn lemma_history_named(ds: Seq<DefModel>, values: Seq<Seq<char>>, i: int, k: int)
    requires
        distinct_names(ds),
        0 <= i < ds.len(),
        0 <= k <= ds.len(),
    ensures
        history(named_values(ds, values).skip(k), ds[i].name) == if k <= i {
            seq![values[i]]
        } else {
            Seq::empty()
        },
    decreases ds.len() - k,
{
    let tail = named_values(ds, values).skip(k);
    if k < ds.len() {
        let more = named_values(ds, values).skip(k + 1);
        lemma_history_named(ds, values, i, k + 1);
        if k < i {
            assert(ds[k].name != ds[i].name);
        } else if i < k {
            assert(ds[i].name != ds[k].name);
        }
        assert(tail =~= seq![(ds[k].name, values[k])] + more);
        lemma_history_step((ds[k].name, values[k]), more, ds[i].name);
        if k == i {
            assert(seq![values[i]] + Seq::<Seq<char>>::empty() =~= seq![values[i]]);
        }
    }
}

/// The map has the values, as they stand between quotes, for the names.
spec fn holds_values(
    map: Map<Seq<char>, Seq<char>>,
    ds: Seq<DefModel>,
    values: Seq<Seq<char>>,
) -> bool {
    forall|k: int|
        0 <= k < ds.len() ==> map.contains_key((#[trigger] ds[k]).name) && map[ds[k].name]
            == escaped(values[k])
}

proof fn lemma_carried_distinct(ds: Seq<DefModel>, values: Seq<Seq<char>>)
    requires
        distinct_names(ds),
    ensures
        distinct(carried(ds, values)),
{
    let ps = carried(ds, values);
    assert forall|i: int, j: int| 0 <= i < j < ps.len() implies (#[trigger] ps[i]).0 != (
    #[trigger] ps[j]).0 by {
        assert(ds[i].name != ds[j].name);
    }
}

proof fn lemma_taken_in(
    last: Map<Seq<char>, Seq<char>>,
    ds: Seq<DefModel>,
    values: Seq<Seq<char>>,
)
    requires
        distinct_names(ds),
        values.len() == ds.len(),
    ensures
        holds_values(deduplicated(last, carried(ds, values)).0, ds, values),
{
    let ps = carried(ds, values);
    lemma_carried_distinct(ds, values);
    law_changes_only(last, ps);
    let map = deduplicated(last, ps).0;
    assert forall|k: int| 0 <= k < ds.len() implies map.contains_key((#[trigger] ds[k]).name)
        && map[ds[k].name] == escaped(values[k]) by {
        assert(ps[k] == (ds[k].name, escaped(values[k])));
    }
}

/// Of a row of events, each built from the same parameters, a client keeps for each name
/// a row of values of which none follows itself, and of which the last one is the
/// value in the last event.
pub proof fn law_buffer_history(
    ds: Seq<DefModel>,
    clocks: Seq<int>,
    values: Seq<Seq<Seq<char>>>,
    i: int,
)
    requires
        distinct_names(ds),
        forall|k: int| 0 <= k < ds.len() ==> !(#[trigger] ds[k]).name.contains('"'),
        clocks.len() == values.len(),
        forall|k: int| 0 <= k < clocks.len() ==> 0 <= #[trigger] clocks[k],
        forall|k: int| 0 <= k < values.len() ==> (#[trigger] values[k]).len() == ds.len(),
        0 <= i < ds.len(),
    ensures
        forall|k: int|
            0 <= k < values.len() ==> event_pairs(#[trigger] payloads(ds, clocks, values)[k])
                is Some,
        ({
            let h = history(delivered(payloads(ds, clocks, values)).1, ds[i].name);
            &&& no_repeats(h)
            &&& values.len() > 0 ==> h.len() > 0 && h.last() == values.last()[i]
        }),
{
    let datas = payloads(ds, clocks, values);
    assert forall|k: int| 0 <= k < values.len() implies event_pairs(#[trigger] datas[k]) is Some by {
        assert(0 <= clocks[k] && values[k].len() == ds.len());
        law_event_read(clocks[k], ds, values[k]);
    }
    lemma_buffer_history(ds, clocks, values, i);
}

proof fn lemma_buffer_history(
    ds: Seq<DefModel>,
    clocks: Seq<int>,
    values: Seq<Seq<Seq<char>>>,
    i: int,
)
    requires
        distinct_names(ds),
        forall|k: int| 0 <= k < ds.len() ==> !(#[trigger] ds[k]).name.contains('"'),
        clocks.len() == values.len(),
        forall|k: int| 0 <= k < clocks.len() ==> 0 <= #[trigger] clocks[k],
        forall|k: int| 0 <= k < values.len() ==> (#[trigger] values[k]).len() == ds.len(),
        0 <= i < ds.len(),
    ensures
        values.len() > 0 ==> holds_values(
            delivered(payloads(ds, clocks, values)).0,
            ds,
            values.last(),
        ),
        ({
            let h = history(delivered(payloads(ds, clocks, values)).1, ds[i].name);
            &&& no_repeats(h)
            &&& values.len() > 0 ==> h.len() > 0 && h.last() == values.last()[i]
        }),
    decreases values.len(),
{
    let datas = payloads(ds, clocks, values);
    if values.len() > 0 {
        let front = values.drop_last();
        let ticks = clocks.drop_last();
        let b = values.last();
        let n = values.len() - 1;
        assert(b == values[n] && clocks[n] == clocks.last());
        assert forall|k: int| 0 <= k < ticks.len() implies 0 <= #[trigger] ticks[k] by {
            assert(ticks[k] == clocks[k]);
        }
        assert forall|k: int| 0 <= k < front.len() implies (#[trigger] front[k]).len()
            == ds.len() by {
            assert(front[k] == values[k]);
        }
        lemma_buffer_history(ds, ticks, front, i);
        assert(datas.drop_last() =~= payloads(ds, ticks, front));
        let (last, buffer) = delivered(datas.drop_last());
        law_event_read(clocks[n], ds, b);
        assert(event_pairs(datas.last())->0 == carried(ds, b));
        let out = deduplicated(last, carried(ds, b)).1;
        lemma_taken_in(last, ds, b);
        lemma_carried_distinct(ds, b);
        law_changes_only(last, carried(ds, b));
        let name = ds[i].name;
        lemma_history_concat(buffer, out, name);
        let h = history(buffer, name);
        let more = history(out, name);
        if front.len() == 0 {
            law_first_event(ds, b);
            lemma_history_named(ds, b, i, 0);
            assert(named_values(ds, b).skip(0) =~= named_values(ds, b));
            assert(h + more =~= seq![b[i]]);
        } else {
            let a = front.last();
            lemma_unlike_from(last, ds, a, b, 0);
            assert(carried(ds, b).skip(0) =~= carried(ds, b));
            lemma_history_differing(ds, a, b, i, 0);
            let all = h + more;
            if a[i] == b[i] {
                assert(all =~= h);
            } else {
                assert(all =~= h.push(b[i]));
                assert(h.last() == a[i]);
            }
        }
    }
}

// ---- The event, part by part --------------------------------------------------

proof fn lemma_escaped_push(v: Seq<char>, c: char)
    ensures
        escaped_chars(v.push(c)) == escaped_chars(v) + escaped_char(c),
    decreases v.len(),
{
    let all = v.push(c);
    if v.len() == 0 {
        assert(all.skip(1) =~= Seq::<char>::empty());
        assert(escaped_chars(all.skip(1)) == Seq::<char>::empty());
        assert(escaped_chars(all) =~= escaped_chars(v) + escaped_char(c));
    } else {
        lemma_escaped_push(v.skip(1), c);
        assert(all[0] == v[0]);
        assert(all.skip(1) =~= v.skip(1).push(c));
        assert(escaped_chars(all) =~= escaped_chars(v) + escaped_char(c));
    }
}

/// Between quotes a value stands character by character, quotes and backslashes with a
/// backslash before them.
pub proof fn law_escaped(v: Seq<char>, c: char)
    ensures
        escaped(Seq::empty()) == Seq::<char>::empty(),
        escaped(v.push(c)) == escaped(v) + (if c == '"' {
            seq!['\\', '"']
        } else if c == '\\' {
            seq!['\\', '\\']
        } else {
            seq![c]
        }),
{
    lemma_escaped_is(v);
    lemma_escaped_is(v.push(c));
    lemma_escaped_is(Seq::empty());
    lemma_escaped_push(v, c);
}

proof fn lemma_unescaped_plain(c: char, rest: Seq<char>)
    requires
        c != '\\',
    ensures
        unescaped(seq![c] + rest) == seq![c] + unescaped(rest),
{
    let q = seq!['\\', '"'];
    let b = seq!['\\', '\\'];
    lemma_escape_literals();
    let r = replaced(rest, q, seq!['"']);
    let s = seq![c] + rest;
    let t = seq![c] + r;
    lemma_occurs_two(s, '\\', '"');
    lemma_replaced_miss(s, q, seq!['"']);
    assert(s.skip(1) =~= rest);
    lemma_occurs_two(t, '\\', '\\');
    lemma_replaced_miss(t, b, seq!['\\']);
    assert(t.skip(1) =~= r);
}

proof fn lemma_unescaped_quote(rest: Seq<char>)
    ensures
        unescaped(seq!['\\', '"'] + rest) == seq!['"'] + unescaped(rest),
{
    let q = seq!['\\', '"'];
    let b = seq!['\\', '\\'];
    lemma_escape_literals();
    let r = replaced(rest, q, seq!['"']);
    let s = q + rest;
    let t = seq!['"'] + r;
    lemma_occurs_two(s, '\\', '"');
    lemma_replaced_hit(s, q, seq!['"']);
    assert(s.skip(2) =~= rest);
    lemma_occurs_two(t, '\\', '\\');
    lemma_replaced_miss(t, b, seq!['\\']);
    assert(t.skip(1) =~= r);
}

/// A backslash that no quote follows is left for the second pass.
proof fn lemma_first_pass(c: char, rest: Seq<char>)
    requires
        c != '"',
        c == '\\' ==> rest.len() == 0 || rest[0] != '"',
    ensures
        replaced(seq!['\\', c] + rest, seq!['\\', '"'], seq!['"']) == seq!['\\', c] + replaced(
            rest,
            seq!['\\', '"'],
            seq!['"'],
        ),
{
    let q = seq!['\\', '"'];
    let s = seq!['\\', c] + rest;
    let one = seq![c] + rest;
    lemma_occurs_two(s, '\\', '"');
    lemma_replaced_miss(s, q, seq!['"']);
    assert(s.skip(1) =~= one);
    lemma_occurs_two(one, '\\', '"');
    lemma_replaced_miss(one, q, seq!['"']);
    assert(one.skip(1) =~= rest);
    let r = replaced(rest, q, seq!['"']);
    assert(seq!['\\'] + (seq![c] + r) =~= seq!['\\', c] + r);
}

proof fn lemma_unescaped_back(rest: Seq<char>)
    requires
        rest.len() == 0 || rest[0] != '"',
    ensures
        unescaped(seq!['\\', '\\'] + rest) == seq!['\\'] + unescaped(rest),
{
    let b = seq!['\\', '\\'];
    lemma_escape_literals();
    lemma_first_pass('\\', rest);
    let r = replaced(rest, seq!['\\', '"'], seq!['"']);
    let t = b + r;
    lemma_occurs_two(t, '\\', '\\');
    lemma_replaced_hit(t, b, seq!['\\']);
    assert(t.skip(2) =~= r);
}

proof fn lemma_unescaped_other(c: char, rest: Seq<char>)
    requires
        c != '\\' && c != '"',
    ensures
        unescaped(seq!['\\', c] + rest) == seq!['\\', c] + unescaped(rest),
{
    let b = seq!['\\', '\\'];
    lemma_escape_literals();
    lemma_first_pass(c, rest);
    let r = replaced(rest, seq!['\\', '"'], seq!['"']);
    let tail = seq![c] + r;
    let t = seq!['\\', c] + r;
    lemma_occurs_two(t, '\\', '\\');
    lemma_replaced_miss(t, b, seq!['\\']);
    assert(t.skip(1) =~= tail);
    lemma_occurs_two(tail, '\\', '\\');
    lemma_replaced_miss(tail, b, seq!['\\']);
    assert(tail.skip(1) =~= r);
    let u = replaced(r, b, seq!['\\']);
    assert(seq!['\\'] + (seq![c] + u) =~= seq!['\\', c] + u);
}

/// Out of quotes a value is read from the left: a backslash before a quote is left out, so
/// is the first of two backslashes, and any other character is kept, a single backslash
/// among them.
pub proof fn law_unescaped(c: char, rest: Seq<char>)
    ensures
        unescaped(Seq::empty()) == Seq::<char>::empty(),
        c != '\\' ==> unescaped(seq![c] + rest) == seq![c] + unescaped(rest),
        unescaped(seq!['\\', '"'] + rest) == seq!['"'] + unescaped(rest),
        rest.len() == 0 || rest[0] != '"' ==> unescaped(seq!['\\', '\\'] + rest) == seq!['\\']
            + unescaped(rest),
        c != '\\' && c != '"' ==> unescaped(seq!['\\', c] + rest) == seq!['\\', c] + unescaped(
            rest,
        ),
{
    assert(unescaped(Seq::empty()) == Seq::<char>::empty()) by {
        lemma_escape_literals();
        lemma_replaced_nothing(seq!['\\', '"'], seq!['"']);
        lemma_replaced_nothing(seq!['\\', '\\'], seq!['\\']);
    }
    if c != '\\' {
        lemma_unescaped_plain(c, rest);
    }
    lemma_unescaped_quote(rest);
    if rest.len() == 0 || rest[0] != '"' {
        lemma_unescaped_back(rest);
    }
    if c != '\\' && c != '"' {
        lemma_unescaped_other(c, rest);
    }
}

/// An event is built parameter by parameter: one more parameter is one more member before
/// the closing braces, its name and its escaped value between quotes, behind a comma
/// where it is not the first one.
pub proof fn law_event_built(
    clock: int,
    ds: Seq<DefModel>,
    values: Seq<Seq<char>>,
    d: DefModel,
    value: Seq<char>,
)
    requires
        ds.len() == values.len(),
    ensures
        event_text(clock, Seq::empty(), values) == "data: {\"c\":"@ + decimal(clock)
            + ",\"p\":{}}\n\n"@,
        event_text(clock, ds, values).len() >= 4,
        event_text(clock, ds.push(d), values.push(value)) == event_text(clock, ds, values).take(
            event_text(clock, ds, values).len() - 4,
        ) + (if ds.len() > 0 {
            seq![',']
        } else {
            Seq::empty()
        }) + (seq!['"'] + d.name + seq!['"', ':', '"'] + escaped(value) + seq!['"']) + seq![
            '}',
            '}',
            '\n',
            '\n',
        ],
{
    let front = "data: {\"c\":"@ + decimal(clock) + ",\"p\":{"@;
    let end = "}}\n\n"@;
    let ms = members(ds, values);
    let m = member_text(d.name, value);
    reveal_strlit(",\"p\":{");
    reveal_strlit("}}\n\n");
    reveal_strlit(",\"p\":{}}\n\n");
    reveal_strlit("\":\"");
    assert("\":\""@ =~= seq!['"', ':', '"']);
    assert(end =~= seq!['}', '}', '\n', '\n']);
    assert(members(ds.push(d), values.push(value)) =~= ms.push(m));
    law_joined(ms, m, ',');
    assert(event_text(clock, ds, values).take(event_text(clock, ds, values).len() - 4) =~= front
        + joined(ms, ','));
    assert(members(Seq::empty(), values) =~= Seq::<Seq<char>>::empty());
    assert(event_text(clock, Seq::empty(), values) =~= "data: {\"c\":"@ + decimal(clock)
        + ",\"p\":{}}\n\n"@);
    if ds.len() == 0 {
        assert(event_text(clock, ds.push(d), values.push(value)) =~= front + joined(ms, ',')
            + Seq::<char>::empty() + m + end);
    } else {
        assert(event_text(clock, ds.push(d), values.push(value)) =~= front + joined(ms, ',')
            + seq![','] + m + end);
    }
}

proof fn lemma_dedup_push(
    last: Map<Seq<char>, Seq<char>>,
    pairs: Seq<(Seq<char>, Seq<char>)>,
    key: Seq<char>,
    raw: Seq<char>,
)
    ensures
        ({
            let (map, out) = deduplicated(last, pairs);
            deduplicated(last, pairs.push((key, raw))) == if map.contains_key(key) && map[key]
                == raw {
                (map, out)
            } else {
                (map.insert(key, raw), out.push((key, unescaped(raw))))
            }
        }),
    decreases pairs.len(),
{
    let all = pairs.push((key, raw));
    let none = Seq::<(Seq<char>, Seq<char>)>::empty();
    if pairs.len() == 0 {
        assert(all.skip(1) =~= none);
        assert(all[0] == (key, raw));
        assert(deduplicated(last, none) == (last, none));
        assert(deduplicated(last.insert(key, raw), none) == (last.insert(key, raw), none));
        assert(seq![(key, unescaped(raw))] + none =~= none.push((key, unescaped(raw))));
    } else {
        let (k, r) = pairs[0];
        assert(all[0] == pairs[0]);
        assert(all.skip(1) =~= pairs.skip(1).push((key, raw)));
        let same = last.contains_key(k) && last[k] == r;
        let next = if same {
            last
        } else {
            last.insert(k, r)
        };
        lemma_dedup_push(next, pairs.skip(1), key, raw);
        let first = seq![(k, unescaped(r))];
        let more = deduplicated(next, pairs.skip(1)).1;
        let p = (key, unescaped(raw));
        assert(first + more.push(p) =~= (first + more).push(p));
    }
}

/// One more pair of an event: where its value is the last one of its name it says nothing;
/// else it is one more change, with the value out of its quotes, and from then on the
/// last value of its name.
pub proof fn law_one_more_pair(
    last: Map<Seq<char>, Seq<char>>,
    pairs: Seq<(Seq<char>, Seq<char>)>,
    key: Seq<char>,
    raw: Seq<char>,
)
    ensures
        deduplicated(last, Seq::empty()) == (last, Seq::<(Seq<char>, Seq<char>)>::empty()),
        ({
            let (map, out) = deduplicated(last, pairs);
            deduplicated(last, pairs.push((key, raw))) == if map.contains_key(key) && map[key]
                == raw {
                (map, out)
            } else {
                (map.insert(key, raw), out.push((key, unescaped(raw))))
            }
        }),
{
    lemma_dedup_push(last, pairs, key, raw);
}

/// An event without the object `p` carries nothing.
pub proof fn law_no_object(data: Seq<char>)
    requires
        forall|i: int| 0 <= i <= data.len() - 5 ==> #[trigger] data.subrange(i, i + 5) != seq![
            '"',
            'p',
            '"',
            ':',
            '{',
        ],
    ensures
        event_pairs(data) == Some(Seq::<(Seq<char>, Seq<char>)>::empty()),
{
    let pat = "\"p\":{"@;
    reveal_strlit("\"p\":{");
    assert(pat =~= seq!['"', 'p', '"', ':', '{']);
    lemma_index_from(data, pat, 0);
    if index_of(data, pat) is Some {
        let i = index_of(data, pat)->0;
        law_find(data, pat, i);
    }
}

// ---- Reading an event, part by part -------------------------------------------

/// Between quotes: characters other than quotes and backslashes, and backslashes with a
/// character behind each.
pub open spec fn is_quotable(raw: Seq<char>) -> bool
    decreases raw.len(),
{
    if raw.len() == 0 {
        true
    } else if raw[0] == '\\' {
        raw.len() >= 2 && is_quotable(raw.skip(2))
    } else {
        raw[0] != '"' && is_quotable(raw.skip(1))
    }
}

proof fn lemma_quotable_end(s: Seq<char>, k: int, raw: Seq<char>)
    requires
        0 <= k,
        k + raw.len() <= s.len(),
        forall|i: int| 0 <= i < raw.len() ==> s[k + i] == #[trigger] raw[i],
        is_quotable(raw),
    ensures
        k + raw.len() == s.len() ==> quote_from(s, k) == s.len(),
        k + raw.len() < s.len() && s[k + raw.len()] == '"' ==> quote_from(s, k) == k + raw.len(),
        k + raw.len() + 1 == s.len() && s.last() == '\\' ==> quote_from(s, k) == s.len(),
    decreases raw.len(),
{
    if raw.len() > 0 {
        assert(s[k + 0] == raw[0]);
        let n: int = if raw[0] == '\\' {
            2
        } else {
            1
        };
        let rest = raw.skip(n);
        assert forall|i: int| 0 <= i < rest.len() implies s[k + n + i] == #[trigger] rest[i] by {
            assert(rest[i] == raw[i + n]);
            assert(s[k + (i + n)] == raw[i + n]);
        }
        lemma_quotable_end(s, k + n, rest);
    }
}

/// A member is a name and a value, each between quotes: a name goes up to the next quote, a
/// value up to the next one that no backslash escapes. What stands around them says
/// nothing; where a name or the beginning of a value is missing, there are no more members;
/// a value without an end is an error.
pub proof fn law_member_read(
    a: Seq<char>,
    key: Seq<char>,
    b: Seq<char>,
    raw: Seq<char>,
    rest: Seq<char>,
)
    requires
        !a.contains('"'),
        !key.contains('"'),
        !b.contains('"'),
        is_quotable(raw),
    ensures
        ({
            let q = seq!['"'];
            let opened = a + q + (key + q + (b + q + raw));
            let closed = a + q + (key + q + (b + q + (raw + q + rest)));
            &&& scanned(a) == Some(Seq::<(Seq<char>, Seq<char>)>::empty())
            &&& scanned(a + q + key) == Some(Seq::<(Seq<char>, Seq<char>)>::empty())
            &&& scanned(a + q + (key + q + b)) == Some(Seq::<(Seq<char>, Seq<char>)>::empty())
            &&& scanned(opened) is None
            &&& scanned(a + q + (key + q + (b + q + raw.push('\\')))) is None
            &&& scanned(closed) == match scanned(rest) {
                Some(more) => Some(seq![(key, raw)] + more),
                None => None,
            }
        }),
{
    let q = seq!['"'];
    lemma_absent(a, '"');
    lemma_absent(key, '"');
    lemma_absent(b, '"');
    // No member.
    lemma_first_after(a, '"', key);
    assert((a + q + key).skip(a.len() as int + 1) =~= key);
    lemma_first_after(a, '"', key + q + b);
    lemma_first_after(key, '"', b);
    assert((a + q + (key + q + b)).skip(a.len() as int + 1) =~= key + q + b);
    assert((key + q + b).skip(key.len() as int + 1) =~= b);
    lemma_member_value(a, key, b, raw);
    lemma_member_value(a, key, b, raw.push('\\'));
    lemma_member_value(a, key, b, raw + q + rest);
    lemma_quotable_end(raw, 0, raw);
    assert(raw.push('\\').last() == '\\');
    lemma_quotable_end(raw.push('\\'), 0, raw);
    let tail = raw + q + rest;
    assert(tail[raw.len() as int] == '"');
    lemma_quotable_end(tail, 0, raw);
    assert(tail.take(raw.len() as int) =~= raw);
    assert(tail.skip(raw.len() as int + 1) =~= rest);
}

/// What a member comes to, given what follows the quote before its value.
proof fn lemma_member_value(a: Seq<char>, key: Seq<char>, b: Seq<char>, from: Seq<char>)
    requires
        !a.contains('"'),
        !key.contains('"'),
        !b.contains('"'),
    ensures
        ({
            let q = seq!['"'];
            let end = quote_from(from, 0);
            scanned(a + q + (key + q + (b + q + from))) == if end >= from.len() {
                None
            } else {
                match scanned(from.skip(end + 1)) {
                    Some(more) => Some(seq![(key, from.take(end))] + more),
                    None => None,
                }
            }
        }),
{
    let q = seq!['"'];
    let s2 = b + q + from;
    let s1 = key + q + s2;
    let s0 = a + q + s1;
    lemma_first_after(a, '"', s1);
    lemma_first_after(key, '"', s2);
    lemma_first_after(b, '"', from);
    assert(s0.skip(a.len() as int + 1) =~= s1);
    assert(s1.take(key.len() as int) =~= key);
    assert(s1.skip(key.len() as int + 1) =~= s2);
    assert(s2.skip(b.len() as int + 1) =~= from);
    lemma_quote_from_bound(from, 0);
}

proof fn lemma_quote_from_bound(s: Seq<char>, k: int)
    requires
        0 <= k <= s.len(),
    ensures
        k <= quote_from(s, k) <= s.len(),
    decreases s.len() - k,
{
    if k < s.len() && s[k] != '"' {
        if s[k] != '\\' {
            lemma_quote_from_bound(s, k + 1);
        } else if k + 1 < s.len() {
            lemma_quote_from_bound(s, k + 2);
        }
    }
}

proof fn lemma_last_brace(inner: Seq<char>, back: Seq<char>, n: int)
    requires
        !back.contains('}'),
        inner.len() < n <= inner.len() + 1 + back.len(),
    ensures
        last_index(inner + seq!['}'] + back, '}', n) == Some(inner.len() as int),
    decreases n,
{
    let s = inner + seq!['}'] + back;
    if n - 1 > inner.len() {
        assert(s[n - 1] == back[n - 2 - inner.len()]);
        lemma_last_brace(inner, back, n - 1);
    }
}

proof fn lemma_no_brace(s: Seq<char>, n: int)
    requires
        !s.contains('}'),
        0 <= n <= s.len(),
    ensures
        last_index(s, '}', n) is None,
    decreases n,
{
    if n > 0 {
        assert(s[n - 1] != '}');
        lemma_no_brace(s, n - 1);
    }
}

/// What opens the object with the members.
pub open spec fn object_mark() -> Seq<char> {
    seq!['"', 'p', '"', ':', '{']
}

/// The members stand between the first `"p":{` and the last brace; where there is no brace
/// behind the one, an event carries nothing.
pub proof fn law_object_read(front: Seq<char>, inner: Seq<char>, back: Seq<char>)
    requires
        forall|i: int|
            0 <= i < front.len() ==> #[trigger] (front + object_mark()).subrange(i, i + 5)
                != object_mark(),
        !back.contains('}'),
    ensures
        event_pairs(front + object_mark() + (inner + seq!['}'] + back)) == scanned(
            inner,
        ),
        event_pairs(front + object_mark() + back) == Some(
            Seq::<(Seq<char>, Seq<char>)>::empty(),
        ),
{
    let object = inner + seq!['}'] + back;
    lemma_object_at(front, object);
    lemma_last_brace(inner, back, object.len() as int);
    assert(object.take(inner.len() as int) =~= inner);
    lemma_object_at(front, back);
    lemma_no_brace(back, back.len() as int);
}

#[verifier::spinoff_prover]
#[verifier::rlimit(40)]
proof fn lemma_object_at(front: Seq<char>, rest: Seq<char>)
    requires
        forall|i: int|
            0 <= i < front.len() ==> #[trigger] (front + object_mark()).subrange(i, i + 5)
                != object_mark(),
    ensures
        ({
            let data = front + object_mark() + rest;
            &&& index_of(data, "\"p\":{"@) == Some(front.len() as int)
            &&& data.skip(front.len() as int + 5) == rest
        }),
{
    let pat = "\"p\":{"@;
    reveal_strlit("\"p\":{");
    let p = object_mark();
    assert(pat =~= p);
    let data = front + p + rest;
    let n = front.len() as int;
    assert(occurs_at(data, pat, n));
    assert forall|j: int| 0 <= j < n implies !occurs_at(data, pat, j) by {
        if occurs_at(data, pat, j) {
            let part = (front + p).subrange(j, j + 5);
            assert forall|k: int| 0 <= k < 5 implies part[k] == p[k] by {
                assert(data[j + k] == pat[k]);
                assert((front + p)[j + k] == data[j + k]);
            }
            assert(part =~= p);
        }
    }
    lemma_index_of_is(data, pat, n);
    assert(data.skip(n + 5) =~= rest);
}

/// Of a line of the stream, the white space around it says nothing. Behind the head it
/// carries data where it begins with `data: `, and only there; in the head it carries
/// none, and a blank one ends the head.
pub proof fn law_stream_line(front: Seq<char>, text: Seq<char>, back: Seq<char>, data: Seq<char>)
    requires
        is_tight(text),
        all_white(front),
        all_white(back),
    ensures
        text == "data: "@ + data ==> line_data(front + text + back) == Some(data),
        (forall|d: Seq<char>| text != #[trigger] ("data: "@ + d)) ==> line_data(front + text + back)
            is None,
        line_data(back) is None,
        head_goes_on(true, front + text + back),
        !head_goes_on(true, back),
        !head_goes_on(false, front + text + back),
        !head_goes_on(false, back),
{
    lemma_trimmed_is(front, text, back);
    lemma_white_trimmed(back);
    if text == "data: "@ + data {
        lemma_own_prefix("data: "@, data);
    }
    if without_prefix(text, "data: "@) is Some {
        let d = without_prefix(text, "data: "@)->0;
        law_without_prefix(text, "data: "@, d);
        assert(text == "data: "@ + d);
    }
    assert(without_prefix(Seq::empty(), "data: "@) is None) by {
        reveal_strlit("data: ");
    }
}

} // verus!
