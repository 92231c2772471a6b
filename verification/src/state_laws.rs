//! What holds of the server's state: what a write changes and what it leaves, what
//! a poll brings, and that nothing is missed between two polls.
use vstd::prelude::*;
use vstd::utf8::valid_utf8;

use crate::config::DefModel;
use crate::number::{decimal, law_unsigned_round_trip, unsigned_value};
use crate::params::{param_line, param_lines};
use crate::server::{
    body_pairs, changed, changed_from, next_state, params_body, sse_due, values_body, Route,
};
use crate::state::{
    after_put, allows_unit, event_text, initial, interned, lemma_position_from, named_values, names,
    position, unknown_names, with_unit, with_units, with_value, with_values, StateModel,
};
use crate::text::{
    is_line_pair, law_pairs_round_trip, law_pairs_written, lemma_ended_lines_push, line_list,
    tab_pairs,
};

verus! {

// ---- Writes of values -------------------------------------------------------

/// The pair names parameter `i`.
pub open spec fn writes(ds: Seq<DefModel>, pair: (Seq<char>, Seq<char>), i: int) -> bool {
    position(names(ds), pair.0) == Some(i)
}

/// The last text that the pairs give for parameter `i`.
pub open spec fn last_write(
    ds: Seq<DefModel>,
    pairs: Seq<(Seq<char>, Seq<char>)>,
    i: int,
) -> Option<Seq<char>>
    decreases pairs.len(),
{
    if pairs.len() == 0 {
        None
    } else if last_write(ds, pairs.skip(1), i) is Some {
        last_write(ds, pairs.skip(1), i)
    } else if writes(ds, pairs[0], i) {
        Some(pairs[0].1)
    } else {
        None
    }
}

/// One value, unit and version for each parameter.
pub open spec fn sized(s: StateModel, ds: Seq<DefModel>) -> bool {
    s.values.len() == ds.len() && s.units.len() == ds.len() && s.versions.len() == ds.len()
}

proof fn lemma_with_values(s: StateModel, ds: Seq<DefModel>, pairs: Seq<(Seq<char>, Seq<char>)>)
    requires
        sized(s, ds),
    ensures
        sized(with_values(s, ds, pairs), ds),
        with_values(s, ds, pairs).clock == s.clock,
        with_values(s, ds, pairs).units == s.units,
        forall|i: int|
            #![trigger with_values(s, ds, pairs).values[i]]
            #![trigger with_values(s, ds, pairs).versions[i]]
            0 <= i < ds.len() ==> match last_write(ds, pairs, i) {
                Some(v) => with_values(s, ds, pairs).values[i] == interned(v, ds[i])
                    && with_values(s, ds, pairs).versions[i] == s.clock,
                None => with_values(s, ds, pairs).values[i] == s.values[i] && with_values(
                    s,
                    ds,
                    pairs,
                ).versions[i] == s.versions[i],
            },
    decreases pairs.len(),
{
    if pairs.len() > 0 {
        lemma_position_from(names(ds), pairs[0].0, 0);
        lemma_with_values(with_value(s, ds, pairs[0].0, pairs[0].1), ds, pairs.skip(1));
    }
}

/// A write moves the clock one on. A parameter that the pairs name has the last
/// value that they give for it, and the new clock as its version; any other
/// parameter has its value and its version as before. Units stay.
pub proof fn law_put(s: StateModel, ds: Seq<DefModel>, pairs: Seq<(Seq<char>, Seq<char>)>, i: int)
    requires
        s.wf(ds),
        s.clock < u64::MAX,
        0 <= i < ds.len(),
    ensures
        after_put(s, ds, pairs).clock == s.clock + 1,
        after_put(s, ds, pairs).units == s.units,
        match last_write(ds, pairs, i) {
            Some(v) => after_put(s, ds, pairs).values[i] == interned(v, ds[i]) && after_put(
                s,
                ds,
                pairs,
            ).versions[i] == s.clock + 1,
            None => after_put(s, ds, pairs).values[i] == s.values[i] && after_put(
                s,
                ds,
                pairs,
            ).versions[i] == s.versions[i],
        },
{
    let ticked = StateModel { clock: (s.clock + 1) as u64, ..s };
    lemma_with_values(ticked, ds, pairs);
}

/// The text of an option is kept as the decimal text of its place; the first one
/// where two are alike.
pub proof fn law_option_interned(def: DefModel, k: int)
    requires
        0 <= k < def.opts.len() <= usize::MAX,
        forall|j: int| 0 <= j < k ==> def.opts[j] != def.opts[k],
    ensures
        unsigned_value(interned(def.opts[k], def), usize::MAX as int) == Some(k),
        interned(def.opts[k], def) == decimal(k),
{
    lemma_position_from(def.opts, def.opts[k], 0);
    law_unsigned_round_trip(k, usize::MAX as int);
}

/// Interning a value that was interned keeps it, where no option is the decimal text of
/// another option's place.
pub proof fn law_interned_twice(val: Seq<char>, def: DefModel)
    requires
        forall|j: int, k: int|
            0 <= j < def.opts.len() && 0 <= k < def.opts.len() && #[trigger] def.opts[j]
                == #[trigger] decimal(k) ==> j == k,
    ensures
        interned(interned(val, def), def) == interned(val, def),
{
    lemma_position_from(def.opts, val, 0);
    match position(def.opts, val) {
        Some(k) => {
            lemma_position_from(def.opts, decimal(k), 0);
        },
        None => {},
    }
}

// ---- Writes of units --------------------------------------------------------

/// The last unit that the pairs give for parameter `i` and that it allows.
pub open spec fn last_unit(
    ds: Seq<DefModel>,
    pairs: Seq<(Seq<char>, Seq<char>)>,
    i: int,
) -> Option<Seq<char>>
    decreases pairs.len(),
{
    if pairs.len() == 0 {
        None
    } else if last_unit(ds, pairs.skip(1), i) is Some {
        last_unit(ds, pairs.skip(1), i)
    } else if writes(ds, pairs[0], i) && allows_unit(ds[i], pairs[0].1) {
        Some(pairs[0].1)
    } else {
        None
    }
}

/// A write of units changes no value, no version, no event and not the clock. A
/// parameter has the last unit that the pairs give for it and that it allows; where
/// there is none, its unit stays.
pub proof fn law_put_units(
    s: StateModel,
    ds: Seq<DefModel>,
    pairs: Seq<(Seq<char>, Seq<char>)>,
)
    requires
        sized(s, ds),
    ensures
        with_units(s, ds, pairs).values == s.values,
        with_units(s, ds, pairs).versions == s.versions,
        with_units(s, ds, pairs).clock == s.clock,
        with_units(s, ds, pairs).event == s.event,
        with_units(s, ds, pairs).units.len() == ds.len(),
        forall|i: int|
            0 <= i < ds.len() ==> #[trigger] with_units(s, ds, pairs).units[i] == match last_unit(
                ds,
                pairs,
                i,
            ) {
                Some(u) => Some(u),
                None => s.units[i],
            },
    decreases pairs.len(),
{
    if pairs.len() > 0 {
        lemma_position_from(names(ds), pairs[0].0, 0);
        law_put_units(with_unit(s, ds, pairs[0].0, pairs[0].1), ds, pairs.skip(1));
    }
}

// ---- Polls ------------------------------------------------------------------

/// A poll with the cursor that the last one returned brings nothing while nothing
/// is written.
pub proof fn law_caught_up(ds: Seq<DefModel>, s: StateModel)
    requires
        s.wf(ds),
    ensures
        changed(ds, s, s.clock as int) == Seq::<(Seq<char>, Seq<char>)>::empty(),
{
    lemma_none_changed(ds, s, 0);
}

proof fn lemma_none_changed(ds: Seq<DefModel>, s: StateModel, i: int)
    requires
        s.wf(ds),
        0 <= i <= ds.len(),
    ensures
        changed_from(ds, s, s.clock as int, i) == Seq::<(Seq<char>, Seq<char>)>::empty(),
    decreases ds.len() - i,
{
    if i < ds.len() {
        assert(s.versions[i] <= s.clock);
        lemma_none_changed(ds, s, i + 1);
    }
}

/// A poll from the beginning brings every parameter.
pub proof fn law_refresh(ds: Seq<DefModel>, s: StateModel)
    requires
        s.wf(ds),
    ensures
        changed(ds, s, 0) == named_values(ds, s.values),
{
    lemma_all_changed(ds, s, 0);
    assert(named_values(ds, s.values).skip(0) =~= named_values(ds, s.values));
}

proof fn lemma_all_changed(ds: Seq<DefModel>, s: StateModel, i: int)
    requires
        s.wf(ds),
        0 <= i <= ds.len(),
    ensures
        changed_from(ds, s, 0, i) == named_values(ds, s.values).skip(i),
    decreases ds.len() - i,
{
    let all = named_values(ds, s.values);
    if i < ds.len() {
        assert(1 <= s.versions[i]);
        lemma_all_changed(ds, s, i + 1);
        assert(all.skip(i) =~= seq![all[i]] + all.skip(i + 1));
    } else {
        assert(all.skip(i) =~= Seq::<(Seq<char>, Seq<char>)>::empty());
    }
}

/// A poll brings a name and a value where some parameter of that name and value has
/// a version past the cursor, and only there.
pub proof fn law_changed(
    ds: Seq<DefModel>,
    s: StateModel,
    cursor: int,
    pair: (Seq<char>, Seq<char>),
)
    ensures
        changed(ds, s, cursor).contains(pair) <==> exists|i: int|
            0 <= i < ds.len() && #[trigger] s.versions[i] > cursor && pair == (
                ds[i].name,
                s.values[i],
            ),
{
    lemma_changed_from(ds, s, cursor, pair, 0);
}

proof fn lemma_changed_from(
    ds: Seq<DefModel>,
    s: StateModel,
    cursor: int,
    pair: (Seq<char>, Seq<char>),
    k: int,
)
    requires
        0 <= k <= ds.len(),
    ensures
        changed_from(ds, s, cursor, k).contains(pair) <==> exists|i: int|
            k <= i < ds.len() && #[trigger] s.versions[i] > cursor && pair == (
                ds[i].name,
                s.values[i],
            ),
    decreases ds.len() - k,
{
    if k < ds.len() {
        let own = seq![(ds[k].name, s.values[k])];
        let more = changed_from(ds, s, cursor, k + 1);
        lemma_changed_from(ds, s, cursor, pair, k + 1);
        if s.versions[k] > cursor {
            assert(own[0] == (ds[k].name, s.values[k]));
            if (own + more).contains(pair) {
                let j = choose|j: int| 0 <= j < (own + more).len() && (own + more)[j] == pair;
                if j > 0 {
                    assert(more[j - 1] == pair);
                }
            }
            if pair == own[0] {
                assert((own + more)[0] == pair);
            }
            if more.contains(pair) {
                let j = choose|j: int| 0 <= j < more.len() && more[j] == pair;
                assert((own + more)[j + 1] == pair);
            }
        }
    }
}

/// What a poll brings is read back from the body that lists it, where every name
/// and value in it keeps its form as a line.
pub proof fn law_values_read(ds: Seq<DefModel>, s: StateModel, cursor: int)
    requires
        forall|k: int|
            0 <= k < changed(ds, s, cursor).len() ==> is_line_pair(
                #[trigger] changed(ds, s, cursor)[k],
            ),
    ensures
        tab_pairs(line_list(values_body(ds, s, cursor))) == changed(ds, s, cursor),
{
    law_pairs_round_trip(changed(ds, s, cursor));
}

// ---- Requests in a row ------------------------------------------------------

/// The state after the requests, each a route and a body, taken from the left.
pub open spec fn run(
    reqs: Seq<(Route, Seq<u8>)>,
    ds: Seq<DefModel>,
    s: StateModel,
) -> StateModel
    decreases reqs.len(),
{
    if reqs.len() == 0 {
        s
    } else {
        run(reqs.skip(1), ds, next_state(reqs[0].0, reqs[0].1, ds, s))
    }
}

proof fn lemma_next_put(s: StateModel, ds: Seq<DefModel>, pairs: Seq<(Seq<char>, Seq<char>)>)
    requires
        s.wf(ds),
        s.clock < u64::MAX,
    ensures
        after_put(s, ds, pairs).wf(ds),
{
    let t = after_put(s, ds, pairs);
    let ticked = StateModel { clock: (s.clock + 1) as u64, ..s };
    lemma_with_values(ticked, ds, pairs);
    assert forall|i: int| 0 <= i < ds.len() implies 1 <= #[trigger] t.versions[i] <= t.clock by {
        law_put(s, ds, pairs, i);
        assert(1 <= s.versions[i] <= s.clock);
    }
}

/// The request writes values: it moves the clock.
pub open spec fn is_write(req: (Route, Seq<u8>)) -> bool {
    req.0 is PutParams && valid_utf8(req.1)
}

/// How many of the requests write values.
pub open spec fn writes_among(reqs: Seq<(Route, Seq<u8>)>) -> nat
    decreases reqs.len(),
{
    if reqs.len() == 0 {
        0
    } else {
        let more = writes_among(reqs.skip(1));
        if is_write(reqs[0]) {
            more + 1
        } else {
            more
        }
    }
}

/// The request writes a value for parameter `i`.
pub open spec fn request_writes(req: (Route, Seq<u8>), ds: Seq<DefModel>, i: int) -> bool {
    is_write(req) && last_write(ds, body_pairs(req.1), i) is Some
}

/// One of the requests writes a value for parameter `i`.
pub open spec fn written(reqs: Seq<(Route, Seq<u8>)>, ds: Seq<DefModel>, i: int) -> bool
    decreases reqs.len(),
{
    reqs.len() > 0 && (request_writes(reqs[0], ds, i) || written(reqs.skip(1), ds, i))
}

/// The name, and the value in the state `t`, of each parameter from place `i` on that
/// the requests write.
pub open spec fn written_from(
    reqs: Seq<(Route, Seq<u8>)>,
    ds: Seq<DefModel>,
    t: StateModel,
    i: int,
) -> Seq<(Seq<char>, Seq<char>)>
    decreases ds.len() - i,
{
    if i < 0 || i >= ds.len() {
        Seq::empty()
    } else if written(reqs, ds, i) {
        seq![(ds[i].name, t.values[i])] + written_from(reqs, ds, t, i + 1)
    } else {
        written_from(reqs, ds, t, i + 1)
    }
}

/// The versions past the clock of `s` are those of the parameters that were written;
/// all else of the others is as it was.
spec fn moved_on(s: StateModel, t: StateModel, i: int, writes: bool) -> bool {
    &&& t.versions[i] > s.clock <==> writes
    &&& t.versions[i] >= s.versions[i]
    &&& !writes ==> t.versions[i] == s.versions[i] && t.values[i] == s.values[i]
}

proof fn lemma_next_state(req: (Route, Seq<u8>), ds: Seq<DefModel>, s: StateModel)
    requires
        s.wf(ds),
        is_write(req) ==> s.clock < u64::MAX,
    ensures
        next_state(req.0, req.1, ds, s).wf(ds),
        next_state(req.0, req.1, ds, s).clock == if is_write(req) {
            s.clock + 1
        } else {
            s.clock as int
        },
        forall|i: int|
            0 <= i < ds.len() ==> #[trigger] moved_on(
                s,
                next_state(req.0, req.1, ds, s),
                i,
                request_writes(req, ds, i),
            ),
{
    let t = next_state(req.0, req.1, ds, s);
    let pairs = body_pairs(req.1);
    if is_write(req) {
        lemma_next_put(s, ds, pairs);
        lemma_with_values(StateModel { clock: (s.clock + 1) as u64, ..s }, ds, pairs);
    }
    if valid_utf8(req.1) && req.0 is PutUnit {
        law_put_units(s, ds, pairs);
    }
    assert forall|i: int| 0 <= i < ds.len() implies #[trigger] moved_on(
        s,
        t,
        i,
        request_writes(req, ds, i),
    ) by {
        assert(1 <= s.versions[i] <= s.clock);
        if is_write(req) {
            law_put(s, ds, pairs, i);
        }
    }
}

proof fn lemma_run(reqs: Seq<(Route, Seq<u8>)>, ds: Seq<DefModel>, s: StateModel)
    requires
        s.wf(ds),
        s.clock + writes_among(reqs) <= u64::MAX,
    ensures
        run(reqs, ds, s).wf(ds),
        run(reqs, ds, s).clock == s.clock + writes_among(reqs),
        forall|i: int|
            0 <= i < ds.len() ==> #[trigger] moved_on(
                s,
                run(reqs, ds, s),
                i,
                written(reqs, ds, i),
            ),
    decreases reqs.len(),
{
    let t = run(reqs, ds, s);
    if reqs.len() > 0 {
        let m = next_state(reqs[0].0, reqs[0].1, ds, s);
        let rest = reqs.skip(1);
        lemma_next_state(reqs[0], ds, s);
        lemma_run(rest, ds, m);
        assert forall|i: int| 0 <= i < ds.len() implies #[trigger] moved_on(
            s,
            t,
            i,
            written(reqs, ds, i),
        ) by {
            assert(moved_on(s, m, i, request_writes(reqs[0], ds, i)));
            assert(moved_on(m, t, i, written(rest, ds, i)));
            assert(1 <= s.versions[i] <= s.clock);
        }
    } else {
        assert forall|i: int| 0 <= i < ds.len() implies #[trigger] moved_on(
            s,
            t,
            i,
            written(reqs, ds, i),
        ) by {
            assert(1 <= s.versions[i] <= s.clock);
        }
    }
}

proof fn lemma_changed_written(
    reqs: Seq<(Route, Seq<u8>)>,
    ds: Seq<DefModel>,
    s: StateModel,
    t: StateModel,
    k: int,
)
    requires
        0 <= k <= ds.len(),
        forall|i: int|
            0 <= i < ds.len() ==> (#[trigger] t.versions[i] > s.clock <==> written(reqs, ds, i)),
    ensures
        changed_from(ds, t, s.clock as int, k) == written_from(reqs, ds, t, k),
    decreases ds.len() - k,
{
    if k < ds.len() {
        assert(t.versions[k] > s.clock <==> written(reqs, ds, k));
        lemma_changed_written(reqs, ds, s, t, k + 1);
    }
}

/// Whatever requests come in, the clock counts the writes of values among them and the
/// versions never go back; a poll with the cursor of an earlier state brings exactly the
/// parameters that were written since, each once and in their order, with their current
/// values; and a parameter that was not written has its value and its version as before.
pub proof fn law_nothing_missed(
    reqs: Seq<(Route, Seq<u8>)>,
    ds: Seq<DefModel>,
    s: StateModel,
)
    requires
        s.wf(ds),
        s.clock + writes_among(reqs) <= u64::MAX,
    ensures
        run(reqs, ds, s).wf(ds),
        run(reqs, ds, s).clock == s.clock + writes_among(reqs),
        forall|i: int|
            0 <= i < ds.len() ==> s.versions[i] <= #[trigger] run(reqs, ds, s).versions[i],
        changed(ds, run(reqs, ds, s), s.clock as int) == written_from(
            reqs,
            ds,
            run(reqs, ds, s),
            0,
        ),
        forall|i: int|
            0 <= i < ds.len() && !#[trigger] written(reqs, ds, i) ==> run(reqs, ds, s).values[i]
                == s.values[i] && run(reqs, ds, s).versions[i] == s.versions[i],
{
    lemma_run(reqs, ds, s);
    let t = run(reqs, ds, s);
    assert forall|i: int| 0 <= i < ds.len() implies (#[trigger] t.versions[i] > s.clock <==> written(
        reqs,
        ds,
        i,
    )) && s.versions[i] <= t.versions[i] by {
        assert(moved_on(s, t, i, written(reqs, ds, i)));
    }
    assert forall|i: int| 0 <= i < ds.len() && !#[trigger] written(reqs, ds, i) implies t.values[i]
        == s.values[i] && t.versions[i] == s.versions[i] by {
        assert(moved_on(s, t, i, written(reqs, ds, i)));
    }
    lemma_changed_written(reqs, ds, s, t, 0);
}

/// A write reads back: where the pairs give a text for parameter `i`, it has the last one
/// (interned) as its value, as long as no other request writes it, and a poll from
/// before the write brings it. A text that is none of the options is kept as it is.
pub proof fn law_put_reads_back(
    s: StateModel,
    ds: Seq<DefModel>,
    pairs: Seq<(Seq<char>, Seq<char>)>,
    later: Seq<(Route, Seq<u8>)>,
    i: int,
)
    requires
        s.wf(ds),
        s.clock + 1 + writes_among(later) <= u64::MAX,
        0 <= i < ds.len(),
        last_write(ds, pairs, i) is Some,
        !written(later, ds, i),
    ensures
        ({
            let val = last_write(ds, pairs, i)->0;
            let t = run(later, ds, after_put(s, ds, pairs));
            &&& t.values[i] == interned(val, ds[i])
            &&& position(ds[i].opts, val) is None ==> t.values[i] == val
            &&& t.versions[i] == s.clock + 1
            &&& changed(ds, t, s.clock as int).contains((ds[i].name, t.values[i]))
        }),
{
    let m = after_put(s, ds, pairs);
    let t = run(later, ds, m);
    lemma_next_put(s, ds, pairs);
    law_put(s, ds, pairs, i);
    law_nothing_missed(later, ds, m);
    assert(!written(later, ds, i));
    assert(t.versions[i] > s.clock);
    law_changed(ds, t, s.clock as int, (ds[i].name, t.values[i]));
}

/// Nothing but a write changes the state, and a body that is no UTF-8 writes nothing.
pub proof fn law_reads_change_nothing(
    route: Route,
    body: Seq<u8>,
    ds: Seq<DefModel>,
    s: StateModel,
)
    requires
        !(route is PutParams || route is PutUnit) || !valid_utf8(body),
    ensures
        next_state(route, body, ds, s) == s,
{
}

/// The clock counts the writes of values; so a stream that has sent the event of an
/// earlier state is due again where there was a write since, and only there.
pub proof fn law_clock_counts(reqs: Seq<(Route, Seq<u8>)>, ds: Seq<DefModel>, s: StateModel)
    requires
        s.wf(ds),
        s.clock + writes_among(reqs) <= u64::MAX,
    ensures
        run(reqs, ds, s).clock == s.clock + writes_among(reqs),
        sse_due(s.clock, run(reqs, ds, s)) <==> writes_among(reqs) > 0,
{
    lemma_run(reqs, ds, s);
}

// ---- Streams ----------------------------------------------------------------

/// The states whose events a stream sends, where it has sent everything up to version
/// `cursor` and looks at the states in this order.
pub open spec fn sent(cursor: u64, looks: Seq<StateModel>) -> Seq<StateModel>
    decreases looks.len(),
{
    if looks.len() == 0 {
        Seq::empty()
    } else if sse_due(cursor, looks[0]) {
        seq![looks[0]] + sent(looks[0].clock, looks.skip(1))
    } else {
        sent(cursor, looks.skip(1))
    }
}

/// A stream sends events of the states that it sees, with strictly rising clocks: none
/// twice, and none of the version that it began behind or an earlier one.
pub proof fn law_stream_rises(cursor: u64, looks: Seq<StateModel>)
    ensures
        forall|k: int|
            0 <= k < sent(cursor, looks).len() ==> (#[trigger] sent(cursor, looks)[k]).clock
                > cursor && looks.contains(sent(cursor, looks)[k]),
        forall|j: int, k: int|
            0 <= j < k < sent(cursor, looks).len() ==> (#[trigger] sent(cursor, looks)[j]).clock < (
            #[trigger] sent(cursor, looks)[k]).clock,
    decreases looks.len(),
{
    if looks.len() > 0 {
        let all = sent(cursor, looks);
        let rest = looks.skip(1);
        let due = sse_due(cursor, looks[0]);
        let next = if due {
            looks[0].clock
        } else {
            cursor
        };
        let more = sent(next, rest);
        law_stream_rises(next, rest);
        assert forall|k: int| 0 <= k < more.len() implies looks.contains(#[trigger] more[k]) by {
            let j = choose|j: int| 0 <= j < rest.len() && rest[j] == more[k];
            assert(looks[j + 1] == more[k]);
        }
        if due {
            assert(all[0] == looks[0]);
            assert forall|k: int| 0 < k < all.len() implies #[trigger] all[k] == more[k - 1] by {}
            assert forall|k: int| 0 <= k < all.len() implies (#[trigger] all[k]).clock > cursor
                && looks.contains(all[k]) by {
                if k > 0 {
                    assert(all[k] == more[k - 1]);
                }
            }
            assert forall|j: int, k: int| 0 <= j < k < all.len() implies (#[trigger] all[j]).clock < (
            #[trigger] all[k]).clock by {
                assert(all[k] == more[k - 1]);
                if j > 0 {
                    assert(all[j] == more[j - 1]);
                }
            }
        }
    }
}

/// A stream that begins sends the event of the first state that it sees, without waiting
/// for a change; and where the clock never goes back, it has sent the newest version
/// that it saw.
pub proof fn law_stream_begins(ds: Seq<DefModel>, looks: Seq<StateModel>)
    requires
        looks.len() > 0,
        looks[0].wf(ds),
    ensures
        sent(0, looks).len() > 0,
        sent(0, looks)[0] == looks[0],
        (forall|j: int, k: int|
            0 <= j <= k < looks.len() ==> (#[trigger] looks[j]).clock <= (#[trigger] looks[k]).clock)
            ==> sent(0, looks).last().clock == looks.last().clock,
{
    let more = sent(looks[0].clock, looks.skip(1));
    assert(sent(0, looks) == seq![looks[0]] + more);
    if forall|j: int, k: int|
        0 <= j <= k < looks.len() ==> (#[trigger] looks[j]).clock <= (#[trigger] looks[k]).clock {
        let rest = looks.skip(1);
        assert forall|j: int, k: int| 0 <= j <= k < rest.len() implies (#[trigger] rest[j]).clock
            <= (#[trigger] rest[k]).clock by {
            assert(rest[j] == looks[j + 1] && rest[k] == looks[k + 1]);
        }
        assert forall|k: int| 0 <= k < rest.len() implies looks[0].clock
            <= (#[trigger] rest[k]).clock by {
            assert(rest[k] == looks[k + 1]);
        }
        lemma_newest_sent(looks[0].clock, rest);
        if rest.len() > 0 {
            assert(rest.last() == looks.last());
        }
    }
}

proof fn lemma_newest_sent(cursor: u64, looks: Seq<StateModel>)
    requires
        forall|j: int, k: int|
            0 <= j <= k < looks.len() ==> (#[trigger] looks[j]).clock <= (#[trigger] looks[k]).clock,
        forall|k: int| 0 <= k < looks.len() ==> cursor <= (#[trigger] looks[k]).clock,
    ensures
        looks.len() > 0 && looks.last().clock > cursor ==> sent(cursor, looks).len() > 0 && sent(
            cursor,
            looks,
        ).last().clock == looks.last().clock,
        !(looks.len() > 0 && looks.last().clock > cursor) ==> sent(cursor, looks).len() == 0,
    decreases looks.len(),
{
    if looks.len() > 0 {
        let rest = looks.skip(1);
        let due = sse_due(cursor, looks[0]);
        let next = if due {
            looks[0].clock
        } else {
            cursor
        };
        assert forall|j: int, k: int| 0 <= j <= k < rest.len() implies (#[trigger] rest[j]).clock
            <= (#[trigger] rest[k]).clock by {
            assert(rest[j] == looks[j + 1] && rest[k] == looks[k + 1]);
        }
        assert forall|k: int| 0 <= k < rest.len() implies next <= (#[trigger] rest[k]).clock by {
            assert(rest[k] == looks[k + 1]);
            assert(looks[0].clock <= looks[k + 1].clock);
        }
        lemma_newest_sent(next, rest);
        assert(looks[0].clock <= looks[looks.len() - 1].clock);
        if rest.len() > 0 {
            assert(rest.last() == looks.last());
        }
    }
}

// ---- The start ----------------------------------------------------------------

/// A server starts with every parameter at the default value and the unit of its
/// definition, whatever else that holds, at version one; the first poll and the first
/// event bring each name with its default value.
pub proof fn law_initial(ds: Seq<DefModel>)
    ensures
        initial(ds).wf(ds),
        initial(ds).clock == 1,
        initial(ds).values.len() == ds.len(),
        initial(ds).units.len() == ds.len(),
        initial(ds).versions.len() == ds.len(),
        forall|i: int| 0 <= i < ds.len() ==> #[trigger] initial(ds).values[i] == ds[i].default,
        forall|i: int| 0 <= i < ds.len() ==> #[trigger] initial(ds).units[i] == ds[i].unit,
        forall|i: int| 0 <= i < ds.len() ==> #[trigger] initial(ds).versions[i] == 1,
        changed(ds, initial(ds), 0) == Seq::new(ds.len(), |i: int| (ds[i].name, ds[i].default)),
        initial(ds).event == event_text(1, ds, Seq::new(ds.len(), |i: int| ds[i].default)),
{
    let s = initial(ds);
    law_refresh(ds, s);
    assert(s.values =~= Seq::new(ds.len(), |i: int| ds[i].default));
    assert(named_values(ds, s.values) =~= Seq::new(
        ds.len(),
        |i: int| (ds[i].name, ds[i].default),
    ));
}

// ---- One more write -----------------------------------------------------------

/// Parameter `i` is the first one of the name.
pub open spec fn is_named(ds: Seq<DefModel>, name: Seq<char>, i: int) -> bool {
    ds[i].name == name && forall|j: int| 0 <= j < i ==> (#[trigger] ds[j]).name != name
}

proof fn lemma_named(ds: Seq<DefModel>, name: Seq<char>, i: int)
    requires
        0 <= i < ds.len(),
    ensures
        is_named(ds, name, i) <==> position(names(ds), name) == Some(i),
{
    lemma_position_from(names(ds), name, 0);
    if position(names(ds), name) == Some(i) {
        assert(names(ds)[i] == ds[i].name);
        assert forall|j: int| 0 <= j < i implies (#[trigger] ds[j]).name != name by {
            assert(names(ds)[j] == ds[j].name);
        }
    }
    if is_named(ds, name, i) {
        assert(names(ds)[i] == name);
        if position(names(ds), name) is Some {
            let k = position(names(ds), name)->0;
            assert(names(ds)[k] == ds[k].name);
            if k < i {
                assert(ds[k].name != name);
            }
        }
    }
}

proof fn lemma_with_units_push(
    s: StateModel,
    ds: Seq<DefModel>,
    pairs: Seq<(Seq<char>, Seq<char>)>,
    p: (Seq<char>, Seq<char>),
)
    ensures
        with_units(s, ds, pairs.push(p)) == with_unit(with_units(s, ds, pairs), ds, p.0, p.1),
    decreases pairs.len(),
{
    let all = pairs.push(p);
    if pairs.len() == 0 {
        assert(all.skip(1) =~= Seq::<(Seq<char>, Seq<char>)>::empty());
        assert(with_units(with_unit(s, ds, p.0, p.1), ds, all.skip(1)) == with_unit(
            s,
            ds,
            p.0,
            p.1,
        ));
    } else {
        assert(all[0] == pairs[0]);
        assert(all.skip(1) =~= pairs.skip(1).push(p));
        lemma_with_units_push(with_unit(s, ds, pairs[0].0, pairs[0].1), ds, pairs.skip(1), p);
    }
}

proof fn lemma_with_values_push(
    s: StateModel,
    ds: Seq<DefModel>,
    pairs: Seq<(Seq<char>, Seq<char>)>,
    p: (Seq<char>, Seq<char>),
)
    ensures
        with_values(s, ds, pairs.push(p)) == with_value(with_values(s, ds, pairs), ds, p.0, p.1),
    decreases pairs.len(),
{
    let all = pairs.push(p);
    if pairs.len() == 0 {
        assert(all.skip(1) =~= Seq::<(Seq<char>, Seq<char>)>::empty());
        assert(with_values(with_value(s, ds, p.0, p.1), ds, all.skip(1)) == with_value(
            s,
            ds,
            p.0,
            p.1,
        ));
    } else {
        assert(all[0] == pairs[0]);
        assert(all.skip(1) =~= pairs.skip(1).push(p));
        lemma_with_values_push(with_value(s, ds, pairs[0].0, pairs[0].1), ds, pairs.skip(1), p);
    }
}

/// One more unit written: where the parameter lists no conversions, it becomes the unit of
/// the parameter, whatever unit that had or is configured with; where it lists some, it
/// does if it is the name of one of them, and is ignored if not. No other parameter has
/// another unit.
pub proof fn law_unit_written(
    s: StateModel,
    ds: Seq<DefModel>,
    pairs: Seq<(Seq<char>, Seq<char>)>,
    name: Seq<char>,
    unit: Seq<char>,
    i: int,
)
    requires
        sized(s, ds),
        0 <= i < ds.len(),
    ensures
        with_units(s, ds, Seq::empty()) == s,
        ({
            let before = with_units(s, ds, pairs).units[i];
            let after = with_units(s, ds, pairs.push((name, unit))).units[i];
            let conv = ds[i].unit_conv;
            &&& is_named(ds, name, i) && conv.len() == 0 ==> after == Some(unit)
            &&& is_named(ds, name, i) && (exists|k: int|
                0 <= k < conv.len() && (#[trigger] conv[k]).0 == unit) ==> after == Some(unit)
            &&& is_named(ds, name, i) && conv.len() > 0 && (forall|k: int|
                0 <= k < conv.len() ==> (#[trigger] conv[k]).0 != unit) ==> after == before
            &&& !is_named(ds, name, i) ==> after == before
        }),
{
    lemma_named(ds, name, i);
    law_put_units(s, ds, pairs);
    lemma_with_units_push(s, ds, pairs, (name, unit));
    lemma_position_from(names(ds), name, 0);
}

/// One more value written: the parameter of the name has it as its value, as the place of
/// the option with that text where there is one, and the new clock as its version. No
/// other parameter has another value or version. The event carries the new clock and the
/// values as they are then. A write of nothing leaves all values.
pub proof fn law_value_written(
    s: StateModel,
    ds: Seq<DefModel>,
    pairs: Seq<(Seq<char>, Seq<char>)>,
    name: Seq<char>,
    val: Seq<char>,
    i: int,
)
    requires
        s.wf(ds),
        s.clock < u64::MAX,
        0 <= i < ds.len(),
    ensures
        after_put(s, ds, Seq::empty()).values == s.values,
        after_put(s, ds, Seq::empty()).versions == s.versions,
        ({
            let before = after_put(s, ds, pairs);
            let after = after_put(s, ds, pairs.push((name, val)));
            let opts = ds[i].opts;
            &&& after.clock == s.clock + 1
            &&& after.event == event_text(s.clock + 1, ds, after.values)
            &&& is_named(ds, name, i) ==> after.versions[i] == s.clock + 1
            &&& is_named(ds, name, i) && (forall|k: int|
                0 <= k < opts.len() ==> #[trigger] opts[k] != val) ==> after.values[i] == val
            &&& forall|k: int|
                is_named(ds, name, i) && 0 <= k < opts.len() && opts[k] == val && (forall|j: int|
                    0 <= j < k ==> opts[j] != val) ==> after.values[i] == #[trigger] decimal(k)
            &&& !is_named(ds, name, i) ==> after.values[i] == before.values[i]
                && after.versions[i] == before.versions[i]
        }),
{
    let ticked = StateModel { clock: (s.clock + 1) as u64, ..s };
    let opts = ds[i].opts;
    lemma_named(ds, name, i);
    lemma_with_values(ticked, ds, pairs);
    lemma_with_values_push(ticked, ds, pairs, (name, val));
    lemma_position_from(names(ds), name, 0);
    lemma_position_from(opts, val, 0);
}

/// The names among the pairs that are no parameter's are told, in their order.
pub proof fn law_unknown_names(
    ds: Seq<DefModel>,
    pairs: Seq<(Seq<char>, Seq<char>)>,
    name: Seq<char>,
    val: Seq<char>,
)
    ensures
        unknown_names(ds, Seq::empty()) == Seq::<Seq<char>>::empty(),
        (exists|i: int| 0 <= i < ds.len() && (#[trigger] ds[i]).name == name) ==> unknown_names(
            ds,
            pairs.push((name, val)),
        ) == unknown_names(ds, pairs),
        (forall|i: int| 0 <= i < ds.len() ==> (#[trigger] ds[i]).name != name) ==> unknown_names(
            ds,
            pairs.push((name, val)),
        ) == unknown_names(ds, pairs).push(name),
    decreases pairs.len(),
{
    let all = pairs.push((name, val));
    let none = Seq::<(Seq<char>, Seq<char>)>::empty();
    lemma_position_from(names(ds), name, 0);
    assert(position(names(ds), name) is Some <==> exists|i: int|
        0 <= i < ds.len() && (#[trigger] ds[i]).name == name) by {
        if exists|i: int| 0 <= i < ds.len() && (#[trigger] ds[i]).name == name {
            let i = choose|i: int| 0 <= i < ds.len() && (#[trigger] ds[i]).name == name;
            assert(names(ds)[i] == name);
        }
        if position(names(ds), name) is Some {
            let k = position(names(ds), name)->0;
            assert(ds[k].name == names(ds)[k]);
        }
    }
    if pairs.len() == 0 {
        assert(all.skip(1) =~= none);
        assert(unknown_names(ds, none) =~= Seq::<Seq<char>>::empty());
        assert(unknown_names(ds, all) =~= if position(names(ds), name) is Some {
            unknown_names(ds, pairs)
        } else {
            unknown_names(ds, pairs).push(name)
        });
    } else {
        law_unknown_names(ds, pairs.skip(1), name, val);
        assert(all[0] == pairs[0]);
        assert(all.skip(1) =~= pairs.skip(1).push((name, val)));
        assert(unknown_names(ds, all) =~= if position(names(ds), name) is Some {
            unknown_names(ds, pairs)
        } else {
            unknown_names(ds, pairs).push(name)
        });
    }
}

// ---- One more parameter -------------------------------------------------------

/// The state with one more parameter's value, unit and version.
pub open spec fn one_more(
    s: StateModel,
    value: Seq<char>,
    unit: Option<Seq<char>>,
    version: u64,
) -> StateModel {
    StateModel {
        values: s.values.push(value),
        units: s.units.push(unit),
        versions: s.versions.push(version),
        ..s
    }
}

proof fn lemma_changed_push(
    ds: Seq<DefModel>,
    s: StateModel,
    d: DefModel,
    value: Seq<char>,
    unit: Option<Seq<char>>,
    version: u64,
    cursor: int,
    i: int,
)
    requires
        sized(s, ds),
        0 <= i <= ds.len(),
    ensures
        changed_from(ds.push(d), one_more(s, value, unit, version), cursor, i) == if version
            > cursor {
            changed_from(ds, s, cursor, i).push((d.name, value))
        } else {
            changed_from(ds, s, cursor, i)
        },
    decreases ds.len() - i,
{
    let all = ds.push(d);
    let t = one_more(s, value, unit, version);
    let n = ds.len() as int;
    if i == n {
        assert(changed_from(all, t, cursor, n + 1) == Seq::<(Seq<char>, Seq<char>)>::empty());
        assert(changed_from(ds, s, cursor, n) == Seq::<(Seq<char>, Seq<char>)>::empty());
        assert(all[n] == d && t.values[n] == value && t.versions[n] == version);
        assert(seq![(d.name, value)] + Seq::<(Seq<char>, Seq<char>)>::empty() =~= Seq::<
            (Seq<char>, Seq<char>),
        >::empty().push((d.name, value)));
    } else {
        lemma_changed_push(ds, s, d, value, unit, version, cursor, i + 1);
        assert(all[i] == ds[i] && t.values[i] == s.values[i] && t.versions[i] == s.versions[i]);
        let first = seq![(ds[i].name, s.values[i])];
        let more = changed_from(ds, s, cursor, i + 1);
        assert(first + more.push((d.name, value)) =~= (first + more).push((d.name, value)));
    }
}

/// A poll brings the parameters in their order: one more parameter is one more pair at the
/// end, its name and its value, where its version is past the cursor.
pub proof fn law_changed_in_order(
    ds: Seq<DefModel>,
    s: StateModel,
    d: DefModel,
    value: Seq<char>,
    unit: Option<Seq<char>>,
    version: u64,
    cursor: int,
)
    requires
        sized(s, ds),
    ensures
        changed(Seq::empty(), s, cursor) == Seq::<(Seq<char>, Seq<char>)>::empty(),
        changed(ds.push(d), one_more(s, value, unit, version), cursor) == if version > cursor {
            changed(ds, s, cursor).push((d.name, value))
        } else {
            changed(ds, s, cursor)
        },
        values_body(ds.push(d), one_more(s, value, unit, version), cursor) == if version > cursor {
            values_body(ds, s, cursor) + d.name + seq!['\t'] + value + seq!['\n']
        } else {
            values_body(ds, s, cursor)
        },
{
    lemma_changed_push(ds, s, d, value, unit, version, cursor, 0);
    law_pairs_written(changed(ds, s, cursor), d.name, value);
}

/// The descriptions come in the order of the parameters, a line for each with its current
/// unit.
pub proof fn law_params_in_order(
    ds: Seq<DefModel>,
    s: StateModel,
    d: DefModel,
    value: Seq<char>,
    unit: Option<Seq<char>>,
    version: u64,
)
    requires
        sized(s, ds),
    ensures
        params_body(Seq::empty(), s) == Seq::<char>::empty(),
        params_body(ds.push(d), one_more(s, value, unit, version)) == params_body(ds, s)
            + param_line(d, unit) + seq!['\n'],
{
    let ls = param_lines(ds, s.units);
    assert(param_lines(Seq::empty(), s.units) =~= Seq::<Seq<char>>::empty());
    lemma_ended_lines_push(ls, param_line(d, unit));
    assert(param_lines(ds.push(d), s.units.push(unit)) =~= ls.push(param_line(d, unit)));
}

} // verus!
