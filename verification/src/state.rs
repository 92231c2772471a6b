//! The server's state: the current values and units of the parameters, and the
//! event that carries them to the clients.
use vstd::prelude::*;

use crate::config::{defs, DefModel, ParamDef};
use crate::number::{decimal, decimal_text};
use crate::text::{chars_of, join, joined, opt_text, replace, replaced, string_of, text_pairs, texts};

verus! {

// ---- Names and options ------------------------------------------------------

/// First place at or after `from` that holds `x`.
pub open spec fn position_from(list: Seq<Seq<char>>, x: Seq<char>, from: int) -> Option<int>
    decreases list.len() - from,
{
    if from < 0 || from >= list.len() {
        None
    } else if list[from] == x {
        Some(from)
    } else {
        position_from(list, x, from + 1)
    }
}

/// First place that holds `x`.
pub open spec fn position(list: Seq<Seq<char>>, x: Seq<char>) -> Option<int> {
    position_from(list, x, 0)
}

/// The names of the parameters.
pub open spec fn names(ds: Seq<DefModel>) -> Seq<Seq<char>> {
    Seq::new(ds.len(), |i: int| ds[i].name)
}

/// The name and value of each parameter.
pub open spec fn named_values(ds: Seq<DefModel>, values: Seq<Seq<char>>) -> Seq<
    (Seq<char>, Seq<char>),
> {
    Seq::new(ds.len(), |i: int| (ds[i].name, values[i]))
}

pub proof fn lemma_position_from(list: Seq<Seq<char>>, x: Seq<char>, from: int)
    requires
        0 <= from,
    ensures
        match position_from(list, x, from) {
            Some(i) => from <= i < list.len() && list[i] == x && forall|j: int|
                from <= j < i ==> list[j] != x,
            None => forall|j: int| from <= j < list.len() ==> list[j] != x,
        },
    decreases list.len() - from,
{
    if from < list.len() && list[from] != x {
        lemma_position_from(list, x, from + 1);
    }
}

/// First option that is `val`.
fn find_option(opts: &Vec<String>, val: &String) -> (r: Option<usize>)
    ensures
        match r {
            Some(i) => position(texts(opts@), val@) == Some(i as int),
            None => position(texts(opts@), val@) is None,
        },
{
    let mut i: usize = 0;
    while i < opts.len()
        invariant
            i <= opts@.len(),
            position(texts(opts@), val@) == position_from(texts(opts@), val@, i as int),
        decreases opts@.len() - i,
    {
        assert(texts(opts@)[i as int] == opts@[i as int]@);
        if opts[i] == *val {
            return Some(i);
        }
        i += 1;
    }
    None
}

/// First parameter with the given name.
pub fn find_param(params: &Vec<ParamDef>, name: &String) -> (r: Option<usize>)
    ensures
        match r {
            Some(i) => i < params@.len() && position(names(defs(params@)), name@) == Some(
                i as int,
            ),
            None => position(names(defs(params@)), name@) is None,
        },
{
    let mut i: usize = 0;
    while i < params.len()
        invariant
            i <= params@.len(),
            position(names(defs(params@)), name@) == position_from(
                names(defs(params@)),
                name@,
                i as int,
            ),
        decreases params@.len() - i,
    {
        assert(names(defs(params@))[i as int] == params@[i as int].name@);
        if params[i].name == *name {
            return Some(i);
        }
        i += 1;
    }
    None
}

/// The value that is kept for `val`: the index of the option with that text, or
/// the text itself.
pub open spec fn interned(val: Seq<char>, def: DefModel) -> Seq<char> {
    match position(def.opts, val) {
        Some(i) => decimal(i),
        None => val,
    }
}

/// The value that is kept for `val`.
pub fn intern_value(val: &str, param: &ParamDef) -> (r: String)
    ensures
        r@ == interned(val@, param@),
{
    let own = val.to_owned();
    match find_option(&param.opts, &own) {
        Some(i) => decimal_text(i as u64),
        None => own,
    }
}

// ---- The event --------------------------------------------------------------

/// A value as it stands between quotes: backslashes and quotes behind a backslash.
pub open spec fn escaped(v: Seq<char>) -> Seq<char> {
    replaced(replaced(v, "\\"@, "\\\\"@), "\""@, "\\\""@)
}

/// A name and its value as a member of an object.
pub open spec fn member_text(name: Seq<char>, value: Seq<char>) -> Seq<char> {
    seq!['"'] + name + "\":\""@ + escaped(value) + seq!['"']
}

pub open spec fn members(ds: Seq<DefModel>, values: Seq<Seq<char>>) -> Seq<Seq<char>> {
    Seq::new(ds.len(), |i: int| member_text(ds[i].name, values[i]))
}

/// The event that carries the clock and all values.
pub open spec fn event_text(clock: int, ds: Seq<DefModel>, values: Seq<Seq<char>>) -> Seq<char> {
    "data: {\"c\":"@ + decimal(clock) + ",\"p\":{"@ + joined(members(ds, values), ',') + "}}\n\n"@
}

fn escape(v: &str) -> (r: String)
    ensures
        r@ == escaped(v@),
{
    proof {
        reveal_strlit("\\");
        reveal_strlit("\"");
    }
    let chars = chars_of(v);
    let once = replace(chars.as_slice(), "\\", "\\\\");
    let twice = replace(once.as_slice(), "\"", "\\\"");
    string_of(twice.as_slice())
}

/// The event that carries the clock and all values.
pub fn build_sse_event(s: &State, params: &Vec<ParamDef>) -> (r: String)
    requires
        s.values@.len() >= params@.len(),
    ensures
        r@ == event_text(s.clock as int, defs(params@), texts(s.values@)),
{
    let ghost all = members(defs(params@), texts(s.values@));
    let mut parts: Vec<String> = Vec::new();
    let mut i: usize = 0;
    while i < params.len()
        invariant
            s.values@.len() >= params@.len(),
            i <= params@.len(),
            all == members(defs(params@), texts(s.values@)),
            texts(parts@) == all.take(i as int),
        decreases params@.len() - i,
    {
        let ghost before = parts@;
        let mut m = String::new();
        m.push('"');
        m.append(params[i].name.as_str());
        m.append("\":\"");
        let v = escape(s.values[i].as_str());
        m.append(v.as_str());
        m.push('"');
        assert(m@ =~= all[i as int]);
        parts.push(m);
        assert(texts(parts@) =~= texts(before).push(m@));
        assert(all.take(i + 1) =~= all.take(i as int).push(all[i as int]));
        i += 1;
    }
    assert(all.take(i as int) =~= all);
    let mut ev = String::new();
    ev.append("data: {\"c\":");
    let digits = decimal_text(s.clock);
    ev.append(digits.as_str());
    ev.append(",\"p\":{");
    let list = join(&parts, ',');
    ev.append(list.as_str());
    ev.append("}}\n\n");
    assert(ev@ =~= event_text(s.clock as int, defs(params@), texts(s.values@)));
    ev
}

// ---- The state --------------------------------------------------------------

/// Current values and units, each parameter's version, and the event that carries
/// the values.
pub struct State {
    pub values: Vec<String>,
    pub units: Vec<Option<String>>,
    pub versions: Vec<u64>,
    pub clock: u64,
    pub sse_event: String,
}

/// What the state holds.
#[verifier::ext_equal]
pub struct StateModel {
    pub values: Seq<Seq<char>>,
    pub units: Seq<Option<Seq<char>>>,
    pub versions: Seq<u64>,
    pub clock: u64,
    pub event: Seq<char>,
}

/// The texts held by a list of optional strings.
pub open spec fn opt_texts(v: Seq<Option<String>>) -> Seq<Option<Seq<char>>> {
    Seq::new(v.len(), |i: int| opt_text(v[i]))
}

impl View for State {
    type V = StateModel;

    open spec fn view(&self) -> StateModel {
        StateModel {
            values: texts(self.values@),
            units: opt_texts(self.units@),
            versions: self.versions@,
            clock: self.clock,
            event: self.sse_event@,
        }
    }
}

impl StateModel {
    /// One value, unit and version for each parameter; no version is ahead of the
    /// clock; the event carries the current clock and values.
    pub open spec fn wf(self, ds: Seq<DefModel>) -> bool {
        &&& self.values.len() == ds.len()
        &&& self.units.len() == ds.len()
        &&& self.versions.len() == ds.len()
        &&& self.clock >= 1
        &&& forall|i: int|
            0 <= i < ds.len() ==> 1 <= #[trigger] self.versions[i] <= self.clock
        &&& self.event == event_text(self.clock as int, ds, self.values)
    }
}

/// The state that a server starts with.
pub open spec fn initial(ds: Seq<DefModel>) -> StateModel {
    let values = Seq::new(ds.len(), |i: int| ds[i].default);
    StateModel {
        values,
        units: Seq::new(ds.len(), |i: int| ds[i].unit),
        versions: Seq::new(ds.len(), |i: int| 1u64),
        clock: 1,
        event: event_text(1, ds, values),
    }
}

impl State {
    /// Every parameter at its default value and unit, at version one.
    pub fn new(params: &Vec<ParamDef>) -> (s: State)
        ensures
            s@ == initial(defs(params@)),
            s@.wf(defs(params@)),
            s.values@.len() == params@.len(),
            s.units@.len() == params@.len(),
            forall|i: int|
                0 <= i < params@.len() ==> (#[trigger] s.values@[i])@ == params@[i].default@,
            forall|i: int|
                0 <= i < params@.len() ==> match (#[trigger] s.units@[i]) {
                    Some(u) => params@[i].unit is Some && u@ == (params@[i].unit->0)@,
                    None => params@[i].unit is None,
                },
            s.versions@ == Seq::new(params@.len(), |i: int| 1u64),
            s.clock == 1,
    {
        let mut values: Vec<String> = Vec::new();
        let mut units: Vec<Option<String>> = Vec::new();
        let mut versions: Vec<u64> = Vec::new();
        let ghost ds = defs(params@);
        let mut i: usize = 0;
        while i < params.len()
            invariant
                i <= params@.len(),
                ds == defs(params@),
                texts(values@) == initial(ds).values.take(i as int),
                opt_texts(units@) == initial(ds).units.take(i as int),
                versions@ == initial(ds).versions.take(i as int),
            decreases params@.len() - i,
        {
            let ghost values0 = values@;
            let ghost units0 = units@;
            let v = params[i].default.clone();
            let u = match &params[i].unit {
                Some(u) => Some(u.clone()),
                None => None,
            };
            values.push(v);
            units.push(u);
            versions.push(1);
            proof {
                assert(ds[i as int] == params@[i as int]@);
                assert(opt_text(u) == ds[i as int].unit);
                assert(texts(values@) =~= texts(values0).push(v@));
                assert(opt_texts(units@) =~= opt_texts(units0).push(opt_text(u)));
                assert(initial(ds).values.take(i + 1) =~= initial(ds).values.take(i as int).push(
                    ds[i as int].default,
                ));
                assert(initial(ds).units.take(i + 1) =~= initial(ds).units.take(i as int).push(
                    ds[i as int].unit,
                ));
                assert(initial(ds).versions.take(i + 1) =~= initial(ds).versions.take(
                    i as int,
                ).push(1u64));
            }
            i += 1;
        }
        assert(initial(ds).values.take(i as int) =~= initial(ds).values);
        assert(initial(ds).units.take(i as int) =~= initial(ds).units);
        assert(initial(ds).versions.take(i as int) =~= initial(ds).versions);
        let mut s = State { values, units, versions, clock: 1, sse_event: String::new() };
        s.sse_event = build_sse_event(&s, params);
        proof {
            assert forall|i: int| 0 <= i < params@.len() implies (#[trigger] s.values@[i])@
                == params@[i].default@ by {
                assert(texts(s.values@)[i] == initial(ds).values[i]);
            }
            assert forall|i: int| 0 <= i < params@.len() implies match (#[trigger] s.units@[i]) {
                Some(u) => params@[i].unit is Some && u@ == (params@[i].unit->0)@,
                None => params@[i].unit is None,
            } by {
                assert(opt_texts(s.units@)[i] == initial(ds).units[i]);
            }
        }
        s
    }
}

// ---- Updates ----------------------------------------------------------------

/// The state with a new value for the parameter `name`, if there is one.
pub open spec fn with_value(
    s: StateModel,
    ds: Seq<DefModel>,
    name: Seq<char>,
    val: Seq<char>,
) -> StateModel {
    match position(names(ds), name) {
        Some(i) => StateModel {
            values: s.values.update(i, interned(val, ds[i])),
            versions: s.versions.update(i, s.clock),
            ..s
        },
        None => s,
    }
}

/// The state with the new values, taken from the left.
pub open spec fn with_values(
    s: StateModel,
    ds: Seq<DefModel>,
    pairs: Seq<(Seq<char>, Seq<char>)>,
) -> StateModel
    decreases pairs.len(),
{
    if pairs.len() == 0 {
        s
    } else {
        with_values(with_value(s, ds, pairs[0].0, pairs[0].1), ds, pairs.skip(1))
    }
}

/// The state after one write of values: the clock goes one on, the values written
/// have the new clock as their version, and the event carries the outcome.
pub open spec fn after_put(
    s: StateModel,
    ds: Seq<DefModel>,
    pairs: Seq<(Seq<char>, Seq<char>)>,
) -> StateModel {
    let ticked = StateModel { clock: (s.clock + 1) as u64, ..s };
    let written = with_values(ticked, ds, pairs);
    StateModel { event: event_text(written.clock as int, ds, written.values), ..written }
}

/// The names among the pairs that are no parameter's.
pub open spec fn unknown_names(
    ds: Seq<DefModel>,
    pairs: Seq<(Seq<char>, Seq<char>)>,
) -> Seq<Seq<char>>
    decreases pairs.len(),
{
    if pairs.len() == 0 {
        Seq::empty()
    } else if position(names(ds), pairs[0].0) is None {
        seq![pairs[0].0] + unknown_names(ds, pairs.skip(1))
    } else {
        unknown_names(ds, pairs.skip(1))
    }
}

/// A definition allows the units that it lists conversions to; any unit where it lists
/// none.
pub open spec fn allows_unit(def: DefModel, unit: Seq<char>) -> bool {
    def.unit_conv.len() == 0 || exists|k: int|
        0 <= k < def.unit_conv.len() && (#[trigger] def.unit_conv[k]).0 == unit
}

/// The state with a new unit for the parameter `name`, if there is one and it
/// allows the unit.
pub open spec fn with_unit(
    s: StateModel,
    ds: Seq<DefModel>,
    name: Seq<char>,
    unit: Seq<char>,
) -> StateModel {
    match position(names(ds), name) {
        Some(i) => if allows_unit(ds[i], unit) {
            StateModel { units: s.units.update(i, Some(unit)), ..s }
        } else {
            s
        },
        None => s,
    }
}

/// The state with the new units, taken from the left.
pub open spec fn with_units(
    s: StateModel,
    ds: Seq<DefModel>,
    pairs: Seq<(Seq<char>, Seq<char>)>,
) -> StateModel
    decreases pairs.len(),
{
    if pairs.len() == 0 {
        s
    } else {
        with_units(with_unit(s, ds, pairs[0].0, pairs[0].1), ds, pairs.skip(1))
    }
}

fn unit_allowed(param: &ParamDef, unit: &String) -> (r: bool)
    ensures
        r == allows_unit(param@, unit@),
{
    if param.unit_conv.len() == 0 {
        return true;
    }
    let mut k: usize = 0;
    while k < param.unit_conv.len()
        invariant
            k <= param.unit_conv@.len(),
            forall|j: int| 0 <= j < k ==> (#[trigger] param@.unit_conv[j]).0 != unit@,
        decreases param.unit_conv@.len() - k,
    {
        assert(param@.unit_conv[k as int].0 == param.unit_conv@[k as int].0@);
        if param.unit_conv[k].0 == *unit {
            return true;
        }
        k += 1;
    }
    false
}

impl State {
    fn set_value(&mut self, i: usize, v: String)
        requires
            i < old(self).values@.len(),
            i < old(self).versions@.len(),
        ensures
            final(self)@ == (StateModel {
                values: old(self)@.values.update(i as int, v@),
                versions: old(self)@.versions.update(i as int, old(self)@.clock),
                ..old(self)@
            }),
    {
        self.values.set(i, v);
        self.versions.set(i, self.clock);
        assert(self@.values =~= old(self)@.values.update(i as int, v@));
    }

    /// Writes values: pairs of a name and a value, in their order. Returns the
    /// names that are no parameter's.
    pub fn put_values(
        &mut self,
        params: &Vec<ParamDef>,
        pairs: &Vec<(String, String)>,
    ) -> (unknown: Vec<String>)
        requires
            old(self)@.wf(defs(params@)),
            old(self).clock < u64::MAX,
        ensures
            final(self)@ == after_put(old(self)@, defs(params@), text_pairs(pairs@)),
            final(self)@.wf(defs(params@)),
            texts(unknown@) == unknown_names(defs(params@), text_pairs(pairs@)),
    {
        let ghost ds = defs(params@);
        let ghost ps = text_pairs(pairs@);
        let mut unknown: Vec<String> = Vec::new();
        self.clock = self.clock + 1;
        let ghost ticked = self@;
        let mut i: usize = 0;
        assert(ps.skip(0) =~= ps);
        assert(texts(unknown@) + unknown_names(ds, ps) =~= unknown_names(ds, ps));
        while i < pairs.len()
            invariant
                i <= pairs@.len(),
                ds == defs(params@),
                ps == text_pairs(pairs@),
                self@.values.len() == ds.len(),
                self@.units.len() == ds.len(),
                self@.versions.len() == ds.len(),
                self@.clock == ticked.clock,
                ticked.clock >= 1,
                forall|k: int| 0 <= k < ds.len() ==> 1 <= #[trigger] self@.versions[k] <= ticked.clock,
                with_values(ticked, ds, ps) == with_values(self@, ds, ps.skip(i as int)),
                unknown_names(ds, ps) == texts(unknown@) + unknown_names(ds, ps.skip(i as int)),
            decreases pairs@.len() - i,
        {
            let ghost before = unknown@;
            let ghost tail = ps.skip(i as int);
            assert(tail[0] == ps[i as int]);
            assert(tail.skip(1) =~= ps.skip(i + 1));
            match find_param(params, &pairs[i].0) {
                Some(k) => {
                    assert(ds[k as int] == params@[k as int]@);
                    let v = intern_value(pairs[i].1.as_str(), &params[k]);
                    self.set_value(k, v);
                },
                None => {
                    let name = pairs[i].0.clone();
                    unknown.push(name);
                    assert(texts(unknown@) =~= texts(before).push(name@));
                    assert(texts(before) + (seq![name@] + unknown_names(ds, ps.skip(i + 1)))
                        =~= texts(unknown@) + unknown_names(ds, ps.skip(i + 1)));
                },
            }
            i += 1;
        }
        assert(texts(unknown@) + unknown_names(ds, ps.skip(i as int)) =~= texts(unknown@));
        self.sse_event = build_sse_event(self, params);
        unknown
    }

    /// Writes units: pairs of a name and a unit, in their order. A unit that the
    /// parameter does not allow is ignored.
    pub fn put_units(&mut self, params: &Vec<ParamDef>, pairs: &Vec<(String, String)>)
        requires
            old(self)@.wf(defs(params@)),
        ensures
            final(self)@ == with_units(old(self)@, defs(params@), text_pairs(pairs@)),
            final(self)@.wf(defs(params@)),
    {
        let ghost ds = defs(params@);
        let ghost ps = text_pairs(pairs@);
        let ghost start = self@;
        let mut i: usize = 0;
        assert(ps.skip(0) =~= ps);
        while i < pairs.len()
            invariant
                i <= pairs@.len(),
                ds == defs(params@),
                ps == text_pairs(pairs@),
                self@.wf(ds),
                with_units(start, ds, ps) == with_units(self@, ds, ps.skip(i as int)),
            decreases pairs@.len() - i,
        {
            let ghost before = self@;
            let ghost tail = ps.skip(i as int);
            assert(tail[0] == ps[i as int]);
            assert(tail.skip(1) =~= ps.skip(i + 1));
            if let Some(k) = find_param(params, &pairs[i].0) {
                assert(ds[k as int] == params@[k as int]@);
                if unit_allowed(&params[k], &pairs[i].1) {
                    let unit = pairs[i].1.clone();
                    self.units.set(k, Some(unit));
                    assert(self@.units =~= before.units.update(k as int, Some(unit@)));
                }
            }
            i += 1;
        }
    }
}

} // verus!
