//! What a configuration script leaves behind, and the configuration that it gives.
use vstd::prelude::*;

use crate::config::{defs, result_of, Config, ConfigError, ConfigModel, DefModel, ParamDef};
use crate::number::{
    denotes_float, is_float_word, law_float_only, law_float_read, law_words_are_floats,
    signed_decimal, signed_text, FloatParts,
};
use crate::params::{float_field, valid_def};
use crate::text::{chars_of, opt_text, texts};

verus! {

/// A default value as a script gives it.
pub enum ScriptValue {
    /// A floating-point number, as its decimal text.
    Number(String),
    Integer(i64),
    Text(String),
    Other,
}

/// An entry of `params` as a script gives it: its name and its default value, and for
/// each of the other keys what reading it came to.
pub struct ParamEntry {
    pub name: String,
    pub default: ScriptValue,
    pub min: Result<String, ConfigError>,
    pub max: Result<String, ConfigError>,
    pub prec: Result<Option<u32>, ConfigError>,
    pub unit: Result<String, ConfigError>,
    pub opts: Result<Vec<String>, ConfigError>,
}

/// What a script leaves behind: what reading `max_sse_hz` in `settings` came to, and
/// what reading `params` came to.
pub struct Script {
    pub settings: Result<Result<String, ConfigError>, ConfigError>,
    pub params: Result<Vec<ParamEntry>, ConfigError>,
}

#[verifier::ext_equal]
pub enum ValueModel {
    Number(Seq<char>),
    Integer(int),
    Text(Seq<char>),
    Other,
}

#[verifier::ext_equal]
pub struct EntryModel {
    pub name: Seq<char>,
    pub default: ValueModel,
    pub min: Result<Seq<char>, Seq<char>>,
    pub max: Result<Seq<char>, Seq<char>>,
    pub prec: Result<Option<u32>, Seq<char>>,
    pub unit: Result<Seq<char>, Seq<char>>,
    pub opts: Result<Seq<Seq<char>>, Seq<char>>,
}

#[verifier::ext_equal]
pub struct ScriptModel {
    pub settings: Result<Result<Seq<char>, Seq<char>>, Seq<char>>,
    pub params: Result<Seq<EntryModel>, Seq<char>>,
}

impl View for ScriptValue {
    type V = ValueModel;

    open spec fn view(&self) -> ValueModel {
        match self {
            ScriptValue::Number(s) => ValueModel::Number(s@),
            ScriptValue::Integer(n) => ValueModel::Integer(*n as int),
            ScriptValue::Text(s) => ValueModel::Text(s@),
            ScriptValue::Other => ValueModel::Other,
        }
    }
}

/// The text, or the message of the error.
pub open spec fn text_result(r: Result<String, ConfigError>) -> Result<Seq<char>, Seq<char>> {
    match r {
        Ok(s) => Ok(s@),
        Err(e) => Err(e.message@),
    }
}

/// The texts, or the message of the error.
pub open spec fn texts_result(r: Result<Vec<String>, ConfigError>) -> Result<
    Seq<Seq<char>>,
    Seq<char>,
> {
    match r {
        Ok(v) => Ok(texts(v@)),
        Err(e) => Err(e.message@),
    }
}

impl View for ParamEntry {
    type V = EntryModel;

    open spec fn view(&self) -> EntryModel {
        EntryModel {
            name: self.name@,
            default: self.default@,
            min: text_result(self.min),
            max: text_result(self.max),
            prec: match self.prec {
                Ok(n) => Ok(n),
                Err(e) => Err(e.message@),
            },
            unit: text_result(self.unit),
            opts: texts_result(self.opts),
        }
    }
}

/// What the entries hold.
pub open spec fn entries(v: Seq<ParamEntry>) -> Seq<EntryModel> {
    Seq::new(v.len(), |i: int| v[i]@)
}

/// What the entries hold, or the message of the error.
pub open spec fn entries_result(r: Result<Vec<ParamEntry>, ConfigError>) -> Result<
    Seq<EntryModel>,
    Seq<char>,
> {
    match r {
        Ok(v) => Ok(entries(v@)),
        Err(e) => Err(e.message@),
    }
}

/// What reading the settings came to.
pub open spec fn settings_result(r: Result<Result<String, ConfigError>, ConfigError>) -> Result<
    Result<Seq<char>, Seq<char>>,
    Seq<char>,
> {
    match r {
        Ok(hz) => Ok(text_result(hz)),
        Err(e) => Err(e.message@),
    }
}

impl View for Script {
    type V = ScriptModel;

    open spec fn view(&self) -> ScriptModel {
        ScriptModel {
            settings: settings_result(self.settings),
            params: entries_result(self.params),
        }
    }
}

/// The text of a default value; a value that is neither a number nor a text counts
/// as zero.
pub open spec fn default_text(v: ValueModel) -> Seq<char> {
    match v {
        ValueModel::Number(s) => s,
        ValueModel::Integer(n) => signed_decimal(n),
        ValueModel::Text(s) => s,
        ValueModel::Other => "0"@,
    }
}

/// What was read, where reading it succeeded.
pub open spec fn given(r: Result<Seq<char>, Seq<char>>) -> Option<Seq<char>> {
    match r {
        Ok(s) => Some(s),
        Err(_) => None,
    }
}

/// A bound, where it could be read and its text denotes a floating-point number.
pub open spec fn bound(r: Result<Seq<char>, Seq<char>>) -> Option<Seq<char>> {
    match r {
        Ok(s) => float_field(s),
        Err(_) => None,
    }
}

/// The definition that an entry gives; whatever could not be read counts as not given.
pub open spec fn entry_def(e: EntryModel) -> DefModel {
    DefModel {
        name: e.name,
        default: default_text(e.default),
        min: bound(e.min),
        max: bound(e.max),
        step: None,
        opts: match e.opts {
            Ok(v) => v,
            Err(_) => Seq::empty(),
        },
        prec: match e.prec {
            Ok(Some(n)) => Some(n as int),
            _ => None,
        },
        unit: given(e.unit),
        unit_conv: Seq::empty(),
    }
}

/// The definitions that the entries give.
pub open spec fn entry_defs(v: Seq<EntryModel>) -> Seq<DefModel> {
    Seq::new(v.len(), |i: int| entry_def(v[i]))
}

/// The configuration that a script gives: its settings where it has any, and a
/// definition for each entry.
pub open spec fn script_config(s: ScriptModel) -> Result<ConfigModel, Seq<char>> {
    match s.params {
        Err(e) => Err(e),
        Ok(v) => Ok(
            ConfigModel {
                max_sse_hz: match s.settings {
                    Ok(Ok(hz)) => hz,
                    _ => "30"@,
                },
                params: entry_defs(v),
            },
        ),
    }
}

fn take_bound(v: Result<String, ConfigError>) -> (r: Option<String>)
    ensures
        opt_text(r) == bound(text_result(v)),
{
    match v {
        Ok(s) => {
            let chars = chars_of(s.as_str());
            if denotes_float(chars.as_slice()) {
                Some(s)
            } else {
                None
            }
        },
        Err(_) => None,
    }
}

/// The definition that an entry gives.
pub fn define(e: ParamEntry) -> (d: ParamDef)
    ensures
        d@ == entry_def(e@),
        valid_def(d@),
        d.name@ == e.name@,
        d.default@ == (match e.default {
            ScriptValue::Number(s) => s@,
            ScriptValue::Integer(n) => signed_decimal(n as int),
            ScriptValue::Text(s) => s@,
            ScriptValue::Other => "0"@,
        }),
        d.min is Some ==> e.min is Ok && (d.min->0)@ == (e.min->Ok_0)@,
        d.max is Some ==> e.max is Ok && (d.max->0)@ == (e.max->Ok_0)@,
        d.step is None,
        match e.prec {
            Ok(Some(n)) => d.prec == Some(n as usize),
            _ => d.prec is None,
        },
        match e.unit {
            Ok(u) => d.unit is Some && (d.unit->0)@ == u@,
            Err(_) => d.unit is None,
        },
        match e.opts {
            Ok(v) => d.opts@ == v@,
            Err(_) => d.opts@.len() == 0,
        },
        d.unit_conv@.len() == 0,
{
    let default = match e.default {
        ScriptValue::Number(s) => s,
        ScriptValue::Integer(n) => signed_text(n),
        ScriptValue::Text(s) => s,
        ScriptValue::Other => "0".to_owned(),
    };
    let opts = match e.opts {
        Ok(v) => v,
        Err(_) => Vec::new(),
    };
    assert(texts(Seq::<String>::empty()) =~= Seq::<Seq<char>>::empty());
    let d = ParamDef {
        name: e.name,
        default,
        min: take_bound(e.min),
        max: take_bound(e.max),
        step: None,
        opts,
        prec: match e.prec {
            Ok(Some(n)) => Some(n as usize),
            _ => None,
        },
        unit: e.unit.ok(),
        unit_conv: Vec::new(),
    };
    assert(d@.unit_conv =~= Seq::<(Seq<char>, int)>::empty());
    d
}

/// The configuration that a script gives.
pub fn build_config(script: Script) -> (r: Result<Config, ConfigError>)
    ensures
        result_of(r) == script_config(script@),
        r is Ok ==> (r->Ok_0)@.wf(),
        r is Ok <==> script.params is Ok,
        r is Ok ==> (r->Ok_0).params@.len() == (script.params->Ok_0)@.len(),
        r is Ok ==> (r->Ok_0).max_sse_hz@ == (match script.settings {
            Ok(Ok(hz)) => hz@,
            _ => "30"@,
        }),
{
    let given = match script.params {
        Ok(v) => v,
        Err(e) => return Err(e),
    };
    let ghost all = entries(given@);
    let mut params: Vec<ParamDef> = Vec::new();
    assert(entry_defs(all).take(0) =~= defs(params@));
    for entry in it: given
        invariant
            all == entries(it.seq()),
            defs(params@) == entry_defs(all).take(it.index() as int),
            forall|k: int| 0 <= k < params@.len() ==> valid_def(#[trigger] defs(params@)[k]),
    {
        let ghost sofar = defs(params@);
        assert(entry@ == all[it.index() as int]);
        let d = define(entry);
        params.push(d);
        proof {
            assert(defs(params@) =~= sofar.push(d@));
            assert(entry_defs(all).take(it.index() as int + 1) =~= sofar.push(d@));
            assert forall|k: int| 0 <= k < params@.len() implies valid_def(
                #[trigger] defs(params@)[k],
            ) by {
                if k < sofar.len() {
                    assert(defs(params@)[k] == sofar[k]);
                }
            }
        }
    }
    assert(defs(params@) =~= entry_defs(all));
    let mut cfg = Config::default();
    if let Ok(Ok(hz)) = script.settings {
        cfg.max_sse_hz = hz;
    }
    cfg.params = params;
    Ok(cfg)
}

// ---- What a script defines ---------------------------------------------------

/// A definition has the name of its entry, and the default value that was read as it is: a
/// text is that text, a number its decimal text, anything else zero; whatever the other
/// keys hold. What could be read of precision, unit and options it has too, and what
/// could not be read it does not have.
pub proof fn law_entry_defined(e: EntryModel)
    ensures
        entry_def(e).name == e.name,
        match e.default {
            ValueModel::Text(s) => entry_def(e).default == s,
            ValueModel::Number(s) => entry_def(e).default == s,
            ValueModel::Integer(n) => entry_def(e).default == signed_decimal(n),
            ValueModel::Other => entry_def(e).default == seq!['0'],
        },
        match e.prec {
            Ok(Some(n)) => entry_def(e).prec == Some(n as int),
            Ok(None) => entry_def(e).prec is None,
            Err(_) => entry_def(e).prec is None,
        },
        match e.unit {
            Ok(u) => entry_def(e).unit == Some(u),
            Err(_) => entry_def(e).unit is None,
        },
        match e.opts {
            Ok(v) => entry_def(e).opts == v,
            Err(_) => entry_def(e).opts.len() == 0,
        },
        entry_def(e).step is None,
        entry_def(e).unit_conv.len() == 0,
{
    reveal_strlit("0");
    assert("0"@ =~= seq!['0']);
}

/// A bound that was read with the text of a floating-point number is the definition's, with
/// that text.
pub proof fn law_bounds_defined(e: EntryModel, p: FloatParts)
    requires
        p.valid(),
    ensures
        e.min == Ok::<Seq<char>, Seq<char>>(p.text()) ==> entry_def(e).min == Some(p.text()),
        e.max == Ok::<Seq<char>, Seq<char>>(p.text()) ==> entry_def(e).max == Some(p.text()),
{
    law_float_read(p);
}

/// A definition has no bound but one that was read, with the text of a floating-point
/// number.
pub proof fn law_bounds_only(e: EntryModel)
    ensures
        entry_def(e).min is Some ==> e.min == Ok::<Seq<char>, Seq<char>>(entry_def(e).min->0) && (
        is_float_word(entry_def(e).min->0) || exists|p: FloatParts| #[trigger]
            p.valid() && p.text() == entry_def(e).min->0),
        entry_def(e).max is Some ==> e.max == Ok::<Seq<char>, Seq<char>>(entry_def(e).max->0) && (
        is_float_word(entry_def(e).max->0) || exists|p: FloatParts| #[trigger]
            p.valid() && p.text() == entry_def(e).max->0),
        (e.min is Ok && is_float_word(e.min->Ok_0)) ==> entry_def(e).min == Some(e.min->Ok_0),
        (e.max is Ok && is_float_word(e.max->Ok_0)) ==> entry_def(e).max == Some(e.max->Ok_0),
{
    if entry_def(e).min is Some {
        law_float_only(entry_def(e).min->0);
    }
    if entry_def(e).max is Some {
        law_float_only(entry_def(e).max->0);
    }
    if e.min is Ok && is_float_word(e.min->Ok_0) {
        law_words_are_floats(e.min->Ok_0);
    }
    if e.max is Ok && is_float_word(e.max->Ok_0) {
        law_words_are_floats(e.max->Ok_0);
    }
}

/// A script whose entries could be read gives one definition for each, in their order; one
/// whose entries could not be read is refused with the same message. The rate is the
/// one in the settings, or thirty.
pub proof fn law_script_config(s: ScriptModel)
    ensures
        match s.params {
            Ok(v) => {
                &&& script_config(s) is Ok
                &&& (script_config(s)->Ok_0).params.len() == v.len()
                &&& forall|i: int|
                    0 <= i < v.len() ==> #[trigger] (script_config(s)->Ok_0).params[i] == entry_def(
                        v[i],
                    )
                &&& match s.settings {
                    Ok(Ok(hz)) => (script_config(s)->Ok_0).max_sse_hz == hz,
                    Ok(Err(_)) => (script_config(s)->Ok_0).max_sse_hz == seq!['3', '0'],
                    Err(_) => (script_config(s)->Ok_0).max_sse_hz == seq!['3', '0'],
                }
            },
            Err(m) => script_config(s) == Err::<ConfigModel, Seq<char>>(m),
        },
{
    reveal_strlit("30");
    assert("30"@ =~= seq!['3', '0']);
}

} // verus!
