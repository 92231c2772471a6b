//! Parameter definitions, and the configuration that lists them.
//!
//! A configuration is a Lua script that sets the global `params`, and may set
//! `settings`; or plain text with a name and a default value on each line.
use vstd::prelude::*;

use crate::lua::{can_come_to, outcome_of, run_script};
use crate::params::{conversions, valid_def};
use crate::plain::{parse_text, text_config};
use crate::script::{build_config, entry_def, script_config, Script, ScriptModel};
use crate::text::{opt_text, texts};

verus! {

// ---- Definitions ------------------------------------------------------------

/// A parameter as the configuration defines it.
///
/// The bounds and the step are kept as the decimal text of a floating-point
/// number.
pub struct ParamDef {
    pub name: String,
    pub default: String,
    pub min: Option<String>,
    pub max: Option<String>,
    pub step: Option<String>,
    pub opts: Vec<String>,
    pub prec: Option<usize>,
    pub unit: Option<String>,
    pub unit_conv: Vec<(String, i32)>,
}

/// What a parameter definition holds.
#[verifier::ext_equal]
pub struct DefModel {
    pub name: Seq<char>,
    pub default: Seq<char>,
    pub min: Option<Seq<char>>,
    pub max: Option<Seq<char>>,
    pub step: Option<Seq<char>>,
    pub opts: Seq<Seq<char>>,
    pub prec: Option<int>,
    pub unit: Option<Seq<char>>,
    pub unit_conv: Seq<(Seq<char>, int)>,
}

impl View for ParamDef {
    type V = DefModel;

    open spec fn view(&self) -> DefModel {
        DefModel {
            name: self.name@,
            default: self.default@,
            min: opt_text(self.min),
            max: opt_text(self.max),
            step: opt_text(self.step),
            opts: texts(self.opts@),
            prec: match self.prec {
                Some(n) => Some(n as int),
                None => None,
            },
            unit: opt_text(self.unit),
            unit_conv: conversions(self.unit_conv@),
        }
    }
}

/// What a list of definitions holds.
pub open spec fn defs(v: Seq<ParamDef>) -> Seq<DefModel> {
    Seq::new(v.len(), |i: int| v[i]@)
}

/// A configuration. The highest rate of events is kept as the decimal text of a
/// floating-point number.
pub struct Config {
    pub max_sse_hz: String,
    pub params: Vec<ParamDef>,
}

/// What a configuration holds.
#[verifier::ext_equal]
pub struct ConfigModel {
    pub max_sse_hz: Seq<char>,
    pub params: Seq<DefModel>,
}

impl View for Config {
    type V = ConfigModel;

    open spec fn view(&self) -> ConfigModel {
        ConfigModel { max_sse_hz: self.max_sse_hz@, params: defs(self.params@) }
    }
}

impl ConfigModel {
    /// The numbers of all definitions are such as their types allow.
    pub open spec fn wf(self) -> bool {
        forall|i: int| 0 <= i < self.params.len() ==> valid_def(#[trigger] self.params[i])
    }
}

impl Default for Config {
    /// Thirty events a second, and no parameter.
    fn default() -> (c: Config)
        ensures
            c@ == (ConfigModel { max_sse_hz: "30"@, params: Seq::empty() }),
    {
        let c = Config { max_sse_hz: "30".to_owned(), params: Vec::new() };
        assert(c@.params =~= Seq::<DefModel>::empty());
        c
    }
}

/// Why a configuration was refused.
pub struct ConfigError {
    pub message: String,
}

/// What a result says.
pub open spec fn result_of(r: Result<Config, ConfigError>) -> Result<ConfigModel, Seq<char>> {
    match r {
        Ok(c) => Ok(c@),
        Err(e) => Err(e.message@),
    }
}
// ---- Reading a configuration ------------------------------------------------

/// The configuration that `src` gives, where running it as a script came to
/// `outcome`: what the script gives; where it is refused as a script, what it gives
/// as plain text; else the error.
pub open spec fn settled(
    src: Seq<char>,
    outcome: Result<ScriptModel, Seq<char>>,
) -> Result<ConfigModel, Seq<char>> {
    let scripted = match outcome {
        Ok(script) => script_config(script),
        Err(message) => Err(message),
    };
    match scripted {
        Ok(c) => Ok(c),
        Err(message) => match text_config(src) {
            Some(c) => Ok(c),
            None => Err(message),
        },
    }
}

/// The configuration that `src` gives, where running it as a script came to
/// `outcome`.
pub fn settle(src: &str, outcome: Result<Script, ConfigError>) -> (r: Result<Config, ConfigError>)
    ensures
        result_of(r) == settled(src@, outcome_of(outcome)),
        r is Ok ==> (r->Ok_0)@.wf(),
{
    let scripted = match outcome {
        Ok(script) => build_config(script),
        Err(e) => Err(e),
    };
    match scripted {
        Ok(c) => Ok(c),
        Err(e) => match parse_text(src) {
            Some(c) => Ok(c),
            None => Err(e),
        },
    }
}

/// The configuration that `src` gives. What it gives as a script rests on how the
/// script runs; whatever that comes to, the result is what `settle` makes of it.
pub fn parse(src: &str) -> (r: Result<Config, ConfigError>)
    ensures
        exists|outcome: Result<ScriptModel, Seq<char>>|
            #[trigger] can_come_to(src@, outcome) && result_of(r) == settled(src@, outcome),
        r is Ok ==> (r->Ok_0)@.wf(),
        text_config(src@) is Some ==> r is Ok,
{
    let outcome = run_script(src);
    let ghost o = outcome_of(outcome);
    let r = settle(src, outcome);
    assert(can_come_to(src@, o) && result_of(r) == settled(src@, o));
    r
}

// ---- What a configuration comes to -------------------------------------------

/// A script that ran and whose entries could be read gives the configuration, one
/// definition for each entry; else plain text does, where it is such; else the message
/// of the script is the error.
pub proof fn law_settled(src: Seq<char>, outcome: Result<ScriptModel, Seq<char>>)
    ensures
        match outcome {
            Ok(script) => match script.params {
                Ok(v) => {
                    &&& settled(src, outcome) == script_config(script)
                    &&& settled(src, outcome) is Ok
                    &&& (settled(src, outcome)->Ok_0).params.len() == v.len()
                    &&& forall|i: int|
                        0 <= i < v.len() ==> #[trigger] (settled(src, outcome)->Ok_0).params[i]
                            == entry_def(v[i])
                    &&& (script.settings matches Ok(Ok(hz)) ==> (settled(
                        src,
                        outcome,
                    )->Ok_0).max_sse_hz == hz)
                },
                Err(m) => settled(src, outcome) == or_text(src, m),
            },
            Err(m) => settled(src, outcome) == or_text(src, m),
        },
{
}

/// What plain text gives, or the message.
pub open spec fn or_text(src: Seq<char>, message: Seq<char>) -> Result<ConfigModel, Seq<char>> {
    match text_config(src) {
        Some(c) => Ok(c),
        None => Err(message),
    }
}

} // verus!
