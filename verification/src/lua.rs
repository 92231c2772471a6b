//! Configuration scripts, run by a Lua interpreter.
use vstd::prelude::*;

use crate::config::ConfigError;
use crate::script::{
    entries, entries_result, settings_result, text_result, texts_result, EntryModel, ParamEntry,
    Script, ScriptModel, ScriptValue, ValueModel,
};
use crate::text::{opt_text, texts};

verus! {

// ---- The interpreter --------------------------------------------------------

/// A Lua interpreter.
#[verifier::external_type_specification]
#[verifier::external_body]
pub struct ExLua(mlua::Lua);

/// A handle to a table inside an interpreter.
#[verifier::external_type_specification]
#[verifier::external_body]
pub struct ExLuaTable(mlua::Table);

/// An error of the interpreter.
#[verifier::external_type_specification]
#[verifier::external_body]
pub struct ExLuaError(mlua::Error);

/// What one reading of a table came to: a value of the kind that was asked for, or the
/// message of the error.
pub enum Reading {
    Table(Result<mlua::Table, Seq<char>>),
    Number(Result<Seq<char>, Seq<char>>),
    Text(Result<Seq<char>, Seq<char>>),
    Count(Result<Option<u32>, Seq<char>>),
    Value(Result<ValueModel, Seq<char>>),
}

/// What one look at a place of a table came to: a value of the kind that was asked
/// for, nothing, or the message of the error.
pub enum Slot {
    Table(Result<Option<mlua::Table>, Seq<char>>),
    Text(Result<Option<Seq<char>>, Seq<char>>),
}

/// The message of an error.
pub uninterp spec fn message_of(e: mlua::Error) -> Seq<char>;

/// The interpreter is as it was made: it has run nothing.
pub uninterp spec fn is_fresh(lua: mlua::Lua) -> bool;

/// The scripts that can be run in an interpreter as it is, each with what a run of it
/// can come to, and with the interpreter as the run leaves it.
pub uninterp spec fn runs(lua: mlua::Lua) -> Set<(Seq<char>, Result<(), Seq<char>>, mlua::Lua)>;

/// The table of an interpreter's global variables.
pub uninterp spec fn globals_of(lua: mlua::Lua) -> mlua::Table;

/// The table is one of the interpreter's; a handle to it can be used as long as the
/// interpreter is there.
pub uninterp spec fn belongs(t: mlua::Table, lua: mlua::Lua) -> bool;

/// The keys that a table can be read at, each with what a reading can come to.
pub uninterp spec fn readings(t: mlua::Table) -> Set<(Seq<char>, Reading)>;

/// The places of a table, counted from one, each with what a look at it can come to.
pub uninterp spec fn slots(t: mlua::Table) -> Set<(int, Slot)>;

/// The value, or the message of the error.
pub open spec fn lua_result<T>(r: Result<T, mlua::Error>) -> Result<T, Seq<char>> {
    match r {
        Ok(v) => Ok(v),
        Err(e) => Err(message_of(e)),
    }
}

/// The text, or the message of the error.
pub open spec fn lua_text(r: Result<String, mlua::Error>) -> Result<Seq<char>, Seq<char>> {
    match r {
        Ok(s) => Ok(s@),
        Err(e) => Err(message_of(e)),
    }
}

/// The value, or the message of the error.
pub open spec fn lua_value(r: Result<ScriptValue, mlua::Error>) -> Result<ValueModel, Seq<char>> {
    match r {
        Ok(v) => Ok(v@),
        Err(e) => Err(message_of(e)),
    }
}

/// `Display` of `mlua::Error`: the message of the error. Nothing is said of its words.
#[verifier::external_body]
fn error_text(e: &mlua::Error) -> (r: String)
    ensures
        r@ == message_of(*e),
{
    e.to_string()
}

/// `mlua::Lua::new`: a fresh interpreter with the standard libraries that are safe.
/// Nothing is said of those.
#[verifier::external_body]
fn new_lua() -> (lua: mlua::Lua)
    ensures
        is_fresh(lua),
{
    mlua::Lua::new()
}

/// `mlua::Chunk::exec`: runs the script in the interpreter. A script may do what the
/// standard libraries let it do, read files and the clock among other things, and
/// need not come to an end; so no more is said of the outcome than that it is one of
/// a run of this script in the interpreter as it was, and that the interpreter is
/// left as that run leaves it.
#[verifier::external_body]
fn run_chunk(lua: &mut mlua::Lua, src: &str) -> (r: Result<(), mlua::Error>)
    ensures
        runs(*old(lua)).contains((src@, lua_result(r), *final(lua))),
{
    lua.load(src).exec()
}

/// `mlua::Lua::globals`: the table of global variables, which is one of the
/// interpreter's. Nothing is said of what it holds.
#[verifier::external_body]
fn globals(lua: &mlua::Lua) -> (t: mlua::Table)
    ensures
        t == globals_of(*lua),
        belongs(t, *lua),
{
    lua.globals()
}

/// `mlua::Table::get` for a table. A handle does not keep its interpreter, and the call
/// panics where that is gone; so the interpreter is lent for the time of the call.
/// What a table holds is the script's doing, and reading it can run code of the
/// script; so no more is said of the outcome than that it is one of a reading of this
/// kind of this table at this key, and that a table in it is one of the same
/// interpreter's. The same holds for the other kinds of value below.
#[verifier::external_body]
fn get_table(_lua: &mlua::Lua, t: &mlua::Table, key: &str) -> (r: Result<
    mlua::Table,
    mlua::Error,
>)
    requires
        belongs(*t, *_lua),
    ensures
        readings(*t).contains((key@, Reading::Table(lua_result(r)))),
        r is Ok ==> belongs(r->Ok_0, *_lua),
{
    t.get::<mlua::Table>(key)
}

/// `mlua::Table::get` for a floating-point number, as its decimal text.
#[verifier::external_body]
fn get_number(_lua: &mlua::Lua, t: &mlua::Table, key: &str) -> (r: Result<
    String,
    mlua::Error,
>)
    requires
        belongs(*t, *_lua),
    ensures
        readings(*t).contains((key@, Reading::Number(lua_text(r)))),
{
    t.get::<mlua::Number>(key).map(|n| n.to_string())
}

/// `mlua::Table::get` for a text.
#[verifier::external_body]
fn get_text(_lua: &mlua::Lua, t: &mlua::Table, key: &str) -> (r: Result<
    String,
    mlua::Error,
>)
    requires
        belongs(*t, *_lua),
    ensures
        readings(*t).contains((key@, Reading::Text(lua_text(r)))),
{
    t.get::<String>(key)
}

/// `mlua::Table::get` for an optional `u32`.
#[verifier::external_body]
fn get_u32(_lua: &mlua::Lua, t: &mlua::Table, key: &str) -> (r: Result<
    Option<u32>,
    mlua::Error,
>)
    requires
        belongs(*t, *_lua),
    ensures
        readings(*t).contains((key@, Reading::Count(lua_result(r)))),
{
    t.get::<Option<u32>>(key)
}

/// `mlua::Table::get` for a value of any kind; a text has to be UTF-8.
#[verifier::external_body]
fn get_value(_lua: &mlua::Lua, t: &mlua::Table, key: &str) -> (r: Result<
    ScriptValue,
    mlua::Error,
>)
    requires
        belongs(*t, *_lua),
    ensures
        readings(*t).contains((key@, Reading::Value(lua_value(r)))),
{
    match t.get::<mlua::Value>(key)? {
        mlua::Value::Number(n) => Ok(ScriptValue::Number(n.to_string())),
        mlua::Value::Integer(n) => Ok(ScriptValue::Integer(n)),
        mlua::Value::String(s) => Ok(ScriptValue::Text(s.to_str()?.to_owned())),
        _ => Ok(ScriptValue::Other),
    }
}

/// The text, nothing, or the message of the error.
pub open spec fn lua_place_text(r: Result<Option<String>, mlua::Error>) -> Result<
    Option<Seq<char>>,
    Seq<char>,
> {
    match r {
        Ok(s) => Ok(opt_text(s)),
        Err(e) => Err(message_of(e)),
    }
}

/// `mlua::Table::raw_get` for an optional table: what stands at a place of a list. As
/// with `get`, the interpreter is lent for the time of the call, which panics without
/// it. What a table holds is the script's doing; so no more is said of the outcome than
/// that it is one of a look of this kind at this place of this table, and that a table
/// in it is one of the same interpreter's. The same holds for texts below.
#[verifier::external_body]
fn table_at(_lua: &mlua::Lua, t: &mlua::Table, place: i64) -> (r: Result<
    Option<mlua::Table>,
    mlua::Error,
>)
    requires
        belongs(*t, *_lua),
    ensures
        slots(*t).contains((place as int, Slot::Table(lua_result(r)))),
        r matches Ok(Some(inner)) ==> belongs(inner, *_lua),
{
    t.raw_get::<Option<mlua::Table>>(place)
}

/// `mlua::Table::raw_get` for an optional text.
#[verifier::external_body]
fn text_at(_lua: &mlua::Lua, t: &mlua::Table, place: i64) -> (r: Result<
    Option<String>,
    mlua::Error,
>)
    requires
        belongs(*t, *_lua),
    ensures
        slots(*t).contains((place as int, Slot::Text(lua_place_text(r)))),
{
    t.raw_get::<Option<String>>(place)
}

// ---- Running a script -------------------------------------------------------

/// The table `inner` can be read from the table `t` at a key.
pub open spec fn table_read(t: mlua::Table, key: Seq<char>, inner: mlua::Table) -> bool {
    readings(t).contains((key, Reading::Table(Ok(inner))))
}

/// The texts can be read from the first places of the list.
pub open spec fn texts_begin(list: mlua::Table, texts: Seq<Seq<char>>) -> bool {
    forall|i: int|
        0 <= i < texts.len() ==> slots(list).contains(
            (i + 1, Slot::Text(Ok(Some(#[trigger] texts[i])))),
        )
}

/// The texts can be read from the list, from its first place up to the first one that
/// holds nothing (or to the last place that there is); or the first place that holds
/// no text refuses to be read so.
pub open spec fn texts_read(list: mlua::Table, r: Result<Seq<Seq<char>>, Seq<char>>) -> bool {
    match r {
        Ok(texts) => texts_begin(list, texts) && (slots(list).contains(
            (texts.len() as int + 1, Slot::Text(Ok(None))),
        ) || texts.len() + 1 == i64::MAX),
        Err(message) => exists|texts: Seq<Seq<char>>| #[trigger]
            texts_begin(list, texts) && slots(list).contains(
                (texts.len() as int + 1, Slot::Text(Err(message))),
            ),
    }
}

/// The options can be read from the entry `t`: the texts of the list at the key `opts`,
/// or why there is no such list. `Err` is for a list that holds something else.
pub open spec fn opts_read(
    t: mlua::Table,
    r: Result<Result<Seq<Seq<char>>, Seq<char>>, Seq<char>>,
) -> bool {
    match r {
        Ok(Err(message)) => readings(t).contains(("opts"@, Reading::Table(Err(message)))),
        Ok(Ok(texts)) => exists|list: mlua::Table| #[trigger]
            table_read(t, "opts"@, list) && texts_read(list, Ok(texts)),
        Err(message) => exists|list: mlua::Table| #[trigger]
            table_read(t, "opts"@, list) && texts_read(list, Err(message)),
    }
}

/// The name can be read from the table `t`.
pub open spec fn name_read(t: mlua::Table, name: Seq<char>) -> bool {
    readings(t).contains(("name"@, Reading::Text(Ok(name))))
}

/// All of the entry `e` but its options can be read from the table `t`.
pub open spec fn fields_read(t: mlua::Table, e: EntryModel) -> bool {
    &&& name_read(t, e.name)
    &&& readings(t).contains(("default"@, Reading::Value(Ok(e.default))))
    &&& readings(t).contains(("min"@, Reading::Number(e.min)))
    &&& readings(t).contains(("max"@, Reading::Number(e.max)))
    &&& readings(t).contains(("prec"@, Reading::Count(e.prec)))
    &&& readings(t).contains(("unit"@, Reading::Text(e.unit)))
}

/// The table has a name that can be read, and refuses to give its default value.
pub open spec fn default_refused(t: mlua::Table, message: Seq<char>) -> bool {
    (exists|name: Seq<char>| #[trigger] name_read(t, name)) && readings(t).contains(
        ("default"@, Reading::Value(Err(message))),
    )
}

/// The entry can be read from the table `t`; or the table refuses to give its name, then
/// its default value, then one of its options.
pub open spec fn entry_read(t: mlua::Table, r: Result<EntryModel, Seq<char>>) -> bool {
    match r {
        Ok(e) => fields_read(t, e) && opts_read(t, Ok(e.opts)),
        Err(message) => {
            ||| readings(t).contains(("name"@, Reading::Text(Err(message))))
            ||| default_refused(t, message)
            ||| (exists|e: EntryModel| #[trigger] fields_read(t, e)) && opts_read(t, Err(message))
        },
    }
}

/// The entry can be read from the table at a place of the list.
pub open spec fn entry_at(
    list: mlua::Table,
    place: int,
    r: Result<EntryModel, Seq<char>>,
) -> bool {
    exists|t: mlua::Table|
        slots(list).contains((place, Slot::Table(Ok(Some(t))))) && #[trigger] entry_read(t, r)
}

/// The entries can be read from the first places of the list.
pub open spec fn entries_begin(list: mlua::Table, es: Seq<EntryModel>) -> bool {
    forall|i: int| 0 <= i < es.len() ==> entry_at(list, i + 1, Ok(#[trigger] es[i]))
}

/// The entries can be read from the list, from its first place up to the first one that
/// holds nothing (or to the last place that there is); or the first place that gives
/// no entry refuses to be read as a table, or its table as an entry.
pub open spec fn entries_read(list: mlua::Table, r: Result<Seq<EntryModel>, Seq<char>>) -> bool {
    match r {
        Ok(es) => entries_begin(list, es) && (slots(list).contains(
            (es.len() as int + 1, Slot::Table(Ok(None))),
        ) || es.len() + 1 == i64::MAX),
        Err(message) => exists|es: Seq<EntryModel>| #[trigger]
            entries_begin(list, es) && (slots(list).contains(
                (es.len() as int + 1, Slot::Table(Err(message))),
            ) || entry_at(list, es.len() as int + 1, Err(message))),
    }
}

/// The rate `hz` can be read from the global variables: the number at the key
/// `max_sse_hz` in the table `settings`, or why there is no such table.
pub open spec fn settings_read(
    vars: mlua::Table,
    hz: Result<Result<Seq<char>, Seq<char>>, Seq<char>>,
) -> bool {
    match hz {
        Ok(hz) => exists|t: mlua::Table| #[trigger]
            table_read(vars, "settings"@, t) && readings(t).contains(
                ("max_sse_hz"@, Reading::Number(hz)),
            ),
        Err(message) => readings(vars).contains(("settings"@, Reading::Table(Err(message)))),
    }
}

/// The entries can be read from the global variables: from the list `params`, or why
/// there is none.
pub open spec fn params_read(vars: mlua::Table, r: Result<Seq<EntryModel>, Seq<char>>) -> bool {
    ||| exists|list: mlua::Table| #[trigger]
        table_read(vars, "params"@, list) && entries_read(list, r)
    ||| r is Err && readings(vars).contains(("params"@, Reading::Table(Err(r->Err_0))))
}

/// What is left behind can be read from the interpreter.
pub open spec fn script_read(lua: mlua::Lua, script: ScriptModel) -> bool {
    settings_read(globals_of(lua), script.settings) && params_read(globals_of(lua), script.params)
}

/// What the run came to, where all came to `outcome`.
pub open spec fn ran_to(outcome: Result<ScriptModel, Seq<char>>) -> Result<(), Seq<char>> {
    match outcome {
        Ok(_) => Ok(()),
        Err(message) => Err(message),
    }
}

/// Running `src` can come to `outcome`: a fresh interpreter runs it to its end, and what
/// is left behind is read from the interpreter as that run leaves it; or it refuses it.
pub open spec fn can_come_to(src: Seq<char>, outcome: Result<ScriptModel, Seq<char>>) -> bool {
    exists|before: mlua::Lua, after: mlua::Lua|
        is_fresh(before) && #[trigger] runs(before).contains((src, ran_to(outcome), after)) && (
        outcome is Ok ==> script_read(after, outcome->Ok_0))
}

fn refused(e: &mlua::Error) -> (r: ConfigError)
    ensures
        r.message@ == message_of(*e),
{
    ConfigError { message: error_text(e) }
}

fn own_text(r: Result<String, mlua::Error>) -> (q: Result<String, ConfigError>)
    ensures
        text_result(q) == lua_text(r),
{
    match r {
        Ok(s) => Ok(s),
        Err(e) => Err(refused(&e)),
    }
}

/// Reads the texts of a list.
fn read_texts(lua: &mlua::Lua, list: &mlua::Table) -> (r: Result<Vec<String>, ConfigError>)
    requires
        belongs(*list, *lua),
    ensures
        texts_read(*list, texts_result(r)),
{
    let mut out: Vec<String> = Vec::new();
    let mut place: i64 = 1;
    while place < i64::MAX
        invariant
            belongs(*list, *lua),
            1 <= place,
            place == out@.len() + 1,
            texts_begin(*list, texts(out@)),
        decreases i64::MAX - place,
    {
        let ghost before = texts(out@);
        match text_at(lua, list, place) {
            Ok(Some(s)) => {
                out.push(s);
                assert(texts(out@) =~= before.push(s@));
            },
            Ok(None) => return Ok(out),
            Err(e) => {
                let error = refused(&e);
                assert(texts_begin(*list, before));
                return Err(error);
            },
        }
        place += 1;
    }
    Ok(out)
}

/// Reads the options of an entry, where it has such a list.
fn read_opts(lua: &mlua::Lua, t: &mlua::Table) -> (r: Result<Result<Vec<String>, ConfigError>, ConfigError>)
    requires
        belongs(*t, *lua),
    ensures
        opts_read(
            *t,
            match r {
                Ok(opts) => Ok(texts_result(opts)),
                Err(e) => Err(e.message@),
            },
        ),
{
    let list = match get_table(lua, t, "opts") {
        Ok(list) => list,
        Err(e) => return Ok(Err(refused(&e))),
    };
    assert(table_read(*t, "opts"@, list));
    match read_texts(lua, &list) {
        Ok(v) => Ok(Ok(v)),
        Err(e) => Err(e),
    }
}

/// Reads an entry of `params`: key after key, up to the first one that it needs and that
/// cannot be read.
fn read_entry(lua: &mlua::Lua, t: &mlua::Table) -> (r: Result<ParamEntry, ConfigError>)
    requires
        belongs(*t, *lua),
    ensures
        entry_read(
            *t,
            match r {
                Ok(e) => Ok(e@),
                Err(e) => Err(e.message@),
            },
        ),
{
    let name = match get_text(lua, t, "name") {
        Ok(s) => s,
        Err(e) => return Err(refused(&e)),
    };
    let default = match get_value(lua, t, "default") {
        Ok(v) => v,
        Err(e) => {
            let error = refused(&e);
            assert(name_read(*t, name@));
            return Err(error);
        },
    };
    let min = own_text(get_number(lua, t, "min"));
    let max = own_text(get_number(lua, t, "max"));
    let prec = match get_u32(lua, t, "prec") {
        Ok(n) => Ok(n),
        Err(e) => Err(refused(&e)),
    };
    let unit = own_text(get_text(lua, t, "unit"));
    let opts = match read_opts(lua, t) {
        Ok(opts) => opts,
        Err(error) => {
            let ghost e = ParamEntry { name, default, min, max, prec, unit, opts: Err(error) };
            assert(fields_read(*t, e@));
            return Err(error);
        },
    };
    Ok(ParamEntry { name, default, min, max, prec, unit, opts })
}

/// Reads the entries of a list, one after the other, up to the first one that cannot be
/// read.
fn read_entries(lua: &mlua::Lua, list: &mlua::Table) -> (r: Result<Vec<ParamEntry>, ConfigError>)
    requires
        belongs(*list, *lua),
    ensures
        entries_read(*list, entries_result(r)),
{
    let mut out: Vec<ParamEntry> = Vec::new();
    let mut place: i64 = 1;
    while place < i64::MAX
        invariant
            belongs(*list, *lua),
            1 <= place,
            place == out@.len() + 1,
            entries_begin(*list, entries(out@)),
        decreases i64::MAX - place,
    {
        let ghost before = entries(out@);
        assert(entries_begin(*list, before));
        let t = match table_at(lua, list, place) {
            Ok(Some(t)) => t,
            Ok(None) => return Ok(out),
            Err(e) => return Err(refused(&e)),
        };
        let entry = match read_entry(lua, &t) {
            Ok(entry) => entry,
            Err(e) => {
                assert(entry_at(*list, place as int, Err(e.message@)));
                return Err(e);
            },
        };
        assert(entry_at(*list, place as int, Ok(entry@)));
        out.push(entry);
        assert(entries(out@) =~= before.push(entry@));
        place += 1;
    }
    Ok(out)
}

fn read_settings(lua: &mlua::Lua, vars: &mlua::Table) -> (r: Result<Result<String, ConfigError>, ConfigError>)
    requires
        belongs(*vars, *lua),
    ensures
        settings_read(*vars, settings_result(r)),
{
    match get_table(lua, vars, "settings") {
        Ok(t) => {
            assert(table_read(*vars, "settings"@, t));
            Ok(own_text(get_number(lua, &t, "max_sse_hz")))
        },
        Err(e) => Err(refused(&e)),
    }
}

fn read_params(lua: &mlua::Lua, vars: &mlua::Table) -> (r: Result<Vec<ParamEntry>, ConfigError>)
    requires
        belongs(*vars, *lua),
    ensures
        params_read(*vars, entries_result(r)),
{
    match get_table(lua, vars, "params") {
        Ok(list) => {
            assert(table_read(*vars, "params"@, list));
            read_entries(lua, &list)
        },
        Err(e) => Err(refused(&e)),
    }
}

/// What running a configuration as a script came to.
pub open spec fn outcome_of(r: Result<Script, ConfigError>) -> Result<ScriptModel, Seq<char>> {
    match r {
        Ok(s) => Ok(s@),
        Err(e) => Err(e.message@),
    }
}

/// Runs a script and reads what it leaves behind.
pub fn run_script(src: &str) -> (r: Result<Script, ConfigError>)
    ensures
        can_come_to(src@, outcome_of(r)),
{
    let mut lua = new_lua();
    if let Err(e) = run_chunk(&mut lua, src) {
        return Err(refused(&e));
    }
    let vars = globals(&lua);
    let settings = read_settings(&lua, &vars);
    let params = read_params(&lua, &vars);
    Ok(Script { settings, params })
}

// ---- What is read of a script ---------------------------------------------------

/// An entry is read key by key: each of its parts is what a reading of the table under that
/// key came to, and its options are the texts of the list there, from the first place on.
pub proof fn law_entry_read(t: mlua::Table, e: EntryModel)
    requires
        entry_read(t, Ok(e)),
    ensures
        readings(t).contains(("name"@, Reading::Text(Ok(e.name)))),
        readings(t).contains(("default"@, Reading::Value(Ok(e.default)))),
        readings(t).contains(("min"@, Reading::Number(e.min))),
        readings(t).contains(("max"@, Reading::Number(e.max))),
        readings(t).contains(("prec"@, Reading::Count(e.prec))),
        readings(t).contains(("unit"@, Reading::Text(e.unit))),
        match e.opts {
            Err(message) => readings(t).contains(("opts"@, Reading::Table(Err(message)))),
            Ok(texts) => exists|list: mlua::Table|
                {
                    &&& #[trigger] table_read(t, "opts"@, list)
                    &&& readings(t).contains(("opts"@, Reading::Table(Ok(list))))
                    &&& forall|i: int|
                        0 <= i < texts.len() ==> slots(list).contains(
                            (i + 1, Slot::Text(Ok(Some(#[trigger] texts[i])))),
                        )
                    &&& slots(list).contains((texts.len() as int + 1, Slot::Text(Ok(None))))
                        || texts.len() + 1 == i64::MAX
                },
        },
{
    match e.opts {
        Err(_) => {},
        Ok(texts) => {
            let list = choose|list: mlua::Table| #[trigger]
                table_read(t, "opts"@, list) && texts_read(list, Ok(texts));
            assert(table_read(t, "opts"@, list));
        },
    }
}

/// A table is refused as an entry with the message of the first key that it needs and that
/// cannot be read: its name, then its default value, then a text of its options.
pub proof fn law_entry_refused(t: mlua::Table, message: Seq<char>)
    requires
        entry_read(t, Err(message)),
        !readings(t).contains(("name"@, Reading::Text(Err(message)))),
    ensures
        exists|name: Seq<char>|
            #[trigger] name_read(t, name) && readings(t).contains(
                ("name"@, Reading::Text(Ok(name))),
            ),
        readings(t).contains(("default"@, Reading::Value(Err(message)))) || exists|
            list: mlua::Table,
            texts: Seq<Seq<char>>,
        |
            #[trigger] table_read(t, "opts"@, list) && #[trigger] texts_begin(list, texts)
                && slots(list).contains((texts.len() as int + 1, Slot::Text(Err(message)))),
{
    if !default_refused(t, message) {
        let e = choose|e: EntryModel| #[trigger] fields_read(t, e);
        assert(name_read(t, e.name));
        let list = choose|list: mlua::Table| #[trigger]
            table_read(t, "opts"@, list) && texts_read(list, Err(message));
        let texts = choose|texts: Seq<Seq<char>>| #[trigger]
            texts_begin(list, texts) && slots(list).contains(
                (texts.len() as int + 1, Slot::Text(Err(message))),
            );
        assert(table_read(t, "opts"@, list) && texts_begin(list, texts));
    } else {
        let name = choose|name: Seq<char>| #[trigger] name_read(t, name);
        assert(name_read(t, name));
    }
}

/// The entries are those of the tables at the places of the list, from the first one on, in
/// their order, up to a place that holds nothing.
pub proof fn law_entries_read(list: mlua::Table, es: Seq<EntryModel>, i: int)
    requires
        entries_read(list, Ok(es)),
        0 <= i < es.len(),
    ensures
        exists|t: mlua::Table|
            slots(list).contains((i + 1, Slot::Table(Ok(Some(t))))) && #[trigger] entry_read(
                t,
                Ok(es[i]),
            ),
        slots(list).contains((es.len() as int + 1, Slot::Table(Ok(None)))) || es.len() + 1
            == i64::MAX,
{
    assert(entry_at(list, i + 1, Ok(es[i])));
}

/// What a script leaves behind is read after a run of that script, from its start to its
/// end, in an interpreter that had run nothing: the rate from `max_sse_hz` in `settings`,
/// the entries from `params`.
pub proof fn law_script_read(src: Seq<char>, script: ScriptModel)
    requires
        can_come_to(src, Ok(script)),
    ensures
        exists|before: mlua::Lua, after: mlua::Lua|
            {
                &&& is_fresh(before)
                &&& #[trigger] runs(before).contains((src, Ok(()), after))
                &&& match script.settings {
                    Err(m) => readings(globals_of(after)).contains(
                        ("settings"@, Reading::Table(Err(m))),
                    ),
                    Ok(hz) => exists|t: mlua::Table| #[trigger]
                        table_read(globals_of(after), "settings"@, t) && readings(t).contains(
                            ("max_sse_hz"@, Reading::Number(hz)),
                        ),
                }
                &&& match script.params {
                    Err(m) => readings(globals_of(after)).contains(
                        ("params"@, Reading::Table(Err(m))),
                    ) || exists|list: mlua::Table| #[trigger]
                        table_read(globals_of(after), "params"@, list) && entries_read(
                            list,
                            Err(m),
                        ),
                    Ok(es) => exists|list: mlua::Table| #[trigger]
                        table_read(globals_of(after), "params"@, list) && entries_read(list, Ok(es)),
                }
            },
{
    let o: Result<ScriptModel, Seq<char>> = Ok(script);
    let (before, after) = choose|before: mlua::Lua, after: mlua::Lua|
        is_fresh(before) && #[trigger] runs(before).contains((src, ran_to(o), after)) && (
        o is Ok ==> script_read(after, o->Ok_0));
    assert(runs(before).contains((src, Ok(()), after)));
}

/// A script that is refused is refused with the message of a run of it in an interpreter
/// that had run nothing.
pub proof fn law_script_refused(src: Seq<char>, message: Seq<char>)
    requires
        can_come_to(src, Err(message)),
    ensures
        exists|before: mlua::Lua, after: mlua::Lua|
            is_fresh(before) && #[trigger] runs(before).contains((src, Err(message), after)),
{
}

} // verus!
