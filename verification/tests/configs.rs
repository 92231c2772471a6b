use param_serv::config::{parse, settle, Config, ConfigError};
use param_serv::plain::parse_text;
use param_serv::script::{build_config, define, ParamEntry, Script, ScriptValue};

fn err<T>(m: &str) -> Result<T, ConfigError> {
    Err(ConfigError { message: m.to_string() })
}

fn entry(name: &str) -> ParamEntry {
    ParamEntry {
        name: name.to_string(),
        default: ScriptValue::Other,
        min: err("min"),
        max: err("max"),
        prec: err("prec"),
        unit: err("unit"),
        opts: err("opts"),
    }
}

fn message<T>(r: Result<T, ConfigError>) -> String {
    match r {
        Ok(_) => panic!("accepted"),
        Err(e) => e.message,
    }
}

fn accepted<T>(r: Result<T, ConfigError>) -> T {
    match r {
        Ok(c) => c,
        Err(e) => panic!("{}", e.message),
    }
}

#[test]
fn default_config() {
    let c = Config::default();
    assert_eq!(c.max_sse_hz, "30");
    assert!(c.params.is_empty());
}

#[test]
fn text_file() {
    let src = "sensitivity   1.0\ntime_constant 0.1\nfrequency     1000.0\n";
    let c = accepted(parse(src));
    assert_eq!(c.max_sse_hz, "30");
    let got: Vec<(&str, &str)> =
        c.params.iter().map(|p| (p.name.as_str(), p.default.as_str())).collect();
    assert_eq!(
        got,
        vec![("sensitivity", "1.0"), ("time_constant", "0.1"), ("frequency", "1000.0")]
    );
    for p in &c.params {
        assert!(p.opts.is_empty() && p.unit.is_none() && p.prec.is_none());
        assert!(p.min.is_none() && p.max.is_none() && p.step.is_none() && p.unit_conv.is_empty());
    }
}

#[test]
fn text_lines() {
    let c = parse_text("\n  a\t1  \r\n\n b  x").unwrap();
    assert_eq!(c.params.len(), 2);
    assert_eq!((c.params[0].name.as_str(), c.params[0].default.as_str()), ("a", "1"));
    assert_eq!((c.params[1].name.as_str(), c.params[1].default.as_str()), ("b", "x"));
    assert!(parse_text("").is_none());
    assert!(parse_text(" \n\n").is_none());
    assert!(parse_text("a 1\nb").is_none());
    assert!(parse_text("a 1 2").is_none());
}

#[test]
fn script_file() {
    let src = r#"
        settings = { max_sse_hz = 12.5 }
        params = {
            { name = "gain", default = 2, min = -1, max = 10.5, prec = 3, unit = "V" },
            { name = "mode", default = "slow", opts = { "slow", "fast" } },
            { name = "ratio", default = 0.25 },
            { name = "big", default = 1e15 },
            { name = "flag", default = true },
            { name = "none" },
        }
    "#;
    let c = accepted(parse(src));
    assert_eq!(c.max_sse_hz, "12.5");
    assert_eq!(c.params.len(), 6);
    let g = &c.params[0];
    assert_eq!((g.name.as_str(), g.default.as_str()), ("gain", "2"));
    assert_eq!((g.min.as_deref(), g.max.as_deref()), (Some("-1"), Some("10.5")));
    assert_eq!((g.prec, g.unit.as_deref()), (Some(3), Some("V")));
    assert!(g.opts.is_empty());
    assert_eq!(c.params[1].default, "slow");
    assert_eq!(c.params[1].opts, vec!["slow".to_string(), "fast".to_string()]);
    assert_eq!((c.params[1].min.as_deref(), c.params[1].unit.as_deref()), (None, None));
    assert_eq!(c.params[2].default, "0.25");
    assert_eq!(c.params[3].default, "1000000000000000");
    assert_eq!(c.params[4].default, "0");
    assert_eq!(c.params[5].default, "0");
}

#[test]
fn script_runs() {
    let src = "params = {} for i = 1, 3 do params[i] = { name = 'p' .. i, default = i * i } end";
    let c = accepted(parse(src));
    let got: Vec<(&str, &str)> =
        c.params.iter().map(|p| (p.name.as_str(), p.default.as_str())).collect();
    assert_eq!(got, vec![("p1", "1"), ("p2", "4"), ("p3", "9")]);
    assert_eq!(c.max_sse_hz, "30");
}

#[test]
fn script_refused() {
    // No script and no plain text either.
    assert!(message(parse("params = {")).contains("syntax error"));
    // It ends in an error of its own.
    assert!(message(parse("error('no such luck')")).contains("no such luck"));
    // It sets no parameters.
    assert!(parse("x = 1").is_err());
    assert!(parse("").is_err());
    // An entry is no table, has no name, or has an option that is no text.
    assert!(parse("params = { 7 }").is_err());
    assert!(parse("params = { { default = 1 } }").is_err());
    assert!(parse("params = { { name = 'a', opts = { {} } } }").is_err());
    // An entry before it changes nothing.
    assert!(parse("params = { { name = 'a' }, { } }").is_err());
}

#[test]
fn script_leniency() {
    let src = "settings = { max_sse_hz = 'fast' } params = { { name = 7, default = 1, min = 'low', \
               max = {}, prec = -1, unit = {}, opts = 'none' } }";
    let c = accepted(parse(src));
    assert_eq!(c.max_sse_hz, "30");
    let p = &c.params[0];
    assert_eq!(p.name, "7");
    assert!(p.min.is_none() && p.max.is_none() && p.prec.is_none() && p.unit.is_none());
    assert!(p.opts.is_empty());
    let c = accepted(parse("params = { { name = 'a' }, nil, { name = 'b' } }"));
    assert_eq!(c.params.len(), 1);
}

#[test]
fn entry_defined() {
    let e = ParamEntry {
        default: ScriptValue::Integer(-12),
        min: Ok("-inf".to_string()),
        max: Ok("many".to_string()),
        prec: Ok(Some(4)),
        unit: Ok("Hz".to_string()),
        opts: Ok(vec!["x".to_string(), "y".to_string()]),
        ..entry("f")
    };
    let d = define(e);
    assert_eq!((d.name.as_str(), d.default.as_str()), ("f", "-12"));
    assert_eq!((d.min.as_deref(), d.max.as_deref(), d.step.as_deref()), (Some("-inf"), None, None));
    assert_eq!((d.prec, d.unit.as_deref()), (Some(4), Some("Hz")));
    assert_eq!(d.opts, vec!["x".to_string(), "y".to_string()]);
    assert!(d.unit_conv.is_empty());
    let d = define(ParamEntry { prec: Ok(None), ..entry("g") });
    assert_eq!((d.default.as_str(), d.prec), ("0", None));
    assert!(d.min.is_none() && d.max.is_none() && d.unit.is_none() && d.opts.is_empty());
    let d = define(ParamEntry {
        default: ScriptValue::Number("2.5".to_string()),
        ..entry("h")
    });
    assert_eq!(d.default, "2.5");
    let d = define(ParamEntry { default: ScriptValue::Text("slow".to_string()), ..entry("k") });
    assert_eq!(d.default, "slow");
}

#[test]
fn entries_read_in_order() {
    // The first key that is needed and cannot be read decides.
    let name = message(parse("params = { { name = {}, default = 'a\\xff', opts = { {} } } }"));
    assert!(name.contains("table") && name.contains("string"), "{}", name);
    let default = message(parse("params = { { name = 'a', default = '\\xff', opts = { {} } } }"));
    assert!(default.contains("utf-8"), "{}", default);
    // The first entry that cannot be read decides, and what is behind it is left alone.
    let src = "log = {} \
               trap = setmetatable({}, { __index = function() error('touched') end }) \
               params = { { name = 'a' }, 7, trap }";
    assert!(!message(parse(src)).contains("touched"));
    let src = "trap = setmetatable({}, { __index = function(t, k) error('touched ' .. k) end }) \
               params = { { name = 'a' }, trap, 7 }";
    assert!(message(parse(src)).contains("touched name"));
    let src = "e = setmetatable({ default = 1 }, { __index = function(t, k) \
               if k == 'name' then params[2] = { name = 'late' } return 'first' end end }) \
               params = { e }";
    let c = accepted(parse(src));
    let got: Vec<&str> = c.params.iter().map(|p| p.name.as_str()).collect();
    assert_eq!(got, vec!["first", "late"]);
}

#[test]
fn many_entries() {
    let src = "local e = { name = 'x' } params = {} for i = 1, 1200000 do params[i] = e end";
    assert_eq!(accepted(parse(src)).params.len(), 1200000);
}

#[test]
fn config_built() {
    let s = Script { settings: err("settings"), params: Ok(vec![entry("a"), entry("b")]) };
    let c = accepted(build_config(s));
    assert_eq!(c.max_sse_hz, "30");
    assert_eq!(c.params.len(), 2);
    assert_eq!(c.params[1].name, "b");
    let s = Script { settings: Ok(Ok("5".to_string())), params: Ok(Vec::new()) };
    let c = accepted(build_config(s));
    assert_eq!((c.max_sse_hz.as_str(), c.params.len()), ("5", 0));
    let s = Script { settings: Ok(err("rate")), params: Ok(Vec::new()) };
    assert_eq!(accepted(build_config(s)).max_sse_hz, "30");
    let s = Script { settings: err("settings"), params: err("none") };
    assert_eq!(message(build_config(s)), "none");
}

#[test]
fn script_before_text() {
    let good = Script { settings: err("settings"), params: Ok(vec![entry("s")]) };
    assert_eq!(accepted(settle("t 1", Ok(good))).params[0].name, "s");
    assert_eq!(accepted(settle("t 1", err("no"))).params[0].name, "t");
    let none = Script { settings: err("settings"), params: err("no") };
    assert_eq!(accepted(settle("t 1", Ok(none))).params[0].name, "t");
    assert_eq!(message(settle("t", err("no"))), "no");
}
