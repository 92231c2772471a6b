use param_serv::config::ParamDef;
use param_serv::plain::parse_text;
use param_serv::state::{build_sse_event, find_param, intern_value, State};

fn params() -> Vec<ParamDef> {
    let mut ps = parse_text("a 1\nb x\nc 3").unwrap().params;
    ps[1].opts = vec!["off".to_string(), "on".to_string(), "on".to_string()];
    ps[2].unit = Some("V".to_string());
    ps[2].unit_conv = vec![("V".to_string(), 0), ("mV".to_string(), -3)];
    ps
}

fn owned(pairs: &[(&str, &str)]) -> Vec<(String, String)> {
    pairs.iter().map(|(a, b)| (a.to_string(), b.to_string())).collect()
}

#[test]
fn initial_state() {
    let s = State::new(&params());
    assert_eq!(s.values, vec!["1", "x", "3"]);
    assert_eq!(s.units, vec![None, None, Some("V".to_string())]);
    assert_eq!(s.versions, vec![1, 1, 1]);
    assert_eq!(s.clock, 1);
    assert_eq!(s.sse_event, "data: {\"c\":1,\"p\":{\"a\":\"1\",\"b\":\"x\",\"c\":\"3\"}}\n\n");
    let none = Vec::new();
    assert_eq!(State::new(&none).sse_event, "data: {\"c\":1,\"p\":{}}\n\n");
}

#[test]
fn interning() {
    let ps = params();
    assert_eq!(intern_value("on", &ps[1]), "1");
    assert_eq!(intern_value("off", &ps[1]), "0");
    assert_eq!(intern_value("1", &ps[1]), "1");
    assert_eq!(intern_value("half", &ps[1]), "half");
    assert_eq!(intern_value("on", &ps[0]), "on");
    let once = intern_value("on", &ps[1]);
    assert_eq!(intern_value(&once, &ps[1]), once);
}

#[test]
fn params_by_name() {
    let mut ps = params();
    assert_eq!(find_param(&ps, &"c".to_string()), Some(2));
    assert_eq!(find_param(&ps, &"d".to_string()), None);
    ps[2].name = "a".to_string();
    assert_eq!(find_param(&ps, &"a".to_string()), Some(0));
}

#[test]
fn event_is_escaped() {
    let ps = params();
    let mut s = State::new(&ps);
    s.put_values(&ps, &owned(&[("a", "say \"hi\""), ("c", "a\\b")]));
    assert_eq!(
        s.sse_event,
        "data: {\"c\":2,\"p\":{\"a\":\"say \\\"hi\\\"\",\"b\":\"x\",\"c\":\"a\\\\b\"}}\n\n"
    );
    assert_eq!(build_sse_event(&s, &ps), s.sse_event);
}

#[test]
fn values_put() {
    let ps = params();
    let mut s = State::new(&ps);
    let unknown = s.put_values(&ps, &owned(&[("a", "5"), ("zz", "1"), ("b", "on"), ("a", "6")]));
    assert_eq!(unknown, vec!["zz"]);
    assert_eq!(s.values, vec!["6", "1", "3"]);
    assert_eq!(s.versions, vec![2, 2, 1]);
    assert_eq!(s.clock, 2);
    // A write of nothing moves the clock too.
    let unknown = s.put_values(&ps, &Vec::new());
    assert!(unknown.is_empty());
    assert_eq!((s.clock, s.versions.as_slice()), (3, &[2u64, 2, 1][..]));
    assert!(s.sse_event.starts_with("data: {\"c\":3,"));
}

#[test]
fn units_put() {
    let ps = params();
    let mut s = State::new(&ps);
    let before = s.sse_event.clone();
    s.put_units(&ps, &owned(&[("a", "anything"), ("c", "kV"), ("c", "mV"), ("c", "uV"), ("q", "V")]));
    assert_eq!(s.units, vec![Some("anything".to_string()), None, Some("mV".to_string())]);
    assert_eq!((s.clock, s.versions.as_slice()), (1, &[1u64, 1, 1][..]));
    assert_eq!(s.sse_event, before);
    assert_eq!(s.values, vec!["1", "x", "3"]);
}

#[test]
fn event_of_the_parameters_alone() {
    let mut ps = params();
    let s = State::new(&ps);
    ps.truncate(2);
    assert_eq!(build_sse_event(&s, &ps), "data: {\"c\":1,\"p\":{\"a\":\"1\",\"b\":\"x\"}}\n\n");
}
