use param_serv::config::ParamDef;
use param_serv::params::{parse_param_lines, write_param_line};
use param_serv::{parse_param_line, ParamInfo};

fn def(name: &str) -> ParamDef {
    ParamDef {
        name: name.to_string(),
        default: "0".to_string(),
        min: None,
        max: None,
        step: None,
        opts: Vec::new(),
        prec: None,
        unit: None,
        unit_conv: Vec::new(),
    }
}

fn full() -> ParamDef {
    ParamDef {
        min: Some("-1.5".to_string()),
        max: Some("1e6".to_string()),
        step: Some("0.25".to_string()),
        opts: vec!["on".to_string(), "off".to_string()],
        prec: Some(3),
        unit_conv: vec![("V".to_string(), 0), ("mV".to_string(), -3)],
        ..def("level")
    }
}

fn check(info: &ParamInfo, d: &ParamDef, unit: &Option<String>) {
    assert_eq!(info.name, d.name);
    assert_eq!(info.opts, d.opts);
    assert_eq!(info.prec, d.prec);
    assert_eq!(&info.unit, unit);
    assert_eq!(info.unit_conv, d.unit_conv);
    assert_eq!(info.min, d.min);
    assert_eq!(info.max, d.max);
    assert_eq!(info.step, d.step);
}

#[test]
fn bare_line() {
    let line = write_param_line(&def("x"), &None);
    assert_eq!(line, "x");
    check(&parse_param_line(&line).unwrap(), &def("x"), &None);
}

#[test]
fn full_line_reads_back() {
    let unit = Some("mV".to_string());
    let line = write_param_line(&full(), &unit);
    assert_eq!(
        line,
        "level\topts:on,off\tprec:3\tunit:mV\tunit_conv:V=0,mV=-3\tmin:-1.5\tmax:1e6\tstep:0.25"
    );
    check(&parse_param_line(&line).unwrap(), &full(), &unit);
}

#[test]
fn no_name_no_info() {
    assert!(parse_param_line("").is_none());
    assert!(parse_param_line("\topts:a").is_none());
}

#[test]
fn odd_fields() {
    let i = parse_param_line("x\tprec:abc\tmin:one\tmax:2\tmax:?\tcolor:red\tstep:.5").unwrap();
    assert_eq!(i.prec, None);
    assert_eq!(i.min, None);
    assert_eq!(i.max, None);
    assert_eq!(i.step, Some(".5".to_string()));
    let i = parse_param_line("x\topts:a\topts:b,c\tunit_conv:a=1,b,c=x,d=+2\tunit_conv:e=-3").unwrap();
    assert_eq!(i.opts, vec!["b".to_string(), "c".to_string()]);
    assert_eq!(
        i.unit_conv,
        vec![("a".to_string(), 1), ("d".to_string(), 2), ("e".to_string(), -3)]
    );
    let i = parse_param_line("x\topts:").unwrap();
    assert_eq!(i.opts, vec!["".to_string()]);
    let i = parse_param_line("x\tunit:").unwrap();
    assert_eq!(i.unit, Some("".to_string()));
}

#[test]
fn separators_are_not_read_back() {
    let d = ParamDef { opts: vec!["a,b".to_string()], ..def("x") };
    let i = parse_param_line(&write_param_line(&d, &None)).unwrap();
    assert_eq!(i.opts, vec!["a".to_string(), "b".to_string()]);
}

#[test]
fn list_reads_back() {
    let unit = Some("V".to_string());
    let body = write_param_line(&full(), &unit) + "\n" + &write_param_line(&def("y"), &None) + "\n";
    let list = parse_param_lines(&body);
    assert_eq!(list.len(), 2);
    check(&list[0], &full(), &unit);
    check(&list[1], &def("y"), &None);
    assert_eq!(parse_param_lines("\n\tunit:V\nz\r\n").len(), 1);
}

#[test]
fn order_of_fields_does_not_matter() {
    let fields = ["opts:a,b", "prec:2", "unit:V", "unit_conv:V=0", "min:1", "max:2", "step:3", "x:y"];
    let mut back = fields;
    back.reverse();
    let one = parse_param_line(&format!("p\t{}", fields.join("\t"))).unwrap();
    let two = parse_param_line(&format!("p\t{}", back.join("\t"))).unwrap();
    assert_eq!((one.opts, one.prec, one.unit), (two.opts, two.prec, two.unit));
    assert_eq!(one.unit_conv, two.unit_conv);
    assert_eq!((one.min, one.max, one.step), (two.min, two.max, two.step));
    // With the same tag it does.
    assert_eq!(parse_param_line("p\tunit:V\tunit:A").unwrap().unit.as_deref(), Some("A"));
    assert_eq!(parse_param_line("p\tunit:A\tunit:V").unwrap().unit.as_deref(), Some("V"));
}

#[test]
fn unknown_fields_say_nothing() {
    let fields = ["p", "opts:a,b", "unit:V", "min:1"];
    let plain = parse_param_line(&fields.join("\t")).unwrap();
    for field in ["color:red", "opts", "unit", "", ":", "unit_conv", "Opts:x", "minimum:3"] {
        for k in 1..=fields.len() {
            let mut more: Vec<&str> = fields.to_vec();
            more.insert(k, field);
            let info = parse_param_line(&more.join("\t")).unwrap();
            assert_eq!((&info.name, &info.opts), (&plain.name, &plain.opts), "{} {}", field, k);
            assert_eq!((&info.unit, &info.min), (&plain.unit, &plain.min), "{} {}", field, k);
            assert!(info.prec.is_none() && info.max.is_none() && info.step.is_none());
            assert!(info.unit_conv.is_empty());
        }
    }
}
