use param_serv::number::{
    decimal_text, denotes_float, parse_i32, parse_unsigned, parse_usize, signed_text,
};

#[test]
fn floats() {
    for s in ["1", "1.", ".5", "-.5e+3", "inf", "-Infinity", "NaN", ".", "", "+", "1e", "e5", "1_0", " 1", "1.2.3", "0x10", "1e5.0", "1E5", "iNf", "infin", "+nan", "--1", "1e-", "1e+07", "\u{661}", "1e999", "5.e2", "e", ".e1"] {
        let c: Vec<char> = s.chars().collect();
        assert_eq!(denotes_float(&c), s.parse::<f64>().is_ok(), "{}", s);
    }
}

#[test]
fn unsigned_numbers() {
    let cases = [
        "", "0", "007", "+5", "-5", "+", "-", " 5", "5 ", "5a", "18446744073709551615",
        "18446744073709551616", "99999999999999999999999", "\u{665}", "++1",
    ];
    for s in cases {
        let chars: Vec<char> = s.chars().collect();
        assert_eq!(parse_unsigned(&chars, u64::MAX), s.parse::<u64>().ok(), "{}", s);
        assert_eq!(parse_usize(&chars), s.parse::<usize>().ok(), "{}", s);
    }
    assert_eq!(parse_unsigned(&['9'], 8), None);
    assert_eq!(parse_unsigned(&['8'], 8), Some(8));
}

#[test]
fn signed_numbers() {
    let cases = [
        "", "0", "-0", "-", "+", "+7", "-7", "--7", "+-7", "2147483647", "2147483648",
        "-2147483648", "-2147483649", "1.0", "-00012", "3 ",
    ];
    for s in cases {
        let chars: Vec<char> = s.chars().collect();
        assert_eq!(parse_i32(&chars), s.parse::<i32>().ok(), "{}", s);
    }
}

#[test]
fn written_numbers() {
    for n in [0u64, 1, 9, 10, 99, 100, 12345678901234567890, u64::MAX] {
        assert_eq!(decimal_text(n), n.to_string());
        let chars: Vec<char> = decimal_text(n).chars().collect();
        assert_eq!(parse_unsigned(&chars, u64::MAX), Some(n));
    }
    for n in [0i64, -1, 10, -10, i64::MIN, i64::MAX] {
        assert_eq!(signed_text(n), n.to_string());
    }
    for n in [0i32, -1, 27, i32::MIN, i32::MAX] {
        let chars: Vec<char> = signed_text(n as i64).chars().collect();
        assert_eq!(parse_i32(&chars), Some(n));
    }
}
