use bugland::numbers::{float_display_text, float_text_ok, parse_int_text};

fn chars(s: &str) -> Vec<char> {
    s.chars().collect()
}

#[test]
fn float_display_forms() {
    assert_eq!(float_display_text(&"-0.50".to_string()), "-0.5");
    assert_eq!(float_display_text(&"+.5".to_string()), "0.5");
    assert_eq!(float_display_text(&"12".to_string()), "12");
    assert_eq!(float_display_text(&"000.000".to_string()), "0");
    assert_eq!(float_display_text(&"10.01".to_string()), "10.01");
}

#[test]
fn integer_text_limits() {
    assert_eq!(parse_int_text(&chars("-9223372036854775808")), Some(i64::MIN));
    assert_eq!(parse_int_text(&chars("9223372036854775807")), Some(i64::MAX));
    assert_eq!(parse_int_text(&chars("9223372036854775808")), None);
    assert_eq!(parse_int_text(&chars("+0")), Some(0));
    assert_eq!(parse_int_text(&chars("")), None);
    assert_eq!(parse_int_text(&chars("+")), None);
    assert_eq!(parse_int_text(&chars("1_0")), None);
}

#[test]
fn decimal_text_shapes() {
    assert!(float_text_ok(&chars("1.5")));
    assert!(float_text_ok(&chars("-.5")));
    assert!(float_text_ok(&chars("5.")));
    assert!(float_text_ok(&chars("5")));
    assert!(!float_text_ok(&chars(".")));
    assert!(!float_text_ok(&chars("1.2.3")));
    assert!(!float_text_ok(&chars("")));
}

#[test]
fn f64_grammar_is_accepted() {
    for t in ["1e5", "2.5E-3", "-1e+2", ".5e1", "inf", "+Infinity", "-INF", "nan", "NaN"] {
        assert!(float_text_ok(&chars(t)), "{}", t);
    }
    for t in ["e5", "1e", "1e+", "1e5.0", "infinit", "nan1", "1.5f"] {
        assert!(!float_text_ok(&chars(t)), "{}", t);
    }
}

#[test]
fn float_display_of_exponents_and_specials() {
    assert_eq!(float_display_text(&"1e5".to_string()), "100000");
    assert_eq!(float_display_text(&"2.5E-3".to_string()), "0.0025");
    assert_eq!(float_display_text(&"-1.25e1".to_string()), "-12.5");
    assert_eq!(float_display_text(&"0e10".to_string()), "0");
    assert_eq!(float_display_text(&"1e400".to_string()), "inf");
    assert_eq!(float_display_text(&"-1e99999999999999999999".to_string()), "-inf");
    assert_eq!(float_display_text(&"1e-400".to_string()), "0");
    assert_eq!(float_display_text(&"-Infinity".to_string()), "-inf");
    assert_eq!(float_display_text(&"nan".to_string()), "NaN");
}
