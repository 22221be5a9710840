use jellyscope::text::{is_float_text, parse_i64, split_commas, split_lines, trim_chars};

fn chars(s: &str) -> Vec<char> {
    s.chars().collect()
}

fn strings(v: Vec<Vec<char>>) -> Vec<String> {
    v.into_iter().map(|c| c.into_iter().collect()).collect()
}

#[test]
fn integers_parse_like_i64() {
    assert_eq!(parse_i64(&chars("-42")), Some(-42));
    assert_eq!(parse_i64(&chars("+7")), Some(7));
    assert_eq!(parse_i64(&chars("9223372036854775807")), Some(i64::MAX));
    assert_eq!(parse_i64(&chars("-9223372036854775808")), Some(i64::MIN));
    assert_eq!(parse_i64(&chars("9223372036854775808")), None);
    assert_eq!(parse_i64(&chars("")), None);
    assert_eq!(parse_i64(&chars("-")), None);
    assert_eq!(parse_i64(&chars(" 1")), None);
    assert_eq!(parse_i64(&chars("1.0")), None);
}

#[test]
fn decimal_numbers_follow_the_f64_syntax() {
    for ok in ["1", "1.5", "-.5", "1.", "+2e10", "1E-3", "nan", "NaN", "inf", "-Infinity", "0.0484"] {
        assert!(is_float_text(&chars(ok)), "{ok}");
        assert!(ok.parse::<f64>().is_ok(), "{ok}");
    }
    for bad in ["", ".", "e3", "1e", "abc", "1.5.2", " 1", "--1", "infinit"] {
        assert!(!is_float_text(&chars(bad)), "{bad}");
        assert!(bad.parse::<f64>().is_err(), "{bad}");
    }
}

#[test]
fn lines_and_fields_split_like_str() {
    let text = "a,b\r\n\nc,,d\n";
    let lines = split_lines(&chars(text));
    assert_eq!(strings(lines.clone()), text.lines().map(String::from).collect::<Vec<_>>());
    let fields = split_commas(&lines[2]);
    assert_eq!(strings(fields), vec!["c", "", "d"]);
    assert_eq!(strings(split_commas(&chars(""))), vec![""]);
    let t: String = trim_chars(&chars("\t x y \n")).into_iter().collect();
    assert_eq!(t, "x y");
}
