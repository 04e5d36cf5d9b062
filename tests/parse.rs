use trial_count::grammar::number_text;
use trial_count::{parse_expression, parse_tokens, ParseError, Probability, Significance};

fn tokens(ts: &[&str]) -> Vec<String> {
    ts.iter().map(|t| t.to_string()).collect()
}

fn parse(t: &str) -> Result<Probability, ParseError> {
    parse_tokens(&tokens(&[t]))
}

fn s(t: &str) -> String {
    t.to_string()
}

/// The probability as a double, computed from the digits the parser kept.
fn value(p: &Probability) -> f64 {
    let num = |d: &String| if d.is_empty() { 0.0 } else { d.parse::<f64>().unwrap() };
    match p {
        Probability::Raw(d) => num(d) / 10f64.powi(d.len() as i32),
        Probability::Percent(w, f) => (num(w) + num(f) / 10f64.powi(f.len() as i32)) / 100.0,
        Probability::OneOutOf(n) => 1.0 / num(n),
        Probability::Ratio(n, d) => num(n) / num(d),
    }
}

#[test]
fn decimal_fraction() {
    let p = parse("0.5").unwrap();
    assert_eq!(p, Probability::Raw(s("5")));
    assert_eq!(value(&p), 0.5);
    assert_eq!(parse(".5").unwrap(), Probability::Raw(s("5")));
}

#[test]
fn percent() {
    let p = parse("50%").unwrap();
    assert_eq!(p, Probability::Percent(s("50"), s("")));
    assert_eq!(value(&p), 0.5);
    assert_eq!(parse(".5%").unwrap(), Probability::Percent(s(""), s("5")));
    assert_eq!(parse("12.25%").unwrap(), Probability::Percent(s("12"), s("25")));
    assert_eq!(parse("99.999%").unwrap(), Probability::Percent(s("99"), s("999")));
}

#[test]
fn one_out_of() {
    let p = parse("2").unwrap();
    assert_eq!(p, Probability::OneOutOf(s("2")));
    assert_eq!(value(&p), 0.5);
    assert_eq!(parse("200").unwrap(), Probability::OneOutOf(s("200")));
}

#[test]
fn ratio() {
    let p = parse("1/3").unwrap();
    assert_eq!(p, Probability::Ratio(s("1"), s("3")));
    assert!((value(&p) - 1.0 / 3.0).abs() < 1e-15);
}

#[test]
fn each_failure_has_its_message() {
    let cases = [
        ("0", ParseError::Zero, "probability cannot be zero"),
        ("1", ParseError::NotLessThanOne, "probability must be less than one"),
        ("0%", ParseError::Zero, "probability cannot be zero"),
        ("100%", ParseError::NotLessThanOne, "probability must be less than one"),
        ("1/1", ParseError::NotLessThanOne, "probability must be less than one"),
        ("2/1", ParseError::NotLessThanOne, "probability must be less than one"),
        ("abc", ParseError::Unparsable, "could not parse argument"),
    ];
    for (text, err, msg) in cases {
        let e = parse(text).unwrap_err();
        assert_eq!(e, err, "{}", text);
        assert_eq!(e.message(), msg);
    }
}

#[test]
fn other_failures() {
    assert_eq!(parse("%").unwrap_err(), ParseError::Unparsable);
    assert_eq!(parse("0.0").unwrap_err(), ParseError::Zero);
    assert_eq!(parse(".000").unwrap_err(), ParseError::Zero);
    assert_eq!(parse("0.00%").unwrap_err(), ParseError::Zero);
    assert_eq!(parse("00").unwrap_err(), ParseError::Zero);
    assert_eq!(parse("01").unwrap_err(), ParseError::NotLessThanOne);
    assert_eq!(parse("100.0%").unwrap_err(), ParseError::NotLessThanOne);
    assert_eq!(parse("0/0").unwrap_err(), ParseError::Zero);
    assert_eq!(parse("1/0").unwrap_err(), ParseError::DivisionByZero);
    assert_eq!(parse("3/3").unwrap_err(), ParseError::NotLessThanOne);
    assert_eq!(parse("").unwrap_err(), ParseError::Unparsable);
    assert_eq!(parse("1.5").unwrap_err(), ParseError::Unparsable);
    assert_eq!(parse("5.%").unwrap_err(), ParseError::Unparsable);
    assert_eq!(parse("1/2/3").unwrap_err(), ParseError::Unparsable);
    assert_eq!(parse("-0.5").unwrap_err(), ParseError::Unparsable);
    assert_eq!(ParseError::DivisionByZero.message(), "division by zero");
    assert_eq!(ParseError::SuccessiveNumbers.message(), "successive numerical arguments");
}

#[test]
fn numbers_of_any_length() {
    let big = "123456789012345678901234567890";
    let bigger = "123456789012345678901234567891";
    assert_eq!(
        parse(&format!("{}/{}", big, bigger)).unwrap(),
        Probability::Ratio(s(big), s(bigger))
    );
    assert_eq!(parse(&format!("{}/{}", bigger, big)).unwrap_err(), ParseError::NotLessThanOne);
    assert_eq!(parse(&format!("0{}/{}", big, bigger)).unwrap(), Probability::Ratio(s(&format!("0{}", big)), s(bigger)));
    assert_eq!(parse(&format!("{}/00{}", big, big)).unwrap_err(), ParseError::NotLessThanOne);
    assert_eq!(parse(big).unwrap(), Probability::OneOutOf(s(big)));
    assert_eq!(parse("0.00000000000000000000000000000000001").unwrap(), Probability::Raw(s("00000000000000000000000000000000001")));
}

#[test]
fn white_space_at_the_ends_is_ignored() {
    assert_eq!(parse("  0.5\t").unwrap(), Probability::Raw(s("5")));
    assert_eq!(parse_expression("\u{3000}1/4\n").unwrap(), Probability::Ratio(s("1"), s("4")));
    assert_eq!(parse(" 1 / 4 ").unwrap_err(), ParseError::Unparsable);
}

#[test]
fn split_tokens_are_joined() {
    assert_eq!(parse_tokens(&tokens(&["1", "/", "2"])).unwrap(), Probability::Ratio(s("1"), s("2")));
    assert_eq!(parse_tokens(&tokens(&["50", "%"])).unwrap(), Probability::Percent(s("50"), s("")));
    assert_eq!(parse_tokens(&tokens(&["1/", "3"])).unwrap(), Probability::Ratio(s("1"), s("3")));
}

#[test]
fn successive_numbers_are_refused() {
    assert_eq!(parse_tokens(&tokens(&["1", "2"])).unwrap_err(), ParseError::SuccessiveNumbers);
    assert_eq!(parse_tokens(&tokens(&["1", "/", "2", "3"])).unwrap_err(), ParseError::SuccessiveNumbers);
    assert_eq!(parse_tokens(&tokens(&["0.5", "inf"])).unwrap_err(), ParseError::SuccessiveNumbers);
    assert_eq!(parse_tokens(&tokens(&["1e3", "-2"])).unwrap_err(), ParseError::SuccessiveNumbers);
    // "1" "2" would join to "12", a valid one-in-twelve: the tokens decide
    assert_eq!(parse_tokens(&tokens(&[])).unwrap_err(), ParseError::Unparsable);
}

#[test]
fn number_tokens_read_as_std_reads_doubles() {
    let samples = [
        "0", "1", "12", "1.", ".5", "0.5", ".", "", "+", "-", "+1", "-1.5", "1e5", "1E5", "1e", "e5",
        "1e+5", "1e-5", "1e+", ".e1", "1.e1", ".5e-3", "inf", "INF", "Inf", "-inf", "+infinity",
        "Infinity", "infinit", "nan", "NaN", "-NaN", "nana", "1/2", "50%", " 1", "1 ", "1.2.3",
        "1e5e5", "0x10", "1_000", "++1", "abc", "\u{660}", "1e5.0", "5%", "%",
    ];
    for t in samples {
        let cs: Vec<char> = t.chars().collect();
        assert_eq!(number_text(&cs), t.parse::<f64>().is_ok(), "{:?}", t);
    }
}

#[test]
fn notations_agree_with_their_regular_expressions() {
    let raw = regex::Regex::new(r"^0?\.[0-9]+$").unwrap();
    let percent = regex::Regex::new(r"^(?P<v>[0-9]*(?:\.[0-9]+)?)%$").unwrap();
    let one_out_of = regex::Regex::new(r"^[0-9]+$").unwrap();
    let ratio = regex::Regex::new(r"^(?P<n>[0-9]+)/(?P<d>[0-9]+)$").unwrap();
    let samples = [
        "0.5", ".5", "00.5", "0.", ".", "0.5%", "50%", "%", ".5%", "5.%", "5.5.5%", "2", "0", "1",
        "007", "1/3", "3/1", "0/0", "/3", "1/", "1//3", "abc", "", "1.5", "1e3", "12%%", "1/3%",
    ];
    for t in samples {
        let r = parse_expression(t);
        let kind = match &r {
            Ok(Probability::Raw(_)) => "raw",
            Ok(Probability::Percent(..)) => "percent",
            Ok(Probability::OneOutOf(_)) => "one_out_of",
            Ok(Probability::Ratio(..)) => "ratio",
            Err(ParseError::Unparsable) if t != "%" => "none",
            Err(_) => "rejected",
        };
        let expected = if raw.is_match(t) {
            "raw"
        } else if percent.is_match(t) {
            "percent"
        } else if one_out_of.is_match(t) {
            "one_out_of"
        } else if ratio.is_match(t) {
            "ratio"
        } else {
            "none"
        };
        assert!(kind == expected || kind == "rejected", "{:?}: {} against {}", t, kind, expected);
        if kind == "rejected" {
            assert_ne!(expected, "none", "{:?}", t);
        }
    }
}

#[test]
fn significance_levels() {
    assert_eq!(Significance::Five.one_in(), 20);
    assert_eq!(Significance::One.one_in(), 100);
}
