use magpyxl::cell::{cell_to_key, values_equal, CellValue, LookupKey, RawValue};
use magpyxl::criteria::{criteria_key, parse_criteria, split_operator, Criteria, Op};
use magpyxl::decimal::parse_decimal;
use magpyxl::number::Number;
use magpyxl::text::{is_number_literal, looks_like_date, text_eq_ci, wildcard_match};

fn n(x: f64) -> Number {
    Number { bits: x.to_bits() }
}

fn num(x: f64) -> CellValue {
    CellValue::Num(n(x))
}

fn text(s: &str) -> CellValue {
    CellValue::Text(s.to_string())
}

fn parse(s: &str) -> Criteria {
    parse_criteria(&text(s)).unwrap()
}

fn holds(criterion: &str, cell: &CellValue) -> bool {
    magpyxl::criteria::matches(cell, &parse(criterion))
}

fn parts(c: &Criteria) -> (Op, String, Option<String>) {
    let value = match &c.value {
        CellValue::Num(x) => format!("{}", f64::from_bits(x.bits)),
        CellValue::Text(s) => format!("'{}'", s),
        CellValue::Empty => "blank".to_string(),
    };
    (c.op, value, c.wildcard.clone())
}

#[test]
fn criteria_are_parsed() {
    assert_eq!(parts(&parse(">10")), (Op::Gt, "10".to_string(), None));
    assert_eq!(parts(&parse("<=5")), (Op::Le, "5".to_string(), None));
    assert_eq!(parts(&parse(">= 5.5 ")), (Op::Ge, "5.5".to_string(), None));
    assert_eq!(parts(&parse("<>0")), (Op::Ne, "0".to_string(), None));
    assert_eq!(parts(&parse("<abc")), (Op::Lt, "'abc'".to_string(), None));
    assert_eq!(parts(&parse("=abc")), (Op::Eq, "'abc'".to_string(), None));
    assert_eq!(parts(&parse(" 42 ")), (Op::Eq, "42".to_string(), None));
    assert_eq!(parts(&parse("-1.5e3")), (Op::Eq, "-1500".to_string(), None));
    assert_eq!(parts(&parse("plain")), (Op::Eq, "'plain'".to_string(), None));
    assert_eq!(parts(&parse(" padded ")), (Op::Eq, "' padded '".to_string(), None));
    assert_eq!(
        parts(&parse("ab*")),
        (Op::Eq, "'ab*'".to_string(), Some("ab*".to_string()))
    );
    assert_eq!(
        parts(&parse("<> a?c ")),
        (Op::Ne, "'a?c'".to_string(), Some("a?c".to_string()))
    );
    assert_eq!(parts(&parse("=")), (Op::Eq, "''".to_string(), None));
    assert_eq!(parts(&parse("=>5")), (Op::Eq, "'>5'".to_string(), None));
    assert_eq!(parts(&parse(">inf")), (Op::Gt, "inf".to_string(), None));
    assert_eq!(parts(&parse("<= +Infinity ")), (Op::Le, "inf".to_string(), None));
    assert_eq!(parts(&parse(">=-INF")), (Op::Ge, "-inf".to_string(), None));
    assert_eq!(parts(&parse("<nan")), (Op::Lt, "NaN".to_string(), None));
    assert_eq!(parts(&parse(">infinite")), (Op::Gt, "'infinite'".to_string(), None));
    assert_eq!(parts(&parse("=inf")), (Op::Eq, "'inf'".to_string(), None));
    assert_eq!(parts(&parse("<>Infinity")), (Op::Ne, "'Infinity'".to_string(), None));
    assert_eq!(parts(&parse("Nan")), (Op::Eq, "'Nan'".to_string(), None));
    assert_eq!(parts(&parse("1e999")), (Op::Eq, "inf".to_string(), None));
}

#[test]
fn plain_values_are_equalities() {
    let c = parse_criteria(&num(7.0)).unwrap();
    assert_eq!(parts(&c), (Op::Eq, "7".to_string(), None));
    let c = parse_criteria(&CellValue::Empty).unwrap();
    assert_eq!(parts(&c), (Op::Eq, "blank".to_string(), None));
}

#[test]
fn wildcards_with_an_order_are_refused() {
    for s in [">appl*", "<a?", ">= b*", "<=*"] {
        assert!(parse_criteria(&text(s)).is_err(), "{}", s);
    }
    let e = parse_criteria(&text(">= b\"*")).unwrap_err();
    assert_eq!(
        e.message(),
        "Invalid criteria \">= b\\\"*\": a wildcard ('*' or '?') can't be combined with the '>=' comparison operator. Wildcards only work with equality ('=') or not-equal ('<>') — e.g. \"=b\"*\" or \"<>b\"*\"."
    );
}

#[test]
fn operators_are_split_off() {
    let (op, rest) = split_operator("<= 12 ");
    assert_eq!((op, rest.as_str()), (Some(Op::Le), "12"));
    let (op, rest) = split_operator("12 ");
    assert_eq!((op, rest.as_str()), (None, "12"));
    let (op, rest) = split_operator("\u{a0}x\u{2003}");
    assert_eq!((op, rest.as_str()), (None, "x"));
    assert_eq!(Op::Ge.symbol(), ">=");
}

#[test]
fn numbers_are_compared() {
    assert!(holds(">10", &num(10.5)));
    assert!(!holds(">10", &num(10.0)));
    assert!(holds(">=10", &num(10.0)));
    assert!(holds("<10", &num(9.0)));
    assert!(holds("<=10", &num(10.0)));
    assert!(holds("=0.3", &num(0.1 + 0.2)));
    assert!(!holds("<>0.3", &num(0.1 + 0.2)));
    assert!(holds("<>0", &num(1.0)));
    assert!(!holds("=1e999", &num(f64::INFINITY)));
    assert!(!holds("<>1e999", &num(f64::INFINITY)));
}

#[test]
fn words_for_numbers_are_compared_by_order() {
    assert!(holds("<inf", &num(5.0)));
    assert!(!holds("<inf", &num(f64::INFINITY)));
    assert!(holds(">-infinity", &num(-5.0)));
    assert!(!holds(">inf", &num(5.0)));
    assert!(!holds("<inf", &text("apple")));
    assert!(!holds("<nan", &num(5.0)));
    assert!(!holds(">=nan", &num(5.0)));
    assert!(holds("inf", &text("INF")));
    assert!(!holds("inf", &num(f64::INFINITY)));
    assert!(!holds("<>nan", &text("Nan")));
}

#[test]
fn texts_are_compared_without_case() {
    assert!(holds("APPLE", &text("apple")));
    assert!(holds("=CAFÉ", &text("café")));
    assert!(!holds("<>Apple", &text("aPPLE")));
    assert!(holds(">b", &text("C")));
    assert!(holds(">=b", &text("B")));
    assert!(holds("<b", &text("A")));
    assert!(holds("<=b", &text("B")));
    assert!(!holds("<b", &text("ba")));
}

#[test]
fn different_sorts_of_cells_are_unequal() {
    assert!(!holds("5", &text("5")));
    assert!(holds("<>5", &text("5")));
    assert!(holds("<>5", &CellValue::Empty));
    assert!(!holds(">5", &text("6")));
    assert!(!holds("abc", &num(1.0)));
    assert!(holds("<>abc", &num(1.0)));
    assert!(!holds("abc", &CellValue::Empty));
}

#[test]
fn blank_criteria_match_blank_cells() {
    let c = parse_criteria(&CellValue::Empty).unwrap();
    assert!(magpyxl::criteria::matches(&CellValue::Empty, &c));
    assert!(!magpyxl::criteria::matches(&num(0.0), &c));
    assert!(!magpyxl::criteria::matches(&text(""), &c));
}

#[test]
fn patterns_match_texts_alone() {
    assert!(holds("ab*", &text("ABC")));
    assert!(!holds("ab*", &text("cab")));
    assert!(holds("a?c", &text("abc")));
    assert!(!holds("a?c", &text("ac")));
    assert!(holds("<>a?c", &text("ac")));
    assert!(!holds("<>a*", &num(1.0)));
    assert!(!holds("*", &CellValue::Empty));
    assert!(!holds("*", &num(1.0)));
}

#[test]
fn wildcards_stand_for_characters() {
    assert!(wildcard_match("*", ""));
    assert!(wildcard_match("*berry", "Strawberry"));
    assert!(!wildcard_match("?", ""));
    assert!(wildcard_match("?", "É"));
    assert!(wildcard_match("a*b*c", "aXXbYYc"));
    assert!(!wildcard_match("a*b*c", "aXXbYY"));
    assert!(wildcard_match("**", "x"));
    assert!(wildcard_match("", ""));
    assert!(!wildcard_match("", "x"));
    assert!(wildcard_match("plain", "PLAIN"));
    assert!(wildcard_match(&"a*".repeat(25), &"a".repeat(200)));
    assert!(!wildcard_match(&format!("{}b", "a*".repeat(25)), &"a".repeat(200)));
}

#[test]
fn bare_text_is_equality() {
    for s in ["apple", "3.5", "a*", "inf"] {
        let bare = parse(s);
        let equal = parse(&format!("={}", s));
        assert_eq!(parts(&bare), parts(&equal));
    }
}

#[test]
fn words_are_texts() {
    for word in ["nan", "Nan", "inf", "INF", "Infinity", "-inf", "+nan"] {
        assert!(holds(word, &text(word)));
        assert!(holds(&word.to_uppercase(), &text(word)));
        assert!(!holds(word, &num(f64::INFINITY)));
        assert!(!holds(&format!("<>{}", word), &text(word)));
    }
}

#[test]
fn case_does_not_matter() {
    assert!(text_eq_ci("Straße", "STRAßE"));
    assert!(text_eq_ci("hello", "HELLO"));
    assert!(!text_eq_ci("hello", "hell0"));
    assert!(!text_eq_ci("[", "{"));
    assert!(text_eq_ci("ΑΒΓ", "αβγ"));
    assert!(!text_eq_ci("a", "aa"));
}

#[test]
fn unequal_is_not_equal() {
    for cell in [num(1.0), num(2.5), text("x"), text("1"), CellValue::Empty] {
        for c in ["1", "2.5", "x", "y"] {
            assert_ne!(
                holds(&format!("={}", c), &cell),
                holds(&format!("<>{}", c), &cell)
            );
        }
    }
}

#[test]
fn number_literals_are_those_that_parse() {
    for s in [
        "1", "-1", "+1", "1.", ".5", "-.5", "1e5", "1E-5", "1e+5", "1.5e10", "inf", "-INF", "Infinity", "nan", "+NaN",
        "", ".", "-", "e5", "1e", "1e+", "1.2.3", "1 ", " 1", "0x10", "1_000", "infin", "nanx", "--1", "1e5.5", "١",
        "12345678901234567890", "1,5", "+", "1e400",
    ] {
        assert_eq!(is_number_literal(s), s.parse::<f64>().is_ok(), "{:?}", s);
    }
}

#[test]
fn decimals_become_the_doubles_that_std_reads() {
    let mut texts: Vec<String> = Vec::new();
    for s in [
        "0", "-0", "0.0", "1", "-1", "+1.5", "0.1", "0.2", "0.3", "3.14159265358979", "1e22", "1e23", "8.5e22",
        "9007199254740993", "9007199254740992.5", "9007199254740993.0000000000000000000001", "1e308", "1.7976931348623157e308",
        "1.7976931348623158e308", "1.7976931348623159e308", "1.8e308", "1e309", "1e400", "1e99999999999999999999999999",
        "-1e99999999999999999999999999", "1e-99999999999999999999999999", "0e99999999999999999999999999", "5e-324",
        "4.9e-324", "2.5e-324", "2.4703282292062327e-324", "2.4703282292062328e-324", "1e-323", "1e-400",
        "2.2250738585072011e-308", "2.2250738585072014e-308", "2.2250738585072012e-308", "6.631236846766476e-316",
        "123456789012345678901234567890", "0.000000000000000000000000000000000001", ".5", "5.", "1e+5", "1E-5", "00012.500",
        "1e-9", "9.999999999999999e-10", "4503599627370496.5", "4503599627370497.5", "1.00000000000000011102230246251565404236316680908203125",
        "1.00000000000000011102230246251565404236316680908203124", "1.00000000000000011102230246251565404236316680908203126",
        "179769313486231580793728971405303415079934132710037826936173778980444968292764750946649017977587207096330286416692887910946555547851940402630657488671505820681908902000708383676273854845817711531764475730270069855571366959622842914819860834936475292719074168444365510704342711559699508093042880",
        "179769313486231580793728971405303415079934132710037826936173778980444968292764750946649017977587207096330286416692887910946555547851940402630657488671505820681908902000708383676273854845817711531764475730270069855571366959622842914819860834936475292719074168444365510704342711559699508093042879",
    ] {
        texts.push(s.to_string());
    }
    let mut seed: u64 = 0x9e3779b97f4a7c15;
    for k in 0..3000u64 {
        seed ^= seed << 13;
        seed ^= seed >> 7;
        seed ^= seed << 17;
        let exponent = (seed % 700) as i64 - 350;
        texts.push(match k % 4 {
            0 => format!("{}e{}", seed, exponent),
            1 => format!("{:e}", f64::from_bits(seed)),
            2 => format!("{}.{}", seed % 100000, seed / 7),
            _ => format!("-0.{:020}e{}", seed, exponent),
        });
    }
    for s in texts {
        match s.parse::<f64>() {
            Ok(x) if !x.is_nan() && !s.contains("inf") => {
                assert_eq!(parse_decimal(&s).map(|r| r.bits), Some(x.to_bits()), "{}", s)
            }
            _ => assert!(parse_decimal(&s).is_none(), "{}", s),
        }
    }
}

#[test]
fn words_are_no_decimals() {
    for s in ["inf", "-Infinity", "NaN", "12x", "", "-"] {
        assert_eq!(parse_decimal(s), None);
    }
}

#[test]
fn dates_are_recognized() {
    assert!(looks_like_date("2024-01-15"));
    assert!(looks_like_date("1/2/2024"));
    assert!(looks_like_date("2024/1-5"));
    assert!(!looks_like_date("01-02-03"));
    assert!(!looks_like_date("2024-01"));
    assert!(!looks_like_date("2024-01-155"));
    assert!(!looks_like_date("2024--15"));
    assert!(!looks_like_date("20245-1-1"));
    assert!(!looks_like_date("abcd-ef-gh"));
    assert!(!looks_like_date("1-2-3"));
}

#[test]
fn python_values_make_cells() {
    let cell = |raw: RawValue| match CellValue::from_py(&raw) {
        CellValue::Num(x) => format!("{}", f64::from_bits(x.bits)),
        CellValue::Text(s) => format!("'{}'", s),
        CellValue::Empty => "blank".to_string(),
    };
    assert_eq!(cell(RawValue::Nothing), "blank");
    assert_eq!(cell(RawValue::Bool(true)), "1");
    assert_eq!(cell(RawValue::Bool(false)), "0");
    assert_eq!(cell(RawValue::Float(n(2.5))), "2.5");
    assert_eq!(cell(RawValue::Float(n(f64::NAN))), "blank");
    assert_eq!(
        cell(RawValue::Int { number: Some(n(3.0)), text: Some("3".to_string()) }),
        "3"
    );
    assert_eq!(
        cell(RawValue::Int { number: Some(n(f64::NAN)), text: Some("3".to_string()) }),
        "blank"
    );
    assert_eq!(
        cell(RawValue::Int { number: None, text: Some("1000".to_string()) }),
        "'1000'"
    );
    assert_eq!(cell(RawValue::Str(" \t\u{3000}".to_string())), "blank");
    assert_eq!(cell(RawValue::Str(" x ".to_string())), "' x '");
    assert_eq!(
        cell(RawValue::Other { number: Some(n(f64::NAN)), text: None }),
        "blank"
    );
    assert_eq!(
        cell(RawValue::Other { number: Some(n(5.0)), text: None }),
        "5"
    );
    assert_eq!(
        cell(RawValue::Other { number: None, text: Some("2024-01-01".to_string()) }),
        "'2024-01-01'"
    );
    assert_eq!(cell(RawValue::Other { number: None, text: None }), "blank");
}

#[test]
fn cells_and_keys() {
    assert!(values_equal(&num(0.3), &num(0.1 + 0.2)));
    assert!(values_equal(&text("A"), &text("a")));
    assert!(values_equal(&CellValue::Empty, &CellValue::Empty));
    assert!(!values_equal(&num(1.0), &text("1")));
    assert!(matches!(cell_to_key(&text("ABC")), LookupKey::Text(s) if s == "abc"));
    assert!(matches!(cell_to_key(&text("ÀB")), LookupKey::Text(s) if s == "àb"));
    assert!(matches!(cell_to_key(&num(2.0)), LookupKey::Num(x) if x == n(2.0)));
    assert!(matches!(cell_to_key(&CellValue::Empty), LookupKey::Empty));
    assert_eq!(num(2.0).number(), Some(n(2.0)));
    assert_eq!(text("2").number(), None);
    assert!(matches!(criteria_key(&parse("Abc")), Some(LookupKey::Text(s)) if s == "abc"));
    assert!(criteria_key(&parse(">1")).is_none());
    assert!(criteria_key(&parse("a*")).is_none());
}
