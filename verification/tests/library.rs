use numen::currency::{convert_currency, json_number, JsonDoc, JsonField, JsonLeaf, RateTable};
use numen::num::Num;
use numen::parser::{parse_line, Expr, NumenParser, Op};
use numen::units::{convert_unit, lookup_unit, Dimension};
use numen::value::ResultValue;

#[test]
fn lookup_unit_ignores_case_and_blanks() {
    let km = lookup_unit("  KM ").unwrap();
    assert_eq!(km.canonical_name, "meter");
    assert_eq!(km.dimension, Dimension::Length);
    assert_eq!((km.factor.numer(), km.factor.denom()), (1000, 1));
    let mile = lookup_unit("miles").unwrap();
    assert_eq!((mile.factor.numer(), mile.factor.denom()), (201168, 125));
    let lbs = lookup_unit("pounds").unwrap();
    assert_eq!(lbs.dimension, Dimension::Mass);
    assert_eq!((lbs.factor.numer(), lbs.factor.denom()), (45359237, 100000));
    assert!(lookup_unit("parsec").is_none());
}

#[test]
fn convert_unit_values_and_errors() {
    let v = convert_unit(Num::from_int(90), "min", "h").unwrap();
    assert_eq!((v.numer(), v.denom()), (3, 2));
    assert_eq!(convert_unit(Num::from_int(1), "furlong", "m").unwrap_err(), "Unknown unit: 'furlong'");
    assert_eq!(convert_unit(Num::from_int(1), "m", "parsec").unwrap_err(), "Unknown unit: 'parsec'");
    assert_eq!(
        convert_unit(Num::from_int(1), "kg", "s").unwrap_err(),
        "Cannot convert from 'kg' to 's' (mismatched dimensions)"
    );
}

#[test]
fn converting_to_same_unit_keeps_value() {
    let x = Num::fraction(7, 3);
    let y = convert_unit(x, "km", "kilometers").unwrap();
    assert_eq!(y, x);
}

#[test]
fn num_arithmetic_is_exact() {
    let a = Num::fraction(1, 3);
    let b = Num::fraction(1, 6);
    let s = a.add(&b).unwrap();
    assert_eq!((s.numer(), s.denom()), (1, 2));
    let d = a.sub(&b).unwrap();
    assert_eq!((d.numer(), d.denom()), (1, 6));
    let p = a.mul(&Num::from_int(3)).unwrap();
    assert_eq!((p.numer(), p.denom()), (1, 1));
    let q = a.div(&Num::fraction(-2, 3)).unwrap();
    assert_eq!((q.numer(), q.denom()), (-1, 2));
    assert!(Num::from_int(i64::MAX).add(&Num::from_int(1)).is_none());
    assert!(Num::ratio(1, 0).is_none());
    let r = Num::ratio(6, -4).unwrap();
    assert_eq!((r.numer(), r.denom()), (-3, 2));
}

#[test]
fn currency_conversion() {
    let rates = RateTable::default_rates();
    let v = convert_currency(Num::from_int(92), "eur", "usd", &rates).unwrap();
    assert_eq!((v.numer(), v.denom()), (100, 1));
    let same = convert_currency(Num::from_int(5), "abc", "ABC", &rates).unwrap();
    assert_eq!(same, Num::from_int(5));
    assert_eq!(
        convert_currency(Num::from_int(1), "usd", "xyz", &rates).unwrap_err(),
        "Unsupported currency: 'XYZ'"
    );
}

#[test]
fn rates_from_json_nested_and_flat() {
    let nested = RateTable::from_json("{\"base\": \"USD\", \"rates\": {\"USD\": 1, \"EUR\": 0.5}}").unwrap();
    let v = convert_currency(Num::from_int(3), "USD", "EUR", &nested).unwrap();
    assert_eq!((v.numer(), v.denom()), (3, 2));
    let alt = RateTable::from_json("{\"conversion_rates\": {\"USD\": 1, \"GBP\": 2}}").unwrap();
    let g = convert_currency(Num::from_int(3), "USD", "GBP", &alt).unwrap();
    assert_eq!((g.numer(), g.denom()), (6, 1));
    let flat = RateTable::from_json("{\"USD\": 1.0, \"JPY\": 1.5e2}").unwrap();
    let j = convert_currency(Num::from_int(2), "USD", "JPY", &flat).unwrap();
    assert_eq!((j.numer(), j.denom()), (300, 1));
    assert!(RateTable::from_json("{\"rates\": \"none\", \"note\": \"x\"}").is_none());
    assert!(RateTable::from_json("not json").is_none());
    assert!(RateTable::from_json("[1, 2]").is_none());
}

#[test]
fn rates_with_an_unrepresentable_member_keep_the_others() {
    let t = RateTable::from_json("{\"USD\": 1, \"EUR\": 0.5, \"XTI\": 1e-20}").unwrap();
    let v = convert_currency(Num::from_int(4), "USD", "EUR", &t).unwrap();
    assert_eq!((v.numer(), v.denom()), (2, 1));
    assert!(convert_currency(Num::from_int(4), "USD", "XTI", &t).is_err());
}

#[test]
fn json_number_texts() {
    let a = json_number("0.92").unwrap();
    assert_eq!((a.numer(), a.denom()), (23, 25));
    let b = json_number("-1e3").unwrap();
    assert_eq!((b.numer(), b.denom()), (-1000, 1));
    let c = json_number("2.5E-2").unwrap();
    assert_eq!((c.numer(), c.denom()), (1, 40));
    assert!(json_number("1e400").is_none());
}

#[test]
fn parse_line_builds_expressions() {
    let exprs = parse_line("Total = 2 + 3 * 4 # note").unwrap();
    assert_eq!(exprs.len(), 1);
    match &exprs[0] {
        Expr::Assign(name, value) => {
            assert_eq!(name, "total");
            match value.as_ref() {
                Expr::Binary(_, Op::Add, rhs) => match rhs.as_ref() {
                    Expr::Binary(_, Op::Mul, _) => {}
                    other => panic!("unexpected {:?}", other),
                },
                other => panic!("unexpected {:?}", other),
            }
        }
        other => panic!("unexpected {:?}", other),
    }
}

#[test]
fn parse_line_items() {
    let exprs = NumenParser::parse("a: 5 km, €20 and 7%").unwrap();
    assert_eq!(exprs.len(), 5);
    assert!(matches!(&exprs[0], Expr::Variable(v) if v == "a"));
    assert!(matches!(&exprs[1], Expr::Unit(_, u) if u == "km"));
    assert!(matches!(&exprs[2], Expr::Currency(_, c) if c == "EUR"));
    assert!(matches!(&exprs[3], Expr::Variable(v) if v == "and"));
    assert!(matches!(&exprs[4], Expr::Percentage(_)));
    assert_eq!(parse_line("5 \u{1}").unwrap_err(), "Cannot parse input at column 3");
}

#[test]
fn display_of_values() {
    let v = ResultValue::Currency(Num::fraction(25, 2), "CAD".to_string());
    assert_eq!(v.display_string(), "12.50 CAD");
    let p = ResultValue::Percentage(Num::fraction(1, 3));
    assert_eq!(p.display_string(), "0.3333333333333333%");
    assert_eq!(ResultValue::Empty.display_string(), "");
    assert_eq!(ResultValue::Error("bad".to_string()).display_string(), "Error: bad");
    let u = ResultValue::Unit(Num::fraction(-3, 2), "m".to_string());
    assert_eq!(u.display_string(), "-1.5 m");
}

#[test]
fn rates_from_a_parsed_document() {
    let nested = JsonDoc::Object(vec![
        ("base".to_string(), JsonField::Other),
        (
            "rates".to_string(),
            JsonField::Object(vec![
                ("USD".to_string(), JsonLeaf::Number("1".to_string())),
                ("EUR".to_string(), JsonLeaf::Number("0.25".to_string())),
            ]),
        ),
    ]);
    let t = RateTable::from_document(&nested).unwrap();
    let v = convert_currency(Num::from_int(8), "USD", "EUR", &t).unwrap();
    assert_eq!((v.numer(), v.denom()), (2, 1));
    let bad = JsonDoc::Object(vec![("USD".to_string(), JsonField::Other)]);
    assert!(RateTable::from_document(&bad).is_none());
    assert!(RateTable::from_document(&JsonDoc::Other).is_none());
}

#[test]
fn conversions_there_and_back_give_the_same_number() {
    let v = Num::ratio(7, 3).unwrap();
    let miles = convert_unit(v, "km", "miles").unwrap();
    let back = convert_unit(miles, "miles", "km").unwrap();
    assert_eq!((back.numer(), back.denom()), (7, 3));
    let same = convert_unit(v, "kg", "kg").unwrap();
    assert_eq!((same.numer(), same.denom()), (7, 3));
    let rates = RateTable::default_rates();
    let eur = convert_currency(v, "usd", "EUR", &rates).unwrap();
    let usd = convert_currency(eur, "EUR", "USD", &rates).unwrap();
    assert_eq!((usd.numer(), usd.denom()), (7, 3));
}

#[test]
fn converting_from_a_currency_with_a_zero_rate_gives_an_infinity() {
    let t = RateTable::from_json("{\"USD\": 1, \"XZR\": 0}").unwrap();
    let v = convert_currency(Num::from_int(5), "XZR", "USD", &t).unwrap();
    assert!(!v.is_finite());
    assert_eq!(ResultValue::Currency(v, "USD".to_string()).display_string(), "$inf");
    let w = convert_currency(Num::from_int(5), "USD", "XZR", &t).unwrap();
    assert!(w.is_zero());
}
