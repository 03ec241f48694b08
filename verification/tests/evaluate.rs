use numen::currency::RateTable;
use numen::eval::{evaluate_document, evaluate_document_with_powers, sum_results, PowerTable};
use numen::value::ResultValue;
use numen::num::Num;

fn run(lines: &[&str]) -> Vec<String> {
    let owned: Vec<String> = lines.iter().map(|s| s.to_string()).collect();
    evaluate_document(&owned, &RateTable::default_rates())
}

#[test]
fn test_eval() {
    let val = evaluate_document(&["20 mins + 45 mins".to_string()], &RateTable::default_rates());
    assert_eq!(val, vec!["65 mins".to_string()]);
}

#[test]
fn test_prose_and_parentheses() {
    let lines = vec![
        "# Numen — Natural Language Notepad Calculator".to_string(),
        "# 4. Active Currencies (Multi-Currency Support)".to_string(),
        "Total distance in miles: 3.5 miles + 2 km in miles".to_string(),
    ];
    let val = evaluate_document(&lines, &RateTable::default_rates());
    assert_eq!(val[0], "");
    assert_eq!(val[1], "");
    assert_eq!(val[2], "4.7427 miles");
}

#[test]
fn test_variables() {
    let lines = vec![
        "NoahYears2Go = 8".to_string(),
        "LaraYears2Go = 11".to_string(),
        "KidsYears2Go = NoahYears2Go + LaraYears2Go".to_string(),
    ];
    let val = evaluate_document(&lines, &RateTable::default_rates());
    assert_eq!(val[0], "8");
    assert_eq!(val[1], "11");
    assert_eq!(val[2], "19");
}

#[test]
fn salary_line_ignores_prose() {
    assert_eq!(run(&["Salary $5000 - $1200 tax"]), vec!["$3800"]);
}

#[test]
fn budget_lines_refer_to_earlier_lines() {
    let out = run(&[
        "Salary $5000 - $1200 tax",
        "Health insurance: $350",
        "Rent: $1500",
        "line2 + line3",
        "line1 - ans",
    ]);
    assert_eq!(out, vec!["$3800", "$350", "$1500", "$1850", "$1950"]);
}

#[test]
fn variables_are_case_insensitive() {
    assert_eq!(run(&["Width = 12", "width * 2", "WIDTH + 1"]), vec!["12", "24", "13"]);
}

#[test]
fn unknown_variable_in_operation_is_an_error() {
    let out = run(&["NoahYears2Go = 8", "NoahYears2Go + LaraYears2Goo"]);
    assert_eq!(out[1], "Error: Cannot perform Add on Number and Empty");
}

#[test]
fn ans_and_line_references() {
    let out = run(&["10", "ans + 100", "line1 * 12", "line0", "line9", "ans"]);
    assert_eq!(out[1], "110");
    assert_eq!(out[2], "120");
    assert_eq!(out[3], "Error: Lines are 1-indexed");
    assert_eq!(out[4], "Error: Line 9 has not been evaluated yet");
    assert_eq!(out[5], "Error: Depends on line with error: Line 9 has not been evaluated yet");
}

#[test]
fn ans_on_first_line_is_an_error() {
    assert_eq!(run(&["ans"]), vec!["Error: No previous line results (ans)"]);
}

#[test]
fn reference_to_line_with_error() {
    let out = run(&["5 / 0", "line1 + 1"]);
    assert_eq!(out[0], "Error: Division by zero");
    assert_eq!(out[1], "Error: Depends on line 1 with error: Division by zero");
}

#[test]
fn unit_conversions() {
    let out = run(&["300 meters + 2 kilometers in miles", "3 hours 20 mins + 45 mins", "5 kg in lbs"]);
    assert_eq!(out[0], "1.4292 miles");
    assert_eq!(out[1], "4.0833 hours");
    assert_eq!(out[2], "11.0231 lbs");
}

#[test]
fn mismatched_dimensions() {
    assert_eq!(
        run(&["5 km in hours"]),
        vec!["Error: Cannot convert from 'km' to 'hours' (mismatched dimensions)"]
    );
}

#[test]
fn percentages() {
    let out = run(&["20% of 50", "100 + 10%", "100 - 25%", "$80 * 50%", "12.5%", "50 / 25%"]);
    assert_eq!(out, vec!["10", "110", "75", "$40", "12.5%", "200"]);
}

#[test]
fn word_operators_and_precedence() {
    let out = run(&["2 plus 3 times 4", "10 minus 4 divided by 2", "2 ^ 3 ^ 2", "-(3 + 4) * 2", "7 over 2"]);
    assert_eq!(out, vec!["14", "8", "64", "-14", "3.5"]);
}

#[test]
fn rounding_of_fractions() {
    let out = run(&["1 / 3", "2 / 3", "1 / 32", "-1 / 100000", "1,000,000 / 8"]);
    assert_eq!(out, vec!["0.3333", "0.6667", "0.0312", "-0", "125000"]);
}

#[test]
fn currency_conversion_with_default_rates() {
    let out = run(&["$100 in EUR", "100 EUR in usd", "100 CAD + $10", "5 XYZ in USD"]);
    assert_eq!(out[0], "€92");
    assert_eq!(out[1], "$108.70");
    assert_eq!(out[2], "113.60 CAD");
    assert_eq!(out[3], "Error: Unsupported currency: 'XYZ'");
}

#[test]
fn number_converted_to_currency_or_unit() {
    let out = run(&["12 in km", "12 in gbp"]);
    assert_eq!(out, vec!["12 km", "£12"]);
}

#[test]
fn blank_lines_and_comments_have_no_value() {
    let out = run(&["", "   \t ", "// a note", "just words"]);
    assert_eq!(out, vec!["", "", "", ""]);
}

#[test]
fn division_errors() {
    let out = run(&["5 km / 0", "5 / 0%", "0 ^ -1", "2 ^ 0.5"]);
    assert_eq!(out[0], "Error: Division by zero");
    assert_eq!(out[1], "inf");
    assert_eq!(out[2], "inf");
    assert_eq!(out[3], "Error: Only whole-number exponents are supported");
}

#[test]
fn unsupported_operations() {
    let out = run(&["2 km * 3 km", "2 km ^ 3 km", "5% + 3", "$5 * $5", "3 - 2 km", "20% in km"]);
    assert_eq!(out[0], "Error: Multiplication of two units is not supported");
    assert_eq!(out[1], "Error: Operation not supported for units");
    assert_eq!(out[2], "Error: Unsupported operation with percentage");
    assert_eq!(out[3], "Error: Operation not supported for currencies");
    assert_eq!(out[4], "Error: Operation not supported");
    assert_eq!(out[5], "Error: Cannot convert this value type");
}

#[test]
fn summing_mismatched_values() {
    assert_eq!(run(&["5 km 3"]), vec!["Error: Cannot sum mismatched types: Unit(5.0, \"km\") and Number(3.0)"]);
    assert_eq!(
        run(&["2.5 km 0.5", "$3 10%"]),
        vec![
            "Error: Cannot sum mismatched types: Unit(2.5, \"km\") and Number(0.5)",
            "Error: Cannot sum mismatched types: Currency(3.0, \"USD\") and Percentage(10.0)",
        ]
    );
}

#[test]
fn overflow_is_reported() {
    assert_eq!(run(&["10 ^ 30"]), vec!["Error: Numeric overflow"]);
}

#[test]
fn unparsable_line() {
    assert_eq!(run(&["5 \u{0}"]), vec!["Error: Cannot parse input at column 3"]);
}

#[test]
fn assignment_of_error_is_not_bound() {
    let out = run(&["x = 1 / 0", "x"]);
    assert_eq!(out, vec!["Error: Division by zero", ""]);
}

#[test]
fn large_whole_numbers() {
    assert_eq!(run(&["9,223,372,036,854,775,807"]), vec!["9223372036854775807"]);
}

#[test]
fn notepad_session() {
    let out = run(&["price = $1,200", "tax = 8.5%", "price + tax", "5 km in miles", "ans * 2", "line1 * 2"]);
    assert_eq!(out, vec!["$1200", "8.5%", "$1302", "3.1069 miles", "6.2137 miles", "$2400"]);
}

#[test]
fn percentages_shown_in_full() {
    let out = run(&["0.00000000000000001%", "third = 1 / 3", "third%", "0.125%"]);
    assert_eq!(out[0], "0.00000000000000001%");
    assert_eq!(out[2], "0.3333333333333333%");
    assert_eq!(out[3], "0.125%");
}

#[test]
fn line_sums_skip_prose_and_keep_the_first_error() {
    let out = run(&["rent 5 and food 3", "5 / 0 line9", "5 km 3 line9"]);
    assert_eq!(out[0], "8");
    assert_eq!(out[1], "Error: Division by zero");
    assert_eq!(out[2], "Error: Cannot sum mismatched types: Unit(5.0, \"km\") and Number(3.0)");
}

#[test]
fn mismatch_messages_use_exponent_form_for_large_and_tiny_numbers() {
    let out = run(&["10,000,000,000,000,000 5 km", "0.00001 2 km", "0.000015 2 km", "0.0001 2 km"]);
    assert_eq!(out[0], "Error: Cannot sum mismatched types: Number(1e16) and Unit(5.0, \"km\")");
    assert_eq!(out[1], "Error: Cannot sum mismatched types: Number(1e-5) and Unit(2.0, \"km\")");
    assert_eq!(out[2], "Error: Cannot sum mismatched types: Number(1.5e-5) and Unit(2.0, \"km\")");
    assert_eq!(out[3], "Error: Cannot sum mismatched types: Number(0.0001) and Unit(2.0, \"km\")");
}

#[test]
fn infinities_and_nan_from_zero_divisors() {
    let out = run(&[
        "-5 / 0%",
        "0 / 0%",
        "$5 / 0%",
        "5 km / 0%",
        "5 / 0% - 5 / 0%",
        "1 / (5 / 0%)",
        "(5 / 0%) * 0",
        "x = 5 / 0%",
        "x%",
        "(-2) ^ -1 * 0 ^ -3",
        "5 / 0% 3 km",
        "(5 / 0%) ^ 0",
    ]);
    assert_eq!(out[0], "-inf");
    assert_eq!(out[1], "NaN");
    assert_eq!(out[2], "$inf");
    assert_eq!(out[3], "inf km");
    assert_eq!(out[4], "NaN");
    assert_eq!(out[5], "0");
    assert_eq!(out[6], "NaN");
    assert_eq!(out[7], "inf");
    assert_eq!(out[8], "inf%");
    assert_eq!(out[9], "-inf");
    assert_eq!(out[10], "Error: Cannot sum mismatched types: Number(inf) and Unit(3.0, \"km\")");
    assert_eq!(out[11], "1");
}

#[test]
fn powers_with_non_whole_exponents_come_from_the_table() {
    let rates = RateTable::default_rates();
    let lines: Vec<String> = ["2 ^ 0.5", "x = 4 ^ 0.5", "x + 1", "2 ^ 0.5 * 2"].iter().map(|s| s.to_string()).collect();
    let mut table = PowerTable::new();
    let mut missing: Vec<(Num, Num)> = Vec::new();
    let first = evaluate_document_with_powers(&lines, &rates, &table, &mut missing);
    assert_eq!(first[0], "Error: Only whole-number exponents are supported");
    assert_eq!(missing.len(), 3);
    let pair = |m: &(Num, Num)| (m.0.numer(), m.0.denom(), m.1.numer(), m.1.denom());
    assert_eq!(pair(&missing[0]), (2, 1, 1, 2));
    assert_eq!(pair(&missing[1]), (4, 1, 1, 2));
    let f = (2.0f64).powf(0.5);
    assert!((f - 1.4142135623730951).abs() < 1e-15);
    table.insert(Num::from_int(2), Num::ratio(1, 2).unwrap(), Num::ratio(6369051672525773, 1i64 << 52));
    table.insert(Num::from_int(4), Num::ratio(1, 2).unwrap(), Some(Num::from_int(2)));
    let mut again: Vec<(Num, Num)> = Vec::new();
    let second = evaluate_document_with_powers(&lines, &rates, &table, &mut again);
    assert!(again.is_empty());
    assert_eq!(second, vec!["1.4142", "2", "3", "2.8284"]);
}

#[test]
fn literals_with_many_decimals_are_rounded_to_eighteen() {
    let out = run(&[
        "0.1234567890123456789",
        "x = 1.0000000000000000005",
        "x",
        "0.0000000000000000000000000000000000000000001",
        "$2.999999999999999999999",
        "0.0000000000000000005%",
    ]);
    assert_eq!(out[0], "0.1235");
    assert_eq!(out[1], "1");
    assert_eq!(out[2], "1");
    assert_eq!(out[3], "0");
    assert_eq!(out[4], "$3");
    assert_eq!(out[5], "0%");
}

#[test]
fn summing_results_directly() {
    let rates = RateTable::default_rates();
    assert!(matches!(sum_results(vec![], &rates), ResultValue::Empty));
    let total = sum_results(
        vec![ResultValue::Empty, ResultValue::Number(Num::from_int(2)), ResultValue::Empty, ResultValue::Number(Num::from_int(5))],
        &rates,
    );
    assert_eq!(total.display_string(), "7");
    let first_error = sum_results(
        vec![
            ResultValue::Number(Num::from_int(1)),
            ResultValue::Error("first".to_string()),
            ResultValue::Error("second".to_string()),
        ],
        &rates,
    );
    assert_eq!(first_error.display_string(), "Error: first");
}
