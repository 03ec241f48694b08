# numen

The evaluation engine of a natural-language notepad calculator, written in
Verus. A document is a list of lines; each line shows a number, an amount with
a unit or a currency, a percentage, an error message, or nothing (comments,
prose and blank lines).

```text
price = $1,200       -> $1200
tax = 8.5%           -> 8.5%
price + tax          -> $1302
5 km in miles        -> 3.1069 miles
ans * 2              -> 6.2137 miles
line1 * 2            -> $2400
```

## What is proved

Every function of the library states its result in `ensures` over a
mathematical model and is verified by Verus:

- numbers are exact rationals in lowest terms, or an infinity or NaN (`num`);
  every operation on finite numbers either gives the exact result or reports
  "Numeric overflow" exactly when the reduced result does not fit in 64-bit
  numerator and denominator;
- the line grammar (documented in `parser`) is a spec function on characters,
  and the parser returns exactly what it describes;
- unit and currency conversion, the display of values, variables, `ans`,
  `lineN` references and the adding up of the values on one line are
  specified, and `evaluate_document` returns exactly `spec_evaluate_document`;
- `laws` states properties that span several calls (read after write,
  earlier lines are unaffected by later ones, round trips of conversions,
  error propagation, ...), each as a proved proof function.

## Numbers

Numbers are exact fractions in lowest terms, never floating point. Dividing
by a zero percentage, converting from a currency whose rate is zero and
raising zero to a negative power give an infinity or NaN (`inf`, `-inf`,
`NaN`), which later operations carry on as IEEE arithmetic does.

Powers with whole-number exponents are computed exactly. A power with any
other exponent (`2 ^ 0.5`) is taken from a table of computed powers that the
caller supplies (`evaluate_document_with_powers`): the library lists the
powers the table lacks, and the Python module computes them with
`f64::powf`, adds them and evaluates again. Without such a table
(`evaluate_document`) these powers show
`Error: Only whole-number exponents are supported`.

A few things are answered with an error instead of a value:

- a finite result whose numerator or denominator (in lowest terms) does not
  fit in 64 bits shows `Error: Numeric overflow`;
- a number literal with more than 18 decimals is rounded to 18 decimals; its
  digits must form an integer that fits in 64 bits (below `10^37` for one
  that is rounded), else the line does not parse;
- a rate in a rate file that cannot be represented (such as `1e-20`) is left
  out of the table, and the other rates are used;
- a line that does not parse shows `Error: Cannot parse input at column N`;
- percentages are shown in full when they have at most 18 decimals, else
  rounded to 16 decimals.

## Layout

- `src/num.rs` exact rationals
- `src/text.rs` digits, decimal display and character helpers
- `src/units.rs` units, dimensions and unit conversion
- `src/lexer.rs` scanners for blanks, numbers, words and keywords
- `src/parser.rs` the grammar and its parser
- `src/currency.rs` exchange-rate tables, conversion, and reading rates from JSON
- `src/value.rs` result values and how they are shown
- `src/eval.rs` evaluation of expressions, lines and documents
- `src/laws.rs` properties of the library as a whole
- `app/lib.rs` the Python extension module, the reading of the rate file and
  the computing of powers with non-whole exponents
- `tests/` scenario tests

Outside crates: `pest` (Unicode character classes), `serde_json` (parsing the
rate file), `pyo3` (the extension module, in `app/` only).
