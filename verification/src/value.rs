//! The values that lines and expressions evaluate to, and how they are shown.

use vstd::prelude::*;
use crate::num::{Num, is_finite};
use crate::text::{needs_exp_form, needs_exp_form_exec, sci_text, push_sci, decimal_text, push_decimal_text, is_integral_exec, display_number, is_integral, integral_digits, fixed_point, trimmed_decimal, push_number, push_fixed_point, pop_trailing, append_chars, append_str, string_from_chars, str_eq, chars_of};

verus! {

/// The result of evaluating an expression or a line.
#[derive(Debug)]
pub enum ResultValue {
    Number(Num),
    /// An amount in a unit, with the unit's name as written.
    Unit(Num, String),
    /// An amount of money, with its currency code.
    Currency(Num, String),
    /// A percentage, `p` meaning `p / 100`.
    Percentage(Num),
    Error(String),
    /// No value: blank lines, prose, unknown names.
    Empty,
}

/// The mathematical content of a `ResultValue`.
pub enum Value {
    Number((int, int)),
    Unit((int, int), Seq<char>),
    Currency((int, int), Seq<char>),
    Percentage((int, int)),
    Error(Seq<char>),
    Empty,
}

impl ResultValue {
    pub open spec fn view(&self) -> Value {
        match self {
            ResultValue::Number(n) => Value::Number(n@),
            ResultValue::Unit(n, u) => Value::Unit(n@, u@),
            ResultValue::Currency(n, c) => Value::Currency(n@, c@),
            ResultValue::Percentage(p) => Value::Percentage(p@),
            ResultValue::Error(e) => Value::Error(e@),
            ResultValue::Empty => Value::Empty,
        }
    }

    /// A copy of this value.
    pub fn duplicate(&self) -> (r: ResultValue)
        ensures
            r.view() == self.view(),
    {
        match self {
            ResultValue::Number(n) => ResultValue::Number(*n),
            ResultValue::Unit(n, u) => ResultValue::Unit(*n, u.clone()),
            ResultValue::Currency(n, c) => ResultValue::Currency(*n, c.clone()),
            ResultValue::Percentage(p) => ResultValue::Percentage(*p),
            ResultValue::Error(e) => ResultValue::Error(e.clone()),
            ResultValue::Empty => ResultValue::Empty,
        }
    }

    /// How the value is shown (see `display_value`).
    pub fn display_string(&self) -> (r: String)
        ensures
            r@ == display_value(self.view()),
    {
        let mut out: Vec<char> = Vec::new();
        match self {
            ResultValue::Number(n) => {
                push_number_text(&mut out, n);
            },
            ResultValue::Unit(n, u) => {
                push_number_text(&mut out, n);
                append_str(&mut out, " ");
                append_str(&mut out, u.as_str());
            },
            ResultValue::Currency(n, c) => {
                let mut amount: Vec<char> = Vec::new();
                push_amount(&mut amount, n);
                match currency_sign_exec(c.as_str()) {
                    Some(sign) => {
                        out.push(sign);
                        append_chars(&mut out, &amount);
                    },
                    None => {
                        append_chars(&mut out, &amount);
                        append_str(&mut out, " ");
                        append_str(&mut out, c.as_str());
                    },
                }
            },
            ResultValue::Percentage(p) => {
                if p.is_finite() {
                    push_decimal_text(&mut out, p.numer(), p.denom());
                } else {
                    push_special(&mut out, p);
                }
                append_str(&mut out, "%");
            },
            ResultValue::Error(e) => {
                append_str(&mut out, "Error: ");
                append_str(&mut out, e.as_str());
            },
            ResultValue::Empty => {},
        }
        assert(out@ =~= display_value(self.view()));
        string_from_chars(&out)
    }
}

/// The sign shown before an amount of a currency that has one.
pub open spec fn currency_sign(code: Seq<char>) -> Option<char> {
    if code == "USD"@ {
        Some('$')
    } else if code == "EUR"@ {
        Some('€')
    } else if code == "GBP"@ {
        Some('£')
    } else if code == "JPY"@ {
        Some('¥')
    } else {
        None
    }
}

/// An amount of money: whole amounts without decimals, others with two.
pub open spec fn display_amount(n: (int, int)) -> Seq<char> {
    if is_integral(n) {
        integral_digits(n)
    } else {
        fixed_point(n, 2)
    }
}

/// An infinity or NaN as `f64` shows it.
pub open spec fn special_text(n: (int, int)) -> Seq<char> {
    if n.0 > 0 {
        "inf"@
    } else if n.0 < 0 {
        "-inf"@
    } else {
        "NaN"@
    }
}

/// A plain number as shown: finite ones by `display_number`, others by `special_text`.
pub open spec fn number_text(n: (int, int)) -> Seq<char> {
    if is_finite(n) {
        display_number(n)
    } else {
        special_text(n)
    }
}

/// An amount of money as shown: finite ones by `display_amount`, others by `special_text`.
pub open spec fn amount_text(n: (int, int)) -> Seq<char> {
    if is_finite(n) {
        display_amount(n)
    } else {
        special_text(n)
    }
}

/// A percentage's number as shown: finite ones by `decimal_text`, others by `special_text`.
pub open spec fn percent_text(n: (int, int)) -> Seq<char> {
    if is_finite(n) {
        decimal_text(n)
    } else {
        special_text(n)
    }
}

/// How a value is shown: numbers with up to four decimals, units after their
/// amount, currencies with their sign (or code), percentages as decimals with a `%`,
/// errors after `Error: `, and nothing for no value.
pub open spec fn display_value(v: Value) -> Seq<char> {
    match v {
        Value::Number(n) => number_text(n),
        Value::Unit(n, u) => number_text(n) + " "@ + u,
        Value::Currency(n, c) => match currency_sign(c) {
            Some(sign) => seq![sign] + amount_text(n),
            None => amount_text(n) + " "@ + c,
        },
        Value::Percentage(p) => percent_text(p) + "%"@,
        Value::Error(e) => "Error: "@ + e,
        Value::Empty => Seq::empty(),
    }
}

fn push_special(out: &mut Vec<char>, n: &Num)
    ensures
        final(out)@ == old(out)@ + special_text(n@),
{
    if n.numer() > 0 {
        append_str(out, "inf");
    } else if n.numer() < 0 {
        append_str(out, "-inf");
    } else {
        append_str(out, "NaN");
    }
}

fn push_number_text(out: &mut Vec<char>, n: &Num)
    ensures
        final(out)@ == old(out)@ + number_text(n@),
{
    if n.is_finite() {
        push_number(out, n.numer(), n.denom());
    } else {
        push_special(out, n);
    }
}

fn currency_sign_exec(code: &str) -> (r: Option<char>)
    ensures
        r == currency_sign(code@),
{
    if str_eq(code, "USD") {
        Some('$')
    } else if str_eq(code, "EUR") {
        Some('€')
    } else if str_eq(code, "GBP") {
        Some('£')
    } else if str_eq(code, "JPY") {
        Some('¥')
    } else {
        None
    }
}

fn push_amount(out: &mut Vec<char>, n: &Num)
    ensures
        final(out)@ == old(out)@ + amount_text(n@),
{
    if !n.is_finite() {
        push_special(out, n);
        return;
    }
    let num = n.numer();
    let den = n.denom();
    let mut amount: Vec<char> = Vec::new();
    if is_integral_exec(num, den) {
        push_number(&mut amount, num, den);
    } else {
        push_fixed_point(&mut amount, num, den, 2);
    }
    append_chars(out, &amount);
}

/// A number as `{:?}` shows an `f64`: infinities and NaN by `special_text`,
/// in exponent form when it is at least
/// `10^16` or below `10^-4` in size (see `sci_text`), else whole numbers
/// with `.0` and others as a decimal (see `decimal_text`).
pub open spec fn debug_number(n: (int, int)) -> Seq<char> {
    if !is_finite(n) {
        special_text(n)
    } else if needs_exp_form(n) {
        sci_text(n)
    } else if is_integral(n) {
        integral_digits(n) + ".0"@
    } else {
        decimal_text(n)
    }
}

/// A value as `{:?}` shows it: the variant's name with its fields, names and
/// codes in double quotes.
pub open spec fn debug_value(v: Value) -> Seq<char> {
    match v {
        Value::Number(n) => "Number("@ + debug_number(n) + ")"@,
        Value::Unit(n, u) => "Unit("@ + debug_number(n) + ", \""@ + u + "\")"@,
        Value::Currency(n, c) => "Currency("@ + debug_number(n) + ", \""@ + c + "\")"@,
        Value::Percentage(p) => "Percentage("@ + debug_number(p) + ")"@,
        Value::Error(e) => "Error(\""@ + e + "\")"@,
        Value::Empty => "Empty"@,
    }
}

fn push_debug_number(out: &mut Vec<char>, n: &Num)
    ensures
        final(out)@ == old(out)@ + debug_number(n@),
{
    if !n.is_finite() {
        push_special(out, n);
        return;
    }
    let num = n.numer();
    let den = n.denom();
    let mut t: Vec<char> = Vec::new();
    if needs_exp_form_exec(num, den) {
        push_sci(&mut t, num, den);
    } else if is_integral_exec(num, den) {
        push_number(&mut t, num, den);
        append_str(&mut t, ".0");
    } else {
        push_decimal_text(&mut t, num, den);
    }
    assert(t@ =~= debug_number(n@));
    append_chars(out, &t);
}

/// Appends the value as `debug_value` shows it.
pub fn push_debug_value(out: &mut Vec<char>, v: &ResultValue)
    ensures
        final(out)@ == old(out)@ + debug_value(v.view()),
{
    let ghost start = out@;
    match v {
        ResultValue::Number(n) => {
            append_str(out, "Number(");
            push_debug_number(out, n);
            append_str(out, ")");
        },
        ResultValue::Unit(n, u) => {
            append_str(out, "Unit(");
            push_debug_number(out, n);
            append_str(out, ", \"");
            append_str(out, u.as_str());
            append_str(out, "\")");
        },
        ResultValue::Currency(n, c) => {
            append_str(out, "Currency(");
            push_debug_number(out, n);
            append_str(out, ", \"");
            append_str(out, c.as_str());
            append_str(out, "\")");
        },
        ResultValue::Percentage(p) => {
            append_str(out, "Percentage(");
            push_debug_number(out, p);
            append_str(out, ")");
        },
        ResultValue::Error(e) => {
            append_str(out, "Error(\"");
            append_str(out, e.as_str());
            append_str(out, "\")");
        },
        ResultValue::Empty => {
            append_str(out, "Empty");
        },
    }
    assert(out@ =~= start + debug_value(v.view()));
}

} // verus!
