//! Evaluation of expressions and documents.
//!
//! A document is evaluated line by line. Each line's result is kept so that
//! later lines can refer to it (`ans` for the previous line, `lineN` for line
//! `N`, counted from 1), and assignments bind names for the lines that follow.

use vstd::prelude::*;
use crate::num::{Num, opt_view, res_view, spec_add, spec_sub, spec_mul, spec_div, int_rat, is_finite};
use crate::text::{to_uppercase, nat_digits, is_integral, upper_text, all_white_space, is_digit};
use crate::units::{convert_unit, lookup_unit, spec_convert_unit, spec_lookup_unit, overflow_message, division_by_zero_message, overflow_error, division_by_zero_error};
use crate::currency::{RateEntries, RateTable, convert_currency, spec_convert_currency};
use crate::parser::{Op, Expr, ExprView, expr_views, parse_line, spec_parse_line};
use crate::value::{Value, ResultValue, display_value, debug_value, push_debug_value};
use crate::lexer::mantissa;

verus! {

/// Named values: the first entry for a name holds its value.
pub type SymbolsView = Seq<(Seq<char>, Value)>;

pub open spec fn sym_lookup(s: SymbolsView, name: Seq<char>) -> Option<Value>
    decreases s.len(),
{
    if s.len() == 0 {
        None
    } else if s[0].0 == name {
        Some(s[0].1)
    } else {
        sym_lookup(s.drop_first(), name)
    }
}

/// Binds `name` to `v`, replacing an earlier binding.
pub open spec fn sym_insert(s: SymbolsView, name: Seq<char>, v: Value) -> SymbolsView
    decreases s.len(),
{
    if s.len() == 0 {
        seq![(name, v)]
    } else if s[0].0 == name {
        s.update(0, (name, v))
    } else {
        seq![s[0]] + sym_insert(s.drop_first(), name, v)
    }
}

/// Computed powers with a non-whole exponent: base, exponent and result
/// (`None` for a result that cannot be represented).
pub type PowerEntries = Seq<((int, int), (int, int), Option<(int, int)>)>;

/// A table of powers with non-whole exponents, computed by the caller.
pub struct PowerTable {
    entries: Vec<(Num, Num, Option<Num>)>,
}

pub open spec fn power_entries_view(v: Seq<(Num, Num, Option<Num>)>) -> PowerEntries {
    v.map_values(|e: (Num, Num, Option<Num>)| (e.0@, e.1@, opt_view(e.2)))
}

impl View for PowerTable {
    type V = PowerEntries;

    closed spec fn view(&self) -> PowerEntries {
        power_entries_view(self.entries@)
    }
}

impl PowerTable {
    /// The empty table.
    pub fn new() -> (r: PowerTable)
        ensures
            r@ == PowerEntries::empty(),
    {
        let r = PowerTable { entries: Vec::new() };
        assert(r@ =~= PowerEntries::empty());
        r
    }

    /// Records that `b ^ e` is `result`.
    pub fn insert(&mut self, b: Num, e: Num, result: Option<Num>)
        ensures
            final(self)@ == old(self)@.push((b@, e@, opt_view(result))),
    {
        self.entries.push((b, e, result));
        assert(power_entries_view(self.entries@) =~= power_entries_view(old(self).entries@).push(
            (b@, e@, opt_view(result)),
        ));
    }

    /// The recorded result of `b ^ e` (see `power_lookup`).
    fn lookup(&self, b: &Num, e: &Num) -> (r: Option<Option<Num>>)
        ensures
            r is Some <==> power_lookup(self@, b@, e@) is Some,
            r matches Some(x) ==> opt_view(x) == power_lookup(self@, b@, e@)->0,
    {
        let ghost es = self@;
        let mut i: usize = 0;
        assert(es.subrange(0, es.len() as int) =~= es);
        while i < self.entries.len()
            invariant
                es == self@,
                es == power_entries_view(self.entries@),
                i <= self.entries.len(),
                power_lookup(es, b@, e@) == power_lookup(es.subrange(i as int, es.len() as int), b@, e@),
            decreases self.entries.len() - i,
        {
            let ghost rest = es.subrange(i as int, es.len() as int);
            assert(rest.drop_first() =~= es.subrange(i + 1, es.len() as int));
            let en = &self.entries[i];
            if en.0.numer() == b.numer() && en.0.denom() == b.denom() && en.1.numer() == e.numer()
                && en.1.denom() == e.denom() {
                return Some(en.2);
            }
            i = i + 1;
        }
        None
    }
}

/// Every listed power is missing from the table.
pub open spec fn all_missing(ms: Seq<(Num, Num)>, pw: PowerEntries) -> bool {
    forall|i: int| 0 <= i < ms.len() ==> #[trigger] power_lookup(pw, ms[i].0@, ms[i].1@) is None
}

/// A numeric result, or the overflow error when it does not fit.
pub open spec fn checked(o: Option<(int, int)>) -> Result<(int, int), Seq<char>> {
    match o {
        Some(x) => Ok(x),
        None => Err(overflow_message()),
    }
}

pub open spec fn percentage_message() -> Seq<char> {
    "Unsupported operation with percentage"@
}

pub open spec fn exponent_message() -> Seq<char> {
    "Only whole-number exponents are supported"@
}

/// `l` combined with the percentage `p` (meaning `p / 100`): adding or
/// subtracting that share of `l`, taking it, or dividing by it.
pub open spec fn percent_apply(l: (int, int), op: Op, p: (int, int)) -> Result<(int, int), Seq<char>> {
    match op {
        Op::Pow => Err(percentage_message()),
        _ => match checked(spec_div(p, int_rat(100))) {
            Err(m) => Err(m),
            Ok(f) => match op {
                Op::Add => match checked(spec_mul(l, f)) {
                    Err(m) => Err(m),
                    Ok(d) => checked(spec_add(l, d)),
                },
                Op::Sub => match checked(spec_mul(l, f)) {
                    Err(m) => Err(m),
                    Ok(d) => checked(spec_sub(l, d)),
                },
                Op::Mul => checked(spec_mul(l, f)),
                _ => checked(spec_div(l, f)),
            },
        },
    }
}

/// The share `p / 100` of `r`.
pub open spec fn percent_of(p: (int, int), r: (int, int)) -> Result<(int, int), Seq<char>> {
    match checked(spec_div(p, int_rat(100))) {
        Err(m) => Err(m),
        Ok(f) => checked(spec_mul(r, f)),
    }
}

/// `b` multiplied `k` times; `None` as soon as a power does not fit.
pub open spec fn spec_pow(b: (int, int), k: nat) -> Option<(int, int)>
    decreases k,
{
    if k == 0 {
        Some(int_rat(1))
    } else {
        match spec_pow(b, (k - 1) as nat) {
            None => None,
            Some(p) => spec_mul(p, b),
        }
    }
}

/// The result that a table of computed powers gives for `b ^ e`: the first
/// entry for that base and exponent, if any (`None` inside for a result that
/// cannot be represented).
pub open spec fn power_lookup(pw: PowerEntries, b: (int, int), e: (int, int)) -> Option<
    Option<(int, int)>,
>
    decreases pw.len(),
{
    if pw.len() == 0 {
        None
    } else if pw[0].0 == b && pw[0].1 == e {
        Some(pw[0].2)
    } else {
        power_lookup(pw.drop_first(), b, e)
    }
}

/// `l` raised to `r`. For a whole number `r`, computed exactly (a negative
/// exponent raises `1 / l`, an infinity for a zero `l`); for any other `r`,
/// taken from the table `pw` of powers that the caller computed, and an
/// error when the table has none.
pub open spec fn power_value(l: (int, int), r: (int, int), pw: PowerEntries) -> Result<(int, int), Seq<char>> {
    if !is_finite(r) || !is_integral(r) {
        match power_lookup(pw, l, r) {
            Some(Some(v)) => Ok(v),
            Some(None) => Err(overflow_message()),
            None => Err(exponent_message()),
        }
    } else {
        let k = crate::num::abs(r.0) / crate::num::abs(r.1);
        if r.0 >= 0 {
            checked(spec_pow(l, k))
        } else {
            match spec_div(int_rat(1), l) {
                None => Err(overflow_message()),
                Some(inv) => checked(spec_pow(inv, k)),
            }
        }
    }
}

pub open spec fn number_value(r: Result<(int, int), Seq<char>>) -> Value {
    match r {
        Ok(x) => Value::Number(x),
        Err(m) => Value::Error(m),
    }
}

pub open spec fn unit_value(r: Result<(int, int), Seq<char>>, u: Seq<char>) -> Value {
    match r {
        Ok(x) => Value::Unit(x, u),
        Err(m) => Value::Error(m),
    }
}

pub open spec fn currency_value(r: Result<(int, int), Seq<char>>, c: Seq<char>) -> Value {
    match r {
        Ok(x) => Value::Currency(x, c),
        Err(m) => Value::Error(m),
    }
}

/// `l op r` after a conversion of `r` that may have failed.
pub open spec fn after_conversion(
    conv: Result<(int, int), Seq<char>>,
    f: spec_fn((int, int)) -> Value,
) -> Value {
    match conv {
        Err(m) => Value::Error(m),
        Ok(c) => f(c),
    }
}

pub open spec fn op_name(op: Op) -> Seq<char> {
    match op {
        Op::Add => "Add"@,
        Op::Sub => "Sub"@,
        Op::Mul => "Mul"@,
        Op::Div => "Div"@,
        Op::Pow => "Pow"@,
    }
}

pub open spec fn kind_name(v: Value) -> Seq<char> {
    match v {
        Value::Number(_) => "Number"@,
        Value::Unit(_, _) => "Unit"@,
        Value::Currency(_, _) => "Currency"@,
        Value::Percentage(_) => "Percentage"@,
        Value::Error(_) => "Error"@,
        Value::Empty => "Empty"@,
    }
}

pub open spec fn mismatch_message(op: Op, l: Value, r: Value) -> Seq<char> {
    "Cannot perform "@ + op_name(op) + " on "@ + kind_name(l) + " and "@ + kind_name(r)
}

/// `lv / c`, failing on a finite zero divisor.
pub open spec fn quotient(lv: (int, int), c: (int, int)) -> Result<(int, int), Seq<char>> {
    if c.0 == 0 && c.1 != 0 {
        Err(division_by_zero_message())
    } else {
        checked(spec_div(lv, c))
    }
}

/// The value of `l op r`.
pub open spec fn binary_value(l: Value, op: Op, r: Value, rates: RateEntries, pw: PowerEntries) -> Value {
    match (l, r) {
        (Value::Error(e), _) => Value::Error(e),
        (_, Value::Error(e)) => Value::Error(e),
        (Value::Number(a), Value::Percentage(p)) => number_value(percent_apply(a, op, p)),
        (Value::Unit(a, u), Value::Percentage(p)) => unit_value(percent_apply(a, op, p), u),
        (Value::Currency(a, c), Value::Percentage(p)) => currency_value(percent_apply(a, op, p), c),
        (Value::Percentage(p), Value::Number(b)) => if op == Op::Mul {
            number_value(percent_of(p, b))
        } else {
            Value::Error(percentage_message())
        },
        (Value::Percentage(p), Value::Unit(b, u)) => if op == Op::Mul {
            unit_value(percent_of(p, b), u)
        } else {
            Value::Error(percentage_message())
        },
        (Value::Percentage(p), Value::Currency(b, c)) => if op == Op::Mul {
            currency_value(percent_of(p, b), c)
        } else {
            Value::Error(percentage_message())
        },
        (Value::Number(a), Value::Number(b)) => match op {
            Op::Add => number_value(checked(spec_add(a, b))),
            Op::Sub => number_value(checked(spec_sub(a, b))),
            Op::Mul => number_value(checked(spec_mul(a, b))),
            Op::Div => number_value(quotient(a, b)),
            Op::Pow => number_value(power_value(a, b, pw)),
        },
        (Value::Unit(a, lu), Value::Unit(b, ru)) => match op {
            Op::Add => after_conversion(
                spec_convert_unit(b, ru, lu),
                |c: (int, int)| unit_value(checked(spec_add(a, c)), lu),
            ),
            Op::Sub => after_conversion(
                spec_convert_unit(b, ru, lu),
                |c: (int, int)| unit_value(checked(spec_sub(a, c)), lu),
            ),
            Op::Mul => Value::Error("Multiplication of two units is not supported"@),
            Op::Div => after_conversion(
                spec_convert_unit(b, ru, lu),
                |c: (int, int)| number_value(quotient(a, c)),
            ),
            Op::Pow => Value::Error("Operation not supported for units"@),
        },
        (Value::Unit(a, u), Value::Number(b)) => match op {
            Op::Mul => unit_value(checked(spec_mul(a, b)), u),
            Op::Div => unit_value(quotient(a, b), u),
            _ => Value::Error("Operation not supported"@),
        },
        (Value::Number(a), Value::Unit(b, u)) => match op {
            Op::Mul => unit_value(checked(spec_mul(a, b)), u),
            _ => Value::Error("Operation not supported"@),
        },
        (Value::Currency(a, lc), Value::Currency(b, rc)) => match op {
            Op::Add => after_conversion(
                spec_convert_currency(b, rc, lc, rates),
                |c: (int, int)| currency_value(checked(spec_add(a, c)), lc),
            ),
            Op::Sub => after_conversion(
                spec_convert_currency(b, rc, lc, rates),
                |c: (int, int)| currency_value(checked(spec_sub(a, c)), lc),
            ),
            Op::Div => after_conversion(
                spec_convert_currency(b, rc, lc, rates),
                |c: (int, int)| number_value(quotient(a, c)),
            ),
            _ => Value::Error("Operation not supported for currencies"@),
        },
        (Value::Currency(a, c), Value::Number(b)) => match op {
            Op::Mul => currency_value(checked(spec_mul(a, b)), c),
            Op::Div => currency_value(quotient(a, b), c),
            _ => Value::Error("Operation not supported"@),
        },
        (Value::Number(a), Value::Currency(b, c)) => match op {
            Op::Mul => currency_value(checked(spec_mul(a, b)), c),
            _ => Value::Error("Operation not supported"@),
        },
        (a, b) => Value::Error(mismatch_message(op, a, b)),
    }
}

/// The value of a conversion of `v` to `target`.
pub open spec fn convert_value(v: Value, target: Seq<char>, rates: RateEntries) -> Value {
    match v {
        Value::Unit(n, from) => unit_value(spec_convert_unit(n, from, target), target),
        Value::Currency(n, from) => currency_value(
            spec_convert_currency(n, from, target, rates),
            upper_text(target),
        ),
        Value::Number(n) => if spec_lookup_unit(target) is Some {
            Value::Unit(n, target)
        } else {
            Value::Currency(n, upper_text(target))
        },
        Value::Error(e) => Value::Error(e),
        Value::Empty => Value::Empty,
        Value::Percentage(_) => Value::Error("Cannot convert this value type"@),
    }
}

pub open spec fn all_digits(t: Seq<char>) -> bool {
    forall|i: int| 0 <= i < t.len() ==> #[trigger] is_digit(t[i])
}

/// What `str::parse::<usize>` accepts: an optional `+`, then one or more
/// digits whose value fits in `usize`.
pub open spec fn parse_usize(t: Seq<char>) -> Option<nat> {
    let body = if t.len() > 0 && t[0] == '+' {
        t.drop_first()
    } else {
        t
    };
    if body.len() > 0 && all_digits(body) && mantissa(body) <= usize::MAX {
        Some(mantissa(body) as nat)
    } else {
        None
    }
}

/// The line number that a name `lineN` refers to.
pub open spec fn line_reference(name: Seq<char>) -> Option<nat> {
    if name.len() >= 4 && name.subrange(0, 4) == "line"@ {
        parse_usize(name.subrange(4, name.len() as int))
    } else {
        None
    }
}

/// The value a variable has: `ans` is the previous line's result, `lineN`
/// the result of line `N` (from 1), other names their binding, and an
/// unbound name no value. Referring to a line with an error is an error.
pub open spec fn variable_value(name: Seq<char>, env: Seq<Value>, syms: SymbolsView) -> Value {
    if name == "ans"@ {
        if env.len() == 0 {
            Value::Error("No previous line results (ans)"@)
        } else {
            match env.last() {
                Value::Error(e) => Value::Error("Depends on line with error: "@ + e),
                v => v,
            }
        }
    } else if line_reference(name) is Some {
        let n = line_reference(name)->0;
        if n == 0 {
            Value::Error("Lines are 1-indexed"@)
        } else if n > env.len() {
            Value::Error("Line "@ + nat_digits(n) + " has not been evaluated yet"@)
        } else {
            match env[n - 1] {
                Value::Error(e) => Value::Error("Depends on line "@ + nat_digits(n) + " with error: "@ + e),
                v => v,
            }
        }
    } else {
        match sym_lookup(syms, name) {
            Some(v) => v,
            None => Value::Empty,
        }
    }
}

/// The value of an expression and the bindings after it, given the results
/// of the earlier lines and the bindings before it.
pub open spec fn eval_expr(e: ExprView, env: Seq<Value>, syms: SymbolsView, rates: RateEntries, pw: PowerEntries) -> (Value, SymbolsView)
    decreases e,
{
    match e {
        ExprView::Number(n) => (Value::Number(n), syms),
        ExprView::Assign(name, x) => {
            let (v, s1) = eval_expr(*x, env, syms, rates, pw);
            if v is Error {
                (v, s1)
            } else {
                (v, sym_insert(s1, name, v))
            }
        },
        ExprView::Percentage(x) => {
            let (v, s1) = eval_expr(*x, env, syms, rates, pw);
            (
                match v {
                    Value::Number(n) => Value::Percentage(n),
                    Value::Error(m) => Value::Error(m),
                    _ => Value::Error("Invalid percentage operand"@),
                },
                s1,
            )
        },
        ExprView::Unit(n, u) => (Value::Unit(n, u), syms),
        ExprView::Currency(n, c) => (Value::Currency(n, c), syms),
        ExprView::Variable(name) => (variable_value(name, env, syms), syms),
        ExprView::Convert(x, target) => {
            let (v, s1) = eval_expr(*x, env, syms, rates, pw);
            (convert_value(v, target, rates), s1)
        },
        ExprView::Binary(l, op, r) => {
            let (lv, s1) = eval_expr(*l, env, syms, rates, pw);
            let (rv, s2) = eval_expr(*r, env, s1, rates, pw);
            (binary_value(lv, op, rv, rates, pw), s2)
        },
    }
}

/// Adding up the values of one line, left to right.
pub open spec fn sum_step(acc: Value, v: Value, rates: RateEntries) -> Value {
    match (acc, v) {
        (Value::Error(e), _) => Value::Error(e),
        (_, Value::Error(e)) => Value::Error(e),
        (Value::Empty, x) => x,
        (x, Value::Empty) => x,
        (Value::Number(a), Value::Number(b)) => number_value(checked(spec_add(a, b))),
        (Value::Unit(a, lu), Value::Unit(b, ru)) => after_conversion(
            spec_convert_unit(b, ru, lu),
            |c: (int, int)| unit_value(checked(spec_add(a, c)), lu),
        ),
        (Value::Currency(a, lc), Value::Currency(b, rc)) => after_conversion(
            spec_convert_currency(b, rc, lc, rates),
            |c: (int, int)| currency_value(checked(spec_add(a, c)), lc),
        ),
        (x, y) => Value::Error("Cannot sum mismatched types: "@ + debug_value(x) + " and "@ + debug_value(y)),
    }
}

/// The result of a line from the values of its expressions: no value for
/// none, else their sum.
pub open spec fn sum_values(vs: Seq<Value>, rates: RateEntries) -> Value
    decreases vs.len(),
{
    if vs.len() == 0 {
        Value::Empty
    } else if vs.len() == 1 {
        vs[0]
    } else {
        sum_step(sum_values(vs.drop_last(), rates), vs.last(), rates)
    }
}

/// The values of a line's expressions, evaluated in order.
pub open spec fn eval_exprs(es: Seq<ExprView>, env: Seq<Value>, syms: SymbolsView, rates: RateEntries, pw: PowerEntries) -> (Seq<Value>, SymbolsView)
    decreases es.len(),
{
    if es.len() == 0 {
        (Seq::empty(), syms)
    } else {
        let (vs, s1) = eval_exprs(es.drop_last(), env, syms, rates, pw);
        let (v, s2) = eval_expr(es.last(), env, s1, rates, pw);
        (vs.push(v), s2)
    }
}

/// The result of one line: no value for a blank line, the parse error for a
/// line that does not parse, else the sum of its expressions.
pub open spec fn eval_line(line: Seq<char>, env: Seq<Value>, syms: SymbolsView, rates: RateEntries, pw: PowerEntries) -> (Value, SymbolsView) {
    if all_white_space(line) {
        (Value::Empty, syms)
    } else {
        match spec_parse_line(line) {
            Err(e) => (Value::Error(e), syms),
            Ok(es) => {
                let (vs, s1) = eval_exprs(es, env, syms, rates, pw);
                (sum_values(vs, rates), s1)
            },
        }
    }
}

/// The results of all lines and the final bindings.
pub open spec fn eval_lines(lines: Seq<Seq<char>>, rates: RateEntries, pw: PowerEntries) -> (Seq<Value>, SymbolsView)
    decreases lines.len(),
{
    if lines.len() == 0 {
        (Seq::empty(), Seq::empty())
    } else {
        let (env, syms) = eval_lines(lines.drop_last(), rates, pw);
        let (v, s1) = eval_line(lines.last(), env, syms, rates, pw);
        (env.push(v), s1)
    }
}

/// What each line of a document shows.
pub open spec fn spec_evaluate_document(lines: Seq<Seq<char>>, rates: RateEntries, pw: PowerEntries) -> Seq<Seq<char>> {
    eval_lines(lines, rates, pw).0.map_values(|v: Value| display_value(v))
}

} // verus!

verus! {

pub open spec fn values_view(v: Seq<ResultValue>) -> Seq<Value> {
    v.map_values(|x: ResultValue| x.view())
}

/// Named values of a document.
struct Symbols {
    entries: Vec<(String, ResultValue)>,
}

impl View for Symbols {
    type V = SymbolsView;

    closed spec fn view(&self) -> SymbolsView {
        self.entries@.map_values(|e: (String, ResultValue)| (e.0@, e.1.view()))
    }
}

proof fn lemma_sym_insert_at(s: SymbolsView, name: Seq<char>, v: Value, i: int)
    requires
        0 <= i <= s.len(),
        forall|j: int| 0 <= j < i ==> s[j].0 != name,
        i < s.len() ==> s[i].0 == name,
    ensures
        sym_insert(s, name, v) == if i < s.len() {
            s.update(i, (name, v))
        } else {
            s.push((name, v))
        },
    decreases s.len(),
{
    if s.len() == 0 {
        assert(seq![(name, v)] =~= s.push((name, v)));
    } else if s[0].0 == name {
        assert(i == 0);
    } else {
        lemma_sym_insert_at(s.drop_first(), name, v, i - 1);
        if i < s.len() {
            assert(seq![s[0]] + s.drop_first().update(i - 1, (name, v)) =~= s.update(i, (name, v)));
        } else {
            assert(seq![s[0]] + s.drop_first().push((name, v)) =~= s.push((name, v)));
        }
    }
}

impl Symbols {
    fn new() -> (r: Symbols)
        ensures
            r@ == Seq::<(Seq<char>, Value)>::empty(),
    {
        let r = Symbols { entries: Vec::new() };
        assert(r@ =~= Seq::<(Seq<char>, Value)>::empty());
        r
    }

    /// The index of the first entry for `name`, or the number of entries.
    fn position(&self, name: &str) -> (i: usize)
        ensures
            i <= self@.len(),
            forall|j: int| 0 <= j < i ==> self@[j].0 != name@,
            i < self@.len() ==> self@[i as int].0 == name@,
            sym_lookup(self@, name@) == if i < self@.len() {
                Some(self@[i as int].1)
            } else {
                None::<Value>
            },
    {
        let ghost s = self@;
        let mut i: usize = 0;
        assert(s.subrange(0, s.len() as int) =~= s);
        while i < self.entries.len()
            invariant
                s == self@,
                s.len() == self.entries@.len(),
                i <= s.len(),
                forall|j: int| 0 <= j < i ==> s[j].0 != name@,
                sym_lookup(s, name@) == sym_lookup(s.subrange(i as int, s.len() as int), name@),
            decreases self.entries.len() - i,
        {
            assert(s.subrange(i as int, s.len() as int).drop_first() =~= s.subrange(
                i + 1,
                s.len() as int,
            ));
            if crate::text::str_eq(self.entries[i].0.as_str(), name) {
                return i;
            }
            i = i + 1;
        }
        i
    }

    fn get(&self, name: &str) -> (r: Option<ResultValue>)
        ensures
            match r {
                Some(v) => sym_lookup(self@, name@) == Some(v.view()),
                None => sym_lookup(self@, name@) is None,
            },
    {
        let i = self.position(name);
        if i < self.entries.len() {
            Some(self.entries[i].1.duplicate())
        } else {
            None
        }
    }

    fn insert(&mut self, name: String, v: ResultValue)
        ensures
            final(self)@ == sym_insert(old(self)@, name@, v.view()),
    {
        let i = self.position(name.as_str());
        proof {
            lemma_sym_insert_at(self@, name@, v.view(), i as int);
        }
        let ghost nv = v.view();
        let ghost nm = name@;
        if i < self.entries.len() {
            self.entries.set(i, (name, v));
            assert(self@ =~= old(self)@.update(i as int, (nm, nv)));
        } else {
            self.entries.push((name, v));
            assert(self@ =~= old(self)@.push((nm, nv)));
        }
    }
}

fn message(s: &str) -> (r: String)
    ensures
        r@ == s@,
{
    s.to_owned()
}

fn error(s: &str) -> (r: ResultValue)
    ensures
        r.view() == Value::Error(s@),
{
    ResultValue::Error(s.to_owned())
}

/// The value of `t[start..]` read as `str::parse::<usize>` does.
fn parse_usize_exec(t: &Vec<char>, start: usize) -> (r: Option<usize>)
    requires
        start <= t@.len(),
    ensures
        match r {
            Some(n) => parse_usize(t@.subrange(start as int, t@.len() as int)) == Some(n as nat),
            None => parse_usize(t@.subrange(start as int, t@.len() as int)) is None,
        },
{
    let ghost full = t@.subrange(start as int, t@.len() as int);
    let mut i = start;
    if i < t.len() && t[i] == '+' {
        i = i + 1;
    }
    let ghost body = t@.subrange(i as int, t@.len() as int);
    assert(body =~= (if full.len() > 0 && full[0] == '+' {
        full.drop_first()
    } else {
        full
    }));
    if i >= t.len() {
        return None;
    }
    let mut acc: usize = 0;
    let mut k = i;
    assert(body.subrange(0, 0) =~= Seq::<char>::empty());
    while k < t.len()
        invariant
            i <= k <= t@.len(),
            full == t@.subrange(start as int, t@.len() as int),
            body == t@.subrange(i as int, t@.len() as int),
            body == (if full.len() > 0 && full[0] == '+' {
                full.drop_first()
            } else {
                full
            }),
            all_digits(body.subrange(0, k - i)),
            acc == mantissa(body.subrange(0, k - i)),
        decreases t.len() - k,
    {
        let c = t[k];
        let ghost pre = body.subrange(0, k - i);
        let ghost post = body.subrange(0, k + 1 - i);
        assert(post.drop_last() =~= pre);
        if !('0' <= c && c <= '9') {
            assert(!is_digit(body[k - i]));
            return None;
        }
        let d: usize = if c == '0' {
            0
        } else if c == '1' {
            1
        } else if c == '2' {
            2
        } else if c == '3' {
            3
        } else if c == '4' {
            4
        } else if c == '5' {
            5
        } else if c == '6' {
            6
        } else if c == '7' {
            7
        } else if c == '8' {
            8
        } else {
            9
        };
        assert(d == crate::text::digit_value(c));
        let next = match acc.checked_mul(10) {
            Some(x) => x.checked_add(d),
            None => None,
        };
        match next {
            Some(x) => {
                acc = x;
            },
            None => {
                proof {
                    lemma_mantissa_grows(body, k + 1 - i);
                }
                return None;
            },
        }
        assert forall|j: int| 0 <= j < post.len() implies #[trigger] is_digit(post[j]) by {
            if j < pre.len() {
                assert(post[j] == pre[j]);
            }
        }
        k = k + 1;
    }
    assert(body.subrange(0, t.len() - i) =~= body);
    Some(acc)
}

/// A prefix of an all-digit text never has a larger value than the whole.
proof fn lemma_mantissa_grows(t: Seq<char>, k: int)
    requires
        0 <= k <= t.len(),
    ensures
        mantissa(t.subrange(0, k)) <= mantissa(t) || !all_digits(t),
    decreases t.len(),
{
    if k < t.len() && all_digits(t) {
        assert(t.drop_last().subrange(0, k) =~= t.subrange(0, k));
        assert(all_digits(t.drop_last())) by {
            assert forall|j: int| 0 <= j < t.drop_last().len() implies #[trigger] is_digit(
                t.drop_last()[j],
            ) by {
                assert(t.drop_last()[j] == t[j]);
            }
        }
        lemma_mantissa_grows(t.drop_last(), k);
        lemma_mantissa_nonneg_digits(t.drop_last());
        assert(is_digit(t[t.len() - 1]));
    } else if k == t.len() {
        assert(t.subrange(0, k) =~= t);
    }
}

proof fn lemma_mantissa_nonneg_digits(t: Seq<char>)
    ensures
        mantissa(t) >= 0,
    decreases t.len(),
{
    if t.len() > 0 {
        lemma_mantissa_nonneg_digits(t.drop_last());
    }
}

} // verus!

verus! {

fn variable_exec(name: &String, env: &Vec<ResultValue>, syms: &Symbols) -> (r: ResultValue)
    ensures
        r.view() == variable_value(name@, values_view(env@), syms@),
{
    let ghost ev = values_view(env@);
    proof {
        reveal_strlit("ans");
        reveal_strlit("line");
    }
    if crate::text::str_eq(name.as_str(), "ans") {
        if env.len() == 0 {
            return error("No previous line results (ans)");
        }
        assert(ev.last() == env@[env@.len() - 1].view());
        return match &env[env.len() - 1] {
            ResultValue::Error(e) => {
                let mut v: Vec<char> = Vec::new();
                crate::text::append_str(&mut v, "Depends on line with error: ");
                crate::text::append_str(&mut v, e.as_str());
                ResultValue::Error(crate::text::string_from_chars(&v))
            },
            other => other.duplicate(),
        };
    }
    let t = crate::text::chars_of(name.as_str());
    let line_ref = if t.len() >= 4 && t[0] == 'l' && t[1] == 'i' && t[2] == 'n' && t[3] == 'e' {
        assert(t@.subrange(0, 4) =~= "line"@);
        parse_usize_exec(&t, 4)
    } else {
        proof {
            if t@.len() >= 4 {
                assert(t@.subrange(0, 4)[0] == t@[0]);
                assert(t@.subrange(0, 4)[1] == t@[1]);
                assert(t@.subrange(0, 4)[2] == t@[2]);
                assert(t@.subrange(0, 4)[3] == t@[3]);
            }
        }
        None
    };
    assert(line_ref matches Some(n) ==> line_reference(name@) == Some(n as nat));
    assert(line_ref is None ==> line_reference(name@) is None);
    match line_ref {
        Some(n) => {
            if n == 0 {
                error("Lines are 1-indexed")
            } else if n > env.len() {
                let mut v: Vec<char> = Vec::new();
                crate::text::append_str(&mut v, "Line ");
                crate::text::push_nat_digits(&mut v, n as u128);
                crate::text::append_str(&mut v, " has not been evaluated yet");
                ResultValue::Error(crate::text::string_from_chars(&v))
            } else {
                assert(ev[n - 1] == env@[n - 1].view());
                match &env[n - 1] {
                    ResultValue::Error(e) => {
                        let mut v: Vec<char> = Vec::new();
                        crate::text::append_str(&mut v, "Depends on line ");
                        crate::text::push_nat_digits(&mut v, n as u128);
                        crate::text::append_str(&mut v, " with error: ");
                        crate::text::append_str(&mut v, e.as_str());
                        ResultValue::Error(crate::text::string_from_chars(&v))
                    },
                    other => other.duplicate(),
                }
            }
        },
        None => match syms.get(name.as_str()) {
            Some(v) => v,
            None => ResultValue::Empty,
        },
    }
}

fn checked_exec(o: Option<Num>) -> (r: Result<Num, String>)
    ensures
        res_view(r) == checked(opt_view(o)),
{
    match o {
        Some(x) => Ok(x),
        None => Err(overflow_error()),
    }
}

fn number_result(r: Result<Num, String>) -> (v: ResultValue)
    ensures
        v.view() == number_value(res_view(r)),
{
    match r {
        Ok(x) => ResultValue::Number(x),
        Err(m) => ResultValue::Error(m),
    }
}

fn unit_result(r: Result<Num, String>, u: String) -> (v: ResultValue)
    ensures
        v.view() == unit_value(res_view(r), u@),
{
    match r {
        Ok(x) => ResultValue::Unit(x, u),
        Err(m) => ResultValue::Error(m),
    }
}

fn currency_result(r: Result<Num, String>, c: String) -> (v: ResultValue)
    ensures
        v.view() == currency_value(res_view(r), c@),
{
    match r {
        Ok(x) => ResultValue::Currency(x, c),
        Err(m) => ResultValue::Error(m),
    }
}

fn percent_apply_exec(l: &Num, op: Op, p: &Num) -> (r: Result<Num, String>)
    ensures
        res_view(r) == percent_apply(l@, op, p@),
{
    if op == Op::Pow {
        return Err(message("Unsupported operation with percentage"));
    }
    let hundred = Num::from_int(100);
    let f = match checked_exec(p.div(&hundred)) {
        Ok(f) => f,
        Err(m) => return Err(m),
    };
    match op {
        Op::Add => match checked_exec(l.mul(&f)) {
            Err(m) => Err(m),
            Ok(d) => checked_exec(l.add(&d)),
        },
        Op::Sub => match checked_exec(l.mul(&f)) {
            Err(m) => Err(m),
            Ok(d) => checked_exec(l.sub(&d)),
        },
        Op::Mul => checked_exec(l.mul(&f)),
        _ => checked_exec(l.div(&f)),
    }
}

fn percent_of_exec(p: &Num, r: &Num) -> (v: Result<Num, String>)
    ensures
        res_view(v) == percent_of(p@, r@),
{
    let hundred = Num::from_int(100);
    match checked_exec(p.div(&hundred)) {
        Err(m) => Err(m),
        Ok(f) => checked_exec(r.mul(&f)),
    }
}

fn quotient_exec(a: &Num, c: &Num) -> (r: Result<Num, String>)
    ensures
        res_view(r) == quotient(a@, c@),
{
    if c.is_zero() {
        Err(division_by_zero_error())
    } else {
        checked_exec(a.div(c))
    }
}

proof fn lemma_pow_none(b: (int, int), i: nat, k: nat)
    requires
        i <= k,
        spec_pow(b, i) is None,
    ensures
        spec_pow(b, k) is None,
    decreases k,
{
    if i < k {
        lemma_pow_none(b, i, (k - 1) as nat);
    }
}

proof fn lemma_small_products()
    ensures
        spec_mul((1, 1), (1, 1)) == Some((1int, 1int)),
        spec_mul((1, 1), (0, 1)) == Some((0int, 1int)),
        spec_mul((0, 1), (0, 1)) == Some((0int, 1int)),
        spec_mul((1, 1), (-1, 1)) == Some((-1int, 1int)),
        spec_mul((-1, 1), (-1, 1)) == Some((1int, 1int)),
{
    assert(crate::num::gcd(1, 0) == 1);
    assert(crate::num::gcd(1, 1) == 1);
    assert(crate::num::gcd(0, 1) == 1);
    assert(crate::num::abs(1) == 1);
    assert(crate::num::abs(-1) == 1);
    assert(crate::num::abs(0) == 0);
    assert(1nat / 1nat == 1);
    assert(0nat / 1nat == 0);
    assert(crate::num::reduce(1, 1) == Some((1int, 1int)));
}

/// The powers of 0, 1 and -1.
proof fn lemma_pow_small(b: (int, int), k: nat)
    requires
        b == (0int, 1int) || b == (1int, 1int) || b == (-1int, 1int),
    ensures
        spec_pow(b, k) == Some(
            if b == (1int, 1int) || k == 0 {
                (1int, 1int)
            } else if b == (0int, 1int) {
                (0int, 1int)
            } else if k % 2 == 0 {
                (1int, 1int)
            } else {
                (-1int, 1int)
            },
        ),
    decreases k,
{
    lemma_small_products();
    if k > 0 {
        lemma_pow_small(b, (k - 1) as nat);
    }
}

/// The powers of an infinity or NaN.
proof fn lemma_pow_special(b: (int, int), k: nat)
    requires
        b.1 == 0,
        -1 <= b.0 <= 1,
    ensures
        spec_pow(b, k) == Some(
            if k == 0 {
                (1int, 1int)
            } else if b.0 == 0 {
                (0int, 0int)
            } else if b.0 == 1 || k % 2 == 0 {
                (1int, 0int)
            } else {
                (-1int, 0int)
            },
        ),
    decreases k,
{
    if k > 0 {
        lemma_pow_special(b, (k - 1) as nat);
        assert(k % 2 == 0 <==> (k - 1) as nat % 2 == 1);
    }
}

/// `b` raised to `k` (see `spec_pow`).
fn pow_exec(b: &Num, k: u128) -> (r: Option<Num>)
    ensures
        opt_view(r) == spec_pow(b@, k as nat),
{
    let n = b.numer();
    let d = b.denom();
    if d == 0 {
        proof {
            lemma_pow_special(b@, k as nat);
        }
        let zero = Num::from_int(0);
        if k == 0 {
            return Some(Num::from_int(1));
        } else if n == 0 {
            return zero.div(&zero);
        } else if n == 1 || k % 2 == 0 {
            return Num::from_int(1).div(&zero);
        } else {
            return Num::from_int(-1).div(&zero);
        }
    }
    if d == 1 && (n == 0 || n == 1 || n == -1) {
        proof {
            lemma_pow_small(b@, k as nat);
        }
        if n == 1 || k == 0 {
            return Some(Num::from_int(1));
        } else if n == 0 {
            return Some(Num::from_int(0));
        } else if k % 2 == 0 {
            return Some(Num::from_int(1));
        } else {
            return Some(Num::from_int(-1));
        }
    }
    let mut acc = Num::from_int(1);
    let mut i: u128 = 0;
    while i < k
        invariant
            i <= k,
            spec_pow(b@, i as nat) == Some(acc@),
        decreases k - i,
    {
        match acc.mul(b) {
            Some(x) => {
                acc = x;
            },
            None => {
                proof {
                    lemma_pow_none(b@, (i + 1) as nat, k as nat);
                }
                return None;
            },
        }
        i = i + 1;
    }
    Some(acc)
}

fn power_exec(l: &Num, r: &Num, pw: &PowerTable, missing: &mut Vec<(Num, Num)>) -> (v: Result<Num, String>)
    requires
        all_missing(old(missing)@, pw@),
    ensures
        res_view(v) == power_value(l@, r@, pw@),
        all_missing(final(missing)@, pw@),
{
    if !r.is_finite() || !crate::text::is_integral_exec(r.numer(), r.denom()) {
        return match pw.lookup(l, r) {
            Some(Some(x)) => Ok(x),
            Some(None) => Err(overflow_error()),
            None => {
                missing.push((*l, *r));
                assert(all_missing(missing@, pw@)) by {
                    assert forall|i: int| 0 <= i < missing@.len() implies #[trigger] power_lookup(
                        pw@,
                        missing@[i].0@,
                        missing@[i].1@,
                    ) is None by {
                        if i < missing@.len() - 1 {
                            assert(missing@[i] == old(missing)@[i]);
                        }
                    }
                }
                Err(message("Only whole-number exponents are supported"))
            },
        };
    }
    let k: u128 = crate::text::abs_u128(r.numer()) / (r.denom() as u128);
    if r.numer() >= 0 {
        checked_exec(pow_exec(l, k))
    } else {
        match Num::from_int(1).div(l) {
            None => Err(overflow_error()),
            Some(inv) => checked_exec(pow_exec(&inv, k)),
        }
    }
}

} // verus!

verus! {

fn op_name_exec(op: Op) -> (r: &'static str)
    ensures
        r@ == op_name(op),
{
    match op {
        Op::Add => "Add",
        Op::Sub => "Sub",
        Op::Mul => "Mul",
        Op::Div => "Div",
        Op::Pow => "Pow",
    }
}

fn kind_name_exec(v: &ResultValue) -> (r: &'static str)
    ensures
        r@ == kind_name(v.view()),
{
    match v {
        ResultValue::Number(_) => "Number",
        ResultValue::Unit(_, _) => "Unit",
        ResultValue::Currency(_, _) => "Currency",
        ResultValue::Percentage(_) => "Percentage",
        ResultValue::Error(_) => "Error",
        ResultValue::Empty => "Empty",
    }
}

fn mismatch_exec(op: Op, l: &ResultValue, r: &ResultValue) -> (v: ResultValue)
    ensures
        v.view() == Value::Error(mismatch_message(op, l.view(), r.view())),
{
    let mut m: Vec<char> = Vec::new();
    crate::text::append_str(&mut m, "Cannot perform ");
    crate::text::append_str(&mut m, op_name_exec(op));
    crate::text::append_str(&mut m, " on ");
    crate::text::append_str(&mut m, kind_name_exec(l));
    crate::text::append_str(&mut m, " and ");
    crate::text::append_str(&mut m, kind_name_exec(r));
    ResultValue::Error(crate::text::string_from_chars(&m))
}

/// The value of `l op r` (see `binary_value`).
fn binary_exec(
    l: ResultValue,
    op: Op,
    r: ResultValue,
    rates: &RateTable,
    pw: &PowerTable,
    missing: &mut Vec<(Num, Num)>,
) -> (v: ResultValue)
    requires
        all_missing(old(missing)@, pw@),
    ensures
        v.view() == binary_value(l.view(), op, r.view(), rates@, pw@),
        all_missing(final(missing)@, pw@),
{
    match (l, r) {
        (ResultValue::Error(e), _) => ResultValue::Error(e),
        (_, ResultValue::Error(e)) => ResultValue::Error(e),
        (ResultValue::Number(a), ResultValue::Percentage(p)) => number_result(
            percent_apply_exec(&a, op, &p),
        ),
        (ResultValue::Unit(a, u), ResultValue::Percentage(p)) => unit_result(
            percent_apply_exec(&a, op, &p),
            u,
        ),
        (ResultValue::Currency(a, c), ResultValue::Percentage(p)) => currency_result(
            percent_apply_exec(&a, op, &p),
            c,
        ),
        (ResultValue::Percentage(p), ResultValue::Number(b)) => if op == Op::Mul {
            number_result(percent_of_exec(&p, &b))
        } else {
            error("Unsupported operation with percentage")
        },
        (ResultValue::Percentage(p), ResultValue::Unit(b, u)) => if op == Op::Mul {
            unit_result(percent_of_exec(&p, &b), u)
        } else {
            error("Unsupported operation with percentage")
        },
        (ResultValue::Percentage(p), ResultValue::Currency(b, c)) => if op == Op::Mul {
            currency_result(percent_of_exec(&p, &b), c)
        } else {
            error("Unsupported operation with percentage")
        },
        (ResultValue::Number(a), ResultValue::Number(b)) => match op {
            Op::Add => number_result(checked_exec(a.add(&b))),
            Op::Sub => number_result(checked_exec(a.sub(&b))),
            Op::Mul => number_result(checked_exec(a.mul(&b))),
            Op::Div => number_result(quotient_exec(&a, &b)),
            Op::Pow => number_result(power_exec(&a, &b, pw, missing)),
        },
        (ResultValue::Unit(a, lu), ResultValue::Unit(b, ru)) => match op {
            Op::Add => match convert_unit(b, ru.as_str(), lu.as_str()) {
                Err(m) => ResultValue::Error(m),
                Ok(c) => unit_result(checked_exec(a.add(&c)), lu),
            },
            Op::Sub => match convert_unit(b, ru.as_str(), lu.as_str()) {
                Err(m) => ResultValue::Error(m),
                Ok(c) => unit_result(checked_exec(a.sub(&c)), lu),
            },
            Op::Mul => error("Multiplication of two units is not supported"),
            Op::Div => match convert_unit(b, ru.as_str(), lu.as_str()) {
                Err(m) => ResultValue::Error(m),
                Ok(c) => number_result(quotient_exec(&a, &c)),
            },
            Op::Pow => error("Operation not supported for units"),
        },
        (ResultValue::Unit(a, u), ResultValue::Number(b)) => match op {
            Op::Mul => unit_result(checked_exec(a.mul(&b)), u),
            Op::Div => unit_result(quotient_exec(&a, &b), u),
            _ => error("Operation not supported"),
        },
        (ResultValue::Number(a), ResultValue::Unit(b, u)) => match op {
            Op::Mul => unit_result(checked_exec(a.mul(&b)), u),
            _ => error("Operation not supported"),
        },
        (ResultValue::Currency(a, lc), ResultValue::Currency(b, rc)) => match op {
            Op::Add => match convert_currency(b, rc.as_str(), lc.as_str(), rates) {
                Err(m) => ResultValue::Error(m),
                Ok(c) => currency_result(checked_exec(a.add(&c)), lc),
            },
            Op::Sub => match convert_currency(b, rc.as_str(), lc.as_str(), rates) {
                Err(m) => ResultValue::Error(m),
                Ok(c) => currency_result(checked_exec(a.sub(&c)), lc),
            },
            Op::Div => match convert_currency(b, rc.as_str(), lc.as_str(), rates) {
                Err(m) => ResultValue::Error(m),
                Ok(c) => number_result(quotient_exec(&a, &c)),
            },
            _ => error("Operation not supported for currencies"),
        },
        (ResultValue::Currency(a, c), ResultValue::Number(b)) => match op {
            Op::Mul => currency_result(checked_exec(a.mul(&b)), c),
            Op::Div => currency_result(quotient_exec(&a, &b), c),
            _ => error("Operation not supported"),
        },
        (ResultValue::Number(a), ResultValue::Currency(b, c)) => match op {
            Op::Mul => currency_result(checked_exec(a.mul(&b)), c),
            _ => error("Operation not supported"),
        },
        (a, b) => mismatch_exec(op, &a, &b),
    }
}

/// The value of a conversion (see `convert_value`).
fn convert_exec(v: ResultValue, target: &String, rates: &RateTable) -> (r: ResultValue)
    ensures
        r.view() == convert_value(v.view(), target@, rates@),
{
    match v {
        ResultValue::Unit(n, from) => unit_result(
            convert_unit(n, from.as_str(), target.as_str()),
            target.clone(),
        ),
        ResultValue::Currency(n, from) => currency_result(
            convert_currency(n, from.as_str(), target.as_str(), rates),
            to_uppercase(target.as_str()),
        ),
        ResultValue::Number(n) => if lookup_unit(target.as_str()).is_some() {
            ResultValue::Unit(n, target.clone())
        } else {
            ResultValue::Currency(n, to_uppercase(target.as_str()))
        },
        ResultValue::Error(e) => ResultValue::Error(e),
        ResultValue::Empty => ResultValue::Empty,
        ResultValue::Percentage(_) => error("Cannot convert this value type"),
    }
}

} // verus!

verus! {

/// The value of an expression (see `eval_expr`); bindings made by
/// assignments are recorded in `syms`.
fn eval_expr_exec(
    e: &Expr,
    env: &Vec<ResultValue>,
    syms: &mut Symbols,
    rates: &RateTable,
    pw: &PowerTable,
    missing: &mut Vec<(Num, Num)>,
) -> (r: ResultValue)
    requires
        all_missing(old(missing)@, pw@),
    ensures
        (r.view(), final(syms)@) == eval_expr(e.view(), values_view(env@), old(syms)@, rates@, pw@),
        all_missing(final(missing)@, pw@),
    decreases e,
{
    match e {
        Expr::Number(n) => ResultValue::Number(*n),
        Expr::Assign(name, x) => {
            let v = eval_expr_exec(x, env, syms, rates, pw, missing);
            match v {
                ResultValue::Error(m) => ResultValue::Error(m),
                _ => {
                    syms.insert(name.clone(), v.duplicate());
                    v
                },
            }
        },
        Expr::Percentage(x) => {
            let v = eval_expr_exec(x, env, syms, rates, pw, missing);
            match v {
                ResultValue::Number(n) => ResultValue::Percentage(n),
                ResultValue::Error(m) => ResultValue::Error(m),
                _ => error("Invalid percentage operand"),
            }
        },
        Expr::Unit(n, u) => ResultValue::Unit(*n, u.clone()),
        Expr::Currency(n, c) => ResultValue::Currency(*n, c.clone()),
        Expr::Variable(name) => variable_exec(name, env, syms),
        Expr::Convert(x, target) => {
            let v = eval_expr_exec(x, env, syms, rates, pw, missing);
            convert_exec(v, target, rates)
        },
        Expr::Binary(l, op, r) => {
            let lv = eval_expr_exec(l, env, syms, rates, pw, missing);
            let rv = eval_expr_exec(r, env, syms, rates, pw, missing);
            binary_exec(lv, *op, rv, rates, pw, missing)
        },
    }
}

/// One step of adding up a line (see `sum_step`).
fn sum_step_exec(acc: ResultValue, v: ResultValue, rates: &RateTable) -> (r: ResultValue)
    ensures
        r.view() == sum_step(acc.view(), v.view(), rates@),
{
    match (acc, v) {
        (ResultValue::Error(e), _) => ResultValue::Error(e),
        (_, ResultValue::Error(e)) => ResultValue::Error(e),
        (ResultValue::Empty, x) => x,
        (x, ResultValue::Empty) => x,
        (ResultValue::Number(a), ResultValue::Number(b)) => number_result(checked_exec(a.add(&b))),
        (ResultValue::Unit(a, lu), ResultValue::Unit(b, ru)) => match convert_unit(
            b,
            ru.as_str(),
            lu.as_str(),
        ) {
            Err(m) => ResultValue::Error(m),
            Ok(c) => unit_result(checked_exec(a.add(&c)), lu),
        },
        (ResultValue::Currency(a, lc), ResultValue::Currency(b, rc)) => match convert_currency(
            b,
            rc.as_str(),
            lc.as_str(),
            rates,
        ) {
            Err(m) => ResultValue::Error(m),
            Ok(c) => currency_result(checked_exec(a.add(&c)), lc),
        },
        (x, y) => {
            let mut m: Vec<char> = Vec::new();
            crate::text::append_str(&mut m, "Cannot sum mismatched types: ");
            push_debug_value(&mut m, &x);
            crate::text::append_str(&mut m, " and ");
            push_debug_value(&mut m, &y);
            ResultValue::Error(crate::text::string_from_chars(&m))
        },
    }
}

/// The result of a line from the values of its expressions: no value for
/// none, else their sum from left to right.
pub fn sum_results(results: Vec<ResultValue>, rates: &RateTable) -> (r: ResultValue)
    ensures
        r.view() == sum_values(values_view(results@), rates@),
{
    let ghost vs = values_view(results@);
    let n = results.len();
    if n == 0 {
        return ResultValue::Empty;
    }
    let mut acc = results[0].duplicate();
    let mut i: usize = 1;
    assert(vs.take(1).len() == 1);
    while i < n
        invariant
            vs == values_view(results@),
            n == results@.len(),
            1 <= i <= n,
            acc.view() == sum_values(vs.take(i as int), rates@),
        decreases n - i,
    {
        assert(vs.take(i + 1).drop_last() =~= vs.take(i as int));
        let next = results[i].duplicate();
        acc = sum_step_exec(acc, next, rates);
        i = i + 1;
    }
    assert(vs.take(n as int) =~= vs);
    acc
}

/// The values of a line's expressions, in order.
fn eval_all(
    exprs: &Vec<Expr>,
    env: &Vec<ResultValue>,
    syms: &mut Symbols,
    rates: &RateTable,
    pw: &PowerTable,
    missing: &mut Vec<(Num, Num)>,
) -> (r: Vec<ResultValue>)
    requires
        all_missing(old(missing)@, pw@),
    ensures
        (values_view(r@), final(syms)@) == eval_exprs(expr_views(exprs@), values_view(env@), old(syms)@, rates@, pw@),
        all_missing(final(missing)@, pw@),
{
    let ghost es = expr_views(exprs@);
    let mut results: Vec<ResultValue> = Vec::new();
    let mut i: usize = 0;
    assert(es.take(0) =~= Seq::<ExprView>::empty());
    assert(values_view(results@) =~= Seq::<Value>::empty());
    while i < exprs.len()
        invariant
            es == expr_views(exprs@),
            i <= exprs@.len(),
            (values_view(results@), syms@) == eval_exprs(es.take(i as int), values_view(env@), old(syms)@, rates@, pw@),
            all_missing(missing@, pw@),
        decreases exprs.len() - i,
    {
        assert(es.take(i + 1).drop_last() =~= es.take(i as int));
        assert(es.take(i + 1).last() == exprs@[i as int].view());
        let ghost before = values_view(results@);
        let v = eval_expr_exec(&exprs[i], env, syms, rates, pw, missing);
        results.push(v);
        assert(values_view(results@) =~= before.push(v.view()));
        i = i + 1;
    }
    assert(es.take(exprs.len() as int) =~= es);
    results
}

/// The result of one line (see `eval_line`).
fn evaluate_line(
    line: &String,
    env: &Vec<ResultValue>,
    syms: &mut Symbols,
    rates: &RateTable,
    pw: &PowerTable,
    missing: &mut Vec<(Num, Num)>,
) -> (r: ResultValue)
    requires
        all_missing(old(missing)@, pw@),
    ensures
        (r.view(), final(syms)@) == eval_line(line@, values_view(env@), old(syms)@, rates@, pw@),
        all_missing(final(missing)@, pw@),
{
    if crate::text::is_blank(line.as_str()) {
        return ResultValue::Empty;
    }
    match parse_line(line.as_str()) {
        Ok(exprs) => {
            let results = eval_all(&exprs, env, syms, rates, pw, missing);
            sum_results(results, rates)
        },
        Err(e) => ResultValue::Error(e),
    }
}

/// Evaluates a document line by line and returns what each line shows (see
/// `spec_evaluate_document`), with powers of non-whole exponents taken from
/// `powers`. Each such power that the table lacks is appended to `missing`;
/// the caller can compute them, add them to the table and evaluate again.
pub fn evaluate_document_with_powers(
    lines: &[String],
    rates: &RateTable,
    powers: &PowerTable,
    missing: &mut Vec<(Num, Num)>,
) -> (r: Vec<String>)
    requires
        all_missing(old(missing)@, powers@),
    ensures
        r@.map_values(|s: String| s@) == spec_evaluate_document(
            lines@.map_values(|s: String| s@),
            rates@,
            powers@,
        ),
        all_missing(final(missing)@, powers@),
{
    let ghost ls = lines@.map_values(|s: String| s@);
    let mut env: Vec<ResultValue> = Vec::new();
    let mut syms = Symbols::new();
    let mut i: usize = 0;
    assert(ls.take(0) =~= Seq::<Seq<char>>::empty());
    assert(values_view(env@) =~= Seq::<Value>::empty());
    while i < lines.len()
        invariant
            ls == lines@.map_values(|s: String| s@),
            i <= lines@.len(),
            (values_view(env@), syms@) == eval_lines(ls.take(i as int), rates@, powers@),
            all_missing(missing@, powers@),
        decreases lines.len() - i,
    {
        assert(ls.take(i + 1).drop_last() =~= ls.take(i as int));
        assert(ls.take(i + 1).last() == lines@[i as int]@);
        let ghost before = values_view(env@);
        let v = evaluate_line(&lines[i], &env, &mut syms, rates, powers, missing);
        env.push(v);
        assert(values_view(env@) =~= before.push(v.view()));
        i = i + 1;
    }
    assert(ls.take(lines.len() as int) =~= ls);
    let mut out: Vec<String> = Vec::new();
    let mut k: usize = 0;
    while k < env.len()
        invariant
            k <= env@.len(),
            out@.len() == k,
            forall|j: int| 0 <= j < k ==> #[trigger] out@[j]@ == display_value(env@[j].view()),
        decreases env.len() - k,
    {
        out.push(env[k].display_string());
        k = k + 1;
    }
    assert(out@.map_values(|s: String| s@) =~= values_view(env@).map_values(
        |v: Value| display_value(v),
    ));
    out
}

/// Evaluates a document with no computed powers: a power with a non-whole
/// exponent shows an error (see `evaluate_document_with_powers`).
pub fn evaluate_document(lines: &[String], rates: &RateTable) -> (r: Vec<String>)
    ensures
        r@.map_values(|s: String| s@) == spec_evaluate_document(
            lines@.map_values(|s: String| s@),
            rates@,
            PowerEntries::empty(),
        ),
{
    let powers = PowerTable::new();
    let mut missing: Vec<(Num, Num)> = Vec::new();
    evaluate_document_with_powers(lines, rates, &powers, &mut missing)
}

} // verus!
