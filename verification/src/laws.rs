//! Properties of the calculator that span several functions or calls.

use vstd::prelude::*;
use crate::num::{spec_mul, spec_div, lemma_reduce_value, reduce, lemma_reduce_canonical};
use crate::units::{spec_convert_unit, spec_lookup_unit, lemma_factors, normalize_unit_name};
use crate::text::{is_integral, nat_digits, digit_char, is_digit, upper_text, lower_text, trim_ws, trim_start_ws, trim_end_ws, is_white_space, all_ascii, is_ascii_char, ascii_lower, ascii_lower_char};
use crate::lexer::{mantissa, skip_ws, lemma_skip_ws};
use crate::currency::{RateEntries, spec_convert_currency};
use crate::parser::{ExprView, Op, p_expr, p_items, p_item, p_variable, word, spec_parse_line, comment_at, char_at};
use crate::value::{Value, display_value};
use crate::eval::{
    SymbolsView, sym_lookup, sym_insert, sum_step, sum_values, binary_value, variable_value,
    line_reference, parse_usize, all_digits, eval_expr, eval_line, eval_lines, eval_exprs,
    spec_evaluate_document, PowerEntries, power_lookup,
};
use crate::num::is_finite;

verus! {

/// Every line of a document shows exactly one result.
pub proof fn law_one_result_per_line(lines: Seq<Seq<char>>, rates: RateEntries, pw: PowerEntries)
    ensures
        eval_lines(lines, rates, pw).0.len() == lines.len(),
        spec_evaluate_document(lines, rates, pw).len() == lines.len(),
    decreases lines.len(),
{
    if lines.len() > 0 {
        law_one_result_per_line(lines.drop_last(), rates, pw);
    }
}

/// The results of the first `k` lines do not depend on the lines after them.
pub proof fn law_earlier_lines_unaffected(lines: Seq<Seq<char>>, k: int, rates: RateEntries, pw: PowerEntries)
    requires
        0 <= k <= lines.len(),
    ensures
        eval_lines(lines.take(k), rates, pw).0 == eval_lines(lines, rates, pw).0.take(k),
        spec_evaluate_document(lines.take(k), rates, pw) == spec_evaluate_document(lines, rates, pw).take(k),
    decreases lines.len(),
{
    law_one_result_per_line(lines, rates, pw);
    if k == lines.len() {
        assert(lines.take(k) =~= lines);
        assert(eval_lines(lines, rates, pw).0.take(k) =~= eval_lines(lines, rates, pw).0);
    } else {
        assert(lines.drop_last().take(k) =~= lines.take(k));
        law_earlier_lines_unaffected(lines.drop_last(), k, rates, pw);
        law_one_result_per_line(lines.drop_last(), rates, pw);
        let prev = eval_lines(lines.drop_last(), rates, pw).0;
        let v = eval_line(
            lines.last(),
            prev,
            eval_lines(lines.drop_last(), rates, pw).1,
            rates,
            pw,
        ).0;
        assert(prev.push(v).take(k) =~= prev.take(k));
    }
    assert(spec_evaluate_document(lines.take(k), rates, pw) =~= spec_evaluate_document(lines, rates, pw).take(k));
}

/// A binding can be read back, and binding one name leaves the others as they were.
pub proof fn law_read_after_write(s: SymbolsView, name: Seq<char>, v: Value, other: Seq<char>)
    ensures
        sym_lookup(sym_insert(s, name, v), name) == Some(v),
        other != name ==> sym_lookup(sym_insert(s, name, v), other) == sym_lookup(s, other),
    decreases s.len(),
{
    let t = sym_insert(s, name, v);
    if s.len() == 0 {
        assert(t.drop_first() =~= Seq::<(Seq<char>, Value)>::empty());
        assert(t.len() == 1 && t[0] == (name, v));
    } else if s[0].0 != name {
        law_read_after_write(s.drop_first(), name, v, other);
        assert(t.drop_first() =~= sym_insert(s.drop_first(), name, v));
        assert(t.len() > 0 && t[0] == s[0]);
        if other != name && s[0].0 != other {
            assert(sym_lookup(t, other) == sym_lookup(t.drop_first(), other));
            assert(sym_lookup(s, other) == sym_lookup(s.drop_first(), other));
        }
    } else {
        assert(t.drop_first() =~= s.drop_first());
        assert(t.len() > 0 && t[0] == (name, v));
        if other != name {
            assert(sym_lookup(t, other) == sym_lookup(t.drop_first(), other));
            assert(sym_lookup(s, other) == sym_lookup(s.drop_first(), other));
        }
    }
}

/// After an assignment whose value is not an error, a reference to the same
/// name (other than `ans` and `lineN`) has that value.
pub proof fn law_assignment_then_reference(
    name: Seq<char>,
    x: ExprView,
    env: Seq<Value>,
    syms: SymbolsView,
    rates: RateEntries,
    pw: PowerEntries,
)
    requires
        name != "ans"@,
        line_reference(name) is None,
    ensures
        ({
            let (v, s1) = eval_expr(ExprView::Assign(name, Box::new(x)), env, syms, rates, pw);
            !(v is Error) ==> eval_expr(ExprView::Variable(name), env, s1, rates, pw) == (v, s1)
        }),
{
    let (v, s0) = eval_expr(x, env, syms, rates, pw);
    law_read_after_write(s0, name, v, name);
}

/// Variable names are read without regard to case: two spellings with the
/// same lower-case form name the same variable.
pub proof fn law_names_ignore_case(s: Seq<char>, i: int, t: Seq<char>, k: int)
    requires
        word(s, i) is Some,
        word(t, k) is Some,
        lower_text((word(s, i)->0).1) == lower_text((word(t, k)->0).1),
    ensures
        (p_variable(s, i)->0).1 == (p_variable(t, k)->0).1,
{
}

/// `ans` is the result of the previous line, unless that is an error.
pub proof fn law_ans_is_previous_line(env: Seq<Value>, syms: SymbolsView)
    requires
        env.len() > 0,
        !(env.last() is Error),
    ensures
        variable_value("ans"@, env, syms) == env.last(),
{
}

proof fn lemma_digits(n: nat)
    ensures
        nat_digits(n).len() > 0,
        all_digits(nat_digits(n)),
        mantissa(nat_digits(n)) == n,
    decreases n,
{
    let d = nat_digits(n);
    if n >= 10 {
        lemma_digits(n / 10);
        assert(d.drop_last() =~= nat_digits(n / 10));
        assert forall|i: int| 0 <= i < d.len() implies #[trigger] is_digit(d[i]) by {
            if i < d.len() - 1 {
                assert(d[i] == nat_digits(n / 10)[i]);
            }
        }
    }
    assert(is_digit(digit_char((n % 10) as int)));
    assert(crate::text::digit_value(digit_char((n % 10) as int)) == n % 10);
    assert(mantissa(Seq::<char>::empty()) == 0);
    assert(d.last() == digit_char((n % 10) as int));
    if n < 10 {
        assert(d.drop_last() =~= Seq::<char>::empty());
        assert(n % 10 == n);
    } else {
        assert(d.drop_last() =~= nat_digits(n / 10));
        assert(n == 10 * (n / 10) + n % 10);
    }
}

/// `lineN` is the result of line `N` (counted from 1), unless that is an error.
pub proof fn law_line_reference(n: nat, env: Seq<Value>, syms: SymbolsView)
    requires
        1 <= n <= env.len(),
        n <= usize::MAX,
        !(env[n - 1] is Error),
    ensures
        variable_value("line"@ + nat_digits(n), env, syms) == env[n - 1],
{
    reveal_strlit("line");
    reveal_strlit("ans");
    let name = "line"@ + nat_digits(n);
    lemma_digits(n);
    assert(name.subrange(0, 4) =~= "line"@);
    assert(name.subrange(4, name.len() as int) =~= nat_digits(n));
    assert(nat_digits(n)[0] != '+') by {
        assert(is_digit(nat_digits(n)[0]));
    }
    assert(parse_usize(nat_digits(n)) == Some(n));
    assert(line_reference(name) == Some(n));
    assert(name != "ans"@) by {
        assert(name.len() > 3);
    }
}

} // verus!

verus! {

/// An empty value (that of prose or of a name never bound) is neutral when
/// the values of one line are added up.
pub proof fn law_empty_is_neutral_in_sums(v: Value, rates: RateEntries)
    ensures
        sum_step(Value::Empty, v, rates) == v,
        sum_step(v, Value::Empty, rates) == v,
{
}

proof fn lemma_sum_push(s: Seq<Value>, x: Value, rates: RateEntries)
    ensures
        sum_values(s.push(x), rates) == sum_step(sum_values(s, rates), x, rates),
{
    assert(s.push(x).drop_last() =~= s);
}

/// The values of a line that are not empty.
pub open spec fn non_empty_values(vs: Seq<Value>) -> Seq<Value>
    decreases vs.len(),
{
    if vs.len() == 0 {
        vs
    } else if vs.last() is Empty {
        non_empty_values(vs.drop_last())
    } else {
        non_empty_values(vs.drop_last()).push(vs.last())
    }
}

/// Dropping every empty value (prose, unknown names) leaves a line's sum as
/// it was.
pub proof fn law_sum_ignores_empty_values(vs: Seq<Value>, rates: RateEntries)
    ensures
        sum_values(non_empty_values(vs), rates) == sum_values(vs, rates),
    decreases vs.len(),
{
    if vs.len() > 0 {
        let pre = vs.drop_last();
        let x = vs.last();
        law_sum_ignores_empty_values(pre, rates);
        assert(pre.push(x) =~= vs);
        lemma_sum_push(pre, x, rates);
        let fp = non_empty_values(pre);
        if !(x is Empty) {
            lemma_sum_push(fp, x, rates);
        }
    }
}

/// Once the running sum of a line is an error, the line shows that error.
pub proof fn law_sum_keeps_error(vs: Seq<Value>, k: int, rates: RateEntries)
    requires
        0 <= k <= vs.len(),
        sum_values(vs.take(k), rates) is Error,
    ensures
        sum_values(vs, rates) == sum_values(vs.take(k), rates),
    decreases vs.len(),
{
    if k < vs.len() {
        let pre = vs.drop_last();
        assert(pre.take(k) =~= vs.take(k));
        law_sum_keeps_error(pre, k, rates);
        assert(pre.push(vs.last()) =~= vs);
        lemma_sum_push(pre, vs.last(), rates);
    } else {
        assert(vs.take(k) =~= vs);
    }
}

/// The error a line shows is the first one: where the values before an error
/// add up without error, the line shows that error.
pub proof fn law_first_error_in_sum(vs: Seq<Value>, i: int, rates: RateEntries)
    requires
        0 <= i < vs.len(),
        vs[i] is Error,
        !(sum_values(vs.take(i), rates) is Error),
    ensures
        sum_values(vs, rates) == vs[i],
{
    assert(vs.take(i).push(vs[i]) =~= vs.take(i + 1));
    lemma_sum_push(vs.take(i), vs[i], rates);
    law_sum_keeps_error(vs, i + 1, rates);
}

/// A line whose values include an error shows an error.
pub proof fn law_error_in_sum(vs: Seq<Value>, i: int, rates: RateEntries)
    requires
        0 <= i < vs.len(),
        vs[i] is Error,
    ensures
        sum_values(vs, rates) is Error,
    decreases vs.len(),
{
    if vs.len() > 1 {
        if i < vs.len() - 1 {
            law_error_in_sum(vs.drop_last(), i, rates);
        }
    }
}

/// Using no value (such as an unknown name) in an operation is an error.
pub proof fn law_empty_operand_is_error(l: Value, op: Op, r: Value, rates: RateEntries, pw: PowerEntries)
    requires
        l is Empty || r is Empty,
    ensures
        binary_value(l, op, r, rates, pw) is Error,
{
}

/// An error in an operand is the result of the operation, the left one first.
pub proof fn law_errors_propagate(l: Value, op: Op, r: Value, rates: RateEntries, pw: PowerEntries)
    ensures
        l is Error ==> binary_value(l, op, r, rates, pw) == l,
        !(l is Error) && r is Error ==> binary_value(l, op, r, rates, pw) == r,
{
}

/// A power with a non-whole exponent is the result the table of computed
/// powers holds for it, and a power with a whole exponent does not depend on
/// the table.
pub proof fn law_powers_from_table(
    l: (int, int),
    r: (int, int),
    rates: RateEntries,
    pw: PowerEntries,
    other: PowerEntries,
    v: (int, int),
)
    ensures
        !(is_finite(r) && is_integral(r)) && power_lookup(pw, l, r) == Some(Some(v))
            ==> binary_value(Value::Number(l), Op::Pow, Value::Number(r), rates, pw) == Value::Number(v),
        is_finite(r) && is_integral(r) ==> binary_value(Value::Number(l), Op::Pow, Value::Number(r), rates, pw)
            == binary_value(Value::Number(l), Op::Pow, Value::Number(r), rates, other),
{
}

/// Converting between two spellings of one currency code keeps the amount.
pub proof fn law_same_currency_keeps_amount(v: (int, int), from: Seq<char>, to: Seq<char>, rates: RateEntries)
    requires
        upper_text(from) == upper_text(to),
    ensures
        spec_convert_currency(v, from, to, rates) == Ok::<(int, int), Seq<char>>(v),
{
}

proof fn lemma_no_expr_at_comment(s: Seq<char>, k: int)
    requires
        0 <= k < s.len(),
        s[k] == '#' || s[k] == '/',
    ensures
        p_expr(s, k) is None,
{
    assert(crate::parser::word(s, k) is None);
    assert(crate::parser::number_tok(s, k) is None);
    assert(crate::parser::p_percentage(s, k) is None);
    assert(crate::parser::p_currency(s, k) is None);
    assert(crate::parser::p_unit(s, k) is None);
    assert(crate::parser::p_number(s, k) is None);
    assert(crate::parser::p_variable(s, k) is None);
    assert(crate::parser::p_primary(s, k) is None);
    assert(crate::parser::p_power(s, k) is None);
    assert(crate::parser::p_mul_div(s, k) is None);
    assert(crate::parser::p_add_sub(s, k) is None);
    assert(crate::parser::p_conversion(s, k) is None);
    assert(crate::parser::p_assignment(s, k) is None);
}

/// A line whose first non-blank characters start a comment (`#` or `//`)
/// shows nothing and binds nothing.
pub proof fn law_comment_line_shows_nothing(
    line: Seq<char>,
    env: Seq<Value>,
    syms: SymbolsView,
    rates: RateEntries,
    pw: PowerEntries,
)
    requires
        skip_ws(line, 0) < line.len(),
        comment_at(line, skip_ws(line, 0)),
    ensures
        eval_line(line, env, syms, rates, pw) == (Value::Empty, syms),
        display_value(eval_line(line, env, syms, rates, pw).0) == Seq::<char>::empty(),
{
    let k = skip_ws(line, 0);
    lemma_skip_ws(line, 0);
    lemma_no_expr_at_comment(line, k);
    assert(!crate::text::is_white_space(line[k]));
    assert(!crate::text::all_white_space(line));
    assert(p_item(line, k) == Some((line.len() as int, None::<ExprView>)));
    assert(skip_ws(line, line.len() as int) == line.len());
    assert(p_items(line, line.len() as int, Seq::<ExprView>::empty()) == Ok::<Seq<ExprView>, int>(
        Seq::<ExprView>::empty(),
    ));
    assert(spec_parse_line(line) == Ok::<Seq<ExprView>, Seq<char>>(Seq::<ExprView>::empty()));
    assert(eval_exprs(Seq::<ExprView>::empty(), env, syms, rates, pw) == (Seq::<Value>::empty(), syms));
}

} // verus!

verus! {

proof fn lemma_nonzero_product(a: int, b: int)
    requires
        a != 0,
        b != 0,
    ensures
        a * b != 0,
{
    assert(a * b != 0) by (nonlinear_arith)
        requires
            a != 0,
            b != 0,
    ;
}

proof fn lemma_unit_factor_positive(name: Seq<char>)
    requires
        spec_lookup_unit(name) is Some,
    ensures
        (spec_lookup_unit(name)->0).2.0 > 0,
        (spec_lookup_unit(name)->0).2.1 > 0,
{
    lemma_factors();
}

/// `x` is the lowest-terms form of `n / d`, and `d` is not zero.
proof fn lemma_reduced_of(n: int, d: int, x: (int, int))
    requires
        reduce(n, d) == Some(x),
    ensures
        x.0 * d == n * x.1,
        x.1 >= 1,
        d != 0,
        reduce(x.0, x.1) == Some(x),
{
    lemma_reduce_value(n, d);
    lemma_reduce_canonical(x.0, x.1, n, d);
}

/// Converting a number to another unit and back gives the same number,
/// whenever the first conversion succeeds.
pub proof fn law_unit_round_trip(v: (int, int), a: Seq<char>, b: Seq<char>)
    requires
        reduce(v.0, v.1) == Some(v),
        spec_convert_unit(v, a, b) is Ok,
    ensures
        spec_convert_unit(spec_convert_unit(v, a, b)->Ok_0, b, a) == Ok::<(int, int), Seq<char>>(v),
{
    let f = (spec_lookup_unit(a)->0).2;
    let t = (spec_lookup_unit(b)->0).2;
    lemma_unit_factor_positive(a);
    lemma_unit_factor_positive(b);
    lemma_reduced_of(v.0, v.1, v);
    let x = spec_mul(v, f)->0;
    lemma_nonzero_product(v.1, f.1);
    lemma_reduced_of(v.0 * f.0, v.1 * f.1, x);
    let w = spec_div(x, t)->0;
    lemma_reduced_of(x.0 * t.1, x.1 * t.0, w);
    // back: y = w * t is x again
    assert((w.0 * t.0) * x.1 == x.0 * (w.1 * t.1)) by (nonlinear_arith)
        requires
            w.0 * (x.1 * t.0) == (x.0 * t.1) * w.1,
    ;
    lemma_nonzero_product(w.1, t.1);
    lemma_reduce_canonical(w.0 * t.0, w.1 * t.1, x.0, x.1);
    assert(spec_mul(w, t) == Some(x));
    // then x / f is v again
    assert((x.0 * f.1) * v.1 == v.0 * (x.1 * f.0)) by (nonlinear_arith)
        requires
            x.0 * (v.1 * f.1) == (v.0 * f.0) * x.1,
    ;
    lemma_nonzero_product(x.1, f.0);
    lemma_reduce_canonical(x.0 * f.1, x.1 * f.0, v.0, v.1);
    assert(spec_div(x, f) == Some(v));
}

/// Converting a number to its own unit gives the same number, whenever the
/// conversion succeeds.
pub proof fn law_convert_to_same_unit(v: (int, int), u: Seq<char>)
    requires
        reduce(v.0, v.1) == Some(v),
        spec_convert_unit(v, u, u) is Ok,
    ensures
        spec_convert_unit(v, u, u) == Ok::<(int, int), Seq<char>>(v),
{
    let f = (spec_lookup_unit(u)->0).2;
    lemma_unit_factor_positive(u);
    lemma_reduced_of(v.0, v.1, v);
    let x = spec_mul(v, f)->0;
    lemma_nonzero_product(v.1, f.1);
    lemma_reduced_of(v.0 * f.0, v.1 * f.1, x);
    assert((x.0 * f.1) * v.1 == v.0 * (x.1 * f.0)) by (nonlinear_arith)
        requires
            x.0 * (v.1 * f.1) == (v.0 * f.0) * x.1,
    ;
    lemma_nonzero_product(x.1, f.0);
    lemma_reduce_canonical(x.0 * f.1, x.1 * f.0, v.0, v.1);
}

} // verus!

verus! {

/// Every rate of a table has a positive denominator (as every table built
/// by the library has).
pub open spec fn valid_rates(rates: RateEntries) -> bool {
    forall|i: int| 0 <= i < rates.len() ==> (#[trigger] rates[i]).1.1 >= 1
}

proof fn lemma_rate_den(rates: RateEntries, code: Seq<char>)
    requires
        valid_rates(rates),
        crate::currency::rate_lookup(rates, code) is Some,
    ensures
        (crate::currency::rate_lookup(rates, code)->0).1 >= 1,
    decreases rates.len(),
{
    if rates[0].0 != code {
        assert(valid_rates(rates.drop_first())) by {
            assert forall|i: int| 0 <= i < rates.drop_first().len() implies (
            #[trigger] rates.drop_first()[i]).1.1 >= 1 by {
                assert(rates.drop_first()[i] == rates[i + 1]);
            }
        }
        lemma_rate_den(rates.drop_first(), code);
    } else {
        assert(rates[0].1.1 >= 1);
    }
}

/// Converting a number to another currency and back gives the same number,
/// whenever the first conversion succeeds and neither currency's rate is
/// zero.
pub proof fn law_currency_round_trip(v: (int, int), a: Seq<char>, b: Seq<char>, rates: RateEntries)
    requires
        reduce(v.0, v.1) == Some(v),
        valid_rates(rates),
        spec_convert_currency(v, a, b, rates) is Ok,
        upper_text(a) != upper_text(b) ==> (crate::currency::rate_lookup(rates, upper_text(a))->0).0 != 0,
        upper_text(a) != upper_text(b) ==> (crate::currency::rate_lookup(rates, upper_text(b))->0).0 != 0,
    ensures
        spec_convert_currency(spec_convert_currency(v, a, b, rates)->Ok_0, b, a, rates) == Ok::<
            (int, int),
            Seq<char>,
        >(v),
{
    let ua = upper_text(a);
    let ub = upper_text(b);
    if ua == ub {
        return;
    }
    let f = crate::currency::rate_lookup(rates, ua)->0;
    let t = crate::currency::rate_lookup(rates, ub)->0;
    lemma_rate_den(rates, ua);
    lemma_rate_den(rates, ub);
    lemma_reduced_of(v.0, v.1, v);
    let x = spec_div(v, f)->0;
    lemma_nonzero_product(v.1, f.0);
    lemma_reduced_of(v.0 * f.1, v.1 * f.0, x);
    let w = spec_mul(x, t)->0;
    lemma_reduced_of(x.0 * t.0, x.1 * t.1, w);
    assert((w.0 * t.1) * x.1 == x.0 * (w.1 * t.0)) by (nonlinear_arith)
        requires
            w.0 * (x.1 * t.1) == (x.0 * t.0) * w.1,
    ;
    lemma_nonzero_product(w.1, t.0);
    lemma_reduce_canonical(w.0 * t.1, w.1 * t.0, x.0, x.1);
    assert(spec_div(w, t) == Some(x));
    assert((x.0 * f.0) * v.1 == v.0 * (x.1 * f.1)) by (nonlinear_arith)
        requires
            x.0 * (v.1 * f.0) == (v.0 * f.1) * x.1,
    ;
    lemma_nonzero_product(x.1, f.1);
    lemma_reduce_canonical(x.0 * f.0, x.1 * f.1, v.0, v.1);
    assert(spec_mul(x, f) == Some(v));
}

} // verus!

verus! {

/// The currency a sign reads as is the one shown with that sign, and a
/// currency shown with a sign is read back from it: reading and showing
/// amounts of money agree.
pub proof fn law_currency_signs_round_trip(c: char, code: Seq<char>)
    ensures
        crate::parser::currency_of_symbol(c) == Some(code) ==> crate::value::currency_sign(code) == Some(c),
        crate::value::currency_sign(code) == Some(c) ==> crate::parser::currency_of_symbol(c) == Some(code),
{
    reveal_strlit("USD");
    reveal_strlit("EUR");
    reveal_strlit("GBP");
    reveal_strlit("JPY");
    assert(seq!['U', 'S', 'D'] =~= "USD"@);
    assert(seq!['E', 'U', 'R'] =~= "EUR"@);
    assert(seq!['G', 'B', 'P'] =~= "GBP"@);
    assert(seq!['J', 'P', 'Y'] =~= "JPY"@);
}

} // verus!

verus! {

/// A unit name written in small ASCII letters is its own normal form.
proof fn lemma_plain_name(w: Seq<char>)
    requires
        w.len() > 0,
        forall|i: int| 0 <= i < w.len() ==> 'a' <= #[trigger] w[i] <= 'z',
    ensures
        normalize_unit_name(w) == w,
{
    assert('a' <= w[0] <= 'z');
    assert('a' <= w.last() <= 'z');
    assert(trim_start_ws(w) == w);
    assert(trim_end_ws(w) == w);
    assert(all_ascii(w)) by {
        assert forall|i: int| 0 <= i < w.len() implies #[trigger] is_ascii_char(w[i]) by {
            assert('a' <= w[i] <= 'z');
        }
    }
    assert(ascii_lower(w) =~= w) by {
        assert forall|i: int| 0 <= i < w.len() implies #[trigger] ascii_lower(w)[i] == w[i] by {
            assert('a' <= w[i] <= 'z');
        }
    }
}

proof fn lemma_unit_words()
    ensures
        spec_lookup_unit("m"@) == Some(("meter"@, crate::units::Dimension::Length, crate::num::int_rat(1))),
        spec_lookup_unit("meter"@) == Some(("meter"@, crate::units::Dimension::Length, crate::num::int_rat(1))),
        spec_lookup_unit("km"@) == Some(("meter"@, crate::units::Dimension::Length, crate::num::int_rat(1000))),
        spec_lookup_unit("mile"@) == Some(("meter"@, crate::units::Dimension::Length, (201168int, 125int))),
        spec_lookup_unit("s"@) == Some(("second"@, crate::units::Dimension::Time, crate::num::int_rat(1))),
        spec_lookup_unit("second"@) == Some(("second"@, crate::units::Dimension::Time, crate::num::int_rat(1))),
        spec_lookup_unit("min"@) == Some(("second"@, crate::units::Dimension::Time, crate::num::int_rat(60))),
        spec_lookup_unit("h"@) == Some(("second"@, crate::units::Dimension::Time, crate::num::int_rat(3600))),
        spec_lookup_unit("g"@) == Some(("gram"@, crate::units::Dimension::Mass, crate::num::int_rat(1))),
        spec_lookup_unit("gram"@) == Some(("gram"@, crate::units::Dimension::Mass, crate::num::int_rat(1))),
        spec_lookup_unit("kg"@) == Some(("gram"@, crate::units::Dimension::Mass, crate::num::int_rat(1000))),
        spec_lookup_unit("lbs"@) == Some(("gram"@, crate::units::Dimension::Mass, (45359237int, 100000int))),
{
    lemma_factors();
    reveal_strlit("m");
    reveal_strlit("meter");
    reveal_strlit("meters");
    reveal_strlit("km");
    reveal_strlit("kilometer");
    reveal_strlit("kilometers");
    reveal_strlit("mile");
    reveal_strlit("miles");
    reveal_strlit("s");
    reveal_strlit("sec");
    reveal_strlit("secs");
    reveal_strlit("second");
    reveal_strlit("seconds");
    reveal_strlit("min");
    reveal_strlit("mins");
    reveal_strlit("minute");
    reveal_strlit("minutes");
    reveal_strlit("h");
    reveal_strlit("hour");
    reveal_strlit("hours");
    reveal_strlit("g");
    reveal_strlit("gram");
    reveal_strlit("grams");
    reveal_strlit("kg");
    reveal_strlit("kilogram");
    reveal_strlit("kilograms");
    reveal_strlit("lbs");
    reveal_strlit("pound");
    reveal_strlit("pounds");
    lemma_plain_name("m"@);
    lemma_plain_name("meter"@);
    lemma_plain_name("km"@);
    lemma_plain_name("mile"@);
    lemma_plain_name("s"@);
    lemma_plain_name("second"@);
    lemma_plain_name("min"@);
    lemma_plain_name("h"@);
    lemma_plain_name("g"@);
    lemma_plain_name("gram"@);
    lemma_plain_name("kg"@);
    lemma_plain_name("lbs"@);
}

/// Every unit is measured in the base unit its entry names, and that base
/// unit has the factor 1: a base unit converts to itself unscaled.
pub proof fn law_base_units_have_factor_one(name: Seq<char>)
    ensures
        spec_lookup_unit(name) matches Some((base, dim, f)) ==> spec_lookup_unit(base) == Some(
            (base, dim, crate::num::int_rat(1)),
        ),
{
    lemma_unit_words();
}

} // verus!

verus! {

/// The result of a conversion that may overflow: the number in lowest terms,
/// or the overflow error.
pub open spec fn exact_or_overflow(r: Option<(int, int)>) -> Result<(int, int), Seq<char>> {
    match r {
        Some(x) => Ok(x),
        None => Err(crate::units::overflow_message()),
    }
}

proof fn lemma_to_base(v: (int, int), name: Seq<char>, base: Seq<char>, d: crate::units::Dimension, f: (int, int))
    requires
        reduce(v.0, v.1) == Some(v),
        spec_lookup_unit(name) == Some((base, d, f)),
        spec_lookup_unit(base) == Some((base, d, crate::num::int_rat(1))),
        f.1 >= 1,
    ensures
        spec_convert_unit(v, name, base) == exact_or_overflow(reduce(v.0 * f.0, v.1 * f.1)),
{
    lemma_reduced_of(v.0, v.1, v);
    match reduce(v.0 * f.0, v.1 * f.1) {
        Some(x) => {
            lemma_reduced_of(v.0 * f.0, v.1 * f.1, x);
            assert(spec_div(x, (1, 1)) == reduce(x.0 * 1, x.1 * 1));
            assert(x.0 * 1 == x.0 && x.1 * 1 == x.1);
        },
        None => {},
    }
}

proof fn lemma_from_base(v: (int, int), name: Seq<char>, base: Seq<char>, d: crate::units::Dimension, f: (int, int))
    requires
        reduce(v.0, v.1) == Some(v),
        spec_lookup_unit(name) == Some((base, d, f)),
        spec_lookup_unit(base) == Some((base, d, crate::num::int_rat(1))),
        f.0 > 0,
        f.1 >= 1,
    ensures
        spec_convert_unit(v, base, name) == exact_or_overflow(reduce(v.0 * f.1, v.1 * f.0)),
{
    lemma_reduced_of(v.0, v.1, v);
    assert(spec_mul(v, (1, 1)) == reduce(v.0 * 1, v.1 * 1));
    assert(v.0 * 1 == v.0 && v.1 * 1 == v.1);
}

/// Converting to the base unit multiplies by the unit's physical size: a
/// minute is 60 seconds, an hour 3600 seconds, a kilometer 1000 meters, a
/// mile 1609.344 meters, a kilogram 1000 grams and a pound 453.59237 grams;
/// and a number of seconds is that number divided by 60 in minutes. Each
/// conversion gives the exact result in lowest terms, or the overflow error
/// when that does not fit.
pub proof fn law_unit_sizes(v: (int, int))
    requires
        reduce(v.0, v.1) == Some(v),
    ensures
        spec_convert_unit(v, "min"@, "second"@) == exact_or_overflow(reduce(60 * v.0, v.1)),
        spec_convert_unit(v, "h"@, "second"@) == exact_or_overflow(reduce(3600 * v.0, v.1)),
        spec_convert_unit(v, "km"@, "meter"@) == exact_or_overflow(reduce(1000 * v.0, v.1)),
        spec_convert_unit(v, "mile"@, "meter"@) == exact_or_overflow(reduce(1609344 * v.0, 1000 * v.1)),
        spec_convert_unit(v, "kg"@, "gram"@) == exact_or_overflow(reduce(1000 * v.0, v.1)),
        spec_convert_unit(v, "lbs"@, "gram"@) == exact_or_overflow(reduce(45359237 * v.0, 100000 * v.1)),
        spec_convert_unit(v, "second"@, "min"@) == exact_or_overflow(reduce(v.0, 60 * v.1)),
{
    lemma_unit_words();
    lemma_reduced_of(v.0, v.1, v);
    lemma_to_base(v, "min"@, "second"@, crate::units::Dimension::Time, (60, 1));
    assert(v.0 * 60 == 60 * v.0 && v.1 * 1 == v.1);
    lemma_to_base(v, "h"@, "second"@, crate::units::Dimension::Time, (3600, 1));
    assert(v.0 * 3600 == 3600 * v.0);
    lemma_to_base(v, "km"@, "meter"@, crate::units::Dimension::Length, (1000, 1));
    assert(v.0 * 1000 == 1000 * v.0);
    lemma_to_base(v, "mile"@, "meter"@, crate::units::Dimension::Length, (201168, 125));
    assert((v.0 * 201168) * (1000 * v.1) == (1609344 * v.0) * (v.1 * 125)) by (nonlinear_arith);
    lemma_nonzero_product(v.1, 125);
    lemma_nonzero_product(1000, v.1);
    lemma_reduce_canonical(v.0 * 201168, v.1 * 125, 1609344 * v.0, 1000 * v.1);
    lemma_to_base(v, "kg"@, "gram"@, crate::units::Dimension::Mass, (1000, 1));
    lemma_to_base(v, "lbs"@, "gram"@, crate::units::Dimension::Mass, (45359237, 100000));
    assert(v.0 * 45359237 == 45359237 * v.0 && v.1 * 100000 == 100000 * v.1);
    lemma_from_base(v, "min"@, "second"@, crate::units::Dimension::Time, (60, 1));
    assert(v.0 * 1 == v.0 && v.1 * 60 == 60 * v.1);
}

} // verus!

verus! {

/// An amount in a unit, or the overflow error when it does not fit.
pub open spec fn unit_or_overflow(r: Option<(int, int)>, u: Seq<char>) -> Value {
    match r {
        Some(x) => Value::Unit(x, u),
        None => Value::Error(crate::units::overflow_message()),
    }
}

/// A finite amount converts to a finite amount.
proof fn lemma_convert_finite(b: (int, int), w: Seq<char>, u: Seq<char>)
    requires
        b.1 >= 1,
        spec_convert_unit(b, w, u) is Ok,
    ensures
        (spec_convert_unit(b, w, u)->Ok_0).1 >= 1,
{
    lemma_unit_factor_positive(w);
    lemma_unit_factor_positive(u);
    let f = (spec_lookup_unit(w)->0).2;
    let t = (spec_lookup_unit(u)->0).2;
    let x = spec_mul(b, f)->0;
    lemma_reduced_of(b.0 * f.0, b.1 * f.1, x);
    let y = spec_div(x, t)->0;
    lemma_reduced_of(x.0 * t.1, x.1 * t.0, y);
}

/// Adding or subtracting two amounts in units converts the right amount to
/// the left unit and then adds or subtracts exactly: the result is in the
/// left unit and is the exact sum or difference in lowest terms (or the
/// overflow error when that does not fit). So `5 km - 2 km` is `3 km` and
/// `3 hours + 45 mins` is `3.75 hours`.
pub proof fn law_unit_sum_and_difference(
    a: (int, int),
    u: Seq<char>,
    b: (int, int),
    w: Seq<char>,
    rates: RateEntries,
    pw: PowerEntries,
)
    requires
        a.1 >= 1,
        b.1 >= 1,
        spec_convert_unit(b, w, u) is Ok,
    ensures
        ({
            let c = spec_convert_unit(b, w, u)->Ok_0;
            &&& binary_value(Value::Unit(a, u), Op::Add, Value::Unit(b, w), rates, pw) == unit_or_overflow(
                reduce(a.0 * c.1 + c.0 * a.1, a.1 * c.1),
                u,
            )
            &&& binary_value(Value::Unit(a, u), Op::Sub, Value::Unit(b, w), rates, pw) == unit_or_overflow(
                reduce(a.0 * c.1 - c.0 * a.1, a.1 * c.1),
                u,
            )
        }),
{
    lemma_convert_finite(b, w, u);
}

/// An amount in a known unit minus itself is zero in that unit (when
/// converting it to its own unit does not overflow).
pub proof fn law_unit_minus_itself(a: (int, int), u: Seq<char>, rates: RateEntries, pw: PowerEntries)
    requires
        reduce(a.0, a.1) == Some(a),
        spec_convert_unit(a, u, u) is Ok,
    ensures
        binary_value(Value::Unit(a, u), Op::Sub, Value::Unit(a, u), rates, pw) == Value::Unit((0, 1), u),
{
    law_convert_to_same_unit(a, u);
    lemma_reduced_of(a.0, a.1, a);
    law_unit_sum_and_difference(a, u, a, u, rates, pw);
    assert(a.0 * a.1 - a.0 * a.1 == 0);
    lemma_nonzero_product(a.1, a.1);
    lemma_reduce_canonical(0, a.1 * a.1, 0, 1);
    assert(crate::num::gcd(1, 0) == 1);
    assert(crate::num::gcd(0, 1) == 1);
    assert(reduce(0, 1) == Some((0int, 1int)));
}

} // verus!

verus! {

/// The amount of a number, an amount in a unit or an amount of money.
pub open spec fn amount(v: Value) -> (int, int) {
    match v {
        Value::Number(a) => a,
        Value::Unit(a, _) => a,
        Value::Currency(a, _) => a,
        _ => (0, 1),
    }
}

/// The arithmetic sum of the amounts of `vs`, as a fraction (not reduced).
pub open spec fn amount_total(vs: Seq<Value>) -> (int, int)
    decreases vs.len(),
{
    if vs.len() == 0 {
        (0, 1)
    } else {
        let t = amount_total(vs.drop_last());
        let a = amount(vs.last());
        (t.0 * a.1 + a.0 * t.1, t.1 * a.1)
    }
}

/// Every value of `vs` is a finite amount of money in currency `c`.
pub open spec fn all_money_in(vs: Seq<Value>, c: Seq<char>) -> bool {
    forall|i: int| 0 <= i < vs.len() ==> (#[trigger] vs[i] matches Value::Currency(a, k) && k == c && a.1 >= 1)
}

/// Every value of `vs` is a finite number.
pub open spec fn all_numbers(vs: Seq<Value>) -> bool {
    forall|i: int| 0 <= i < vs.len() ==> (#[trigger] vs[i] matches Value::Number(a) && a.1 >= 1)
}

/// A number, or the overflow error when it does not fit.
pub open spec fn number_or_overflow(r: Option<(int, int)>) -> Value {
    match r {
        Some(x) => Value::Number(x),
        None => Value::Error(crate::units::overflow_message()),
    }
}

/// An amount of money, or the overflow error when it does not fit.
pub open spec fn money_or_overflow(r: Option<(int, int)>, c: Seq<char>) -> Value {
    match r {
        Some(x) => Value::Currency(x, c),
        None => Value::Error(crate::units::overflow_message()),
    }
}

/// Two values on one line add up exactly: two numbers to their sum, two
/// amounts of one currency to their sum in that currency, and two amounts in
/// one unit to their sum in that unit (each in lowest terms, or the overflow
/// error when that does not fit).
pub proof fn law_line_sum_of_two(a: (int, int), b: (int, int), c: Seq<char>, rates: RateEntries)
    requires
        a.1 >= 1,
        reduce(b.0, b.1) == Some(b),
    ensures
        sum_step(Value::Number(a), Value::Number(b), rates) == number_or_overflow(
            reduce(a.0 * b.1 + b.0 * a.1, a.1 * b.1),
        ),
        sum_step(Value::Currency(a, c), Value::Currency(b, c), rates) == money_or_overflow(
            reduce(a.0 * b.1 + b.0 * a.1, a.1 * b.1),
            c,
        ),
        spec_convert_unit(b, c, c) is Ok ==> sum_step(Value::Unit(a, c), Value::Unit(b, c), rates)
            == unit_or_overflow(reduce(a.0 * b.1 + b.0 * a.1, a.1 * b.1), c),
{
    lemma_reduced_of(b.0, b.1, b);
    if spec_convert_unit(b, c, c) is Ok {
        law_convert_to_same_unit(b, c);
    }
}

proof fn lemma_sum_value_step(x: (int, int), s: (int, int), b: (int, int), t: (int, int))
    requires
        x.0 * (s.1 * b.1) == (s.0 * b.1 + b.0 * s.1) * x.1,
        s.0 * t.1 == t.0 * s.1,
        s.1 >= 1,
        t.1 >= 1,
        b.1 >= 1,
    ensures
        x.0 * (t.1 * b.1) == (t.0 * b.1 + b.0 * t.1) * x.1,
{
    let (x0, x1) = x;
    let (s0, s1) = s;
    let (b0, b1) = b;
    let (t0, t1) = t;
    let lhs = x0 * (t1 * b1);
    let rhs = (t0 * b1 + b0 * t1) * x1;
    // multiply the first equation by t1
    assert((x0 * (s1 * b1)) * t1 == ((s0 * b1 + b0 * s1) * x1) * t1);
    assert((x0 * (s1 * b1)) * t1 == s1 * (x0 * (t1 * b1))) by (nonlinear_arith);
    assert(((s0 * b1 + b0 * s1) * x1) * t1 == ((s0 * t1) * b1 + b0 * s1 * t1) * x1) by (nonlinear_arith);
    assert((s0 * t1) * b1 == (t0 * s1) * b1);
    assert((t0 * s1) * b1 == s1 * (t0 * b1)) by (nonlinear_arith);
    assert(b0 * s1 * t1 == s1 * (b0 * t1)) by (nonlinear_arith);
    vstd::arithmetic::mul::lemma_mul_is_distributive_add(s1, t0 * b1, b0 * t1);
    assert((t0 * s1) * b1 + b0 * s1 * t1 == s1 * (t0 * b1 + b0 * t1));
    let m = t0 * b1 + b0 * t1;
    vstd::arithmetic::mul::lemma_mul_is_associative(s1, m, x1);
    assert(((t0 * s1) * b1 + b0 * s1 * t1) * x1 == s1 * ((t0 * b1 + b0 * t1) * x1));
    assert(s1 * lhs == s1 * rhs);
    assert(lhs == rhs) by (nonlinear_arith)
        requires
            s1 * lhs == s1 * rhs,
            s1 >= 1,
    ;
}

proof fn lemma_total_positive(vs: Seq<Value>)
    requires
        forall|i: int| 0 <= i < vs.len() ==> amount(#[trigger] vs[i]).1 >= 1,
    ensures
        amount_total(vs).1 >= 1,
    decreases vs.len(),
{
    if vs.len() > 0 {
        let pre = vs.drop_last();
        assert forall|i: int| 0 <= i < pre.len() implies amount(#[trigger] pre[i]).1 >= 1 by {
            assert(pre[i] == vs[i]);
        }
        lemma_total_positive(pre);
        assert(amount(vs[vs.len() - 1]).1 >= 1);
        let t = amount_total(pre);
        let a = amount(vs.last());
        assert(t.1 * a.1 >= 1) by (nonlinear_arith)
            requires
                t.1 >= 1,
                a.1 >= 1,
        ;
    }
}

/// A line of amounts in one currency adds up to the arithmetic sum of those
/// amounts in that currency (or the overflow error when a partial sum does
/// not fit); a line of numbers adds up to the sum of the numbers likewise.
pub proof fn law_line_sum_is_total(vs: Seq<Value>, c: Seq<char>, rates: RateEntries)
    requires
        vs.len() >= 1,
        all_money_in(vs, c) || all_numbers(vs),
    ensures
        all_money_in(vs, c) ==> ((sum_values(vs, rates) matches Value::Currency(x, k) && k == c && x.1 >= 1
            && x.0 * amount_total(vs).1 == amount_total(vs).0 * x.1) || sum_values(vs, rates)
            == Value::Error(crate::units::overflow_message())),
        all_numbers(vs) ==> ((sum_values(vs, rates) matches Value::Number(x) && x.1 >= 1 && x.0
            * amount_total(vs).1 == amount_total(vs).0 * x.1) || sum_values(vs, rates) == Value::Error(
            crate::units::overflow_message(),
        )),
    decreases vs.len(),
{
    let pre = vs.drop_last();
    let b = amount(vs.last());
    assert(vs.last() == vs[vs.len() - 1]);
    assert forall|i: int| 0 <= i < vs.len() implies amount(#[trigger] vs[i]).1 >= 1 by {
        if all_money_in(vs, c) {
            assert(vs[i] matches Value::Currency(a, k) && k == c && a.1 >= 1);
        } else {
            assert(vs[i] matches Value::Number(a) && a.1 >= 1);
        }
    }
    if vs.len() == 1 {
        assert(amount_total(pre) == (0int, 1int));
        assert(amount_total(vs) == (0 * b.1 + b.0 * 1, 1 * b.1));
        assert(sum_values(vs, rates) == vs[0]);
    } else {
        assert(all_money_in(vs, c) ==> all_money_in(pre, c)) by {
            if all_money_in(vs, c) {
                assert forall|i: int| 0 <= i < pre.len() implies (#[trigger] pre[i] matches Value::Currency(
                    a,
                    k,
                ) && k == c && a.1 >= 1) by {
                    assert(pre[i] == vs[i]);
                }
            }
        }
        assert(all_numbers(vs) ==> all_numbers(pre)) by {
            if all_numbers(vs) {
                assert forall|i: int| 0 <= i < pre.len() implies (#[trigger] pre[i] matches Value::Number(
                    a,
                ) && a.1 >= 1) by {
                    assert(pre[i] == vs[i]);
                }
            }
        }
        law_line_sum_is_total(pre, c, rates);
        assert(pre.push(vs.last()) =~= vs);
        lemma_sum_push(pre, vs.last(), rates);
        assert forall|i: int| 0 <= i < pre.len() implies amount(#[trigger] pre[i]).1 >= 1 by {
            assert(pre[i] == vs[i]);
        }
        lemma_total_positive(pre);
        let t = amount_total(pre);
        let s = sum_values(pre, rates);
        match s {
            Value::Currency(sa, k) => {
                if all_money_in(vs, c) {
                    assert(vs[vs.len() - 1] matches Value::Currency(a, k2) && k2 == c && a.1 >= 1);
                    match reduce(sa.0 * b.1 + b.0 * sa.1, sa.1 * b.1) {
                        Some(x) => {
                            lemma_reduced_of(sa.0 * b.1 + b.0 * sa.1, sa.1 * b.1, x);
                            lemma_sum_value_step(x, sa, b, t);
                        },
                        None => {},
                    }
                }
            },
            Value::Number(sa) => {
                if all_numbers(vs) {
                    assert(vs[vs.len() - 1] matches Value::Number(a) && a.1 >= 1);
                    match reduce(sa.0 * b.1 + b.0 * sa.1, sa.1 * b.1) {
                        Some(x) => {
                            lemma_reduced_of(sa.0 * b.1 + b.0 * sa.1, sa.1 * b.1, x);
                            lemma_sum_value_step(x, sa, b, t);
                        },
                        None => {},
                    }
                }
            },
            _ => {},
        }
    }
}

} // verus!

verus! {

/// The exact value of `a op p%` in lowest terms: `a` with `p/100` of itself
/// added or taken away, `p/100` of `a`, or `a` divided by `p/100`.
pub open spec fn percent_meaning(a: (int, int), op: Op, p: (int, int)) -> Option<(int, int)> {
    match op {
        Op::Add => reduce(a.0 * (100 * p.1 + p.0), 100 * a.1 * p.1),
        Op::Sub => reduce(a.0 * (100 * p.1 - p.0), 100 * a.1 * p.1),
        Op::Mul => reduce(a.0 * p.0, 100 * a.1 * p.1),
        _ => reduce(100 * a.0 * p.1, a.1 * p.0),
    }
}

/// A finite number whose parts are below `2^20` in size.
pub open spec fn moderate(v: (int, int)) -> bool {
    -0x10_0000 < v.0 < 0x10_0000 && 1 <= v.1 < 0x10_0000
}

/// A unit amount, or the overflow error when it does not fit (see `unit_or_overflow`).
proof fn lemma_share_key(a: (int, int), p: (int, int), f: (int, int), d: (int, int))
    requires
        f.0 * (p.1 * 100) == (p.0 * 1) * f.1,
        d.0 * (a.1 * f.1) == (a.0 * f.0) * d.1,
        f.1 >= 1,
    ensures
        100 * d.0 * a.1 * p.1 == a.0 * p.0 * d.1,
{
    let (a0, a1) = a;
    let (p0, p1) = p;
    let (f0, f1) = f;
    let (d0, d1) = d;
    assert(f0 * (100 * p1) == p0 * f1) by (nonlinear_arith)
        requires
            f0 * (p1 * 100) == (p0 * 1) * f1,
    ;
    assert((d0 * (a1 * f1)) * (100 * p1) == ((a0 * f0) * d1) * (100 * p1));
    assert((d0 * (a1 * f1)) * (100 * p1) == f1 * (100 * d0 * a1 * p1)) by (nonlinear_arith);
    assert(((a0 * f0) * d1) * (100 * p1) == (a0 * d1) * (f0 * (100 * p1))) by (nonlinear_arith);
    assert((a0 * d1) * (p0 * f1) == f1 * (a0 * p0 * d1)) by (nonlinear_arith);
    assert(f1 * (100 * d0 * a1 * p1) == f1 * (a0 * p0 * d1));
    assert(100 * d0 * a1 * p1 == a0 * p0 * d1) by (nonlinear_arith)
        requires
            f1 * (100 * d0 * a1 * p1) == f1 * (a0 * p0 * d1),
            f1 >= 1,
    ;
}

proof fn lemma_share_sum(a: (int, int), p: (int, int), d: (int, int), sub: bool)
    requires
        100 * d.0 * a.1 * p.1 == a.0 * p.0 * d.1,
    ensures
        sub ==> (a.0 * d.1 - d.0 * a.1) * (100 * a.1 * p.1) == (a.0 * (100 * p.1 - p.0)) * (a.1 * d.1),
        !sub ==> (a.0 * d.1 + d.0 * a.1) * (100 * a.1 * p.1) == (a.0 * (100 * p.1 + p.0)) * (a.1 * d.1),
{
    let (a0, a1) = a;
    let (p0, p1) = p;
    let (d0, d1) = d;
    let m = 100 * a1 * p1;
    let n = a1 * d1;
    vstd::arithmetic::mul::lemma_mul_is_distributive_sub_other_way(m, a0 * d1, d0 * a1);
    vstd::arithmetic::mul::lemma_mul_is_distributive_sub(a0, 100 * p1, p0);
    vstd::arithmetic::mul::lemma_mul_is_distributive_sub_other_way(n, a0 * (100 * p1), a0 * p0);
    vstd::arithmetic::mul::lemma_mul_is_distributive_add_other_way(m, a0 * d1, d0 * a1);
    assert((a0 * d1) * m == 100 * a0 * a1 * p1 * d1) by (nonlinear_arith)
        requires
            m == 100 * a1 * p1,
    ;
    assert((d0 * a1) * m == a1 * (100 * d0 * a1 * p1)) by (nonlinear_arith)
        requires
            m == 100 * a1 * p1,
    ;
    vstd::arithmetic::mul::lemma_mul_is_distributive_add(a0, 100 * p1, p0);
    vstd::arithmetic::mul::lemma_mul_is_distributive_add_other_way(n, a0 * (100 * p1), a0 * p0);
    assert((a0 * (100 * p1)) * n == 100 * a0 * a1 * p1 * d1) by (nonlinear_arith)
        requires
            n == a1 * d1,
    ;
    assert((a0 * p0) * n == a1 * (a0 * p0 * d1)) by (nonlinear_arith)
        requires
            n == a1 * d1,
    ;
}

proof fn lemma_positive_product(x: int, y: int)
    requires
        x >= 1,
        y >= 1,
    ensures
        x * y >= 1,
{
    assert(x * y >= 1) by (nonlinear_arith)
        requires
            x >= 1,
            y >= 1,
    ;
}

proof fn lemma_bound_product(x: int, y: int, bx: int, by: int)
    requires
        -bx <= x <= bx,
        -by <= y <= by,
    ensures
        -(bx * by) <= x * y <= bx * by,
{
    assert(-(bx * by) <= x * y <= bx * by) by (nonlinear_arith)
        requires
            -bx <= x <= bx,
            -by <= y <= by,
    ;
}

/// `percent_apply` is the exact value of `a op p%`, unless a step overflows;
/// for moderate inputs no step does.
proof fn lemma_percent_apply(a: (int, int), op: Op, p: (int, int))
    requires
        a.1 >= 1,
        p.1 >= 1,
        op != Op::Pow,
        op == Op::Div ==> p.0 != 0,
    ensures
        crate::eval::percent_apply(a, op, p) == crate::eval::checked(percent_meaning(a, op, p))
            || crate::eval::percent_apply(a, op, p) == Err::<(int, int), Seq<char>>(crate::units::overflow_message()),
        moderate(a) && moderate(p) ==> percent_meaning(a, op, p) is Some && crate::eval::percent_apply(a, op, p)
            == crate::eval::checked(percent_meaning(a, op, p)),
{
    assert(crate::num::spec_div(p, crate::num::int_rat(100)) == reduce(p.0 * 1, p.1 * 100));
    lemma_positive_product(100, a.1);
    lemma_positive_product(100 * a.1, p.1);
    lemma_positive_product(p.1, 100);
    if moderate(a) && moderate(p) {
        crate::num::lemma_reduce_bounded(p.0 * 1, p.1 * 100);
        lemma_bound_product(a.0, 100 * p.1 + p.0, 0x10_0000, 0x7000_0000);
        lemma_bound_product(a.0, 100 * p.1 - p.0, 0x10_0000, 0x7000_0000);
        lemma_bound_product(a.0, p.0, 0x10_0000, 0x10_0000);
        lemma_bound_product(100 * a.1, p.1, 0x7000_0000, 0x10_0000);
        lemma_bound_product(100 * a.0, p.1, 0x7000_0000, 0x10_0000);
        lemma_bound_product(a.1, p.0, 0x10_0000, 0x10_0000);
        if op == Op::Div {
            lemma_nonzero_product(a.1, p.0);
        }
        crate::num::lemma_reduce_bounded(a.0 * (100 * p.1 + p.0), 100 * a.1 * p.1);
        crate::num::lemma_reduce_bounded(a.0 * (100 * p.1 - p.0), 100 * a.1 * p.1);
        crate::num::lemma_reduce_bounded(a.0 * p.0, 100 * a.1 * p.1);
        if op == Op::Div {
            crate::num::lemma_reduce_bounded(100 * a.0 * p.1, a.1 * p.0);
        }
    }
    match reduce(p.0 * 1, p.1 * 100) {
        None => {},
        Some(f) => {
            lemma_reduced_of(p.0 * 1, p.1 * 100, f);
            lemma_positive_product(a.1, f.1);
            if moderate(a) && moderate(p) {
                lemma_bound_product(a.0, f.0, 0x10_0000, 0x10_0000);
                lemma_bound_product(a.1, f.1, 0x10_0000, 0x7000_0000);
                crate::num::lemma_reduce_bounded(a.0 * f.0, a.1 * f.1);
            }
            if op == Op::Div {
                assert(f.0 != 0) by (nonlinear_arith)
                    requires
                        f.0 * (p.1 * 100) == (p.0 * 1) * f.1,
                        p.0 != 0,
                        f.1 >= 1,
                ;
                lemma_nonzero_product(a.1, f.0);
                lemma_nonzero_product(a.1, p.0);
                assert((a.0 * f.1) * (a.1 * p.0) == (100 * a.0 * p.1) * (a.1 * f.0)) by (nonlinear_arith)
                    requires
                        f.0 * (p.1 * 100) == (p.0 * 1) * f.1,
                ;
                lemma_reduce_canonical(a.0 * f.1, a.1 * f.0, 100 * a.0 * p.1, a.1 * p.0);
            } else {
                match reduce(a.0 * f.0, a.1 * f.1) {
                    None => {},
                    Some(d) => {
                        lemma_reduced_of(a.0 * f.0, a.1 * f.1, d);
                        lemma_share_key(a, p, f, d);
                        lemma_positive_product(a.1, d.1);
                        if op == Op::Mul {
                            assert((a.0 * f.0) * (100 * a.1 * p.1) == (a.0 * p.0) * (a.1 * f.1)) by (nonlinear_arith)
                                requires
                                    f.0 * (p.1 * 100) == (p.0 * 1) * f.1,
                            ;
                            lemma_reduce_canonical(a.0 * f.0, a.1 * f.1, a.0 * p.0, 100 * a.1 * p.1);
                        } else if op == Op::Sub {
                            lemma_share_sum(a, p, d, true);
                            lemma_reduce_canonical(a.0 * d.1 - d.0 * a.1, a.1 * d.1, a.0 * (100 * p.1 - p.0), 100 * a.1 * p.1);
                        } else {
                            lemma_share_sum(a, p, d, false);
                            lemma_reduce_canonical(a.0 * d.1 + d.0 * a.1, a.1 * d.1, a.0 * (100 * p.1 + p.0), 100 * a.1 * p.1);
                        }
                    },
                }
            }
        },
    }
}

} // verus!

verus! {

/// A number, an amount in a unit or an amount of money combined with a
/// percentage `p%` keeps its kind (and its unit or currency) and takes the
/// exact value of adding or taking away `p/100` of itself, taking `p/100` of
/// itself, or dividing by `p/100` (see `percent_meaning`); only when a step
/// does not fit is it the overflow error, and for moderate values it never
/// is. So `100 - 25%` is `75`, `$100 - 20%` is `$80` and `50 / 25%` is `200`.
pub proof fn law_percentages(
    a: (int, int),
    op: Op,
    p: (int, int),
    u: Seq<char>,
    rates: RateEntries,
    pw: PowerEntries,
)
    requires
        a.1 >= 1,
        p.1 >= 1,
        op != Op::Pow,
        op == Op::Div ==> p.0 != 0,
    ensures
        binary_value(Value::Number(a), op, Value::Percentage(p), rates, pw) == number_or_overflow(
            percent_meaning(a, op, p),
        ) || binary_value(Value::Number(a), op, Value::Percentage(p), rates, pw) == Value::Error(
            crate::units::overflow_message(),
        ),
        binary_value(Value::Unit(a, u), op, Value::Percentage(p), rates, pw) == unit_or_overflow(
            percent_meaning(a, op, p),
            u,
        ) || binary_value(Value::Unit(a, u), op, Value::Percentage(p), rates, pw) == Value::Error(
            crate::units::overflow_message(),
        ),
        binary_value(Value::Currency(a, u), op, Value::Percentage(p), rates, pw) == money_or_overflow(
            percent_meaning(a, op, p),
            u,
        ) || binary_value(Value::Currency(a, u), op, Value::Percentage(p), rates, pw) == Value::Error(
            crate::units::overflow_message(),
        ),
        moderate(a) && moderate(p) ==> {
            &&& percent_meaning(a, op, p) is Some
            &&& binary_value(Value::Number(a), op, Value::Percentage(p), rates, pw) == Value::Number(
                percent_meaning(a, op, p)->0,
            )
            &&& binary_value(Value::Unit(a, u), op, Value::Percentage(p), rates, pw) == Value::Unit(
                percent_meaning(a, op, p)->0,
                u,
            )
            &&& binary_value(Value::Currency(a, u), op, Value::Percentage(p), rates, pw) == Value::Currency(
                percent_meaning(a, op, p)->0,
                u,
            )
        },
{
    lemma_percent_apply(a, op, p);
}

/// Taking a positive percentage off a positive amount of money leaves less
/// than the amount (and adding one gives more).
pub proof fn law_percentage_off_is_less(a: (int, int), p: (int, int), c: Seq<char>, rates: RateEntries, pw: PowerEntries)
    requires
        a.1 >= 1,
        p.1 >= 1,
        a.0 > 0,
        p.0 > 0,
    ensures
        binary_value(Value::Currency(a, c), Op::Sub, Value::Percentage(p), rates, pw) matches Value::Currency(x, k)
            ==> k == c && x.0 * a.1 < a.0 * x.1,
        binary_value(Value::Currency(a, c), Op::Add, Value::Percentage(p), rates, pw) matches Value::Currency(x, k)
            ==> k == c && x.0 * a.1 > a.0 * x.1,
{
    lemma_percent_apply(a, Op::Sub, p);
    lemma_percent_apply(a, Op::Add, p);
    lemma_positive_product(100, a.1);
    lemma_positive_product(100 * a.1, p.1);
    match percent_meaning(a, Op::Sub, p) {
        Some(x) => {
            lemma_reduced_of(a.0 * (100 * p.1 - p.0), 100 * a.1 * p.1, x);
            assert(x.0 * a.1 < a.0 * x.1) by (nonlinear_arith)
                requires
                    x.0 * (100 * a.1 * p.1) == (a.0 * (100 * p.1 - p.0)) * x.1,
                    a.0 > 0,
                    p.0 > 0,
                    p.1 >= 1,
                    a.1 >= 1,
                    x.1 >= 1,
            ;
        },
        None => {},
    }
    match percent_meaning(a, Op::Add, p) {
        Some(x) => {
            lemma_reduced_of(a.0 * (100 * p.1 + p.0), 100 * a.1 * p.1, x);
            assert(x.0 * a.1 > a.0 * x.1) by (nonlinear_arith)
                requires
                    x.0 * (100 * a.1 * p.1) == (a.0 * (100 * p.1 + p.0)) * x.1,
                    a.0 > 0,
                    p.0 > 0,
                    p.1 >= 1,
                    a.1 >= 1,
                    x.1 >= 1,
            ;
        },
        None => {},
    }
}

} // verus!

verus! {

/// The division by zero error.
pub open spec fn division_error() -> Value {
    Value::Error(crate::units::division_by_zero_message())
}

/// Arithmetic on two finite numbers is exact: the sum, difference, product
/// and quotient in lowest terms (or the overflow error when that does not
/// fit), and dividing by zero is an error.
pub proof fn law_number_arithmetic(a: (int, int), b: (int, int), rates: RateEntries, pw: PowerEntries)
    requires
        a.1 >= 1,
        b.1 >= 1,
    ensures
        binary_value(Value::Number(a), Op::Add, Value::Number(b), rates, pw) == number_or_overflow(
            reduce(a.0 * b.1 + b.0 * a.1, a.1 * b.1),
        ),
        binary_value(Value::Number(a), Op::Sub, Value::Number(b), rates, pw) == number_or_overflow(
            reduce(a.0 * b.1 - b.0 * a.1, a.1 * b.1),
        ),
        binary_value(Value::Number(a), Op::Mul, Value::Number(b), rates, pw) == number_or_overflow(
            reduce(a.0 * b.0, a.1 * b.1),
        ),
        b.0 != 0 ==> binary_value(Value::Number(a), Op::Div, Value::Number(b), rates, pw)
            == number_or_overflow(reduce(a.0 * b.1, a.1 * b.0)),
        b.0 == 0 ==> binary_value(Value::Number(a), Op::Div, Value::Number(b), rates, pw) == division_error(),
{
}

/// Scaling an amount by a number keeps its unit or currency and multiplies
/// or divides the amount exactly (dividing by zero is an error).
pub proof fn law_scaling_amounts(a: (int, int), b: (int, int), u: Seq<char>, rates: RateEntries, pw: PowerEntries)
    requires
        a.1 >= 1,
        b.1 >= 1,
    ensures
        binary_value(Value::Unit(a, u), Op::Mul, Value::Number(b), rates, pw) == unit_or_overflow(
            reduce(a.0 * b.0, a.1 * b.1),
            u,
        ),
        binary_value(Value::Number(b), Op::Mul, Value::Unit(a, u), rates, pw) == unit_or_overflow(
            reduce(b.0 * a.0, b.1 * a.1),
            u,
        ),
        binary_value(Value::Currency(a, u), Op::Mul, Value::Number(b), rates, pw) == money_or_overflow(
            reduce(a.0 * b.0, a.1 * b.1),
            u,
        ),
        binary_value(Value::Number(b), Op::Mul, Value::Currency(a, u), rates, pw) == money_or_overflow(
            reduce(b.0 * a.0, b.1 * a.1),
            u,
        ),
        b.0 != 0 ==> binary_value(Value::Unit(a, u), Op::Div, Value::Number(b), rates, pw) == unit_or_overflow(
            reduce(a.0 * b.1, a.1 * b.0),
            u,
        ),
        b.0 != 0 ==> binary_value(Value::Currency(a, u), Op::Div, Value::Number(b), rates, pw)
            == money_or_overflow(reduce(a.0 * b.1, a.1 * b.0), u),
        b.0 == 0 ==> binary_value(Value::Unit(a, u), Op::Div, Value::Number(b), rates, pw) == division_error(),
        b.0 == 0 ==> binary_value(Value::Currency(a, u), Op::Div, Value::Number(b), rates, pw) == division_error(),
{
}

/// Adding or subtracting two amounts of money converts the right amount to
/// the left currency and then adds or subtracts exactly, in the left
/// currency; dividing one by the other gives their ratio as a number.
pub proof fn law_money_arithmetic(
    a: (int, int),
    lc: Seq<char>,
    b: (int, int),
    rc: Seq<char>,
    rates: RateEntries,
    pw: PowerEntries,
)
    requires
        a.1 >= 1,
        spec_convert_currency(b, rc, lc, rates) matches Ok(c) && c.1 >= 1,
    ensures
        ({
            let c = spec_convert_currency(b, rc, lc, rates)->Ok_0;
            &&& binary_value(Value::Currency(a, lc), Op::Add, Value::Currency(b, rc), rates, pw)
                == money_or_overflow(reduce(a.0 * c.1 + c.0 * a.1, a.1 * c.1), lc)
            &&& binary_value(Value::Currency(a, lc), Op::Sub, Value::Currency(b, rc), rates, pw)
                == money_or_overflow(reduce(a.0 * c.1 - c.0 * a.1, a.1 * c.1), lc)
            &&& c.0 != 0 ==> binary_value(Value::Currency(a, lc), Op::Div, Value::Currency(b, rc), rates, pw)
                == number_or_overflow(reduce(a.0 * c.1, a.1 * c.0))
        }),
{
}

/// `p%` of an amount is `p/100` of it, exactly, in the amount's kind (or the
/// overflow error when a step does not fit; never for moderate values).
pub proof fn law_share_of(p: (int, int), b: (int, int), u: Seq<char>, rates: RateEntries, pw: PowerEntries)
    requires
        p.1 >= 1,
        b.1 >= 1,
    ensures
        binary_value(Value::Percentage(p), Op::Mul, Value::Number(b), rates, pw) == number_or_overflow(
            percent_meaning(b, Op::Mul, p),
        ) || binary_value(Value::Percentage(p), Op::Mul, Value::Number(b), rates, pw) == Value::Error(
            crate::units::overflow_message(),
        ),
        binary_value(Value::Percentage(p), Op::Mul, Value::Currency(b, u), rates, pw) == money_or_overflow(
            percent_meaning(b, Op::Mul, p),
            u,
        ) || binary_value(Value::Percentage(p), Op::Mul, Value::Currency(b, u), rates, pw) == Value::Error(
            crate::units::overflow_message(),
        ),
        binary_value(Value::Percentage(p), Op::Mul, Value::Unit(b, u), rates, pw) == unit_or_overflow(
            percent_meaning(b, Op::Mul, p),
            u,
        ) || binary_value(Value::Percentage(p), Op::Mul, Value::Unit(b, u), rates, pw) == Value::Error(
            crate::units::overflow_message(),
        ),
        moderate(p) && moderate(b) ==> binary_value(Value::Percentage(p), Op::Mul, Value::Number(b), rates, pw)
            == Value::Number(percent_meaning(b, Op::Mul, p)->0),
{
    lemma_percent_apply(b, Op::Mul, p);
    assert(crate::eval::percent_of(p, b) == crate::eval::percent_apply(b, Op::Mul, p));
}

/// Converting an amount of money between two different currencies divides
/// by the rate of the first and multiplies by the rate of the second (rates
/// count units per US dollar): the exact result in lowest terms when no
/// step overflows.
pub proof fn law_currency_conversion(v: (int, int), a: Seq<char>, b: Seq<char>, rates: RateEntries)
    requires
        v.1 >= 1,
        upper_text(a) != upper_text(b),
        crate::currency::rate_lookup(rates, upper_text(a)) matches Some(f) && f.1 >= 1 && f.0 != 0,
        crate::currency::rate_lookup(rates, upper_text(b)) matches Some(t) && t.1 >= 1,
    ensures
        ({
            let f = crate::currency::rate_lookup(rates, upper_text(a))->0;
            let t = crate::currency::rate_lookup(rates, upper_text(b))->0;
            spec_convert_currency(v, a, b, rates) matches Ok(x) ==> x.1 >= 1 && x.0 * (v.1 * f.0 * t.1) == (v.0
                * f.1 * t.0) * x.1
        }),
        ({
            let f = crate::currency::rate_lookup(rates, upper_text(a))->0;
            let t = crate::currency::rate_lookup(rates, upper_text(b))->0;
            spec_convert_currency(v, a, b, rates) is Ok || spec_convert_currency(v, a, b, rates) == Err::<
                (int, int),
                Seq<char>,
            >(crate::units::overflow_message())
        }),
{
    let f = crate::currency::rate_lookup(rates, upper_text(a))->0;
    let t = crate::currency::rate_lookup(rates, upper_text(b))->0;
    match reduce(v.0 * f.1, v.1 * f.0) {
        Some(u) => {
            lemma_nonzero_product(v.1, f.0);
            lemma_reduced_of(v.0 * f.1, v.1 * f.0, u);
            match reduce(u.0 * t.0, u.1 * t.1) {
                Some(x) => {
                    lemma_reduced_of(u.0 * t.0, u.1 * t.1, x);
                    let (x0, x1) = x;
                    let (u0, u1) = u;
                    assert(x0 * (v.1 * f.0 * t.1) == (v.0 * f.1 * t.0) * x1) by (nonlinear_arith)
                        requires
                            x0 * (u1 * t.1) == (u0 * t.0) * x1,
                            u0 * (v.1 * f.0) == (v.0 * f.1) * u1,
                            u1 >= 1,
                    ;
                },
                None => {},
            }
        },
        None => {},
    }
}

} // verus!

verus! {

/// An integer in decimal, with a leading `-` when negative.
pub open spec fn integer_text(n: int) -> Seq<char> {
    if n < 0 {
        seq!['-'] + nat_digits((-n) as nat)
    } else {
        nat_digits(n as nat)
    }
}

/// Whole numbers are shown as their digits: a plain number alone, an amount
/// in a unit followed by the unit, and an amount of dollars after the `$`
/// sign, with no decimals.
pub proof fn law_whole_numbers_shown_plainly(n: int, u: Seq<char>)
    ensures
        display_value(Value::Number((n, 1))) == integer_text(n),
        display_value(Value::Unit((n, 1), u)) == integer_text(n) + " "@ + u,
        display_value(Value::Currency((n, 1), "USD"@)) == seq!['$'] + integer_text(n),
{
    assert(crate::num::abs(n) % 1 == 0);
    assert(crate::num::abs(n) / 1 == crate::num::abs(n));
    assert(crate::text::is_integral((n, 1)));
}

} // verus!
