//! The line grammar and its parser.
//!
//! A line is a sequence of items separated by blanks (spaces and tabs); each
//! item is, by ordered choice, an expression, a comment (`#` or `//` to the
//! end of the line) or prose (a run of Unicode letters, punctuation and
//! symbols). Prose and comments carry no value.
//!
//! ```text
//! expr            = assignment | conversion | add_sub
//! assignment      = identifier "=" expr
//! conversion      = add_sub ("in" | "to") identifier
//! add_sub         = mul_div (("+" | "-" | "plus" | "minus") mul_div)*
//! mul_div         = power (("*" | "/" | "times" | "divided by" | "over" | "of") power)*
//! power           = primary ("^" primary)*
//! primary         = percentage | currency_amount | unit_amount | number
//!                 | "-" primary | variable | "(" expr ")"
//! percentage      = (number | variable) "%"
//! currency_amount = ("$" | "€" | "£" | "¥") number | number CODE
//! unit_amount     = number unit_word
//! number          = DIGIT+ ("," DIGIT+)* ("." DIGIT+)?
//! identifier      = ALPHA (ALPHA | DIGIT | "_")*
//! ```
//!
//! Blanks may stand between the symbols of a rule. Word operators and
//! keywords must not run on into a longer identifier, `CODE` is three capital
//! letters forming a word, and `unit_word` is an identifier naming a known
//! unit. Binary operators group to the left; `-x` means `0 - x`. Variable and
//! assignment names are lower-cased.

use vstd::prelude::*;
use crate::num::Num;
use crate::text::{chars_of, substring, lower_text, nat_digits, to_lowercase, string_from_chars, append_str, push_nat_digits};
use crate::units::{spec_lookup_unit, lookup_unit};
use crate::lexer::{skip_ws_exec, keyword_at_exec, number_end_exec, literal_value_exec, ident_end_exec, currency_code_at_exec, scan_prose_exec, skip_ws, keyword_at, number_end, literal_value, ident_end, currency_code_at, lemma_skip_ws_any, lemma_ident_end, scan_prose};

verus! {

/// A binary operator.
#[derive(Clone, Copy, Debug, PartialEq, Eq, Structural)]
pub enum Op {
    Add,
    Sub,
    Mul,
    Div,
    Pow,
}

/// An expression of a line.
#[derive(Debug)]
pub enum Expr {
    Number(Num),
    Percentage(Box<Expr>),
    Unit(Num, String),
    Currency(Num, String),
    /// A variable or line reference (`ans`, `lineN`), lower-cased.
    Variable(String),
    Binary(Box<Expr>, Op, Box<Expr>),
    /// A value and the unit or currency to convert it to.
    Convert(Box<Expr>, String),
    /// A lower-cased variable name and the value bound to it.
    Assign(String, Box<Expr>),
}

/// The mathematical content of an `Expr`.
pub enum ExprView {
    Number((int, int)),
    Percentage(Box<ExprView>),
    Unit((int, int), Seq<char>),
    Currency((int, int), Seq<char>),
    Variable(Seq<char>),
    Binary(Box<ExprView>, Op, Box<ExprView>),
    Convert(Box<ExprView>, Seq<char>),
    Assign(Seq<char>, Box<ExprView>),
}

impl Expr {
    pub open spec fn view(&self) -> ExprView
        decreases self,
    {
        match self {
            Expr::Number(n) => ExprView::Number(n@),
            Expr::Percentage(e) => ExprView::Percentage(Box::new(e.view())),
            Expr::Unit(n, u) => ExprView::Unit(n@, u@),
            Expr::Currency(n, c) => ExprView::Currency(n@, c@),
            Expr::Variable(v) => ExprView::Variable(v@),
            Expr::Binary(l, op, r) => ExprView::Binary(Box::new(l.view()), *op, Box::new(r.view())),
            Expr::Convert(e, t) => ExprView::Convert(Box::new(e.view()), t@),
            Expr::Assign(n, e) => ExprView::Assign(n@, Box::new(e.view())),
        }
    }
}

pub type Parsed = Option<(int, ExprView)>;

pub open spec fn kw_plus() -> Seq<char> {
    seq!['p', 'l', 'u', 's']
}

pub open spec fn kw_minus() -> Seq<char> {
    seq!['m', 'i', 'n', 'u', 's']
}

pub open spec fn kw_times() -> Seq<char> {
    seq!['t', 'i', 'm', 'e', 's']
}

pub open spec fn kw_divided_by() -> Seq<char> {
    seq!['d', 'i', 'v', 'i', 'd', 'e', 'd', ' ', 'b', 'y']
}

pub open spec fn kw_over() -> Seq<char> {
    seq!['o', 'v', 'e', 'r']
}

pub open spec fn kw_of() -> Seq<char> {
    seq!['o', 'f']
}

pub open spec fn kw_in() -> Seq<char> {
    seq!['i', 'n']
}

pub open spec fn kw_to() -> Seq<char> {
    seq!['t', 'o']
}

/// The character `c` stands at `i`.
pub open spec fn char_at(s: Seq<char>, i: int, c: char) -> bool {
    0 <= i < s.len() && s[i] == c
}

/// An additive operator at `k`, and the position after it.
pub open spec fn add_sub_op(s: Seq<char>, k: int) -> Option<(int, Op)> {
    if char_at(s, k, '+') {
        Some((k + 1, Op::Add))
    } else if char_at(s, k, '-') {
        Some((k + 1, Op::Sub))
    } else if keyword_at(s, k, kw_plus()) {
        Some((k + 4, Op::Add))
    } else if keyword_at(s, k, kw_minus()) {
        Some((k + 5, Op::Sub))
    } else {
        None
    }
}

/// A multiplicative operator at `k`, and the position after it.
pub open spec fn mul_div_op(s: Seq<char>, k: int) -> Option<(int, Op)> {
    if char_at(s, k, '*') {
        Some((k + 1, Op::Mul))
    } else if char_at(s, k, '/') {
        Some((k + 1, Op::Div))
    } else if keyword_at(s, k, kw_times()) {
        Some((k + 5, Op::Mul))
    } else if keyword_at(s, k, kw_divided_by()) {
        Some((k + 10, Op::Div))
    } else if keyword_at(s, k, kw_over()) {
        Some((k + 4, Op::Div))
    } else if keyword_at(s, k, kw_of()) {
        Some((k + 2, Op::Mul))
    } else {
        None
    }
}

/// A numeric literal at `i` with a representable value.
pub open spec fn number_tok(s: Seq<char>, i: int) -> Option<(int, (int, int))> {
    match number_end(s, i) {
        Some(j) => match literal_value(s.subrange(i, j)) {
            Some(v) => Some((j, v)),
            None => None,
        },
        None => None,
    }
}

/// An identifier at `i`.
pub open spec fn word(s: Seq<char>, i: int) -> Option<(int, Seq<char>)> {
    match ident_end(s, i) {
        Some(j) => Some((j, s.subrange(i, j))),
        None => None,
    }
}

/// The currency that a currency sign denotes.
pub open spec fn currency_of_symbol(c: char) -> Option<Seq<char>> {
    if c == '$' {
        Some(seq!['U', 'S', 'D'])
    } else if c == '€' {
        Some(seq!['E', 'U', 'R'])
    } else if c == '£' {
        Some(seq!['G', 'B', 'P'])
    } else if c == '¥' {
        Some(seq!['J', 'P', 'Y'])
    } else {
        None
    }
}

/// The operand of a percentage: a number or a variable.
pub open spec fn percentage_operand(s: Seq<char>, i: int) -> Parsed {
    match number_tok(s, i) {
        Some((j, v)) => Some((j, ExprView::Number(v))),
        None => match word(s, i) {
            Some((j, w)) => Some((j, ExprView::Variable(lower_text(w)))),
            None => None,
        },
    }
}

pub open spec fn p_percentage(s: Seq<char>, i: int) -> Parsed {
    match percentage_operand(s, i) {
        None => None,
        Some((j, e)) => {
            let k = skip_ws(s, j);
            if char_at(s, k, '%') {
                Some((k + 1, ExprView::Percentage(Box::new(e))))
            } else {
                None
            }
        },
    }
}

pub open spec fn p_currency(s: Seq<char>, i: int) -> Parsed {
    if 0 <= i < s.len() && currency_of_symbol(s[i]) is Some {
        match number_tok(s, skip_ws(s, i + 1)) {
            Some((j, v)) => Some((j, ExprView::Currency(v, currency_of_symbol(s[i])->0))),
            None => None,
        }
    } else {
        match number_tok(s, i) {
            Some((j, v)) => {
                let k = skip_ws(s, j);
                if currency_code_at(s, k) {
                    Some((k + 3, ExprView::Currency(v, s.subrange(k, k + 3))))
                } else {
                    None
                }
            },
            None => None,
        }
    }
}

pub open spec fn p_unit(s: Seq<char>, i: int) -> Parsed {
    match number_tok(s, i) {
        Some((j, v)) => match word(s, skip_ws(s, j)) {
            Some((e, w)) => if spec_lookup_unit(w) is Some {
                Some((e, ExprView::Unit(v, w)))
            } else {
                None
            },
            None => None,
        },
        None => None,
    }
}

pub open spec fn p_number(s: Seq<char>, i: int) -> Parsed {
    match number_tok(s, i) {
        Some((j, v)) => Some((j, ExprView::Number(v))),
        None => None,
    }
}

pub open spec fn p_variable(s: Seq<char>, i: int) -> Parsed {
    match word(s, i) {
        Some((j, w)) => Some((j, ExprView::Variable(lower_text(w)))),
        None => None,
    }
}

pub proof fn lemma_word(s: Seq<char>, i: int)
    ensures
        word(s, i) matches Some((j, _)) ==> i < j <= s.len(),
{
    lemma_ident_end(s, i);
}

pub proof fn lemma_ops(s: Seq<char>, k: int)
    ensures
        add_sub_op(s, k) matches Some((j, _)) ==> 0 <= k < j <= s.len(),
        mul_div_op(s, k) matches Some((j, _)) ==> 0 <= k < j <= s.len(),
{
}

pub open spec fn p_expr(s: Seq<char>, i: int) -> Parsed
    decreases s.len() - i, 9int,
{
    match p_assignment(s, i) {
        Some(r) => Some(r),
        None => match p_conversion(s, i) {
            Some(r) => Some(r),
            None => p_add_sub(s, i),
        },
    }
}

pub open spec fn p_assignment(s: Seq<char>, i: int) -> Parsed
    decreases s.len() - i, 8int,
{
    match word(s, i) {
        None => None,
        Some((j, name)) => {
            let k = skip_ws(s, j);
            if char_at(s, k, '=') {
                let m = skip_ws(s, k + 1);
                proof {
                    lemma_word(s, i);
                    lemma_skip_ws_any(s, j);
                    lemma_skip_ws_any(s, k + 1);
                }
                match p_expr(s, m) {
                    Some((e, x)) => Some((e, ExprView::Assign(lower_text(name), Box::new(x)))),
                    None => None,
                }
            } else {
                None
            }
        },
    }
}

pub open spec fn p_conversion(s: Seq<char>, i: int) -> Parsed
    decreases s.len() - i, 8int,
{
    match p_add_sub(s, i) {
        None => None,
        Some((j, lhs)) => {
            let k = skip_ws(s, j);
            if keyword_at(s, k, kw_in()) || keyword_at(s, k, kw_to()) {
                match word(s, skip_ws(s, k + 2)) {
                    Some((e, t)) => Some((e, ExprView::Convert(Box::new(lhs), t))),
                    None => None,
                }
            } else {
                None
            }
        },
    }
}

pub open spec fn p_add_sub(s: Seq<char>, i: int) -> Parsed
    decreases s.len() - i, 7int,
{
    match p_mul_div(s, i) {
        None => None,
        Some((j, lhs)) => if i < j <= s.len() {
            p_add_sub_rest(s, j, lhs)
        } else {
            Some((j, lhs))
        },
    }
}

pub open spec fn p_add_sub_rest(s: Seq<char>, j: int, lhs: ExprView) -> Parsed
    decreases s.len() - j, 6int,
{
    let k = skip_ws(s, j);
    match add_sub_op(s, k) {
        None => Some((j, lhs)),
        Some((k2, op)) => {
            let m = skip_ws(s, k2);
            proof {
                lemma_skip_ws_any(s, j);
                lemma_ops(s, k);
                lemma_skip_ws_any(s, k2);
            }
            match p_mul_div(s, m) {
                None => Some((j, lhs)),
                Some((e, rhs)) => {
                    let b = ExprView::Binary(Box::new(lhs), op, Box::new(rhs));
                    if j < e <= s.len() {
                        p_add_sub_rest(s, e, b)
                    } else {
                        Some((e, b))
                    }
                },
            }
        },
    }
}

pub open spec fn p_mul_div(s: Seq<char>, i: int) -> Parsed
    decreases s.len() - i, 5int,
{
    match p_power(s, i) {
        None => None,
        Some((j, lhs)) => if i < j <= s.len() {
            p_mul_div_rest(s, j, lhs)
        } else {
            Some((j, lhs))
        },
    }
}

pub open spec fn p_mul_div_rest(s: Seq<char>, j: int, lhs: ExprView) -> Parsed
    decreases s.len() - j, 4int,
{
    let k = skip_ws(s, j);
    match mul_div_op(s, k) {
        None => Some((j, lhs)),
        Some((k2, op)) => {
            let m = skip_ws(s, k2);
            proof {
                lemma_skip_ws_any(s, j);
                lemma_ops(s, k);
                lemma_skip_ws_any(s, k2);
            }
            match p_power(s, m) {
                None => Some((j, lhs)),
                Some((e, rhs)) => {
                    let b = ExprView::Binary(Box::new(lhs), op, Box::new(rhs));
                    if j < e <= s.len() {
                        p_mul_div_rest(s, e, b)
                    } else {
                        Some((e, b))
                    }
                },
            }
        },
    }
}

pub open spec fn p_power(s: Seq<char>, i: int) -> Parsed
    decreases s.len() - i, 3int,
{
    match p_primary(s, i) {
        None => None,
        Some((j, lhs)) => if i < j <= s.len() {
            p_power_rest(s, j, lhs)
        } else {
            Some((j, lhs))
        },
    }
}

pub open spec fn p_power_rest(s: Seq<char>, j: int, lhs: ExprView) -> Parsed
    decreases s.len() - j, 2int,
{
    let k = skip_ws(s, j);
    if char_at(s, k, '^') {
        let m = skip_ws(s, k + 1);
        proof {
            lemma_skip_ws_any(s, j);
            lemma_skip_ws_any(s, k + 1);
        }
        match p_primary(s, m) {
            None => Some((j, lhs)),
            Some((e, rhs)) => {
                let b = ExprView::Binary(Box::new(lhs), Op::Pow, Box::new(rhs));
                if j < e <= s.len() {
                    p_power_rest(s, e, b)
                } else {
                    Some((e, b))
                }
            },
        }
    } else {
        Some((j, lhs))
    }
}

pub open spec fn p_primary(s: Seq<char>, i: int) -> Parsed
    decreases s.len() - i, 1int,
{
    match p_percentage(s, i) {
        Some(r) => Some(r),
        None => match p_currency(s, i) {
            Some(r) => Some(r),
            None => match p_unit(s, i) {
                Some(r) => Some(r),
                None => match p_number(s, i) {
                    Some(r) => Some(r),
                    None => {
                        let unary: Parsed = if char_at(s, i, '-') {
                            proof {
                                lemma_skip_ws_any(s, i + 1);
                            }
                            match p_primary(s, skip_ws(s, i + 1)) {
                                Some((e, x)) => Some(
                                    (
                                        e,
                                        ExprView::Binary(
                                            Box::new(ExprView::Number((0, 1))),
                                            Op::Sub,
                                            Box::new(x),
                                        ),
                                    ),
                                ),
                                None => None,
                            }
                        } else {
                            None
                        };
                        match unary {
                            Some(r) => Some(r),
                            None => match p_variable(s, i) {
                                Some(r) => Some(r),
                                None => if char_at(s, i, '(') {
                                    proof {
                                        lemma_skip_ws_any(s, i + 1);
                                    }
                                    match p_expr(s, skip_ws(s, i + 1)) {
                                        Some((e, x)) => {
                                            let k = skip_ws(s, e);
                                            if char_at(s, k, ')') {
                                                Some((k + 1, x))
                                            } else {
                                                None
                                            }
                                        },
                                        None => None,
                                    }
                                } else {
                                    None
                                },
                            },
                        }
                    },
                },
            },
        },
    }
}

} // verus!

verus! {

/// The executable result `r` is the grammar's result `p` on a line of length `len`.
pub open spec fn agrees(r: Option<(usize, Expr)>, p: Parsed, len: int) -> bool {
    match r {
        None => p is None,
        Some((j, e)) => p == Some((j as int, e.view())) && j <= len,
    }
}

fn char_at_exec(s: &Vec<char>, i: usize, c: char) -> (r: bool)
    ensures
        r == char_at(s@, i as int, c),
        r ==> i < s.len(),
        s@.len() == s.len(),
{
    i < s.len() && s[i] == c
}

proof fn lemma_keywords()
    ensures
        "plus"@ == kw_plus(),
        "minus"@ == kw_minus(),
        "times"@ == kw_times(),
        "divided by"@ == kw_divided_by(),
        "over"@ == kw_over(),
        "of"@ == kw_of(),
        "in"@ == kw_in(),
        "to"@ == kw_to(),
{
    reveal_strlit("plus");
    reveal_strlit("minus");
    reveal_strlit("times");
    reveal_strlit("divided by");
    reveal_strlit("over");
    reveal_strlit("of");
    reveal_strlit("in");
    reveal_strlit("to");
    assert("plus"@ =~= kw_plus());
    assert("minus"@ =~= kw_minus());
    assert("times"@ =~= kw_times());
    assert("divided by"@ =~= kw_divided_by());
    assert("over"@ =~= kw_over());
    assert("of"@ =~= kw_of());
    assert("in"@ =~= kw_in());
    assert("to"@ =~= kw_to());
}

fn add_sub_op_exec(s: &Vec<char>, k: usize) -> (r: Option<(usize, Op)>)
    ensures
        r is Some <==> add_sub_op(s@, k as int) is Some,
        r matches Some((j, op)) ==> add_sub_op(s@, k as int) == Some((j as int, op)) && j
            <= s@.len(),
{
    proof {
        lemma_keywords();
        lemma_ops(s@, k as int);
    }
    assert(s@.len() == s.len());
    if char_at_exec(s, k, '+') {
        Some((k + 1, Op::Add))
    } else if char_at_exec(s, k, '-') {
        Some((k + 1, Op::Sub))
    } else if keyword_at_exec(s, k, "plus") {
        Some((k + 4, Op::Add))
    } else if keyword_at_exec(s, k, "minus") {
        Some((k + 5, Op::Sub))
    } else {
        None
    }
}

fn mul_div_op_exec(s: &Vec<char>, k: usize) -> (r: Option<(usize, Op)>)
    ensures
        r is Some <==> mul_div_op(s@, k as int) is Some,
        r matches Some((j, op)) ==> mul_div_op(s@, k as int) == Some((j as int, op)) && j
            <= s@.len(),
{
    proof {
        lemma_keywords();
        lemma_ops(s@, k as int);
    }
    assert(s@.len() == s.len());
    if char_at_exec(s, k, '*') {
        Some((k + 1, Op::Mul))
    } else if char_at_exec(s, k, '/') {
        Some((k + 1, Op::Div))
    } else if keyword_at_exec(s, k, "times") {
        Some((k + 5, Op::Mul))
    } else if keyword_at_exec(s, k, "divided by") {
        Some((k + 10, Op::Div))
    } else if keyword_at_exec(s, k, "over") {
        Some((k + 4, Op::Div))
    } else if keyword_at_exec(s, k, "of") {
        Some((k + 2, Op::Mul))
    } else {
        None
    }
}

fn number_tok_exec(s: &Vec<char>, i: usize) -> (r: Option<(usize, Num)>)
    ensures
        r is Some <==> number_tok(s@, i as int) is Some,
        r matches Some((j, v)) ==> number_tok(s@, i as int) == Some((j as int, v@)) && i < j
            <= s@.len(),
{
    match number_end_exec(s, i) {
        None => None,
        Some(j) => match literal_value_exec(s, i, j) {
            Some(v) => Some((j, v)),
            None => None,
        },
    }
}

fn word_exec(s: &Vec<char>, i: usize) -> (r: Option<(usize, String)>)
    ensures
        r is Some <==> word(s@, i as int) is Some,
        r matches Some((j, w)) ==> word(s@, i as int) == Some((j as int, w@)) && i < j <= s@.len(),
{
    match ident_end_exec(s, i) {
        None => None,
        Some(j) => Some((j, substring(s, i, j))),
    }
}

fn currency_of_symbol_exec(c: char) -> (r: Option<String>)
    ensures
        r is Some <==> currency_of_symbol(c) is Some,
        r matches Some(code) ==> code@ == currency_of_symbol(c)->0,
{
    let (a, b, d) = if c == '$' {
        ('U', 'S', 'D')
    } else if c == '€' {
        ('E', 'U', 'R')
    } else if c == '£' {
        ('G', 'B', 'P')
    } else if c == '¥' {
        ('J', 'P', 'Y')
    } else {
        return None;
    };
    let mut v: Vec<char> = Vec::new();
    v.push(a);
    v.push(b);
    v.push(d);
    assert(v@ =~= currency_of_symbol(c)->0);
    Some(string_from_chars(&v))
}

fn parse_percentage_operand(s: &Vec<char>, i: usize) -> (r: Option<(usize, Expr)>)
    ensures
        agrees(r, percentage_operand(s@, i as int), s@.len() as int),
{
    match number_tok_exec(s, i) {
        Some((j, v)) => Some((j, Expr::Number(v))),
        None => match word_exec(s, i) {
            Some((j, w)) => Some((j, Expr::Variable(to_lowercase(w.as_str())))),
            None => None,
        },
    }
}

fn parse_percentage(s: &Vec<char>, i: usize) -> (r: Option<(usize, Expr)>)
    ensures
        agrees(r, p_percentage(s@, i as int), s@.len() as int),
{
    match parse_percentage_operand(s, i) {
        None => None,
        Some((j, e)) => {
            let k = skip_ws_exec(s, j);
            if char_at_exec(s, k, '%') {
                Some((k + 1, Expr::Percentage(Box::new(e))))
            } else {
                None
            }
        },
    }
}

fn parse_currency(s: &Vec<char>, i: usize) -> (r: Option<(usize, Expr)>)
    ensures
        agrees(r, p_currency(s@, i as int), s@.len() as int),
{
    if i < s.len() {
        if let Some(code) = currency_of_symbol_exec(s[i]) {
            let k = skip_ws_exec(s, i + 1);
            return match number_tok_exec(s, k) {
                Some((j, v)) => Some((j, Expr::Currency(v, code))),
                None => None,
            };
        }
    }
    match number_tok_exec(s, i) {
        Some((j, v)) => {
            let k = skip_ws_exec(s, j);
            if currency_code_at_exec(s, k) {
                Some((k + 3, Expr::Currency(v, substring(s, k, k + 3))))
            } else {
                None
            }
        },
        None => None,
    }
}

fn parse_unit(s: &Vec<char>, i: usize) -> (r: Option<(usize, Expr)>)
    ensures
        agrees(r, p_unit(s@, i as int), s@.len() as int),
{
    match number_tok_exec(s, i) {
        Some((j, v)) => {
            let k = skip_ws_exec(s, j);
            match word_exec(s, k) {
                Some((e, w)) => if lookup_unit(w.as_str()).is_some() {
                    Some((e, Expr::Unit(v, w)))
                } else {
                    None
                },
                None => None,
            }
        },
        None => None,
    }
}

fn parse_number(s: &Vec<char>, i: usize) -> (r: Option<(usize, Expr)>)
    ensures
        agrees(r, p_number(s@, i as int), s@.len() as int),
{
    match number_tok_exec(s, i) {
        Some((j, v)) => Some((j, Expr::Number(v))),
        None => None,
    }
}

fn parse_variable(s: &Vec<char>, i: usize) -> (r: Option<(usize, Expr)>)
    ensures
        agrees(r, p_variable(s@, i as int), s@.len() as int),
{
    match word_exec(s, i) {
        Some((j, w)) => Some((j, Expr::Variable(to_lowercase(w.as_str())))),
        None => None,
    }
}

fn parse_expr(s: &Vec<char>, i: usize) -> (r: Option<(usize, Expr)>)
    requires
        i <= s@.len(),
    ensures
        agrees(r, p_expr(s@, i as int), s@.len() as int),
    decreases s@.len() - i, 9int,
{
    match parse_assignment(s, i) {
        Some(r) => Some(r),
        None => match parse_conversion(s, i) {
            Some(r) => Some(r),
            None => parse_add_sub(s, i),
        },
    }
}

fn parse_assignment(s: &Vec<char>, i: usize) -> (r: Option<(usize, Expr)>)
    requires
        i <= s@.len(),
    ensures
        agrees(r, p_assignment(s@, i as int), s@.len() as int),
    decreases s@.len() - i, 8int,
{
    match word_exec(s, i) {
        None => None,
        Some((j, name)) => {
            let k = skip_ws_exec(s, j);
            if char_at_exec(s, k, '=') {
                let m = skip_ws_exec(s, k + 1);
                match parse_expr(s, m) {
                    Some((e, x)) => Some(
                        (e, Expr::Assign(to_lowercase(name.as_str()), Box::new(x))),
                    ),
                    None => None,
                }
            } else {
                None
            }
        },
    }
}

#[verifier::rlimit(40)]
fn parse_conversion(s: &Vec<char>, i: usize) -> (r: Option<(usize, Expr)>)
    requires
        i <= s@.len(),
    ensures
        agrees(r, p_conversion(s@, i as int), s@.len() as int),
    decreases s@.len() - i, 8int,
{
    proof {
        lemma_keywords();
    }
    match parse_add_sub(s, i) {
        None => None,
        Some((j, lhs)) => {
            let k = skip_ws_exec(s, j);
            assert(s@.len() == s.len());
            if keyword_at_exec(s, k, "in") || keyword_at_exec(s, k, "to") {
                let m = skip_ws_exec(s, k + 2);
                match word_exec(s, m) {
                    Some((e, t)) => Some((e, Expr::Convert(Box::new(lhs), t))),
                    None => None,
                }
            } else {
                None
            }
        },
    }
}

fn parse_add_sub(s: &Vec<char>, i: usize) -> (r: Option<(usize, Expr)>)
    requires
        i <= s@.len(),
    ensures
        agrees(r, p_add_sub(s@, i as int), s@.len() as int),
    decreases s@.len() - i, 7int,
{
    match parse_mul_div(s, i) {
        None => None,
        Some((j, lhs)) => if i < j && j <= s.len() {
            parse_add_sub_rest(s, j, lhs)
        } else {
            Some((j, lhs))
        },
    }
}

fn parse_add_sub_rest(s: &Vec<char>, j: usize, lhs: Expr) -> (r: Option<(usize, Expr)>)
    requires
        j <= s@.len(),
    ensures
        agrees(r, p_add_sub_rest(s@, j as int, lhs.view()), s@.len() as int),
    decreases s@.len() - j, 6int,
{
    let k = skip_ws_exec(s, j);
    match add_sub_op_exec(s, k) {
        None => Some((j, lhs)),
        Some((k2, op)) => {
            let m = skip_ws_exec(s, k2);
            match parse_mul_div(s, m) {
                None => Some((j, lhs)),
                Some((e, rhs)) => {
                    let b = Expr::Binary(Box::new(lhs), op, Box::new(rhs));
                    if j < e && e <= s.len() {
                        parse_add_sub_rest(s, e, b)
                    } else {
                        Some((e, b))
                    }
                },
            }
        },
    }
}

fn parse_mul_div(s: &Vec<char>, i: usize) -> (r: Option<(usize, Expr)>)
    requires
        i <= s@.len(),
    ensures
        agrees(r, p_mul_div(s@, i as int), s@.len() as int),
    decreases s@.len() - i, 5int,
{
    match parse_power(s, i) {
        None => None,
        Some((j, lhs)) => if i < j && j <= s.len() {
            parse_mul_div_rest(s, j, lhs)
        } else {
            Some((j, lhs))
        },
    }
}

fn parse_mul_div_rest(s: &Vec<char>, j: usize, lhs: Expr) -> (r: Option<(usize, Expr)>)
    requires
        j <= s@.len(),
    ensures
        agrees(r, p_mul_div_rest(s@, j as int, lhs.view()), s@.len() as int),
    decreases s@.len() - j, 4int,
{
    let k = skip_ws_exec(s, j);
    match mul_div_op_exec(s, k) {
        None => Some((j, lhs)),
        Some((k2, op)) => {
            let m = skip_ws_exec(s, k2);
            match parse_power(s, m) {
                None => Some((j, lhs)),
                Some((e, rhs)) => {
                    let b = Expr::Binary(Box::new(lhs), op, Box::new(rhs));
                    if j < e && e <= s.len() {
                        parse_mul_div_rest(s, e, b)
                    } else {
                        Some((e, b))
                    }
                },
            }
        },
    }
}

fn parse_power(s: &Vec<char>, i: usize) -> (r: Option<(usize, Expr)>)
    requires
        i <= s@.len(),
    ensures
        agrees(r, p_power(s@, i as int), s@.len() as int),
    decreases s@.len() - i, 3int,
{
    match parse_primary(s, i) {
        None => None,
        Some((j, lhs)) => if i < j && j <= s.len() {
            parse_power_rest(s, j, lhs)
        } else {
            Some((j, lhs))
        },
    }
}

fn parse_power_rest(s: &Vec<char>, j: usize, lhs: Expr) -> (r: Option<(usize, Expr)>)
    requires
        j <= s@.len(),
    ensures
        agrees(r, p_power_rest(s@, j as int, lhs.view()), s@.len() as int),
    decreases s@.len() - j, 2int,
{
    let k = skip_ws_exec(s, j);
    if char_at_exec(s, k, '^') {
        let m = skip_ws_exec(s, k + 1);
        match parse_primary(s, m) {
            None => Some((j, lhs)),
            Some((e, rhs)) => {
                let b = Expr::Binary(Box::new(lhs), Op::Pow, Box::new(rhs));
                if j < e && e <= s.len() {
                    parse_power_rest(s, e, b)
                } else {
                    Some((e, b))
                }
            },
        }
    } else {
        Some((j, lhs))
    }
}

fn parse_primary(s: &Vec<char>, i: usize) -> (r: Option<(usize, Expr)>)
    requires
        i <= s@.len(),
    ensures
        agrees(r, p_primary(s@, i as int), s@.len() as int),
    decreases s@.len() - i, 1int,
{
    if let Some(r) = parse_percentage(s, i) {
        return Some(r);
    }
    if let Some(r) = parse_currency(s, i) {
        return Some(r);
    }
    if let Some(r) = parse_unit(s, i) {
        return Some(r);
    }
    if let Some(r) = parse_number(s, i) {
        return Some(r);
    }
    if char_at_exec(s, i, '-') {
        let m = skip_ws_exec(s, i + 1);
        if let Some((e, x)) = parse_primary(s, m) {
            let zero = Expr::Number(Num::from_int(0));
            assert(zero.view() == ExprView::Number((0, 1)));
            let r = Expr::Binary(Box::new(zero), Op::Sub, Box::new(x));
            assert(r.view() == ExprView::Binary(
                Box::new(ExprView::Number((0, 1))),
                Op::Sub,
                Box::new(x.view()),
            ));
            return Some((e, r));
        }
    }
    if let Some(r) = parse_variable(s, i) {
        return Some(r);
    }
    if char_at_exec(s, i, '(') {
        let m = skip_ws_exec(s, i + 1);
        match parse_expr(s, m) {
            Some((e, x)) => {
                let k = skip_ws_exec(s, e);
                if char_at_exec(s, k, ')') {
                    Some((k + 1, x))
                } else {
                    None
                }
            },
            None => None,
        }
    } else {
        None
    }
}

} // verus!

verus! {

/// A comment starts at `k`: `#` or `//`.
pub open spec fn comment_at(s: Seq<char>, k: int) -> bool {
    char_at(s, k, '#') || (char_at(s, k, '/') && char_at(s, k + 1, '/'))
}

/// One item of a line at `k`: an expression (`Some`), or a comment or prose
/// (`None`), with the position after it.
pub open spec fn p_item(s: Seq<char>, k: int) -> Option<(int, Option<ExprView>)> {
    match p_expr(s, k) {
        Some((j, e)) => Some((j, Some(e))),
        None => if comment_at(s, k) {
            Some((s.len() as int, None))
        } else if scan_prose(s, k) > k {
            Some((scan_prose(s, k), None))
        } else {
            None
        },
    }
}

/// The expressions of the items from `i` on, after those in `acc`; or the
/// position where no item can start.
pub open spec fn p_items(s: Seq<char>, i: int, acc: Seq<ExprView>) -> Result<Seq<ExprView>, int>
    decreases s.len() - i,
{
    let k = skip_ws(s, i);
    if k >= s.len() {
        Ok(acc)
    } else {
        match p_item(s, k) {
            None => Err(k),
            Some((j, item)) => {
                proof {
                    lemma_skip_ws_any(s, i);
                }
                if k < j <= s.len() {
                    let acc2 = match item {
                        Some(e) => acc.push(e),
                        None => acc,
                    };
                    p_items(s, j, acc2)
                } else {
                    Err(k)
                }
            },
        }
    }
}

/// The message for a line that cannot be parsed at position `k` (0-based).
pub open spec fn parse_error_message(k: int) -> Seq<char> {
    "Cannot parse input at column "@ + nat_digits((k + 1) as nat)
}

/// The expressions of a line, or the message saying where it cannot be parsed.
pub open spec fn spec_parse_line(line: Seq<char>) -> Result<Seq<ExprView>, Seq<char>> {
    match p_items(line, 0, seq![]) {
        Ok(es) => Ok(es),
        Err(k) => Err(parse_error_message(k)),
    }
}

pub open spec fn expr_views(v: Seq<Expr>) -> Seq<ExprView> {
    v.map_values(|e: Expr| e.view())
}

/// The result of parsing agrees with `spec_parse_line`.
pub open spec fn parse_agrees(r: Result<Vec<Expr>, String>, line: Seq<char>) -> bool {
    match r {
        Ok(v) => spec_parse_line(line) == Ok::<Seq<ExprView>, Seq<char>>(expr_views(v@)),
        Err(e) => spec_parse_line(line) == Err::<Seq<ExprView>, Seq<char>>(e@),
    }
}

fn parse_item(s: &Vec<char>, k: usize) -> (r: Option<(usize, Option<Expr>)>)
    requires
        k <= s@.len(),
    ensures
        r is Some <==> p_item(s@, k as int) is Some,
        r matches Some((j, item)) ==> {
            &&& j <= s@.len()
            &&& p_item(s@, k as int) == Some(
                (
                    j as int,
                    match item {
                        Some(e) => Some(e.view()),
                        None => None::<ExprView>,
                    },
                ),
            )
        },
{
    match parse_expr(s, k) {
        Some((j, e)) => Some((j, Some(e))),
        None => {
            if char_at_exec(s, k, '#') || (char_at_exec(s, k, '/') && char_at_exec(s, k + 1, '/')) {
                Some((s.len(), None))
            } else {
                let j = scan_prose_exec(s, k);
                if j > k {
                    Some((j, None))
                } else {
                    None
                }
            }
        },
    }
}

fn parse_error(k: usize) -> (r: String)
    ensures
        r@ == parse_error_message(k as int),
{
    let mut v: Vec<char> = Vec::new();
    append_str(&mut v, "Cannot parse input at column ");
    push_nat_digits(&mut v, (k as u128) + 1);
    string_from_chars(&v)
}

/// The parser of the line grammar.
pub struct NumenParser;

impl NumenParser {
    /// Parses one line into its expressions, in order; comments and prose
    /// are skipped. Fails with a message naming the first column at which no
    /// item can start.
    pub fn parse(input: &str) -> (r: Result<Vec<Expr>, String>)
        ensures
            parse_agrees(r, input@),
    {
        let s = chars_of(input);
        let mut exprs: Vec<Expr> = Vec::new();
        let mut i: usize = 0;
        assert(expr_views(Seq::<Expr>::empty()) =~= Seq::<ExprView>::empty());
        while i < s.len()
            invariant
                s@ == input@,
                i <= s@.len(),
                p_items(s@, i as int, expr_views(exprs@)) == p_items(s@, 0, seq![]),
            decreases s@.len() - i,
        {
            let k = skip_ws_exec(&s, i);
            if k >= s.len() {
                i = s.len();
                continue;
            }
            match parse_item(&s, k) {
                None => {
                    return Err(parse_error(k));
                },
                Some((j, item)) => {
                    if k < j && j <= s.len() {
                        let ghost old_views = expr_views(exprs@);
                        match item {
                            Some(e) => {
                                exprs.push(e);
                                assert(expr_views(exprs@) =~= old_views.push(e.view()));
                            },
                            None => {},
                        }
                        i = j;
                    } else {
                        return Err(parse_error(k));
                    }
                },
            }
        }
        proof {
            lemma_skip_ws_any(s@, i as int);
        }
        assert(expr_views(Seq::<Expr>::empty()) =~= Seq::<ExprView>::empty());
        Ok(exprs)
    }
}

/// Parses one line into its expressions (see `NumenParser::parse`).
pub fn parse_line(input: &str) -> (r: Result<Vec<Expr>, String>)
    ensures
        parse_agrees(r, input@),
{
    NumenParser::parse(input)
}

} // verus!
