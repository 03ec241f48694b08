//! Currencies: exchange-rate tables, conversion between currencies, and the
//! reading of a rate table from JSON text.
//!
//! Rates are relative to one common currency (the US dollar in the built-in
//! table): an amount is divided by the rate of its currency and multiplied by
//! the rate of the target currency.

use vstd::prelude::*;
use serde_json::Value;
use crate::num::{Num, res_view, spec_mul, spec_div, int_rat, lemma_reduce_fits};
use crate::text::{upper_text, to_uppercase, pow10, pow10_u128, str_eq, append_str, string_from_chars, chars_of};
use crate::lexer::{mantissa, fraction_len, capped_mantissa, mantissa_frac_exec};
use crate::units::{decimal, overflow_message, overflow_error};

verus! {

/// Currency codes with their rates.
pub type RateEntries = Seq<(Seq<char>, (int, int))>;

/// The rate of the first entry for `code`.
pub open spec fn rate_lookup(es: RateEntries, code: Seq<char>) -> Option<(int, int)>
    decreases es.len(),
{
    if es.len() == 0 {
        None
    } else if es[0].0 == code {
        Some(es[0].1)
    } else {
        rate_lookup(es.drop_first(), code)
    }
}

/// A table of exchange rates.
pub struct RateTable {
    entries: Vec<(String, Num)>,
}

pub open spec fn entries_view(v: Seq<(String, Num)>) -> RateEntries {
    v.map_values(|e: (String, Num)| (e.0@, e.1@))
}

impl View for RateTable {
    type V = RateEntries;

    closed spec fn view(&self) -> RateEntries {
        entries_view(self.entries@)
    }
}

/// The built-in rates, relative to the US dollar.
pub open spec fn default_rate_entries() -> RateEntries {
    seq![
        ("USD"@, int_rat(1)),
        ("EUR"@, decimal(92, 2)),
        ("GBP"@, decimal(79, 2)),
        ("JPY"@, int_rat(155)),
        ("CAD"@, decimal(136, 2)),
        ("AUD"@, decimal(150, 2)),
        ("BRL"@, decimal(540, 2)),
        ("CNY"@, decimal(725, 2)),
    ]
}

impl RateTable {
    /// The built-in table, used when no other rates are available.
    pub fn default_rates() -> (r: RateTable)
        ensures
            r@ == default_rate_entries(),
    {
        proof {
            reveal_with_fuel(pow10, 3);
        }
        let mut entries: Vec<(String, Num)> = Vec::new();
        entries.push(("USD".to_owned(), Num::from_int(1)));
        entries.push(("EUR".to_owned(), Num::fraction(92, 100)));
        entries.push(("GBP".to_owned(), Num::fraction(79, 100)));
        entries.push(("JPY".to_owned(), Num::from_int(155)));
        entries.push(("CAD".to_owned(), Num::fraction(136, 100)));
        entries.push(("AUD".to_owned(), Num::fraction(150, 100)));
        entries.push(("BRL".to_owned(), Num::fraction(540, 100)));
        entries.push(("CNY".to_owned(), Num::fraction(725, 100)));
        let r = RateTable { entries };
        assert(r@ =~= default_rate_entries());
        r
    }

    /// The rate of `code`, if the table has one.
    pub fn rate_of(&self, code: &str) -> (r: Option<Num>)
        ensures
            r is Some <==> rate_lookup(self@, code@) is Some,
            r matches Some(x) ==> x@ == rate_lookup(self@, code@)->0,
    {
        let ghost es = self@;
        let mut i: usize = 0;
        assert(es.subrange(0, es.len() as int) =~= es);
        while i < self.entries.len()
            invariant
                es == self@,
                es.len() == self.entries@.len(),
                i <= es.len(),
                rate_lookup(es, code@) == rate_lookup(es.subrange(i as int, es.len() as int), code@),
            decreases self.entries.len() - i,
        {
            let ghost rest = es.subrange(i as int, es.len() as int);
            assert(rest.drop_first() =~= es.subrange(i + 1, es.len() as int));
            assert(rest[0] == (self.entries@[i as int].0@, self.entries@[i as int].1@));
            if str_eq(self.entries[i].0.as_str(), code) {
                return Some(self.entries[i].1);
            }
            i = i + 1;
        }
        None
    }
}

pub open spec fn unsupported_currency_message(code: Seq<char>) -> Seq<char> {
    "Unsupported currency: '"@ + code + "'"@
}

/// Converting `v` from one currency to another; codes are compared and looked
/// up in upper case.
pub open spec fn spec_convert_currency(v: (int, int), from: Seq<char>, to: Seq<char>, rates: RateEntries) -> Result<(int, int), Seq<char>> {
    let f = upper_text(from);
    let t = upper_text(to);
    if f == t {
        Ok(v)
    } else {
        match rate_lookup(rates, f) {
            None => Err(unsupported_currency_message(f)),
            Some(fr) => match rate_lookup(rates, t) {
                None => Err(unsupported_currency_message(t)),
                Some(tr) => match spec_div(v, fr) {
                    None => Err(overflow_message()),
                    Some(u) => match spec_mul(u, tr) {
                        None => Err(overflow_message()),
                        Some(x) => Ok(x),
                    },
                },
            },
        }
    }
}

fn unsupported_currency(code: &str) -> (r: String)
    ensures
        r@ == unsupported_currency_message(code@),
{
    let mut v: Vec<char> = Vec::new();
    append_str(&mut v, "Unsupported currency: '");
    append_str(&mut v, code);
    append_str(&mut v, "'");
    string_from_chars(&v)
}

/// Converts `val` from currency `from` to currency `to` with `rates`.
pub fn convert_currency(val: Num, from: &str, to: &str, rates: &RateTable) -> (r: Result<Num, String>)
    ensures
        res_view(r) == spec_convert_currency(val@, from@, to@, rates@),
{
    let from_upper = to_uppercase(from);
    let to_upper = to_uppercase(to);
    if str_eq(from_upper.as_str(), to_upper.as_str()) {
        return Ok(val);
    }
    let from_rate = match rates.rate_of(from_upper.as_str()) {
        Some(x) => x,
        None => return Err(unsupported_currency(from_upper.as_str())),
    };
    let to_rate = match rates.rate_of(to_upper.as_str()) {
        Some(x) => x,
        None => return Err(unsupported_currency(to_upper.as_str())),
    };
    let usd = match val.div(&from_rate) {
        Some(x) => x,
        None => return Err(overflow_error()),
    };
    match usd.mul(&to_rate) {
        Some(x) => Ok(x),
        None => Err(overflow_error()),
    }
}

} // verus!

verus! {

/// A value nested in a JSON object: a number (by its text) or anything else.
#[derive(Debug)]
pub enum JsonLeaf {
    Number(String),
    Other,
}

/// A member of a JSON document's top-level object: a number (by its text),
/// an object (its members, each read as a leaf), or anything else.
#[derive(Debug)]
pub enum JsonField {
    Number(String),
    Object(Vec<(String, JsonLeaf)>),
    Other,
}

/// A JSON document read two levels deep: an object (its members) or anything else.
#[derive(Debug)]
pub enum JsonDoc {
    Object(Vec<(String, JsonField)>),
    Other,
}

pub type LeafEntries = Seq<(Seq<char>, Option<Seq<char>>)>;

pub enum JsonFieldView {
    Number(Seq<char>),
    Object(LeafEntries),
    Other,
}

pub enum JsonDocView {
    Object(Seq<(Seq<char>, JsonFieldView)>),
    Other,
}

impl JsonLeaf {
    pub open spec fn view(&self) -> Option<Seq<char>> {
        match self {
            JsonLeaf::Number(t) => Some(t@),
            JsonLeaf::Other => None,
        }
    }
}

pub open spec fn leaf_entries_view(v: Seq<(String, JsonLeaf)>) -> LeafEntries {
    v.map_values(|e: (String, JsonLeaf)| (e.0@, e.1.view()))
}

impl JsonField {
    pub open spec fn view(&self) -> JsonFieldView {
        match self {
            JsonField::Number(t) => JsonFieldView::Number(t@),
            JsonField::Object(es) => JsonFieldView::Object(leaf_entries_view(es@)),
            JsonField::Other => JsonFieldView::Other,
        }
    }
}

pub open spec fn field_entries_view(v: Seq<(String, JsonField)>) -> Seq<(Seq<char>, JsonFieldView)> {
    v.map_values(|e: (String, JsonField)| (e.0@, e.1.view()))
}

impl JsonDoc {
    pub open spec fn view(&self) -> JsonDocView {
        match self {
            JsonDoc::Object(es) => JsonDocView::Object(field_entries_view(es@)),
            JsonDoc::Other => JsonDocView::Other,
        }
    }
}

/// What `serde_json::from_str::<serde_json::Value>` returns for a text, read
/// two levels deep (see `JsonDoc`); `None` when the text is not JSON.
pub uninterp spec fn json_document(text: Seq<char>) -> Option<JsonDocView>;

/// Calls `serde_json::from_str::<serde_json::Value>` and reads the result two
/// levels deep: the members of a top-level object in the order of
/// `serde_json::Map`, numbers by their `Display` text, every other value as
/// `Other`. The result is only named here.
#[verifier::external_body]
fn parse_json(text: &str) -> (r: Option<JsonDoc>)
    ensures
        match r {
            Some(d) => json_document(text@) == Some(d.view()),
            None => json_document(text@) is None,
        },
{
    let leaf = |v: Value| match v {
        Value::Number(n) => JsonLeaf::Number(n.to_string()),
        _ => JsonLeaf::Other,
    };
    let field = |v: Value| match v {
        Value::Number(n) => JsonField::Number(n.to_string()),
        Value::Object(m) => JsonField::Object(m.into_iter().map(|(k, x)| (k, leaf(x))).collect()),
        _ => JsonField::Other,
    };
    match serde_json::from_str::<Value>(text) {
        Ok(Value::Object(m)) => Some(JsonDoc::Object(m.into_iter().map(|(k, x)| (k, field(x))).collect())),
        Ok(_) => Some(JsonDoc::Other),
        Err(_) => None,
    }
}

/// The position of the first `e` or `E` at or after `k`, or the end.
pub open spec fn exponent_pos(t: Seq<char>, k: int) -> int
    decreases t.len() - k,
{
    if 0 <= k < t.len() && !(t[k] == 'e' || t[k] == 'E') {
        exponent_pos(t, k + 1)
    } else {
        k
    }
}

/// The exact value of a JSON number text (`-`, digits, `.` and fraction,
/// exponent), when its digits form an integer up to `i64::MAX`, its exponent
/// is at most 1000, and the power of ten it is scaled by is at most `10^18`
/// (a zero is always accepted); the result must fit like any other number.
pub open spec fn json_number_value(t: Seq<char>) -> Option<(int, int)> {
    let neg = t.len() > 0 && t[0] == '-';
    let start: int = if neg {
        1
    } else {
        0
    };
    let e = exponent_pos(t, start);
    let mpart = t.subrange(start, e);
    let epart = if e < t.len() {
        t.subrange(e + 1, t.len() as int)
    } else {
        Seq::<char>::empty()
    };
    let eneg = epart.len() > 0 && epart[0] == '-';
    let m = mantissa(mpart);
    let x = mantissa(epart);
    if m > i64::MAX || x > 1000 {
        None
    } else {
        let exp: int = (if eneg {
            -x
        } else {
            x
        }) - fraction_len(mpart);
        let base = int_rat(
            if neg {
                -m
            } else {
                m
            },
        );
        if 0 <= exp <= 18 {
            spec_mul(base, int_rat(pow10(exp as nat) as int))
        } else if -18 <= exp < 0 {
            spec_div(base, int_rat(pow10((-exp) as nat) as int))
        } else if m == 0 {
            Some(int_rat(0))
        } else {
            None
        }
    }
}

proof fn lemma_exponent_pos(t: Seq<char>, k: int)
    requires
        0 <= k <= t.len(),
    ensures
        k <= exponent_pos(t, k) <= t.len(),
    decreases t.len() - k,
{
    if k < t.len() && !(t[k] == 'e' || t[k] == 'E') {
        lemma_exponent_pos(t, k + 1);
    }
}

/// The value of a JSON number text (see `json_number_value`).
pub fn json_number(text: &str) -> (r: Option<Num>)
    ensures
        r is Some <==> json_number_value(text@) is Some,
        r matches Some(x) ==> x@ == json_number_value(text@)->0,
{
    let t = chars_of(text);
    let neg = t.len() > 0 && t[0] == '-';
    let start: usize = if neg {
        1
    } else {
        0
    };
    proof {
        lemma_exponent_pos(t@, start as int);
    }
    let mut e = start;
    while e < t.len() && !(t[e] == 'e' || t[e] == 'E')
        invariant
            start <= e <= t@.len(),
            exponent_pos(t@, e as int) == exponent_pos(t@, start as int),
        decreases t.len() - e,
    {
        e = e + 1;
    }
    let (m, frac) = mantissa_frac_exec(&t, start, e);
    let (x, eneg) = if e < t.len() {
        let (x, _) = mantissa_frac_exec(&t, e + 1, t.len());
        let eneg = e + 1 < t.len() && t[e + 1] == '-';
        (x, eneg)
    } else {
        assert(t@.subrange(t@.len() as int, t@.len() as int) =~= Seq::<char>::empty());
        let (x, _) = mantissa_frac_exec(&t, t.len(), t.len());
        (x, false)
    };
    if m >= 0x8000_0000_0000_0000 || x > 1000 {
        return None;
    }
    let signed_x: i128 = if eneg {
        -(x as i128)
    } else {
        x as i128
    };
    let exp: i128 = signed_x - (frac as i128);
    let sm: i64 = if neg {
        -(m as i64)
    } else {
        m as i64
    };
    let base = Num::from_int(sm);
    if 0 <= exp && exp <= 18 {
        let p = pow10_u128(exp as u32);
        base.mul(&Num::from_int(p as i64))
    } else if -18 <= exp && exp < 0 {
        let p = pow10_u128((-exp) as u32);
        base.div(&Num::from_int(p as i64))
    } else if m == 0 {
        Some(Num::from_int(0))
    } else {
        None
    }
}

} // verus!

verus! {

/// Rates from the members of a nested object: every member must be a number;
/// one whose value cannot be represented (see `json_number_value`) is left out.
pub open spec fn leaves_to_rates(es: LeafEntries) -> Option<RateEntries>
    decreases es.len(),
{
    if es.len() == 0 {
        Some(Seq::empty())
    } else {
        match leaves_to_rates(es.drop_last()) {
            None => None,
            Some(r) => match es.last().1 {
                None => None,
                Some(t) => match json_number_value(t) {
                    None => Some(r),
                    Some(v) => Some(r.push((es.last().0, v))),
                },
            },
        }
    }
}

/// Rates from the members of the top-level object: every member must be a
/// number; one whose value cannot be represented is left out.
pub open spec fn fields_to_rates(es: Seq<(Seq<char>, JsonFieldView)>) -> Option<RateEntries>
    decreases es.len(),
{
    if es.len() == 0 {
        Some(Seq::empty())
    } else {
        match fields_to_rates(es.drop_last()) {
            None => None,
            Some(r) => match es.last().1 {
                JsonFieldView::Number(t) => match json_number_value(t) {
                    None => Some(r),
                    Some(v) => Some(r.push((es.last().0, v))),
                },
                _ => None,
            },
        }
    }
}

/// The first member named `name`.
pub open spec fn field_lookup(es: Seq<(Seq<char>, JsonFieldView)>, name: Seq<char>) -> Option<JsonFieldView>
    decreases es.len(),
{
    if es.len() == 0 {
        None
    } else if es[0].0 == name {
        Some(es[0].1)
    } else {
        field_lookup(es.drop_first(), name)
    }
}

/// The rates a JSON document holds: those of its `rates` member when there
/// is one (else of its `conversion_rates` member) if that is an object of
/// numbers; otherwise its own members, if they are all numbers.
pub open spec fn rates_from_document(d: JsonDocView) -> Option<RateEntries> {
    match d {
        JsonDocView::Other => None,
        JsonDocView::Object(es) => {
            let nested = match field_lookup(es, "rates"@) {
                Some(f) => Some(f),
                None => field_lookup(es, "conversion_rates"@),
            };
            let from_nested = match nested {
                Some(JsonFieldView::Object(inner)) => leaves_to_rates(inner),
                _ => None,
            };
            match from_nested {
                Some(r) => Some(r),
                None => fields_to_rates(es),
            }
        },
    }
}

/// The rates in a JSON text, if it holds any (see `rates_from_document`).
pub open spec fn spec_rates_from_json(text: Seq<char>) -> Option<RateEntries> {
    match json_document(text) {
        None => None,
        Some(d) => rates_from_document(d),
    }
}

proof fn lemma_leaves_prefix_none(es: LeafEntries, k: int)
    requires
        0 <= k <= es.len(),
        leaves_to_rates(es.take(k)) is None,
    ensures
        leaves_to_rates(es) is None,
    decreases es.len(),
{
    if k == es.len() {
        assert(es.take(k) =~= es);
    } else {
        assert(es.drop_last().take(k) =~= es.take(k));
        lemma_leaves_prefix_none(es.drop_last(), k);
    }
}

proof fn lemma_fields_prefix_none(es: Seq<(Seq<char>, JsonFieldView)>, k: int)
    requires
        0 <= k <= es.len(),
        fields_to_rates(es.take(k)) is None,
    ensures
        fields_to_rates(es) is None,
    decreases es.len(),
{
    if k == es.len() {
        assert(es.take(k) =~= es);
    } else {
        assert(es.drop_last().take(k) =~= es.take(k));
        lemma_fields_prefix_none(es.drop_last(), k);
    }
}

fn leaves_to_rates_exec(es: &Vec<(String, JsonLeaf)>) -> (r: Option<RateTable>)
    ensures
        r is Some <==> leaves_to_rates(leaf_entries_view(es@)) is Some,
        r matches Some(t) ==> t@ == leaves_to_rates(leaf_entries_view(es@))->0,
{
    let ghost ev = leaf_entries_view(es@);
    let mut entries: Vec<(String, Num)> = Vec::new();
    let mut i: usize = 0;
    assert(ev.take(0) =~= Seq::<(Seq<char>, Option<Seq<char>>)>::empty());
    while i < es.len()
        invariant
            ev == leaf_entries_view(es@),
            i <= es.len(),
            leaves_to_rates(ev.take(i as int)) == Some(entries_view(entries@)),
        decreases es.len() - i,
    {
        assert(ev.take(i + 1).drop_last() =~= ev.take(i as int));
        let ghost before = entries_view(entries@);
        match &es[i].1 {
            JsonLeaf::Number(t) => match json_number(t.as_str()) {
                Some(v) => {
                    entries.push((es[i].0.clone(), v));
                    assert(entries_view(entries@) =~= before.push((es@[i as int].0@, v@)));
                },
                None => {
                    assert(entries_view(entries@) =~= before);
                },
            },
            JsonLeaf::Other => {
                proof {
                    lemma_leaves_prefix_none(ev, i + 1);
                }
                return None;
            },
        }
        i = i + 1;
    }
    assert(ev.take(es.len() as int) =~= ev);
    Some(RateTable { entries })
}

fn fields_to_rates_exec(es: &Vec<(String, JsonField)>) -> (r: Option<RateTable>)
    ensures
        r is Some <==> fields_to_rates(field_entries_view(es@)) is Some,
        r matches Some(t) ==> t@ == fields_to_rates(field_entries_view(es@))->0,
{
    let ghost ev = field_entries_view(es@);
    let mut entries: Vec<(String, Num)> = Vec::new();
    let mut i: usize = 0;
    assert(ev.take(0) =~= Seq::<(Seq<char>, JsonFieldView)>::empty());
    while i < es.len()
        invariant
            ev == field_entries_view(es@),
            i <= es.len(),
            fields_to_rates(ev.take(i as int)) == Some(entries_view(entries@)),
        decreases es.len() - i,
    {
        assert(ev.take(i + 1).drop_last() =~= ev.take(i as int));
        let ghost before = entries_view(entries@);
        match &es[i].1 {
            JsonField::Number(t) => match json_number(t.as_str()) {
                Some(v) => {
                    entries.push((es[i].0.clone(), v));
                    assert(entries_view(entries@) =~= before.push((es@[i as int].0@, v@)));
                },
                None => {
                    assert(entries_view(entries@) =~= before);
                },
            },
            _ => {
                proof {
                    lemma_fields_prefix_none(ev, i + 1);
                }
                return None;
            },
        }
        i = i + 1;
    }
    assert(ev.take(es.len() as int) =~= ev);
    Some(RateTable { entries })
}

/// The index of the first member named `name`.
fn field_index(es: &Vec<(String, JsonField)>, name: &str) -> (r: Option<usize>)
    ensures
        r is Some <==> field_lookup(field_entries_view(es@), name@) is Some,
        r matches Some(i) ==> i < es@.len() && field_lookup(field_entries_view(es@), name@) == Some(
            es@[i as int].1.view(),
        ),
{
    let ghost ev = field_entries_view(es@);
    let mut i: usize = 0;
    assert(ev.subrange(0, ev.len() as int) =~= ev);
    while i < es.len()
        invariant
            ev == field_entries_view(es@),
            i <= es.len(),
            field_lookup(ev, name@) == field_lookup(ev.subrange(i as int, ev.len() as int), name@),
        decreases es.len() - i,
    {
        assert(ev.subrange(i as int, ev.len() as int).drop_first() =~= ev.subrange(
            i + 1,
            ev.len() as int,
        ));
        if str_eq(es[i].0.as_str(), name) {
            return Some(i);
        }
        i = i + 1;
    }
    None
}

impl RateTable {
    /// The rates held by a JSON text: an object with a `rates` (or else
    /// `conversion_rates`) member that maps codes to numbers, or an object
    /// mapping codes to numbers. `None` when the text holds neither.
    pub fn from_json(text: &str) -> (r: Option<RateTable>)
        ensures
            r is Some <==> spec_rates_from_json(text@) is Some,
            r matches Some(t) ==> t@ == spec_rates_from_json(text@)->0,
    {
        match parse_json(text) {
            None => None,
            Some(doc) => RateTable::from_document(&doc),
        }
    }

    /// The rates a parsed JSON document holds (see `rates_from_document`).
    pub fn from_document(doc: &JsonDoc) -> (r: Option<RateTable>)
        ensures
            r is Some <==> rates_from_document(doc.view()) is Some,
            r matches Some(t) ==> t@ == rates_from_document(doc.view())->0,
    {
        match doc {
            JsonDoc::Other => None,
            JsonDoc::Object(es) => {
                let nested = match field_index(es, "rates") {
                    Some(i) => Some(i),
                    None => field_index(es, "conversion_rates"),
                };
                let from_nested = match nested {
                    Some(i) => match &es[i].1 {
                        JsonField::Object(inner) => leaves_to_rates_exec(inner),
                        _ => None,
                    },
                    None => None,
                };
                match from_nested {
                    Some(t) => Some(t),
                    None => fields_to_rates_exec(es),
                }
            },
        }
    }
}

} // verus!
