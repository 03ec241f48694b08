//! Units of length, time and mass, and conversion between them.

use vstd::prelude::*;
use crate::num::{Num, res_view, reduce, int_rat, spec_mul, spec_div, lemma_reduce_fits};
use crate::text::{pow10, lower_text, trim_ws, trim, string_from_chars, to_lowercase, chars_of, chars_eq_str, append_str};

verus! {

/// The physical dimension of a unit; only units of one dimension convert.
#[derive(Clone, Copy, Debug, PartialEq, Eq, Structural)]
pub enum Dimension {
    Length,
    Time,
    Mass,
}

/// A known unit: the name of its base unit, its dimension, and the factor
/// by which a value in this unit is multiplied to obtain the base unit.
#[derive(Clone, Copy, Debug)]
pub struct UnitInfo {
    pub canonical_name: &'static str,
    pub dimension: Dimension,
    pub factor: Num,
}

/// The exact decimal `m / 10^k`.
pub open spec fn decimal(m: int, k: nat) -> (int, int) {
    reduce(m, pow10(k) as int)->0
}

/// A unit table entry: base unit name, dimension, factor.
pub type UnitSpec = (Seq<char>, Dimension, (int, int));

/// The unit that an already normalised (trimmed, lower-case) name denotes.
/// Base units: length in meters, time in seconds, mass in grams.
pub open spec fn unit_table(norm: Seq<char>) -> Option<UnitSpec> {
    if norm == "m"@ || norm == "meter"@ || norm == "meters"@ {
        Some(("meter"@, Dimension::Length, int_rat(1)))
    } else if norm == "km"@ || norm == "kilometer"@ || norm == "kilometers"@ {
        Some(("meter"@, Dimension::Length, int_rat(1000)))
    } else if norm == "mile"@ || norm == "miles"@ {
        Some(("meter"@, Dimension::Length, decimal(1609344, 3)))
    } else if norm == "s"@ || norm == "sec"@ || norm == "secs"@ || norm == "second"@ || norm
        == "seconds"@ {
        Some(("second"@, Dimension::Time, int_rat(1)))
    } else if norm == "min"@ || norm == "mins"@ || norm == "minute"@ || norm == "minutes"@ {
        Some(("second"@, Dimension::Time, int_rat(60)))
    } else if norm == "h"@ || norm == "hour"@ || norm == "hours"@ {
        Some(("second"@, Dimension::Time, int_rat(3600)))
    } else if norm == "g"@ || norm == "gram"@ || norm == "grams"@ {
        Some(("gram"@, Dimension::Mass, int_rat(1)))
    } else if norm == "kg"@ || norm == "kilogram"@ || norm == "kilograms"@ {
        Some(("gram"@, Dimension::Mass, int_rat(1000)))
    } else if norm == "lbs"@ || norm == "pound"@ || norm == "pounds"@ {
        Some(("gram"@, Dimension::Mass, decimal(45359237, 5)))
    } else {
        None
    }
}

/// The two fractional factors in lowest terms.
pub proof fn lemma_factors()
    ensures
        decimal(1609344, 3) == (201168int, 125int),
        decimal(45359237, 5) == (45359237int, 100000int),
{
    reveal_with_fuel(pow10, 6);
    assert(crate::num::gcd(8, 0) == 8);
    assert(crate::num::gcd(24, 8) == 8);
    assert(crate::num::gcd(32, 24) == 8);
    assert(crate::num::gcd(312, 32) == 8);
    assert(crate::num::gcd(344, 312) == 8);
    assert(crate::num::gcd(1000, 344) == 8);
    assert(crate::num::gcd(1609344, 1000) == 8);
    assert(crate::num::gcd(1, 0) == 1);
    assert(crate::num::gcd(26, 1) == 1);
    assert(crate::num::gcd(183, 26) == 1);
    assert(crate::num::gcd(209, 183) == 1);
    assert(crate::num::gcd(601, 209) == 1);
    assert(crate::num::gcd(3214, 601) == 1);
    assert(crate::num::gcd(3815, 3214) == 1);
    assert(crate::num::gcd(18474, 3815) == 1);
    assert(crate::num::gcd(40763, 18474) == 1);
    assert(crate::num::gcd(59237, 40763) == 1);
    assert(crate::num::gcd(100000, 59237) == 1);
    assert(crate::num::gcd(45359237, 100000) == 1);
    assert(crate::num::abs(1609344) == 1609344);
    assert(crate::num::abs(1000) == 1000);
    assert(1609344nat / 8nat == 201168);
    assert(1000nat / 8nat == 125);
    assert(reduce(1609344, 1000) == Some((201168int, 125int)));
    assert(crate::num::abs(45359237) == 45359237);
    assert(crate::num::abs(100000) == 100000);
    assert(45359237nat / 1nat == 45359237);
    assert(100000nat / 1nat == 100000);
    assert(reduce(45359237, 100000) == Some((45359237int, 100000int)));
}

/// How a unit name is normalised before lookup: trimmed, then lower-cased.
pub open spec fn normalize_unit_name(name: Seq<char>) -> Seq<char> {
    lower_text(trim_ws(name))
}

/// The unit a name denotes, if any.
pub open spec fn spec_lookup_unit(name: Seq<char>) -> Option<UnitSpec> {
    unit_table(normalize_unit_name(name))
}

pub open spec fn info_matches(info: UnitInfo, u: UnitSpec) -> bool {
    &&& info.canonical_name@ == u.0
    &&& info.dimension == u.1
    &&& info.factor@ == u.2
}

fn unit(canonical_name: &'static str, dimension: Dimension, factor: Num) -> (r: Option<UnitInfo>)
    ensures
        r == Some(UnitInfo { canonical_name, dimension, factor }),
{
    Some(UnitInfo { canonical_name, dimension, factor })
}

fn is_one_of2(a: &Vec<char>, x: &str, y: &str) -> (r: bool)
    ensures
        r == (a@ == x@ || a@ == y@),
{
    chars_eq_str(a, x) || chars_eq_str(a, y)
}

fn is_one_of3(a: &Vec<char>, x: &str, y: &str, z: &str) -> (r: bool)
    ensures
        r == (a@ == x@ || a@ == y@ || a@ == z@),
{
    chars_eq_str(a, x) || chars_eq_str(a, y) || chars_eq_str(a, z)
}

/// Looks up a unit by name, ignoring surrounding white space and case.
pub fn lookup_unit(name: &str) -> (r: Option<UnitInfo>)
    ensures
        r is Some <==> spec_lookup_unit(name@) is Some,
        r matches Some(info) ==> info_matches(info, spec_lookup_unit(name@)->0),
{
    let trimmed = trim(name);
    let trimmed_str = string_from_chars(&trimmed);
    let lower = to_lowercase(trimmed_str.as_str());
    let norm = chars_of(lower.as_str());
    assert(norm@ == normalize_unit_name(name@));
    if is_one_of3(&norm, "m", "meter", "meters") {
        unit("meter", Dimension::Length, Num::from_int(1))
    } else if is_one_of3(&norm, "km", "kilometer", "kilometers") {
        unit("meter", Dimension::Length, Num::from_int(1000))
    } else if is_one_of2(&norm, "mile", "miles") {
        proof {
            reveal_with_fuel(pow10, 4);
        }
        unit("meter", Dimension::Length, Num::fraction(1609344, 1000))
    } else if is_one_of3(&norm, "s", "sec", "secs") || is_one_of2(&norm, "second", "seconds") {
        unit("second", Dimension::Time, Num::from_int(1))
    } else if is_one_of2(&norm, "min", "mins") || is_one_of2(&norm, "minute", "minutes") {
        unit("second", Dimension::Time, Num::from_int(60))
    } else if is_one_of3(&norm, "h", "hour", "hours") {
        unit("second", Dimension::Time, Num::from_int(3600))
    } else if is_one_of3(&norm, "g", "gram", "grams") {
        unit("gram", Dimension::Mass, Num::from_int(1))
    } else if is_one_of3(&norm, "kg", "kilogram", "kilograms") {
        unit("gram", Dimension::Mass, Num::from_int(1000))
    } else if is_one_of3(&norm, "lbs", "pound", "pounds") {
        proof {
            reveal_with_fuel(pow10, 6);
        }
        unit("gram", Dimension::Mass, Num::fraction(45359237, 100000))
    } else {
        None
    }
}

/// The message for a failed numeric operation whose exact result does not fit.
pub open spec fn overflow_message() -> Seq<char> {
    "Numeric overflow"@
}

pub fn overflow_error() -> (r: String)
    ensures
        r@ == overflow_message(),
{
    let mut v: Vec<char> = Vec::new();
    append_str(&mut v, "Numeric overflow");
    string_from_chars(&v)
}

/// The message for a division by zero.
pub open spec fn division_by_zero_message() -> Seq<char> {
    "Division by zero"@
}

pub fn division_by_zero_error() -> (r: String)
    ensures
        r@ == division_by_zero_message(),
{
    let mut v: Vec<char> = Vec::new();
    append_str(&mut v, "Division by zero");
    string_from_chars(&v)
}

pub open spec fn unknown_unit_message(name: Seq<char>) -> Seq<char> {
    "Unknown unit: '"@ + name + "'"@
}

pub open spec fn mismatched_dimensions_message(from: Seq<char>, to: Seq<char>) -> Seq<char> {
    "Cannot convert from '"@ + from + "' to '"@ + to + "' (mismatched dimensions)"@
}

/// Converting `v` from one unit to another: first to the base unit, then to
/// the target unit.
pub open spec fn spec_convert_unit(v: (int, int), from: Seq<char>, to: Seq<char>) -> Result<
    (int, int),
    Seq<char>,
> {
    match spec_lookup_unit(from) {
        None => Err(unknown_unit_message(from)),
        Some(f) => match spec_lookup_unit(to) {
            None => Err(unknown_unit_message(to)),
            Some(t) => if f.1 != t.1 {
                Err(mismatched_dimensions_message(from, to))
            } else {
                match spec_mul(v, f.2) {
                    None => Err(overflow_message()),
                    Some(base) => match spec_div(base, t.2) {
                        None => Err(overflow_message()),
                        Some(target) => Ok(target),
                    },
                }
            },
        },
    }
}

/// Converts `val` from `from_unit` to `to_unit`.
pub fn convert_unit(val: Num, from_unit: &str, to_unit: &str) -> (r: Result<Num, String>)
    ensures
        res_view(r) == spec_convert_unit(val@, from_unit@, to_unit@),
{
    let from_info = match lookup_unit(from_unit) {
        Some(i) => i,
        None => {
            let mut v: Vec<char> = Vec::new();
            append_str(&mut v, "Unknown unit: '");
            append_str(&mut v, from_unit);
            append_str(&mut v, "'");
            return Err(string_from_chars(&v));
        },
    };
    let to_info = match lookup_unit(to_unit) {
        Some(i) => i,
        None => {
            let mut v: Vec<char> = Vec::new();
            append_str(&mut v, "Unknown unit: '");
            append_str(&mut v, to_unit);
            append_str(&mut v, "'");
            return Err(string_from_chars(&v));
        },
    };
    if from_info.dimension != to_info.dimension {
        let mut v: Vec<char> = Vec::new();
        append_str(&mut v, "Cannot convert from '");
        append_str(&mut v, from_unit);
        append_str(&mut v, "' to '");
        append_str(&mut v, to_unit);
        append_str(&mut v, "' (mismatched dimensions)");
        return Err(string_from_chars(&v));
    }
    let base = match val.mul(&from_info.factor) {
        Some(b) => b,
        None => return Err(overflow_error()),
    };
    proof {
        lemma_factors();
    }
    assert(to_info.factor@.0 > 0);
    match base.div(&to_info.factor) {
        Some(t) => Ok(t),
        None => Err(overflow_error()),
    }
}

} // verus!
