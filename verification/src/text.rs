//! Character-level helpers: decimal digits, fixed-point rendering, trimming,
//! case mapping and conversions between `str`, `String` and `Vec<char>`.

use vstd::prelude::*;
use crate::num::abs;
use vstd::std_specs::iter::IteratorSpec;

verus! {

/// The decimal digit character for `d` in `0..10`.
pub open spec fn digit_char(d: int) -> char {
    if d == 0 {
        '0'
    } else if d == 1 {
        '1'
    } else if d == 2 {
        '2'
    } else if d == 3 {
        '3'
    } else if d == 4 {
        '4'
    } else if d == 5 {
        '5'
    } else if d == 6 {
        '6'
    } else if d == 7 {
        '7'
    } else if d == 8 {
        '8'
    } else {
        '9'
    }
}

/// The value of an ASCII decimal digit character.
pub open spec fn digit_value(c: char) -> int {
    c as int - '0' as int
}

pub open spec fn is_digit(c: char) -> bool {
    '0' <= c && c <= '9'
}

/// The decimal representation of `n`, without leading zeros.
pub open spec fn nat_digits(n: nat) -> Seq<char>
    decreases n,
{
    if n < 10 {
        seq![digit_char(n as int)]
    } else {
        nat_digits(n / 10).push(digit_char((n % 10) as int))
    }
}

/// The last `width` decimal digits of `n`, zero-padded.
pub open spec fn pad_digits(n: nat, width: nat) -> Seq<char>
    decreases width,
{
    if width == 0 {
        seq![]
    } else {
        pad_digits(n / 10, (width - 1) as nat).push(digit_char((n % 10) as int))
    }
}

pub open spec fn pow10(k: nat) -> nat
    decreases k,
{
    if k == 0 {
        1
    } else {
        10 * pow10((k - 1) as nat)
    }
}

/// `a / d` rounded to the nearest integer, ties to even.
pub open spec fn round_half_even(a: nat, d: nat) -> nat {
    let q = a / d;
    let r = a % d;
    if 2 * r > d || (2 * r == d && q % 2 == 1) {
        q + 1
    } else {
        q
    }
}

/// `v = (n, d)` rounded to `places` decimal places (ties to even) and written
/// with exactly `places` digits after the point; a negative value keeps its
/// `-` sign even when it rounds to zero.
pub open spec fn fixed_point(v: (int, int), places: nat) -> Seq<char> {
    let q = round_half_even(abs(v.0) * pow10(places), abs(v.1));
    let sign: Seq<char> = if v.0 < 0 {
        seq!['-']
    } else {
        seq![]
    };
    let frac: Seq<char> = if places == 0 {
        seq![]
    } else {
        seq!['.'] + pad_digits(q % pow10(places), places)
    };
    sign + nat_digits(q / pow10(places)) + frac
}

/// `s` with every trailing `c` removed.
pub open spec fn trim_end(s: Seq<char>, c: char) -> Seq<char>
    decreases s.len(),
{
    if s.len() > 0 && s.last() == c {
        trim_end(s.drop_last(), c)
    } else {
        s
    }
}

/// `v` rounded to `places` decimals with trailing zeros and a trailing point removed.
pub open spec fn trimmed_decimal(v: (int, int), places: nat) -> Seq<char> {
    trim_end(trim_end(fixed_point(v, places), '0'), '.')
}

/// `v` has at most 18 decimals: it is exact at 18 decimal places.
pub open spec fn exact_at_18(v: (int, int)) -> bool {
    (abs(v.0) * pow10(18)) % abs(v.1) == 0
}

/// `v` as a decimal: in full when it has at most 18 decimals, else rounded to
/// 16 decimals; trailing zeros and a trailing point removed.
pub open spec fn decimal_text(v: (int, int)) -> Seq<char> {
    if exact_at_18(v) {
        trimmed_decimal(v, 18)
    } else {
        trimmed_decimal(v, 16)
    }
}

/// The largest `e >= k` with `d * 10^e <= n`, from a `k` with `d * 10^k <= n`.
pub open spec fn exp_up(n: nat, d: nat, k: nat) -> nat
    decreases n - d * pow10(k) when d > 0 && d * pow10(k) <= n
{
    if d * pow10(k + 1) <= n {
        proof {
            lemma_pow10_step(d, k);
        }
        exp_up(n, d, k + 1)
    } else {
        k
    }
}

/// The smallest `e >= k` with `n * 10^e >= d`.
pub open spec fn exp_down(n: nat, d: nat, k: nat) -> nat
    decreases (if n * pow10(k) < d {
        d - n * pow10(k)
    } else {
        0
    }) when n > 0
{
    if n * pow10(k) < d {
        proof {
            lemma_pow10_step(n, k);
        }
        exp_down(n, d, k + 1)
    } else {
        k
    }
}

/// Significant digits written with a point after the first one, trailing
/// zeros (and a bare point) dropped.
pub open spec fn mantissa_text(ds: Seq<char>) -> Seq<char> {
    let rest = trim_end(ds.drop_first(), '0');
    if rest.len() == 0 {
        ds.take(1)
    } else {
        ds.take(1) + seq!['.'] + rest
    }
}

/// A number given by 17 significant digits `s` (`10^16 <= s <= 10^17`) and
/// its decimal exponent `e`, in the exponent form of `{:?}` on `f64`
/// (`1e16`, `1.5e-5`).
pub open spec fn exp_form(s: nat, e: int) -> Seq<char> {
    let s1: nat = if s >= pow10(17) {
        pow10(16)
    } else {
        s
    };
    let e1: int = if s >= pow10(17) {
        e + 1
    } else {
        e
    };
    let et: Seq<char> = if e1 < 0 {
        seq!['-'] + nat_digits((-e1) as nat)
    } else {
        nat_digits(e1 as nat)
    };
    mantissa_text(nat_digits(s1)) + seq!['e'] + et
}

/// `v` is shown in exponent form by `{:?}` on `f64`: it is not zero and its
/// size is at least `10^16` or below `10^-4`.
pub open spec fn needs_exp_form(v: (int, int)) -> bool {
    v.0 != 0 && (abs(v.0) >= abs(v.1) * pow10(16) || abs(v.0) * pow10(4) < abs(v.1))
}

/// `v` in exponent form, rounded to 17 significant digits.
pub open spec fn sci_text(v: (int, int)) -> Seq<char> {
    let n = abs(v.0);
    let d = abs(v.1);
    let sign: Seq<char> = if v.0 < 0 {
        seq!['-']
    } else {
        seq![]
    };
    if n >= d * pow10(16) {
        let e = exp_up(n, d, 16);
        sign + exp_form(round_half_even(n, d * pow10((e - 16) as nat)), e as int)
    } else {
        let k = exp_down(n, d, 0);
        sign + exp_form(round_half_even(n * pow10(k + 16), d), -(k as int))
    }
}

/// `v`, known to be an integer, in decimal.
pub open spec fn integral_digits(v: (int, int)) -> Seq<char> {
    let sign: Seq<char> = if v.0 < 0 {
        seq!['-']
    } else {
        seq![]
    };
    sign + nat_digits(abs(v.0) / abs(v.1))
}

/// `v` is a whole number.
pub open spec fn is_integral(v: (int, int)) -> bool {
    abs(v.0) % abs(v.1) == 0
}

/// A plain number as the calculator shows it: whole numbers without a
/// fractional part, others rounded to four decimals with trailing zeros
/// dropped.
pub open spec fn display_number(v: (int, int)) -> Seq<char> {
    if is_integral(v) {
        integral_digits(v)
    } else {
        trimmed_decimal(v, 4)
    }
}

/// The characters with the Unicode `White_Space` property.
pub open spec fn is_white_space(c: char) -> bool {
    ||| '\u{9}' <= c && c <= '\u{d}'
    ||| c == ' '
    ||| c == '\u{85}'
    ||| c == '\u{a0}'
    ||| c == '\u{1680}'
    ||| '\u{2000}' <= c && c <= '\u{200a}'
    ||| c == '\u{2028}'
    ||| c == '\u{2029}'
    ||| c == '\u{202f}'
    ||| c == '\u{205f}'
    ||| c == '\u{3000}'
}

/// `s` without leading white space.
pub open spec fn trim_start_ws(s: Seq<char>) -> Seq<char>
    decreases s.len(),
{
    if s.len() > 0 && is_white_space(s[0]) {
        trim_start_ws(s.drop_first())
    } else {
        s
    }
}

/// `s` without trailing white space.
pub open spec fn trim_end_ws(s: Seq<char>) -> Seq<char>
    decreases s.len(),
{
    if s.len() > 0 && is_white_space(s.last()) {
        trim_end_ws(s.drop_last())
    } else {
        s
    }
}

/// `s` without leading and trailing white space.
pub open spec fn trim_ws(s: Seq<char>) -> Seq<char> {
    trim_end_ws(trim_start_ws(s))
}

/// `s` consists of white space only (or is empty).
pub open spec fn all_white_space(s: Seq<char>) -> bool {
    forall|i: int| 0 <= i < s.len() ==> #[trigger] is_white_space(s[i])
}

/// `c` is an ASCII character.
pub open spec fn is_ascii_char(c: char) -> bool {
    (c as u32) < 128
}

/// Every character of `s` is ASCII.
pub open spec fn all_ascii(s: Seq<char>) -> bool {
    forall|i: int| 0 <= i < s.len() ==> #[trigger] is_ascii_char(s[i])
}

/// `c` with an ASCII capital letter turned into its small letter.
pub open spec fn ascii_lower_char(c: char) -> char {
    if 'A' <= c && c <= 'Z' {
        ((c as u32) + 32) as char
    } else {
        c
    }
}

/// `c` with an ASCII small letter turned into its capital letter.
pub open spec fn ascii_upper_char(c: char) -> char {
    if 'a' <= c && c <= 'z' {
        ((c as u32) - 32) as char
    } else {
        c
    }
}

/// `s` with its ASCII letters in lower case.
pub open spec fn ascii_lower(s: Seq<char>) -> Seq<char> {
    s.map_values(|c: char| ascii_lower_char(c))
}

/// `s` with its ASCII letters in upper case.
pub open spec fn ascii_upper(s: Seq<char>) -> Seq<char> {
    s.map_values(|c: char| ascii_upper_char(c))
}

/// What `str::to_lowercase` returns for a string.
pub uninterp spec fn lowercase(s: Seq<char>) -> Seq<char>;

/// What `str::to_uppercase` returns for a string.
pub uninterp spec fn uppercase(s: Seq<char>) -> Seq<char>;

/// The lower-case form of `s` as `str::to_lowercase` gives it: spelled out
/// for ASCII text, named for other text.
pub open spec fn lower_text(s: Seq<char>) -> Seq<char> {
    if all_ascii(s) {
        ascii_lower(s)
    } else {
        lowercase(s)
    }
}

/// The upper-case form of `s` as `str::to_uppercase` gives it: spelled out
/// for ASCII text, named for other text.
pub open spec fn upper_text(s: Seq<char>) -> Seq<char> {
    if all_ascii(s) {
        ascii_upper(s)
    } else {
        uppercase(s)
    }
}

/// Calls `str::to_lowercase` (full Unicode lower-case mapping); its result is
/// named here, and on ASCII text it maps `A`-`Z` to `a`-`z` and keeps every
/// other character, as the Unicode lower-case mapping does.
#[verifier::external_body]
pub(crate) fn to_lowercase(s: &str) -> (r: String)
    ensures
        r@ == lowercase(s@),
        r@ == lower_text(s@),
{
    s.to_lowercase()
}

/// Calls `str::to_uppercase` (full Unicode upper-case mapping); its result is
/// named here, and on ASCII text it maps `a`-`z` to `A`-`Z` and keeps every
/// other character, as the Unicode upper-case mapping does.
#[verifier::external_body]
pub(crate) fn to_uppercase(s: &str) -> (r: String)
    ensures
        r@ == uppercase(s@),
        r@ == upper_text(s@),
{
    s.to_uppercase()
}

/// Calls `String::push`, which appends one character to the string.
#[verifier::external_body]
fn push_char(s: &mut String, c: char)
    ensures
        final(s)@ == old(s)@.push(c),
{
    s.push(c);
}

/// The `String` holding exactly the characters of `v`, in order.
pub fn string_from_chars(v: &Vec<char>) -> (r: String)
    ensures
        r@ == v@,
{
    let mut s = String::new();
    let mut i: usize = 0;
    while i < v.len()
        invariant
            i <= v.len(),
            s@ == v@.take(i as int),
        decreases v.len() - i,
    {
        push_char(&mut s, v[i]);
        i += 1;
        assert(v@.take(i as int) =~= v@.take(i - 1).push(v@[i - 1]));
    }
    assert(v@.take(v.len() as int) =~= v@);
    s
}

/// The characters of `s`, in order, read with `str::chars`.
pub fn chars_of(s: &str) -> (r: Vec<char>)
    ensures
        r@ == s@,
{
    broadcast use vstd::string::axiom_spec_iter, vstd::string::next_postcondition;
    let mut v: Vec<char> = Vec::new();
    let mut it = s.chars();
    loop
        invariant
            v@ + it.remaining() == s@,
        ensures
            v@ == s@,
        decreases s@.len() - v@.len(),
    {
        match it.next() {
            Some(c) => {
                v.push(c);
            },
            None => {
                assert(v@ + it.remaining() == v@);
                break;
            },
        }
    }
    v
}

pub fn is_white_space_char(c: char) -> (r: bool)
    ensures
        r == is_white_space(c),
{
    ('\u{9}' <= c && c <= '\u{d}') || c == ' ' || c == '\u{85}' || c == '\u{a0}' || c == '\u{1680}'
        || ('\u{2000}' <= c && c <= '\u{200a}') || c == '\u{2028}' || c == '\u{2029}' || c
        == '\u{202f}' || c == '\u{205f}' || c == '\u{3000}'
}

/// Whether `s` holds nothing but white space.
pub fn is_blank(s: &str) -> (r: bool)
    ensures
        r == all_white_space(s@),
{
    let v = chars_of(s);
    let mut i: usize = 0;
    while i < v.len()
        invariant
            v@ == s@,
            i <= v.len(),
            forall|j: int| 0 <= j < i ==> #[trigger] is_white_space(v@[j]),
        decreases v.len() - i,
    {
        if !is_white_space_char(v[i]) {
            return false;
        }
        i = i + 1;
    }
    true
}

pub proof fn lemma_trim_ws_empty(s: Seq<char>)
    ensures
        trim_start_ws(s).len() == 0 <==> all_white_space(s),
    decreases s.len(),
{
    if s.len() > 0 {
        if is_white_space(s[0]) {
            lemma_trim_ws_empty(s.drop_first());
            if all_white_space(s.drop_first()) {
                assert forall|i: int| 0 <= i < s.len() implies #[trigger] is_white_space(s[i]) by {
                    if i > 0 {
                        assert(s[i] == s.drop_first()[i - 1]);
                    }
                }
            }
            if all_white_space(s) {
                assert forall|i: int| 0 <= i < s.drop_first().len() implies #[trigger] is_white_space(
                    s.drop_first()[i],
                ) by {
                    assert(s.drop_first()[i] == s[i + 1]);
                }
            }
        } else {
            assert(!is_white_space(s[0]));
        }
    }
}

/// `s` without leading and trailing white space (as `str::trim`).
pub fn trim(s: &str) -> (r: Vec<char>)
    ensures
        r@ == trim_ws(s@),
{
    let v = chars_of(s);
    let mut start: usize = 0;
    assert(v@.subrange(0, v.len() as int) =~= v@);
    while start < v.len() && is_white_space_char(v[start])
        invariant
            v@ == s@,
            start <= v.len(),
            trim_start_ws(s@) == trim_start_ws(v@.subrange(start as int, v.len() as int)),
        decreases v.len() - start,
    {
        assert(v@.subrange(start as int, v.len() as int).drop_first() =~= v@.subrange(
            start + 1,
            v.len() as int,
        ));
        start = start + 1;
    }
    assert(trim_start_ws(v@.subrange(start as int, v.len() as int)) == v@.subrange(
        start as int,
        v.len() as int,
    ));
    let mut end: usize = v.len();
    while end > start && is_white_space_char(v[end - 1])
        invariant
            v@ == s@,
            start <= end <= v.len(),
            trim_ws(s@) == trim_end_ws(v@.subrange(start as int, end as int)),
        decreases end,
    {
        assert(v@.subrange(start as int, end as int).drop_last() =~= v@.subrange(
            start as int,
            end - 1,
        ));
        end = end - 1;
    }
    let mut out: Vec<char> = Vec::new();
    let mut i: usize = start;
    while i < end
        invariant
            start <= i <= end <= v.len(),
            out@ == v@.subrange(start as int, i as int),
        decreases end - i,
    {
        out.push(v[i]);
        i = i + 1;
        assert(out@ =~= v@.subrange(start as int, i as int));
    }
    out
}

pub fn digit_char_of(d: u128) -> (c: char)
    requires
        d < 10,
    ensures
        c == digit_char(d as int),
{
    if d == 0 {
        '0'
    } else if d == 1 {
        '1'
    } else if d == 2 {
        '2'
    } else if d == 3 {
        '3'
    } else if d == 4 {
        '4'
    } else if d == 5 {
        '5'
    } else if d == 6 {
        '6'
    } else if d == 7 {
        '7'
    } else if d == 8 {
        '8'
    } else {
        '9'
    }
}

/// Appends the decimal digits of `n`.
pub fn push_nat_digits(out: &mut Vec<char>, n: u128)
    ensures
        final(out)@ == old(out)@ + nat_digits(n as nat),
    decreases n,
{
    if n < 10 {
        out.push(digit_char_of(n));
        assert(old(out)@ + nat_digits(n as nat) =~= old(out)@.push(digit_char(n as int)));
    } else {
        push_nat_digits(out, n / 10);
        out.push(digit_char_of(n % 10));
        assert(old(out)@ + nat_digits(n as nat) =~= old(out)@ + nat_digits((n / 10) as nat) + seq![
            digit_char((n % 10) as int),
        ]);
    }
}

/// Appends the last `width` decimal digits of `n`, zero-padded.
pub fn push_pad_digits(out: &mut Vec<char>, n: u128, width: u32)
    ensures
        final(out)@ == old(out)@ + pad_digits(n as nat, width as nat),
    decreases width,
{
    if width == 0 {
        assert(old(out)@ + pad_digits(n as nat, 0) =~= old(out)@);
    } else {
        push_pad_digits(out, n / 10, width - 1);
        out.push(digit_char_of(n % 10));
        assert(old(out)@ + pad_digits(n as nat, width as nat) =~= old(out)@ + pad_digits(
            (n / 10) as nat,
            (width - 1) as nat,
        ) + seq![digit_char((n % 10) as int)]);
    }
}

/// Removes every trailing `c`.
pub fn pop_trailing(v: &mut Vec<char>, c: char)
    ensures
        final(v)@ == trim_end(old(v)@, c),
{
    while v.len() > 0 && v[v.len() - 1] == c
        invariant
            trim_end(v@, c) == trim_end(old(v)@, c),
        decreases v.len(),
    {
        v.pop();
    }
}

proof fn lemma_scaled_bound(an: nat, p: nat)
    requires
        an <= 0x8000_0000_0000_0000,
        p <= 1_000_000_000_000_000_000,
    ensures
        an * p <= 0x8000_0000_0000_0000 * 1_000_000_000_000_000_000,
{
    assert(an * p <= 0x8000_0000_0000_0000 * 1_000_000_000_000_000_000) by (nonlinear_arith)
        requires
            an <= 0x8000_0000_0000_0000,
            p <= 1_000_000_000_000_000_000,
    ;
}

pub fn abs_u128(n: i64) -> (r: u128)
    ensures
        r == abs(n as int),
        r <= 0x8000_0000_0000_0000,
{
    if n < 0 {
        (-(n as i128)) as u128
    } else {
        n as u128
    }
}

/// Appends `n / d` rounded to `places` decimals (see `fixed_point`).
pub fn push_fixed_point(out: &mut Vec<char>, n: i64, d: i64, places: u32)
    requires
        d >= 1,
        places <= 18,
    ensures
        final(out)@ == old(out)@ + fixed_point((n as int, d as int), places as nat),
{
    let an = abs_u128(n);
    let ad = d as u128;
    let p = pow10_u128(places);
    proof {
        lemma_scaled_bound(an as nat, p as nat);
    }
    let a = an * p;
    let q0 = a / ad;
    let r = a % ad;
    let q = if 2 * r > ad || (2 * r == ad && q0 % 2 == 1) {
        q0 + 1
    } else {
        q0
    };
    assert(q == round_half_even(abs(n as int) * pow10(places as nat), abs(d as int)));
    let ghost start = out@;
    if n < 0 {
        out.push('-');
    }
    push_nat_digits(out, q / p);
    if places > 0 {
        out.push('.');
        push_pad_digits(out, q % p, places);
    }
    proof {
        let sign: Seq<char> = if n < 0 {
            seq!['-']
        } else {
            seq![]
        };
        let frac: Seq<char> = if places == 0 {
            seq![]
        } else {
            seq!['.'] + pad_digits((q % p) as nat, places as nat)
        };
        assert(out@ =~= start + (sign + nat_digits((q / p) as nat) + frac));
    }
}

/// Whether `n / d` is a whole number.
pub fn is_integral_exec(n: i64, d: i64) -> (r: bool)
    requires
        d >= 1,
    ensures
        r == is_integral((n as int, d as int)),
{
    abs_u128(n) % (d as u128) == 0
}

/// Appends a plain number as the calculator shows it (see `display_number`).
pub fn push_number(out: &mut Vec<char>, n: i64, d: i64)
    requires
        d >= 1,
    ensures
        final(out)@ == old(out)@ + display_number((n as int, d as int)),
{
    let an = abs_u128(n);
    let ad = d as u128;
    if an % ad == 0 {
        let ghost start = out@;
        if n < 0 {
            out.push('-');
        }
        push_nat_digits(out, an / ad);
        proof {
            let sign: Seq<char> = if n < 0 {
                seq!['-']
            } else {
                seq![]
            };
            assert(out@ =~= start + (sign + nat_digits((an / ad) as nat)));
        }
    } else {
        let mut tmp: Vec<char> = Vec::new();
        push_fixed_point(&mut tmp, n, d, 4);
        pop_trailing(&mut tmp, '0');
        pop_trailing(&mut tmp, '.');
        assert(tmp@ == trimmed_decimal((n as int, d as int), 4));
        append_chars(out, &tmp);
    }
}

/// Appends `n / d` as a decimal (see `decimal_text`).
pub fn push_decimal_text(out: &mut Vec<char>, n: i64, d: i64)
    requires
        d >= 1,
    ensures
        final(out)@ == old(out)@ + decimal_text((n as int, d as int)),
{
    let an = abs_u128(n);
    let p = pow10_u128(18);
    proof {
        lemma_scaled_bound(an as nat, p as nat);
    }
    let exact = (an * p) % (d as u128) == 0;
    let places: u32 = if exact { 18 } else { 16 };
    let mut tmp: Vec<char> = Vec::new();
    push_fixed_point(&mut tmp, n, d, places);
    pop_trailing(&mut tmp, '0');
    pop_trailing(&mut tmp, '.');
    assert(tmp@ == decimal_text((n as int, d as int)));
    append_chars(out, &tmp);
}

/// Appends every character of `src`.
pub fn append_chars(out: &mut Vec<char>, src: &Vec<char>)
    ensures
        final(out)@ == old(out)@ + src@,
{
    let mut i: usize = 0;
    while i < src.len()
        invariant
            i <= src.len(),
            out@ == old(out)@ + src@.subrange(0, i as int),
        decreases src.len() - i,
    {
        out.push(src[i]);
        i = i + 1;
        assert(out@ =~= old(out)@ + src@.subrange(0, i as int));
    }
    assert(src@.subrange(0, src.len() as int) =~= src@);
}

/// Whether `a` spells exactly `s`.
pub fn chars_eq_str(a: &Vec<char>, s: &str) -> (r: bool)
    ensures
        r == (a@ == s@),
{
    let b = chars_of(s);
    chars_eq(a, &b)
}

/// Whether the two character sequences are equal.
pub fn chars_eq(a: &Vec<char>, b: &Vec<char>) -> (r: bool)
    ensures
        r == (a@ == b@),
{
    if a.len() != b.len() {
        return false;
    }
    let mut i: usize = 0;
    while i < a.len()
        invariant
            a.len() == b.len(),
            i <= a.len(),
            forall|j: int| 0 <= j < i ==> a@[j] == b@[j],
        decreases a.len() - i,
    {
        if a[i] != b[i] {
            return false;
        }
        i = i + 1;
    }
    assert(a@ =~= b@);
    true
}

/// Whether the two strings are equal.
pub fn str_eq(a: &str, b: &str) -> (r: bool)
    ensures
        r == (a@ == b@),
{
    let x = chars_of(a);
    let y = chars_of(b);
    chars_eq(&x, &y)
}

/// The characters `s[i..j]` as a `String`.
pub fn substring(s: &Vec<char>, i: usize, j: usize) -> (r: String)
    requires
        i <= j <= s@.len(),
    ensures
        r@ == s@.subrange(i as int, j as int),
{
    let mut out: Vec<char> = Vec::new();
    let mut k = i;
    while k < j
        invariant
            i <= k <= j <= s@.len(),
            out@ == s@.subrange(i as int, k as int),
        decreases j - k,
    {
        out.push(s[k]);
        k = k + 1;
        assert(out@ =~= s@.subrange(i as int, k as int));
    }
    string_from_chars(&out)
}

/// Appends every character of `s`.
pub fn append_str(out: &mut Vec<char>, s: &str)
    ensures
        final(out)@ == old(out)@ + s@,
{
    let v = chars_of(s);
    append_chars(out, &v);
}

pub fn pow10_u128(k: u32) -> (r: u128)
    requires
        k <= 18,
    ensures
        r == pow10(k as nat),
        1 <= r <= 1_000_000_000_000_000_000,
    decreases k,
{
    proof {
        lemma_pow10_mono(k as nat, k as nat);
    }
    if k == 0 {
        1
    } else {
        let p = pow10_u128(k - 1);
        proof {
            if k >= 1 {
                assert(pow10((k - 1) as nat) <= pow10(17)) by {
                    lemma_pow10_mono((k - 1) as nat, 17);
                }
                reveal_with_fuel(pow10, 18);
                assert(pow10(17) == 100_000_000_000_000_000);
            }
        }
        10 * p
    }
}

proof fn lemma_pow10_mono(a: nat, b: nat)
    requires
        a <= b,
    ensures
        pow10(a) <= pow10(b),
        pow10(a) >= 1,
    decreases b,
{
    if b > 0 {
        if a < b {
            lemma_pow10_mono(a, (b - 1) as nat);
        }
        lemma_pow10_mono((b - 1) as nat, (b - 1) as nat);
    }
}

pub proof fn lemma_pow10_step(d: nat, k: nat)
    ensures
        pow10(k + 1) == 10 * pow10(k),
        d > 0 ==> d * pow10(k + 1) > d * pow10(k),
        d * pow10(k + 1) == 10 * (d * pow10(k)),
{
    lemma_pow10_mono(k, k);
    assert(pow10(k + 1) == 10 * pow10(k));
    let p = pow10(k);
    assert(d * (10 * p) == 10 * (d * p)) by (nonlinear_arith);
    assert(d > 0 ==> d * (10 * p) > d * p) by (nonlinear_arith)
        requires
            p >= 1,
    ;
}

proof fn lemma_pow10_add(a: nat, b: nat)
    ensures
        pow10(a + b) == pow10(a) * pow10(b),
    decreases b,
{
    if b == 0 {
        assert(pow10(0) == 1);
        assert(a + b == a);
    } else {
        lemma_pow10_add(a, (b - 1) as nat);
        let c = (a + b - 1) as nat;
        assert(c == a + (b - 1) as nat);
        assert(pow10(c + 1) == 10 * pow10(c));
        assert(c + 1 == a + b);
        assert(pow10(b) == 10 * pow10((b - 1) as nat));
        let x = pow10(a);
        let y = pow10((b - 1) as nat);
        assert(pow10(c) == x * y);
        assert(10 * (x * y) == x * (10 * y)) by (nonlinear_arith);
    }
}

/// Appends the significant digits `s` as `mantissa_text` writes them.
fn push_mantissa(out: &mut Vec<char>, s: u128)
    ensures
        final(out)@ == old(out)@ + mantissa_text(nat_digits(s as nat)),
{
    let mut ds: Vec<char> = Vec::new();
    push_nat_digits(&mut ds, s);
    assert(ds@ == nat_digits(s as nat));
    assert(ds@.len() >= 1);
    let mut rest: Vec<char> = Vec::new();
    let mut i: usize = 1;
    while i < ds.len()
        invariant
            1 <= i <= ds@.len(),
            rest@ == ds@.subrange(1, i as int),
        decreases ds.len() - i,
    {
        rest.push(ds[i]);
        i = i + 1;
        assert(rest@ =~= ds@.subrange(1, i as int));
    }
    assert(rest@ =~= ds@.drop_first());
    pop_trailing(&mut rest, '0');
    let ghost start = out@;
    out.push(ds[0]);
    assert(ds@.take(1) =~= seq![ds@[0]]);
    if rest.len() > 0 {
        out.push('.');
        append_chars(out, &rest);
    }
    assert(out@ =~= start + mantissa_text(ds@));
}

/// Appends `s` and `e` as `exp_form` writes them.
fn push_exp_form(out: &mut Vec<char>, s: u128, e: i128)
    requires
        -0x1_0000_0000_0000_0000 <= e <= 0x1_0000_0000_0000_0000,
    ensures
        final(out)@ == old(out)@ + exp_form(s as nat, e as int),
{
    let p17 = pow10_u128(17);
    let p16 = pow10_u128(16);
    let (s1, e1) = if s >= p17 {
        (p16, e + 1)
    } else {
        (s, e)
    };
    let ghost start = out@;
    push_mantissa(out, s1);
    out.push('e');
    if e1 < 0 {
        out.push('-');
        push_nat_digits(out, (-e1) as u128);
    } else {
        push_nat_digits(out, e1 as u128);
    }
    assert(out@ =~= start + exp_form(s as nat, e as int));
}

/// `a / d` rounded to the nearest integer, ties to even.
pub fn round_half_even_exec(a: u128, d: u128) -> (r: u128)
    requires
        1 <= d <= 0x4000_0000_0000_0000_0000_0000_0000_0000,
        a <= 0x8000_0000_0000_0000_0000_0000_0000_0000,
    ensures
        r == round_half_even(a as nat, d as nat),
{
    let q = a / d;
    let r = a % d;
    if 2 * r > d || (2 * r == d && q % 2 == 1) {
        q + 1
    } else {
        q
    }
}

/// Appends `n / d` in exponent form (see `sci_text`).
pub fn push_sci(out: &mut Vec<char>, n: i64, d: i64)
    requires
        d >= 1,
        needs_exp_form((n as int, d as int)),
    ensures
        final(out)@ == old(out)@ + sci_text((n as int, d as int)),
{
    let an = abs_u128(n);
    let ad = d as u128;
    let p16 = pow10_u128(16);
    proof {
        lemma_scaled_bound(ad as nat, p16 as nat);
    }
    proof {
        assert(pow10(16) == 10000000000000000) by {
            reveal_with_fuel(pow10, 17);
        }
    }
    let ghost start = out@;
    if n < 0 {
        out.push('-');
    }
    if an >= ad * p16 {
        let mut e: u64 = 16;
        let mut q: u128 = ad;
        let mut pe: u128 = ad * p16;
        proof {
            assert(pow10(0) == 1);
            assert(ad * pow10(0) == ad);
            assert(ad <= ad * p16 && p16 <= ad * p16) by (nonlinear_arith)
                requires
                    p16 >= 1,
                    ad >= 1,
            ;
        }
        while pe * 10 <= an
            invariant
                16 <= e <= pe,
                pe == ad * pow10(e as nat),
                q == ad * pow10((e - 16) as nat),
                1 <= q <= pe,
                pe <= an,
                an <= 0x8000_0000_0000_0000,
                ad >= 1,
                ad * pow10(16) <= an,
                exp_up(an as nat, ad as nat, e as nat) == exp_up(an as nat, ad as nat, 16),
            decreases an - pe,
        {
            proof {
                lemma_pow10_step(ad as nat, e as nat);
                lemma_pow10_step(ad as nat, (e - 16) as nat);
                assert((e + 1 - 16) as nat == (e - 16) as nat + 1);
            }
            pe = pe * 10;
            q = q * 10;
            e = e + 1;
        }
        proof {
            lemma_pow10_step(ad as nat, e as nat);
        }
        let s = round_half_even_exec(an, q);
        push_exp_form(out, s, e as i128);
    } else {
        let mut k: u64 = 0;
        let mut q: u128 = an;
        proof {
            assert(pow10(0) == 1);
            assert(an >= 1);
        }
        while q < ad
            invariant
                q == an * pow10(k as nat),
                q >= 1,
                an >= 1,
                ad <= 0x8000_0000_0000_0000,
                k <= q,
                k > 0 ==> q < 10 * ad,
                exp_down(an as nat, ad as nat, k as nat) == exp_down(an as nat, ad as nat, 0),
            decreases (if q < ad {
                ad - q
            } else {
                0
            }),
        {
            proof {
                lemma_pow10_step(an as nat, k as nat);
            }
            q = q * 10;
            k = k + 1;
        }
        proof {
            assert(an * pow10(4) < ad);
            assert(k > 0) by {
                if k == 0 {
                    lemma_pow10_mono(0, 4);
                    assert(an * pow10(4) >= an) by (nonlinear_arith)
                        requires
                            pow10(4) >= 1,
                    ;
                }
            }
            lemma_pow10_add(k as nat, 16);
            assert(q * p16 == an * pow10((k + 16) as nat)) by (nonlinear_arith)
                requires
                    q == an * pow10(k as nat),
                    p16 == pow10(16),
                    pow10((k + 16) as nat) == pow10(k as nat) * pow10(16),
            ;
            assert(q * p16 <= 10 * 0x8000_0000_0000_0000 * 10_000_000_000_000_000) by (nonlinear_arith)
                requires
                    q < 10 * ad,
                    ad <= 0x8000_0000_0000_0000,
                    p16 == 10_000_000_000_000_000,
            ;
        }
        let s = round_half_even_exec(q * p16, ad);
        push_exp_form(out, s, -(k as i128));
    }
    assert(out@ =~= start + sci_text((n as int, d as int)));
}

/// Whether `n / d` is shown in exponent form (see `needs_exp_form`).
pub fn needs_exp_form_exec(n: i64, d: i64) -> (r: bool)
    requires
        d >= 1,
    ensures
        r == needs_exp_form((n as int, d as int)),
{
    let an = abs_u128(n);
    let ad = d as u128;
    let p16 = pow10_u128(16);
    let p4 = pow10_u128(4);
    proof {
        lemma_scaled_bound(ad as nat, p16 as nat);
        lemma_scaled_bound(an as nat, p4 as nat);
    }
    n != 0 && (an >= ad * p16 || an * p4 < ad)
}

/// `10^k` for `k` up to 38.
pub fn pow10_u128_wide(k: u32) -> (r: u128)
    requires
        k <= 38,
    ensures
        r == pow10(k as nat),
        1 <= r <= 100_000_000_000_000_000_000_000_000_000_000_000_000,
        k <= 37 ==> r <= 10_000_000_000_000_000_000_000_000_000_000_000_000,
    decreases k,
{
    proof {
        lemma_pow10_mono(k as nat, 38);
        if k <= 37 {
            lemma_pow10_mono(k as nat, 37);
            assert(pow10(37) == 10_000_000_000_000_000_000_000_000_000_000_000_000) by {
                reveal_with_fuel(pow10, 38);
            }
        }
        assert(pow10(38) == 100_000_000_000_000_000_000_000_000_000_000_000_000) by {
            reveal_with_fuel(pow10, 39);
        }
    }
    if k == 0 {
        1
    } else {
        let p = pow10_u128_wide(k - 1);
        proof {
            lemma_pow10_step(0, (k - 1) as nat);
        }
        10 * p
    }
}

/// A number below `10^37` rounds to zero at a scale of `10^k` with `k > 37`.
pub proof fn lemma_round_small(m: nat, k: nat)
    requires
        m < 10_000_000_000_000_000_000_000_000_000_000_000_000,
        k > 37,
    ensures
        round_half_even(m, pow10(k)) == 0,
{
    lemma_pow10_mono(38, k);
    assert(pow10(38) == 100_000_000_000_000_000_000_000_000_000_000_000_000) by {
        reveal_with_fuel(pow10, 39);
    }
    let d = pow10(k);
    assert(m / d == 0) by (nonlinear_arith)
        requires
            m < d,
            d > 0,
    ;
    assert(m % d == m) by (nonlinear_arith)
        requires
            m < d,
            d > 0,
    ;
}

} // verus!
