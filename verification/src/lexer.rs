//! Lexical pieces of the line grammar: white space, identifiers, numeric
//! literals, keywords and the character classes of prose.

use vstd::prelude::*;
use crate::num::{Num, reduce, lemma_reduce_fits};
use crate::text::{is_digit, digit_value, pow10, is_ascii_char, round_half_even};

verus! {

/// Blanks that may separate the tokens of a line.
pub open spec fn is_blank_char(c: char) -> bool {
    c == ' ' || c == '\t'
}

pub open spec fn is_ascii_alpha(c: char) -> bool {
    ('a' <= c && c <= 'z') || ('A' <= c && c <= 'Z')
}

pub open spec fn is_ascii_upper(c: char) -> bool {
    'A' <= c && c <= 'Z'
}

/// Characters that may continue an identifier.
pub open spec fn is_ident_char(c: char) -> bool {
    is_ascii_alpha(c) || is_digit(c) || c == '_'
}

/// The position after the blanks that start at `i`.
pub open spec fn skip_ws(s: Seq<char>, i: int) -> int
    decreases s.len() - i,
{
    if 0 <= i < s.len() && is_blank_char(s[i]) {
        skip_ws(s, i + 1)
    } else {
        i
    }
}

/// The end of the longest run of identifier characters starting at `i`.
pub open spec fn scan_ident(s: Seq<char>, i: int) -> int
    decreases s.len() - i,
{
    if 0 <= i < s.len() && is_ident_char(s[i]) {
        scan_ident(s, i + 1)
    } else {
        i
    }
}

/// The end of the identifier (a letter, then letters, digits or `_`) at `i`.
pub open spec fn ident_end(s: Seq<char>, i: int) -> Option<int> {
    if 0 <= i < s.len() && is_ascii_alpha(s[i]) {
        Some(scan_ident(s, i + 1))
    } else {
        None
    }
}

/// The end of the longest run of decimal digits starting at `i`.
pub open spec fn scan_digits(s: Seq<char>, i: int) -> int
    decreases s.len() - i,
{
    if 0 <= i < s.len() && is_digit(s[i]) {
        scan_digits(s, i + 1)
    } else {
        i
    }
}

/// `i` starts a digit.
pub open spec fn digit_at(s: Seq<char>, i: int) -> bool {
    0 <= i < s.len() && is_digit(s[i])
}

/// After digits ending at `j`: groups of `,` followed by digits.
pub open spec fn scan_groups(s: Seq<char>, j: int) -> int
    decreases s.len() - j,
{
    if 0 <= j < s.len() && s[j] == ',' && digit_at(s, j + 1) {
        proof {
            lemma_scan_digits(s, j + 1);
        }
        scan_groups(s, scan_digits(s, j + 1))
    } else {
        j
    }
}

/// The end of the numeric literal at `i`: digits, optional `,`-separated
/// digit groups, optional `.` and fractional digits.
pub open spec fn number_end(s: Seq<char>, i: int) -> Option<int> {
    if digit_at(s, i) {
        let j = scan_groups(s, scan_digits(s, i));
        if 0 <= j < s.len() && s[j] == '.' && digit_at(s, j + 1) {
            Some(scan_digits(s, j + 1))
        } else {
            Some(j)
        }
    } else {
        None
    }
}

/// The digits of a literal read as one integer, separators and point ignored.
pub open spec fn mantissa(t: Seq<char>) -> int
    decreases t.len(),
{
    if t.len() == 0 {
        0
    } else if is_digit(t.last()) {
        10 * mantissa(t.drop_last()) + digit_value(t.last())
    } else {
        mantissa(t.drop_last())
    }
}

/// Whether a literal contains a point.
pub open spec fn has_point(t: Seq<char>) -> bool
    decreases t.len(),
{
    t.len() > 0 && (t.last() == '.' || has_point(t.drop_last()))
}

/// The number of characters after the last point.
pub open spec fn after_point(t: Seq<char>) -> nat
    decreases t.len(),
{
    if t.len() == 0 || t.last() == '.' {
        0
    } else {
        after_point(t.drop_last()) + 1
    }
}

/// How many digits follow the point of a literal.
pub open spec fn fraction_len(t: Seq<char>) -> nat {
    if has_point(t) {
        after_point(t)
    } else {
        0
    }
}

/// The value of a literal: exact when at most 18 digits follow the point and
/// its digits form an integer up to `i64::MAX`; with more decimals, rounded to
/// 18 decimals (ties to even) when its digits form an integer below `10^37`
/// and the rounded value fits.
pub open spec fn literal_value(t: Seq<char>) -> Option<(int, int)> {
    let m = mantissa(t);
    let k = fraction_len(t);
    if k <= 18 {
        if m <= i64::MAX {
            reduce(m, pow10(k) as int)
        } else {
            None
        }
    } else if 0 <= m < 10_000_000_000_000_000_000_000_000_000_000_000_000 {
        let q = round_half_even(m as nat, pow10((k - 18) as nat));
        if q <= i64::MAX {
            reduce(q as int, pow10(18) as int)
        } else {
            None
        }
    } else {
        None
    }
}

/// The word `w` stands at `i` and is not followed by an identifier character.
pub open spec fn keyword_at(s: Seq<char>, i: int, w: Seq<char>) -> bool {
    &&& 0 <= i
    &&& i + w.len() <= s.len()
    &&& s.subrange(i, i + w.len()) == w
    &&& (i + w.len() == s.len() || !is_ident_char(s[i + w.len()]))
}

/// Three capital letters forming a whole word: a currency code.
pub open spec fn currency_code_at(s: Seq<char>, i: int) -> bool {
    &&& 0 <= i
    &&& i + 3 <= s.len()
    &&& is_ascii_upper(s[i])
    &&& is_ascii_upper(s[i + 1])
    &&& is_ascii_upper(s[i + 2])
    &&& (i + 3 == s.len() || !is_ident_char(s[i + 3]))
}

/// The ASCII characters of the Unicode general category `Punctuation`.
pub open spec fn ascii_punctuation(c: char) -> bool {
    c == '!' || c == '"' || c == '#' || c == '%' || c == '&' || c == '\'' || c == '('
        || c == ')' || c == '*' || c == ',' || c == '-' || c == '.' || c == '/' || c == ':'
        || c == ';' || c == '?' || c == '@' || c == '[' || c == '\\' || c == ']' || c == '_'
        || c == '{' || c == '}'
}

/// The ASCII characters of the Unicode general category `Symbol`.
pub open spec fn ascii_symbol(c: char) -> bool {
    c == '$' || c == '+' || c == '<' || c == '=' || c == '>' || c == '^' || c == '`' || c == '|'
        || c == '~'
}

/// What `pest::unicode::ALPHABETIC` returns for a character.
pub uninterp spec fn alphabetic(c: char) -> bool;

/// What `pest::unicode::PUNCTUATION` returns for a character.
pub uninterp spec fn punctuation(c: char) -> bool;

/// What `pest::unicode::SYMBOL` returns for a character.
pub uninterp spec fn symbol(c: char) -> bool;

/// Calls `pest::unicode::ALPHABETIC`: membership of the Unicode `Alphabetic`
/// property, whose table is named here; among ASCII characters it holds the
/// letters `A`-`Z` and `a`-`z` only.
#[verifier::external_body]
pub(crate) fn is_alphabetic(c: char) -> (r: bool)
    ensures
        r == alphabetic(c),
        r == letter_class(c),
{
    pest::unicode::ALPHABETIC(c)
}

/// Calls `pest::unicode::PUNCTUATION`: membership of the Unicode general
/// category `Punctuation`, whose table is named here; among ASCII characters
/// it holds ``!"#%&'()*,-./:;?@[\]_{}``.
#[verifier::external_body]
pub(crate) fn is_punctuation(c: char) -> (r: bool)
    ensures
        r == punctuation(c),
        r == punctuation_class(c),
{
    pest::unicode::PUNCTUATION(c)
}

/// Calls `pest::unicode::SYMBOL`: membership of the Unicode general category
/// `Symbol`, whose table is named here; among ASCII characters it holds
/// ``$+<=>^`|~``.
#[verifier::external_body]
pub(crate) fn is_symbol(c: char) -> (r: bool)
    ensures
        r == symbol(c),
        r == symbol_class(c),
{
    pest::unicode::SYMBOL(c)
}

/// Unicode `Alphabetic`: spelled out for ASCII, named for other characters.
pub open spec fn letter_class(c: char) -> bool {
    if is_ascii_char(c) {
        is_ascii_alpha(c)
    } else {
        alphabetic(c)
    }
}

/// Unicode `Punctuation`: spelled out for ASCII, named for other characters.
pub open spec fn punctuation_class(c: char) -> bool {
    if is_ascii_char(c) {
        ascii_punctuation(c)
    } else {
        punctuation(c)
    }
}

/// Unicode `Symbol`: spelled out for ASCII, named for other characters.
pub open spec fn symbol_class(c: char) -> bool {
    if is_ascii_char(c) {
        ascii_symbol(c)
    } else {
        symbol(c)
    }
}

/// Characters that make up prose.
pub open spec fn is_prose_char(c: char) -> bool {
    letter_class(c) || punctuation_class(c) || symbol_class(c)
}

/// The end of the longest run of prose characters starting at `i`.
pub open spec fn scan_prose(s: Seq<char>, i: int) -> int
    decreases s.len() - i,
{
    if 0 <= i < s.len() && is_prose_char(s[i]) {
        scan_prose(s, i + 1)
    } else {
        i
    }
}

// ---------------------------------------------------------------------------
// Bounds of the scanners.

/// Skipping blanks never moves backwards, and stays inside the line.
pub proof fn lemma_skip_ws_any(s: Seq<char>, i: int)
    ensures
        i <= skip_ws(s, i),
        i <= s.len() ==> skip_ws(s, i) <= s.len(),
        (i < 0 || i > s.len()) ==> skip_ws(s, i) == i,
{
    if 0 <= i <= s.len() {
        lemma_skip_ws(s, i);
    }
}

pub proof fn lemma_skip_ws(s: Seq<char>, i: int)
    requires
        0 <= i <= s.len(),
    ensures
        i <= skip_ws(s, i) <= s.len(),
        skip_ws(s, i) < s.len() ==> !is_blank_char(s[skip_ws(s, i)]),
        forall|k: int| i <= k < skip_ws(s, i) ==> is_blank_char(#[trigger] s[k]),
    decreases s.len() - i,
{
    if i < s.len() && is_blank_char(s[i]) {
        lemma_skip_ws(s, i + 1);
    }
}

pub proof fn lemma_scan_ident(s: Seq<char>, i: int)
    requires
        0 <= i <= s.len(),
    ensures
        i <= scan_ident(s, i) <= s.len(),
        scan_ident(s, i) < s.len() ==> !is_ident_char(s[scan_ident(s, i)]),
    decreases s.len() - i,
{
    if i < s.len() && is_ident_char(s[i]) {
        lemma_scan_ident(s, i + 1);
    }
}

pub proof fn lemma_ident_end(s: Seq<char>, i: int)
    ensures
        ident_end(s, i) matches Some(j) ==> i < j <= s.len(),
{
    if 0 <= i < s.len() && is_ascii_alpha(s[i]) {
        lemma_scan_ident(s, i + 1);
    }
}

pub proof fn lemma_scan_digits(s: Seq<char>, i: int)
    requires
        0 <= i <= s.len(),
    ensures
        i <= scan_digits(s, i) <= s.len(),
        scan_digits(s, i) < s.len() ==> !is_digit(s[scan_digits(s, i)]),
    decreases s.len() - i,
{
    if i < s.len() && is_digit(s[i]) {
        lemma_scan_digits(s, i + 1);
    }
}

pub proof fn lemma_scan_groups(s: Seq<char>, j: int)
    requires
        0 <= j <= s.len(),
    ensures
        j <= scan_groups(s, j) <= s.len(),
    decreases s.len() - j,
{
    if 0 <= j < s.len() && s[j] == ',' && digit_at(s, j + 1) {
        lemma_scan_digits(s, j + 1);
        lemma_scan_groups(s, scan_digits(s, j + 1));
    }
}

pub proof fn lemma_number_end(s: Seq<char>, i: int)
    ensures
        number_end(s, i) matches Some(j) ==> i < j <= s.len(),
{
    if digit_at(s, i) {
        lemma_scan_digits(s, i);
        lemma_scan_groups(s, scan_digits(s, i));
        let j = scan_groups(s, scan_digits(s, i));
        if 0 <= j < s.len() && s[j] == '.' && digit_at(s, j + 1) {
            lemma_scan_digits(s, j + 1);
        }
    }
}

pub proof fn lemma_scan_prose(s: Seq<char>, i: int)
    requires
        0 <= i <= s.len(),
    ensures
        i <= scan_prose(s, i) <= s.len(),
    decreases s.len() - i,
{
    if i < s.len() && is_prose_char(s[i]) {
        lemma_scan_prose(s, i + 1);
    }
}

proof fn lemma_mantissa_nonneg(t: Seq<char>)
    ensures
        mantissa(t) >= 0,
    decreases t.len(),
{
    if t.len() > 0 {
        lemma_mantissa_nonneg(t.drop_last());
    }
}

// ---------------------------------------------------------------------------
// Executable scanners.

pub fn is_ascii_alpha_char(c: char) -> (r: bool)
    ensures
        r == is_ascii_alpha(c),
{
    ('a' <= c && c <= 'z') || ('A' <= c && c <= 'Z')
}

pub fn is_ident_char_exec(c: char) -> (r: bool)
    ensures
        r == is_ident_char(c),
{
    is_ascii_alpha_char(c) || ('0' <= c && c <= '9') || c == '_'
}

pub fn digit_at_exec(s: &Vec<char>, i: usize) -> (r: bool)
    ensures
        r == digit_at(s@, i as int),
{
    i < s.len() && '0' <= s[i] && s[i] <= '9'
}

pub fn skip_ws_exec(s: &Vec<char>, i: usize) -> (r: usize)
    requires
        i <= s@.len(),
    ensures
        r == skip_ws(s@, i as int),
        i <= r <= s@.len(),
{
    proof {
        lemma_skip_ws(s@, i as int);
    }
    let mut k = i;
    while k < s.len() && (s[k] == ' ' || s[k] == '\t')
        invariant
            i <= k <= s@.len(),
            skip_ws(s@, k as int) == skip_ws(s@, i as int),
        decreases s.len() - k,
    {
        k = k + 1;
    }
    k
}

pub fn scan_ident_exec(s: &Vec<char>, i: usize) -> (r: usize)
    requires
        i <= s@.len(),
    ensures
        r == scan_ident(s@, i as int),
        i <= r <= s@.len(),
{
    proof {
        lemma_scan_ident(s@, i as int);
    }
    let mut k = i;
    while k < s.len() && is_ident_char_exec(s[k])
        invariant
            i <= k <= s@.len(),
            scan_ident(s@, k as int) == scan_ident(s@, i as int),
        decreases s.len() - k,
    {
        k = k + 1;
    }
    k
}

pub fn ident_end_exec(s: &Vec<char>, i: usize) -> (r: Option<usize>)
    ensures
        r is Some <==> ident_end(s@, i as int) is Some,
        r matches Some(j) ==> ident_end(s@, i as int) == Some(j as int) && i < j <= s@.len(),
{
    proof {
        lemma_ident_end(s@, i as int);
    }
    if i < s.len() && is_ascii_alpha_char(s[i]) {
        Some(scan_ident_exec(s, i + 1))
    } else {
        None
    }
}

pub fn scan_digits_exec(s: &Vec<char>, i: usize) -> (r: usize)
    requires
        i <= s@.len(),
    ensures
        r == scan_digits(s@, i as int),
        i <= r <= s@.len(),
{
    proof {
        lemma_scan_digits(s@, i as int);
    }
    let mut k = i;
    while digit_at_exec(s, k)
        invariant
            i <= k <= s@.len(),
            scan_digits(s@, k as int) == scan_digits(s@, i as int),
        decreases s.len() - k,
    {
        k = k + 1;
    }
    k
}

pub fn number_end_exec(s: &Vec<char>, i: usize) -> (r: Option<usize>)
    ensures
        r is Some <==> number_end(s@, i as int) is Some,
        r matches Some(j) ==> number_end(s@, i as int) == Some(j as int) && i < j <= s@.len(),
{
    proof {
        lemma_number_end(s@, i as int);
    }
    if !digit_at_exec(s, i) {
        return None;
    }
    let mut j = scan_digits_exec(s, i);
    proof {
        lemma_scan_groups(s@, j as int);
    }
    while j < s.len() && s[j] == ',' && digit_at_exec(s, j + 1)
        invariant
            i <= j <= s@.len(),
            scan_groups(s@, j as int) == scan_groups(s@, scan_digits(s@, i as int)),
        decreases s.len() - j,
    {
        j = scan_digits_exec(s, j + 1);
    }
    if j < s.len() && s[j] == '.' && digit_at_exec(s, j + 1) {
        Some(scan_digits_exec(s, j + 1))
    } else {
        Some(j)
    }
}

/// Whether the word `w` stands at `i` (see `keyword_at`).
pub fn keyword_at_exec(s: &Vec<char>, i: usize, w: &str) -> (r: bool)
    ensures
        r == keyword_at(s@, i as int, w@),
{
    let wv = crate::text::chars_of(w);
    if i > s.len() || wv.len() > s.len() - i {
        return false;
    }
    let mut k: usize = 0;
    while k < wv.len()
        invariant
            wv@ == w@,
            i + wv@.len() <= s@.len(),
            s@.len() == s.len(),
            wv@.len() == wv.len(),
            k <= wv@.len(),
            forall|m: int| 0 <= m < k ==> s@[i + m] == wv@[m],
        decreases wv.len() - k,
    {
        if s[i + k] != wv[k] {
            assert(s@.subrange(i as int, i + wv@.len())[k as int] != w@[k as int]);
            return false;
        }
        k = k + 1;
    }
    assert(s@.subrange(i as int, i + wv@.len()) =~= wv@);
    let e = i + wv.len();
    e == s.len() || !is_ident_char_exec(s[e])
}

/// `mantissa(t)`, or `10^37` when it is larger.
pub open spec fn capped_mantissa(t: Seq<char>) -> int {
    if mantissa(t) < 10_000_000_000_000_000_000_000_000_000_000_000_000 {
        mantissa(t)
    } else {
        10_000_000_000_000_000_000_000_000_000_000_000_000
    }
}

/// The capped mantissa and the fraction length of `s[i..j]`.
pub fn mantissa_frac_exec(s: &Vec<char>, i: usize, j: usize) -> (r: (u128, u64))
    requires
        i <= j <= s@.len(),
    ensures
        r.0 == capped_mantissa(s@.subrange(i as int, j as int)),
        r.1 == fraction_len(s@.subrange(i as int, j as int)),
        mantissa(s@.subrange(i as int, j as int)) >= 0,
{
    let ghost t = s@.subrange(i as int, j as int);
    let cap: u128 = 10_000_000_000_000_000_000_000_000_000_000_000_000;
    let mut m: u128 = 0;
    let mut seen_point = false;
    let mut frac: u64 = 0;
    let mut k = i;
    assert(t.subrange(0, 0) =~= Seq::<char>::empty());
    while k < j
        invariant
            i <= k <= j <= s@.len(),
            cap == 10_000_000_000_000_000_000_000_000_000_000_000_000,
            t == s@.subrange(i as int, j as int),
            mantissa(t.subrange(0, k - i)) >= 0,
            m == capped_mantissa(t.subrange(0, k - i)),
            seen_point == has_point(t.subrange(0, k - i)),
            frac as int == if seen_point {
                after_point(t.subrange(0, k - i)) as int
            } else {
                0
            },
            frac <= k - i,
        decreases j - k,
    {
        let c = s[k];
        let ghost pre = t.subrange(0, k - i);
        let ghost post = t.subrange(0, k + 1 - i);
        assert(post.drop_last() =~= pre);
        assert(post.last() == c);
        proof {
            lemma_mantissa_nonneg(post);
        }
        if '0' <= c && c <= '9' {
            let d: u128 = if c == '0' {
                0
            } else if c == '1' {
                1
            } else if c == '2' {
                2
            } else if c == '3' {
                3
            } else if c == '4' {
                4
            } else if c == '5' {
                5
            } else if c == '6' {
                6
            } else if c == '7' {
                7
            } else if c == '8' {
                8
            } else {
                9
            };
            assert(d == digit_value(c));
            if m >= cap {
                m = cap;
            } else {
                let v = 10 * m + d;
                m = if v >= cap {
                    cap
                } else {
                    v
                };
            }
        }
        if c == '.' {
            seen_point = true;
            frac = 0;
        } else if seen_point {
            frac = frac + 1;
        }
        k = k + 1;
    }
    assert(t.subrange(0, j - i) =~= t);
    (m, frac)
}

/// The value of the literal `s[i..j]` (see `literal_value`).
pub fn literal_value_exec(s: &Vec<char>, i: usize, j: usize) -> (r: Option<Num>)
    requires
        i <= j <= s@.len(),
    ensures
        r is Some <==> literal_value(s@.subrange(i as int, j as int)) is Some,
        r matches Some(x) ==> x@ == literal_value(s@.subrange(i as int, j as int))->0,
{
    let (m, frac) = mantissa_frac_exec(s, i, j);
    if frac <= 18 {
        if m >= 0x8000_0000_0000_0000 {
            return None;
        }
        let p = crate::text::pow10_u128(frac as u32);
        proof {
            lemma_reduce_fits(m as int, p as int);
        }
        return Some(Num::fraction(m as i64, p as i64));
    }
    if m >= 10_000_000_000_000_000_000_000_000_000_000_000_000 {
        return None;
    }
    let places = frac - 18;
    let q: u128 = if places > 37 {
        proof {
            crate::text::lemma_round_small(m as nat, places as nat);
        }
        0
    } else {
        let p = crate::text::pow10_u128_wide(places as u32);
        crate::text::round_half_even_exec(m, p)
    };
    if q > 0x7fff_ffff_ffff_ffff {
        return None;
    }
    let p18 = crate::text::pow10_u128(18);
    proof {
        lemma_reduce_fits(q as int, p18 as int);
    }
    Some(Num::fraction(q as i64, p18 as i64))
}

pub fn currency_code_at_exec(s: &Vec<char>, i: usize) -> (r: bool)
    ensures
        r == currency_code_at(s@, i as int),
{
    if i > s.len() || s.len() - i < 3 {
        return false;
    }
    let upper = |c: char| -> (b: bool)
        ensures
            b == is_ascii_upper(c),
        { 'A' <= c && c <= 'Z' };
    upper(s[i]) && upper(s[i + 1]) && upper(s[i + 2]) && (i + 3 == s.len() || !is_ident_char_exec(
        s[i + 3],
    ))
}

pub fn is_prose_char_exec(c: char) -> (r: bool)
    ensures
        r == is_prose_char(c),
{
    is_alphabetic(c) || is_punctuation(c) || is_symbol(c)
}

pub fn scan_prose_exec(s: &Vec<char>, i: usize) -> (r: usize)
    requires
        i <= s@.len(),
    ensures
        r == scan_prose(s@, i as int),
        i <= r <= s@.len(),
{
    proof {
        lemma_scan_prose(s@, i as int);
    }
    let mut k = i;
    while k < s.len() && is_prose_char_exec(s[k])
        invariant
            i <= k <= s@.len(),
            scan_prose(s@, k as int) == scan_prose(s@, i as int),
        decreases s.len() - k,
    {
        k = k + 1;
    }
    k
}

} // verus!
