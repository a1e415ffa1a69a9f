//! Human-readable byte-size parsing and formatting.
//!
//! Uses binary multipliers (1 KB = 1024 B), which match how memory is reported
//! by the OS and how students tend to reason about RAM.

use vstd::arithmetic::div_mod::{
    lemma_div_denominator, lemma_fundamental_div_mod, lemma_fundamental_div_mod_converse,
};
use vstd::prelude::*;
use vstd::string::StringExecFns;

use crate::decimal::{
    all_digits, decimal_digits, digit_char, digit_to_char, digits_value, is_digit,
    lemma_digits_bound, lemma_digits_first, lemma_digits_leading_zero, lemma_digits_lex,
    lemma_digits_lower, lemma_pow10_increases, lemma_pow10_positive, pow10, push_decimal,
};
use crate::float::{
    exp2, floor_log2, lemma_binade_of_fraction, lemma_binade_of_whole, lemma_bytes_whole,
    lemma_div_below, lemma_exp2_53, lemma_exp2_64_128, lemma_exp2_le, lemma_exp2_positive,
    lemma_exp2_units, lemma_reading_binade_bytes, lemma_reading_huge, lemma_reading_large,
    lemma_reading_tiny, pow2, round_reading, round_to_f64_grid, saturated,
};
use crate::text::{concat3, push_char, push_chars, text_result};

verus! {

/// Bytes in a kilobyte (binary).
pub const KIB: u64 = 1024;

/// Bytes in a megabyte (binary).
pub const MIB: u64 = 1048576;

/// Bytes in a gigabyte (binary).
pub const GIB: u64 = 1073741824;

/// Whether `c` is white space in the Unicode sense (the `White_Space` property),
/// the set that `str::trim` removes.
pub open spec fn is_space(c: char) -> bool {
    ||| ('\u{9}' <= c && c <= '\u{d}')
    ||| c == ' '
    ||| c == '\u{85}'
    ||| c == '\u{a0}'
    ||| c == '\u{1680}'
    ||| ('\u{2000}' <= c && c <= '\u{200a}')
    ||| c == '\u{2028}'
    ||| c == '\u{2029}'
    ||| c == '\u{202f}'
    ||| c == '\u{205f}'
    ||| c == '\u{3000}'
}

/// `s` without its leading white space.
pub open spec fn trim_start(s: Seq<char>) -> Seq<char>
    decreases s.len(),
{
    if s.len() > 0 && is_space(s[0]) {
        trim_start(s.drop_first())
    } else {
        s
    }
}

/// `s` without its trailing white space.
pub open spec fn trim_end(s: Seq<char>) -> Seq<char>
    decreases s.len(),
{
    if s.len() > 0 && is_space(s.last()) {
        trim_end(s.drop_last())
    } else {
        s
    }
}

/// `s` without white space at either end.
pub open spec fn trim(s: Seq<char>) -> Seq<char> {
    trim_end(trim_start(s))
}

fn is_space_char(c: char) -> (b: bool)
    ensures
        b == is_space(c),
{
    ('\u{9}' <= c && c <= '\u{d}') || c == ' ' || c == '\u{85}' || c == '\u{a0}' || c == '\u{1680}'
        || ('\u{2000}' <= c && c <= '\u{200a}') || c == '\u{2028}' || c == '\u{2029}' || c
        == '\u{202f}' || c == '\u{205f}' || c == '\u{3000}'
}

/// The characters of `s`, in order.
fn chars_of(s: &str) -> (v: Vec<char>)
    ensures
        v@ == s@,
{
    let mut v: Vec<char> = Vec::new();
    for c in it: s.chars()
        invariant
            v@ == it.seq().take(it.index() as int),
    {
        v.push(c);
    }
    v
}

/// The bounds of `v[lo..hi]` once white space is removed from both ends.
fn trim_bounds(v: &Vec<char>, lo: usize, hi: usize) -> (r: (usize, usize))
    requires
        lo <= hi <= v.len(),
    ensures
        lo <= r.0 <= r.1 <= hi,
        v@.subrange(r.0 as int, r.1 as int) == trim(v@.subrange(lo as int, hi as int)),
{
    let ghost s = v@.subrange(lo as int, hi as int);
    let mut a = lo;
    while a < hi && is_space_char(v[a])
        invariant
            lo <= a <= hi <= v.len(),
            s == v@.subrange(lo as int, hi as int),
            trim_start(s) == trim_start(v@.subrange(a as int, hi as int)),
        decreases hi - a,
    {
        assert(v@.subrange(a as int, hi as int).drop_first() =~= v@.subrange(a + 1, hi as int));
        a = a + 1;
    }
    let ghost t = v@.subrange(a as int, hi as int);
    assert(trim_start(s) == t);
    let mut b = hi;
    while b > a && is_space_char(v[b - 1])
        invariant
            lo <= a <= b <= hi <= v.len(),
            t == v@.subrange(a as int, hi as int),
            trim_end(t) == trim_end(v@.subrange(a as int, b as int)),
        decreases b - a,
    {
        assert(v@.subrange(a as int, b as int).drop_last() =~= v@.subrange(a as int, b - 1));
        b = b - 1;
    }
    (a, b)
}

/// Whether `c` may belong to the numeric part of a size: a digit or a point.
pub open spec fn is_number_char(c: char) -> bool {
    is_digit(c) || c == '.'
}

/// The length of the longest prefix of `s` made of digits and points.
pub open spec fn number_prefix_len(s: Seq<char>) -> nat
    decreases s.len(),
{
    if s.len() > 0 && is_number_char(s[0]) {
        1 + number_prefix_len(s.drop_first())
    } else {
        0
    }
}

/// The index of the first point in `s`, or its length if it has none.
pub open spec fn dot_position(s: Seq<char>) -> nat
    decreases s.len(),
{
    if s.len() == 0 || s[0] == '.' {
        0
    } else {
        1 + dot_position(s.drop_first())
    }
}

/// The digits of a decimal number before its point.
pub open spec fn whole_digits(s: Seq<char>) -> Seq<char> {
    s.take(dot_position(s) as int)
}

/// The digits of a decimal number after its point (none if it has no point).
pub open spec fn fraction_digits(s: Seq<char>) -> Seq<char> {
    if dot_position(s) < s.len() {
        s.skip(dot_position(s) as int + 1)
    } else {
        Seq::empty()
    }
}

/// Whether `s` writes a decimal number: digits with at most one point among
/// them, and at least one digit.
pub open spec fn is_decimal_number(s: Seq<char>) -> bool {
    &&& all_digits(whole_digits(s))
    &&& all_digits(fraction_digits(s))
    &&& whole_digits(s).len() + fraction_digits(s).len() > 0
}

/// ASCII upper case of one character.
pub open spec fn ascii_upper(c: char) -> char {
    if 'a' <= c && c <= 'z' {
        ((c as int) - 32) as char
    } else {
        c
    }
}

/// ASCII upper case of a string.
pub open spec fn upper_chars(s: Seq<char>) -> Seq<char> {
    s.map_values(|c: char| ascii_upper(c))
}

fn is_digit_char(c: char) -> (b: bool)
    ensures
        b == is_digit(c),
{
    '0' <= c && c <= '9'
}

/// The end of the run of digits and points that starts at `lo`.
fn number_prefix_end(v: &Vec<char>, lo: usize, hi: usize) -> (j: usize)
    requires
        lo <= hi <= v.len(),
    ensures
        lo <= j <= hi,
        j - lo == number_prefix_len(v@.subrange(lo as int, hi as int)),
{
    let mut j = lo;
    while j < hi && (is_digit_char(v[j]) || v[j] == '.')
        invariant
            lo <= j <= hi <= v.len(),
            number_prefix_len(v@.subrange(lo as int, hi as int)) == (j - lo) + number_prefix_len(
                v@.subrange(j as int, hi as int),
            ),
        decreases hi - j,
    {
        assert(v@.subrange(j as int, hi as int).drop_first() =~= v@.subrange(j + 1, hi as int));
        j = j + 1;
    }
    j
}

/// The index of the first point in `v[lo..hi]`, or `hi`.
fn dot_index(v: &Vec<char>, lo: usize, hi: usize) -> (j: usize)
    requires
        lo <= hi <= v.len(),
    ensures
        lo <= j <= hi,
        j - lo == dot_position(v@.subrange(lo as int, hi as int)),
{
    let mut j = lo;
    while j < hi && v[j] != '.'
        invariant
            lo <= j <= hi <= v.len(),
            dot_position(v@.subrange(lo as int, hi as int)) == (j - lo) + dot_position(
                v@.subrange(j as int, hi as int),
            ),
        decreases hi - j,
    {
        assert(v@.subrange(j as int, hi as int).drop_first() =~= v@.subrange(j + 1, hi as int));
        j = j + 1;
    }
    j
}

/// Whether `v[lo..hi]` is made of digits only.
fn digits_only(v: &Vec<char>, lo: usize, hi: usize) -> (b: bool)
    requires
        lo <= hi <= v.len(),
    ensures
        b == all_digits(v@.subrange(lo as int, hi as int)),
{
    let mut j = lo;
    while j < hi
        invariant
            lo <= j <= hi <= v.len(),
            forall|k: int| lo <= k < j ==> #[trigger] is_digit(v@[k]),
        decreases hi - j,
    {
        if !is_digit_char(v[j]) {
            assert(!is_digit(v@.subrange(lo as int, hi as int)[j - lo]));
            return false;
        }
        j = j + 1;
    }
    assert forall|i: int| 0 <= i < (hi - lo) implies #[trigger] is_digit(
        v@.subrange(lo as int, hi as int)[i],
    ) by {
        assert(is_digit(v@[lo + i]));
    }
    true
}

/// `min(n, 2^64)`, where `n` is the number that `v[lo..hi]` writes.
fn whole_value_capped(v: &Vec<char>, lo: usize, hi: usize) -> (r: u128)
    requires
        lo <= hi <= v.len(),
        all_digits(v@.subrange(lo as int, hi as int)),
    ensures
        r == if digits_value(v@.subrange(lo as int, hi as int)) < 0x1_0000_0000_0000_0000 {
            digits_value(v@.subrange(lo as int, hi as int))
        } else {
            0x1_0000_0000_0000_0000
        },
{
    let cap: u128 = 0x1_0000_0000_0000_0000;
    let mut acc: u128 = 0;
    let mut i = lo;
    assert(v@.subrange(lo as int, lo as int) =~= Seq::<char>::empty());
    while i < hi
        invariant
            lo <= i <= hi <= v.len(),
            all_digits(v@.subrange(lo as int, hi as int)),
            cap == 0x1_0000_0000_0000_0000u128,
            acc <= cap,
            acc == if digits_value(v@.subrange(lo as int, i as int)) < cap {
                digits_value(v@.subrange(lo as int, i as int))
            } else {
                cap as nat
            },
        decreases hi - i,
    {
        assert(is_digit(v@.subrange(lo as int, hi as int)[i - lo]));
        let d = (v[i] as u32 - '0' as u32) as u128;
        assert(v@.subrange(lo as int, i + 1).drop_last() =~= v@.subrange(lo as int, i as int));
        let next = acc * 10 + d;
        acc = if next >= cap { cap } else { next };
        i = i + 1;
    }
    acc
}

/// `mm * f` divided by `10^n`, where `f` is the number that the `n` digits
/// `v[lo..hi]` write: the floor of `mm` times the fraction `0.v[lo..hi]`,
/// and whether that product is a whole number.
fn fraction_times(v: &Vec<char>, lo: usize, hi: usize, mm: u128) -> (r: (u128, bool))
    requires
        lo <= hi <= v.len(),
        all_digits(v@.subrange(lo as int, hi as int)),
        1 <= mm <= 0x1000_0000_0000_0000_0000_0000_0000_0000,
    ensures
        r.0 == (mm * digits_value(v@.subrange(lo as int, hi as int))) / (pow10(
            (hi - lo) as nat,
        ) as int),
        r.1 == ((mm * digits_value(v@.subrange(lo as int, hi as int))) % (pow10(
            (hi - lo) as nat,
        ) as int) == 0),
{
    let mut c: u128 = 0;
    let mut exact = true;
    let mut i = hi;
    assert(v@.subrange(hi as int, hi as int) =~= Seq::<char>::empty());
    assert(pow10(0) == 1);
    assert(digits_value(v@.subrange(hi as int, hi as int)) == 0);
    while i > lo
        invariant
            lo <= i <= hi <= v.len(),
            all_digits(v@.subrange(lo as int, hi as int)),
            1 <= mm <= 0x1000_0000_0000_0000_0000_0000_0000_0000,
            c < mm,
            c == (mm * digits_value(v@.subrange(i as int, hi as int))) / (pow10(
                (hi - i) as nat,
            ) as int),
            exact == ((mm * digits_value(v@.subrange(i as int, hi as int))) % (pow10(
                (hi - i) as nat,
            ) as int) == 0),
        decreases i,
    {
        i = i - 1;
        assert(is_digit(v@.subrange(lo as int, hi as int)[i - lo]));
        let d = (v[i] as u32 - '0' as u32) as u128;
        assert(d * mm + c < 10 * mm) by (nonlinear_arith)
            requires
                d <= 9,
                c < mm,
        ;
        let t = d * mm + c;
        proof {
            let s = v@.subrange(i as int, hi as int);
            lemma_digits_first(s);
            assert(s.drop_first() =~= v@.subrange(i + 1, hi as int));
            assert(s[0] == v@[i as int]);
            let x = digits_value(v@.subrange(i + 1, hi as int));
            let p = pow10((hi - i - 1) as nat);
            lemma_pow10_positive((hi - i - 1) as nat);
            assert(digits_value(s) == d * p + x);
            assert(pow10((hi - i) as nat) == p * 10);
            lemma_fundamental_div_mod((mm * x) as int, p as int);
            let rr = ((mm * x) as nat) % p;
            lemma_fundamental_div_mod(t as int, 10);
            assert(mm * (d * p + x) == (t / 10) * (p * 10) + ((t % 10) * p + rr)
                && (t % 10) * p + rr < p * 10) by (nonlinear_arith)
                requires
                    mm * x == p * c + rr,
                    0 <= rr < p,
                    t == d * mm + c,
                    t == 10 * (t / 10) + t % 10,
                    0 <= t % 10 < 10,
            ;
            lemma_fundamental_div_mod_converse(
                (mm * (d * p + x)) as int,
                (p * 10) as int,
                (t / 10) as int,
                ((t % 10) * p + rr) as int,
            );
            assert((t % 10) * p + rr == 0 <==> (t % 10 == 0 && rr == 0)) by (nonlinear_arith)
                requires
                    p >= 1,
                    rr >= 0,
                    t % 10 >= 0,
            ;
        }
        exact = exact && t % 10 == 0;
        c = t / 10;
    }
    (c, exact)
}

/// The characters of `v[lo..hi]` in ASCII upper case.
fn upper_of(v: &Vec<char>, lo: usize, hi: usize) -> (u: Vec<char>)
    requires
        lo <= hi <= v.len(),
    ensures
        u@ == upper_chars(v@.subrange(lo as int, hi as int)),
{
    let mut u: Vec<char> = Vec::new();
    let mut i = lo;
    while i < hi
        invariant
            lo <= i <= hi <= v.len(),
            u@ == upper_chars(v@.subrange(lo as int, i as int)),
        decreases hi - i,
    {
        let c = v[i];
        let up = if 'a' <= c && c <= 'z' {
            ((c as u8) - 32) as char
        } else {
            c
        };
        assert(up == ascii_upper(c));
        u.push(up);
        i = i + 1;
        assert(u@ =~= upper_chars(v@.subrange(lo as int, i as int)));
    }
    u
}

/// The decimal digits of `2^1024 - 2^970`, the least number that parsing as
/// an `f64` rounds up to infinity.
pub const F64_OVERFLOW_DIGITS: &'static str = "179769313486231580793728971405303415079934132710037826936173778980444968292764750946649017977587207096330286416692887910946555547851940402630657488671505820681908902000708383676273854845817711531764475730270069855571366959622842914819860834936475292719074168444365510704342711559699508093042880177904174497792";

/// The least number that parsing as an `f64` turns into infinity.
pub open spec fn f64_overflow_limit() -> nat {
    digits_value(F64_OVERFLOW_DIGITS@)
}

/// Whether the number that `v[lo..hi]` writes stays below [`f64_overflow_limit`].
fn below_f64_overflow(v: &Vec<char>, lo: usize, hi: usize) -> (b: bool)
    requires
        lo <= hi <= v.len(),
        all_digits(v@.subrange(lo as int, hi as int)),
    ensures
        b == (digits_value(v@.subrange(lo as int, hi as int)) < f64_overflow_limit()),
{
    let lim = chars_of(F64_OVERFLOW_DIGITS);
    proof {
        reveal_strlit("179769313486231580793728971405303415079934132710037826936173778980444968292764750946649017977587207096330286416692887910946555547851940402630657488671505820681908902000708383676273854845817711531764475730270069855571366959622842914819860834936475292719074168444365510704342711559699508093042880177904174497792");
    }
    assert(lim@.len() == 309);
    assert(all_digits(lim@));
    assert(lim@[0] == '1');
    let ghost whole = v@.subrange(lo as int, hi as int);
    let mut a = lo;
    while a < hi && v[a] == '0'
        invariant
            lo <= a <= hi <= v.len(),
            whole == v@.subrange(lo as int, hi as int),
            all_digits(whole),
            digits_value(whole) == digits_value(v@.subrange(a as int, hi as int)),
        decreases hi - a,
    {
        proof {
            lemma_digits_leading_zero(v@.subrange(a as int, hi as int));
            assert(v@.subrange(a as int, hi as int).drop_first() =~= v@.subrange(a + 1, hi as int));
        }
        a = a + 1;
    }
    let ghost sig = v@.subrange(a as int, hi as int);
    assert(all_digits(sig)) by {
        assert forall|i: int| 0 <= i < sig.len() implies #[trigger] is_digit(sig[i]) by {
            assert(is_digit(whole[a - lo + i]));
        }
    }
    let n = hi - a;
    proof {
        lemma_digits_lower(lim@);
        lemma_digits_bound(lim@);
    }
    if n < 309 {
        proof {
            lemma_digits_bound(sig);
            lemma_pow10_increases(n as nat, 308);
        }
        return true;
    }
    if n > 309 {
        proof {
            lemma_digits_lower(sig);
            lemma_pow10_increases(309, (n - 1) as nat);
        }
        return false;
    }
    let mut k: usize = 0;
    while k < 309 && v[a + k] == lim[k]
        invariant
            0 <= k <= 309,
            a + 309 == hi <= v.len(),
            lim@.len() == 309,
            sig == v@.subrange(a as int, hi as int),
            sig.take(k as int) =~= lim@.take(k as int),
        decreases 309 - k,
    {
        k = k + 1;
    }
    if k == 309 {
        assert(sig.len() == 309);
        assert(sig.take(309) =~= sig);
        assert(lim@.take(309) =~= lim@);
        return false;
    }
    assert(sig[k as int] == v@[a + k]);
    assert(is_digit(sig[k as int]));
    assert(is_digit(lim@[k as int]));
    if (v[a + k] as u32) < (lim[k] as u32) {
        proof {
            lemma_digits_lex(sig, lim@, k as int);
        }
        true
    } else {
        proof {
            lemma_digits_lex(lim@, sig, k as int);
        }
        false
    }
}

/// The number of bytes that a unit stands for, given in upper case:
/// `B`, `K`/`KB`/`KIB`, `M`/`MB`/`MIB`, `G`/`GB`/`GIB`; no unit means bytes.
pub open spec fn unit_multiplier(u: Seq<char>) -> Option<u64> {
    if u == Seq::<char>::empty() || u == seq!['B'] {
        Some(1)
    } else if u == seq!['K'] || u == seq!['K', 'B'] || u == seq!['K', 'I', 'B'] {
        Some(KIB)
    } else if u == seq!['M'] || u == seq!['M', 'B'] || u == seq!['M', 'I', 'B'] {
        Some(MIB)
    } else if u == seq!['G'] || u == seq!['G', 'B'] || u == seq!['G', 'I', 'B'] {
        Some(GIB)
    } else {
        None
    }
}

/// The number `whole.frac` (two digit strings) read as an `f64`: the
/// nearest `f64` value, ties to the even significand, counted in units of
/// `2^-1074`, the smallest positive `f64`. (Numbers whose whole part
/// reaches [`f64_overflow_limit`], which an `f64` would read as infinite,
/// are refused before this reading.)
#[verifier::opaque]
pub open spec fn f64_reading(whole: Seq<char>, frac: Seq<char>) -> nat {
    let p = pow10(frac.len());
    round_to_f64_grid((digits_value(whole) * p + digits_value(frac)) * exp2(1074), p)
}

/// A value of `reading` units of `2^-1074` times `m`, rounded to the
/// nearest integer with halves away from zero, and held to the range of
/// `u64`. Multiplying an `f64` by a power of two is exact, so this is
/// `(x * m as f64).round() as u64` for the `f64` value `x`.
#[verifier::opaque]
pub open spec fn scaled_value(reading: nat, m: nat) -> u64 {
    saturated((2 * reading * m + exp2(1074)) / (2 * exp2(1074)))
}

/// What `parse_size` gives for `input`: bytes, or the error message.
pub open spec fn parse_size_spec(input: Seq<char>) -> Result<u64, Seq<char>> {
    let s = trim(input);
    let n = number_prefix_len(s) as int;
    let num = s.take(n);
    let unit = upper_chars(trim(s.skip(n)));
    if s.len() == 0 {
        Err("empty size value"@)
    } else if !is_decimal_number(num) {
        Err("invalid number in size '"@ + input + "'"@)
    } else if digits_value(whole_digits(num)) >= f64_overflow_limit() {
        Err("size must be a positive number: '"@ + input + "'"@)
    } else {
        match unit_multiplier(unit) {
            Some(m) => Ok(
                scaled_value(f64_reading(whole_digits(num), fraction_digits(num)), m as nat),
            ),
            None => Err("unknown size unit '"@ + unit + "' in '"@ + input + "'"@),
        }
    }
}

/// Whether `u` is `X`, `XB` or `XIB` for the letter `x`.
fn is_unit_of(u: &Vec<char>, x: char) -> (b: bool)
    ensures
        b == (u@ == seq![x] || u@ == seq![x, 'B'] || u@ == seq![x, 'I', 'B']),
{
    let n = u.len();
    if n == 1 && u[0] == x {
        assert(u@ =~= seq![x]);
        true
    } else if n == 2 && u[0] == x && u[1] == 'B' {
        assert(u@ =~= seq![x, 'B']);
        true
    } else if n == 3 && u[0] == x && u[1] == 'I' && u[2] == 'B' {
        assert(u@ =~= seq![x, 'I', 'B']);
        true
    } else {
        assert(u@ != seq![x]) by {
            if u@ == seq![x] {
                assert(u@[0] == x);
            }
        }
        assert(u@ != seq![x, 'B']) by {
            if u@ == seq![x, 'B'] {
                assert(u@[0] == x && u@[1] == 'B');
            }
        }
        assert(u@ != seq![x, 'I', 'B']) by {
            if u@ == seq![x, 'I', 'B'] {
                assert(u@[0] == x && u@[1] == 'I' && u@[2] == 'B');
            }
        }
        false
    }
}

fn unit_multiplier_of(u: &Vec<char>) -> (r: Option<u64>)
    ensures
        r == unit_multiplier(u@),
{
    if u.len() == 0 || (u.len() == 1 && u[0] == 'B') {
        proof {
            if u.len() == 0 {
                assert(u@ =~= Seq::<char>::empty());
            } else {
                assert(u@ =~= seq!['B']);
            }
        }
        Some(1)
    } else {
        assert(u@ != Seq::<char>::empty());
        assert(u@ != seq!['B']) by {
            if u@ == seq!['B'] {
                assert(u@[0] == 'B');
            }
        }
        if is_unit_of(u, 'K') {
            Some(KIB)
        } else if is_unit_of(u, 'M') {
            Some(MIB)
        } else if is_unit_of(u, 'G') {
            Some(GIB)
        } else {
            None
        }
    }
}

/// The exponent `k` of the unit multiplier `m = 2^k`.
fn unit_exponent(m: u64) -> (k: u32)
    requires
        m == 1 || m == KIB || m == MIB || m == GIB,
    ensures
        k <= 30,
        m == exp2(k as nat),
{
    proof {
        lemma_exp2_units();
        assert(exp2(0) == 1);
    }
    if m == 1 {
        0
    } else if m == KIB {
        10
    } else if m == MIB {
        20
    } else {
        30
    }
}

/// The bytes that the number `v[lo..dot]` `.` `v[frac_lo..split]` stands
/// for under the multiplier `m = 2^k`: [`scaled_value`] of its
/// [`f64_reading`].
fn reading_bytes(
    v: &Vec<char>,
    lo: usize,
    dot: usize,
    frac_lo: usize,
    split: usize,
    m: u64,
    k: u32,
) -> (z: u64)
    requires
        lo <= dot <= frac_lo <= split <= v.len(),
        all_digits(v@.subrange(lo as int, dot as int)),
        all_digits(v@.subrange(frac_lo as int, split as int)),
        k <= 30,
        m == exp2(k as nat),
    ensures
        z == scaled_value(
            f64_reading(
                v@.subrange(lo as int, dot as int),
                v@.subrange(frac_lo as int, split as int),
            ),
            m as nat,
        ),
{
    let ghost whole = v@.subrange(lo as int, dot as int);
    let ghost frac = v@.subrange(frac_lo as int, split as int);
    let ghost w = digits_value(whole);
    let ghost f = digits_value(frac);
    let ghost p = pow10(frac.len());
    proof {
        reveal(f64_reading);
        reveal(scaled_value);
        lemma_pow10_positive(frac.len());
        lemma_digits_bound(frac);
        lemma_exp2_64_128();
        lemma_exp2_53();
        lemma_exp2_positive(k as nat);
        lemma_exp2_le(k as nat, 30);
        lemma_exp2_units();
    }
    let wc = whole_value_capped(v, lo, dot);
    // At or above 2^64 bytes the result saturates whatever the unit.
    if wc >= 0x1_0000_0000_0000_0000 {
        proof {
            lemma_reading_huge(w, f, p, m as nat);
        }
        return u64::MAX;
    }
    // From 2^53 up the grid's spacing is a whole number: the whole part is
    // rounded to a multiple of it, and the fraction only breaks ties.
    if wc >= F64_EXACT_LIMIT as u128 {
        let e = floor_log2(wc as u64);
        if e < 53 {
            proof {
                lemma_exp2_le(e as nat + 1, 53);
            }
        }
        let t = e - 52;
        let s = pow2(t);
        proof {
            lemma_exp2_positive(t as nat);
            lemma_exp2_le(t as nat, 64);
        }
        let (_, exact) = fraction_times(v, frac_lo, split, 1);
        let q = wc / s;
        let r = wc % s;
        let g = if 2 * r > s || (2 * r == s && (!exact || q % 2 == 1)) {
            q + 1
        } else {
            q
        };
        proof {
            lemma_exp2_positive(t as nat);
            assert(1 * f == f);
            assert(f % p == f) by {
                vstd::arithmetic::div_mod::lemma_small_mod(f, p);
            }
            assert(52 + t as nat == e as nat && 53 + t as nat == e as nat + 1);
            lemma_reading_large(w, f, p, t as nat);
            lemma_bytes_whole(g as nat * s as nat, m as nat);
            assert(g * s <= 0x1_0000_0000_0000_0000 + s) by (nonlinear_arith)
                requires
                    q == wc / s,
                    s >= 1,
                    wc < 0x1_0000_0000_0000_0000u128,
                    g <= q + 1,
            ;
            assert(g * s * m <= (0x1_0000_0000_0000_0000 + 0x1_0000_0000_0000_0000) * 0x4000_0000)
                by (nonlinear_arith)
                requires
                    g * s <= 0x1_0000_0000_0000_0000 + s,
                    s <= 0x1_0000_0000_0000_0000,
                    m <= 0x4000_0000,
            ;
        }
        let total: u128 = g * s * (m as u128);
        return if total > u64::MAX as u128 {
            u64::MAX
        } else {
            total as u64
        };
    }
    // From 1 to 2^53 the binade is that of the whole part: the number times
    // 2^(p+1), with the grid's spacing 2^-p, decides the rounding.
    if wc >= 1 {
        let e = floor_log2(wc as u64);
        if e > 52 {
            proof {
                lemma_exp2_le(53, e as nat);
            }
        }
        let p2 = 52 - e;
        let mm = pow2(p2 + 1);
        proof {
            lemma_exp2_le(p2 as nat + 1, 53);
            lemma_exp2_positive(p2 as nat + 1);
        }
        let (c, exact) = fraction_times(v, frac_lo, split, mm);
        proof {
            lemma_binade_of_whole(w, f, p, e as nat);
            assert(c <= mm) by {
                assert(mm * f < mm * p) by (nonlinear_arith)
                    requires
                        f < p,
                        mm >= 1,
                ;
                lemma_div_below((mm * f) as nat, p, mm as nat);
            }
            assert(wc * mm <= 0x40_0000_0000_0000 * 0x40_0000_0000_0000) by (nonlinear_arith)
                requires
                    wc < 0x20_0000_0000_0000,
                    mm <= 0x20_0000_0000_0000,
            ;
        }
        let a = wc * mm + c;
        proof {
            assert(f * mm == mm * f) by (nonlinear_arith);
            lemma_reading_binade_bytes(w, f, p, p2 as nat, mm as nat, c as nat, exact, a as nat, m as nat);
            assert(exp2(54) == 2 * F64_EXACT_LIMIT);
        }
        return round_reading(a, exact, p2, m);
    }
    // Below 1 the fraction times 2^(2+k) finds the binade; below 2^-(2+k)
    // the reading, times m = 2^k, stays under a quarter and gives 0 bytes.
    let j = pow2(2 + k);
    proof {
        lemma_exp2_le(2 + k as nat, 32);
        lemma_exp2_le(32, 64);
        lemma_exp2_positive(2 + k as nat);
    }
    let (g, _) = fraction_times(v, frac_lo, split, j);
    if g == 0 {
        proof {
            assert(w == 0);
            assert(f * j == j * f) by (nonlinear_arith);
            lemma_fundamental_div_mod((j * f) as int, p as int);
            lemma_reading_tiny(f, p, k as nat);
        }
        return 0;
    }
    proof {
        lemma_exp2_le(2 + k as nat, 32);
        assert(j * f < j * p) by (nonlinear_arith)
            requires
                f < p,
                j >= 1,
        ;
        lemma_div_below((j * f) as nat, p, j as nat);
    }
    proof {
        lemma_exp2_le(32, 64);
    }
    assert(g < 0x1_0000_0000_0000_0000);
    let gl = floor_log2(g as u64);
    if gl + 1 > 2 + k {
        proof {
            lemma_exp2_le(2 + k as nat, gl as nat);
        }
    }
    let p2 = 54 + k - gl;
    let mm = pow2(p2 + 1);
    proof {
        lemma_exp2_le(p2 as nat + 1, 124);
        lemma_exp2_positive(p2 as nat + 1);
    }
    let (c, exact) = fraction_times(v, frac_lo, split, mm);
    proof {
        assert(w == 0);
        assert(f * mm == mm * f && f * j == j * f) by (nonlinear_arith);
        lemma_binade_of_fraction(f, p, 2 + k as nat, g as nat, gl as nat);
        assert((2 + k as nat + 52 - gl as nat) as nat == p2);
        lemma_reading_binade_bytes(0, f, p, p2 as nat, mm as nat, c as nat, exact, c as nat, m as nat);
        assert(exp2(54) == 2 * F64_EXACT_LIMIT);
    }
    round_reading(c, exact, p2, m)
}

/// Parse a human size string like `"500MB"`, `"1.5GB"`, `"1024"`, `"2g"` into bytes.
///
/// Accepted units (case-insensitive): `B`, `K`/`KB`/`KIB`, `M`/`MB`/`MIB`,
/// `G`/`GB`/`GIB`. A bare number is interpreted as bytes. The number is read
/// as an `f64` (the nearest one, ties to even), multiplied by the unit and
/// rounded to the nearest byte, halves away from zero; a product beyond
/// `u64::MAX` gives `u64::MAX`.
pub fn parse_size(input: &str) -> (r: Result<u64, String>)
    ensures
        text_result(r) == parse_size_spec(input@),
{
    let v = chars_of(input);
    let (lo, hi) = trim_bounds(&v, 0, v.len());
    assert(v@.subrange(0, v@.len() as int) =~= input@);
    let ghost s = v@.subrange(lo as int, hi as int);
    if lo == hi {
        return Err(String::from_str("empty size value"));
    }
    let split = number_prefix_end(&v, lo, hi);
    let ghost num = s.take(split - lo);
    assert(num =~= v@.subrange(lo as int, split as int));
    let dot = dot_index(&v, lo, split);
    let frac_lo = if dot < split {
        dot + 1
    } else {
        split
    };
    assert(whole_digits(num) =~= v@.subrange(lo as int, dot as int));
    assert(fraction_digits(num) =~= v@.subrange(frac_lo as int, split as int));
    let valid = digits_only(&v, lo, dot) && digits_only(&v, frac_lo, split) && (dot - lo) + (split
        - frac_lo) > 0;
    if !valid {
        return Err(concat3("invalid number in size '", input, "'"));
    }
    if !below_f64_overflow(&v, lo, dot) {
        return Err(concat3("size must be a positive number: '", input, "'"));
    }
    let (ulo, uhi) = trim_bounds(&v, split, hi);
    assert(s.skip(split - lo) =~= v@.subrange(split as int, hi as int));
    let unit = upper_of(&v, ulo, uhi);
    match unit_multiplier_of(&unit) {
        None => {
            let mut e = String::from_str("unknown size unit '");
            push_chars(&mut e, &unit);
            e.append("' in '");
            e.append(input);
            e.append("'");
            Err(e)
        },
        Some(m) => {
            let k = unit_exponent(m);
            Ok(reading_bytes(&v, lo, dot, frac_lo, split, m, k))
        },
    }
}

/// `2^53`: below it every integer is exactly an `f64`.
pub const F64_EXACT_LIMIT: u64 = 0x20_0000_0000_0000;

/// The spacing of the `f64` values near `b`: the power of two by which `b`
/// must be divided to fit in the 53 bits of an `f64` significand.
pub open spec fn f64_spacing(b: nat) -> nat
    decreases b,
{
    if b < F64_EXACT_LIMIT {
        1
    } else {
        2 * f64_spacing(b / 2)
    }
}

/// The value of `b as f64`: `b` rounded to the nearest `f64`, ties to the
/// one with an even significand.
pub open spec fn f64_of(b: nat) -> nat {
    let u = f64_spacing(b);
    let q = b / u;
    let r = b % u;
    if 2 * r > u || (2 * r == u && q % 2 == 1) {
        (q + 1) * u
    } else {
        q * u
    }
}

/// `n / d` rounded to the nearest integer, ties to even.
pub open spec fn div_round_even(n: nat, d: nat) -> nat {
    let q = n / d;
    let r = n % d;
    if 2 * r > d || (2 * r == d && q % 2 == 1) {
        q + 1
    } else {
        q
    }
}

/// The text of `h / 100` with exactly two decimals.
pub open spec fn two_decimals(h: nat) -> Seq<char> {
    decimal_digits(h / 100) + seq!['.', digit_char((h % 100) / 10), digit_char(h % 10)]
}

/// `bytes` in `unit`-sized units, written with two decimals as `{:.2}`
/// writes the `f64` quotient (`unit` is a power of two).
pub open spec fn in_units(bytes: nat, unit: nat) -> Seq<char> {
    two_decimals(div_round_even(f64_of(bytes) * 100, unit))
}

/// What `format_size` gives for `bytes`.
pub open spec fn format_size_spec(bytes: u64) -> Seq<char> {
    if bytes >= GIB {
        in_units(bytes as nat, GIB as nat) + " GB"@
    } else if bytes >= MIB {
        in_units(bytes as nat, MIB as nat) + " MB"@
    } else if bytes >= KIB {
        in_units(bytes as nat, KIB as nat) + " KB"@
    } else {
        decimal_digits(bytes as nat) + " B"@
    }
}

/// `b as f64`, as an integer.
fn f64_value(b: u64) -> (g: u128)
    ensures
        g == f64_of(b as nat),
        g <= 0x2_0000_0000_0000_0000,
{
    let mut t: u64 = b;
    let mut u: u128 = 1;
    while t >= F64_EXACT_LIMIT
        invariant
            u >= 1,
            t == b as nat / (u as nat),
            u * t <= b,
            u > 1 ==> t >= 0x10_0000_0000_0000,
            f64_spacing(b as nat) == u * f64_spacing(t as nat),
        decreases t,
    {
        proof {
            lemma_div_denominator(b as int, u as int, 2);
            assert(u * 0x20_0000_0000_0000 <= u * t) by (nonlinear_arith)
                requires
                    t >= 0x20_0000_0000_0000u64,
                    u >= 1,
            ;
            assert((u * 2) * (t / 2) <= u * t) by (nonlinear_arith)
                requires
                    u >= 1,
            ;
            assert(u * (2 * f64_spacing((t / 2) as nat)) == (u * 2) * f64_spacing((t / 2) as nat))
                by (nonlinear_arith);
        }
        t = t / 2;
        u = u * 2;
    }
    assert(f64_spacing(t as nat) == 1);
    let ghost sp_t = f64_spacing(t as nat);
    assert(f64_spacing(b as nat) == u) by (nonlinear_arith)
        requires
            f64_spacing(b as nat) == u * sp_t,
            sp_t == 1,
    ;
    assert(u <= b + 1) by {
        if t >= 1 {
            assert(u <= u * t) by (nonlinear_arith)
                requires
                    t >= 1,
                    u >= 1,
            ;
        }
    }
    let q = (b as u128) / u;
    let r = (b as u128) % u;
    proof {
        assert(q * u <= b) by (nonlinear_arith)
            requires
                q == (b as u128) / u,
                u >= 1,
        ;
        assert(r < u);
        assert((q + 1) * u <= b + u) by (nonlinear_arith)
            requires
                q * u <= b,
        ;
    }
    let g = if 2 * r > u || (2 * r == u && q % 2 == 1) {
        (q + 1) * u
    } else {
        q * u
    };
    assert(f64_spacing(b as nat) == u);
    assert(q == (b as nat) / (u as nat));
    assert(r == (b as nat) % (u as nat));
    g
}

/// `n / d` rounded to the nearest integer, ties to even.
fn div_round_to_even(n: u128, d: u128) -> (r: u128)
    requires
        d > 0,
        n < 0x8000_0000_0000_0000_0000_0000_0000_0000,
    ensures
        r == div_round_even(n as nat, d as nat),
{
    let q = n / d;
    assert(q <= n) by (nonlinear_arith)
        requires
            q == n / d,
            d > 0,
    ;
    let rem = n % d;
    assert(q * d <= n) by (nonlinear_arith)
        requires
            q == n / d,
            d > 0,
    ;
    if rem > d - rem || (rem == d - rem && q % 2 == 1) {
        q + 1
    } else {
        q
    }
}

/// Appends `bytes` in `unit`-sized units with two decimals.
fn push_in_units(s: &mut String, bytes: u64, unit: u64)
    requires
        unit > 0,
    ensures
        final(s)@ == old(s)@ + in_units(bytes as nat, unit as nat),
{
    let g = f64_value(bytes);
    let h = div_round_to_even(g * 100, unit as u128);
    push_decimal(s, h / 100);
    push_char(s, '.');
    push_char(s, digit_to_char((h % 100) / 10));
    push_char(s, digit_to_char(h % 10));
    assert(s@ =~= old(s)@ + in_units(bytes as nat, unit as nat));
}

/// Format a byte count into a compact human string, e.g. `2.41 GB`.
pub fn format_size(bytes: u64) -> (r: String)
    ensures
        r@ == format_size_spec(bytes),
{
    let mut s = String::new();
    if bytes >= GIB {
        push_in_units(&mut s, bytes, GIB);
        s.append(" GB");
    } else if bytes >= MIB {
        push_in_units(&mut s, bytes, MIB);
        s.append(" MB");
    } else if bytes >= KIB {
        push_in_units(&mut s, bytes, KIB);
        s.append(" KB");
    } else {
        push_decimal(&mut s, bytes as u128);
        s.append(" B");
    }
    s
}

} // verus!
