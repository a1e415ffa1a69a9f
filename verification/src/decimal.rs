//! Decimal digit strings: their values, and the facts about them that the
//! size parser and formatter rest on.

use vstd::prelude::*;

use crate::text::push_char;

verus! {

/// `10` to the power `e`.
pub open spec fn pow10(e: nat) -> nat
    decreases e,
{
    if e == 0 {
        1
    } else {
        10 * pow10((e - 1) as nat)
    }
}

/// Whether `c` is one of the ASCII digits `0`..`9`.
pub open spec fn is_digit(c: char) -> bool {
    '0' <= c && c <= '9'
}

/// Whether every character of `s` is an ASCII digit.
pub open spec fn all_digits(s: Seq<char>) -> bool {
    forall|i: int| 0 <= i < s.len() ==> #[trigger] is_digit(s[i])
}

/// The value of the digit `c`.
pub open spec fn digit_value(c: char) -> nat {
    ((c as int) - ('0' as int)) as nat
}

/// The number that the digit string `s` writes in base ten (`0` for the empty string).
pub open spec fn digits_value(s: Seq<char>) -> nat
    decreases s.len(),
{
    if s.len() == 0 {
        0
    } else {
        digits_value(s.drop_last()) * 10 + digit_value(s.last())
    }
}

pub proof fn lemma_pow10_positive(e: nat)
    ensures
        pow10(e) >= 1,
    decreases e,
{
    if e > 0 {
        lemma_pow10_positive((e - 1) as nat);
    }
}

pub proof fn lemma_pow10_increases(a: nat, b: nat)
    requires
        a <= b,
    ensures
        pow10(a) <= pow10(b),
    decreases b,
{
    if a < b {
        lemma_pow10_increases(a, (b - 1) as nat);
        lemma_pow10_positive((b - 1) as nat);
    }
}

/// A digit string of length `n` is worth less than `10^n`.
pub proof fn lemma_digits_bound(s: Seq<char>)
    requires
        all_digits(s),
    ensures
        digits_value(s) < pow10(s.len()),
    decreases s.len(),
{
    if s.len() > 0 {
        let t = s.drop_last();
        assert(all_digits(t)) by {
            assert forall|i: int| 0 <= i < t.len() implies #[trigger] is_digit(t[i]) by {
                assert(is_digit(s[i]));
            }
        }
        lemma_digits_bound(t);
        assert(is_digit(s[s.len() - 1]));
        assert(digits_value(s) <= (pow10(t.len()) - 1) * 10 + 9) by (nonlinear_arith)
            requires
                digits_value(s) == digits_value(t) * 10 + digit_value(s.last()),
                digits_value(t) <= pow10(t.len()) - 1,
                digit_value(s.last()) <= 9,
        ;
    }
}

/// Splitting a digit string after its first `j` characters.
pub proof fn lemma_digits_split(s: Seq<char>, j: int)
    requires
        0 <= j <= s.len(),
    ensures
        digits_value(s) == digits_value(s.take(j)) * pow10((s.len() - j) as nat) + digits_value(
            s.skip(j),
        ),
    decreases s.len(),
{
    if j == s.len() {
        assert(s.take(j) =~= s);
        assert(s.skip(j) =~= Seq::<char>::empty());
        assert(pow10(0) == 1);
        assert(digits_value(Seq::<char>::empty()) == 0);
        assert((s.len() - j) as nat == 0);
        assert(digits_value(s) == digits_value(s.take(j)) * pow10((s.len() - j) as nat));
    } else {
        let t = s.drop_last();
        lemma_digits_split(t, j);
        assert(t.take(j) =~= s.take(j));
        assert(s.skip(j).drop_last() =~= t.skip(j));
        assert(s.skip(j).last() == s.last());
        let a = digits_value(s.take(j));
        let p = pow10((t.len() - j) as nat);
        assert(pow10((s.len() - j) as nat) == 10 * p);
        assert(digits_value(s) == (a * p + digits_value(t.skip(j))) * 10 + digit_value(s.last()));
        assert((a * p + digits_value(t.skip(j))) * 10 == a * (10 * p) + digits_value(t.skip(j)) * 10)
            by (nonlinear_arith);
        assert(digits_value(s.skip(j)) == digits_value(t.skip(j)) * 10 + digit_value(s.last()));
    }
}

/// The first digit of a string of length `n` counts `10^(n-1)` times.
pub proof fn lemma_digits_first(s: Seq<char>)
    requires
        s.len() > 0,
    ensures
        digits_value(s) == digit_value(s[0]) * pow10((s.len() - 1) as nat) + digits_value(
            s.drop_first(),
        ),
{
    lemma_digits_split(s, 1);
    assert(s.take(1).drop_last() =~= Seq::<char>::empty());
    assert(s.take(1).last() == s[0]);
    assert(digits_value(s.take(1).drop_last()) == 0);
    assert(digits_value(s.take(1)) == digit_value(s[0]));
    assert(s.skip(1) =~= s.drop_first());
}

/// Of two digit strings of one length, the one that is smaller at the first
/// place where they differ writes the smaller number.
pub proof fn lemma_digits_lex(s: Seq<char>, t: Seq<char>, k: int)
    requires
        all_digits(s),
        all_digits(t),
        s.len() == t.len(),
        0 <= k < s.len(),
        s.take(k) == t.take(k),
        digit_value(s[k]) < digit_value(t[k]),
    ensures
        digits_value(s) < digits_value(t),
{
    let n = s.len();
    let r = (n - k - 1) as nat;
    lemma_digits_split(s, k + 1);
    lemma_digits_split(t, k + 1);
    assert(s.take(k + 1).drop_last() =~= s.take(k));
    assert(t.take(k + 1).drop_last() =~= t.take(k));
    let a = digits_value(s.take(k));
    assert(digits_value(s.take(k + 1)) == a * 10 + digit_value(s[k]));
    assert(digits_value(t.take(k + 1)) == a * 10 + digit_value(t[k]));
    let rest = s.skip(k + 1);
    assert(all_digits(rest)) by {
        assert forall|i: int| 0 <= i < rest.len() implies #[trigger] is_digit(rest[i]) by {
            assert(is_digit(s[k + 1 + i]));
        }
    }
    lemma_digits_bound(rest);
    assert(rest.len() == r);
    let p = pow10(r);
    let x = digits_value(rest);
    let y = digits_value(t.skip(k + 1));
    assert((a * 10 + digit_value(s[k])) * p + x < (a * 10 + digit_value(t[k])) * p + y)
        by (nonlinear_arith)
        requires
            x < p,
            digit_value(s[k]) < digit_value(t[k]),
            y >= 0,
    ;
}

/// Leading zeros do not change the number that a digit string writes.
pub proof fn lemma_digits_leading_zero(s: Seq<char>)
    requires
        s.len() > 0,
        s[0] == '0',
    ensures
        digits_value(s) == digits_value(s.drop_first()),
{
    lemma_digits_first(s);
    assert(digit_value(s[0]) == 0);
    assert(0 * pow10((s.len() - 1) as nat) == 0);
}

/// A digit string of length `n` that does not start with `0` writes at least `10^(n-1)`.
pub proof fn lemma_digits_lower(s: Seq<char>)
    requires
        s.len() > 0,
        all_digits(s),
        s[0] != '0',
    ensures
        digits_value(s) >= pow10((s.len() - 1) as nat),
{
    lemma_digits_first(s);
    assert(is_digit(s[0]));
    assert(digit_value(s[0]) >= 1);
    let p = pow10((s.len() - 1) as nat);
    assert(digit_value(s[0]) * p >= p) by (nonlinear_arith)
        requires
            digit_value(s[0]) >= 1,
            p >= 0,
    ;
}

/// The ASCII digit for `d` (`0 <= d <= 9`).
pub open spec fn digit_char(d: nat) -> char {
    ((d as int) + ('0' as int)) as char
}

/// The decimal digits of `n`, most significant first, without leading zeros
/// (`0` is written `"0"`).
pub open spec fn decimal_digits(n: nat) -> Seq<char>
    decreases n,
{
    if n < 10 {
        seq![digit_char(n)]
    } else {
        decimal_digits(n / 10).push(digit_char(n % 10))
    }
}

/// The ASCII digit for `d`.
pub(crate) fn digit_to_char(d: u128) -> (c: char)
    requires
        d < 10,
    ensures
        c == digit_char(d as nat),
{
    ((d as u8) + 48) as char
}

/// Appends the decimal digits of `n` to `s`.
pub(crate) fn push_decimal(s: &mut String, n: u128)
    ensures
        final(s)@ == old(s)@ + decimal_digits(n as nat),
    decreases n,
{
    if n >= 10 {
        push_decimal(s, n / 10);
    }
    push_char(s, digit_to_char(n % 10));
    assert(s@ =~= old(s)@ + decimal_digits(n as nat));
}

/// The decimal text of `n` is a non-empty digit string that writes `n`.
pub proof fn lemma_decimal_digits(n: nat)
    ensures
        decimal_digits(n).len() > 0,
        all_digits(decimal_digits(n)),
        digits_value(decimal_digits(n)) == n,
    decreases n,
{
    let d = digit_char(n % 10);
    assert(d as int == (n % 10) + ('0' as int));
    assert(is_digit(d));
    assert(digit_value(d) == n % 10);
    if n < 10 {
        let t = decimal_digits(n);
        assert(t.drop_last() =~= Seq::<char>::empty());
        assert(digits_value(Seq::<char>::empty()) == 0);
    } else {
        lemma_decimal_digits(n / 10);
        let t = decimal_digits(n);
        assert(t.drop_last() =~= decimal_digits(n / 10));
        assert(all_digits(t)) by {
            assert forall|i: int| 0 <= i < t.len() implies #[trigger] is_digit(t[i]) by {
                if i < t.len() - 1 {
                    assert(t[i] == decimal_digits(n / 10)[i]);
                }
            }
        }
    }
}

} // verus!
