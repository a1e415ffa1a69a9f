//! What holds of size parsing across all inputs.

use vstd::prelude::*;

use crate::decimal::{
    all_digits, decimal_digits, digit_char, digit_value, digits_value, is_digit,
    lemma_decimal_digits, lemma_digits_lower, pow10,
};
use crate::float::{
    exp2, lemma_bytes_whole, lemma_exp2_53, lemma_exp2_le, lemma_exp2_positive, lemma_exp2_units,
    lemma_grid_error, lemma_reading_whole, lemma_saturated, round_to_f64_grid, saturated,
};
use vstd::arithmetic::div_mod::lemma_fundamental_div_mod;
use crate::size::{
    ascii_upper, div_round_even, dot_position, f64_of, f64_overflow_limit, f64_reading,
    f64_spacing, format_size_spec, fraction_digits, is_decimal_number, is_number_char, is_space,
    number_prefix_len, parse_size_spec, scaled_value, trim, trim_end, trim_start, two_decimals,
    unit_multiplier, upper_chars, whole_digits, F64_EXACT_LIMIT, F64_OVERFLOW_DIGITS, GIB, KIB,
    MIB,
};

verus! {

/// Whether every character of `w` is white space.
pub open spec fn all_space(w: Seq<char>) -> bool {
    forall|i: int| 0 <= i < w.len() ==> #[trigger] is_space(w[i])
}

proof fn lemma_trim_start_skips_space(w: Seq<char>, s: Seq<char>)
    requires
        all_space(w),
    ensures
        trim_start(w + s) == trim_start(s),
    decreases w.len(),
{
    if w.len() > 0 {
        assert((w + s)[0] == w[0]);
        assert((w + s).drop_first() =~= w.drop_first() + s);
        lemma_trim_start_skips_space(w.drop_first(), s);
    } else {
        assert(w + s =~= s);
    }
}

proof fn lemma_trim_end_skips_space(s: Seq<char>, w: Seq<char>)
    requires
        all_space(w),
    ensures
        trim_end(s + w) == trim_end(s),
    decreases w.len(),
{
    if w.len() > 0 {
        assert((s + w).last() == w.last());
        assert((s + w).drop_last() =~= s + w.drop_last());
        lemma_trim_end_skips_space(s, w.drop_last());
    } else {
        assert(s + w =~= s);
    }
}

proof fn lemma_trim_start_of_all_space(w: Seq<char>)
    requires
        all_space(w),
    ensures
        trim_start(w) == Seq::<char>::empty(),
    decreases w.len(),
{
    if w.len() > 0 {
        lemma_trim_start_of_all_space(w.drop_first());
    }
}

proof fn lemma_trim_start_append(s: Seq<char>, w: Seq<char>)
    requires
        all_space(w),
    ensures
        trim_start(s).len() > 0 ==> trim_start(s + w) == trim_start(s) + w,
        trim_start(s).len() == 0 ==> trim_start(s + w) == Seq::<char>::empty(),
    decreases s.len(),
{
    if s.len() == 0 {
        assert(s + w =~= w);
        lemma_trim_start_of_all_space(w);
    } else {
        assert((s + w)[0] == s[0]);
        assert((s + w).drop_first() =~= s.drop_first() + w);
        lemma_trim_start_append(s.drop_first(), w);
    }
}

/// White space around a size does not change the number of bytes it gives.
pub proof fn law_surrounding_space_ignored(w1: Seq<char>, s: Seq<char>, w2: Seq<char>)
    requires
        all_space(w1),
        all_space(w2),
    ensures
        parse_size_spec(w1 + s + w2) is Ok <==> parse_size_spec(s) is Ok,
        parse_size_spec(s) is Ok ==> parse_size_spec(w1 + s + w2) == parse_size_spec(s),
{
    assert(w1 + s + w2 =~= w1 + (s + w2));
    lemma_trim_start_skips_space(w1, s + w2);
    lemma_trim_start_append(s, w2);
    if trim_start(s).len() > 0 {
        lemma_trim_end_skips_space(trim_start(s), w2);
    }
    assert(trim(w1 + s + w2) == trim(s));
}

proof fn lemma_upper_char(c: char)
    ensures
        is_space(ascii_upper(c)) == is_space(c),
        is_number_char(ascii_upper(c)) == is_number_char(c),
        is_number_char(c) ==> ascii_upper(c) == c,
        ascii_upper(ascii_upper(c)) == ascii_upper(c),
{
    if 'a' <= c && c <= 'z' {
        let u = ascii_upper(c);
        assert(u as int == (c as int) - 32);
        assert('A' <= u && u <= 'Z');
    }
}

proof fn lemma_trim_start_upper(s: Seq<char>)
    ensures
        trim_start(upper_chars(s)) == upper_chars(trim_start(s)),
    decreases s.len(),
{
    if s.len() > 0 {
        lemma_upper_char(s[0]);
        assert(upper_chars(s).drop_first() =~= upper_chars(s.drop_first()));
        lemma_trim_start_upper(s.drop_first());
    }
}

proof fn lemma_trim_end_upper(s: Seq<char>)
    ensures
        trim_end(upper_chars(s)) == upper_chars(trim_end(s)),
    decreases s.len(),
{
    if s.len() > 0 {
        lemma_upper_char(s.last());
        assert(upper_chars(s).drop_last() =~= upper_chars(s.drop_last()));
        lemma_trim_end_upper(s.drop_last());
    }
}

proof fn lemma_number_prefix_upper(s: Seq<char>)
    ensures
        number_prefix_len(s) <= s.len(),
        number_prefix_len(upper_chars(s)) == number_prefix_len(s),
        upper_chars(s).take(number_prefix_len(s) as int) == s.take(number_prefix_len(s) as int),
    decreases s.len(),
{
    if s.len() > 0 {
        lemma_upper_char(s[0]);
        assert(upper_chars(s).drop_first() =~= upper_chars(s.drop_first()));
        lemma_number_prefix_upper(s.drop_first());
        let n = number_prefix_len(s) as int;
        if is_number_char(s[0]) {
            let t = s.drop_first();
            assert forall|i: int| 0 <= i < n implies #[trigger] upper_chars(s).take(n)[i] == s.take(
                n,
            )[i] by {
                if i > 0 {
                    assert(upper_chars(t).take(n - 1)[i - 1] == t.take(n - 1)[i - 1]);
                }
            }
            assert(upper_chars(s).take(n) =~= s.take(n));
        } else {
            assert(upper_chars(s).take(0) =~= s.take(0));
        }
    } else {
        assert(upper_chars(s).take(0) =~= s.take(0));
    }
}

proof fn lemma_upper_twice(s: Seq<char>)
    ensures
        upper_chars(upper_chars(s)) == upper_chars(s),
{
    assert forall|i: int| 0 <= i < s.len() implies #[trigger] upper_chars(upper_chars(s))[i]
        == upper_chars(s)[i] by {
        lemma_upper_char(s[i]);
    }
    assert(upper_chars(upper_chars(s)) =~= upper_chars(s));
}

/// Upper-casing the ASCII letters of a size does not change the number of
/// bytes it gives.
pub proof fn law_upper_case_same_size(a: Seq<char>)
    ensures
        parse_size_spec(upper_chars(a)) is Ok <==> parse_size_spec(a) is Ok,
        parse_size_spec(a) is Ok ==> parse_size_spec(upper_chars(a)) == parse_size_spec(a),
{
    let s = trim(a);
    lemma_trim_start_upper(a);
    lemma_trim_end_upper(trim_start(a));
    assert(trim(upper_chars(a)) == upper_chars(s));
    lemma_number_prefix_upper(s);
    let n = number_prefix_len(s) as int;
    assert(upper_chars(s).skip(n) =~= upper_chars(s.skip(n)));
    let rest = s.skip(n);
    lemma_trim_start_upper(rest);
    lemma_trim_end_upper(trim_start(rest));
    lemma_upper_twice(trim(rest));
}

/// Sizes that differ only in the case of their ASCII letters give the same
/// number of bytes: units are case-insensitive.
pub proof fn law_case_insensitive(a: Seq<char>, b: Seq<char>)
    requires
        upper_chars(a) == upper_chars(b),
    ensures
        parse_size_spec(a) is Ok <==> parse_size_spec(b) is Ok,
        parse_size_spec(a) is Ok ==> parse_size_spec(a) == parse_size_spec(b),
{
    law_upper_case_same_size(a);
    law_upper_case_same_size(b);
}

/// Sizes of `u64` stay far below the `f64` overflow limit.
proof fn lemma_overflow_limit_exceeds_u64()
    ensures
        f64_overflow_limit() > u64::MAX,
{
    reveal_strlit("179769313486231580793728971405303415079934132710037826936173778980444968292764750946649017977587207096330286416692887910946555547851940402630657488671505820681908902000708383676273854845817711531764475730270069855571366959622842914819860834936475292719074168444365510704342711559699508093042880177904174497792");
    assert(F64_OVERFLOW_DIGITS@.len() == 309);
    assert(all_digits(F64_OVERFLOW_DIGITS@));
    lemma_digits_lower(F64_OVERFLOW_DIGITS@);
    reveal_with_fuel(pow10, 21);
    assert(pow10(20) == 100000000000000000000);
    crate::decimal::lemma_pow10_increases(20, 308);
}

/// The letters of a unit are neither white space nor part of a number.
proof fn lemma_unit_letters(u: Seq<char>)
    requires
        unit_multiplier(upper_chars(u)) is Some,
    ensures
        forall|i: int| 0 <= i < u.len() ==> !is_space(#[trigger] u[i]) && !is_number_char(u[i]),
{
    let up = upper_chars(u);
    assert forall|i: int| 0 <= i < u.len() implies !is_space(#[trigger] u[i]) && !is_number_char(
        u[i],
    ) by {
        let c = up[i];
        assert(up.len() == u.len());
        assert(c == ascii_upper(u[i]));
        assert(c == 'B' || c == 'K' || c == 'I' || c == 'M' || c == 'G') by {
            if up == seq!['B'] {
                assert(i < 1);
                if i == 0 {
                    assert(seq!['B'][0] == 'B');
                }
            }             else if up == seq!['K'] {
                assert(i < 1);
                if i == 0 {
                    assert(seq!['K'][0] == 'K');
                }
            }             else if up == seq!['M'] {
                assert(i < 1);
                if i == 0 {
                    assert(seq!['M'][0] == 'M');
                }
            }             else if up == seq!['G'] {
                assert(i < 1);
                if i == 0 {
                    assert(seq!['G'][0] == 'G');
                }
            }             else if up == seq!['K', 'B'] {
                assert(i < 2);
                if i == 0 {
                    assert(seq!['K', 'B'][0] == 'K');
                }                 else if i == 1 {
                    assert(seq!['K', 'B'][1] == 'B');
                }
            }             else if up == seq!['K', 'I', 'B'] {
                assert(i < 3);
                if i == 0 {
                    assert(seq!['K', 'I', 'B'][0] == 'K');
                }                 else if i == 1 {
                    assert(seq!['K', 'I', 'B'][1] == 'I');
                }                 else if i == 2 {
                    assert(seq!['K', 'I', 'B'][2] == 'B');
                }
            }             else if up == seq!['M', 'B'] {
                assert(i < 2);
                if i == 0 {
                    assert(seq!['M', 'B'][0] == 'M');
                }                 else if i == 1 {
                    assert(seq!['M', 'B'][1] == 'B');
                }
            }             else if up == seq!['M', 'I', 'B'] {
                assert(i < 3);
                if i == 0 {
                    assert(seq!['M', 'I', 'B'][0] == 'M');
                }                 else if i == 1 {
                    assert(seq!['M', 'I', 'B'][1] == 'I');
                }                 else if i == 2 {
                    assert(seq!['M', 'I', 'B'][2] == 'B');
                }
            }             else if up == seq!['G', 'B'] {
                assert(i < 2);
                if i == 0 {
                    assert(seq!['G', 'B'][0] == 'G');
                }                 else if i == 1 {
                    assert(seq!['G', 'B'][1] == 'B');
                }
            }             else if up == seq!['G', 'I', 'B'] {
                assert(i < 3);
                if i == 0 {
                    assert(seq!['G', 'I', 'B'][0] == 'G');
                }                 else if i == 1 {
                    assert(seq!['G', 'I', 'B'][1] == 'I');
                }                 else if i == 2 {
                    assert(seq!['G', 'I', 'B'][2] == 'B');
                }
            }
        }
        lemma_upper_char(u[i]);
    }
}

/// Whether every character of `p` may belong to a number.
pub open spec fn all_number_chars(p: Seq<char>) -> bool {
    forall|i: int| 0 <= i < p.len() ==> #[trigger] is_number_char(p[i])
}

proof fn lemma_number_prefix_of(p: Seq<char>, rest: Seq<char>)
    requires
        all_number_chars(p),
        rest.len() == 0 || !is_number_char(rest[0]),
    ensures
        number_prefix_len(p + rest) == p.len(),
    decreases p.len(),
{
    if p.len() > 0 {
        assert(is_number_char(p[0]));
        assert((p + rest)[0] == p[0]);
        assert((p + rest).drop_first() =~= p.drop_first() + rest);
        assert(all_number_chars(p.drop_first())) by {
            assert forall|i: int| 0 <= i < p.drop_first().len() implies #[trigger] is_number_char(
                p.drop_first()[i],
            ) by {
                assert(is_number_char(p[i + 1]));
            }
        }
        lemma_number_prefix_of(p.drop_first(), rest);
    } else {
        assert(p + rest =~= rest);
    }
}

proof fn lemma_dot_after_digits(d: Seq<char>, t: Seq<char>)
    requires
        all_digits(d),
    ensures
        dot_position(d + t) == d.len() + dot_position(t),
    decreases d.len(),
{
    if d.len() > 0 {
        assert(is_digit(d[0]));
        assert((d + t)[0] == d[0]);
        assert((d + t).drop_first() =~= d.drop_first() + t);
        assert(all_digits(d.drop_first())) by {
            assert forall|i: int| 0 <= i < d.drop_first().len() implies #[trigger] is_digit(
                d.drop_first()[i],
            ) by {
                assert(is_digit(d[i + 1]));
            }
        }
        lemma_dot_after_digits(d.drop_first(), t);
    } else {
        assert(d + t =~= t);
    }
}

/// A whole number below `2^53` is read exactly, and so gives that many
/// units.
proof fn lemma_whole_scaled(d: Seq<char>, m: nat)
    requires
        digits_value(d) < F64_EXACT_LIMIT,
        digits_value(d) * m <= u64::MAX,
    ensures
        scaled_value(f64_reading(d, Seq::<char>::empty()), m) == digits_value(d) * m,
{
    reveal(scaled_value);
    reveal(f64_reading);
    lemma_exp2_53();
    let w = digits_value(d);
    lemma_reading_whole(w);
    lemma_bytes_whole(w, m);
    assert(pow10(0) == 1);
    assert(digits_value(Seq::<char>::empty()) == 0);
    assert(Seq::<char>::empty().len() == 0);
}

/// A whole number followed by a unit in any case is that many units: a
/// bare number is bytes, `K`/`KB`/`KiB` are 1024 bytes, and so on; for
/// numbers below `2^53`, which an `f64` holds exactly.
pub proof fn law_whole_units(d: Seq<char>, u: Seq<char>, m: u64)
    requires
        d.len() > 0,
        all_digits(d),
        unit_multiplier(upper_chars(u)) == Some(m),
        digits_value(d) < F64_EXACT_LIMIT,
        digits_value(d) * m <= u64::MAX,
    ensures
        parse_size_spec(d + u) == Ok::<u64, Seq<char>>((digits_value(d) * m) as u64),
{
    let x = d + u;
    lemma_unit_letters(u);
    assert(is_digit(d[0]));
    assert(x[0] == d[0]);
    assert(trim_start(x) == x);
    if u.len() > 0 {
        assert(x.last() == u.last());
        assert(!is_space(u[u.len() - 1]));
    } else {
        assert(x =~= d);
        assert(is_digit(d[d.len() - 1]));
    }
    assert(trim_end(x) == x);
    assert(trim(x) == x);
    assert(all_number_chars(d)) by {
        assert forall|i: int| 0 <= i < d.len() implies #[trigger] is_number_char(d[i]) by {
            assert(is_digit(d[i]));
        }
    }
    if u.len() > 0 {
        assert(!is_number_char(u[0]));
    }
    lemma_number_prefix_of(d, u);
    assert(x.take(d.len() as int) =~= d);
    assert(x.skip(d.len() as int) =~= u);
    lemma_dot_after_digits(d, Seq::<char>::empty());
    assert(d + Seq::<char>::empty() =~= d);
    assert(d.take(d.len() as int) =~= d);
    if u.len() > 0 {
        assert(!is_space(u[0]));
        assert(trim_start(u) == u);
        assert(!is_space(u[u.len() - 1]));
        assert(trim_end(u) == u);
    }
    assert(trim(u) == u);
    lemma_overflow_limit_exceeds_u64();
    let w = digits_value(d);
    lemma_whole_scaled(d, m as nat);
    assert(whole_digits(d) == d);
    assert(fraction_digits(d) =~= Seq::<char>::empty());
    assert(is_decimal_number(d));
    assert(number_prefix_len(trim(x)) == d.len());
    assert(trim(x).take(d.len() as int) == d);
    assert(m >= 1);
    assert(w <= w * m) by (nonlinear_arith)
        requires
            m >= 1,
    ;
    assert(digits_value(d) < f64_overflow_limit());
    assert(upper_chars(trim(trim(x).skip(d.len() as int))) == upper_chars(u));
}

/// The text `q.r u` (two decimals, a space, a unit name) parses to `q.r`
/// units, rounded to the byte.
proof fn lemma_parse_units_text(q: nat, r: nat, name: Seq<char>, m: u64)
    requires
        r < 100,
        q <= u64::MAX,
        name.len() > 0,
        unit_multiplier(upper_chars(name)) == Some(m),
    ensures
        parse_size_spec(
            decimal_digits(q) + seq!['.', digit_char(r / 10), digit_char(r % 10)] + seq![' ']
                + name,
        ) == Ok::<u64, Seq<char>>(
            scaled_value(
                f64_reading(decimal_digits(q), seq![digit_char(r / 10), digit_char(r % 10)]),
                m as nat,
            ),
        ),
        digits_value(seq![digit_char(r / 10), digit_char(r % 10)]) == r,
        digits_value(decimal_digits(q)) == q,
{
    let d = decimal_digits(q);
    let c1 = digit_char(r / 10);
    let c2 = digit_char(r % 10);
    let frac = seq![c1, c2];
    let num = d + seq!['.'] + frac;
    let tail = seq![' '] + name;
    let x = d + seq!['.', c1, c2] + seq![' '] + name;
    assert(x =~= num + tail);
    lemma_decimal_digits(q);
    lemma_unit_letters(name);
    assert(c1 as int == (r / 10) + ('0' as int));
    assert(c2 as int == (r % 10) + ('0' as int));
    assert(is_digit(c1) && is_digit(c2));
    // the whole text is already trimmed
    assert(is_digit(d[0]));
    assert(x[0] == d[0]);
    assert(trim_start(x) == x);
    assert(x.last() == name.last());
    assert(!is_space(name[name.len() - 1]));
    assert(trim_end(x) == x);
    assert(trim(x) == x);
    // the number is the digits, the point and two decimals
    assert(all_number_chars(num)) by {
        assert forall|i: int| 0 <= i < num.len() implies #[trigger] is_number_char(num[i]) by {
            if i < d.len() {
                assert(num[i] == d[i]);
                assert(is_digit(d[i]));
            }
        }
    }
    assert(!is_number_char(tail[0]));
    lemma_number_prefix_of(num, tail);
    assert(x.take(num.len() as int) =~= num);
    assert(x.skip(num.len() as int) =~= tail);
    lemma_dot_after_digits(d, seq!['.'] + frac);
    assert(d + (seq!['.'] + frac) =~= num);
    assert(dot_position(num) == d.len());
    assert(whole_digits(num) =~= d);
    assert(fraction_digits(num) =~= frac);
    assert(all_digits(frac));
    assert(is_decimal_number(num));
    lemma_overflow_limit_exceeds_u64();
    // the fraction is worth r hundredths
    assert(frac.drop_last() =~= seq![c1]);
    assert(seq![c1].drop_last() =~= Seq::<char>::empty());
    assert(digits_value(Seq::<char>::empty()) == 0);
    assert(digit_value(c1) == r / 10);
    assert(digit_value(c2) == r % 10);
    assert(seq![c1].last() == c1);
    assert(digits_value(seq![c1]) == r / 10);
    assert(frac.last() == c2);
    assert(digits_value(frac) == (r / 10) * 10 + r % 10);
    assert(digits_value(frac) == r);
    reveal_with_fuel(pow10, 3);
    assert(pow10(2) == 100);
    // the unit follows one space
    assert(tail[0] == ' ');
    assert(tail.drop_first() =~= name);
    assert(!is_space(name[0]));
    assert(trim_start(name) == name);
    assert(trim_start(tail) == name);
    assert(trim_end(name) == name);
    assert(trim(tail) == name);
}

/// The text `q u` (a whole number, a space, a unit name) parses to `q` units.
proof fn lemma_parse_whole_text(q: nat, name: Seq<char>, m: u64)
    requires
        q < F64_EXACT_LIMIT,
        q * m <= u64::MAX,
        name.len() > 0,
        unit_multiplier(upper_chars(name)) == Some(m),
    ensures
        parse_size_spec(decimal_digits(q) + seq![' '] + name) == Ok::<u64, Seq<char>>(
            (q * m) as u64,
        ),
{
    let d = decimal_digits(q);
    let tail = seq![' '] + name;
    let x = d + seq![' '] + name;
    assert(x =~= d + tail);
    lemma_decimal_digits(q);
    lemma_unit_letters(name);
    assert(is_digit(d[0]));
    assert(x[0] == d[0]);
    assert(trim_start(x) == x);
    assert(x.last() == name.last());
    assert(!is_space(name[name.len() - 1]));
    assert(trim_end(x) == x);
    assert(all_number_chars(d)) by {
        assert forall|i: int| 0 <= i < d.len() implies #[trigger] is_number_char(d[i]) by {
            assert(is_digit(d[i]));
        }
    }
    assert(!is_number_char(tail[0]));
    lemma_number_prefix_of(d, tail);
    assert(x.take(d.len() as int) =~= d);
    assert(x.skip(d.len() as int) =~= tail);
    lemma_dot_after_digits(d, Seq::<char>::empty());
    assert(d + Seq::<char>::empty() =~= d);
    assert(whole_digits(d) =~= d);
    assert(fraction_digits(d) =~= Seq::<char>::empty());
    assert(is_decimal_number(d));
    assert(m >= 1);
    assert(q <= q * m) by (nonlinear_arith)
        requires
            m >= 1,
    ;
    lemma_overflow_limit_exceeds_u64();
    assert(tail.drop_first() =~= name);
    assert(!is_space(name[0]));
    assert(trim_start(name) == name);
    assert(trim_start(tail) == name);
    assert(trim_end(name) == name);
    assert(trim(tail) == name);
    lemma_decimal_digits(q);
    lemma_whole_scaled(d, m as nat);
}

/// The unit, in bytes, that `format_size` writes a size in.
pub open spec fn display_unit(b: u64) -> nat {
    if b >= GIB {
        GIB as nat
    } else if b >= MIB {
        MIB as nat
    } else if b >= KIB {
        KIB as nat
    } else {
        1
    }
}

proof fn lemma_spacing_small(b: nat)
    ensures
        f64_spacing(b) >= 1,
        f64_spacing(b) == 1 || f64_spacing(b) * 0x10_0000_0000_0000 <= b,
    decreases b,
{
    if b >= F64_EXACT_LIMIT {
        lemma_spacing_small(b / 2);
    }
}

/// Below `2^53` a byte count is exactly an `f64`.
pub proof fn law_f64_exact_below_2_pow_53(b: nat)
    requires
        b < F64_EXACT_LIMIT,
    ensures
        f64_of(b) == b,
{
    assert(f64_spacing(b) == 1);
    assert(b / 1nat == b && b % 1nat == 0);
}

/// Converting a byte count to `f64` moves it by at most 2048.
proof fn lemma_f64_of_close(b: u64)
    ensures
        f64_of(b as nat) <= b + 2048,
{
    let u = f64_spacing(b as nat);
    lemma_spacing_small(b as nat);
    let q = (b as nat) / u;
    let r = (b as nat) % u;
    assert(b == q * u + r && r < u) by (nonlinear_arith)
        requires
            u >= 1,
            q == (b as nat) / u,
            r == (b as nat) % u,
    ;
    assert(u < 4096) by (nonlinear_arith)
        requires
            u == 1 || u * 0x10_0000_0000_0000 <= b,
            b <= 0xffff_ffff_ffff_ffffu64,
    ;
    if 2 * r > u || (2 * r == u && q % 2 == 1) {
        assert((q + 1) * u == q * u + u) by (nonlinear_arith);
    }
}

/// Rounding `n / d` to an integer, ties to even, errs by at most a half.
proof fn lemma_round_even_error(n: nat, d: nat)
    requires
        d > 0,
    ensures
        2 * (div_round_even(n, d) * d) <= 2 * n + d,
        2 * n <= 2 * (div_round_even(n, d) * d) + d,
{
    let q = n / d;
    let r = n % d;
    assert(n == q * d + r && 0 <= r < d) by (nonlinear_arith)
        requires
            d > 0,
            q == n / d,
            r == n % d,
    ;
    if 2 * r > d || (2 * r == d && q % 2 == 1) {
        assert((q + 1) * d == q * d + d) by (nonlinear_arith);
    }
}

/// The bytes that the text of `h` hundredths of the unit `m` parses to lie
/// within half a hundredth of the unit plus a byte, plus one part in `2^53`
/// of `f`, of the byte count `f` that `h` rounds.
proof fn lemma_hundredths_read_back(f: nat, m: nat, h: nat)
    requires
        1 <= m <= 0x4000_0000,
        h == div_round_even(f * 100, m),
    ensures
        ({
            let z = exp2(1074);
            let v = (2 * round_to_f64_grid(h * z, 100) * m + z) / (2 * z);
            let e = exp2(53);
            &&& e * (200 * v) <= e * (200 * f) + e * (m + 200) + 200 * f + m
            &&& e * (200 * f) <= e * (200 * v) + e * (m + 200) + 200 * f + m
        }),
{
    let z = exp2(1074);
    let e = exp2(52);
    let e53 = exp2(53);
    assert(e53 == 2 * e);
    lemma_exp2_units();
    lemma_exp2_le(30, 1074);
    assert(m <= z);
    lemma_exp2_positive(1074);
    let n = h * z;
    lemma_grid_error(n, 100);
    let r = round_to_f64_grid(n, 100);
    lemma_round_even_error(f * 100, m);
    assert(2 * (h * m) <= 200 * f + m && 200 * f <= 2 * (h * m) + m);
    let t = 2 * r * m + z;
    lemma_fundamental_div_mod(t as int, (2 * z) as int);
    let v = t / (2 * z);
    let hm = h * m;
    lemma_exp2_positive(52);
    let zv = z * v;
    let rem = t % (2 * z);
    let rm = r * m;
    let er = e * r;
    let en = e * n;
    assert(t == 2 * zv + rem) by (nonlinear_arith)
        requires
            t == 2 * z * v + rem,
            zv == z * v,
    ;
    assert(t == 2 * rm + z) by (nonlinear_arith)
        requires
            t == 2 * r * m + z,
            rm == r * m,
    ;
    assert(200 * er <= 2 * en + 100 * e + n) by (nonlinear_arith)
        requires
            e * (2 * (r * 100)) <= e * (2 * n) + e * 100 + n,
            er == e * r,
            en == e * n,
    ;
    assert(e * (2 * n) <= e * (2 * (r * 100)) + e * 100 + n ==> 2 * en <= 200 * er + 100 * e + n)
        by (nonlinear_arith)
        requires
            er == e * r,
            en == e * n,
    ;
    // the products that the bounds combine
    assert(m * er == e * rm && m * en == e * hm * z && m * n == hm * z) by (nonlinear_arith)
        requires
            er == e * r,
            en == e * n,
            rm == r * m,
            n == h * z,
            hm == h * m,
    ;
    assert(e * zv == z * (e * v)) by (nonlinear_arith)
        requires
            zv == z * v,
    ;
    // from above
    assert(e * (2 * zv) <= e * (2 * rm + z)) by (nonlinear_arith)
        requires
            2 * zv <= 2 * rm + z,
            e >= 1,
    ;
    assert(m * (200 * er) <= m * (2 * en + 100 * e + n)) by (nonlinear_arith)
        requires
            200 * er <= 2 * en + 100 * e + n,
    ;
    assert(e * m <= e * z) by (nonlinear_arith)
        requires
            m <= z,
            e >= 1,
    ;
    assert(z * (e * v) * 400 <= z * (4 * (e * hm) + 2 * hm + 400 * e)) by (nonlinear_arith)
        requires
            e * (2 * zv) <= e * (2 * rm + z),
            m * (200 * er) <= m * (2 * en + 100 * e + n),
            m * er == e * rm,
            m * en == e * hm * z,
            m * n == hm * z,
            e * zv == z * (e * v),
            e * m <= e * z,
    ;
    assert(e * v * 400 <= 4 * (e * hm) + 2 * hm + 400 * e) by (nonlinear_arith)
        requires
            z * (e * v) * 400 <= z * (4 * (e * hm) + 2 * hm + 400 * e),
            z >= 1,
    ;
    assert(e53 * (200 * v) <= e53 * (2 * hm) + 2 * hm + e53 * 200) by (nonlinear_arith)
        requires
            e * v * 400 <= 4 * (e * hm) + 2 * hm + 400 * e,
            e53 == 2 * e,
    ;
    // from below
    assert(rem < 2 * z);
    assert(e * (2 * rm) < e * (2 * zv + z)) by (nonlinear_arith)
        requires
            2 * rm + z == 2 * zv + rem,
            rem < 2 * z,
            e >= 1,
    ;
    assert(m * (2 * en) <= m * (200 * er + 100 * e + n)) by (nonlinear_arith)
        requires
            2 * en <= 200 * er + 100 * e + n,
    ;
    assert(z * (4 * (e * hm)) < z * (e * v * 400 + 400 * e + 2 * hm)) by (nonlinear_arith)
        requires
            e * (2 * rm) < e * (2 * zv + z),
            m * (2 * en) <= m * (200 * er + 100 * e + n),
            m * er == e * rm,
            m * en == e * hm * z,
            m * n == hm * z,
            e * zv == z * (e * v),
            e * m <= e * z,
    ;
    assert(4 * (e * hm) < e * v * 400 + 400 * e + 2 * hm) by (nonlinear_arith)
        requires
            z * (4 * (e * hm)) < z * (e * v * 400 + 400 * e + 2 * hm),
            z >= 1,
    ;
    assert(e53 * (2 * hm) < e53 * (200 * v) + e53 * 200 + 2 * hm) by (nonlinear_arith)
        requires
            4 * (e * hm) < e * v * 400 + 400 * e + 2 * hm,
            e53 == 2 * e,
    ;
    assert(e53 * (200 * v) <= e53 * (200 * f) + e53 * (m + 200) + 200 * f + m
        && e53 * (200 * f) <= e53 * (200 * v) + e53 * (m + 200) + 200 * f + m) by (nonlinear_arith)
        requires
            e53 * (200 * v) <= e53 * (2 * hm) + 2 * hm + e53 * 200,
            e53 * (2 * hm) < e53 * (200 * v) + e53 * 200 + 2 * hm,
            2 * hm <= 200 * f + m,
            200 * f <= 2 * hm + m,
            e53 >= 1,
    ;
}

/// [`law_format_then_parse`] for sizes of 1 KB and more.
#[verifier::rlimit(30)]
proof fn lemma_units_read_back(b: u64)
    requires
        b >= KIB,
    ensures
        parse_size_spec(format_size_spec(b)) is Ok,
        ({
            let v = parse_size_spec(format_size_spec(b))->Ok_0 as nat;
            let f = f64_of(b as nat);
            let u = display_unit(b);
            let e = exp2(53);
            &&& e * (200 * v) <= e * (200 * f) + e * (u + 200) + 200 * f + u
            &&& e * (200 * f) <= e * (200 * v) + e * (u + 200) + 200 * f + u
        }),
{
    lemma_f64_of_close(b);
    let f = f64_of(b as nat);
    let u = display_unit(b);
    let h = div_round_even(f * 100, u);
    let name = if b >= GIB {
        seq!['G', 'B']
    } else if b >= MIB {
        seq!['M', 'B']
    } else {
        seq!['K', 'B']
    };
    reveal_strlit(" GB");
    reveal_strlit(" MB");
    reveal_strlit(" KB");
    assert(upper_chars(name) =~= name);
    let m: u64 = if b >= GIB {
        GIB
    } else if b >= MIB {
        MIB
    } else {
        KIB
    };
    assert(u >= KIB);
    assert(h <= f * 100 / u + 1);
    let q0 = f * 100 / u;
    let r0 = (f * 100) % u;
    lemma_fundamental_div_mod((f * 100) as int, u as int);
    assert(h / 100 <= u64::MAX) by (nonlinear_arith)
        requires
            f * 100 == u * q0 + r0,
            u >= 1024,
            h <= q0 + 1,
            f <= b + 2048,
            b <= u64::MAX,
    ;
    assert(h % 10 == (h % 100) % 10) by (nonlinear_arith);
    lemma_parse_units_text(h / 100, h % 100, name, m);
    assert(h == (h / 100) * 100 + h % 100);
    assert(two_decimals(h) + seq![' '] + name =~= decimal_digits(h / 100) + seq![
        '.',
        digit_char((h % 100) / 10),
        digit_char((h % 100) % 10),
    ] + seq![' '] + name);
    if b >= GIB {
        assert(" GB"@ =~= seq![' '] + name);
    } else if b >= MIB {
        assert(" MB"@ =~= seq![' '] + name);
    } else {
        assert(" KB"@ =~= seq![' '] + name);
    }
    assert(format_size_spec(b) =~= two_decimals(h) + seq![' '] + name);
    // the number read back
    let d = decimal_digits(h / 100);
    let frac = seq![digit_char((h % 100) / 10), digit_char((h % 100) % 10)];
    reveal(f64_reading);
    reveal(scaled_value);
    reveal_with_fuel(pow10, 3);
    assert(frac.len() == 2);
    assert(pow10(2) == 100);
    let z = exp2(1074);
    assert(digits_value(d) * 100 + digits_value(frac) == h);
    let rd = round_to_f64_grid(h * z, 100);
    assert(f64_reading(d, frac) == rd);
    assert(u == m as nat);
    lemma_hundredths_read_back(f, m as nat, h);
    let v0 = ((2 * rd * m + z) as nat) / (2 * z);
    let v = parse_size_spec(format_size_spec(b))->Ok_0 as nat;
    assert(v == saturated(v0));
    let e = exp2(53);
    lemma_exp2_53();
    lemma_f64_of_close(b);
    if v0 > u64::MAX {
        assert(v == u64::MAX);
        assert(b >= GIB) by {
            if b < GIB {
                law_f64_exact_below_2_pow_53(b as nat);
                assert(f < GIB);
                assert(u <= MIB);
                assert(200 * v0 <= 200 * f + u + 201) by (nonlinear_arith)
                    requires
                        e * (200 * v0) <= e * (200 * f) + e * (u + 200) + 200 * f + u,
                        200 * f + u < e,
                        e >= 1,
                ;
            }
        }
        assert(e * (200 * f) <= e * (200 * v) + e * (u + 200)) by (nonlinear_arith)
            requires
                f <= b + 2048,
                b <= v,
                u == GIB,
                e >= 1,
        ;
        assert(e * (200 * v) <= e * (200 * v0)) by (nonlinear_arith)
            requires
                v <= v0,
                e >= 1,
        ;
    } else {
        lemma_saturated(v0);
        assert(v == v0);
    }
    assert(e * (200 * v) <= e * (200 * f) + e * (u + 200) + 200 * f + u);
    assert(e * (200 * f) <= e * (200 * v) + e * (u + 200) + 200 * f + u);
}

/// Formatting a size and parsing the text back gives it again: every text
/// that `format_size` writes parses; below 1 KB it parses to the size
/// itself; and otherwise to within half a hundredth of the unit shown plus a
/// byte, plus one part in `2^53` of the `f64` value that the text prints
/// (which is the size itself below `2^53` bytes, see
/// [`law_f64_exact_below_2_pow_53`]). The last part is the rounding of the
/// printed number to the nearest `f64` when it is read back.
pub proof fn law_format_then_parse(b: u64)
    ensures
        parse_size_spec(format_size_spec(b)) is Ok,
        b < KIB ==> parse_size_spec(format_size_spec(b)) == Ok::<u64, Seq<char>>(b),
        ({
            let v = parse_size_spec(format_size_spec(b))->Ok_0 as nat;
            let f = f64_of(b as nat);
            let u = display_unit(b);
            let e = exp2(53);
            &&& e * (200 * v) <= e * (200 * f) + e * (u + 200) + 200 * f + u
            &&& e * (200 * f) <= e * (200 * v) + e * (u + 200) + 200 * f + u
        }),
{
    if b < KIB {
        law_f64_exact_below_2_pow_53(b as nat);
        reveal_strlit(" B");
        assert(" B"@ =~= seq![' '] + seq!['B']);
        assert(upper_chars(seq!['B']) =~= seq!['B']);
        lemma_parse_whole_text(b as nat, seq!['B'], 1);
        assert(format_size_spec(b) =~= decimal_digits(b as nat) + seq![' '] + seq!['B']);
        assert(display_unit(b) == 1);
    } else {
        lemma_units_read_back(b);
    }
}

/// The unit that `format_size` writes: bytes below 1024 as a whole number
/// of `B`, then `KB` from 1024, `MB` from 1048576 and `GB` from 1073741824.
pub proof fn law_format_size_unit(b: u64)
    ensures
        b < 1024 ==> format_size_spec(b) == decimal_digits(b as nat) + " B"@,
        1024 <= b < 1048576 ==> format_size_spec(b).skip(format_size_spec(b).len() - 3)
            == " KB"@,
        1048576 <= b < 1073741824 ==> format_size_spec(b).skip(format_size_spec(b).len() - 3)
            == " MB"@,
        1073741824 <= b ==> format_size_spec(b).skip(format_size_spec(b).len() - 3) == " GB"@,
{
    reveal_strlit(" KB");
    reveal_strlit(" MB");
    reveal_strlit(" GB");
    if b >= 1024 {
        let u: nat = if b >= 1073741824 {
            1073741824
        } else if b >= 1048576 {
            1048576
        } else {
            1024
        };
        let t = two_decimals(div_round_even(f64_of(b as nat) * 100, u));
        if b >= 1073741824 {
            assert((t + " GB"@).skip((t + " GB"@).len() - 3) =~= " GB"@);
        } else if b >= 1048576 {
            assert((t + " MB"@).skip((t + " MB"@).len() - 3) =~= " MB"@);
        } else {
            assert((t + " KB"@).skip((t + " KB"@).len() - 3) =~= " KB"@);
        }
    }
}

} // verus!
