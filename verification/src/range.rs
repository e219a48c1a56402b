//! The size of a coordinate: which literals a single-precision number can
//! hold without becoming infinite.

use crate::number::{
    count_digits, decimal_value, is_digit, is_exponent, is_float_literal, is_float_word,
    is_number, is_special, is_special_at, lemma_decimal_value_prefix, strip_sign,
};
use crate::text::{copy_range, lemma_prefix_len_bounds, prefix_len};
use vstd::prelude::*;

verus! {

/// The least magnitude that rounds to infinity in single precision: half way
/// between the largest finite value, 2^128 - 2^104, and 2^128.
pub const SINGLE_LIMIT: u128 = 340282356779733661637539395458142568448;

/// Exponents of this size and more decide the matter without the digits.
const EXPONENT_CAP: u128 = 100000000000000000000;

/// Ten to the power `n`.
pub open spec fn pow10(n: nat) -> nat
    decreases n,
{
    if n == 0 {
        1
    } else {
        10 * pow10((n - 1) as nat)
    }
}

/// Whether every character of `s` is a decimal digit.
pub open spec fn all_digits(s: Seq<char>) -> bool {
    forall|k: int| 0 <= k < s.len() ==> is_digit(#[trigger] s[k])
}

/// The digits of an unsigned number, those before the dot followed by those
/// after it.
pub open spec fn number_digits(s: Seq<char>) -> Seq<char> {
    let digits = prefix_len(s, |c: char| is_digit(c));
    let tail = s.skip(digits as int);
    if tail.len() > 0 && tail[0] == '.' {
        let after = tail.drop_first();
        s.take(digits as int) + after.take(prefix_len(after, |c: char| is_digit(c)) as int)
    } else {
        s.take(digits as int)
    }
}

/// How many digits of an unsigned number stand after the dot.
pub open spec fn number_fraction_len(s: Seq<char>) -> nat {
    let digits = prefix_len(s, |c: char| is_digit(c));
    let tail = s.skip(digits as int);
    if tail.len() > 0 && tail[0] == '.' {
        prefix_len(tail.drop_first(), |c: char| is_digit(c))
    } else {
        0
    }
}

/// The exponent part of an unsigned number: what follows its digits and dot.
pub open spec fn number_exponent(s: Seq<char>) -> Seq<char> {
    let digits = prefix_len(s, |c: char| is_digit(c));
    let tail = s.skip(digits as int);
    if tail.len() > 0 && tail[0] == '.' {
        let after = tail.drop_first();
        after.skip(prefix_len(after, |c: char| is_digit(c)) as int)
    } else {
        tail
    }
}

/// The power of ten that an exponent part names; none is zero.
pub open spec fn exponent_value(s: Seq<char>) -> int {
    if s.len() == 0 {
        0
    } else {
        let after = s.drop_first();
        let magnitude = decimal_value(strip_sign(after)) as int;
        if after.len() > 0 && after[0] == '-' {
            -magnitude
        } else {
            magnitude
        }
    }
}

/// Whether the number with the digits `digits`, read as an integer and
/// multiplied by ten to the power `scale`, is less than `limit`.
pub open spec fn magnitude_below(digits: Seq<char>, scale: int, limit: nat) -> bool {
    if scale >= 0 {
        decimal_value(digits) * pow10(scale as nat) < limit
    } else {
        decimal_value(digits) < limit * pow10((-scale) as nat)
    }
}

/// Whether an unsigned number rounds to a finite single-precision value: its
/// exact decimal value is less than [`SINGLE_LIMIT`].
pub open spec fn is_finite_number(s: Seq<char>) -> bool {
    magnitude_below(
        number_digits(s),
        exponent_value(number_exponent(s)) - number_fraction_len(s),
        SINGLE_LIMIT as nat,
    )
}

/// The coordinates: the coordinate literals that name a special value or a
/// number within single-precision range.  A number too large to be held
/// is no coordinate; one too small to be told from zero is.
pub open spec fn is_coordinate(s: Seq<char>) -> bool {
    is_float_literal(s) && (is_special(strip_sign(s)) || is_finite_number(strip_sign(s)))
}

/// Powers of ten are positive and grow with the exponent.
pub proof fn lemma_pow10_grows(a: nat, b: nat)
    requires
        a <= b,
    ensures
        1 <= pow10(a) <= pow10(b),
    decreases b,
{
    if b > 0 {
        if a < b {
            lemma_pow10_grows(a, (b - 1) as nat);
        } else {
            lemma_pow10_grows((a - 1) as nat, (b - 1) as nat);
        }
    }
}

/// Ten to the thirty-ninth is more than the limit.
pub proof fn lemma_pow10_39()
    ensures
        pow10(39) == 1000000000000000000000000000000000000000nat,
        pow10(39) > SINGLE_LIMIT,
{
    reveal_with_fuel(pow10, 40);
}

/// A numeral of `n` digits is worth less than ten to the power `n`.
pub proof fn lemma_decimal_value_bound(s: Seq<char>)
    requires
        all_digits(s),
    ensures
        decimal_value(s) < pow10(s.len()),
    decreases s.len(),
{
    if s.len() > 0 {
        assert(all_digits(s.drop_last())) by {
            assert forall|k: int| 0 <= k < s.drop_last().len() implies is_digit(
                #[trigger] s.drop_last()[k],
            ) by {
                assert(s.drop_last()[k] == s[k]);
            }
        }
        lemma_decimal_value_bound(s.drop_last());
        assert(is_digit(s.last()));
    }
}

/// A numeral followed by `n` more digits is worth the numeral times ten to
/// the power `n`, plus what the digits are worth.
pub proof fn lemma_decimal_value_concat(a: Seq<char>, b: Seq<char>)
    ensures
        decimal_value(a + b) == decimal_value(a) * pow10(b.len()) + decimal_value(b),
    decreases b.len(),
{
    if b.len() == 0 {
        assert(a + b == a);
        assert(decimal_value(a) * 1 == decimal_value(a));
    } else {
        let init = b.drop_last();
        assert((a + b).drop_last() == a + init);
        assert((a + b).last() == b.last());
        lemma_decimal_value_concat(a, init);
        let x = decimal_value(a) as int;
        let p = pow10(init.len()) as int;
        assert(10 * (x * p) == x * (10 * p)) by (nonlinear_arith);
    }
}

/// Where the scale outweighs the digits, the digits no longer matter: far
/// below zero every number is small enough, and from thirty-nine on only
/// zero is.
pub proof fn lemma_extreme_scale(digits: Seq<char>, scale: int)
    requires
        all_digits(digits),
    ensures
        scale + digits.len() <= 0 ==> magnitude_below(digits, scale, SINGLE_LIMIT as nat),
        scale >= 39 ==> magnitude_below(digits, scale, SINGLE_LIMIT as nat) == (decimal_value(
            digits,
        ) == 0),
{
    let d = decimal_value(digits) as int;
    let limit = SINGLE_LIMIT as int;
    if scale + digits.len() <= 0 {
        let m = (-scale) as nat;
        lemma_decimal_value_bound(digits);
        lemma_pow10_grows(digits.len(), m);
        let p = pow10(m) as int;
        assert(limit * p >= p) by (nonlinear_arith)
            requires
                limit >= 1,
                p >= 1,
        ;
    }
    if scale >= 39 {
        let p = pow10(scale as nat) as int;
        lemma_pow10_grows(39, scale as nat);
        lemma_pow10_39();
        if d >= 1 {
            assert(d * p >= p) by (nonlinear_arith)
                requires
                    d >= 1,
                    p >= 1,
            ;
        } else {
            assert(d * p == 0) by (nonlinear_arith)
                requires
                    d == 0,
            ;
        }
    }
}

/// With digits cut off the end by a scale below zero, the number is below
/// the limit exactly when the digits that remain are.
pub proof fn lemma_cut_scale(digits: Seq<char>, scale: int, limit: nat)
    requires
        all_digits(digits),
        scale < 0,
        scale + digits.len() > 0,
    ensures
        magnitude_below(digits, scale, limit) == (decimal_value(
            digits.take(scale + digits.len()),
        ) < limit),
{
    let keep = scale + digits.len();
    let head = digits.take(keep);
    let tail = digits.skip(keep);
    assert(head + tail == digits);
    assert(all_digits(tail)) by {
        assert forall|k: int| 0 <= k < tail.len() implies is_digit(#[trigger] tail[k]) by {
            assert(tail[k] == digits[keep + k]);
        }
    }
    lemma_decimal_value_concat(head, tail);
    lemma_decimal_value_bound(tail);
    let h = decimal_value(head) as int;
    let t = decimal_value(tail) as int;
    let p = pow10(tail.len()) as int;
    let l = limit as int;
    assert(tail.len() == -scale);
    if h < l {
        assert(h * p + t < l * p) by (nonlinear_arith)
            requires
                h + 1 <= l,
                0 <= t < p,
        ;
    } else {
        assert(h * p + t >= l * p) by (nonlinear_arith)
            requires
                h >= l,
                l >= 0,
                t >= 0,
                p >= 0,
        ;
    }
}

/// The value of the digits `digits[from..to]` where it is less than `limit`.
fn value_below(digits: &[char], from: usize, to: usize, limit: u128) -> (r: Option<u128>)
    requires
        from <= to <= digits@.len(),
        all_digits(digits@.subrange(from as int, to as int)),
    ensures
        match r {
            Some(v) => v == decimal_value(digits@.subrange(from as int, to as int)) && v < limit,
            None => decimal_value(digits@.subrange(from as int, to as int)) >= limit,
        },
{
    let ghost all = digits@.subrange(from as int, to as int);
    if limit == 0 {
        return None;
    }
    let mut value: u128 = 0;
    let mut i: usize = from;
    assert(all.take(0) == Seq::<char>::empty());
    while i < to
        invariant
            from <= i <= to <= digits@.len(),
            all == digits@.subrange(from as int, to as int),
            all_digits(all),
            value == decimal_value(all.take(i - from)),
            value < limit,
        decreases to - i,
    {
        let c = digits[i];
        proof {
            assert(all[i - from] == c);
            assert(all.take(i - from + 1).drop_last() == all.take(i - from));
            assert(all.take(i - from + 1).last() == c);
            lemma_decimal_value_prefix(all, i - from + 1);
        }
        let digit: u128 = (c as u32 - 0x30) as u128;
        let scaled = match value.checked_mul(10) {
            Some(v) => v,
            None => {
                return None;
            },
        };
        let next = match scaled.checked_add(digit) {
            Some(v) => v,
            None => {
                return None;
            },
        };
        if next >= limit {
            return None;
        }
        value = next;
        i += 1;
    }
    assert(all.take(i - from) == all);
    Some(value)
}

/// Whether the digits `digits`, multiplied by ten to the power `scale`, stay
/// below the single-precision limit.
fn scaled_below_limit(digits: &[char], scale: i128) -> (r: bool)
    requires
        all_digits(digits@),
    ensures
        r == magnitude_below(digits@, scale as int, SINGLE_LIMIT as nat),
{
    let n: usize = digits.len();
    assert(digits@.subrange(0, n as int) == digits@);
    if scale >= 0 {
        let mut value: u128 = match value_below(digits, 0, n, SINGLE_LIMIT) {
            Some(v) => v,
            None => {
                proof {
                    let d = decimal_value(digits@) as int;
                    let p = pow10(scale as nat) as int;
                    lemma_pow10_grows(0, scale as nat);
                    assert(d * p >= d) by (nonlinear_arith)
                        requires
                            d >= 0,
                            p >= 1,
                    ;
                }
                return false;
            },
        };
        if value == 0 {
            assert(0 * pow10(scale as nat) == 0) by (nonlinear_arith);
            return true;
        }
        let mut done: i128 = 0;
        let ghost d = decimal_value(digits@) as int;
        assert(d * 1 == d);
        while done < scale
            invariant
                0 <= done <= scale,
                d == decimal_value(digits@),
                d >= 1,
                value == d * pow10(done as nat),
                value < SINGLE_LIMIT,
            decreases scale - done,
        {
            proof {
                let p = pow10(done as nat) as int;
                let q = pow10(scale as nat) as int;
                assert(pow10((done + 1) as nat) == 10 * p);
                assert(d * (10 * p) == 10 * (d * p)) by (nonlinear_arith);
                lemma_pow10_grows((done + 1) as nat, scale as nat);
                assert(d * q >= d * (10 * p)) by (nonlinear_arith)
                    requires
                        d >= 1,
                        q >= 10 * p,
                ;
            }
            let next = match value.checked_mul(10) {
                Some(v) => v,
                None => {
                    return false;
                },
            };
            if next >= SINGLE_LIMIT {
                return false;
            }
            value = next;
            done += 1;
        }
        true
    } else {
        let keep: i128 = scale + n as i128;
        proof {
            lemma_extreme_scale(digits@, scale as int);
        }
        if keep <= 0 {
            return true;
        }
        proof {
            lemma_cut_scale(digits@, scale as int, SINGLE_LIMIT as nat);
            assert(digits@.take(keep as int) == digits@.subrange(0, keep as int));
            assert(all_digits(digits@.subrange(0, keep as int)));
        }
        value_below(digits, 0, keep as usize, SINGLE_LIMIT).is_some()
    }
}

/// The digits of the unsigned number `word[from..]`, how many of them stand
/// after the dot, and where its exponent part begins.
fn number_parts(word: &[char], from: usize) -> (r: (Vec<char>, usize, usize))
    requires
        from <= word@.len(),
    ensures
        r.0@ == number_digits(word@.skip(from as int)),
        all_digits(r.0@),
        r.1 == number_fraction_len(word@.skip(from as int)),
        from <= r.2 <= word@.len(),
        word@.skip(r.2 as int) == number_exponent(word@.skip(from as int)),
{
    let ghost body = word@.skip(from as int);
    let ghost p = |c: char| is_digit(c);
    let len: usize = word.len();
    let digits = count_digits(word, from);
    let dot: usize = from + digits;
    let ghost tail = body.skip(digits as int);
    assert(tail == word@.skip(dot as int));
    let mut mantissa = copy_range(word, from, dot);
    assert(mantissa@ == body.take(digits as int));
    proof {
        lemma_prefix_len_bounds(body, p);
        assert forall|k: int| 0 <= k < mantissa@.len() implies is_digit(#[trigger] mantissa@[k]) by {
            assert(mantissa@[k] == body[k]);
        }
    }
    if dot < len && word[dot] == '.' {
        let ghost after = tail.drop_first();
        assert(after == word@.skip(dot + 1));
        let fraction = count_digits(word, dot + 1);
        let exponent: usize = dot + 1 + fraction;
        let mut more = copy_range(word, dot + 1, exponent);
        proof {
            lemma_prefix_len_bounds(after, p);
            assert(more@ == after.take(fraction as int));
            assert(after.skip(fraction as int) == word@.skip(exponent as int));
            assert forall|k: int| 0 <= k < (mantissa@ + more@).len() implies is_digit(
                #[trigger] (mantissa@ + more@)[k],
            ) by {
                if k >= mantissa@.len() {
                    assert((mantissa@ + more@)[k] == after[k - mantissa@.len()]);
                }
            }
        }
        mantissa.append(&mut more);
        (mantissa, fraction, exponent)
    } else {
        (mantissa, 0, dot)
    }
}

/// The sign of the exponent part `word[from..]`, and its magnitude where that
/// is less than the cap.
fn exponent_parts(word: &[char], from: usize) -> (r: (bool, Option<u128>))
    requires
        from < word@.len(),
        is_exponent(word@.skip(from as int)),
    ensures
        match r.1 {
            Some(m) => m < EXPONENT_CAP && exponent_value(word@.skip(from as int)) == (if r.0 {
                -(m as int)
            } else {
                m as int
            }),
            None => if r.0 {
                exponent_value(word@.skip(from as int)) <= -(EXPONENT_CAP as int)
            } else {
                exponent_value(word@.skip(from as int)) >= EXPONENT_CAP as int
            },
        },
{
    let len: usize = word.len();
    let ghost after = word@.skip(from as int).drop_first();
    assert(after == word@.skip(from + 1));
    let negative = word[from + 1] == '-';
    let start: usize = if word[from + 1] == '+' || word[from + 1] == '-' {
        assert(after.drop_first() == word@.skip(from + 2));
        from + 2
    } else {
        from + 1
    };
    assert(strip_sign(after) == word@.subrange(start as int, len as int));
    (negative, value_below(word, start, len, EXPONENT_CAP))
}

/// Whether the unsigned number `word[from..]` is within single-precision
/// range.
fn is_finite_at(word: &[char], from: usize) -> (r: bool)
    requires
        from <= word@.len(),
        is_number(word@.skip(from as int)),
    ensures
        r == is_finite_number(word@.skip(from as int)),
{
    let len: usize = word.len();
    let (mantissa, fraction, exponent) = number_parts(word, from);
    if exponent == len {
        return scaled_below_limit(mantissa.as_slice(), -(fraction as i128));
    }
    let (negative, magnitude) = exponent_parts(word, exponent);
    let n: usize = mantissa.len();
    proof {
        lemma_extreme_scale(
            mantissa@,
            exponent_value(number_exponent(word@.skip(from as int))) - fraction,
        );
    }
    match magnitude {
        Some(m) => {
            let power: i128 = if negative {
                -(m as i128)
            } else {
                m as i128
            };
            let scale: i128 = power - fraction as i128;
            scaled_below_limit(mantissa.as_slice(), scale)
        },
        None => {
            if negative {
                true
            } else {
                assert(mantissa@.subrange(0, n as int) == mantissa@);
                value_below(mantissa.as_slice(), 0, n, 1).is_some()
            }
        },
    }
}

/// Whether a word is a coordinate: a coordinate literal that names a special
/// value or a number within single-precision range.
pub fn is_coordinate_word(word: &[char]) -> (r: bool)
    ensures
        r == is_coordinate(word@),
{
    if !is_float_word(word) {
        return false;
    }
    let body: usize = if word.len() > 0 && (word[0] == '+' || word[0] == '-') {
        assert(word@.drop_first() == word@.skip(1));
        1
    } else {
        assert(word@ == word@.skip(0));
        0
    };
    is_special_at(word, body) || is_finite_at(word, body)
}

} // verus!
