//! Numerals: the decimal face indices and the coordinate literals.

use crate::text::{is_whitespace, is_word, lemma_prefix_len_bounds, lemma_prefix_len_is, prefix_len};
use vstd::prelude::*;

verus! {

/// The ASCII decimal digits.
pub open spec fn is_digit(c: char) -> bool {
    0x30 <= c as u32 <= 0x39
}

/// The number a decimal digit stands for.
pub open spec fn digit_value(c: char) -> nat {
    (c as u32 - 0x30) as nat
}

/// The digit that stands for `d`, for `d` below ten.
pub open spec fn digit_char(d: nat) -> char {
    (d + 0x30) as char
}

/// A non-empty run of decimal digits.
pub open spec fn is_decimal(s: Seq<char>) -> bool {
    s.len() > 0 && forall|k: int| 0 <= k < s.len() ==> is_digit(#[trigger] s[k])
}

/// The value of a run of decimal digits, most significant digit first.
pub open spec fn decimal_value(s: Seq<char>) -> nat
    decreases s.len(),
{
    if s.len() == 0 {
        0
    } else {
        10 * decimal_value(s.drop_last()) + digit_value(s.last())
    }
}

/// The shortest decimal numeral for `n`.
pub open spec fn decimal_text(n: nat) -> Seq<char>
    decreases n,
{
    if n < 10 {
        seq![digit_char(n)]
    } else {
        decimal_text(n / 10).push(digit_char(n % 10))
    }
}

/// The index that a word denotes: the word is an unsigned decimal numeral
/// whose value fits the machine's index type.  A sign, a fraction, an empty
/// word or a value out of range denotes nothing.
pub open spec fn index_of_word(s: Seq<char>) -> Option<usize> {
    if is_decimal(s) && decimal_value(s) <= usize::MAX {
        Some(decimal_value(s) as usize)
    } else {
        None
    }
}

/// A leading `+` or `-`.
pub open spec fn is_sign(c: char) -> bool {
    c == '+' || c == '-'
}

/// `s` without its leading sign, if it has one.
pub open spec fn strip_sign(s: Seq<char>) -> Seq<char> {
    if s.len() > 0 && is_sign(s[0]) {
        s.drop_first()
    } else {
        s
    }
}

/// `c` with an ASCII capital letter turned into its small letter.
pub open spec fn to_lower(c: char) -> char {
    if 0x41 <= c as u32 <= 0x5A {
        (c as u32 + 0x20) as char
    } else {
        c
    }
}

/// `s` with every ASCII capital letter turned into its small letter.
pub open spec fn to_lower_text(s: Seq<char>) -> Seq<char> {
    s.map_values(|c: char| to_lower(c))
}

/// The names of the values that are not numbers: `inf`, `infinity` and `nan`,
/// in any mix of ASCII case.
pub open spec fn is_special(s: Seq<char>) -> bool {
    ||| to_lower_text(s) == seq!['i', 'n', 'f']
    ||| to_lower_text(s) == seq!['i', 'n', 'f', 'i', 'n', 'i', 't', 'y']
    ||| to_lower_text(s) == seq!['n', 'a', 'n']
}

/// An exponent: `e` or `E`, an optional sign, and at least one digit.
pub open spec fn is_exponent(s: Seq<char>) -> bool {
    s.len() > 0 && to_lower(s[0]) == 'e' && is_decimal(strip_sign(s.drop_first()))
}

/// What follows the integer digits of a number: an optional fraction (a dot
/// and digits), then an optional exponent.  `digits` counts the integer
/// digits before `s`; the integer and the fraction digits together must be at
/// least one.
pub open spec fn is_number_tail(s: Seq<char>, digits: nat) -> bool {
    if s.len() > 0 && s[0] == '.' {
        let fraction = prefix_len(s.drop_first(), |c: char| is_digit(c));
        let rest = s.drop_first().skip(fraction as int);
        digits + fraction >= 1 && (rest.len() == 0 || is_exponent(rest))
    } else {
        digits >= 1 && (s.len() == 0 || is_exponent(s))
    }
}

/// An unsigned number: digits with at most one dot among or beside them, and
/// an optional exponent.
pub open spec fn is_number(s: Seq<char>) -> bool {
    let digits = prefix_len(s, |c: char| is_digit(c));
    is_number_tail(s.skip(digits as int), digits)
}

/// The coordinate literals: an optional sign followed by a number or by the
/// name of a special value.
///
/// ```text
/// Literal ::= Sign? ( 'inf' | 'infinity' | 'nan' | Number )
/// Number  ::= ( Digit+ | Digit+ '.' Digit* | Digit* '.' Digit+ ) Exp?
/// Exp     ::= 'e' Sign? Digit+
/// ```
///
/// Letters match in either case.
pub open spec fn is_float_literal(s: Seq<char>) -> bool {
    is_special(strip_sign(s)) || is_number(strip_sign(s))
}

/// A prefix of a numeral is worth no more than the numeral.
pub proof fn lemma_decimal_value_prefix(s: Seq<char>, i: int)
    requires
        0 <= i <= s.len(),
    ensures
        decimal_value(s.take(i)) <= decimal_value(s),
    decreases s.len(),
{
    if i == s.len() {
        assert(s.take(i) == s);
    } else {
        assert(s.drop_last().take(i) == s.take(i));
        lemma_decimal_value_prefix(s.drop_last(), i);
    }
}

/// The numeral written for `n` is made of digits and is worth `n`.
pub proof fn lemma_decimal_text(n: nat)
    ensures
        is_decimal(decimal_text(n)),
        decimal_value(decimal_text(n)) == n,
    decreases n,
{
    if n < 10 {
        let s = seq![digit_char(n)];
        assert(s.drop_last() == Seq::<char>::empty());
        assert(decimal_value(s.drop_last()) == 0);
    } else {
        lemma_decimal_text(n / 10);
        let s = decimal_text(n);
        assert(s.drop_last() == decimal_text(n / 10));
        assert(s.last() == digit_char(n % 10));
    }
}

/// A run of digits is a word.
pub proof fn lemma_decimal_is_word(s: Seq<char>)
    requires
        is_decimal(s),
    ensures
        is_word(s),
{
}

/// An exponent holds no whitespace.
proof fn lemma_exponent_chars(s: Seq<char>)
    requires
        is_exponent(s),
    ensures
        forall|k: int| 0 <= k < s.len() ==> !is_whitespace(#[trigger] s[k]),
{
    let after = s.drop_first();
    let digits = strip_sign(after);
    assert forall|k: int| 0 <= k < s.len() implies !is_whitespace(#[trigger] s[k]) by {
        if k >= 1 {
            assert(s[k] == after[k - 1]);
            if after.len() > 0 && is_sign(after[0]) {
                if k >= 2 {
                    assert(after[k - 1] == digits[k - 2]);
                }
            } else {
                assert(after[k - 1] == digits[k - 1]);
            }
        }
    }
}

/// An unsigned number is a word.
proof fn lemma_number_is_word(s: Seq<char>)
    requires
        is_number(s),
    ensures
        is_word(s),
{
    let p = |c: char| is_digit(c);
    let digits = prefix_len(s, p) as int;
    lemma_prefix_len_bounds(s, p);
    let tail = s.skip(digits);
    if tail.len() > 0 && tail[0] == '.' {
        let after = tail.drop_first();
        let fraction = prefix_len(after, p) as int;
        lemma_prefix_len_bounds(after, p);
        let rest = after.skip(fraction);
        if rest.len() > 0 {
            lemma_exponent_chars(rest);
        }
        assert forall|k: int| 0 <= k < s.len() implies !is_whitespace(#[trigger] s[k]) by {
            if k >= digits {
                assert(s[k] == tail[k - digits]);
                if k > digits {
                    assert(tail[k - digits] == after[k - digits - 1]);
                    if k > digits + fraction {
                        assert(after[k - digits - 1] == rest[k - digits - 1 - fraction]);
                    }
                }
            }
        }
    } else {
        if tail.len() > 0 {
            lemma_exponent_chars(tail);
        }
        assert forall|k: int| 0 <= k < s.len() implies !is_whitespace(#[trigger] s[k]) by {
            if k >= digits {
                assert(s[k] == tail[k - digits]);
            }
        }
    }
}

/// The name of a special value is a word.
proof fn lemma_special_is_word(s: Seq<char>)
    requires
        is_special(s),
    ensures
        is_word(s),
{
    let low = to_lower_text(s);
    assert(low.len() == s.len());
    assert(seq!['i', 'n', 'f'].len() == 3);
    assert(seq!['n', 'a', 'n'].len() == 3);
    assert(seq!['i', 'n', 'f', 'i', 'n', 'i', 't', 'y'].len() == 8);
    assert forall|k: int| 0 <= k < s.len() implies !is_whitespace(#[trigger] s[k]) by {
        assert(low[k] == to_lower(s[k]));
        assert(0x61 <= low[k] as u32 <= 0x7A);
    }
}

/// A coordinate literal is a word: it is not empty and holds no whitespace.
pub proof fn lemma_float_literal_is_word(s: Seq<char>)
    requires
        is_float_literal(s),
    ensures
        is_word(s),
{
    let body = strip_sign(s);
    if is_special(body) {
        lemma_special_is_word(body);
    } else {
        lemma_number_is_word(body);
    }
    if s.len() > 0 && is_sign(s[0]) {
        assert forall|k: int| 0 <= k < s.len() implies !is_whitespace(#[trigger] s[k]) by {
            if k >= 1 {
                assert(s[k] == body[k - 1]);
            }
        }
    }
}

/// Whether `c` is a decimal digit.
pub fn is_ascii_digit(c: char) -> (r: bool)
    ensures
        r == is_digit(c),
{
    let n: u32 = c as u32;
    0x30 <= n && n <= 0x39
}

/// Reads a word as an index.
pub fn parse_index(word: &[char]) -> (r: Option<usize>)
    ensures
        r == index_of_word(word@),
{
    if word.len() == 0 {
        return None;
    }
    let mut value: usize = 0;
    let mut i: usize = 0;
    assert(word@.take(0) == Seq::<char>::empty());
    while i < word.len()
        invariant
            i <= word@.len(),
            word@.len() > 0,
            forall|k: int| 0 <= k < i ==> is_digit(#[trigger] word@[k]),
            value == decimal_value(word@.take(i as int)),
        decreases word@.len() - i,
    {
        let c = word[i];
        if !is_ascii_digit(c) {
            return None;
        }
        let digit: usize = (c as u32 - 0x30) as usize;
        proof {
            assert(word@.take(i + 1).drop_last() == word@.take(i as int));
            assert(word@.take(i + 1).last() == c);
            lemma_decimal_value_prefix(word@, i + 1);
        }
        let scaled = match value.checked_mul(10) {
            Some(v) => v,
            None => {
                return None;
            },
        };
        value = match scaled.checked_add(digit) {
            Some(v) => v,
            None => {
                return None;
            },
        };
        i += 1;
    }
    assert(word@.take(i as int) == word@);
    Some(value)
}

/// The digit for `d`.
pub fn digit_of(d: u8) -> (c: char)
    requires
        d < 10,
    ensures
        c == digit_char(d as nat),
{
    (d + 0x30) as char
}

/// Appends the shortest decimal numeral for `n` to `out`.
pub fn push_decimal(out: &mut String, n: usize)
    ensures
        final(out)@ == old(out)@ + decimal_text(n as nat),
    decreases n,
{
    if n >= 10 {
        push_decimal(out, n / 10);
    }
    out.push(digit_of((n % 10) as u8));
}

/// Whether `c` is the small letter `small` or its capital.
fn is_letter(c: char, small: char) -> (r: bool)
    requires
        0x61 <= small as u32 <= 0x7A,
    ensures
        r == (to_lower(c) == small),
{
    let n: u32 = c as u32;
    let m: u32 = small as u32;
    n == m || n + 0x20 == m
}

/// Whether `word[from..]` names a special value.
pub(crate) fn is_special_at(word: &[char], from: usize) -> (r: bool)
    requires
        from <= word@.len(),
    ensures
        r == is_special(word@.skip(from as int)),
{
    let ghost low = to_lower_text(word@.skip(from as int));
    let n: usize = word.len() - from;
    assert(low.len() == n);
    assert(seq!['i', 'n', 'f'].len() == 3);
    assert(seq!['n', 'a', 'n'].len() == 3);
    assert(seq!['i', 'n', 'f', 'i', 'n', 'i', 't', 'y'].len() == 8);
    if n == 3 {
        let inf = is_letter(word[from], 'i') && is_letter(word[from + 1], 'n') && is_letter(
            word[from + 2],
            'f',
        );
        let nan = is_letter(word[from], 'n') && is_letter(word[from + 1], 'a') && is_letter(
            word[from + 2],
            'n',
        );
        proof {
            assert(low[0] == to_lower(word@[from as int]));
            assert(low[1] == to_lower(word@[from + 1]));
            assert(low[2] == to_lower(word@[from + 2]));
            assert(inf == (low =~= seq!['i', 'n', 'f']));
            assert(nan == (low =~= seq!['n', 'a', 'n']));
        }
        inf || nan
    } else if n == 8 {
        let infinity = is_letter(word[from], 'i') && is_letter(word[from + 1], 'n') && is_letter(
            word[from + 2],
            'f',
        ) && is_letter(word[from + 3], 'i') && is_letter(word[from + 4], 'n') && is_letter(
            word[from + 5],
            'i',
        ) && is_letter(word[from + 6], 't') && is_letter(word[from + 7], 'y');
        proof {
            assert(low[0] == to_lower(word@[from as int]));
            assert(low[1] == to_lower(word@[from + 1]));
            assert(low[2] == to_lower(word@[from + 2]));
            assert(low[3] == to_lower(word@[from + 3]));
            assert(low[4] == to_lower(word@[from + 4]));
            assert(low[5] == to_lower(word@[from + 5]));
            assert(low[6] == to_lower(word@[from + 6]));
            assert(low[7] == to_lower(word@[from + 7]));
            assert(infinity == (low =~= seq!['i', 'n', 'f', 'i', 'n', 'i', 't', 'y']));
        }
        infinity
    } else {
        false
    }
}

/// The number of decimal digits that `word[from..]` starts with.
pub(crate) fn count_digits(word: &[char], from: usize) -> (n: usize)
    requires
        from <= word@.len(),
    ensures
        n == prefix_len(word@.skip(from as int), |c: char| is_digit(c)),
        from + n <= word@.len(),
{
    let mut i: usize = from;
    while i < word.len() && is_ascii_digit(word[i])
        invariant
            from <= i <= word@.len(),
            forall|k: int| from <= k < i ==> is_digit(#[trigger] word@[k]),
        decreases word@.len() - i,
    {
        i += 1;
    }
    proof {
        let rest = word@.skip(from as int);
        assert forall|k: int| 0 <= k < i - from implies is_digit(#[trigger] rest[k]) by {
            assert(rest[k] == word@[from + k]);
        }
        lemma_prefix_len_is(rest, |c: char| is_digit(c), i - from);
    }
    i - from
}

/// Whether `word[from..]` is a non-empty run of digits.
fn is_decimal_at(word: &[char], from: usize) -> (r: bool)
    requires
        from <= word@.len(),
    ensures
        r == is_decimal(word@.skip(from as int)),
{
    let len: usize = word.len();
    let n = count_digits(word, from);
    proof {
        lemma_prefix_len_bounds(word@.skip(from as int), |c: char| is_digit(c));
    }
    n > 0 && from + n == len
}

/// Whether `word[from..]` is an exponent.
fn is_exponent_at(word: &[char], from: usize) -> (r: bool)
    requires
        from <= word@.len(),
    ensures
        r == is_exponent(word@.skip(from as int)),
{
    if from == word.len() || !is_letter(word[from], 'e') {
        return false;
    }
    let ghost after = word@.skip(from as int).drop_first();
    assert(after == word@.skip(from + 1));
    let digits: usize = if from + 1 < word.len() && (word[from + 1] == '+' || word[from + 1]
        == '-') {
        assert(after.drop_first() == word@.skip(from + 2));
        from + 2
    } else {
        from + 1
    };
    is_decimal_at(word, digits)
}

/// Whether `word[from..]` is an unsigned number.
fn is_number_at(word: &[char], from: usize) -> (r: bool)
    requires
        from <= word@.len(),
    ensures
        r == is_number(word@.skip(from as int)),
{
    let len: usize = word.len();
    let digits = count_digits(word, from);
    let dot: usize = from + digits;
    let ghost tail = word@.skip(from as int).skip(digits as int);
    assert(tail == word@.skip(dot as int));
    if dot < word.len() && word[dot] == '.' {
        assert(tail.drop_first() == word@.skip(dot + 1));
        let fraction = count_digits(word, dot + 1);
        let rest: usize = dot + 1 + fraction;
        assert(tail.drop_first().skip(fraction as int) == word@.skip(rest as int));
        digits + fraction >= 1 && (rest == word.len() || is_exponent_at(word, rest))
    } else {
        digits >= 1 && (dot == word.len() || is_exponent_at(word, dot))
    }
}

/// Whether a word is a coordinate literal.
pub fn is_float_word(word: &[char]) -> (r: bool)
    ensures
        r == is_float_literal(word@),
{
    let body: usize = if word.len() > 0 && (word[0] == '+' || word[0] == '-') {
        assert(word@.drop_first() == word@.skip(1));
        1
    } else {
        assert(word@ == word@.skip(0));
        0
    };
    is_special_at(word, body) || is_number_at(word, body)
}

} // verus!
