//! Numerals as staple lists print them, read the way a floating-point number
//! is read: `38`, `3.2`, `+0.75`, `-1`, `1e1`, `2.5E-1`, `inf`, `NaN`.
//!
//! A numeral is an optional sign and then either one of the words `inf`,
//! `infinity` and `nan`, in any mix of upper and lower case, or digits with at
//! most one point among them and, behind them, at most one exponent: `e` or
//! `E`, an optional sign, digits. At least one digit must stand before the
//! exponent. What is read is kept exactly as far as popularity figures need
//! it: the sign, the whole part, the first two digits behind the point, and
//! whether anything but zeros follows them.

use crate::text::{chars_of, lemma_prefix_len, prefix_len};
use vstd::prelude::*;

verus! {

/// Whether `c` is one of the digits `0` to `9`.
pub open spec fn is_digit(c: char) -> bool {
    '0' <= c <= '9'
}

/// The value of a digit.
pub open spec fn digit(c: char) -> nat {
    (c as u32 - '0' as u32) as nat
}

/// The value of a run of digits, read as a decimal number.
pub open spec fn digits_value(s: Seq<char>) -> nat
    decreases s.len(),
{
    if s.len() == 0 {
        0
    } else {
        digits_value(s.drop_last()) * 10 + digit(s.last())
    }
}

/// The value of the digit at place `i` of `s`, zero where `s` has no such place.
pub open spec fn digit_at(s: Seq<char>, i: int) -> nat {
    if 0 <= i < s.len() {
        digit(s[i])
    } else {
        0
    }
}

/// Ten to the power of `n`.
pub open spec fn pow10(n: nat) -> nat
    decreases n,
{
    if n == 0 {
        1
    } else {
        10 * pow10((n - 1) as nat)
    }
}

/// What a number is without its sign, as far as it is kept.
#[derive(Clone, Copy, Debug, PartialEq, Eq, Structural)]
pub struct Decimal {
    /// The whole part; `u64::MAX` stands for that and anything larger.
    pub whole: u64,
    /// The first two digits behind the point, as a number below 100.
    pub hundredths: u8,
    /// Whether every digit after those two is zero.
    pub rest_is_zero: bool,
}

/// How large a numeral is, its sign left aside.
#[derive(Clone, Copy, Debug, PartialEq, Eq, Structural)]
pub enum Magnitude {
    Finite(Decimal),
    Infinite,
    Nan,
}

/// What a numeral says.
#[derive(Clone, Copy, Debug, PartialEq, Eq, Structural)]
pub struct Numeral {
    /// Whether a minus sign stands in front.
    pub negative: bool,
    pub magnitude: Magnitude,
}

/// `n`, and `u64::MAX` in place of anything larger.
pub open spec fn capped(n: nat) -> u64 {
    if n >= u64::MAX {
        u64::MAX
    } else {
        n as u64
    }
}

/// The whole part of the number whose digits are `digits`, with the point
/// before place `point`: places before the first stand for zeros in front,
/// places behind the last for zeros at the end.
pub open spec fn whole_value(digits: Seq<char>, point: int) -> nat {
    if point <= 0 {
        0
    } else if point <= digits.len() {
        digits_value(digits.take(point))
    } else {
        digits_value(digits) * pow10((point - digits.len()) as nat)
    }
}

/// Whether the digits from place `from` on are all zero.
pub open spec fn zeros_from(digits: Seq<char>, from: int) -> bool {
    forall|i: int| from <= i && 0 <= i < digits.len() ==> digits[i] == '0'
}

/// What is kept of the number whose digits are `digits`, with the point
/// before place `point`.
pub open spec fn shown(digits: Seq<char>, point: int) -> Decimal {
    Decimal {
        whole: capped(whole_value(digits, point)),
        hundredths: (digit_at(digits, point) * 10 + digit_at(digits, point + 1)) as u8,
        rest_is_zero: zeros_from(digits, point + 2),
    }
}

/// Where the run of digits that begins at place `from` of `s` ends.
pub open spec fn run_end(s: Seq<char>, from: int) -> int {
    from + prefix_len(s.skip(from), |c: char| is_digit(c))
}

/// Whether `a` is the letter `w`, a small letter, in either case.
pub open spec fn same_letter(a: char, w: char) -> bool {
    a == w || ('A' <= a <= 'Z' && a as u32 + 32 == w as u32)
}

/// Whether `body` is the word `word`, written in small letters, in any mix of
/// upper and lower case.
pub open spec fn is_word(body: Seq<char>, word: Seq<char>) -> bool {
    body.len() == word.len() && forall|i: int|
        0 <= i < body.len() ==> same_letter(#[trigger] body[i], word[i])
}

/// The digits of the number that stands in `s` from place `from` on, and the
/// place of the point among them once the exponent has moved it; `None` where
/// no number stands there.
pub open spec fn finite_parts(s: Seq<char>, from: int) -> Option<(Seq<char>, int)> {
    let b = run_end(s, from);
    let c = if b < s.len() && s[b] == '.' {
        b + 1
    } else {
        b
    };
    let d = run_end(s, c);
    let digits = s.subrange(from, b) + s.subrange(c, d);
    if (b - from) + (d - c) == 0 {
        None
    } else if d == s.len() {
        Some((digits, b - from))
    } else if s[d] == 'e' || s[d] == 'E' {
        let signed = d + 1 < s.len() && (s[d + 1] == '-' || s[d + 1] == '+');
        let down = d + 1 < s.len() && s[d + 1] == '-';
        let x = if signed {
            d + 2
        } else {
            d + 1
        };
        let y = run_end(s, x);
        let by = digits_value(s.subrange(x, y)) as int;
        if y == s.len() && y > x {
            Some(
                (
                    digits,
                    if down {
                        b - from - by
                    } else {
                        b - from + by
                    },
                ),
            )
        } else {
            None
        }
    } else {
        None
    }
}

/// What `text` says as a numeral; `None` where it is none.
pub open spec fn numeral_of(text: Seq<char>) -> Option<Numeral> {
    let negative = text.len() > 0 && text[0] == '-';
    let from: int = if text.len() > 0 && (text[0] == '-' || text[0] == '+') {
        1
    } else {
        0
    };
    let body = text.skip(from);
    if is_word(body, "inf"@) || is_word(body, "infinity"@) {
        Some(Numeral { negative, magnitude: Magnitude::Infinite })
    } else if is_word(body, "nan"@) {
        Some(Numeral { negative, magnitude: Magnitude::Nan })
    } else {
        match finite_parts(text, from) {
            Some((digits, point)) => Some(
                Numeral { negative, magnitude: Magnitude::Finite(shown(digits, point)) },
            ),
            None => None,
        }
    }
}

/// A power of ten is at least one, and a higher power is no smaller.
pub proof fn lemma_pow10_grows(a: nat, b: nat)
    requires
        a <= b,
    ensures
        1 <= pow10(a) <= pow10(b),
    decreases b,
{
    if a < b {
        lemma_pow10_grows(a, (b - 1) as nat);
    } else if a > 0 {
        lemma_pow10_grows((a - 1) as nat, (a - 1) as nat);
    }
}

/// Ten to the twentieth is more than 64 bits hold.
pub proof fn lemma_pow10_twenty()
    ensures
        pow10(20) > u64::MAX,
{
    assert(pow10(0) == 1);
    assert(pow10(1) == 10);
    assert(pow10(2) == 100);
    assert(pow10(3) == 1000);
    assert(pow10(4) == 10000);
    assert(pow10(5) == 100000);
    assert(pow10(6) == 1000000);
    assert(pow10(7) == 10000000);
    assert(pow10(8) == 100000000);
    assert(pow10(9) == 1000000000);
    assert(pow10(10) == 10000000000);
    assert(pow10(11) == 100000000000);
    assert(pow10(12) == 1000000000000);
    assert(pow10(13) == 10000000000000);
    assert(pow10(14) == 100000000000000);
    assert(pow10(15) == 1000000000000000);
    assert(pow10(16) == 10000000000000000);
    assert(pow10(17) == 100000000000000000);
    assert(pow10(18) == 1000000000000000000);
    assert(pow10(19) == 10000000000000000000);
    assert(pow10(20) == 100000000000000000000);
}

fn is_ascii_digit(c: char) -> (r: bool)
    ensures
        r == is_digit(c),
{
    '0' <= c && c <= '9'
}

fn digit_of(c: char) -> (d: u8)
    requires
        is_digit(c),
    ensures
        d == digit(c),
        d <= 9,
{
    let v: u32 = c as u32 - '0' as u32;
    v as u8
}

/// The value of the digits in `s`, and `u128::MAX` in place of anything larger.
pub open spec fn wide_kept(s: Seq<char>) -> u128 {
    if digits_value(s) >= u128::MAX {
        u128::MAX
    } else {
        digits_value(s) as u128
    }
}

/// Reads the run of digits that starts at `from`: where it ends, and its value.
fn read_whole(chars: &Vec<char>, from: usize) -> (out: (usize, u128))
    requires
        from <= chars.len(),
    ensures
        from <= out.0 <= chars.len(),
        out.0 == run_end(chars@, from as int),
        out.0 - from == prefix_len(chars@.skip(from as int), |c: char| is_digit(c)),
        forall|j: int| from <= j < out.0 ==> is_digit(#[trigger] chars@[j]),
        out.0 < chars.len() ==> !is_digit(chars@[out.0 as int]),
        out.1 == wide_kept(chars@.subrange(from as int, out.0 as int)),
{
    let n = chars.len();
    let mut i: usize = from;
    let mut whole: u128 = 0;
    while i < n && is_ascii_digit(chars[i])
        invariant
            from <= i <= n,
            n == chars.len(),
            forall|j: int| from <= j < i ==> is_digit(#[trigger] chars@[j]),
            whole == wide_kept(chars@.subrange(from as int, i as int)),
        decreases n - i,
    {
        let d = digit_of(chars[i]);
        proof {
            let next = chars@.subrange(from as int, i + 1);
            assert(next.drop_last() == chars@.subrange(from as int, i as int));
            assert(next.last() == chars@[i as int]);
        }
        whole = match whole.checked_mul(10) {
            Some(tens) => match tens.checked_add(d as u128) {
                Some(v) => v,
                None => u128::MAX,
            },
            None => u128::MAX,
        };
        i += 1;
    }
    proof {
        let body = chars@.skip(from as int);
        let digits = |c: char| is_digit(c);
        assert forall|j: int| 0 <= j < i - from implies digits(#[trigger] body[j]) by {
            assert(body[j] == chars@[from + j]);
        }
        lemma_prefix_len(body, digits, i - from);
    }
    (i, whole)
}

/// The value of the first `upto` of `digits`.
fn value_upto(digits: &Vec<char>, upto: usize) -> (out: u64)
    requires
        upto <= digits.len(),
        forall|j: int| 0 <= j < digits.len() ==> is_digit(#[trigger] digits@[j]),
    ensures
        out == capped(digits_value(digits@.take(upto as int))),
{
    let mut i: usize = 0;
    let mut whole: u64 = 0;
    proof {
        assert(digits@.take(0) =~= Seq::empty());
    }
    while i < upto
        invariant
            i <= upto <= digits.len(),
            forall|j: int| 0 <= j < digits.len() ==> is_digit(#[trigger] digits@[j]),
            whole == capped(digits_value(digits@.take(i as int))),
        decreases upto - i,
    {
        let d = digit_of(digits[i]);
        proof {
            let next = digits@.take(i + 1);
            assert(next.drop_last() == digits@.take(i as int));
            assert(next.last() == digits@[i as int]);
        }
        whole = match whole.checked_mul(10) {
            Some(tens) => match tens.checked_add(d as u64) {
                Some(v) => v,
                None => u64::MAX,
            },
            None => u64::MAX,
        };
        i += 1;
    }
    whole
}

/// `whole` with `zeros` zeros written behind it.
fn scaled(whole: u64, zeros: u8, Ghost(value): Ghost<nat>, Ghost(by): Ghost<nat>) -> (out: u64)
    requires
        whole == capped(value),
        zeros <= 20,
        zeros < 20 ==> by == zeros,
        zeros == 20 ==> by >= 20,
    ensures
        out == capped(value * pow10(by)),
{
    let mut out: u64 = whole;
    let mut k: u8 = 0;
    proof {
        assert(value * pow10(0) == value) by (nonlinear_arith)
            requires
                pow10(0) == 1,
        ;
    }
    while k < zeros
        invariant
            k <= zeros <= 20,
            out == capped(value * pow10(k as nat)),
        decreases zeros - k,
    {
        proof {
            let p = pow10(k as nat);
            assert(pow10((k + 1) as nat) == 10 * p);
            assert(value * (10 * p) == (value * p) * 10) by (nonlinear_arith);
        }
        out = match out.checked_mul(10) {
            Some(v) => v,
            None => u64::MAX,
        };
        k += 1;
    }
    proof {
        if zeros == 20 {
            lemma_pow10_twenty();
            lemma_pow10_grows(20, by);
            if value > 0 {
                assert(value * pow10(20) >= pow10(20)) by (nonlinear_arith)
                    requires
                        value >= 1,
                ;
                assert(value * pow10(by) >= pow10(by)) by (nonlinear_arith)
                    requires
                        value >= 1,
                ;
            } else {
                assert(value * pow10(20) == 0 && value * pow10(by) == 0) by (nonlinear_arith)
                    requires
                        value == 0,
                ;
            }
        }
    }
    out
}

/// Whether the digits from place `from` on are all zero.
fn all_zeros_from(digits: &Vec<char>, from: usize) -> (out: bool)
    requires
        from <= digits.len(),
    ensures
        out == zeros_from(digits@, from as int),
{
    let mut i: usize = from;
    while i < digits.len()
        invariant
            from <= i <= digits.len(),
            forall|j: int| from <= j < i ==> digits@[j] == '0',
        decreases digits.len() - i,
    {
        if digits[i] != '0' {
            return false;
        }
        i += 1;
    }
    true
}

/// What is kept of `digits` with the point before place `point`, a place
/// among them or just behind them.
fn show_within(digits: &Vec<char>, point: usize) -> (out: Decimal)
    requires
        point <= digits.len(),
        forall|j: int| 0 <= j < digits.len() ==> is_digit(#[trigger] digits@[j]),
    ensures
        out == shown(digits@, point as int),
{
    let len = digits.len();
    let whole = value_upto(digits, point);
    let tens: u8 = if point < len {
        digit_of(digits[point])
    } else {
        0
    };
    let ones: u8 = if len - point >= 2 {
        digit_of(digits[point + 1])
    } else {
        0
    };
    let rest: usize = if len - point >= 2 {
        point + 2
    } else {
        len
    };
    proof {
        assert(digits@.take(0) =~= Seq::empty());
    }
    Decimal { whole, hundredths: tens * 10 + ones, rest_is_zero: all_zeros_from(digits, rest) }
}

/// What is kept of `digits` with the point first before place `before` and
/// then moved by the exponent `by`, down where `down`, else up. `moved` is the
/// exponent as far as 128 bits hold it.
fn show(digits: &Vec<char>, before: usize, down: bool, moved: u128, Ghost(by): Ghost<nat>) -> (out:
    Decimal)
    requires
        before <= digits.len(),
        forall|j: int| 0 <= j < digits.len() ==> is_digit(#[trigger] digits@[j]),
        moved == (if by >= u128::MAX {
            u128::MAX
        } else {
            by as u128
        }),
    ensures
        out == shown(
            digits@,
            if down {
                before - by
            } else {
                before + by
            },
        ),
{
    let len = digits.len();
    let ghost value = digits_value(digits@);
    proof {
        assert(digits@.take(len as int) =~= digits@);
        assert(digits@.take(0) =~= Seq::empty());
    }
    if down {
        if moved > before as u128 {
            if moved - before as u128 == 1 {
                let tens_and_ones: u8 = if len > 0 {
                    digit_of(digits[0])
                } else {
                    0
                };
                let rest: usize = if len > 0 {
                    1
                } else {
                    0
                };
                Decimal {
                    whole: 0,
                    hundredths: tens_and_ones,
                    rest_is_zero: all_zeros_from(digits, rest),
                }
            } else {
                Decimal { whole: 0, hundredths: 0, rest_is_zero: all_zeros_from(digits, 0) }
            }
        } else {
            show_within(digits, before - moved as usize)
        }
    } else {
        let behind: usize = len - before;
        if moved > behind as u128 {
            let zeros: u128 = moved - behind as u128;
            let few: u8 = if zeros >= 20 {
                20
            } else {
                zeros as u8
            };
            let whole = scaled(
                value_upto(digits, len),
                few,
                Ghost(value),
                Ghost((by - behind) as nat),
            );
            Decimal { whole, hundredths: 0, rest_is_zero: true }
        } else {
            show_within(digits, before + moved as usize)
        }
    }
}

/// Whether `chars` from place `from` on are the word `word`, in any mix of
/// upper and lower case.
fn is_word_at(chars: &Vec<char>, from: usize, word: &str) -> (out: bool)
    requires
        from <= chars.len(),
    ensures
        out == is_word(chars@.skip(from as int), word@),
{
    let letters = chars_of(word);
    if chars.len() - from != letters.len() {
        return false;
    }
    let ghost body = chars@.skip(from as int);
    let mut i: usize = 0;
    while i < letters.len()
        invariant
            i <= letters.len(),
            from + letters.len() == chars.len(),
            body == chars@.skip(from as int),
            letters@ == word@,
            forall|j: int| 0 <= j < i ==> same_letter(#[trigger] body[j], letters@[j]),
        decreases letters.len() - i,
    {
        let a = chars[from + i];
        let w = letters[i];
        assert(body[i as int] == a);
        let same = a == w || ('A' <= a && a <= 'Z' && a as u32 + 32 == w as u32);
        if !same {
            return false;
        }
        i += 1;
    }
    true
}

/// The digits of `chars` at the places `a` up to `b` and `c` up to `d`.
fn gather(chars: &Vec<char>, a: usize, b: usize, c: usize, d: usize) -> (out: Vec<char>)
    requires
        a <= b <= c <= d <= chars.len(),
        forall|j: int| a <= j < b ==> is_digit(#[trigger] chars@[j]),
        forall|j: int| c <= j < d ==> is_digit(#[trigger] chars@[j]),
    ensures
        out@ == chars@.subrange(a as int, b as int) + chars@.subrange(c as int, d as int),
        forall|j: int| 0 <= j < out.len() ==> is_digit(#[trigger] out@[j]),
{
    let mut out: Vec<char> = Vec::new();
    let mut i: usize = a;
    while i < b
        invariant
            a <= i <= b <= chars.len(),
            out@ =~= chars@.subrange(a as int, i as int),
        decreases b - i,
    {
        out.push(chars[i]);
        i += 1;
    }
    i = c;
    while i < d
        invariant
            c <= i <= d <= chars.len(),
            a <= b,
            b <= chars.len(),
            out@ =~= chars@.subrange(a as int, b as int) + chars@.subrange(c as int, i as int),
        decreases d - i,
    {
        out.push(chars[i]);
        i += 1;
    }
    out
}

/// Reads the number that stands in `chars` from place `from` on.
fn parse_finite(chars: &Vec<char>, from: usize) -> (out: Option<Decimal>)
    requires
        from <= chars.len(),
    ensures
        match finite_parts(chars@, from as int) {
            Some((digits, point)) => out == Some(shown(digits, point)),
            None => out is None,
        },
{
    let n = chars.len();
    let (b, _) = read_whole(chars, from);
    let c: usize = if b < n && chars[b] == '.' {
        b + 1
    } else {
        b
    };
    let (d, _) = read_whole(chars, c);
    if (b - from) + (d - c) == 0 {
        return None;
    }
    let digits = gather(chars, from, b, c, d);
    if d == n {
        return Some(show(&digits, b - from, false, 0, Ghost(0)));
    }
    if chars[d] != 'e' && chars[d] != 'E' {
        return None;
    }
    let signed = n - d >= 2 && (chars[d + 1] == '-' || chars[d + 1] == '+');
    let down = n - d >= 2 && chars[d + 1] == '-';
    let x: usize = if signed {
        d + 2
    } else {
        d + 1
    };
    let (y, moved) = read_whole(chars, x);
    if y == n && y > x {
        Some(
            show(
                &digits,
                b - from,
                down,
                moved,
                Ghost(digits_value(chars@.subrange(x as int, y as int))),
            ),
        )
    } else {
        None
    }
}

/// Reads `text` as a numeral.
pub fn parse_numeral(text: &str) -> (out: Option<Numeral>)
    ensures
        out == numeral_of(text@),
{
    let chars = chars_of(text);
    let n = chars.len();
    let negative = n > 0 && chars[0] == '-';
    let from: usize = if n > 0 && (chars[0] == '-' || chars[0] == '+') {
        1
    } else {
        0
    };
    if is_word_at(&chars, from, "inf") || is_word_at(&chars, from, "infinity") {
        Some(Numeral { negative, magnitude: Magnitude::Infinite })
    } else if is_word_at(&chars, from, "nan") {
        Some(Numeral { negative, magnitude: Magnitude::Nan })
    } else {
        match parse_finite(&chars, from) {
            Some(size) => Some(Numeral { negative, magnitude: Magnitude::Finite(size) }),
            None => None,
        }
    }
}

/// The count that `text` states: an optional `+` and digits that make a
/// number up to 255. `None` for any other text.
pub open spec fn count_of(text: Seq<char>) -> Option<u8> {
    let body = if text.len() > 0 && text[0] == '+' {
        text.drop_first()
    } else {
        text
    };
    if body.len() > 0 && prefix_len(body, |c: char| is_digit(c)) == body.len() && digits_value(body)
        <= 255 {
        Some(digits_value(body) as u8)
    } else {
        None
    }
}

/// Reads `text` as a count, as `str::parse::<u8>` does.
pub fn parse_count(text: &str) -> (out: Option<u8>)
    ensures
        out == count_of(text@),
{
    let chars = chars_of(text);
    let n = chars.len();
    let start: usize = if n > 0 && chars[0] == '+' {
        1
    } else {
        0
    };
    let (end, whole) = read_whole(&chars, start);
    proof {
        let body = if text@.len() > 0 && text@[0] == '+' {
            text@.drop_first()
        } else {
            text@
        };
        assert(body =~= chars@.skip(start as int));
        if end == n {
            assert(body =~= chars@.subrange(start as int, end as int));
        }
    }
    if end == n && end > start && whole <= 255 {
        Some(whole as u8)
    } else {
        None
    }
}


} // verus!
