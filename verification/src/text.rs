//! How numbers are written: as decimal digits in text.

use vstd::prelude::*;

use crate::number::Number;
use crate::number::lemma_pow10_positive;
use crate::number::pow10;

verus! {

/// Whether `c` is one of the ten decimal digits.
pub open spec fn is_digit(c: char) -> bool {
    '0' <= c <= '9'
}

/// The digit for a number below ten.
pub open spec fn digit(n: int) -> char {
    ('0' as int + n) as char
}

/// The decimal digits of `n`, without leading zeros; a lone `0` for zero.
pub open spec fn digits(n: int) -> Seq<char>
    decreases n,
{
    if n < 10 {
        seq![digit(n)]
    } else {
        digits(n / 10).push(digit(n % 10))
    }
}

/// The last `k` decimal digits of `n`, with leading zeros.
pub open spec fn last_digits(n: int, k: nat) -> Seq<char>
    decreases k,
{
    if k == 0 {
        seq![]
    } else {
        last_digits(n / 10, (k - 1) as nat).push(digit(n % 10))
    }
}

/// The number that a run of decimal digits spells.
pub open spec fn digits_value(text: Seq<char>) -> int
    decreases text.len(),
{
    if text.len() == 0 {
        0
    } else {
        10 * digits_value(text.drop_last()) + (text.last() as int - '0' as int)
    }
}

/// The text without its leading sign, if it has one.
pub open spec fn unsigned(text: Seq<char>) -> Seq<char> {
    if text.len() > 0 && (text[0] == '-' || text[0] == '+') {
        text.skip(1)
    } else {
        text
    }
}

/// What stands before the decimal point; all of it where there is none.
pub open spec fn before_point(text: Seq<char>) -> Seq<char> {
    if text.contains('.') {
        text.take(text.index_of_first('.')->0)
    } else {
        text
    }
}

/// What stands behind the decimal point; nothing where there is none.
pub open spec fn behind_point(text: Seq<char>) -> Seq<char> {
    if text.contains('.') {
        text.skip(text.index_of_first('.')->0 + 1)
    } else {
        seq![]
    }
}

/// The digits of a number in plain notation, its sign and point left out.
pub open spec fn plain_digits(text: Seq<char>) -> Seq<char> {
    before_point(unsigned(text)) + behind_point(unsigned(text))
}

/// Plain notation: an optional sign, then digits, at least one, with at most one
/// decimal point among, before or behind them.
pub open spec fn is_plain(text: Seq<char>) -> bool {
    &&& plain_digits(text).len() >= 1
    &&& forall|i: int|
        0 <= i < plain_digits(text).len() ==> is_digit(#[trigger] plain_digits(text)[i])
}

/// The whole number that stands before the decimal point.
pub open spec fn whole_part(text: Seq<char>) -> int {
    digits_value(before_point(unsigned(text)))
}

/// The number that a text in plain notation stands for, with as many decimal
/// places as digits are written behind the point.
pub open spec fn plain_number(text: Seq<char>) -> Number {
    let magnitude = digits_value(plain_digits(text));
    Number {
        mantissa: if text[0] == '-' {
            -magnitude
        } else {
            magnitude
        },
        scale: behind_point(unsigned(text)).len(),
    }
}

/// Whether some character of the text occurs in no notation of a number.
pub open spec fn has_foreign_character(text: Seq<char>) -> bool {
    exists|i: int|
        0 <= i < text.len() && {
            let c = #[trigger] text[i];
            !is_digit(c) && c != '+' && c != '-' && c != '.' && c != '_' && c != 'e' && c != 'E'
        }
}

impl Number {
    /// The number in plain notation, with all its decimal places.
    pub open spec fn text(self) -> Seq<char> {
        let magnitude = if self.mantissa < 0 {
            -self.mantissa
        } else {
            self.mantissa
        };
        let sign = if self.mantissa < 0 {
            seq!['-']
        } else {
            seq![]
        };
        let whole = digits(magnitude / pow10(self.scale));
        if self.scale == 0 {
            sign + whole
        } else {
            sign + whole + seq!['.'] + last_digits(magnitude % pow10(self.scale), self.scale)
        }
    }
}

/// Digits are digits.
pub proof fn lemma_digits(n: int)
    requires
        n >= 0,
    ensures
        forall|i: int| 0 <= i < digits(n).len() ==> is_digit(#[trigger] digits(n)[i]),
    decreases n,
{
    if n >= 10 {
        lemma_digits(n / 10);
        let start = digits(n / 10);
        assert forall|i: int| 0 <= i < digits(n).len() implies is_digit(#[trigger] digits(n)[i]) by {
            if i < start.len() {
                assert(digits(n)[i] == start[i]);
            } else {
                assert(digits(n)[i] == digit(n % 10));
            }
        }
    }
}

/// Digits are digits, with leading zeros too.
pub proof fn lemma_last_digits(n: int, k: nat)
    requires
        n >= 0,
    ensures
        forall|i: int| 0 <= i < last_digits(n, k).len() ==> is_digit(#[trigger] last_digits(n, k)[i]),
    decreases k,
{
    if k > 0 {
        lemma_last_digits(n / 10, (k - 1) as nat);
        let start = last_digits(n / 10, (k - 1) as nat);
        assert forall|i: int| 0 <= i < last_digits(n, k).len() implies is_digit(
            #[trigger] last_digits(n, k)[i],
        ) by {
            if i < start.len() {
                assert(last_digits(n, k)[i] == start[i]);
            } else {
                assert(last_digits(n, k)[i] == digit(n % 10));
            }
        }
    }
}

/// The digits of a number spell it.
pub proof fn lemma_digits_spell(n: int)
    requires
        n >= 0,
    ensures
        digits(n).len() > 0,
        digits_value(digits(n)) == n,
    decreases n,
{
    if n >= 10 {
        lemma_digits_spell(n / 10);
        assert(digits(n).drop_last() =~= digits(n / 10));
    } else {
        assert(digits(n).drop_last() =~= Seq::<char>::empty());
        assert(digits_value(Seq::<char>::empty()) == 0);
        assert(digits_value(digits(n)) == digits(n).last() as int - '0' as int);
    }
}

/// The last digits of a number that has no more spell it.
proof fn lemma_last_digits_spell(n: int, k: nat)
    requires
        0 <= n < pow10(k),
    ensures
        last_digits(n, k).len() == k,
        digits_value(last_digits(n, k)) == n,
    decreases k,
{
    if k > 0 {
        lemma_last_digits_spell(n / 10, (k - 1) as nat);
        assert(last_digits(n, k).drop_last() =~= last_digits(n / 10, (k - 1) as nat));
    }
}

/// What digits spell that follow one another.
pub proof fn lemma_digits_follow(first: Seq<char>, second: Seq<char>)
    ensures
        digits_value(first + second) == digits_value(first) * pow10(second.len()) + digits_value(
            second,
        ),
    decreases second.len(),
{
    if second.len() == 0 {
        assert(first + second =~= first);
        assert(digits_value(first) * pow10(0) == digits_value(first)) by (nonlinear_arith)
            requires
                pow10(0) == 1,
        ;
    } else {
        let k = (second.len() - 1) as nat;
        lemma_digits_follow(first, second.drop_last());
        assert((first + second).drop_last() =~= first + second.drop_last());
        let a = digits_value(first);
        assert(10 * (a * pow10(k)) == a * (10 * pow10(k))) by (nonlinear_arith);
    }
}

/// The text of a number is in plain notation, and stands for just that number. It has
/// a sign only where that is negative, and no zeros before it but one.
pub proof fn law_text_stands_for_its_number(n: Number)
    ensures
        is_plain(n.text()),
        plain_number(n.text()) == n,
        behind_point(unsigned(n.text())).len() == n.scale,
        n.text().contains('.') <==> n.scale > 0,
        n.text()[0] == '-' <==> n.mantissa < 0,
        n.text()[0] != '+',
        before_point(unsigned(n.text())) == digits(
            (if n.mantissa < 0 {
                -n.mantissa
            } else {
                n.mantissa
            }) / pow10(n.scale),
        ),
{
    let magnitude = if n.mantissa < 0 {
        -n.mantissa
    } else {
        n.mantissa
    };
    let p = pow10(n.scale);
    lemma_pow10_positive(n.scale);
    vstd::arithmetic::div_mod::lemma_fundamental_div_mod(magnitude, p);
    let q = magnitude / p;
    let r = magnitude % p;
    assert(q >= 0) by (nonlinear_arith)
        requires
            magnitude == p * q + r,
            0 <= r < p,
            magnitude >= 0,
    ;
    let whole = digits(q);
    let fraction = last_digits(r, n.scale);
    lemma_digits(q);
    lemma_last_digits(r, n.scale);
    lemma_digits_spell(q);
    lemma_last_digits_spell(r, n.scale);
    lemma_digits_follow(whole, fraction);
    assert(q * p == p * q) by (nonlinear_arith);
    let text = n.text();
    let body = if n.scale == 0 {
        whole
    } else {
        whole + seq!['.'] + fraction
    };
    assert(is_digit(whole[0]));
    if n.mantissa < 0 {
        assert(text =~= seq!['-'] + body);
        assert(text.skip(1) =~= body);
    } else {
        assert(text =~= body);
    }
    assert(unsigned(text) =~= body);
    assert forall|i: int| 0 <= i < whole.len() implies #[trigger] body[i] != '.' by {
        assert(is_digit(whole[i]));
    }
    if n.scale == 0 {
        assert(!body.contains('.'));
        assert(fraction =~= Seq::<char>::empty());
    } else {
        let i = whole.len() as int;
        assert(body[i] == '.');
        body.index_of_first_ensures('.');
        assert(body.index_of_first('.') == Some(i));
        assert(body.take(i) =~= whole);
        assert(body.skip(i + 1) =~= fraction);
        let at = if n.mantissa < 0 {
            i + 1
        } else {
            i
        };
        assert(text[at] == '.');
    }
    assert(plain_digits(text) =~= whole + fraction);
    assert forall|i: int| 0 <= i < plain_digits(text).len() implies is_digit(
        #[trigger] plain_digits(text)[i],
    ) by {
        if i < whole.len() {
            assert(is_digit(whole[i]));
        } else {
            assert(is_digit(fraction[i - whole.len()]));
        }
    }
    if n.scale == 0 {
        assert forall|i: int| 0 <= i < text.len() implies #[trigger] text[i] != '.' by {
            let at = if n.mantissa < 0 {
                i - 1
            } else {
                i
            };
            if at >= 0 {
                assert(is_digit(whole[at]));
            }
        }
    }
}

/// Digits are decimal, the most significant first: those below ten are the ten
/// consecutive characters from `0` on, and one digit more stands for ten times as
/// much.
pub proof fn law_digits_are_decimal(n: int, d: int)
    requires
        n >= 0,
        0 <= d < 10,
    ensures
        digits(d).len() == 1,
        digits(d)[0] as int == 0x30 + d,
        n > 0 ==> digits(10 * n + d) == digits(n) + digits(d),
        digits_value(digits(n)) == n,
{
    lemma_digits_spell(n);
    if n > 0 {
        assert((10 * n + d) / 10 == n && (10 * n + d) % 10 == d);
        assert(digits(n).push(digit(d)) =~= digits(n) + digits(d));
    }
}

/// Nothing but digits, a point and a leading sign stands in plain notation, and what
/// stands behind its point are digits.
pub proof fn lemma_plain_characters(text: Seq<char>)
    requires
        is_plain(text),
    ensures
        text.len() > 0,
        forall|i: int|
            0 <= i < text.len() ==> is_digit(#[trigger] text[i]) || text[i] == '.' || (i == 0 && (
            text[i] == '-' || text[i] == '+')),
        forall|i: int|
            0 <= i < behind_point(unsigned(text)).len() ==> is_digit(
                #[trigger] behind_point(unsigned(text))[i],
            ),
{
    let body = unsigned(text);
    let before = before_point(body);
    let behind = behind_point(body);
    body.index_of_first_ensures('.');
    assert forall|i: int| 0 <= i < before.len() implies is_digit(#[trigger] before[i]) by {
        assert(plain_digits(text)[i] == before[i]);
    }
    assert forall|i: int| 0 <= i < behind.len() implies is_digit(#[trigger] behind[i]) by {
        assert(plain_digits(text)[before.len() + i] == behind[i]);
    }
    assert forall|i: int| 0 <= i < body.len() implies is_digit(#[trigger] body[i]) || body[i]
        == '.' by {
        if body.contains('.') {
            let p = body.index_of_first('.')->0;
            if i < p {
                assert(before[i] == body[i]);
            } else if i > p {
                assert(behind[i - p - 1] == body[i]);
            }
        } else {
            assert(before[i] == body[i]);
        }
    }
    assert forall|i: int| 0 <= i < text.len() implies is_digit(#[trigger] text[i]) || text[i] == '.'
        || (i == 0 && (text[i] == '-' || text[i] == '+')) by {
        if body == text {
            assert(body[i] == text[i]);
        } else if i > 0 {
            assert(body[i - 1] == text[i]);
        }
    }
}

/// Digits never spell less than nothing.
pub proof fn lemma_digits_value_sign(text: Seq<char>)
    requires
        forall|i: int| 0 <= i < text.len() ==> is_digit(#[trigger] text[i]),
    ensures
        digits_value(text) >= 0,
    decreases text.len(),
{
    if text.len() > 0 {
        lemma_digits_value_sign(text.drop_last());
        assert(is_digit(text[text.len() - 1]));
    }
}

/// Digits of which one is not zero spell more than nothing.
pub proof fn lemma_digits_value_positive(text: Seq<char>, at: int)
    requires
        forall|i: int| 0 <= i < text.len() ==> is_digit(#[trigger] text[i]),
        0 <= at < text.len(),
        text[at] != '0',
    ensures
        digits_value(text) > 0,
    decreases text.len(),
{
    lemma_digits_value_sign(text.drop_last());
    assert(is_digit(text[text.len() - 1]));
    if at < text.len() - 1 {
        lemma_digits_value_positive(text.drop_last(), at);
    }
}

/// Plain notation: digits with at most one point, and a sign before them or none. It
/// stands for what the digits spell, with a minus sign for less than nothing, and has
/// as many places as digits behind the point.
pub proof fn law_plain_notation(sign: Seq<char>, whole: Seq<char>, behind: Seq<char>)
    requires
        sign == Seq::<char>::empty() || sign == seq!['-'] || sign == seq!['+'],
        forall|i: int| 0 <= i < whole.len() ==> '0' <= #[trigger] whole[i] <= '9',
        forall|i: int| 0 <= i < behind.len() ==> '0' <= #[trigger] behind[i] <= '9',
        whole.len() + behind.len() > 0,
    ensures
        ({
            let text = sign + whole + seq!['.'] + behind;
            let magnitude = digits_value(whole + behind);
            &&& is_plain(text)
            &&& plain_number(text).scale == behind.len()
            &&& plain_number(text).mantissa == if sign == seq!['-'] {
                -magnitude
            } else {
                magnitude
            }
            &&& whole_part(text) == digits_value(whole)
        }),
        behind.len() == 0 ==> {
            let text = sign + whole;
            &&& is_plain(text)
            &&& plain_number(text).scale == 0
            &&& plain_number(text).mantissa == if sign == seq!['-'] {
                -digits_value(whole)
            } else {
                digits_value(whole)
            }
            &&& whole_part(text) == digits_value(whole)
        },
{
    let text = sign + whole + seq!['.'] + behind;
    let body = whole + seq!['.'] + behind;
    let p = whole.len() as int;
    assert(text =~= sign + body);
    if sign.len() == 0 {
        assert(sign =~= Seq::<char>::empty());
        assert(text =~= body);
        assert(p > 0 ==> body[0] == whole[0]);
        assert(text.len() == 0 || (text[0] != '-' && text[0] != '+'));
    } else {
        assert(text[0] == sign[0]);
        assert(text.skip(1) =~= body);
    }
    assert(unsigned(text) =~= body);
    assert(body[p] == '.');
    assert forall|i: int| 0 <= i < p implies #[trigger] body[i] != '.' by {
        assert(body[i] == whole[i]);
    }
    body.index_of_first_ensures('.');
    assert(body.index_of_first('.') == Some(p));
    assert(body.take(p) =~= whole);
    assert(body.skip(p + 1) =~= behind);
    assert(plain_digits(text) =~= whole + behind);
    assert forall|i: int| 0 <= i < (whole + behind).len() implies is_digit(
        #[trigger] (whole + behind)[i],
    ) by {
        if i < p {
            assert((whole + behind)[i] == whole[i]);
        } else {
            assert((whole + behind)[i] == behind[i - p]);
        }
    }
    if behind.len() == 0 {
        let text = sign + whole;
        assert(behind =~= Seq::<char>::empty());
        if sign.len() == 0 {
            assert(text =~= whole);
        } else {
            assert(text[0] == sign[0]);
            assert(text.skip(1) =~= whole);
        }
        assert(unsigned(text) =~= whole);
        assert forall|i: int| 0 <= i < whole.len() implies #[trigger] whole[i] != '.' by {
        }
        assert(!whole.contains('.'));
        assert(plain_digits(text) =~= whole);
        assert(whole + behind =~= whole);
        assert forall|i: int| 0 <= i < whole.len() implies is_digit(#[trigger] whole[i]) by {
        }
    }
}

/// What digits spell: nothing where there are none, and one digit more makes it ten
/// times as much and that digit.
pub proof fn law_digits_spell_numbers(text: Seq<char>, c: char)
    ensures
        digits_value(Seq::<char>::empty()) == 0,
        digits_value(text.push(c)) == 10 * digits_value(text) + (c as int - 0x30),
{
    assert(text.push(c).drop_last() =~= text);
}

/// Whether every character is a decimal digit.
pub open spec fn all_digit_characters(text: Seq<char>) -> bool {
    forall|i: int| 0 <= i < text.len() ==> '0' <= #[trigger] text[i] <= '9'
}

/// Nothing else is plain notation.
pub proof fn law_only_digits_are_plain(text: Seq<char>)
    requires
        is_plain(text),
    ensures
        exists|sign: Seq<char>, whole: Seq<char>, behind: Seq<char>|
            {
                &&& sign == Seq::<char>::empty() || sign == seq!['-'] || sign == seq!['+']
                &&& #[trigger] all_digit_characters(whole) && #[trigger] all_digit_characters(behind)
                &&& whole.len() + behind.len() > 0
                &&& text == #[trigger] (sign + whole) + seq!['.'] + behind || (behind.len() == 0
                    && text == sign + whole)
            },
{
    let body = unsigned(text);
    let start = text.len() - body.len();
    let sign = text.take(start);
    let whole = before_point(body);
    let behind = behind_point(body);
    lemma_plain_characters(text);
    body.index_of_first_ensures('.');
    assert(start == 1 ==> sign =~= seq![text[0]]);
    assert(start == 0 ==> sign =~= Seq::<char>::empty());
    assert(text =~= sign + body);
    assert forall|i: int| 0 <= i < whole.len() implies '0' <= #[trigger] whole[i] <= '9' by {
        assert(plain_digits(text)[i] == whole[i]);
        assert(is_digit(plain_digits(text)[i]));
    }
    assert forall|i: int| 0 <= i < behind.len() implies '0' <= #[trigger] behind[i] <= '9' by {
        assert(is_digit(behind[i]));
    }
    assert(all_digit_characters(whole) && all_digit_characters(behind));
    if body.contains('.') {
        assert(body =~= whole + seq!['.'] + behind);
        assert(text =~= (sign + whole) + seq!['.'] + behind);
    } else {
        assert(text =~= sign + whole);
    }
}

} // verus!
