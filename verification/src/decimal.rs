//! The calls into `rust_decimal`, each on plain mantissas and scales.
//!
//! Every function here hands its arguments to `rust_decimal` and states, over
//! the mathematics of [`crate::number`] and [`crate::text`], what comes back.
//! None of these statements is proved.

use vstd::prelude::*;

use rust_decimal::Decimal;

use crate::number::MAX_MANTISSA;
use crate::number::Number;
use crate::text::has_foreign_character;
use crate::text::is_digit;
use crate::text::is_plain;
use crate::text::plain_number;
use crate::text::whole_part;

verus! {

/// The model of a mantissa and scale.
pub open spec fn number(mantissa: i128, scale: u32) -> Number {
    Number { mantissa: mantissa as int, scale: scale as nat }
}

/// The model of an optional mantissa and scale.
pub open spec fn optional_number(parts: Option<(i128, u32)>) -> Option<Number> {
    match parts {
        Some((mantissa, scale)) => Some(number(mantissa, scale)),
        None => None,
    }
}

/// The mantissa and scale that `rust_decimal` reads from a text.
pub uninterp spec fn parsed_decimal(text: Seq<char>) -> Option<(i128, u32)>;

/// Whether it is said outright what a text stands for.
pub open spec fn is_settled(text: Seq<char>) -> bool {
    ||| is_plain(text) && plain_number(text).fits()
    ||| is_plain(text) && whole_part(text) > MAX_MANTISSA
    ||| has_foreign_character(text)
}

/// What a text stands for: a text in plain notation for its number, if that is in
/// range, and for none, if its whole part is not; a text with a foreign character
/// for none; and any other text (underscores, an exponent, more digits behind the
/// point than there is room for) for what `rust_decimal` makes of it.
pub open spec fn number_of(text: Seq<char>) -> Option<Number> {
    if !is_settled(text) {
        optional_number(parsed_decimal(text))
    } else if is_plain(text) && plain_number(text).fits() {
        Some(plain_number(text))
    } else {
        None
    }
}

/// `Decimal::checked_add`: the decimal sum, or `None` where it is out of range.
#[verifier::external_body]
pub(crate) fn checked_add(m1: i128, s1: u32, m2: i128, s2: u32) -> (r: Option<(i128, u32)>)
    requires
        number(m1, s1).fits(),
        number(m2, s2).fits(),
    ensures
        optional_number(r) == number(m1, s1).plus(number(m2, s2)),
{
    let a = Decimal::from_i128_with_scale(m1, s1);
    let b = Decimal::from_i128_with_scale(m2, s2);
    match a.checked_add(b) {
        Some(sum) => Some((sum.mantissa(), sum.scale())),
        None => None,
    }
}

/// `Decimal::checked_sub`: the decimal difference, or `None` where it is out of
/// range.
#[verifier::external_body]
pub(crate) fn checked_sub(m1: i128, s1: u32, m2: i128, s2: u32) -> (r: Option<(i128, u32)>)
    requires
        number(m1, s1).fits(),
        number(m2, s2).fits(),
    ensures
        optional_number(r) == number(m1, s1).minus(number(m2, s2)),
{
    let a = Decimal::from_i128_with_scale(m1, s1);
    let b = Decimal::from_i128_with_scale(m2, s2);
    match a.checked_sub(b) {
        Some(difference) => Some((difference.mantissa(), difference.scale())),
        None => None,
    }
}

/// `Decimal`'s `<`: compares the values, however many decimal places each has.
#[verifier::external_body]
pub(crate) fn less_than(m1: i128, s1: u32, m2: i128, s2: u32) -> (r: bool)
    requires
        number(m1, s1).fits(),
        number(m2, s2).fits(),
    ensures
        r == (number(m1, s1).value() < number(m2, s2).value()),
{
    Decimal::from_i128_with_scale(m1, s1) < Decimal::from_i128_with_scale(m2, s2)
}

/// `Decimal::from_str`: the number that the text stands for, in range, or `None`
/// where it returns an error. Which numbers the notations beyond the plain one
/// stand for is left unsaid, and so is how a number in plain notation is rounded
/// that has too many digits behind the point.
#[verifier::external_body]
pub(crate) fn parse(text: &str) -> (r: Option<(i128, u32)>)
    ensures
        optional_number(r) == number_of(text@),
        !is_settled(text@) ==> r == parsed_decimal(text@),
        r matches Some((mantissa, scale)) ==> number(mantissa, scale).fits(),
{
    match text.parse::<Decimal>() {
        Ok(value) => Some((value.mantissa(), value.scale())),
        Err(_) => None,
    }
}

/// `Decimal::round_dp`: rounds to at most `places` decimal places, halfway cases
/// to the even neighbour.
#[verifier::external_body]
pub(crate) fn round_dp(mantissa: i128, scale: u32, places: u32) -> (r: (i128, u32))
    requires
        number(mantissa, scale).fits(),
    ensures
        number(r.0, r.1) == number(mantissa, scale).rounded(places as nat),
{
    let rounded = Decimal::from_i128_with_scale(mantissa, scale).round_dp(places);
    (rounded.mantissa(), rounded.scale())
}

/// `Decimal::normalize`: strips the trailing zeros behind the point.
#[verifier::external_body]
pub(crate) fn normalize(mantissa: i128, scale: u32) -> (r: (i128, u32))
    requires
        number(mantissa, scale).fits(),
    ensures
        number(r.0, r.1) == number(mantissa, scale).trimmed(),
{
    let normal = Decimal::from_i128_with_scale(mantissa, scale).normalize();
    (normal.mantissa(), normal.scale())
}

/// `Decimal`'s `to_string`: plain notation with all decimal places.
#[verifier::external_body]
pub(crate) fn to_text(mantissa: i128, scale: u32) -> (r: String)
    requires
        number(mantissa, scale).fits(),
    ensures
        r@ == number(mantissa, scale).text(),
{
    Decimal::from_i128_with_scale(mantissa, scale).to_string()
}

/// What a text stands for: plain notation for its number, where that is in range, and
/// for none, where its whole part is not; with a character that no notation has, for
/// none; and otherwise for what the decimal parser reads.
pub proof fn law_texts_stand_for_numbers(text: Seq<char>)
    ensures
        ({
            let plain = is_plain(text);
            let in_range = plain && plain_number(text).fits();
            let beyond = plain && whole_part(text) > 79228162514264337593543950335;
            let foreign = exists|i: int|
                0 <= i < text.len() && !('0' <= #[trigger] text[i] <= '9') && text[i] != '+'
                    && text[i] != '-' && text[i] != '.' && text[i] != '_' && text[i] != 'e'
                    && text[i] != 'E';
            number_of(text) == if in_range {
                Some(plain_number(text))
            } else if beyond || foreign {
                None
            } else {
                optional_number(parsed_decimal(text))
            }
        }),
{
    if has_foreign_character(text) {
        let i = choose|i: int|
            0 <= i < text.len() && {
                let c = #[trigger] text[i];
                !is_digit(c) && c != '+' && c != '-' && c != '.' && c != '_' && c != 'e' && c != 'E'
            };
        assert(!('0' <= text[i] <= '9'));
    }
}

/// A mantissa and a scale make the number of just those.
pub proof fn law_parts_make_a_number(mantissa: i128, scale: u32)
    ensures
        number(mantissa, scale).mantissa == mantissa,
        number(mantissa, scale).scale == scale,
        optional_number(Some((mantissa, scale))) == Some(number(mantissa, scale)),
        optional_number(None) is None,
{
}

} // verus!
