//! Monetary amounts: fixed-point decimals, never floats.

use vstd::prelude::*;

use crate::decimal;
use crate::number::Number;
use crate::number::MAX_PLACES;
use crate::number::lemma_plus_fits;
use crate::number::lemma_rounded_fits;
use crate::number::lemma_trimmed_fits;

verus! {

/// A monetary amount: an integer mantissa with a count of decimal places.
///
/// The arithmetic is `rust_decimal`'s. Two amounts are equal when they have the
/// same value, however many decimal places each is written with.
#[derive(Debug, Clone, Copy)]
pub struct Amount {
    mantissa: i128,
    scale: u32,
}

impl View for Amount {
    type V = Number;

    closed spec fn view(&self) -> Number {
        decimal::number(self.mantissa, self.scale)
    }
}

impl Amount {
    #[verifier::type_invariant]
    spec fn in_range(self) -> bool {
        decimal::number(self.mantissa, self.scale).fits()
    }

    /// The amount `mantissa` divided by ten to the power of `scale`.
    pub fn new(mantissa: i64, scale: u32) -> (r: Amount)
        requires
            scale <= MAX_PLACES,
        ensures
            r@ == (Number { mantissa: mantissa as int, scale: scale as nat }),
    {
        Amount { mantissa: mantissa as i128, scale }
    }

    /// Nothing.
    pub fn zero() -> (r: Amount)
        ensures
            r@ == Number::zero(),
    {
        Amount { mantissa: 0, scale: 0 }
    }

    /// The number of decimal places the amount is written with.
    pub fn scale(&self) -> (r: u32)
        ensures
            r == self@.scale,
            self@.fits(),
    {
        proof {
            use_type_invariant(self);
        }
        self.scale
    }

    /// The amount that a text stands for, or `None` where it stands for none.
    pub fn parse(text: &str) -> (r: Option<Amount>)
        ensures
            match r {
                Some(amount) => decimal::number_of(text@) == Some(amount@) && amount@.fits(),
                None => decimal::number_of(text@) is None,
            },
    {
        match decimal::parse(text) {
            Some((mantissa, scale)) => Some(Amount { mantissa, scale }),
            None => None,
        }
    }

    /// The sum, or `None` where it is out of range.
    pub fn checked_add(self, other: Amount) -> (r: Option<Amount>)
        ensures
            self@.fits(),
            other@.fits(),
            match r {
                Some(sum) => self@.plus(other@) == Some(sum@) && sum@.fits(),
                None => self@.plus(other@) is None,
            },
    {
        proof {
            use_type_invariant(&self);
            use_type_invariant(&other);
            lemma_plus_fits(self@, other@);
        }
        match decimal::checked_add(self.mantissa, self.scale, other.mantissa, other.scale) {
            Some((mantissa, scale)) => Some(Amount { mantissa, scale }),
            None => None,
        }
    }

    /// The difference, or `None` where it is out of range.
    pub fn checked_sub(self, other: Amount) -> (r: Option<Amount>)
        ensures
            self@.fits(),
            other@.fits(),
            match r {
                Some(difference) => self@.minus(other@) == Some(difference@) && difference@.fits(),
                None => self@.minus(other@) is None,
            },
    {
        proof {
            use_type_invariant(&self);
            use_type_invariant(&other);
            lemma_plus_fits(self@, other@.negated());
        }
        match decimal::checked_sub(self.mantissa, self.scale, other.mantissa, other.scale) {
            Some((mantissa, scale)) => Some(Amount { mantissa, scale }),
            None => None,
        }
    }

    /// The amount with the other sign.
    pub fn negated(self) -> (r: Amount)
        ensures
            r@ == self@.negated(),
    {
        proof {
            use_type_invariant(&self);
        }
        Amount { mantissa: -self.mantissa, scale: self.scale }
    }

    /// Whether the amount is smaller than `other`.
    pub fn less_than(self, other: Amount) -> (r: bool)
        ensures
            r == (self@.value() < other@.value()),
            self@.fits(),
            other@.fits(),
    {
        proof {
            use_type_invariant(&self);
            use_type_invariant(&other);
        }
        decimal::less_than(self.mantissa, self.scale, other.mantissa, other.scale)
    }

    /// The amount rounded to at most `places` decimal places.
    pub fn round_dp(self, places: u32) -> (r: Amount)
        ensures
            r@ == self@.rounded(places as nat),
    {
        proof {
            use_type_invariant(&self);
            lemma_rounded_fits(self@, places as nat);
        }
        let (mantissa, scale) = decimal::round_dp(self.mantissa, self.scale, places);
        Amount { mantissa, scale }
    }

    /// The same amount with no trailing zeros behind its point.
    pub fn normalize(self) -> (r: Amount)
        ensures
            r@ == self@.trimmed(),
    {
        proof {
            use_type_invariant(&self);
            lemma_trimmed_fits(self@);
        }
        let (mantissa, scale) = decimal::normalize(self.mantissa, self.scale);
        Amount { mantissa, scale }
    }

    /// The amount in plain notation, with all its decimal places.
    pub fn to_text(self) -> (r: String)
        ensures
            r@ == self@.text(),
    {
        proof {
            use_type_invariant(&self);
        }
        decimal::to_text(self.mantissa, self.scale)
    }
}

impl Default for Amount {
    fn default() -> (r: Amount)
        ensures
            r@ == Number::zero(),
    {
        Amount::zero()
    }
}

impl PartialEq for Amount {
    fn eq(&self, other: &Amount) -> (r: bool) {
        !self.less_than(*other) && !other.less_than(*self)
    }
}

impl vstd::std_specs::cmp::PartialEqSpecImpl for Amount {
    open spec fn obeys_eq_spec() -> bool {
        true
    }

    open spec fn eq_spec(&self, other: &Amount) -> bool {
        self@.value() == other@.value()
    }
}

impl Eq for Amount {

}

/// The error of reading an amount from a text that stands for none.
#[derive(Debug, Clone, Copy, PartialEq, Eq)]
pub struct NotAnAmount;

impl std::str::FromStr for Amount {
    type Err = NotAnAmount;

    /// The amount that a text stands for, or an error where it stands for none.
    fn from_str(text: &str) -> (r: Result<Amount, NotAnAmount>)
        ensures
            match r {
                Ok(amount) => decimal::number_of(text@) == Some(amount@) && amount@.fits(),
                Err(_) => decimal::number_of(text@) is None,
            },
    {
        match Amount::parse(text) {
            Some(amount) => Ok(amount),
            None => Err(NotAnAmount),
        }
    }
}

/// Amounts are equal exactly where they have the same value.
pub proof fn law_amounts_are_equal_by_value(a: Amount, b: Amount)
    ensures
        vstd::std_specs::cmp::PartialEqSpec::eq_spec(&a, &b) <==> a@.value() == b@.value(),
{
}

} // verus!
