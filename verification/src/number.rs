//! The arithmetic of fixed-point decimals, as mathematics.
//!
//! A [`Number`] is an integer mantissa with a count of decimal places. The
//! operations below say which decimal the sum of two decimals is, and when
//! there is none because the sum is out of range.

use vstd::prelude::*;

verus! {

/// The largest mantissa magnitude a decimal can carry: 96 bits, all ones.
pub const MAX_MANTISSA: i128 = 79228162514264337593543950335;

/// The largest number of decimal places a decimal can carry.
pub const MAX_PLACES: u32 = 28;

/// A decimal number: `mantissa` divided by ten to the power of `scale`.
pub struct Number {
    pub mantissa: int,
    pub scale: nat,
}

/// Ten to the power of `k`.
pub open spec fn pow10(k: nat) -> int
    decreases k,
{
    if k == 0 {
        1
    } else {
        10 * pow10((k - 1) as nat)
    }
}

/// `n` divided by ten to the power of `k`, rounded to the nearest integer, and
/// to the even one of the two where `n` lies halfway between them.
pub open spec fn nearest(n: int, k: nat) -> int {
    let quotient = n / pow10(k);
    let rest = n % pow10(k);
    if 2 * rest > pow10(k) || (2 * rest == pow10(k) && quotient % 2 == 1) {
        quotient + 1
    } else {
        quotient
    }
}

/// The decimal that stands for `exact` divided by ten to the power of `scale`,
/// after at least `dropped` of its decimal places have been rounded away: as few
/// more go as make the mantissa fit, and there is none if it never does.
pub open spec fn represent(exact: int, scale: nat, dropped: nat) -> Option<Number>
    decreases scale - dropped,
{
    let mantissa = nearest(exact, dropped);
    if -MAX_MANTISSA <= mantissa <= MAX_MANTISSA {
        Some(Number { mantissa, scale: (scale - dropped) as nat })
    } else if dropped >= scale {
        None
    } else {
        represent(exact, scale, dropped + 1)
    }
}

impl Number {
    /// Zero, with no decimal places.
    pub open spec fn zero() -> Number {
        Number { mantissa: 0, scale: 0 }
    }

    /// Whether a decimal can carry this number.
    pub open spec fn fits(self) -> bool {
        &&& -MAX_MANTISSA <= self.mantissa <= MAX_MANTISSA
        &&& self.scale <= MAX_PLACES
    }

    /// The number in units of its smallest possible fraction, so that numbers
    /// with different decimal places can be compared and added.
    pub open spec fn value(self) -> int {
        self.mantissa * pow10((MAX_PLACES - self.scale) as nat)
    }

    /// The mantissa once the number is written with `scale` decimal places.
    pub open spec fn aligned(self, scale: nat) -> int {
        self.mantissa * pow10((scale - self.scale) as nat)
    }

    pub open spec fn negated(self) -> Number {
        Number { mantissa: -self.mantissa, scale: self.scale }
    }

    /// The decimal sum. Adding zero changes nothing, not even the number of
    /// decimal places; otherwise the sum has the places of the longer operand,
    /// less those that have to be rounded away for the mantissa to fit.
    pub open spec fn plus(self, other: Number) -> Option<Number> {
        let scale = if self.scale < other.scale {
            other.scale
        } else {
            self.scale
        };
        if self.mantissa == 0 {
            Some(other)
        } else if other.mantissa == 0 {
            Some(self)
        } else {
            represent(self.aligned(scale) + other.aligned(scale), scale, 0)
        }
    }

    /// The decimal difference: the sum with the other operand negated.
    pub open spec fn minus(self, other: Number) -> Option<Number> {
        self.plus(other.negated())
    }

    /// The number rounded to at most `places` decimal places.
    pub open spec fn rounded(self, places: nat) -> Number {
        if self.scale <= places {
            self
        } else {
            Number {
                mantissa: nearest(self.mantissa, (self.scale - places) as nat),
                scale: places,
            }
        }
    }

    /// The same number with no trailing zeros behind its point.
    pub open spec fn trimmed(self) -> Number
        decreases self.scale,
    {
        if self.mantissa == 0 {
            Number::zero()
        } else if self.scale > 0 && self.mantissa % 10 == 0 {
            (Number { mantissa: self.mantissa / 10, scale: (self.scale - 1) as nat }).trimmed()
        } else {
            self
        }
    }

    /// Whether the decimal sum is the sum: nothing was rounded away.
    pub open spec fn adds_exactly(self, other: Number) -> bool {
        self.plus(other) matches Some(sum) && sum.value() == self.value() + other.value()
    }
}

/// Ten to any power is positive.
pub proof fn lemma_pow10_positive(k: nat)
    ensures
        pow10(k) >= 1,
    decreases k,
{
    if k > 0 {
        lemma_pow10_positive((k - 1) as nat);
    }
}

/// Powers of ten multiply by adding their exponents.
pub proof fn lemma_pow10_sum(j: nat, k: nat)
    ensures
        pow10(j + k) == pow10(j) * pow10(k),
    decreases j,
{
    if j == 0 {
        assert(pow10(0) == 1);
        assert(pow10(0) * pow10(k) == pow10(k)) by (nonlinear_arith)
            requires
                pow10(0) == 1,
        ;
    } else {
        let i = (j - 1) as nat;
        lemma_pow10_sum(i, k);
        assert((j + k - 1) as nat == i + k);
        assert(pow10(j + k) == 10 * pow10(i + k));
        assert(10 * (pow10(i) * pow10(k)) == (10 * pow10(i)) * pow10(k)) by (nonlinear_arith);
    }
}

/// Rounding away places that hold only zeros changes nothing.
pub proof fn lemma_nearest_of_zeros(q: int, k: nat, dropped: nat)
    requires
        dropped <= k,
    ensures
        nearest(q * pow10(k), dropped) == q * pow10((k - dropped) as nat),
{
    let p = pow10(dropped);
    let kept = q * pow10((k - dropped) as nat);
    lemma_pow10_positive(dropped);
    lemma_pow10_sum((k - dropped) as nat, dropped);
    assert(q * pow10(k) == kept * p && kept * p == p * kept) by (nonlinear_arith)
        requires
            pow10(k) == pow10((k - dropped) as nat) * p,
            kept == q * pow10((k - dropped) as nat),
    ;
    vstd::arithmetic::div_mod::lemma_div_multiples_vanish(kept, p);
    vstd::arithmetic::div_mod::lemma_mod_multiples_basic(kept, p);
}

/// Rounding keeps the sign.
pub proof fn lemma_nearest_keeps_sign(n: int, k: nat)
    ensures
        n >= 0 ==> nearest(n, k) >= 0,
        n <= 0 ==> nearest(n, k) <= 0,
{
    let p = pow10(k);
    lemma_pow10_positive(k);
    vstd::arithmetic::div_mod::lemma_fundamental_div_mod(n, p);
    let q = n / p;
    let r = n % p;
    assert(n >= 0 ==> q >= 0) by (nonlinear_arith)
        requires
            n == p * q + r,
            0 <= r < p,
            p >= 1,
    ;
    assert(n <= 0 ==> q <= 0) by (nonlinear_arith)
        requires
            n == p * q + r,
            0 <= r < p,
            p >= 1,
    ;
    assert(n <= 0 && q == 0 ==> r == 0) by (nonlinear_arith)
        requires
            n == p * q + r,
            0 <= r < p,
            p >= 1,
    ;
}

/// What `represent` finds fits, keeps the sign, and has no more places.
pub proof fn lemma_represent(exact: int, scale: nat, dropped: nat)
    requires
        dropped <= scale,
    ensures
        represent(exact, scale, dropped) matches Some(n) ==> {
            &&& -MAX_MANTISSA <= n.mantissa <= MAX_MANTISSA
            &&& n.scale + dropped <= scale
            &&& exact >= 0 ==> n.mantissa >= 0
            &&& exact <= 0 ==> n.mantissa <= 0
        },
    decreases scale - dropped,
{
    lemma_nearest_keeps_sign(exact, dropped);
    let mantissa = nearest(exact, dropped);
    if !(-MAX_MANTISSA <= mantissa <= MAX_MANTISSA) && dropped < scale {
        lemma_represent(exact, scale, dropped + 1);
    }
}

/// A sum of numbers that fit fits.
pub proof fn lemma_plus_fits(a: Number, b: Number)
    requires
        a.fits(),
        b.fits(),
    ensures
        a.plus(b) matches Some(sum) ==> sum.fits(),
{
    let scale = if a.scale < b.scale {
        b.scale
    } else {
        a.scale
    };
    lemma_represent(a.aligned(scale) + b.aligned(scale), scale, 0);
}

/// Rounding away places does not grow the mantissa out of range.
pub proof fn lemma_rounded_fits(n: Number, places: nat)
    requires
        n.fits(),
    ensures
        n.rounded(places).fits(),
{
    if n.scale > places {
        let k = (n.scale - places) as nat;
        let p = pow10(k);
        lemma_pow10_positive((k - 1) as nat);
        vstd::arithmetic::div_mod::lemma_fundamental_div_mod(n.mantissa, p);
        let q = n.mantissa / p;
        let r = n.mantissa % p;
        assert(-MAX_MANTISSA <= q < MAX_MANTISSA) by (nonlinear_arith)
            requires
                n.mantissa == p * q + r,
                0 <= r < p,
                p >= 10,
                -MAX_MANTISSA <= n.mantissa <= MAX_MANTISSA,
                MAX_MANTISSA > 1,
        ;
    }
}

/// Stripping zeros does not grow the mantissa.
pub proof fn lemma_trimmed_fits(n: Number)
    requires
        n.fits(),
    ensures
        n.trimmed().fits(),
    decreases n.scale,
{
    if n.mantissa != 0 && n.scale > 0 && n.mantissa % 10 == 0 {
        lemma_trimmed_fits(Number { mantissa: n.mantissa / 10, scale: (n.scale - 1) as nat });
    }
}

/// A number's value, from its mantissa at a larger scale.
pub proof fn lemma_aligned_value(n: Number, scale: nat)
    requires
        n.scale <= scale <= MAX_PLACES,
    ensures
        n.aligned(scale) * pow10((MAX_PLACES - scale) as nat) == n.value(),
{
    let j = (scale - n.scale) as nat;
    let k = (MAX_PLACES - scale) as nat;
    lemma_pow10_sum(j, k);
    assert(j + k == (MAX_PLACES - n.scale) as nat);
    assert((n.mantissa * pow10(j)) * pow10(k) == n.mantissa * (pow10(j) * pow10(k)))
        by (nonlinear_arith);
}

/// Nothing is rounded away where only zeros have to go for the mantissa to fit.
proof fn lemma_represent_zeros(q: int, k: nat, scale: nat, dropped: nat)
    requires
        -MAX_MANTISSA <= q <= MAX_MANTISSA,
        dropped <= k <= scale,
    ensures
        represent(q * pow10(k), scale, dropped) matches Some(n) && n.scale <= scale && n.aligned(
            scale,
        ) == q * pow10(k),
    decreases k - dropped,
{
    lemma_nearest_of_zeros(q, k, dropped);
    let mantissa = q * pow10((k - dropped) as nat);
    if -MAX_MANTISSA <= mantissa <= MAX_MANTISSA {
        let n = Number { mantissa, scale: (scale - dropped) as nat };
        lemma_pow10_sum((k - dropped) as nat, dropped);
        assert(mantissa * pow10(dropped) == q * pow10(k)) by (nonlinear_arith)
            requires
                mantissa == q * pow10((k - dropped) as nat),
                pow10(k) == pow10((k - dropped) as nat) * pow10(dropped),
        ;
        assert((scale - n.scale) as nat == dropped);
    } else {
        if dropped == k {
            assert(pow10(0) == 1);
            assert(mantissa == q) by (nonlinear_arith)
                requires
                    mantissa == q * pow10(0),
                    pow10(0) == 1,
            ;
        }
        lemma_represent_zeros(q, k, scale, dropped + 1);
    }
}

/// A decimal sum is rounded only where no decimal is the sum: if any number that
/// fits has the value of the exact sum, then so has the decimal sum.
pub proof fn law_sum_is_exact_where_one_exists(a: Number, b: Number, sum: Number)
    requires
        a.fits(),
        b.fits(),
        sum.fits(),
        a.value() + b.value() == sum.value(),
    ensures
        a.adds_exactly(b),
{
    let scale = if a.scale < b.scale {
        b.scale
    } else {
        a.scale
    };
    let k = (MAX_PLACES - scale) as nat;
    let exact = a.aligned(scale) + b.aligned(scale);
    lemma_pow10_positive(k);
    lemma_aligned_value(a, scale);
    lemma_aligned_value(b, scale);
    assert(exact * pow10(k) == a.value() + b.value()) by (nonlinear_arith)
        requires
            exact == a.aligned(scale) + b.aligned(scale),
            a.aligned(scale) * pow10(k) == a.value(),
            b.aligned(scale) * pow10(k) == b.value(),
    ;
    if a.mantissa == 0 {
        assert(a.value() == 0) by (nonlinear_arith)
            requires
                a.value() == a.mantissa * pow10((MAX_PLACES - a.scale) as nat),
                a.mantissa == 0,
        ;
    } else if b.mantissa == 0 {
        assert(b.value() == 0) by (nonlinear_arith)
            requires
                b.value() == b.mantissa * pow10((MAX_PLACES - b.scale) as nat),
                b.mantissa == 0,
        ;
    } else {
        if sum.scale <= scale {
            lemma_aligned_value(sum, scale);
            assert(exact == sum.aligned(scale)) by (nonlinear_arith)
                requires
                    exact * pow10(k) == sum.aligned(scale) * pow10(k),
                    pow10(k) >= 1,
            ;
            lemma_represent_zeros(sum.mantissa, (scale - sum.scale) as nat, scale, 0);
        } else {
            let j = (sum.scale - scale) as nat;
            let i = (MAX_PLACES - sum.scale) as nat;
            lemma_pow10_positive(i);
            lemma_pow10_positive(j);
            lemma_pow10_sum(j, i);
            assert(j + i == k);
            assert(sum.mantissa == exact * pow10(j)) by (nonlinear_arith)
                requires
                    sum.mantissa * pow10(i) == exact * pow10(k),
                    pow10(k) == pow10(j) * pow10(i),
                    pow10(i) >= 1,
            ;
            assert(-MAX_MANTISSA <= exact <= MAX_MANTISSA) by (nonlinear_arith)
                requires
                    -MAX_MANTISSA <= exact * pow10(j) <= MAX_MANTISSA,
                    pow10(j) >= 1,
                    MAX_MANTISSA >= 0,
            ;
            assert(pow10(0) == 1);
            assert(exact * pow10(0) == exact) by (nonlinear_arith)
                requires
                    pow10(0) == 1,
            ;
            lemma_represent_zeros(exact, 0, scale, 0);
        }
        let n = represent(exact, scale, 0)->0;
        lemma_aligned_value(n, scale);
    }
}

/// Where nothing fits, not even the whole number nearest to the sum does.
proof fn lemma_represent_nothing(exact: int, scale: nat, dropped: nat)
    requires
        dropped <= scale,
        represent(exact, scale, dropped) is None,
    ensures
        exact > MAX_MANTISSA * pow10(scale) || exact < -MAX_MANTISSA * pow10(scale),
    decreases scale - dropped,
{
    if dropped < scale {
        lemma_represent_nothing(exact, scale, dropped + 1);
    } else {
        let p = pow10(scale);
        lemma_pow10_positive(scale);
        vstd::arithmetic::div_mod::lemma_fundamental_div_mod(exact, p);
        let q = exact / p;
        let r = exact % p;
        assert(exact > MAX_MANTISSA * p || exact < -MAX_MANTISSA * p) by (nonlinear_arith)
            requires
                exact == p * q + r,
                0 <= r < p,
                q > MAX_MANTISSA || q < -MAX_MANTISSA || (q == MAX_MANTISSA && r > 0),
        ;
    }
}

/// A decimal sum is out of range only where the exact sum is beyond the largest
/// decimal.
pub proof fn law_overflow_is_beyond_the_largest(a: Number, b: Number)
    requires
        a.fits(),
        b.fits(),
        a.plus(b) is None,
    ensures
        a.value() + b.value() > MAX_MANTISSA * pow10(MAX_PLACES as nat) || a.value() + b.value()
            < -MAX_MANTISSA * pow10(MAX_PLACES as nat),
{
    let scale = if a.scale < b.scale {
        b.scale
    } else {
        a.scale
    };
    let k = (MAX_PLACES - scale) as nat;
    let exact = a.aligned(scale) + b.aligned(scale);
    lemma_represent_nothing(exact, scale, 0);
    lemma_aligned_value(a, scale);
    lemma_aligned_value(b, scale);
    lemma_pow10_positive(k);
    lemma_pow10_sum(scale, k);
    assert(scale + k == MAX_PLACES as nat);
    let sum = a.value() + b.value();
    let limit = MAX_MANTISSA * pow10(MAX_PLACES as nat);
    assert(sum > limit || sum < -limit) by (nonlinear_arith)
        requires
            exact > MAX_MANTISSA * pow10(scale) || exact < -MAX_MANTISSA * pow10(scale),
            sum == a.aligned(scale) * pow10(k) + b.aligned(scale) * pow10(k),
            exact == a.aligned(scale) + b.aligned(scale),
            limit == MAX_MANTISSA * (pow10(scale) * pow10(k)),
            pow10(k) >= 1,
    ;
}

/// Negating a number negates its value.
pub proof fn lemma_negated_value(n: Number)
    ensures
        n.negated().value() == -n.value(),
{
    let p = pow10((MAX_PLACES - n.scale) as nat);
    assert((-n.mantissa) * p == -(n.mantissa * p)) by (nonlinear_arith);
}

/// A number has the sign of its mantissa.
pub proof fn lemma_value_sign(n: Number)
    ensures
        n.mantissa >= 0 <==> n.value() >= 0,
        n.mantissa <= 0 <==> n.value() <= 0,
{
    let p = pow10((MAX_PLACES - n.scale) as nat);
    lemma_pow10_positive((MAX_PLACES - n.scale) as nat);
    assert((n.mantissa >= 0 <==> n.mantissa * p >= 0) && (n.mantissa <= 0 <==> n.mantissa * p <= 0))
        by (nonlinear_arith)
        requires
            p >= 1,
    ;
}

/// A sum that is not negative has a decimal sum that is not negative, rounded or
/// not.
pub proof fn lemma_sum_keeps_sign(a: Number, b: Number)
    requires
        a.fits(),
        b.fits(),
        a.value() + b.value() >= 0,
    ensures
        a.plus(b) matches Some(sum) ==> sum.value() >= 0,
{
    let scale = if a.scale < b.scale {
        b.scale
    } else {
        a.scale
    };
    let p = pow10((MAX_PLACES - scale) as nat);
    let exact = a.aligned(scale) + b.aligned(scale);
    lemma_pow10_positive((MAX_PLACES - scale) as nat);
    lemma_aligned_value(a, scale);
    lemma_aligned_value(b, scale);
    lemma_value_sign(a);
    lemma_value_sign(b);
    assert(exact >= 0) by (nonlinear_arith)
        requires
            a.aligned(scale) * p + b.aligned(scale) * p >= 0,
            exact == a.aligned(scale) + b.aligned(scale),
            p >= 1,
    ;
    lemma_represent(exact, scale, 0);
    if let Some(sum) = a.plus(b) {
        lemma_value_sign(sum);
    }
}

/// Rounding does not depend on zeros behind the number.
pub proof fn lemma_nearest_scaled(n: int, j: nat, k: nat)
    ensures
        nearest(n * pow10(j), j + k) == nearest(n, k),
{
    let p = pow10(j);
    let q = pow10(k);
    lemma_pow10_positive(j);
    lemma_pow10_positive(k);
    lemma_pow10_sum(j, k);
    let quotient = n / q;
    let rest = n % q;
    vstd::arithmetic::div_mod::lemma_fundamental_div_mod(n, q);
    assert(n * p == quotient * (p * q) + rest * p) by (nonlinear_arith)
        requires
            n == q * quotient + rest,
    ;
    assert(0 <= rest * p < p * q) by (nonlinear_arith)
        requires
            0 <= rest < q,
            p >= 1,
    ;
    vstd::arithmetic::div_mod::lemma_fundamental_div_mod_converse(
        n * p,
        p * q,
        quotient,
        rest * p,
    );
    assert((2 * rest > q <==> 2 * (rest * p) > p * q) && (2 * rest == q <==> 2 * (rest * p) == p
        * q)) by (nonlinear_arith)
        requires
            p >= 1,
    ;
}

/// Once zeros behind the number are gone, what is left is the same.
proof fn lemma_represent_behind_zeros(exact: int, scale: nat, j: nat, dropped: nat)
    requires
        dropped <= scale,
    ensures
        represent(exact * pow10(j), scale + j, dropped + j) == represent(exact, scale, dropped),
    decreases scale - dropped,
{
    lemma_nearest_scaled(exact, j, dropped);
    assert(j + dropped == dropped + j);
    if dropped < scale {
        lemma_represent_behind_zeros(exact, scale, j, dropped + 1);
        assert(dropped + 1 + j == dropped + j + 1);
    }
}

/// Zeros that do not make the mantissa fit all go.
proof fn lemma_represent_drops_zeros(exact: int, scale: nat, j: nat, dropped: nat)
    requires
        dropped <= j,
        exact < -MAX_MANTISSA || exact > MAX_MANTISSA,
    ensures
        represent(exact * pow10(j), scale + j, dropped) == represent(exact, scale, 0),
    decreases j - dropped,
{
    if dropped == j {
        lemma_represent_behind_zeros(exact, scale, j, 0);
    } else {
        let k = (j - dropped) as nat;
        lemma_nearest_of_zeros(exact, j, dropped);
        lemma_pow10_positive(k);
        let mantissa = exact * pow10(k);
        assert(mantissa < -MAX_MANTISSA || mantissa > MAX_MANTISSA) by (nonlinear_arith)
            requires
                mantissa == exact * pow10(k),
                pow10(k) >= 1,
                exact < -MAX_MANTISSA || exact > MAX_MANTISSA,
                MAX_MANTISSA >= 0,
        ;
        lemma_represent_drops_zeros(exact, scale, j, dropped + 1);
    }
}

/// The value of what `represent` finds, if it finds anything.
pub open spec fn represented_value(exact: int, scale: nat) -> Option<int> {
    match represent(exact, scale, 0) {
        Some(n) => Some(n.value()),
        None => None,
    }
}

/// What `represent` finds has the same value, however many zeros stand behind.
proof fn lemma_represent_by_value(exact: int, scale: nat)
    requires
        scale <= MAX_PLACES,
    ensures
        represented_value(exact, scale) == represented_value(
            exact * pow10((MAX_PLACES - scale) as nat),
            MAX_PLACES as nat,
        ),
{
    let j = (MAX_PLACES - scale) as nat;
    assert(scale + j == MAX_PLACES as nat);
    if -MAX_MANTISSA <= exact <= MAX_MANTISSA {
        assert(pow10(0) == 1);
        lemma_nearest_of_zeros(exact, 0, 0);
        assert(exact * pow10(0) == exact) by (nonlinear_arith)
            requires
                pow10(0) == 1,
        ;
        lemma_represent_zeros(exact, j, MAX_PLACES as nat, 0);
        let n = represent(exact * pow10(j), MAX_PLACES as nat, 0)->0;
        lemma_aligned_value(n, MAX_PLACES as nat);
        assert(n.value() == exact * pow10(j)) by (nonlinear_arith)
            requires
                n.aligned(MAX_PLACES as nat) * pow10(0) == n.value(),
                n.aligned(MAX_PLACES as nat) == exact * pow10(j),
                pow10(0) == 1,
        ;
    } else {
        lemma_represent_drops_zeros(exact, scale, j, 0);
    }
}

impl Number {
    /// The value of the decimal sum, if there is one.
    pub open spec fn sum_value(self, other: Number) -> Option<int> {
        match self.plus(other) {
            Some(sum) => Some(sum.value()),
            None => None,
        }
    }
}

/// The value of a decimal sum depends on the values alone, not on how many decimal
/// places the operands are written with.
pub proof fn law_sum_depends_on_values_alone(a: Number, b: Number)
    requires
        a.fits(),
        b.fits(),
    ensures
        a.sum_value(b) == represented_value(a.value() + b.value(), MAX_PLACES as nat),
{
    let scale = if a.scale < b.scale {
        b.scale
    } else {
        a.scale
    };
    let k = (MAX_PLACES - scale) as nat;
    let exact = a.aligned(scale) + b.aligned(scale);
    lemma_aligned_value(a, scale);
    lemma_aligned_value(b, scale);
    assert(exact * pow10(k) == a.value() + b.value()) by (nonlinear_arith)
        requires
            exact == a.aligned(scale) + b.aligned(scale),
            a.aligned(scale) * pow10(k) == a.value(),
            b.aligned(scale) * pow10(k) == b.value(),
    ;
    lemma_represent_by_value(exact, scale);
    lemma_value_sign(a);
    lemma_value_sign(b);
    if a.mantissa == 0 {
        lemma_represent_by_value(b.mantissa, b.scale);
        lemma_represent_itself(b);
    } else if b.mantissa == 0 {
        lemma_represent_by_value(a.mantissa, a.scale);
        lemma_represent_itself(a);
    }
}

/// A number that fits stands for itself.
proof fn lemma_represent_itself(n: Number)
    requires
        n.fits(),
    ensures
        represent(n.mantissa, n.scale, 0) == Some(n),
{
    assert(pow10(0) == 1);
    assert(nearest(n.mantissa, 0) == n.mantissa);
}

/// Whole numbers beyond the largest decimal are out of range, however few places
/// are dropped.
proof fn lemma_beyond_the_largest(value: int, scale: nat, dropped: nat)
    requires
        dropped <= scale,
        nearest(value, scale) > MAX_MANTISSA,
    ensures
        represent(value, scale, dropped) is None,
    decreases scale - dropped,
{
    if dropped < scale {
        let p = pow10(scale);
        let d = pow10(dropped);
        let t = pow10((scale - dropped) as nat);
        lemma_pow10_positive(scale);
        lemma_pow10_positive(dropped);
        lemma_pow10_positive((scale - dropped - 1) as nat);
        lemma_pow10_sum((scale - dropped) as nat, dropped);
        vstd::arithmetic::div_mod::lemma_fundamental_div_mod(value, p);
        vstd::arithmetic::div_mod::lemma_fundamental_div_mod(value, d);
        let q = value / p;
        let r = value % p;
        let q2 = value / d;
        let r2 = value % d;
        assert(value >= MAX_MANTISSA * p) by (nonlinear_arith)
            requires
                value == p * q + r,
                0 <= r < p,
                q >= MAX_MANTISSA,
        ;
        assert(q2 > MAX_MANTISSA) by (nonlinear_arith)
            requires
                value >= MAX_MANTISSA * p,
                p == t * d,
                t >= 10,
                d >= 1,
                value == d * q2 + r2,
                0 <= r2 < d,
                MAX_MANTISSA >= 1,
        ;
        lemma_beyond_the_largest(value, scale, dropped + 1);
    }
}

/// Where nothing fits, not even the whole number nearest to the sum does.
proof fn lemma_nothing_fits(value: int, scale: nat, dropped: nat)
    requires
        dropped <= scale,
        represent(value, scale, dropped) is None,
    ensures
        nearest(value, scale) > MAX_MANTISSA || nearest(value, scale) < -MAX_MANTISSA,
    decreases scale - dropped,
{
    if dropped < scale {
        lemma_nothing_fits(value, scale, dropped + 1);
    }
}

/// Rounding keeps the order.
proof fn lemma_nearest_keeps_order(m: int, n: int, k: nat)
    requires
        m <= n,
    ensures
        nearest(m, k) <= nearest(n, k),
{
    let p = pow10(k);
    lemma_pow10_positive(k);
    vstd::arithmetic::div_mod::lemma_fundamental_div_mod(m, p);
    vstd::arithmetic::div_mod::lemma_fundamental_div_mod(n, p);
    let (q1, r1) = (m / p, m % p);
    let (q2, r2) = (n / p, n % p);
    assert(q1 < q2 || (q1 == q2 && r1 <= r2)) by (nonlinear_arith)
        requires
            m == p * q1 + r1,
            n == p * q2 + r2,
            0 <= r1 < p,
            0 <= r2 < p,
            m <= n,
    ;
}

/// A sum that is no larger than one in range, and no smaller than the smallest
/// decimal, is in range.
pub proof fn lemma_smaller_sum_in_range(a: Number, b: Number, c: Number, d: Number)
    requires
        a.fits(),
        b.fits(),
        c.fits(),
        d.fits(),
        a.plus(b) is Some,
        -(MAX_MANTISSA * pow10(MAX_PLACES as nat)) <= c.value() + d.value() <= a.value()
            + b.value(),
    ensures
        c.plus(d) is Some,
{
    let places = MAX_PLACES as nat;
    let larger = a.value() + b.value();
    let smaller = c.value() + d.value();
    law_sum_depends_on_values_alone(a, b);
    law_sum_depends_on_values_alone(c, d);
    if c.plus(d) is None {
        lemma_nothing_fits(smaller, places, 0);
        law_overflow_is_beyond_the_largest(c, d);
        lemma_nearest_keeps_sign(smaller, places);
        lemma_pow10_positive(places);
        lemma_nearest_keeps_order(smaller, larger, places);
        assert(MAX_MANTISSA * pow10(places) >= 0) by (nonlinear_arith)
            requires
                pow10(places) >= 1,
                MAX_MANTISSA >= 0,
        ;
        lemma_beyond_the_largest(larger, places, 0);
    }
}

/// A number's value is within that of the largest decimal.
pub proof fn lemma_value_in_range(n: Number)
    requires
        n.fits(),
    ensures
        -(MAX_MANTISSA * pow10(MAX_PLACES as nat)) <= n.value() <= MAX_MANTISSA * pow10(
            MAX_PLACES as nat,
        ),
{
    let p = pow10((MAX_PLACES - n.scale) as nat);
    let q = pow10(n.scale);
    lemma_pow10_positive((MAX_PLACES - n.scale) as nat);
    lemma_pow10_positive(n.scale);
    lemma_pow10_sum((MAX_PLACES - n.scale) as nat, n.scale);
    assert(((MAX_PLACES - n.scale) as nat + n.scale) as nat == MAX_PLACES as nat);
    assert(-(MAX_MANTISSA * (p * q)) <= n.mantissa * p <= MAX_MANTISSA * (p * q))
        by (nonlinear_arith)
        requires
            -MAX_MANTISSA <= n.mantissa <= MAX_MANTISSA,
            p >= 1,
            q >= 1,
            MAX_MANTISSA >= 0,
    ;
}

/// What a decimal can carry: 96 bits of mantissa and 28 places.
pub proof fn law_range_of_decimals(n: Number)
    ensures
        n.fits() <==> -79228162514264337593543950335 <= n.mantissa <= 79228162514264337593543950335
            && n.scale <= 28,
        Number::zero().mantissa == 0,
        Number::zero().scale == 0,
{
}

/// Powers of ten.
pub proof fn law_powers_of_ten(k: nat)
    ensures
        pow10(0) == 1,
        pow10(k + 1) == 10 * pow10(k),
{
}

/// A number's value is its mantissa over ten to the power of its scale.
pub proof fn law_value_is_mantissa_over_scale(n: Number)
    requires
        n.scale <= 28,
    ensures
        n.value() * pow10(n.scale) == n.mantissa * pow10(28),
{
    let k = (MAX_PLACES - n.scale) as nat;
    lemma_pow10_sum(k, n.scale);
    assert(k + n.scale == 28);
    assert((n.mantissa * pow10(k)) * pow10(n.scale) == n.mantissa * (pow10(k) * pow10(n.scale)))
        by (nonlinear_arith);
}

/// Rounding is to the nearest, and to the even one of two that are equally near.
pub proof fn law_rounding_is_to_the_nearest_even(n: int, k: nat)
    ensures
        ({
            let rounded = nearest(n, k) * pow10(k);
            &&& -pow10(k) <= 2 * (rounded - n) <= pow10(k)
            &&& 2 * (rounded - n) == pow10(k) || 2 * (n - rounded) == pow10(k) ==> nearest(n, k) % 2
                == 0
        }),
{
    let p = pow10(k);
    lemma_pow10_positive(k);
    vstd::arithmetic::div_mod::lemma_fundamental_div_mod(n, p);
    let q = n / p;
    let r = n % p;
    assert(q * p == p * q && (q + 1) * p == p * q + p) by (nonlinear_arith);
}

/// A number rounded to some places has no more; one that has no more stays as it is,
/// and any other becomes the nearest that has just as many, the even one of two that
/// are equally near.
pub proof fn law_rounding_to_places(n: Number, places: nat)
    ensures
        n.scale <= places ==> n.rounded(places) == n,
        n.scale > places ==> {
            let unit = pow10((n.scale - places) as nat);
            let rounded = n.rounded(places);
            &&& rounded.scale == places
            &&& -unit <= 2 * (rounded.mantissa * unit - n.mantissa) <= unit
            &&& 2 * (rounded.mantissa * unit - n.mantissa) == unit || 2 * (n.mantissa
                - rounded.mantissa * unit) == unit ==> rounded.mantissa % 2 == 0
        },
{
    if n.scale > places {
        law_rounding_is_to_the_nearest_even(n.mantissa, (n.scale - places) as nat);
    }
}

/// Adding nothing changes nothing, not even the decimal places, and subtracting is
/// adding with the sign changed.
pub proof fn law_adding_nothing_changes_nothing(a: Number, b: Number)
    ensures
        a.mantissa == 0 ==> a.plus(b) == Some(b),
        a.mantissa != 0 && b.mantissa == 0 ==> a.plus(b) == Some(a),
        a.minus(b) == a.plus(Number { mantissa: -b.mantissa, scale: b.scale }),
        a.negated() == (Number { mantissa: -a.mantissa, scale: a.scale }),
{
}

/// How `represent` gets to what it finds.
proof fn lemma_represent_steps(exact: int, scale: nat, dropped: nat)
    requires
        dropped <= scale,
    ensures
        represent(exact, scale, dropped) matches Some(n) ==> {
            &&& n.scale + dropped <= scale
            &&& n.mantissa == nearest(exact, (scale - n.scale) as nat)
            &&& n.scale + dropped < scale ==> {
                let finer = nearest(exact, (scale - n.scale - 1) as nat);
                finer < -MAX_MANTISSA || finer > MAX_MANTISSA
            }
        },
    decreases scale - dropped,
{
    let mantissa = nearest(exact, dropped);
    if !(-MAX_MANTISSA <= mantissa <= MAX_MANTISSA) && dropped < scale {
        lemma_represent_steps(exact, scale, dropped + 1);
    }
}

/// A decimal sum is the nearest to the sum that has as many places as the longer
/// operand, or as many as leave the mantissa in range: then one place more would not.
pub proof fn law_sum_is_the_nearest(a: Number, b: Number)
    requires
        a.fits(),
        b.fits(),
        a.mantissa != 0,
        b.mantissa != 0,
        a.plus(b) is Some,
    ensures
        ({
            let sum = a.plus(b)->0;
            let exact = a.value() + b.value();
            let longer = if a.scale < b.scale {
                b.scale
            } else {
                a.scale
            };
            let unit = pow10((28 - sum.scale) as nat);
            &&& sum.scale <= longer
            &&& sum.scale == longer ==> sum.value() == exact
            &&& -unit <= 2 * (sum.value() - exact) <= unit
            &&& 2 * (sum.value() - exact) == unit || 2 * (exact - sum.value()) == unit
                ==> sum.mantissa % 2 == 0
            &&& sum.scale < longer ==> {
                let finer = nearest(exact, (28 - sum.scale - 1) as nat);
                finer < -79228162514264337593543950335 || finer > 79228162514264337593543950335
            }
        }),
{
    let sum = a.plus(b)->0;
    let scale = if a.scale < b.scale {
        b.scale
    } else {
        a.scale
    };
    let k = (28 - scale) as nat;
    let exact = a.aligned(scale) + b.aligned(scale);
    lemma_aligned_value(a, scale);
    lemma_aligned_value(b, scale);
    assert(exact * pow10(k) == a.value() + b.value()) by (nonlinear_arith)
        requires
            exact == a.aligned(scale) + b.aligned(scale),
            a.aligned(scale) * pow10(k) == a.value(),
            b.aligned(scale) * pow10(k) == b.value(),
    ;
    lemma_represent_steps(exact, scale, 0);
    let dropped = (scale - sum.scale) as nat;
    lemma_nearest_scaled(exact, k, dropped);
    assert(k + dropped == (28 - sum.scale) as nat);
    law_rounding_is_to_the_nearest_even(a.value() + b.value(), (28 - sum.scale) as nat);
    if dropped > 0 {
        lemma_nearest_scaled(exact, k, (dropped - 1) as nat);
        assert(k + (dropped - 1) as nat == (28 - sum.scale - 1) as nat);
    } else {
        assert(pow10(0) == 1);
        assert(nearest(exact, 0) == exact);
    }
}

} // verus!
