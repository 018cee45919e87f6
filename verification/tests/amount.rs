//! Amounts against schoolbook arithmetic on decimal digits.

use payments_engine::Amount;

const MAX: &str = "79228162514264337593543950335";

fn amt(s: &str) -> Amount {
    s.parse().unwrap()
}

/// Drops leading zeros.
fn strip(digits: &[u8]) -> Vec<u8> {
    let zeros = digits.iter().take_while(|d| **d == 0).count();
    digits[zeros..].to_vec()
}

fn smaller(a: &[u8], b: &[u8]) -> bool {
    let (a, b) = (strip(a), strip(b));
    if a.len() != b.len() {
        a.len() < b.len()
    } else {
        a < b
    }
}

fn add(a: &[u8], b: &[u8]) -> Vec<u8> {
    let n = a.len().max(b.len()) + 1;
    let mut r = vec![0u8; n];
    let mut carry = 0;
    for i in 0..n {
        let x = if i < a.len() { a[a.len() - 1 - i] } else { 0 };
        let y = if i < b.len() { b[b.len() - 1 - i] } else { 0 };
        let s = x + y + carry;
        r[n - 1 - i] = s % 10;
        carry = s / 10;
    }
    strip(&r)
}

/// `a - b` where `b` is not the larger.
fn sub(a: &[u8], b: &[u8]) -> Vec<u8> {
    let n = a.len();
    let b = strip(b);
    let mut r = vec![0u8; n];
    let mut borrow = 0i8;
    for i in 0..n {
        let x = a[n - 1 - i] as i8;
        let y = if i < b.len() { b[b.len() - 1 - i] as i8 } else { 0 };
        let mut d = x - y - borrow;
        borrow = 0;
        if d < 0 {
            d += 10;
            borrow = 1;
        }
        r[n - 1 - i] = d as u8;
    }
    strip(&r)
}

/// Rounds the last `k` digits away, halfway cases to the even neighbour.
fn round_off(digits: &[u8], k: usize) -> Vec<u8> {
    if k == 0 {
        return strip(digits);
    }
    let mut padded = vec![0u8; k];
    padded.extend_from_slice(digits);
    let (kept, rest) = padded.split_at(padded.len() - k);
    let mut half = vec![0u8; k];
    half[0] = 5;
    let odd = kept.last().map_or(false, |d| d % 2 == 1);
    if smaller(&half, rest) || (strip(rest) == strip(&half) && odd) {
        add(kept, &[1])
    } else {
        strip(kept)
    }
}

/// A number as sign, digits and decimal places.
#[derive(Clone)]
struct Plain {
    negative: bool,
    digits: Vec<u8>,
    scale: usize,
}

impl Plain {
    fn text(&self) -> String {
        let mut d = self.digits.clone();
        while d.len() < self.scale + 1 {
            d.insert(0, 0);
        }
        let s: String = d.iter().map(|x| (b'0' + x) as char).collect();
        let (whole, fraction) = s.split_at(s.len() - self.scale);
        let sign = if self.negative && !strip(&self.digits).is_empty() { "-" } else { "" };
        if self.scale == 0 {
            format!("{}{}", sign, whole)
        } else {
            format!("{}{}.{}", sign, whole, fraction)
        }
    }

    fn is_zero(&self) -> bool {
        strip(&self.digits).is_empty()
    }
}

fn expected_sum(a: &Plain, b: &Plain) -> Option<Plain> {
    if a.is_zero() {
        return Some(b.clone());
    }
    if b.is_zero() {
        return Some(a.clone());
    }
    let scale = a.scale.max(b.scale);
    let mut x = a.digits.clone();
    x.resize(a.digits.len() + scale - a.scale, 0);
    let mut y = b.digits.clone();
    y.resize(b.digits.len() + scale - b.scale, 0);
    let (negative, exact) = if a.negative == b.negative {
        (a.negative, add(&x, &y))
    } else if smaller(&x, &y) {
        (b.negative, sub(&y, &x))
    } else {
        (a.negative, sub(&x, &y))
    };
    let max: Vec<u8> = MAX.bytes().map(|c| c - b'0').collect();
    for k in 0..=scale {
        let digits = round_off(&exact, k);
        if !smaller(&max, &digits) {
            return Some(Plain { negative, digits, scale: scale - k });
        }
    }
    None
}

/// A small deterministic generator.
struct Random(u64);

impl Random {
    fn below(&mut self, n: u64) -> u64 {
        self.0 = self.0.wrapping_mul(6364136223846793005).wrapping_add(1442695040888963407);
        (self.0 >> 33) % n
    }

    fn number(&mut self) -> Plain {
        let max: Vec<u8> = MAX.bytes().map(|c| c - b'0').collect();
        let len = match self.below(4) {
            0 => 29,
            1 => 28,
            _ => 1 + self.below(29) as usize,
        };
        let mut digits: Vec<u8> = match self.below(6) {
            0 => max.clone(),
            1 => {
                let mut d = max.clone();
                for _ in 0..3 {
                    let i = 20 + self.below(9) as usize;
                    d[i] = self.below(10) as u8;
                }
                d
            }
            2 => {
                let mut d = vec![0u8; len];
                d[0] = 1 + self.below(7) as u8;
                d
            }
            3 => {
                let mut d = vec![0u8; len];
                d[0] = 5;
                if self.below(2) == 0 {
                    let last = d.len() - 1;
                    d[last] += self.below(3) as u8;
                }
                d
            }
            _ => (0..len).map(|_| self.below(10) as u8).collect(),
        };
        if smaller(&max, &digits) {
            digits[0] = 7;
            if smaller(&max, &digits) {
                digits[1] = 8;
            }
        }
        let digits = strip(&digits);
        let scale = match self.below(3) {
            0 => 0,
            1 => self.below(5) as usize,
            _ => self.below(29) as usize,
        };
        let negative = self.below(2) == 0 && !digits.is_empty();
        Plain { negative, digits, scale }
    }
}

#[test]
fn sums_and_differences_are_rounded_as_little_as_fits() {
    let mut random = Random(7);
    let mut rounded = 0;
    let mut overflows = 0;
    for _ in 0..60000 {
        let a = random.number();
        let b = random.number();
        let x = amt(&a.text());
        let y = amt(&b.text());
        assert_eq!(x.to_text(), a.text());
        assert_eq!(y.to_text(), b.text());

        let sum = expected_sum(&a, &b);
        assert_eq!(
            x.checked_add(y).map(|s| s.to_text()),
            sum.as_ref().map(|s| s.text()),
            "{} + {}",
            a.text(),
            b.text()
        );
        match sum {
            Some(s) => {
                if s.scale < a.scale.max(b.scale) {
                    rounded += 1;
                }
            }
            None => overflows += 1,
        }

        let negated = Plain { negative: !b.negative, ..b.clone() };
        assert_eq!(
            x.checked_sub(y).map(|s| s.to_text()),
            expected_sum(&a, &negated).map(|s| s.text()),
            "{} - {}",
            a.text(),
            b.text()
        );
    }
    assert!(rounded > 1000);
    assert!(overflows > 1000);
}

#[test]
fn rounding_to_places_goes_to_the_nearest_even() {
    let mut random = Random(11);
    for _ in 0..20000 {
        let a = random.number();
        let places = random.below(29) as usize;
        let expected = if a.scale <= places {
            a.clone()
        } else {
            Plain { digits: round_off(&a.digits, a.scale - places), scale: places, ..a }
        };
        assert_eq!(amt(&a.text()).round_dp(places as u32).to_text(), expected.text());
    }
    assert_eq!(amt("1.00005").round_dp(4).to_text(), "1.0000");
    assert_eq!(amt("1.00015").round_dp(4).to_text(), "1.0002");
    assert_eq!(amt("-1.00015").round_dp(4).to_text(), "-1.0002");
}

#[test]
fn normalizing_strips_trailing_zeros() {
    let mut random = Random(13);
    for _ in 0..20000 {
        let a = random.number();
        let mut expected = a.clone();
        while expected.scale > 0 && expected.digits.last().map_or(true, |d| *d == 0) {
            expected.digits.pop();
            expected.scale -= 1;
        }
        assert_eq!(amt(&a.text()).normalize().to_text(), expected.text());
    }
    assert_eq!(amt("0.000").normalize().to_text(), "0");
    assert_eq!(amt("100").normalize().to_text(), "100");
}

#[test]
fn comparison_is_by_value() {
    let mut random = Random(17);
    for _ in 0..20000 {
        let a = random.number();
        let b = random.number();
        let scale = a.scale.max(b.scale);
        let mut x = a.digits.clone();
        x.resize(a.digits.len() + scale - a.scale, 0);
        let mut y = b.digits.clone();
        y.resize(b.digits.len() + scale - b.scale, 0);
        let less = match (a.negative, b.negative) {
            (false, false) => smaller(&x, &y),
            (true, true) => smaller(&y, &x),
            (true, false) => true,
            (false, true) => false,
        };
        assert_eq!(amt(&a.text()).less_than(amt(&b.text())), less);
    }
    assert!(amt("0.5").less_than(amt("0.51")));
    assert!(!amt("0.50").less_than(amt("0.5")));
    assert_eq!(amt("0.50"), amt("0.5"));
    assert_ne!(amt("0.50"), amt("0.51"));
}

#[test]
fn the_largest_amount_is_the_limit() {
    assert_eq!(amt(MAX).checked_add(amt("0.4")), Some(amt(MAX)));
    assert_eq!(amt(MAX).checked_add(amt("0.4999999999999999999999999999")), Some(amt(MAX)));
    assert_eq!(amt(MAX).checked_add(amt("0.5")), None);
    assert_eq!(amt(MAX).checked_add(amt("1")), None);
    assert_eq!(amt("-79228162514264337593543950335").checked_sub(amt("0.5")), None);
    assert_eq!(amt("0").checked_add(amt("1.50")).map(|a| a.to_text()), Some("1.50".to_string()));
}

#[test]
fn plain_notation_is_read_exactly() {
    assert_eq!(amt("1.5").to_text(), "1.5");
    assert_eq!(amt("+1.50").to_text(), "1.50");
    assert_eq!(amt("-.25").to_text(), "-0.25");
    assert_eq!(amt("7.").to_text(), "7");
    assert_eq!(amt("-0").to_text(), "0");
    assert_eq!(amt("0001.5").to_text(), "1.5");
    assert_eq!(amt("9999999999999999999999999999").to_text(), "9999999999999999999999999999");
    assert_eq!(amt("0.0000000000000000000000000001").scale(), 28);
    assert_eq!(amt("1.2345").scale(), 4);
    assert_eq!(Amount::new(12345, 4), amt("1.2345"));
    assert_eq!(Amount::zero(), Amount::default());
    assert_eq!(Amount::zero(), amt("0.00"));
}

#[test]
fn texts_that_stand_for_no_amount_are_refused() {
    for text in ["", "abc", "oops", "1x", "1 ", " 1", ".", "-", "+", "1.2.3", "--1", "1-", "\u{661}"] {
        assert_eq!(Amount::parse(text), None, "{}", text);
    }
    assert!("abc".parse::<Amount>().is_err());
}

#[test]
fn other_notations_are_read_too() {
    assert_eq!(amt("1_000.5"), amt("1000.5"));
    assert_eq!(amt("1.5e3"), amt("1500"));
    assert_eq!(amt("1.5E-1"), amt("0.15"));
}

#[test]
fn every_plain_notation_is_read_exactly() {
    let mut random = Random(19);
    for _ in 0..40000 {
        let n = 1 + random.below(28) as usize;
        let zeros = random.below(n as u64 + 1) as usize;
        let digits: String = (0..n)
            .map(|i| {
                if i < zeros && random.below(2) == 0 {
                    '0'
                } else {
                    (b'0' + random.below(10) as u8) as char
                }
            })
            .collect();
        let point = random.below(n as u64 + 1) as usize;
        let (whole, fraction) = digits.split_at(point);
        let sign = ["", "+", "-"][random.below(3) as usize];
        let text = if fraction.is_empty() && random.below(2) == 0 {
            format!("{}{}", sign, whole)
        } else {
            format!("{}{}.{}", sign, whole, fraction)
        };
        let expected = Plain {
            negative: sign == "-",
            digits: strip(&digits.bytes().map(|d| d - b'0').collect::<Vec<u8>>()),
            scale: fraction.len(),
        };
        assert_eq!(amt(&text).to_text(), expected.text(), "{}", text);
        assert_eq!(amt(&text).scale() as usize, fraction.len(), "{}", text);
    }
}

#[test]
fn a_foreign_character_anywhere_makes_a_text_no_amount() {
    let mut random = Random(23);
    let foreign = ['x', ' ', ',', '/', ':', '\u{e9}', '\0', 'f'];
    for _ in 0..40000 {
        let n = random.below(70) as usize;
        let mut text: String = (0..n)
            .map(|_| match random.below(40) {
                0 => '.',
                1 => '_',
                2 => '-',
                _ => (b'0' + random.below(10) as u8) as char,
            })
            .collect();
        let place = random.below(n as u64 + 1) as usize;
        text.insert(place, foreign[random.below(8) as usize]);
        assert_eq!(Amount::parse(&text), None, "{}", text);
    }
}

#[test]
fn plain_notation_of_any_length_is_read_exactly_within_range() {
    let max: Vec<u8> = MAX.bytes().map(|c| c - b'0').collect();
    let mut random = Random(29);
    let (mut exact, mut refused) = (0, 0);
    for _ in 0..60000 {
        let a = random.number();
        let zeros = "0".repeat(random.below(40) as usize);
        let text = match a.text().strip_prefix('-') {
            Some(rest) => format!("-{}{}", zeros, rest),
            None => format!("{}{}", zeros, a.text()),
        };
        assert_eq!(amt(&text).to_text(), a.text(), "{}", text);
        exact += 1;

        let n = 29 + random.below(12) as usize;
        let whole: String = (0..n).map(|_| (b'0' + random.below(10) as u8) as char).collect();
        let digits: Vec<u8> = whole.bytes().map(|c| c - b'0').collect();
        if smaller(&max, &digits) {
            let tail = ["", ".", ".5", ".00000"][random.below(4) as usize];
            assert_eq!(Amount::parse(&format!("{}{}", whole, tail)), None, "{}", whole);
            refused += 1;
        }
    }
    assert!(exact > 1000 && refused > 1000);
    assert_eq!(amt(MAX).to_text(), MAX);
    assert_eq!(Amount::parse("79228162514264337593543950336"), None);
}

#[test]
fn negating_changes_the_sign() {
    assert_eq!(amt("1.50").negated().to_text(), "-1.50");
    assert_eq!(amt("-3").negated(), amt("3"));
    assert_eq!(amt("0").negated(), amt("0"));
}
