use vstd::prelude::*;
use vstd::arithmetic::power::pow;
use num_bigint::BigInt;
use num_rational::BigRational;

verus! {

/// Value of a little-endian unsigned base-256 digit sequence.
pub open spec fn unsigned_le(s: Seq<u8>) -> nat
    decreases s.len(),
{
    if s.len() == 0 {
        0
    } else {
        s[0] as nat + 256 * unsigned_le(s.drop_first())
    }
}

/// Value of a little-endian two's complement byte sequence.
pub open spec fn signed_le(s: Seq<u8>) -> int {
    if s.len() > 0 && s.last() >= 128 {
        unsigned_le(s) - pow(256, s.len())
    } else {
        unsigned_le(s) as int
    }
}

pub open spec fn abs(x: int) -> nat {
    if x < 0 { (-x) as nat } else { x as nat }
}

pub open spec fn gcd(a: nat, b: nat) -> nat
    decreases b,
{
    if b == 0 { a } else { gcd(b, a % b) }
}

/// Lowest terms of `n / d` with a positive denominator (`d` nonzero).
pub open spec fn reduce(n: int, d: int) -> (int, int) {
    if n == 0 {
        (0, 1)
    } else {
        let g = gcd(abs(n), abs(d)) as int;
        if d < 0 { (-(n / g), -(d / g)) } else { (n / g, d / g) }
    }
}

pub proof fn lemma_reduce_integer(n: int)
    ensures
        reduce(n, 1) == (n, 1int),
{
    assert(abs(n) % 1 == 0);
    assert(gcd(1, 0) == 1);
    assert(gcd(abs(n), 1) == gcd(1, abs(n) % 1));
    assert(gcd(abs(n), 1) == 1);
    assert(n / 1 == n);
    assert(1int / 1 == 1);
}

/// Quotient of `n` by `d > 0`, rounded towards zero.
pub open spec fn tdiv(n: int, d: int) -> int {
    if n >= 0 { n / d } else { -((-n) / d) }
}

/// `n / d` rounded to the nearest integer, halves away from zero.
pub open spec fn round_half_away(n: int, d: int) -> int {
    let t = tdiv(n, d);
    let f = n - d * t;
    if 2 * abs(f) >= d {
        if n >= 0 { t + 1 } else { t - 1 }
    } else {
        t
    }
}

pub open spec fn digit_char(d: int) -> char {
    if d == 0 { '0' } else if d == 1 { '1' } else if d == 2 { '2' } else if d == 3 { '3' }
    else if d == 4 { '4' } else if d == 5 { '5' } else if d == 6 { '6' } else if d == 7 { '7' }
    else if d == 8 { '8' } else { '9' }
}

/// Decimal digits of `n`, most significant first.
pub open spec fn digits_of(n: nat) -> Seq<char>
    decreases n,
{
    if n < 10 {
        seq![digit_char(n as int)]
    } else {
        digits_of(n / 10).push(digit_char((n % 10) as int))
    }
}

/// Decimal text of an integer, with a leading `-` when it is negative.
pub open spec fn int_text(i: int) -> Seq<char> {
    if i < 0 { seq!['-'] + digits_of((-i) as nat) } else { digits_of(i as nat) }
}

/// A pair in lowest terms with a positive denominator.
pub open spec fn reduced(p: (int, int)) -> bool {
    p.1 > 0 && gcd(abs(p.0), p.1 as nat) == 1
}

pub open spec fn sum(a: (int, int), b: (int, int)) -> (int, int) {
    reduce(a.0 * b.1 + b.0 * a.1, a.1 * b.1)
}

pub open spec fn product(a: (int, int), b: (int, int)) -> (int, int) {
    reduce(a.0 * b.0, a.1 * b.1)
}

pub open spec fn quotient(a: (int, int), b: (int, int)) -> (int, int) {
    reduce(a.0 * b.1, a.1 * b.0)
}

/// An exact rational number, kept in lowest terms; numerator and denominator are
/// stored as little-endian two's complement bytes.
pub struct Rational {
    num: Vec<u8>,
    den: Vec<u8>,
}

impl View for Rational {
    type V = (int, int);

    closed spec fn view(&self) -> (int, int) {
        (signed_le(self.num@), signed_le(self.den@))
    }
}

impl Rational {
    #[verifier::type_invariant]
    closed spec fn inv(&self) -> bool {
        reduced(self@)
    }

    /// Relies on `BigRational::from_integer`: the integer `v` over one.
    #[verifier::external_body]
    pub fn from_int(v: i64) -> (r: Rational)
        ensures
            r@ == (v as int, 1int),
    {
        let x = BigRational::from_integer(BigInt::from(v));
        Rational { num: x.numer().to_signed_bytes_le(), den: x.denom().to_signed_bytes_le() }
    }

    pub fn copy(&self) -> (r: Rational)
        ensures
            r@ == self@,
    {
        proof {
            use_type_invariant(self);
        }
        let r = Rational { num: self.num.clone(), den: self.den.clone() };
        assert(r.num@ =~= self.num@);
        assert(r.den@ =~= self.den@);
        r
    }

    /// Relies on `Ratio`'s `Add`: the sum, reduced.
    #[verifier::external_body]
    pub fn add(&self, b: &Rational) -> (r: Rational)
        ensures
            r@ == sum(self@, b@),
    {
        let x = BigRational::new_raw(BigInt::from_signed_bytes_le(&self.num), BigInt::from_signed_bytes_le(&self.den))
            + BigRational::new_raw(BigInt::from_signed_bytes_le(&b.num), BigInt::from_signed_bytes_le(&b.den));
        Rational { num: x.numer().to_signed_bytes_le(), den: x.denom().to_signed_bytes_le() }
    }

    /// Relies on `Ratio`'s `Mul`: the product, reduced.
    #[verifier::external_body]
    pub fn mul(&self, b: &Rational) -> (r: Rational)
        ensures
            r@ == product(self@, b@),
    {
        let x = BigRational::new_raw(BigInt::from_signed_bytes_le(&self.num), BigInt::from_signed_bytes_le(&self.den))
            * BigRational::new_raw(BigInt::from_signed_bytes_le(&b.num), BigInt::from_signed_bytes_le(&b.den));
        Rational { num: x.numer().to_signed_bytes_le(), den: x.denom().to_signed_bytes_le() }
    }

    /// Relies on `Ratio`'s `Div`: the quotient, reduced; it panics on a zero divisor.
    #[verifier::external_body]
    pub fn div(&self, b: &Rational) -> (r: Rational)
        requires
            b@.0 != 0,
        ensures
            r@ == quotient(self@, b@),
    {
        let x = BigRational::new_raw(BigInt::from_signed_bytes_le(&self.num), BigInt::from_signed_bytes_le(&self.den))
            / BigRational::new_raw(BigInt::from_signed_bytes_le(&b.num), BigInt::from_signed_bytes_le(&b.den));
        Rational { num: x.numer().to_signed_bytes_le(), den: x.denom().to_signed_bytes_le() }
    }

    /// Relies on `Ratio`'s `PartialEq`, which compares values; both sides are in
    /// lowest terms, so equal values have equal pairs.
    #[verifier::external_body]
    pub fn equals(&self, b: &Rational) -> (r: bool)
        ensures
            r == (self@ == b@),
    {
        BigRational::new_raw(BigInt::from_signed_bytes_le(&self.num), BigInt::from_signed_bytes_le(&self.den))
            == BigRational::new_raw(BigInt::from_signed_bytes_le(&b.num), BigInt::from_signed_bytes_le(&b.den))
    }

    /// Relies on `Ratio`'s `Ord`: the order of the two values.
    #[verifier::external_body]
    pub fn compare(&self, b: &Rational) -> (r: std::cmp::Ordering)
        ensures
            (r == std::cmp::Ordering::Less) == (self@.0 * b@.1 < b@.0 * self@.1),
            (r == std::cmp::Ordering::Equal) == (self@.0 * b@.1 == b@.0 * self@.1),
            (r == std::cmp::Ordering::Greater) == (self@.0 * b@.1 > b@.0 * self@.1),
    {
        BigRational::new_raw(BigInt::from_signed_bytes_le(&self.num), BigInt::from_signed_bytes_le(&self.den))
            .cmp(&BigRational::new_raw(BigInt::from_signed_bytes_le(&b.num), BigInt::from_signed_bytes_le(&b.den)))
    }

    /// Relies on `Ratio::trunc`: the integer part, rounded towards zero.
    #[verifier::external_body]
    pub fn trunc(&self) -> (r: Rational)
        ensures
            r@ == (tdiv(self@.0, self@.1), 1int),
    {
        let x = BigRational::new_raw(BigInt::from_signed_bytes_le(&self.num), BigInt::from_signed_bytes_le(&self.den))
            .trunc();
        Rational { num: x.numer().to_signed_bytes_le(), den: x.denom().to_signed_bytes_le() }
    }

    /// Relies on `Ratio::fract`: the remainder over the same denominator, which stays
    /// in lowest terms.
    #[verifier::external_body]
    pub fn fract(&self) -> (r: Rational)
        ensures
            r@ == (self@.0 - self@.1 * tdiv(self@.0, self@.1), self@.1),
    {
        let x = BigRational::new_raw(BigInt::from_signed_bytes_le(&self.num), BigInt::from_signed_bytes_le(&self.den))
            .fract();
        Rational { num: x.numer().to_signed_bytes_le(), den: x.denom().to_signed_bytes_le() }
    }

    /// Relies on `Ratio::round`: the nearest integer, halves away from zero.
    #[verifier::external_body]
    pub fn round(&self) -> (r: Rational)
        ensures
            r@ == (round_half_away(self@.0, self@.1), 1int),
    {
        let x = BigRational::new_raw(BigInt::from_signed_bytes_le(&self.num), BigInt::from_signed_bytes_le(&self.den))
            .round();
        Rational { num: x.numer().to_signed_bytes_le(), den: x.denom().to_signed_bytes_le() }
    }

    /// Relies on `BigInt`'s `Display`: the decimal text of the numerator.
    #[verifier::external_body]
    pub fn numer_text(&self) -> (r: Vec<char>)
        ensures
            r@ == int_text(self@.0),
    {
        BigInt::from_signed_bytes_le(&self.num).to_string().chars().collect()
    }

    pub fn is_zero(&self) -> (r: bool)
        ensures
            r == (self@.0 == 0),
    {
        proof {
            use_type_invariant(self);
            if self@.0 == 0 {
                let d = self@.1 as nat;
                assert(gcd(0, d) == gcd(d, 0));
                assert(gcd(d, 0) == d);
            }
        }
        self.is_int(0)
    }

    pub fn is_int(&self, v: i64) -> (r: bool)
        ensures
            r == (self@ == (v as int, 1int)),
    {
        let c = Rational::from_int(v);
        self.equals(&c)
    }
}

} // verus!
