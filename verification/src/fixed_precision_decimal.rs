//! Numbers with a fixed number of decimal places, stored as a whole number of the smallest unit.

use vstd::prelude::*;
use crate::tally::TallyValue;
use crate::transfer_value::Fraction;
use crate::text::{
    decimal_text, decimal_value, digit_char, digit_value, is_digit, lemma_decimal_text, lemma_digit_char,
    lemma_unsigned_text_round_trip, number_text, chars_of, string_of, parse_unsigned, parse_unsigned_spec, append_str,
};
use crate::ballot_metadata::first_occurrence;

verus! {

/// A non-negative number with `DIGITS` decimal places, held as the number times 10^DIGITS.
#[derive(Copy, Clone, Debug, PartialEq, Eq)]
pub struct FixedPrecisionDecimal<const DIGITS: usize> {
    pub scaled_value: u64,
}

/// 10 to the power `digits`: what the value is multiplied by to get the scaled value.
pub open spec fn scale_of(digits: nat) -> nat
    decreases digits,
{
    if digits == 0 {
        1
    } else {
        10 * scale_of((digits - 1) as nat)
    }
}

/// More digits, a larger scale.
pub proof fn lemma_scale_monotone(i: nat, j: nat)
    requires
        i <= j,
    ensures
        1 <= scale_of(i) <= scale_of(j),
    decreases j,
{
    if i < j {
        lemma_scale_monotone(i, (j - 1) as nat);
    } else if j > 0 {
        lemma_scale_monotone(0, (j - 1) as nat);
    }
}

/// The largest scale a u64 holds.
pub proof fn lemma_scale_fits(digits: nat)
    requires
        digits <= 19,
    ensures
        scale_of(digits) <= 10000000000000000000,
{
    reveal_with_fuel(scale_of, 20);
    assert(scale_of(19) == 10000000000000000000);
    lemma_scale_monotone(digits, 19);
}

/// `n` written with exactly `width` decimal digits, keeping only the lowest ones.
pub open spec fn fixed_digits(n: nat, width: nat) -> Seq<char>
    decreases width,
{
    if width == 0 {
        Seq::empty()
    } else {
        fixed_digits(n / 10, (width - 1) as nat).push(digit_char(n % 10))
    }
}

/// The text without trailing '0's.
pub open spec fn trim_trailing_zeros(s: Seq<char>) -> Seq<char>
    decreases s.len(),
{
    if s.len() > 0 && s.last() == '0' {
        trim_trailing_zeros(s.drop_last())
    } else {
        s
    }
}

/// How a scaled value with the given number of decimal places is written: the whole part, then,
/// if there is a fractional part, a '.' and its digits without trailing zeros.
pub open spec fn decimal_display(scaled: nat, digits: nat) -> Seq<char> {
    let sc = scale_of(digits);
    let whole = scaled / sc;
    let frac = scaled % sc;
    if frac == 0 {
        decimal_text(whole)
    } else {
        decimal_text(whole) + seq!['.'] + trim_trailing_zeros(fixed_digits(frac, digits))
    }
}

/// The scaled value a text stands for: a whole number, or a whole number, a '.' and a number of
/// decimal places (each part as `str::parse` reads a u64). Places beyond the scale are not
/// trimmed: their digits are read as a whole number of the smallest unit.
pub open spec fn parse_fixed(s: Seq<char>, digits: nat) -> Option<nat> {
    let max = u64::MAX as nat;
    if exists|i: int| first_occurrence(s, '.', i) {
        let i = choose|i: int| first_occurrence(s, '.', i);
        let frac_text = s.skip(i + 1);
        match (parse_unsigned_spec(s.take(i), max), parse_unsigned_spec(frac_text, max)) {
            (Some(whole), Some(frac)) => Some(
                frac * (if frac_text.len() < digits {
                    scale_of((digits - frac_text.len()) as nat)
                } else {
                    1
                }) + scale_of(digits) * whole,
            ),
            _ => None,
        }
    } else {
        match parse_unsigned_spec(s, max) {
            Some(whole) => Some(scale_of(digits) * whole),
            None => None,
        }
    }
}

impl<const DIGITS: usize> FixedPrecisionDecimal<DIGITS> {
    /// The scale that scaled values have been multiplied by: 10^DIGITS.
    pub fn scale() -> (res: u64)
        requires
            DIGITS <= 19,
        ensures
            res == scale_of(DIGITS as nat),
    {
        let mut res: u64 = 1;
        let mut i: usize = 0;
        while i < DIGITS
            invariant
                i <= DIGITS <= 19,
                res == scale_of(i as nat),
            decreases DIGITS - i,
        {
            proof {
                lemma_scale_fits((i + 1) as nat);
            }
            res = res * 10;
            i = i + 1;
        }
        res
    }

    /// The largest whole number that can be represented.
    pub fn max() -> (res: u64)
        requires
            DIGITS <= 19,
        ensures
            res == u64::MAX as nat / scale_of(DIGITS as nat),
    {
        proof {
            lemma_scale_monotone(0, DIGITS as nat);
        }
        u64::MAX / Self::scale()
    }

    /// Return SCALE times the value this number represents.
    pub fn get_scaled_value(&self) -> (res: u64)
        ensures
            res == self.scaled_value,
    {
        self.scaled_value
    }

    /// Return the value representing scaled_value/SCALE.
    pub fn from_scaled_value(scaled_value: u64) -> (res: Self)
        ensures
            res.scaled_value == scaled_value,
    {
        FixedPrecisionDecimal { scaled_value }
    }

    /// The value with its fractional part dropped.
    pub fn round_down(&self) -> (res: Self)
        requires
            DIGITS <= 19,
        ensures
            res.scaled_value == scale_of(DIGITS as nat) * (self.scaled_value as nat / scale_of(DIGITS as nat)),
    {
        let scale = Self::scale();
        proof {
            lemma_scale_monotone(0, DIGITS as nat);
            let q = self.scaled_value / scale;
            assert(scale * q <= self.scaled_value) by (nonlinear_arith)
                requires
                    scale >= 1,
                    q == self.scaled_value / scale,
            ;
        }
        FixedPrecisionDecimal { scaled_value: scale * (self.scaled_value / scale) }
    }

    /// The value as a fraction.
    pub fn to_rational(&self) -> (res: Fraction)
        requires
            DIGITS <= 19,
        ensures
            res.numerator == self.scaled_value,
            res.denominator == scale_of(DIGITS as nat),
    {
        Fraction { numerator: self.scaled_value as u128, denominator: Self::scale() }
    }

    /// The value of a fraction, rounded down to the nearest representable value.
    pub fn from_rational_rounding_down(rational: Fraction) -> (res: Self)
        requires
            DIGITS <= 19,
            rational.denominator > 0,
            (rational.numerator * scale_of(DIGITS as nat)) as int / (rational.denominator as int) <= u64::MAX,
            rational.numerator * scale_of(DIGITS as nat) <= u128::MAX,
        ensures
            res.scaled_value == (rational.numerator * scale_of(DIGITS as nat)) as int / (rational.denominator as int),
    {
        let scale = Self::scale();
        let scaled: u128 = rational.numerator * (scale as u128);
        FixedPrecisionDecimal { scaled_value: (scaled / (rational.denominator as u128)) as u64 }
    }

    /// A whole number. It must be no larger than `max()`.
    pub fn from_usize(v: usize) -> (res: Self)
        requires
            DIGITS <= 19,
            v <= u64::MAX as nat / scale_of(DIGITS as nat),
        ensures
            res.scaled_value == v * scale_of(DIGITS as nat),
    {
        let scale = Self::scale();
        proof {
            lemma_scale_monotone(0, DIGITS as nat);
            assert(v * scale <= u64::MAX) by (nonlinear_arith)
                requires
                    scale >= 1,
                    v <= u64::MAX as nat / (scale as nat),
            ;
        }
        FixedPrecisionDecimal { scaled_value: (v as u64) * scale }
    }

    /// True iff this is zero.
    pub fn is_zero(&self) -> (res: bool)
        ensures
            res == (self.scaled_value == 0),
    {
        self.scaled_value == 0
    }

    /// The sum.
    pub fn add(self, rhs: Self) -> (res: Self)
        requires
            self.scaled_value + rhs.scaled_value <= u64::MAX,
        ensures
            res.scaled_value == self.scaled_value + rhs.scaled_value,
    {
        FixedPrecisionDecimal { scaled_value: self.scaled_value + rhs.scaled_value }
    }

    /// The difference.
    pub fn sub(self, rhs: Self) -> (res: Self)
        requires
            rhs.scaled_value <= self.scaled_value,
        ensures
            res.scaled_value == self.scaled_value - rhs.scaled_value,
    {
        FixedPrecisionDecimal { scaled_value: self.scaled_value - rhs.scaled_value }
    }

    /// Add to this.
    pub fn add_assign(&mut self, rhs: Self)
        requires
            old(self).scaled_value + rhs.scaled_value <= u64::MAX,
        ensures
            final(self).scaled_value == old(self).scaled_value + rhs.scaled_value,
    {
        self.scaled_value = self.scaled_value + rhs.scaled_value;
    }

    /// Take from this.
    pub fn sub_assign(&mut self, rhs: Self)
        requires
            rhs.scaled_value <= old(self).scaled_value,
        ensures
            final(self).scaled_value == old(self).scaled_value - rhs.scaled_value,
    {
        self.scaled_value = self.scaled_value - rhs.scaled_value;
    }

    /// The sum of a list.
    pub fn sum(values: &[Self]) -> (res: Self)
        requires
            sum_scaled(scaled_values(values@)) <= u64::MAX,
        ensures
            res.scaled_value == sum_scaled(scaled_values(values@)),
    {
        let ghost vs = scaled_values(values@);
        let mut res: u64 = 0;
        for i in 0..values.len()
            invariant
                vs == scaled_values(values@),
                sum_scaled(vs) <= u64::MAX,
                res == sum_scaled(vs.take(i as int)),
        {
            proof {
                assert(vs.take(i + 1).drop_last() =~= vs.take(i as int));
                lemma_sum_scaled_prefix(vs, i + 1);
            }
            res = res + values[i].scaled_value;
        }
        assert(vs.take(vs.len() as int) =~= vs);
        FixedPrecisionDecimal { scaled_value: res }
    }

    /// The value rounded up to a whole number.
    pub fn ceil(&self) -> (res: usize)
        requires
            DIGITS <= 19,
            self.scaled_value + scale_of(DIGITS as nat) - 1 <= u64::MAX,
            (self.scaled_value + scale_of(DIGITS as nat) - 1) / (scale_of(DIGITS as nat) as int) <= usize::MAX,
        ensures
            res == (self.scaled_value + scale_of(DIGITS as nat) - 1) / (scale_of(DIGITS as nat) as int),
    {
        let scale = Self::scale();
        proof {
            lemma_scale_monotone(0, DIGITS as nat);
        }
        ((self.scaled_value + (scale - 1)) / scale) as usize
    }

    /// The value written in decimal, e.g. "45.25" or "42".
    pub fn to_text(&self) -> (res: String)
        requires
            DIGITS <= 19,
        ensures
            res@ == decimal_display(self.scaled_value as nat, DIGITS as nat),
    {
        let scale = Self::scale();
        proof {
            lemma_scale_monotone(0, DIGITS as nat);
        }
        let whole = self.scaled_value / scale;
        let frac = self.scaled_value % scale;
        let mut res = number_text(whole);
        if frac != 0 {
            crate::text::push_char(&mut res, '.');
            let digits = fixed_digits_exec(frac, DIGITS);
            let trimmed = trim_trailing_zeros_exec(&digits);
            let t = string_of(&trimmed);
            append_str(&mut res, t.as_str());
        }
        res
    }

    /// Read a number written in decimal, as `to_text` writes it. `None` if either part is not a
    /// number `str::parse` reads as a u64.
    pub fn from_text(buf: &str) -> (res: Option<Self>)
        requires
            DIGITS <= 19,
            parse_fixed(buf@, DIGITS as nat) matches Some(v) ==> v <= u64::MAX,
        ensures
            match parse_fixed(buf@, DIGITS as nat) {
                Some(v) => res matches Some(r) && r.scaled_value == v,
                None => res is None,
            },
    {
        let scale = Self::scale();
        proof {
            lemma_scale_monotone(0, DIGITS as nat);
        }
        let chars = chars_of(buf);
        let mut i: usize = 0;
        while i < chars.len() && chars[i] != '.'
            invariant
                i <= chars@.len(),
                chars@ == buf@,
                forall|j: int| 0 <= j < i ==> chars@[j] != '.',
            decreases chars@.len() - i,
        {
            i = i + 1;
        }
        if i == chars.len() {
            assert(!exists|k: int| first_occurrence(buf@, '.', k));
            match parse_unsigned(buf, u64::MAX) {
                None => None,
                Some(whole) => {
                    proof {
                        assert(scale * whole <= u64::MAX);
                    }
                    Some(FixedPrecisionDecimal { scaled_value: scale * whole })
                },
            }
        } else {
            assert(first_occurrence(buf@, '.', i as int));
            assert forall|k: int| first_occurrence(buf@, '.', k) implies k == i by {
                if k < i {
                    assert(chars@[k] != '.');
                } else if k > i {
                    assert(buf@[i as int] == '.');
                }
            }
            let whole_text = string_of(&take_chars(&chars, 0, i));
            let frac_chars = take_chars(&chars, i + 1, chars.len());
            let frac_text = string_of(&frac_chars);
            assert(whole_text@ =~= buf@.take(i as int));
            assert(frac_text@ =~= buf@.skip(i + 1));
            let whole = match parse_unsigned(whole_text.as_str(), u64::MAX) {
                None => return None,
                Some(w) => w,
            };
            let frac = match parse_unsigned(frac_text.as_str(), u64::MAX) {
                None => return None,
                Some(f) => f,
            };
            let ghost total = parse_fixed(buf@, DIGITS as nat)->0;
            let ghost mult: nat = if frac_chars@.len() < DIGITS {
                scale_of((DIGITS - frac_chars@.len()) as nat)
            } else {
                1
            };
            assert(total == frac * mult + scale * whole);
            let mut frac_scaled: u64 = frac;
            let mut k: usize = frac_chars.len();
            assert(k - frac_chars@.len() == 0);
            assert(scale_of(0) == 1);
            assert(frac * scale_of(0) == frac) by (nonlinear_arith)
                requires
                    scale_of(0) == 1,
            ;
            while k < DIGITS
                invariant
                    frac_chars@.len() <= k <= DIGITS || (k == frac_chars@.len() && k >= DIGITS),
                    frac_scaled == frac * scale_of((k - frac_chars@.len()) as nat),
                    total == frac * mult + scale * whole,
                    total <= u64::MAX,
                    frac_chars@.len() < DIGITS ==> mult == scale_of((DIGITS - frac_chars@.len()) as nat),
                decreases DIGITS - k,
            {
                proof {
                    lemma_scale_monotone(((k + 1) - frac_chars@.len()) as nat, (DIGITS - frac_chars@.len()) as nat);
                    lemma_scale_monotone(0, ((k + 1) - frac_chars@.len()) as nat);
                    let a = frac as nat;
                    let s1 = scale_of(((k + 1) - frac_chars@.len()) as nat);
                    assert(a * s1 <= a * mult) by (nonlinear_arith)
                        requires
                            s1 <= mult,
                    ;
                    assert(frac_scaled * 10 == a * s1) by (nonlinear_arith)
                        requires
                            frac_scaled == a * scale_of((k - frac_chars@.len()) as nat),
                            s1 == 10 * scale_of((k - frac_chars@.len()) as nat),
                    ;
                }
                frac_scaled = frac_scaled * 10;
                k = k + 1;
            }
            proof {
                if frac_chars@.len() >= DIGITS {
                    assert(mult == 1);
                }
            }
            Some(FixedPrecisionDecimal { scaled_value: frac_scaled + scale * whole })
        }
    }
}

/// The sum of the scaled values.
pub open spec fn sum_scaled(s: Seq<u64>) -> nat
    decreases s.len(),
{
    if s.len() == 0 {
        0
    } else {
        sum_scaled(s.drop_last()) + s.last() as nat
    }
}

/// The scaled values of a list.
pub open spec fn scaled_values<const DIGITS: usize>(s: Seq<FixedPrecisionDecimal<DIGITS>>) -> Seq<u64> {
    s.map_values(|d: FixedPrecisionDecimal<DIGITS>| d.scaled_value)
}

proof fn lemma_sum_scaled_prefix(s: Seq<u64>, i: int)
    requires
        0 <= i <= s.len(),
    ensures
        sum_scaled(s.take(i)) <= sum_scaled(s),
    decreases s.len() - i,
{
    if i < s.len() {
        lemma_sum_scaled_prefix(s, i + 1);
        assert(s.take(i + 1).drop_last() =~= s.take(i));
    } else {
        assert(s.take(i) =~= s);
    }
}

/// The characters from `start` to `end`.
fn take_chars(v: &Vec<char>, start: usize, end: usize) -> (res: Vec<char>)
    requires
        start <= end <= v@.len(),
    ensures
        res@ == v@.subrange(start as int, end as int),
{
    let mut res: Vec<char> = Vec::new();
    for i in start..end
        invariant
            start <= end <= v@.len(),
            res@ == v@.subrange(start as int, i as int),
    {
        res.push(v[i]);
        assert(v@.subrange(start as int, i + 1) =~= v@.subrange(start as int, i as int).push(v@[i as int]));
    }
    res
}

/// `n` written with exactly `width` decimal digits.
fn fixed_digits_exec(n: u64, width: usize) -> (res: Vec<char>)
    ensures
        res@ == fixed_digits(n as nat, width as nat),
{
    let mut rev: Vec<char> = Vec::new();
    let mut m = n;
    for k in 0..width
        invariant
            rev@.len() == k,
            fixed_digits(n as nat, width as nat) == fixed_digits(m as nat, (width - k) as nat) + rev@.reverse(),
    {
        let c = (((m % 10) as u32) + ('0' as u32)) as u8 as char;
        assert(c == digit_char(m as nat % 10));
        assert(rev@.push(c).reverse() =~= seq![c] + rev@.reverse());
        rev.push(c);
        m = m / 10;
    }
    assert(fixed_digits(m as nat, 0) =~= Seq::<char>::empty());
    let mut res: Vec<char> = Vec::new();
    let mut j = rev.len();
    while j > 0
        invariant
            j <= rev@.len(),
            res@ == rev@.subrange(j as int, rev@.len() as int).reverse(),
        decreases j,
    {
        j = j - 1;
        assert(rev@.subrange(j as int, rev@.len() as int).reverse() =~= rev@.subrange(j + 1, rev@.len() as int).reverse().push(
            rev@[j as int],
        ));
        res.push(rev[j]);
    }
    assert(rev@.subrange(0, rev@.len() as int) =~= rev@);
    res
}

/// The characters without trailing '0's.
fn trim_trailing_zeros_exec(v: &Vec<char>) -> (res: Vec<char>)
    ensures
        res@ == trim_trailing_zeros(v@),
{
    let mut end = v.len();
    assert(v@.take(v@.len() as int) =~= v@);
    while end > 0 && v[end - 1] == '0'
        invariant
            end <= v@.len(),
            trim_trailing_zeros(v@) == trim_trailing_zeros(v@.take(end as int)),
        decreases end,
    {
        assert(v@.take(end as int).drop_last() =~= v@.take(end - 1));
        end = end - 1;
    }
    assert(v@.take(v@.len() as int) =~= v@);
    take_chars(v, 0, end)
}

impl<const DIGITS: usize> TallyValue for FixedPrecisionDecimal<DIGITS> {
    open spec fn value(&self) -> nat {
        self.scaled_value as nat
    }

    open spec fn max_value() -> nat {
        u64::MAX as nat
    }

    proof fn lemma_bounded(t: Self) {
    }

    proof fn lemma_value_injective(a: Self, b: Self) {
    }

    fn zero() -> (res: Self) {
        FixedPrecisionDecimal { scaled_value: 0 }
    }

    open spec fn unit() -> nat {
        scale_of(DIGITS as nat)
    }

    proof fn lemma_unit_positive() {
        lemma_scale_monotone(0, DIGITS as nat);
    }

    fn from_whole(n: usize) -> (res: Self) {
        if n == 0 {
            proof {
                assert(0 * scale_of(DIGITS as nat) == 0);
            }
            return FixedPrecisionDecimal { scaled_value: 0 };
        }
        proof {
            lemma_scale_monotone(0, DIGITS as nat);
            if DIGITS > 19 {
                reveal_with_fuel(scale_of, 21);
                assert(scale_of(20) == 100000000000000000000);
                lemma_scale_monotone(20, DIGITS as nat);
                assert(n * scale_of(DIGITS as nat) >= scale_of(DIGITS as nat)) by (nonlinear_arith)
                    requires
                        n >= 1,
                ;
            }
            let s = scale_of(DIGITS as nat);
            assert(n <= u64::MAX as nat / s) by (nonlinear_arith)
                requires
                    s >= 1,
                    n * s <= u64::MAX,
            ;
        }
        Self::from_usize(n)
    }

    fn max_tally() -> (res: Self) {
        FixedPrecisionDecimal { scaled_value: u64::MAX }
    }

    fn is_less(&self, other: &Self) -> (res: bool) {
        self.scaled_value < other.scaled_value
    }

    fn is_same(&self, other: &Self) -> (res: bool) {
        self.scaled_value == other.scaled_value
    }

    fn plus(&self, other: &Self) -> (res: Self) {
        FixedPrecisionDecimal { scaled_value: self.scaled_value + other.scaled_value }
    }

    fn minus(&self, other: &Self) -> (res: Self) {
        FixedPrecisionDecimal { scaled_value: self.scaled_value - other.scaled_value }
    }
}

} // verus!

verus! {

/// The digits of `n` in a fixed width stand for `n` modulo the scale of that width.
proof fn lemma_fixed_digits(n: nat, width: nat)
    ensures
        fixed_digits(n, width).len() == width,
        forall|i: int| 0 <= i < width ==> is_digit(#[trigger] fixed_digits(n, width)[i]),
        decimal_value(fixed_digits(n, width)) == n % scale_of(width),
    decreases width,
{
    let s = fixed_digits(n, width);
    if width > 0 {
        let w1 = (width - 1) as nat;
        lemma_fixed_digits(n / 10, w1);
        lemma_digit_char(n % 10);
        assert(s.drop_last() =~= fixed_digits(n / 10, w1));
        assert(forall|i: int| 0 <= i < w1 ==> s[i] == s.drop_last()[i]);
        assert(decimal_value(s) == decimal_value(s.drop_last()) * 10 + digit_value(s.last()));
        lemma_scale_monotone(0, w1);
        vstd::arithmetic::div_mod::lemma_breakdown(n as int, 10, scale_of(w1) as int);
    } else {
        assert(decimal_value(s) == 0);
    }
}

/// Taking the trailing zeros off a string of digits divides its value by a power of ten.
proof fn lemma_trim_trailing_zeros(s: Seq<char>) -> (z: nat)
    requires
        forall|i: int| 0 <= i < s.len() ==> is_digit(#[trigger] s[i]),
    ensures
        z <= s.len(),
        trim_trailing_zeros(s) == s.take(s.len() - z),
        decimal_value(s) == decimal_value(trim_trailing_zeros(s)) * scale_of(z),
    decreases s.len(),
{
    if s.len() > 0 && s.last() == '0' {
        let d = s.drop_last();
        let z0 = lemma_trim_trailing_zeros(d);
        let t = trim_trailing_zeros(d);
        assert(d.take(d.len() - z0) =~= s.take(s.len() - (z0 + 1)));
        assert(decimal_value(s) == decimal_value(d) * 10);
        assert(decimal_value(t) * scale_of(z0) * 10 == decimal_value(t) * scale_of(z0 + 1)) by (nonlinear_arith)
            requires
                scale_of(z0 + 1) == 10 * scale_of(z0),
        ;
        assert(trim_trailing_zeros(s) == t);
        assert(decimal_value(d) == decimal_value(t) * scale_of(z0));
        z0 + 1
    } else {
        assert(s.take(s.len() as int) =~= s);
        assert(scale_of(0) == 1);
        assert(trim_trailing_zeros(s) == s);
        0
    }
}

/// Reading back how a scaled value is written gives the value: `from_text` of what `to_text`
/// wrote is the number that was written.
pub proof fn lemma_decimal_display_round_trip(scaled: nat, digits: nat)
    requires
        digits <= 19,
        scaled <= u64::MAX,
    ensures
        parse_fixed(decimal_display(scaled, digits), digits) == Some(scaled),
{
    let sc = scale_of(digits);
    lemma_scale_monotone(0, digits);
    let whole = scaled / sc;
    let frac = scaled % sc;
    vstd::arithmetic::div_mod::lemma_fundamental_div_mod(scaled as int, sc as int);
    assert(whole <= scaled) by (nonlinear_arith)
        requires
            sc >= 1,
            sc * whole + frac == scaled,
            frac >= 0,
            whole >= 0,
    ;
    let w = decimal_text(whole);
    lemma_decimal_text(whole);
    lemma_unsigned_text_round_trip(whole, u64::MAX as nat);
    if frac == 0 {
        assert forall|i: int| !first_occurrence(w, '.', i) by {
            if 0 <= i < w.len() {
                assert(is_digit(w[i]));
            }
        }
    } else {
        let f = fixed_digits(frac, digits);
        lemma_fixed_digits(frac, digits);
        vstd::arithmetic::div_mod::lemma_small_mod(frac, sc);
        let z = lemma_trim_trailing_zeros(f);
        let t = trim_trailing_zeros(f);
        if t.len() == 0 {
            assert(decimal_value(t) == 0);
            assert(decimal_value(t) * scale_of(z) == 0) by (nonlinear_arith)
                requires
                    decimal_value(t) == 0,
            ;
        }
        assert(t.len() > 0);
        assert forall|i: int| 0 <= i < t.len() implies is_digit(#[trigger] t[i]) by {
            assert(t[i] == f[i]);
        }
        lemma_scale_monotone(0, z);
        assert(decimal_value(t) <= frac) by (nonlinear_arith)
            requires
                decimal_value(f) == decimal_value(t) * scale_of(z),
                scale_of(z) >= 1,
                decimal_value(f) == frac,
        ;
        assert(is_digit(t[0]));
        assert(crate::text::unsigned_digits(t) == t);
        assert(parse_unsigned_spec(t, u64::MAX as nat) == Some(decimal_value(t)));
        let s = w + seq!['.'] + t;
        assert(decimal_display(scaled, digits) == s);
        let i = w.len() as int;
        assert forall|j: int| 0 <= j < i implies s[j] != '.' by {
            assert(s[j] == w[j]);
            assert(is_digit(w[j]));
        }
        assert(first_occurrence(s, '.', i));
        assert forall|k: int| first_occurrence(s, '.', k) implies k == i by {
            if k < i {
                assert(s[k] == w[k]);
                assert(is_digit(w[k]));
            }
        }
        assert(s.take(i) =~= w);
        assert(s.skip(i + 1) =~= t);
        if z == 0 {
            assert(decimal_value(t) == frac);
        } else {
            assert(t.len() < digits);
            assert((digits - t.len()) as nat == z);
        }
    }
}

} // verus!
