//! Transfer values: the fraction of a vote that each ballot paper is worth after a surplus is passed on.

use vstd::prelude::*;
use crate::ballot_pile::BallotPaperCount;
use crate::text::{decimal_text, parse_unsigned_spec, split_once_spec};

verus! {

/// A non-negative rational number of votes, such as a number of ballot papers multiplied by a
/// transfer value.
#[derive(Copy, Clone, Debug)]
pub struct Fraction {
    pub numerator: u128,
    pub denominator: u64,
}

impl Fraction {
    /// The denominator is not zero.
    pub open spec fn wf(self) -> bool {
        self.denominator > 0
    }

    /// The largest whole number not above this fraction.
    pub open spec fn floor(self) -> nat {
        self.numerator as nat / self.denominator as nat
    }
}

/// A transfer value `numerator/denominator`, kept in lowest terms.
#[derive(Copy, Clone, Debug)]
pub struct TransferValue {
    pub numerator: u64,
    pub denominator: u64,
}

/// Reduces `numerator/denominator` to lowest terms.
///
/// Calls `num::rational::Ratio::<u64>::new`. Its contract claims what that function's source
/// (it divides both parts by their greatest common divisor) shows: the fraction keeps its value,
/// its denominator stays positive, neither part grows, and no common factor above 1 remains.
#[verifier::external_body]
fn lowest_terms(numerator: u64, denominator: u64) -> (res: (u64, u64))
    requires
        denominator > 0,
    ensures
        res.1 > 0,
        res.0 as int * denominator as int == numerator as int * res.1 as int,
        res.0 <= numerator,
        res.1 <= denominator,
        forall|k: int| k > 1 ==> !(#[trigger] (res.0 as int % k) == 0 && res.1 as int % k == 0),
{
    num::rational::Ratio::<u64>::new(numerator, denominator).into_raw()
}

/// The product of two 64 bit numbers fits in 128 bits.
pub proof fn lemma_product_fits(a: int, b: int)
    requires
        0 <= a <= u64::MAX,
        0 <= b <= u64::MAX,
    ensures
        0 <= a * b <= u128::MAX,
{
    assert(0 <= a * b <= u64::MAX * u64::MAX) by (nonlinear_arith)
        requires
            0 <= a <= u64::MAX,
            0 <= b <= u64::MAX,
    ;
}

/// True iff the two transfer values stand for the same number.
pub open spec fn same_value(a: TransferValue, b: TransferValue) -> bool {
    a.numerator * b.denominator == b.numerator * a.denominator
}

/// True iff `a` stands for a smaller number than `b`.
pub open spec fn less_value(a: TransferValue, b: TransferValue) -> bool {
    a.numerator * b.denominator < b.numerator * a.denominator
}

impl TransferValue {
    /// The denominator is not zero, and the fraction is in lowest terms.
    pub open spec fn wf(self) -> bool {
        self.denominator > 0 && coprime(self.numerator as int, self.denominator as int)
    }

    /// A transfer value of one: each paper counts as one vote.
    pub fn one() -> (res: Self)
        ensures
            res.wf(),
            res.numerator == 1 && res.denominator == 1,
    {
        proof {
            lemma_one_coprime();
        }
        TransferValue { numerator: 1, denominator: 1 }
    }

    /// The transfer value `numerator/denominator`, reduced to lowest terms.
    pub fn new(numerator: u64, denominator: u64) -> (res: Self)
        requires
            denominator > 0,
        ensures
            res.wf(),
            res.numerator * denominator == numerator * res.denominator,
            forall|k: int| k > 1 ==> !(#[trigger] (res.numerator as int % k) == 0 && res.denominator as int % k == 0),
    {
        let (n, d) = lowest_terms(numerator, denominator);
        TransferValue { numerator: n, denominator: d }
    }

    /// The transfer value given by a surplus spread over a number of ballot papers.
    pub fn from_surplus(surplus: usize, denominator: BallotPaperCount) -> (res: Self)
        requires
            denominator.0 > 0,
        ensures
            res.wf(),
            res.numerator * denominator.0 == surplus * res.denominator,
    {
        Self::new(surplus as u64, denominator.0 as u64)
    }

    /// The exact number of votes that the given number of papers are worth.
    pub fn mul(&self, papers: BallotPaperCount) -> (res: Fraction)
        requires
            self.wf(),
        ensures
            res.wf(),
            res.numerator == self.numerator * papers.0,
            res.denominator == self.denominator,
    {
        proof {
            lemma_product_fits(self.numerator as int, papers.0 as int);
        }
        Fraction { numerator: self.numerator as u128 * papers.0 as u128, denominator: self.denominator }
    }

    /// The number of votes the papers are worth, disregarding any fraction.
    pub fn mul_rounding_down(&self, papers: BallotPaperCount) -> (res: usize)
        requires
            self.wf(),
            (self.numerator * papers.0) / (self.denominator as int) <= usize::MAX,
        ensures
            res == (self.numerator * papers.0) / (self.denominator as int),
    {
        let exact = self.mul(papers);
        round_rational_down_to_usize(exact)
    }

    /// The number of votes the papers are worth, disregarding any fraction, and the fraction disregarded.
    pub fn mul_rounding_down_and_remainder(&self, papers: BallotPaperCount) -> (res: (usize, Fraction))
        requires
            self.wf(),
            (self.numerator * papers.0) / (self.denominator as int) <= usize::MAX,
        ensures
            res.0 == (self.numerator * papers.0) / (self.denominator as int),
            res.1.wf(),
            res.1.denominator == self.denominator,
            res.1.numerator == (self.numerator * papers.0) % (self.denominator as int),
    {
        let exact = self.mul(papers);
        let rounded_down_to_integer = round_rational_down_to_usize(exact);
        let remainder = Fraction { numerator: exact.numerator % (exact.denominator as u128), denominator: exact.denominator };
        (rounded_down_to_integer, remainder)
    }

    /// Like mul_rounding_down, but round up if the fraction is more than a half.
    pub fn mul_rounding_nearest(&self, papers: BallotPaperCount) -> (res: usize)
        requires
            self.wf(),
            (self.numerator * papers.0) / (self.denominator as int) < usize::MAX,
        ensures
            res == (self.numerator * papers.0) / (self.denominator as int) + if 2 * ((self.numerator * papers.0)
                % (self.denominator as int)) > self.denominator {
                1int
            } else {
                0int
            },
    {
        let exact = self.mul(papers);
        let rounded_down = (exact.numerator / (exact.denominator as u128)) as usize;
        let remainder = exact.numerator % (exact.denominator as u128);
        if remainder * 2 > exact.denominator as u128 {
            rounded_down + 1
        } else {
            rounded_down
        }
    }

    /// The number of ballot papers needed, at this transfer value, to be worth `tally` votes, rounded up.
    pub fn num_ballot_papers_to_get_this_tv(&self, tally: Fraction) -> (res: BallotPaperCount)
        requires
            self.wf(),
            tally.wf(),
            tally.numerator > 0 ==> self.numerator > 0,
            tally.numerator * self.denominator + tally.denominator * self.numerator <= u128::MAX,
            (tally.numerator * self.denominator + tally.denominator * self.numerator - 1) / (tally.denominator
                * self.numerator) <= usize::MAX,
        ensures
            tally.numerator == 0 ==> res.0 == 0,
            tally.numerator > 0 ==> res.0 == (tally.numerator * self.denominator + tally.denominator * self.numerator - 1)
                / (tally.denominator * self.numerator),
    {
        if tally.numerator == 0 {
            BallotPaperCount(0)
        } else {
            assert(tally.denominator * self.numerator > 0) by (nonlinear_arith)
                requires
                    tally.denominator > 0,
                    self.numerator > 0,
            ;
            assert(tally.numerator * self.denominator <= u128::MAX) by (nonlinear_arith)
                requires
                    tally.numerator * self.denominator + tally.denominator * self.numerator <= u128::MAX,
                    tally.denominator * self.numerator > 0,
            ;
            let numer = tally.numerator * (self.denominator as u128);
            let denom = (tally.denominator as u128) * (self.numerator as u128);
            let rounded_up = (numer + denom - 1) / denom;
            BallotPaperCount(rounded_up as usize)
        }
    }

    /// True iff the transfer value is one.
    pub fn is_one(&self) -> (res: bool)
        requires
            self.wf(),
        ensures
            res == (self.numerator == self.denominator),
    {
        self.numerator == self.denominator
    }

    /// True iff the two transfer values stand for the same number.
    pub fn same_as(&self, other: &Self) -> (res: bool)
        ensures
            res == same_value(*self, *other),
    {
        proof {
            lemma_product_fits(self.numerator as int, other.denominator as int);
            lemma_product_fits(other.numerator as int, self.denominator as int);
        }
        self.numerator as u128 * other.denominator as u128 == other.numerator as u128 * self.denominator as u128
    }

    /// True iff this transfer value is smaller than `other`.
    pub fn less_than(&self, other: &Self) -> (res: bool)
        ensures
            res == less_value(*self, *other),
    {
        proof {
            lemma_product_fits(self.numerator as int, other.denominator as int);
            lemma_product_fits(other.numerator as int, self.denominator as int);
        }
        (self.numerator as u128) * (other.denominator as u128) < (other.numerator as u128) * (self.denominator as u128)
    }

    /// The text form of the transfer value: `n/d`, or just `n` for a whole number.
    pub fn to_text(&self) -> (res: String)
        requires
            self.wf(),
        ensures
            res@ == tv_text(*self),
    {
        let mut res = crate::text::number_text(self.numerator);
        if self.denominator != 1 {
            crate::text::push_char(&mut res, '/');
            let d = crate::text::number_text(self.denominator);
            crate::text::append_str(&mut res, d.as_str());
        }
        res
    }

    /// Reads a transfer value written `n/d` or `n`, as a fraction in lowest terms; `None` if the
    /// text is not such a fraction or has a zero denominator.
    pub fn from_text(s: &str) -> (res: Option<Self>)
        ensures
            match reduced_ratio(s@) {
                Some((p, q)) => res is Some && res->0.numerator == p && res->0.denominator == q,
                None => res is None,
            },
            res is Some <==> (ratio_parts(s@) matches Some((n, d)) && d != 0),
            res matches Some(t) ==> ({
                let (n, d) = ratio_parts(s@)->0;
                t.wf() && t.numerator * d == n * t.denominator
            }),
    {
        let r = parse_ratio(s);
        proof {
            if let Some((p, q)) = r {
                let (n, d) = ratio_parts(s@)->0;
                assert(lowest_terms_of(p, q, n, d));
                let c = choose|c: (u64, u64)| lowest_terms_of(c.0, c.1, n, d);
                lemma_lowest_terms_unique(p as int, q as int, c.0 as int, c.1 as int, n as int, d as int);
            }
        }
        match r {
            Some((numerator, denominator)) => Some(TransferValue { numerator, denominator }),
            None => None,
        }
    }
}

/// The text form of a transfer value: `n/d`, or just `n` when the denominator is one.
pub open spec fn tv_text(t: TransferValue) -> Seq<char> {
    if t.denominator == 1 {
        decimal_text(t.numerator as nat)
    } else {
        decimal_text(t.numerator as nat) + seq!['/'] + decimal_text(t.denominator as nat)
    }
}

/// The numerator and denominator written in a text `n/d` or `n`, each read as `u64::from_str`
/// reads it, if both can be read.
pub open spec fn ratio_parts(s: Seq<char>) -> Option<(nat, nat)> {
    let (n, d) = match split_once_spec(s, '/') {
        Some((a, b)) => (a, b),
        None => (s, seq!['1']),
    };
    match (parse_unsigned_spec(n, u64::MAX as nat), parse_unsigned_spec(d, u64::MAX as nat)) {
        (Some(x), Some(y)) => Some((x, y)),
        _ => None,
    }
}

/// No whole number above 1 divides both `a` and `b`.
pub open spec fn coprime(a: int, b: int) -> bool {
    forall|k: int| k > 1 ==> !(#[trigger] (a % k) == 0 && b % k == 0)
}

/// The fraction `p/q` is `n/d` in lowest terms.
pub open spec fn lowest_terms_of(p: u64, q: u64, n: nat, d: nat) -> bool {
    &&& q > 0
    &&& p * d == n * q
    &&& coprime(p as int, q as int)
}

/// The fraction written in a text `n/d` or `n`, in lowest terms, if both parts can be read
/// and the denominator is not zero.
pub open spec fn reduced_ratio(s: Seq<char>) -> Option<(u64, u64)> {
    match ratio_parts(s) {
        Some((n, d)) => if d != 0 {
            Some(choose|r: (u64, u64)| lowest_terms_of(r.0, r.1, n, d))
        } else {
            None
        },
        None => None,
    }
}

/// Reads a rational number written `n/d` or `n`.
///
/// Calls `num::rational::Ratio::<u64>::from_str`. Its source splits the text at the first '/',
/// reads each part with `u64::from_str` (the denominator is 1 when there is no '/'), refuses a
/// zero denominator and otherwise reduces the fraction with `Ratio::new`. The contract claims
/// exactly that: the result is there iff both parts read and the denominator is not zero, and
/// it is then the same fraction in lowest terms.
#[verifier::external_body]
fn parse_ratio(s: &str) -> (res: Option<(u64, u64)>)
    ensures
        res is Some <==> (ratio_parts(s@) matches Some((n, d)) && d != 0),
        res matches Some((p, q)) ==> ({
            let (n, d) = ratio_parts(s@)->0;
            &&& q > 0
            &&& p * d == n * q
            &&& forall|k: int| k > 1 ==> !(#[trigger] (p as int % k) == 0 && q as int % k == 0)
        }),
{
    match <num::rational::Ratio<u64> as std::str::FromStr>::from_str(s) {
        Ok(r) => Some(r.into_raw()),
        Err(_) => None,
    }
}

/// Round a rational number down to a whole number.
pub fn round_rational_down_to_usize(rational: Fraction) -> (res: usize)
    requires
        rational.wf(),
        rational.floor() <= usize::MAX,
    ensures
        res == rational.floor(),
{
    (rational.numerator / (rational.denominator as u128)) as usize
}

/// A whole number as a rational number.
pub fn convert_usize_to_rational(tally: usize) -> (res: Fraction)
    ensures
        res.wf(),
        res.numerator == tally,
        res.denominator == 1,
{
    Fraction { numerator: tally as u128, denominator: 1 }
}

} // verus!

verus! {

/// One has no divisor above one.
pub proof fn lemma_one_coprime()
    ensures
        coprime(1, 1),
{
    assert forall|k: int| k > 1 implies !(#[trigger] (1int % k) == 0 && 1int % k == 0) by {
        vstd::arithmetic::div_mod::lemma_small_mod(1, k as nat);
    }
}

/// If `k` divides two numbers, it divides their sum.
proof fn lemma_divides_sum(u: int, v: int, k: int)
    requires
        k > 0,
        u % k == 0,
        v % k == 0,
    ensures
        (u + v) % k == 0,
{
    vstd::arithmetic::div_mod::lemma_add_mod_noop(u, v, k);
    assert(0int % k == 0) by {
        vstd::arithmetic::div_mod::lemma_small_mod(0, k as nat);
    }
}

/// Two fractions in lowest terms with the same value are the same fraction.
proof fn lemma_coprime_unique(a: int, b: int, x: int, y: int)
    requires
        a >= 0,
        x >= 0,
        b > 0,
        y > 0,
        a * y == x * b,
        coprime(a, b),
        coprime(x, y),
    ensures
        a == x,
        b == y,
    decreases a + b,
{
    if a == 0 {
        assert(x * b == 0);
        assert(x == 0) by (nonlinear_arith)
            requires
                x * b == 0,
                b > 0,
                x >= 0,
        ;
        vstd::arithmetic::div_mod::lemma_mod_self_0(b);
        vstd::arithmetic::div_mod::lemma_mod_self_0(y);
        assert(0int % b == 0 && 0int % y == 0) by {
            vstd::arithmetic::div_mod::lemma_small_mod(0, b as nat);
            vstd::arithmetic::div_mod::lemma_small_mod(0, y as nat);
        }
        if b > 1 {
            assert((a % b) == 0 && b % b == 0);
        }
        if y > 1 {
            assert((x % y) == 0 && y % y == 0);
        }
    } else if a < b {
        assert(0 < x < y) by (nonlinear_arith)
            requires
                0 < a < b,
                a * y == x * b,
                y > 0,
                x >= 0,
        ;
        assert((b - a) * x == (y - x) * a) by (nonlinear_arith)
            requires
                a * y == x * b,
        ;
        assert forall|k: int| k > 1 implies !(#[trigger] ((b - a) % k) == 0 && a % k == 0) by {
            if (b - a) % k == 0 && a % k == 0 {
                lemma_divides_sum(b - a, a, k);
                assert((a % k) == 0 && b % k == 0);
            }
        }
        assert forall|k: int| k > 1 implies !(#[trigger] ((y - x) % k) == 0 && x % k == 0) by {
            if (y - x) % k == 0 && x % k == 0 {
                lemma_divides_sum(y - x, x, k);
                assert((x % k) == 0 && y % k == 0);
            }
        }
        lemma_coprime_unique(b - a, a, y - x, x);
    } else {
        assert(x >= y) by (nonlinear_arith)
            requires
                a >= b > 0,
                a * y == x * b,
                y > 0,
        ;
        assert((a - b) * y == (x - y) * b) by (nonlinear_arith)
            requires
                a * y == x * b,
        ;
        assert forall|k: int| k > 1 implies !(#[trigger] ((a - b) % k) == 0 && b % k == 0) by {
            if (a - b) % k == 0 && b % k == 0 {
                lemma_divides_sum(a - b, b, k);
                assert((a % k) == 0 && b % k == 0);
            }
        }
        assert forall|k: int| k > 1 implies !(#[trigger] ((x - y) % k) == 0 && y % k == 0) by {
            if (x - y) % k == 0 && y % k == 0 {
                lemma_divides_sum(x - y, y, k);
                assert((x % k) == 0 && y % k == 0);
            }
        }
        lemma_coprime_unique(a - b, b, x - y, y);
    }
}

/// Two fractions in lowest terms of the same `n/d` are the same.
proof fn lemma_lowest_terms_unique(p: int, q: int, p2: int, q2: int, n: int, d: int)
    requires
        p >= 0,
        p2 >= 0,
        q > 0,
        q2 > 0,
        d > 0,
        n >= 0,
        p * d == n * q,
        p2 * d == n * q2,
        coprime(p, q),
        coprime(p2, q2),
    ensures
        p == p2,
        q == q2,
{
    assert(p * q2 == p2 * q) by (nonlinear_arith)
        requires
            p * d == n * q,
            p2 * d == n * q2,
            d > 0,
    ;
    lemma_coprime_unique(p, q, p2, q2);
}

/// Writing a transfer value as text and reading it back gives the same transfer value exactly
/// (transfer values are kept in lowest terms).
pub proof fn lemma_tv_text_read_back(t: TransferValue)
    requires
        t.wf(),
    ensures
        reduced_ratio(tv_text(t)) == Some((t.numerator, t.denominator)),
{
    lemma_tv_text_round_trip(t);
    let n = t.numerator as nat;
    let d = t.denominator as nat;
    assert(lowest_terms_of(t.numerator, t.denominator, n, d));
    let c = choose|c: (u64, u64)| lowest_terms_of(c.0, c.1, n, d);
    lemma_lowest_terms_unique(t.numerator as int, t.denominator as int, c.0 as int, c.1 as int, n as int, d as int);
}

/// The text of a transfer value reads back as its numerator and denominator, so reading what
/// `to_text` wrote gives a transfer value of the same value.
pub proof fn lemma_tv_text_round_trip(t: TransferValue)
    requires
        t.wf(),
    ensures
        ratio_parts(tv_text(t)) == Some((t.numerator as nat, t.denominator as nat)),
{
    let n = decimal_text(t.numerator as nat);
    crate::text::lemma_decimal_text(t.numerator as nat);
    crate::text::lemma_unsigned_text_round_trip(t.numerator as nat, u64::MAX as nat);
    crate::text::lemma_unsigned_text_round_trip(t.denominator as nat, u64::MAX as nat);
    if t.denominator == 1 {
        assert forall|i: int| !crate::text::first_at(n, '/', i) by {
            if 0 <= i < n.len() {
                assert(crate::text::is_digit(n[i]));
            }
        }
        assert(decimal_text(1) =~= seq!['1']);
    } else {
        let s = tv_text(t);
        let d = decimal_text(t.denominator as nat);
        let i = n.len() as int;
        assert forall|j: int| 0 <= j < i implies s[j] != '/' by {
            assert(s[j] == n[j]);
            assert(crate::text::is_digit(n[j]));
        }
        assert(crate::text::first_at(s, '/', i));
        assert forall|k: int| crate::text::first_at(s, '/', k) implies k == i by {
            if k < i {
                assert(s[k] == n[k]);
                assert(crate::text::is_digit(n[k]));
            }
        }
        assert(s.take(i) =~= n);
        assert(s.skip(i + 1) =~= d);
    }
}

} // verus!
