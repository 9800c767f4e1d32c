//! Exact fractions: the slopes that bound a row and the falloff of a cell.

use vstd::prelude::*;
use vstd::arithmetic::div_mod::lemma_fundamental_div_mod_converse;

verus! {

/// A numerator over a denominator. It is never reduced.
#[derive(Copy, Clone, Debug, PartialEq, Eq, Structural)]
pub struct Fraction {
    pub numerator: i128,
    pub denominator: i128,
}

/// What a `Fraction` stands for: a pair of unbounded integers.
pub struct Ratio {
    pub num: int,
    pub den: int,
}

impl View for Fraction {
    type V = Ratio;

    open spec fn view(&self) -> Ratio {
        Ratio { num: self.numerator as int, den: self.denominator as int }
    }
}

/// The ratio times an integer.
pub open spec fn scaled(ratio: Ratio, multiplier: int) -> Ratio {
    Ratio { num: multiplier * ratio.num, den: ratio.den }
}

/// The nearest integer, a half going up: the floor of the ratio plus 1/2.
pub open spec fn ties_up(ratio: Ratio) -> int {
    (2 * ratio.num + ratio.den) / (2 * ratio.den)
}

/// The nearest integer, a half going down: the ceiling of the ratio minus 1/2.
pub open spec fn ties_down(ratio: Ratio) -> int {
    -((ratio.den - 2 * ratio.num) / (2 * ratio.den))
}

/// The largest magnitude that the rounding functions take.
pub open spec fn roundable(ratio: Ratio) -> bool {
    &&& 0 < ratio.den <= 0x1000_0000_0000_0000_0000_0000
    &&& -0x1000_0000_0000_0000_0000_0000 <= ratio.num <= 0x1000_0000_0000_0000_0000_0000
}

/// Rounding with ties up gives the one integer `k` with
/// k - 1/2 <= ratio < k + 1/2.
pub proof fn lemma_ties_up_brackets(ratio: Ratio, k: int)
    requires
        ratio.den > 0,
    ensures
        k == ties_up(ratio) <==> (2 * k - 1) * ratio.den <= 2 * ratio.num < (2 * k + 1) * ratio.den,
{
    let a = 2 * ratio.num + ratio.den;
    let b = 2 * ratio.den;
    lemma_floor_brackets(a, b, k);
    assert(k * b == 2 * k * ratio.den) by (nonlinear_arith)
        requires
            b == 2 * ratio.den,
    ;
    assert((k + 1) * b == 2 * k * ratio.den + 2 * ratio.den) by (nonlinear_arith)
        requires
            b == 2 * ratio.den,
    ;
    assert((2 * k - 1) * ratio.den == 2 * k * ratio.den - ratio.den) by (nonlinear_arith);
    assert((2 * k + 1) * ratio.den == 2 * k * ratio.den + ratio.den) by (nonlinear_arith);
}

/// Rounding with ties down gives the one integer `k` with
/// k - 1/2 < ratio <= k + 1/2.
pub proof fn lemma_ties_down_brackets(ratio: Ratio, k: int)
    requires
        ratio.den > 0,
    ensures
        k == ties_down(ratio) <==> (2 * k - 1) * ratio.den < 2 * ratio.num <= (2 * k + 1) * ratio.den,
{
    let mirrored = Ratio { num: -ratio.num, den: ratio.den };
    lemma_ties_up_brackets(mirrored, -k);
    assert(ties_down(ratio) == -ties_up(mirrored));
    assert((2 * (-k) - 1) * ratio.den == -((2 * k + 1) * ratio.den)) by (nonlinear_arith);
    assert((2 * (-k) + 1) * ratio.den == -((2 * k - 1) * ratio.den)) by (nonlinear_arith);
}

/// The quotient of a division by a positive number is the one integer `q`
/// with q * b <= a < (q + 1) * b.
pub proof fn lemma_floor_brackets(a: int, b: int, q: int)
    requires
        b > 0,
    ensures
        q == a / b <==> q * b <= a < (q + 1) * b,
{
    let p = a / b;
    assert(a == b * p + a % b && 0 <= a % b < b) by (nonlinear_arith)
        requires
            b > 0,
            p == a / b,
    ;
    if q * b <= a < (q + 1) * b {
        assert((q + 1) * b == q * b + b) by (nonlinear_arith);
        lemma_fundamental_div_mod_converse(a, b, q, a - q * b);
    }
    if q == p {
        assert(q * b == b * p) by (nonlinear_arith)
            requires
                q == p,
        ;
        assert((q + 1) * b == q * b + b) by (nonlinear_arith);
    }
}

/// The quotient rounded toward minus infinity.
fn floor_div(a: i128, b: i128) -> (q: i128)
    requires
        0 < b <= 0x4000_0000_0000_0000_0000_0000_0000,
        -0x4000_0000_0000_0000_0000_0000_0000 <= a <= 0x4000_0000_0000_0000_0000_0000_0000,
    ensures
        q == a as int / b as int,
{
    if a >= 0 {
        a / b
    } else {
        let n: i128 = -a;
        let up: i128 = (n + (b - 1)) / b;
        proof {
            let u = up as int;
            lemma_floor_brackets(n + (b - 1), b as int, u);
            assert((-u) * b == -(u * b)) by (nonlinear_arith);
            assert((-u + 1) * b == -(u * b) + b) by (nonlinear_arith);
            assert((u + 1) * b == u * b + b) by (nonlinear_arith);
            lemma_floor_brackets(a as int, b as int, -u);
        }
        -up
    }
}

impl Fraction {
    /// The fraction with the numerator and the denominator given.
    pub fn new(numerator: i128, denominator: i128) -> (fraction: Fraction)
        ensures
            fraction.numerator == numerator,
            fraction.denominator == denominator,
    {
        Fraction { numerator, denominator }
    }

    /// The fraction times `multiplier`, with the denominator kept.
    pub fn multiply(&self, multiplier: i64) -> (product: Fraction)
        requires
            i128::MIN <= multiplier * self.numerator <= i128::MAX,
        ensures
            product@ == scaled(self@, multiplier as int),
    {
        Fraction { numerator: (multiplier as i128) * self.numerator, denominator: self.denominator }
    }
}

/// The nearest integer, a half going up.
pub fn round_ties_up(n: Fraction) -> (k: i128)
    requires
        roundable(n@),
    ensures
        k == ties_up(n@),
        (2 * k - 1) * n.denominator <= 2 * n.numerator < (2 * k + 1) * n.denominator,
{
    let k = floor_div(2 * n.numerator + n.denominator, 2 * n.denominator);
    proof {
        lemma_ties_up_brackets(n@, k as int);
    }
    k
}

/// The nearest integer, a half going down.
pub fn round_ties_down(n: Fraction) -> (k: i128)
    requires
        roundable(n@),
    ensures
        k == ties_down(n@),
        (2 * k - 1) * n.denominator < 2 * n.numerator <= (2 * k + 1) * n.denominator,
{
    let q = floor_div(n.denominator - 2 * n.numerator, 2 * n.denominator);
    proof {
        lemma_floor_brackets(n.denominator - 2 * n.numerator, 2 * n.denominator, q as int);
        assert(q * (2 * n.denominator) <= 0x3000_0000_0000_0000_0000_0000);
        assert(-0x4000_0000_0000_0000_0000_0000 <= q <= 0x4000_0000_0000_0000_0000_0000)
            by (nonlinear_arith)
            requires
                q * (2 * n.denominator) <= 0x3000_0000_0000_0000_0000_0000,
                (q + 1) * (2 * n.denominator) > -0x3000_0000_0000_0000_0000_0000,
                n.denominator > 0,
        ;
        lemma_ties_down_brackets(n@, -q);
    }
    -q
}

} // verus!
