//! The order of ratios with positive denominators, and where the rounded
//! product of a slope and a depth lies among the edges of the tiles.

use vstd::prelude::*;
use crate::fraction::{
    lemma_ties_down_brackets, lemma_ties_up_brackets, scaled, ties_down, ties_up, Ratio,
};
use crate::shadow::slope_of;

verus! {

/// The first ratio is at most the second. Both denominators are taken to
/// be positive.
pub open spec fn at_most(a: Ratio, b: Ratio) -> bool {
    a.num * b.den <= b.num * a.den
}

/// The first ratio is less than the second: the second is not at most the
/// first.
pub open spec fn below(a: Ratio, b: Ratio) -> bool {
    !at_most(b, a)
}

/// The tile that a slope passes at a depth; on the edge between two tiles,
/// the upper one.
pub open spec fn upper_tile(slope: Ratio, depth: int) -> int {
    ties_up(scaled(slope, depth))
}

/// The tile that a slope passes at a depth; on the edge between two tiles,
/// the lower one.
pub open spec fn lower_tile(slope: Ratio, depth: int) -> int {
    ties_down(scaled(slope, depth))
}

/// What is at most a ratio that is at most a third is at most the third.
pub proof fn lemma_at_most_chain(a: Ratio, b: Ratio, c: Ratio)
    requires
        a.den > 0,
        b.den > 0,
        c.den > 0,
        at_most(a, b),
        at_most(b, c),
    ensures
        at_most(a, c),
{
    let x = a.num * b.den;
    let y = b.num * a.den;
    let u = b.num * c.den;
    let v = c.num * b.den;
    assert(x * c.den <= y * c.den) by (nonlinear_arith)
        requires
            x <= y,
            c.den > 0,
    ;
    assert(u * a.den <= v * a.den) by (nonlinear_arith)
        requires
            u <= v,
            a.den > 0,
    ;
    assert(y * c.den == u * a.den) by (nonlinear_arith)
        requires
            y == b.num * a.den,
            u == b.num * c.den,
    ;
    assert(x * c.den == (a.num * c.den) * b.den) by (nonlinear_arith)
        requires
            x == a.num * b.den,
    ;
    assert(v * a.den == (c.num * a.den) * b.den) by (nonlinear_arith)
        requires
            v == c.num * b.den,
    ;
    assert(a.num * c.den <= c.num * a.den) by (nonlinear_arith)
        requires
            (a.num * c.den) * b.den <= (c.num * a.den) * b.den,
            b.den > 0,
    ;
}

/// What lies below a ratio that is at most a third lies below the third.
pub proof fn lemma_below_then_at_most(a: Ratio, b: Ratio, c: Ratio)
    requires
        a.den > 0,
        b.den > 0,
        c.den > 0,
        below(a, b),
        at_most(b, c),
    ensures
        below(a, c),
{
    if at_most(c, a) {
        lemma_at_most_chain(b, c, a);
    }
}

/// What is at most a ratio that lies below a third lies below the third.
pub proof fn lemma_at_most_then_below(a: Ratio, b: Ratio, c: Ratio)
    requires
        a.den > 0,
        b.den > 0,
        c.den > 0,
        at_most(a, b),
        below(b, c),
    ensures
        below(a, c),
{
    if at_most(c, a) {
        lemma_at_most_chain(c, a, b);
    }
}

/// The edges of the tiles of a row rise with the column.
pub proof fn lemma_edges_rise(depth: int, j: int, k: int)
    requires
        depth >= 1,
    ensures
        j <= k ==> at_most(slope_of(depth, j), slope_of(depth, k)),
        j < k ==> below(slope_of(depth, j), slope_of(depth, k)),
        slope_of(depth, j).den > 0,
{
    assert((2 * j - 1) * (2 * depth) <= (2 * k - 1) * (2 * depth) <==> j <= k)
        by (nonlinear_arith)
        requires
            depth >= 1,
    ;
    assert((2 * k - 1) * (2 * depth) <= (2 * j - 1) * (2 * depth) <==> k <= j)
        by (nonlinear_arith)
        requires
            depth >= 1,
    ;
}

/// The upper tile of a slope at a depth is the one tile whose near edge is
/// at most the slope and whose far edge lies above it.
pub proof fn lemma_upper_tile(slope: Ratio, depth: int, k: int)
    requires
        slope.den > 0,
        depth >= 1,
    ensures
        k == upper_tile(slope, depth) <==> (at_most(slope_of(depth, k), slope) && below(
            slope,
            slope_of(depth, k + 1),
        )),
{
    lemma_ties_up_brackets(scaled(slope, depth), k);
    let n = slope.num;
    let d = slope.den;
    assert((2 * k - 1) * d <= n * (2 * depth) <==> (2 * k - 1) * d <= 2 * (depth * n))
        by (nonlinear_arith);
    assert(!((2 * (k + 1) - 1) * d <= n * (2 * depth)) <==> 2 * (depth * n) < (2 * k + 1) * d)
        by (nonlinear_arith);
}

/// The lower tile of a slope at a depth is the one tile whose near edge
/// lies below the slope and whose far edge is at least the slope.
pub proof fn lemma_lower_tile(slope: Ratio, depth: int, k: int)
    requires
        slope.den > 0,
        depth >= 1,
    ensures
        k == lower_tile(slope, depth) <==> (below(slope_of(depth, k), slope) && at_most(
            slope,
            slope_of(depth, k + 1),
        )),
{
    lemma_ties_down_brackets(scaled(slope, depth), k);
    let n = slope.num;
    let d = slope.den;
    assert(!(n * (2 * depth) <= (2 * k - 1) * d) <==> (2 * k - 1) * d < 2 * (depth * n))
        by (nonlinear_arith);
    assert(n * (2 * depth) <= (2 * (k + 1) - 1) * d <==> 2 * (depth * n) <= (2 * k + 1) * d)
        by (nonlinear_arith);
}

} // verus!
