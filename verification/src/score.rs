//! The selection score of a child, in fixed point, and the choice of the
//! child that scores highest.
//!
//! Probabilities and outcomes are whole numbers of `ONE`-ths: `ONE` stands
//! for 1.0, so a prior of one half is `ONE / 2`.

use vstd::prelude::*;

verus! {

/// The number that stands for 1.0.
pub const ONE: u32 = 16_777_216;

/// The largest magnitude that one visit adds to a value sum.
pub const OUTCOME_LIMIT: i128 = 2_147_483_648;

/// The largest `r` whose square is at most `n`.
pub open spec fn isqrt(n: nat) -> nat
    decreases n,
{
    if n == 0 {
        0
    } else {
        let r = isqrt((n - 1) as nat);
        if (r + 1) * (r + 1) <= n {
            r + 1
        } else {
            r
        }
    }
}

/// `isqrt(n)` is the one number whose square is at most `n` while the square
/// of the next is more.
pub proof fn lemma_isqrt(n: nat)
    ensures
        isqrt(n) * isqrt(n) <= n < (isqrt(n) + 1) * (isqrt(n) + 1),
    decreases n,
{
    if n > 0 {
        lemma_isqrt((n - 1) as nat);
        let r = isqrt((n - 1) as nat);
        let s = isqrt(n);
        if (r + 1) * (r + 1) <= n {
            assert(s == r + 1);
            assert(s * s <= n < (s + 1) * (s + 1)) by (nonlinear_arith)
                requires
                    s == r + 1,
                    (r + 1) * (r + 1) <= n,
                    n - 1 < (r + 1) * (r + 1),
            ;
        } else {
            assert(s == r);
        }
    } else {
        assert(isqrt(0) == 0);
        assert(0 * 0 <= 0 < (0 + 1) * (0 + 1)) by (nonlinear_arith);
    }
}

/// A number between whose square and whose successor's square `n` lies is
/// `isqrt(n)`.
pub proof fn lemma_isqrt_unique(n: nat, r: nat)
    requires
        r * r <= n < (r + 1) * (r + 1),
    ensures
        r == isqrt(n),
{
    lemma_isqrt(n);
    let s = isqrt(n);
    if r < s {
        assert((r + 1) * (r + 1) <= s * s) by (nonlinear_arith)
            requires
                r + 1 <= s,
        ;
    } else if s < r {
        assert((s + 1) * (s + 1) <= r * r) by (nonlinear_arith)
            requires
                s + 1 <= r,
        ;
    }
}

/// The square root of `n`, rounded down.
pub fn integer_sqrt(n: u128) -> (root: u128)
    ensures
        root == isqrt(n as nat),
        root < 0x1_0000_0000_0000_0000,
{
    let mut low: u128 = 0;
    let mut high: u128 = 0x1_0000_0000_0000_0000;
    assert(0x1_0000_0000_0000_0000int * 0x1_0000_0000_0000_0000int
        == 0x1_0000_0000_0000_0000_0000_0000_0000_0000int) by (nonlinear_arith);
    while high - low > 1
        invariant
            low < high <= 0x1_0000_0000_0000_0000,
            low * low <= n < high * high,
        decreases high - low,
    {
        let mid: u128 = low + (high - low) / 2;
        assert(mid * mid <= 0xffff_ffff_ffff_ffff * 0xffff_ffff_ffff_ffff) by (nonlinear_arith)
            requires
                0 <= mid <= 0xffff_ffff_ffff_ffff,
        ;
        assert(0xffff_ffff_ffff_ffffint * 0xffff_ffff_ffff_ffffint
            < 0x1_0000_0000_0000_0000_0000_0000_0000_0000int) by (nonlinear_arith);
        if mid * mid <= n {
            low = mid;
        } else {
            high = mid;
        }
    }
    proof {
        lemma_isqrt_unique(n as nat, low as nat);
    }
    low
}

/// `a / b` rounded towards zero, for a positive `b`.
pub open spec fn quotient(a: int, b: int) -> int {
    if a >= 0 {
        a / b
    } else {
        -((-a) / b)
    }
}

/// The mean outcome of a child with value sum `w` after `n` visits, in
/// `ONE`-ths: `w / (n + 1 / ONE)`, rounded towards zero. The small addend
/// keeps the divisor positive for a child that was never visited.
pub open spec fn exploitation(w: int, n: int) -> int {
    quotient(w * ONE, n * ONE + 1)
}

/// The bonus of a child with prior `p` and `n` visits under a parent with
/// `parent_n` visits, in `ONE`-ths: `c * p * sqrt(parent_n) / (1 + n)`,
/// rounded down, the root taken of `parent_n` in `ONE`-ths and rounded down.
pub open spec fn exploration(parent_n: int, n: int, p: int, c: int) -> int {
    (c * p * isqrt((parent_n * ONE * ONE) as nat)) / ((1 + n) * ONE * ONE)
}

/// The score by which a parent with `parent_n` visits ranks a child with `n`
/// visits, value sum `w` and prior `p`, under the exploration constant `c`.
pub open spec fn puct(parent_n: int, n: int, w: int, p: int, c: int) -> int {
    exploitation(w, n) + exploration(parent_n, n, p, c)
}

/// Whether `best` is the first position of the largest entry of `scores`.
pub open spec fn is_first_max(scores: Seq<int>, best: int) -> bool {
    &&& 0 <= best < scores.len()
    &&& forall|j: int| 0 <= j < scores.len() ==> scores[j] <= scores[best]
    &&& forall|j: int| 0 <= j < best ==> scores[j] < scores[best]
}

/// Two first positions of the largest entry are one.
pub proof fn lemma_first_max_unique(scores: Seq<int>, a: int, b: int)
    requires
        is_first_max(scores, a),
        is_first_max(scores, b),
    ensures
        a == b,
{
    assert(scores[a] <= scores[b] <= scores[a]);
}

/// The score of a child with `n` visits, value sum `w` and prior `p`
/// under a parent with `parent_n` visits and the exploration constant `c`.
pub fn compute_ucb_1(parent_n: u64, n: u64, w: i128, p: u32, c: u32) -> (value: i128)
    requires
        -n * OUTCOME_LIMIT <= w <= n * OUTCOME_LIMIT,
    ensures
        value == puct(parent_n as int, n as int, w as int, p as int, c as int),
{
    let one: u128 = ONE as u128;
    let divisor: u128 = n as u128 * one + 1;
    let magnitude: u128 = if w >= 0 {
        w as u128
    } else {
        (-w) as u128
    };
    assert(magnitude * one <= 0x80_0000_0000_0000_0000_0000_0000_0000) by (nonlinear_arith)
        requires
            magnitude <= n * 2_147_483_648,
            n <= 0xffff_ffff_ffff_ffff,
            one == 16_777_216,
    ;
    let mean: u128 = magnitude * one / divisor;
    assert(mean <= magnitude * one) by (nonlinear_arith)
        requires
            mean == (magnitude * one) / (divisor as int),
            divisor >= 1,
    ;
    let exploit: i128 = if w >= 0 {
        mean as i128
    } else {
        -(mean as i128)
    };
    assert(exploit == exploitation(w as int, n as int));

    assert(parent_n as u128 * one * one < 0x1_0000_0000_0000_0000_0000_0000_0000) by (nonlinear_arith)
        requires
            parent_n <= 0xffff_ffff_ffff_ffff,
            one == 16_777_216,
    ;
    let root: u128 = integer_sqrt(parent_n as u128 * one * one);
    proof {
        lemma_isqrt((parent_n as u128 * one * one) as nat);
    }
    assert(root < 0x100_0000_0000_0000) by (nonlinear_arith)
        requires
            root * root <= parent_n * one * one,
            parent_n * one * one < 0x1_0000_0000_0000_0000_0000_0000_0000,
            0 <= root,
    ;
    assert(c * p <= 0xffff_ffff_ffff_ffff) by (nonlinear_arith)
        requires
            c <= 0xffff_ffff,
            p <= 0xffff_ffff,
    ;
    let weight: u128 = c as u128 * p as u128;
    assert(weight * root <= 0x100_0000_0000_0000_0000_0000_0000_0000) by (nonlinear_arith)
        requires
            weight <= 0xffff_ffff_ffff_ffff,
            root < 0x100_0000_0000_0000,
    ;
    assert((1 + n as u128) * one * one <= 0x1_0000_0000_0000_0000_0000_0000_0000 && (1
        + n as u128) * one * one >= 1) by (nonlinear_arith)
        requires
            n <= 0xffff_ffff_ffff_ffff,
            one == 16_777_216,
    ;
    let numerator: u128 = weight * root;
    let denominator: u128 = (1 + n as u128) * one * one;
    let bonus: u128 = numerator / denominator;
    assert(bonus <= numerator) by (nonlinear_arith)
        requires
            bonus == numerator / denominator,
            denominator >= 1,
    ;
    exploit + bonus as i128
}

/// The first position of the largest entry.
pub fn first_max(scores: &Vec<i128>) -> (best: usize)
    requires
        scores.len() > 0,
    ensures
        is_first_max(scores@.map_values(|s: i128| s as int), best as int),
{
    let mut best: usize = 0;
    let mut i: usize = 1;
    while i < scores.len()
        invariant
            1 <= i <= scores.len(),
            best < i,
            forall|j: int| 0 <= j < i ==> scores[j] <= scores[best as int],
            forall|j: int| 0 <= j < best ==> scores[j] < scores[best as int],
        decreases scores.len() - i,
    {
        if scores[i] > scores[best] {
            best = i;
        }
        i += 1;
    }
    best
}

} // verus!
