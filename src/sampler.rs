//! Topic weights and inverse-CDF selection over unnormalised weights.
//!
//! Weights are fixed-point integers: the ratio `word_count / total` is held
//! with `WEIGHT_SCALE` as its unit, so no floating point is involved and a
//! positive ratio never rounds to zero while `total <= WEIGHT_SCALE`.
use vstd::arithmetic::div_mod::{lemma_div_by_multiple, lemma_div_is_ordered};
use vstd::arithmetic::mul::{lemma_mul_inequality, lemma_mul_strict_inequality};
use vstd::prelude::*;

verus! {

/// The unit of a fixed-point ratio, `2^32`. A uniform draw in `[0, 1)` is
/// likewise the numerator of a fraction over this unit.
pub const WEIGHT_SCALE: u64 = 4294967296;

/// The largest total weight (exclusive) that selection accepts, `2^96`.
pub open spec fn weight_bound() -> int {
    0x1_0000_0000_0000_0000_0000_0000
}

/// The weight of a topic for one occurrence: `(word_count / total)` in fixed
/// point, times the number of the document's occurrences on that topic; zero
/// for a topic that holds no occurrence at all.
pub open spec fn weight_spec(word_count: int, total: int, doc_count: int) -> int {
    if total == 0 {
        0
    } else {
        (word_count * WEIGHT_SCALE / total) * doc_count
    }
}

/// The sum of the first `n` weights.
pub open spec fn prefix_sum(ws: Seq<u128>, n: int) -> int
    decreases n,
{
    if n <= 0 {
        0
    } else {
        prefix_sum(ws, n - 1) + ws[n - 1]
    }
}

/// The sum of all weights.
pub open spec fn total_weight(ws: Seq<u128>) -> int {
    prefix_sum(ws, ws.len() as int)
}

/// A draw `u` (a fraction `u / 2^32`) scaled to the total weight, times `2^32`.
pub open spec fn draw_target(ws: Seq<u128>, u: u32) -> int {
    u * total_weight(ws)
}

/// The first index from `z` on whose cumulative weight exceeds the target;
/// the last index where none does.
pub open spec fn first_above(ws: Seq<u128>, target: int, z: int) -> int
    decreases ws.len() - z,
{
    if z + 1 >= ws.len() {
        z
    } else if target < prefix_sum(ws, z + 1) * WEIGHT_SCALE {
        z
    } else {
        first_above(ws, target, z + 1)
    }
}

/// The topic that inverse-CDF sampling picks for draw `u`, or `None` where
/// every weight is zero and the distribution is undefined.
pub open spec fn select_spec(ws: Seq<u128>, u: u32) -> Option<int> {
    if total_weight(ws) == 0 {
        None
    } else {
        Some(first_above(ws, draw_target(ws, u), 0))
    }
}

pub proof fn lemma_prefix_monotone(ws: Seq<u128>, i: int, j: int)
    requires
        0 <= i <= j <= ws.len(),
    ensures
        prefix_sum(ws, i) <= prefix_sum(ws, j),
    decreases j - i,
{
    if i < j {
        lemma_prefix_monotone(ws, i, j - 1);
    }
}

pub proof fn lemma_prefix_zero(ws: Seq<u128>, n: int)
    requires
        n <= ws.len(),
        forall|j: int| 0 <= j < n ==> #[trigger] ws[j] == 0,
    ensures
        prefix_sum(ws, n) == 0,
    decreases n,
{
    if n > 0 {
        lemma_prefix_zero(ws, n - 1);
    }
}

/// The selected index lies in range and is the one whose cumulative interval
/// `[prefix(z), prefix(z + 1))` holds the scaled draw.
pub proof fn lemma_select_interval(ws: Seq<u128>, u: u32)
    requires
        total_weight(ws) > 0,
    ensures
        select_spec(ws, u) matches Some(z) && 0 <= z < ws.len() && prefix_sum(ws, z)
            * WEIGHT_SCALE <= draw_target(ws, u) < prefix_sum(ws, z + 1) * WEIGHT_SCALE,
{
    let t = total_weight(ws);
    let target = draw_target(ws, u);
    assert(ws.len() > 0);
    assert(target < t * WEIGHT_SCALE) by {
        lemma_mul_strict_inequality(u as int, WEIGHT_SCALE as int, t);
        assert(u as int * t == t * u as int) by (nonlinear_arith);
        assert(WEIGHT_SCALE as int * t == t * WEIGHT_SCALE as int) by (nonlinear_arith);
    }
    assert(0 <= target) by (nonlinear_arith)
        requires target == u as int * t, t > 0;
    lemma_first_above_interval(ws, target, 0);
}

proof fn lemma_first_above_interval(ws: Seq<u128>, target: int, z: int)
    requires
        0 <= z < ws.len(),
        prefix_sum(ws, z) * WEIGHT_SCALE <= target,
        target < total_weight(ws) * WEIGHT_SCALE,
    ensures
        0 <= first_above(ws, target, z) < ws.len(),
        prefix_sum(ws, first_above(ws, target, z)) * WEIGHT_SCALE <= target,
        target < prefix_sum(ws, first_above(ws, target, z) + 1) * WEIGHT_SCALE,
    decreases ws.len() - z,
{
    if z + 1 < ws.len() && target >= prefix_sum(ws, z + 1) * WEIGHT_SCALE {
        lemma_first_above_interval(ws, target, z + 1);
    }
}

/// The fixed-point weight of a topic.
pub fn topic_weight(word_count: u64, total: u64, doc_count: u64) -> (r: u128)
    requires
        word_count <= total,
    ensures
        r == weight_spec(word_count as int, total as int, doc_count as int),
        r <= WEIGHT_SCALE * doc_count,
{
    if total == 0 {
        0
    } else {
        proof {
            assert(word_count as int * WEIGHT_SCALE < 0x1_0000_0000_0000_0000_0000_0000)
                by (nonlinear_arith)
                requires word_count < 0x1_0000_0000_0000_0000;
        }
        let scaled = word_count as u128 * WEIGHT_SCALE as u128;
        let ratio = scaled / total as u128;
        proof {
            lemma_mul_inequality(word_count as int, total as int, WEIGHT_SCALE as int);
            lemma_div_is_ordered(scaled as int, total as int * WEIGHT_SCALE, total as int);
            assert(total as int * WEIGHT_SCALE == WEIGHT_SCALE as int * total) by (nonlinear_arith);
            lemma_div_by_multiple(WEIGHT_SCALE as int, total as int);
            lemma_mul_inequality(ratio as int, WEIGHT_SCALE as int, doc_count as int);
            assert(WEIGHT_SCALE as int * doc_count <= 0x1_0000_0000_0000_0000_0000_0000)
                by (nonlinear_arith)
                requires doc_count < 0x1_0000_0000_0000_0000;
        }
        ratio * doc_count as u128
    }
}

/// Inverse-CDF selection: for a draw `u / 2^32` in `[0, 1)`, the topic `z`
/// with `cum[z - 1] <= u/2^32 * cum[K - 1] < cum[z]`; `None` where every
/// weight is zero.
pub fn select_topic(weights: &Vec<u128>, u: u32) -> (r: Option<usize>)
    requires
        total_weight(weights@) < weight_bound(),
    ensures
        r matches Some(z) ==> select_spec(weights@, u) == Some(z as int),
        r is None ==> select_spec(weights@, u) is None,
        r is None <==> total_weight(weights@) == 0,
        r matches Some(z) ==> z < weights@.len() && prefix_sum(weights@, z as int)
            * WEIGHT_SCALE <= draw_target(weights@, u) && draw_target(weights@, u)
            < prefix_sum(weights@, z + 1) * WEIGHT_SCALE,
{
    let n = weights.len();
    let mut total: u128 = 0;
    let mut i: usize = 0;
    while i < n
        invariant
            n == weights@.len(),
            i <= n,
            total == prefix_sum(weights@, i as int),
            total_weight(weights@) < weight_bound(),
        decreases n - i,
    {
        proof {
            lemma_prefix_monotone(weights@, i + 1, n as int);
        }
        total = total + weights[i];
        i = i + 1;
    }
    if total == 0 {
        return None;
    }
    proof {
        lemma_select_interval(weights@, u);
        assert(u as int * total <= 0xffff_ffff * total) by (nonlinear_arith)
            requires u <= 0xffff_ffff;
    }
    let target: u128 = u as u128 * total;
    let mut cum: u128 = 0;
    let mut z: usize = 0;
    while z < n
        invariant
            n == weights@.len(),
            n > 0,
            z < n,
            total == total_weight(weights@),
            0 < total < weight_bound(),
            target == draw_target(weights@, u),
            cum == prefix_sum(weights@, z as int),
            cum * WEIGHT_SCALE <= target,
            first_above(weights@, target as int, 0) == first_above(weights@, target as int, z as int),
        decreases n - z,
    {
        proof {
            lemma_prefix_monotone(weights@, z + 1, n as int);
        }
        cum = cum + weights[z];
        proof {
            assert(cum * WEIGHT_SCALE < 0x1_0000_0000_0000_0000_0000_0000_0000_0000) by (nonlinear_arith)
                requires cum < 0x1_0000_0000_0000_0000_0000_0000;
        }
        if z + 1 == n || target < cum * WEIGHT_SCALE as u128 {
            proof {
                assert(first_above(weights@, target as int, z as int) == z);
                lemma_select_interval(weights@, u);
            }
            return Some(z);
        }
        z = z + 1;
    }
    None
}

} // verus!
