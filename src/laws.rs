//! Properties that relate several of the library's functions.
use vstd::prelude::*;
use vstd::set_lib::{lemma_int_range, lemma_map_size, lemma_subset_equality, set_int_range};
use vstd::arithmetic::div_mod::lemma_fundamental_div_mod_converse;
use crate::energy::{axis_dist, dist_sq, lemma_dist_sq_bounds, lemma_weight_symmetric, toggle_energy, weight};
use crate::noise::{
    extremum_at, is_rank_permutation, rank_byte, replay_bits, replay_energy, step_picks_extremum,
};

verus! {

/// Some one of the first `n` cells has rank `r`.
pub open spec fn rank_taken(ranks: Seq<usize>, n: int, r: int) -> bool {
    exists|i: int| 0 <= i < n && ranks[i] == r
}

/// A rank table of `n` distinct ranks below `n` uses every rank below `n`:
/// it is a bijection onto `0..n`, with no gaps.
pub proof fn lemma_ranks_onto(ranks: Seq<usize>, n: int)
    requires
        n >= 0,
        is_rank_permutation(ranks, n),
    ensures
        forall|r: int| 0 <= r < n ==> #[trigger] rank_taken(ranks, n, r),
{
    let cells = set_int_range(0, n);
    let f = |i: int| ranks[i] as int;
    let used = cells.map(f);
    lemma_int_range(0, n);
    assert(vstd::relations::injective_on(f, cells));
    lemma_map_size(cells, used, f);
    assert(used.subset_of(cells));
    lemma_subset_equality(used, cells);
    assert forall|r: int| 0 <= r < n implies #[trigger] rank_taken(ranks, n, r) by {
        assert(cells.contains(r));
        assert(used.contains(r));
    }
}

/// The extremum search has one answer: a grid and its energies fix the
/// tightest cluster and the largest void, so equal inputs make equal picks.
pub proof fn lemma_extremum_unique(bits: Seq<bool>, energy: Seq<int>, n: int, cluster: bool, k1: int, k2: int)
    requires
        extremum_at(bits, energy, n, cluster, k1),
        extremum_at(bits, energy, n, cluster, k2),
    ensures
        k1 == k2,
{
    if k1 < k2 {
        assert(bits[k1] == cluster);
    } else if k2 < k1 {
        assert(bits[k2] == cluster);
    }
}

proof fn lemma_replay_same_prefix(
    bits: Seq<bool>,
    e: Seq<int>,
    weights: Seq<u32>,
    w: int,
    h: int,
    o1: Seq<int>,
    o2: Seq<int>,
    value: bool,
    t: int,
)
    requires
        0 <= t <= o1.len(),
        t <= o2.len(),
        forall|i: int| 0 <= i < t ==> #[trigger] o1[i] == o2[i],
    ensures
        replay_bits(bits, o1, value, t) == replay_bits(bits, o2, value, t),
        replay_energy(e, weights, w, h, o1, value, t) == replay_energy(e, weights, w, h, o2, value, t),
    decreases t,
{
    if t > 0 {
        lemma_replay_same_prefix(bits, e, weights, w, h, o1, o2, value, t - 1);
    }
}

/// A ranking phase is deterministic: two runs from the same grid and
/// energies that each pick the extremum at every step pick the same cells in
/// the same order, and so reach the same grid and energies.
pub proof fn lemma_phase_deterministic(
    bits: Seq<bool>,
    e: Seq<int>,
    weights: Seq<u32>,
    w: int,
    h: int,
    n: int,
    o1: Seq<int>,
    o2: Seq<int>,
    value: bool,
)
    requires
        o1.len() == o2.len(),
        forall|t: int|
            0 <= t < o1.len() ==> #[trigger] step_picks_extremum(bits, e, weights, w, h, n, o1, value, t),
        forall|t: int|
            0 <= t < o2.len() ==> #[trigger] step_picks_extremum(bits, e, weights, w, h, n, o2, value, t),
    ensures
        o1 == o2,
        replay_bits(bits, o1, value, o1.len() as int) == replay_bits(bits, o2, value, o2.len() as int),
        replay_energy(e, weights, w, h, o1, value, o1.len() as int) == replay_energy(
            e,
            weights,
            w,
            h,
            o2,
            value,
            o2.len() as int,
        ),
{
    lemma_orders_agree(bits, e, weights, w, h, n, o1, o2, value, o1.len() as int);
    assert(o1 =~= o2);
    lemma_replay_same_prefix(bits, e, weights, w, h, o1, o2, value, o1.len() as int);
}

proof fn lemma_orders_agree(
    bits: Seq<bool>,
    e: Seq<int>,
    weights: Seq<u32>,
    w: int,
    h: int,
    n: int,
    o1: Seq<int>,
    o2: Seq<int>,
    value: bool,
    k: int,
)
    requires
        0 <= k <= o1.len(),
        o1.len() == o2.len(),
        forall|t: int|
            0 <= t < o1.len() ==> #[trigger] step_picks_extremum(bits, e, weights, w, h, n, o1, value, t),
        forall|t: int|
            0 <= t < o2.len() ==> #[trigger] step_picks_extremum(bits, e, weights, w, h, n, o2, value, t),
    ensures
        forall|i: int| 0 <= i < k ==> #[trigger] o1[i] == o2[i],
    decreases k,
{
    if k > 0 {
        lemma_orders_agree(bits, e, weights, w, h, n, o1, o2, value, k - 1);
        let t = k - 1;
        lemma_replay_same_prefix(bits, e, weights, w, h, o1, o2, value, t);
        assert(step_picks_extremum(bits, e, weights, w, h, n, o1, value, t));
        assert(step_picks_extremum(bits, e, weights, w, h, n, o2, value, t));
        lemma_extremum_unique(
            replay_bits(bits, o1, value, t),
            replay_energy(e, weights, w, h, o1, value, t),
            n,
            !value,
            o1[t],
            o2[t],
        );
    }
}

/// The kernel is symmetric, and a cell's weight on itself is the table's
/// first entry, the weight at distance zero.
pub proof fn lemma_kernel_symmetric(weights: Seq<u32>, w: int, h: int, a: int, b: int)
    requires
        w > 0,
        h > 0,
        0 <= a < w * h,
        0 <= b < w * h,
    ensures
        weight(weights, w, h, a, b) == weight(weights, w, h, b, a),
        weight(weights, w, h, a, a) == weights[0],
{
    lemma_weight_symmetric(weights, w, h, a, b);
    lemma_dist_sq_bounds(a, a, w, h);
}

/// Turning cell `a` on raises the energy at `b` by exactly what turning `b`
/// on raises the energy at `a`.
pub proof fn lemma_toggle_symmetric(e: Seq<int>, weights: Seq<u32>, w: int, h: int, a: int, b: int)
    requires
        w > 0,
        h > 0,
        e.len() == w * h,
        0 <= a < w * h,
        0 <= b < w * h,
    ensures
        toggle_energy(e, weights, w, h, a, true)[b] - e[b] == toggle_energy(e, weights, w, h, b, true)[a] - e[a],
{
    lemma_weight_symmetric(weights, w, h, a, b);
}

/// The kernel wraps around: the first and last cells of a row are as close
/// as two neighbouring cells of that row.
pub proof fn lemma_kernel_wraps(weights: Seq<u32>, w: int, h: int, y: int, x: int)
    requires
        w >= 2,
        0 <= y < h,
        0 <= x,
        x + 1 < w,
    ensures
        weight(weights, w, h, y * w, y * w + w - 1) == weight(weights, w, h, y * w + x, y * w + x + 1),
{
    lemma_fundamental_div_mod_converse(y * w, w, y, 0);
    lemma_fundamental_div_mod_converse(y * w + w - 1, w, y, w - 1);
    lemma_fundamental_div_mod_converse(y * w + x, w, y, x);
    lemma_fundamental_div_mod_converse(y * w + x + 1, w, y, x + 1);
    assert(axis_dist((y * w) % w, (y * w + w - 1) % w, w) == 1);
    assert(axis_dist((y * w) / w, (y * w + w - 1) / w, h) == 0);
    assert(dist_sq(y * w, y * w + w - 1, w, h) == 1);
    assert(dist_sq(y * w + x, y * w + x + 1, w, h) == 1);
}

/// Turning a cell on and then off again restores every energy exactly.
pub proof fn lemma_toggle_round_trip(e: Seq<int>, weights: Seq<u32>, w: int, h: int, index: int)
    ensures
        toggle_energy(toggle_energy(e, weights, w, h, index, true), weights, w, h, index, false) == e,
{
    assert(toggle_energy(toggle_energy(e, weights, w, h, index, true), weights, w, h, index, false) =~= e);
}

/// When the cell count divides 256, grey levels are evenly spaced by
/// `256 / n`: rank `r` maps to `r * (256 / n)`.
pub proof fn lemma_rank_byte_spacing(rank: int, n: int, step: int)
    requires
        0 <= rank < n,
        n * step == 256,
    ensures
        rank_byte(rank, n) == rank * step,
{
    assert(rank * 256 == (rank * step) * n + 0) by (nonlinear_arith)
        requires
            n * step == 256,
    ;
    lemma_fundamental_div_mod_converse(rank * 256, n, rank * step, 0);
}

/// When 256 divides the cell count, each grey level covers `n / 256`
/// consecutive ranks: rank `r` maps to `r / (n / 256)`.
pub proof fn lemma_rank_byte_grouping(rank: int, n: int, group: int)
    requires
        0 <= rank < n,
        group > 0,
        n == 256 * group,
    ensures
        rank_byte(rank, n) == rank / group,
{
    let q = rank / group;
    let r = rank % group;
    assert(rank == q * group + r && 0 <= r < group) by {
        vstd::arithmetic::div_mod::lemma_fundamental_div_mod(rank, group);
    }
    assert(rank * 256 == q * n + r * 256 && 0 <= r * 256 < n) by (nonlinear_arith)
        requires
            rank == q * group + r,
            0 <= r < group,
            n == 256 * group,
    ;
    lemma_fundamental_div_mod_converse(rank * 256, n, q, r * 256);
}

} // verus!
