//! The interaction kernel on a toroidal grid, and sums of it over a membership grid.
//!
//! The Gaussian falloff itself is supplied as a table of fixed-point weights,
//! indexed by the squared toroidal distance between two cells, so that every
//! energy value is an exact integer sum.
use vstd::prelude::*;

verus! {

/// Distance between two coordinates on a circle of `n` positions.
pub open spec fn axis_dist(a: int, b: int, n: int) -> int {
    let d = if a >= b { a - b } else { b - a };
    if d <= n - d { d } else { n - d }
}

/// Squared toroidal distance between cells `a` and `b` of a `w`-wide, `h`-high grid.
pub open spec fn dist_sq(a: int, b: int, w: int, h: int) -> int {
    let dx = axis_dist(a % w, b % w, w);
    let dy = axis_dist(a / w, b / w, h);
    dx * dx + dy * dy
}

/// The largest squared toroidal distance on a `w` by `h` grid.
pub open spec fn max_dist_sq(w: int, h: int) -> int {
    (w / 2) * (w / 2) + (h / 2) * (h / 2)
}

/// The weight that cells `a` and `b` exert on each other.
pub open spec fn weight(weights: Seq<u32>, w: int, h: int, a: int, b: int) -> int {
    weights[dist_sq(a, b, w, h)] as int
}

/// The sum of `f(i)` over the indices `i < k` with `pat[i] == target`.
pub open spec fn masked_sum(pat: Seq<bool>, target: bool, f: spec_fn(int) -> int, k: int) -> int
    decreases k,
{
    if k <= 0 {
        0
    } else {
        masked_sum(pat, target, f, k - 1) + if pat[k - 1] == target { f(k - 1) } else { 0 }
    }
}

/// The energy felt at cell `j` from every cell whose bit is `target`.
pub open spec fn field(
    pat: Seq<bool>,
    target: bool,
    weights: Seq<u32>,
    w: int,
    h: int,
    j: int,
) -> int {
    masked_sum(pat, target, row(weights, w, h, j), pat.len() as int)
}

/// The weights that every cell exerts on cell `j`, as a function of the cell.
pub open spec fn row(weights: Seq<u32>, w: int, h: int, j: int) -> spec_fn(int) -> int {
    |i: int| weight(weights, w, h, j, i)
}

/// The energies `e` after cell `index` is turned on (`value`) or off: each cell
/// gains, or loses, the weight that `index` exerts on it.
pub open spec fn toggle_energy(e: Seq<int>, weights: Seq<u32>, w: int, h: int, index: int, value: bool) -> Seq<int> {
    Seq::new(
        e.len(),
        |j: int| e[j] + if value { weight(weights, w, h, index, j) } else { -weight(weights, w, h, index, j) },
    )
}

pub proof fn lemma_axis_dist(a: int, b: int, n: int)
    requires
        0 <= a < n,
        0 <= b < n,
    ensures
        axis_dist(a, b, n) == axis_dist(b, a, n),
        0 <= axis_dist(a, b, n) <= n / 2,
        a == b ==> axis_dist(a, b, n) == 0,
{
}

pub proof fn lemma_dist_sq_bounds(a: int, b: int, w: int, h: int)
    requires
        w > 0,
        h > 0,
        0 <= a < w * h,
        0 <= b < w * h,
    ensures
        0 <= dist_sq(a, b, w, h) <= max_dist_sq(w, h),
        dist_sq(a, b, w, h) == dist_sq(b, a, w, h),
        a == b ==> dist_sq(a, b, w, h) == 0,
{
    lemma_cell_coords(a, w, h);
    lemma_cell_coords(b, w, h);
    lemma_axis_dist(a % w, b % w, w);
    lemma_axis_dist(a / w, b / w, h);
    let dx = axis_dist(a % w, b % w, w);
    let dy = axis_dist(a / w, b / w, h);
    let hw = w / 2;
    let hh = h / 2;
    assert(dx * dx <= hw * hw) by (nonlinear_arith)
        requires
            0 <= dx <= hw,
    ;
    assert(dy * dy <= hh * hh) by (nonlinear_arith)
        requires
            0 <= dy <= hh,
    ;
    assert(dx * dx >= 0) by (nonlinear_arith);
    assert(dy * dy >= 0) by (nonlinear_arith);
}

pub proof fn lemma_cell_coords(a: int, w: int, h: int)
    requires
        w > 0,
        h > 0,
        0 <= a < w * h,
    ensures
        0 <= a % w < w,
        0 <= a / w < h,
{
    assert(0 <= a / w < h) by (nonlinear_arith)
        requires
            w > 0,
            h > 0,
            0 <= a < w * h,
    ;
}

pub proof fn lemma_masked_sum_update(
    pat: Seq<bool>,
    target: bool,
    f: spec_fn(int) -> int,
    k: int,
    c: int,
    b: bool,
)
    requires
        0 <= c < pat.len(),
        k <= pat.len(),
    ensures
        masked_sum(pat.update(c, b), target, f, k) == masked_sum(pat, target, f, k) + if c < k {
            (if b == target { f(c) } else { 0 }) - (if pat[c] == target { f(c) } else { 0 })
        } else {
            0
        },
    decreases k,
{
    if k > 0 {
        lemma_masked_sum_update(pat, target, f, k - 1, c, b);
    }
}

pub proof fn lemma_masked_sum_sub(
    pat: Seq<bool>,
    target: bool,
    f: spec_fn(int) -> int,
    g: spec_fn(int) -> int,
    d: spec_fn(int) -> int,
    k: int,
)
    requires
        forall|i: int| 0 <= i < k ==> #[trigger] d(i) == f(i) - g(i),
    ensures
        masked_sum(pat, target, d, k) == masked_sum(pat, target, f, k) - masked_sum(pat, target, g, k),
    decreases k,
{
    if k > 0 {
        lemma_masked_sum_sub(pat, target, f, g, d, k - 1);
    }
}

pub proof fn lemma_masked_sum_bounds(pat: Seq<bool>, target: bool, f: spec_fn(int) -> int, k: int, m: int)
    requires
        k >= 0,
        forall|i: int| 0 <= i < k ==> 0 <= #[trigger] f(i) <= m,
    ensures
        0 <= masked_sum(pat, target, f, k) <= k * m,
    decreases k,
{
    if k > 0 {
        lemma_masked_sum_bounds(pat, target, f, k - 1, m);
        assert(0 <= f(k - 1) <= m);
        assert((k - 1) * m + m == k * m) by (nonlinear_arith);
    } else {
        assert(0 * m == 0);
    }
}

/// Weights exerted on a cell by every other: the same in both directions.
pub proof fn lemma_weight_symmetric(weights: Seq<u32>, w: int, h: int, a: int, b: int)
    requires
        w > 0,
        h > 0,
        0 <= a < w * h,
        0 <= b < w * h,
    ensures
        weight(weights, w, h, a, b) == weight(weights, w, h, b, a),
{
    lemma_dist_sq_bounds(a, b, w, h);
}

/// Distance between positions `a` and `b` on a circle of `n` positions.
fn axis_distance(a: usize, b: usize, n: usize) -> (r: usize)
    requires
        a < n,
        b < n,
    ensures
        r == axis_dist(a as int, b as int, n as int),
{
    let d = if a >= b { a - b } else { b - a };
    if d <= n - d { d } else { n - d }
}

/// The weight between cells `a` and `b`: the table entry at their squared
/// toroidal distance. The table's first entry is the self-interaction.
pub fn kernel(a: usize, b: usize, width: usize, height: usize, weights: &Vec<u32>) -> (r: u32)
    requires
        width > 0,
        height > 0,
        a < width * height,
        b < width * height,
        weights@.len() > max_dist_sq(width as int, height as int),
    ensures
        r as int == weight(weights@, width as int, height as int, a as int, b as int),
{
    proof {
        lemma_cell_coords(a as int, width as int, height as int);
        lemma_cell_coords(b as int, width as int, height as int);
        lemma_dist_sq_bounds(a as int, b as int, width as int, height as int);
    }
    let dx = axis_distance(a % width, b % width, width);
    let dy = axis_distance(a / width, b / width, height);
    proof {
        assert(dx * dx >= 0 && dy * dy >= 0) by (nonlinear_arith);
        assert(dx * dx + dy * dy == dist_sq(a as int, b as int, width as int, height as int));
    }
    let len = weights.len();
    proof {
        assert(dx * dx + dy * dy < len);
    }
    weights[dx * dx + dy * dy]
}

/// Adds (or, when `positive` is false, subtracts) the weight that cell `index`
/// exerts on every cell to its energy.
pub(crate) fn add_contribution(
    lut: &mut Vec<i128>,
    weights: &Vec<u32>,
    width: usize,
    height: usize,
    index: usize,
    positive: bool,
)
    requires
        width > 0,
        height > 0,
        old(lut)@.len() == width * height,
        index < width * height,
        weights@.len() > max_dist_sq(width as int, height as int),
        forall|j: int|
            0 <= j < old(lut)@.len() ==> -energy_room() <= #[trigger] old(lut)@[j] <= energy_room(),
    ensures
        final(lut)@.len() == old(lut)@.len(),
        forall|j: int|
            0 <= j < old(lut)@.len() ==> #[trigger] final(lut)@[j] as int == old(lut)@[j] + if positive {
                weight(weights@, width as int, height as int, index as int, j)
            } else {
                -weight(weights@, width as int, height as int, index as int, j)
            },
{
    let n = lut.len();
    let mut i: usize = 0;
    while i < n
        invariant
            0 <= i <= n,
            n == width * height,
            width > 0,
            height > 0,
            index < n,
            weights@.len() > max_dist_sq(width as int, height as int),
            lut@.len() == n,
            old(lut)@.len() == n,
            forall|j: int| i <= j < n ==> #[trigger] lut@[j] == old(lut)@[j],
            forall|j: int|
                0 <= j < old(lut)@.len() ==> -energy_room() <= #[trigger] old(lut)@[j] <= energy_room(),
            forall|j: int|
                0 <= j < i ==> #[trigger] lut@[j] as int == old(lut)@[j] + if positive {
                    weight(weights@, width as int, height as int, index as int, j)
                } else {
                    -weight(weights@, width as int, height as int, index as int, j)
                },
        decreases n - i,
    {
        let k = kernel(index, i, width, height, weights) as i128;
        proof {
            assert(-energy_room() <= old(lut)@[i as int] <= energy_room());
        }
        let cur = lut[i];
        if positive {
            lut.set(i, cur + k);
        } else {
            lut.set(i, cur - k);
        }
        i += 1;
    }
}

/// The largest magnitude an energy may have before one more weight is added.
pub open spec fn energy_room() -> int {
    i128::MAX - 0xffff_ffff
}

/// A bound on the magnitude of any energy on a grid of `n` cells.
pub open spec fn energy_bound(n: int) -> int {
    n * 0xffff_ffff
}

pub proof fn lemma_energy_bound(n: int)
    requires
        0 <= n <= usize::MAX,
    ensures
        0 <= energy_bound(n),
        energy_bound(n) < energy_room(),
{
    assert(n * 0xffff_ffff <= usize::MAX * 0xffff_ffff) by (nonlinear_arith)
        requires
            0 <= n <= usize::MAX,
    ;
    assert(n * 0xffff_ffff >= 0) by (nonlinear_arith)
        requires
            0 <= n,
    ;
}


} // verus!
