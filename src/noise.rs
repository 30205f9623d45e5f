//! The void-and-cluster driver: seeding, stabilising and ranking every cell,
//! then mapping ranks to grey levels.
use vstd::prelude::*;
use crate::bits::{Bits, count_true, lemma_count_bounds, lemma_count_update};
use crate::energy::{
    add_contribution, energy_bound, energy_room, field, lemma_dist_sq_bounds, lemma_energy_bound,
    lemma_masked_sum_bounds, lemma_masked_sum_sub, lemma_masked_sum_update, lemma_weight_symmetric,
    masked_sum, max_dist_sq, row, toggle_energy, weight,
};

verus! {

/// Failures of pattern generation.
#[derive(Debug, Clone, Copy, PartialEq, Eq, Structural)]
pub enum NoiseError {
    /// The grid has no cells, or more than a `usize` can count.
    InvalidDimension,
    /// The weight table does not cover every squared distance of the grid.
    WeightTableTooShort,
    /// A cell that the protocol needs does not exist: the seed turned no cell on.
    InvariantViolation,
}

/// The membership grid of `n` cells after the first `k` seed draws: each
/// draw, reduced modulo `n`, turns its cell on (a cell drawn again stays on).
pub open spec fn seeded(draws: Seq<u32>, n: int, k: int) -> Seq<bool>
    decreases k,
{
    if k <= 0 {
        Seq::new(n as nat, |_i: int| false)
    } else {
        seeded(draws, n, k - 1).update(draws[k - 1] as int % n, true)
    }
}

/// The grey level of rank `rank` among `n` cells.
pub open spec fn rank_byte(rank: int, n: int) -> int {
    rank * 256 / n
}

/// Each of the first `n` ranks is below `n`, and no two are equal.
pub open spec fn is_rank_permutation(ranks: Seq<usize>, n: int) -> bool {
    &&& ranks.len() == n
    &&& forall|i: int| 0 <= i < n ==> #[trigger] ranks[i] < n
    &&& forall|i: int, j: int| 0 <= i < n && 0 <= j < n && i != j ==> #[trigger] ranks[i] != #[trigger] ranks[j]
}

/// Maps a rank among `n` cells to an 8-bit grey level, `rank * 256 / n`.
pub fn encode_rank(rank: usize, n: usize) -> (r: u8)
    requires
        rank < n,
    ensures
        r as int == rank_byte(rank as int, n as int),
{
    let wide = (rank as u128) * 256 / (n as u128);
    proof {
        lemma_rank_byte_bounds(rank as int, n as int);
    }
    wide as u8
}

proof fn lemma_rank_byte_bounds(rank: int, n: int)
    requires
        0 <= rank < n,
    ensures
        0 <= rank_byte(rank, n) <= 255,
{
    assert(0 <= rank * 256 / n <= 255) by (nonlinear_arith)
        requires
            0 <= rank < n,
    ;
}

proof fn lemma_seeded_len(draws: Seq<u32>, n: int, k: int)
    requires
        n > 0,
        0 <= k <= draws.len(),
    ensures
        seeded(draws, n, k).len() == n,
    decreases k,
{
    if k > 0 {
        lemma_seeded_len(draws, n, k - 1);
    }
}

/// The number of entries a weight table needs for a `width` by `height` grid:
/// one per squared toroidal distance from zero to the largest. `None` when
/// that number does not fit in a `usize`.
pub fn weight_table_len(width: usize, height: usize) -> (r: Option<usize>)
    ensures
        r == if max_dist_sq(width as int, height as int) + 1 <= usize::MAX {
            Some((max_dist_sq(width as int, height as int) + 1) as usize)
        } else {
            None::<usize>
        },
{
    let hw = (width / 2) as u128;
    let hh = (height / 2) as u128;
    proof {
        assert(hw * hw <= 0x4000_0000_0000_0000_0000_0000_0000_0000) by (nonlinear_arith)
            requires hw <= 0x7fff_ffff_ffff_ffff;
        assert(hh * hh <= 0x4000_0000_0000_0000_0000_0000_0000_0000) by (nonlinear_arith)
            requires hh <= 0x7fff_ffff_ffff_ffff;
    }
    let total = hw * hw + hh * hh + 1;
    if total <= usize::MAX as u128 {
        Some(total as usize)
    } else {
        None
    }
}

/// The grid `bits` after the first `t` cells of `order` are set to `value`.
pub open spec fn replay_bits(bits: Seq<bool>, order: Seq<int>, value: bool, t: int) -> Seq<bool>
    decreases t,
{
    if t <= 0 {
        bits
    } else {
        replay_bits(bits, order, value, t - 1).update(order[t - 1], value)
    }
}

/// The energies `e` after the first `t` cells of `order` are toggled to `value`.
pub open spec fn replay_energy(
    e: Seq<int>,
    weights: Seq<u32>,
    w: int,
    h: int,
    order: Seq<int>,
    value: bool,
    t: int,
) -> Seq<int>
    decreases t,
{
    if t <= 0 {
        e
    } else {
        toggle_energy(replay_energy(e, weights, w, h, order, value, t - 1), weights, w, h, order[t - 1], value)
    }
}

/// Step `t` of `order`, replayed from `bits` and `e`, set the extremum of
/// the grid at that step: the tightest cluster when `value` is false, the
/// largest void when true.
pub open spec fn step_picks_extremum(
    bits: Seq<bool>,
    e: Seq<int>,
    weights: Seq<u32>,
    w: int,
    h: int,
    n: int,
    order: Seq<int>,
    value: bool,
    t: int,
) -> bool {
    extremum_at(
        replay_bits(bits, order, value, t),
        replay_energy(e, weights, w, h, order, value, t),
        n,
        !value,
        order[t],
    )
}

proof fn lemma_replay_prefix(
    bits: Seq<bool>,
    e: Seq<int>,
    weights: Seq<u32>,
    w: int,
    h: int,
    order: Seq<int>,
    x: int,
    value: bool,
    t: int,
)
    requires
        0 <= t <= order.len(),
    ensures
        replay_bits(bits, order.push(x), value, t) == replay_bits(bits, order, value, t),
        replay_energy(e, weights, w, h, order.push(x), value, t) == replay_energy(e, weights, w, h, order, value, t),
    decreases t,
{
    if t > 0 {
        lemma_replay_prefix(bits, e, weights, w, h, order, x, value, t - 1);
    }
}

/// Cell `k` of the first `n` holds `cluster`, no such cell is more extreme
/// (higher energy for a cluster, lower for a void), and every earlier one is
/// less so.
pub open spec fn extremum_at(bits: Seq<bool>, energy: Seq<int>, n: int, cluster: bool, k: int) -> bool {
    &&& 0 <= k < n
    &&& bits[k] == cluster
    &&& forall|i: int|
        0 <= i < n && #[trigger] bits[i] == cluster ==> if cluster {
            energy[i] <= energy[k]
        } else {
            energy[i] >= energy[k]
        }
    &&& forall|i: int|
        0 <= i < k && #[trigger] bits[i] == cluster ==> if cluster {
            energy[i] < energy[k]
        } else {
            energy[i] > energy[k]
        }
}

/// Generator state: the membership grid, its energy field and the rank table.
///
/// Energies are exact integer sums of table weights, so an update never drifts.
/// The ghost flag `on_view` says which cells the field counts: with it set,
/// `energy[j]` is the sum of the weights of the "on" cells felt at `j`; with it
/// clear, the negated sum over the "off" cells.
pub struct BlueNoise {
    width: usize,
    height: usize,
    pattern: Bits,
    pattern_iterations: Vec<Bits>,
    should_capture_iterations: bool,
    lut: Vec<i128>,
    weights: Vec<u32>,
    ranks: Vec<usize>,
    noise: Vec<u8>,
    on_view: Ghost<bool>,
    touched: Ghost<Seq<int>>,
    seed: Ghost<Seq<bool>>,
}

impl BlueNoise {
    pub closed spec fn grid_width(&self) -> int {
        self.width as int
    }

    pub closed spec fn grid_height(&self) -> int {
        self.height as int
    }

    pub open spec fn cells(&self) -> int {
        self.grid_width() * self.grid_height()
    }

    pub closed spec fn bits(&self) -> Seq<bool> {
        self.pattern@
    }

    pub closed spec fn energy(&self) -> Seq<int> {
        self.lut@.map_values(|v: i128| v as int)
    }

    pub closed spec fn kernel_weights(&self) -> Seq<u32> {
        self.weights@
    }

    pub closed spec fn rank_table(&self) -> Seq<usize> {
        self.ranks@
    }

    pub closed spec fn bytes(&self) -> Seq<u8> {
        self.noise@
    }

    pub closed spec fn snapshots(&self) -> Seq<Seq<bool>> {
        self.pattern_iterations@.map_values(|b: Bits| b@)
    }

    pub closed spec fn captures(&self) -> bool {
        self.should_capture_iterations
    }

    /// The membership grid as the seed left it.
    pub closed spec fn seed_pattern(&self) -> Seq<bool> {
        self.seed@
    }

    /// The recorded phase order and seed agree with `o`.
    pub open spec fn aux_same(&self, o: BlueNoise) -> bool {
        &&& self.phase_order() == o.phase_order()
        &&& self.seed_pattern() == o.seed_pattern()
    }

    /// The cells that the latest ranking phase turned off or on, in order.
    pub closed spec fn phase_order(&self) -> Seq<int> {
        self.touched@
    }

    /// Whether the field counts the "on" cells (else the "off" cells, negated).
    pub closed spec fn on_view(&self) -> bool {
        self.on_view@
    }

    /// The weight between cells `a` and `b` of this grid.
    pub open spec fn w(&self, a: int, b: int) -> int {
        weight(self.kernel_weights(), self.grid_width(), self.grid_height(), a, b)
    }

    /// The energy that the field should hold at cell `j`, for the given view.
    pub open spec fn field_at(&self, view_on: bool, j: int) -> int {
        if view_on {
            field(self.bits(), true, self.kernel_weights(), self.grid_width(), self.grid_height(), j)
        } else {
            -field(self.bits(), false, self.kernel_weights(), self.grid_width(), self.grid_height(), j)
        }
    }

    /// Well-formedness: sizes agree, and the field is the exact sum for its view.
    pub open spec fn wf(&self) -> bool {
        &&& self.shape()
        &&& forall|j: int|
            0 <= j < self.cells() ==> #[trigger] self.energy()[j] == self.field_at(self.on_view(), j)
    }

    /// Every energy leaves room for one more weight either way.
    pub open spec fn energy_in_range(&self) -> bool {
        forall|j: int| 0 <= j < self.cells() ==> -energy_room() <= #[trigger] self.energy()[j] <= energy_room()
    }

    /// The sizes agree: one bit, energy, rank and byte per cell, and a weight
    /// for every squared distance.
    pub open spec fn shape(&self) -> bool {
        &&& self.grid_width() > 0
        &&& self.grid_height() > 0
        &&& self.cells() <= usize::MAX
        &&& self.bits().len() == self.cells()
        &&& self.energy().len() == self.cells()
        &&& self.rank_table().len() == self.cells()
        &&& self.bytes().len() == self.cells()
        &&& self.kernel_weights().len() > max_dist_sq(self.grid_width(), self.grid_height())
    }

    /// Every cell off, every energy, rank and byte zero, no snapshot taken.
    pub open spec fn fresh(&self) -> bool {
        &&& self.on_view()
        &&& forall|j: int| 0 <= j < self.cells() ==> !#[trigger] self.bits()[j]
        &&& forall|j: int| 0 <= j < self.cells() ==> #[trigger] self.energy()[j] == 0
        &&& forall|j: int| 0 <= j < self.cells() ==> #[trigger] self.rank_table()[j] == 0
        &&& forall|j: int| 0 <= j < self.cells() ==> #[trigger] self.bytes()[j] == 0
        &&& self.snapshots().len() == 0
    }

    /// A generator for a `width` by `height` grid with all cells off.
    ///
    /// `weights[d]` is the fixed-point kernel weight at squared toroidal
    /// distance `d`; it must cover every squared distance the grid has.
    pub fn new(width: usize, height: usize, should_capture_iterations: bool, weights: Vec<u32>) -> (r: Result<BlueNoise, NoiseError>)
        ensures
            r == Err::<BlueNoise, NoiseError>(NoiseError::InvalidDimension) <==> (width == 0 || height == 0 || width * height > usize::MAX),
            r == Err::<BlueNoise, NoiseError>(NoiseError::WeightTableTooShort) <==> (width > 0 && height > 0 && width * height <= usize::MAX && weights@.len() <= max_dist_sq(width as int, height as int)),
            r is Err ==> (r == Err::<BlueNoise, NoiseError>(NoiseError::InvalidDimension) || r == Err::<BlueNoise, NoiseError>(NoiseError::WeightTableTooShort)),
            r matches Ok(b) ==> {
                &&& b.wf()
                &&& b.fresh()
                &&& b.grid_width() == width
                &&& b.grid_height() == height
                &&& b.kernel_weights() == weights@
                &&& b.captures() == should_capture_iterations
            },
    {
        if width == 0 || height == 0 {
            return Err(NoiseError::InvalidDimension);
        }
        let len = match width.checked_mul(height) {
            Some(len) => len,
            None => return Err(NoiseError::InvalidDimension),
        };
        let hw = (width / 2) as u128;
        let hh = (height / 2) as u128;
        proof {
            assert(hw * hw <= 0x4000_0000_0000_0000_0000_0000_0000_0000) by (nonlinear_arith)
                requires hw <= 0x7fff_ffff_ffff_ffff;
            assert(hh * hh <= 0x4000_0000_0000_0000_0000_0000_0000_0000) by (nonlinear_arith)
                requires hh <= 0x7fff_ffff_ffff_ffff;
        }
        if (weights.len() as u128) <= hw * hw + hh * hh {
            return Err(NoiseError::WeightTableTooShort);
        }
        let b = BlueNoise {
            width,
            height,
            pattern: Bits::zeros(len),
            pattern_iterations: Vec::new(),
            should_capture_iterations,
            lut: vec![0i128; len],
            weights,
            ranks: vec![0usize; len],
            noise: vec![0u8; len],
            on_view: Ghost(true),
            touched: Ghost(Seq::empty()),
            seed: Ghost(Seq::empty()),
        };
        proof {
            assert forall|j: int| 0 <= j < b.cells() implies #[trigger] b.energy()[j] == b.field_at(true, j) by {
                lemma_masked_sum_zero(b.bits(), true, row(b.kernel_weights(), b.grid_width(), b.grid_height(), j), len as int);
            }
        }
        Ok(b)
    }

    /// Every stored energy lies within the bound that keeps updates in range.
    proof fn lemma_energy_in_bound(&self)
        requires
            self.wf(),
        ensures
            forall|j: int|
                0 <= j < self.cells() ==> -energy_bound(self.cells()) <= #[trigger] self.lut@[j]
                    <= energy_bound(self.cells()),
            self.energy_in_range(),
    {
        lemma_energy_bound(self.cells());
        assert forall|j: int| 0 <= j < self.cells() implies -energy_bound(self.cells())
            <= #[trigger] self.lut@[j] <= energy_bound(self.cells()) by {
            let f = row(self.kernel_weights(), self.grid_width(), self.grid_height(), j);
            lemma_masked_sum_bounds(self.bits(), self.on_view(), f, self.cells(), 0xffff_ffff);
            assert(self.energy()[j] == self.lut@[j] as int);
        }
    }

    /// Sets cell `index` to `value` and adds (`value` true) or subtracts the
    /// weight it exerts on every cell to that cell's energy, whatever the cell
    /// held before. Writing a value the cell already holds thus still shifts
    /// the field; only a change of value keeps it the exact sum over the
    /// counted cells.
    pub fn write_pattern_value(&mut self, index: usize, value: bool)
        requires
            old(self).shape(),
            old(self).energy_in_range(),
            index < old(self).cells(),
        ensures
            final(self).shape(),
            final(self).bits() == old(self).bits().update(index as int, value),
            final(self).energy() == toggle_energy(
                old(self).energy(),
                old(self).kernel_weights(),
                old(self).grid_width(),
                old(self).grid_height(),
                index as int,
                value,
            ),
            old(self).wf() && value != old(self).bits()[index as int] ==> final(self).wf(),
            final(self).same_frame(*old(self)),
            final(self).rank_table() == old(self).rank_table(),
            final(self).bytes() == old(self).bytes(),
            final(self).snapshots() == old(self).snapshots(),
            final(self).aux_same(*old(self)),
    {
        proof {
            assert forall|j: int| 0 <= j < self.lut@.len() implies -energy_room() <= #[trigger] self.lut@[j]
                <= energy_room() by {
                assert(self.energy()[j] == self.lut@[j] as int);
            }
        }
        self.pattern.set(index, value);
        add_contribution(&mut self.lut, &self.weights, self.width, self.height, index, value);
        proof {
            let ghost o = *old(self);
            let ghost n = self.cells();
            assert(self.energy() =~= toggle_energy(o.energy(), o.kernel_weights(), o.grid_width(), o.grid_height(), index as int, value));
            if o.wf() && value != o.bits()[index as int] {
                assert forall|j: int| 0 <= j < n implies #[trigger] self.energy()[j] == self.field_at(self.on_view(), j) by {
                    let f = row(self.kernel_weights(), self.grid_width(), self.grid_height(), j);
                    lemma_masked_sum_update(o.bits(), true, f, n, index as int, value);
                    lemma_masked_sum_update(o.bits(), false, f, n, index as int, value);
                    lemma_weight_symmetric(self.kernel_weights(), self.grid_width(), self.grid_height(), j, index as int);
                    assert(o.energy()[j] == o.field_at(o.on_view(), j));
                }
            }
        }
    }

    /// Changes the value of cell `index`, keeping the field exact.
    fn toggle(&mut self, index: usize, value: bool)
        requires
            old(self).wf(),
            index < old(self).cells(),
            value != old(self).bits()[index as int],
        ensures
            final(self).wf(),
            final(self).bits() == old(self).bits().update(index as int, value),
            final(self).energy() == toggle_energy(
                old(self).energy(),
                old(self).kernel_weights(),
                old(self).grid_width(),
                old(self).grid_height(),
                index as int,
                value,
            ),
            final(self).same_frame(*old(self)),
            final(self).rank_table() == old(self).rank_table(),
            final(self).bytes() == old(self).bytes(),
            final(self).snapshots() == old(self).snapshots(),
            final(self).aux_same(*old(self)),
    {
        proof {
            self.lemma_energy_in_bound();
            lemma_energy_bound(self.cells());
        }
        self.write_pattern_value(index, value);
    }

    /// Cell `k` holds `cluster`, no such cell is more extreme (higher energy
    /// for a cluster, lower for a void), and every earlier one is less so.
    pub open spec fn is_extremum(&self, cluster: bool, k: int) -> bool {
        extremum_at(self.bits(), self.energy(), self.cells(), cluster, k)
    }

    /// A cell is the tightest cluster and, once turned off, the largest void:
    /// the swap step would turn the same cell off and on again.
    pub open spec fn is_stable(&self) -> bool {
        exists|c: int|
            self.is_extremum(true, c) && #[trigger] extremum_at(
                self.bits().update(c, false),
                toggle_energy(self.energy(), self.kernel_weights(), self.grid_width(), self.grid_height(), c, false),
                self.cells(),
                false,
                c,
            )
    }

    /// The first cell in row-major order among those holding `cluster` with
    /// the highest energy (`cluster` true) or the lowest; `None` when no cell
    /// holds `cluster`.
    fn find_lut_winner(&self, cluster: bool) -> (r: Option<usize>)
        requires
            self.wf(),
        ensures
            r is None <==> forall|i: int| 0 <= i < self.cells() ==> #[trigger] self.bits()[i] != cluster,
            r matches Some(k) ==> self.is_extremum(cluster, k as int),
    {
        let n = self.lut.len();
        let mut best: Option<usize> = None;
        let mut i: usize = 0;
        while i < n
            invariant
                self.wf(),
                n == self.cells(),
                0 <= i <= n,
                best is None <==> forall|j: int| 0 <= j < i ==> #[trigger] self.bits()[j] != cluster,
                best matches Some(k) ==> {
                    &&& 0 <= k < i
                    &&& self.bits()[k as int] == cluster
                    &&& forall|j: int|
                        0 <= j < i && #[trigger] self.bits()[j] == cluster ==> if cluster {
                            self.energy()[j] <= self.energy()[k as int]
                        } else {
                            self.energy()[j] >= self.energy()[k as int]
                        }
                    &&& forall|j: int|
                        0 <= j < k && #[trigger] self.bits()[j] == cluster ==> if cluster {
                            self.energy()[j] < self.energy()[k as int]
                        } else {
                            self.energy()[j] > self.energy()[k as int]
                        }
                },
            decreases n - i,
        {
            if self.pattern.get(i) == cluster {
                let energy = self.lut[i];
                let better = match best {
                    None => true,
                    Some(k) => if cluster { energy > self.lut[k] } else { energy < self.lut[k] },
                };
                if better {
                    best = Some(i);
                }
            }
            i += 1;
        }
        best
    }

    /// The tightest cluster: the first "on" cell of highest energy.
    pub fn find_tightest_cluster(&self) -> (r: Option<usize>)
        requires
            self.wf(),
        ensures
            r is None <==> forall|i: int| 0 <= i < self.cells() ==> !#[trigger] self.bits()[i],
            r matches Some(k) ==> self.is_extremum(true, k as int),
    {
        self.find_lut_winner(true)
    }

    /// The largest void: the first "off" cell of lowest energy.
    pub fn find_largest_void(&self) -> (r: Option<usize>)
        requires
            self.wf(),
        ensures
            r is None <==> forall|i: int| 0 <= i < self.cells() ==> #[trigger] self.bits()[i],
            r matches Some(k) ==> self.is_extremum(false, k as int),
    {
        self.find_lut_winner(false)
    }

    /// Recomputes every energy from scratch, counting the cells whose bit is
    /// `write_ones`: the weights of the "on" cells, or the negated weights of
    /// the "off" cells.
    pub fn make_lut(&mut self, write_ones: bool)
        requires
            old(self).wf(),
        ensures
            final(self).wf(),
            final(self).on_view() == write_ones,
            final(self).bits() == old(self).bits(),
            final(self).grid_width() == old(self).grid_width(),
            final(self).grid_height() == old(self).grid_height(),
            final(self).kernel_weights() == old(self).kernel_weights(),
            final(self).captures() == old(self).captures(),
            final(self).rank_table() == old(self).rank_table(),
            final(self).bytes() == old(self).bytes(),
            final(self).snapshots() == old(self).snapshots(),
            final(self).aux_same(*old(self)),
    {
        let n = self.lut.len();
        let mut i: usize = 0;
        while i < n
            invariant
                0 <= i <= n,
                self.width == old(self).width,
                self.height == old(self).height,
                self.weights == old(self).weights,
                self.pattern == old(self).pattern,
                self.ranks == old(self).ranks,
                self.noise == old(self).noise,
                self.pattern_iterations == old(self).pattern_iterations,
                self.should_capture_iterations == old(self).should_capture_iterations,
                self.touched == old(self).touched,
                self.seed == old(self).seed,
                old(self).wf(),
                n == old(self).cells(),
                self.lut@.len() == n,
                forall|j: int| 0 <= j < i ==> #[trigger] self.lut@[j] == 0,
            decreases n - i,
        {
            self.lut.set(i, 0);
            i += 1;
        }
        let ghost w = self.grid_width();
        let ghost h = self.grid_height();
        let ghost ws = self.kernel_weights();
        let mut i: usize = 0;
        while i < n
            invariant
                0 <= i <= n,
                n == w * h,
                w > 0,
                h > 0,
                w == self.width,
                h == self.height,
                ws == self.weights@,
                self.width == old(self).width,
                self.height == old(self).height,
                self.weights == old(self).weights,
                self.pattern == old(self).pattern,
                self.ranks == old(self).ranks,
                self.noise == old(self).noise,
                self.pattern_iterations == old(self).pattern_iterations,
                self.should_capture_iterations == old(self).should_capture_iterations,
                self.touched == old(self).touched,
                self.seed == old(self).seed,
                old(self).wf(),
                ws.len() > max_dist_sq(w, h),
                self.lut@.len() == n,
                self.pattern@.len() == n,
                forall|j: int|
                    0 <= j < n ==> #[trigger] self.lut@[j] == if write_ones {
                        masked_sum(self.pattern@, true, row(ws, w, h, j), i as int)
                    } else {
                        -masked_sum(self.pattern@, false, row(ws, w, h, j), i as int)
                    },
            decreases n - i,
        {
            proof {
                lemma_energy_bound(n as int);
                assert forall|j: int| 0 <= j < n implies -energy_bound(n as int) <= #[trigger] self.lut@[j]
                    <= energy_bound(n as int) by {
                    lemma_masked_sum_bounds(self.pattern@, write_ones, row(ws, w, h, j), i as int, 0xffff_ffff);
                    assert(i * 0xffff_ffff <= n * 0xffff_ffff) by (nonlinear_arith)
                        requires i <= n;
                }
            }
            if self.pattern.get(i) == write_ones {
                add_contribution(&mut self.lut, &self.weights, self.width, self.height, i, write_ones);
                proof {
                    assert forall|j: int| 0 <= j < n implies #[trigger] self.lut@[j] == if write_ones {
                        masked_sum(self.pattern@, true, row(ws, w, h, j), i + 1)
                    } else {
                        -masked_sum(self.pattern@, false, row(ws, w, h, j), i + 1)
                    } by {
                        lemma_weight_symmetric(ws, w, h, j, i as int);
                    }
                }
            }
            i += 1;
        }
        self.on_view = Ghost(write_ones);
        proof {
            assert forall|j: int| 0 <= j < self.cells() implies #[trigger] self.energy()[j] == self.field_at(self.on_view(), j) by {
            }
        }
    }

    /// The snapshots of `o`, with the current grid added when capturing.
    pub open spec fn snapshot_added(&self, o: BlueNoise) -> bool {
        self.snapshots() == if o.captures() {
            o.snapshots().push(self.bits())
        } else {
            o.snapshots()
        }
    }

    fn capture(&mut self)
        requires
            old(self).wf(),
        ensures
            final(self).wf(),
            final(self).same_frame(*old(self)),
            final(self).bits() == old(self).bits(),
            final(self).energy() == old(self).energy(),
            final(self).rank_table() == old(self).rank_table(),
            final(self).bytes() == old(self).bytes(),
            final(self).snapshot_added(*old(self)),
            final(self).aux_same(*old(self)),
    {
        if self.should_capture_iterations {
            let snapshot = self.pattern.copy();
            self.pattern_iterations.push(snapshot);
            proof {
                assert(self.snapshots() =~= old(self).snapshots().push(self.bits()));
            }
        }
    }

    /// Turns on the cells that the first `len / 10` draws pick, each draw
    /// reduced modulo the number of cells; a cell drawn twice is turned on once.
    fn make_seed(&mut self, draws: &Vec<u32>)
        requires
            old(self).wf(),
            old(self).on_view(),
            forall|j: int| 0 <= j < old(self).cells() ==> !#[trigger] old(self).bits()[j],
            draws@.len() == old(self).cells() / 10,
        ensures
            final(self).wf(),
            final(self).same_frame(*old(self)),
            final(self).bits() == seeded(draws@, old(self).cells(), draws@.len() as int),
            final(self).rank_table() == old(self).rank_table(),
            final(self).bytes() == old(self).bytes(),
            final(self).snapshot_added(*old(self)),
            final(self).seed_pattern() == final(self).bits(),
            final(self).phase_order() == old(self).phase_order(),
    {
        let n = self.lut.len();
        let count = draws.len();
        let mut k: usize = 0;
        proof {
            assert(self.bits() =~= seeded(draws@, n as int, 0));
            lemma_cells_positive(self.grid_width(), self.grid_height());
        }
        while k < count
            invariant
                0 <= k <= count,
                count == draws@.len(),
                n == self.cells(),
                n > 0,
                self.wf(),
                self.same_frame(*old(self)),
                self.bits() == seeded(draws@, n as int, k as int),
                self.rank_table() == old(self).rank_table(),
                self.bytes() == old(self).bytes(),
                self.snapshots() == old(self).snapshots(),
                self.aux_same(*old(self)),
            decreases count - k,
        {
            let index = draws[k] as usize % n;
            if !self.pattern.get(index) {
                self.toggle(index, true);
            }
            proof {
                assert(self.bits() =~= seeded(draws@, n as int, k + 1));
            }
            k += 1;
        }
        self.seed = Ghost(self.bits());
        self.capture();
    }

    /// The sum of the energies of the "on" cells.
    pub open spec fn pair_energy(&self) -> int {
        masked_sum(self.bits(), true, |i: int| self.energy()[i], self.cells())
    }

    /// The sum of the indices of the "on" cells.
    pub open spec fn index_sum(&self) -> int {
        masked_sum(self.bits(), true, |i: int| i, self.cells())
    }

    proof fn lemma_measures_nonneg(&self)
        requires
            self.wf(),
            self.on_view(),
        ensures
            self.pair_energy() >= 0,
            self.index_sum() >= 0,
    {
        let n = self.cells();
        assert forall|i: int| 0 <= i < n implies 0 <= #[trigger] self.energy()[i] <= energy_bound(n) by {
            let f = row(self.kernel_weights(), self.grid_width(), self.grid_height(), i);
            lemma_masked_sum_bounds(self.bits(), true, f, n, 0xffff_ffff);
        }
        lemma_masked_sum_bounds(self.bits(), true, |i: int| self.energy()[i], n, energy_bound(n));
        lemma_masked_sum_bounds(self.bits(), true, |i: int| i, n, n);
    }

    /// How one toggle, with the field counting "on" cells, moves the two
    /// measures: the energy sum by the energy at the cell before and after,
    /// the index sum by the cell's index.
    proof fn lemma_toggle_measures(o: BlueNoise, s: BlueNoise, c: int, value: bool)
        requires
            o.wf(),
            s.wf(),
            o.on_view(),
            s.same_frame(o),
            0 <= c < o.cells(),
            value != o.bits()[c],
            s.bits() == o.bits().update(c, value),
            s.energy() == toggle_energy(o.energy(), o.kernel_weights(), o.grid_width(), o.grid_height(), c, value),
        ensures
            s.pair_energy() == o.pair_energy() + if value {
                o.energy()[c] + s.energy()[c]
            } else {
                -(o.energy()[c] + s.energy()[c])
            },
            s.index_sum() == o.index_sum() + if value { c } else { -c },
    {
        let n = o.cells();
        let fo = |i: int| o.energy()[i];
        let fs = |i: int| s.energy()[i];
        let g = row(o.kernel_weights(), o.grid_width(), o.grid_height(), c);
        lemma_masked_sum_update(o.bits(), true, fo, n, c, value);
        lemma_masked_sum_update(o.bits(), true, |i: int| i, n, c, value);
        assert(s.energy()[c] == s.field_at(true, c));
        if value {
            lemma_masked_sum_sub(s.bits(), true, fs, g, fo, n);
        } else {
            lemma_masked_sum_sub(s.bits(), true, fo, g, fs, n);
        }
    }

    /// Repeatedly turns the tightest cluster off and the largest void on,
    /// until both pick the same cell. Fails when no cell is on to start with.
    fn make_initial_pattern(&mut self) -> (r: Result<(), NoiseError>)
        requires
            old(self).wf(),
            old(self).on_view(),
        ensures
            r is Err <==> forall|j: int| 0 <= j < old(self).cells() ==> !#[trigger] old(self).bits()[j],
            r is Err ==> r == Err::<(), NoiseError>(NoiseError::InvariantViolation),
            final(self).wf(),
            final(self).same_frame(*old(self)),
            count_true(final(self).bits()) == count_true(old(self).bits()),
            r is Ok ==> final(self).is_stable(),
            final(self).rank_table() == old(self).rank_table(),
            final(self).bytes() == old(self).bytes(),
            !old(self).captures() ==> final(self).snapshots() == old(self).snapshots(),
            final(self).aux_same(*old(self)),
            final(self).snapshots().len() >= old(self).snapshots().len(),
            forall|k: int|
                0 <= k < old(self).snapshots().len() ==> #[trigger] final(self).snapshots()[k] == old(self).snapshots()[k],
            old(self).captures() && r is Ok ==> final(self).snapshots().len() > old(self).snapshots().len()
                && final(self).snapshots().last() == final(self).bits(),
    {
        proof {
            lemma_count_bounds(old(self).bits());
        }
        loop
            invariant
                self.aux_same(*old(self)),
                self.snapshots().len() >= old(self).snapshots().len(),
                forall|k: int|
                    0 <= k < old(self).snapshots().len() ==> #[trigger] self.snapshots()[k] == old(self).snapshots()[k],
                self.wf(),
                self.same_frame(*old(self)),
                old(self).on_view(),
                old(self).wf(),
                count_true(self.bits()) == count_true(old(self).bits()),
                self.rank_table() == old(self).rank_table(),
                self.bytes() == old(self).bytes(),
                !old(self).captures() ==> self.snapshots() == old(self).snapshots(),
            ensures
                count_true(old(self).bits()) > 0,
                self.is_stable(),
                old(self).captures() ==> self.snapshots().len() > old(self).snapshots().len()
                    && self.snapshots().last() == self.bits(),
            decreases self.pair_energy(), self.index_sum(),
        {
            let c = match self.find_tightest_cluster() {
                Some(c) => c,
                None => {
                    proof {
                        lemma_count_bounds(self.bits());
                        lemma_count_bounds(old(self).bits());
                    }
                    return Err(NoiseError::InvariantViolation);
                },
            };
            let ghost s0 = *self;
            proof {
                s0.lemma_measures_nonneg();
                lemma_count_update(self.bits(), c as int, false);
            }
            self.toggle(c, false);
            let ghost s1 = *self;
            proof {
                BlueNoise::lemma_toggle_measures(s0, s1, c as int, false);
            }
            let v = match self.find_largest_void() {
                Some(v) => v,
                None => {
                    assert(!self.bits()[c as int]);
                    return Err(NoiseError::InvariantViolation);
                },
            };
            proof {
                lemma_count_update(self.bits(), v as int, true);
                lemma_count_bounds(s0.bits());
            }
            self.toggle(v, true);
            proof {
                let s2 = *self;
                BlueNoise::lemma_toggle_measures(s1, s2, v as int, true);
                s2.lemma_measures_nonneg();
                lemma_dist_sq_bounds(c as int, c as int, s0.grid_width(), s0.grid_height());
                lemma_dist_sq_bounds(v as int, v as int, s0.grid_width(), s0.grid_height());
                assert(s0.bits()[c as int]);
                assert(s1.energy()[c as int] == s0.energy()[c as int] - s0.w(c as int, c as int));
                assert(s2.energy()[v as int] == s1.energy()[v as int] + s0.w(v as int, v as int));
                assert(!s1.bits()[c as int]);
                assert(s1.energy()[c as int] >= s1.energy()[v as int]);
                if v != c && s1.energy()[c as int] == s1.energy()[v as int] {
                    assert(v < c);
                }
            }
            self.capture();
            if v == c {
                proof {
                    let s2 = *self;
                    assert(s2.bits() =~= s0.bits());
                    assert(s2.energy() =~= s0.energy());
                    assert(extremum_at(
                        s2.bits().update(c as int, false),
                        toggle_energy(s2.energy(), s2.kernel_weights(), s2.grid_width(), s2.grid_height(), c as int, false),
                        s2.cells(),
                        false,
                        c as int,
                    ));
                }
                break;
            }
        }
        Ok(())
    }

    /// Step `t` of `order`, started from `o`, set the extremum of the grid at
    /// that step (cluster when `value` is false, void when true).
    pub open spec fn pick_ok(o: BlueNoise, order: Seq<int>, value: bool, t: int) -> bool {
        step_picks_extremum(
            o.bits(),
            o.energy(),
            o.kernel_weights(),
            o.grid_width(),
            o.grid_height(),
            o.cells(),
            order,
            value,
            t,
        )
    }

    /// The latest phase went from `o` to `self` by setting the cells of
    /// `phase_order()` to `value` one at a time, each one, when it was picked,
    /// the extremum of the grid at that step: the tightest cluster when
    /// turning cells off, the largest void when turning them on.
    pub open spec fn follows_extrema(&self, o: BlueNoise, value: bool) -> bool {
        let order = self.phase_order();
        &&& forall|t: int|
            0 <= t < order.len() ==> #[trigger] BlueNoise::pick_ok(o, order, value, t)
        &&& self.bits() == replay_bits(o.bits(), order, value, order.len() as int)
        &&& self.energy() == replay_energy(
            o.energy(),
            o.kernel_weights(),
            o.grid_width(),
            o.grid_height(),
            order,
            value,
            order.len() as int,
        )
    }

    /// One more pick keeps the trace: `order` followed from `o` to `s`, and
    /// `c`, the extremum of `s`, is set to `value` to give `s2`.
    proof fn lemma_trace_step(o: BlueNoise, s: BlueNoise, s2: BlueNoise, order: Seq<int>, c: int, value: bool)
        requires
            s.same_frame(o),
            s.cells() == o.cells(),
            forall|t: int|
                0 <= t < order.len() ==> #[trigger] BlueNoise::pick_ok(o, order, value, t),
            s.bits() == replay_bits(o.bits(), order, value, order.len() as int),
            s.energy() == replay_energy(o.energy(), o.kernel_weights(), o.grid_width(), o.grid_height(), order, value, order.len() as int),
            s.is_extremum(!value, c),
            s2.bits() == s.bits().update(c, value),
            s2.energy() == toggle_energy(s.energy(), o.kernel_weights(), o.grid_width(), o.grid_height(), c, value),
        ensures
            forall|t: int|
                0 <= t < order.push(c).len() ==> #[trigger] BlueNoise::pick_ok(o, order.push(c), value, t),
            s2.bits() == replay_bits(o.bits(), order.push(c), value, order.len() as int + 1),
            s2.energy() == replay_energy(o.energy(), o.kernel_weights(), o.grid_width(), o.grid_height(), order.push(c), value, order.len() as int + 1),
    {
        let n = order.len() as int;
        assert forall|t: int| 0 <= t < order.push(c).len() implies #[trigger] BlueNoise::pick_ok(o, order.push(c), value, t) by {
            lemma_replay_prefix(o.bits(), o.energy(), o.kernel_weights(), o.grid_width(), o.grid_height(), order, c, value, t);
            if t < n {
                assert(order.push(c)[t] == order[t]);
                assert(BlueNoise::pick_ok(o, order, value, t));
            } else {
                assert(order.push(c)[t] == c);
                assert(s.is_extremum(!value, c));
            }
        }
        lemma_replay_prefix(o.bits(), o.energy(), o.kernel_weights(), o.grid_width(), o.grid_height(), order, c, value, n);
    }

    /// From `o` to `self` cells were only turned off; each cell turned off has
    /// a rank in `lo..hi`, no two the same; every other rank is as in `o`.
    pub open spec fn ranked_removal(&self, o: BlueNoise, lo: int, hi: int) -> bool {
        &&& forall|i: int| 0 <= i < self.cells() && #[trigger] self.bits()[i] ==> o.bits()[i]
        &&& forall|i: int|
            0 <= i < self.cells() && !(o.bits()[i] && !self.bits()[i]) ==> #[trigger] self.rank_table()[i]
                == o.rank_table()[i]
        &&& forall|i: int|
            0 <= i < self.cells() && o.bits()[i] && !self.bits()[i] ==> lo <= #[trigger] self.rank_table()[i]
                < hi
        &&& forall|i: int, j: int|
            0 <= i < self.cells() && 0 <= j < self.cells() && i != j && o.bits()[i] && !self.bits()[i]
                && o.bits()[j] && !self.bits()[j] ==> #[trigger] self.rank_table()[i]
                != #[trigger] self.rank_table()[j]
    }

    /// From `o` to `self` cells were only turned on; each cell turned on has a
    /// rank in `lo..hi`, no two the same; every other rank is as in `o`.
    pub open spec fn ranked_addition(&self, o: BlueNoise, lo: int, hi: int) -> bool {
        &&& forall|i: int| 0 <= i < self.cells() && #[trigger] o.bits()[i] ==> self.bits()[i]
        &&& forall|i: int|
            0 <= i < self.cells() && !(!o.bits()[i] && self.bits()[i]) ==> #[trigger] self.rank_table()[i]
                == o.rank_table()[i]
        &&& forall|i: int|
            0 <= i < self.cells() && !o.bits()[i] && self.bits()[i] ==> lo <= #[trigger] self.rank_table()[i]
                < hi
        &&& forall|i: int, j: int|
            0 <= i < self.cells() && 0 <= j < self.cells() && i != j && !o.bits()[i] && self.bits()[i]
                && !o.bits()[j] && self.bits()[j] ==> #[trigger] self.rank_table()[i]
                != #[trigger] self.rank_table()[j]
    }

    /// Cluster removal: turns the tightest cluster off until no cell is on,
    /// ranking each removed cell by the number of cells still on after it, so
    /// that ranks count down from one less than the starting count to zero.
    pub fn phase_1(&mut self)
        requires
            old(self).wf(),
            old(self).on_view(),
        ensures
            final(self).wf(),
            final(self).same_frame(*old(self)),
            forall|j: int| 0 <= j < final(self).cells() ==> !#[trigger] final(self).bits()[j],
            final(self).ranked_removal(*old(self), 0, count_true(old(self).bits()) as int),
            final(self).bytes() == old(self).bytes(),
            final(self).snapshots() == old(self).snapshots(),
            final(self).phase_order().len() == count_true(old(self).bits()),
            forall|t: int|
                0 <= t < final(self).phase_order().len() ==> final(self).rank_table()[#[trigger] final(self).phase_order()[t]] == count_true(old(self).bits()) - 1 - t,
            final(self).follows_extrema(*old(self), false),
            final(self).seed_pattern() == old(self).seed_pattern(),
    {
        let mut ones = self.pattern.count_ones();
        let ghost m = ones as int;
        let ghost mut order: Seq<int> = Seq::empty();
        proof {
            lemma_count_bounds(self.bits());
        }
        while ones > 0
            invariant
                self.aux_same(*old(self)),
                forall|t: int| 0 <= t < order.len() ==> #[trigger] BlueNoise::pick_ok(*old(self), order, false, t),
                self.bits() == replay_bits(old(self).bits(), order, false, order.len() as int),
                self.energy() == replay_energy(
                    old(self).energy(),
                    old(self).kernel_weights(),
                    old(self).grid_width(),
                    old(self).grid_height(),
                    order,
                    false,
                    order.len() as int,
                ),
                self.wf(),
                self.same_frame(*old(self)),
                old(self).wf(),
                old(self).on_view(),
                ones == count_true(self.bits()),
                m == count_true(old(self).bits()),
                ones <= m,
                self.ranked_removal(*old(self), ones as int, m),
                self.bytes() == old(self).bytes(),
                self.snapshots() == old(self).snapshots(),
                order.len() == m - ones,
                forall|t: int|
                    0 <= t < order.len() ==> 0 <= #[trigger] order[t] < self.cells() && !self.bits()[order[t]]
                        && self.rank_table()[order[t]] == m - 1 - t,
            ensures
                ones == 0,
            decreases ones,
        {
            let c = match self.find_tightest_cluster() {
                Some(c) => c,
                None => {
                    proof {
                        lemma_count_bounds(self.bits());
                        assert(false);
                    }
                    break;
                },
            };
            proof {
                lemma_count_update(self.bits(), c as int, false);
            }
            let ghost before = *self;
            self.toggle(c, false);
            ones -= 1;
            self.ranks.set(c, ones);
            proof {
                BlueNoise::lemma_trace_step(*old(self), before, *self, order, c as int, false);
                order = order.push(c as int);
            }
        }
        self.touched = Ghost(order);
        proof {
            lemma_count_bounds(self.bits());
        }
    }

    /// Void filling to half density: while at most half the cells are on,
    /// turns the largest void on and ranks it by the number of cells on before.
    pub fn phase_2(&mut self)
        requires
            old(self).wf(),
            old(self).on_view(),
        ensures
            final(self).wf(),
            final(self).same_frame(*old(self)),
            count_true(final(self).bits()) == if count_true(old(self).bits()) <= old(self).cells() / 2 {
                old(self).cells() / 2 + 1
            } else {
                count_true(old(self).bits()) as int
            },
            final(self).ranked_addition(
                *old(self),
                count_true(old(self).bits()) as int,
                count_true(final(self).bits()) as int,
            ),
            final(self).bytes() == old(self).bytes(),
            final(self).snapshots() == old(self).snapshots(),
            final(self).phase_order().len() == count_true(final(self).bits()) - count_true(old(self).bits()),
            forall|t: int|
                0 <= t < final(self).phase_order().len() ==> final(self).rank_table()[#[trigger] final(self).phase_order()[t]] == count_true(old(self).bits()) + t,
            final(self).follows_extrema(*old(self), true),
            final(self).seed_pattern() == old(self).seed_pattern(),
    {
        let n = self.lut.len();
        let mut ones = self.pattern.count_ones();
        let ghost m = ones as int;
        let ghost mut order: Seq<int> = Seq::empty();
        proof {
            lemma_count_bounds(self.bits());
            lemma_cells_positive(self.grid_width(), self.grid_height());
        }
        while ones <= n / 2
            invariant
                self.aux_same(*old(self)),
                forall|t: int| 0 <= t < order.len() ==> #[trigger] BlueNoise::pick_ok(*old(self), order, true, t),
                self.bits() == replay_bits(old(self).bits(), order, true, order.len() as int),
                self.energy() == replay_energy(
                    old(self).energy(),
                    old(self).kernel_weights(),
                    old(self).grid_width(),
                    old(self).grid_height(),
                    order,
                    true,
                    order.len() as int,
                ),
                self.wf(),
                self.same_frame(*old(self)),
                old(self).wf(),
                n == self.cells(),
                n > 0,
                ones == count_true(self.bits()),
                m == count_true(old(self).bits()),
                m <= ones,
                m <= n / 2 ==> ones <= n / 2 + 1,
                m > n / 2 ==> ones == m,
                self.ranked_addition(*old(self), m, ones as int),
                self.bytes() == old(self).bytes(),
                self.snapshots() == old(self).snapshots(),
                order.len() == ones - m,
                forall|t: int|
                    0 <= t < order.len() ==> 0 <= #[trigger] order[t] < self.cells() && self.bits()[order[t]]
                        && self.rank_table()[order[t]] == m + t,
            ensures
                ones > n / 2,
            decreases n - ones,
        {
            proof {
                lemma_count_bounds(self.bits());
            }
            let v = match self.find_largest_void() {
                Some(v) => v,
                None => {
                    proof {
                        assert(false);
                    }
                    break;
                },
            };
            proof {
                lemma_count_update(self.bits(), v as int, true);
            }
            let ghost before = *self;
            self.toggle(v, true);
            self.ranks.set(v, ones);
            proof {
                BlueNoise::lemma_trace_step(*old(self), before, *self, order, v as int, true);
                order = order.push(v as int);
            }
            ones += 1;
        }
        self.touched = Ghost(order);
    }

    /// Void filling to completion: while any cell is off, turns the largest
    /// void on and ranks it by the number of cells on before.
    pub fn phase_3(&mut self)
        requires
            old(self).wf(),
            !old(self).on_view(),
        ensures
            final(self).wf(),
            final(self).same_frame(*old(self)),
            forall|j: int| 0 <= j < final(self).cells() ==> #[trigger] final(self).bits()[j],
            final(self).ranked_addition(*old(self), count_true(old(self).bits()) as int, old(self).cells()),
            final(self).bytes() == old(self).bytes(),
            final(self).snapshots() == old(self).snapshots(),
            final(self).phase_order().len() == old(self).cells() - count_true(old(self).bits()),
            forall|t: int|
                0 <= t < final(self).phase_order().len() ==> final(self).rank_table()[#[trigger] final(self).phase_order()[t]] == count_true(old(self).bits()) + t,
            final(self).follows_extrema(*old(self), true),
            final(self).seed_pattern() == old(self).seed_pattern(),
    {
        let n = self.lut.len();
        let mut ones = self.pattern.count_ones();
        let ghost m = ones as int;
        let ghost mut order: Seq<int> = Seq::empty();
        proof {
            lemma_count_bounds(self.bits());
        }
        loop
            invariant
                self.aux_same(*old(self)),
                forall|t: int| 0 <= t < order.len() ==> #[trigger] BlueNoise::pick_ok(*old(self), order, true, t),
                self.bits() == replay_bits(old(self).bits(), order, true, order.len() as int),
                self.energy() == replay_energy(
                    old(self).energy(),
                    old(self).kernel_weights(),
                    old(self).grid_width(),
                    old(self).grid_height(),
                    order,
                    true,
                    order.len() as int,
                ),
                self.wf(),
                self.same_frame(*old(self)),
                old(self).wf(),
                n == self.cells(),
                ones == count_true(self.bits()),
                ones <= n,
                m == count_true(old(self).bits()),
                m <= ones,
                self.ranked_addition(*old(self), m, ones as int),
                self.bytes() == old(self).bytes(),
                self.snapshots() == old(self).snapshots(),
                order.len() == ones - m,
                forall|t: int|
                    0 <= t < order.len() ==> 0 <= #[trigger] order[t] < self.cells() && self.bits()[order[t]]
                        && self.rank_table()[order[t]] == m + t,
            ensures
                forall|j: int| 0 <= j < self.cells() ==> #[trigger] self.bits()[j],
                self.ranked_addition(*old(self), m, n as int),
                order.len() == n - m,
            decreases n - ones,
        {
            let v = match self.find_largest_void() {
                Some(v) => v,
                None => {
                    proof {
                        lemma_count_bounds(self.bits());
                    }
                    break;
                },
            };
            proof {
                lemma_count_update(self.bits(), v as int, true);
                lemma_count_bounds(self.bits());
            }
            let ghost before = *self;
            self.toggle(v, true);
            self.ranks.set(v, ones);
            proof {
                BlueNoise::lemma_trace_step(*old(self), before, *self, order, v as int, true);
                order = order.push(v as int);
            }
            ones += 1;
            proof {
                lemma_count_bounds(self.bits());
            }
        }
        self.touched = Ghost(order);
    }

    /// Writes the grey level of every cell's rank.
    pub fn make_blue_noise(&mut self)
        requires
            old(self).wf(),
            forall|i: int| 0 <= i < old(self).cells() ==> #[trigger] old(self).rank_table()[i] < old(self).cells(),
        ensures
            final(self).wf(),
            final(self).same_frame(*old(self)),
            final(self).bits() == old(self).bits(),
            final(self).rank_table() == old(self).rank_table(),
            final(self).snapshots() == old(self).snapshots(),
            forall|i: int|
                0 <= i < final(self).cells() ==> #[trigger] final(self).bytes()[i] as int == rank_byte(
                    final(self).rank_table()[i] as int,
                    final(self).cells(),
                ),
            final(self).aux_same(*old(self)),
    {
        let n = self.lut.len();
        let mut i: usize = 0;
        while i < n
            invariant
                self.aux_same(*old(self)),
                0 <= i <= n,
                n == self.cells(),
                self.wf(),
                self.same_frame(*old(self)),
                self.bits() == old(self).bits(),
                self.rank_table() == old(self).rank_table(),
                self.snapshots() == old(self).snapshots(),
                forall|k: int| 0 <= k < n ==> #[trigger] self.rank_table()[k] < n,
                forall|k: int|
                    0 <= k < i ==> #[trigger] self.bytes()[k] as int == rank_byte(self.rank_table()[k] as int, n as int),
            decreases n - i,
        {
            let b = encode_rank(self.ranks[i], n);
            self.noise.set(i, b);
            i += 1;
        }
    }

    /// Runs the whole method on a fresh generator: seeds with `draws`, the
    /// first `cells / 10` random numbers (draw `d` turns cell `d % cells` on),
    /// stabilises, ranks every cell in the three phases and writes the grey
    /// levels; at the end every cell is on. When capturing, the grid is
    /// captured after seeding and after each stabilising swap. Fails, with the
    /// grid left seeded, when the seed turns no cell on (fewer than ten cells).
    pub fn init(&mut self, draws: &Vec<u32>) -> (r: Result<(), NoiseError>)
        requires
            old(self).wf(),
            old(self).fresh(),
            draws@.len() == old(self).cells() / 10,
        ensures
            r is Err <==> old(self).cells() < 10,
            r is Err ==> r == Err::<(), NoiseError>(NoiseError::InvariantViolation),
            final(self).wf(),
            final(self).grid_width() == old(self).grid_width(),
            final(self).grid_height() == old(self).grid_height(),
            final(self).kernel_weights() == old(self).kernel_weights(),
            final(self).captures() == old(self).captures(),
            r is Ok ==> is_rank_permutation(final(self).rank_table(), final(self).cells()),
            r is Ok ==> forall|i: int|
                0 <= i < final(self).cells() ==> #[trigger] final(self).bytes()[i] as int == rank_byte(
                    final(self).rank_table()[i] as int,
                    final(self).cells(),
                ),
            final(self).seed_pattern() == seeded(draws@, old(self).cells(), old(self).cells() / 10),
            r is Ok ==> forall|i: int| 0 <= i < final(self).cells() ==> #[trigger] final(self).bits()[i],
            !old(self).captures() ==> final(self).snapshots().len() == 0,
            old(self).captures() ==> final(self).snapshots().len() >= 1 && final(self).snapshots()[0] == seeded(
                draws@,
                old(self).cells(),
                old(self).cells() / 10,
            ),
            old(self).captures() && r is Ok ==> final(self).snapshots().len() >= 2,
    {
        let ghost n = self.cells();
        self.make_seed(draws);
        proof {
            let k = draws@.len() as int;
            if k >= 1 {
                let c = draws@[k - 1] as int % n;
                lemma_cells_positive(old(self).grid_width(), old(self).grid_height());
                lemma_seeded_len(draws@, n, k - 1);
                assert(self.bits()[c]);
            } else {
                assert(self.bits() =~= seeded(draws@, n, 0));
            }
        }
        let stable = self.make_initial_pattern();
        if stable.is_err() {
            return Err(NoiseError::InvariantViolation);
        }
        self.make_lut(true);
        self.phase_1();
        let ghost s1 = *self;
        proof {
            lemma_count_bounds(self.bits());
        }
        self.phase_2();
        let ghost s2 = *self;
        self.make_lut(false);
        let ghost s3 = *self;
        self.phase_3();
        let ghost s4 = *self;
        proof {
            let k = count_true(s2.bits()) as int;
            assert forall|i: int| 0 <= i < n implies #[trigger] s4.rank_table()[i] < n && (s2.bits()[i] ==> s4.rank_table()[i] < k) && (!s2.bits()[i] ==> k <= s4.rank_table()[i]) by {
                assert(!s1.bits()[i]);
            }
            assert forall|i: int, j: int| 0 <= i < n && 0 <= j < n && i != j implies #[trigger] s4.rank_table()[i] != #[trigger] s4.rank_table()[j] by {
                assert(!s1.bits()[i]);
                assert(!s1.bits()[j]);
                assert(s4.bits()[i]);
                assert(s4.bits()[j]);
            }
        }
        self.make_blue_noise();
        Ok(())
    }

    pub fn width(&self) -> (r: usize)
        ensures
            r == self.grid_width(),
    {
        self.width
    }

    pub fn height(&self) -> (r: usize)
        ensures
            r == self.grid_height(),
    {
        self.height
    }

    /// The number of cells.
    pub fn len(&self) -> (r: usize)
        requires
            self.wf(),
        ensures
            r == self.cells(),
    {
        self.lut.len()
    }

    pub fn ranks(&self) -> (r: &Vec<usize>)
        ensures
            r@ == self.rank_table(),
    {
        &self.ranks
    }

    /// The grey levels, one per cell in row-major order.
    pub fn noise(&self) -> (r: &Vec<u8>)
        ensures
            r@ == self.bytes(),
    {
        &self.noise
    }

    pub fn pattern_value(&self, index: usize) -> (r: bool)
        requires
            self.wf(),
            index < self.cells(),
        ensures
            r == self.bits()[index as int],
    {
        self.pattern.get(index)
    }

    pub fn energy_value(&self, index: usize) -> (r: i128)
        requires
            self.wf(),
            index < self.cells(),
        ensures
            r as int == self.energy()[index as int],
    {
        self.lut[index]
    }

    /// The number of membership grids captured so far.
    pub fn pattern_iteration_count(&self) -> (r: usize)
        ensures
            r == self.snapshots().len(),
    {
        self.pattern_iterations.len()
    }

    /// Captured grid `k` as a black and white image: 255 for a cell that is
    /// on, 0 for one that is off.
    pub fn pattern_iteration_image(&self, k: usize) -> (r: Vec<u8>)
        requires
            k < self.snapshots().len(),
        ensures
            r@.len() == self.snapshots()[k as int].len(),
            forall|j: int|
                0 <= j < r@.len() ==> #[trigger] r@[j] == if self.snapshots()[k as int][j] { 255u8 } else { 0u8 },
    {
        let snapshot = &self.pattern_iterations[k];
        let n = snapshot.len();
        let mut image: Vec<u8> = Vec::new();
        let mut j: usize = 0;
        while j < n
            invariant
                0 <= j <= n,
                n == snapshot@.len(),
                snapshot@ == self.snapshots()[k as int],
                image@.len() == j,
                forall|i: int| 0 <= i < j ==> #[trigger] image@[i] == if snapshot@[i] { 255u8 } else { 0u8 },
            decreases n - j,
        {
            if snapshot.get(j) {
                image.push(255);
            } else {
                image.push(0);
            }
            j += 1;
        }
        image
    }

    /// Dimensions, weights, capture flag and view agree with `o`.
    pub open spec fn same_frame(&self, o: BlueNoise) -> bool {
        &&& self.grid_width() == o.grid_width()
        &&& self.grid_height() == o.grid_height()
        &&& self.kernel_weights() == o.kernel_weights()
        &&& self.captures() == o.captures()
        &&& self.on_view() == o.on_view()
    }
}

proof fn lemma_cells_positive(w: int, h: int)
    requires
        w > 0,
        h > 0,
    ensures
        w * h > 0,
{
    assert(w * h > 0) by (nonlinear_arith)
        requires
            w > 0,
            h > 0,
    ;
}

/// A sum over no selected index is zero.
proof fn lemma_masked_sum_zero(pat: Seq<bool>, target: bool, f: spec_fn(int) -> int, k: int)
    requires
        k <= pat.len(),
        forall|i: int| 0 <= i < k ==> #[trigger] pat[i] != target,
    ensures
        masked_sum(pat, target, f, k) == 0,
    decreases k,
{
    if k > 0 {
        lemma_masked_sum_zero(pat, target, f, k - 1);
    }
}

} // verus!
