use blue_noise::{encode_rank, kernel, weight_table_len, BlueNoise, NoiseError};

const SIGMA: f64 = 1.9;
const SCALE: f64 = 16777216.0;

fn gaussian_weights(width: usize, height: usize) -> Vec<u32> {
    let len = weight_table_len(width, height).unwrap();
    (0..len)
        .map(|d| ((-(d as f64) / (2.0 * SIGMA * SIGMA)).exp() * SCALE).round() as u32)
        .collect()
}

fn generator(width: usize, height: usize, capture: bool) -> BlueNoise {
    BlueNoise::new(width, height, capture, gaussian_weights(width, height)).unwrap()
}

fn draws(count: usize, mut state: u64) -> Vec<u32> {
    let mut out = Vec::new();
    for _ in 0..count {
        state = state.wrapping_mul(6364136223846793005).wrapping_add(1442695040888963407);
        out.push((state >> 33) as u32);
    }
    out
}

fn run(width: usize, height: usize, seed: u64) -> BlueNoise {
    let mut b = generator(width, height, false);
    let d = draws(width * height / 10, seed);
    b.init(&d).unwrap();
    b
}

fn assert_permutation(ranks: &[usize]) {
    let mut seen = vec![false; ranks.len()];
    for &r in ranks {
        assert!(r < ranks.len());
        assert!(!seen[r]);
        seen[r] = true;
    }
    assert!(seen.iter().all(|&s| s));
}

#[test]
fn ranks_are_a_permutation_square() {
    let b = run(8, 8, 1);
    assert_permutation(b.ranks());
}

#[test]
fn ranks_are_a_permutation_rectangular() {
    let b = run(7, 5, 2);
    assert_eq!(b.ranks().len(), 35);
    assert_permutation(b.ranks());
}

#[test]
fn ranks_are_a_permutation_larger() {
    let b = run(16, 16, 3);
    assert_permutation(b.ranks());
}

#[test]
fn kernel_is_symmetric_and_one_on_itself() {
    let w = gaussian_weights(6, 4);
    for a in 0..24 {
        assert_eq!(kernel(a, a, 6, 4, &w), w[0]);
        assert_eq!(w[0], 16777216);
        for b in 0..24 {
            assert_eq!(kernel(a, b, 6, 4, &w), kernel(b, a, 6, 4, &w));
        }
    }
}

#[test]
fn kernel_wraps_around_rows() {
    let w = gaussian_weights(6, 4);
    for y in 0..4 {
        let edge = kernel(y * 6, y * 6 + 5, 6, 4, &w);
        assert_eq!(edge, kernel(y * 6 + 2, y * 6 + 3, 6, 4, &w));
        assert_eq!(edge, w[1]);
    }
    // Two rows apart on a grid four high is two steps either way.
    assert_eq!(kernel(0, 12, 6, 4, &w), w[4]);
    // Three rows apart wraps to one.
    assert_eq!(kernel(0, 18, 6, 4, &w), w[1]);
}

#[test]
fn kernel_falls_off_with_distance() {
    let w = gaussian_weights(8, 8);
    assert!(kernel(0, 1, 8, 8, &w) > kernel(0, 2, 8, 8, &w));
    assert!(kernel(0, 9, 8, 8, &w) < kernel(0, 1, 8, 8, &w));
    assert_eq!(kernel(0, 9, 8, 8, &w), w[2]);
}

#[test]
fn toggle_on_then_off_restores_energy() {
    let mut b = generator(5, 5, false);
    b.write_pattern_value(3, true);
    b.write_pattern_value(17, true);
    let before: Vec<i128> = (0..25).map(|i| b.energy_value(i)).collect();
    b.write_pattern_value(8, true);
    assert_ne!(b.energy_value(8), before[8]);
    b.write_pattern_value(8, false);
    let after: Vec<i128> = (0..25).map(|i| b.energy_value(i)).collect();
    assert_eq!(before, after);
}

#[test]
fn toggle_adds_kernel_to_every_cell() {
    let w = gaussian_weights(4, 3);
    let mut b = generator(4, 3, false);
    b.write_pattern_value(5, true);
    for j in 0..12 {
        assert_eq!(b.energy_value(j), kernel(5, j, 4, 3, &w) as i128);
    }
    assert!(b.pattern_value(5));
    assert!(!b.pattern_value(4));
}

#[test]
fn identical_draws_give_identical_output() {
    let a = run(12, 12, 42);
    let b = run(12, 12, 42);
    assert_eq!(a.noise(), b.noise());
    assert_eq!(a.ranks(), b.ranks());
}

#[test]
fn two_by_two_scenario_step_by_step() {
    let w = gaussian_weights(2, 2);
    let mut b = generator(2, 2, false);
    assert_eq!(b.find_tightest_cluster(), None);
    assert_eq!(b.find_largest_void(), Some(0));
    b.write_pattern_value(0, true);
    assert_eq!(b.energy_value(0), w[0] as i128);
    assert_eq!(b.energy_value(1), w[1] as i128);
    assert_eq!(b.energy_value(2), w[1] as i128);
    assert_eq!(b.energy_value(3), w[2] as i128);
    assert_eq!(b.find_tightest_cluster(), Some(0));
    // Cell 3 is diagonal to cell 0, so it feels the least.
    assert_eq!(b.find_largest_void(), Some(3));
    b.write_pattern_value(0, false);
    for j in 0..4 {
        assert_eq!(b.energy_value(j), 0);
    }
    assert_eq!(b.find_largest_void(), Some(0));
    b.write_pattern_value(0, true);
    b.write_pattern_value(3, true);
    // Cells 1 and 2 tie; the first in row-major order wins.
    assert_eq!(b.energy_value(1), b.energy_value(2));
    assert_eq!(b.find_largest_void(), Some(1));
    assert_eq!(b.find_tightest_cluster(), Some(0));
}

#[test]
fn two_by_two_grid_has_no_seed() {
    let mut b = generator(2, 2, false);
    assert_eq!(b.init(&Vec::new()), Err(NoiseError::InvariantViolation));
}

#[test]
fn nine_cells_fail_ten_succeed() {
    let mut small = generator(3, 3, false);
    assert_eq!(small.init(&Vec::new()), Err(NoiseError::InvariantViolation));
    let mut ok = generator(5, 2, false);
    assert_eq!(ok.init(&vec![7]), Ok(()));
    assert_permutation(ok.ranks());
}

#[test]
fn bytes_are_scaled_ranks() {
    let b = run(10, 10, 5);
    for (r, byte) in b.ranks().iter().zip(b.noise().iter()) {
        assert_eq!(*byte as usize, r * 256 / 100);
    }
}

#[test]
fn power_of_two_bytes_are_evenly_spaced() {
    let b = run(4, 4, 9);
    let mut bytes = b.noise().clone();
    bytes.sort();
    let expected: Vec<u8> = (0..16).map(|k| (k * 16) as u8).collect();
    assert_eq!(bytes, expected);
}

#[test]
fn larger_power_of_two_covers_every_level() {
    let b = run(32, 16, 11);
    let mut counts = [0usize; 256];
    for &byte in b.noise() {
        counts[byte as usize] += 1;
    }
    assert!(counts.iter().all(|&c| c == 2));
}

#[test]
fn encode_rank_values() {
    assert_eq!(encode_rank(0, 4), 0);
    assert_eq!(encode_rank(1, 4), 64);
    assert_eq!(encode_rank(3, 4), 192);
    assert_eq!(encode_rank(99, 100), 253);
    assert_eq!(encode_rank(1023, 1024), 255);
    assert_eq!(encode_rank(5, 3000), 0);
}

#[test]
fn zero_width_is_invalid() {
    assert_eq!(BlueNoise::new(0, 4, false, vec![1; 8]).err(), Some(NoiseError::InvalidDimension));
    assert_eq!(BlueNoise::new(4, 0, false, vec![1; 8]).err(), Some(NoiseError::InvalidDimension));
    assert_eq!(
        BlueNoise::new(usize::MAX, 2, false, vec![1; 8]).err(),
        Some(NoiseError::InvalidDimension)
    );
}

#[test]
fn short_weight_table_is_refused() {
    assert_eq!(weight_table_len(4, 4), Some(9));
    assert_eq!(BlueNoise::new(4, 4, false, vec![1; 8]).err(), Some(NoiseError::WeightTableTooShort));
    assert!(BlueNoise::new(4, 4, false, vec![1; 9]).is_ok());
}

#[test]
fn new_generator_is_blank() {
    let b = generator(3, 5, true);
    assert_eq!(b.width(), 3);
    assert_eq!(b.height(), 5);
    assert_eq!(b.len(), 15);
    assert!(b.ranks().iter().all(|&r| r == 0));
    assert!(b.noise().iter().all(|&v| v == 0));
    assert_eq!(b.pattern_iteration_count(), 0);
    for i in 0..15 {
        assert!(!b.pattern_value(i));
        assert_eq!(b.energy_value(i), 0);
    }
}

#[test]
fn duplicate_seed_draws_keep_a_permutation() {
    let mut b = generator(6, 6, false);
    b.init(&vec![4, 40, 4]).unwrap();
    assert_permutation(b.ranks());
}

#[test]
fn captured_iterations_are_black_and_white() {
    let mut b = generator(5, 4, true);
    b.init(&vec![3, 11]).unwrap();
    let count = b.pattern_iteration_count();
    assert!(count >= 2);
    let first = b.pattern_iteration_image(0);
    assert_eq!(first.len(), 20);
    assert!(first.iter().all(|&v| v == 0 || v == 255));
    assert_eq!(first[3], 255);
    assert_eq!(first[11], 255);
    assert_eq!(first.iter().filter(|&&v| v == 255).count(), 2);
    let last = b.pattern_iteration_image(count - 1);
    assert_eq!(last.iter().filter(|&&v| v == 255).count(), 2);
}

#[test]
fn phases_rank_in_order() {
    let mut b = generator(4, 5, false);
    b.write_pattern_value(2, true);
    b.write_pattern_value(13, true);
    b.write_pattern_value(7, true);
    b.phase_1();
    for i in 0..20 {
        assert!(!b.pattern_value(i));
    }
    let mut low: Vec<usize> = vec![b.ranks()[2], b.ranks()[7], b.ranks()[13]];
    low.sort();
    assert_eq!(low, vec![0, 1, 2]);
    b.phase_2();
    let on: Vec<usize> = (0..20).filter(|&i| b.pattern_value(i)).collect();
    assert_eq!(on.len(), 11);
    let mut ranks: Vec<usize> = on.iter().map(|&i| b.ranks()[i]).collect();
    ranks.sort();
    assert_eq!(ranks, (0..11).collect::<Vec<usize>>());
}

#[test]
fn writing_the_same_value_still_shifts_the_field() {
    let w = gaussian_weights(4, 4);
    let mut b = generator(4, 4, false);
    b.write_pattern_value(9, false);
    assert!(!b.pattern_value(9));
    assert_eq!(b.energy_value(9), -(w[0] as i128));
    assert_eq!(b.energy_value(10), -(w[1] as i128));
    b.write_pattern_value(6, true);
    b.write_pattern_value(6, true);
    assert!(b.pattern_value(6));
    assert_eq!(b.energy_value(6), 2 * w[0] as i128 - kernel(9, 6, 4, 4, &w) as i128);
}

#[test]
fn rebuild_then_fill_every_cell() {
    let mut b = generator(4, 4, false);
    b.write_pattern_value(0, true);
    b.write_pattern_value(10, true);
    b.make_lut(false);
    b.phase_3();
    for i in 0..16 {
        assert!(b.pattern_value(i));
    }
    let mut added: Vec<usize> = (0..16).filter(|&i| i != 0 && i != 10).map(|i| b.ranks()[i]).collect();
    added.sort();
    assert_eq!(added, (2..16).collect::<Vec<usize>>());
}

#[test]
fn rebuild_counts_the_chosen_cells() {
    let w = gaussian_weights(4, 4);
    let mut b = generator(4, 4, false);
    b.write_pattern_value(5, true);
    b.write_pattern_value(5, true);
    b.make_lut(true);
    for j in 0..16 {
        assert_eq!(b.energy_value(j), kernel(5, j, 4, 4, &w) as i128);
    }
    b.make_lut(false);
    let off_sum: i128 = (0..16).filter(|&i| i != 5).map(|i| kernel(i, 0, 4, 4, &w) as i128).sum();
    assert_eq!(b.energy_value(0), -off_sum);
}

#[test]
fn first_removal_is_the_tightest_cluster() {
    let mut b = generator(5, 5, false);
    for &i in &[0usize, 1, 2, 12, 24] {
        b.write_pattern_value(i, true);
    }
    let c = b.find_tightest_cluster().unwrap();
    b.phase_1();
    assert_eq!(b.ranks()[c], 4);
}

#[test]
fn first_addition_is_the_largest_void() {
    let mut b = generator(5, 5, false);
    b.write_pattern_value(0, true);
    b.write_pattern_value(12, true);
    let v = b.find_largest_void().unwrap();
    b.phase_2();
    assert_eq!(b.ranks()[v], 2);
}
