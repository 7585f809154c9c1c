use qwen_forced_aligner::binary16::widen;
use qwen_forced_aligner::binary32::{argmax, best_position, greater, scale_integer, NEGATIVE_INFINITY};
use qwen_forced_aligner::binary64::seconds;

/// Bit patterns of single-precision numbers: the special ones, and a walk through
/// the others.
fn singles() -> Vec<u32> {
    let mut found: Vec<u32> = vec![
        0, 0x8000_0000, 1, 0x8000_0001, 0x7f_ffff, 0x80_0000, 0x7f7f_ffff, 0xff7f_ffff,
        0x7f80_0000, 0xff80_0000, 0x7fc0_0000, 0xffc0_0001, 0x7f80_0001, 0x42a0_0000, 0x3f80_0000,
        0xbf80_0000, 0x3dcc_cccd, 0x5f00_0000, 0x5eff_ffff, 0xdf00_0000, 0x4b80_0000,
    ];
    let mut seed: u32 = 12345;
    for _ in 0..400 {
        seed = seed.wrapping_mul(1664525).wrapping_add(1013904223);
        found.push(seed);
    }
    found
}

#[test]
fn comparisons_are_those_of_the_machine() {
    let all = singles();
    for &a in &all {
        for &b in &all {
            assert_eq!(greater(a, b), f32::from_bits(a) > f32::from_bits(b), "{:x} {:x}", a, b);
        }
    }
}

#[test]
fn scaled_integers_are_those_of_the_machine() {
    let ids = [
        0i64, 1, 2, 3, 7, 4999, 5000, 209_715, 209_716, 16_777_217, 1 << 40, i64::MAX, -1, -80,
        i64::MIN, (1 << 24) + 1, (1 << 53) + 1,
    ];
    for &id in &ids {
        for &step in &singles() {
            let expected = (id as f32 * f32::from_bits(step)) as i64;
            assert_eq!(scale_integer(id, step), expected, "{} {:x}", id, step);
        }
    }
}

#[test]
fn steps_of_eighty_milliseconds_are_exact() {
    for id in 0..=209_715i64 {
        assert_eq!(scale_integer(id, 0x42a0_0000), 80 * id);
    }
}

#[test]
fn later_steps_are_no_earlier() {
    for &step in &singles() {
        if step < 0x8000_0000 {
            let mut last = 0;
            for id in 0..200 {
                let time = scale_integer(id, step);
                assert!(last <= time);
                last = time;
            }
        }
    }
}

#[test]
fn seconds_are_those_of_the_machine() {
    let mut all: Vec<i64> = vec![
        0, 1, -1, 80, 999, 1000, 1001, 71920, i64::MAX, i64::MIN, (1 << 53) + 1, -(1 << 53) - 1,
    ];
    let mut seed: u64 = 99;
    for _ in 0..2000 {
        seed = seed.wrapping_mul(6364136223846793005).wrapping_add(1442695040888963407);
        all.push((seed as i64) >> (seed % 60));
    }
    for ms in all {
        assert_eq!(seconds(ms), (ms as f64 / 1000.0).to_bits(), "{}", ms);
    }
}

/// The best place of a row, computed in floating point.
fn best_place(row: &[f32]) -> usize {
    let mut best_idx = 0usize;
    let mut best_val = f32::NEG_INFINITY;
    for (i, &v) in row.iter().enumerate() {
        if v > best_val {
            best_idx = i;
            best_val = v;
        }
    }
    let tie_floor = best_val - 1.0 / 256.0;
    row.iter().position(|&v| v >= tie_floor).unwrap_or(best_idx)
}

#[test]
fn best_places_are_those_of_the_machine() {
    let all = singles();
    for n in 0..all.len() {
        let row = &all[n..all.len().min(n + 9)];
        let floats: Vec<f32> = row.iter().map(|&b| f32::from_bits(b)).collect();
        assert_eq!(best_position(row, 0, row.len()), best_place(&floats), "{:x?}", row);
    }
    // Scores that lie close together.
    let mut seed: u32 = 5;
    for _ in 0..2000 {
        let mut floats: Vec<f32> = Vec::new();
        for _ in 0..8 {
            seed = seed.wrapping_mul(1664525).wrapping_add(1013904223);
            floats.push(3.0 + (seed >> 20) as f32 / 131072.0);
        }
        let row: Vec<u32> = floats.iter().map(|v| v.to_bits()).collect();
        assert_eq!(best_position(&row, 0, row.len()), best_place(&floats));
    }
}

#[test]
fn near_ties_go_to_the_first() {
    let row = [1.0f32.to_bits(), 5.0f32.to_bits(), 5.003f32.to_bits(), 4.0f32.to_bits()];
    assert_eq!(best_position(&row, 0, 4), 1);
    let row = [1.0f32.to_bits(), 5.0f32.to_bits(), 5.01f32.to_bits(), 4.0f32.to_bits()];
    assert_eq!(best_position(&row, 0, 4), 2);
    assert_eq!(best_position(&row, 2, 4), 0);
    assert_eq!(best_position(&row, 2, 2), 0);
    let nothing = [0x7fc0_0000, 0x7fc0_0000];
    assert_eq!(best_position(&nothing, 0, 2), 0);
    let low = [0x7fc0_0000, NEGATIVE_INFINITY];
    assert_eq!(best_position(&low, 0, 2), 1);
}

#[test]
fn half_precision_keeps_its_numbers() {
    for b in 0..=u16::MAX {
        let expected = half::f16::from_bits(b).to_f32().to_bits();
        assert_eq!(widen(b), expected, "{:x}", b);
    }
}

#[test]
fn first_of_the_greatest() {
    let bits = |v: &[f32]| v.iter().map(|x| x.to_bits()).collect::<Vec<u32>>();
    assert_eq!(argmax(&[]), 0);
    assert_eq!(argmax(&bits(&[-1.0, 2.5, 2.5, -7.0])), 1);
    assert_eq!(argmax(&bits(&[f32::NEG_INFINITY, f32::NEG_INFINITY])), 0);
    assert_eq!(argmax(&bits(&[-0.0, 0.0])), 0);
    assert_eq!(argmax(&bits(&[1.0, f32::MIN_POSITIVE, f32::INFINITY])), 2);
    let many: Vec<f32> = (0..10000).map(|i| ((i * 7919) % 9973) as f32).collect();
    let best = many.iter().cloned().fold(0.0, f32::max);
    assert_eq!(argmax(&bits(&many)) as usize, many.iter().position(|v| *v == best).unwrap());
}
