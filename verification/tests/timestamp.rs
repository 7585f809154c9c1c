use qwen_forced_aligner::timestamp::{fix_timestamp, repair_timestamps};

#[test]
fn fix_timestamp_matches_python_reference() {
    let raw = vec![
        71920, 72240, 72240, 72400, 72400, 72640, 72640, 72880, 72880, 73120, 73120, 73200, 73840,
        74000, 78400, 76960, 78400, 78800,
    ];

    let fixed = fix_timestamp(&raw);
    assert_eq!(
        fixed,
        vec![
            71920, 72240, 72240, 72400, 72400, 72640, 72640, 72880, 72880, 73120, 73120, 73200,
            73840, 74000, 78400, 78400, 78400, 78800,
        ]
    );
    assert_eq!(fixed[14], 78400);
    assert_eq!(fixed[15], 78400);
    assert_eq!(fixed[16], 78400);
    assert_eq!(fixed[17], 78800);
}

#[test]
fn sorted_timestamps_stay() {
    let raw = vec![-80, 0, 0, 80, 160, 160];
    assert_eq!(fix_timestamp(&raw), raw);
    assert_eq!(fix_timestamp(&[7]), vec![7]);
}

#[test]
fn one_or_two_outliers_take_the_nearer_neighbour() {
    assert_eq!(fix_timestamp(&[0, 80, 9000, 160, 240]), vec![0, 80, 80, 160, 240]);
    assert_eq!(
        fix_timestamp(&[0, 80, 160, 9000, 9000, 240, 320, 400]),
        vec![0, 80, 160, 160, 240, 240, 320, 400]
    );
}

#[test]
fn longer_gaps_are_interpolated() {
    assert_eq!(
        fix_timestamp(&[0, 100, 200, 9000, 8000, 7000, 600, 700, 800, 900]),
        vec![0, 100, 200, 300, 400, 500, 600, 700, 800, 900]
    );
    // The steps are truncated to whole milliseconds.
    assert_eq!(
        fix_timestamp(&[0, 1, 2, 90, 80, 70, 5, 6, 7, 8]),
        vec![0, 1, 2, 2, 3, 4, 5, 6, 7, 8]
    );
}

#[test]
fn outliers_at_the_ends_take_their_only_neighbour() {
    assert_eq!(fix_timestamp(&[500, 0, 80, 160]), vec![0, 0, 80, 160]);
    assert_eq!(fix_timestamp(&[0, 80, 160, 20]), vec![0, 80, 160, 160]);
}

#[test]
fn repaired_timestamps_are_sorted_and_stay() {
    let mut seed: u64 = 1;
    for n in 1..40usize {
        let mut raw: Vec<i64> = Vec::new();
        for _ in 0..n {
            seed = seed.wrapping_mul(6364136223846793005).wrapping_add(1442695040888963407);
            raw.push((seed >> 40) as i64 % 5000 * 80);
        }
        let fixed = fix_timestamp(&raw);
        assert_eq!(fixed.len(), n);
        for i in 1..n {
            assert!(fixed[i - 1] <= fixed[i]);
        }
        assert_eq!(fix_timestamp(&fixed), fixed);
    }
}

#[test]
fn repairs_name_their_reasons() {
    let items = repair_timestamps(&[0, 80, 160, 80, 240, 240, 320, 400, 480]);
    assert_eq!(items.len(), 4);
    assert_eq!((items[0].raw_start_time, items[0].raw_end_time), (0, 80));
    assert_eq!((items[0].start_time, items[0].end_time), (0, 80));
    assert_eq!(items[0].repair_reasons, vec!["unchanged"]);
    assert_eq!((items[1].raw_start_time, items[1].raw_end_time), (160, 80));
    assert_eq!((items[1].start_time, items[1].end_time), (160, 160));
    assert_eq!(
        items[1].repair_reasons,
        vec!["inverted_pair_start_clamped_to_end", "timestamp_repaired", "zero_duration"]
    );
    assert_eq!(items[2].repair_reasons, vec!["raw_zero_duration", "zero_duration"]);
    assert_eq!(items[3].repair_reasons, vec!["unchanged"]);
}

#[test]
fn repairs_at_the_largest_exact_times() {
    let top = 1i64 << 52;
    let raw = vec![-top, top, top, top, -top + 8, top];
    let fixed = fix_timestamp(&raw);
    assert!(fixed.windows(2).all(|w| w[0] <= w[1]));
    assert_eq!(fix_timestamp(&fixed), fixed);
}
