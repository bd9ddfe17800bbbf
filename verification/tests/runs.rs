use rowids::bitmap::Bitmap;
use rowids::runs::HoleRuns;

fn runs() -> HoleRuns {
    // span 20: present 0..3, missing 3..7, present 7..8, missing 8..15, present 15..20
    HoleRuns::try_new(20, vec![3, 8], vec![7, 15]).unwrap()
}

#[test]
fn test_counts_and_ranges() {
    let runs = runs();
    assert_eq!(runs.missing_total(), 11);
    assert_eq!(runs.present_len(), 9);
    assert_eq!(
        runs.present_ranges().into_iter().collect::<Vec<_>>(),
        vec![0..3, 7..8, 15..20]
    );
    assert_eq!(
        runs.present_ranges().into_iter().rev().collect::<Vec<_>>(),
        vec![15..20, 7..8, 0..3]
    );
}

#[test]
fn test_position_and_offset_round_trip() {
    let runs = runs();
    let present: Vec<u32> = runs.present_ranges().into_iter().flatten().collect();
    assert_eq!(present, vec![0, 1, 2, 7, 15, 16, 17, 18, 19]);
    for (position, &offset) in present.iter().enumerate() {
        assert_eq!(
            runs.position(offset),
            Some(position as u32),
            "offset {offset}"
        );
        assert_eq!(
            runs.offset_at(position as u32),
            Some(offset),
            "position {position}"
        );
    }
    for missing in [3, 4, 6, 8, 14, 20, 100] {
        assert_eq!(runs.position(missing), None, "offset {missing}");
    }
    assert_eq!(runs.offset_at(9), None);
}

#[test]
fn test_extend_values_crosses_runs() {
    let runs = runs();
    let mut values = Vec::new();
    runs.extend_values(100, 1..7, &mut values);
    assert_eq!(values, vec![101, 102, 107, 115, 116, 117]);
    values.clear();
    runs.extend_values(100, 4..40, &mut values);
    assert_eq!(values, vec![115, 116, 117, 118, 119]);
    values.clear();
    runs.extend_values(100, 9..12, &mut values);
    assert!(values.is_empty());
}

#[test]
fn test_from_bitmap_matches_cleared_bits() {
    for (len, cleared) in [
        (20usize, vec![3, 4, 5, 6, 8, 9, 10, 11, 12, 13, 14]),
        (1, vec![0]),
        (9, vec![]),
        (17, vec![0, 16]),
        (64, (8..56).collect()),
        (70, vec![7, 8, 9, 15, 16, 63, 64, 65, 66, 67, 68, 69]),
    ] {
        let bitmap = Bitmap::new_full_except(len, &cleared);
        let runs = HoleRuns::from_bitmap(&bitmap);
        let missing: Vec<u32> = (0..len as u32)
            .filter(|offset| runs.position(*offset).is_none())
            .collect();
        assert_eq!(
            missing,
            cleared.iter().map(|&c| c as u32).collect::<Vec<_>>(),
            "len {len}"
        );
        assert_eq!(runs.missing_total() as usize, cleared.len());
        // Runs are maximal.
        for pair in runs
            .starts()
            .iter()
            .zip(runs.ends())
            .collect::<Vec<_>>()
            .windows(2)
        {
            assert!(pair[0].1 < pair[1].0);
        }
    }
}

#[test]
fn test_try_new_rejects_malformed_runs() {
    let cases: [(&str, Vec<u32>, Vec<u32>); 5] = [
        ("length mismatch", vec![1], vec![]),
        ("empty run", vec![3], vec![3]),
        ("beyond span", vec![3], vec![21]),
        ("overlapping", vec![3, 5], vec![7, 9]),
        ("adjacent", vec![3, 7], vec![7, 9]),
    ];
    for (name, starts, ends) in cases {
        let error = HoleRuns::try_new(20, starts, ends).unwrap_err();
        assert!(
            error.to_string().contains("RangeWithRuns"),
            "{name}: {}",
            error.to_string()
        );
    }
}
