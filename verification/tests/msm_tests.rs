use kzg_msm::group::{GroupElement, g1_generator, g2_generator, GROUP_ORDER};
use kzg_msm::scalar::Scalar256;
use kzg_msm::window::{BgmwWindow, rows_for_width, select_window, pippenger_window_size};
use kzg_msm::booth::booth_encode;
use kzg_msm::table::{BgmwTable, MsmError, msm_naive};

fn points_of(values: &[u64]) -> Vec<GroupElement> {
    values.iter().map(|v| GroupElement { value: v % GROUP_ORDER }).collect()
}

fn scalars_of(values: &[u64]) -> Vec<Scalar256> {
    values.iter().map(|v| Scalar256::from_u64(*v)).collect()
}

fn sync_table(points: &[GroupElement], width: usize) -> BgmwTable {
    BgmwTable::new_with_window(points, BgmwWindow::Sync(width))
        .unwrap()
        .unwrap()
}

fn parallel_table(points: &[GroupElement], nx: usize, width: usize) -> BgmwTable {
    let ny = rows_for_width(width);
    BgmwTable::new_with_window(points, BgmwWindow::Parallel(nx, ny, width))
        .unwrap()
        .unwrap()
}

#[test]
fn generator_times_ten_all_widths() {
    // Four copies of the generator, scalars 1..4: the result must be
    // the generator multiplied by 10, for several widths and both paths.
    let g = g1_generator();
    let points = vec![g, g, g, g];
    let scalars = scalars_of(&[1, 2, 3, 4]);
    let expected = g.mul_u64(10);
    for width in [1usize, 2, 4] {
        let t = sync_table(&points, width);
        assert_eq!(t.multiply_sequential(&scalars), expected);
        assert_eq!(t.multiply_parallel(&scalars), expected);
        let tp = parallel_table(&points, 3, width);
        assert_eq!(tp.multiply_parallel(&scalars), expected);
    }
}

#[test]
fn matches_naive_reference_sizes() {
    for n in [1usize, 2, 3, 17, 256] {
        let point_values: Vec<u64> = (0..n as u64).map(|k| 3 * k * k + k + 5).collect();
        let scalar_values: Vec<u64> = (0..n as u64).map(|k| 7 * k + 11).collect();
        let points = points_of(&point_values);
        let scalars = scalars_of(&scalar_values);
        let expected = msm_naive(&points, &scalars);
        let t = sync_table(&points, 4);
        assert_eq!(t.multiply_sequential(&scalars), expected);
        if n >= 2 {
            let tp = parallel_table(&points, 2, 4);
            assert_eq!(tp.multiply_parallel(&scalars), expected);
        }
    }
}

#[test]
fn all_zero_scalars_give_identity() {
    let points = points_of(&[9, 10, 11]);
    let scalars = scalars_of(&[0, 0, 0]);
    let t = sync_table(&points, 3);
    let r = t.multiply_sequential(&scalars);
    assert!(r.is_identity());
    assert_eq!(msm_naive(&points, &scalars), r);
}

#[test]
fn all_identity_points_give_identity() {
    let points = points_of(&[0, 0, 0]);
    let scalars = scalars_of(&[12, 34, 56]);
    let t = sync_table(&points, 5);
    let r = t.multiply_sequential(&scalars);
    assert!(r.is_identity());
}

#[test]
fn boundary_widths_divide_and_not() {
    // 1, 3, 5 and 17 divide 255 (forcing the extra carry row); 2, 4
    // and 10 do not; 16 is the widest practical test width.
    let points = points_of(&[21, 22, 23]);
    let scalars = scalars_of(&[1000, 2000, 3000]);
    let expected = msm_naive(&points, &scalars);
    for width in [1usize, 2, 3, 4, 5, 10, 16, 17] {
        let t = sync_table(&points, width);
        assert_eq!(t.multiply_sequential(&scalars), expected, "width {}", width);
    }
}

#[test]
fn large_scalars_multi_limb() {
    // Scalars that span several 64-bit limbs, against the naive path.
    let points = points_of(&[101, 202, 303]);
    let scalars = vec![
        Scalar256::new([0xdead_beef, 0x1234_5678_9abc_def0, 3, 0x7fff_ffff_ffff_ffff]),
        Scalar256::new([u64::MAX, u64::MAX, u64::MAX, 0x7fff_ffff_ffff_ffff]),
        Scalar256::new([0, 1, 0, 0]),
    ];
    assert!(scalars.iter().all(|s| s.fits_bit_length()));
    let expected = msm_naive(&points, &scalars);
    for width in [2usize, 7, 13] {
        let t = sync_table(&points, width);
        assert_eq!(t.multiply_sequential(&scalars), expected, "width {}", width);
    }
    let tp = parallel_table(&points, 2, 9);
    assert_eq!(tp.multiply_parallel(&scalars), expected);
}

#[test]
fn round_trip_both_tags_and_encodings() {
    for n in [0usize, 1, 8] {
        let point_values: Vec<u64> = (0..n as u64).map(|k| 17 * k + 2).collect();
        let points = points_of(&point_values);
        let t = sync_table(&points, 6);
        for compressed in [true, false] {
            let bytes = t.write_to_bytes(compressed);
            let back = BgmwTable::read_from_bytes(&bytes, compressed).unwrap();
            assert!(back == t);
        }
        if n >= 1 {
            let tp = parallel_table(&points, n, 6);
            for compressed in [true, false] {
                let bytes = tp.write_to_bytes(compressed);
                let back = BgmwTable::read_from_bytes(&bytes, compressed).unwrap();
                assert!(back == tp);
            }
        }
    }
}

#[test]
fn truncated_stream_is_rejected() {
    let points = points_of(&[5, 6]);
    let t = sync_table(&points, 3);
    for compressed in [true, false] {
        let mut bytes = t.write_to_bytes(compressed);
        bytes.pop();
        let r = BgmwTable::read_from_bytes(&bytes, compressed);
        assert!(r.is_err());
    }
}

#[test]
fn bad_window_tag_is_rejected() {
    let points = points_of(&[5, 6]);
    let t = sync_table(&points, 3);
    let mut bytes = t.write_to_bytes(true);
    bytes[0] = 7;
    assert_eq!(BgmwTable::read_from_bytes(&bytes, true), Err(MsmError::BadWindowTag));
}

#[test]
fn non_canonical_point_is_rejected() {
    let points = points_of(&[5, 6]);
    let t = sync_table(&points, 3);
    let mut bytes = t.write_to_bytes(true);
    // Overwrite the first stored point with a residue at the order.
    let pos = bytes.len() - 8 * t.numpoints * t.h;
    let bad = GROUP_ORDER.to_le_bytes();
    bytes[pos..pos + 8].copy_from_slice(&bad);
    assert_eq!(BgmwTable::read_from_bytes(&bytes, true), Err(MsmError::InvalidPoint));
}

#[test]
fn inconsistent_matrix_is_rejected() {
    let points = points_of(&[5, 6]);
    let t = sync_table(&points, 3);
    let mut bytes = t.write_to_bytes(true);
    // Corrupt a point of the last row: still canonical, wrong multiple.
    let pos = bytes.len() - 8;
    let original = bytes[pos];
    bytes[pos] = original.wrapping_add(1);
    let r = BgmwTable::read_from_bytes(&bytes, true);
    assert!(
        r == Err(MsmError::InconsistentTable) || r == Err(MsmError::InvalidPoint),
        "got {:?}",
        r
    );
}

#[test]
fn wrong_row_count_is_rejected() {
    let points = points_of(&[5, 6]);
    let t = sync_table(&points, 3);
    let mut bytes = t.write_to_bytes(true);
    // The h field sits after the 16-byte window header and numpoints.
    bytes[24] = bytes[24].wrapping_add(1);
    let r = BgmwTable::read_from_bytes(&bytes, true);
    assert!(r.is_err());
}

#[test]
fn booth_encoding_small_values() {
    let d = booth_encode(0, 4);
    assert_eq!(d.mag, 0);
    let d = booth_encode(5, 4);
    assert!(!d.neg);
    assert_eq!(d.mag, 3);
    let d = booth_encode(17, 4);
    assert!(d.neg);
    assert_eq!(d.mag, 7);
    let d = booth_encode(31, 4);
    assert_eq!(d.mag, 0);
}

#[test]
fn group_arithmetic_edges() {
    let a = GroupElement { value: GROUP_ORDER - 1 };
    let one = GroupElement { value: 1 };
    assert!(a.add(&one).is_identity());
    assert_eq!(a.sub(&a).value, 0);
    assert_eq!(one.negate().value, GROUP_ORDER - 1);
    let g = g1_generator();
    assert_eq!(g.double(), g.add(&g));
    // 2^64 = 2^32 - 1 modulo the order, so (2^64) * 7 reduces neatly.
    let s = Scalar256::new([0, 1, 0, 0]);
    assert_eq!(g.mul_scalar(&s).value, (u32::MAX as u64) * 7);
}

#[test]
fn window_policy_shapes() {
    let w = pippenger_window_size(4096);
    assert!((1..=31).contains(&w));
    match select_window(100, 8) {
        BgmwWindow::Parallel(nx, ny, width) => {
            assert!(nx >= 1 && nx <= 100);
            assert_eq!(ny, rows_for_width(width));
        }
        BgmwWindow::Sync(_) => panic!("large input with many workers should tile"),
    }
    match select_window(10, 1) {
        BgmwWindow::Sync(width) => assert!((1..=31).contains(&width)),
        BgmwWindow::Parallel(_, _, _) => panic!("small input should stay sequential"),
    }
}

#[test]
fn automatic_table_construction() {
    let points = points_of(&[1, 2, 3, 4, 5]);
    let t = BgmwTable::new(&points).unwrap().unwrap();
    assert_eq!(t.numpoints, 5);
    let scalars = scalars_of(&[9, 8, 7, 6, 5]);
    let expected = msm_naive(&points, &scalars);
    assert_eq!(t.multiply_parallel(&scalars), expected);
}

#[test]
fn window_policy_boundaries() {
    // The tiling is chosen exactly when the input exceeds 32 points
    // and more than two workers are available.
    assert!(matches!(select_window(33, 3), BgmwWindow::Parallel(3, _, _)));
    assert!(matches!(select_window(32, 3), BgmwWindow::Sync(_)));
    assert!(matches!(select_window(33, 2), BgmwWindow::Sync(_)));
    match select_window(100, 200) {
        BgmwWindow::Parallel(nx, _, _) => assert_eq!(nx, 100),
        BgmwWindow::Sync(_) => panic!("should tile"),
    }
}
