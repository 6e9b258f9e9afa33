use zorder::{Bbox, Z};

fn codes_in_box(bbox: &Bbox<2, u8>, upto: u16) -> Vec<u16> {
    (0..=upto).filter(|c| bbox.contains(&Z::new(*c))).collect()
}

#[test]
fn litmax_is_the_greatest_code_in_the_box_below() {
    let boxes = [
        ([2u8, 7u8], [9u8, 21u8]),
        ([0, 0], [0, 0]),
        ([5, 3], [10, 5]),
        ([0, 0], [31, 31]),
        ([3, 5], [3, 5]),
        ([1, 30], [30, 31]),
    ];
    for (lo, hi) in boxes {
        let bbox: Bbox<2, u8> = Bbox::new(Z::from(lo), Z::from(hi));
        let inside = codes_in_box(&bbox, 4095);
        for probe in 0..4096u16 {
            let expected = inside.iter().copied().filter(|c| *c < probe).max();
            let found = bbox.litmax(&Z::new(probe));
            match expected {
                Some(c) => assert_eq!(found.point, c, "probe {probe}"),
                None => assert_eq!(found, bbox.max(), "probe {probe}"),
            }
        }
    }
}

#[test]
fn bigmin_is_the_least_code_in_the_box_above() {
    let boxes = [
        ([2u8, 7u8], [9u8, 21u8]),
        ([0, 0], [0, 0]),
        ([5, 3], [10, 5]),
        ([0, 0], [31, 31]),
        ([3, 5], [3, 5]),
        ([1, 30], [30, 31]),
    ];
    for (lo, hi) in boxes {
        let bbox: Bbox<2, u8> = Bbox::new(Z::from(lo), Z::from(hi));
        let inside = codes_in_box(&bbox, 4095);
        for probe in 0..4096u16 {
            let expected = inside.iter().copied().filter(|c| *c > probe).min();
            let found = bbox.bigmin(&Z::new(probe));
            match expected {
                Some(c) => assert_eq!(found.point, c, "probe {probe}"),
                None => assert_eq!(found, bbox.min(), "probe {probe}"),
            }
        }
    }
}

#[test]
fn litmax_and_bigmin_in_three_dimensions() {
    let bbox: Bbox<3, u8> = Bbox::new(Z::from([1, 2, 0]), Z::from([3, 5, 2]));
    let inside: Vec<u32> = (0..512u32).filter(|c| bbox.contains(&Z::new(*c))).collect();
    assert_eq!(inside.len(), 3 * 4 * 3);
    for probe in 0..1024u32 {
        let below = inside.iter().copied().filter(|c| *c < probe).max();
        let above = inside.iter().copied().filter(|c| *c > probe).min();
        assert_eq!(
            bbox.litmax(&Z::new(probe)).point,
            below.unwrap_or(bbox.max().point)
        );
        assert_eq!(
            bbox.bigmin(&Z::new(probe)).point,
            above.unwrap_or(bbox.min().point)
        );
    }
}

#[test]
fn litmax_and_bigmin_exact_values() {
    let bbox: Bbox<2, u8> = Bbox::new(Z::from([5, 3]), Z::from([10, 5]));
    assert_eq!(bbox.min().point, 27);
    assert_eq!(bbox.max().point, 102);
    assert_eq!(bbox.litmax(&Z::new(32)).point, 31);
    assert_eq!(bbox.bigmin(&Z::new(32)).point, 49);
    assert_eq!(bbox.litmax(&Z::new(60)).point, 55);
    assert_eq!(bbox.bigmin(&Z::new(60)).point, 74);
    assert_eq!(bbox.litmax(&Z::new(27)).point, 102);
    assert_eq!(bbox.bigmin(&Z::new(102)).point, 27);
    assert_eq!(bbox.litmax(&Z::new(0)).point, 102);
    assert_eq!(bbox.bigmin(&Z::new(0)).point, 27);
    assert_eq!(bbox.litmax(&Z::new(u16::MAX)).point, 102);
    assert_eq!(bbox.bigmin(&Z::new(u16::MAX)).point, 27);
    assert_eq!(bbox.litmax(&Z::new(52)).point, 51);
    assert_eq!(bbox.bigmin(&Z::new(52)).point, 53);
}

#[test]
fn probe_outside_the_box_between_its_corners() {
    let bbox: Bbox<2, u8> = Bbox::new(Z::from([2, 7]), Z::from([9, 21]));
    let z = Z::<2, u8>::new(58734);
    let litmax = bbox.litmax(&z);
    let bigmin = bbox.bigmin(&z);
    assert!(bbox.min() <= litmax && litmax <= bbox.max());
    assert!(bbox.min() <= bigmin && bigmin <= bbox.max());
    assert!(!bbox.contains(&z));
    assert!(z > bbox.max());
    assert!(litmax < z);
    assert_eq!(litmax, bbox.max());
    assert_eq!(bigmin, bbox.min());
    assert_eq!(litmax.point, 611);
    assert_eq!(bigmin.point, 46);
    for raw in 0..=u16::MAX {
        let z = Z::<2, u8>::new(raw);
        if !bbox.contains(&z) && bbox.min() < z && z < bbox.max() {
            assert!(bbox.litmax(&z) < z);
            assert!(bbox.bigmin(&z) > z);
            assert!(bbox.contains(&bbox.litmax(&z)));
            assert!(bbox.contains(&bbox.bigmin(&z)));
        }
    }
}

#[test]
fn probe_with_bits_above_the_coordinates() {
    let bbox: Bbox<3, u8> = Bbox::new(Z::from([0, 0, 0]), Z::from([1, 1, 1]));
    assert_eq!(bbox.min().point, 0);
    assert_eq!(bbox.max().point, 7);
    let z = Z::<3, u8>::new((1 << 24) + 2);
    assert_eq!(bbox.litmax(&z), Z::new(1));
    assert_eq!(bbox.bigmin(&z), Z::new(3));

    let bbox: Bbox<3, u8> = Bbox::new(Z::from([1, 2, 3]), Z::from([4, 5, 6]));
    for c in (0..(1u32 << 24)).step_by(4099).chain([0, 1, (1 << 24) - 1]) {
        let litmax = bbox.litmax(&Z::new(c));
        let bigmin = bbox.bigmin(&Z::new(c));
        for k in 24..32 {
            assert_eq!(bbox.litmax(&Z::new(c | 1 << k)), litmax);
            assert_eq!(bbox.bigmin(&Z::new(c | 1 << k)), bigmin);
        }
        assert_eq!(bbox.litmax(&Z::new(c | 0xFF00_0000)), litmax);
        assert_eq!(bbox.bigmin(&Z::new(c | 0xFF00_0000)), bigmin);
    }

    let bbox: Bbox<5, u8> = Bbox::new(Z::from([1, 0, 2, 0, 3]), Z::from([9, 8, 7, 6, 5]));
    for c in (0..(1u64 << 40)).step_by(1_000_000_007) {
        for k in 40..64 {
            assert_eq!(bbox.litmax(&Z::new(c | 1 << k)), bbox.litmax(&Z::new(c)));
            assert_eq!(bbox.bigmin(&Z::new(c | 1 << k)), bbox.bigmin(&Z::new(c)));
        }
    }
}

#[test]
fn litmax_and_bigmin_of_the_widest_codes() {
    let bbox: Bbox<2, u64> = Bbox::new(Z::from([0, 0]), Z::from([u64::MAX, u64::MAX]));
    assert_eq!(bbox.litmax(&Z::new(u128::MAX)).point, u128::MAX - 1);
    assert_eq!(bbox.bigmin(&Z::new(0)).point, 1);
    assert_eq!(bbox.litmax(&Z::new(0)).point, u128::MAX);
    assert_eq!(bbox.bigmin(&Z::new(u128::MAX)).point, 0);
    let bbox: Bbox<2, u64> = Bbox::new(Z::from([1 << 63, 0]), Z::from([u64::MAX, 0]));
    assert_eq!(bbox.bigmin(&Z::new(0)).point, 1u128 << 126);
    assert_eq!(bbox.litmax(&Z::new(u128::MAX)), bbox.max());
    let bbox: Bbox<16, u8> = Bbox::new(Z::from([0; 16]), Z::from([255; 16]));
    assert_eq!(bbox.litmax(&Z::new(1u128 << 127)).point, (1u128 << 127) - 1);
}
