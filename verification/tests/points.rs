use zorder::{Bbox, GetZ, Z};

fn naive_code_2(y: u8, x: u8) -> u16 {
    let mut code = 0u16;
    for i in 0..8 {
        code |= (((y >> i) & 1) as u16) << (2 * i);
        code |= (((x >> i) & 1) as u16) << (2 * i + 1);
    }
    code
}

#[test]
fn interlace_exact_values() {
    assert_eq!(Z::interlace(&[0u8, 0u8]).point, 0u16);
    assert_eq!(Z::interlace(&[1u8, 0u8]).point, 1u16);
    assert_eq!(Z::interlace(&[0u8, 1u8]).point, 2u16);
    assert_eq!(Z::interlace(&[3u8, 5u8]).point, 0b100111u16);
    assert_eq!(Z::interlace(&[255u8, 0u8]).point, 0x5555u16);
    assert_eq!(Z::interlace(&[0u8, 255u8]).point, 0xAAAAu16);
    assert_eq!(Z::interlace(&[255u8, 255u8]).point, 0xFFFFu16);
    assert_eq!(Z::interlace(&[1u8, 1u8, 1u8]).point, 0b111u32);
    assert_eq!(Z::interlace(&[0u8, 0u8, 255u8]).point, 0x924924u32);
    assert_eq!(
        Z::interlace(&[u64::MAX, 0u64]).point,
        0x5555_5555_5555_5555_5555_5555_5555_5555u128
    );
    assert_eq!(
        Z::interlace(&[0u32, 0u32, 0u32, 1u32 << 31]).point,
        1u128 << 127
    );
}

#[test]
fn deinterlace_exact_values() {
    assert_eq!(Z::<2, u8>::new(0b100111).deinterlace(), [3, 5]);
    assert_eq!(Z::<2, u8>::new(0xFFFF).deinterlace(), [255, 255]);
    assert_eq!(Z::<3, u8>::new(0x924924).deinterlace(), [0, 0, 255]);
    assert_eq!(
        Z::<2, u64>::new(u128::MAX).deinterlace(),
        [u64::MAX, u64::MAX]
    );
    assert_eq!(
        Z::<4, u32>::new(1u128 << 127).deinterlace(),
        [0, 0, 0, 1 << 31]
    );
}

#[test]
fn deinterlace_ignores_bits_above_the_coordinates() {
    assert_eq!(Z::<3, u8>::new(1 << 24).deinterlace(), [0, 0, 0]);
    assert_eq!(Z::<3, u8>::new(0xFF00_0007).deinterlace(), [1, 1, 1]);
    assert_eq!(Z::<5, u8>::new(1 << 40).deinterlace(), [0, 0, 0, 0, 0]);
}

#[test]
fn interlace_all_pairs_of_bytes() {
    for y in 0..=255u8 {
        for x in 0..=255u8 {
            let z = Z::interlace(&[y, x]);
            assert_eq!(z.point, naive_code_2(y, x));
            assert_eq!(z.deinterlace(), [y, x]);
        }
    }
}

#[test]
fn ten_dimensions_of_bytes() {
    for v in 0..=255u8 {
        for d in 0..10 {
            let mut parts = [0u8; 10];
            parts[d] = v;
            let z = Z::interlace(&parts);
            let mut expected = 0u128;
            for i in 0..8 {
                expected |= (((v >> i) & 1) as u128) << (10 * i + d);
            }
            assert_eq!(z.point, expected);
            assert_eq!(z.deinterlace(), parts);
        }
    }
    let parts = [1u8, 2, 3, 4, 5, 6, 7, 8, 9, 10];
    assert_eq!(Z::interlace(&parts).deinterlace(), parts);
}

#[test]
fn reinterlace_gives_the_point_back() {
    for raw in 0..=u16::MAX {
        let z = Z::<2, u8>::new(raw);
        assert_eq!(Z::interlace(&z.deinterlace()), z);
    }
    for raw in (0..(1u32 << 24)).step_by(977) {
        let z = Z::<3, u8>::new(raw);
        assert_eq!(Z::interlace(&z.deinterlace()), z);
    }
}

#[test]
fn conversions_between_points_and_arrays() {
    let z: Z<2, u8> = Z::from([3, 5]);
    assert_eq!(z, Z::interlace(&[3, 5]));
    let z: Z<2, u8> = Z::from(&[3, 5]);
    assert_eq!(z.point, 39);
    let parts: [u8; 2] = z.into();
    assert_eq!(parts, [3, 5]);
    let parts = <[u16; 3]>::from(Z::interlace(&[7u16, 8, 9]));
    assert_eq!(parts, [7, 8, 9]);
}

#[test]
fn points_order_by_their_number() {
    let a = Z::<2, u8>::new(5);
    let b = Z::<2, u8>::new(6);
    assert!(a < b);
    assert!(b > a);
    assert!(a <= a);
    assert_eq!(a, Z::new(5));
    assert_ne!(a, b);
    assert_eq!(a.max(b), b);
}

#[test]
fn point_as_text() {
    assert_eq!(Z::<2, u8>::new(0).to_string(), "0");
    assert_eq!(Z::<2, u8>::new(7).to_string(), "7");
    assert_eq!(Z::<2, u8>::new(10).to_string(), "10");
    assert_eq!(Z::<2, u8>::new(58734).to_string(), "58734");
    assert_eq!(Z::<3, u8>::new(4294967295).to_string(), "4294967295");
    assert_eq!(
        Z::<2, u64>::new(u128::MAX).to_string(),
        "340282366920938463463374607431768211455"
    );
    assert_eq!(
        Z::<2, u64>::new(1u128 << 100).to_string(),
        format!("{}", 1u128 << 100)
    );
}

#[test]
fn a_point_has_itself_as_its_point() {
    let z = Z::<2, u8>::new(1234);
    assert_eq!(*z.z(), z);
}

#[test]
fn bbox_normalizes_its_corners() {
    let a: Z<2, u8> = Z::from([10, 3]);
    let b: Z<2, u8> = Z::from([5, 5]);
    let bbox = Bbox::new(a, b);
    assert_eq!(bbox.min_parts(), &[5, 3]);
    assert_eq!(bbox.max_parts(), &[10, 5]);
    assert_eq!(bbox.min(), Z::from([5, 3]));
    assert_eq!(bbox.max(), Z::from([10, 5]));
    let same = Bbox::new(b, a);
    assert!(bbox == same);
    assert!(bbox.clone() == bbox);
}

#[test]
fn bbox_normalizes_every_pair_of_corners() {
    let corners = [
        [0u8, 0, 0],
        [1, 2, 3],
        [3, 2, 1],
        [255, 0, 17],
        [9, 200, 17],
        [255, 255, 255],
    ];
    for a in corners {
        for b in corners {
            let bbox = Bbox::new(Z::from(a), Z::from(b));
            for d in 0..3 {
                assert_eq!(bbox.min_parts()[d], a[d].min(b[d]));
                assert_eq!(bbox.max_parts()[d], a[d].max(b[d]));
                assert!(bbox.min_parts()[d] <= bbox.max_parts()[d]);
            }
            assert_eq!(bbox.min(), Z::interlace(bbox.min_parts()));
            assert_eq!(bbox.max(), Z::interlace(bbox.max_parts()));
            assert!(bbox.min() <= bbox.max());
        }
    }
}

#[test]
fn bbox_contains_by_coordinates() {
    let bbox: Bbox<2, u8> = Bbox::new(Z::from([5, 3]), Z::from([10, 5]));
    for y in 0..32u8 {
        for x in 0..32u8 {
            let inside = (5..=10).contains(&y) && (3..=5).contains(&x);
            assert_eq!(bbox.contains(&Z::from([y, x])), inside);
        }
    }
    assert!(bbox.contains(&bbox.min()));
    assert!(bbox.contains(&bbox.max()));
}

#[test]
fn codes_between_the_corners_may_lie_outside() {
    let bbox: Bbox<2, u8> = Bbox::new(Z::from([5, 3]), Z::from([10, 5]));
    let gap = Z::<2, u8>::new(32);
    assert!(bbox.min() < gap && gap < bbox.max());
    assert!(!bbox.contains(&gap));
}

#[test]
fn contains_ignores_bits_above_the_coordinates() {
    let bbox: Bbox<3, u8> = Bbox::new(Z::from([0, 0, 0]), Z::from([0, 0, 0]));
    assert!(bbox.contains(&Z::new(0)));
    assert!(bbox.contains(&Z::new(1 << 24)));
    assert!(!bbox.contains(&Z::new(1)));
}
