use arbitrary::{Arbitrary, Unstructured};
use core::mem::size_of;
use num_traits::{zero, PrimInt};
use rand::RngCore;
use zorder::{Bbox, Size, Z};

fn holds_for_random<T: for<'a> Arbitrary<'a>>(label: &str, prop: impl Fn(T) -> bool) {
    let mut data = vec![0u8; size_of::<T>()];
    for _ in 0..10_000 {
        let mut u = Unstructured::new(&data);
        let n = u.arbitrary().unwrap();
        assert!(prop(n), "{label}");
        rand::rng().fill_bytes(&mut data)
    }
}

fn bit<T: PrimInt>(x: T, i: usize) -> bool {
    x & (T::one() << i) != T::zero()
}

fn set_bit<T: PrimInt>(x: T, i: usize) -> T {
    x | (T::one() << i)
}

fn del_bit<T: PrimInt>(x: T, i: usize) -> T {
    x & !(T::one() << i)
}

fn simple_interlace<const D: usize, T>(parts: &[T; D]) -> Z<D, T>
where
    T: Size<D> + PrimInt,
    <T as Size<D>>::Output: PrimInt,
{
    let mut z = zero();
    for i in 0..8 * size_of::<T>() {
        for (d, n) in parts.into_iter().enumerate() {
            z = match bit(*n, i) {
                false => del_bit(z, i * D + d),
                true => set_bit(z, i * D + d),
            }
        }
    }
    Z { point: z }
}

fn simple_deinterlace<const D: usize, T>(z: Z<D, T>) -> [T; D]
where
    T: Size<D> + PrimInt,
    <T as Size<D>>::Output: PrimInt,
{
    let mut parts = [zero(); D];
    for i in 0..8 * size_of::<T>() {
        for (d, n) in parts.iter_mut().enumerate() {
            *n = match bit(z.point, i * D + d) {
                false => del_bit(*n, i),
                true => set_bit(*n, i),
            }
        }
    }
    parts
}

fn assert_interlace<const D: usize, T>(label: &str)
where
    T: Size<D> + PrimInt + for<'a> Arbitrary<'a>,
    <T as Size<D>>::Output: PrimInt,
{
    holds_for_random(label, |parts: [T; D]| {
        let x = simple_interlace(&parts);
        let y = Z::interlace(&parts);
        x == y
    })
}

#[test]
fn interlace() {
    assert_interlace::<2, u8>("D := 2,  T := u8");
    assert_interlace::<3, u8>("D := 3,  T := u8");
    assert_interlace::<4, u8>("D := 4,  T := u8");
    assert_interlace::<5, u8>("D := 5,  T := u8");
    assert_interlace::<6, u8>("D := 6,  T := u8");
    assert_interlace::<7, u8>("D := 7,  T := u8");
    assert_interlace::<8, u8>("D := 8,  T := u8");
    assert_interlace::<9, u8>("D := 9,  T := u8");
    assert_interlace::<11, u8>("D := 11, T := u8");
    assert_interlace::<12, u8>("D := 12, T := u8");
    assert_interlace::<13, u8>("D := 13, T := u8");
    assert_interlace::<14, u8>("D := 14, T := u8");
    assert_interlace::<15, u8>("D := 15, T := u8");
    assert_interlace::<16, u8>("D := 16, T := u8");

    assert_interlace::<2, u16>("D := 2, T := u16");
    assert_interlace::<3, u16>("D := 3, T := u16");
    assert_interlace::<4, u16>("D := 4, T := u16");
    assert_interlace::<5, u16>("D := 5, T := u16");
    assert_interlace::<6, u16>("D := 6, T := u16");
    assert_interlace::<7, u16>("D := 7, T := u16");
    assert_interlace::<8, u16>("D := 8, T := u16");

    assert_interlace::<2, u32>("D := 2, T := u32");
    assert_interlace::<3, u32>("D := 3, T := u32");
    assert_interlace::<4, u32>("D := 4, T := u32");

    assert_interlace::<2, u64>("D := 2, T := u64")
}

fn assert_deinterlace<const D: usize, T>(label: &str)
where
    T: Size<D> + PrimInt + 'static,
    <T as Size<D>>::Output: PrimInt + for<'a> Arbitrary<'a>,
{
    holds_for_random(label, |raw: <T as Size<D>>::Output| {
        let z: Z<D, T> = Z::new(raw);
        let x = simple_deinterlace(z);
        let y = Z::deinterlace(z);
        x == y
    })
}

#[test]
fn deinterlace() {
    assert_deinterlace::<2, u8>("D := 2,  T := u8");
    assert_deinterlace::<3, u8>("D := 3,  T := u8");
    assert_deinterlace::<4, u8>("D := 4,  T := u8");
    assert_deinterlace::<5, u8>("D := 5,  T := u8");
    assert_deinterlace::<6, u8>("D := 6,  T := u8");
    assert_deinterlace::<7, u8>("D := 7,  T := u8");
    assert_deinterlace::<8, u8>("D := 8,  T := u8");
    assert_deinterlace::<9, u8>("D := 9,  T := u8");
    assert_deinterlace::<11, u8>("D := 11, T := u8");
    assert_deinterlace::<12, u8>("D := 12, T := u8");
    assert_deinterlace::<13, u8>("D := 13, T := u8");
    assert_deinterlace::<14, u8>("D := 14, T := u8");
    assert_deinterlace::<15, u8>("D := 15, T := u8");
    assert_deinterlace::<16, u8>("D := 16, T := u8");

    assert_deinterlace::<2, u16>("D := 2, T := u16");
    assert_deinterlace::<3, u16>("D := 3, T := u16");
    assert_deinterlace::<4, u16>("D := 4, T := u16");
    assert_deinterlace::<5, u16>("D := 5, T := u16");
    assert_deinterlace::<6, u16>("D := 6, T := u16");
    assert_deinterlace::<7, u16>("D := 7, T := u16");
    assert_deinterlace::<8, u16>("D := 8, T := u16");

    assert_deinterlace::<2, u32>("D := 2, T := u32");
    assert_deinterlace::<3, u32>("D := 3, T := u32");
    assert_deinterlace::<4, u32>("D := 4, T := u32");

    assert_deinterlace::<2, u64>("D := 2, T := u64")
}

fn assert_identity<const D: usize, T>(label: &str)
where
    T: Size<D> + for<'a> Arbitrary<'a>,
{
    holds_for_random(label, |parts1: [T; D]| {
        let parts2 = Z::interlace(&parts1).deinterlace();
        parts1 == parts2
    })
}

#[test]
fn interlace_deinterlace_identity() {
    assert_identity::<2, u8>("D := 2,  T := u8");
    assert_identity::<3, u8>("D := 3,  T := u8");
    assert_identity::<4, u8>("D := 4,  T := u8");
    assert_identity::<5, u8>("D := 5,  T := u8");
    assert_identity::<6, u8>("D := 6,  T := u8");
    assert_identity::<7, u8>("D := 7,  T := u8");
    assert_identity::<8, u8>("D := 8,  T := u8");
    assert_identity::<9, u8>("D := 9,  T := u8");
    assert_identity::<11, u8>("D := 11, T := u8");
    assert_identity::<12, u8>("D := 12, T := u8");
    assert_identity::<13, u8>("D := 13, T := u8");
    assert_identity::<14, u8>("D := 14, T := u8");
    assert_identity::<15, u8>("D := 15, T := u8");
    assert_identity::<16, u8>("D := 16, T := u8");

    assert_identity::<2, u16>("D := 2, T := u16");
    assert_identity::<3, u16>("D := 3, T := u16");
    assert_identity::<4, u16>("D := 4, T := u16");
    assert_identity::<5, u16>("D := 5, T := u16");
    assert_identity::<6, u16>("D := 6, T := u16");
    assert_identity::<7, u16>("D := 7, T := u16");
    assert_identity::<8, u16>("D := 8, T := u16");

    assert_identity::<2, u32>("D := 2, T := u32");
    assert_identity::<3, u32>("D := 3, T := u32");
    assert_identity::<4, u32>("D := 4, T := u32");

    assert_identity::<2, u64>("D := 2, T := u64")
}

#[test]
fn from_parts() {
    holds_for_random("from_parts", |(x, y, z): (u32, u32, u32)| {
        let val = Z::interlace(&[x, y, z]);
        for i in 0..32 {
            if bit(val.point, i * 3) != bit(x, i) {
                return false;
            }
            if bit(val.point, i * 3 + 1) != bit(y, i) {
                return false;
            }
            if bit(val.point, i * 3 + 2) != bit(z, i) {
                return false;
            }
        }
        true
    })
}

fn assert_litmax<const D: usize, T>(label: &str)
where
    T: Size<D> + 'static,
    <T as Size<D>>::Output: for<'a> Arbitrary<'a>,
{
    holds_for_random(
        label,
        |(a, b, c): (
            <T as Size<D>>::Output,
            <T as Size<D>>::Output,
            <T as Size<D>>::Output,
        )| {
            let a: Z<D, T> = Z::new(a);
            let bbox = Bbox::new(Z::new(b), Z::new(c));
            let lmx = bbox.litmax(&a);
            if a > bbox.min() && a <= bbox.max() {
                lmx < a && lmx >= bbox.min() && lmx <= bbox.max()
            } else {
                lmx >= bbox.min() && lmx <= bbox.max()
            }
        },
    )
}

#[test]
fn litmax() {
    assert_litmax::<2, u8>("D := 2,  T := u8");
    assert_litmax::<3, u8>("D := 3,  T := u8");
    assert_litmax::<4, u8>("D := 4,  T := u8");
    assert_litmax::<5, u8>("D := 5,  T := u8");
    assert_litmax::<6, u8>("D := 6,  T := u8");
    assert_litmax::<7, u8>("D := 7,  T := u8");
    assert_litmax::<8, u8>("D := 8,  T := u8");
    assert_litmax::<9, u8>("D := 9,  T := u8");
    assert_litmax::<11, u8>("D := 11, T := u8");
    assert_litmax::<12, u8>("D := 12, T := u8");
    assert_litmax::<13, u8>("D := 13, T := u8");
    assert_litmax::<14, u8>("D := 14, T := u8");
    assert_litmax::<15, u8>("D := 15, T := u8");
    assert_litmax::<16, u8>("D := 16, T := u8");

    assert_litmax::<2, u16>("D := 2, T := u16");
    assert_litmax::<3, u16>("D := 3, T := u16");
    assert_litmax::<4, u16>("D := 4, T := u16");
    assert_litmax::<5, u16>("D := 5, T := u16");
    assert_litmax::<6, u16>("D := 6, T := u16");
    assert_litmax::<7, u16>("D := 7, T := u16");
    assert_litmax::<8, u16>("D := 8, T := u16");

    assert_litmax::<2, u32>("D := 2, T := u32");
    assert_litmax::<3, u32>("D := 3, T := u32");
    assert_litmax::<4, u32>("D := 4, T := u32");

    assert_litmax::<2, u64>("D := 2, T := u64")
}

fn assert_bigmin<const D: usize, T>(label: &str)
where
    T: Size<D> + 'static,
    <T as Size<D>>::Output: for<'a> Arbitrary<'a>,
{
    holds_for_random(
        label,
        |(a, b, c): (
            <T as Size<D>>::Output,
            <T as Size<D>>::Output,
            <T as Size<D>>::Output,
        )| {
            let a: Z<D, T> = Z::new(a);
            let bbox = Bbox::new(Z::new(b), Z::new(c));
            let bmi = bbox.bigmin(&a);
            if a >= bbox.min() && a < bbox.max() {
                bmi > a && bmi >= bbox.min() && bmi <= bbox.max()
            } else {
                bmi >= bbox.min() && bmi <= bbox.max()
            }
        },
    )
}

#[test]
fn bigmin() {
    assert_bigmin::<2, u8>("D := 2,  T := u8");
    assert_bigmin::<3, u8>("D := 3,  T := u8");
    assert_bigmin::<4, u8>("D := 4,  T := u8");
    assert_bigmin::<5, u8>("D := 5,  T := u8");
    assert_bigmin::<6, u8>("D := 6,  T := u8");
    assert_bigmin::<7, u8>("D := 7,  T := u8");
    assert_bigmin::<8, u8>("D := 8,  T := u8");
    assert_bigmin::<9, u8>("D := 9,  T := u8");
    assert_bigmin::<11, u8>("D := 11, T := u8");
    assert_bigmin::<12, u8>("D := 12, T := u8");
    assert_bigmin::<13, u8>("D := 13, T := u8");
    assert_bigmin::<14, u8>("D := 14, T := u8");
    assert_bigmin::<15, u8>("D := 15, T := u8");
    assert_bigmin::<16, u8>("D := 16, T := u8");

    assert_bigmin::<2, u16>("D := 2, T := u16");
    assert_bigmin::<3, u16>("D := 3, T := u16");
    assert_bigmin::<4, u16>("D := 4, T := u16");
    assert_bigmin::<5, u16>("D := 5, T := u16");
    assert_bigmin::<6, u16>("D := 6, T := u16");
    assert_bigmin::<7, u16>("D := 7, T := u16");
    assert_bigmin::<8, u16>("D := 8, T := u16");

    assert_bigmin::<2, u32>("D := 2, T := u32");
    assert_bigmin::<3, u32>("D := 3, T := u32");
    assert_bigmin::<4, u32>("D := 4, T := u32");

    assert_bigmin::<2, u64>("D := 2, T := u64")
}
