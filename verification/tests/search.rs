use zorder::search::range;
use zorder::Z;

#[test]
fn area() {
    let mut vec = Vec::new();
    for x in 0..9u8 {
        for y in 0..17u8 {
            vec.push(Z::from([y, x]));
        }
    }
    vec.sort_unstable();

    let mut res = (0..129).map(Z::new).collect::<Vec<_>>();
    res.extend(
        [
            129, 132, 133, 144, 145, 148, 149, 192, 193, 196, 197, 208, 209, 212, 213, 256, 258,
            264, 266, 288, 290, 296, 298, 384,
        ]
        .map(Z::new),
    );

    assert_eq!(&vec, &res);

    let min = [5, 3];
    let max = [10, 5];

    let mut res = Vec::new();
    let mut found = range(vec.as_slice(), min, max);
    while let Some(z) = found.next() {
        res.push(z.point);
    }
    res.sort_unstable();
    assert_eq! {
        &[27, 30, 31, 49, 51, 52, 53, 54, 55, 74, 75, 78, 96, 97, 98, 99, 100, 102],
        res.as_slice()
    }
}
