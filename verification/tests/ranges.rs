use zorder::search::range;
use zorder::{Bbox, GetZ, Z};

fn grid() -> Vec<Z<2, u8>> {
    let mut items = Vec::new();
    for x in 0..9u8 {
        for y in 0..17u8 {
            items.push(Z::from([y, x]));
        }
    }
    items.sort_unstable();
    items
}

fn found_in(items: &[Z<2, u8>], low: [u8; 2], high: [u8; 2], threshold: Option<usize>) -> Vec<u16> {
    let mut search = range(items, low, high);
    if let Some(t) = threshold {
        search = search.optimize_if_gt(t);
    }
    let mut out = Vec::new();
    while let Some(z) = search.next() {
        out.push(z.point);
    }
    out
}

fn halving_order(items: &[Z<2, u8>], bbox: &Bbox<2, u8>, out: &mut Vec<u16>) {
    if items.is_empty() {
        return;
    }
    let mid = items.len() / 2;
    if bbox.contains(&items[mid]) && items[mid] <= bbox.max() {
        out.push(items[mid].point);
    }
    halving_order(&items[..mid], bbox, out);
    halving_order(&items[mid + 1..], bbox, out);
}

#[test]
fn dense_grid() {
    let items = grid();
    let mut found = found_in(&items, [5, 3], [10, 5], None);
    assert_eq!(found.len(), 18);
    found.sort_unstable();
    assert_eq!(
        found,
        [27, 30, 31, 49, 51, 52, 53, 54, 55, 74, 75, 78, 96, 97, 98, 99, 100, 102]
    );
}

#[test]
fn empty_bbox_result() {
    let items = grid();
    assert!(found_in(&items, [20, 20], [30, 30], None).is_empty());
    assert!(found_in(&items, [20, 20], [30, 30], Some(0)).is_empty());
}

#[test]
fn whole_space_query() {
    let items = grid();
    let mut found = found_in(&items, [0, 0], [16, 8], None);
    assert_eq!(found.len(), items.len());
    found.sort_unstable();
    let all: Vec<u16> = items.iter().map(|z| z.point).collect();
    assert_eq!(found, all);
}

#[test]
fn corners_given_in_any_order() {
    let items = grid();
    let mut found = found_in(&items, [8, 16], [0, 0], None);
    found.sort_unstable();
    let all: Vec<u16> = items
        .iter()
        .filter(|z| {
            let [y, x] = z.deinterlace();
            y <= 8 && x <= 16
        })
        .map(|z| z.point)
        .collect();
    assert_eq!(found, all);
    assert_eq!(
        found_in(&items, [10, 3], [5, 5], None),
        found_in(&items, [5, 3], [10, 5], None)
    );
}

#[test]
fn degenerate_bbox() {
    let items = grid();
    assert_eq!(
        found_in(&items, [3, 5], [3, 5], None),
        [Z::<2, u8>::interlace(&[3, 5]).point]
    );
    assert_eq!(found_in(&items, [3, 5], [3, 5], Some(0)), [39]);
    assert!(found_in(&items, [3, 50], [3, 50], None).is_empty());
    let without: Vec<Z<2, u8>> = items.iter().copied().filter(|z| z.point != 39).collect();
    assert!(found_in(&without, [3, 5], [3, 5], None).is_empty());
    assert!(found_in(&without, [3, 5], [3, 5], Some(0)).is_empty());
}

#[test]
fn no_items() {
    let items: Vec<Z<2, u8>> = Vec::new();
    assert!(found_in(&items, [0, 0], [255, 255], None).is_empty());
    let mut search = range(items.as_slice(), [0u8, 0u8], [255, 255]);
    assert!(search.next().is_none());
    assert!(search.next().is_none());
}

#[test]
fn unsorted_items_do_not_crash() {
    let items: Vec<Z<2, u8>> = vec![Z::from([0, 0]), Z::from([7, 0]), Z::from([0, 7])];
    for t in [0, 1, 10] {
        let found = found_in(&items, [0, 0], [7, 7], Some(t));
        assert!(found.len() <= items.len());
        for code in found {
            assert!(items.contains(&Z::new(code)));
        }
    }
    let items: Vec<Z<2, u8>> = (0..200u16).rev().map(Z::new).collect();
    for t in [0, 3, 10, 1000] {
        let found = found_in(&items, [2, 1], [9, 6], Some(t));
        let bbox: Bbox<2, u8> = Bbox::new(Z::from([2, 1]), Z::from([9, 6]));
        for code in found {
            assert!(bbox.contains(&Z::new(code)));
        }
    }
}

#[test]
fn the_threshold_does_not_change_what_comes() {
    let items = grid();
    for (low, high) in [
        ([5, 3], [10, 5]),
        ([0, 0], [16, 8]),
        ([20, 20], [30, 30]),
        ([3, 5], [3, 5]),
        ([1, 1], [2, 200]),
        ([16, 0], [16, 8]),
    ] {
        let expected = found_in(&items, low, high, None);
        for t in [0, 1, 2, 3, 5, 9, 10, 11, 50, 152, 153, 1000, usize::MAX] {
            assert_eq!(found_in(&items, low, high, Some(t)), expected);
        }
    }
}

#[test]
fn what_comes_is_what_the_box_holds() {
    let items: Vec<Z<2, u8>> = (0..1024u16).filter(|c| c % 3 != 1).map(Z::new).collect();
    for (low, high) in [
        ([2, 7], [9, 21]),
        ([0, 0], [31, 31]),
        ([17, 0], [18, 31]),
        ([31, 31], [31, 31]),
        ([0, 0], [0, 0]),
        ([5, 9], [6, 9]),
    ] {
        let bbox: Bbox<2, u8> = Bbox::new(Z::from(low), Z::from(high));
        let expected: Vec<u16> = items
            .iter()
            .filter(|z| bbox.contains(z))
            .map(|z| z.point)
            .collect();
        for t in [0, 10] {
            let mut found = found_in(&items, low, high, Some(t));
            let mut order = Vec::new();
            halving_order(&items, &bbox, &mut order);
            assert_eq!(found, order);
            found.sort_unstable();
            assert_eq!(found, expected);
        }
    }
}

#[test]
fn the_middle_comes_before_the_halves() {
    let items: Vec<Z<2, u8>> = vec![Z::new(0), Z::new(1), Z::new(2)];
    assert_eq!(found_in(&items, [0, 0], [1, 1], None), [1, 0, 2]);
    let items: Vec<Z<2, u8>> = (0..7u16).map(Z::new).collect();
    assert_eq!(
        found_in(&items, [0, 0], [3, 3], Some(0)),
        [3, 1, 0, 2, 5, 4, 6]
    );
}

#[test]
fn equal_codes_all_come() {
    let items: Vec<Z<2, u8>> = vec![Z::new(5), Z::new(5), Z::new(5), Z::new(9), Z::new(9)];
    assert_eq!(found_in(&items, [0, 0], [3, 3], None), [5, 5, 5, 9, 9]);
    assert_eq!(found_in(&items, [3, 0], [3, 3], Some(0)), [5, 5, 5]);
}

#[test]
fn items_with_bits_above_the_coordinates_are_passed_over() {
    let items: Vec<Z<3, u8>> = vec![Z::new(0), Z::new(1 << 24)];
    let mut search = range(items.as_slice(), [0u8, 0, 0], [0, 0, 0]);
    assert_eq!(search.next(), Some(&Z::new(0)));
    assert_eq!(search.next(), None);
}

#[derive(Debug, PartialEq)]
struct Place {
    name: &'static str,
    at: Z<2, u16>,
}

impl GetZ<2, u16> for Place {
    fn spec_z(&self) -> Z<2, u16> {
        self.at
    }

    fn z(&self) -> &Z<2, u16> {
        &self.at
    }
}

#[test]
fn records_that_hold_a_point() {
    let mut places = vec![
        Place {
            name: "a",
            at: Z::from([100, 200]),
        },
        Place {
            name: "b",
            at: Z::from([1000, 2000]),
        },
        Place {
            name: "c",
            at: Z::from([150, 250]),
        },
        Place {
            name: "d",
            at: Z::from([0, 65535]),
        },
        Place {
            name: "e",
            at: Z::from([120, 120]),
        },
    ];
    places.sort_by_key(|p| p.at);
    let mut search = range(places.as_slice(), [100u16, 100], [200, 300]);
    let mut names = Vec::new();
    while let Some(p) = search.next() {
        names.push(p.name);
    }
    names.sort_unstable();
    assert_eq!(names, ["a", "c", "e"]);
}

#[test]
fn wide_coordinates() {
    let mut items: Vec<Z<2, u64>> = Vec::new();
    for y in 0..20u64 {
        for x in 0..20u64 {
            items.push(Z::from([y << 50, x << 50]));
        }
    }
    items.sort_unstable();
    let mut search = range(
        items.as_slice(),
        [3u64 << 50, 4 << 50],
        [(7 << 50) + 1, 4 << 50],
    )
    .optimize_if_gt(2);
    let mut found = Vec::new();
    while let Some(z) = search.next() {
        found.push(z.deinterlace());
    }
    found.sort_unstable();
    assert_eq!(
        found,
        [
            [3 << 50, 4 << 50],
            [4 << 50, 4 << 50],
            [5 << 50, 4 << 50],
            [6 << 50, 4 << 50],
            [7 << 50, 4 << 50]
        ]
    );
}

#[test]
fn collect_gives_what_next_gives() {
    let items = grid();
    let found: Vec<u16> = range(items.as_slice(), [5u8, 3], [10, 5])
        .collect()
        .into_iter()
        .map(|z| z.point)
        .collect();
    assert_eq!(found, found_in(&items, [5, 3], [10, 5], None));
    assert_eq!(found.len(), 18);
    let mut search = range(items.as_slice(), [0u8, 0], [16, 8]).optimize_if_gt(4);
    let first = search.next().map(|z| z.point);
    assert_eq!(first, Some(items[items.len() / 2].point));
    let rest = search.collect();
    assert_eq!(rest.len(), items.len() - 1);
    assert!(range(items.as_slice(), [20u8, 20], [30, 30])
        .collect()
        .is_empty());
}

#[test]
fn a_finished_search_stays_finished() {
    let sorted = grid();
    let reversed: Vec<Z<2, u8>> = sorted.iter().rev().copied().collect();
    let mixed: Vec<Z<2, u8>> = vec![Z::from([0, 0]), Z::from([7, 0]), Z::from([0, 7])];
    for items in [sorted, reversed, mixed, Vec::new()] {
        for t in [0, 10] {
            let mut search = range(items.as_slice(), [0u8, 0], [16, 8]).optimize_if_gt(t);
            let mut count = 0;
            while search.next().is_some() {
                count += 1;
            }
            assert!(count <= items.len());
            for _ in 0..5 {
                assert!(search.next().is_none());
            }
            assert!(search.collect().is_empty());
        }
    }
}
