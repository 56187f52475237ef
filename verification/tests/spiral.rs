use gash::spiral::Spiral;
use std::collections::HashSet;

#[test]
fn it_works() {
    let spiral = Spiral::new(2);
    let values = spiral.pairs();

    assert_eq!(
        values,
        vec![
            (1, 0),
            (1, 1),
            (0, 1),
            (-1, 1),
            (-1, 0),
            (-1, -1),
            (0, -1),
            (1, -1),
            (2, -1),
            (2, 0),
            (2, 1),
            (2, 2),
            (1, 2),
            (0, 2),
            (-1, 2),
            (-2, 2),
            (-2, 1),
            (-2, 0),
            (-2, -1),
            (-2, -2),
            (-1, -2),
            (0, -2),
            (1, -2),
            (2, -2)
        ],
    );
}

#[test]
fn it_works_parallel() {
    let spiral = Spiral::new(2);
    let values = spiral.par_pairs();

    assert_eq!(
        values,
        vec![
            (1, 0),
            (1, 1),
            (0, 1),
            (-1, 1),
            (-1, 0),
            (-1, -1),
            (0, -1),
            (1, -1),
            (2, -1),
            (2, 0),
            (2, 1),
            (2, 2),
            (1, 2),
            (0, 2),
            (-1, 2),
            (-2, 2),
            (-2, 1),
            (-2, 0),
            (-2, -1),
            (-2, -2),
            (-1, -2),
            (0, -2),
            (1, -2),
            (2, -2)
        ],
    );
}

// The enumeration of bound v yields exactly (2v+1)^2 - 1 pairs, each within
// Chebyshev distance v, none of them the origin, no pair twice, rings in
// non-decreasing order, and every in-range pair present.

#[test]
fn enumeration_is_complete_and_ordered() {
    for v in 1i64..=12 {
        let spiral = Spiral::new(v);
        assert_eq!((2 * v + 1) * (2 * v + 1) - 1, spiral.count());
        let values = spiral.pairs();
        assert_eq!(((2 * v + 1) * (2 * v + 1) - 1) as usize, values.len());

        let mut seen: HashSet<(i64, i64)> = HashSet::new();
        let mut last_ring = 0i64;
        for &(da, dc) in &values {
            let ring = da.abs().max(dc.abs());
            assert!(ring >= 1 && ring <= v, "({}, {}) outside bound {}", da, dc, v);
            assert!(ring >= last_ring, "ring order broken at ({}, {})", da, dc);
            last_ring = ring;
            assert!(seen.insert((da, dc)), "duplicate pair ({}, {})", da, dc);
        }
        for da in -v..=v {
            for dc in -v..=v {
                if (da, dc) != (0, 0) {
                    assert!(seen.contains(&(da, dc)), "missing pair ({}, {})", da, dc);
                }
            }
        }
    }
}

#[test]
fn first_candidates_are_smallest() {
    assert_eq!((1, 0), Spiral::pair(1));
    assert_eq!((1, 1), Spiral::pair(2));
}

#[test]
fn pair_is_a_pure_function_of_the_index() {
    for n in 1i64..=10_000 {
        assert_eq!(Spiral::pair(n), Spiral::pair(n));
    }
    assert_eq!(Spiral::pair(1), (1, 0));
    assert_eq!(Spiral::pair(8), (1, -1));
    assert_eq!(Spiral::pair(9), (2, -1));
}
