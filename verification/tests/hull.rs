use jellyscope::hull::{convex_hull, sort_unique};

#[test]
fn square_hull_is_counter_clockwise_from_the_smallest_point() {
    let pts = [(2, 2), (0, 0), (1, 1), (2, 0), (0, 2), (1, 0), (0, 1), (2, 2)];
    assert_eq!(convex_hull(&pts), vec![(0, 0), (2, 0), (2, 2), (0, 2)]);
}

#[test]
fn triangle_hull() {
    assert_eq!(convex_hull(&[(0, 0), (1, 1), (2, 0)]), vec![(0, 0), (2, 0), (1, 1)]);
}

#[test]
fn fewer_than_three_points_come_back_sorted() {
    assert_eq!(convex_hull(&[(5, 1), (2, 3)]), vec![(2, 3), (5, 1)]);
    assert_eq!(convex_hull(&[(2, 3), (5, 1)]), vec![(2, 3), (5, 1)]);
    assert_eq!(convex_hull(&[(7, 7)]), vec![(7, 7)]);
    assert_eq!(convex_hull(&[(4, 4), (4, 4)]), vec![(4, 4), (4, 4)]);
    assert_eq!(convex_hull(&[]), Vec::<(u32, u32)>::new());
}

#[test]
fn repeated_points_collapse_to_the_sorted_distinct_points() {
    assert_eq!(convex_hull(&[(3, 3), (1, 2), (3, 3), (1, 2)]), vec![(1, 2), (3, 3)]);
}

#[test]
fn collinear_points_come_back_sorted() {
    assert_eq!(
        convex_hull(&[(4, 4), (0, 0), (2, 2), (1, 1)]),
        vec![(0, 0), (1, 1), (2, 2), (4, 4)]
    );
}

#[test]
fn sort_unique_orders_by_x_then_y() {
    assert_eq!(
        sort_unique(&[(2, 1), (1, 5), (2, 0), (1, 5), (0, 9)]),
        vec![(0, 9), (1, 5), (2, 0), (2, 1)]
    );
}

fn cross(o: (u32, u32), a: (u32, u32), b: (u32, u32)) -> i64 {
    let (ox, oy) = (i64::from(o.0), i64::from(o.1));
    (i64::from(a.0) - ox) * (i64::from(b.1) - oy) - (i64::from(a.1) - oy) * (i64::from(b.0) - ox)
}

// A small linear congruential sequence of pixels in a 40 × 40 box.
fn scatter(n: usize, seed: u64) -> Vec<(u32, u32)> {
    let mut state = seed;
    (0..n)
        .map(|_| {
            state = state.wrapping_mul(6_364_136_223_846_793_005).wrapping_add(1_442_695_040_888_963_407);
            (((state >> 33) % 40) as u32, ((state >> 17) % 40) as u32)
        })
        .collect()
}

#[test]
fn hull_is_strictly_convex_and_encloses_every_point() {
    for seed in 1..40 {
        let pts = scatter(25, seed);
        let h = convex_hull(&pts);
        let n = h.len();
        assert!(n >= 3, "seed {seed}");
        let min = *pts.iter().min().unwrap();
        assert_eq!(h[0], min, "starts at the smallest point");
        for i in 0..n {
            let (a, b, c) = (h[i], h[(i + 1) % n], h[(i + 2) % n]);
            assert!(cross(a, b, c) > 0, "seed {seed}: turn at {b:?}");
            for &q in &pts {
                assert!(cross(a, b, q) >= 0, "seed {seed}: {q:?} outside edge {a:?}-{b:?}");
            }
            assert!(pts.contains(&h[i]));
            assert!(!h[i + 1..].contains(&h[i]), "seed {seed}: repeated vertex {:?}", h[i]);
        }
    }
}

#[test]
fn square_with_inner_and_edge_points() {
    let pts = [(0, 0), (2, 0), (2, 2), (0, 2), (1, 1), (1, 0)];
    assert_eq!(convex_hull(&pts), vec![(0, 0), (2, 0), (2, 2), (0, 2)]);
}
