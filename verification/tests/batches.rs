use near_points::ListNearPoints2D;

#[test]
fn list_near_points() {
    let mut lnps = ListNearPoints2D::new();
    let mut pts: Vec<Vec<(i32, i32)>> = Vec::new();
    for _ in 0..6 {
        pts.push(lnps.next_batch());
    }
    assert_eq!(
        pts,
        vec![
            vec![(1, 0), (-1, 0), (0, 1), (0, -1)],
            vec![(1, 1), (-1, 1), (1, -1), (-1, -1)],
            vec![(2, 0), (-2, 0), (0, 2), (0, -2)],
            vec![
                (2, 1),
                (-2, 1),
                (2, -1),
                (-2, -1),
                (1, 2),
                (1, -2),
                (-1, 2),
                (-1, -2),
            ],
            vec![(2, 2), (-2, 2), (2, -2), (-2, -2)],
            vec![(3, 0), (-3, 0), (0, 3), (0, -3)],
        ]
    );
}

#[test]
fn is_sorted() {
    let mut lnps = ListNearPoints2D::new();
    let limit: usize = 10000;
    let mut res = true;
    let mut p: i32 = 0;
    for _ in 0..limit {
        let batch = lnps.next_batch();
        let (x, y) = batch[0];
        let d: i32 = x.pow(2) + y.pow(2);
        res = res && (p < d);
        p = d;
    }
    assert!(res);
}

#[test]
fn is_completed() {
    let mut lnps = ListNearPoints2D::new();
    let limit: usize = 1000;
    let mut appearance = vec![0u8; limit * limit];
    for _ in 0..(limit * limit * 2) {
        let points = lnps.next_batch();
        for (x, y) in points {
            if x >= 0 && y >= 0 && y < (limit as i32) && x < (limit as i32) {
                appearance[(x as usize) * limit + (y as usize)] += 1;
            }
        }
    }
    assert!(appearance.into_iter().skip(1).all(|x| x == 1u8));
}

#[test]
fn multiply_generic_orbit() {
    let r = ListNearPoints2D::multiply(vec![(2, 1)]);
    assert_eq!(
        r,
        vec![
            (2, 1),
            (-2, 1),
            (2, -1),
            (-2, -1),
            (1, 2),
            (1, -2),
            (-1, 2),
            (-1, -2),
        ]
    );
}

#[test]
fn multiply_axis_orbit() {
    let r = ListNearPoints2D::multiply(vec![(3, 0)]);
    assert_eq!(r, vec![(3, 0), (-3, 0), (0, 3), (0, -3)]);
}

#[test]
fn multiply_diagonal_orbit() {
    let r = ListNearPoints2D::multiply(vec![(2, 2)]);
    assert_eq!(r, vec![(2, 2), (-2, 2), (2, -2), (-2, -2)]);
}

#[test]
fn multiply_concatenates_in_order() {
    let r = ListNearPoints2D::multiply(vec![(4, 3), (5, 0)]);
    assert_eq!(
        r,
        vec![
            (4, 3),
            (-4, 3),
            (4, -3),
            (-4, -3),
            (3, 4),
            (3, -4),
            (-3, 4),
            (-3, -4),
            (5, 0),
            (-5, 0),
            (0, 5),
            (0, -5),
        ]
    );
}

#[test]
fn tie_batch_merges_levels() {
    // squared distance 25 is shared by (4, 3) and (5, 0): one batch holds
    // both orbits, the pending row's first, the freshly opened level's last
    let mut g = ListNearPoints2D::new();
    let mut batch = g.next_batch();
    for _ in 0..12 {
        batch = g.next_batch();
    }
    assert_eq!(
        batch,
        vec![
            (4, 3),
            (-4, 3),
            (4, -3),
            (-4, -3),
            (3, 4),
            (3, -4),
            (-3, 4),
            (-3, -4),
            (5, 0),
            (-5, 0),
            (0, 5),
            (0, -5),
        ]
    );
}

#[test]
fn batch_distances_uniform_and_increasing() {
    let mut g = ListNearPoints2D::new();
    let mut prev: i64 = 0;
    for _ in 0..200 {
        let b = g.next_batch();
        assert!(!b.is_empty());
        let (x0, y0) = b[0];
        let d0: i64 = (x0 as i64) * (x0 as i64) + (y0 as i64) * (y0 as i64);
        for &(x, y) in &b {
            let d: i64 = (x as i64) * (x as i64) + (y as i64) * (y as i64);
            assert_eq!(d, d0);
        }
        assert!(prev < d0);
        prev = d0;
    }
}

#[test]
fn batch_contains_full_orbit() {
    // the batch at squared distance 5 holds all eight images of (2, 1)
    let mut g = ListNearPoints2D::new();
    g.next_batch();
    g.next_batch();
    g.next_batch();
    let b = g.next_batch();
    assert_eq!(b.len(), 8);
    for p in [
        (2, 1),
        (-2, 1),
        (2, -1),
        (-2, -1),
        (1, 2),
        (1, -2),
        (-1, 2),
        (-1, -2),
    ] {
        assert!(b.contains(&p));
    }
}
