use tsp_solver::distance::{
    cost, dist_att, dist_ceil2d, dist_euc2d, dist_one, isqrt, kind_of_tag, Coords, DistKind,
    MAX_COORD,
};

fn pt(x: i64, y: i64) -> Coords {
    Coords { x, y }
}

#[test]
fn isqrt_small_values() {
    let expected: [u64; 18] = [0, 1, 1, 1, 2, 2, 2, 2, 2, 3, 3, 3, 3, 3, 3, 3, 4, 4];
    for m in 0..18u64 {
        assert_eq!(isqrt(m), expected[m as usize], "isqrt({})", m);
    }
}

#[test]
fn isqrt_large_values() {
    assert_eq!(isqrt(u64::MAX), 4_294_967_295);
    assert_eq!(isqrt(4_294_967_295 * 4_294_967_295), 4_294_967_295);
    assert_eq!(isqrt(4_294_967_295 * 4_294_967_295 - 1), 4_294_967_294);
    assert_eq!(isqrt(1 << 62), 1 << 31);
    assert_eq!(isqrt((1 << 62) - 1), (1 << 31) - 1);
}

#[test]
fn isqrt_brackets_its_argument() {
    for m in 0..5000u64 {
        let s = isqrt(m);
        assert!(s * s <= m && m < (s + 1) * (s + 1));
    }
}

#[test]
fn constant_is_always_one() {
    assert_eq!(dist_one(pt(0, 0), pt(3, 4)), 1);
    assert_eq!(dist_one(pt(7, 7), pt(7, 7)), 1);
}

#[test]
fn euclidean_three_four_five() {
    assert_eq!(dist_euc2d(pt(0, 0), pt(3, 4)), 5);
}

#[test]
fn euclidean_ceil_three_four_five() {
    assert_eq!(dist_ceil2d(pt(0, 0), pt(3, 4)), 5);
}

#[test]
fn att_three_four() {
    // sqrt(2.5) = 1.58.. rounds to 2, which is not below it.
    assert_eq!(dist_att(pt(0, 0), pt(3, 4)), 2);
}

#[test]
fn euclidean_rounds_to_nearest() {
    assert_eq!(dist_euc2d(pt(0, 0), pt(1, 1)), 1); // 1.41
    assert_eq!(dist_euc2d(pt(0, 0), pt(1, 2)), 2); // 2.24
    assert_eq!(dist_euc2d(pt(0, 0), pt(2, 2)), 3); // 2.83
    assert_eq!(dist_euc2d(pt(0, 0), pt(10, 10)), 14); // 14.14
    assert_eq!(dist_euc2d(pt(0, 0), pt(0, 1)), 1);
    assert_eq!(dist_euc2d(pt(-3, 2), pt(4, -5)), 10); // 9.899
}

#[test]
fn ceil_rounds_up() {
    assert_eq!(dist_ceil2d(pt(0, 0), pt(1, 1)), 2);
    assert_eq!(dist_ceil2d(pt(0, 0), pt(1, 2)), 3);
    assert_eq!(dist_ceil2d(pt(0, 0), pt(0, 7)), 7);
    assert_eq!(dist_ceil2d(pt(0, 0), pt(10, 10)), 15);
}

#[test]
fn att_adds_one_where_rounding_went_down() {
    // sqrt(100 / 10) = 3.16.. rounds to 3, which is below it.
    assert_eq!(dist_att(pt(0, 0), pt(10, 0)), 4);
    // sqrt(2500 / 10) = 15.81.. rounds to 16.
    assert_eq!(dist_att(pt(0, 0), pt(30, 40)), 16);
    // sqrt(1000 / 10) = 10 exactly.
    assert_eq!(dist_att(pt(0, 0), pt(30, 10)), 10);
    // sqrt(1 / 10) = 0.316.. rounds to 0, which is below it.
    assert_eq!(dist_att(pt(0, 0), pt(1, 0)), 1);
}

#[test]
fn self_distance_is_zero() {
    assert_eq!(dist_euc2d(pt(5, 5), pt(5, 5)), 0);
    assert_eq!(dist_ceil2d(pt(5, 5), pt(5, 5)), 0);
    assert_eq!(dist_att(pt(5, 5), pt(5, 5)), 0);
}

#[test]
fn formulas_are_symmetric() {
    let pts = [pt(0, 0), pt(3, 4), pt(-7, 11), pt(100, -250), pt(1, 1)];
    let kinds = [
        DistKind::Constant,
        DistKind::Euclidean2D,
        DistKind::PseudoEuclideanAtt,
        DistKind::Euclidean2DCeil,
    ];
    for k in kinds {
        for a in pts {
            for b in pts {
                assert_eq!(cost(k, a, b), cost(k, b, a));
                assert!(cost(k, a, b) >= 0);
            }
        }
    }
}

#[test]
fn cost_dispatches_on_the_kind() {
    let a = pt(0, 0);
    let b = pt(1, 1);
    assert_eq!(cost(DistKind::Constant, a, b), 1);
    assert_eq!(cost(DistKind::Euclidean2D, a, b), 1);
    assert_eq!(cost(DistKind::Euclidean2DCeil, a, b), 2);
    assert_eq!(cost(DistKind::PseudoEuclideanAtt, pt(0, 0), pt(10, 0)), 4);
}

#[test]
fn farthest_points_in_range() {
    let a = pt(-MAX_COORD, -MAX_COORD);
    let b = pt(MAX_COORD, MAX_COORD);
    // 2^29 * sqrt(2) = 759250124.99..
    assert_eq!(dist_euc2d(a, b), 759_250_125);
    assert_eq!(dist_ceil2d(a, b), 759_250_125);
    // 2^29 * sqrt(0.2) = 240095970.87..
    assert_eq!(dist_att(a, b), 240_095_971);
    assert!(a.is_in_range() && b.is_in_range());
    assert!(!pt(MAX_COORD + 1, 0).is_in_range());
    assert!(!pt(0, -MAX_COORD - 1).is_in_range());
}

#[test]
fn formulas_match_their_definitions() {
    for x in 0..60i64 {
        for y in 0..60i64 {
            let q = x * x + y * y;
            let e = dist_euc2d(pt(0, 0), pt(x, y)) as i64;
            assert!((2 * e + 1) * (2 * e + 1) > 4 * q);
            assert!(e == 0 || (2 * e - 1) * (2 * e - 1) <= 4 * q);
            let c = dist_ceil2d(pt(0, 0), pt(x, y)) as i64;
            assert!(c * c >= q);
            assert!(c == 0 || (c - 1) * (c - 1) < q);
            let a = dist_att(pt(0, 0), pt(x, y)) as i64;
            assert!(10 * a * a >= q);
            assert!(a == 0 || 10 * (a - 1) * (a - 1) < q);
        }
    }
}

#[test]
fn labels_name_their_formulas() {
    assert_eq!(kind_of_tag("EUC_2D".as_bytes()), Some(DistKind::Euclidean2D));
    assert_eq!(kind_of_tag("CEIL_2D".as_bytes()), Some(DistKind::Euclidean2DCeil));
    assert_eq!(kind_of_tag("ATT".as_bytes()), Some(DistKind::PseudoEuclideanAtt));
}

#[test]
fn unknown_labels_name_nothing() {
    for tag in ["", "EUC_3D", "euc_2d", "EUC_2D ", " ATT", "AT", "ATTT", "GEO", "CEIL_2", "EXPLICIT"] {
        assert_eq!(kind_of_tag(tag.as_bytes()), None, "{:?}", tag);
    }
}
