use tsp_solver::distance::{Coords, DistKind, MAX_COORD};
use tsp_solver::instance::{Edge, Instance};

fn pt(x: i64, y: i64) -> Coords {
    Coords { x, y }
}

#[test]
fn new_keeps_what_it_was_given() {
    let inst = Instance::new(
        "square".to_string(),
        "EUC_2D".to_string(),
        DistKind::Euclidean2D,
        vec![pt(0, 0), pt(0, 3), pt(4, 3), pt(4, 0)],
    )
    .unwrap();
    assert_eq!(inst.get_name(), "square");
    assert_eq!(inst.get_dist_type(), "EUC_2D");
    assert_eq!(inst.get_kind(), DistKind::Euclidean2D);
    assert_eq!(inst.size(), 4);
    assert_eq!(inst.get_x(2), 4);
    assert_eq!(inst.get_y(2), 3);
    assert_eq!(inst.get_x(0), 0);
    assert_eq!(inst.get_y(1), 3);
}

#[test]
fn new_refuses_a_coordinate_out_of_range() {
    let r = Instance::new(
        String::new(),
        String::new(),
        DistKind::Euclidean2D,
        vec![pt(0, 0), pt(MAX_COORD + 1, 0)],
    );
    assert!(r.is_none());
    let r = Instance::new(
        String::new(),
        String::new(),
        DistKind::Constant,
        vec![pt(0, -MAX_COORD - 1)],
    );
    assert!(r.is_none());
}

#[test]
fn new_accepts_the_limits_and_the_empty_instance() {
    let r = Instance::new(
        String::new(),
        String::new(),
        DistKind::Euclidean2D,
        vec![pt(MAX_COORD, -MAX_COORD)],
    );
    assert!(r.is_some());
    let r = Instance::new(String::new(), String::new(), DistKind::Euclidean2D, vec![]);
    assert_eq!(r.unwrap().size(), 0);
}

#[test]
fn dist_uses_the_formula_of_the_instance() {
    let coords = vec![pt(0, 0), pt(3, 4), pt(10, 0), pt(1, 1)];
    let euc = Instance::new(String::new(), String::new(), DistKind::Euclidean2D, coords.clone())
        .unwrap();
    let ceil =
        Instance::new(String::new(), String::new(), DistKind::Euclidean2DCeil, coords.clone())
            .unwrap();
    let att =
        Instance::new(String::new(), String::new(), DistKind::PseudoEuclideanAtt, coords.clone())
            .unwrap();
    let one = Instance::new(String::new(), String::new(), DistKind::Constant, coords).unwrap();
    assert_eq!(euc.dist(0, 1), 5);
    assert_eq!(euc.dist(1, 0), 5);
    assert_eq!(euc.dist(0, 3), 1);
    assert_eq!(ceil.dist(0, 3), 2);
    assert_eq!(att.dist(0, 2), 4);
    assert_eq!(att.dist(0, 1), 2);
    assert_eq!(one.dist(0, 2), 1);
    assert_eq!(euc.dist(2, 2), 0);
}

#[test]
fn clone_is_the_same_instance() {
    let inst = Instance::new(
        "a".to_string(),
        "CEIL_2D".to_string(),
        DistKind::Euclidean2DCeil,
        vec![pt(0, 0), pt(1, 1)],
    )
    .unwrap();
    let copy = inst.clone();
    assert_eq!(copy.get_name(), "a");
    assert_eq!(copy.size(), 2);
    assert_eq!(copy.dist(0, 1), 2);
}

#[test]
fn edges_compare_by_their_ends() {
    let e = Edge { v: 1, u: 2 };
    let f = e;
    assert_eq!(e, f);
    assert_ne!(e, Edge { v: 2, u: 1 });
}
