use tilemachine::bbox::BoundingBox;
use tilemachine::utils::{Error, ScriptError};

fn bx(xmin: i64, ymin: i64, xmax: i64, ymax: i64) -> BoundingBox {
    BoundingBox { xmin, ymin, xmax, ymax }
}

#[test]
fn test_union_of_empty_list_fails() {
    let r = BoundingBox::union(&[]);
    assert!(matches!(
        r,
        Err(Error::ScriptError(ScriptError::NotEnoughinputs))
    ));
}

#[test]
fn test_union_is_componentwise_min_max() {
    let a = bx(0, 0, 10, 10);
    let b = bx(-5, 3, 7, 20);
    let c = bx(2, -8, 3, 4);
    let u = BoundingBox::union(&[a, b, c]).unwrap();
    assert_eq!(u.xmin, -5);
    assert_eq!(u.ymin, -8);
    assert_eq!(u.xmax, 10);
    assert_eq!(u.ymax, 20);
}

#[test]
fn test_union_is_order_independent() {
    let a = bx(0, 0, 10, 10);
    let b = bx(-5, 3, 7, 20);
    let c = bx(2, -8, 3, 4);
    let orders: Vec<Vec<BoundingBox>> = vec![
        vec![a, b, c],
        vec![a, c, b],
        vec![b, a, c],
        vec![b, c, a],
        vec![c, a, b],
        vec![c, b, a],
    ];
    let first = BoundingBox::union(&orders[0]).unwrap();
    for order in &orders {
        let u = BoundingBox::union(order).unwrap();
        assert_eq!(u.xmin, first.xmin);
        assert_eq!(u.ymin, first.ymin);
        assert_eq!(u.xmax, first.xmax);
        assert_eq!(u.ymax, first.ymax);
    }
}

#[test]
fn test_union_of_single_box_is_identity() {
    let a = bx(1, 2, 3, 4);
    let u = BoundingBox::union(&[a]).unwrap();
    assert_eq!(u.xmin, 1);
    assert_eq!(u.ymin, 2);
    assert_eq!(u.xmax, 3);
    assert_eq!(u.ymax, 4);
}

#[test]
fn test_union_with_itself_is_idempotent() {
    let a = bx(-3, 5, 9, 11);
    let u = BoundingBox::union(&[a, a]).unwrap();
    assert_eq!(u.xmin, a.xmin);
    assert_eq!(u.ymin, a.ymin);
    assert_eq!(u.xmax, a.xmax);
    assert_eq!(u.ymax, a.ymax);
}

#[test]
fn test_extend_merges_in_place() {
    let mut a = bx(0, 0, 10, 10);
    a.extend(&bx(-1, 5, 4, 30));
    assert_eq!(a.xmin, -1);
    assert_eq!(a.ymin, 0);
    assert_eq!(a.xmax, 10);
    assert_eq!(a.ymax, 30);
}

#[test]
fn test_to_array_order() {
    let a = bx(7, -2, 9, 4);
    assert_eq!(a.to_array(), [7, -2, 9, 4]);
}

#[test]
fn test_to_polygon_closed_ring() {
    let a = bx(1, 2, 5, 9);
    let p = a.to_polygon();
    assert_eq!(p.geom_type, "polygon");
    assert_eq!(p.coordinates.len(), 1);
    let ring = &p.coordinates[0];
    assert_eq!(ring.len(), 5);
    assert_eq!(ring[0], [1, 2]);
    assert_eq!(ring[1], [5, 2]);
    assert_eq!(ring[2], [5, 9]);
    assert_eq!(ring[3], [1, 9]);
    assert_eq!(ring[4], [1, 2]);
}
