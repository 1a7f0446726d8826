use pareto_structs::pareto_pq::list::ListParetoFront;
use pareto_structs::pareto_pq::util::CartesianParetoElement;
use pareto_structs::pareto_pq::{ParetoElement, ParetoFront};

#[test]
fn list_test_some_inserts() {
    let mut front = ListParetoFront::<CartesianParetoElement>::default();
    assert!(front.insert(CartesianParetoElement::new(vec![1, 0])));
    assert!(front.insert(CartesianParetoElement::new(vec![0, 1])));
    assert!(!front.insert(CartesianParetoElement::new(vec![1, 1])));
}

#[test]
fn util_test_strict_dominance() {
    let e1 = CartesianParetoElement::new(vec![0]);
    let e2 = CartesianParetoElement::new(vec![1]);
    assert!(e1.dominates(&e2));
}

#[test]
fn util_test_nonstrict_dominance() {
    let e1 = CartesianParetoElement::new(vec![0]);
    let e2 = CartesianParetoElement::new(vec![0]);
    assert!(e1.dominates(&e2));
}

#[test]
fn util_test_non_dominance() {
    let e1 = CartesianParetoElement::new(vec![1]);
    let e2 = CartesianParetoElement::new(vec![0]);
    assert!(!e1.dominates(&e2));
}

#[test]
fn util_test_2d_dominance() {
    let e1 = CartesianParetoElement::new(vec![1, 0]);
    let e2 = CartesianParetoElement::new(vec![2, 1]);
    assert!(e1.dominates(&e2));
}

#[test]
fn util_test_2d_dominance2() {
    let e1 = CartesianParetoElement::new(vec![1, 0]);
    let e2 = CartesianParetoElement::new(vec![1, 1]);
    assert!(e1.dominates(&e2));
}

#[test]
fn util_test_2d_non_dominance() {
    let e1 = CartesianParetoElement::new(vec![1, 0]);
    let e2 = CartesianParetoElement::new(vec![0, 1]);
    assert!(!e1.dominates(&e2));
}

#[test]
fn list_test_peek_empty() {
    let front = ListParetoFront::<CartesianParetoElement>::default();
    assert!(front.peek_minimum_element(0).is_none());
    assert!(front.peek_minimum_coordinate(0).is_none());
}

#[test]
fn list_test_query_range() {
    let mut front = ListParetoFront::<CartesianParetoElement>::default();
    assert!(front.insert(CartesianParetoElement::new(vec![1, 9])));
    assert!(front.insert(CartesianParetoElement::new(vec![5, 5])));
    assert!(front.insert(CartesianParetoElement::new(vec![9, 1])));
    let hits = front.query(&[4, 4], &[6, 6]);
    assert_eq!(hits.len(), 1);
    assert_eq!(hits[0], &CartesianParetoElement::new(vec![5, 5]));
}

#[test]
fn list_test_remove_reports_presence() {
    let mut front = ListParetoFront::<CartesianParetoElement>::default();
    assert!(front.insert(CartesianParetoElement::new(vec![2, 3])));
    assert!(!front.remove(&CartesianParetoElement::new(vec![3, 2])));
    assert!(front.remove(&CartesianParetoElement::new(vec![2, 3])));
    assert!(!front.remove(&CartesianParetoElement::new(vec![2, 3])));
}
