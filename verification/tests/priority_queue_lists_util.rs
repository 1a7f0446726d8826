use pareto_structs::priority_queue::pareto_list;
use pareto_structs::priority_queue::pareto_pq_list;
use pareto_structs::priority_queue::util::CartesianParetoElement;
use pareto_structs::priority_queue::{GuidedElement, ParetoElement, PriorityQueue};

#[test]
fn pareto_list_test_some_inserts() {
    let mut front = pareto_list::ListParetoFront::<CartesianParetoElement>::default();
    assert!(front.insert(CartesianParetoElement::new(vec![1, 0])));
    assert!(front.insert(CartesianParetoElement::new(vec![0, 1])));
    assert!(!front.insert(CartesianParetoElement::new(vec![1, 1])));
}

#[test]
fn pareto_pq_list_test_some_inserts() {
    let mut front = pareto_pq_list::ListParetoFront::<CartesianParetoElement>::default();
    assert!(front.insert(CartesianParetoElement::new(vec![1, 0])));
    assert!(front.insert(CartesianParetoElement::new(vec![0, 1])));
    assert!(!front.insert(CartesianParetoElement::new(vec![1, 1])));
}

#[test]
fn test_strict_dominance() {
    let e1 = CartesianParetoElement::new(vec![0]);
    let e2 = CartesianParetoElement::new(vec![1]);
    assert!(e1.dominates(&e2));
}

#[test]
fn test_nonstrict_dominance() {
    let e1 = CartesianParetoElement::new(vec![0]);
    let e2 = CartesianParetoElement::new(vec![0]);
    assert!(e1.dominates(&e2));
}

#[test]
fn test_non_dominance() {
    let e1 = CartesianParetoElement::new(vec![1]);
    let e2 = CartesianParetoElement::new(vec![0]);
    assert!(!e1.dominates(&e2));
}

#[test]
fn test_2d_dominance() {
    let e1 = CartesianParetoElement::new(vec![1, 0]);
    let e2 = CartesianParetoElement::new(vec![2, 1]);
    assert!(e1.dominates(&e2));
}

#[test]
fn test_2d_dominance2() {
    let e1 = CartesianParetoElement::new(vec![1, 0]);
    let e2 = CartesianParetoElement::new(vec![1, 1]);
    assert!(e1.dominates(&e2));
}

#[test]
fn test_2d_non_dominance() {
    let e1 = CartesianParetoElement::new(vec![1, 0]);
    let e2 = CartesianParetoElement::new(vec![0, 1]);
    assert!(!e1.dominates(&e2));
}

#[test]
fn test_guide_is_coordinate_sum() {
    let e = CartesianParetoElement::new(vec![3, 4]);
    assert_eq!(e.guide(), 7);
}

#[test]
fn test_pop_min_and_max_by_guide() {
    let mut front = pareto_list::ListParetoFront::<CartesianParetoElement>::default();
    assert!(front.insert(CartesianParetoElement::new(vec![1, 9])));
    assert!(front.insert(CartesianParetoElement::new(vec![8, 1])));
    assert!(front.insert(CartesianParetoElement::new(vec![5, 3])));
    assert_eq!(front.peek_min().unwrap(), &CartesianParetoElement::new(vec![5, 3]));
    assert_eq!(front.peek_max().unwrap(), &CartesianParetoElement::new(vec![1, 9]));
    assert_eq!(front.pop_min().unwrap(), CartesianParetoElement::new(vec![5, 3]));
    assert_eq!(front.pop_max().unwrap(), CartesianParetoElement::new(vec![1, 9]));
    assert_eq!(front.pop_min().unwrap(), CartesianParetoElement::new(vec![8, 1]));
    assert!(front.is_empty());
}

#[test]
fn test_pq_list_pop_order() {
    let mut front = pareto_pq_list::ListParetoFront::<CartesianParetoElement>::default();
    assert!(front.insert(CartesianParetoElement::new(vec![1, 9])));
    assert!(front.insert(CartesianParetoElement::new(vec![8, 1])));
    assert!(front.insert(CartesianParetoElement::new(vec![5, 3])));
    assert_eq!(front.pop_minimum().unwrap(), CartesianParetoElement::new(vec![5, 3]));
    assert_eq!(front.pop_maximum().unwrap(), CartesianParetoElement::new(vec![1, 9]));
    assert_eq!(front.peek_minimum_guide().unwrap(), 9);
    assert_eq!(front.peek_maximum_guide().unwrap(), 9);
}
