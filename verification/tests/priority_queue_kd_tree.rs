use pareto_structs::priority_queue::kd_tree::KDTreeFront;
use pareto_structs::priority_queue::util::CartesianParetoElement;

#[test]
fn test_insert_then_pop_min() {
    let mut front: KDTreeFront<CartesianParetoElement> = KDTreeFront::create_empty(2);
    front.insert(CartesianParetoElement::new(vec![0, 10]));
    front.insert(CartesianParetoElement::new(vec![10, 5]));
    front.insert(CartesianParetoElement::new(vec![20, 0]));
    assert_eq!(
        front.peek_minimum().unwrap(),
        &CartesianParetoElement::new(vec![0, 10])
    );
    assert_eq!(front.peek_minimum_guide().unwrap(), 10);
}

#[test]
fn test_remove_empty() {
    let mut front: KDTreeFront<CartesianParetoElement> = KDTreeFront::create_empty(2);
    assert!(front.pop_minimum().is_none());
}

#[test]
fn test_remove_1() {
    let mut front: KDTreeFront<CartesianParetoElement> = KDTreeFront::create_empty(2);
    front.insert(CartesianParetoElement::new(vec![10, 10]));
    assert!(front.pop_minimum().is_some());
    assert!(front.is_empty());
}

#[test]
fn test_remove_2() {
    // delete center, right, left
    let mut front: KDTreeFront<CartesianParetoElement> = KDTreeFront::create_empty(2);
    front.insert(CartesianParetoElement::new(vec![10, 10]));
    front.insert(CartesianParetoElement::new(vec![5, 5]));
    front.insert(CartesianParetoElement::new(vec![20, 20]));
    assert_eq!(
        front.pop_minimum(),
        Some(CartesianParetoElement::new(vec![5, 5]))
    );
}

#[test]
fn test_insert_no_domination() {
    let mut front: KDTreeFront<CartesianParetoElement> = KDTreeFront::create_empty(2);
    front.insert(CartesianParetoElement::new(vec![5, 10]));
    front.insert(CartesianParetoElement::new(vec![10, 6]));
    assert_eq!(
        front.pop_minimum().unwrap(),
        CartesianParetoElement::new(vec![5, 10])
    );
    assert_eq!(
        front.pop_minimum().unwrap(),
        CartesianParetoElement::new(vec![10, 6])
    );
    assert!(front.is_empty());
}

#[test]
fn test_insert_domination_by_existing() {
    let mut front: KDTreeFront<CartesianParetoElement> = KDTreeFront::create_empty(2);
    assert!(front.insert(CartesianParetoElement::new(vec![5, 5])));
    assert!(!front.insert(CartesianParetoElement::new(vec![10, 10])));
    assert_eq!(
        front.pop_minimum().unwrap(),
        CartesianParetoElement::new(vec![5, 5])
    );
    assert!(front.is_empty());
}

#[test]
fn test_insert_domination_by_inserted() {
    let mut front: KDTreeFront<CartesianParetoElement> = KDTreeFront::create_empty(2);
    assert!(front.insert(CartesianParetoElement::new(vec![10, 10])));
    assert!(front.insert(CartesianParetoElement::new(vec![5, 5])));
    assert_eq!(
        front.pop_minimum().unwrap(),
        CartesianParetoElement::new(vec![5, 5])
    );
    assert!(front.is_empty());
}

#[test]
fn test_peek_maximum_guide_tracks_largest_sum() {
    let mut front: KDTreeFront<CartesianParetoElement> = KDTreeFront::create_empty(2);
    front.insert(CartesianParetoElement::new(vec![0, 10]));
    front.insert(CartesianParetoElement::new(vec![20, 0]));
    assert_eq!(front.peek_maximum_guide().unwrap(), 20);
}
