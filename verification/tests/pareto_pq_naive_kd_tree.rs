use pareto_structs::pareto_pq::naive_kd_tree::NaiveKDTreeFront;
use pareto_structs::pareto_pq::util::CartesianParetoElement;
use pareto_structs::pareto_pq::ParetoFront;

#[test]
fn naive_kd_tree_test_simple() {
    let mut front: NaiveKDTreeFront<CartesianParetoElement> = NaiveKDTreeFront::create_empty(2);
    front.insert_without_check(CartesianParetoElement::new(vec![0, 1]));
    front.insert_without_check(CartesianParetoElement::new(vec![1, 0]));
    front.insert_without_check(CartesianParetoElement::new(vec![2, 0]));
    front.insert_without_check(CartesianParetoElement::new(vec![0, 0]));
    assert!(front.search(&CartesianParetoElement::new(vec![0, 1])).is_some());
    assert!(front.search(&CartesianParetoElement::new(vec![1, 0])).is_some());
    assert!(front.search(&CartesianParetoElement::new(vec![2, 0])).is_some());
    assert!(front.search(&CartesianParetoElement::new(vec![1, 1])).is_none());
    assert!(front.search(&CartesianParetoElement::new(vec![0, 0])).is_some());
}

#[test]
fn naive_kd_tree_test_find_min_0() {
    let mut front: NaiveKDTreeFront<CartesianParetoElement> = NaiveKDTreeFront::create_empty(2);
    front.insert_without_check(CartesianParetoElement::new(vec![0, 10]));
    front.insert_without_check(CartesianParetoElement::new(vec![10, 5]));
    front.insert_without_check(CartesianParetoElement::new(vec![20, 0]));
    assert_eq!(
        front.peek_minimum_element(0).unwrap(),
        &CartesianParetoElement::new(vec![0, 10])
    );
}

#[test]
fn naive_kd_tree_test_find_min_1() {
    let mut front: NaiveKDTreeFront<CartesianParetoElement> = NaiveKDTreeFront::create_empty(2);
    front.insert_without_check(CartesianParetoElement::new(vec![0, 10]));
    front.insert_without_check(CartesianParetoElement::new(vec![10, 5]));
    front.insert_without_check(CartesianParetoElement::new(vec![20, 0]));
    assert_eq!(
        front.peek_minimum_element(1).unwrap(),
        &CartesianParetoElement::new(vec![20, 0])
    );
}

#[test]
fn naive_kd_tree_test_remove_empty() {
    let mut front: NaiveKDTreeFront<CartesianParetoElement> = NaiveKDTreeFront::create_empty(2);
    assert!(front.remove_and_return(&CartesianParetoElement::new(vec![0, 0])).is_none());
}

#[test]
fn naive_kd_tree_test_remove_1() {
    let mut front: NaiveKDTreeFront<CartesianParetoElement> = NaiveKDTreeFront::create_empty(2);
    front.insert_without_check(CartesianParetoElement::new(vec![10, 10]));
    assert!(front.remove_and_return(&CartesianParetoElement::new(vec![10, 10])).is_some());
    assert!(front.is_empty());
}

#[test]
fn naive_kd_tree_test_remove_2() {
    let mut front: NaiveKDTreeFront<CartesianParetoElement> = NaiveKDTreeFront::create_empty(2);
    front.insert_without_check(CartesianParetoElement::new(vec![10, 10]));
    assert!(front.remove_and_return(&CartesianParetoElement::new(vec![0, 0])).is_none());
    assert!(!front.is_empty());
}

#[test]
fn naive_kd_tree_test_remove_3() {
    // delete center, right, left
    let mut front: NaiveKDTreeFront<CartesianParetoElement> = NaiveKDTreeFront::create_empty(2);
    front.insert_without_check(CartesianParetoElement::new(vec![10, 10]));
    front.insert_without_check(CartesianParetoElement::new(vec![5, 5]));
    front.insert_without_check(CartesianParetoElement::new(vec![20, 20]));
    assert!(front.remove_and_return(&CartesianParetoElement::new(vec![10, 10])).is_some());
    assert!(front.remove_and_return(&CartesianParetoElement::new(vec![10, 10])).is_none());
    assert!(!front.is_empty());
    assert!(front.search(&CartesianParetoElement::new(vec![20, 20])).is_some());
    assert!(front.remove_and_return(&CartesianParetoElement::new(vec![20, 20])).is_some());
    assert!(front.remove_and_return(&CartesianParetoElement::new(vec![20, 20])).is_none());
    assert!(!front.is_empty());
    assert!(front.search(&CartesianParetoElement::new(vec![5, 5])).is_some());
    assert!(front.remove_and_return(&CartesianParetoElement::new(vec![5, 5])).is_some());
    assert!(front.remove_and_return(&CartesianParetoElement::new(vec![5, 5])).is_none());
    assert!(front.is_empty());
}

#[test]
fn naive_kd_tree_test_remove_4() {
    // delete right, center, left
    let mut front: NaiveKDTreeFront<CartesianParetoElement> = NaiveKDTreeFront::create_empty(2);
    front.insert_without_check(CartesianParetoElement::new(vec![10, 10]));
    front.insert_without_check(CartesianParetoElement::new(vec![5, 5]));
    front.insert_without_check(CartesianParetoElement::new(vec![20, 20]));
    assert!(front.remove_and_return(&CartesianParetoElement::new(vec![20, 20])).is_some());
    assert!(front.remove_and_return(&CartesianParetoElement::new(vec![20, 20])).is_none());
    assert!(!front.is_empty());
    assert!(front.search(&CartesianParetoElement::new(vec![10, 10])).is_some());
    assert!(front.remove_and_return(&CartesianParetoElement::new(vec![10, 10])).is_some());
    assert!(front.remove_and_return(&CartesianParetoElement::new(vec![10, 10])).is_none());
    assert!(!front.is_empty());
    assert!(front.search(&CartesianParetoElement::new(vec![5, 5])).is_some());
    assert!(front.remove_and_return(&CartesianParetoElement::new(vec![5, 5])).is_some());
    assert!(front.remove_and_return(&CartesianParetoElement::new(vec![5, 5])).is_none());
    assert!(front.is_empty());
}

#[test]
fn naive_kd_tree_test_remove_5() {
    // delete left, center, right
    let mut front: NaiveKDTreeFront<CartesianParetoElement> = NaiveKDTreeFront::create_empty(2);
    front.insert_without_check(CartesianParetoElement::new(vec![10, 10]));
    front.insert_without_check(CartesianParetoElement::new(vec![5, 5]));
    front.insert_without_check(CartesianParetoElement::new(vec![20, 20]));
    assert!(front.remove_and_return(&CartesianParetoElement::new(vec![5, 5])).is_some());
    assert!(front.remove_and_return(&CartesianParetoElement::new(vec![5, 5])).is_none());
    assert!(!front.is_empty());
    assert!(front.search(&CartesianParetoElement::new(vec![10, 10])).is_some());
    assert!(front.remove_and_return(&CartesianParetoElement::new(vec![10, 10])).is_some());
    assert!(front.remove_and_return(&CartesianParetoElement::new(vec![10, 10])).is_none());
    assert!(!front.is_empty());
    assert!(front.search(&CartesianParetoElement::new(vec![20, 20])).is_some());
    assert!(front.remove_and_return(&CartesianParetoElement::new(vec![20, 20])).is_some());
    assert!(front.remove_and_return(&CartesianParetoElement::new(vec![20, 20])).is_none());
    assert!(front.is_empty());
}

#[test]
fn naive_kd_tree_test_pop_min_1() {
    let mut front: NaiveKDTreeFront<CartesianParetoElement> = NaiveKDTreeFront::create_empty(2);
    front.insert_without_check(CartesianParetoElement::new(vec![10, 10]));
    front.insert_without_check(CartesianParetoElement::new(vec![5, 5]));
    front.insert_without_check(CartesianParetoElement::new(vec![20, 20]));
    assert_eq!(
        front.pop_minimum_element(0).unwrap(),
        CartesianParetoElement::new(vec![5, 5])
    );
    assert_eq!(
        front.pop_minimum_element(0).unwrap(),
        CartesianParetoElement::new(vec![10, 10])
    );
    assert_eq!(
        front.pop_minimum_element(0).unwrap(),
        CartesianParetoElement::new(vec![20, 20])
    );
    assert!(front.is_empty());
}

#[test]
fn naive_kd_tree_test_insert_no_domination() {
    let mut front: NaiveKDTreeFront<CartesianParetoElement> = NaiveKDTreeFront::create_empty(2);
    front.insert(CartesianParetoElement::new(vec![5, 10]));
    front.insert(CartesianParetoElement::new(vec![10, 5]));
    assert_eq!(
        front.pop_minimum_element(0).unwrap(),
        CartesianParetoElement::new(vec![5, 10])
    );
    assert_eq!(
        front.pop_minimum_element(0).unwrap(),
        CartesianParetoElement::new(vec![10, 5])
    );
    assert!(front.is_empty());
}

#[test]
fn naive_kd_tree_test_insert_domination_by_existing() {
    let mut front: NaiveKDTreeFront<CartesianParetoElement> = NaiveKDTreeFront::create_empty(2);
    assert!(front.insert(CartesianParetoElement::new(vec![5, 5])));
    assert!(!front.insert(CartesianParetoElement::new(vec![10, 10])));
    assert_eq!(
        front.pop_minimum_element(0).unwrap(),
        CartesianParetoElement::new(vec![5, 5])
    );
    assert!(front.is_empty());
}

#[test]
fn naive_kd_tree_test_insert_domination_by_inserted() {
    let mut front: NaiveKDTreeFront<CartesianParetoElement> = NaiveKDTreeFront::create_empty(2);
    assert!(front.insert(CartesianParetoElement::new(vec![10, 10])));
    assert!(front.insert(CartesianParetoElement::new(vec![5, 5])));
    assert_eq!(
        front.pop_minimum_element(0).unwrap(),
        CartesianParetoElement::new(vec![5, 5])
    );
    assert!(front.is_empty());
}
