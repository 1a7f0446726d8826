use pareto_structs::pareto_pq::kd_tree::KDTreeFront;
use pareto_structs::pareto_pq::util::CartesianParetoElement;
use pareto_structs::pareto_pq::{ParetoElement, ParetoFront};

fn elem(a: u16, b: u16) -> CartesianParetoElement {
    CartesianParetoElement::new(vec![a, b])
}

#[test]
fn test_round_trip_insert_remove() {
    // removing an element right after inserting it restores the front when
    // the element evicted nothing
    let mut front: KDTreeFront<CartesianParetoElement> = KDTreeFront::create_empty(2);
    assert!(front.insert(elem(3, 9)));
    assert!(front.insert(elem(9, 3)));
    assert!(front.insert(elem(5, 5)));
    assert!(front.remove(&elem(5, 5)));
    assert!(front.search(&elem(3, 9)).is_some());
    assert!(front.search(&elem(9, 3)).is_some());
    assert!(front.search(&elem(5, 5)).is_none());
    assert_eq!(front.pop_minimum_element(0).unwrap(), elem(3, 9));
    assert_eq!(front.pop_minimum_element(0).unwrap(), elem(9, 3));
    assert!(front.is_empty());
}

#[test]
fn test_pop_sequence_after_removal() {
    // a removal must leave the cached bounds exact, or the later directed
    // searches would go wrong
    let mut front: KDTreeFront<CartesianParetoElement> = KDTreeFront::create_empty(2);
    front.insert_without_check(elem(8, 2));
    front.insert_without_check(elem(2, 8));
    front.insert_without_check(elem(5, 5));
    front.insert_without_check(elem(1, 9));
    assert!(front.remove(&elem(1, 9)));
    assert_eq!(front.pop_minimum_element(0).unwrap(), elem(2, 8));
    assert_eq!(front.pop_minimum_element(0).unwrap(), elem(5, 5));
    assert_eq!(front.pop_minimum_element(0).unwrap(), elem(8, 2));
    assert!(front.is_empty());
}

#[test]
fn test_antichain_kept_by_insert() {
    // inserting an element evicts exactly what it dominates, keeping the
    // front an antichain
    let mut front: KDTreeFront<CartesianParetoElement> = KDTreeFront::create_empty(2);
    assert!(front.insert(elem(10, 10)));
    assert!(front.insert(elem(4, 6)));
    assert!(front.insert(elem(6, 4)));
    assert!(front.insert(elem(5, 5)));
    let mut popped: Vec<CartesianParetoElement> = Vec::new();
    while let Some(e) = front.pop_minimum_element(0) {
        popped.push(e);
    }
    assert_eq!(popped, vec![elem(4, 6), elem(5, 5), elem(6, 4)]);
    for x in &popped {
        for y in &popped {
            if x != y {
                assert!(!x.dominates(y));
            }
        }
    }
}

#[test]
fn test_find_dominating_reports_a_dominator() {
    let mut front: KDTreeFront<CartesianParetoElement> = KDTreeFront::create_empty(2);
    assert!(front.insert(elem(4, 6)));
    assert!(front.insert(elem(6, 4)));
    assert_eq!(front.find_dominating(&elem(5, 7)).unwrap(), &elem(4, 6));
    assert!(front.find_dominating(&elem(3, 3)).is_none());
}

#[test]
fn test_peek_does_not_remove() {
    let mut front: KDTreeFront<CartesianParetoElement> = KDTreeFront::create_empty(2);
    assert!(front.insert(elem(4, 6)));
    assert_eq!(front.peek_minimum_element(1).unwrap(), &elem(4, 6));
    assert!(!front.is_empty());
    assert_eq!(front.peek_minimum_coordinate(1).unwrap(), 6);
}
