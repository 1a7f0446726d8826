use pareto_structs::set_store::list::ListSetStore;
use pareto_structs::set_store::set_trie::TrieSetStore;
use pareto_structs::set_store::SetStore;

#[test]
fn list_test_subset() {
    assert!(ListSetStore::is_subset(&[], &[]));
    assert!(ListSetStore::is_subset(&[], &[1]));
    assert!(ListSetStore::is_subset(&[], &[1, 2]));
    assert!(ListSetStore::is_subset(&[1], &[1, 2]));
    assert!(ListSetStore::is_subset(&[1, 2], &[1, 2]));
    assert!(ListSetStore::is_subset(&[1, 4], &[1, 2, 3, 4]));
    assert!(!ListSetStore::is_subset(&[1, 5], &[1, 2, 3, 4]));
    assert!(!ListSetStore::is_subset(&[1, 3], &[1, 2, 4]));
    assert!(!ListSetStore::is_subset(&[1, 3], &[3, 4, 5]));
}

#[test]
fn test_insert_emptyset() {
    let mut trie = TrieSetStore::default();
    let s: Vec<usize> = vec![];
    trie.insert(&s);
}

#[test]
fn test_insert() {
    let mut trie = TrieSetStore::default();
    let a: Vec<usize> = vec![1, 2, 3];
    let b: Vec<usize> = vec![1, 3];
    trie.insert(&a);
    trie.insert(&b);
}

#[test]
fn test_contains() {
    let mut trie = TrieSetStore::default();
    let a: Vec<usize> = vec![1, 2, 3];
    let b: Vec<usize> = vec![1, 3];
    trie.insert(&a);
    trie.insert(&b);
    let c: Vec<usize> = vec![1];
    let d: Vec<usize> = vec![3];
    assert!(!trie.contains(&c));
    assert!(!trie.contains(&d));
    assert!(trie.contains(&a));
    assert!(trie.contains(&b));
}

#[test]
fn test_remove() {
    let mut trie = TrieSetStore::default();
    let a: Vec<usize> = vec![1, 2, 3];
    let b: Vec<usize> = vec![1, 3];
    trie.insert(&a);
    trie.insert(&b);
    assert!(trie.remove(&b));
    assert!(trie.remove(&a));
}

#[test]
fn test_subset() {
    let mut trie = TrieSetStore::default();
    let a: Vec<usize> = vec![1, 2, 3];
    let b: Vec<usize> = vec![1, 3];
    let c: Vec<usize> = vec![1];
    trie.insert(&a);
    trie.insert(&b);
    trie.insert(&c);
    assert_eq!(trie.find_subsets(&b).len(), 2);
}

#[test]
fn test_superset() {
    let mut trie = TrieSetStore::default();
    let a: Vec<usize> = vec![1, 2, 3];
    let b: Vec<usize> = vec![1, 3];
    let c: Vec<usize> = vec![1];
    trie.insert(&a);
    trie.insert(&b);
    trie.insert(&c);
    assert_eq!(trie.find_supersets(&b).len(), 2);
}

#[test]
fn test_list_store_roundtrip() {
    let mut store = ListSetStore::default();
    let a: Vec<usize> = vec![1, 2, 3];
    let b: Vec<usize> = vec![1, 3];
    assert!(store.insert(&a));
    assert!(store.insert(&b));
    assert!(store.contains(&a));
    assert_eq!(store.find_subsets(&a).len(), 2);
    assert_eq!(store.find_supersets(&b).len(), 2);
    assert!(store.remove(&a));
    assert!(!store.contains(&a));
    assert!(!store.remove(&a));
}

#[test]
fn test_trie_insert_twice() {
    let mut trie = TrieSetStore::default();
    let a: Vec<usize> = vec![2, 5];
    assert!(trie.insert(&a));
    assert!(!trie.insert(&a));
    assert!(trie.contains(&a));
    assert!(trie.remove(&a));
    assert!(!trie.contains(&a));
}
