use rostengan_my::pending::Pending;
use rostengan_my::values::{copy_names, copy_set, has_name, merge_into, missing_from};
use std::collections::HashSet;

fn values(list: &[usize]) -> HashSet<usize> {
    list.iter().copied().collect()
}

fn names(list: &[&str]) -> Vec<String> {
    list.iter().map(|s| s.to_string()).collect()
}

#[test]
fn missing_from_is_the_difference() {
    assert_eq!(missing_from(&values(&[1, 2, 3, 4]), &values(&[2, 4, 6])), values(&[1, 3]));
    assert_eq!(missing_from(&values(&[]), &values(&[1])), values(&[]));
    assert_eq!(missing_from(&values(&[7]), &values(&[])), values(&[7]));
    assert_eq!(missing_from(&values(&[7]), &values(&[7])), values(&[]));
}

#[test]
fn merge_into_is_the_union() {
    let mut target = values(&[1, 2]);
    merge_into(&mut target, &values(&[2, 3]));
    assert_eq!(target, values(&[1, 2, 3]));
    merge_into(&mut target, &values(&[]));
    assert_eq!(target, values(&[1, 2, 3]));
}

#[test]
fn copies_equal_their_sources() {
    assert_eq!(copy_set(&values(&[5, 9, 0])), values(&[0, 5, 9]));
    assert_eq!(copy_names(&names(&["n2", "n1", "n2"])), names(&["n2", "n1", "n2"]));
    assert!(copy_names(&names(&[])).is_empty());
}

#[test]
fn has_name_finds_exact_names_only() {
    let list = names(&["n1", "n22"]);
    assert!(has_name(&list, &"n1".to_string()));
    assert!(has_name(&list, &"n22".to_string()));
    assert!(!has_name(&list, &"n2".to_string()));
    assert!(!has_name(&names(&[]), &"n1".to_string()));
}

#[test]
fn buckets_stand_in_the_order_of_first_use() {
    let mut pending = Pending::new();
    assert_eq!(pending.len(), 0);
    assert_eq!(pending.due_count(), 0);
    pending.add(&"n3".to_string(), &values(&[1]));
    pending.enqueue(&names(&["n1", "n3", "n2", "n1"]), &values(&[2]));
    assert_eq!(pending.len(), 3);
    assert_eq!(pending.neighbour(0), "n3");
    assert_eq!(pending.neighbour(1), "n1");
    assert_eq!(pending.neighbour(2), "n2");
    assert_eq!(pending.values(0), &values(&[1, 2]));
    assert_eq!(pending.values(1), &values(&[2]));
    assert_eq!(pending.values(2), &values(&[2]));
    assert_eq!(pending.find(&"n1".to_string()), Some(1));
    assert_eq!(pending.find(&"n9".to_string()), None);
    assert_eq!(pending.due_count(), 3);
}

#[test]
fn confirm_takes_out_only_what_was_confirmed() {
    let mut pending = Pending::new();
    pending.enqueue(&names(&["n1", "n2"]), &values(&[1, 2, 3]));
    pending.confirm(&"n1".to_string(), &values(&[2, 3, 4]));
    assert_eq!(pending.values(0), &values(&[1]));
    assert_eq!(pending.values(1), &values(&[1, 2, 3]));
    pending.confirm(&"n1".to_string(), &values(&[1]));
    assert!(pending.values(0).is_empty());
    assert_eq!(pending.len(), 2);
    assert_eq!(pending.due_count(), 1);
    pending.confirm(&"n7".to_string(), &values(&[1]));
    assert_eq!(pending.len(), 2);
    assert_eq!(pending.values(1), &values(&[1, 2, 3]));
}
