use sorted_groups::{Element, SortedGroups};

fn el(group: i32, value: i32) -> Element {
    Element { group, value }
}

#[test]
fn test_empty_sorted_groups() {
    let sorted_groups = SortedGroups::new(vec![], |e| e.group);
    assert_eq!(sorted_groups.len(), 0);
}

#[test]
fn test_insert_sorted_groups() {
    let sorted_groups = SortedGroups::new(
        vec![
            Element { group: 1, value: 1 },
            Element { group: 1, value: 2 },
            Element { group: 2, value: 1 },
        ],
        |e| e.group,
    );

    assert_eq!(sorted_groups.len(), 3);
    assert_eq!(sorted_groups.groups_len(), 2);
    let mut iter = sorted_groups.iter();
    assert_eq!(iter.next(), Some((&1, &Element { group: 1, value: 1 })));
    assert_eq!(iter.next(), Some((&1, &Element { group: 1, value: 2 })));
    assert_eq!(iter.next(), Some((&2, &Element { group: 2, value: 1 })));
    assert_eq!(iter.next(), None);
}

#[test]
fn empty_container_has_nothing() {
    let g = SortedGroups::new(vec![], |e| e.group);
    assert_eq!(g.len(), 0);
    assert_eq!(g.groups_len(), 0);
    assert!(g.is_empty());
    assert_eq!(g.iter().next(), None);
    assert_eq!(g.get(0), None);
    assert!(g.iter_groups().is_empty());
}

#[test]
fn three_elements_two_groups() {
    let g = SortedGroups::new(vec![el(1, 1), el(1, 2), el(2, 3)], |e| e.group);
    assert_eq!(g.len(), 3);
    assert_eq!(g.groups_len(), 2);
    assert!(!g.is_empty());
    let mut it = g.iter();
    assert_eq!(it.next(), Some((&1, &el(1, 1))));
    assert_eq!(it.next(), Some((&1, &el(1, 2))));
    assert_eq!(it.next(), Some((&2, &el(2, 3))));
    assert_eq!(it.next(), None);
    assert_eq!(it.next(), None);
}

#[test]
fn group_order_ignores_insertion_order() {
    let g = SortedGroups::new(vec![el(2, 1), el(1, 1), el(1, 2)], |e| e.group);
    let mut it = g.iter();
    assert_eq!(it.next(), Some((&1, &el(1, 1))));
    assert_eq!(it.next(), Some((&1, &el(1, 2))));
    assert_eq!(it.next(), Some((&2, &el(2, 1))));
    assert_eq!(it.next(), None);
}

#[test]
fn get_by_position() {
    let g = SortedGroups::new(vec![el(1, 1), el(1, 2), el(2, 3)], |e| e.group);
    assert_eq!(g.get(0), Some((&1, &el(1, 1))));
    assert_eq!(g.get(1), Some((&1, &el(1, 2))));
    assert_eq!(g.get(2), Some((&2, &el(2, 3))));
    assert_eq!(g.get(3), None);
    assert_eq!(g.get(5), None);
    assert_eq!(g.get(usize::MAX), None);
}

#[test]
fn elements_within_group_are_sorted() {
    let g = SortedGroups::new(vec![el(0, 9), el(0, -3), el(0, 4), el(0, 0)], |e| e.group);
    let mut it = g.iter();
    assert_eq!(it.next(), Some((&0, &el(0, -3))));
    assert_eq!(it.next(), Some((&0, &el(0, 0))));
    assert_eq!(it.next(), Some((&0, &el(0, 4))));
    assert_eq!(it.next(), Some((&0, &el(0, 9))));
    assert_eq!(it.next(), None);
    assert_eq!(g.groups_len(), 1);
}

#[test]
fn duplicate_element_counted_once() {
    let base = SortedGroups::new(vec![el(1, 1)], |e| e.group);
    let twice = SortedGroups::new(vec![el(1, 1), el(3, 7), el(3, 7)], |e| e.group);
    assert_eq!(base.len(), 1);
    assert_eq!(twice.len(), base.len() + 1);
    assert_eq!(twice.groups_len(), 2);
}

#[test]
fn len_counts_distinct_elements() {
    let g = SortedGroups::new(
        vec![el(1, 1), el(2, 2), el(1, 1), el(2, 2), el(2, 3), el(1, 1)],
        |e| e.group,
    );
    assert_eq!(g.len(), 3);
    assert_eq!(g.groups_len(), 2);
}

#[test]
fn groups_len_counts_distinct_keys() {
    // Key by parity of the value: elements spread over two keys only.
    let g = SortedGroups::new(
        vec![el(1, 1), el(1, 2), el(5, 3), el(7, 4), el(9, 5)],
        |e| e.value % 2,
    );
    assert_eq!(g.len(), 5);
    assert_eq!(g.groups_len(), 2);
    let mut it = g.iter();
    assert_eq!(it.next(), Some((&0, &el(1, 2))));
    assert_eq!(it.next(), Some((&0, &el(7, 4))));
    assert_eq!(it.next(), Some((&1, &el(1, 1))));
    assert_eq!(it.next(), Some((&1, &el(5, 3))));
    assert_eq!(it.next(), Some((&1, &el(9, 5))));
    assert_eq!(it.next(), None);
}

#[test]
fn permuted_input_gives_equal_container() {
    let a = SortedGroups::new(vec![el(3, 1), el(1, 2), el(2, 2), el(1, 1)], |e| e.group);
    let b = SortedGroups::new(vec![el(1, 1), el(2, 2), el(1, 2), el(3, 1)], |e| e.group);
    let c = SortedGroups::new(vec![el(1, 1), el(2, 2), el(1, 2)], |e| e.group);
    assert!(a == b);
    assert!(a != c);
    assert_eq!(a.len(), b.len());
    assert_eq!(a.groups_len(), b.groups_len());
}

#[test]
fn iter_groups_exposes_each_group() {
    let g = SortedGroups::new(vec![el(2, 5), el(1, 4), el(2, 1)], |e| e.group);
    let groups = g.iter_groups();
    assert_eq!(groups.len(), 2);
    assert_eq!(groups[0].0, 1);
    assert_eq!(groups[0].1, vec![el(1, 4)]);
    assert_eq!(groups[1].0, 2);
    assert_eq!(groups[1].1, vec![el(2, 1), el(2, 5)]);
}

#[test]
fn extreme_keys_and_values() {
    let g = SortedGroups::new(
        vec![el(i32::MAX, i32::MIN), el(i32::MIN, i32::MAX), el(i32::MIN, i32::MIN)],
        |e| e.group,
    );
    assert_eq!(g.get(0), Some((&i32::MIN, &el(i32::MIN, i32::MIN))));
    assert_eq!(g.get(1), Some((&i32::MIN, &el(i32::MIN, i32::MAX))));
    assert_eq!(g.get(2), Some((&i32::MAX, &el(i32::MAX, i32::MIN))));
}

#[test]
fn element_order_is_group_then_value() {
    assert!(el(1, 9).less_than(&el(2, 0)));
    assert!(el(1, 1).less_than(&el(1, 2)));
    assert!(!el(1, 2).less_than(&el(1, 2)));
    assert!(!el(2, 0).less_than(&el(1, 9)));
}
