use weekly_drills::acyclic::{checked_employee_count, forms_hierarchy};
use weekly_drills::employee_count::{count, employee_count, same_id, RelationIndex};
use weekly_drills::id_map::IdMap;

#[test]
fn test_employee_count_1() {
    let mut dict = IdMap::new();
    dict.insert("A", "C");
    dict.insert("B", "C");
    dict.insert("C", "F");
    dict.insert("D", "E");
    dict.insert("E", "F");
    dict.insert("F", "F");

    let result = employee_count(&dict);
    assert_eq!(result.get(&"A"), Some(&0));
    assert_eq!(result.get(&"B"), Some(&0));
    assert_eq!(result.get(&"C"), Some(&2));
    assert_eq!(result.get(&"D"), Some(&0));
    assert_eq!(result.get(&"E"), Some(&1));
    assert_eq!(result.get(&"F"), Some(&5));
}

#[test]
fn test_employee_count_branchless() {
    let mut dict = IdMap::new();
    dict.insert("A", "B");
    dict.insert("B", "C");
    dict.insert("C", "D");
    dict.insert("D", "E");
    dict.insert("E", "F");
    dict.insert("F", "F");

    let result = employee_count(&dict);
    assert_eq!(result.get(&"A"), Some(&0));
    assert_eq!(result.get(&"B"), Some(&1));
    assert_eq!(result.get(&"C"), Some(&2));
    assert_eq!(result.get(&"D"), Some(&3));
    assert_eq!(result.get(&"E"), Some(&4));
    assert_eq!(result.get(&"F"), Some(&5));
}

#[test]
fn test_employee_count_empty() {
    let dict = IdMap::new();
    let result = employee_count(&dict);
    assert_eq!(result.len(), 0);
}

#[test]
fn test_employee_count_3() {
    let mut dict = IdMap::new();

    dict.insert("A", "A");
    dict.insert("B", "A");
    dict.insert("C", "A");
    dict.insert("D", "A");
    dict.insert("E", "A");
    dict.insert("F", "A");
    dict.insert("B1", "B");
    dict.insert("B2", "B");
    dict.insert("B3", "B");
    dict.insert("B4", "B");
    dict.insert("B5", "B");
    dict.insert("C1", "C");
    dict.insert("C1A", "C1");
    dict.insert("C1B", "C1");
    dict.insert("C1C", "C1");

    let result = employee_count(&dict);
    assert_eq!(result.get(&"A"), Some(&14));
    assert_eq!(result.get(&"B"), Some(&5));
    assert_eq!(result.get(&"C"), Some(&4));
}

#[test]
fn same_id_compares_characters() {
    assert!(same_id("C1A", "C1A"));
    assert!(!same_id("C1A", "C1B"));
    assert!(!same_id("C1", "C1A"));
    assert!(same_id("", ""));
}

#[test]
fn index_lists_members_under_their_manager() {
    let mut dict = IdMap::new();
    dict.insert("A", "C");
    dict.insert("B", "C");
    dict.insert("C", "C");
    let index = RelationIndex::build(&dict);
    assert_eq!(index.direct_reports("C"), Some(&vec!["A", "B", "C"]));
    assert_eq!(index.direct_reports("A"), None);
    assert_eq!(index.direct_reports("Z"), None);
}

#[test]
fn count_is_zero_without_index_entry() {
    let mut dict = IdMap::new();
    dict.insert("A", "B");
    dict.insert("B", "B");
    let index = RelationIndex::build(&dict);
    let mut memo = IdMap::new();
    assert_eq!(count("A", &index, &mut memo), 0);
    assert_eq!(count("nobody", &index, &mut memo), 0);
    assert!(memo.is_empty());
}

#[test]
fn count_asked_twice_answers_the_same() {
    let mut dict = IdMap::new();
    dict.insert("A", "C");
    dict.insert("B", "C");
    dict.insert("C", "F");
    dict.insert("D", "E");
    dict.insert("E", "F");
    dict.insert("F", "F");
    let index = RelationIndex::build(&dict);
    let mut memo = IdMap::new();
    let first = count("F", &index, &mut memo);
    assert_eq!(first, 5);
    assert_eq!(memo.get("F"), Some(&5));
    assert_eq!(memo.get("C"), Some(&2));
    assert_eq!(memo.get("E"), Some(&1));
    assert_eq!(memo.get("A"), None);
    let second = count("F", &index, &mut memo);
    assert_eq!(second, first);
    assert_eq!(memo.len(), 3);
}

#[test]
fn root_count_and_one_is_tree_size() {
    let mut dict = IdMap::new();
    dict.insert("r", "r");
    dict.insert("a", "r");
    dict.insert("b", "a");
    dict.insert("s", "s");
    dict.insert("t", "s");
    let result = employee_count(&dict);
    assert_eq!(result.get("r"), Some(&2));
    assert_eq!(result.get("s"), Some(&1));
    assert_eq!(result.len(), 5);
}

#[test]
fn manager_without_own_entry_gets_no_result() {
    let mut dict = IdMap::new();
    dict.insert("A", "boss");
    dict.insert("B", "A");
    let result = employee_count(&dict);
    assert_eq!(result.len(), 2);
    assert_eq!(result.get("boss"), None);
    assert_eq!(result.get("A"), Some(&1));
    assert_eq!(result.get("B"), Some(&0));
}

#[test]
fn forms_hierarchy_tells_loops_from_trees() {
    let empty: IdMap<&str> = IdMap::new();
    assert!(forms_hierarchy(&empty));

    let mut tree = IdMap::new();
    tree.insert("A", "C");
    tree.insert("B", "C");
    tree.insert("C", "F");
    tree.insert("D", "E");
    tree.insert("E", "F");
    tree.insert("F", "F");
    assert!(forms_hierarchy(&tree));

    let mut open_top = IdMap::new();
    open_top.insert("A", "boss");
    open_top.insert("B", "A");
    assert!(forms_hierarchy(&open_top));

    let mut pair = IdMap::new();
    pair.insert("A", "B");
    pair.insert("B", "A");
    assert!(!forms_hierarchy(&pair));

    let mut ring = IdMap::new();
    ring.insert("X", "X");
    ring.insert("A", "B");
    ring.insert("B", "C");
    ring.insert("C", "D");
    ring.insert("D", "B");
    assert!(!forms_hierarchy(&ring));
}

#[test]
fn checked_employee_count_refuses_loops() {
    let mut pair = IdMap::new();
    pair.insert("A", "B");
    pair.insert("B", "A");
    assert!(checked_employee_count(&pair).is_none());

    let mut chain = IdMap::new();
    chain.insert("A", "B");
    chain.insert("B", "C");
    chain.insert("C", "C");
    let counts = checked_employee_count(&chain).unwrap();
    assert_eq!(counts.get("A"), Some(&0));
    assert_eq!(counts.get("B"), Some(&1));
    assert_eq!(counts.get("C"), Some(&2));
    assert_eq!(counts.len(), 3);
}

#[test]
fn id_map_keeps_first_insertion_order_and_last_value() {
    let mut map = IdMap::new();
    assert!(map.is_empty());
    map.insert("b", 1);
    map.insert("a", 2);
    map.insert("b", 3);
    assert_eq!(map.len(), 2);
    assert_eq!(map.id_at(0), "b");
    assert_eq!(map.id_at(1), "a");
    assert_eq!(map.value_at(0), &3);
    assert_eq!(map.value_at(1), &2);
    assert_eq!(map.get("b"), Some(&3));
    assert_eq!(map.get("c"), None);
    assert!(map.contains_key("a"));
    assert!(!map.contains_key("c"));
    assert_eq!(map.position("a"), Some(1));
    assert_eq!(map.position("c"), None);
}

#[test]
fn reinserted_member_reports_to_the_last_manager_given() {
    let mut dict = IdMap::new();
    dict.insert("A", "B");
    dict.insert("B", "B");
    dict.insert("C", "C");
    dict.insert("A", "C");
    let result = employee_count(&dict);
    assert_eq!(result.get("B"), Some(&0));
    assert_eq!(result.get("C"), Some(&1));
    assert_eq!(result.get("A"), Some(&0));
}
