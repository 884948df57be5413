use permafrost::names::{MethodTable, NameSet};

#[test]
fn a_name_set_keeps_each_name_once_in_order() {
    let mut set = NameSet::new();
    assert!(set.is_empty());
    assert!(set.insert("df".to_string()));
    assert!(set.insert("fr".to_string()));
    assert!(!set.insert("df".to_string()));
    assert_eq!(set.len(), 2);
    assert!(set.contains("df"));
    assert!(set.contains("fr"));
    assert!(!set.contains("d"));
    assert!(!set.contains("df_filtered"));
    assert_eq!(set.to_vec(), vec!["df".to_string(), "fr".to_string()]);
    assert_eq!(set.at(1), &vec!['f', 'r']);
}

#[test]
fn a_name_set_adds_a_list_in_turn() {
    let mut set = NameSet::new();
    set.insert("b".to_string());
    set.add_all(&vec![vec!['a'], vec!['b'], vec!['c'], vec!['a']]);
    assert_eq!(set.to_vec(), vec!["b".to_string(), "a".to_string(), "c".to_string()]);
}

#[test]
fn a_method_table_stores_and_replaces() {
    let mut table = MethodTable::new();
    assert!(table.is_empty());
    table.insert("filter".to_string(), "one".to_string());
    table.insert("rename".to_string(), "two".to_string());
    table.insert("filter".to_string(), "three".to_string());
    assert_eq!(table.len(), 2);
    assert!(table.contains_key("filter"));
    assert!(!table.contains_key("filte"));
    assert_eq!(table.get("filter"), Some("three".to_string()));
    assert_eq!(table.get("rename"), Some("two".to_string()));
    assert_eq!(table.get("drop"), None);
    assert_eq!(table.name_at(0), &"filter".chars().collect::<Vec<char>>());
    assert_eq!(table.body_at(0), &"three".chars().collect::<Vec<char>>());
    assert_eq!(table.name_at(1), &"rename".chars().collect::<Vec<char>>());
}
