use jailer::env::{EnvAction, EnvTable, KeySet};

fn b(s: &str) -> Vec<u8> {
    s.as_bytes().to_vec()
}

#[test]
fn empty_table_has_nothing() {
    let t = EnvTable::new();
    assert_eq!(t.len(), 0);
    assert!(t.get(&b("A")).is_none());
    assert!(t.entries().is_empty());
}

#[test]
fn set_adds_and_overwrites() {
    let mut t = EnvTable::new();
    t.set(b("A"), b("1"));
    t.set(b("B"), b("2"));
    assert_eq!(t.len(), 2);
    t.set(b("A"), b("3"));
    assert_eq!(t.len(), 2);
    assert_eq!(t.get(&b("A")), Some(&b("3")));
    assert_eq!(t.get(&b("B")), Some(&b("2")));
}

#[test]
fn remove_takes_only_that_name() {
    let mut t = EnvTable::new();
    t.set(b("A"), b("1"));
    t.set(b("B"), b("2"));
    t.set(b("C"), b("3"));
    t.remove(&b("B"));
    assert_eq!(t.len(), 2);
    assert!(t.get(&b("B")).is_none());
    assert_eq!(t.get(&b("A")), Some(&b("1")));
    assert_eq!(t.get(&b("C")), Some(&b("3")));
    t.remove(&b("Z"));
    assert_eq!(t.len(), 2);
}

#[test]
fn entries_list_each_variable_once() {
    let mut t = EnvTable::new();
    t.set(b("A"), b("1"));
    t.set(b("B"), b("2"));
    t.set(b("A"), b("9"));
    let mut pairs = t.entries().clone();
    pairs.sort();
    assert_eq!(pairs, vec![(b("A"), b("9")), (b("B"), b("2"))]);
}

#[test]
fn names_compare_by_every_byte() {
    let mut t = EnvTable::new();
    t.set(b("AB"), b("1"));
    t.set(b("AC"), b("2"));
    t.set(b("A"), b("3"));
    assert_eq!(t.len(), 3);
    assert_eq!(t.get(&b("AC")), Some(&b("2")));
    assert!(t.get(&b("ABC")).is_none());
}

#[test]
fn apply_carries_out_actions_in_order() {
    let mut t = EnvTable::new();
    t.set(b("A"), b("1"));
    let actions = vec![
        EnvAction::Assign(b("B"), b("2")),
        EnvAction::Remove(b("A")),
        EnvAction::Assign(b("A"), b("5")),
        EnvAction::Remove(b("B")),
    ];
    t.apply_all(&actions);
    assert_eq!(t.len(), 1);
    assert_eq!(t.get(&b("A")), Some(&b("5")));
}

#[test]
fn key_set_insert_remove_contains() {
    let mut k = KeySet::new();
    assert!(!k.contains(&b("A")));
    k.insert(b("A"));
    k.insert(b("A"));
    k.insert(b("B"));
    assert_eq!(k.keys().len(), 2);
    assert!(k.contains(&b("A")));
    k.remove(&b("A"));
    assert!(!k.contains(&b("A")));
    assert!(k.contains(&b("B")));
    assert_eq!(k.keys(), &vec![b("B")]);
}
