use std::collections::VecDeque;

use pathstore::field::Field;
use pathstore::table::Table;
use pathstore::value::Value;

fn path(segments: &[&str]) -> VecDeque<String> {
    let mut p = VecDeque::new();
    for s in segments {
        p.push_back(s.to_string());
    }
    p
}

#[test]
fn field_listener_registration_is_idempotent() {
    let mut f = Field::new(Value::Int(1));
    f.add_listener(5);
    f.add_listener(5);
    assert_eq!(f.own_listener_ct(), 1);
    assert!(f.has_listener(5));
    f.add_listener(6);
    assert_eq!(f.own_listener_ct(), 2);
    assert_eq!(f.own_listeners(), &vec![5, 6]);
}

#[test]
fn field_removal_of_absent_listener_is_a_no_op() {
    let mut f = Field::new(Value::Bool(false));
    f.add_listener(5);
    f.remove_listener(9);
    assert_eq!(f.own_listener_ct(), 1);
    f.remove_listener(5);
    assert_eq!(f.own_listener_ct(), 0);
    f.remove_listener(5);
    assert_eq!(f.own_listener_ct(), 0);
}

#[test]
fn table_registration_is_idempotent_and_counted_once() {
    let mut t = Table::new();
    t.set(path(&["a"]), &Value::Int(0));
    assert!(t.add_listener_at(&path(&["a"]), 1));
    assert!(!t.add_listener_at(&path(&["a"]), 1));
    assert_eq!(t.child_listener_ct(), 1);
}

#[test]
fn registration_on_an_absent_path_changes_nothing() {
    let mut t = Table::new();
    assert!(!t.add_listener_at(&path(&["missing"]), 1));
    assert_eq!(t.child_listener_ct(), 0);
    assert!(!t.remove_listener_at(&path(&["missing"]), 1));
}

#[test]
fn ancestor_counts_stay_equal_to_descendant_listener_totals() {
    let mut t = Table::new();
    t.set(path(&["a", "b", "c"]), &Value::Int(0));
    t.set(path(&["a", "d"]), &Value::Int(0));
    assert!(t.add_listener_at(&path(&["a"]), 1));
    assert!(t.add_listener_at(&path(&["a", "b"]), 2));
    assert!(t.add_listener_at(&path(&["a", "b", "c"]), 3));
    assert_eq!(t.child_listener_ct(), 3);
    match t.get(path(&["a"])) {
        Some(Value::Table(inner)) => {
            // below "a": the listeners on ["a","b"] and ["a","b","c"].
            assert_eq!(inner.child_listener_ct(), 2);
        }
        other => panic!("expected a nested table, got {:?}", other),
    }
    assert!(t.remove_listener_at(&path(&["a", "b"]), 2));
    assert_eq!(t.child_listener_ct(), 2);
    assert!(!t.remove_listener_at(&path(&["a", "b"]), 2));
    assert_eq!(t.child_listener_ct(), 2);
    match t.get(path(&["a"])) {
        Some(Value::Table(inner)) => {
            assert_eq!(inner.child_listener_ct(), 1);
        }
        other => panic!("expected a nested table, got {:?}", other),
    }
}

#[test]
fn overwriting_a_subtree_drops_the_listeners_inside_it() {
    let mut t = Table::new();
    t.set(path(&["a", "b"]), &Value::Int(0));
    assert!(t.add_listener_at(&path(&["a", "b"]), 7));
    assert!(t.add_listener_at(&path(&["a"]), 8));
    assert_eq!(t.child_listener_ct(), 2);
    // overwriting ["a"] destroys the subtree under it, and with it the
    // listener registered on ["a","b"]; the listener on ["a"] itself stays.
    t.set(path(&["a"]), &Value::Int(1));
    assert_eq!(t.child_listener_ct(), 1);
    assert!(!t.remove_listener_at(&path(&["a", "b"]), 7));
    assert!(t.remove_listener_at(&path(&["a"]), 8));
    assert_eq!(t.child_listener_ct(), 0);
}

#[test]
fn path_listener_ids_collects_along_the_path_root_first() {
    let mut t = Table::new();
    t.set(path(&["a", "b", "c"]), &Value::Int(0));
    t.add_listener_at(&path(&["a"]), 1);
    t.add_listener_at(&path(&["a", "b"]), 2);
    t.add_listener_at(&path(&["a", "b", "c"]), 3);
    assert_eq!(t.path_listener_ids(&path(&["a", "b", "c"])), vec![1, 2, 3]);
    assert_eq!(t.path_listener_ids(&path(&["a", "b"])), vec![1, 2]);
    assert_eq!(t.path_listener_ids(&path(&["x"])), Vec::<usize>::new());
}

#[test]
fn set_child_listener_ct_replaces_the_cache() {
    let mut f = Field::new(Value::Int(1));
    f.set_child_listener_ct(0);
    assert_eq!(f.child_listener_ct(), 0);
    let mut t = Table::new();
    t.set_child_listener_ct(0);
    assert_eq!(t.child_listener_ct(), 0);
}

#[test]
fn field_data_access_and_kind() {
    let mut f = Field::new(Value::Str("v".to_string()));
    assert_eq!(f.get_data(), &Value::Str("v".to_string()));
    assert_eq!(f.data_type(), pathstore::value::DataType::Text);
    *f.get_data_mut() = Value::Str("w".to_string());
    assert_eq!(f.get_data(), &Value::Str("w".to_string()));
}
