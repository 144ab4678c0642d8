use std::collections::VecDeque;

use pathstore::table::Table;
use pathstore::value::{DataType, Value};

fn path(segments: &[&str]) -> VecDeque<String> {
    let mut p = VecDeque::new();
    for s in segments {
        p.push_back(s.to_string());
    }
    p
}

#[test]
fn empty_table_has_header_footprint() {
    let t = Table::new();
    assert_eq!(t.byte_size(), 4);
    assert_eq!(t.key_count(), 0);
    assert_eq!(t.child_listener_ct(), 0);
    let t2 = Table::with_capacity(16);
    assert_eq!(t2.byte_size(), 4);
    assert_eq!(t2.key_count(), 0);
}

#[test]
fn set_then_get_scalar_round_trip() {
    let mut t = Table::new();
    t.set(path(&["users", "1", "name"]), &Value::Str("Alice".to_string()));
    let got = t.get(path(&["users", "1", "name"]));
    assert_eq!(got, Some(&Value::Str("Alice".to_string())));
}

#[test]
fn get_of_intermediate_node_is_the_subtable() {
    let mut t = Table::new();
    t.set(path(&["users", "1", "name"]), &Value::Str("Alice".to_string()));
    match t.get(path(&["users", "1"])) {
        Some(Value::Table(inner)) => {
            assert_eq!(inner.key_count(), 1);
            assert_eq!(
                inner.get(path(&["name"])),
                Some(&Value::Str("Alice".to_string()))
            );
        }
        other => panic!("expected a nested table, got {:?}", other),
    }
}

#[test]
fn overwrite_replaces_value_and_does_not_double_count() {
    let mut t = Table::new();
    t.set(path(&["a", "b"]), &Value::Int(1));
    // root: 4 + (8 + 1 + inner); inner: 4 + (8 + 1 + 8) = 21; root = 34.
    assert_eq!(t.byte_size(), 34);
    t.set(path(&["a", "b"]), &Value::Int(2));
    assert_eq!(t.get(path(&["a", "b"])), Some(&Value::Int(2)));
    assert_eq!(t.byte_size(), 34);
}

#[test]
fn fresh_key_grows_size_by_exact_amount() {
    let mut t = Table::new();
    t.set(path(&["k"]), &Value::Str("hi".to_string()));
    // 4 + (8 + 1 + (8 + 2)) = 23.
    assert_eq!(t.byte_size(), 23);
    t.set(path(&["k2"]), &Value::Bool(true));
    // + (8 + 2 + 1) = 34.
    assert_eq!(t.byte_size(), 34);
}

#[test]
fn overwrite_with_smaller_value_shrinks_size() {
    let mut t = Table::new();
    t.set(path(&["k"]), &Value::Str("a long string value".to_string()));
    let before = t.byte_size();
    t.set(path(&["k"]), &Value::Bool(false));
    assert_eq!(t.byte_size(), before - (8 + 19) + 1);
}

#[test]
fn write_through_scalar_is_dropped() {
    let mut t = Table::new();
    t.set(path(&["a"]), &Value::Int(7));
    let before = t.byte_size();
    t.set(path(&["a", "b"]), &Value::Int(1));
    assert_eq!(t.get(path(&["a", "b"])), None);
    assert_eq!(t.get(path(&["a"])), Some(&Value::Int(7)));
    assert_eq!(t.byte_size(), before);
}

#[test]
fn empty_path_is_a_no_op() {
    let mut t = Table::new();
    assert_eq!(t.get(path(&[])), None);
    t.set(path(&[]), &Value::Int(1));
    assert_eq!(t.key_count(), 0);
    assert_eq!(t.byte_size(), 4);
}

#[test]
fn absence_past_deepest_node_and_through_scalars() {
    let mut t = Table::new();
    t.set(path(&["a"]), &Value::Int(1));
    assert_eq!(t.get(path(&["z"])), None);
    assert_eq!(t.get(path(&["a", "b", "c"])), None);
    assert_eq!(t.get(path(&["z", "b"])), None);
}

#[test]
fn writes_to_unrelated_paths_are_isolated() {
    let mut t = Table::new();
    t.set(path(&["a", "b"]), &Value::Int(1));
    t.set(path(&["x", "y"]), &Value::Int(9));
    t.set(path(&["a", "c"]), &Value::Int(3));
    assert_eq!(t.get(path(&["a", "b"])), Some(&Value::Int(1)));
    assert_eq!(t.get(path(&["x", "y"])), Some(&Value::Int(9)));
    assert_eq!(t.get(path(&["a", "c"])), Some(&Value::Int(3)));
}

#[test]
fn get_mut_allows_in_place_mutation() {
    let mut t = Table::new();
    t.set(path(&["a"]), &Value::Int(1));
    match t.get_mut(path(&["a"])) {
        Some(v) => {
            assert_eq!(*v, Value::Int(1));
            *v = Value::Int(2);
        }
        None => panic!("expected the slot to resolve"),
    }
    assert_eq!(t.get(path(&["a"])), Some(&Value::Int(2)));
    assert_eq!(t.get_mut(path(&["missing"])), None);
}

#[test]
fn pairs_and_keys_iter_list_entries_in_insertion_order() {
    let mut t = Table::new();
    t.set(path(&["one"]), &Value::Int(1));
    t.set(path(&["two"]), &Value::Int(2));
    let keys = t.keys_iter();
    assert_eq!(keys, vec!["one".to_string(), "two".to_string()]);
    let pairs = t.pairs();
    assert_eq!(pairs.len(), 2);
    assert_eq!(pairs[0], ("one".to_string(), Value::Int(1)));
    assert_eq!(pairs[1], ("two".to_string(), Value::Int(2)));
    assert_eq!(t.key_count(), 2);
}

#[test]
fn value_sizes_and_kinds() {
    assert_eq!(Value::Int(5).size(), 8);
    assert_eq!(Value::Bool(true).size(), 1);
    assert_eq!(Value::Str("abc".to_string()).size(), 8 + 3);
    assert_eq!(Value::Int(5).data_type(), DataType::Integer);
    assert_eq!(Value::Bool(true).data_type(), DataType::Boolean);
    assert_eq!(Value::Str(String::new()).data_type(), DataType::Text);
    let mut t = Table::new();
    t.set(path(&["x"]), &Value::Int(0));
    let nested = Value::Table(Box::new(t));
    assert_eq!(nested.data_type(), DataType::Table);
    // the nested table reports its own maintained footprint: 4 + 8 + 1 + 8.
    assert_eq!(nested.size(), 21);
}

#[test]
fn duplicate_preserves_content_and_totals() {
    let mut t = Table::new();
    t.set(path(&["a", "b"]), &Value::Str("x".to_string()));
    let c = t.clone();
    assert_eq!(c.byte_size(), t.byte_size());
    assert_eq!(c.get(path(&["a", "b"])), Some(&Value::Str("x".to_string())));
    assert_eq!(c, t);
}
