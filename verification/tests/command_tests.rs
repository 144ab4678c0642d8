use std::collections::VecDeque;

use pathstore::command::{Command, Operation, StoreError};
use pathstore::database::Database;
use pathstore::event::{Event, EventContent, StoreEvent, StoreEventContent};
use pathstore::field::Field;
use pathstore::table::Table;
use pathstore::value::Value;

fn segs(segments: &[&str]) -> Vec<String> {
    segments.iter().map(|s| s.to_string()).collect()
}

fn dq(segments: &[&str]) -> VecDeque<String> {
    let mut p = VecDeque::new();
    for s in segments {
        p.push_back(s.to_string());
    }
    p
}

#[test]
fn command_constructors_and_accessors() {
    let g = Command::get_request(segs(&["a", "b"]));
    assert_eq!(g.get_operation(), Operation::Read);
    assert!(!g.is_mutator());
    assert!(!g.is_terminate());
    assert_eq!(g.get_path(), &Some(segs(&["a", "b"])));
    assert_eq!(g.args().len(), 0);

    let s = Command::set_request(segs(&["a"]), Value::Int(1));
    assert_eq!(s.get_operation(), Operation::Write);
    assert!(s.is_mutator());
    assert_eq!(s.args(), &vec![Value::Int(1)]);

    let t = Command::terminate_request();
    assert!(t.is_terminate());
    assert!(!t.is_mutator());
    assert_eq!(t.get_path(), &None);
}

#[test]
fn terminate_stops_the_backend_and_further_commands_are_rejected() {
    let mut db = Database::new();
    assert!(db.is_running());
    let cmd = Command::terminate_request();
    let out = db.execute(&cmd);
    match out {
        Some((res, events)) => {
            assert_eq!(res.modified_row_count(), 0);
            assert_eq!(events.len(), 0);
        }
        None => panic!("a running backend must answer"),
    }
    assert!(!db.is_running());
    assert_eq!(db.execute(&Command::get_request(segs(&["a"]))), None);
    assert_eq!(db.execute(&Command::set_request(segs(&["a"]), Value::Int(1))), None);
}

#[test]
fn a_landing_write_reports_one_row_and_notifies_path_listeners() {
    let mut db = Database::new();
    // create the chain so a listener can be registered on ["a"].
    let seed = Command::set_request(segs(&["a", "b", "c"]), Value::Int(0));
    db.execute(&seed);
    assert!(db.add_listener(&dq(&["a"]), 1));
    // a listener on an unrelated path must receive nothing.
    db.execute(&Command::set_request(segs(&["x"]), Value::Int(0)));
    assert!(db.add_listener(&dq(&["x"]), 2));

    let write = Command::set_request(segs(&["a", "b", "c"]), Value::Int(5));
    match db.execute(&write) {
        Some((res, events)) => {
            assert_eq!(res.modified_row_count(), 1);
            assert_eq!(events.len(), 1);
            assert_eq!(events[0].get_target(), 1);
            assert_eq!(events[0].get_content().path, segs(&["a", "b", "c"]));
            assert_eq!(events[0].get_content().operation, Operation::Write);
        }
        None => panic!("a running backend must answer"),
    }
    assert_eq!(
        db.table().get(dq(&["a", "b", "c"])),
        Some(&Value::Int(5))
    );
}

#[test]
fn a_dropped_write_reports_no_row_and_emits_nothing() {
    let mut db = Database::new();
    db.execute(&Command::set_request(segs(&["a"]), Value::Int(7)));
    match db.execute(&Command::set_request(segs(&["a", "b"]), Value::Int(1))) {
        Some((res, events)) => {
            assert_eq!(res.modified_row_count(), 0);
            assert_eq!(events.len(), 0);
        }
        None => panic!("a running backend must answer"),
    }
    assert_eq!(db.table().get(dq(&["a", "b"])), None);
    assert_eq!(db.table().get(dq(&["a"])), Some(&Value::Int(7)));
}

#[test]
fn reads_and_empty_writes_change_nothing() {
    let mut db = Database::new();
    match db.execute(&Command::get_request(segs(&["a"]))) {
        Some((res, events)) => {
            assert_eq!(res.modified_row_count(), 0);
            assert_eq!(events.len(), 0);
        }
        None => panic!("a running backend must answer"),
    }
    match db.execute(&Command::set_request(segs(&[]), Value::Int(1))) {
        Some((res, events)) => {
            assert_eq!(res.modified_row_count(), 0);
            assert_eq!(events.len(), 0);
        }
        None => panic!("a running backend must answer"),
    }
    assert_eq!(db.table().key_count(), 0);
}

#[test]
fn table_mut_gives_the_root_for_direct_mutation() {
    let mut db = Database::new();
    db.table_mut().set(dq(&["k"]), &Value::Bool(true));
    assert_eq!(db.table().get(dq(&["k"])), Some(&Value::Bool(true)));
    assert!(db.is_running());
}

#[test]
fn remove_listener_through_the_database() {
    let mut db = Database::new();
    db.execute(&Command::set_request(segs(&["a"]), Value::Int(0)));
    assert!(db.add_listener(&dq(&["a"]), 9));
    assert!(db.remove_listener(&dq(&["a"]), 9));
    assert!(!db.remove_listener(&dq(&["a"]), 9));
    match db.execute(&Command::set_request(segs(&["a"]), Value::Int(1))) {
        Some((res, events)) => {
            assert_eq!(res.modified_row_count(), 1);
            assert_eq!(events.len(), 0);
        }
        None => panic!("a running backend must answer"),
    }
}

#[test]
fn set_field_refuses_an_occupied_key() {
    let mut t = Table::new();
    assert_eq!(t.set_field("x".to_string(), Field::new(Value::Int(1))), Ok(()));
    assert_eq!(
        t.set_field("x".to_string(), Field::new(Value::Int(2))),
        Err(StoreError::KeyAlreadyExists)
    );
    assert_eq!(t.get(dq(&["x"])), Some(&Value::Int(1)));
    match t.get_field(&"x".to_string()) {
        Some(f) => assert_eq!(f.get_data(), &Value::Int(1)),
        None => panic!("the field must be present"),
    }
    assert!(t.get_field(&"y".to_string()).is_none());
}

#[test]
fn with_hashmap_builds_a_node_from_prepared_slots() {
    let mut entries: Vec<(String, Field)> = Vec::new();
    entries.push(("k".to_string(), Field::new(Value::Int(1))));
    // 4 + (8 + 1 + 8) = 21.
    let t = Table::with_hashmap(entries, 21);
    assert_eq!(t.byte_size(), 21);
    assert_eq!(t.get(dq(&["k"])), Some(&Value::Int(1)));
}

#[test]
fn store_event_implements_the_event_contract() {
    let e = <StoreEvent as Event>::new("root", Operation::Write, 3);
    assert_eq!(e.get_target(), 3);
    assert_eq!(e.get_content().path, segs(&["root"]));
    assert_eq!(e.get_content().operation, Operation::Write);
    let c: StoreEventContent = e.get_content().clone();
    let _as_content: &dyn EventContent = &c;
    let direct = StoreEvent::at_path(segs(&["a", "b"]), Operation::Write, 4);
    assert_eq!(direct.target, 4);
    assert_eq!(direct.content.path, segs(&["a", "b"]));
}

#[test]
fn get_field_mut_gives_exclusive_slot_access() {
    let mut t = Table::new();
    t.set_field("x".to_string(), Field::new(Value::Int(1))).unwrap();
    match t.get_field_mut(&"x".to_string()) {
        Some(f) => {
            f.add_listener(4);
        }
        None => panic!("the field must be present"),
    }
    assert_eq!(t.get_field(&"x".to_string()).unwrap().own_listener_ct(), 1);
    assert!(t.get_field_mut(&"missing".to_string()).is_none());
}
