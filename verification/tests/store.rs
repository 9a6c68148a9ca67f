use std::time::Duration;

use kvx_queue::clock::{current_time, current_time_after, timestamp};
use kvx_queue::error::Error;
use kvx_queue::key::{Key, Scope};
use kvx_queue::memory::Memory;
use kvx_queue::segment::Segment;
use kvx_queue::store::KeyValueStoreBackend;
use serde_json::Value;

fn key(text: &str) -> Key {
    Key::parse(text).unwrap()
}

fn scope(text: &str) -> Scope {
    Scope::from_segment(&Segment::parse(text).unwrap())
}

#[test]
fn a_stored_value_is_read_back() {
    let mut memory = Memory::new();
    let mut object = serde_json::Map::new();
    object.insert("list".to_string(), Value::from(vec![1, 2, 3]));
    let value = Value::from(object);

    assert_eq!(memory.get(&key("a/x")), Ok(None));
    assert_eq!(memory.store(&key("a/x"), value.clone()), Ok(()));
    assert_eq!(memory.get(&key("a/x")), Ok(Some(value)));
    assert_eq!(memory.store(&key("a/x"), Value::from("new")), Ok(()));
    assert_eq!(memory.get(&key("a/x")), Ok(Some(Value::from("new"))));
    assert_eq!(memory.get(&key("x")), Ok(None));
}

#[test]
fn a_moved_value_is_found_at_its_new_key_alone() {
    let mut memory = Memory::new();
    memory.store(&key("a/x"), Value::from(1)).unwrap();
    memory.store(&key("a/y"), Value::from(2)).unwrap();
    assert_eq!(memory.move_value(&key("a/x"), &key("b/x")), Ok(()));
    assert_eq!(memory.get(&key("a/x")), Ok(None));
    assert_eq!(memory.get(&key("b/x")), Ok(Some(Value::from(1))));
    assert_eq!(memory.move_value(&key("b/x"), &key("a/y")), Ok(()));
    assert_eq!(memory.get(&key("a/y")), Ok(Some(Value::from(1))));
    assert_eq!(memory.move_value(&key("a/y"), &key("a/y")), Ok(()));
    assert_eq!(memory.get(&key("a/y")), Ok(Some(Value::from(1))));
    assert_eq!(
        memory.move_value(&key("a/x"), &key("a/z")),
        Err(Error::UnknownKey)
    );
    assert_eq!(memory.get(&key("a/z")), Ok(None));
}

#[test]
fn a_deleted_value_is_gone() {
    let mut memory = Memory::new();
    memory.store(&key("a/x"), Value::Null).unwrap();
    memory.store(&key("a/y"), Value::from(2)).unwrap();
    assert_eq!(memory.delete(&key("a/x")), Ok(()));
    assert_eq!(memory.get(&key("a/x")), Ok(None));
    assert_eq!(memory.get(&key("a/y")), Ok(Some(Value::from(2))));
    assert_eq!(memory.delete(&key("a/x")), Err(Error::UnknownKey));
}

#[test]
fn the_keys_of_a_scope_are_listed() {
    let mut memory = Memory::new();
    for text in ["a/x", "b/x", "a/y", "x", "a/a/x", "a/x"] {
        memory.store(&key(text), Value::Null).unwrap();
    }
    let mut names: Vec<String> = memory
        .list_keys(&scope("a"))
        .unwrap()
        .iter()
        .map(|key| key.name().as_str().to_string())
        .collect();
    names.sort();
    assert_eq!(names, ["x", "y"]);
    assert_eq!(memory.list_keys(&scope("b")).unwrap().len(), 1);
    assert_eq!(memory.list_keys(&scope("c")).unwrap().len(), 0);
}

#[test]
fn timestamps_are_whole_seconds() {
    assert_eq!(timestamp(Some(Duration::from_millis(5999))), Ok(5));
    assert_eq!(timestamp(Some(Duration::from_secs(7))), Ok(7));
    assert_eq!(timestamp(None), Err(Error::BeforeEpoch));
}

#[test]
fn the_clock_is_read() {
    let before = std::time::SystemTime::UNIX_EPOCH.elapsed().unwrap().as_secs();
    let now = current_time().unwrap();
    let after = std::time::SystemTime::UNIX_EPOCH.elapsed().unwrap().as_secs();
    assert!(before <= now && now <= after);
    assert!(current_time_after(0).unwrap() >= now);
    assert_eq!(current_time_after(u64::MAX), Err(Error::BeforeEpoch));
}
