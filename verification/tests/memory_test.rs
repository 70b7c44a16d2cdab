use kv::pb::{Kvpair, Value};
use kv::storage::memory::MemTable;

#[test]
fn memtable_get_of_missing_key_is_none() {
    let mut store = MemTable::new();
    assert_eq!(store.get("t1", "hello").unwrap(), None);
    assert!(!store.contains("t1", "hello").unwrap());
}

#[test]
fn memtable_set_then_get() {
    let mut store = MemTable::new();
    let v = store.set("t1", "hello".to_string(), Value::String("world".to_string())).unwrap();
    assert_eq!(v, None);
    let v = store.set("t1", "hello".to_string(), Value::String("world1".to_string())).unwrap();
    assert_eq!(v, Some(Value::String("world".to_string())));
    assert_eq!(store.get("t1", "hello").unwrap(), Some(Value::String("world1".to_string())));
    assert!(store.contains("t1", "hello").unwrap());
}

#[test]
fn memtable_tables_are_apart() {
    let mut store = MemTable::new();
    store.set("t1", "k".to_string(), Value::Integer(1)).unwrap();
    store.set("t2", "k".to_string(), Value::Integer(2)).unwrap();
    assert_eq!(store.get("t1", "k").unwrap(), Some(Value::Integer(1)));
    assert_eq!(store.get("t2", "k").unwrap(), Some(Value::Integer(2)));
    assert_eq!(store.get("t3", "k").unwrap(), None);
}

#[test]
fn memtable_del_removes() {
    let mut store = MemTable::new();
    store.set("t1", "k".to_string(), Value::Bool(true)).unwrap();
    assert_eq!(store.del("t1", "k").unwrap(), Some(Value::Bool(true)));
    assert_eq!(store.del("t1", "k").unwrap(), None);
    assert_eq!(store.get("t1", "k").unwrap(), None);
    assert!(!store.contains("t1", "k").unwrap());
}

#[test]
fn memtable_get_all_lists_every_pair_once() {
    let mut store = MemTable::new();
    store.set("t2", "k1".to_string(), Value::String("v1".to_string())).unwrap();
    store.set("t2", "k2".to_string(), Value::Binary(vec![1, 2])).unwrap();
    store.set("t2", "k1".to_string(), Value::Float(1.5f64.to_bits())).unwrap();
    store.set("other", "k3".to_string(), Value::Empty).unwrap();
    let mut pairs = store.get_all("t2").unwrap();
    pairs.sort_by(|a, b| a.key.cmp(&b.key));
    assert_eq!(
        pairs,
        vec![
            Kvpair::new("k1".to_string(), Value::Float(1.5f64.to_bits())),
            Kvpair::new("k2".to_string(), Value::Binary(vec![1, 2])),
        ]
    );
    let mut snapshot = store.get_iter("t2").unwrap();
    snapshot.sort_by(|a, b| a.key.cmp(&b.key));
    assert_eq!(snapshot, pairs);
    assert!(store.get_all("empty").unwrap().is_empty());
}

#[test]
fn value_default_is_empty() {
    assert_eq!(Value::default(), Value::Empty);
}

#[test]
fn kvpair_from_tuple() {
    let p: Kvpair = ("k".to_string(), Value::Integer(-3)).into();
    assert_eq!(p, Kvpair::new("k".to_string(), Value::Integer(-3)));
}

#[test]
fn memtable_default_is_empty() {
    let mut store = MemTable::default();
    assert!(store.get_all("t").unwrap().is_empty());
}

#[test]
fn get_or_create_table_keeps_contents() {
    let mut store = MemTable::new();
    store.set("t", "k".to_string(), Value::Integer(9)).unwrap();
    store.get_or_create_table("t");
    store.get_or_create_table("t");
    store.get_or_create_table("u");
    assert_eq!(store.get("t", "k").unwrap(), Some(Value::Integer(9)));
    assert!(store.get_all("u").unwrap().is_empty());
}

#[test]
fn memtable_clone_holds_the_same_tables() {
    let mut store = MemTable::new();
    store.set("t", "k".to_string(), Value::String("v".to_string())).unwrap();
    let mut copy = store.clone();
    assert_eq!(copy.get("t", "k").unwrap(), Some(Value::String("v".to_string())));
    copy.set("t", "k".to_string(), Value::Integer(0)).unwrap();
    assert_eq!(store.get("t", "k").unwrap(), Some(Value::String("v".to_string())));
}

#[test]
fn read_after_a_history_of_writes() {
    let mut store = MemTable::new();
    store.set("t", "a".to_string(), Value::Integer(1)).unwrap();
    store.set("t", "b".to_string(), Value::Integer(2)).unwrap();
    store.del("t", "a").unwrap();
    store.set("t", "b".to_string(), Value::Integer(3)).unwrap();
    store.set("u", "a".to_string(), Value::Integer(4)).unwrap();
    assert_eq!(store.get("t", "a").unwrap(), None);
    assert_eq!(store.get("t", "b").unwrap(), Some(Value::Integer(3)));
    assert_eq!(store.get("u", "a").unwrap(), Some(Value::Integer(4)));
}
