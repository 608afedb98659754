//! Tables of who listens to which name, and the values of the protocol.

use ironcache::subscriptions::{keep_marked, Table};
use ironcache::value::{ErrorReply, Request, Value};

#[test]
fn an_unsubscribe_undoes_a_subscribe() {
    let mut t: Table<u8> = Table::new();
    t.subscribe(b"a".to_vec(), 1, 10);
    t.subscribe(b"a".to_vec(), 2, 20);
    t.unsubscribe(b"a", 2);
    assert_eq!(t.count(b"a"), 1);
    t.unsubscribe(b"a", 1);
    assert!(!t.contains_key(b"a"));
    assert!(t.entries.is_empty());
    // What is not there can be taken out all the same.
    t.unsubscribe(b"a", 1);
    assert_eq!(t.count(b"a"), 0);
}

#[test]
fn a_second_subscribe_replaces_the_handle() {
    let mut t: Table<u8> = Table::new();
    t.subscribe(b"a".to_vec(), 1, 10);
    t.subscribe(b"a".to_vec(), 1, 11);
    assert_eq!(t.count(b"a"), 1);
    assert_eq!(t.entries[0].subs[0], (1, 11));
}

#[test]
fn a_forgotten_connection_is_nowhere() {
    let mut t: Table<u8> = Table::new();
    t.subscribe(b"a".to_vec(), 1, 10);
    t.subscribe(b"b".to_vec(), 1, 10);
    t.subscribe(b"b".to_vec(), 2, 20);
    t.forget(1);
    assert!(!t.contains_key(b"a"));
    assert_eq!(t.count(b"b"), 1);
    assert_eq!(t.find(b"b"), 0);
    assert_eq!(t.find(b"zz"), 1, "behind the last entry");
    assert_eq!(t.name_at(0), b"b");
}

#[test]
fn a_row_keeps_what_is_marked() {
    let mut t: Table<u8> = Table::new();
    t.subscribe(b"a".to_vec(), 1, 10);
    t.subscribe(b"a".to_vec(), 2, 20);
    t.keep_row(0, &[false, true]);
    assert_eq!(t.entries[0].subs, vec![(2, 20)]);
    t.keep_row(0, &[false]);
    assert!(t.entries.is_empty());
    let mut v = vec![1, 2, 3, 4];
    keep_marked(&mut v, &[true, false, false, true]);
    assert_eq!(v, vec![1, 4]);
}

#[test]
fn values_are_copied_whole() {
    let v = Value::Array(Some(vec![
        Value::Simple("s".to_owned()),
        Value::Integer(-1),
        Value::BulkString(None),
        Value::bulk(b"b".to_vec()),
        Value::Array(None),
        Value::Push(vec![Value::Null]),
        Value::error(ErrorReply::err("ERR x")),
    ]));
    assert_eq!(v.copy(), v);
    assert_eq!(Value::ok(), Value::Simple("OK".to_owned()));
    assert_eq!(Value::bulk_str("x"), Value::bulk(b"x".to_vec()));
    assert_eq!(ErrorReply::err("x").message(), "x");
}

#[test]
fn a_request_knows_its_command() {
    let r = Request { args: vec![b"GET".to_vec(), b"k".to_vec()] };
    assert_eq!(r.command(), b"GET");
    assert_eq!(r.copy().args, r.args);
    assert_eq!(Request { args: Vec::new() }.command(), b"");
}
