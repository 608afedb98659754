//! Publishing on one shard and over all of them.

use ironcache::coordinator::{CounterDeltas, ShardReply, ICPUBSUB};
use ironcache::publish::{
    fan_out_pubsub, publish_pending_keyspace_events, pubsub_request, run_local_publish,
    run_local_pubsub, run_local_spublish, KeyspaceEvent, Notice,
};
use ironcache::pubsub::{ServerPush, ShardPubSub, ShedSignal, Subscriber};
use ironcache::value::{Request, Value};
use std::sync::Arc;
use tokio::sync::mpsc;

fn sub(sender: mpsc::Sender<ServerPush>) -> Subscriber {
    Subscriber {
        sender,
        shed: Arc::new(ShedSignal::default()),
    }
}

fn request(words: &[&str]) -> Request {
    Request {
        args: words.iter().map(|w| w.as_bytes().to_vec()).collect(),
    }
}

fn star_suffix(pattern: &[u8], string: &[u8]) -> bool {
    pattern.last() == Some(&b'*') && string.starts_with(&pattern[..pattern.len() - 1])
}

#[test]
fn a_channel_and_a_matching_pattern_both_count() {
    let mut t = ShardPubSub::default();
    let (tx, mut rx) = mpsc::channel::<ServerPush>(8);
    t.subscribe(b"news.tech".to_vec(), 1, sub(tx.clone()));
    t.subscribe_pattern(b"news.*".to_vec(), 1, sub(tx));
    let v = run_local_publish(&mut t, &request(&["__ICPUBLISH", "news.tech", "hi"]), star_suffix);
    assert_eq!(v, Value::Integer(2));
    assert_eq!(
        rx.try_recv().unwrap(),
        ServerPush::Message { channel: b"news.tech".to_vec(), payload: b"hi".to_vec() }
    );
    assert_eq!(
        rx.try_recv().unwrap(),
        ServerPush::PMessage {
            pattern: b"news.*".to_vec(),
            channel: b"news.tech".to_vec(),
            payload: b"hi".to_vec(),
        }
    );
    let short = run_local_publish(&mut t, &request(&["__ICPUBLISH", "news.tech"]), star_suffix);
    assert_eq!(short, Value::Integer(0));
    assert!(rx.try_recv().is_err());
}

#[test]
fn a_shard_publish_ignores_patterns() {
    let mut t = ShardPubSub::default();
    let (tx, mut rx) = mpsc::channel::<ServerPush>(8);
    t.subscribe_shard(b"ch".to_vec(), 1, sub(tx.clone()));
    t.subscribe_pattern(b"c*".to_vec(), 2, sub(tx));
    let v = run_local_spublish(&mut t, &request(&["__ICSPUBLISH", "ch", "hi"]));
    assert_eq!(v, Value::Integer(1));
    assert_eq!(
        rx.try_recv().unwrap(),
        ServerPush::SMessage { channel: b"ch".to_vec(), payload: b"hi".to_vec() }
    );
    assert!(rx.try_recv().is_err());
}

#[test]
fn a_shard_reports_on_its_subscriptions() {
    let mut t = ShardPubSub::default();
    let (tx, _rx) = mpsc::channel::<ServerPush>(8);
    t.subscribe(b"news.tech".to_vec(), 1, sub(tx.clone()));
    t.subscribe(b"weather".to_vec(), 2, sub(tx.clone()));
    t.subscribe_pattern(b"n*".to_vec(), 1, sub(tx.clone()));
    t.subscribe_shard(b"s".to_vec(), 1, sub(tx));
    let ask = |words: &[&str]| run_local_pubsub(&t, &request(words), star_suffix);
    let list = |words: &[&str]| {
        Value::Array(Some(
            words.iter().map(|w| Value::bulk(w.as_bytes().to_vec())).collect(),
        ))
    };
    assert_eq!(ask(&[ICPUBSUB, "channels", "news.*"]), list(&["news.tech"]));
    assert_eq!(ask(&[ICPUBSUB, "CHANNELS"]), list(&["news.tech", "weather"]));
    assert_eq!(ask(&[ICPUBSUB, "NUMPAT"]), list(&["n*"]));
    assert_eq!(ask(&[ICPUBSUB, "SHARDCHANNELS"]), list(&["s"]));
    assert_eq!(
        ask(&[ICPUBSUB, "NUMSUB", "weather", "absent"]),
        Value::Array(Some(vec![
            Value::bulk(b"weather".to_vec()),
            Value::Integer(1),
            Value::bulk(b"absent".to_vec()),
            Value::Integer(0),
        ]))
    );
    assert_eq!(
        ask(&[ICPUBSUB, "SHARDNUMSUB", "s"]),
        Value::Array(Some(vec![Value::bulk(b"s".to_vec()), Value::Integer(1)]))
    );
    assert_eq!(ask(&[ICPUBSUB, "WHAT"]), list(&[]));
    assert_eq!(ask(&[ICPUBSUB]), list(&[]));
}

#[test]
fn the_reports_of_the_shards_are_merged() {
    let r = request(&["PUBSUB", "NUMPAT"]);
    assert_eq!(pubsub_request(&r).args, request(&[ICPUBSUB, "NUMPAT"]).args);
    let report = |words: &[&str]| ShardReply {
        value: Value::Array(Some(
            words.iter().map(|w| Value::bulk(w.as_bytes().to_vec())).collect(),
        )),
        deltas: CounterDeltas { expired: 0, moved: false },
    };
    let replies = vec![(0usize, report(&["a*", "b*"])), (1usize, report(&["b*"]))];
    assert_eq!(fan_out_pubsub(&r, &replies), Value::Integer(2));
    assert_eq!(
        fan_out_pubsub(&request(&["PUBSUB", "CHANNELS"]), &replies),
        Value::Array(Some(vec![
            Value::bulk(b"a*".to_vec()),
            Value::bulk(b"b*".to_vec()),
        ]))
    );
    assert_eq!(
        fan_out_pubsub(&request(&["PUBSUB", "NUMSUB", "a*"]), &[]),
        Value::Array(Some(vec![Value::bulk(b"a*".to_vec()), Value::Integer(0)]))
    );
}

#[test]
fn a_change_is_told_by_key_then_by_event() {
    let event = |keyspace: bool, keyevent: bool| KeyspaceEvent {
        keyspace,
        keyevent,
        db: 3,
        key: b"k".to_vec(),
        event: b"set".to_vec(),
        keyspace_channel: b"__keyspace@3__:k".to_vec(),
        keyevent_channel: b"__keyevent@3__:set".to_vec(),
    };
    let by_key = Notice {
        channel: b"__keyspace@3__:k".to_vec(),
        payload: b"set".to_vec(),
        db: 3,
    };
    let by_event = Notice {
        channel: b"__keyevent@3__:set".to_vec(),
        payload: b"k".to_vec(),
        db: 3,
    };
    let told = publish_pending_keyspace_events(&[event(true, true), event(false, false)]);
    assert_eq!(told, vec![by_key, by_event]);
    assert_eq!(publish_pending_keyspace_events(&[event(false, true)]).len(), 1);
    assert!(publish_pending_keyspace_events(&[]).is_empty());
}
