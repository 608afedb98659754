//! Hops between shards, and what a fan-out makes of them.

use ironcache::coordinator::{
    add_saturating, bulk_values, cap_count, dispatch_one_value, fan_out_all, fan_out_publish,
    fan_out_save, fan_out_split, fan_out_spublish, fan_out_targets, finish_hop, fold_deltas, gathered_reply, is_shard_unavailable,
    merge_pubsub_channels, merge_pubsub_numpat, merge_pubsub_numsub, presence_request,
    presence_via, publish_count, publish_request, run_local_keyed, run_local_whole_keyspace,
    shard_unavailable_error,
    shard_unavailable_reply, split_targets, CounterDeltas, HopEnd, ShardReply, ICEXISTS,
    ICPUBLISH, INBOX_DEPTH, SHARD_UNAVAILABLE_MSG,
};
use ironcache::inbox::{build_inboxes, inbox_depths, queued_units, Outbox, ShardWork};
use ironcache::publish::fan_out_publish_notify;
use ironcache::pubsub::{SendOutcome, ServerPush, ShardPubSub, ShedSignal, Subscriber};
use ironcache::value::{ErrorReply, Request, Value};
use std::sync::Arc;
use tokio::sync::{mpsc, oneshot};

fn reply(value: Value) -> ShardReply {
    ShardReply {
        value,
        deltas: CounterDeltas {
            expired: 0,
            moved: false,
        },
    }
}

fn names(list: &[&[u8]]) -> Value {
    Value::Array(Some(bulk_values(list.iter().map(|n| n.to_vec()).collect())))
}

#[test]
fn build_inboxes_makes_one_queue_per_shard() {
    let (inbox, rxs) = build_inboxes(4);
    assert_eq!(inbox.len(), 4);
    assert_eq!(rxs.len(), 4);
}

#[test]
fn an_inbox_holds_as_much_as_it_says() {
    let (inbox, _rxs) = build_inboxes(2);
    assert_eq!(inbox[0].max_capacity(), INBOX_DEPTH);
    assert_eq!(inbox_depths(&inbox), vec![0, 0]);
    for _ in 0..3 {
        let (tx, _rx) = oneshot::channel();
        let work = ShardWork {
            request: Request { args: vec![b"GET".to_vec()] },
            db: 0,
            reply: tx,
        };
        inbox[1].try_send(work).expect("room");
    }
    assert_eq!(inbox_depths(&inbox), vec![0, 3]);
    assert_eq!(queued_units(10, 4), 6);
    assert_eq!(queued_units(4, 10), 0);
}

#[test]
fn a_lost_hop_is_an_unavailable_shard() {
    assert_eq!(finish_hop(HopEnd::Answered(reply(Value::Integer(7)))), Value::Integer(7));
    let unavailable = Value::error(ErrorReply::err(SHARD_UNAVAILABLE_MSG));
    assert_eq!(finish_hop(HopEnd::Refused), unavailable);
    assert_eq!(finish_hop(HopEnd::Lost), unavailable);
    assert_eq!(dispatch_one_value(HopEnd::Lost), unavailable);
    assert_eq!(gathered_reply(HopEnd::Lost), shard_unavailable_reply());
    assert!(is_shard_unavailable(&shard_unavailable_error()));
    assert!(!is_shard_unavailable(&ErrorReply::err("WRONGTYPE")));
}

#[test]
fn presence_is_asked_of_the_owner() {
    let r = presence_request(b"k");
    assert_eq!(r.args, vec![ICEXISTS.as_bytes().to_vec(), b"k".to_vec()]);
    assert!(presence_via(&HopEnd::Answered(reply(Value::Integer(1)))));
    assert!(!presence_via(&HopEnd::Answered(reply(Value::Integer(0)))));
    assert!(!presence_via(&HopEnd::Lost));
    assert!(!presence_via(&HopEnd::Refused));
}

#[test]
fn a_broadcast_covers_every_shard_once() {
    assert_eq!(fan_out_targets(4, 1), vec![0, 2, 3]);
    assert_eq!(fan_out_targets(1, 0), Vec::<usize>::new());
    let ends = vec![
        HopEnd::Answered(reply(Value::Integer(0))),
        HopEnd::Lost,
        HopEnd::Answered(reply(Value::Integer(3))),
    ];
    let replies = fan_out_all(4, 1, reply(Value::Integer(1)), ends);
    let shards: Vec<usize> = replies.iter().map(|r| r.0).collect();
    assert_eq!(shards, vec![0, 1, 2, 3]);
    assert_eq!(replies[1].1.value, Value::Integer(1));
    assert_eq!(replies[2].1, shard_unavailable_reply());
    assert_eq!(replies[3].1.value, Value::Integer(3));
}

#[test]
fn a_split_keeps_the_home_part_local() {
    let targets = split_targets(&[3, 1, 0], 1);
    assert_eq!(targets, vec![3, 0]);
    let ends = vec![
        HopEnd::Answered(reply(Value::Integer(3))),
        HopEnd::Answered(reply(Value::Integer(0))),
    ];
    let replies = fan_out_split(1, Some(reply(Value::Integer(1))), &targets, ends);
    assert_eq!(replies.len(), 3);
    for (shard, r) in &replies {
        assert_eq!(r.value, Value::Integer(*shard as i64));
    }
    let replies = fan_out_save(1, None, &[0], vec![HopEnd::Lost]);
    assert_eq!(replies, vec![(0, shard_unavailable_reply())]);
}

#[test]
fn a_publish_counts_who_was_reached() {
    let r = publish_request(ICPUBLISH, b"ch", b"hi");
    assert_eq!(
        r.args,
        vec![ICPUBLISH.as_bytes().to_vec(), b"ch".to_vec(), b"hi".to_vec()]
    );
    assert_eq!(publish_count(&Value::Integer(4)), 4);
    assert_eq!(publish_count(&Value::Null), 0);
    let ends = [
        HopEnd::Answered(reply(Value::Integer(2))),
        HopEnd::Lost,
        HopEnd::Refused,
        HopEnd::Answered(reply(Value::Integer(5))),
    ];
    assert_eq!(fan_out_publish(&Value::Integer(1), &ends), 8);
    assert_eq!(fan_out_spublish(&Value::Integer(1), &ends), 8);
}

#[test]
fn channels_and_patterns_are_counted_once() {
    let replies = vec![
        (0usize, reply(names(&[b"a", b"b"]))),
        (1usize, shard_unavailable_reply()),
        (2usize, reply(names(&[b"b", b"c"]))),
    ];
    assert_eq!(merge_pubsub_channels(&replies), names(&[b"a", b"b", b"c"]));
    assert_eq!(merge_pubsub_numpat(&replies), Value::Integer(3));
}

#[test]
fn subscribers_are_added_up_over_the_shards() {
    let count = |n: i64| {
        reply(Value::Array(Some(vec![
            Value::bulk(b"a".to_vec()),
            Value::Integer(n),
        ])))
    };
    let replies = vec![(0usize, count(2)), (1usize, count(3))];
    assert_eq!(
        merge_pubsub_numsub(&[b"a".to_vec(), b"z".to_vec()], &replies),
        Value::Array(Some(vec![
            Value::bulk(b"a".to_vec()),
            Value::Integer(5),
            Value::bulk(b"z".to_vec()),
            Value::Integer(0),
        ]))
    );
    assert_eq!(add_saturating(i64::MAX, 1), i64::MAX);
    assert_eq!(add_saturating(i64::MIN, -1), i64::MIN);
    assert_eq!(cap_count(5), 5);
}

#[test]
fn lazy_expiry_joins_the_deltas() {
    let none = CounterDeltas {
        expired: 0,
        moved: false,
    };
    assert_eq!(fold_deltas(none, 0), (none, false));
    assert_eq!(
        fold_deltas(none, 2),
        (CounterDeltas { expired: 2, moved: false }, true)
    );
    let moved = CounterDeltas { expired: 0, moved: true };
    assert_eq!(fold_deltas(moved, 0), (moved, true));
}

#[test]
fn a_local_part_folds_what_it_expired() {
    let moved = CounterDeltas { expired: 1, moved: true };
    let (r, apply) = run_local_keyed(Value::ok(), moved, 2);
    assert_eq!(r.deltas, CounterDeltas { expired: 3, moved: true });
    assert_eq!(r.value, Value::ok());
    assert!(apply);
    let (r, apply) = run_local_whole_keyspace(Value::Integer(7), 2);
    assert_eq!(r, reply(Value::Integer(7)));
    assert_eq!(apply, Some(CounterDeltas { expired: 2, moved: false }));
    assert_eq!(run_local_whole_keyspace(Value::Integer(7), 0).1, None);
}

#[test]
fn a_notification_is_offered_to_every_other_shard() {
    let (senders, mut receivers) = build_inboxes(3);
    let mut outbox = Outbox::new(senders);
    let mut pubsub = ShardPubSub::default();
    let (tx, mut rx) = mpsc::channel::<ServerPush>(4);
    let shed = Arc::new(ShedSignal::default());
    pubsub.subscribe(b"ch".to_vec(), 1, Subscriber { sender: tx, shed });
    fan_out_publish_notify(&mut outbox, &mut pubsub, b"ch", b"hi", 3, 1, |_, _| false);
    for shard in [0, 2] {
        let work = receivers[shard].try_recv().expect("a unit");
        assert_eq!(work.db, 3);
        assert_eq!(work.request.args, publish_request(ICPUBLISH, b"ch", b"hi").args);
        assert!(work.reply.is_closed(), "nobody waits for the answer");
    }
    assert!(receivers[1].try_recv().is_err(), "no hop to the home shard");
    assert!(rx.try_recv().is_ok(), "the home shard delivers itself");
}

#[test]
fn a_full_or_closed_inbox_loses_the_unit() {
    let (senders, mut receivers) = build_inboxes(1);
    let mut outbox = Outbox::new(senders);
    let request = Request { args: vec![b"PING".to_vec()] };
    for _ in 0..INBOX_DEPTH {
        assert_eq!(outbox.offer(0, &request, 0), SendOutcome::Sent);
    }
    assert_eq!(outbox.offer(0, &request, 0), SendOutcome::Full);
    receivers.clear();
    assert_eq!(outbox.offer(0, &request, 0), SendOutcome::Closed);
}
