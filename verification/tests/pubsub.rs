//! Publish and subscribe on one shard, and client-side caching.

use ironcache::pubsub::{
    SendOutcome, ServerPush, ShardPubSub, ShardTracking, ShedSignal, Subscriber, settle,
    PUSH_CHANNEL_BOUND,
};
use ironcache::subscriptions::Table;
use ironcache::value::{ProtoVersion, Value};
use std::sync::Arc;
use tokio::sync::mpsc;

fn msg(ch: &[u8], p: &[u8]) -> ServerPush {
    ServerPush::Message {
        channel: ch.to_vec(),
        payload: p.to_vec(),
    }
}

/// Wrap a bare push sender into a [`Subscriber`] with a fresh shed signal (the tests below
/// that do not inspect the signal use this; the shed tests build the signal explicitly).
fn sub(sender: mpsc::Sender<ServerPush>) -> Subscriber {
    Subscriber {
        sender,
        shed: Arc::new(ShedSignal::default()),
    }
}

#[test]
fn render_message_is_the_canonical_three_element_shape() {
    let v = msg(b"ch", b"hi").render(ProtoVersion::Resp3);
    assert_eq!(
        v,
        Value::Push(vec![
            Value::bulk_str("message"),
            Value::bulk(b"ch".to_vec()),
            Value::bulk(b"hi".to_vec()),
        ])
    );
}

#[test]
fn render_is_value_push_so_proto_selects_the_frame() {
    // The renderer returns Value::Push regardless of proto; the ENCODER picks `>`
    // (RESP3) vs `*` (RESP2) from the per-connection proto. Both protos
    // therefore render the SAME Value::Push.
    let r2 = msg(b"c", b"p").render(ProtoVersion::Resp2);
    let r3 = msg(b"c", b"p").render(ProtoVersion::Resp3);
    assert_eq!(r2, r3);
    assert!(matches!(r2, Value::Push(_)));
}

#[test]
fn deliver_counts_and_drops_full_subscribers() {
    let mut t = ShardPubSub::default();
    // A subscriber with a tiny channel: the second push fills it, the third sheds it.
    let (tx, mut rx) = mpsc::channel::<ServerPush>(1);
    let shed = Arc::new(ShedSignal::default());
    t.subscribe(
        b"ch".to_vec(),
        7,
        Subscriber {
            sender: tx,
            shed: Arc::clone(&shed),
        },
    );
    // First deliver fits (count 1).
    assert_eq!(t.deliver(b"ch", &msg(b"ch", b"a")), 1);
    // Channel now holds 1 (the bound); the next deliver finds it FULL and sheds conn 7,
    // returning 0 delivered.
    assert_eq!(t.deliver(b"ch", &msg(b"ch", b"b")), 0);
    // Shed: the channel entry is pruned (no subscribers left).
    assert!(!t.channels.contains_key(b"ch"));
    // The per-connection shed signal is tripped, so the consumer's serve loop closes.
    assert!(shed.is_tripped(), "shed signal is tripped on Full");
    // The one queued message is still readable (shedding only drops the SENDER).
    assert_eq!(rx.try_recv().unwrap(), msg(b"ch", b"a"));
}

#[test]
fn a_fresh_shed_signal_is_not_tripped() {
    let shed = ShedSignal::default();
    assert!(!shed.is_tripped());
    shed.trip();
    assert!(shed.is_tripped());
    shed.trip();
    assert!(shed.is_tripped(), "a second trip changes nothing");
}

#[test]
fn unsubscribe_prunes_empty_channels() {
    let mut t = ShardPubSub::default();
    let (tx, _rx) = mpsc::channel::<ServerPush>(4);
    t.subscribe(b"ch".to_vec(), 1, sub(tx));
    assert!(t.channels.contains_key(b"ch"));
    t.unsubscribe(b"ch", 1);
    assert!(!t.channels.contains_key(b"ch"));
}

#[test]
fn deliver_to_no_subscribers_is_zero() {
    let mut t = ShardPubSub::default();
    assert_eq!(t.deliver(b"absent", &msg(b"absent", b"x")), 0);
}

// A tiny test-only glob: `news.*` matches what starts with `news.`.
fn star_suffix(pattern: &[u8], string: &[u8]) -> bool {
    pattern.last() == Some(&b'*') && string.starts_with(&pattern[..pattern.len() - 1])
}

#[test]
fn deliver_patterns_matches_and_renders_pmessage() {
    let mut t = ShardPubSub::default();
    let (tx, mut rx) = mpsc::channel::<ServerPush>(4);
    t.subscribe_pattern(b"news.*".to_vec(), 3, sub(tx));
    let payload = b"hello".to_vec();
    // A matching channel delivers exactly one pmessage; a non-matching one delivers zero.
    assert_eq!(t.deliver_patterns(b"news.tech", &payload, star_suffix), 1);
    assert_eq!(t.deliver_patterns(b"weather", &payload, star_suffix), 0);
    let got = rx.try_recv().unwrap();
    assert_eq!(
        got,
        ServerPush::PMessage {
            pattern: b"news.*".to_vec(),
            channel: b"news.tech".to_vec(),
            payload: b"hello".to_vec(),
        }
    );
}

#[test]
fn deliver_patterns_one_per_matching_pattern() {
    // A connection subscribed to TWO patterns that both match one channel gets a pmessage
    // PER pattern (Redis: no dedup across patterns).
    let mut t = ShardPubSub::default();
    let (tx, mut rx) = mpsc::channel::<ServerPush>(8);
    t.subscribe_pattern(b"news.*".to_vec(), 3, sub(tx.clone()));
    t.subscribe_pattern(b"n*".to_vec(), 3, sub(tx));
    let payload = b"x".to_vec();
    assert_eq!(t.deliver_patterns(b"news.tech", &payload, star_suffix), 2);
    assert!(rx.try_recv().is_ok());
    assert!(rx.try_recv().is_ok());
}

#[test]
fn deliver_patterns_sheds_full_consumer_and_prunes() {
    let mut t = ShardPubSub::default();
    let (tx, _rx) = mpsc::channel::<ServerPush>(1);
    let shed = Arc::new(ShedSignal::default());
    t.subscribe_pattern(
        b"p*".to_vec(),
        9,
        Subscriber {
            sender: tx,
            shed: Arc::clone(&shed),
        },
    );
    let payload = b"a".to_vec();
    // First delivery fits the bound.
    assert_eq!(t.deliver_patterns(b"px", &payload, star_suffix), 1);
    // Channel is full now -> the next delivery sheds conn 9 and prunes the empty pattern.
    assert_eq!(t.deliver_patterns(b"px", &payload, star_suffix), 0);
    assert!(!t.patterns.contains_key(b"p*"));
    // The per-connection shed signal is tripped on the pattern shed path too.
    assert!(shed.is_tripped(), "pattern shed signal is tripped on Full");
}

#[test]
fn unsubscribe_pattern_prunes_empty_patterns() {
    let mut t = ShardPubSub::default();
    let (tx, _rx) = mpsc::channel::<ServerPush>(4);
    t.subscribe_pattern(b"p*".to_vec(), 1, sub(tx));
    assert!(t.patterns.contains_key(b"p*"));
    t.unsubscribe_pattern(b"p*", 1);
    assert!(!t.patterns.contains_key(b"p*"));
}

#[test]
fn local_introspection_channels_numsub_patterns() {
    let mut t = ShardPubSub::default();
    let (tx, _rx) = mpsc::channel::<ServerPush>(4);
    t.subscribe(b"news.tech".to_vec(), 1, sub(tx.clone()));
    t.subscribe(b"news.tech".to_vec(), 2, sub(tx.clone()));
    t.subscribe(b"weather".to_vec(), 1, sub(tx.clone()));
    t.subscribe_pattern(b"news.*".to_vec(), 1, sub(tx));

    // CHANNELS unfiltered: both channels (order-independent).
    let mut chans = t.local_channels(None, star_suffix);
    chans.sort();
    assert_eq!(
        chans,
        vec![
            b"news.tech".to_vec(),
            b"weather".to_vec(),
        ]
    );
    // CHANNELS filtered by `news.*`: only the matching channel.
    let filtered = t.local_channels(Some(b"news.*"), star_suffix);
    assert_eq!(filtered, vec![b"news.tech".to_vec()]);
    // NUMSUB: 2 for news.tech, 0 for an unsubscribed channel.
    assert_eq!(t.local_numsub(b"news.tech"), 2);
    assert_eq!(t.local_numsub(b"absent"), 0);
    // PATTERNS: the single pattern with a subscriber.
    assert_eq!(t.local_patterns(), vec![b"news.*".to_vec()]);
}

#[test]
fn shard_channels_are_a_namespace_of_their_own() {
    let mut t = ShardPubSub::default();
    let (tx, mut rx) = mpsc::channel::<ServerPush>(PUSH_CHANNEL_BOUND);
    t.subscribe_shard(b"ch".to_vec(), 1, sub(tx));
    assert_eq!(t.deliver(b"ch", &msg(b"ch", b"x")), 0);
    let push = ServerPush::SMessage { channel: b"ch".to_vec(), payload: b"x".to_vec() };
    assert_eq!(t.deliver_shard(b"ch", &push), 1);
    assert_eq!(rx.try_recv().unwrap(), push);
    assert_eq!(t.local_shard_numsub(b"ch"), 1);
    assert_eq!(t.local_shard_channels(None, star_suffix), vec![b"ch".to_vec()]);
    assert!(t.local_channels(None, star_suffix).is_empty());
    t.unsubscribe_shard(b"ch", 1);
    assert_eq!(t.local_shard_numsub(b"ch"), 0);
}

#[test]
fn a_closed_receiver_is_shed_like_a_full_one() {
    let mut t = ShardPubSub::default();
    let (tx, rx) = mpsc::channel::<ServerPush>(4);
    let shed = Arc::new(ShedSignal::default());
    t.subscribe(b"ch".to_vec(), 1, Subscriber { sender: tx, shed: Arc::clone(&shed) });
    drop(rx);
    assert_eq!(t.deliver(b"ch", &msg(b"ch", b"x")), 0);
    assert!(!t.channels.contains_key(b"ch"));
    assert!(shed.is_tripped());
}

#[test]
fn settling_keeps_those_that_were_reached() {
    let mut table: Table<Subscriber> = Table::new();
    let (tx, _rx) = mpsc::channel::<ServerPush>(4);
    table.subscribe(b"ch".to_vec(), 1, sub(tx.clone()));
    table.subscribe(b"ch".to_vec(), 2, sub(tx.clone()));
    table.subscribe(b"ch".to_vec(), 3, sub(tx));
    let outcomes = [SendOutcome::Sent, SendOutcome::Full, SendOutcome::Closed];
    assert_eq!(settle(&mut table, b"ch", &outcomes), 1);
    assert_eq!(table.count(b"ch"), 1);
    assert_eq!(table.entries[0].subs[0].0, 1);
}

#[test]
fn every_push_renders_its_own_frame() {
    let p = ServerPush::PMessage {
        pattern: b"p*".to_vec(),
        channel: b"px".to_vec(),
        payload: b"hi".to_vec(),
    };
    assert_eq!(
        p.render(ProtoVersion::Resp3),
        Value::Push(vec![
            Value::bulk_str("pmessage"),
            Value::bulk(b"p*".to_vec()),
            Value::bulk(b"px".to_vec()),
            Value::bulk(b"hi".to_vec()),
        ])
    );
    let s = ServerPush::SMessage { channel: b"c".to_vec(), payload: b"hi".to_vec() };
    assert_eq!(
        s.render(ProtoVersion::Resp3),
        Value::Push(vec![
            Value::bulk_str("smessage"),
            Value::bulk(b"c".to_vec()),
            Value::bulk(b"hi".to_vec()),
        ])
    );
    let one = ServerPush::Invalidate { keys: Some(vec![b"k".to_vec()]) };
    assert_eq!(
        one.render(ProtoVersion::Resp3),
        Value::Push(vec![
            Value::bulk_str("invalidate"),
            Value::Array(Some(vec![Value::bulk(b"k".to_vec())])),
        ])
    );
    let all = ServerPush::Invalidate { keys: None };
    assert_eq!(
        all.render(ProtoVersion::Resp3),
        Value::Push(vec![Value::bulk_str("invalidate"), Value::Null])
    );
    assert_eq!(one.copy(), one);
}

#[test]
fn an_invalidation_is_told_once() {
    let mut t = ShardTracking::default();
    assert!(t.is_empty());
    let (tx, mut rx) = mpsc::channel::<ServerPush>(8);
    t.track(b"k".to_vec(), 1, sub(tx));
    assert!(!t.is_empty());
    assert_eq!(t.invalidate(b"other", None), 0);
    assert_eq!(t.invalidate(b"k", None), 1);
    assert_eq!(
        rx.try_recv().unwrap(),
        ServerPush::Invalidate { keys: Some(vec![b"k".to_vec()]) }
    );
    // The key is no longer tracked.
    assert_eq!(t.invalidate(b"k", None), 0);
    assert!(t.is_empty());
}

#[test]
fn the_writer_is_not_told_of_its_own_write() {
    let mut t = ShardTracking::default();
    let (tx, mut rx) = mpsc::channel::<ServerPush>(8);
    t.track(b"k".to_vec(), 1, sub(tx));
    assert_eq!(t.invalidate(b"k", Some(1)), 0);
    assert!(rx.try_recv().is_err());
}

#[test]
fn a_prefix_is_told_of_every_write_below_it() {
    let mut t = ShardTracking::default();
    let (tx, mut rx) = mpsc::channel::<ServerPush>(8);
    t.track_prefix(b"user:".to_vec(), 1, sub(tx));
    assert_eq!(t.invalidate(b"user:1", None), 1);
    assert_eq!(t.invalidate(b"user:2", None), 1);
    assert_eq!(t.invalidate(b"item:1", None), 0);
    assert!(rx.try_recv().is_ok());
    assert!(rx.try_recv().is_ok());
    t.forget_conn(1);
    assert!(t.is_empty());
    assert_eq!(t.invalidate(b"user:3", None), 0);
}

#[test]
fn a_flush_tells_every_tracker() {
    let mut t = ShardTracking::default();
    let (tx1, mut rx1) = mpsc::channel::<ServerPush>(8);
    let (tx2, mut rx2) = mpsc::channel::<ServerPush>(8);
    t.track(b"a".to_vec(), 1, sub(tx1));
    t.track_prefix(b"b".to_vec(), 2, sub(tx2));
    t.invalidate_all(None);
    assert_eq!(rx1.try_recv().unwrap(), ServerPush::Invalidate { keys: None });
    assert_eq!(rx2.try_recv().unwrap(), ServerPush::Invalidate { keys: None });
    // The keys are forgotten, the prefixes stay.
    assert_eq!(t.invalidate(b"a", None), 0);
    assert_eq!(t.invalidate(b"bx", None), 1);
}

#[test]
fn a_tripped_signal_stays_tripped() {
    let s = ShedSignal::default();
    assert!(!s.is_tripped());
    s.trip();
    s.trip();
    assert!(s.is_tripped());
}
