//! Server push: the subscriptions of a shard, who gets a published message, and
//! who is told that a cached key is stale.
use std::sync::atomic::AtomicBool;
use std::sync::Arc;
use tokio::sync::mpsc::Sender;
use tokio::sync::Notify;
use vstd::prelude::*;
use vstd::utf8::encode_utf8;
use crate::bytes::{byte_seqs, copy_bytes};
use crate::coordinator::{add_saturating, cap_count, capped, saturated};
use crate::history::History;
use crate::subscriptions::{conns, forgotten, keep_marked, kept, lemma_conns_kept, lemma_kept,
    lemma_kept_all, lemma_with_subs, names, not_of, row_of, subs_of, subscribed, unsubscribed,
    well_formed, with_subs, without, Row, Table};
use crate::text::lemma_first_at;
use crate::value::{values, ProtoVersion, Value, ValueModel};

verus! {

/// `tokio::sync::mpsc::Sender`, a handle on a bounded channel that others drain.
#[verifier::external_type_specification]
#[verifier::external_body]
#[verifier::reject_recursive_types(T)]
pub struct ExSender<T>(tokio::sync::mpsc::Sender<T>);

/// `tokio::sync::Notify`, which wakes a waiting task.
#[verifier::external_type_specification]
#[verifier::external_body]
pub struct ExNotify(tokio::sync::Notify);

/// How many pushes a connection may have outstanding before it is shed.
pub const PUSH_CHANNEL_BOUND: usize = 1024;

/// What became of a push that was offered to a connection.
#[derive(Debug, Clone, Copy, PartialEq, Eq, Structural)]
pub enum SendOutcome {
    /// The channel took it.
    Sent,
    /// The channel was full.
    Full,
    /// The connection is gone.
    Closed,
}

/// `Sender::try_send`: puts an item into the channel if there is room, and never
/// waits. Which of the three happens depends on what the receiver has drained by
/// then, so nothing is said of the result.
#[verifier::external_body]
pub(crate) fn try_send<T>(sender: &Sender<T>, item: T) -> (r: SendOutcome) {
    match sender.try_send(item) {
        Ok(()) => SendOutcome::Sent,
        Err(tokio::sync::mpsc::error::TrySendError::Full(_)) => SendOutcome::Full,
        Err(tokio::sync::mpsc::error::TrySendError::Closed(_)) => SendOutcome::Closed,
    }
}

/// `Notify::new`: a handle that no task waits on and that holds no permit. The
/// state of the handle is shared between tasks, so nothing is said of it.
#[verifier::external_body]
pub(crate) fn new_notify() -> Notify {
    Notify::new()
}

/// Whether a handle came out of `Notify::new`.
pub closed spec fn made(wake: Notify) -> bool {
    call_ensures(new_notify, (), wake)
}

/// `Notify::notify_one`: wakes the task that waits, or leaves a permit for the next
/// one to wait. The state of the handle is shared between tasks, so nothing is said
/// of it.
#[verifier::external_body]
fn notify_one(wake: &Notify) {
    wake.notify_one()
}

/// Whether a handle was notified: `notify_one` was called on it.
pub closed spec fn notified(wake: Notify) -> bool {
    call_ensures(notify_one, (&wake,), ())
}

/// Notifies a handle.
pub(crate) fn notify(wake: &Notify)
    ensures
        notified(*wake),
{
    notify_one(wake)
}

/// The signal by which a connection learns that it was shed. It is shared between
/// cores: which of their stores a load sees is not stated.
#[derive(Debug)]
pub struct ShedSignal {
    /// Whether the signal is tripped.
    pub flagged: AtomicBool,
    /// What a connection waits on between two looks at the flag.
    pub wake: Notify,
}

impl Default for ShedSignal {
    /// A signal that is not tripped: its flag is made with `false`.
    fn default() -> (r: Self)
        ensures
            call_ensures(AtomicBool::new, (false,), r.flagged),
            made(r.wake),
    {
        ShedSignal { flagged: AtomicBool::new(false), wake: new_notify() }
    }
}

impl ShedSignal {
    /// Trips the signal and wakes the connection that waits on it. A second trip
    /// changes nothing.
    pub fn trip(&self)
        ensures
            call_ensures(
                AtomicBool::store,
                (&self.flagged, true, std::sync::atomic::Ordering::Relaxed),
                (),
            ),
            notified(self.wake),
    {
        self.flagged.store(true, std::sync::atomic::Ordering::Relaxed);
        notify(&self.wake);
    }

    /// Whether the signal is tripped: what a load of its flag sees.
    pub fn is_tripped(&self) -> (r: bool)
        ensures
            call_ensures(
                AtomicBool::load,
                (&self.flagged, std::sync::atomic::Ordering::Relaxed),
                r,
            ),
    {
        self.flagged.load(std::sync::atomic::Ordering::Relaxed)
    }
}

/// A frame that the server sends on its own.
#[derive(Debug, PartialEq, Eq)]
pub enum ServerPush {
    /// A message to the subscribers of a channel.
    Message {
        /// The channel.
        channel: Vec<u8>,
        /// The message.
        payload: Vec<u8>,
    },
    /// A message to the subscribers of a pattern.
    PMessage {
        /// The pattern that matched.
        pattern: Vec<u8>,
        /// The channel.
        channel: Vec<u8>,
        /// The message.
        payload: Vec<u8>,
    },
    /// A message to the subscribers of a shard channel.
    SMessage {
        /// The shard channel.
        channel: Vec<u8>,
        /// The message.
        payload: Vec<u8>,
    },
    /// Cached keys are stale; all of them where no key is named.
    Invalidate {
        /// The keys.
        keys: Option<Vec<Vec<u8>>>,
    },
}

/// The mathematical value of a push.
pub enum PushModel {
    /// A message to the subscribers of a channel.
    Message {
        /// The channel.
        channel: Seq<u8>,
        /// The message.
        payload: Seq<u8>,
    },
    /// A message to the subscribers of a pattern.
    PMessage {
        /// The pattern that matched.
        pattern: Seq<u8>,
        /// The channel.
        channel: Seq<u8>,
        /// The message.
        payload: Seq<u8>,
    },
    /// A message to the subscribers of a shard channel.
    SMessage {
        /// The shard channel.
        channel: Seq<u8>,
        /// The message.
        payload: Seq<u8>,
    },
    /// Cached keys are stale; all of them where no key is named.
    Invalidate {
        /// The keys.
        keys: Option<Seq<Seq<u8>>>,
    },
}

/// The bulk strings of keys.
pub open spec fn key_bulks(keys: Seq<Seq<u8>>) -> Seq<ValueModel> {
    keys.map_values(|b: Seq<u8>| ValueModel::Bulk(Some(b)))
}

/// The frame that a push becomes.
pub open spec fn rendered(p: PushModel) -> ValueModel {
    ValueModel::Push(
        match p {
            PushModel::Message { channel, payload } => seq![
                ValueModel::Bulk(Some(encode_utf8("message"@))),
                ValueModel::Bulk(Some(channel)),
                ValueModel::Bulk(Some(payload)),
            ],
            PushModel::PMessage { pattern, channel, payload } => seq![
                ValueModel::Bulk(Some(encode_utf8("pmessage"@))),
                ValueModel::Bulk(Some(pattern)),
                ValueModel::Bulk(Some(channel)),
                ValueModel::Bulk(Some(payload)),
            ],
            PushModel::SMessage { channel, payload } => seq![
                ValueModel::Bulk(Some(encode_utf8("smessage"@))),
                ValueModel::Bulk(Some(channel)),
                ValueModel::Bulk(Some(payload)),
            ],
            PushModel::Invalidate { keys } => seq![
                ValueModel::Bulk(Some(encode_utf8("invalidate"@))),
                match keys {
                    Some(ks) => ValueModel::Array(Some(key_bulks(ks))),
                    None => ValueModel::Null,
                },
            ],
        },
    )
}

fn copy_all(v: &Vec<Vec<u8>>) -> (r: Vec<Vec<u8>>)
    ensures
        byte_seqs(r@) == byte_seqs(v@),
{
    let mut r: Vec<Vec<u8>> = Vec::new();
    for i in 0..v.len()
        invariant
            r@.len() == i,
            forall|k: int| 0 <= k < i ==> #[trigger] r@[k]@ == v@[k]@,
    {
        r.push(copy_bytes(v[i].as_slice()));
    }
    assert(byte_seqs(r@) =~= byte_seqs(v@));
    r
}

fn frame(items: Vec<Value>) -> (v: Value)
    ensures
        v.model() == ValueModel::Push(items@.map_values(|x: Value| x.model())),
{
    proof {
        crate::value::lemma_values(items@);
        assert(values(items@) =~= items@.map_values(|x: Value| x.model()));
    }
    Value::Push(items)
}

impl ServerPush {
    /// The mathematical value.
    pub open spec fn model(self) -> PushModel {
        match self {
            ServerPush::Message { channel, payload } => PushModel::Message {
                channel: channel@,
                payload: payload@,
            },
            ServerPush::PMessage { pattern, channel, payload } => PushModel::PMessage {
                pattern: pattern@,
                channel: channel@,
                payload: payload@,
            },
            ServerPush::SMessage { channel, payload } => PushModel::SMessage {
                channel: channel@,
                payload: payload@,
            },
            ServerPush::Invalidate { keys: Some(ks) } => PushModel::Invalidate {
                keys: Some(byte_seqs(ks@)),
            },
            ServerPush::Invalidate { keys: None } => PushModel::Invalidate { keys: None },
        }
    }

    /// A copy of the push.
    pub fn copy(&self) -> (r: ServerPush)
        ensures
            r.model() == self.model(),
    {
        match self {
            ServerPush::Message { channel, payload } => ServerPush::Message {
                channel: copy_bytes(channel.as_slice()),
                payload: copy_bytes(payload.as_slice()),
            },
            ServerPush::PMessage { pattern, channel, payload } => ServerPush::PMessage {
                pattern: copy_bytes(pattern.as_slice()),
                channel: copy_bytes(channel.as_slice()),
                payload: copy_bytes(payload.as_slice()),
            },
            ServerPush::SMessage { channel, payload } => ServerPush::SMessage {
                channel: copy_bytes(channel.as_slice()),
                payload: copy_bytes(payload.as_slice()),
            },
            ServerPush::Invalidate { keys: Some(ks) } => ServerPush::Invalidate {
                keys: Some(copy_all(ks)),
            },
            ServerPush::Invalidate { keys: None } => ServerPush::Invalidate { keys: None },
        }
    }

    /// The frame that the push becomes. It is the same for both versions of the
    /// protocol: the encoder picks the type byte.
    pub fn render(&self, _proto: ProtoVersion) -> (v: Value)
        ensures
            v.model() == rendered(self.model()),
    {
        let mut items: Vec<Value> = Vec::new();
        match self {
            ServerPush::Message { channel, payload } => {
                items.push(Value::bulk_str("message"));
                items.push(Value::bulk(copy_bytes(channel.as_slice())));
                items.push(Value::bulk(copy_bytes(payload.as_slice())));
            },
            ServerPush::PMessage { pattern, channel, payload } => {
                items.push(Value::bulk_str("pmessage"));
                items.push(Value::bulk(copy_bytes(pattern.as_slice())));
                items.push(Value::bulk(copy_bytes(channel.as_slice())));
                items.push(Value::bulk(copy_bytes(payload.as_slice())));
            },
            ServerPush::SMessage { channel, payload } => {
                items.push(Value::bulk_str("smessage"));
                items.push(Value::bulk(copy_bytes(channel.as_slice())));
                items.push(Value::bulk(copy_bytes(payload.as_slice())));
            },
            ServerPush::Invalidate { keys } => {
                items.push(Value::bulk_str("invalidate"));
                match keys {
                    Some(ks) => {
                        let copies = copy_all(ks);
                        items.push(
                            Value::Array(Some(crate::coordinator::bulk_values(copies))),
                        );
                    },
                    None => {
                        items.push(Value::Null);
                    },
                }
            },
        }
        assert(ValueModel::Push(items@.map_values(|x: Value| x.model())) == rendered(self.model()))
            by {
            let got = items@.map_values(|x: Value| x.model());
            match rendered(self.model()) {
                ValueModel::Push(want) => {
                    assert(got =~= want);
                },
                _ => {},
            }
        }
        frame(items)
    }
}

/// The handles by which a connection is reached.
#[derive(Debug)]
pub struct Subscriber {
    /// The connection's push channel.
    pub sender: Sender<ServerPush>,
    /// The connection's shed signal.
    pub shed: Arc<ShedSignal>,
}

/// What was done to a connection.
pub enum PushEvent {
    /// A push was offered to it.
    Offered {
        /// The connection.
        conn: u64,
        /// Its handles.
        to: Subscriber,
        /// The push.
        push: PushModel,
        /// What became of it.
        outcome: SendOutcome,
    },
    /// Its shed signal was tripped.
    Tripped {
        /// The connection.
        conn: u64,
        /// Its handles.
        to: Subscriber,
    },
}

/// Whether an event took place: the push was handed to `try_send` on the connection's
/// channel with that outcome, or the connection's signal was tripped.
pub closed spec fn took_place(e: PushEvent) -> bool {
    match e {
        PushEvent::Offered { to, push, outcome, .. } => exists|item: ServerPush|
            item.model() == push && #[trigger] call_ensures(
                try_send::<ServerPush>,
                (&to.sender, item),
                outcome,
            ),
        PushEvent::Tripped { to, .. } => call_ensures(ShedSignal::trip, (&*to.shed,), ()),
    }
}

/// Whether all that a log has gained took place.
pub open spec fn carried_out(pre_log: Seq<PushEvent>, post_log: Seq<PushEvent>) -> bool {
    &&& pre_log.len() <= post_log.len()
    &&& forall|k: int| pre_log.len() <= k < post_log.len() ==> took_place(#[trigger] post_log[k])
}

/// A connection that does not take a push is told that it is shed.
pub open spec fn offer_events(
    conn: u64,
    to: Subscriber,
    push: PushModel,
    outcome: SendOutcome,
) -> Seq<PushEvent> {
    let offered = PushEvent::Offered { conn, to, push, outcome };
    if outcome == SendOutcome::Sent {
        seq![offered]
    } else {
        seq![offered, PushEvent::Tripped { conn, to }]
    }
}

/// What is done to connections that a push is offered to in turn.
pub open spec fn round_events(
    subs: Seq<(u64, Subscriber)>,
    push: PushModel,
    outcomes: Seq<SendOutcome>,
) -> Seq<PushEvent>
    decreases subs.len(),
{
    if subs.len() == 0 {
        Seq::empty()
    } else {
        round_events(subs.drop_last(), push, outcomes.drop_last()) + offer_events(
            subs.last().0,
            subs.last().1,
            push,
            outcomes.last(),
        )
    }
}

/// How many connections took the push.
pub open spec fn sent_count(outcomes: Seq<SendOutcome>) -> nat
    decreases outcomes.len(),
{
    if outcomes.len() == 0 {
        0
    } else {
        sent_count(outcomes.drop_last()) + (if outcomes.last() == SendOutcome::Sent {
            1nat
        } else {
            0nat
        })
    }
}

/// Which connections took the push.
pub open spec fn sent_marks(outcomes: Seq<SendOutcome>) -> Seq<bool> {
    outcomes.map_values(|o: SendOutcome| o == SendOutcome::Sent)
}

/// The subscriptions that a push goes to when one connection is left out.
pub open spec fn reached(subs: Seq<(u64, Subscriber)>, skip: Option<u64>) -> Seq<
    (u64, Subscriber),
> {
    match skip {
        Some(conn) => without(subs, conn),
        None => subs,
    }
}

fn offer(log: &mut History<PushEvent>, conn: u64, sub: &Subscriber, push: &ServerPush) -> (r:
    SendOutcome)
    ensures
        final(log)@ == old(log)@ + offer_events(conn, *sub, push.model(), r),
        carried_out(old(log)@, final(log)@),
{
    let item = push.copy();
    let outcome = try_send(&sub.sender, item);
    if outcome != SendOutcome::Sent {
        sub.shed.trip();
    }
    log.note(Ghost(offer_events(conn, *sub, push.model(), outcome)));
    outcome
}

/// Borrowed handles as handles.
pub open spec fn owned(subs: Seq<(u64, &Subscriber)>) -> Seq<(u64, Subscriber)> {
    subs.map_values(|p: (u64, &Subscriber)| (p.0, *p.1))
}

fn borrow_subs<'a>(subs: &'a Vec<(u64, Subscriber)>, skip: Option<u64>) -> (r: Vec<
    (u64, &'a Subscriber),
>)
    ensures
        owned(r@) == reached(subs@, skip),
{
    let mut r: Vec<(u64, &'a Subscriber)> = Vec::new();
    assert(owned(r@) =~= reached(subs@.take(0), skip)) by {
        assert(subs@.take(0) =~= Seq::<(u64, Subscriber)>::empty());
    }
    for i in 0..subs.len()
        invariant
            owned(r@) == reached(subs@.take(i as int), skip),
    {
        let ghost before = r@;
        let ghost part = subs@.take(i as int + 1);
        assert(part.drop_last() =~= subs@.take(i as int));
        match skip {
            Some(conn) => {
                assert(not_of(part, conn).drop_last() =~= not_of(subs@.take(i as int), conn));
                if subs[i].0 != conn {
                    r.push((subs[i].0, &subs[i].1));
                    assert(owned(r@) =~= owned(before).push(subs@[i as int]));
                }
            },
            None => {
                r.push((subs[i].0, &subs[i].1));
                assert(owned(r@) =~= owned(before).push(subs@[i as int]));
                assert(owned(r@) =~= part);
            },
        }
    }
    assert(subs@.take(subs@.len() as int) =~= subs@);
    r
}

fn offer_round(
    log: &mut History<PushEvent>,
    subs: &Vec<(u64, &Subscriber)>,
    push: &ServerPush,
) -> (outcomes: Vec<SendOutcome>)
    ensures
        outcomes@.len() == subs@.len(),
        final(log)@ == old(log)@ + round_events(owned(subs@), push.model(), outcomes@),
        carried_out(old(log)@, final(log)@),
{
    let ghost start = log@;
    let ghost all = owned(subs@);
    let mut outcomes: Vec<SendOutcome> = Vec::new();
    assert(log@ =~= start + round_events(all.take(0), push.model(), outcomes@));
    for i in 0..subs.len()
        invariant
            all == owned(subs@),
            outcomes@.len() == i,
            start == old(log)@,
            carried_out(start, log@),
            log@ == start + round_events(all.take(i as int), push.model(), outcomes@),
    {
        let ghost before = outcomes@;
        let outcome = offer(log, subs[i].0, subs[i].1, push);
        outcomes.push(outcome);
        proof {
            assert(all.take(i as int + 1).drop_last() =~= all.take(i as int));
            assert(outcomes@.drop_last() =~= before);
            assert(log@ =~= start + round_events(
                all.take(i as int + 1),
                push.model(),
                outcomes@,
            ));
        }
    }
    assert(all.take(all.len() as int) =~= all);
    outcomes
}

fn marks_of(outcomes: &[SendOutcome]) -> (r: (Vec<bool>, usize))
    ensures
        r.0@ == sent_marks(outcomes@),
        r.1 == sent_count(outcomes@),
{
    let mut keep: Vec<bool> = Vec::new();
    let mut n: usize = 0;
    for i in 0..outcomes.len()
        invariant
            n <= i,
            n == sent_count(outcomes@.take(i as int)),
            keep@ =~= sent_marks(outcomes@).take(i as int),
    {
        assert(outcomes@.take(i as int + 1).drop_last() =~= outcomes@.take(i as int));
        let sent = outcomes[i] == SendOutcome::Sent;
        keep.push(sent);
        if sent {
            n += 1;
        }
    }
    assert(outcomes@.take(outcomes@.len() as int) =~= outcomes@);
    (keep, n)
}

/// What a round of offers under a name makes of the table: whoever did not take
/// the push is dropped, and a name that nobody is left under with them.
pub open spec fn settled(
    pre: Seq<Row<Subscriber>>,
    name: Seq<u8>,
    outcomes: Seq<SendOutcome>,
    post: Seq<Row<Subscriber>>,
    n: i64,
) -> bool {
    let i = row_of(pre, name);
    &&& outcomes.len() == subs_of(pre, name).len()
    &&& n == capped(sent_count(outcomes))
    &&& post == (if i < pre.len() {
        with_subs(pre, i, kept(pre[i].subs, sent_marks(outcomes)))
    } else {
        pre
    })
}

/// Settles a round of offers under a name and counts who took the push.
pub fn settle(table: &mut Table<Subscriber>, name: &[u8], outcomes: &[SendOutcome]) -> (n: i64)
    requires
        outcomes@.len() == subs_of(old(table)@, name@).len(),
    ensures
        settled(old(table)@, name@, outcomes@, final(table)@, n),
        well_formed(old(table)@) ==> well_formed(final(table)@),
{
    let i = table.find(name);
    let (keep, sent) = marks_of(outcomes);
    if i < table.entries.len() {
        table.keep_row(i, keep.as_slice());
    }
    cap_count(sent)
}

fn deliver_under(
    table: &mut Table<Subscriber>,
    log: &mut History<PushEvent>,
    name: &[u8],
    push: &ServerPush,
) -> (r: (i64, Ghost<Seq<SendOutcome>>))
    ensures
        settled(old(table)@, name@, r.1@, final(table)@, r.0),
        final(log)@ == old(log)@ + round_events(
            subs_of(old(table)@, name@),
            push.model(),
            r.1@,
        ),
        carried_out(old(log)@, final(log)@),
        well_formed(old(table)@) ==> well_formed(final(table)@),
{
    let ghost pre = table@;
    let ghost start = log@;
    let i = table.find(name);
    if i >= table.entries.len() {
        assert(log@ =~= start + round_events(subs_of(pre, name@), push.model(), Seq::empty()));
        return (0, Ghost(Seq::empty()));
    }
    assert(pre[i as int].subs == table.entries@[i as int].subs@);
    let outcomes = {
        let subs = borrow_subs(&table.entries[i].subs, None);
        assert(owned(subs@) == pre[i as int].subs);
        assert(owned(subs@).len() == subs@.len());
        offer_round(log, &subs, push)
    };
    let n = settle(table, name, outcomes.as_slice());
    (n, Ghost(outcomes@))
}

/// The subscriptions of a shard.
pub struct ShardPubSub {
    /// By channel.
    pub channels: Table<Subscriber>,
    /// By pattern.
    pub patterns: Table<Subscriber>,
    /// By shard channel, apart from the channels.
    pub shard_channels: Table<Subscriber>,
    /// What was done to connections so far.
    pub log: History<PushEvent>,
}

impl Default for ShardPubSub {
    /// No subscriptions.
    fn default() -> (r: Self)
        ensures
            r.channels@.len() == 0,
            r.patterns@.len() == 0,
            r.shard_channels@.len() == 0,
            r.log@.len() == 0,
            r.wf(),
    {
        ShardPubSub {
            channels: Table::new(),
            patterns: Table::new(),
            shard_channels: Table::new(),
            log: History::new(),
        }
    }
}

/// A round of offers took place under a name of a table.
pub open spec fn delivered(
    pre: Seq<Row<Subscriber>>,
    pre_log: Seq<PushEvent>,
    name: Seq<u8>,
    push: PushModel,
    post: Seq<Row<Subscriber>>,
    post_log: Seq<PushEvent>,
    n: i64,
) -> bool {
    exists|outcomes: Seq<SendOutcome>| #[trigger]
        settled(pre, name, outcomes, post, n) && post_log == pre_log + round_events(
            subs_of(pre, name),
            push,
            outcomes,
        )
}

impl ShardPubSub {
    /// Whether the tables are well-formed.
    pub open spec fn wf(self) -> bool {
        &&& well_formed(self.channels@)
        &&& well_formed(self.patterns@)
        &&& well_formed(self.shard_channels@)
    }

    /// Subscribes a connection to a channel, or replaces its handles.
    pub fn subscribe(&mut self, channel: Vec<u8>, conn_id: u64, subscriber: Subscriber)
        ensures
            final(self).channels@ == subscribed(
                old(self).channels@,
                channel@,
                conn_id,
                subscriber,
            ),
            final(self).patterns == old(self).patterns,
            final(self).shard_channels == old(self).shard_channels,
            final(self).log == old(self).log,
            old(self).wf() ==> final(self).wf(),
    {
        self.channels.subscribe(channel, conn_id, subscriber);
    }

    /// Ends a subscription to a channel.
    pub fn unsubscribe(&mut self, channel: &[u8], conn_id: u64)
        ensures
            final(self).channels@ == unsubscribed(old(self).channels@, channel@, conn_id),
            final(self).patterns == old(self).patterns,
            final(self).shard_channels == old(self).shard_channels,
            final(self).log == old(self).log,
            old(self).wf() ==> final(self).wf(),
    {
        self.channels.unsubscribe(channel, conn_id);
    }

    /// Subscribes a connection to a pattern, or replaces its handles.
    pub fn subscribe_pattern(&mut self, pattern: Vec<u8>, conn_id: u64, subscriber: Subscriber)
        ensures
            final(self).patterns@ == subscribed(
                old(self).patterns@,
                pattern@,
                conn_id,
                subscriber,
            ),
            final(self).channels == old(self).channels,
            final(self).shard_channels == old(self).shard_channels,
            final(self).log == old(self).log,
            old(self).wf() ==> final(self).wf(),
    {
        self.patterns.subscribe(pattern, conn_id, subscriber);
    }

    /// Ends a subscription to a pattern.
    pub fn unsubscribe_pattern(&mut self, pattern: &[u8], conn_id: u64)
        ensures
            final(self).patterns@ == unsubscribed(old(self).patterns@, pattern@, conn_id),
            final(self).channels == old(self).channels,
            final(self).shard_channels == old(self).shard_channels,
            final(self).log == old(self).log,
            old(self).wf() ==> final(self).wf(),
    {
        self.patterns.unsubscribe(pattern, conn_id);
    }

    /// Subscribes a connection to a shard channel, or replaces its handles.
    pub fn subscribe_shard(&mut self, channel: Vec<u8>, conn_id: u64, subscriber: Subscriber)
        ensures
            final(self).shard_channels@ == subscribed(
                old(self).shard_channels@,
                channel@,
                conn_id,
                subscriber,
            ),
            final(self).channels == old(self).channels,
            final(self).patterns == old(self).patterns,
            final(self).log == old(self).log,
            old(self).wf() ==> final(self).wf(),
    {
        self.shard_channels.subscribe(channel, conn_id, subscriber);
    }

    /// Ends a subscription to a shard channel.
    pub fn unsubscribe_shard(&mut self, channel: &[u8], conn_id: u64)
        ensures
            final(self).shard_channels@ == unsubscribed(
                old(self).shard_channels@,
                channel@,
                conn_id,
            ),
            final(self).channels == old(self).channels,
            final(self).patterns == old(self).patterns,
            final(self).log == old(self).log,
            old(self).wf() ==> final(self).wf(),
    {
        self.shard_channels.unsubscribe(channel, conn_id);
    }

    /// Offers a push to every subscriber of a channel and counts those that took
    /// it. The others are shed.
    pub fn deliver(&mut self, channel: &[u8], push: &ServerPush) -> (n: i64)
        ensures
            delivered(
                old(self).channels@,
                old(self).log@,
                channel@,
                push.model(),
                final(self).channels@,
                final(self).log@,
                n,
            ),
            carried_out(old(self).log@, final(self).log@),
            final(self).patterns == old(self).patterns,
            final(self).shard_channels == old(self).shard_channels,
            old(self).wf() ==> final(self).wf(),
    {
        let (n, _) = deliver_under(&mut self.channels, &mut self.log, channel, push);
        n
    }

    /// Offers a push to every subscriber of a shard channel and counts those that
    /// took it. The others are shed.
    pub fn deliver_shard(&mut self, channel: &[u8], push: &ServerPush) -> (n: i64)
        ensures
            delivered(
                old(self).shard_channels@,
                old(self).log@,
                channel@,
                push.model(),
                final(self).shard_channels@,
                final(self).log@,
                n,
            ),
            carried_out(old(self).log@, final(self).log@),
            final(self).channels == old(self).channels,
            final(self).patterns == old(self).patterns,
            old(self).wf() ==> final(self).wf(),
    {
        let (n, _) = deliver_under(&mut self.shard_channels, &mut self.log, channel, push);
        n
    }

    /// How many subscribers a channel has on this shard.
    pub fn local_numsub(&self, channel: &[u8]) -> (n: i64)
        ensures
            n == capped(subs_of(self.channels@, channel@).len()),
    {
        cap_count(self.channels.count(channel))
    }

    /// How many subscribers a shard channel has on this shard.
    pub fn local_shard_numsub(&self, channel: &[u8]) -> (n: i64)
        ensures
            n == capped(subs_of(self.shard_channels@, channel@).len()),
    {
        cap_count(self.shard_channels.count(channel))
    }
}

/// A matcher said of a pattern whether it matches a text.
pub open spec fn judged<F: Fn(&[u8], &[u8]) -> bool>(
    glob: F,
    pattern: Seq<u8>,
    text: Seq<u8>,
    verdict: bool,
) -> bool {
    exists|p: &[u8], t: &[u8]|
        p@ == pattern && t@ == text && #[trigger] call_ensures(glob, (p, t), verdict)
}

/// A matcher judged every name of a table against a text.
pub open spec fn judged_names<F: Fn(&[u8], &[u8]) -> bool>(
    glob: F,
    t: Seq<Row<Subscriber>>,
    text: Seq<u8>,
    verdicts: Seq<bool>,
) -> bool {
    &&& verdicts.len() == t.len()
    &&& forall|i: int|
        0 <= i < t.len() ==> judged(glob, (#[trigger] t[i]).name, text, verdicts[i])
}

/// A matcher judged a text against every name of a table.
pub open spec fn judged_against<F: Fn(&[u8], &[u8]) -> bool>(
    glob: F,
    pattern: Seq<u8>,
    t: Seq<Row<Subscriber>>,
    verdicts: Seq<bool>,
) -> bool {
    &&& verdicts.len() == t.len()
    &&& forall|i: int|
        0 <= i < t.len() ==> judged(glob, pattern, (#[trigger] t[i]).name, verdicts[i])
}

/// The patterns after a round of offers under each that matched.
pub open spec fn rows_after(
    t: Seq<Row<Subscriber>>,
    verdicts: Seq<bool>,
    rounds: Seq<Seq<SendOutcome>>,
) -> Seq<Row<Subscriber>>
    decreases t.len(),
{
    if t.len() == 0 {
        Seq::empty()
    } else {
        let rest = rows_after(t.drop_last(), verdicts.drop_last(), rounds.drop_last());
        let row = t.last();
        if verdicts.last() {
            let subs = kept(row.subs, sent_marks(rounds.last()));
            if subs.len() == 0 {
                rest
            } else {
                rest.push(Row { name: row.name, subs })
            }
        } else {
            rest.push(row)
        }
    }
}

/// What is done to connections in a round of offers under each pattern that
/// matched.
pub open spec fn pattern_events(
    t: Seq<Row<Subscriber>>,
    verdicts: Seq<bool>,
    rounds: Seq<Seq<SendOutcome>>,
    channel: Seq<u8>,
    payload: Seq<u8>,
) -> Seq<PushEvent>
    decreases t.len(),
{
    if t.len() == 0 {
        Seq::empty()
    } else {
        let rest = pattern_events(
            t.drop_last(),
            verdicts.drop_last(),
            rounds.drop_last(),
            channel,
            payload,
        );
        let row = t.last();
        if verdicts.last() {
            rest + round_events(
                row.subs,
                PushModel::PMessage { pattern: row.name, channel, payload },
                rounds.last(),
            )
        } else {
            rest
        }
    }
}

/// How many offers were taken in all rounds.
pub open spec fn total_sent(rounds: Seq<Seq<SendOutcome>>) -> nat
    decreases rounds.len(),
{
    if rounds.len() == 0 {
        0
    } else {
        total_sent(rounds.drop_last()) + sent_count(rounds.last())
    }
}

/// Whether there is a round for each row: of all its subscribers where the row
/// matched, and of none where it did not.
pub open spec fn rounds_fit(
    t: Seq<Row<Subscriber>>,
    verdicts: Seq<bool>,
    rounds: Seq<Seq<SendOutcome>>,
) -> bool {
    &&& rounds.len() == t.len()
    &&& verdicts.len() == t.len()
    &&& forall|i: int|
        0 <= i < t.len() ==> (#[trigger] rounds[i]).len() == (if verdicts[i] {
            t[i].subs.len()
        } else {
            0
        })
}

/// A message was offered under every pattern that matches its channel.
pub open spec fn delivered_patterns(
    pre: Seq<Row<Subscriber>>,
    pre_log: Seq<PushEvent>,
    verdicts: Seq<bool>,
    channel: Seq<u8>,
    payload: Seq<u8>,
    post: Seq<Row<Subscriber>>,
    post_log: Seq<PushEvent>,
    n: i64,
) -> bool {
    exists|rounds: Seq<Seq<SendOutcome>>|
        {
            &&& #[trigger] rounds_fit(pre, verdicts, rounds)
            &&& post == rows_after(pre, verdicts, rounds)
            &&& post_log == pre_log + pattern_events(pre, verdicts, rounds, channel, payload)
            &&& n == capped(total_sent(rounds))
        }
}

proof fn lemma_capped_sum(a: nat, b: nat)
    ensures
        capped(a + b) == saturated(capped(a), capped(b)),
{
}

proof fn lemma_rows_after(
    t: Seq<Row<Subscriber>>,
    verdicts: Seq<bool>,
    rounds: Seq<Seq<SendOutcome>>,
)
    requires
        rounds_fit(t, verdicts, rounds),
    ensures
        rows_after(t, verdicts, rounds).len() <= t.len(),
        well_formed(t) ==> well_formed(rows_after(t, verdicts, rounds)),
        forall|n: Seq<u8>| #[trigger]
            names(rows_after(t, verdicts, rounds)).contains(n) ==> names(t).contains(n),
    decreases t.len(),
{
    if t.len() > 0 {
        let front = t.drop_last();
        let vs = verdicts.drop_last();
        let rs = rounds.drop_last();
        assert(rounds_fit(front, vs, rs)) by {
            assert forall|i: int| 0 <= i < front.len() implies (#[trigger] rs[i]).len() == (
            if vs[i] {
                front[i].subs.len()
            } else {
                0
            }) by {
                assert(rounds[i].len() == (if verdicts[i] {
                    t[i].subs.len()
                } else {
                    0
                }));
            }
        }
        lemma_rows_after(front, vs, rs);
        let rest = rows_after(front, vs, rs);
        let r = rows_after(t, verdicts, rounds);
        let row = t.last();
        assert(rounds[t.len() - 1] == rounds.last());
        assert(names(front) =~= names(t).drop_last());
        if r.len() > rest.len() {
            assert(names(r) =~= names(rest).push(row.name));
        }
        assert forall|n: Seq<u8>| #[trigger] names(r).contains(n) implies names(t).contains(n) by {
            let k = choose|k: int| 0 <= k < names(r).len() && names(r)[k] == n;
            if k < rest.len() {
                assert(names(rest)[k] == n);
                assert(names(rest).contains(n));
                let j = choose|j: int| 0 <= j < names(front).len() && names(front)[j] == n;
                assert(names(t)[j] == n);
            } else {
                assert(names(t)[t.len() - 1] == n);
            }
        }
        if well_formed(t) {
            assert(well_formed(front)) by {
                assert forall|k: int| 0 <= k < front.len() implies (
                #[trigger] front[k]).subs.len() > 0 by {
                    assert(front[k] == t[k]);
                }
                assert forall|k: int| 0 <= k < front.len() implies conns(
                    (#[trigger] front[k]).subs,
                ).no_duplicates() by {
                    assert(front[k] == t[k]);
                }
            }
            assert(row == t[t.len() - 1]);
            if verdicts.last() {
                lemma_conns_kept(row.subs, sent_marks(rounds.last()));
                lemma_kept(conns(row.subs), sent_marks(rounds.last()));
            }
            if r.len() > rest.len() {
                assert forall|a: int, b: int| 0 <= a < b < names(r).len() implies names(r)[a]
                    != names(r)[b] by {
                    if b == rest.len() {
                        assert(names(rest).contains(names(rest)[a]));
                        let j = choose|j: int|
                            0 <= j < names(front).len() && names(front)[j] == names(rest)[a];
                        assert(names(t)[j] == names(rest)[a]);
                        assert(names(t)[t.len() - 1] == row.name);
                    } else {
                        assert(names(rest)[a] == names(r)[a] && names(rest)[b] == names(r)[b]);
                    }
                }
            }
        }
    }
}

impl ShardPubSub {
    /// Offers a message under every pattern that matches its channel, once per
    /// pattern, and counts the offers that were taken. Who does not take one is
    /// shed from under that pattern.
    pub fn deliver_patterns<F: Fn(&[u8], &[u8]) -> bool>(
        &mut self,
        channel: &[u8],
        payload: &[u8],
        glob: F,
    ) -> (n: i64)
        requires
            forall|p: &[u8], t: &[u8]| #[trigger] call_requires(glob, (p, t)),
        ensures
            exists|verdicts: Seq<bool>| #[trigger]
                judged_names(glob, old(self).patterns@, channel@, verdicts)
                    && delivered_patterns(
                    old(self).patterns@,
                    old(self).log@,
                    verdicts,
                    channel@,
                    payload@,
                    final(self).patterns@,
                    final(self).log@,
                    n,
                ),
            carried_out(old(self).log@, final(self).log@),
            final(self).channels == old(self).channels,
            final(self).shard_channels == old(self).shard_channels,
            old(self).wf() ==> final(self).wf(),
    {
        let ghost pre = self.patterns@;
        let ghost pre_log = self.log@;
        let ghost mut verdicts: Seq<bool> = Seq::empty();
        let ghost mut rounds: Seq<Seq<SendOutcome>> = Seq::empty();
        let count: usize = self.patterns.entries.len();
        let mut total: i64 = 0;
        let mut j: usize = 0;
        let mut at: usize = 0;
        proof {
            assert(pre.skip(0) =~= pre);
            assert(pre.take(0) =~= Seq::<Row<Subscriber>>::empty());
            assert(rows_after(pre.take(0), verdicts, rounds) + pre.skip(0) =~= pre);
            assert(pre_log + pattern_events(pre.take(0), verdicts, rounds, channel@, payload@)
                =~= pre_log);
        }
        while j < count
            invariant
                forall|p: &[u8], t: &[u8]| #[trigger] call_requires(glob, (p, t)),
                count == pre.len(),
                at <= j <= count,
                judged_names(glob, pre.take(j as int), channel@, verdicts),
                rounds_fit(pre.take(j as int), verdicts, rounds),
                at == rows_after(pre.take(j as int), verdicts, rounds).len(),
                self.patterns@ == rows_after(pre.take(j as int), verdicts, rounds) + pre.skip(
                    j as int,
                ),
                self.log@ == pre_log + pattern_events(
                    pre.take(j as int),
                    verdicts,
                    rounds,
                    channel@,
                    payload@,
                ),
                total == capped(total_sent(rounds)),
                pre_log == old(self).log@,
                carried_out(pre_log, self.log@),
                self.channels == old(self).channels,
                self.shard_channels == old(self).shard_channels,
            decreases count - j,
        {
            let ghost row = pre[j as int];
            let ghost vs = verdicts;
            let ghost rs = rounds;
            proof {
                assert(pre.take(j as int + 1).drop_last() =~= pre.take(j as int));
                assert(self.patterns@[at as int] == row);
                assert(self.patterns@.len() == self.patterns.entries@.len());
                assert(self.patterns.entries@[at as int]@ == row);
            }
            let matched = glob(self.patterns.entries[at].name.as_slice(), channel);
            assert(judged(glob, row.name, channel@, matched));
            let before: usize = self.patterns.entries.len();
            if matched {
                let push = ServerPush::PMessage {
                    pattern: self.patterns.name_at(at),
                    channel: copy_bytes(channel),
                    payload: copy_bytes(payload),
                };
                let outcomes = {
                    let subs = borrow_subs(&self.patterns.entries[at].subs, None);
                    assert(owned(subs@) == row.subs);
                    assert(owned(subs@).len() == subs@.len());
                    offer_round(&mut self.log, &subs, &push)
                };
                let (keep, sent) = marks_of(outcomes.as_slice());
                self.patterns.keep_row(at, keep.as_slice());
                proof {
                    verdicts = verdicts.push(true);
                    rounds = rounds.push(outcomes@);
                    assert(rounds.drop_last() =~= rs);
                    lemma_capped_sum(total_sent(rs), sent_count(outcomes@));
                }
                total = add_saturating(total, cap_count(sent));
            } else {
                proof {
                    verdicts = verdicts.push(false);
                    rounds = rounds.push(Seq::empty());
                    assert(rounds.drop_last() =~= rs);
                    lemma_capped_sum(total_sent(rs), 0);
                }
            }
            proof {
                assert(verdicts.drop_last() =~= vs);
                assert(self.patterns@.len() == self.patterns.entries@.len());
                let part = pre.take(j as int + 1);
                assert forall|i: int| 0 <= i < part.len() implies judged(
                    glob,
                    (#[trigger] part[i]).name,
                    channel@,
                    verdicts[i],
                ) by {
                    if i < j {
                        assert(pre.take(j as int)[i] == part[i]);
                    }
                }
                assert forall|i: int| 0 <= i < part.len() implies (#[trigger] rounds[i]).len()
                    == (if verdicts[i] {
                    part[i].subs.len()
                } else {
                    0
                }) by {
                    if i < j {
                        assert(rs[i].len() == (if vs[i] {
                            pre.take(j as int)[i].subs.len()
                        } else {
                            0
                        }));
                    }
                }
                assert(self.log@ =~= pre_log + pattern_events(
                    part,
                    verdicts,
                    rounds,
                    channel@,
                    payload@,
                ));
            }
            if self.patterns.entries.len() == before {
                assert(self.patterns@ =~= rows_after(
                    pre.take(j as int + 1),
                    verdicts,
                    rounds,
                ) + pre.skip(j as int + 1));
                at += 1;
            } else {
                assert(self.patterns@ =~= rows_after(
                    pre.take(j as int + 1),
                    verdicts,
                    rounds,
                ) + pre.skip(j as int + 1));
            }
            j += 1;
        }
        proof {
            assert(pre.take(pre.len() as int) =~= pre);
            assert(self.patterns@ =~= rows_after(pre, verdicts, rounds));
            lemma_rows_after(pre, verdicts, rounds);
            assert(judged_names(glob, pre, channel@, verdicts));
            assert(rounds_fit(pre, verdicts, rounds));
        }
        total
    }
}

/// The names that are marked.
pub open spec fn marked_names(t: Seq<Row<Subscriber>>, verdicts: Seq<bool>) -> Seq<Seq<u8>> {
    kept(names(t), verdicts)
}

/// The names of a table that a filter lets through.
pub open spec fn filtered<F: Fn(&[u8], &[u8]) -> bool>(
    t: Seq<Row<Subscriber>>,
    pat: Option<&[u8]>,
    glob: F,
    result: Seq<Seq<u8>>,
) -> bool {
    match pat {
        None => result == names(t),
        Some(p) => exists|verdicts: Seq<bool>| #[trigger]
            judged_against(glob, p@, t, verdicts) && result == marked_names(t, verdicts),
    }
}

fn filter_names<F: Fn(&[u8], &[u8]) -> bool>(
    table: &Table<Subscriber>,
    pat: Option<&[u8]>,
    glob: &F,
) -> (r: Vec<Vec<u8>>)
    requires
        forall|p: &[u8], t: &[u8]| #[trigger] call_requires(*glob, (p, t)),
    ensures
        filtered(table@, pat, *glob, byte_seqs(r@)),
{
    let ghost t = table@;
    let ghost mut verdicts: Seq<bool> = Seq::empty();
    let mut r: Vec<Vec<u8>> = Vec::new();
    let n: usize = table.entries.len();
    assert(t.take(0) =~= Seq::<Row<Subscriber>>::empty());
    assert(byte_seqs(r@) =~= kept(names(t.take(0)), verdicts));
    for i in 0..n
        invariant
            forall|p: &[u8], t: &[u8]| #[trigger] call_requires(*glob, (p, t)),
            t == table@,
            n == t.len(),
            n == table.entries@.len(),
            verdicts.len() == i,
            pat matches Some(p) ==> judged_against(*glob, p@, t.take(i as int), verdicts),
            pat is None ==> forall|k: int| 0 <= k < i ==> #[trigger] verdicts[k],
            byte_seqs(r@) == kept(names(t.take(i as int)), verdicts),
    {
        let ghost before = r@;
        let ghost vs = verdicts;
        let verdict = match pat {
            Some(p) => {
                let v = glob(p, table.entries[i].name.as_slice());
                assert(judged(*glob, p@, t[i as int].name, v));
                v
            },
            None => true,
        };
        proof {
            verdicts = verdicts.push(verdict);
            assert(verdicts.drop_last() =~= vs);
            assert(names(t.take(i as int + 1)).drop_last() =~= names(t.take(i as int)));
            match pat {
                Some(p) => {
                    let part = t.take(i as int + 1);
                    assert forall|k: int| 0 <= k < part.len() implies judged(
                        *glob,
                        p@,
                        (#[trigger] part[k]).name,
                        verdicts[k],
                    ) by {
                        if k < i {
                            assert(t.take(i as int)[k] == part[k]);
                        }
                    }
                },
                None => {},
            }
        }
        if verdict {
            r.push(table.name_at(i));
            assert(byte_seqs(r@) =~= byte_seqs(before).push(t[i as int].name));
        }
    }
    proof {
        assert(t.take(t.len() as int) =~= t);
        if pat is None {
            lemma_kept_all(names(t), verdicts);
        }
    }
    r
}

impl ShardPubSub {
    /// The channels that have a subscriber on this shard and match a pattern.
    pub fn local_channels<F: Fn(&[u8], &[u8]) -> bool>(&self, pat: Option<&[u8]>, glob: F) -> (r:
        Vec<Vec<u8>>)
        requires
            forall|p: &[u8], t: &[u8]| #[trigger] call_requires(glob, (p, t)),
        ensures
            filtered(self.channels@, pat, glob, byte_seqs(r@)),
    {
        filter_names(&self.channels, pat, &glob)
    }

    /// The shard channels that have a subscriber on this shard and match a pattern.
    pub fn local_shard_channels<F: Fn(&[u8], &[u8]) -> bool>(
        &self,
        pat: Option<&[u8]>,
        glob: F,
    ) -> (r: Vec<Vec<u8>>)
        requires
            forall|p: &[u8], t: &[u8]| #[trigger] call_requires(glob, (p, t)),
        ensures
            filtered(self.shard_channels@, pat, glob, byte_seqs(r@)),
    {
        filter_names(&self.shard_channels, pat, &glob)
    }

    /// The patterns that have a subscriber on this shard.
    pub fn local_patterns(&self) -> (r: Vec<Vec<u8>>)
        ensures
            byte_seqs(r@) == names(self.patterns@),
    {
        let mut r: Vec<Vec<u8>> = Vec::new();
        let n: usize = self.patterns.entries.len();
        for i in 0..n
            invariant
                n == self.patterns.entries@.len(),
                n == self.patterns@.len(),
                r@.len() == i,
                forall|k: int| 0 <= k < i ==> #[trigger] r@[k]@ == self.patterns@[k].name,
        {
            r.push(self.patterns.name_at(i));
        }
        assert(byte_seqs(r@) =~= names(self.patterns@));
        r
    }
}

proof fn lemma_round_reaches(
    subs: Seq<(u64, Subscriber)>,
    push: PushModel,
    outcomes: Seq<SendOutcome>,
)
    requires
        outcomes.len() == subs.len(),
    ensures
        forall|e: PushEvent| #[trigger]
            round_events(subs, push, outcomes).contains(e) ==> match e {
                PushEvent::Offered { conn, to, push: p, .. } => p == push && subs.contains(
                    (conn, to),
                ),
                PushEvent::Tripped { conn, to } => subs.contains((conn, to)),
            },
    decreases subs.len(),
{
    if subs.len() > 0 {
        let front = subs.drop_last();
        let rest = round_events(front, push, outcomes.drop_last());
        let tail = offer_events(subs.last().0, subs.last().1, push, outcomes.last());
        lemma_round_reaches(front, push, outcomes.drop_last());
        assert forall|e: PushEvent| #[trigger]
            round_events(subs, push, outcomes).contains(e) implies match e {
            PushEvent::Offered { conn, to, push: p, .. } => p == push && subs.contains((conn, to)),
            PushEvent::Tripped { conn, to } => subs.contains((conn, to)),
        } by {
            let all = round_events(subs, push, outcomes);
            let k = choose|k: int| 0 <= k < all.len() && all[k] == e;
            let who = match e {
                PushEvent::Offered { conn, to, .. } => (conn, to),
                PushEvent::Tripped { conn, to } => (conn, to),
            };
            if k < rest.len() {
                assert(rest[k] == e);
                assert(rest.contains(e));
                assert(front.contains(who));
                let j = choose|j: int| 0 <= j < front.len() && front[j] == who;
                assert(subs[j] == who);
            } else {
                assert(tail[k - rest.len()] == e);
                assert(subs[subs.len() - 1] == who);
            }
        }
    }
}

/// A delivery reaches only the subscribers of the name it goes to, and hands them
/// the push and nothing else. As the tables of channels and of shard channels are
/// apart, a message to a shard channel never reaches a subscriber of a channel of
/// that name, nor the other way round.
pub proof fn law_delivery_reaches_only_subscribers(
    pre: Seq<Row<Subscriber>>,
    pre_log: Seq<PushEvent>,
    name: Seq<u8>,
    push: PushModel,
    post: Seq<Row<Subscriber>>,
    post_log: Seq<PushEvent>,
    n: i64,
)
    requires
        delivered(pre, pre_log, name, push, post, post_log, n),
    ensures
        post_log.len() >= pre_log.len(),
        post_log.take(pre_log.len() as int) == pre_log,
        forall|k: int|
            pre_log.len() <= k < post_log.len() ==> match #[trigger] post_log[k] {
                PushEvent::Offered { conn, to, push: p, .. } => p == push && subs_of(
                    pre,
                    name,
                ).contains((conn, to)),
                PushEvent::Tripped { conn, to } => subs_of(pre, name).contains((conn, to)),
            },
{
    let outcomes = choose|outcomes: Seq<SendOutcome>| #[trigger]
        settled(pre, name, outcomes, post, n) && post_log == pre_log + round_events(
            subs_of(pre, name),
            push,
            outcomes,
        );
    let events = round_events(subs_of(pre, name), push, outcomes);
    lemma_round_reaches(subs_of(pre, name), push, outcomes);
    assert(post_log.take(pre_log.len() as int) =~= pre_log);
    assert forall|k: int| pre_log.len() <= k < post_log.len() implies match #[trigger] post_log[k] {
        PushEvent::Offered { conn, to, push: p, .. } => p == push && subs_of(pre, name).contains(
            (conn, to),
        ),
        PushEvent::Tripped { conn, to } => subs_of(pre, name).contains((conn, to)),
    } by {
        assert(events[k - pre_log.len()] == post_log[k]);
        assert(events.contains(post_log[k]));
    }
}

/// Whether bytes begin with others.
pub open spec fn has_prefix(key: Seq<u8>, prefix: Seq<u8>) -> bool {
    prefix.len() <= key.len() && key.take(prefix.len() as int) == prefix
}

fn begins_with(key: &[u8], prefix: &[u8]) -> (r: bool)
    ensures
        r == has_prefix(key@, prefix@),
{
    if prefix.len() > key.len() {
        return false;
    }
    for i in 0..prefix.len()
        invariant
            prefix@.len() <= key@.len(),
            forall|k: int| 0 <= k < i ==> key@[k] == prefix@[k],
    {
        if key[i] != prefix[i] {
            assert(key@.take(prefix@.len() as int)[i as int] != prefix@[i as int]);
            return false;
        }
    }
    assert(key@.take(prefix@.len() as int) =~= prefix@);
    true
}

/// The connections that are told when a key they have read changes.
pub struct ShardTracking {
    /// By key; told once.
    pub by_key: Table<Subscriber>,
    /// By prefix of keys; told every time.
    pub prefixes: Table<Subscriber>,
    /// What was done to connections so far.
    pub log: History<PushEvent>,
}

impl Default for ShardTracking {
    /// Nobody is told anything.
    fn default() -> (r: Self)
        ensures
            r.by_key@.len() == 0,
            r.prefixes@.len() == 0,
            r.log@.len() == 0,
            r.wf(),
    {
        ShardTracking {
            by_key: Table::new(),
            prefixes: Table::new(),
            log: History::new(),
        }
    }
}

/// What is done to the trackers of the prefixes of a key.
pub open spec fn prefix_events(
    t: Seq<Row<Subscriber>>,
    key: Seq<u8>,
    push: PushModel,
    skip: Option<u64>,
    rounds: Seq<Seq<SendOutcome>>,
) -> Seq<PushEvent>
    decreases t.len(),
{
    if t.len() == 0 {
        Seq::empty()
    } else {
        let rest = prefix_events(t.drop_last(), key, push, skip, rounds.drop_last());
        if has_prefix(key, t.last().name) {
            rest + round_events(reached(t.last().subs, skip), push, rounds.last())
        } else {
            rest
        }
    }
}

/// Whether there is a round for each prefix: of all its trackers but one where the
/// key begins with it, and of none where it does not.
pub open spec fn prefix_rounds_fit(
    t: Seq<Row<Subscriber>>,
    key: Seq<u8>,
    skip: Option<u64>,
    rounds: Seq<Seq<SendOutcome>>,
) -> bool {
    &&& rounds.len() == t.len()
    &&& forall|i: int|
        0 <= i < t.len() ==> (#[trigger] rounds[i]).len() == (if has_prefix(key, t[i].name) {
            reached(t[i].subs, skip).len()
        } else {
            0
        })
}

/// Every tracker of a key was told but one: those of the key itself, then those of
/// its prefixes.
pub open spec fn invalidated(
    by_key: Seq<Row<Subscriber>>,
    prefixes: Seq<Row<Subscriber>>,
    pre_log: Seq<PushEvent>,
    key: Seq<u8>,
    skip: Option<u64>,
    post_log: Seq<PushEvent>,
    n: i64,
) -> bool {
    let push = PushModel::Invalidate { keys: Some(seq![key]) };
    let own = reached(subs_of(by_key, key), skip);
    exists|outcomes: Seq<SendOutcome>, rounds: Seq<Seq<SendOutcome>>|
        #![trigger sent_count(outcomes), total_sent(rounds)]
        {
            &&& outcomes.len() == own.len()
            &&& prefix_rounds_fit(prefixes, key, skip, rounds)
            &&& post_log == pre_log + round_events(own, push, outcomes) + prefix_events(
                prefixes,
                key,
                push,
                skip,
                rounds,
            )
            &&& n == capped(sent_count(outcomes) + total_sent(rounds))
        }
}

/// Subscriptions behind others, without those of connections that came before.
pub open spec fn firsts_onto(before: Seq<(u64, Subscriber)>, subs: Seq<(u64, Subscriber)>) -> Seq<
    (u64, Subscriber),
>
    decreases subs.len(),
{
    if subs.len() == 0 {
        before
    } else {
        let rest = firsts_onto(before, subs.drop_last());
        if conns(rest).contains(subs.last().0) {
            rest
        } else {
            rest.push(subs.last())
        }
    }
}

/// The subscriptions of a table behind others, each connection once.
pub open spec fn trackers_onto(before: Seq<(u64, Subscriber)>, t: Seq<Row<Subscriber>>) -> Seq<
    (u64, Subscriber),
>
    decreases t.len(),
{
    if t.len() == 0 {
        before
    } else {
        firsts_onto(trackers_onto(before, t.drop_last()), t.last().subs)
    }
}

/// Every connection that tracks anything, once.
pub open spec fn all_trackers(
    by_key: Seq<Row<Subscriber>>,
    prefixes: Seq<Row<Subscriber>>,
) -> Seq<(u64, Subscriber)> {
    trackers_onto(trackers_onto(Seq::empty(), by_key), prefixes)
}

fn has_conn(subs: &Vec<(u64, &Subscriber)>, conn: u64) -> (r: bool)
    ensures
        r == conns(owned(subs@)).contains(conn),
{
    let ghost cs = conns(owned(subs@));
    for i in 0..subs.len()
        invariant
            cs == conns(owned(subs@)),
            cs.len() == subs@.len(),
            forall|k: int| 0 <= k < i ==> #[trigger] cs[k] != conn,
    {
        assert(cs[i as int] == subs@[i as int].0);
        if subs[i].0 == conn {
            return true;
        }
    }
    false
}

fn gather<'a>(out: Vec<(u64, &'a Subscriber)>, table: &'a Table<Subscriber>) -> (r: Vec<
    (u64, &'a Subscriber),
>)
    ensures
        owned(r@) == trackers_onto(owned(out@), table@),
{
    let ghost start = owned(out@);
    let ghost t = table@;
    let mut r = out;
    let n: usize = table.entries.len();
    assert(owned(r@) == trackers_onto(start, t.take(0)));
    for i in 0..n
        invariant
            t == table@,
            n == table.entries@.len(),
            n == t.len(),
            owned(r@) == trackers_onto(start, t.take(i as int)),
    {
        let ghost before = owned(r@);
        let ghost subs = table.entries@[i as int].subs@;
        assert(t[i as int].subs == subs);
        assert(t.take(i as int + 1).drop_last() =~= t.take(i as int));
        assert(firsts_onto(before, subs.take(0)) == before);
        let m: usize = table.entries[i].subs.len();
        for k in 0..m
            invariant
                i < table.entries@.len(),
                subs == table.entries@[i as int].subs@,
                m == subs.len(),
                owned(r@) == firsts_onto(before, subs.take(k as int)),
        {
            let ghost so_far = r@;
            assert(subs.take(k as int + 1).drop_last() =~= subs.take(k as int));
            let conn: u64 = table.entries[i].subs[k].0;
            if !has_conn(&r, conn) {
                r.push((conn, &table.entries[i].subs[k].1));
                assert(owned(r@) =~= owned(so_far).push(subs[k as int]));
            }
        }
        assert(subs.take(subs.len() as int) =~= subs);
    }
    assert(t.take(t.len() as int) =~= t);
    r
}

fn leave_out<'a>(subs: Vec<(u64, &'a Subscriber)>, skip: Option<u64>) -> (r: Vec<
    (u64, &'a Subscriber),
>)
    ensures
        owned(r@) == reached(owned(subs@), skip),
{
    let mut r = subs;
    match skip {
        Some(conn) => {
            let ghost all = r@;
            let mut keep: Vec<bool> = Vec::new();
            for i in 0..r.len()
                invariant
                    all == r@,
                    keep@ =~= not_of(owned(all), conn).take(i as int),
            {
                keep.push(r[i].0 != conn);
            }
            assert(keep@ =~= not_of(owned(all), conn));
            keep_marked(&mut r, keep.as_slice());
            proof {
                lemma_owned_kept(all, keep@);
            }
        },
        None => {},
    }
    r
}

proof fn lemma_owned_kept(subs: Seq<(u64, &Subscriber)>, keep: Seq<bool>)
    requires
        keep.len() == subs.len(),
    ensures
        owned(kept(subs, keep)) == kept(owned(subs), keep),
    decreases subs.len(),
{
    if subs.len() > 0 {
        lemma_owned_kept(subs.drop_last(), keep.drop_last());
        assert(owned(subs).drop_last() =~= owned(subs.drop_last()));
    }
    assert(owned(kept(subs, keep)) =~= kept(owned(subs), keep));
}

impl ShardTracking {
    /// Whether the tables are well-formed.
    pub open spec fn wf(self) -> bool {
        &&& well_formed(self.by_key@)
        &&& well_formed(self.prefixes@)
    }

    /// Tells a connection when a key changes, once.
    pub fn track(&mut self, key: Vec<u8>, conn_id: u64, subscriber: Subscriber)
        ensures
            final(self).by_key@ == subscribed(old(self).by_key@, key@, conn_id, subscriber),
            final(self).prefixes == old(self).prefixes,
            final(self).log == old(self).log,
            old(self).wf() ==> final(self).wf(),
    {
        self.by_key.subscribe(key, conn_id, subscriber);
    }

    /// Tells a connection whenever a key that begins with a prefix changes.
    pub fn track_prefix(&mut self, prefix: Vec<u8>, conn_id: u64, subscriber: Subscriber)
        ensures
            final(self).prefixes@ == subscribed(
                old(self).prefixes@,
                prefix@,
                conn_id,
                subscriber,
            ),
            final(self).by_key == old(self).by_key,
            final(self).log == old(self).log,
            old(self).wf() ==> final(self).wf(),
    {
        self.prefixes.subscribe(prefix, conn_id, subscriber);
    }

    /// Whether nobody tracks anything.
    pub fn is_empty(&self) -> (r: bool)
        ensures
            r == (self.by_key@.len() == 0 && self.prefixes@.len() == 0),
    {
        self.by_key.entries.len() == 0 && self.prefixes.entries.len() == 0
    }

    /// Tells every tracker of a key but one that the key changed, and counts those
    /// that took the push. The trackers of the key itself are dropped; those of its
    /// prefixes stay.
    pub fn invalidate(&mut self, key: &[u8], skip: Option<u64>) -> (n: i64)
        ensures
            invalidated(
                old(self).by_key@,
                old(self).prefixes@,
                old(self).log@,
                key@,
                skip,
                final(self).log@,
                n,
            ),
            carried_out(old(self).log@, final(self).log@),
            final(self).by_key@ == (if row_of(old(self).by_key@, key@)
                < old(self).by_key@.len() {
                old(self).by_key@.remove(row_of(old(self).by_key@, key@))
            } else {
                old(self).by_key@
            }),
            final(self).prefixes == old(self).prefixes,
            old(self).wf() ==> final(self).wf(),
    {
        let ghost pre = self.by_key@;
        let ghost prefixes = self.prefixes@;
        let ghost pre_log = self.log@;
        let ghost model = PushModel::Invalidate { keys: Some(seq![key@]) };
        let ghost own = reached(subs_of(pre, key@), skip);
        let mut keys: Vec<Vec<u8>> = Vec::new();
        keys.push(copy_bytes(key));
        assert(byte_seqs(keys@) =~= seq![key@]);
        let push = ServerPush::Invalidate { keys: Some(keys) };
        assert(push.model() == model);
        let i = self.by_key.find(key);
        let mut total: i64 = 0;
        let ghost mut outcomes: Seq<SendOutcome> = Seq::empty();
        if i < self.by_key.entries.len() {
            assert(pre[i as int].subs == self.by_key.entries@[i as int].subs@);
            let got = {
                let subs = borrow_subs(&self.by_key.entries[i].subs, skip);
                assert(owned(subs@).len() == subs@.len());
                offer_round(&mut self.log, &subs, &push)
            };
            let (_, sent) = marks_of(got.as_slice());
            total = cap_count(sent);
            let _ = self.by_key.entries.remove(i);
            proof {
                outcomes = got@;
                assert(self.by_key@ =~= pre.remove(i as int));
                if well_formed(pre) {
                    lemma_with_subs(pre, i as int, Seq::<(u64, Subscriber)>::empty());
                }
            }
        } else {
            proof {
                match skip {
                    Some(c) => {
                        assert(kept(
                            Seq::<(u64, Subscriber)>::empty(),
                            not_of(Seq::<(u64, Subscriber)>::empty(), c),
                        ) =~= Seq::<(u64, Subscriber)>::empty());
                    },
                    None => {},
                }
                assert(own.len() == 0);
                assert(self.log@ =~= pre_log + round_events(own, model, outcomes));
            }
        }
        let ghost mid_log = self.log@;
        let ghost mut rounds: Seq<Seq<SendOutcome>> = Seq::empty();
        let n: usize = self.prefixes.entries.len();
        proof {
            assert(mid_log == pre_log + round_events(own, model, outcomes));
            assert(self.log@ =~= mid_log + prefix_events(
                prefixes.take(0),
                key@,
                model,
                skip,
                rounds,
            ));
            assert(total_sent(rounds) == 0);
        }
        for j in 0..n
            invariant
                n == self.prefixes.entries@.len(),
                prefixes == self.prefixes@,
                n == prefixes.len(),
                carried_out(pre_log, self.log@),
                self.prefixes == old(self).prefixes,
                push.model() == model,
                prefix_rounds_fit(prefixes.take(j as int), key@, skip, rounds),
                self.log@ == mid_log + prefix_events(
                    prefixes.take(j as int),
                    key@,
                    model,
                    skip,
                    rounds,
                ),
                total == capped(sent_count(outcomes) + total_sent(rounds)),
                self.by_key@ == (if row_of(pre, key@) < pre.len() {
                    pre.remove(row_of(pre, key@))
                } else {
                    pre
                }),
        {
            let ghost rs = rounds;
            let ghost row = prefixes[j as int];
            proof {
                assert(prefixes.take(j as int + 1).drop_last() =~= prefixes.take(j as int));
                assert(self.prefixes.entries@[j as int]@ == row);
            }
            if begins_with(key, self.prefixes.entries[j].name.as_slice()) {
                let got = {
                    let subs = borrow_subs(&self.prefixes.entries[j].subs, skip);
                    assert(owned(subs@).len() == subs@.len());
                    offer_round(&mut self.log, &subs, &push)
                };
                let (_, sent) = marks_of(got.as_slice());
                proof {
                    rounds = rounds.push(got@);
                    assert(rounds.drop_last() =~= rs);
                    lemma_capped_sum(
                        sent_count(outcomes) + total_sent(rs),
                        sent_count(got@),
                    );
                }
                total = add_saturating(total, cap_count(sent));
            } else {
                proof {
                    rounds = rounds.push(Seq::empty());
                    assert(rounds.drop_last() =~= rs);
                }
            }
            proof {
                let part = prefixes.take(j as int + 1);
                assert forall|k: int| 0 <= k < part.len() implies (#[trigger] rounds[k]).len()
                    == (if has_prefix(key@, part[k].name) {
                    reached(part[k].subs, skip).len()
                } else {
                    0
                }) by {
                    if k < j {
                        assert(rs[k].len() == (if has_prefix(
                            key@,
                            prefixes.take(j as int)[k].name,
                        ) {
                            reached(prefixes.take(j as int)[k].subs, skip).len()
                        } else {
                            0
                        }));
                    }
                }
                assert(self.log@ =~= mid_log + prefix_events(part, key@, model, skip, rounds));
            }
        }
        proof {
            assert(prefixes.take(prefixes.len() as int) =~= prefixes);
            assert(self.log@ == pre_log + round_events(own, model, outcomes) + prefix_events(
                prefixes,
                key@,
                model,
                skip,
                rounds,
            ));
        }
        total
    }

    /// Tells every connection that tracks anything, but one, that all it has cached
    /// is stale: each of them once. The trackers of keys are dropped; those of
    /// prefixes stay.
    pub fn invalidate_all(&mut self, skip: Option<u64>)
        ensures
            exists|outcomes: Seq<SendOutcome>|
                outcomes.len() == reached(
                    all_trackers(old(self).by_key@, old(self).prefixes@),
                    skip,
                ).len() && final(self).log@ == old(self).log@ + #[trigger] round_events(
                    reached(all_trackers(old(self).by_key@, old(self).prefixes@), skip),
                    PushModel::Invalidate { keys: None },
                    outcomes,
                ),
            carried_out(old(self).log@, final(self).log@),
            final(self).by_key@.len() == 0,
            final(self).prefixes == old(self).prefixes,
            old(self).wf() ==> final(self).wf(),
    {
        let push = ServerPush::Invalidate { keys: None };
        let ghost pre_log = self.log@;
        let ghost told_to = reached(all_trackers(self.by_key@, self.prefixes@), skip);
        {
            let none: Vec<(u64, &Subscriber)> = Vec::new();
            assert(owned(none@) =~= Seq::<(u64, Subscriber)>::empty());
            let first = gather(none, &self.by_key);
            let all = gather(first, &self.prefixes);
            let told = leave_out(all, skip);
            assert(owned(told@).len() == told@.len());
            assert(owned(told@) == told_to);
            let outcomes = offer_round(&mut self.log, &told, &push);
            assert(outcomes@.len() == told_to.len());
            assert(self.log@ == pre_log + round_events(
                told_to,
                PushModel::Invalidate { keys: None },
                outcomes@,
            ));
        }
        self.by_key = Table::new();
    }

    /// Takes a connection out of both tables.
    pub fn forget_conn(&mut self, conn_id: u64)
        ensures
            final(self).by_key@ == forgotten(old(self).by_key@, conn_id),
            final(self).prefixes@ == forgotten(old(self).prefixes@, conn_id),
            final(self).log == old(self).log,
            old(self).wf() ==> final(self).wf(),
    {
        self.by_key.forget(conn_id);
        self.prefixes.forget(conn_id);
    }
}

/// An invalidation is told once: after it, nobody tracks the key itself any more.
pub proof fn law_invalidation_is_told_once(t: Seq<Row<Subscriber>>, key: Seq<u8>)
    requires
        well_formed(t),
    ensures
        row_of(t, key) < t.len() ==> subs_of(t.remove(row_of(t, key)), key).len() == 0,
{
    lemma_first_at(names(t), key);
    let i = row_of(t, key);
    if i < t.len() {
        let r = t.remove(i);
        assert(names(t)[i] == key);
        lemma_first_at(names(r), key);
        let k = row_of(r, key);
        if k < r.len() {
            let k2 = if k < i {
                k
            } else {
                k + 1
            };
            assert(r[k] == t[k2]);
            assert(names(r)[k] == key);
            assert(names(t)[k2] == key);
            assert(false);
        }
    }
}

/// Whether an action is an offer that the connection took.
pub open spec fn is_taken(e: PushEvent) -> bool {
    e matches PushEvent::Offered { outcome, .. } && outcome == SendOutcome::Sent
}

/// A round of offers reaches every connection of a list: each is offered the push, and
/// one that does not take it is told that it is shed. What is taken is counted.
proof fn lemma_round_is_whole(
    subs: Seq<(u64, Subscriber)>,
    push: PushModel,
    outcomes: Seq<SendOutcome>,
)
    requires
        outcomes.len() == subs.len(),
    ensures
        forall|i: int|
            0 <= i < subs.len() ==> round_events(subs, push, outcomes).contains(
                PushEvent::Offered {
                    conn: (#[trigger] subs[i]).0,
                    to: subs[i].1,
                    push,
                    outcome: outcomes[i],
                },
            ),
        forall|i: int|
            0 <= i < subs.len() && outcomes[i] != SendOutcome::Sent ==> round_events(
                subs,
                push,
                outcomes,
            ).contains(PushEvent::Tripped { conn: (#[trigger] subs[i]).0, to: subs[i].1 }),
        forall|i: int|
            0 <= i < round_events(subs, push, outcomes).len() ==> (match #[trigger] round_events(
                subs,
                push,
                outcomes,
            )[i] {
                PushEvent::Offered { conn, to, push: p, outcome } => p == push && exists|k: int|
                    0 <= k < subs.len() && #[trigger] subs[k] == (conn, to) && outcomes[k]
                        == outcome,
                PushEvent::Tripped { conn, to } => exists|k: int|
                    0 <= k < subs.len() && #[trigger] subs[k] == (conn, to) && outcomes[k]
                        != SendOutcome::Sent,
            }),
        round_events(subs, push, outcomes).filter(|e: PushEvent| is_taken(e)).len() == sent_count(
            outcomes,
        ),
    decreases subs.len(),
{
    let pred = |e: PushEvent| is_taken(e);
    let all = round_events(subs, push, outcomes);
    reveal(Seq::filter);
    if subs.len() == 0 {
        assert(all.filter(pred).len() == 0);
    } else {
        let front = subs.drop_last();
        let outs = outcomes.drop_last();
        let rest = round_events(front, push, outs);
        let n = subs.len() - 1;
        let tail = offer_events(subs.last().0, subs.last().1, push, outcomes.last());
        lemma_round_is_whole(front, push, outs);
        Seq::filter_distributes_over_add(rest, tail, pred);
        let offered = PushEvent::Offered {
            conn: subs.last().0,
            to: subs.last().1,
            push,
            outcome: outcomes.last(),
        };
        let one = seq![offered];
        assert(one.drop_last() =~= Seq::<PushEvent>::empty());
        assert(Seq::<PushEvent>::empty().filter(pred).len() == 0);
        if outcomes.last() == SendOutcome::Sent {
            assert(tail =~= one);
            assert(tail.filter(pred).len() == 1);
        } else {
            assert(tail.drop_last() =~= one);
            assert(one.filter(pred).len() == 0);
            assert(tail.filter(pred).len() == 0);
        }
        assert forall|i: int| 0 <= i < subs.len() implies all.contains(
            PushEvent::Offered {
                conn: (#[trigger] subs[i]).0,
                to: subs[i].1,
                push,
                outcome: outcomes[i],
            },
        ) by {
            if i < n {
                assert(front[i] == subs[i]);
                let e = PushEvent::Offered {
                    conn: subs[i].0,
                    to: subs[i].1,
                    push,
                    outcome: outs[i],
                };
                assert(rest.contains(e));
                let k = choose|k: int| 0 <= k < rest.len() && rest[k] == e;
                assert(all[k] == e);
            } else {
                assert(all[rest.len() as int] == offered);
            }
        }
        assert forall|i: int|
            0 <= i < subs.len() && outcomes[i] != SendOutcome::Sent implies all.contains(
            PushEvent::Tripped { conn: (#[trigger] subs[i]).0, to: subs[i].1 },
        ) by {
            let e = PushEvent::Tripped { conn: subs[i].0, to: subs[i].1 };
            if i < n {
                assert(front[i] == subs[i]);
                assert(rest.contains(e));
                let k = choose|k: int| 0 <= k < rest.len() && rest[k] == e;
                assert(all[k] == e);
            } else {
                assert(all[rest.len() as int + 1] == e);
            }
        }
        assert forall|i: int| 0 <= i < all.len() implies (match #[trigger] all[i] {
            PushEvent::Offered { conn, to, push: p, outcome } => p == push && exists|k: int|
                0 <= k < subs.len() && #[trigger] subs[k] == (conn, to) && outcomes[k] == outcome,
            PushEvent::Tripped { conn, to } => exists|k: int|
                0 <= k < subs.len() && #[trigger] subs[k] == (conn, to) && outcomes[k]
                    != SendOutcome::Sent,
        }) by {
            if i < rest.len() {
                assert(all[i] == rest[i]);
                match rest[i] {
                    PushEvent::Offered { conn, to, push: p, outcome } => {
                        let k = choose|k: int|
                            0 <= k < front.len() && #[trigger] front[k] == (conn, to) && outs[k]
                                == outcome;
                        assert(subs[k] == (conn, to) && outcomes[k] == outcome);
                    },
                    PushEvent::Tripped { conn, to } => {
                        let k = choose|k: int|
                            0 <= k < front.len() && #[trigger] front[k] == (conn, to) && outs[k]
                                != SendOutcome::Sent;
                        assert(subs[k] == (conn, to) && outcomes[k] != SendOutcome::Sent);
                    },
                }
            } else {
                assert(subs[n] == (subs.last().0, subs.last().1));
                assert(all[i] == tail[i - rest.len()]);
            }
        }
    }
}

/// A delivery reaches every subscriber of its name: each is offered the push. The result
/// is the number of those who took it. Those who did are still subscribed afterwards, and
/// the others are not and are told that they are shed; other names are left alone.
pub proof fn law_delivery_reaches_every_subscriber(
    pre: Seq<Row<Subscriber>>,
    pre_log: Seq<PushEvent>,
    name: Seq<u8>,
    push: PushModel,
    post: Seq<Row<Subscriber>>,
    post_log: Seq<PushEvent>,
    n: i64,
    other: Seq<u8>,
)
    requires
        well_formed(pre),
        delivered(pre, pre_log, name, push, post, post_log, n),
    ensures
        forall|conn: u64, to: Subscriber| #[trigger]
            subs_of(pre, name).contains((conn, to)) ==> {
                ||| post_log.skip(pre_log.len() as int).contains(
                    PushEvent::Offered { conn, to, push, outcome: SendOutcome::Sent },
                ) && subs_of(post, name).contains((conn, to))
                ||| post_log.skip(pre_log.len() as int).contains(PushEvent::Tripped { conn, to })
                    && !conns(subs_of(post, name)).contains(conn)
            },
        forall|conn: u64, to: Subscriber| #[trigger]
            subs_of(post, name).contains((conn, to)) ==> subs_of(pre, name).contains((conn, to)),
        n == capped(
            post_log.skip(pre_log.len() as int).filter(|e: PushEvent| is_taken(e)).len(),
        ),
        other != name ==> subs_of(post, other) == subs_of(pre, other),
{
    let outcomes = choose|outcomes: Seq<SendOutcome>| #[trigger]
        settled(pre, name, outcomes, post, n) && post_log == pre_log + round_events(
            subs_of(pre, name),
            push,
            outcomes,
        );
    let subs = subs_of(pre, name);
    let events = round_events(subs, push, outcomes);
    lemma_round_is_whole(subs, push, outcomes);
    assert(post_log.skip(pre_log.len() as int) =~= events);
    lemma_first_at(names(pre), name);
    let i = row_of(pre, name);
    let marks = sent_marks(outcomes);
    if i < pre.len() {
        assert(names(pre)[i] == name);
        crate::subscriptions::lemma_with_subs_shows(pre, i, kept(subs, marks), name);
        crate::subscriptions::lemma_with_subs_shows(pre, i, kept(subs, marks), other);
        crate::subscriptions::lemma_kept(subs, marks);
        crate::subscriptions::lemma_conns_kept(subs, marks);
        crate::subscriptions::lemma_kept(conns(subs), marks);
        assert forall|conn: u64, to: Subscriber| #[trigger] subs.contains((conn, to)) implies {
            ||| events.contains(PushEvent::Offered { conn, to, push, outcome: SendOutcome::Sent })
                && subs_of(post, name).contains((conn, to))
            ||| events.contains(PushEvent::Tripped { conn, to }) && !conns(
                subs_of(post, name),
            ).contains(conn)
        } by {
            let k = choose|k: int| 0 <= k < subs.len() && subs[k] == (conn, to);
            if outcomes[k] == SendOutcome::Sent {
                assert(marks[k]);
                assert(kept(subs, marks).contains(subs[k]));
            } else if conns(kept(subs, marks)).contains(conn) {
                let j = choose|j: int|
                    0 <= j < conns(subs).len() && marks[j] && #[trigger] conns(subs)[j] == conn;
                assert(conns(subs)[k] == conn);
                assert(j != k);
            }
        }
        assert forall|conn: u64, to: Subscriber| #[trigger]
            subs_of(post, name).contains((conn, to)) implies subs.contains((conn, to)) by {
            let j = choose|j: int| 0 <= j < subs.len() && marks[j] && #[trigger] subs[j] == (conn, to);
            assert(subs[j] == (conn, to));
        }
    }
}

/// A message reaches every subscriber of every pattern that matches its channel, once for
/// each such pattern and with that pattern, and no other; the result is the number of
/// those who took it.
pub proof fn law_patterns_reach_every_match(
    pre: Seq<Row<Subscriber>>,
    pre_log: Seq<PushEvent>,
    verdicts: Seq<bool>,
    channel: Seq<u8>,
    payload: Seq<u8>,
    post: Seq<Row<Subscriber>>,
    post_log: Seq<PushEvent>,
    n: i64,
)
    requires
        delivered_patterns(pre, pre_log, verdicts, channel, payload, post, post_log, n),
    ensures
        forall|i: int, j: int|
            #![trigger pre[i].subs[j]]
            0 <= i < pre.len() && verdicts[i] && 0 <= j < pre[i].subs.len() ==> offered_in(
                post_log.skip(pre_log.len() as int),
                pre[i].subs[j].0,
                pre[i].subs[j].1,
                PushModel::PMessage { pattern: pre[i].name, channel, payload },
            ),
        forall|k: int|
            pre_log.len() <= k < post_log.len() && (#[trigger] post_log[k]) is Offered ==> exists|
                i: int,
            |
                {
                    &&& 0 <= i < pre.len()
                    &&& verdicts[i]
                    &&& post_log[k]->push == (PushModel::PMessage {
                        pattern: (#[trigger] pre[i]).name,
                        channel,
                        payload,
                    })
                    &&& pre[i].subs.contains((post_log[k]->Offered_conn, post_log[k]->Offered_to))
                },
        n == capped(
            post_log.skip(pre_log.len() as int).filter(|e: PushEvent| is_taken(e)).len(),
        ),
{
    let rounds = choose|rounds: Seq<Seq<SendOutcome>>|
        {
            &&& #[trigger] rounds_fit(pre, verdicts, rounds)
            &&& post == rows_after(pre, verdicts, rounds)
            &&& post_log == pre_log + pattern_events(pre, verdicts, rounds, channel, payload)
            &&& n == capped(total_sent(rounds))
        };
    let events = pattern_events(pre, verdicts, rounds, channel, payload);
    lemma_patterns_whole(pre, verdicts, rounds, channel, payload);
    assert(post_log.skip(pre_log.len() as int) =~= events);
    assert forall|k: int|
        pre_log.len() <= k < post_log.len() && (#[trigger] post_log[k]) is Offered implies exists|
        i: int,
    |
        {
            &&& 0 <= i < pre.len()
            &&& verdicts[i]
            &&& post_log[k]->push == (PushModel::PMessage {
                pattern: (#[trigger] pre[i]).name,
                channel,
                payload,
            })
            &&& pre[i].subs.contains((post_log[k]->Offered_conn, post_log[k]->Offered_to))
        } by {
        assert(events[k - pre_log.len()] == post_log[k]);
    }
}

/// Whether a push was offered to a connection.
pub open spec fn offered_in(
    events: Seq<PushEvent>,
    conn: u64,
    to: Subscriber,
    push: PushModel,
) -> bool {
    exists|outcome: SendOutcome| #[trigger]
        events.contains(PushEvent::Offered { conn, to, push, outcome })
}

proof fn lemma_offered_more(
    a: Seq<PushEvent>,
    b: Seq<PushEvent>,
    conn: u64,
    to: Subscriber,
    push: PushModel,
)
    requires
        offered_in(a, conn, to, push) || offered_in(b, conn, to, push),
    ensures
        offered_in(a + b, conn, to, push),
{
    if offered_in(a, conn, to, push) {
        let outcome = choose|outcome: SendOutcome| #[trigger]
            a.contains(PushEvent::Offered { conn, to, push, outcome });
        let e = PushEvent::Offered { conn, to, push, outcome };
        let k = choose|k: int| 0 <= k < a.len() && a[k] == e;
        assert((a + b)[k] == e);
        assert((a + b).contains(e));
    } else {
        let outcome = choose|outcome: SendOutcome| #[trigger]
            b.contains(PushEvent::Offered { conn, to, push, outcome });
        let e = PushEvent::Offered { conn, to, push, outcome };
        let k = choose|k: int| 0 <= k < b.len() && b[k] == e;
        assert((a + b)[a.len() + k] == e);
        assert((a + b).contains(e));
    }
}

proof fn lemma_patterns_whole(
    t: Seq<Row<Subscriber>>,
    verdicts: Seq<bool>,
    rounds: Seq<Seq<SendOutcome>>,
    channel: Seq<u8>,
    payload: Seq<u8>,
)
    requires
        rounds_fit(t, verdicts, rounds),
    ensures
        forall|i: int, j: int|
            #![trigger t[i].subs[j]]
            0 <= i < t.len() && verdicts[i] && 0 <= j < t[i].subs.len() ==> offered_in(
                pattern_events(t, verdicts, rounds, channel, payload),
                t[i].subs[j].0,
                t[i].subs[j].1,
                PushModel::PMessage { pattern: t[i].name, channel, payload },
            ),
        forall|k: int|
            0 <= k < pattern_events(t, verdicts, rounds, channel, payload).len() && (
            #[trigger] pattern_events(t, verdicts, rounds, channel, payload)[k]) is Offered
                ==> exists|i: int|
                {
                    &&& 0 <= i < t.len()
                    &&& verdicts[i]
                    &&& pattern_events(t, verdicts, rounds, channel, payload)[k]->push == (
                    PushModel::PMessage { pattern: (#[trigger] t[i]).name, channel, payload })
                    &&& t[i].subs.contains(
                        (
                            pattern_events(
                                t,
                                verdicts,
                                rounds,
                                channel,
                                payload,
                            )[k]->Offered_conn,
                            pattern_events(t, verdicts, rounds, channel, payload)[k]->Offered_to,
                        ),
                    )
                },
        pattern_events(t, verdicts, rounds, channel, payload).filter(
            |e: PushEvent| is_taken(e),
        ).len() == total_sent(rounds),
    decreases t.len(),
{
    let pred = |e: PushEvent| is_taken(e);
    let all = pattern_events(t, verdicts, rounds, channel, payload);
    if t.len() == 0 {
        reveal(Seq::filter);
        assert(all.filter(pred).len() == 0);
    } else {
        let t0 = t.drop_last();
        let v0 = verdicts.drop_last();
        let r0 = rounds.drop_last();
        let n = t.len() - 1;
        assert forall|i: int| 0 <= i < t0.len() implies (#[trigger] r0[i]).len() == (if v0[i] {
            t0[i].subs.len()
        } else {
            0
        }) by {
            assert(r0[i] == rounds[i]);
        }
        lemma_patterns_whole(t0, v0, r0, channel, payload);
        let rest = pattern_events(t0, v0, r0, channel, payload);
        let row = t.last();
        let push = PushModel::PMessage { pattern: row.name, channel, payload };
        assert(rounds[n].len() == (if verdicts[n] {
            t[n].subs.len()
        } else {
            0
        }));
        let tail = if verdicts.last() {
            round_events(row.subs, push, rounds.last())
        } else {
            Seq::empty()
        };
        assert(all =~= rest + tail);
        Seq::filter_distributes_over_add(rest, tail, pred);
        if verdicts.last() {
            lemma_round_is_whole(row.subs, push, rounds.last());
        } else {
            reveal(Seq::filter);
            assert(tail.filter(pred).len() == 0);
        }
        assert forall|i: int, j: int|
            #![trigger t[i].subs[j]]
            0 <= i < t.len() && verdicts[i] && 0 <= j < t[i].subs.len() implies offered_in(
            all,
            t[i].subs[j].0,
            t[i].subs[j].1,
            PushModel::PMessage { pattern: t[i].name, channel, payload },
        ) by {
            let p = PushModel::PMessage { pattern: t[i].name, channel, payload };
            let x = t[i].subs[j];
            if i < n {
                assert(t0[i] == t[i] && v0[i] == verdicts[i]);
                assert(t0[i].subs[j] == x);
                assert(offered_in(rest, x.0, x.1, p));
            } else {
                assert(row.subs[j] == x);
                assert(tail.contains(
                    PushEvent::Offered { conn: x.0, to: x.1, push, outcome: rounds.last()[j] },
                ));
                assert(offered_in(tail, x.0, x.1, p));
            }
            lemma_offered_more(rest, tail, x.0, x.1, p);
        }
        assert forall|k: int| 0 <= k < all.len() && (#[trigger] all[k]) is Offered implies exists|
            i: int,
        |
            {
                &&& 0 <= i < t.len()
                &&& verdicts[i]
                &&& all[k]->push == (PushModel::PMessage {
                    pattern: (#[trigger] t[i]).name,
                    channel,
                    payload,
                })
                &&& t[i].subs.contains((all[k]->Offered_conn, all[k]->Offered_to))
            } by {
            if k < rest.len() {
                assert(all[k] == rest[k]);
                let i = choose|i: int|
                    {
                        &&& 0 <= i < t0.len()
                        &&& v0[i]
                        &&& rest[k]->push == (PushModel::PMessage {
                            pattern: (#[trigger] t0[i]).name,
                            channel,
                            payload,
                        })
                        &&& t0[i].subs.contains((rest[k]->Offered_conn, rest[k]->Offered_to))
                    };
                assert(t[i] == t0[i] && verdicts[i]);
            } else {
                assert(all[k] == tail[k - rest.len()]);
                assert(t[n].name == row.name);
                assert(t[n].subs.contains((all[k]->Offered_conn, all[k]->Offered_to)));
            }
        }
    }
}

/// A key begins with a prefix if and only if it is the prefix and something behind it;
/// every key begins with the empty prefix.
pub proof fn law_prefixes(prefix: Seq<u8>, rest: Seq<u8>, key: Seq<u8>)
    ensures
        has_prefix(prefix + rest, prefix),
        has_prefix(key, Seq::empty()),
        has_prefix(key, prefix) ==> key == prefix + key.skip(prefix.len() as int),
{
    assert((prefix + rest).take(prefix.len() as int) =~= prefix);
    assert(key.take(0) =~= Seq::<u8>::empty());
    if has_prefix(key, prefix) {
        assert(key =~= prefix + key.skip(prefix.len() as int));
    }
}

/// All connections of a list are reached but the one that is left out.
pub proof fn law_one_connection_is_left_out(subs: Seq<(u64, Subscriber)>, skip: Option<u64>)
    ensures
        reached(subs, skip) == subs.filter(|p: (u64, Subscriber)| skip != Some(p.0)),
{
    let pred = |p: (u64, Subscriber)| skip != Some(p.0);
    let keep = match skip {
        Some(conn) => crate::subscriptions::not_of(subs, conn),
        None => Seq::new(subs.len(), |i: int| true),
    };
    crate::subscriptions::lemma_kept_filter(subs, keep, pred);
    if skip is None {
        crate::subscriptions::lemma_kept_all(subs, keep);
    }
}

/// A change of a key is told to every connection that tracks the key, or a prefix that
/// the key begins with, but the one that is left out; the message names that key.
pub proof fn law_a_change_is_told_to_every_tracker(
    by_key: Seq<Row<Subscriber>>,
    prefixes: Seq<Row<Subscriber>>,
    pre_log: Seq<PushEvent>,
    key: Seq<u8>,
    skip: Option<u64>,
    post_log: Seq<PushEvent>,
    n: i64,
)
    requires
        invalidated(by_key, prefixes, pre_log, key, skip, post_log, n),
    ensures
        forall|conn: u64, to: Subscriber|
            skip != Some(conn) && #[trigger] subs_of(by_key, key).contains((conn, to))
                ==> offered_in(
                post_log.skip(pre_log.len() as int),
                conn,
                to,
                PushModel::Invalidate { keys: Some(seq![key]) },
            ),
        forall|i: int, conn: u64, to: Subscriber|
            0 <= i < prefixes.len() && has_prefix(key, (#[trigger] prefixes[i]).name) && skip
                != Some(conn) && #[trigger] prefixes[i].subs.contains((conn, to)) ==> offered_in(
                post_log.skip(pre_log.len() as int),
                conn,
                to,
                PushModel::Invalidate { keys: Some(seq![key]) },
            ),
        forall|k: int|
            pre_log.len() <= k < post_log.len() && (#[trigger] post_log[k]) is Offered ==> {
                &&& post_log[k]->push == (PushModel::Invalidate { keys: Some(seq![key]) })
                &&& skip != Some(post_log[k]->Offered_conn)
            },
        n == capped(
            post_log.skip(pre_log.len() as int).filter(|e: PushEvent| is_taken(e)).len(),
        ),
{
    let push = PushModel::Invalidate { keys: Some(seq![key]) };
    let own = reached(subs_of(by_key, key), skip);
    let (outcomes, rounds) = choose|outcomes: Seq<SendOutcome>, rounds: Seq<Seq<SendOutcome>>|
        #![trigger sent_count(outcomes), total_sent(rounds)]
        {
            &&& outcomes.len() == own.len()
            &&& prefix_rounds_fit(prefixes, key, skip, rounds)
            &&& post_log == pre_log + round_events(own, push, outcomes) + prefix_events(
                prefixes,
                key,
                push,
                skip,
                rounds,
            )
            &&& n == capped(sent_count(outcomes) + total_sent(rounds))
        };
    let pred = |e: PushEvent| is_taken(e);
    let a = round_events(own, push, outcomes);
    let b = prefix_events(prefixes, key, push, skip, rounds);
    lemma_round_is_whole(own, push, outcomes);
    lemma_prefixes_whole(prefixes, key, push, skip, rounds);
    law_one_connection_is_left_out(subs_of(by_key, key), skip);
    assert(post_log.skip(pre_log.len() as int) =~= a + b);
    Seq::filter_distributes_over_add(a, b, pred);
    let mine = |p: (u64, Subscriber)| skip != Some(p.0);
    assert forall|conn: u64, to: Subscriber|
        skip != Some(conn) && #[trigger] subs_of(by_key, key).contains((conn, to)) implies offered_in(
        a + b,
        conn,
        to,
        push,
    ) by {
        let subs = subs_of(by_key, key);
        let j = choose|j: int| 0 <= j < subs.len() && subs[j] == (conn, to);
        subs.lemma_filter_contains(mine, j);
        assert(own.contains((conn, to)));
        let i = choose|i: int| 0 <= i < own.len() && own[i] == (conn, to);
        assert(a.contains(
            PushEvent::Offered { conn: own[i].0, to: own[i].1, push, outcome: outcomes[i] },
        ));
        assert(offered_in(a, conn, to, push));
        lemma_offered_more(a, b, conn, to, push);
    }
    assert forall|i: int, conn: u64, to: Subscriber|
        0 <= i < prefixes.len() && has_prefix(key, (#[trigger] prefixes[i]).name) && skip != Some(
            conn,
        ) && #[trigger] prefixes[i].subs.contains((conn, to)) implies offered_in(
        a + b,
        conn,
        to,
        push,
    ) by {
        assert(offered_in(b, conn, to, push));
        lemma_offered_more(a, b, conn, to, push);
    }
    assert forall|k: int|
        pre_log.len() <= k < post_log.len() && (#[trigger] post_log[k]) is Offered implies {
        &&& post_log[k]->push == push
        &&& skip != Some(post_log[k]->Offered_conn)
    } by {
        let j = k - pre_log.len();
        if j < a.len() {
            assert(a[j] == post_log[k]);
            let conn = post_log[k]->Offered_conn;
            let to = post_log[k]->Offered_to;
            let q = choose|q: int| 0 <= q < own.len() && #[trigger] own[q] == (conn, to)
                && outcomes[q] == post_log[k]->outcome;
            subs_of(by_key, key).lemma_filter_pred(mine, q);
        } else {
            assert(b[j - a.len()] == post_log[k]);
        }
    }
}

proof fn lemma_prefixes_whole(
    t: Seq<Row<Subscriber>>,
    key: Seq<u8>,
    push: PushModel,
    skip: Option<u64>,
    rounds: Seq<Seq<SendOutcome>>,
)
    requires
        prefix_rounds_fit(t, key, skip, rounds),
    ensures
        forall|i: int, conn: u64, to: Subscriber|
            0 <= i < t.len() && has_prefix(key, (#[trigger] t[i]).name) && skip != Some(conn)
                && #[trigger] t[i].subs.contains((conn, to)) ==> offered_in(
                prefix_events(t, key, push, skip, rounds),
                conn,
                to,
                push,
            ),
        forall|k: int|
            0 <= k < prefix_events(t, key, push, skip, rounds).len() && (#[trigger] prefix_events(
                t,
                key,
                push,
                skip,
                rounds,
            )[k]) is Offered ==> {
                &&& prefix_events(t, key, push, skip, rounds)[k]->push == push
                &&& skip != Some(prefix_events(t, key, push, skip, rounds)[k]->Offered_conn)
            },
        prefix_events(t, key, push, skip, rounds).filter(|e: PushEvent| is_taken(e)).len()
            == total_sent(rounds),
    decreases t.len(),
{
    let pred = |e: PushEvent| is_taken(e);
    let mine = |p: (u64, Subscriber)| skip != Some(p.0);
    let all = prefix_events(t, key, push, skip, rounds);
    if t.len() == 0 {
        reveal(Seq::filter);
        assert(all.filter(pred).len() == 0);
    } else {
        let t0 = t.drop_last();
        let r0 = rounds.drop_last();
        let n = t.len() - 1;
        assert forall|i: int| 0 <= i < t0.len() implies (#[trigger] r0[i]).len() == (
        if has_prefix(key, t0[i].name) {
            reached(t0[i].subs, skip).len()
        } else {
            0
        }) by {
            assert(r0[i] == rounds[i]);
        }
        lemma_prefixes_whole(t0, key, push, skip, r0);
        let rest = prefix_events(t0, key, push, skip, r0);
        let row = t.last();
        let own = reached(row.subs, skip);
        assert(rounds[n].len() == (if has_prefix(key, t[n].name) {
            reached(t[n].subs, skip).len()
        } else {
            0
        }));
        let hit = has_prefix(key, row.name);
        let tail = if hit {
            round_events(own, push, rounds.last())
        } else {
            Seq::empty()
        };
        assert(all =~= rest + tail);
        Seq::filter_distributes_over_add(rest, tail, pred);
        law_one_connection_is_left_out(row.subs, skip);
        if hit {
            lemma_round_is_whole(own, push, rounds.last());
        } else {
            reveal(Seq::filter);
            assert(tail.filter(pred).len() == 0);
        }
        assert forall|i: int, conn: u64, to: Subscriber|
            0 <= i < t.len() && has_prefix(key, (#[trigger] t[i]).name) && skip != Some(conn)
                && #[trigger] t[i].subs.contains((conn, to)) implies offered_in(
            all,
            conn,
            to,
            push,
        ) by {
            if i < n {
                assert(t0[i] == t[i]);
                assert(t0[i].subs.contains((conn, to)));
                assert(offered_in(rest, conn, to, push));
            } else {
                let j = choose|j: int| 0 <= j < row.subs.len() && row.subs[j] == (conn, to);
                row.subs.lemma_filter_contains(mine, j);
                assert(own.contains((conn, to)));
                let q = choose|q: int| 0 <= q < own.len() && own[q] == (conn, to);
                assert(tail.contains(
                    PushEvent::Offered {
                        conn: own[q].0,
                        to: own[q].1,
                        push,
                        outcome: rounds.last()[q],
                    },
                ));
                assert(offered_in(tail, conn, to, push));
            }
            lemma_offered_more(rest, tail, conn, to, push);
        }
        assert forall|k: int| 0 <= k < all.len() && (#[trigger] all[k]) is Offered implies {
            &&& all[k]->push == push
            &&& skip != Some(all[k]->Offered_conn)
        } by {
            if k < rest.len() {
                assert(all[k] == rest[k]);
            } else {
                assert(all[k] == tail[k - rest.len()]);
                let conn = all[k]->Offered_conn;
                let to = all[k]->Offered_to;
                let q = choose|q: int| 0 <= q < own.len() && #[trigger] own[q] == (conn, to)
                    && rounds.last()[q] == all[k]->outcome;
                row.subs.lemma_filter_pred(mine, q);
            }
        }
    }
}

/// A flush is told to every connection that tracks anything, and to each of them once.
pub proof fn law_a_flush_is_told_once(
    by_key: Seq<Row<Subscriber>>,
    prefixes: Seq<Row<Subscriber>>,
)
    ensures
        conns(all_trackers(by_key, prefixes)).no_duplicates(),
        forall|i: int, c: u64|
            0 <= i < by_key.len() && #[trigger] conns(by_key[i].subs).contains(c) ==> conns(
                all_trackers(by_key, prefixes),
            ).contains(c),
        forall|i: int, c: u64|
            0 <= i < prefixes.len() && #[trigger] conns(prefixes[i].subs).contains(c) ==> conns(
                all_trackers(by_key, prefixes),
            ).contains(c),
{
    let none = Seq::<(u64, Subscriber)>::empty();
    assert(conns(none).no_duplicates());
    let first = trackers_onto(none, by_key);
    lemma_trackers(none, by_key);
    lemma_trackers(first, prefixes);
    assert forall|i: int, c: u64|
        0 <= i < by_key.len() && #[trigger] conns(by_key[i].subs).contains(c) implies conns(
        all_trackers(by_key, prefixes),
    ).contains(c) by {
        assert(conns(first).contains(c));
    }
}

proof fn lemma_trackers(before: Seq<(u64, Subscriber)>, t: Seq<Row<Subscriber>>)
    requires
        conns(before).no_duplicates(),
    ensures
        conns(trackers_onto(before, t)).no_duplicates(),
        forall|c: u64| #[trigger]
            conns(before).contains(c) ==> conns(trackers_onto(before, t)).contains(c),
        forall|i: int, c: u64|
            0 <= i < t.len() && #[trigger] conns(t[i].subs).contains(c) ==> conns(
                trackers_onto(before, t),
            ).contains(c),
    decreases t.len(),
{
    if t.len() > 0 {
        let front = t.drop_last();
        lemma_trackers(before, front);
        let mid = trackers_onto(before, front);
        lemma_firsts(mid, t.last().subs);
        assert forall|i: int, c: u64|
            0 <= i < t.len() && #[trigger] conns(t[i].subs).contains(c) implies conns(
            trackers_onto(before, t),
        ).contains(c) by {
            if i < front.len() {
                assert(front[i] == t[i]);
                assert(conns(front[i].subs).contains(c));
                assert(conns(mid).contains(c));
            }
        }
    }
}

proof fn lemma_firsts(before: Seq<(u64, Subscriber)>, subs: Seq<(u64, Subscriber)>)
    requires
        conns(before).no_duplicates(),
    ensures
        conns(firsts_onto(before, subs)).no_duplicates(),
        forall|c: u64| #[trigger]
            conns(before).contains(c) ==> conns(firsts_onto(before, subs)).contains(c),
        forall|c: u64| #[trigger]
            conns(subs).contains(c) ==> conns(firsts_onto(before, subs)).contains(c),
    decreases subs.len(),
{
    if subs.len() > 0 {
        let front = subs.drop_last();
        lemma_firsts(before, front);
        let rest = firsts_onto(before, front);
        let all = firsts_onto(before, subs);
        if !conns(rest).contains(subs.last().0) {
            assert(conns(all) =~= conns(rest).push(subs.last().0));
            assert(conns(all)[rest.len() as int] == subs.last().0);
        }
        assert forall|c: u64| #[trigger] conns(rest).contains(c) implies conns(all).contains(c) by {
            let k = choose|k: int| 0 <= k < conns(rest).len() && conns(rest)[k] == c;
            assert(conns(all)[k] == c);
        }
        assert forall|c: u64| #[trigger] conns(subs).contains(c) implies conns(all).contains(c) by {
            let k = choose|k: int| 0 <= k < conns(subs).len() && conns(subs)[k] == c;
            if k < front.len() {
                assert(conns(front)[k] == c);
                assert(conns(front).contains(c));
                assert(conns(rest).contains(c));
            }
        }
    }
}

/// The names that a filter lets through are those of the table that the matcher says yes
/// to; without a filter, all of them.
pub proof fn law_filtered_names(
    t: Seq<Row<Subscriber>>,
    verdicts: Seq<bool>,
    name: Seq<u8>,
)
    requires
        verdicts.len() == t.len(),
    ensures
        marked_names(t, verdicts).contains(name) <==> exists|i: int|
            0 <= i < t.len() && verdicts[i] && (#[trigger] t[i]).name == name,
{
    crate::subscriptions::lemma_kept(names(t), verdicts);
    if marked_names(t, verdicts).contains(name) {
        let i = choose|i: int|
            0 <= i < names(t).len() && verdicts[i] && #[trigger] names(t)[i] == name;
        assert(t[i].name == name);
    }
    if exists|i: int| 0 <= i < t.len() && verdicts[i] && (#[trigger] t[i]).name == name {
        let i = choose|i: int|
            0 <= i < t.len() && verdicts[i] && (#[trigger] t[i]).name == name;
        assert(names(t)[i] == name);
    }
}

/// A frame begins with its kind, and then come what it is about, the channel and the
/// payload in that order.
pub proof fn law_frames(channel: Seq<u8>, payload: Seq<u8>, pattern: Seq<u8>, keys: Seq<Seq<u8>>)
    ensures
        rendered(PushModel::Message { channel, payload }) == ValueModel::Push(
            seq![
                ValueModel::Bulk(Some(encode_utf8("message"@))),
                ValueModel::Bulk(Some(channel)),
                ValueModel::Bulk(Some(payload)),
            ],
        ),
        rendered(PushModel::PMessage { pattern, channel, payload }) == ValueModel::Push(
            seq![
                ValueModel::Bulk(Some(encode_utf8("pmessage"@))),
                ValueModel::Bulk(Some(pattern)),
                ValueModel::Bulk(Some(channel)),
                ValueModel::Bulk(Some(payload)),
            ],
        ),
        rendered(PushModel::SMessage { channel, payload }) == ValueModel::Push(
            seq![
                ValueModel::Bulk(Some(encode_utf8("smessage"@))),
                ValueModel::Bulk(Some(channel)),
                ValueModel::Bulk(Some(payload)),
            ],
        ),
        rendered(PushModel::Invalidate { keys: None }) == ValueModel::Push(
            seq![ValueModel::Bulk(Some(encode_utf8("invalidate"@))), ValueModel::Null],
        ),
        rendered(PushModel::Invalidate { keys: Some(keys) }) matches ValueModel::Push(items)
            && items.len() == 2 && items[0] == ValueModel::Bulk(Some(encode_utf8("invalidate"@)))
            && (items[1] matches ValueModel::Array(Some(ks)) && ks.len() == keys.len() && forall|
            i: int,
        |
            0 <= i < keys.len() ==> #[trigger] ks[i] == ValueModel::Bulk(Some(keys[i]))),
{
    assert(rendered(PushModel::Invalidate { keys: None })->Push_0 =~= seq![
        ValueModel::Bulk(Some(encode_utf8("invalidate"@))),
        ValueModel::Null,
    ]);
}

/// After a message went out by pattern, a pattern that did not match has the subscribers
/// that it had, and one that did has those who took the message.
pub proof fn law_patterns_keep_who_took_it(
    t: Seq<Row<Subscriber>>,
    verdicts: Seq<bool>,
    rounds: Seq<Seq<SendOutcome>>,
    i: int,
)
    requires
        well_formed(t),
        rounds_fit(t, verdicts, rounds),
        0 <= i < t.len(),
    ensures
        !verdicts[i] ==> subs_of(rows_after(t, verdicts, rounds), t[i].name) == t[i].subs,
        verdicts[i] ==> forall|j: int|
            0 <= j < t[i].subs.len() ==> (conns(
                subs_of(rows_after(t, verdicts, rounds), t[i].name),
            ).contains((#[trigger] t[i].subs[j]).0) <==> rounds[i][j] == SendOutcome::Sent),
{
    lemma_row_after(t, verdicts, rounds, i);
    assert(rounds[i].len() == (if verdicts[i] {
        t[i].subs.len()
    } else {
        0
    }));
    if verdicts[i] {
        let subs = t[i].subs;
        let marks = sent_marks(rounds[i]);
        lemma_conns_kept(subs, marks);
        lemma_kept(conns(subs), marks);
        assert(conns(t[i].subs).no_duplicates());
        assert forall|j: int| 0 <= j < subs.len() implies (conns(kept(subs, marks)).contains(
            (#[trigger] subs[j]).0,
        ) <==> rounds[i][j] == SendOutcome::Sent) by {
            assert(conns(subs)[j] == subs[j].0);
            if conns(kept(subs, marks)).contains(subs[j].0) {
                let k = choose|k: int|
                    0 <= k < conns(subs).len() && marks[k] && #[trigger] conns(subs)[k]
                        == subs[j].0;
                if k != j {
                    assert(conns(subs)[k] != conns(subs)[j]);
                }
            }
            if marks[j] {
                assert(kept(conns(subs), marks).contains(conns(subs)[j]));
            }
        }
    }
}

proof fn lemma_rows_after_names(
    t: Seq<Row<Subscriber>>,
    verdicts: Seq<bool>,
    rounds: Seq<Seq<SendOutcome>>,
)
    ensures
        forall|k: int|
            0 <= k < rows_after(t, verdicts, rounds).len() ==> exists|i: int|
                0 <= i < t.len() && t[i].name == (#[trigger] rows_after(
                    t,
                    verdicts,
                    rounds,
                )[k]).name,
    decreases t.len(),
{
    if t.len() > 0 {
        let front = t.drop_last();
        let v0 = verdicts.drop_last();
        let r0 = rounds.drop_last();
        lemma_rows_after_names(front, v0, r0);
        let f = rows_after(t, verdicts, rounds);
        let rest = rows_after(front, v0, r0);
        assert forall|k: int| 0 <= k < f.len() implies exists|i: int|
            0 <= i < t.len() && t[i].name == (#[trigger] f[k]).name by {
            if k < rest.len() {
                assert(f[k] == rest[k]);
                let i = choose|i: int| 0 <= i < front.len() && front[i].name == rest[k].name;
                assert(t[i] == front[i]);
            } else {
                assert(t[t.len() - 1].name == f[k].name);
            }
        }
    }
}

proof fn lemma_row_after(
    t: Seq<Row<Subscriber>>,
    verdicts: Seq<bool>,
    rounds: Seq<Seq<SendOutcome>>,
    i: int,
)
    requires
        well_formed(t),
        rounds_fit(t, verdicts, rounds),
        0 <= i < t.len(),
    ensures
        subs_of(rows_after(t, verdicts, rounds), t[i].name) == (if verdicts[i] {
            kept(t[i].subs, sent_marks(rounds[i]))
        } else {
            t[i].subs
        }),
    decreases t.len(),
{
    let name = t[i].name;
    let front = t.drop_last();
    let v0 = verdicts.drop_last();
    let r0 = rounds.drop_last();
    let n = t.len() - 1;
    let last = t.last();
    assert(names(front) =~= names(t).drop_last());
    assert forall|k: int| 0 <= k < front.len() implies (#[trigger] front[k]).subs.len() > 0
        && conns(front[k].subs).no_duplicates() by {
        assert(front[k] == t[k]);
    }
    assert forall|a: int, b: int|
        0 <= a < names(front).len() && 0 <= b < names(front).len() && a != b implies names(
        front,
    )[a] != names(front)[b] by {
        assert(names(t)[a] != names(t)[b]);
    }
    assert forall|k: int| 0 <= k < front.len() implies (#[trigger] r0[k]).len() == (if v0[k] {
        front[k].subs.len()
    } else {
        0
    }) by {
        assert(r0[k] == rounds[k]);
    }
    let rest = rows_after(front, v0, r0);
    let f = rows_after(t, verdicts, rounds);
    lemma_rows_after_names(front, v0, r0);
    lemma_first_at(names(rest), name);
    assert(names(t)[n] == last.name);
    assert(names(t)[i] == name);
    let subs = if verdicts[n] {
        kept(last.subs, sent_marks(rounds[n]))
    } else {
        last.subs
    };
    assert(last.subs.len() > 0);
    if i == n {
        assert forall|k: int| 0 <= k < names(rest).len() implies names(rest)[k] != name by {
            let q = choose|q: int| 0 <= q < front.len() && front[q].name == rest[k].name;
            assert(names(t)[q] != names(t)[n]);
            assert(names(t)[q] == front[q].name);
        }
        if subs.len() == 0 {
            crate::text::lemma_first_at_is(names(f), name, f.len() as int);
            assert(subs_of(f, name) =~= subs);
        } else {
            assert(names(f) =~= names(rest).push(name));
            crate::text::lemma_first_at_is(names(f), name, rest.len() as int);
        }
    } else {
        assert(front[i] == t[i]);
        lemma_row_after(front, v0, r0, i);
        assert(names(t)[i] != names(t)[n]);
        if subs.len() > 0 {
            assert(names(f) =~= names(rest).push(last.name));
            let k = row_of(rest, name);
            if k < rest.len() {
                crate::text::lemma_first_at_is(names(f), name, k);
                assert(f[k] == rest[k]);
            } else {
                crate::text::lemma_first_at_is(names(f), name, f.len() as int);
            }
        }
    }
}

/// What is noted as an offer was handed to the channel of that connection with that
/// outcome, and who is noted as shed had its signal tripped.
proof fn law_what_is_noted_was_done(pre_log: Seq<PushEvent>, post_log: Seq<PushEvent>, k: int)
    requires
        carried_out(pre_log, post_log),
        pre_log.len() <= k < post_log.len(),
    ensures
        match post_log[k] {
            PushEvent::Offered { to, push, outcome, .. } => exists|item: ServerPush|
                item.model() == push && #[trigger] call_ensures(
                    try_send::<ServerPush>,
                    (&to.sender, item),
                    outcome,
                ),
            PushEvent::Tripped { to, .. } => call_ensures(ShedSignal::trip, (&*to.shed,), ()),
        },
{
    assert(took_place(post_log[k]));
}

/// A handle is made or notified by the calls of those names.
proof fn law_handles_are_made_and_notified(wake: Notify)
    ensures
        made(wake) ==> call_ensures(new_notify, (), wake),
        notified(wake) ==> call_ensures(notify_one, (&wake,), ()),
{
}

/// The model of a push holds what the push holds.
pub proof fn law_model_of_a_push(a: Vec<u8>, b: Vec<u8>, c: Vec<u8>, keys: Vec<Vec<u8>>)
    ensures
        (ServerPush::Message { channel: a, payload: b }).model() == (PushModel::Message {
            channel: a@,
            payload: b@,
        }),
        (ServerPush::PMessage { pattern: a, channel: b, payload: c }).model() == (
        PushModel::PMessage { pattern: a@, channel: b@, payload: c@ }),
        (ServerPush::SMessage { channel: a, payload: b }).model() == (PushModel::SMessage {
            channel: a@,
            payload: b@,
        }),
        (ServerPush::Invalidate { keys: Some(keys) }).model() == (PushModel::Invalidate {
            keys: Some(byte_seqs(keys@)),
        }),
        (ServerPush::Invalidate { keys: None }).model() == (PushModel::Invalidate { keys: None }),
{
}

/// The names that are listed for a pattern are names of the table of which the matcher,
/// given the pattern and then the name, said yes; of those that are left out it said no.
/// Without a pattern all are listed.
pub proof fn law_listed_names_match<F: Fn(&[u8], &[u8]) -> bool>(
    t: Seq<Row<Subscriber>>,
    pat: Option<&[u8]>,
    glob: F,
    result: Seq<Seq<u8>>,
    i: int,
)
    requires
        filtered(t, pat, glob, result),
        0 <= i < t.len(),
    ensures
        pat is None ==> result.len() == t.len() && result[i] == t[i].name,
        pat matches Some(p) ==> (!result.contains(t[i].name) ==> exists|a: &[u8], b: &[u8]|
            a@ == p@ && b@ == t[i].name && #[trigger] call_ensures(glob, (a, b), false)),
        pat matches Some(p) ==> forall|j: int|
            0 <= j < result.len() ==> exists|a: &[u8], b: &[u8]|
                a@ == p@ && b@ == #[trigger] result[j] && #[trigger] call_ensures(
                    glob,
                    (a, b),
                    true,
                ),
        forall|j: int|
            0 <= j < result.len() ==> exists|k: int|
                0 <= k < t.len() && (#[trigger] t[k]).name == #[trigger] result[j],
{
    match pat {
        None => {
            assert(result[i] == t[i].name);
            assert forall|j: int| 0 <= j < result.len() implies exists|k: int|
                0 <= k < t.len() && (#[trigger] t[k]).name == #[trigger] result[j] by {
                assert(t[j].name == result[j]);
            }
        },
        Some(p) => {
            let verdicts = choose|verdicts: Seq<bool>| #[trigger]
                judged_against(glob, p@, t, verdicts) && result == marked_names(t, verdicts);
            law_filtered_names(t, verdicts, t[i].name);
            assert(judged(glob, p@, t[i].name, verdicts[i]));
            assert forall|j: int| 0 <= j < result.len() implies exists|k: int|
                0 <= k < t.len() && (#[trigger] t[k]).name == #[trigger] result[j] by {
                law_filtered_names(t, verdicts, result[j]);
                assert(result.contains(result[j]));
            }
            assert forall|j: int| 0 <= j < result.len() implies exists|a: &[u8], b: &[u8]|
                a@ == p@ && b@ == #[trigger] result[j] && #[trigger] call_ensures(
                    glob,
                    (a, b),
                    true,
                ) by {
                law_filtered_names(t, verdicts, result[j]);
                assert(result.contains(result[j]));
                let k = choose|k: int|
                    0 <= k < t.len() && verdicts[k] && (#[trigger] t[k]).name == result[j];
                assert(judged(glob, p@, t[k].name, verdicts[k]));
            }
        },
    }
}

/// In a sound registry a name stands once in its table, and a connection once under it.
pub proof fn law_a_subscription_stands_once(
    p: ShardPubSub,
    t: Seq<Row<Subscriber>>,
    i: int,
    j: int,
    a: int,
    b: int,
)
    requires
        p.wf(),
        t == p.channels@ || t == p.patterns@ || t == p.shard_channels@,
        0 <= i < j < t.len(),
        0 <= a < b < t[i].subs.len(),
    ensures
        t[i].name != t[j].name,
        t[i].subs[a].0 != t[i].subs[b].0,
        t[j].subs.len() > 0,
{
    assert(names(t)[i] == t[i].name && names(t)[j] == t[j].name);
    assert(conns(t[i].subs)[a] == t[i].subs[a].0 && conns(t[i].subs)[b] == t[i].subs[b].0);
}

/// In a sound table of trackers a key stands once, and a connection once under it.
pub proof fn law_a_tracker_stands_once(
    p: ShardTracking,
    t: Seq<Row<Subscriber>>,
    i: int,
    j: int,
    a: int,
    b: int,
)
    requires
        p.wf(),
        t == p.by_key@ || t == p.prefixes@,
        0 <= i < j < t.len(),
        0 <= a < b < t[i].subs.len(),
    ensures
        t[i].name != t[j].name,
        t[i].subs[a].0 != t[i].subs[b].0,
        t[j].subs.len() > 0,
{
    assert(names(t)[i] == t[i].name && names(t)[j] == t[j].name);
    assert(conns(t[i].subs)[a] == t[i].subs[a].0 && conns(t[i].subs)[b] == t[i].subs[b].0);
}

} // verus!
