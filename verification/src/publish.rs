//! What a shard does with the publishing and introspection requests that reach it,
//! and what the home core makes of the shards' answers.
use vstd::prelude::*;
use vstd::slice::slice_subrange;
use vstd::utf8::{encode_utf8, encode_utf8_decode_utf8};
use crate::bytes::{ascii_upper, byte_seqs, bytes_of, copy_bytes, is_word, uppered};
use crate::coordinator::{add_saturating, all_reported, bulk_values, bulks, capped, count_behind,
    counts_report, distinct, fan_out_targets, law_counts_are_merged_by_channel, merge_pubsub_channels, merge_pubsub_numpat, merge_pubsub_numsub, numsub_items,
    publish_request, replies_view, saturated, targets, ReplyView, ShardReply, ICPUBLISH, ICPUBSUB};
use crate::inbox::{offered_to, offers, offers_made, Outbox};
use crate::pubsub::{carried_out, delivered, delivered_patterns, filtered, is_taken, judged, judged_names,
    law_delivery_reaches_every_subscriber, law_delivery_reaches_only_subscribers,
    law_patterns_reach_every_match, offered_in, pattern_events, rounds_fit, rows_after, total_sent, PushEvent,
    PushModel, SendOutcome, ServerPush, ShardPubSub, Subscriber};
use crate::subscriptions::{names, subs_of, Row};
use crate::text::lemma_first_at_is;
use crate::value::{arguments, values, Request, Value, ValueModel};

verus! {

/// A message was offered under every pattern that a matcher says matches its
/// channel.
pub open spec fn told_by_pattern<F: Fn(&[u8], &[u8]) -> bool>(
    glob: F,
    pre: Seq<Row<Subscriber>>,
    pre_log: Seq<PushEvent>,
    channel: Seq<u8>,
    payload: Seq<u8>,
    post: Seq<Row<Subscriber>>,
    post_log: Seq<PushEvent>,
    n: i64,
) -> bool {
    exists|verdicts: Seq<bool>| #[trigger]
        judged_names(glob, pre, channel, verdicts) && delivered_patterns(
            pre,
            pre_log,
            verdicts,
            channel,
            payload,
            post,
            post_log,
            n,
        )
}

/// A message was offered to the subscribers of its channel, then under every
/// pattern that matches; whoever has both gets it twice and counts twice.
pub open spec fn published<F: Fn(&[u8], &[u8]) -> bool>(
    glob: F,
    pre: ShardPubSub,
    channel: Seq<u8>,
    payload: Seq<u8>,
    post: ShardPubSub,
    n: i64,
) -> bool {
    exists|log: Seq<PushEvent>, a: i64, b: i64|
        {
            &&& #[trigger] delivered(
                pre.channels@,
                pre.log@,
                channel,
                PushModel::Message { channel, payload },
                post.channels@,
                log,
                a,
            )
            &&& #[trigger] told_by_pattern(
                glob,
                pre.patterns@,
                log,
                channel,
                payload,
                post.patterns@,
                post.log@,
                b,
            )
            &&& n == saturated(a, b)
        }
}

/// Delivers a published message to the subscribers of this shard, by channel and
/// by pattern, and replies with how many took it. A request without a channel and
/// a message reaches nobody.
pub fn run_local_publish<F: Fn(&[u8], &[u8]) -> bool>(
    pubsub: &mut ShardPubSub,
    request: &Request,
    glob: F,
) -> (v: Value)
    requires
        forall|p: &[u8], t: &[u8]| #[trigger] call_requires(glob, (p, t)),
    ensures
        request.args@.len() < 3 ==> v.model() == ValueModel::Integer(0) && *final(pubsub) == *old(
            pubsub,
        ),
        request.args@.len() >= 3 ==> exists|n: i64|
            v.model() == ValueModel::Integer(n) && #[trigger] published(
                glob,
                *old(pubsub),
                request.args@[1]@,
                request.args@[2]@,
                *final(pubsub),
                n,
            ),
        carried_out(old(pubsub).log@, final(pubsub).log@),
        final(pubsub).shard_channels == old(pubsub).shard_channels,
        old(pubsub).wf() ==> final(pubsub).wf(),
{
    if request.args.len() < 3 {
        return Value::Integer(0);
    }
    let ghost pre = *pubsub;
    let channel = request.args[1].as_slice();
    let payload = request.args[2].as_slice();
    let push = ServerPush::Message { channel: copy_bytes(channel), payload: copy_bytes(payload) };
    let a = pubsub.deliver(channel, &push);
    let ghost log = pubsub.log@;
    let b = pubsub.deliver_patterns(channel, payload, glob);
    proof {
        assert(delivered(
            pre.channels@,
            pre.log@,
            channel@,
            PushModel::Message { channel: channel@, payload: payload@ },
            pubsub.channels@,
            log,
            a,
        ));
        assert(told_by_pattern(
            glob,
            pre.patterns@,
            log,
            channel@,
            payload@,
            pubsub.patterns@,
            pubsub.log@,
            b,
        ));
        assert(published(glob, pre, channel@, payload@, *pubsub, saturated(a, b)));
    }
    Value::Integer(add_saturating(a, b))
}

/// Tells every shard of a message that nobody waits for: it is offered to the others
/// without waiting, so that two shards can never wait for each other, and is delivered
/// to the subscribers of this one.
pub fn fan_out_publish_notify<F: Fn(&[u8], &[u8]) -> bool>(
    outbox: &mut Outbox,
    pubsub: &mut ShardPubSub,
    channel: &[u8],
    payload: &[u8],
    db: u32,
    home: usize,
    glob: F,
)
    requires
        forall|p: &[u8], t: &[u8]| #[trigger] call_requires(glob, (p, t)),
    ensures
        final(outbox).inbox == old(outbox).inbox,
        offered_to(
            old(outbox).offered@,
            final(outbox).offered@,
            targets(old(outbox).inbox@.len(), home as nat),
            seq![encode_utf8(ICPUBLISH@), channel@, payload@],
            db,
        ),
        exists|n: i64| #[trigger]
            published(glob, *old(pubsub), channel@, payload@, *final(pubsub), n),
        carried_out(old(pubsub).log@, final(pubsub).log@),
        offers_made(old(outbox).inbox@, old(outbox).offered@, final(outbox).offered@),
        final(pubsub).shard_channels == old(pubsub).shard_channels,
        old(pubsub).wf() ==> final(pubsub).wf(),
{
    let request = publish_request(ICPUBLISH, channel, payload);
    let others = fan_out_targets(outbox.inbox.len(), home);
    let ghost all = targets(outbox.inbox@.len(), home as nat);
    let ghost start = outbox.offered@;
    let ghost words = arguments(request);
    let ghost mut outcomes: Seq<SendOutcome> = Seq::empty();
    assert(start =~= start + offers(all.take(0), words, db, outcomes));
    for i in 0..others.len()
        invariant
            outbox.inbox == old(outbox).inbox,
            all == targets(old(outbox).inbox@.len(), home as nat),
            others@.len() == all.len(),
            forall|k: int| 0 <= k < others@.len() ==> #[trigger] others@[k] == all[k],
            words == arguments(request),
            outcomes.len() == i,
            start == old(outbox).offered@,
            offers_made(outbox.inbox@, start, outbox.offered@),
            outbox.offered@ == start + offers(all.take(i as int), words, db, outcomes),
    {
        assert(others@[i as int] == all[i as int]);
        let outcome = outbox.offer(others[i], &request, db);
        proof {
            outcomes = outcomes.push(outcome);
            assert(outbox.offered@ =~= start + offers(
                all.take(i as int + 1),
                words,
                db,
                outcomes,
            ));
        }
    }
    assert(all.take(others@.len() as int) =~= all);
    assert(arguments(request).len() == request.args@.len());
    assert(arguments(request)[1] == request.args@[1]@);
    assert(arguments(request)[2] == request.args@[2]@);
    let _ = run_local_publish(pubsub, &request, glob);
}

/// Delivers a message to the subscribers of a shard channel on this shard and
/// replies with how many took it. Patterns play no part.
pub fn run_local_spublish(pubsub: &mut ShardPubSub, request: &Request) -> (v: Value)
    ensures
        request.args@.len() < 3 ==> v.model() == ValueModel::Integer(0) && *final(pubsub) == *old(
            pubsub,
        ),
        request.args@.len() >= 3 ==> exists|n: i64|
            v.model() == ValueModel::Integer(n) && #[trigger] delivered(
                old(pubsub).shard_channels@,
                old(pubsub).log@,
                request.args@[1]@,
                PushModel::SMessage {
                    channel: request.args@[1]@,
                    payload: request.args@[2]@,
                },
                final(pubsub).shard_channels@,
                final(pubsub).log@,
                n,
            ),
        carried_out(old(pubsub).log@, final(pubsub).log@),
        final(pubsub).channels == old(pubsub).channels,
        final(pubsub).patterns == old(pubsub).patterns,
        old(pubsub).wf() ==> final(pubsub).wf(),
{
    if request.args.len() < 3 {
        return Value::Integer(0);
    }
    let channel = request.args[1].as_slice();
    let payload = request.args[2].as_slice();
    let push = ServerPush::SMessage { channel: copy_bytes(channel), payload: copy_bytes(payload) };
    Value::Integer(pubsub.deliver_shard(channel, &push))
}

/// Channels, each with the number of its subscribers in a table.
pub open spec fn local_counts(t: Seq<Row<Subscriber>>, channels: Seq<Seq<u8>>) -> Seq<ValueModel>
    decreases channels.len(),
{
    if channels.len() == 0 {
        Seq::empty()
    } else {
        local_counts(t, channels.drop_last()).push(ValueModel::Bulk(Some(channels.last()))).push(
            ValueModel::Integer(capped(subs_of(t, channels.last()).len())),
        )
    }
}

/// What this shard reports about its subscriptions.
pub open spec fn local_report<F: Fn(&[u8], &[u8]) -> bool>(
    glob: F,
    pubsub: ShardPubSub,
    request: Request,
    v: ValueModel,
) -> bool {
    let args = arguments(request);
    if args.len() < 2 {
        v == ValueModel::Array(Some(Seq::empty()))
    } else {
        let sub = uppered(args[1]);
        let pat = if args.len() > 2 {
            Some(request.args@[2])
        } else {
            None
        };
        if sub == encode_utf8("CHANNELS"@) {
            names_report(glob, pubsub.channels@, pat, v)
        } else if sub == encode_utf8("NUMSUB"@) {
            v == ValueModel::Array(Some(local_counts(pubsub.channels@, args.skip(2))))
        } else if sub == encode_utf8("NUMPAT"@) {
            v == ValueModel::Array(Some(bulks(names(pubsub.patterns@))))
        } else if sub == encode_utf8("SHARDCHANNELS"@) {
            names_report(glob, pubsub.shard_channels@, pat, v)
        } else if sub == encode_utf8("SHARDNUMSUB"@) {
            v == ValueModel::Array(Some(local_counts(pubsub.shard_channels@, args.skip(2))))
        } else {
            v == ValueModel::Array(Some(Seq::empty()))
        }
    }
}

/// The names of a table that a pattern lets through, as bulk strings.
pub open spec fn names_report<F: Fn(&[u8], &[u8]) -> bool>(
    glob: F,
    t: Seq<Row<Subscriber>>,
    pat: Option<Vec<u8>>,
    v: ValueModel,
) -> bool {
    exists|p: Option<&[u8]>, result: Seq<Seq<u8>>|
        {
            &&& opt_view(p) == opt_bytes(pat)
            &&& #[trigger] filtered(t, p, glob, result)
            &&& v == ValueModel::Array(Some(bulks(result)))
        }
}

/// The bytes of an optional slice.
pub open spec fn opt_view(p: Option<&[u8]>) -> Option<Seq<u8>> {
    match p {
        Some(b) => Some(b@),
        None => None,
    }
}

/// The bytes of an optional byte string.
pub open spec fn opt_bytes(p: Option<Vec<u8>>) -> Option<Seq<u8>> {
    match p {
        Some(b) => Some(b@),
        None => None,
    }
}

fn counts(pubsub: &ShardPubSub, shard: bool, channels: &[Vec<u8>]) -> (v: Value)
    ensures
        v.model() == ValueModel::Array(
            Some(
                local_counts(
                    if shard {
                        pubsub.shard_channels@
                    } else {
                        pubsub.channels@
                    },
                    byte_seqs(channels@),
                ),
            ),
        ),
{
    let ghost t = if shard {
        pubsub.shard_channels@
    } else {
        pubsub.channels@
    };
    let ghost all = byte_seqs(channels@);
    let mut flat: Vec<Value> = Vec::new();
    assert(values(flat@) =~= local_counts(t, all.take(0)));
    for i in 0..channels.len()
        invariant
            t == (if shard {
                pubsub.shard_channels@
            } else {
                pubsub.channels@
            }),
            all == byte_seqs(channels@),
            values(flat@) == local_counts(t, all.take(i as int)),
    {
        let ghost before = flat@;
        let ch = channels[i].as_slice();
        let n: i64 = if shard {
            pubsub.local_shard_numsub(ch)
        } else {
            pubsub.local_numsub(ch)
        };
        let name = Value::bulk(copy_bytes(ch));
        let count = Value::Integer(n);
        flat.push(name);
        flat.push(count);
        proof {
            crate::value::lemma_values_push(before, name);
            crate::value::lemma_values_push(before.push(name), count);
            assert(all.take(i as int + 1).drop_last() =~= all.take(i as int));
        }
    }
    assert(all.take(all.len() as int) =~= all);
    Value::Array(Some(flat))
}

/// What this shard reports about its subscriptions.
pub fn run_local_pubsub<F: Fn(&[u8], &[u8]) -> bool>(
    pubsub: &ShardPubSub,
    request: &Request,
    glob: F,
) -> (v: Value)
    requires
        forall|p: &[u8], t: &[u8]| #[trigger] call_requires(glob, (p, t)),
    ensures
        local_report(glob, *pubsub, *request, v.model()),
{
    let ghost args = arguments(*request);
    if request.args.len() < 2 {
        let none: Vec<Value> = Vec::new();
        return Value::Array(Some(none));
    }
    let sub = ascii_upper(request.args[1].as_slice());
    let word = sub.as_slice();
    let pat: Option<&[u8]> = if request.args.len() > 2 {
        Some(request.args[2].as_slice())
    } else {
        None
    };
    let rest = slice_subrange(request.args.as_slice(), 2, request.args.len());
    proof {
        assert(byte_seqs(rest@) =~= args.skip(2));
        assert(opt_view(pat) == opt_bytes(
            if args.len() > 2 {
                Some(request.args@[2])
            } else {
                None
            },
        ));
    }
    if is_word(word, "CHANNELS") {
        let found = pubsub.local_channels(pat, glob);
        Value::Array(Some(bulk_values(found)))
    } else if is_word(word, "NUMSUB") {
        counts(pubsub, false, rest)
    } else if is_word(word, "NUMPAT") {
        Value::Array(Some(bulk_values(pubsub.local_patterns())))
    } else if is_word(word, "SHARDCHANNELS") {
        let found = pubsub.local_shard_channels(pat, glob);
        Value::Array(Some(bulk_values(found)))
    } else if is_word(word, "SHARDNUMSUB") {
        counts(pubsub, true, rest)
    } else {
        let none: Vec<Value> = Vec::new();
        Value::Array(Some(none))
    }
}

/// The request that every shard gets for an introspection command.
pub fn pubsub_request(request: &Request) -> (r: Request)
    requires
        request.args@.len() >= 1,
    ensures
        arguments(r) == seq![encode_utf8(ICPUBSUB@)] + arguments(*request).skip(1),
{
    let ghost all = arguments(*request);
    let mut args: Vec<Vec<u8>> = Vec::new();
    args.push(bytes_of(ICPUBSUB));
    assert(byte_seqs(args@) =~= seq![encode_utf8(ICPUBSUB@)] + all.skip(1).take(0));
    let n: usize = request.args.len();
    for i in 1..n
        invariant
            n == request.args@.len(),
            all == arguments(*request),
            byte_seqs(args@) == seq![encode_utf8(ICPUBSUB@)] + all.skip(1).take(i - 1),
    {
        let ghost before = args@;
        args.push(copy_bytes(request.args[i].as_slice()));
        assert(byte_seqs(args@) =~= byte_seqs(before).push(all[i as int]));
        assert(byte_seqs(args@) =~= seq![encode_utf8(ICPUBSUB@)] + all.skip(1).take(i as int));
    }
    let r = Request { args };
    assert(all.skip(1).take(n - 1) =~= all.skip(1));
    assert(arguments(r) =~= byte_seqs(args@));
    r
}

/// The reply to an introspection command out of the reports of the shards.
pub open spec fn merged_report(args: Seq<Seq<u8>>, replies: Seq<(usize, ReplyView)>) -> ValueModel {
    let sub = if args.len() > 1 {
        uppered(args[1])
    } else {
        Seq::empty()
    };
    if args.len() > 1 && (sub == encode_utf8("NUMSUB"@) || sub == encode_utf8("SHARDNUMSUB"@)) {
        ValueModel::Array(Some(numsub_items(args.skip(2), replies)))
    } else if args.len() > 1 && sub == encode_utf8("NUMPAT"@) {
        ValueModel::Integer(capped(distinct(all_reported(replies)).len()))
    } else {
        ValueModel::Array(Some(bulks(distinct(all_reported(replies)))))
    }
}

/// The reply to an introspection command out of the reports of the shards.
pub fn fan_out_pubsub(request: &Request, replies: &[(usize, ShardReply)]) -> (v: Value)
    ensures
        v.model() == merged_report(arguments(*request), replies_view(replies@)),
{
    let ghost args = arguments(*request);
    if request.args.len() > 1 {
        let sub = ascii_upper(request.args[1].as_slice());
        let word = sub.as_slice();
        if is_word(word, "NUMSUB") || is_word(word, "SHARDNUMSUB") {
            let rest = slice_subrange(request.args.as_slice(), 2, request.args.len());
            assert(rest@.map_values(|c: Vec<u8>| c@) =~= args.skip(2));
            return merge_pubsub_numsub(rest, replies);
        }
        if is_word(word, "NUMPAT") {
            return merge_pubsub_numpat(replies);
        }
    }
    merge_pubsub_channels(replies)
}

/// A change of a key that subscribers may hear of.
#[derive(Debug)]
pub struct KeyspaceEvent {
    /// Whether it is told on the channel of the key.
    pub keyspace: bool,
    /// Whether it is told on the channel of the event.
    pub keyevent: bool,
    /// The database.
    pub db: u32,
    /// The key.
    pub key: Vec<u8>,
    /// The name of the event.
    pub event: Vec<u8>,
    /// The channel of the key.
    pub keyspace_channel: Vec<u8>,
    /// The channel of the event.
    pub keyevent_channel: Vec<u8>,
}

/// A message to publish.
#[derive(Debug, PartialEq, Eq)]
pub struct Notice {
    /// The channel.
    pub channel: Vec<u8>,
    /// The message.
    pub payload: Vec<u8>,
    /// The database.
    pub db: u32,
}

/// The mathematical value of a message to publish.
pub open spec fn notice_view(n: Notice) -> (Seq<u8>, Seq<u8>, u32) {
    (n.channel@, n.payload@, n.db)
}

/// The messages of one change: the event on the channel of the key, then the key
/// on the channel of the event.
pub open spec fn event_notices(e: KeyspaceEvent) -> Seq<(Seq<u8>, Seq<u8>, u32)> {
    (if e.keyspace {
        seq![(e.keyspace_channel@, e.event@, e.db)]
    } else {
        Seq::empty()
    }) + (if e.keyevent {
        seq![(e.keyevent_channel@, e.key@, e.db)]
    } else {
        Seq::empty()
    })
}

/// The messages of changes, in their order.
pub open spec fn all_notices(events: Seq<KeyspaceEvent>) -> Seq<(Seq<u8>, Seq<u8>, u32)>
    decreases events.len(),
{
    if events.len() == 0 {
        Seq::empty()
    } else {
        all_notices(events.drop_last()) + event_notices(events.last())
    }
}

/// The messages that changes give rise to, in their order.
pub fn publish_pending_keyspace_events(events: &[KeyspaceEvent]) -> (r: Vec<Notice>)
    ensures
        r@.map_values(|n: Notice| notice_view(n)) == all_notices(events@),
{
    let mut r: Vec<Notice> = Vec::new();
    assert(r@.map_values(|n: Notice| notice_view(n)) =~= all_notices(events@.take(0)));
    for i in 0..events.len()
        invariant
            r@.map_values(|n: Notice| notice_view(n)) == all_notices(events@.take(i as int)),
    {
        let ghost before = r@.map_values(|n: Notice| notice_view(n));
        let e = &events[i];
        assert(events@.take(i as int + 1).drop_last() =~= events@.take(i as int));
        if e.keyspace {
            r.push(
                Notice {
                    channel: copy_bytes(e.keyspace_channel.as_slice()),
                    payload: copy_bytes(e.event.as_slice()),
                    db: e.db,
                },
            );
        }
        if e.keyevent {
            r.push(
                Notice {
                    channel: copy_bytes(e.keyevent_channel.as_slice()),
                    payload: copy_bytes(e.key.as_slice()),
                    db: e.db,
                },
            );
        }
        assert(r@.map_values(|n: Notice| notice_view(n)) =~= before + event_notices(*e));
    }
    assert(events@.take(events@.len() as int) =~= events@);
    r
}

/// A shard reports each channel that was asked for with the number of its subscribers on
/// that shard, in the order of the request.
pub proof fn law_local_counts(t: Seq<Row<Subscriber>>, channels: Seq<Seq<u8>>, i: int)
    requires
        0 <= i < channels.len(),
    ensures
        local_counts(t, channels).len() == 2 * channels.len(),
        local_counts(t, channels)[2 * i] == ValueModel::Bulk(Some(channels[i])),
        local_counts(t, channels)[2 * i + 1] == ValueModel::Integer(
            capped(subs_of(t, channels[i]).len()),
        ),
    decreases channels.len(),
{
    let front = channels.drop_last();
    if front.len() == 0 {
        assert(local_counts(t, front).len() == 0);
    } else {
        law_local_counts(
            t,
            front,
            if i < front.len() {
                i
            } else {
                0
            },
        );
    }
}

/// What the shards report for a channel adds up to the number of its subscribers over
/// all their tables.
pub proof fn law_subscribers_are_counted_over_all_shards(
    tables: Seq<Seq<Row<Subscriber>>>,
    channels: Seq<Seq<u8>>,
    replies: Seq<(usize, ReplyView)>,
    i: int,
)
    requires
        channels.no_duplicates(),
        0 <= i < channels.len(),
        replies.len() == tables.len(),
        forall|k: int|
            0 <= k < tables.len() ==> (#[trigger] replies[k]).1.value == ValueModel::Array(
                Some(local_counts(tables[k], channels)),
            ),
    ensures
        numsub_items(channels, replies)[2 * i] == ValueModel::Bulk(Some(channels[i])),
        ({
            let sum = tables.map_values(
                |t: Seq<Row<Subscriber>>| capped(subs_of(t, channels[i]).len()) as int,
            ).fold_left(0int, |a: int, b: int| a + b);
            numsub_items(channels, replies)[2 * i + 1] == ValueModel::Integer(
                if sum <= i64::MAX {
                    sum as i64
                } else {
                    i64::MAX
                },
            )
        }),
{
    assert forall|k: int| 0 <= k < replies.len() implies counts_report(
        #[trigger] replies[k].1.value,
        channels,
    ) by {
        assert forall|j: int| 0 <= j < channels.len() implies local_counts(tables[k], channels)[2
            * j] == ValueModel::Bulk(Some(#[trigger] channels[j])) && (local_counts(
            tables[k],
            channels,
        )[2 * j + 1] matches ValueModel::Integer(n) && n >= 0) by {
            law_local_counts(tables[k], channels, j);
        }
        law_local_counts(tables[k], channels, i);
    }
    law_counts_are_merged_by_channel(channels, replies, i);
    let f = |r: (usize, ReplyView)| count_behind(r.1.value, channels[i]);
    let g = |t: Seq<Row<Subscriber>>| capped(subs_of(t, channels[i]).len()) as int;
    assert forall|k: int| 0 <= k < tables.len() implies replies.map_values(f)[k]
        == tables.map_values(g)[k] by {
        let items = local_counts(tables[k], channels);
        assert(replies[k].1.value == ValueModel::Array(Some(items)));
        law_local_counts(tables[k], channels, i);
        let name = ValueModel::Bulk(Some(channels[i]));
        assert forall|j: int| 0 <= j < 2 * i implies items[j] != name by {
            let q = j / 2;
            law_local_counts(tables[k], channels, q);
            if j == 2 * q {
                assert(channels[q] != channels[i]);
            } else {
                assert(j == 2 * q + 1);
            }
        }
        lemma_first_at_is(items, name, 2 * i);
    }
    assert(replies.map_values(f) =~= tables.map_values(g));
}

/// What a shard reports goes by the kind of the question: the channels or the shard
/// channels, their counts, or the patterns; the kind is read without regard to case, and
/// an unknown one gives an empty list.
pub proof fn law_reports_go_by_the_question<F: Fn(&[u8], &[u8]) -> bool>(
    glob: F,
    pubsub: ShardPubSub,
    request: Request,
    v: ValueModel,
)
    requires
        local_report(glob, pubsub, request, v),
        request.args@.len() >= 2,
    ensures
        ({
            let kind = uppered(request.args@[1]@);
            let rest = arguments(request).skip(2);
            &&& kind == encode_utf8("NUMSUB"@) ==> v == ValueModel::Array(
                Some(local_counts(pubsub.channels@, rest)),
            )
            &&& kind == encode_utf8("SHARDNUMSUB"@) ==> v == ValueModel::Array(
                Some(local_counts(pubsub.shard_channels@, rest)),
            )
            &&& kind == encode_utf8("NUMPAT"@) ==> v == ValueModel::Array(
                Some(bulks(names(pubsub.patterns@))),
            )
            &&& kind == encode_utf8("CHANNELS"@) && request.args@.len() == 2 ==> v
                == ValueModel::Array(Some(bulks(names(pubsub.channels@))))
            &&& kind == encode_utf8("SHARDCHANNELS"@) && request.args@.len() == 2 ==> v
                == ValueModel::Array(Some(bulks(names(pubsub.shard_channels@))))
        }),
{
    reveal_strlit("NUMSUB");
    reveal_strlit("SHARDNUMSUB");
    reveal_strlit("NUMPAT");
    reveal_strlit("CHANNELS");
    reveal_strlit("SHARDCHANNELS");
    encode_utf8_decode_utf8("NUMSUB"@);
    encode_utf8_decode_utf8("SHARDNUMSUB"@);
    encode_utf8_decode_utf8("NUMPAT"@);
    encode_utf8_decode_utf8("CHANNELS"@);
    encode_utf8_decode_utf8("SHARDCHANNELS"@);
    assert("NUMSUB"@[3] != "NUMPAT"@[3]);
    assert("CHANNELS"@.len() == 8 && "SHARDCHANNELS"@.len() == 13 && "SHARDNUMSUB"@.len() == 11
        && "NUMSUB"@.len() == 6);
}

/// A change of a key is told on the channel of the key, with the event, and on the
/// channel of the event, with the key, each where it is asked for, in that order, in the
/// database of the key.
pub proof fn law_keyspace_notices(events: Seq<KeyspaceEvent>, e: KeyspaceEvent)
    ensures
        all_notices(Seq::empty()).len() == 0,
        e.keyspace && e.keyevent ==> all_notices(events.push(e)) == all_notices(events).push(
            (e.keyspace_channel@, e.event@, e.db),
        ).push((e.keyevent_channel@, e.key@, e.db)),
        e.keyspace && !e.keyevent ==> all_notices(events.push(e)) == all_notices(events).push(
            (e.keyspace_channel@, e.event@, e.db),
        ),
        !e.keyspace && e.keyevent ==> all_notices(events.push(e)) == all_notices(events).push(
            (e.keyevent_channel@, e.key@, e.db),
        ),
        !e.keyspace && !e.keyevent ==> all_notices(events.push(e)) == all_notices(events),
{
    assert(events.push(e).drop_last() =~= events);
    let before = all_notices(events);
    let more = event_notices(e);
    if e.keyspace && e.keyevent {
        assert(before + more =~= before.push((e.keyspace_channel@, e.event@, e.db)).push(
            (e.keyevent_channel@, e.key@, e.db),
        ));
    } else if e.keyspace {
        assert(before + more =~= before.push((e.keyspace_channel@, e.event@, e.db)));
    } else if e.keyevent {
        assert(before + more =~= before.push((e.keyevent_channel@, e.key@, e.db)));
    } else {
        assert(before + more =~= before);
    }
}

/// A published message is delivered to the subscribers of its channel as such, and then
/// by pattern; its receivers are those of both, a connection that is both counted twice.
pub proof fn law_publish_counts_both_ways<F: Fn(&[u8], &[u8]) -> bool>(
    glob: F,
    pre: ShardPubSub,
    channel: Seq<u8>,
    payload: Seq<u8>,
    post: ShardPubSub,
    n: i64,
)
    requires
        pre.wf(),
        published(glob, pre, channel, payload, post, n),
    ensures
        ({
            let events = post.log@.skip(pre.log@.len() as int);
            &&& pre.log@.len() <= post.log@.len()
            &&& forall|conn: u64, to: Subscriber| #[trigger]
                subs_of(pre.channels@, channel).contains((conn, to)) ==> reached_by(
                    events,
                    conn,
                    to,
                    PushModel::Message { channel, payload },
                )
            &&& events.filter(|e: PushEvent| is_taken(e)).len() <= i64::MAX ==> n == events.filter(
                |e: PushEvent| is_taken(e),
            ).len()
        }),
{
    let (log, a, b) = choose|log: Seq<PushEvent>, a: i64, b: i64|
        {
            &&& #[trigger] delivered(
                pre.channels@,
                pre.log@,
                channel,
                PushModel::Message { channel, payload },
                post.channels@,
                log,
                a,
            )
            &&& #[trigger] told_by_pattern(
                glob,
                pre.patterns@,
                log,
                channel,
                payload,
                post.patterns@,
                post.log@,
                b,
            )
            &&& n == saturated(a, b)
        };
    let push = PushModel::Message { channel, payload };
    law_delivery_reaches_only_subscribers(
        pre.channels@,
        pre.log@,
        channel,
        push,
        post.channels@,
        log,
        a,
    );
    law_delivery_reaches_every_subscriber(
        pre.channels@,
        pre.log@,
        channel,
        push,
        post.channels@,
        log,
        a,
        channel,
    );
    let verdicts = choose|verdicts: Seq<bool>| #[trigger]
        judged_names(glob, pre.patterns@, channel, verdicts) && delivered_patterns(
            pre.patterns@,
            log,
            verdicts,
            channel,
            payload,
            post.patterns@,
            post.log@,
            b,
        );
    law_patterns_reach_every_match(
        pre.patterns@,
        log,
        verdicts,
        channel,
        payload,
        post.patterns@,
        post.log@,
        b,
    );
    let x = log.skip(pre.log@.len() as int);
    let y = post.log@.skip(log.len() as int);
    let events = post.log@.skip(pre.log@.len() as int);
    let pred = |e: PushEvent| is_taken(e);
    let rounds = choose|rounds: Seq<Seq<SendOutcome>>|
        {
            &&& #[trigger] rounds_fit(pre.patterns@, verdicts, rounds)
            &&& post.patterns@ == rows_after(pre.patterns@, verdicts, rounds)
            &&& post.log@ == log + pattern_events(
                pre.patterns@,
                verdicts,
                rounds,
                channel,
                payload,
            )
            &&& b == capped(total_sent(rounds))
        };
    assert(post.log@ == log + pattern_events(pre.patterns@, verdicts, rounds, channel, payload));
    assert(events =~= x + y);
    Seq::filter_distributes_over_add(x, y, pred);
    assert forall|conn: u64, to: Subscriber| #[trigger]
        subs_of(pre.channels@, channel).contains((conn, to)) implies reached_by(
        events,
        conn,
        to,
        push,
    ) by {
        let sent = PushEvent::Offered { conn, to, push, outcome: SendOutcome::Sent };
        let shed = PushEvent::Tripped { conn, to };
        let e = if x.contains(sent) {
            sent
        } else {
            shed
        };
        let k = choose|k: int| 0 <= k < x.len() && x[k] == e;
        assert(events[k] == e);
        assert(events.contains(e));
    }
}

/// Whether a connection took a push, or was told that it is shed.
pub open spec fn reached_by(
    events: Seq<PushEvent>,
    conn: u64,
    to: Subscriber,
    push: PushModel,
) -> bool {
    ||| events.contains(PushEvent::Offered { conn, to, push, outcome: SendOutcome::Sent })
    ||| events.contains(PushEvent::Tripped { conn, to })
}

/// The reply to a question about subscriptions: counts by channel, how many patterns there
/// are, or the names that any shard reported, each of them once.
pub proof fn law_merged_reports_go_by_the_question(
    kind: Seq<u8>,
    args: Seq<Seq<u8>>,
    replies: Seq<(usize, ReplyView)>,
)
    requires
        args.len() >= 2,
        kind == uppered(args[1]),
    ensures
        kind == encode_utf8("NUMSUB"@) || kind == encode_utf8("SHARDNUMSUB"@) ==> merged_report(
            args,
            replies,
        ) == ValueModel::Array(Some(numsub_items(args.skip(2), replies))),
        kind == encode_utf8("NUMPAT"@) ==> (merged_report(args, replies)
            matches ValueModel::Integer(n) && (distinct(all_reported(replies)).len() <= i64::MAX
            ==> n == distinct(all_reported(replies)).len())),
        kind == encode_utf8("CHANNELS"@) || kind == encode_utf8("SHARDCHANNELS"@) ==> (
        merged_report(args, replies) matches ValueModel::Array(Some(items)) && items.len()
            == distinct(all_reported(replies)).len() && forall|i: int|
            0 <= i < items.len() ==> #[trigger] items[i] == ValueModel::Bulk(
                Some(distinct(all_reported(replies))[i]),
            )),
{
    reveal_strlit("NUMSUB");
    reveal_strlit("SHARDNUMSUB");
    reveal_strlit("NUMPAT");
    reveal_strlit("CHANNELS");
    reveal_strlit("SHARDCHANNELS");
    encode_utf8_decode_utf8("NUMSUB"@);
    encode_utf8_decode_utf8("SHARDNUMSUB"@);
    encode_utf8_decode_utf8("NUMPAT"@);
    encode_utf8_decode_utf8("CHANNELS"@);
    encode_utf8_decode_utf8("SHARDCHANNELS"@);
    assert("NUMSUB"@[3] != "NUMPAT"@[3]);
    assert("CHANNELS"@.len() == 8 && "SHARDCHANNELS"@.len() == 13 && "SHARDNUMSUB"@.len() == 11
        && "NUMSUB"@.len() == 6 && "NUMPAT"@.len() == 6);
}

/// A message is offered under a pattern to all its subscribers where the matcher, given
/// the pattern and then the channel, said yes; else it said no.
pub proof fn law_messages_go_by_pattern<F: Fn(&[u8], &[u8]) -> bool>(
    glob: F,
    pre: Seq<Row<Subscriber>>,
    pre_log: Seq<PushEvent>,
    channel: Seq<u8>,
    payload: Seq<u8>,
    post: Seq<Row<Subscriber>>,
    post_log: Seq<PushEvent>,
    n: i64,
    i: int,
    j: int,
)
    requires
        told_by_pattern(glob, pre, pre_log, channel, payload, post, post_log, n),
        0 <= i < pre.len(),
        0 <= j < pre[i].subs.len(),
    ensures
        offered_in(
            post_log.skip(pre_log.len() as int),
            pre[i].subs[j].0,
            pre[i].subs[j].1,
            PushModel::PMessage { pattern: pre[i].name, channel, payload },
        ) || exists|p: &[u8], t: &[u8]|
            p@ == pre[i].name && t@ == channel && #[trigger] call_ensures(glob, (p, t), false),
{
    let verdicts = choose|verdicts: Seq<bool>| #[trigger]
        judged_names(glob, pre, channel, verdicts) && delivered_patterns(
            pre,
            pre_log,
            verdicts,
            channel,
            payload,
            post,
            post_log,
            n,
        );
    law_patterns_reach_every_match(
        pre,
        pre_log,
        verdicts,
        channel,
        payload,
        post,
        post_log,
        n,
    );
    assert(judged(glob, pre[i].name, channel, verdicts[i]));
    let sub = pre[i].subs[j];
    assert(sub == pre[i].subs[j]);
}

/// The names that a shard reports for a pattern are those that the filter lets through,
/// each as a bulk string.
pub proof fn law_reported_names<F: Fn(&[u8], &[u8]) -> bool>(
    glob: F,
    t: Seq<Row<Subscriber>>,
    pat: Option<Vec<u8>>,
    v: ValueModel,
    j: int,
)
    requires
        names_report(glob, t, pat, v),
    ensures
        v matches ValueModel::Array(Some(items)) && (0 <= j < items.len() ==> (items[j]
            matches ValueModel::Bulk(Some(name)) && (exists|k: int|
            0 <= k < t.len() && (#[trigger] t[k]).name == name) && (pat matches Some(p) ==> exists|
            a: &[u8],
            b: &[u8],
        |
            a@ == p@ && b@ == name && #[trigger] call_ensures(glob, (a, b), true)))),
        pat is None ==> (v matches ValueModel::Array(Some(items)) && items.len() == t.len()),
{
    let (p, result) = choose|p: Option<&[u8]>, result: Seq<Seq<u8>>|
        {
            &&& opt_view(p) == opt_bytes(pat)
            &&& #[trigger] filtered(t, p, glob, result)
            &&& v == ValueModel::Array(Some(bulks(result)))
        };
    let items = bulks(result);
    if t.len() > 0 {
        crate::pubsub::law_listed_names_match(t, p, glob, result, 0);
        if 0 <= j < items.len() {
            assert(items[j] == ValueModel::Bulk(Some(result[j])));
            assert(result[j] == result[j]);
        }
    } else {
        assert(result.len() == 0);
    }
}

/// A message to publish is its channel, its payload and its database.
pub proof fn law_view_of_a_notice(n: Notice)
    ensures
        notice_view(n) == (n.channel@, n.payload@, n.db),
{
}

} // verus!
