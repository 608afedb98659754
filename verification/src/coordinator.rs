//! What the home core makes of the replies of a cross-shard fan-out.
use vstd::prelude::*;
use vstd::utf8::encode_utf8;
use crate::bytes::{bytes_of, copy_bytes, same_bytes};
use crate::text::{first_at, lemma_first_at_is, same_str};
use crate::value::{arguments, values, ErrorReply, Request, Value, ValueModel};

verus! {

/// How many units of work a shard's inbox holds before a sender waits.
pub const INBOX_DEPTH: usize = 1024;

/// The text of the error that stands for a shard that cannot be reached.
pub const SHARD_UNAVAILABLE_MSG: &'static str = "cross-shard target unavailable";

/// The verb that delivers a message to the subscribers of a shard.
pub const ICPUBLISH: &'static str = "__ICPUBLISH";

/// The verb that delivers a message to the shard-channel subscribers of a shard.
pub const ICSPUBLISH: &'static str = "__ICSPUBLISH";

/// The verb that asks a shard about its subscriptions.
pub const ICPUBSUB: &'static str = "__ICPUBSUB";

/// The verb that asks a shard whether it holds a live key.
pub const ICEXISTS: &'static str = "__ICEXISTS";

/// The counters that a command moved on the shard that ran it.
#[derive(Debug, Clone, Copy, PartialEq, Eq, Structural)]
pub struct CounterDeltas {
    /// The keys that expired.
    pub expired: u64,
    /// Whether any other counter moved.
    pub moved: bool,
}

/// No counter moved.
pub open spec fn no_deltas() -> CounterDeltas {
    CounterDeltas { expired: 0, moved: false }
}

impl Default for CounterDeltas {
    /// No counter moved.
    fn default() -> (r: Self)
        ensures
            r == no_deltas(),
    {
        CounterDeltas { expired: 0, moved: false }
    }
}

/// The keys that a command expired lazily join its deltas; the flag says whether
/// there is anything to apply to the shard's counters.
pub fn fold_deltas(deltas: CounterDeltas, lazy_expired: u64) -> (r: (CounterDeltas, bool))
    requires
        deltas.expired + lazy_expired <= u64::MAX,
    ensures
        r.0.expired == deltas.expired + lazy_expired,
        r.0.moved == deltas.moved,
        r.1 == (r.0 != no_deltas()),
{
    let folded = CounterDeltas { expired: deltas.expired + lazy_expired, moved: deltas.moved };
    (folded, folded.expired != 0 || folded.moved)
}

/// The reply of a shard to one unit of work.
#[derive(Debug, PartialEq, Eq)]
pub struct ShardReply {
    /// The value to encode on the home core.
    pub value: Value,
    /// The counters that the command moved; the owning shard has applied them.
    pub deltas: CounterDeltas,
}

/// The mathematical value of a shard's reply.
pub struct ReplyView {
    /// The value.
    pub value: ValueModel,
    /// The deltas.
    pub deltas: CounterDeltas,
}

impl View for ShardReply {
    type V = ReplyView;

    open spec fn view(&self) -> ReplyView {
        ReplyView { value: self.value.model(), deltas: self.deltas }
    }
}

/// Replies by shard.
pub open spec fn replies_view(s: Seq<(usize, ShardReply)>) -> Seq<(usize, ReplyView)> {
    s.map_values(|p: (usize, ShardReply)| (p.0, p.1@))
}

/// The home shard's reply to its part of a command on keys: the value, and the
/// counters that the command moved with the keys that it expired. The flag says
/// whether there is anything to apply to the shard's counters.
pub fn run_local_keyed(value: Value, deltas: CounterDeltas, lazy_expired: u64) -> (r: (
    ShardReply,
    bool,
))
    requires
        deltas.expired + lazy_expired <= u64::MAX,
    ensures
        r.0.value == value,
        r.0.deltas == (CounterDeltas {
            expired: (deltas.expired + lazy_expired) as u64,
            moved: deltas.moved,
        }),
        r.1 == (r.0.deltas != no_deltas()),
{
    let (folded, moved) = fold_deltas(deltas, lazy_expired);
    (ShardReply { value, deltas: folded }, moved)
}

/// The home shard's reply to its part of a command over all keys, which moves no
/// counter, and what the keys that it expired add to the shard's counters.
pub fn run_local_whole_keyspace(value: Value, lazy_expired: u64) -> (r: (
    ShardReply,
    Option<CounterDeltas>,
))
    ensures
        r.0.value == value,
        r.0.deltas == no_deltas(),
        r.1 == (if lazy_expired > 0 {
            Some(CounterDeltas { expired: lazy_expired, moved: false })
        } else {
            None
        }),
{
    let reply = ShardReply { value, deltas: CounterDeltas::default() };
    if lazy_expired > 0 {
        (reply, Some(CounterDeltas { expired: lazy_expired, moved: false }))
    } else {
        (reply, None)
    }
}

/// The value that stands for a shard that cannot be reached.
pub open spec fn unavailable() -> ValueModel {
    ValueModel::Error(SHARD_UNAVAILABLE_MSG@)
}

/// The reply that stands for a shard that cannot be reached.
pub open spec fn unavailable_reply() -> ReplyView {
    ReplyView { value: unavailable(), deltas: no_deltas() }
}

/// The error that stands for a shard that cannot be reached.
pub fn shard_unavailable_error() -> (r: ErrorReply)
    ensures
        r.message@ == SHARD_UNAVAILABLE_MSG@,
{
    ErrorReply::err(SHARD_UNAVAILABLE_MSG)
}

/// The reply that stands for a shard that cannot be reached.
pub fn shard_unavailable_reply() -> (r: ShardReply)
    ensures
        r@ == unavailable_reply(),
{
    ShardReply {
        value: Value::error(shard_unavailable_error()),
        deltas: CounterDeltas { expired: 0, moved: false },
    }
}

/// Whether an error only says that a shard cannot be reached.
pub fn is_shard_unavailable(e: &ErrorReply) -> (r: bool)
    ensures
        r == (e.message@ == SHARD_UNAVAILABLE_MSG@),
{
    same_str(e.message.as_str(), SHARD_UNAVAILABLE_MSG)
}

/// How a hop to another shard ended.
#[derive(Debug)]
pub enum HopEnd {
    /// The shard's inbox took no work: nothing was sent.
    Refused,
    /// The shard answered.
    Answered(ShardReply),
    /// The work was sent, and the shard went away before it answered.
    Lost,
}

/// What a hop contributes.
pub open spec fn hop_reply(h: HopEnd) -> ReplyView {
    match h {
        HopEnd::Answered(r) => r@,
        _ => unavailable_reply(),
    }
}

/// The value that a hop to one shard brings back.
pub fn dispatch_one_value(end: HopEnd) -> (v: Value)
    ensures
        v.model() == hop_reply(end).value,
{
    match end {
        HopEnd::Answered(r) => r.value,
        _ => Value::error(shard_unavailable_error()),
    }
}

/// The value that the home core encodes for a hop.
pub fn finish_hop(end: HopEnd) -> (v: Value)
    ensures
        v.model() == hop_reply(end).value,
{
    dispatch_one_value(end)
}

/// The reply that a hop contributes to a fan-out.
pub fn gathered_reply(end: HopEnd) -> (r: ShardReply)
    ensures
        r@ == hop_reply(end),
{
    match end {
        HopEnd::Answered(r) => r,
        _ => shard_unavailable_reply(),
    }
}

/// The request that asks the owner of a key whether the key is there.
pub fn presence_request(key: &[u8]) -> (r: Request)
    ensures
        arguments(r) == seq![encode_utf8(ICEXISTS@), key@],
{
    let mut args: Vec<Vec<u8>> = Vec::new();
    args.push(bytes_of(ICEXISTS));
    args.push(copy_bytes(key));
    let r = Request { args };
    assert(arguments(r) =~= seq![encode_utf8(ICEXISTS@), key@]);
    r
}

/// Whether the owner said that the key is there. A shard that cannot be reached
/// counts as one that does not hold it.
pub fn presence_via(end: &HopEnd) -> (r: bool)
    ensures
        r == (hop_reply(*end).value == ValueModel::Integer(1)),
{
    match end {
        HopEnd::Answered(ShardReply { value: Value::Integer(n), .. }) => *n == 1,
        _ => false,
    }
}

/// The shards that a broadcast is sent to: all but the home shard, in order.
pub open spec fn targets(n: nat, home: nat) -> Seq<nat> {
    Seq::new(
        if home < n {
            (n - 1) as nat
        } else {
            n
        },
        |k: int|
            if k < home {
                k as nat
            } else {
                (k + 1) as nat
            },
    )
}

/// The shards that a broadcast is sent to.
pub fn fan_out_targets(n: usize, home: usize) -> (v: Vec<usize>)
    ensures
        v@.len() == targets(n as nat, home as nat).len(),
        forall|k: int| 0 <= k < v@.len() ==> #[trigger] v@[k] == targets(n as nat, home as nat)[k],
{
    let mut v: Vec<usize> = Vec::new();
    for shard in 0..n
        invariant
            v@.len() == (if shard <= home {
                shard as int
            } else {
                shard - 1
            }),
            v@.len() <= targets(n as nat, home as nat).len(),
            forall|k: int|
                0 <= k < v@.len() ==> #[trigger] v@[k] == targets(n as nat, home as nat)[k],
    {
        if shard != home {
            v.push(shard);
        }
    }
    v
}

/// The replies of a broadcast, by shard: the home shard's own reply in its place,
/// and what each hop contributed in the others.
pub open spec fn broadcast_replies(home: usize, local: ReplyView, ends: Seq<HopEnd>) -> Seq<
    (usize, ReplyView),
> {
    let at = if home <= ends.len() {
        home as int
    } else {
        ends.len() as int
    };
    Seq::new(
        ends.len() + 1,
        |i: int|
            if i < at {
                (i as usize, hop_reply(ends[i]))
            } else if i == at {
                (home, local)
            } else {
                (i as usize, hop_reply(ends[i - 1]))
            },
    )
}

/// The replies of a broadcast to `n` shards, sorted by shard. `ends` says how the
/// hop to each of the other shards ended, in the order of the shards.
pub fn fan_out_all(n: usize, home: usize, local: ShardReply, ends: Vec<HopEnd>) -> (r: Vec<
    (usize, ShardReply),
>)
    requires
        ends@.len() == targets(n as nat, home as nat).len(),
    ensures
        replies_view(r@) == broadcast_replies(home, local@, ends@),
{
    let ghost all = ends@;
    let ghost own = local@;
    let mut ends = ends;
    let mut local = Some(local);
    let mut r: Vec<(usize, ShardReply)> = Vec::new();
    let mut shard: usize = 0;
    while ends.len() > 0
        invariant
            all.len() == targets(n as nat, home as nat).len(),
            shard <= n,
            r@.len() == shard,
            local is Some <==> shard <= home,
            local matches Some(l) ==> l@ == own,
            ends@.len() + shard == all.len() + (if shard <= home {
                0int
            } else {
                1int
            }),
            ends@ == all.skip(all.len() - ends@.len()),
            forall|k: int|
                0 <= k < shard ==> (#[trigger] replies_view(r@)[k]) == broadcast_replies(
                    home,
                    own,
                    all,
                )[k],
        decreases ends@.len() + (if shard <= home {
            1int
        } else {
            0int
        }),
    {
        let ghost before = r@;
        if shard == home {
            match local {
                Some(l) => {
                    r.push((home, l));
                },
                None => {},
            }
            local = None;
        } else {
            let end = ends.remove(0);
            r.push((shard, gathered_reply(end)));
        }
        assert(replies_view(r@) =~= replies_view(before).push(
            broadcast_replies(home, own, all)[shard as int],
        ));
        shard += 1;
    }
    let ghost before = r@;
    match local {
        Some(l) => {
            r.push((home, l));
            assert(replies_view(r@) =~= replies_view(before).push((home, own)));
        },
        None => {},
    }
    assert(replies_view(r@) =~= broadcast_replies(home, own, all));
    r
}

/// A broadcast reaches every shard once: the replies are sorted by shard, and the
/// home shard's own reply stands at its place.
pub proof fn law_broadcast_covers_every_shard(n: usize, home: usize, local: ReplyView, ends: Seq<
    HopEnd,
>)
    requires
        home < n,
        ends.len() == targets(n as nat, home as nat).len(),
    ensures
        broadcast_replies(home, local, ends).len() == n,
        forall|i: int|
            0 <= i < n ==> (#[trigger] broadcast_replies(home, local, ends)[i]).0 == i,
        broadcast_replies(home, local, ends)[home as int].1 == local,
        forall|k: int|
            0 <= k < ends.len() ==> broadcast_replies(home, local, ends)[#[trigger] targets(
                n as nat,
                home as nat,
            )[k] as int].1 == hop_reply(ends[k]),
{
}

/// Every shard but one.
pub open spec fn other_than(home: usize) -> spec_fn(usize) -> bool {
    |s: usize| s != home
}

/// The shards of a split fan-out that the home core sends to.
pub open spec fn remote_shards(shards: Seq<usize>, home: usize) -> Seq<usize> {
    shards.filter(other_than(home))
}

/// The shards of a split fan-out that the home core sends to.
pub fn split_targets(shards: &[usize], home: usize) -> (v: Vec<usize>)
    ensures
        v@ == remote_shards(shards@, home),
{
    let mut v: Vec<usize> = Vec::new();
    assert(shards@.take(0) =~= Seq::<usize>::empty());
    for i in 0..shards.len()
        invariant
            v@ == remote_shards(shards@.take(i as int), home),
    {
        let ghost part = shards@.take(i as int + 1);
        proof {
            assert(part.drop_last() =~= shards@.take(i as int));
            assert(part.last() == shards@[i as int]);
            reveal(Seq::filter);
        }
        if shards[i] != home {
            v.push(shards[i]);
        }
    }
    assert(shards@.take(shards@.len() as int) =~= shards@);
    v
}

/// The shards that took no work, each as one that cannot be reached.
pub open spec fn refused_part(targets: Seq<usize>, ends: Seq<HopEnd>) -> Seq<(usize, ReplyView)>
    decreases ends.len(),
{
    if ends.len() == 0 {
        Seq::empty()
    } else {
        let rest = refused_part(targets.drop_last(), ends.drop_last());
        if ends.last() is Refused {
            rest.push((targets.last(), unavailable_reply()))
        } else {
            rest
        }
    }
}

/// The shards that took work, each with what it contributed.
pub open spec fn sent_part(targets: Seq<usize>, ends: Seq<HopEnd>) -> Seq<(usize, ReplyView)>
    decreases ends.len(),
{
    if ends.len() == 0 {
        Seq::empty()
    } else {
        let rest = sent_part(targets.drop_last(), ends.drop_last());
        if ends.last() is Refused {
            rest
        } else {
            rest.push((targets.last(), hop_reply(ends.last())))
        }
    }
}

/// The replies of a split fan-out: first the shards that took no work, then the
/// home shard where it has a part, then the shards that were sent to.
pub open spec fn split_replies(
    home: usize,
    local: Option<ReplyView>,
    targets: Seq<usize>,
    ends: Seq<HopEnd>,
) -> Seq<(usize, ReplyView)> {
    refused_part(targets, ends) + (match local {
        Some(l) => seq![(home, l)],
        None => Seq::empty(),
    }) + sent_part(targets, ends)
}

/// The mathematical value of an optional reply.
pub open spec fn opt_reply(r: Option<ShardReply>) -> Option<ReplyView> {
    match r {
        Some(l) => Some(l@),
        None => None,
    }
}

/// The replies of a split fan-out. `ends` says how the hop to each of `targets`
/// ended; `local` is the home shard's own reply where it had a part.
pub fn fan_out_split(
    home: usize,
    local: Option<ShardReply>,
    targets: &[usize],
    ends: Vec<HopEnd>,
) -> (r: Vec<(usize, ShardReply)>)
    requires
        targets@.len() == ends@.len(),
    ensures
        replies_view(r@) == split_replies(home, opt_reply(local), targets@, ends@),
{
    let ghost all = ends@;
    let ghost own = opt_reply(local);
    let mut r: Vec<(usize, ShardReply)> = Vec::new();
    assert(replies_view(r@) =~= refused_part(targets@.take(0), all.take(0)));
    for i in 0..ends.len()
        invariant
            all == ends@,
            targets@.len() == ends@.len(),
            replies_view(r@) == refused_part(targets@.take(i as int), all.take(i as int)),
    {
        let ghost before = r@;
        proof {
            assert(targets@.take(i as int + 1).drop_last() =~= targets@.take(i as int));
            assert(all.take(i as int + 1).drop_last() =~= all.take(i as int));
        }
        match ends[i] {
            HopEnd::Refused => {
                r.push((targets[i], shard_unavailable_reply()));
                assert(replies_view(r@) =~= replies_view(before).push(
                    (targets@[i as int], unavailable_reply()),
                ));
            },
            _ => {},
        }
    }
    proof {
        assert(targets@.take(targets@.len() as int) =~= targets@);
        assert(all.take(all.len() as int) =~= all);
    }
    let ghost first = replies_view(r@);
    let ghost home_part: Seq<(usize, ReplyView)> = match own {
        Some(l) => seq![(home, l)],
        None => Seq::empty(),
    };
    match local {
        Some(l) => {
            let ghost before = r@;
            r.push((home, l));
            assert(replies_view(r@) =~= replies_view(before).push((home, l@)));
        },
        None => {},
    }
    assert(replies_view(r@) =~= first + home_part);
    let mut ends = ends;
    let mut i: usize = 0;
    assert(first + home_part =~= first + home_part + sent_part(targets@.take(0), all.take(0)));
    while i < targets.len()
        invariant
            i <= targets@.len(),
            targets@.len() == all.len(),
            ends@ == all.skip(i as int),
            replies_view(r@) == first + home_part + sent_part(
                targets@.take(i as int),
                all.take(i as int),
            ),
        decreases targets@.len() - i,
    {
        let ghost before = r@;
        proof {
            assert(targets@.take(i as int + 1).drop_last() =~= targets@.take(i as int));
            assert(all.take(i as int + 1).drop_last() =~= all.take(i as int));
        }
        let end = ends.remove(0);
        match end {
            HopEnd::Refused => {},
            _ => {
                r.push((targets[i], gathered_reply(end)));
                assert(replies_view(r@) =~= replies_view(before).push(
                    (targets@[i as int], hop_reply(all[i as int])),
                ));
                assert(replies_view(r@) =~= first + home_part + sent_part(
                    targets@.take(i as int + 1),
                    all.take(i as int + 1),
                ));
            },
        }
        i += 1;
    }
    proof {
        assert(targets@.take(targets@.len() as int) =~= targets@);
        assert(all.take(all.len() as int) =~= all);
    }
    r
}

/// The replies of a save fan-out, gathered as those of any split fan-out.
pub fn fan_out_save(
    home: usize,
    local: Option<ShardReply>,
    targets: &[usize],
    ends: Vec<HopEnd>,
) -> (r: Vec<(usize, ShardReply)>)
    requires
        targets@.len() == ends@.len(),
    ensures
        replies_view(r@) == split_replies(home, opt_reply(local), targets@, ends@),
{
    fan_out_split(home, local, targets, ends)
}

/// How many subscribers a shard's delivery reached: its integer, or none.
pub open spec fn publish_count_of(v: ValueModel) -> i64 {
    match v {
        ValueModel::Integer(n) => n,
        _ => 0,
    }
}

/// How many subscribers a shard's delivery reached.
pub fn publish_count(value: &Value) -> (n: i64)
    ensures
        n == publish_count_of(value.model()),
{
    match value {
        Value::Integer(n) => *n,
        _ => 0,
    }
}

/// How many subscribers the deliveries of other shards reached.
pub open spec fn remote_count(ends: Seq<HopEnd>) -> int
    decreases ends.len(),
{
    if ends.len() == 0 {
        0
    } else {
        remote_count(ends.drop_last()) + publish_count_of(hop_reply(ends.last()).value)
    }
}

/// The request that every shard gets for a published message.
pub fn publish_request(verb: &str, channel: &[u8], payload: &[u8]) -> (r: Request)
    ensures
        arguments(r) == seq![encode_utf8(verb@), channel@, payload@],
{
    let mut args: Vec<Vec<u8>> = Vec::new();
    args.push(bytes_of(verb));
    args.push(copy_bytes(channel));
    args.push(copy_bytes(payload));
    let r = Request { args };
    assert(arguments(r) =~= seq![encode_utf8(verb@), channel@, payload@]);
    r
}

/// How many subscribers a published message reached: those of the home shard and
/// those of every shard that answered.
pub fn fan_out_publish(local: &Value, ends: &[HopEnd]) -> (total: i64)
    requires
        forall|k: int|
            0 <= k <= ends@.len() ==> i64::MIN <= publish_count_of(local.model()) + #[trigger]
                remote_count(ends@.take(k)) <= i64::MAX,
    ensures
        total == publish_count_of(local.model()) + remote_count(ends@),
{
    let mut total: i64 = publish_count(local);
    assert(remote_count(ends@.take(0)) == 0);
    for i in 0..ends.len()
        invariant
            forall|k: int|
                0 <= k <= ends@.len() ==> i64::MIN <= publish_count_of(local.model())
                    + #[trigger] remote_count(ends@.take(k)) <= i64::MAX,
            total == publish_count_of(local.model()) + remote_count(ends@.take(i as int)),
    {
        assert(ends@.take(i as int + 1).drop_last() =~= ends@.take(i as int));
        assert(remote_count(ends@.take(i as int + 1)) == remote_count(ends@.take(i as int))
            + publish_count_of(hop_reply(ends@[i as int]).value));
        match &ends[i] {
            HopEnd::Answered(reply) => {
                total = total + publish_count(&reply.value);
            },
            _ => {},
        }
    }
    assert(ends@.take(ends@.len() as int) =~= ends@);
    total
}

/// How many subscribers a message to a shard channel reached, counted as those of any
/// published message.
pub fn fan_out_spublish(local: &Value, ends: &[HopEnd]) -> (total: i64)
    requires
        forall|k: int|
            0 <= k <= ends@.len() ==> i64::MIN <= publish_count_of(local.model()) + #[trigger]
                remote_count(ends@.take(k)) <= i64::MAX,
    ensures
        total == publish_count_of(local.model()) + remote_count(ends@),
{
    fan_out_publish(local, ends)
}

/// The names among the items of an array.
pub open spec fn bulk_names(items: Seq<ValueModel>) -> Seq<Seq<u8>>
    decreases items.len(),
{
    if items.len() == 0 {
        Seq::empty()
    } else {
        match items.last() {
            ValueModel::Bulk(Some(b)) => bulk_names(items.drop_last()).push(b),
            _ => bulk_names(items.drop_last()),
        }
    }
}

/// The names that a shard reported.
pub open spec fn reported(v: ValueModel) -> Seq<Seq<u8>> {
    match v {
        ValueModel::Array(Some(items)) => bulk_names(items),
        _ => Seq::empty(),
    }
}

/// The names that the shards reported, in the order of the replies.
pub open spec fn all_reported(replies: Seq<(usize, ReplyView)>) -> Seq<Seq<u8>>
    decreases replies.len(),
{
    if replies.len() == 0 {
        Seq::empty()
    } else {
        all_reported(replies.drop_last()) + reported(replies.last().1.value)
    }
}

/// The first occurrence of each element.
pub open spec fn distinct<T>(s: Seq<T>) -> Seq<T>
    decreases s.len(),
{
    if s.len() == 0 {
        Seq::empty()
    } else {
        let rest = distinct(s.drop_last());
        if rest.contains(s.last()) {
            rest
        } else {
            rest.push(s.last())
        }
    }
}

/// What `distinct` keeps: every element, each of them once.
pub proof fn lemma_distinct<T>(s: Seq<T>)
    ensures
        distinct(s).no_duplicates(),
        forall|x: T| #[trigger] distinct(s).contains(x) <==> s.contains(x),
        distinct(s).len() <= s.len(),
    decreases s.len(),
{
    if s.len() > 0 {
        let rest = distinct(s.drop_last());
        lemma_distinct(s.drop_last());
        assert forall|x: T| #[trigger] distinct(s).contains(x) <==> s.contains(x) by {
            if s.contains(x) {
                let i = choose|i: int| 0 <= i < s.len() && s[i] == x;
                if i < s.len() - 1 {
                    assert(s.drop_last()[i] == x);
                    assert(s.drop_last().contains(x));
                }
                if rest.contains(x) {
                    let j = choose|j: int| 0 <= j < rest.len() && rest[j] == x;
                    assert(distinct(s)[j] == x);
                } else {
                    assert(x == s.last());
                    assert(distinct(s).last() == x);
                }
            }
            if distinct(s).contains(x) {
                let j = choose|j: int| 0 <= j < distinct(s).len() && distinct(s)[j] == x;
                if j < rest.len() {
                    assert(rest[j] == x);
                    assert(rest.contains(x));
                    let i = choose|i: int|
                        0 <= i < s.drop_last().len() && s.drop_last()[i] == x;
                    assert(s[i] == x);
                } else {
                    assert(x == s.last());
                }
            }
        }
    }
}

proof fn lemma_all_reported(replies: Seq<(usize, ReplyView)>, name: Seq<u8>)
    ensures
        all_reported(replies).contains(name) <==> exists|i: int|
            0 <= i < replies.len() && #[trigger] reported(replies[i].1.value).contains(name),
    decreases replies.len(),
{
    if replies.len() > 0 {
        let rest = replies.drop_last();
        lemma_all_reported(rest, name);
        let front = all_reported(rest);
        let back = reported(replies.last().1.value);
        if all_reported(replies).contains(name) {
            let k = choose|k: int|
                0 <= k < all_reported(replies).len() && all_reported(replies)[k] == name;
            if k < front.len() {
                assert(front[k] == name);
                let i = choose|i: int|
                    0 <= i < rest.len() && #[trigger] reported(rest[i].1.value).contains(name);
                assert(reported(replies[i].1.value).contains(name));
            } else {
                assert(back[k - front.len()] == name);
                assert(reported(replies[replies.len() - 1].1.value).contains(name));
            }
        }
        if exists|i: int|
            0 <= i < replies.len() && #[trigger] reported(replies[i].1.value).contains(name) {
            let i = choose|i: int|
                0 <= i < replies.len() && #[trigger] reported(replies[i].1.value).contains(name);
            if i < rest.len() {
                assert(reported(rest[i].1.value).contains(name));
                let k = choose|k: int| 0 <= k < front.len() && front[k] == name;
                assert(all_reported(replies)[k] == name);
            } else {
                let k = choose|k: int| 0 <= k < back.len() && back[k] == name;
                assert(all_reported(replies)[front.len() + k] == name);
            }
        }
    }
}

/// The merged list of channels names each channel that any shard reports, and
/// names it once.
pub proof fn law_channels_are_the_union(replies: Seq<(usize, ReplyView)>)
    ensures
        distinct(all_reported(replies)).no_duplicates(),
        forall|name: Seq<u8>| #[trigger]
            distinct(all_reported(replies)).contains(name) <==> exists|i: int|
                0 <= i < replies.len() && #[trigger] reported(replies[i].1.value).contains(name),
{
    lemma_distinct(all_reported(replies));
    assert forall|name: Seq<u8>| #[trigger]
        distinct(all_reported(replies)).contains(name) <==> exists|i: int|
            0 <= i < replies.len() && #[trigger] reported(replies[i].1.value).contains(name) by {
        lemma_all_reported(replies, name);
    }
}

/// Whether a name is among others.
fn has_name(names: &Vec<Vec<u8>>, name: &[u8]) -> (r: bool)
    ensures
        r == names@.map_values(|v: Vec<u8>| v@).contains(name@),
{
    let ghost seen = names@.map_values(|v: Vec<u8>| v@);
    for i in 0..names.len()
        invariant
            seen == names@.map_values(|v: Vec<u8>| v@),
            forall|k: int| 0 <= k < i ==> #[trigger] seen[k] != name@,
    {
        if same_bytes(names[i].as_slice(), name) {
            assert(seen[i as int] == name@);
            return true;
        }
        assert(seen[i as int] != name@);
    }
    false
}

/// The distinct names that the shards reported.
fn distinct_names(replies: &[(usize, ShardReply)]) -> (names: Vec<Vec<u8>>)
    ensures
        names@.map_values(|v: Vec<u8>| v@) == distinct(all_reported(replies_view(replies@))),
{
    let mut names: Vec<Vec<u8>> = Vec::new();
    let ghost view = replies_view(replies@);
    assert(all_reported(view.take(0)) =~= Seq::<Seq<u8>>::empty());
    assert(names@.map_values(|v: Vec<u8>| v@) =~= distinct(all_reported(view.take(0))));
    for i in 0..replies.len()
        invariant
            view == replies_view(replies@),
            names@.map_values(|v: Vec<u8>| v@) == distinct(all_reported(view.take(i as int))),
    {
        let ghost before = all_reported(view.take(i as int));
        proof {
            assert(view.take(i as int + 1).drop_last() =~= view.take(i as int));
            assert(view.take(i as int + 1).last() == view[i as int]);
            assert(view[i as int].1 == replies@[i as int].1@);
        }
        match &replies[i].1.value {
            Value::Array(Some(items)) => {
                let ghost models = values(items@);
                proof {
                    crate::value::lemma_values(items@);
                    assert(before + bulk_names(models.take(0)) =~= before);
                }
                for j in 0..items.len()
                    invariant
                        models == values(items@),
                        models.len() == items@.len(),
                        forall|k: int|
                            0 <= k < items@.len() ==> #[trigger] models[k] == items@[k].model(),
                        names@.map_values(|v: Vec<u8>| v@) == distinct(
                            before + bulk_names(models.take(j as int)),
                        ),
                {
                    let ghost old_names = names@;
                    let ghost so_far = before + bulk_names(models.take(j as int));
                    proof {
                        assert(models.take(j as int + 1).drop_last() =~= models.take(j as int));
                        assert(models.take(j as int + 1).last() == models[j as int]);
                    }
                    match &items[j] {
                        Value::BulkString(Some(name)) => {
                            proof {
                                assert(before + bulk_names(models.take(j as int + 1))
                                    =~= so_far.push(name@));
                                assert(so_far.push(name@).drop_last() =~= so_far);
                            }
                            if !has_name(&names, name.as_slice()) {
                                names.push(copy_bytes(name.as_slice()));
                                assert(names@.map_values(|v: Vec<u8>| v@)
                                    =~= old_names.map_values(|v: Vec<u8>| v@).push(name@));
                            }
                        },
                        _ => {},
                    }
                }
                assert(models.take(models.len() as int) =~= models);
            },
            _ => {
                assert(before + Seq::<Seq<u8>>::empty() =~= before);
            },
        }
    }
    assert(view.take(view.len() as int) =~= view);
    names
}

/// Bulk strings of names.
pub open spec fn bulks(names: Seq<Seq<u8>>) -> Seq<ValueModel> {
    names.map_values(|b: Seq<u8>| ValueModel::Bulk(Some(b)))
}

/// Names as bulk strings.
pub fn bulk_values(names: Vec<Vec<u8>>) -> (r: Vec<Value>)
    ensures
        values(r@) == bulks(names@.map_values(|v: Vec<u8>| v@)),
{
    let ghost all = names@.map_values(|v: Vec<u8>| v@);
    let mut names = names;
    let ghost total = names@;
    let mut r: Vec<Value> = Vec::new();
    assert(values(r@) =~= bulks(all.take(0)));
    let mut i: usize = 0;
    let n: usize = names.len();
    while i < n
        invariant
            n == total.len(),
            i <= n,
            all == total.map_values(|v: Vec<u8>| v@),
            names@ == total.skip(i as int),
            values(r@) == bulks(all.take(i as int)),
        decreases n - i,
    {
        let ghost before = r@;
        let name = names.remove(0);
        let v = Value::bulk(name);
        r.push(v);
        proof {
            crate::value::lemma_values_push(before, v);
            assert(bulks(all.take(i as int + 1)) =~= bulks(all.take(i as int)).push(v.model()));
        }
        i += 1;
    }
    assert(all.take(n as int) =~= all);
    r
}

/// The channels with a subscriber on any shard, each of them once.
pub fn merge_pubsub_channels(replies: &[(usize, ShardReply)]) -> (v: Value)
    ensures
        v.model() == ValueModel::Array(
            Some(bulks(distinct(all_reported(replies_view(replies@))))),
        ),
{
    Value::Array(Some(bulk_values(distinct_names(replies))))
}

/// A count as a reply holds it.
pub open spec fn capped(n: nat) -> i64 {
    if n <= i64::MAX {
        n as i64
    } else {
        i64::MAX
    }
}

/// A count as a reply holds it.
pub fn cap_count(n: usize) -> (r: i64)
    ensures
        r == capped(n as nat),
{
    if n as u64 <= i64::MAX as u64 {
        n as i64
    } else {
        i64::MAX
    }
}

/// How many patterns have a subscriber on any shard; a pattern on two shards is
/// one pattern.
pub fn merge_pubsub_numpat(replies: &[(usize, ShardReply)]) -> (v: Value)
    ensures
        v.model() == ValueModel::Integer(
            capped(distinct(all_reported(replies_view(replies@))).len()),
        ),
{
    let names = distinct_names(replies);
    proof {
        assert(names@.map_values(|v: Vec<u8>| v@).len() == names@.len());
    }
    Value::Integer(cap_count(names.len()))
}

/// A saturating sum.
pub open spec fn saturated(a: i64, b: i64) -> i64 {
    if a + b > i64::MAX {
        i64::MAX
    } else if a + b < i64::MIN {
        i64::MIN
    } else {
        (a + b) as i64
    }
}

/// A saturating sum.
pub fn add_saturating(a: i64, b: i64) -> (r: i64)
    ensures
        r == saturated(a, b),
{
    if b >= 0 {
        if a > i64::MAX - b {
            i64::MAX
        } else {
            a + b
        }
    } else if a < i64::MIN - b {
        i64::MIN
    } else {
        a + b
    }
}

/// The count that a shard reported for the channel at a position.
pub open spec fn count_at(v: ValueModel, pos: int) -> i64 {
    match v {
        ValueModel::Array(Some(items)) => if 0 <= 2 * pos + 1 < items.len() {
            publish_count_of(items[2 * pos + 1])
        } else {
            0
        },
        _ => 0,
    }
}

/// The counts of the shards for the channel at a position, summed in their order.
pub open spec fn summed_at(replies: Seq<(usize, ReplyView)>, pos: int) -> i64
    decreases replies.len(),
{
    if replies.len() == 0 {
        0
    } else {
        saturated(summed_at(replies.drop_last(), pos), count_at(replies.last().1.value, pos))
    }
}

/// The channels that were asked for, each with the sum of its counts.
pub open spec fn numsub_items(requested: Seq<Seq<u8>>, replies: Seq<(usize, ReplyView)>) -> Seq<
    ValueModel,
>
    decreases requested.len(),
{
    if requested.len() == 0 {
        Seq::empty()
    } else {
        numsub_items(requested.drop_last(), replies).push(
            ValueModel::Bulk(Some(requested.last())),
        ).push(ValueModel::Integer(summed_at(replies, requested.len() - 1)))
    }
}

/// The sum of the counts that the shards reported for one channel.
fn sum_at(replies: &[(usize, ShardReply)], pos: usize) -> (total: i64)
    ensures
        total == summed_at(replies_view(replies@), pos as int),
{
    let ghost view = replies_view(replies@);
    let mut total: i64 = 0;
    for i in 0..replies.len()
        invariant
            view == replies_view(replies@),
            total == summed_at(view.take(i as int), pos as int),
    {
        proof {
            assert(view.take(i as int + 1).drop_last() =~= view.take(i as int));
            assert(view.take(i as int + 1).last() == view[i as int]);
            assert(view[i as int].1 == replies@[i as int].1@);
        }
        let mut count: i64 = 0;
        match &replies[i].1.value {
            Value::Array(Some(items)) => {
                proof {
                    crate::value::lemma_values(items@);
                }
                if pos < items.len() / 2 {
                    count = publish_count(&items[2 * pos + 1]);
                }
            },
            _ => {},
        }
        assert(count == count_at(view[i as int].1.value, pos as int));
        total = add_saturating(total, count);
    }
    assert(view.take(view.len() as int) =~= view);
    total
}

/// The channels that were asked for, each with the number of its subscribers over
/// all shards.
pub fn merge_pubsub_numsub(requested: &[Vec<u8>], replies: &[(usize, ShardReply)]) -> (v: Value)
    ensures
        v.model() == ValueModel::Array(
            Some(
                numsub_items(
                    requested@.map_values(|c: Vec<u8>| c@),
                    replies_view(replies@),
                ),
            ),
        ),
{
    let ghost names = requested@.map_values(|c: Vec<u8>| c@);
    let ghost view = replies_view(replies@);
    let mut flat: Vec<Value> = Vec::new();
    assert(values(flat@) =~= numsub_items(names.take(0), view));
    for i in 0..requested.len()
        invariant
            names == requested@.map_values(|c: Vec<u8>| c@),
            view == replies_view(replies@),
            values(flat@) == numsub_items(names.take(i as int), view),
    {
        let ghost before = flat@;
        let name = Value::bulk(copy_bytes(requested[i].as_slice()));
        let count = Value::Integer(sum_at(replies, i));
        flat.push(name);
        flat.push(count);
        proof {
            crate::value::lemma_values_push(before, name);
            crate::value::lemma_values_push(before.push(name), count);
            assert(names.take(i as int + 1).drop_last() =~= names.take(i as int));
            assert(names.take(i as int + 1).last() == requested@[i as int]@);
        }
    }
    assert(names.take(names.len() as int) =~= names);
    Value::Array(Some(flat))
}

/// A broadcast is sent to every shard but the home shard, once, in the order of the
/// shards.
pub proof fn law_every_other_shard_is_a_target(n: nat, home: nat)
    ensures
        forall|shard: nat|
            shard < n && shard != home ==> #[trigger] targets(n, home).contains(shard),
        forall|k: int|
            0 <= k < targets(n, home).len() ==> (#[trigger] targets(n, home)[k]) < n && targets(
                n,
                home,
            )[k] != home,
        forall|j: int, k: int|
            0 <= j < k < targets(n, home).len() ==> targets(n, home)[j] < targets(n, home)[k],
{
    assert forall|shard: nat| shard < n && shard != home implies #[trigger] targets(
        n,
        home,
    ).contains(shard) by {
        let k = if shard < home {
            shard as int
        } else {
            shard - 1
        };
        assert(targets(n, home)[k] == shard);
    }
}

/// A hop brings back what the shard answered; where it did not answer, the error for a
/// shard that cannot be reached.
pub proof fn law_only_an_answer_counts(reply: ShardReply)
    ensures
        hop_reply(HopEnd::Answered(reply)).value == reply.value.model(),
        hop_reply(HopEnd::Answered(reply)).deltas == reply.deltas,
        hop_reply(HopEnd::Refused).value == ValueModel::Error(SHARD_UNAVAILABLE_MSG@),
        hop_reply(HopEnd::Lost).value == ValueModel::Error(SHARD_UNAVAILABLE_MSG@),
        hop_reply(HopEnd::Lost).deltas.expired == 0,
        !hop_reply(HopEnd::Lost).deltas.moved,
{
}

/// A split fan-out gathers one reply for each shard that it was sent to, that of the
/// home shard where it had a part, and nothing else.
pub proof fn law_split_gathers_every_reply(
    home: usize,
    local: Option<ReplyView>,
    targets: Seq<usize>,
    ends: Seq<HopEnd>,
)
    requires
        targets.len() == ends.len(),
    ensures
        split_replies(home, local, targets, ends).len() == ends.len() + (if local is Some {
            1int
        } else {
            0int
        }),
        forall|k: int|
            0 <= k < ends.len() ==> #[trigger] split_replies(home, local, targets, ends).contains(
                (targets[k], hop_reply(ends[k])),
            ),
        local matches Some(l) ==> split_replies(home, local, targets, ends).contains((home, l)),
        forall|x: (usize, ReplyView)| #[trigger]
            split_replies(home, local, targets, ends).contains(x) ==> local == Some(x.1) && x.0
                == home || exists|k: int|
                0 <= k < ends.len() && x.0 == #[trigger] targets[k] && x.1 == hop_reply(ends[k]),
{
    lemma_parts(targets, ends);
    let a = refused_part(targets, ends);
    let b: Seq<(usize, ReplyView)> = match local {
        Some(l) => seq![(home, l)],
        None => Seq::empty(),
    };
    let c = sent_part(targets, ends);
    let all = split_replies(home, local, targets, ends);
    assert forall|k: int| 0 <= k < ends.len() implies #[trigger] all.contains(
        (targets[k], hop_reply(ends[k])),
    ) by {
        let x = (targets[k], hop_reply(ends[k]));
        if a.contains(x) {
            let j = choose|j: int| 0 <= j < a.len() && a[j] == x;
            assert(all[j] == x);
        } else {
            let j = choose|j: int| 0 <= j < c.len() && c[j] == x;
            assert(all[a.len() + b.len() + j] == x);
        }
    }
    if local is Some {
        assert(all[a.len() as int] == (home, local->0));
    }
    assert forall|x: (usize, ReplyView)| #[trigger] all.contains(x) implies local == Some(x.1)
        && x.0 == home || exists|k: int|
        0 <= k < ends.len() && x.0 == #[trigger] targets[k] && x.1 == hop_reply(ends[k]) by {
        let j = choose|j: int| 0 <= j < all.len() && all[j] == x;
        if j < a.len() {
            assert(a.contains(a[j]));
        } else if j < a.len() + b.len() {
        } else {
            assert(c.contains(c[j - a.len() - b.len()]));
        }
    }
}

proof fn lemma_parts(targets: Seq<usize>, ends: Seq<HopEnd>)
    requires
        targets.len() == ends.len(),
    ensures
        refused_part(targets, ends).len() + sent_part(targets, ends).len() == ends.len(),
        forall|k: int|
            0 <= k < ends.len() ==> refused_part(targets, ends).contains(
                (targets[k], hop_reply(#[trigger] ends[k])),
            ) || sent_part(targets, ends).contains((targets[k], hop_reply(ends[k]))),
        forall|x: (usize, ReplyView)| #[trigger]
            refused_part(targets, ends).contains(x) ==> exists|k: int|
                0 <= k < ends.len() && x.0 == #[trigger] targets[k] && x.1 == hop_reply(ends[k]),
        forall|x: (usize, ReplyView)| #[trigger]
            sent_part(targets, ends).contains(x) ==> exists|k: int|
                0 <= k < ends.len() && x.0 == #[trigger] targets[k] && x.1 == hop_reply(ends[k]),
    decreases ends.len(),
{
    if ends.len() > 0 {
        let ts = targets.drop_last();
        let es = ends.drop_last();
        lemma_parts(ts, es);
        let a0 = refused_part(ts, es);
        let c0 = sent_part(ts, es);
        let a = refused_part(targets, ends);
        let c = sent_part(targets, ends);
        let n = ends.len() - 1;
        assert forall|k: int| 0 <= k < ends.len() implies a.contains(
            (targets[k], hop_reply(#[trigger] ends[k])),
        ) || c.contains((targets[k], hop_reply(ends[k]))) by {
            let x = (targets[k], hop_reply(ends[k]));
            if k < n {
                assert(es[k] == ends[k] && ts[k] == targets[k]);
                if a0.contains(x) {
                    let j = choose|j: int| 0 <= j < a0.len() && a0[j] == x;
                    assert(a[j] == x);
                } else {
                    let j = choose|j: int| 0 <= j < c0.len() && c0[j] == x;
                    assert(c[j] == x);
                }
            } else if ends.last() is Refused {
                assert(a.last() == x);
            } else {
                assert(c.last() == x);
            }
        }
        assert forall|x: (usize, ReplyView)| #[trigger] a.contains(x) implies exists|k: int|
            0 <= k < ends.len() && x.0 == #[trigger] targets[k] && x.1 == hop_reply(ends[k]) by {
            let j = choose|j: int| 0 <= j < a.len() && a[j] == x;
            if j < a0.len() {
                assert(a0.contains(a0[j]));
                let k = choose|k: int|
                    0 <= k < es.len() && x.0 == #[trigger] ts[k] && x.1 == hop_reply(es[k]);
                assert(x.0 == targets[k] && x.1 == hop_reply(ends[k]));
            } else {
                assert(x.0 == targets[n] && x.1 == hop_reply(ends[n]));
            }
        }
        assert forall|x: (usize, ReplyView)| #[trigger] c.contains(x) implies exists|k: int|
            0 <= k < ends.len() && x.0 == #[trigger] targets[k] && x.1 == hop_reply(ends[k]) by {
            let j = choose|j: int| 0 <= j < c.len() && c[j] == x;
            if j < c0.len() {
                assert(c0.contains(c0[j]));
                let k = choose|k: int|
                    0 <= k < es.len() && x.0 == #[trigger] ts[k] && x.1 == hop_reply(es[k]);
                assert(x.0 == targets[k] && x.1 == hop_reply(ends[k]));
            } else {
                assert(x.0 == targets[n] && x.1 == hop_reply(ends[n]));
            }
        }
    }
}

/// The number of receivers of a message grows by the integer that a shard answers with;
/// a shard that answers with anything else, or not at all, adds nothing.
pub proof fn law_receivers_are_added_up(ends: Seq<HopEnd>, end: HopEnd)
    ensures
        remote_count(Seq::empty()) == 0,
        remote_count(ends.push(end)) == remote_count(ends) + (match end {
            HopEnd::Answered(ShardReply { value: Value::Integer(n), .. }) => n as int,
            _ => 0,
        }),
{
    assert(ends.push(end).drop_last() =~= ends);
}

/// A channel is in the merged list if and only if some shard lists it.
pub proof fn law_merged_names_are_those_listed(replies: Seq<(usize, ReplyView)>, name: Seq<u8>)
    ensures
        distinct(all_reported(replies)).contains(name) <==> exists|i: int, j: int|
            0 <= i < replies.len() && #[trigger] lists_at(replies[i].1.value, j, name),
        distinct(all_reported(replies)).no_duplicates(),
{
    lemma_distinct(all_reported(replies));
    lemma_all_reported(replies, name);
    if all_reported(replies).contains(name) {
        let i = choose|i: int|
            0 <= i < replies.len() && #[trigger] reported(replies[i].1.value).contains(name);
        match replies[i].1.value {
            ValueModel::Array(Some(items)) => {
                lemma_bulk_names(items, name);
                let j = choose|j: int|
                    0 <= j < items.len() && #[trigger] items[j] == ValueModel::Bulk(Some(name));
                assert(lists_at(replies[i].1.value, j, name));
            },
            _ => {},
        }
    }
    if exists|i: int, j: int|
        0 <= i < replies.len() && #[trigger] lists_at(replies[i].1.value, j, name) {
        let (i, j) = choose|i: int, j: int|
            0 <= i < replies.len() && #[trigger] lists_at(replies[i].1.value, j, name);
        match replies[i].1.value {
            ValueModel::Array(Some(items)) => {
                lemma_bulk_names(items, name);
                assert(items[j] == ValueModel::Bulk(Some(name)));
                assert(reported(replies[i].1.value).contains(name));
            },
            _ => {},
        }
    }
}

/// Whether a report is an array with a name at a position.
pub open spec fn lists_at(v: ValueModel, j: int, name: Seq<u8>) -> bool {
    v matches ValueModel::Array(Some(items)) && 0 <= j < items.len() && items[j]
        == ValueModel::Bulk(Some(name))
}

proof fn lemma_bulk_names(items: Seq<ValueModel>, name: Seq<u8>)
    ensures
        bulk_names(items).contains(name) <==> exists|j: int|
            0 <= j < items.len() && #[trigger] items[j] == ValueModel::Bulk(Some(name)),
    decreases items.len(),
{
    if items.len() > 0 {
        let front = items.drop_last();
        lemma_bulk_names(front, name);
        let a = bulk_names(front);
        let all = bulk_names(items);
        if all.contains(name) {
            let k = choose|k: int| 0 <= k < all.len() && all[k] == name;
            if k < a.len() {
                assert(a[k] == name);
                let j = choose|j: int|
                    0 <= j < front.len() && #[trigger] front[j] == ValueModel::Bulk(Some(name));
                assert(items[j] == ValueModel::Bulk(Some(name)));
            } else {
                assert(items[items.len() - 1] == ValueModel::Bulk(Some(name)));
            }
        }
        if exists|j: int|
            0 <= j < items.len() && #[trigger] items[j] == ValueModel::Bulk(Some(name)) {
            let j = choose|j: int|
                0 <= j < items.len() && #[trigger] items[j] == ValueModel::Bulk(Some(name));
            if j < front.len() {
                assert(front[j] == ValueModel::Bulk(Some(name)));
                let k = choose|k: int| 0 <= k < a.len() && a[k] == name;
                assert(all[k] == name);
            } else {
                assert(all.last() == name);
            }
        }
    }
}

/// A saturating sum is the sum where it fits, and otherwise the bound on its side; a
/// count is itself where it fits.
pub proof fn law_sums_saturate(a: i64, b: i64, n: nat)
    ensures
        i64::MIN <= a + b <= i64::MAX ==> saturated(a, b) == a + b,
        a + b > i64::MAX ==> saturated(a, b) == i64::MAX,
        a + b < i64::MIN ==> saturated(a, b) == i64::MIN,
        n <= i64::MAX ==> capped(n) == n,
        n > i64::MAX ==> capped(n) == i64::MAX,
{
}

/// Whether a report names each channel that was asked for, each with a count directly
/// behind it.
pub open spec fn counts_report(v: ValueModel, requested: Seq<Seq<u8>>) -> bool {
    &&& v matches ValueModel::Array(Some(items))
    &&& items.len() == 2 * requested.len()
    &&& forall|i: int|
        0 <= i < requested.len() ==> items[2 * i] == ValueModel::Bulk(Some(#[trigger] requested[i]))
            && (items[2 * i + 1] matches ValueModel::Integer(n) && n >= 0)
}

/// The count directly behind the first occurrence of a name in a report.
pub open spec fn count_behind(v: ValueModel, name: Seq<u8>) -> int {
    match v {
        ValueModel::Array(Some(items)) => match items[first_at(
            items,
            ValueModel::Bulk(Some(name)),
        ) + 1] {
            ValueModel::Integer(n) => n as int,
            _ => 0,
        },
        _ => 0,
    }
}

/// The counts of several shards are merged channel by channel: the reply names each
/// channel that was asked for, in that order, and behind it stands the sum of the counts
/// that stand behind its name in the reports of the shards.
pub proof fn law_counts_are_merged_by_channel(
    requested: Seq<Seq<u8>>,
    replies: Seq<(usize, ReplyView)>,
    i: int,
)
    requires
        requested.no_duplicates(),
        0 <= i < requested.len(),
        forall|k: int|
            0 <= k < replies.len() ==> counts_report(#[trigger] replies[k].1.value, requested),
    ensures
        numsub_items(requested, replies).len() == 2 * requested.len(),
        numsub_items(requested, replies)[2 * i] == ValueModel::Bulk(Some(requested[i])),
        ({
            let sum = replies.map_values(
                |r: (usize, ReplyView)| count_behind(r.1.value, requested[i]),
            ).fold_left(0int, |a: int, b: int| a + b);
            numsub_items(requested, replies)[2 * i + 1] == ValueModel::Integer(
                if sum <= i64::MAX {
                    sum as i64
                } else {
                    i64::MAX
                },
            )
        }),
{
    lemma_numsub_items(requested, replies, i);
    lemma_summed_at(requested, replies, i);
}

proof fn lemma_numsub_items(requested: Seq<Seq<u8>>, replies: Seq<(usize, ReplyView)>, i: int)
    requires
        0 <= i < requested.len(),
    ensures
        numsub_items(requested, replies).len() == 2 * requested.len(),
        numsub_items(requested, replies)[2 * i] == ValueModel::Bulk(Some(requested[i])),
        numsub_items(requested, replies)[2 * i + 1] == ValueModel::Integer(summed_at(replies, i)),
    decreases requested.len(),
{
    let front = requested.drop_last();
    if front.len() == 0 {
        assert(numsub_items(front, replies).len() == 0);
    } else {
        lemma_numsub_items(
            front,
            replies,
            if i < front.len() {
                i
            } else {
                0
            },
        );
    }
}

proof fn lemma_summed_at(requested: Seq<Seq<u8>>, replies: Seq<(usize, ReplyView)>, i: int)
    requires
        requested.no_duplicates(),
        0 <= i < requested.len(),
        forall|k: int|
            0 <= k < replies.len() ==> counts_report(#[trigger] replies[k].1.value, requested),
    ensures
        ({
            let sum = replies.map_values(
                |r: (usize, ReplyView)| count_behind(r.1.value, requested[i]),
            ).fold_left(0int, |a: int, b: int| a + b);
            &&& 0 <= sum
            &&& summed_at(replies, i) == (if sum <= i64::MAX {
                sum as i64
            } else {
                i64::MAX
            })
        }),
    decreases replies.len(),
{
    let f = |r: (usize, ReplyView)| count_behind(r.1.value, requested[i]);
    let g = |a: int, b: int| a + b;
    let all = replies.map_values(f);
    if replies.len() > 0 {
        let front = replies.drop_last();
        assert forall|k: int| 0 <= k < front.len() implies counts_report(
            #[trigger] front[k].1.value,
            requested,
        ) by {
            assert(front[k] == replies[k]);
        }
        lemma_summed_at(requested, front, i);
        assert(all.drop_last() =~= front.map_values(f));
        let v = replies[replies.len() - 1].1.value;
        assert(counts_report(v, requested));
        match v {
            ValueModel::Array(Some(items)) => {
                let name = ValueModel::Bulk(Some(requested[i]));
                assert(items[2 * i] == name);
                assert forall|j: int| 0 <= j < 2 * i implies items[j] != name by {
                    let q = j / 2;
                    assert(0 <= q < requested.len());
                    assert(items[2 * q] == ValueModel::Bulk(Some(requested[q])));
                    if j == 2 * q {
                        assert(requested[q] != requested[i]);
                    } else {
                        assert(j == 2 * q + 1);
                    }
                }
                lemma_first_at_is(items, name, 2 * i);
                assert(count_behind(v, requested[i]) == count_at(v, i));
            },
            _ => {},
        }
    }
}

/// A shard that does not report counts adds nothing to any channel.
pub proof fn law_no_report_counts_for_nothing(
    replies: Seq<(usize, ReplyView)>,
    shard: usize,
    r: ReplyView,
    pos: int,
)
    requires
        !(r.value is Array),
    ensures
        summed_at(replies.push((shard, r)), pos) == summed_at(replies, pos),
{
    assert(replies.push((shard, r)).drop_last() =~= replies);
}

/// The shards that the home core sends to are the others, in their order.
pub proof fn law_others_are_sent_to(shards: Seq<usize>, home: usize)
    ensures
        remote_shards(shards, home) == shards.filter(|s: usize| s != home),
{
    assert(other_than(home) =~= (|s: usize| s != home));
}

/// A reply is its value and its counters, and replies are told apart by their shard.
pub proof fn law_view_of_replies(s: Seq<(usize, ShardReply)>, i: int)
    requires
        0 <= i < s.len(),
    ensures
        replies_view(s).len() == s.len(),
        replies_view(s)[i].0 == s[i].0,
        replies_view(s)[i].1.value == s[i].1.value.model(),
        replies_view(s)[i].1.deltas == s[i].1.deltas,
        no_deltas().expired == 0,
        !no_deltas().moved,
{
}

} // verus!
