//! The inboxes by which the shards hand each other work.
use tokio::sync::mpsc::{Receiver, Sender};
use vstd::prelude::*;
use crate::coordinator::{ShardReply, INBOX_DEPTH};
use crate::history::History;
use crate::pubsub::{try_send, SendOutcome};
use crate::value::{arguments, Request};

verus! {

/// `tokio::sync::mpsc::Receiver`, the end of a channel that is drained.
#[verifier::external_type_specification]
#[verifier::external_body]
#[verifier::reject_recursive_types(T)]
pub struct ExReceiver<T>(tokio::sync::mpsc::Receiver<T>);

/// `tokio::sync::oneshot::Sender`, by which one answer is given.
#[verifier::external_type_specification]
#[verifier::external_body]
#[verifier::reject_recursive_types(T)]
pub struct ExReplySender<T>(tokio::sync::oneshot::Sender<T>);

/// A unit of work for the shard that owns its key.
#[derive(Debug)]
pub struct ShardWork {
    /// The request.
    pub request: Request,
    /// The database.
    pub db: u32,
    /// Where the answer goes.
    pub reply: tokio::sync::oneshot::Sender<ShardReply>,
}

/// The number of units that the channel of a sender was made for.
pub uninterp spec fn sender_bound(sender: Sender<ShardWork>) -> nat;

/// Whether two ends are those of one channel.
pub uninterp spec fn paired(tx: Sender<ShardWork>, rx: Receiver<ShardWork>) -> bool;

/// `tokio::sync::mpsc::channel`: a channel that holds up to `depth` units, and its
/// two ends. It panics on a depth of zero and on one over an eighth of the largest
/// number.
#[verifier::external_body]
fn work_channel(depth: usize) -> (r: (Sender<ShardWork>, Receiver<ShardWork>))
    requires
        0 < depth <= usize::MAX / 8,
    ensures
        sender_bound(r.0) == depth,
        paired(r.0, r.1),
{
    tokio::sync::mpsc::channel::<ShardWork>(depth)
}

/// `Sender::max_capacity`: the number of units that the channel was made for. It
/// never changes.
#[verifier::external_body]
fn max_capacity(sender: &Sender<ShardWork>) -> (r: usize)
    ensures
        r == sender_bound(*sender),
{
    sender.max_capacity()
}

/// `Sender::capacity`: the number of units that the channel still has room for. It
/// changes as others send and receive, so nothing is said of it.
#[verifier::external_body]
fn capacity(sender: &Sender<ShardWork>) -> (r: usize) {
    sender.capacity()
}

/// `oneshot::channel`, of which the receiver is dropped at once: nobody waits for the
/// answer.
#[verifier::external_body]
fn unawaited_reply() -> (r: tokio::sync::oneshot::Sender<ShardReply>) {
    tokio::sync::oneshot::channel::<ShardReply>().0
}

/// A unit of work that was offered to an inbox.
pub struct Offered {
    /// The shard.
    pub shard: int,
    /// The words of the request.
    pub args: Seq<Seq<u8>>,
    /// The database.
    pub db: u32,
    /// What became of it.
    pub outcome: SendOutcome,
}

/// The inboxes of all shards, and what was offered to them without waiting.
pub struct Outbox {
    /// The inboxes.
    pub inbox: Vec<Sender<ShardWork>>,
    /// What was offered, in order.
    pub offered: History<Offered>,
}

/// Whether an offer took place: a unit of work with that request was handed to
/// `try_send` on the inbox of that shard, with that outcome.
pub closed spec fn offer_made(inbox: Seq<Sender<ShardWork>>, o: Offered) -> bool {
    exists|work: ShardWork|
        arguments(work.request) == o.args && work.db == o.db && #[trigger] call_ensures(
            try_send::<ShardWork>,
            (&inbox[o.shard], work),
            o.outcome,
        )
}

/// Whether all offers that came to a list took place.
pub open spec fn offers_made(
    inbox: Seq<Sender<ShardWork>>,
    before: Seq<Offered>,
    after: Seq<Offered>,
) -> bool {
    &&& before.len() <= after.len()
    &&& forall|k: int| before.len() <= k < after.len() ==> offer_made(inbox, #[trigger] after[k])
}

/// A unit of work for each of some shards.
pub open spec fn offers(
    shards: Seq<nat>,
    args: Seq<Seq<u8>>,
    db: u32,
    outcomes: Seq<SendOutcome>,
) -> Seq<Offered> {
    Seq::new(
        shards.len(),
        |i: int| Offered { shard: shards[i] as int, args, db, outcome: outcomes[i] },
    )
}

/// Whether a unit of work was offered to each of some shards in turn.
pub open spec fn offered_to(
    before: Seq<Offered>,
    after: Seq<Offered>,
    shards: Seq<nat>,
    args: Seq<Seq<u8>>,
    db: u32,
) -> bool {
    exists|outcomes: Seq<SendOutcome>|
        outcomes.len() == shards.len() && after == before + #[trigger] offers(
            shards,
            args,
            db,
            outcomes,
        )
}

impl Outbox {
    /// The inboxes, nothing offered yet.
    pub fn new(inbox: Vec<Sender<ShardWork>>) -> (r: Self)
        ensures
            r.inbox == inbox,
            r.offered@.len() == 0,
    {
        Outbox { inbox, offered: History::new() }
    }

    /// Offers a unit to a shard. It is lost where the inbox is full or closed; the
    /// caller never waits.
    pub fn offer(&mut self, shard: usize, request: &Request, db: u32) -> (r: SendOutcome)
        requires
            shard < old(self).inbox@.len(),
        ensures
            final(self).inbox == old(self).inbox,
            final(self).offered@ == old(self).offered@.push(
                Offered { shard: shard as int, args: arguments(*request), db, outcome: r },
            ),
            offers_made(old(self).inbox@, old(self).offered@, final(self).offered@),
    {
        let work = ShardWork { request: request.copy(), db, reply: unawaited_reply() };
        let outcome = try_send(&self.inbox[shard], work);
        let ghost o = Offered { shard: shard as int, args: arguments(*request), db, outcome };
        assert(offer_made(self.inbox@, o)) by {
            assert(arguments(work.request) == o.args);
            assert(call_ensures(
                try_send::<ShardWork>,
                (&self.inbox@[o.shard], work),
                o.outcome,
            ));
        }
        let ghost more = seq![o];
        self.offered.note(Ghost(more));
        assert(self.offered@ =~= old(self).offered@.push(o));
        outcome
    }
}

/// One inbox per shard: the senders for all of them, and each shard's own receiver.
pub fn build_inboxes(n: usize) -> (r: (Vec<Sender<ShardWork>>, Vec<Receiver<ShardWork>>))
    requires
        n >= 1,
    ensures
        r.0@.len() == n,
        r.1@.len() == n,
        forall|i: int| 0 <= i < n ==> sender_bound(#[trigger] r.0@[i]) == INBOX_DEPTH,
        forall|i: int| 0 <= i < n ==> paired(#[trigger] r.0@[i], r.1@[i]),
{
    let mut senders: Vec<Sender<ShardWork>> = Vec::new();
    let mut receivers: Vec<Receiver<ShardWork>> = Vec::new();
    assert(INBOX_DEPTH <= usize::MAX / 8);
    for i in 0..n
        invariant
            INBOX_DEPTH <= usize::MAX / 8,
            senders@.len() == i,
            receivers@.len() == i,
            forall|k: int| 0 <= k < i ==> sender_bound(#[trigger] senders@[k]) == INBOX_DEPTH,
            forall|k: int| 0 <= k < i ==> paired(#[trigger] senders@[k], receivers@[k]),
    {
        let (tx, rx) = work_channel(INBOX_DEPTH);
        senders.push(tx);
        receivers.push(rx);
    }
    (senders, receivers)
}

/// How many units wait in a channel that has so much room left.
pub open spec fn queued(bound: nat, free: nat) -> nat {
    if free <= bound {
        (bound - free) as nat
    } else {
        0
    }
}

/// How many units wait in a channel that has so much room left.
pub fn queued_units(bound: usize, free: usize) -> (r: u64)
    ensures
        r == queued(bound as nat, free as nat),
{
    if free <= bound {
        (bound - free) as u64
    } else {
        0
    }
}

/// Whether a channel had so much room left when it was asked.
pub closed spec fn room_seen(tx: Sender<ShardWork>, free: usize) -> bool {
    call_ensures(capacity, (&tx,), free)
}

/// Whether numbers are those of the units that wait in inboxes that had so much room
/// left when they were asked.
pub open spec fn depths_are(inbox: Seq<Sender<ShardWork>>, free: Seq<usize>, r: Seq<u64>) -> bool {
    &&& free.len() == inbox.len()
    &&& r.len() == inbox.len()
    &&& forall|i: int|
        0 <= i < r.len() ==> (#[trigger] r[i]) == queued(sender_bound(inbox[i]), free[i] as nat)
            && room_seen(inbox[i], free[i])
}

/// How many units wait in each inbox.
pub fn inbox_depths(inbox: &[Sender<ShardWork>]) -> (r: Vec<u64>)
    ensures
        exists|free: Seq<usize>| #[trigger] depths_are(inbox@, free, r@),
{
    let mut r: Vec<u64> = Vec::new();
    let ghost mut room: Seq<usize> = Seq::empty();
    for i in 0..inbox.len()
        invariant
            depths_are(inbox@.take(i as int), room, r@),
    {
        let bound: usize = max_capacity(&inbox[i]);
        let free: usize = capacity(&inbox[i]);
        r.push(queued_units(bound, free));
        proof {
            room = room.push(free);
        }
    }
    assert(inbox@.take(inbox@.len() as int) =~= inbox@);
    r
}

/// What a shard is offered is the request itself, for that database, one unit for each
/// shard of the list in its order.
pub proof fn law_offers_name_their_shard(
    before: Seq<Offered>,
    after: Seq<Offered>,
    shards: Seq<nat>,
    args: Seq<Seq<u8>>,
    db: u32,
    k: int,
)
    requires
        offered_to(before, after, shards, args, db),
        0 <= k < shards.len(),
    ensures
        after.len() == before.len() + shards.len(),
        after[before.len() + k].shard == shards[k],
        after[before.len() + k].args == args,
        after[before.len() + k].db == db,
{
}

/// The units that wait in an inbox are those that take its room.
pub proof fn law_waiting_units_take_the_room(bound: nat, free: nat)
    ensures
        free <= bound ==> queued(bound, free) + free == bound,
        free > bound ==> queued(bound, free) == 0,
{
}

/// What is noted as an offer is a unit of work with that request and that database that
/// was handed to the inbox of that shard, with that outcome.
proof fn law_offers_were_made(
    inbox: Seq<Sender<ShardWork>>,
    before: Seq<Offered>,
    after: Seq<Offered>,
    k: int,
)
    requires
        offers_made(inbox, before, after),
        before.len() <= k < after.len(),
    ensures
        exists|work: ShardWork|
            arguments(work.request) == after[k].args && work.db == after[k].db
                && #[trigger] call_ensures(
                try_send::<ShardWork>,
                (&inbox[after[k].shard], work),
                after[k].outcome,
            ),
{
    assert(offer_made(inbox, after[k]));
}

/// The number for an inbox is what waits in that inbox: its bound less the room that it
/// had when it was asked.
proof fn law_depths_go_by_inbox(
    inbox: Seq<Sender<ShardWork>>,
    free: Seq<usize>,
    r: Seq<u64>,
    i: int,
)
    requires
        depths_are(inbox, free, r),
        0 <= i < inbox.len(),
    ensures
        r.len() == inbox.len(),
        call_ensures(capacity, (&inbox[i],), free[i]),
        free[i] <= sender_bound(inbox[i]) <= u64::MAX ==> r[i] + free[i] == sender_bound(inbox[i]),
{
    assert(r[i] == queued(sender_bound(inbox[i]), free[i] as nat));
    assert(room_seen(inbox[i], free[i]));
}

} // verus!
