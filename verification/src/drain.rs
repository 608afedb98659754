//! The life of a shard: what it does at boot, how it serves the work of other
//! shards, when it saves by itself, and how it stops.
use vstd::prelude::*;
use vstd::utf8::encode_utf8;
use crate::bytes::{ascii_upper, same_bytes, uppered};
use crate::coordinator::{no_deltas, CounterDeltas, ReplyView, ShardReply, ICEXISTS, ICPUBLISH,
    ICPUBSUB, ICSPUBLISH};
use crate::persist::{do_save_all_bounded, PersistState, PersistStats, SaveGuard, ICSAVE};
use crate::value::{arguments, ErrorReply, Request, Value, ValueModel};

verus! {

/// What is known of a shard when it boots.
#[derive(Debug, Clone, Copy)]
pub struct BootFacts {
    /// Which shard it is.
    pub shard: usize,
    /// What came of the role of a receiver: not one, received, or failed.
    pub received: Received,
    /// Whether the node has a data directory.
    pub persist: bool,
    /// Whether anybody asks whether the node is ready.
    pub readiness: bool,
    /// Whether the node takes part in consensus.
    pub raft: bool,
    /// Whether the node is in a cluster.
    pub cluster: bool,
    /// Whether the node has a static topology.
    pub topology: bool,
}

/// What came of the role of a receiver.
#[derive(Debug, Clone, Copy, PartialEq, Eq, Structural)]
pub enum Received {
    /// The process is no receiver: the shard loads from disk.
    NotReceiver,
    /// The shard's store came over the socket.
    Installed,
    /// The transfer failed, and nothing was installed.
    Failed,
}

/// What a shard does when it boots.
#[derive(Debug, Clone, Copy, PartialEq, Eq, Structural)]
pub enum BootAction {
    /// Adopts its counters and starts its background tasks.
    Start,
    /// Loads its part of the snapshot.
    Load,
    /// Takes the time of the last save from the manifest.
    SeedLastSave,
    /// Starts the periodic save of the node.
    SpawnPeriodicSave,
    /// Counts itself as loaded; the last shard removes the staging directory.
    NoteLoaded,
    /// Signals that it is ready.
    SignalReady,
    /// Starts the replication of the shard.
    AttachReplica,
    /// Starts the formation of the cluster.
    FormCluster,
    /// Serves the work of other shards.
    Serve,
    /// Gives up without serving.
    Abort,
}

/// What a transfer of a shard's keys came to: `received` is nothing where this process
/// is no receiver, else the offset of the last write or why the transfer failed.
pub fn resolve_receive_role<E>(received: &Option<Result<u64, E>>) -> (r: Received)
    ensures
        r == (match received {
            None => Received::NotReceiver,
            Some(Ok(_)) => Received::Installed,
            Some(Err(_)) => Received::Failed,
        }),
{
    match received {
        None => Received::NotReceiver,
        Some(Ok(_)) => Received::Installed,
        Some(Err(_)) => Received::Failed,
    }
}

/// Takes over the store of a transfer, and only where the transfer is whole: on an
/// error the shard keeps the store that it has.
pub fn receive_shard_into<T, E>(store: &mut T, loaded: Result<(T, u64), E>) -> (r: Result<u64, E>)
    ensures
        match loaded {
            Ok((received, offset)) => *final(store) == received && r == Ok::<u64, E>(offset),
            Err(e) => *final(store) == *old(store) && r == Err::<u64, E>(e),
        },
{
    match loaded {
        Ok((received, offset)) => {
            *store = received;
            Ok(offset)
        },
        Err(e) => Err(e),
    }
}

/// One action, or none.
pub open spec fn action_if(cond: bool, a: BootAction) -> Seq<BootAction> {
    if cond {
        seq![a]
    } else {
        Seq::empty()
    }
}

/// What a shard does when it boots, in order.
pub open spec fn boot_sequence(f: BootFacts) -> Seq<BootAction> {
    if f.received == Received::Failed {
        seq![BootAction::Start, BootAction::Abort]
    } else {
        let load = f.persist && f.received == Received::NotReceiver;
        let first = f.shard == 0;
        seq![BootAction::Start] + action_if(load, BootAction::Load) + action_if(
            load && first,
            BootAction::SeedLastSave,
        ) + action_if(load && first, BootAction::SpawnPeriodicSave) + action_if(
            load,
            BootAction::NoteLoaded,
        ) + action_if(f.readiness, BootAction::SignalReady) + action_if(
            f.raft,
            BootAction::AttachReplica,
        ) + action_if(
            first && f.cluster && f.raft && f.topology,
            BootAction::FormCluster,
        ) + seq![BootAction::Serve]
    }
}

fn act_if(out: &mut Vec<BootAction>, cond: bool, a: BootAction)
    ensures
        final(out)@ == old(out)@ + action_if(cond, a),
{
    if cond {
        out.push(a);
    }
    assert(out@ =~= old(out)@ + action_if(cond, a));
}

/// What a shard does when it boots, in order.
pub fn boot_plan(f: BootFacts) -> (r: Vec<BootAction>)
    ensures
        r@ == boot_sequence(f),
{
    let mut r: Vec<BootAction> = Vec::new();
    r.push(BootAction::Start);
    if f.received == Received::Failed {
        r.push(BootAction::Abort);
        assert(r@ =~= boot_sequence(f));
        return r;
    }
    let load = f.persist && f.received == Received::NotReceiver;
    let first = f.shard == 0;
    assert(r@ =~= seq![BootAction::Start]);
    act_if(&mut r, load, BootAction::Load);
    act_if(&mut r, load && first, BootAction::SeedLastSave);
    act_if(&mut r, load && first, BootAction::SpawnPeriodicSave);
    act_if(&mut r, load, BootAction::NoteLoaded);
    act_if(&mut r, f.readiness, BootAction::SignalReady);
    act_if(&mut r, f.raft, BootAction::AttachReplica);
    act_if(&mut r, first && f.cluster && f.raft && f.topology, BootAction::FormCluster);
    let ghost before = r@;
    r.push(BootAction::Serve);
    assert(r@ =~= before + seq![BootAction::Serve]);
    r
}

/// A shard is ready only after it has loaded, and never where a transfer failed;
/// and the time of the last save is read before the shard counts itself as loaded,
/// so before anybody can remove the manifest it is read from.
pub proof fn law_ready_only_after_load(f: BootFacts, i: int, j: int)
    requires
        0 <= i < boot_sequence(f).len(),
        0 <= j < boot_sequence(f).len(),
    ensures
        boot_sequence(f)[j] == BootAction::SignalReady ==> f.received != Received::Failed,
        boot_sequence(f)[i] == BootAction::Load && boot_sequence(f)[j] == BootAction::SignalReady
            ==> i < j,
        boot_sequence(f)[i] == BootAction::SignalReady && boot_sequence(f)[j] == BootAction::Serve
            ==> i < j,
        boot_sequence(f)[i] == BootAction::SeedLastSave && boot_sequence(f)[j]
            == BootAction::NoteLoaded ==> i < j,
        f.received == Received::Installed ==> boot_sequence(f)[i] != BootAction::Load,
{
}

/// How often a shard looks at the shutdown flag, in milliseconds.
pub const DRAIN_POLL: u64 = 20;

/// After how many looks without work a stopping shard returns.
pub const IDLE_GAP_TICKS: u32 = 6;

/// After how many looks a stopping shard returns in any case.
pub const HARD_CAP_TICKS: u32 = 50;

/// How far a shard is with serving.
#[derive(Debug, Clone, Copy, PartialEq, Eq, Structural)]
pub enum DrainPhase {
    /// It serves.
    Serving,
    /// It was told to stop and still answers the others.
    Stopping {
        /// How many looks there were since the last work.
        idle: u32,
        /// How many looks there were in all.
        total: u32,
    },
    /// It serves no more.
    Over,
}

/// What happens to a shard that serves.
#[derive(Debug, Clone, Copy, PartialEq, Eq, Structural)]
pub enum DrainEvent {
    /// Work has come.
    Work,
    /// No work can come any more.
    Closed,
    /// It is time to look at the shutdown flag, and whether it is set.
    Tick(bool),
}

/// What a shard does about it.
#[derive(Debug, Clone, Copy, PartialEq, Eq, Structural)]
pub enum DrainAction {
    /// Runs the work, answers, wakes who waits for the keys it wrote, and publishes
    /// the changes.
    RunAndWake,
    /// Runs the work, answers, and publishes the changes.
    Run,
    /// Waits for more.
    Wait,
    /// Takes the final save of the node and ends the process.
    SaveAndExit,
    /// Returns.
    Return,
}

/// Whether a shard takes the final save of the node.
pub fn is_save_host(shard: usize, persist: bool, save_policy: bool) -> (r: bool)
    ensures
        r == (shard == 0 && persist && save_policy),
{
    shard == 0 && persist && save_policy
}

/// One more, up to the largest number.
pub open spec fn bumped(n: u32) -> u32 {
    if n == u32::MAX {
        n
    } else {
        (n + 1) as u32
    }
}

/// What a shard does about an event, and where it goes from there. `save_host`
/// says whether it takes the final save.
pub open spec fn drained(phase: DrainPhase, event: DrainEvent, save_host: bool) -> (
    DrainPhase,
    DrainAction,
) {
    match (phase, event) {
        (DrainPhase::Over, _) => (DrainPhase::Over, DrainAction::Return),
        (_, DrainEvent::Closed) => (DrainPhase::Over, DrainAction::Return),
        (DrainPhase::Serving, DrainEvent::Work) => (DrainPhase::Serving, DrainAction::RunAndWake),
        (DrainPhase::Serving, DrainEvent::Tick(stop)) => if !stop {
            (DrainPhase::Serving, DrainAction::Wait)
        } else if save_host {
            (DrainPhase::Over, DrainAction::SaveAndExit)
        } else {
            (DrainPhase::Stopping { idle: 0, total: 0 }, DrainAction::Wait)
        },
        (DrainPhase::Stopping { total, .. }, DrainEvent::Work) => (
            DrainPhase::Stopping { idle: 0, total },
            DrainAction::Run,
        ),
        (DrainPhase::Stopping { idle, total }, DrainEvent::Tick(_)) => if bumped(idle)
            >= IDLE_GAP_TICKS || bumped(total) >= HARD_CAP_TICKS {
            (DrainPhase::Over, DrainAction::Return)
        } else {
            (
                DrainPhase::Stopping { idle: bumped(idle), total: bumped(total) },
                DrainAction::Wait,
            )
        },
    }
}

fn bump(n: u32) -> (r: u32)
    ensures
        r == bumped(n),
{
    if n == u32::MAX {
        n
    } else {
        n + 1
    }
}

/// What a shard does about an event, and where it goes from there.
pub fn run_drain_loop(phase: DrainPhase, event: DrainEvent, save_host: bool) -> (r: (
    DrainPhase,
    DrainAction,
))
    ensures
        r == drained(phase, event, save_host),
{
    match (phase, event) {
        (DrainPhase::Over, _) => (DrainPhase::Over, DrainAction::Return),
        (_, DrainEvent::Closed) => (DrainPhase::Over, DrainAction::Return),
        (DrainPhase::Serving, DrainEvent::Work) => (DrainPhase::Serving, DrainAction::RunAndWake),
        (DrainPhase::Serving, DrainEvent::Tick(stop)) => {
            if !stop {
                (DrainPhase::Serving, DrainAction::Wait)
            } else if save_host {
                (DrainPhase::Over, DrainAction::SaveAndExit)
            } else {
                (DrainPhase::Stopping { idle: 0, total: 0 }, DrainAction::Wait)
            }
        },
        (DrainPhase::Stopping { total, .. }, DrainEvent::Work) => (
            DrainPhase::Stopping { idle: 0, total },
            DrainAction::Run,
        ),
        (DrainPhase::Stopping { idle, total }, DrainEvent::Tick(_)) => {
            let idle: u32 = bump(idle);
            let total: u32 = bump(total);
            if idle >= IDLE_GAP_TICKS || total >= HARD_CAP_TICKS {
                (DrainPhase::Over, DrainAction::Return)
            } else {
                (DrainPhase::Stopping { idle, total }, DrainAction::Wait)
            }
        },
    }
}

/// Where a shard is after events.
pub open spec fn phase_after(phase: DrainPhase, events: Seq<DrainEvent>, save_host: bool)
    -> DrainPhase
    decreases events.len(),
{
    if events.len() == 0 {
        phase
    } else {
        drained(phase_after(phase, events.drop_last(), save_host), events.last(), save_host).0
    }
}

/// How many looks at the flag there are among events.
pub open spec fn ticks(events: Seq<DrainEvent>) -> nat
    decreases events.len(),
{
    if events.len() == 0 {
        0
    } else {
        ticks(events.drop_last()) + (if events.last() is Tick {
            1nat
        } else {
            0nat
        })
    }
}

/// A shard that was told to stop returns after at most so many looks at the flag,
/// whatever work still comes.
pub proof fn law_stop_is_bounded(events: Seq<DrainEvent>, save_host: bool)
    ensures
        phase_after(DrainPhase::Stopping { idle: 0, total: 0 }, events, save_host) is Stopping ==> {
            &&& ticks(events) < HARD_CAP_TICKS
            &&& phase_after(DrainPhase::Stopping { idle: 0, total: 0 }, events, save_host)->total
                == ticks(events)
        },
        !(phase_after(DrainPhase::Stopping { idle: 0, total: 0 }, events, save_host) is Serving),
    decreases events.len(),
{
    if events.len() > 0 {
        law_stop_is_bounded(events.drop_last(), save_host);
    }
}

/// While a shard stops it still answers the others: work that comes before it
/// returns is run, and gives it time again.
pub proof fn law_stopping_shard_answers(idle: u32, total: u32, save_host: bool)
    ensures
        drained(DrainPhase::Stopping { idle, total }, DrainEvent::Work, save_host) == (
            DrainPhase::Stopping { idle: 0, total },
            DrainAction::Run,
        ),
{
}

/// The verb that counts the keys of a slot.
pub const ICCOUNTKEYSINSLOT: &'static str = "__ICCOUNTKEYSINSLOT";

/// The verb that lists keys of a slot.
pub const ICGETKEYSINSLOT: &'static str = "__ICGETKEYSINSLOT";

/// The verb that counts the keys of each database.
pub const ICINFOKEYSPACE: &'static str = "__ICINFOKEYSPACE";

/// What a shard does with a unit of work.
#[derive(Debug, Clone, Copy, PartialEq, Eq, Structural)]
pub enum Route {
    /// Writes its part of a save.
    Save,
    /// Delivers a message.
    Publish,
    /// Delivers a message to a shard channel.
    ShardPublish,
    /// Reports on its subscriptions.
    PubSub,
    /// Says whether it holds a live key.
    Exists,
    /// Refuses a write, as the shard is being handed over.
    Loading,
    /// Runs a command over all its keys.
    WholeKeyspace,
    /// Runs a command on keys.
    Keyed,
}

/// Whether a verb is a given one.
pub open spec fn verb_is(verb: Seq<u8>, name: Seq<char>) -> bool {
    verb == encode_utf8(name)
}

/// What a shard does with a unit of work: the internal verbs first, then the hold
/// on writes, then by the class of the command.
pub open spec fn route_of(verb: Seq<u8>, loading: bool, write: bool, whole_keyspace: bool) -> Route {
    if verb_is(verb, ICSAVE@) {
        Route::Save
    } else if verb_is(verb, ICPUBLISH@) {
        Route::Publish
    } else if verb_is(verb, ICSPUBLISH@) {
        Route::ShardPublish
    } else if verb_is(verb, ICPUBSUB@) {
        Route::PubSub
    } else if verb_is(verb, ICEXISTS@) {
        Route::Exists
    } else if loading && write {
        Route::Loading
    } else if whole_keyspace || verb_is(verb, ICCOUNTKEYSINSLOT@) || verb_is(
        verb,
        ICGETKEYSINSLOT@,
    ) || verb_is(verb, ICINFOKEYSPACE@) {
        Route::WholeKeyspace
    } else {
        Route::Keyed
    }
}

/// Whether a verb is one that shards only send each other.
pub open spec fn is_internal(verb: Seq<u8>) -> bool {
    verb_is(verb, ICSAVE@) || verb_is(verb, ICPUBLISH@) || verb_is(verb, ICSPUBLISH@) || verb_is(
        verb,
        ICPUBSUB@,
    ) || verb_is(verb, ICEXISTS@)
}

fn is_verb(verb: &[u8], name: &str) -> (r: bool)
    ensures
        r == verb_is(verb@, name@),
{
    same_bytes(verb, name.as_bytes())
}

/// What a shard does with a request of another shard. `loading` says whether its
/// writes are held back; `write` and `whole_keyspace` are the class of the command.
pub fn run_remote(request: &Request, loading: bool, write: bool, whole_keyspace: bool) -> (r:
    Route)
    ensures
        r == route_of(
            uppered(
                if request.args@.len() > 0 {
                    request.args@[0]@
                } else {
                    Seq::empty()
                },
            ),
            loading,
            write,
            whole_keyspace,
        ),
{
    let upper = ascii_upper(request.command());
    let verb = upper.as_slice();
    if is_verb(verb, ICSAVE) {
        Route::Save
    } else if is_verb(verb, ICPUBLISH) {
        Route::Publish
    } else if is_verb(verb, ICSPUBLISH) {
        Route::ShardPublish
    } else if is_verb(verb, ICPUBSUB) {
        Route::PubSub
    } else if is_verb(verb, ICEXISTS) {
        Route::Exists
    } else if loading && write {
        Route::Loading
    } else if whole_keyspace || is_verb(verb, ICCOUNTKEYSINSLOT) || is_verb(verb, ICGETKEYSINSLOT)
        || is_verb(verb, ICINFOKEYSPACE) {
        Route::WholeKeyspace
    } else {
        Route::Keyed
    }
}

/// The answer that a shard gives without running a command: the error for a write that
/// it holds back, and whether it holds a live key. Neither moves a counter. `refusal` is
/// the text of the error, and `live` what the shard finds of the key.
pub open spec fn answered_at_once(
    route: Route,
    args: Seq<Seq<u8>>,
    refusal: Seq<char>,
    live: bool,
) -> Option<ReplyView> {
    match route {
        Route::Loading => Some(
            ReplyView { value: ValueModel::Error(refusal), deltas: no_deltas() },
        ),
        Route::Exists => Some(
            ReplyView {
                value: ValueModel::Integer(
                    if args.len() > 1 && live {
                        1
                    } else {
                        0
                    },
                ),
                deltas: no_deltas(),
            },
        ),
        _ => None,
    }
}

/// The answer to a write that a shard holds back: an error, and no counter moved.
pub fn refused_reply(e: ErrorReply) -> (r: ShardReply)
    ensures
        r@ == (ReplyView { value: ValueModel::Error(e.message@), deltas: no_deltas() }),
        forall|args: Seq<Seq<u8>>, live: bool| #[trigger]
            answered_at_once(Route::Loading, args, e.message@, live) == Some(r@),
{
    ShardReply { value: Value::error(e), deltas: CounterDeltas::default() }
}

/// The answer to a question for a live key: one where the shard holds it, else zero,
/// also where no key is named; and no counter moved.
pub fn presence_reply(request: &Request, live: bool) -> (r: ShardReply)
    ensures
        r@ == (ReplyView {
            value: ValueModel::Integer(
                if request.args@.len() > 1 && live {
                    1
                } else {
                    0
                },
            ),
            deltas: no_deltas(),
        }),
        forall|refusal: Seq<char>| #[trigger]
            answered_at_once(Route::Exists, arguments(*request), refusal, live) == Some(r@),
{
    let n: i64 = if request.args.len() > 1 && live {
        1
    } else {
        0
    };
    assert(arguments(*request).len() == request.args@.len());
    ShardReply { value: Value::Integer(n), deltas: CounterDeltas::default() }
}

/// The answer on a route on which nothing is run; nothing on the other routes.
pub fn reply_at_once(route: Route, request: &Request, refusal: ErrorReply, live: bool) -> (r: Option<
    ShardReply,
>)
    ensures
        answered_at_once(route, arguments(*request), refusal.message@, live) == (match r {
            Some(reply) => Some(reply@),
            None => None,
        }),
{
    match route {
        Route::Loading => Some(refused_reply(refusal)),
        Route::Exists => Some(presence_reply(request, live)),
        _ => None,
    }
}

/// While a shard is being handed over no write reaches its store: a command on keys
/// or over all of them is run only where it does not write. A write that is none of
/// the internal verbs is answered by the error, with no counter moved, and a read is
/// run as ever.
pub proof fn law_no_write_while_loading(
    verb: Seq<u8>,
    write: bool,
    whole_keyspace: bool,
    args: Seq<Seq<u8>>,
    refusal: Seq<char>,
    live: bool,
)
    ensures
        route_of(verb, true, write, whole_keyspace) == Route::Keyed ==> !write,
        route_of(verb, true, write, whole_keyspace) == Route::WholeKeyspace ==> !write,
        write && !is_internal(verb) ==> answered_at_once(
            route_of(verb, true, write, whole_keyspace),
            args,
            refusal,
            live,
        ) == Some(ReplyView { value: ValueModel::Error(refusal), deltas: no_deltas() }),
        !write ==> route_of(verb, true, write, whole_keyspace) == route_of(
            verb,
            false,
            write,
            whole_keyspace,
        ),
{
}

/// Whether a loaded shard has to evict: there is a ceiling, and it is over it.
pub fn must_evict(budget: u64, used: u64) -> (r: bool)
    ensures
        r == (budget > 0 && used > budget),
{
    budget > 0 && used > budget
}

/// What there is to say about a load.
#[derive(Debug, Clone, Copy, PartialEq, Eq, Structural)]
pub enum LoadNote {
    /// Keys were loaded.
    Loaded {
        /// How many.
        loaded: u64,
        /// How many of them had to go again.
        evicted: u64,
    },
    /// The snapshot was over the ceiling, and keys were evicted.
    Evicted(u64),
    /// The shard is still over the ceiling.
    OverBudget {
        /// The ceiling.
        budget: u64,
        /// What it uses.
        used: u64,
    },
    /// Changes behind the snapshot were applied.
    Merged(u64),
    /// The changes behind the snapshot are torn, and only the snapshot was loaded.
    Torn,
}

/// What a load came to.
#[derive(Debug, Clone, Copy)]
pub struct LoadResult {
    /// How many keys were loaded.
    pub loaded: u64,
    /// The ceiling of the shard; zero for none.
    pub budget: u64,
    /// What the shard used after the load.
    pub used: u64,
    /// How many keys were evicted, where it had to evict.
    pub evicted: u64,
    /// What the shard uses now.
    pub used_after: u64,
    /// The changes behind the snapshot: none, so many applied, or torn.
    pub delta: DeltaLog,
}

/// The changes behind a snapshot.
#[derive(Debug, Clone, Copy, PartialEq, Eq, Structural)]
pub enum DeltaLog {
    /// There are none.
    Absent,
    /// So many were applied.
    Applied(u64),
    /// They are torn.
    Torn,
}

/// One note, or none.
pub open spec fn note_if(cond: bool, n: LoadNote) -> Seq<LoadNote> {
    if cond {
        seq![n]
    } else {
        Seq::empty()
    }
}

/// What there is to say about a load, in order.
pub open spec fn load_report(r: LoadResult) -> Seq<LoadNote> {
    let over = r.budget > 0 && r.used > r.budget;
    let evicted = if over {
        r.evicted
    } else {
        0
    };
    note_if(r.loaded > 0, LoadNote::Loaded { loaded: r.loaded, evicted }) + note_if(
        evicted > 0,
        LoadNote::Evicted(evicted),
    ) + note_if(
        over && r.used_after > r.budget,
        LoadNote::OverBudget { budget: r.budget, used: r.used_after },
    ) + match r.delta {
        DeltaLog::Absent => Seq::empty(),
        DeltaLog::Applied(n) => note_if(n > 0, LoadNote::Merged(n)),
        DeltaLog::Torn => seq![LoadNote::Torn],
    }
}

fn say_if(out: &mut Vec<LoadNote>, cond: bool, n: LoadNote)
    ensures
        final(out)@ == old(out)@ + note_if(cond, n),
{
    if cond {
        out.push(n);
    }
    assert(out@ =~= old(out)@ + note_if(cond, n));
}

/// What there is to say about the load of a shard at boot.
pub fn load_shard_on_boot(r: LoadResult) -> (notes: Vec<LoadNote>)
    ensures
        notes@ == load_report(r),
{
    let mut notes: Vec<LoadNote> = Vec::new();
    let over = must_evict(r.budget, r.used);
    let evicted: u64 = if over {
        r.evicted
    } else {
        0
    };
    assert(notes@ =~= Seq::<LoadNote>::empty());
    say_if(&mut notes, r.loaded > 0, LoadNote::Loaded { loaded: r.loaded, evicted });
    say_if(&mut notes, evicted > 0, LoadNote::Evicted(evicted));
    say_if(
        &mut notes,
        over && r.used_after > r.budget,
        LoadNote::OverBudget { budget: r.budget, used: r.used_after },
    );
    match r.delta {
        DeltaLog::Absent => {},
        DeltaLog::Applied(n) => {
            say_if(&mut notes, n > 0, LoadNote::Merged(n));
        },
        DeltaLog::Torn => {
            say_if(&mut notes, true, LoadNote::Torn);
        },
    }
    assert(notes@ =~= load_report(r));
    notes
}

/// How often the periodic save looks at its policy, in milliseconds.
pub const PERIODIC_SAVE_POLL: u64 = 1000;

/// The interval that the periodic save is in.
#[derive(Debug)]
pub struct PeriodicSave {
    /// When it began, in seconds.
    pub window_start: u64,
}

/// Whether the interval of a policy is over.
pub open spec fn window_over(start: u64, now: u64, interval: u64) -> bool {
    interval > 0 && now - start >= interval
}

/// Starts the periodic save.
pub fn spawn_periodic_save(now_secs: u64) -> (r: PeriodicSave)
    ensures
        r.window_start == now_secs,
{
    PeriodicSave { window_start: now_secs }
}

impl PeriodicSave {
    /// Looks at the policy. A save is due once its interval is over, there were
    /// enough writes, and no other save is under way; the guard is then held for
    /// it. A policy that is off keeps the interval at its beginning.
    pub fn tick(
        &mut self,
        persist: &mut PersistState,
        interval_secs: u64,
        min_changes: u64,
        now_secs: u64,
    ) -> (r: Option<SaveGuard>)
        ensures
            final(self).window_start == (if interval_secs == 0 || window_over(
                old(self).window_start,
                now_secs,
                interval_secs,
            ) {
                now_secs
            } else {
                old(self).window_start
            }),
            r is Some <==> window_over(old(self).window_start, now_secs, interval_secs) && old(
                persist,
            ).stats.dirty >= min_changes && !old(persist).saving,
            *final(persist) == (PersistState {
                saving: old(persist).saving || r is Some,
                ..*old(persist)
            }),
    {
        if interval_secs == 0 {
            self.window_start = now_secs;
            return None;
        }
        if now_secs < self.window_start || now_secs - self.window_start < interval_secs {
            return None;
        }
        self.window_start = now_secs;
        if persist.dirty() < min_changes {
            return None;
        }
        persist.try_begin_save()
    }
}

/// What an exit found out about its final save.
#[derive(Debug)]
pub enum ExitSave {
    /// The latch did not become free in time.
    NotBegun,
    /// The save ran within its time limit or not.
    Ran(Option<Result<(), String>>),
}

/// Whether an exit takes a final save: the node has a data directory and a save
/// policy.
pub fn exit_saves(persist: bool, save_policy: bool) -> (r: bool)
    ensures
        r == (persist && save_policy),
{
    persist && save_policy
}

/// Whether the final save of an exit was committed.
pub fn save_on_exit_if_configured(
    persist: &mut PersistState,
    save_policy: bool,
    save: ExitSave,
) -> (r: bool)
    ensures
        r == (save_policy && (save matches ExitSave::Ran(Some(Ok(_))))),
        *final(persist) == (if save_policy && (save matches ExitSave::Ran(None)) {
            PersistState {
                stats: PersistStats { last_bgsave_ok: false, ..old(persist).stats },
                ..*old(persist)
            }
        } else {
            *old(persist)
        }),
{
    if !exit_saves(true, save_policy) {
        return false;
    }
    match save {
        ExitSave::NotBegun => false,
        ExitSave::Ran(ended) => do_save_all_bounded(persist, ended).is_ok(),
    }
}

/// What a shard does at boot follows from what it is: it loads where it has a data
/// directory and was not handed its keys, the first shard alone reads the time of the
/// last save, runs the periodic save and forms the cluster, and every shard serves unless
/// it was to be handed its keys and was not.
pub proof fn law_boot_does_what_is_due(f: BootFacts)
    ensures
        boot_sequence(f)[0] == BootAction::Start,
        f.received == Received::Failed ==> !boot_sequence(f).contains(BootAction::Serve)
            && !boot_sequence(f).contains(BootAction::Load) && !boot_sequence(f).contains(
            BootAction::SignalReady,
        ) && boot_sequence(f).last() == BootAction::Abort,
        f.received != Received::Failed ==> {
            let s = boot_sequence(f);
            let load = f.persist && f.received == Received::NotReceiver;
            &&& s.last() == BootAction::Serve
            &&& !s.contains(BootAction::Abort)
            &&& s.contains(BootAction::Load) == load
            &&& s.contains(BootAction::NoteLoaded) == load
            &&& s.contains(BootAction::SeedLastSave) == (load && f.shard == 0)
            &&& s.contains(BootAction::SpawnPeriodicSave) == (load && f.shard == 0)
            &&& s.contains(BootAction::SignalReady) == f.readiness
            &&& s.contains(BootAction::AttachReplica) == f.raft
            &&& s.contains(BootAction::FormCluster) == (f.shard == 0 && f.cluster && f.raft
                && f.topology)
            &&& s.no_duplicates()
        },
{
    let s = boot_sequence(f);
    if f.received != Received::Failed {
        let load = f.persist && f.received == Received::NotReceiver;
        let first = f.shard == 0;
        let form = first && f.cluster && f.raft && f.topology;
        let s1 = seq![BootAction::Start];
        let s2 = s1 + action_if(load, BootAction::Load);
        let s3 = s2 + action_if(load && first, BootAction::SeedLastSave);
        let s4 = s3 + action_if(load && first, BootAction::SpawnPeriodicSave);
        let s5 = s4 + action_if(load, BootAction::NoteLoaded);
        let s6 = s5 + action_if(f.readiness, BootAction::SignalReady);
        let s7 = s6 + action_if(f.raft, BootAction::AttachReplica);
        let s8 = s7 + action_if(form, BootAction::FormCluster);
        assert forall|x: BootAction| #[trigger] s1.contains(x) <==> x == BootAction::Start by {
            if x == BootAction::Start {
                assert(s1[0] == x);
            }
        }
        lemma_appended(s1, load, BootAction::Load);
        lemma_appended(s2, load && first, BootAction::SeedLastSave);
        lemma_appended(s3, load && first, BootAction::SpawnPeriodicSave);
        lemma_appended(s4, load, BootAction::NoteLoaded);
        lemma_appended(s5, f.readiness, BootAction::SignalReady);
        lemma_appended(s6, f.raft, BootAction::AttachReplica);
        lemma_appended(s7, form, BootAction::FormCluster);
        lemma_appended(s8, true, BootAction::Serve);
        assert(s == s8 + action_if(true, BootAction::Serve));
    }
}

proof fn lemma_appended(s: Seq<BootAction>, cond: bool, a: BootAction)
    ensures
        forall|x: BootAction| #[trigger]
            (s + action_if(cond, a)).contains(x) <==> s.contains(x) || (cond && x == a),
        s.no_duplicates() && !s.contains(a) ==> (s + action_if(cond, a)).no_duplicates(),
{
    let t = s + action_if(cond, a);
    assert forall|x: BootAction| #[trigger] t.contains(x) <==> s.contains(x) || (cond && x == a) by {
        if s.contains(x) {
            let i = choose|i: int| 0 <= i < s.len() && s[i] == x;
            assert(t[i] == x);
        }
        if cond && x == a {
            assert(t[s.len() as int] == x);
        }
        if t.contains(x) {
            let i = choose|i: int| 0 <= i < t.len() && t[i] == x;
            if i < s.len() {
                assert(s[i] == x);
            }
        }
    }
    if s.no_duplicates() && !s.contains(a) {
        assert forall|i: int, j: int| 0 <= i < t.len() && 0 <= j < t.len() && i != j implies t[i]
            != t[j] by {
            if i < s.len() {
                assert(s.contains(s[i]));
            }
            if j < s.len() {
                assert(s.contains(s[j]));
            }
        }
    }
}

/// A shard that is not told to stop serves on: work is run, and nothing ends it but the
/// end of its inbox. Told to stop, the host of the final save takes it and exits, and any
/// other shard begins to stop.
pub proof fn law_serving_goes_on_until_told(save_host: bool)
    ensures
        drained(DrainPhase::Serving, DrainEvent::Work, save_host).0 == DrainPhase::Serving,
        drained(DrainPhase::Serving, DrainEvent::Work, save_host).1 == DrainAction::RunAndWake,
        drained(DrainPhase::Serving, DrainEvent::Tick(false), save_host) == (
            DrainPhase::Serving,
            DrainAction::Wait,
        ),
        drained(DrainPhase::Serving, DrainEvent::Closed, save_host) == (
            DrainPhase::Over,
            DrainAction::Return,
        ),
        drained(DrainPhase::Serving, DrainEvent::Tick(true), true).1 == DrainAction::SaveAndExit,
        drained(DrainPhase::Serving, DrainEvent::Tick(true), false).0 is Stopping,
{
}

/// A stopping shard without work returns at the sixth look at the latest.
pub proof fn law_idle_shard_stops_soon(idle: u32, total: u32, stop: bool, save_host: bool)
    requires
        idle < 6,
        total < 50,
    ensures
        idle == 5 || total == 49 ==> drained(
            DrainPhase::Stopping { idle, total },
            DrainEvent::Tick(stop),
            save_host,
        ) == (DrainPhase::Over, DrainAction::Return),
        idle < 5 && total < 49 ==> drained(
            DrainPhase::Stopping { idle, total },
            DrainEvent::Tick(stop),
            save_host,
        ).0 == (DrainPhase::Stopping { idle: (idle + 1) as u32, total: (total + 1) as u32 }),
{
}

/// An internal verb takes its own way whatever else is said of it, and any other command
/// goes to its keys or to all of them.
pub proof fn law_routes(verb: Seq<u8>, loading: bool, write: bool, whole: bool)
    ensures
        route_of(encode_utf8(ICSAVE@), loading, write, whole) == Route::Save,
        route_of(verb, loading, write, whole) == Route::Save ==> verb == encode_utf8(ICSAVE@),
        route_of(verb, loading, write, whole) == Route::Publish ==> verb == encode_utf8(
            ICPUBLISH@,
        ),
        route_of(verb, loading, write, whole) == Route::ShardPublish ==> verb == encode_utf8(
            ICSPUBLISH@,
        ),
        route_of(verb, loading, write, whole) == Route::PubSub ==> verb == encode_utf8(ICPUBSUB@),
        route_of(verb, loading, write, whole) == Route::Exists ==> verb == encode_utf8(ICEXISTS@),
        is_internal(verb) ==> route_of(verb, loading, write, whole) == route_of(
            verb,
            false,
            false,
            false,
        ),
        !is_internal(verb) && !loading && whole ==> route_of(verb, loading, write, whole)
            == Route::WholeKeyspace,
        route_of(verb, loading, write, whole) == Route::Loading ==> loading && write,
        route_of(verb, loading, write, whole) == Route::Keyed ==> !whole && !is_internal(verb),
{
}

/// A key counts as present if and only if it was named and is alive.
pub proof fn law_presence_is_that_of_the_key(args: Seq<Seq<u8>>, refusal: Seq<char>, live: bool)
    ensures
        answered_at_once(Route::Exists, args, refusal, live)->0.value == ValueModel::Integer(1)
            <==> args.len() >= 2 && live,
        answered_at_once(Route::Exists, args, refusal, live)->0.value == ValueModel::Integer(0)
            <==> !(args.len() >= 2 && live),
        answered_at_once(Route::Keyed, args, refusal, live) is None,
{
}

/// The periodic save is due once the interval has passed, and never where there is none.
pub proof fn law_periodic_save_is_due(start: u64, now: u64, interval: u64)
    ensures
        window_over(start, now, interval) <==> interval != 0 && now >= start + interval,
{
}

/// A load is reported by what came of it: keys that were loaded, keys that had to go, a
/// shard that stays over its ceiling, and what became of the log of changes.
pub proof fn law_load_is_reported(r: LoadResult)
    ensures
        r.loaded > 0 ==> load_report(r).contains(
            LoadNote::Loaded {
                loaded: r.loaded,
                evicted: if r.budget != 0 && r.used > r.budget {
                    r.evicted
                } else {
                    0
                },
            },
        ),
        r.budget != 0 && r.used > r.budget && r.evicted > 0 ==> load_report(r).contains(
            LoadNote::Evicted(r.evicted),
        ),
        r.budget != 0 && r.used > r.budget && r.used_after > r.budget ==> load_report(r).contains(
            LoadNote::OverBudget { budget: r.budget, used: r.used_after },
        ),
        r.delta == DeltaLog::Torn ==> load_report(r).contains(LoadNote::Torn),
        r.delta matches DeltaLog::Applied(n) ==> (n > 0 ==> load_report(r).contains(
            LoadNote::Merged(n),
        )),
        r.loaded == 0 && (r.budget == 0 || r.used <= r.budget) && r.delta == DeltaLog::Absent
            ==> load_report(r).len() == 0,
{
    let s = load_report(r);
    let over = r.budget > 0 && r.used > r.budget;
    let evicted = if over {
        r.evicted
    } else {
        0
    };
    let a = note_if(r.loaded > 0, LoadNote::Loaded { loaded: r.loaded, evicted });
    let b = note_if(evicted > 0, LoadNote::Evicted(evicted));
    let c = note_if(
        over && r.used_after > r.budget,
        LoadNote::OverBudget { budget: r.budget, used: r.used_after },
    );
    if r.loaded > 0 {
        assert(s[0] == a[0]);
    }
    if evicted > 0 {
        assert(s[a.len() as int] == b[0]);
    }
    if over && r.used_after > r.budget {
        assert(s[(a + b).len() as int] == c[0]);
    }
    match r.delta {
        DeltaLog::Torn => {
            assert(s[(a + b + c).len() as int] == LoadNote::Torn);
        },
        DeltaLog::Applied(n) => {
            if n > 0 {
                assert(s[(a + b + c).len() as int] == LoadNote::Merged(n));
            }
        },
        DeltaLog::Absent => {},
    }
}

/// A draining shard stops after 120 milliseconds without work and at the latest after a
/// second; whether a save is due is looked at once a second.
pub proof fn law_pace_of_a_drain()
    ensures
        DRAIN_POLL * HARD_CAP_TICKS == 1000,
        DRAIN_POLL * IDLE_GAP_TICKS == 120,
        PERIODIC_SAVE_POLL == 1000,
{
}

/// A shard that is told to stop starts both its counts anew and waits, unless it takes the
/// final save; work in between starts the count of idle looks anew and no other.
pub proof fn law_a_stop_starts_from_nothing(idle: u32, total: u32, save_host: bool)
    ensures
        !save_host ==> drained(DrainPhase::Serving, DrainEvent::Tick(true), save_host) == (
            DrainPhase::Stopping { idle: 0, total: 0 },
            DrainAction::Wait,
        ),
        save_host ==> drained(DrainPhase::Serving, DrainEvent::Tick(true), save_host) == (
            DrainPhase::Over,
            DrainAction::SaveAndExit,
        ),
        drained(DrainPhase::Stopping { idle, total }, DrainEvent::Work, save_host) == (
            DrainPhase::Stopping { idle: 0, total },
            DrainAction::Run,
        ),
{
}

} // verus!
