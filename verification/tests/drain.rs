//! A shard from boot to exit.

use ironcache::drain::{
    boot_plan, exit_saves, is_save_host, load_shard_on_boot, must_evict, presence_reply,
    receive_shard_into, refused_reply, reply_at_once, resolve_receive_role, run_drain_loop, run_remote, save_on_exit_if_configured, spawn_periodic_save, BootAction, BootFacts, DeltaLog,
    DrainAction, DrainEvent, DrainPhase, ExitSave, LoadNote, LoadResult, Received, Route,
    DRAIN_POLL, HARD_CAP_TICKS, IDLE_GAP_TICKS,
};
use ironcache::persist::{PersistState, ICSAVE};
use ironcache::coordinator::CounterDeltas;
use ironcache::value::{ErrorReply, Request, Value};

fn facts() -> BootFacts {
    BootFacts {
        shard: 0,
        received: Received::NotReceiver,
        persist: true,
        readiness: true,
        raft: true,
        cluster: true,
        topology: true,
    }
}

#[test]
fn a_shard_is_ready_only_after_it_has_loaded() {
    assert_eq!(
        boot_plan(facts()),
        vec![
            BootAction::Start,
            BootAction::Load,
            BootAction::SeedLastSave,
            BootAction::SpawnPeriodicSave,
            BootAction::NoteLoaded,
            BootAction::SignalReady,
            BootAction::AttachReplica,
            BootAction::FormCluster,
            BootAction::Serve,
        ]
    );
    let other = BootFacts { shard: 1, raft: false, ..facts() };
    assert_eq!(
        boot_plan(other),
        vec![
            BootAction::Start,
            BootAction::Load,
            BootAction::NoteLoaded,
            BootAction::SignalReady,
            BootAction::Serve,
        ]
    );
}

#[test]
fn a_failed_transfer_never_serves() {
    let f = BootFacts { received: Received::Failed, ..facts() };
    assert_eq!(boot_plan(f), vec![BootAction::Start, BootAction::Abort]);
    let f = BootFacts { received: Received::Installed, raft: false, ..facts() };
    assert_eq!(
        boot_plan(f),
        vec![BootAction::Start, BootAction::SignalReady, BootAction::Serve]
    );
}

#[test]
fn a_stop_is_bounded_however_much_work_comes() {
    let mut phase = DrainPhase::Serving;
    let (next, action) = run_drain_loop(phase, DrainEvent::Tick(true), false);
    assert_eq!(action, DrainAction::Wait);
    phase = next;
    let mut ticks = 0;
    while phase != DrainPhase::Over {
        let (next, action) = run_drain_loop(phase, DrainEvent::Work, false);
        assert_eq!(action, DrainAction::Run, "a stopping shard still answers");
        let (next, _) = run_drain_loop(next, DrainEvent::Tick(true), false);
        phase = next;
        ticks += 1;
    }
    assert_eq!(ticks, HARD_CAP_TICKS);
}

#[test]
fn a_quiet_stop_is_short() {
    let (mut phase, _) = run_drain_loop(DrainPhase::Serving, DrainEvent::Tick(true), false);
    let mut ticks = 0;
    while phase != DrainPhase::Over {
        phase = run_drain_loop(phase, DrainEvent::Tick(true), false).0;
        ticks += 1;
    }
    assert_eq!(ticks, IDLE_GAP_TICKS);
    assert_eq!(u64::from(IDLE_GAP_TICKS) * DRAIN_POLL, 120);
}

#[test]
fn the_save_host_saves_and_exits() {
    assert!(is_save_host(0, true, true));
    assert!(!is_save_host(1, true, true));
    assert!(!is_save_host(0, true, false));
    assert_eq!(
        run_drain_loop(DrainPhase::Serving, DrainEvent::Tick(true), true),
        (DrainPhase::Over, DrainAction::SaveAndExit)
    );
    assert_eq!(
        run_drain_loop(DrainPhase::Serving, DrainEvent::Tick(false), true),
        (DrainPhase::Serving, DrainAction::Wait)
    );
    assert_eq!(
        run_drain_loop(DrainPhase::Serving, DrainEvent::Work, true),
        (DrainPhase::Serving, DrainAction::RunAndWake)
    );
    assert_eq!(
        run_drain_loop(DrainPhase::Serving, DrainEvent::Closed, true),
        (DrainPhase::Over, DrainAction::Return)
    );
}

#[test]
fn work_is_routed_by_its_verb() {
    let route = |verb: &str, loading: bool, write: bool, whole: bool| {
        let r = Request { args: vec![verb.as_bytes().to_vec()] };
        run_remote(&r, loading, write, whole)
    };
    assert_eq!(route(ICSAVE, true, true, false), Route::Save);
    assert_eq!(route("__icpublish", false, false, false), Route::Publish);
    assert_eq!(route("__ICSPUBLISH", false, false, false), Route::ShardPublish);
    assert_eq!(route("__ICPUBSUB", false, false, false), Route::PubSub);
    assert_eq!(route("__ICEXISTS", false, false, false), Route::Exists);
    assert_eq!(route("SET", true, true, false), Route::Loading);
    assert_eq!(route("GET", true, false, false), Route::Keyed);
    assert_eq!(route("FLUSHALL", true, true, true), Route::Loading);
    assert_eq!(route("DBSIZE", false, false, true), Route::WholeKeyspace);
    assert_eq!(route("__ICINFOKEYSPACE", false, false, false), Route::WholeKeyspace);
    assert_eq!(
        run_remote(&Request { args: Vec::new() }, false, false, false),
        Route::Keyed
    );
}

#[test]
fn a_load_over_the_ceiling_is_reported() {
    assert!(must_evict(10, 11));
    assert!(!must_evict(10, 10));
    assert!(!must_evict(0, u64::MAX));
    let r = LoadResult {
        loaded: 5,
        budget: 10,
        used: 20,
        evicted: 2,
        used_after: 12,
        delta: DeltaLog::Applied(3),
    };
    assert_eq!(
        load_shard_on_boot(r),
        vec![
            LoadNote::Loaded { loaded: 5, evicted: 2 },
            LoadNote::Evicted(2),
            LoadNote::OverBudget { budget: 10, used: 12 },
            LoadNote::Merged(3),
        ]
    );
    let r = LoadResult { loaded: 0, budget: 0, delta: DeltaLog::Torn, ..r };
    assert_eq!(load_shard_on_boot(r), vec![LoadNote::Torn]);
}

#[test]
fn the_periodic_save_waits_for_its_window_and_its_changes() {
    let mut p = PersistState::from_config(Some("/data"), None, None, None, 1).unwrap();
    let mut periodic = spawn_periodic_save(100);
    assert!(periodic.tick(&mut p, 0, 1, 160).is_none(), "no policy");
    assert!(periodic.tick(&mut p, 60, 1, 219).is_none(), "the window is not over");
    assert!(periodic.tick(&mut p, 60, 1, 220).is_none(), "nothing changed");
    p.note_write();
    assert!(periodic.tick(&mut p, 60, 1, 279).is_none());
    let guard = periodic.tick(&mut p, 60, 1, 280).expect("due");
    p.note_write();
    assert!(periodic.tick(&mut p, 60, 1, 340).is_none(), "one save at a time");
    guard.release(&mut p);
    assert!(periodic.tick(&mut p, 60, 1, 400).is_some());
}

#[test]
fn an_exit_save_counts_only_when_it_went_through() {
    let mut p = PersistState::from_config(Some("/data"), None, None, None, 1).unwrap();
    assert!(exit_saves(true, true));
    assert!(!exit_saves(true, false));
    assert!(save_on_exit_if_configured(&mut p, true, ExitSave::Ran(Some(Ok(())))));
    assert!(!save_on_exit_if_configured(&mut p, false, ExitSave::Ran(Some(Ok(())))));
    assert!(!save_on_exit_if_configured(&mut p, true, ExitSave::NotBegun));
    assert!(!save_on_exit_if_configured(
        &mut p,
        true,
        ExitSave::Ran(Some(Err("disk full".to_owned())))
    ));
    assert!(p.stats().last_bgsave_ok);
    assert!(!save_on_exit_if_configured(&mut p, true, ExitSave::Ran(None)));
    assert!(!p.stats().last_bgsave_ok);
}

#[test]
fn a_transfer_is_taken_over_whole_or_not_at_all() {
    let mut store = vec![1, 2];
    let failed: Result<(Vec<i32>, u64), &str> = Err("torn");
    assert_eq!(receive_shard_into(&mut store, failed), Err("torn"));
    assert_eq!(store, vec![1, 2]);
    let whole: Result<(Vec<i32>, u64), &str> = Ok((vec![7], 42));
    assert_eq!(receive_shard_into(&mut store, whole), Ok(42));
    assert_eq!(store, vec![7]);
    assert_eq!(resolve_receive_role::<&str>(&None), Received::NotReceiver);
    assert_eq!(resolve_receive_role::<&str>(&Some(Ok(42))), Received::Installed);
    assert_eq!(resolve_receive_role(&Some(Err("torn"))), Received::Failed);
}

#[test]
fn a_write_that_is_held_back_is_refused_and_moves_no_counter() {
    let set = Request { args: vec![b"SET".to_vec(), b"k".to_vec(), b"v".to_vec()] };
    let route = run_remote(&set, true, true, false);
    assert_eq!(route, Route::Loading);
    let e = || ErrorReply::err("LOADING the dataset is being handed over");
    let reply = reply_at_once(route, &set, e(), true).expect("answered");
    assert_eq!(reply.value, Value::Error(e()));
    assert_eq!(reply.deltas, CounterDeltas::default());
    assert_eq!(refused_reply(e()).value, Value::Error(e()));
    // A read is run as ever.
    let get = Request { args: vec![b"GET".to_vec(), b"k".to_vec()] };
    let route = run_remote(&get, true, false, false);
    assert_eq!(route, Route::Keyed);
    assert!(reply_at_once(route, &get, e(), true).is_none());
}

#[test]
fn a_presence_query_is_answered_by_one_or_zero() {
    let ask = Request { args: vec![b"__ICEXISTS".to_vec(), b"k".to_vec()] };
    let route = run_remote(&ask, true, false, false);
    assert_eq!(route, Route::Exists);
    let e = || ErrorReply::err("unused");
    let held = reply_at_once(route, &ask, e(), true).expect("answered");
    assert_eq!((held.value, held.deltas), (Value::Integer(1), CounterDeltas::default()));
    assert_eq!(presence_reply(&ask, false).value, Value::Integer(0));
    let bare = Request { args: vec![b"__ICEXISTS".to_vec()] };
    assert_eq!(presence_reply(&bare, true).value, Value::Integer(0));
}
