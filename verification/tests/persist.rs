//! Saves: the latch, the orders to the shards, and the commit.

use ironcache::coordinator::{CounterDeltas, ShardReply};
use ironcache::handoff::HandoffTarget;
use ironcache::persist::{
    answer_save, assemble_commit, create_dir_error, decode_save_reply, delta_file_name, deltas_enabled,
    do_handoff_save_all, do_save_all, do_save_all_bounded, durable_run, encode_save_reply,
    finish_save, icsave_request, persist_panicked, resolve_boot_load_dir, run_local_save, save_all_to_dir,
    save_order, save_requests, save_shard_local, shard_file_name, wait_to_begin_save, DeltaManifestEntry, Manifest,
    PersistEnd, PersistState, PersistStats, SaveMode, SaveReply, ShardManifestEntry,
    ShardSaveEvent, ShardSaveStep, WaitStep,
    SHUTDOWN_SAVE_POLL, SHUTDOWN_SAVE_WAIT,
};
use ironcache::value::{Request, Value};

#[test]
fn save_reply_base_and_delta_round_trip() {
    let base = SaveReply::Base(ShardManifestEntry {
        shard: 2,
        file: shard_file_name(2),
        keys: 100,
        crc: 0xDEAD,
    });
    assert_eq!(decode_save_reply(&encode_save_reply(&base)), Some(base));
    let delta = SaveReply::Delta(DeltaManifestEntry {
        shard: 2,
        file: delta_file_name(2, 3),
        puts: 5,
        tombstones: 2,
        crc: 0xBEEF,
        base_epoch: 9,
        delta_epoch: 3,
    });
    assert_eq!(decode_save_reply(&encode_save_reply(&delta)), Some(delta));
    assert!(decode_save_reply(&Value::Integer(1)).is_none());
    assert!(
        decode_save_reply(&Value::Array(Some(vec![
            Value::Integer(9),
            Value::Integer(0)
        ])))
        .is_none(),
        "an unknown tag decodes to None"
    );
}

fn base_entry(shard: u32) -> ShardManifestEntry {
    ShardManifestEntry {
        shard,
        file: shard_file_name(shard),
        keys: 10,
        crc: 1,
    }
}

fn delta_entry(shard: u32, base_epoch: u64, delta_epoch: u64) -> DeltaManifestEntry {
    DeltaManifestEntry {
        shard,
        file: delta_file_name(shard, delta_epoch),
        puts: 1,
        tombstones: 0,
        crc: 1,
        base_epoch,
        delta_epoch,
    }
}

#[test]
fn assemble_commit_base_uses_fresh_id_and_empty_chain() {
    let commit = assemble_commit(
        SaveMode::Base,
        7,
        None,
        vec![base_entry(0), base_entry(1)],
        Vec::new(),
    )
    .expect("base commit");
    assert_eq!(commit.save_id, 7, "a base takes a fresh generation id");
    assert_eq!(commit.entries.len(), 2);
    assert!(commit.deltas.is_empty(), "a base has an empty chain");
}

#[test]
fn assemble_commit_delta_carries_forward_prior_base_and_chain() {
    let prior = Manifest {
        save_id: 3,
        save_unix_secs: 100,
        entries: vec![base_entry(0), base_entry(1)],
        deltas: vec![delta_entry(0, 3, 1), delta_entry(1, 3, 1)],
    };
    let commit = assemble_commit(
        SaveMode::Delta {
            base_epoch: 3,
            delta_epoch: 2,
        },
        99, // the next id is IGNORED for a delta (it stays on its base)
        Some(&prior),
        Vec::new(),
        vec![delta_entry(0, 3, 2), delta_entry(1, 3, 2)],
    )
    .expect("delta commit");
    assert_eq!(commit.save_id, 3, "a delta STAYS on its base generation");
    assert_eq!(commit.entries.len(), 2, "the prior base entries are carried forward");
    assert_eq!(commit.deltas.len(), 4, "prior chain (2) + this round (2)");
    assert_eq!(commit.entries, prior.entries);
    assert_eq!(commit.deltas[..2], prior.deltas[..]);
}

#[test]
fn assemble_commit_delta_guards_reject_corruption() {
    let prior = Manifest {
        save_id: 5,
        save_unix_secs: 100,
        entries: vec![base_entry(0)],
        deltas: Vec::new(),
    };
    let delta = SaveMode::Delta {
        base_epoch: 5,
        delta_epoch: 1,
    };
    assert!(
        assemble_commit(delta, 6, Some(&prior), vec![base_entry(0)], Vec::new()).is_err(),
        "a base reply under a delta mode is rejected"
    );
    assert!(
        assemble_commit(delta, 6, Some(&prior), Vec::new(), vec![delta_entry(0, 999, 1)]).is_err(),
        "a mismatched base_epoch fails loud instead of truncating the chain"
    );
    assert!(
        assemble_commit(delta, 6, None, Vec::new(), vec![delta_entry(0, 5, 1)]).is_err(),
        "a delta with no prior manifest is rejected"
    );
    assert!(
        assemble_commit(SaveMode::Base, 6, None, Vec::new(), vec![delta_entry(0, 5, 1)]).is_err(),
        "a delta reply under a base mode is rejected"
    );
}

/// A bare state for latch tests.
fn latch_state() -> PersistState {
    PersistState {
        dir: "/nonexistent-test-dir".to_owned(),
        handoff_base: None,
        boot_load_dir: "/nonexistent-test-dir".to_owned(),
        handoff_cleanup_dir: None,
        shards_pending_load: 1,
        stats: PersistStats {
            last_save_unix_secs: 0,
            dirty: 0,
            last_bgsave_ok: true,
        },
        save_id: 0,
        saving: false,
        needs_base: true,
    }
}

#[test]
fn seed_last_save_from_manifest_seeds_lastsave_on_boot() {
    let mut p = latch_state();
    p.seed_last_save_from_manifest(None);
    assert_eq!(p.last_save(), 0, "no manifest -> LASTSAVE stays 0");
    p.seed_last_save_from_manifest(Some(1_700_000_000));
    assert_eq!(
        p.last_save(),
        1_700_000_000,
        "the seed reflects the loaded snapshot's manifest save time"
    );
    p.record_committed(1_700_009_999);
    p.seed_last_save_from_manifest(Some(1_700_000_000));
    assert_eq!(
        p.last_save(),
        1_700_009_999,
        "the seed never overwrites a fresher in-process save"
    );
}

#[test]
fn save_guard_serializes_and_releases_on_drop() {
    let mut p = latch_state();
    let g = p.try_begin_save().expect("first save wins the latch");
    assert!(p.saving, "latch held while guard live");
    assert!(
        p.try_begin_save().is_none(),
        "a concurrent save is denied while the guard is held"
    );
    g.release(&mut p);
    assert!(!p.saving, "the latch releases when the guard is released");
    let g2 = p
        .try_begin_save()
        .expect("the next save wins after release");
    g2.release(&mut p);
    assert!(!p.saving);
    p.saving = true;
    p.release_save();
    assert!(!p.saving);
}

#[test]
fn wait_to_begin_save_blocks_while_held_then_acquires_on_release() {
    let mut p = latch_state();
    let in_flight = p
        .try_begin_save()
        .expect("the in-flight save wins the latch");
    let mut waiter = wait_to_begin_save(60_000);
    for _ in 0..5 {
        match waiter.poll(&mut p) {
            WaitStep::Sleep(ms) => assert_eq!(ms, SHUTDOWN_SAVE_POLL),
            other => panic!("the waiter must NOT acquire while the latch is held: {other:?}"),
        }
    }
    assert!(p.saving, "latch still held");
    in_flight.release(&mut p);
    match waiter.poll(&mut p) {
        WaitStep::Acquired(guard) => guard.release(&mut p),
        other => panic!("the waiter acquires after the latch frees: {other:?}"),
    }
    assert!(!p.saving);
}

#[test]
fn wait_to_begin_save_times_out_cleanly_when_latch_stays_held() {
    let mut p = latch_state();
    let _held = p.try_begin_save().expect("hold the latch");
    let mut waiter = wait_to_begin_save(200);
    let mut slept = 0;
    loop {
        match waiter.poll(&mut p) {
            WaitStep::Sleep(ms) => slept += ms,
            WaitStep::TimedOut => break,
            WaitStep::Acquired(_) => panic!("no false acquire"),
        }
    }
    assert_eq!(slept, 200, "the wait is as long as its deadline");
    assert!(p.saving, "the latch is STILL held");
}

#[test]
fn wait_to_begin_save_acquires_immediately_when_free() {
    let mut p = latch_state();
    let guard = match wait_to_begin_save(SHUTDOWN_SAVE_WAIT).poll(&mut p) {
        WaitStep::Acquired(guard) => guard,
        other => panic!("a free latch is won at once: {other:?}"),
    };
    assert!(p.saving, "the waiter holds the latch");
    assert!(
        p.try_begin_save().is_none(),
        "a concurrent save is denied while the waiter's guard is held"
    );
    guard.release(&mut p);
    assert!(!p.saving, "the latch frees when the waiter's guard is released");
}

#[test]
fn the_last_wait_is_cut_to_the_deadline() {
    let mut p = latch_state();
    p.saving = true;
    let mut waiter = wait_to_begin_save(30);
    assert!(matches!(waiter.poll(&mut p), WaitStep::Sleep(20)));
    assert!(matches!(waiter.poll(&mut p), WaitStep::Sleep(10)));
    assert!(matches!(waiter.poll(&mut p), WaitStep::TimedOut));
}

#[test]
fn the_newer_snapshot_is_loaded() {
    let load = |handoff, durable| {
        resolve_boot_load_dir("/data", Some("/dev/shm"), handoff, durable)
    };
    assert_eq!(
        load(Some(2), Some(1)),
        ("/dev/shm/ironcache-handoff".to_owned(), Some("/dev/shm/ironcache-handoff".to_owned()))
    );
    assert_eq!(load(Some(1), Some(2)).0, "/data");
    assert_eq!(load(None, Some(2)), ("/data".to_owned(), None));
    assert_eq!(
        resolve_boot_load_dir("/data", None, Some(9), None),
        ("/data".to_owned(), None)
    );
}

#[test]
fn a_state_needs_a_data_directory() {
    assert!(PersistState::from_config(None, None, None, None, 4).is_none());
    let p = PersistState::from_config(Some("/data"), None, None, None, 4).expect("a state");
    assert_eq!(p.dir, "/data");
    assert_eq!(p.shards_pending_load, 4);
    assert!(p.needs_base());
    assert_eq!(p.next_save_id(), 1);
    let p = PersistState::from_config(Some("/data"), None, None, None, 0).expect("a state");
    assert_eq!(p.shards_pending_load, 1);
}

#[test]
fn the_last_shard_frees_the_handoff_snapshot() {
    let mut p =
        PersistState::from_config(Some("/data"), Some("/dev/shm"), Some(2), Some(1), 2).unwrap();
    assert_eq!(p.note_shard_loaded(), None);
    assert_eq!(
        p.note_shard_loaded().as_deref(),
        Some("/dev/shm/ironcache-handoff")
    );
}

#[test]
fn the_counters_follow_the_saves() {
    let mut p = latch_state();
    p.note_write();
    p.note_write();
    assert_eq!(p.dirty(), 2);
    p.record_save_failed();
    assert!(!p.stats().last_bgsave_ok);
    assert_eq!(p.dirty(), 2, "a failed save leaves the writes dirty");
    p.record_handoff_committed(5);
    assert_eq!((p.last_save(), p.dirty(), p.save_id), (5, 2, 1));
    p.record_committed(7);
    assert_eq!((p.last_save(), p.dirty(), p.save_id), (7, 0, 2));
    assert!(p.stats().last_bgsave_ok);
    p.record_committed_delta(8);
    assert_eq!((p.last_save(), p.save_id), (8, 2), "a delta takes no id");
    p.clear_needs_base();
    assert!(!p.needs_base());
    p.force_needs_base();
    assert!(p.needs_base());
}

#[test]
fn the_handoff_target_follows_the_memory() {
    let mut p = latch_state();
    assert_eq!(
        p.resolve_handoff_target(1, 0, Some(u64::MAX)),
        HandoffTarget::DataDir,
        "no RAM-backed base"
    );
    p.handoff_base = Some("/dev/shm".to_owned());
    assert_eq!(
        p.resolve_handoff_target(1, 0, Some(1 << 40)),
        HandoffTarget::Tmpfs("/dev/shm/ironcache-handoff".to_owned())
    );
    assert_eq!(p.resolve_handoff_target(1, 0, None), HandoffTarget::DataDir);
}

#[test]
fn an_order_is_read_as_it_was_written() {
    for paced in [false, true] {
        for mode in [SaveMode::Base, SaveMode::Delta { base_epoch: 3, delta_epoch: 4 }] {
            let request = icsave_request(1_700_000_000, 5, "/data/x", mode, paced);
            let order = save_order(&request).expect("well-formed");
            assert_eq!(order.save_unix_secs, 1_700_000_000);
            assert_eq!(order.shard, 5);
            assert_eq!(order.dir, "/data/x");
            assert_eq!(order.mode, mode);
            assert_eq!(order.paced, paced);
        }
    }
    let bad = Request { args: vec![b"__ICSAVE".to_vec()] };
    assert_eq!(save_order(&bad).unwrap_err().message, "malformed __ICSAVE");
}

#[test]
fn an_order_keeps_a_directory_beyond_ascii() {
    for dir in ["/daten/größe", "/データ", "/mnt/😀/x", ""] {
        let request = icsave_request(1, 0, dir, SaveMode::Base, true);
        assert_eq!(save_order(&request).expect("well-formed").dir, dir);
    }
}

#[test]
fn an_order_with_unreadable_epochs_is_for_a_base() {
    let delta = SaveMode::Delta { base_epoch: 3, delta_epoch: 4 };
    for at in [5, 6] {
        let mut request = icsave_request(9, 2, "/data", delta, false);
        request.args[at] = b"x".to_vec();
        let order = save_order(&request).expect("well-formed");
        assert_eq!(order.mode, SaveMode::Base);
        assert_eq!((order.save_unix_secs, order.shard), (9, 2));
    }
    // One epoch alone makes no delta either.
    let mut request = icsave_request(9, 2, "/data", delta, false);
    request.args.truncate(6);
    assert_eq!(save_order(&request).expect("well-formed").mode, SaveMode::Base);
}

#[test]
fn a_shard_answers_what_became_of_its_save() {
    let written = SaveReply::Base(base_entry(1));
    let expected = encode_save_reply(&written);
    assert_eq!(run_local_save(PersistEnd::Written(written)), answered(expected));
    for end in [
        PersistEnd::NotSpawned("x".to_owned()),
        PersistEnd::Failed("x".to_owned()),
        PersistEnd::Lost,
    ] {
        assert!(matches!(answer_save(end), Value::Error(_)));
    }
}

fn answered(value: Value) -> ShardReply {
    ShardReply {
        value,
        deltas: CounterDeltas {
            expired: 0,
            moved: false,
        },
    }
}

#[test]
fn a_durable_save_goes_through_and_no_longer_owes_a_base() {
    let mut p = latch_state();
    let run = durable_run(&p, 50, false, true);
    assert!(!deltas_enabled(&p, &run), "a base is owed first");
    let requests = save_requests(&run, SaveMode::Base, 2);
    assert_eq!(requests.len(), 2);
    assert_eq!(requests[1].0, 1);
    let replies: Vec<(usize, ShardReply)> = (0..2u32)
        .map(|i| {
            let value = encode_save_reply(&SaveReply::Base(base_entry(i)));
            (i as usize, answered(value))
        })
        .collect();
    let commit = save_all_to_dir(&mut p, &run, SaveMode::Base, None, &replies).expect("commit");
    assert_eq!(commit.save_id, 1);
    assert_eq!(commit.entries.len(), 2);
    assert!(p.needs_base(), "until the manifest is written");
    assert_eq!(finish_save(&mut p, &run, SaveMode::Base, Ok(())), Ok(()));
    assert!(!p.needs_base());
    assert_eq!((p.last_save(), p.save_id), (50, 1));
    let run = durable_run(&p, 60, false, true);
    assert!(deltas_enabled(&p, &run));
}

#[test]
fn a_shard_that_fails_fails_the_save() {
    let mut p = latch_state();
    let run = durable_run(&p, 50, true, false);
    let replies = vec![(0usize, answered(Value::Integer(1)))];
    let err = save_all_to_dir(&mut p, &run, SaveMode::Base, None, &replies).unwrap_err();
    assert_eq!(do_save_all(&mut p, Err(err.clone())), Err(err));
    assert!(!p.stats().last_bgsave_ok);
    assert_eq!(
        finish_save(&mut p, &run, SaveMode::Base, Err("disk full".to_owned())),
        Err("manifest write failed: disk full".to_owned())
    );
}

#[test]
fn a_fan_out_that_hangs_is_a_failure() {
    let mut p = latch_state();
    assert_eq!(do_save_all_bounded(&mut p, Some(Ok(()))), Ok(()));
    assert!(p.stats().last_bgsave_ok);
    assert!(do_save_all_bounded(&mut p, None).is_err());
    assert!(!p.stats().last_bgsave_ok);
    assert_eq!(
        create_dir_error("/x", "denied"),
        "cannot create snapshot dir /x: denied"
    );
}

#[test]
fn a_handoff_save_goes_to_its_target() {
    let p = latch_state();
    let run = do_handoff_save_all(&p, HandoffTarget::Tmpfs("/dev/shm/h".to_owned()), 9, true);
    assert_eq!(run.dir, "/dev/shm/h");
    assert!(!run.durable);
    assert!(!run.paced);
    let run = do_handoff_save_all(&p, HandoffTarget::DataDir, 9, true);
    assert_eq!(run.dir, "/nonexistent-test-dir");
    assert!(run.durable);
}

#[test]
fn file_names_count_from_zero() {
    assert_eq!(shard_file_name(0), "dump-shard-0.icss");
    assert_eq!(delta_file_name(2, 3), "dump-shard-2-delta-3.icsd");
}

#[test]
fn a_freeze_is_ended_before_the_answer() {
    let request = icsave_request(5, 1, "/data", SaveMode::Base, false);
    match save_shard_local(ShardSaveEvent::Asked(request)) {
        ShardSaveStep::FreezeAndWrite(order) => {
            assert_eq!((order.shard, order.dir.as_str()), (1, "/data"));
        }
        other => panic!("expected a freeze, got {other:?}"),
    }
    let ends = [
        PersistEnd::NotSpawned("no threads".to_owned()),
        PersistEnd::Written(SaveReply::Base(base_entry(1))),
        persist_panicked(Some("boom")),
        PersistEnd::Lost,
    ];
    for end in ends {
        assert!(matches!(
            save_shard_local(ShardSaveEvent::Ended(end)),
            ShardSaveStep::ThawAndAnswer(_)
        ));
    }
    let malformed = Request { args: vec![b"__ICSAVE".to_vec(), b"x".to_vec()] };
    match save_shard_local(ShardSaveEvent::Asked(malformed)) {
        ShardSaveStep::Answer(Value::Error(e)) => assert_eq!(e.message, "malformed __ICSAVE"),
        other => panic!("expected an error, got {other:?}"),
    }
}

#[test]
fn a_panic_names_its_cause() {
    match answer_save(persist_panicked(Some("boom"))) {
        Value::Error(e) => assert_eq!(e.message, "save failed: persist thread panicked: boom"),
        other => panic!("expected an error, got {other:?}"),
    }
    match persist_panicked(None) {
        PersistEnd::Failed(e) => {
            assert_eq!(e, "persist thread panicked: non-string panic payload");
        }
        other => panic!("expected a failure, got {other:?}"),
    }
}
