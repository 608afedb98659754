//! What the commands of the program decide and print.

use ironcache::rolling::{UpgradeReport, UpgradeStep};
use ironcache::server::{
    cmd_bench, cmd_check, cmd_config, cmd_server, cmd_upgrade, cmd_upgrade_streamed,
    cutover_start, describe_runtime, drive_cutover, ignore_unknown_keys, load_config, malloc_conf, on_signal, parse_log_level,
    print_allocator_check, roll_banner, roll_result, run_cutover_host, runtime_flag, shutdown_result,
    upgrade_success, Allocator, ClusterFailure, Config, CutoverAction, CutoverEnd, HostStep, LogLevel,
    RingSupport, RuntimeBackend, ServerAction, ServerFacts, ServerFlags, ServerSignal, SignalStep,
    SnapshotCheck, UpgradeRoute,
};

#[test]
fn parse_log_level_maps_the_vocabulary() {
    assert_eq!(parse_log_level("error"), (LogLevel::Error, false));
    assert_eq!(parse_log_level("warn"), (LogLevel::Warn, false));
    assert_eq!(parse_log_level("warning"), (LogLevel::Warn, false));
    assert_eq!(parse_log_level("info"), (LogLevel::Info, false));
    assert_eq!(parse_log_level("debug"), (LogLevel::Debug, false));
    assert_eq!(parse_log_level("trace"), (LogLevel::Trace, false));
    // Case-insensitive.
    assert_eq!(parse_log_level("INFO"), (LogLevel::Info, false));
    assert_eq!(parse_log_level("Debug"), (LogLevel::Debug, false));
}

#[test]
fn parse_log_level_unknown_falls_back_to_info() {
    let (level, unknown) = parse_log_level("loud");
    assert_eq!(level, LogLevel::Info);
    assert!(unknown, "an unrecognized level must flag the fallback");
}

#[test]
fn parse_log_level_filters_debug_at_info() {
    let (info, _) = parse_log_level("info");
    let (debug, _) = parse_log_level("debug");
    assert!(
        debug.allows(LogLevel::Debug),
        "a debug event must pass the debug filter"
    );
    assert!(
        !info.allows(LogLevel::Debug),
        "a debug event must be suppressed at info"
    );
}

#[test]
fn malloc_conf_carries_thp_only_on_linux_with_the_hugepages_feature() {
    for linux in [false, true] {
        for hugepages in [false, true] {
            let conf = malloc_conf(linux, hugepages);
            assert!(
                conf.contains("background_thread:true"),
                "malloc_conf keeps the background purge thread: {conf}"
            );
            assert!(
                conf.contains("dirty_decay_ms:5000"),
                "malloc_conf keeps the sub-10 s dirty decay: {conf}"
            );
            let want_thp = linux && hugepages;
            assert_eq!(
                conf.contains("thp:always"),
                want_thp,
                "thp:always present iff Linux + hugepages feature (was {conf:?})"
            );
            if !want_thp {
                assert!(
                    !conf.contains("thp:"),
                    "no thp token unless Linux + hugepages: {conf}"
                );
            }
        }
    }
}

fn config() -> Config {
    Config {
        bind: "127.0.0.1".to_owned(),
        port: 6379,
        shards: 4,
        runtime: RuntimeBackend::Tokio,
        databases: 16,
        persist_cpu: String::new(),
        maxmemory: 0,
        maxmemory_policy: "noeviction".to_owned(),
        timeout_secs: 300,
        requirepass: false,
        tls: false,
        tls_cert_path: None,
        tls_key_path: None,
    }
}

#[test]
fn a_check_reports_the_configuration() {
    let text = cmd_check(&config(), &RingSupport::NotBuilt, &Allocator::Libc);
    assert_eq!(
        text,
        "ironcache check: configuration OK
  bind        = 127.0.0.1:6379
  shards      = 4
  runtime     = tokio
  databases   = 16
  persist-cpu = off (no pin)
  maxmemory   = 0 bytes (unlimited)
  policy      = noeviction
  requirepass = unset
  tls         = off (plaintext)
  allocator   = libc (jemalloc not built on this target)
"
    );
    let mut c = config();
    c.tls = true;
    c.tls_cert_path = Some("/c.pem".to_owned());
    c.tls_key_path = Some("/k.pem".to_owned());
    c.maxmemory = 7;
    c.requirepass = true;
    c.persist_cpu = "0".to_owned();
    let text = cmd_check(&c, &RingSupport::NotBuilt, &Allocator::Libc);
    assert!(text.contains("  tls         = on (rustls, server-auth, client listener)\n"));
    assert!(text.contains("  tls_cert    = /c.pem\n  tls_key     = /k.pem\n"));
    assert!(text.contains("  maxmemory   = 7 bytes\n"));
    assert!(text.contains("  requirepass = set\n"));
    assert!(text.contains("  persist-cpu = 0\n"));
}

#[test]
fn the_effective_configuration_hides_the_password() {
    let mut c = config();
    c.requirepass = true;
    assert_eq!(
        cmd_config(&c),
        "# effective ironcache configuration
bind = \"127.0.0.1\"
port = 6379
shards = 4
runtime = \"tokio\"
databases = 16
maxmemory = 0
maxmemory-policy = \"noeviction\"
timeout = 300
requirepass = \"<set>\"
"
    );
}

#[test]
fn the_runtime_says_why_it_is_not_the_one_asked_for() {
    let ring = RuntimeBackend::IoUring;
    assert_eq!(describe_runtime(RuntimeBackend::Tokio, true, &RingSupport::Capable), "tokio");
    assert_eq!(
        describe_runtime(ring, true, &RingSupport::Capable),
        "io_uring requested -> tokio (TLS is on; the io_uring datapath is plaintext-only in v1)"
    );
    assert_eq!(
        describe_runtime(ring, false, &RingSupport::Capable),
        "io_uring (Linux, io_uring feature, TLS off, kernel-capable)"
    );
    assert_eq!(
        describe_runtime(ring, false, &RingSupport::Refused("ENOSYS".to_owned())),
        "io_uring requested -> tokio (this kernel cannot provide io_uring: ENOSYS)"
    );
    assert!(describe_runtime(RuntimeBackend::IoUringRaw, false, &RingSupport::NotBuilt)
        .contains("io_uring_raw feature)"));
    assert_eq!(runtime_flag(None, None), Ok(None));
    assert_eq!(runtime_flag(Some("io_uring"), Some(ring)), Ok(Some(ring)));
    assert!(runtime_flag(Some("fast"), None).unwrap_err().ends_with(": fast"));
    assert!(ignore_unknown_keys(true, None));
    assert!(ignore_unknown_keys(false, Some(true)));
    assert!(!ignore_unknown_keys(false, Some(false)));
    assert!(!ignore_unknown_keys(false, None));
}

#[test]
fn the_allocator_reports_what_can_be_read() {
    let a = Allocator::Jemalloc { background: Ok(true), decay: Ok(5000) };
    assert_eq!(
        print_allocator_check(&a),
        "  allocator   = jemalloc (background_thread=true, dirty_decay_ms=5000 ms)\n"
    );
    let a = Allocator::Jemalloc { background: Err("no".to_owned()), decay: Ok(-1) };
    assert_eq!(
        print_allocator_check(&a),
        "  allocator   = jemalloc (background_thread=unavailable (no), dirty_decay_ms=-1 ms)\n"
    );
}

#[test]
fn a_refused_boot_starts_no_shard() {
    let f = ServerFacts {
        snapshot: SnapshotCheck::Unsupported,
        refuse_empty_start: true,
        metrics: true,
        tls_reload: true,
    };
    let actions = cmd_server(f);
    assert_eq!(actions.last(), Some(&ServerAction::Refuse));
    assert!(!actions.contains(&ServerAction::StartShards));
    let actions = cmd_server(ServerFacts { refuse_empty_start: false, ..f });
    let at = |a: ServerAction| actions.iter().position(|x| *x == a).expect("done");
    assert!(at(ServerAction::CheckSnapshot) < at(ServerAction::StartShards));
    assert!(at(ServerAction::ServeMetrics) < at(ServerAction::MarkLive));
    assert_eq!(actions.last(), Some(&ServerAction::AwaitSignals));
    let bare = cmd_server(ServerFacts {
        snapshot: SnapshotCheck::NoDataDir,
        refuse_empty_start: true,
        metrics: false,
        tls_reload: false,
    });
    assert!(!bare.contains(&ServerAction::CheckSnapshot));
    assert!(!bare.contains(&ServerAction::ServeMetrics));
}

#[test]
fn only_a_committed_handover_stops_the_server() {
    for end in [
        CutoverEnd::NotConfigured,
        CutoverEnd::NoRuntime,
        CutoverEnd::Aborted,
        CutoverEnd::Unconfirmed,
    ] {
        assert_eq!(drive_cutover(end), CutoverAction::Resume);
        assert_eq!(on_signal(ServerSignal::Cutover(end)), SignalStep::KeepServing);
    }
    assert_eq!(drive_cutover(CutoverEnd::Committed), CutoverAction::SetShutdownFlag);
    assert_eq!(
        on_signal(ServerSignal::Cutover(CutoverEnd::Committed)),
        SignalStep::StopAfterHandoff
    );
    assert_eq!(on_signal(ServerSignal::Shutdown), SignalStep::Stop);
    assert_eq!(shutdown_result(false), Ok(()));
    assert!(shutdown_result(true).is_err());
}

#[test]
fn an_upgrade_takes_one_route() {
    assert_eq!(cmd_upgrade(true, true, true), UpgradeRoute::Cluster);
    assert_eq!(cmd_upgrade(false, true, true), UpgradeRoute::Streamed);
    assert_eq!(cmd_upgrade(false, false, true), UpgradeRoute::IntegrityOnly);
    assert_eq!(cmd_upgrade(false, false, false), UpgradeRoute::Full);
    assert_eq!(
        upgrade_success("v2", Some("v1"), true),
        "upgrade succeeded: now running v2 (was v1)"
    );
    assert_eq!(
        upgrade_success("v2", None, false),
        "upgrade succeeded: now running v2 (was unknown) [WARNING: no persisted snapshot was confirmed; in-memory data was not saved]"
    );
    assert!(cmd_upgrade_streamed("/run/ic.sock")
        .starts_with("streamed live-cutover selected: handoff socket /run/ic.sock."));
    assert!(cmd_bench().starts_with("ironcache bench"));
}

#[test]
fn a_stalled_roll_is_a_failure() {
    assert_eq!(
        roll_banner(3, "v2"),
        "cluster rolling upgrade: 3 node(s) -> target v2 (replicas first, primary upgraded last, RPO=0 failover-freeze)\n"
    );
    assert_eq!(
        roll_result(Ok(UpgradeReport::Completed), 9, "v2").expect("done"),
        "cluster upgrade succeeded: every node is on v2 (primary upgraded last)\n"
    );
    match roll_result(Ok(UpgradeReport::StalledAfterBudget(UpgradeStep::Promote)), 9, "v2") {
        Err(ClusterFailure::Stalled(text)) => assert_eq!(
            text,
            "cluster upgrade did not finish within --max-ticks 9: stalled at promoting an upgraded in-sync replica"
        ),
        other => panic!("expected a stall, got {other:?}"),
    }
}

#[test]
fn the_configuration_is_planned_from_the_flags() {
    let mut flags = ServerFlags {
        config: None,
        bind: Some("0.0.0.0".to_owned()),
        port: Some(7000),
        shards: None,
        runtime: Some("io_uring".to_owned()),
        persist_cpu: Some("auto".to_owned()),
        ignore_unknown_config_keys: false,
    };
    let plan = load_config(&flags, Some(RuntimeBackend::IoUring), Some(true)).expect("a plan");
    assert_eq!(plan.path, "/etc/ironcache/ironcache.toml");
    assert!(plan.ignore_unknown, "the environment says so");
    assert_eq!(plan.flags.bind.as_deref(), Some("0.0.0.0"));
    assert_eq!(plan.flags.port, Some(7000));
    assert_eq!(plan.flags.shards, None);
    assert_eq!(plan.flags.runtime, Some(RuntimeBackend::IoUring));
    assert_eq!(plan.flags.persist_cpu.as_deref(), Some("auto"));
    assert_eq!(plan.flags.ignore_unknown_config_keys, None);
    flags.config = Some("/x.toml".to_owned());
    flags.ignore_unknown_config_keys = true;
    let plan = load_config(&flags, Some(RuntimeBackend::Tokio), None).expect("a plan");
    assert_eq!(plan.path, "/x.toml");
    assert_eq!(plan.flags.ignore_unknown_config_keys, Some(true));
    flags.runtime = Some("fast".to_owned());
    assert!(load_config(&flags, None, None).unwrap_err().ends_with(": fast"));
    flags.runtime = None;
    assert_eq!(load_config(&flags, None, None).expect("a plan").flags.runtime, None);
}

#[test]
fn a_handover_binds_spawns_and_connects_in_order() {
    let mut step = cutover_start(2);
    let mut taken = Vec::new();
    while step != HostStep::Decide {
        taken.push(step);
        step = run_cutover_host(step, 2, true);
    }
    assert_eq!(
        taken,
        vec![
            HostStep::Bind(0),
            HostStep::Bind(1),
            HostStep::Spawn,
            HostStep::Accept(0),
            HostStep::Deliver(0),
            HostStep::Accept(1),
            HostStep::Deliver(1),
        ]
    );
    for step in taken {
        assert_eq!(run_cutover_host(step, 2, false), HostStep::GiveUp);
    }
    assert_eq!(run_cutover_host(HostStep::GiveUp, 2, true), HostStep::GiveUp);
}

#[test]
fn every_redis_log_level_is_known() {
    assert_eq!(parse_log_level("notice"), (LogLevel::Info, false));
    assert_eq!(parse_log_level("NOTICE"), (LogLevel::Info, false));
    assert_eq!(parse_log_level("verbose"), (LogLevel::Debug, false));
    assert_eq!(parse_log_level("warning"), (LogLevel::Warn, false));
    assert_eq!(parse_log_level("debug"), (LogLevel::Debug, false));
}
