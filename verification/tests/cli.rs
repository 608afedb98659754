//! What the command line means.

use ironcache::cli::{
    build_version, effective_metrics_addr, invoked_as_redis_cli, parse_cli_alias, UpgradeArgs,
    UpgradeSource, DEFAULT_METRICS_ADDR, DEFAULT_PORT, DEFAULT_UPGRADE_REPO,
};
use ironcache::cluster_upgrade_driver::{ActuationTarget, Inventory};

/// The arguments of a bare `upgrade`.
fn upgrade_args() -> UpgradeArgs {
    UpgradeArgs {
        binary: None,
        sha256sums: None,
        from_url: None,
        sums_url: None,
        to: None,
        repo: None,
        target: "/usr/local/bin/ironcache".to_owned(),
        unit: "ironcache".to_owned(),
        readyz_addr: "127.0.0.1:9091".to_owned(),
        resp_addr: "127.0.0.1:6379".to_owned(),
        auth_file: None,
        health_timeout: 30,
        no_rollback: false,
        yes: false,
        allow_same: false,
        no_freeze: false,
        cluster: false,
        inventory: None,
        max_lag: 64,
        drain_timeout: 60,
        pause_ms: 30_000,
        per_node_timeout: 30,
        max_ticks: 300,
        dry_run: false,
        actuator_command: None,
    }
}

#[test]
fn build_version_matches_option_env_fallback() {
    assert_eq!(build_version(None, "0.0.0"), "0.0.0");
    assert_eq!(build_version(Some("2026.0707.1"), "0.0.0"), "2026.0707.1");
    assert!(!build_version(None, "0.0.0").is_empty());
}

#[test]
fn redis_cli_alias_detection() {
    assert!(invoked_as_redis_cli("redis-cli"));
    assert!(invoked_as_redis_cli("/usr/local/bin/redis-cli"));
    assert!(invoked_as_redis_cli("redis-cli.exe"));
    assert!(!invoked_as_redis_cli("ironcache"));
    assert!(!invoked_as_redis_cli("/opt/ironcache"));
}

#[test]
fn metrics_addr_defaults_on_localhost() {
    assert_eq!(effective_metrics_addr(None), Some(DEFAULT_METRICS_ADDR));
    assert_eq!(effective_metrics_addr(None), Some("127.0.0.1:9091"));
}

#[test]
fn metrics_addr_override_is_honored() {
    assert_eq!(
        effective_metrics_addr(Some("0.0.0.0:9121")),
        Some("0.0.0.0:9121")
    );
    assert_eq!(
        effective_metrics_addr(Some("  127.0.0.1:9091  ")),
        Some("127.0.0.1:9091")
    );
}

#[test]
fn metrics_addr_disable_sentinels_turn_it_off() {
    for raw in [
        "off", "OFF", "Off", "none", "None", "disable", "disabled", "", "   ",
    ] {
        assert_eq!(
            effective_metrics_addr(Some(raw)),
            None,
            "'{raw}' should disable the metrics endpoint"
        );
    }
}

#[test]
fn cluster_without_inventory_is_a_clear_error() {
    let mut args = upgrade_args();
    args.cluster = true;
    args.to = Some("v1.2.3".to_owned());
    let err = args
        .require_cluster_inputs()
        .expect_err("cluster needs --inventory");
    assert!(err.contains("--inventory"), "{err}");
}

#[test]
fn cluster_without_to_is_a_clear_error() {
    let mut args = upgrade_args();
    args.cluster = true;
    args.inventory = Some("/tmp/inv.toml".to_owned());
    let err = args
        .require_cluster_inputs()
        .expect_err("cluster needs --to");
    assert!(err.contains("--to"), "{err}");
}

#[test]
fn cluster_inputs_resolve_when_both_present() {
    let mut args = upgrade_args();
    args.cluster = true;
    args.inventory = Some("/tmp/inv.toml".to_owned());
    args.to = Some("v1.2.3".to_owned());
    let (inv, target) = args.require_cluster_inputs().expect("both present");
    assert_eq!(inv, "/tmp/inv.toml");
    assert_eq!(target, "v1.2.3");
}

#[test]
fn resolve_source_local_returns_the_paths() {
    let mut args = upgrade_args();
    args.binary = Some("/tmp/ic".to_owned());
    args.sha256sums = Some("/tmp/SUMS".to_owned());
    let source = args.resolve_upgrade_source().expect("both paths given");
    assert!(
        !matches!(source, UpgradeSource::Url { .. } | UpgradeSource::Release { .. }),
        "local mode fetches nothing"
    );
    match source {
        UpgradeSource::Local { binary, sha256sums } => {
            assert_eq!(binary, "/tmp/ic");
            assert_eq!(sha256sums, "/tmp/SUMS");
        }
        other => panic!("expected the local source, got {other:?}"),
    }
}

#[test]
fn resolve_source_binary_without_sums_errors() {
    let mut args = upgrade_args();
    args.binary = Some("/tmp/ic".to_owned());
    let err = args
        .resolve_upgrade_source()
        .expect_err("--binary needs --sha256sums");
    assert!(err.contains("--binary requires --sha256sums"), "{err}");
}

#[test]
fn resolve_source_from_url_without_sums_url_errors() {
    let mut args = upgrade_args();
    args.from_url = Some("https://x/a.tar.gz".to_owned());
    let err = args
        .resolve_upgrade_source()
        .expect_err("--from-url needs --sums-url");
    assert!(err.contains("--from-url requires --sums-url"), "{err}");
}

#[test]
fn resolve_source_from_url_refuses_local_sums() {
    let mut args = upgrade_args();
    args.from_url = Some("https://example.invalid/ic.tar.gz".to_owned());
    args.sums_url = Some("https://example.invalid/SHA256SUMS".to_owned());
    match args.resolve_upgrade_source().expect("both addresses given") {
        UpgradeSource::Url { url, sums_url } => {
            assert_eq!(url, "https://example.invalid/ic.tar.gz");
            assert_eq!(sums_url, "https://example.invalid/SHA256SUMS");
        }
        other => panic!("expected the remote source, got {other:?}"),
    }
    args.sha256sums = Some("/tmp/SHA256SUMS".to_owned());
    let err = args.resolve_upgrade_source().unwrap_err();
    assert_eq!(
        err,
        "--sha256sums is for the local --binary source; use --sums-url with --from-url"
    );
}

#[test]
fn resolve_source_both_modes_is_rejected() {
    let mut args = upgrade_args();
    args.binary = Some("/tmp/ic".to_owned());
    args.sha256sums = Some("/tmp/SUMS".to_owned());
    args.from_url = Some("https://x/a.tar.gz".to_owned());
    args.sums_url = Some("https://x/SHA256SUMS".to_owned());
    let err = args.resolve_upgrade_source().unwrap_err();
    assert!(err.contains("mutually exclusive"), "{err}");
}

#[test]
fn resolve_source_no_source_is_rejected() {
    let err = upgrade_args().resolve_upgrade_source().unwrap_err();
    assert!(err.contains("a binary source is required"), "{err}");
}

#[test]
fn resolve_source_to_conflicts_with_other_sources() {
    let mut args = upgrade_args();
    args.to = Some("latest".to_owned());
    args.binary = Some("/tmp/ic".to_owned());
    args.sha256sums = Some("/tmp/S".to_owned());
    let err = args.resolve_upgrade_source().unwrap_err();
    assert!(err.contains("mutually exclusive"), "{err}");
    let mut args = upgrade_args();
    args.to = Some("2026.0701.1".to_owned());
    args.from_url = Some("https://x/a.tgz".to_owned());
    args.sums_url = Some("https://x/S".to_owned());
    let err = args.resolve_upgrade_source().unwrap_err();
    assert!(err.contains("mutually exclusive"), "{err}");
}

#[test]
fn a_release_names_its_repository_and_tag() {
    let mut args = upgrade_args();
    args.to = Some("LATEST".to_owned());
    match args.resolve_upgrade_source().expect("a release") {
        UpgradeSource::Release { repo, tag } => {
            assert_eq!(repo, DEFAULT_UPGRADE_REPO);
            assert_eq!(tag, None);
        }
        other => panic!("expected a release, got {other:?}"),
    }
    args.to = Some("v1.2.3".to_owned());
    args.repo = Some("me/fork".to_owned());
    match args.resolve_upgrade_source().expect("a release") {
        UpgradeSource::Release { repo, tag } => {
            assert_eq!(repo, "me/fork");
            assert_eq!(tag.as_deref(), Some("v1.2.3"));
        }
        other => panic!("expected a release, got {other:?}"),
    }
}

#[test]
fn the_drain_timeout_becomes_polls() {
    let node = ActuationTarget {
        id: "a".to_owned(),
        resp_addr: "127.0.0.1:1".to_owned(),
        auth: None,
        ssh: "a".to_owned(),
        upgrade_source: "--to v1".to_owned(),
    };
    let mut args = upgrade_args();
    let config = args.driver_config(Inventory::new(vec![node]), "v1.2.3");
    assert_eq!(config.target_version, "v1.2.3");
    assert_eq!(config.max_lag, 64);
    assert_eq!(config.inventory.len(), 1);
    assert_eq!(config.freeze.pause_window_ms, 30_000);
    assert_eq!(config.freeze.max_drain_polls, 600);
    assert_eq!(config.freeze.drain_poll_delay_ms, 100);
    assert_eq!(config.poll.tick_delay_ms, 500);
    args.drain_timeout = 0;
    let config = args.driver_config(Inventory::new(Vec::new()), "v1");
    assert_eq!(config.freeze.max_drain_polls, 1);
    args.drain_timeout = u64::MAX;
    let config = args.driver_config(Inventory::new(Vec::new()), "v1");
    assert_eq!(config.freeze.max_drain_polls, u32::MAX);
}

#[test]
fn the_alias_reads_host_and_port() {
    let parse = |words: &[&str]| {
        let args: Vec<String> = words.iter().map(|w| (*w).to_owned()).collect();
        parse_cli_alias(&args)
    };
    assert_eq!(parse(&[]), Ok(("127.0.0.1".to_owned(), DEFAULT_PORT)));
    assert_eq!(
        parse(&["-h", "10.0.0.1", "-p", "7000"]),
        Ok(("10.0.0.1".to_owned(), 7000))
    );
    assert_eq!(
        parse(&["--host", "db", "PING", "--port", "1"]),
        Ok(("db".to_owned(), 1))
    );
    assert_eq!(
        parse(&["-p", "seventy"]),
        Err("invalid -p/--port value 'seventy'".to_owned())
    );
    assert!(parse(&["-p", "70000"]).is_err());
    assert_eq!(parse(&["-p"]), Ok(("127.0.0.1".to_owned(), DEFAULT_PORT)));
}
