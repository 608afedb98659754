//! The inventory of a cluster and the plan of its upgrade.

use ironcache::cluster_upgrade::{ClusterView, NodeRole, NodeView};
use ironcache::cluster_upgrade_inventory::{
    derive_plan, is_valid_host_port, parse_inventory, to_target, InventoryError, RawInventory,
    RawNode,
};
use ironcache::repl::{LinkStatus, ReplOffset, ReplicaLag};
use toml::{Table, Value};

/// The text of a key that has to be there.
fn required(table: &mut Table, key: &str) -> Result<String, String> {
    match table.remove(key) {
        Some(Value::String(s)) => Ok(s),
        Some(_) => Err(format!("{key} is no text")),
        None => Err(format!("missing field `{key}`")),
    }
}

/// An error where keys are left over.
fn nothing_left(table: &Table) -> Result<(), String> {
    match table.keys().next() {
        Some(key) => Err(format!("unknown field `{key}`")),
        None => Ok(()),
    }
}

/// Reads a document into the bare inventory, without keys it does not know.
fn read(text: &str) -> Result<RawInventory, String> {
    let mut table: Table = text.parse::<Table>().map_err(|e| e.to_string())?;
    let mut seeds = Vec::new();
    if let Some(value) = table.remove("seeds") {
        for seed in value.as_array().ok_or("seeds is no list")? {
            seeds.push(seed.as_str().ok_or("a seed is no text")?.to_owned());
        }
    }
    let mut nodes = Vec::new();
    if let Some(value) = table.remove("node") {
        for node in value.as_array().ok_or("node is no list")? {
            let mut node = node.as_table().ok_or("a node is no table")?.clone();
            let auth = match node.remove("auth") {
                Some(a) => Some(a.as_str().ok_or("auth is no text")?.to_owned()),
                None => None,
            };
            nodes.push(RawNode {
                id: required(&mut node, "id")?,
                resp_addr: required(&mut node, "resp_addr")?,
                auth,
                ssh_target: required(&mut node, "ssh_target")?,
                upgrade_source: required(&mut node, "upgrade_source")?,
            });
            nothing_left(&node)?;
        }
    }
    nothing_left(&table)?;
    Ok(RawInventory { seeds, nodes })
}

// ---- inventory parsing (placeholders only) ----

const VALID: &str = r#"
    seeds = ["node-a"]

    [[node]]
    id             = "node-a"
    resp_addr      = "10.0.0.1:6379"
    auth           = "requirepass-a"
    ssh_target     = "deploy@node-a.example"
    upgrade_source = "--to v1.2.3"

    [[node]]
    id             = "node-b"
    resp_addr      = "10.0.0.2:6379"
    ssh_target     = "deploy@node-b.example"
    upgrade_source = "--to v1.2.3"

    [[node]]
    id             = "node-c"
    resp_addr      = "10.0.0.3:6379"
    ssh_target     = "deploy@node-c.example"
    upgrade_source = "--to v1.2.3"
"#;

#[test]
fn valid_inventory_round_trips_to_the_expected_actuation_targets() {
    let inv = parse_inventory(read(VALID)).expect("valid inventory parses");
    assert_eq!(inv.len(), 3);
    // Seed-first order: node-a is the sole seed, then the rest in declared order.
    let ids: Vec<&str> = inv.iter().map(|t| t.id.as_str()).collect();
    assert_eq!(ids, ["node-a", "node-b", "node-c"]);

    let a = inv.get("node-a").expect("node-a present");
    assert_eq!(a.resp_addr, "10.0.0.1:6379");
    assert_eq!(a.auth.as_deref(), Some("requirepass-a"));
    assert_eq!(a.ssh, "deploy@node-a.example", "ssh_target maps to ssh");
    assert_eq!(a.upgrade_source, "--to v1.2.3");

    // An omitted `auth` is None (an unauthenticated / open-loopback node).
    let b = inv.get("node-b").expect("node-b present");
    assert!(b.auth.is_none(), "absent auth is None");
}

#[test]
fn seeds_are_placed_first_regardless_of_declaration_order() {
    // node-b is the seed but declared second: it must lead the discovery order.
    let toml = r#"
        seeds = ["node-b"]
        [[node]]
        id = "node-a"
        resp_addr = "10.0.0.1:6379"
        ssh_target = "deploy@node-a.example"
        upgrade_source = "--to v1.2.3"
        [[node]]
        id = "node-b"
        resp_addr = "10.0.0.2:6379"
        ssh_target = "deploy@node-b.example"
        upgrade_source = "--to v1.2.3"
    "#;
    let inv = parse_inventory(read(toml)).expect("parses");
    let ids: Vec<&str> = inv.iter().map(|t| t.id.as_str()).collect();
    assert_eq!(ids, ["node-b", "node-a"], "the seed leads");
}

#[test]
fn malformed_toml_is_a_clear_error() {
    let err = parse_inventory(read("this is = not valid = toml")).expect_err("malformed");
    assert!(matches!(err, InventoryError::Malformed(_)), "{err:?}");
}

#[test]
fn an_unknown_key_is_a_malformed_error() {
    // `deny_unknown_fields`: a typo'd key is caught, not silently ignored.
    let toml = r#"
        seeds = ["node-a"]
        [[node]]
        id = "node-a"
        resp_addr = "10.0.0.1:6379"
        ssh_target = "deploy@node-a.example"
        upgrade_source = "--to v1.2.3"
        typo_field = "oops"
    "#;
    assert!(matches!(
        parse_inventory(read(toml)).expect_err("unknown key"),
        InventoryError::Malformed(_)
    ));
}

#[test]
fn empty_node_list_is_rejected() {
    let err = parse_inventory(read("seeds = [\"node-a\"]\n")).expect_err("no nodes");
    assert!(matches!(err, InventoryError::NoNodes), "{err:?}");
}

#[test]
fn duplicate_ids_are_rejected() {
    let toml = r#"
        seeds = ["node-a"]
        [[node]]
        id = "node-a"
        resp_addr = "10.0.0.1:6379"
        ssh_target = "deploy@node-a.example"
        upgrade_source = "--to v1.2.3"
        [[node]]
        id = "node-a"
        resp_addr = "10.0.0.2:6379"
        ssh_target = "deploy@node-a.example"
        upgrade_source = "--to v1.2.3"
    "#;
    let err = parse_inventory(read(toml)).expect_err("dup id");
    assert!(
        matches!(err, InventoryError::DuplicateId(ref id) if id == "node-a"),
        "{err:?}"
    );
}

#[test]
fn missing_seed_is_rejected() {
    let toml = r#"
        seeds = []
        [[node]]
        id = "node-a"
        resp_addr = "10.0.0.1:6379"
        ssh_target = "deploy@node-a.example"
        upgrade_source = "--to v1.2.3"
    "#;
    assert!(matches!(
        parse_inventory(read(toml)).expect_err("no seed"),
        InventoryError::NoSeed
    ));
}

#[test]
fn an_unknown_seed_is_rejected() {
    let toml = r#"
        seeds = ["node-z"]
        [[node]]
        id = "node-a"
        resp_addr = "10.0.0.1:6379"
        ssh_target = "deploy@node-a.example"
        upgrade_source = "--to v1.2.3"
    "#;
    let err = parse_inventory(read(toml)).expect_err("unknown seed");
    assert!(
        matches!(err, InventoryError::UnknownSeed(ref s) if s == "node-z"),
        "{err:?}"
    );
}

#[test]
fn a_bad_addr_is_rejected() {
    for bad in [
        "10.0.0.1",
        "10.0.0.1:",
        "10.0.0.1:0",
        "10.0.0.1:99999",
        ":6379",
    ] {
        let toml = format!(
            r#"
            seeds = ["node-a"]
            [[node]]
            id = "node-a"
            resp_addr = "{bad}"
            ssh_target = "deploy@node-a.example"
            upgrade_source = "--to v1.2.3"
            "#
        );
        let err = parse_inventory(read(&toml)).expect_err("bad addr");
        assert!(
            matches!(err, InventoryError::BadAddr { .. }),
            "addr {bad:?} should be rejected, got {err:?}"
        );
    }
}

#[test]
fn an_empty_required_field_is_rejected() {
    let toml = r#"
        seeds = ["node-a"]
        [[node]]
        id = "node-a"
        resp_addr = "10.0.0.1:6379"
        ssh_target = ""
        upgrade_source = "--to v1.2.3"
    "#;
    let err = parse_inventory(read(toml)).expect_err("empty ssh_target");
    assert!(
        matches!(
            err,
            InventoryError::EmptyField {
                field: "ssh_target",
                ..
            }
        ),
        "{err:?}"
    );
}

// ---- the --dry-run plan preview ----

const TARGET: &str = "1.2.3";
const OLD: &str = "1.2.2";

fn master(id: &str, version: &str) -> NodeView {
    NodeView {
        id: id.to_owned(),
        version: version.to_owned(),
        role: NodeRole::Master,
        link: LinkStatus::Down,
        lag: None,
    }
}
fn in_sync_replica(id: &str, version: &str) -> NodeView {
    NodeView {
        id: id.to_owned(),
        version: version.to_owned(),
        role: NodeRole::Replica,
        link: LinkStatus::Up,
        lag: Some(ReplicaLag::compute(ReplOffset(10), ReplOffset(10))), // lag 0
    }
}
fn view(nodes: Vec<NodeView>) -> ClusterView {
    ClusterView {
        nodes,
        target_version: TARGET.to_owned(),
        max_lag: 2,
        raft_quorum: true,
        old_primary_id: None,
    }
}

#[test]
fn derive_plan_orders_replicas_first_then_promote_then_old_primary_last() {
    // Pre-roll: p is the old-version master, r2/r1 are old-version replicas (declared out of id
    // order to prove the plan sorts them least-id-first).
    let v = view(vec![
        master("p", OLD),
        in_sync_replica("r2", OLD),
        in_sync_replica("r1", OLD),
    ]);
    let plan = derive_plan(&v);
    assert!(!plan.already_upgraded);
    assert_eq!(plan.master.as_ref().map(|m| m.id.as_str()), Some("p"));
    // Replicas roll first, deterministic by id.
    let roll: Vec<&str> = plan
        .replica_upgrades
        .iter()
        .map(|n| n.id.as_str())
        .collect();
    assert_eq!(roll, ["r1", "r2"], "least-id-first replica roll order");
    // No upgraded in-sync candidate yet (both replicas are still old), so the preview defers.
    assert!(plan.promote_candidate.is_none());
}

#[test]
fn derive_plan_names_the_current_candidate_when_replicas_are_already_upgraded() {
    // Phase-2 posture: replicas upgraded + in sync, master still old -> a candidate is promotable
    // now, and no replica upgrades remain in the plan.
    let v = view(vec![
        master("p", OLD),
        in_sync_replica("r1", TARGET),
        in_sync_replica("r2", TARGET),
    ]);
    let plan = derive_plan(&v);
    assert!(
        plan.replica_upgrades.is_empty(),
        "replicas already upgraded"
    );
    assert!(
        plan.promote_candidate.is_some(),
        "an upgraded in-sync candidate is named"
    );
    assert_eq!(plan.master.as_ref().map(|m| m.id.as_str()), Some("p"));
}

#[test]
fn derive_plan_reports_a_fully_upgraded_shard_as_a_noop() {
    let v = view(vec![master("p", TARGET), in_sync_replica("r1", TARGET)]);
    let plan = derive_plan(&v);
    assert!(plan.already_upgraded, "nothing to do");
    assert!(plan.replica_upgrades.is_empty());
    // The rendered preview says so (and takes NO action -- the whole point of the seam).
    assert!(
        plan.to_text().contains("nothing to do"),
        "no-op preview: {plan:?}"
    );
}

fn raw(id: &str) -> RawNode {
    RawNode {
        id: id.to_owned(),
        resp_addr: "h:1".to_owned(),
        auth: None,
        ssh_target: id.to_owned(),
        upgrade_source: "--to v1".to_owned(),
    }
}

#[test]
fn every_node_is_placed_once() {
    let inv = parse_inventory(Ok(RawInventory {
        seeds: vec!["c".to_owned(), "b".to_owned(), "c".to_owned()],
        nodes: vec![raw("a"), raw("b"), raw("c"), raw("d")],
    }))
    .expect("valid");
    let order: Vec<&str> = inv.iter().map(|t| t.id.as_str()).collect();
    assert_eq!(order, ["c", "b", "a", "d"]);
    assert_eq!(inv.ids(), ["a", "b", "c", "d"]);
}

#[test]
fn a_target_is_its_node() {
    let t = to_target(&raw("a"));
    assert_eq!((t.id.as_str(), t.ssh.as_str(), t.resp_addr.as_str()), ("a", "a", "h:1"));
}

#[test]
fn addresses_need_a_host_and_a_port() {
    let ok = |s: &str| is_valid_host_port(&s.chars().collect::<Vec<char>>());
    assert!(ok("h:1"));
    assert!(ok("h:65535"));
    assert!(ok("[::1]:6379"));
    assert!(!ok("h:65536"));
    assert!(!ok("h:+0"));
    assert!(!ok(""));
    assert!(!ok(":1"));
}

#[test]
fn inventory_errors_have_messages() {
    let missing = InventoryError::Read {
        path: "/x.toml".to_owned(),
        detail: "no such file".to_owned(),
    };
    assert_eq!(
        missing.message(),
        "reading the inventory file /x.toml: no such file"
    );
    assert_eq!(
        InventoryError::DuplicateId("a\"b".to_owned()).message(),
        "duplicate node id \"a\\\"b\" (each [[node]] id must be unique)"
    );
    let bad = InventoryError::BadAddr {
        id: "a".to_owned(),
        addr: "h".to_owned(),
    };
    assert_eq!(
        bad.message(),
        "node \"a\" has a malformed resp_addr \"h\" (expected host:port with a 1-65535 port)"
    );
    assert_ne!(InventoryError::NoNodes.message(), InventoryError::NoSeed.message());
}

#[test]
fn the_plan_is_printed_in_its_order() {
    let v = view(vec![
        master("p", OLD),
        in_sync_replica("r2", OLD),
        in_sync_replica("r1", OLD),
    ]);
    let text = derive_plan(&v).to_text();
    let r1 = text.find("r1").expect("r1");
    let r2 = text.find("r2").expect("r2");
    assert!(r1 < r2, "{text}");
    assert!(text.contains(TARGET), "{text}");
    let last = text.rfind('p').expect("the old primary");
    assert!(last > r2, "{text}");
}

#[test]
fn a_node_without_an_id_is_named_by_its_position() {
    let blank = |nodes: Vec<RawNode>| {
        parse_inventory(Ok(RawInventory { seeds: vec!["a".to_owned()], nodes })).expect_err("blank")
    };
    let named = |id: &str| RawNode { id: id.to_owned(), ..raw("a") };
    match blank(vec![named("a"), named("  ")]) {
        InventoryError::EmptyField { id, field } => {
            assert_eq!((id.as_str(), field), ("2", "id"));
        }
        other => panic!("{other:?}"),
    }
    let err = blank(vec![named("")]);
    assert_eq!(err.message(), "node \"1\" has an empty id (it is required)");
}
