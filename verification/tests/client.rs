//! What the cluster client asks and reads.

use ironcache::client::{
    connect_error, failover_accepted, failover_command, members_command, node_command,
    observed_node, observed_quorum, quorum_command, refused_by, resp_exchange, show_reply,
    ExchangeStep,
};
use ironcache::cluster_upgrade::NodeRole;
use ironcache::cluster_upgrade_driver::ActuationTarget;
use ironcache::resp::{encode_command, RawReply};

fn node() -> ActuationTarget {
    ActuationTarget {
        id: "a".to_owned(),
        resp_addr: "127.0.0.1:6379".to_owned(),
        auth: None,
        ssh: "a".to_owned(),
        upgrade_source: "--to v1".to_owned(),
    }
}

fn bulk(s: &str) -> RawReply {
    RawReply::Bulk(Some(s.as_bytes().to_vec()))
}

#[test]
fn the_command_waits_for_the_password() {
    let info = node_command();
    let (mut exchange, first) = resp_exchange(Some("s3cret"), &info);
    assert_eq!(first, b"*2\r\n$4\r\nAUTH\r\n$6\r\ns3cret\r\n");
    match exchange.on_reply(RawReply::Simple("OK".to_owned())) {
        ExchangeStep::Send(bytes) => assert_eq!(bytes, encode_command(&info)),
        other => panic!("expected the command, got {other:?}"),
    }
    match exchange.on_reply(bulk("role:master")) {
        ExchangeStep::Done(RawReply::Bulk(Some(b))) => assert_eq!(b, b"role:master"),
        other => panic!("expected the reply, got {other:?}"),
    }
}

#[test]
fn a_refused_password_ends_the_exchange() {
    let (mut exchange, _) = resp_exchange(Some("wrong"), &node_command());
    match exchange.on_reply(RawReply::Error("WRONGPASS".to_owned())) {
        ExchangeStep::Fail(e) => assert_eq!(e.message(), "RESP AUTH: WRONGPASS"),
        other => panic!("expected a failure, got {other:?}"),
    }
    let (mut exchange, _) = resp_exchange(Some("odd"), &node_command());
    match exchange.on_reply(RawReply::Int) {
        ExchangeStep::Fail(e) => assert_eq!(e.message(), "RESP AUTH: unexpected reply: Int"),
        other => panic!("expected a failure, got {other:?}"),
    }
}

#[test]
fn without_a_password_the_command_comes_first() {
    let (mut exchange, first) = resp_exchange(None, &members_command());
    assert_eq!(first, encode_command(&members_command()));
    assert!(matches!(
        exchange.on_reply(RawReply::Error("ERR".to_owned())),
        ExchangeStep::Done(RawReply::Error(_))
    ));
}

#[test]
fn the_commands_are_those_of_the_cluster() {
    let words = |c: Vec<Vec<u8>>| {
        c.into_iter().map(|w| String::from_utf8(w).unwrap()).collect::<Vec<_>>().join(" ")
    };
    assert_eq!(words(members_command()), "CLUSTER SHARDS");
    assert_eq!(words(node_command()), "INFO");
    assert_eq!(words(quorum_command()), "CLUSTER INFO");
    assert_eq!(words(failover_command()), "CLUSTER FAILOVER");
}

#[test]
fn replies_are_shown_as_debug_shows_them() {
    let replies = [
        RawReply::Simple("a\"b\n".to_owned()),
        RawReply::Error("x".to_owned()),
        RawReply::Int,
        RawReply::Bulk(None),
        RawReply::Bulk(Some(vec![])),
        RawReply::Bulk(Some(vec![0, 255, 13])),
        RawReply::Array(None),
        RawReply::Array(Some(vec![])),
        RawReply::Array(Some(vec![
            RawReply::Int,
            RawReply::Array(Some(vec![bulk("k"), RawReply::Simple("v".to_owned())])),
        ])),
    ];
    for r in &replies {
        assert_eq!(show_reply(r), format!("{r:?}"));
    }
}

#[test]
fn a_state_has_to_be_a_text() {
    let o = observed_node(&node(), &bulk("role:master\r\nironcache_version:v1\r\n")).expect("read");
    assert_eq!(o.role, NodeRole::Master);
    assert_eq!(o.version, "v1");
    assert_eq!(
        observed_node(&node(), &RawReply::Int).unwrap_err().message(),
        "observing node a: INFO did not return a bulk string"
    );
    let q = observed_quorum(&node(), &bulk("cluster_state:ok\r\ncluster_raft_leader:x\r\n"));
    assert!(q.expect("read").has_quorum());
    assert_eq!(
        observed_quorum(&node(), &RawReply::Int).unwrap_err().message(),
        "observing node a: CLUSTER INFO did not return a bulk string"
    );
}

#[test]
fn only_ok_accepts_a_failover() {
    assert!(failover_accepted(&node(), &RawReply::Simple("ok".to_owned())).is_ok());
    assert_eq!(
        failover_accepted(&node(), &RawReply::Error("ERR no".to_owned())).unwrap_err().message(),
        "promoting a via CLUSTER FAILOVER: ERR no"
    );
    assert_eq!(
        refused_by(&RawReply::Simple("QUEUED".to_owned())).as_deref(),
        Some("unexpected reply: Simple(\"QUEUED\")")
    );
    assert_eq!(
        connect_error("h:1", "refused").message(),
        "RESP connect: h:1: refused"
    );
}
