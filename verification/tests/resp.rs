//! The wire of the cluster client.

use ironcache::resp::{
    acknowledgement, bulk_text, collect_member_ids, encode_command, flat_lookup, read_reply,
    Acknowledgement, RawReply, ReplyRead,
};

fn bulk(s: &str) -> RawReply {
    RawReply::Bulk(Some(s.as_bytes().to_vec()))
}

/// The one reply that fills the bytes.
fn whole(bytes: &[u8]) -> RawReply {
    match read_reply(bytes, 0, false) {
        ReplyRead::Done { reply, next } => {
            assert_eq!(next, bytes.len());
            reply
        }
        other => panic!("expected a whole reply, got {other:?}"),
    }
}

#[test]
fn a_command_reads_back_as_its_words() {
    let args = vec![b"CLUSTER".to_vec(), Vec::new(), b"a\r\nb".to_vec()];
    let bytes = encode_command(&args);
    assert_eq!(bytes, b"*3\r\n$7\r\nCLUSTER\r\n$0\r\n\r\n$4\r\na\r\nb\r\n");
    match whole(&bytes) {
        RawReply::Array(Some(items)) => {
            assert_eq!(items.len(), 3);
            for (item, arg) in items.iter().zip(&args) {
                assert!(matches!(item, RawReply::Bulk(Some(b)) if b == arg));
            }
        }
        other => panic!("expected an array, got {other:?}"),
    }
}

#[test]
fn replies_of_every_kind_are_read() {
    assert!(matches!(whole(b"+OK\r\n"), RawReply::Simple(s) if s == "OK"));
    assert!(matches!(whole(b"-ERR no\r\n"), RawReply::Error(s) if s == "ERR no"));
    assert!(matches!(whole(b":42\r\n"), RawReply::Int));
    assert!(matches!(whole(b"_\r\n"), RawReply::Bulk(None)));
    assert!(matches!(whole(b"$-1\r\n"), RawReply::Bulk(None)));
    assert!(matches!(whole(b"*-1\r\n"), RawReply::Array(None)));
    assert!(matches!(whole(b"*0\r\n"), RawReply::Array(Some(v)) if v.is_empty()));
    assert!(matches!(whole(b"+\xff\r\n"), RawReply::Simple(s) if s == "\u{fffd}"));
}

#[test]
fn a_partial_reply_wants_more() {
    let full = b"*2\r\n$3\r\nfoo\r\n:1\r\n";
    for n in 0..full.len() {
        assert!(
            matches!(read_reply(&full[..n], 0, false), ReplyRead::More),
            "after {n} bytes"
        );
    }
    assert!(matches!(read_reply(full, 0, false), ReplyRead::Done { .. }));
}

#[test]
fn what_is_no_reply_fails() {
    assert!(matches!(read_reply(b"?x\r\n", 0, false), ReplyRead::Fail(_)));
    assert!(matches!(read_reply(b"$x\r\n", 0, false), ReplyRead::Fail(_)));
    assert!(matches!(read_reply(b"*x\r\n", 0, false), ReplyRead::Fail(_)));
    match read_reply(b"+OK", 0, true) {
        ReplyRead::Fail(d) => assert_eq!(d, "connection closed mid-reply"),
        ReplyRead::Done { .. } => {}
        ReplyRead::More => panic!("no more bytes can come"),
    }
}

#[test]
fn the_members_are_the_ids_of_the_nodes() {
    let node = |id: &str| RawReply::Array(Some(vec![bulk("id"), bulk(id), bulk("port"), RawReply::Int]));
    let shard = |nodes: Vec<RawReply>| {
        RawReply::Array(Some(vec![
            bulk("slots"),
            RawReply::Array(Some(Vec::new())),
            bulk("nodes"),
            RawReply::Array(Some(nodes)),
        ]))
    };
    let reply = RawReply::Array(Some(vec![
        shard(vec![node("a"), node("b")]),
        RawReply::Int,
        shard(vec![node("c"), RawReply::Int]),
    ]));
    assert_eq!(collect_member_ids(&reply), ["a", "b", "c"]);
    assert!(collect_member_ids(&RawReply::Int).is_empty());
}

#[test]
fn fields_are_looked_up_by_name() {
    let items = vec![bulk("k"), bulk("v"), RawReply::Simple("s".to_owned()), RawReply::Int];
    assert_eq!(flat_lookup(&items, "k").and_then(bulk_text).as_deref(), Some("v"));
    assert!(matches!(flat_lookup(&items, "s"), Some(RawReply::Int)));
    assert!(flat_lookup(&items, "none").is_none());
    // A value is no key, and a key without a value is no pair.
    let items = vec![bulk("role"), bulk("id"), bulk("id"), bulk("n1"), bulk("last")];
    assert_eq!(flat_lookup(&items, "id").and_then(bulk_text).as_deref(), Some("n1"));
    assert!(flat_lookup(&items, "n1").is_none());
    assert!(flat_lookup(&items, "last").is_none());
    assert!(bulk_text(&RawReply::Int).is_none());
}

#[test]
fn an_acknowledgement_is_ok_in_any_case() {
    assert!(matches!(acknowledgement(&RawReply::Simple("Ok".to_owned())), Acknowledgement::Accepted));
    assert!(matches!(acknowledgement(&RawReply::Simple("QUEUED".to_owned())), Acknowledgement::Unexpected));
    match acknowledgement(&RawReply::Error("ERR x".to_owned())) {
        Acknowledgement::Refused(e) => assert_eq!(e, "ERR x"),
        other => panic!("expected a refusal, got {other:?}"),
    }
    assert!(matches!(acknowledgement(&RawReply::Int), Acknowledgement::Unexpected));
}
