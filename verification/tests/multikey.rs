//! Commands over keys of several shards.

use ironcache::coordinator::{CounterDeltas, ShardReply, SHARD_UNAVAILABLE_MSG};
use ironcache::multikey::{
    fan_out_multikey, group_by_owner, group_pairs_by_owner, merge_mset, merge_multikey,
    multikey_keys, reassemble_mget, sum_integers, MultikeyPlan,
};
use ironcache::value::{ErrorReply, Request, Value};

fn reply(value: Value) -> ShardReply {
    ShardReply {
        value,
        deltas: CounterDeltas { expired: 0, moved: false },
    }
}

fn bytes(parts: &[&[u8]]) -> Vec<Vec<u8>> {
    parts.iter().map(|p| p.to_vec()).collect()
}

/// A stand-in for the placement of keys: any fixed function of the key.
fn owner_shard(key: &[u8], n: usize) -> usize {
    key.iter().fold(7usize, |h, b| h.wrapping_mul(31) ^ usize::from(*b)) % n
}

fn owners(keys: &[Vec<u8>], n: usize) -> Vec<usize> {
    keys.iter().map(|k| owner_shard(k, n)).collect()
}

fn bulk(s: &str) -> Value {
    Value::bulk(s.as_bytes().to_vec())
}

#[test]
fn group_by_owner_partitions_keys_and_records_positions() {
    // Over n shards, keys are bucketed to their owner and each sub-request carries the
    // keys in original relative order with matching positions.
    let n = 4usize;
    let keys = bytes(&[b"a", b"b", b"c", b"d", b"e"]);
    let (subreqs, positions) = group_by_owner(b"MGET", &keys, &owners(&keys, n));
    // Every original key appears exactly once across the sub-requests, and the verb
    // leads each sub-request.
    let mut seen_positions: Vec<usize> = Vec::new();
    for ((shard, req), pos_list) in subreqs.iter().zip(positions.iter()) {
        assert_eq!(req.args[0].as_slice(), b"MGET", "verb leads sub-request");
        assert_eq!(req.args.len() - 1, pos_list.len(), "keys match positions");
        for (j, &orig) in pos_list.iter().enumerate() {
            // The j-th key in the sub-request is keys[orig], and orig's owner is shard.
            assert_eq!(req.args[1 + j], keys[orig]);
            assert_eq!(owner_shard(&keys[orig], n), *shard);
            seen_positions.push(orig);
        }
    }
    seen_positions.sort_unstable();
    assert_eq!(seen_positions, vec![0, 1, 2, 3, 4], "every key placed once");
}

#[test]
fn reassemble_mget_restores_original_argument_order_not_shard_order() {
    // Two shards, keys interleaved: k0->shard A, k1->shard B, k2->shard A. The shard
    // replies arrive in arbitrary order; the reassembly must place each value at its
    // ORIGINAL position (k0, k1, k2), NOT grouped by shard.
    // Build subreqs/positions by hand to control the mapping precisely.
    let subreqs = vec![
        (
            0usize,
            Request {
                args: bytes(&[b"MGET", b"k0", b"k2"]),
            },
        ),
        (
            1usize,
            Request {
                args: bytes(&[b"MGET", b"k1"]),
            },
        ),
    ];
    let positions = vec![vec![0usize, 2usize], vec![1usize]];
    // Shard 0 returns [v0, v2] (its keys in order); shard 1 returns [v1]. Deliver them
    // OUT of shard order (shard 1 first) to prove order comes from positions, not arrival.
    let replies = vec![
        (1usize, reply(Value::Array(Some(vec![bulk("v1")])))),
        (
            0usize,
            reply(Value::Array(Some(vec![bulk("v0"), bulk("v2")]))),
        ),
    ];
    let merged = reassemble_mget(3, &subreqs, &positions, &replies);
    let Value::Array(Some(items)) = merged else {
        panic!("MGET reassembly must be an array");
    };
    assert_eq!(
        items,
        vec![bulk("v0"), bulk("v1"), bulk("v2")],
        "original order"
    );
}

#[test]
fn reassemble_mget_missing_and_unavailable_become_null() {
    // Shard 0 returns [v0, Null] (k2 absent); shard 1 is unavailable -> its key (k1)
    // stays Null. Output: [v0, Null, Null].
    let subreqs = vec![
        (
            0usize,
            Request {
                args: bytes(&[b"MGET", b"k0", b"k2"]),
            },
        ),
        (
            1usize,
            Request {
                args: bytes(&[b"MGET", b"k1"]),
            },
        ),
    ];
    let positions = vec![vec![0usize, 2usize], vec![1usize]];
    let replies = vec![
        (
            0usize,
            reply(Value::Array(Some(vec![bulk("v0"), Value::Null]))),
        ),
        (
            1usize,
            reply(Value::error(ErrorReply::err(
                SHARD_UNAVAILABLE_MSG,
            ))),
        ),
    ];
    let merged = reassemble_mget(3, &subreqs, &positions, &replies);
    let Value::Array(Some(items)) = merged else {
        panic!("expected array");
    };
    assert_eq!(items, vec![bulk("v0"), Value::Null, Value::Null]);
}

#[test]
fn group_pairs_by_owner_keeps_pairs_on_their_key_owner() {
    let n = 4usize;
    // MSET k1 v1 k2 v2 k3 v3
    let pairs = bytes(&[b"k1", b"v1", b"k2", b"v2", b"k3", b"v3"]);
    let subreqs = group_pairs_by_owner(&pairs, &owners(&bytes(&[b"k1", b"k2", b"k3"]), n));
    let mut seen_keys: Vec<Vec<u8>> = Vec::new();
    for (shard, req) in &subreqs {
        assert_eq!(req.args[0].as_slice(), b"MSET");
        // The sub-request is [MSET, k, v, k, v, ...]: an odd number of trailing args
        // would be a flatten bug.
        assert_eq!((req.args.len() - 1) % 2, 0, "flattened pairs stay even");
        let mut i = 1;
        while i + 1 < req.args.len() {
            let key = &req.args[i];
            assert_eq!(owner_shard(key, n), *shard, "pair lives on its key's owner");
            seen_keys.push(key.to_vec());
            i += 2;
        }
    }
    seen_keys.sort();
    assert_eq!(
        seen_keys,
        vec![b"k1".to_vec(), b"k2".to_vec(), b"k3".to_vec()],
        "every pair placed once"
    );
}

#[test]
fn sum_integers_sums_and_treats_unavailable_as_zero() {
    let replies = vec![
        (0usize, reply(Value::Integer(2))),
        (1usize, reply(Value::Integer(3))),
    ];
    assert_eq!(sum_integers(&replies), Value::Integer(5));

    let with_dead = vec![
        (0usize, reply(Value::Integer(4))),
        (
            1usize,
            reply(Value::error(ErrorReply::err(
                SHARD_UNAVAILABLE_MSG,
            ))),
        ),
    ];
    assert_eq!(sum_integers(&with_dead), Value::Integer(4));
}

#[test]
fn merge_mset_ok_unless_a_shard_unavailable() {
    let all_ok = vec![(0usize, reply(Value::ok())), (1usize, reply(Value::ok()))];
    assert_eq!(merge_mset(&all_ok), Value::ok());

    let one_dead = vec![
        (0usize, reply(Value::ok())),
        (
            1usize,
            reply(Value::error(ErrorReply::err(
                SHARD_UNAVAILABLE_MSG,
            ))),
        ),
    ];
    assert!(matches!(merge_mset(&one_dead), Value::Error(_)));
}

fn failed(message: &str) -> ShardReply {
    reply(Value::error(ErrorReply::err(message)))
}

#[test]
fn sum_integers_surfaces_the_first_genuine_error() {
    let replies = vec![
        (0usize, failed(SHARD_UNAVAILABLE_MSG)),
        (1usize, failed("WRONGTYPE first")),
        (2usize, failed("WRONGTYPE second")),
        (3usize, reply(Value::Integer(3))),
    ];
    assert_eq!(
        sum_integers(&replies),
        Value::error(ErrorReply::err("WRONGTYPE first"))
    );
    assert_eq!(sum_integers(&[]), Value::Integer(0));
}

#[test]
fn a_fetch_is_planned_split_and_merged() {
    let request = Request { args: bytes(&[b"MGET", b"a", b"b", b"c"]) };
    let keys = multikey_keys(b"MGET", &request);
    assert_eq!(keys, bytes(&[b"a", b"b", b"c"]));
    let plan = fan_out_multikey(b"MGET", &request, &[1, 0, 1]);
    let MultikeyPlan::Fetch { num_keys, subreqs, positions } = &plan else {
        panic!("MGET fetches, got {plan:?}");
    };
    assert_eq!(*num_keys, 3);
    assert_eq!(subreqs.len(), 2);
    for ((shard, req), places) in subreqs.iter().zip(positions) {
        if *shard == 1 {
            assert_eq!(req.args, bytes(&[b"MGET", b"a", b"c"]));
            assert_eq!(*places, vec![0, 2]);
        } else {
            assert_eq!(req.args, bytes(&[b"MGET", b"b"]));
            assert_eq!(*places, vec![1]);
        }
    }
    let replies = vec![
        (1usize, reply(Value::Array(Some(vec![bulk("A"), bulk("C")])))),
        (0usize, reply(Value::Array(Some(vec![bulk("B")])))),
    ];
    assert_eq!(
        merge_multikey(&plan, &replies),
        Value::Array(Some(vec![bulk("A"), bulk("B"), bulk("C")]))
    );
}

#[test]
fn a_store_is_planned_split_and_merged() {
    let request = Request { args: bytes(&[b"MSET", b"a", b"1", b"b", b"2"]) };
    assert_eq!(multikey_keys(b"MSET", &request), bytes(&[b"a", b"b"]));
    let plan = fan_out_multikey(b"MSET", &request, &[0, 0]);
    let MultikeyPlan::Store { subreqs } = &plan else {
        panic!("MSET stores, got {plan:?}");
    };
    assert_eq!(subreqs.len(), 1);
    assert_eq!(subreqs[0].1.args, bytes(&[b"MSET", b"a", b"1", b"b", b"2"]));
    assert_eq!(merge_multikey(&plan, &[(0, reply(Value::ok()))]), Value::ok());
}

#[test]
fn counts_are_planned_split_and_merged() {
    for verb in [b"DEL".as_slice(), b"UNLINK", b"EXISTS", b"TOUCH"] {
        let request = Request { args: vec![verb.to_vec(), b"a".to_vec(), b"b".to_vec()] };
        let plan = fan_out_multikey(verb, &request, &[0, 1]);
        let MultikeyPlan::Count { subreqs } = &plan else {
            panic!("{verb:?} counts, got {plan:?}");
        };
        assert_eq!(subreqs.len(), 2);
        let replies = vec![
            (0usize, reply(Value::Integer(1))),
            (1usize, reply(Value::Integer(1))),
        ];
        assert_eq!(merge_multikey(&plan, &replies), Value::Integer(2));
    }
}

#[test]
fn any_other_command_is_refused_even_without_words() {
    for args in [Vec::new(), bytes(&[b"GET", b"a"])] {
        let request = Request { args };
        assert!(multikey_keys(b"GET", &request).is_empty());
        let plan = fan_out_multikey(b"GET", &request, &[]);
        assert!(matches!(plan, MultikeyPlan::Refused), "got {plan:?}");
        assert_eq!(
            merge_multikey(&plan, &[]),
            Value::error(ErrorReply::err("non-fan-out multi-key command"))
        );
    }
}
