//! Multi-key commands whose keys live on several shards: one request per shard,
//! and one reply out of theirs.
use vstd::prelude::*;
use vstd::slice::slice_subrange;
use vstd::utf8::encode_utf8;
use crate::bytes::{byte_seqs, bytes_of, copy_bytes, is_word};
use crate::coordinator::{add_saturating, distinct, is_shard_unavailable, publish_count,
    publish_count_of, replies_view, saturated, ReplyView, ShardReply, SHARD_UNAVAILABLE_MSG};
use crate::text::{first_at, lemma_first_at, lemma_first_at_is};
use crate::value::{arguments, values, ErrorReply, Request, Value, ValueModel};

verus! {

/// The positions of the keys that a shard owns, in order.
pub open spec fn positions_of(owners: Seq<usize>, shard: usize) -> Seq<usize>
    decreases owners.len(),
{
    if owners.len() == 0 {
        Seq::empty()
    } else {
        let rest = positions_of(owners.drop_last(), shard);
        if owners.last() == shard {
            rest.push((owners.len() - 1) as usize)
        } else {
            rest
        }
    }
}

/// The shards that own a key, in the order in which they are first met.
pub open spec fn shard_order(owners: Seq<usize>) -> Seq<usize> {
    distinct(owners)
}

/// The request for the keys at the given positions.
pub open spec fn keys_request(verb: Seq<u8>, keys: Seq<Seq<u8>>, at: Seq<usize>) -> Seq<Seq<u8>> {
    seq![verb] + at.map_values(|p: usize| keys[p as int])
}

/// The request for the pairs at the given positions.
pub open spec fn pairs_request(verb: Seq<u8>, pairs: Seq<Seq<u8>>, at: Seq<usize>) -> Seq<Seq<u8>>
    decreases at.len(),
{
    if at.len() == 0 {
        seq![verb]
    } else {
        pairs_request(verb, pairs, at.drop_last()).push(pairs[2 * at.last()]).push(
            pairs[2 * at.last() + 1],
        )
    }
}

fn shards_in_order(owners: &[usize]) -> (order: Vec<usize>)
    ensures
        order@ == shard_order(owners@),
{
    let mut order: Vec<usize> = Vec::new();
    assert(distinct(owners@.take(0)) =~= order@);
    for i in 0..owners.len()
        invariant
            order@ == distinct(owners@.take(i as int)),
    {
        proof {
            assert(owners@.take(i as int + 1).drop_last() =~= owners@.take(i as int));
        }
        let mut known: bool = false;
        for j in 0..order.len()
            invariant
                i < owners@.len(),
                known == order@.take(j as int).contains(owners@[i as int]),
        {
            assert(order@.take(j as int + 1) =~= order@.take(j as int).push(order@[j as int]));
            if order[j] == owners[i] {
                assert(order@.take(j as int + 1)[j as int] == owners@[i as int]);
                known = true;
            } else if known {
                let ghost k = choose|k: int|
                    0 <= k < j && order@.take(j as int)[k] == owners@[i as int];
                assert(order@.take(j as int + 1)[k] == owners@[i as int]);
            }
        }
        assert(order@.take(order@.len() as int) =~= order@);
        if !known {
            order.push(owners[i]);
        }
    }
    assert(owners@.take(owners@.len() as int) =~= owners@);
    order
}

/// What `positions_of` holds: the positions of the shard's keys, ascending.
proof fn lemma_positions(owners: Seq<usize>, shard: usize)
    requires
        owners.len() <= usize::MAX,
    ensures
        forall|j: int|
            0 <= j < positions_of(owners, shard).len() ==> {
                let p = #[trigger] positions_of(owners, shard)[j];
                p < owners.len() && owners[p as int] == shard
            },
        forall|p: int|
            0 <= p < owners.len() && owners[p] == shard ==> #[trigger] positions_of(
                owners,
                shard,
            ).contains(p as usize),
        forall|i: int, j: int|
            0 <= i < j < positions_of(owners, shard).len() ==> positions_of(owners, shard)[i]
                < positions_of(owners, shard)[j],
    decreases owners.len(),
{
    if owners.len() > 0 {
        let front = owners.drop_last();
        let rest = positions_of(front, shard);
        lemma_positions(front, shard);
        let all = positions_of(owners, shard);
        assert forall|p: int| 0 <= p < owners.len() && owners[p] == shard implies
            #[trigger] all.contains(p as usize) by {
            if p < front.len() {
                assert(front[p] == shard);
                assert(rest.contains(p as usize));
                let j = choose|j: int| 0 <= j < rest.len() && rest[j] == p as usize;
                assert(all[j] == p as usize);
            } else {
                assert(all.last() == p as usize);
            }
        }
        assert forall|j: int| 0 <= j < all.len() implies {
            let p = #[trigger] all[j];
            p < owners.len() && owners[p as int] == shard
        } by {
            if j < rest.len() {
                assert(rest[j] < front.len());
                assert(front[rest[j] as int] == owners[rest[j] as int]);
            }
        }
    }
}

fn owned_positions(owners: &[usize], shard: usize) -> (at: Vec<usize>)
    ensures
        at@ == positions_of(owners@, shard),
{
    let mut at: Vec<usize> = Vec::new();
    for i in 0..owners.len()
        invariant
            at@ == positions_of(owners@.take(i as int), shard),
    {
        assert(owners@.take(i as int + 1).drop_last() =~= owners@.take(i as int));
        if owners[i] == shard {
            at.push(i);
        }
    }
    assert(owners@.take(owners@.len() as int) =~= owners@);
    at
}

/// Whether requests are the grouping of keys by owner.
pub open spec fn grouped_keys(
    verb: Seq<u8>,
    keys: Seq<Seq<u8>>,
    owners: Seq<usize>,
    subreqs: Seq<(usize, Request)>,
) -> bool {
    &&& subreqs.len() == shard_order(owners).len()
    &&& forall|i: int|
        0 <= i < subreqs.len() ==> {
            let shard = shard_order(owners)[i];
            &&& (#[trigger] subreqs[i]).0 == shard
            &&& arguments(subreqs[i].1) == keys_request(verb, keys, positions_of(owners, shard))
        }
}

/// Whether requests and positions are the grouping of keys by owner.
pub open spec fn grouped(
    verb: Seq<u8>,
    keys: Seq<Seq<u8>>,
    owners: Seq<usize>,
    subreqs: Seq<(usize, Request)>,
    positions: Seq<Vec<usize>>,
) -> bool {
    &&& grouped_keys(verb, keys, owners, subreqs)
    &&& positions.len() == shard_order(owners).len()
    &&& forall|i: int|
        0 <= i < positions.len() ==> (#[trigger] positions[i])@ == positions_of(
            owners,
            shard_order(owners)[i],
        )
}

/// One request per owning shard, in the order in which the shards are first met:
/// the verb and the shard's keys in their order. The positions say where each of
/// those keys stood. `owners` names the owner of each key.
pub fn group_by_owner(verb: &[u8], keys: &[Vec<u8>], owners: &[usize]) -> (r: (
    Vec<(usize, Request)>,
    Vec<Vec<usize>>,
))
    requires
        owners@.len() == keys@.len(),
    ensures
        grouped(verb@, byte_seqs(keys@), owners@, r.0@, r.1@),
{
    let order = shards_in_order(owners);
    let n_keys: usize = keys.len();
    let ghost names = byte_seqs(keys@);
    let mut subreqs: Vec<(usize, Request)> = Vec::new();
    let mut positions: Vec<Vec<usize>> = Vec::new();
    for i in 0..order.len()
        invariant
            owners@.len() == keys@.len() == n_keys,
            names == byte_seqs(keys@),
            order@ == shard_order(owners@),
            subreqs@.len() == i,
            positions@.len() == i,
            forall|k: int|
                0 <= k < i ==> {
                    &&& (#[trigger] subreqs@[k]).0 == order@[k]
                    &&& arguments(subreqs@[k].1) == keys_request(
                        verb@,
                        names,
                        positions_of(owners@, order@[k]),
                    )
                },
            forall|k: int|
                0 <= k < i ==> (#[trigger] positions@[k])@ == positions_of(owners@, order@[k]),
    {
        let shard: usize = order[i];
        let at = owned_positions(owners, shard);
        let mut args: Vec<Vec<u8>> = Vec::new();
        args.push(copy_bytes(verb));
        proof {
            lemma_positions(owners@, shard);
            assert(byte_seqs(args@) =~= keys_request(verb@, names, at@.take(0)));
        }
        for j in 0..at.len()
            invariant
                owners@.len() == keys@.len(),
                names == byte_seqs(keys@),
                forall|k: int| 0 <= k < at@.len() ==> #[trigger] at@[k] < keys@.len(),
                byte_seqs(args@) == keys_request(verb@, names, at@.take(j as int)),
        {
            let ghost before = args@;
            args.push(copy_bytes(keys[at[j]].as_slice()));
            assert(byte_seqs(args@) =~= byte_seqs(before).push(names[at@[j as int] as int]));
            assert(byte_seqs(args@) =~= keys_request(verb@, names, at@.take(j as int + 1)));
        }
        assert(at@.take(at@.len() as int) =~= at@);
        let request = Request { args };
        assert(arguments(request) =~= byte_seqs(args@));
        subreqs.push((shard, request));
        positions.push(at);
    }
    (subreqs, positions)
}

/// Whether requests are the grouping of pairs by the owner of their key.
pub open spec fn grouped_pairs(
    pairs: Seq<Seq<u8>>,
    owners: Seq<usize>,
    subreqs: Seq<(usize, Request)>,
) -> bool {
    &&& subreqs.len() == shard_order(owners).len()
    &&& forall|i: int|
        0 <= i < subreqs.len() ==> {
            let shard = shard_order(owners)[i];
            &&& (#[trigger] subreqs[i]).0 == shard
            &&& arguments(subreqs[i].1) == pairs_request(
                encode_utf8("MSET"@),
                pairs,
                positions_of(owners, shard),
            )
        }
}

/// One `MSET` per owning shard with the shard's pairs in their order. `pairs` is
/// the flat list of keys and values; `owners` names the owner of each key.
pub fn group_pairs_by_owner(pairs: &[Vec<u8>], owners: &[usize]) -> (r: Vec<(usize, Request)>)
    requires
        owners@.len() == pairs@.len() / 2,
    ensures
        grouped_pairs(byte_seqs(pairs@), owners@, r@),
{
    let order = shards_in_order(owners);
    let n_pairs: usize = owners.len();
    let ghost flat = byte_seqs(pairs@);
    let ghost verb = encode_utf8("MSET"@);
    let mut subreqs: Vec<(usize, Request)> = Vec::new();
    for i in 0..order.len()
        invariant
            owners@.len() == pairs@.len() / 2 == n_pairs,
            flat == byte_seqs(pairs@),
            verb == encode_utf8("MSET"@),
            order@ == shard_order(owners@),
            subreqs@.len() == i,
            forall|k: int|
                0 <= k < i ==> {
                    &&& (#[trigger] subreqs@[k]).0 == order@[k]
                    &&& arguments(subreqs@[k].1) == pairs_request(
                        verb,
                        flat,
                        positions_of(owners@, order@[k]),
                    )
                },
    {
        let shard: usize = order[i];
        let at = owned_positions(owners, shard);
        let mut args: Vec<Vec<u8>> = Vec::new();
        args.push(bytes_of("MSET"));
        proof {
            lemma_positions(owners@, shard);
            assert(byte_seqs(args@) =~= pairs_request(verb, flat, at@.take(0)));
        }
        let n: usize = pairs.len();
        for j in 0..at.len()
            invariant
                n == pairs@.len(),
                flat == byte_seqs(pairs@),
                forall|k: int| 0 <= k < at@.len() ==> #[trigger] at@[k] < n / 2,
                byte_seqs(args@) == pairs_request(verb, flat, at@.take(j as int)),
        {
            let ghost before = args@;
            let p: usize = at[j];
            args.push(copy_bytes(pairs[2 * p].as_slice()));
            args.push(copy_bytes(pairs[2 * p + 1].as_slice()));
            assert(at@.take(j as int + 1).drop_last() =~= at@.take(j as int));
            assert(byte_seqs(args@) =~= byte_seqs(before).push(flat[2 * p]).push(flat[2 * p + 1]));
        }
        assert(at@.take(at@.len() as int) =~= at@);
        let request = Request { args };
        assert(arguments(request) =~= byte_seqs(args@));
        subreqs.push((shard, request));
    }
    subreqs
}

/// Grouping loses no key and moves none to a shard that does not own it: each
/// position stands in the list of its owner, once, in order, and in no other.
pub proof fn law_grouping_is_a_partition(owners: Seq<usize>)
    requires
        owners.len() <= usize::MAX,
    ensures
        shard_order(owners).no_duplicates(),
        forall|p: int|
            0 <= p < owners.len() ==> shard_order(owners).contains(#[trigger] owners[p])
                && positions_of(owners, owners[p]).contains(p as usize),
        forall|shard: usize, j: int|
            0 <= j < positions_of(owners, shard).len() ==> {
                let p = #[trigger] positions_of(owners, shard)[j];
                p < owners.len() && owners[p as int] == shard
            },
        forall|shard: usize, i: int, j: int|
            0 <= i < j < positions_of(owners, shard).len() ==> (#[trigger] positions_of(
                owners,
                shard,
            )[i]) < #[trigger] positions_of(owners, shard)[j],
{
    crate::coordinator::lemma_distinct(owners);
    assert forall|p: int| 0 <= p < owners.len() implies shard_order(owners).contains(
        #[trigger] owners[p],
    ) && positions_of(owners, owners[p]).contains(p as usize) by {
        lemma_positions(owners, owners[p]);
        assert(owners.contains(owners[p]));
    }
    assert forall|shard: usize, j: int| 0 <= j < positions_of(owners, shard).len() implies {
        let p = #[trigger] positions_of(owners, shard)[j];
        p < owners.len() && owners[p as int] == shard
    } by {
        lemma_positions(owners, shard);
    }
    assert forall|shard: usize, i: int, j: int|
        0 <= i < j < positions_of(owners, shard).len() implies (#[trigger] positions_of(
        owners,
        shard,
    )[i]) < #[trigger] positions_of(owners, shard)[j] by {
        lemma_positions(owners, shard);
    }
}

/// The values of one shard, each put at the position of its key.
pub open spec fn placed(out: Seq<ValueModel>, at: Seq<usize>, got: Seq<ValueModel>) -> Seq<
    ValueModel,
>
    decreases got.len(),
{
    if got.len() == 0 {
        out
    } else {
        let before = placed(out, at, got.drop_last());
        let j = got.len() - 1;
        if j < at.len() && at[j] < before.len() {
            before.update(at[j] as int, got.last())
        } else {
            before
        }
    }
}

/// The positions of the keys of a shard among those of all requests.
pub open spec fn positions_for(
    shards: Seq<usize>,
    positions: Seq<Seq<usize>>,
    shard: usize,
) -> Option<Seq<usize>> {
    let i = first_at(shards, shard);
    if 0 <= i < shards.len() && i < positions.len() {
        Some(positions[i])
    } else {
        None
    }
}

/// The values of all shards, each at the position of its key; null where no shard
/// gave one.
pub open spec fn reassembled(
    n: nat,
    shards: Seq<usize>,
    positions: Seq<Seq<usize>>,
    replies: Seq<(usize, ReplyView)>,
) -> Seq<ValueModel>
    decreases replies.len(),
{
    if replies.len() == 0 {
        Seq::new(n, |i: int| ValueModel::Null)
    } else {
        let before = reassembled(n, shards, positions, replies.drop_last());
        match (positions_for(shards, positions, replies.last().0), replies.last().1.value) {
            (Some(at), ValueModel::Array(Some(items))) => placed(before, at, items),
            _ => before,
        }
    }
}

/// The shards of requests.
pub open spec fn request_shards(subreqs: Seq<(usize, Request)>) -> Seq<usize> {
    subreqs.map_values(|p: (usize, Request)| p.0)
}

/// Lists of positions as sequences.
pub open spec fn position_seqs(positions: Seq<Vec<usize>>) -> Seq<Seq<usize>> {
    positions.map_values(|v: Vec<usize>| v@)
}

proof fn lemma_placed_len(out: Seq<ValueModel>, at: Seq<usize>, got: Seq<ValueModel>)
    ensures
        placed(out, at, got).len() == out.len(),
    decreases got.len(),
{
    if got.len() > 0 {
        lemma_placed_len(out, at, got.drop_last());
    }
}

fn place_values(out: &mut Vec<Value>, at: &Vec<usize>, got: &Vec<Value>)
    ensures
        values(final(out)@) == placed(values(old(out)@), at@, values(got@)),
{
    let ghost start = values(out@);
    let ghost models = values(got@);
    proof {
        crate::value::lemma_values(got@);
    }
    for j in 0..got.len()
        invariant
            models == values(got@),
            models.len() == got@.len(),
            forall|k: int| 0 <= k < got@.len() ==> #[trigger] models[k] == got@[k].model(),
            values(out@) == placed(start, at@, models.take(j as int)),
    {
        proof {
            crate::value::lemma_values(out@);
            assert(models.take(j as int + 1).drop_last() =~= models.take(j as int));
        }
        if j < at.len() && at[j] < out.len() {
            let ghost before = out@;
            let v = got[j].copy();
            out.set(at[j], v);
            proof {
                crate::value::lemma_values_update(before, at@[j as int] as int, v);
            }
        }
    }
    assert(models.take(models.len() as int) =~= models);
}

/// The reply of an `MGET` over several shards: each value at the position of its
/// key, whatever the order of the replies.
pub fn reassemble_mget(
    num_keys: usize,
    subreqs: &[(usize, Request)],
    positions: &[Vec<usize>],
    replies: &[(usize, ShardReply)],
) -> (r: Value)
    requires
        subreqs@.len() <= positions@.len(),
    ensures
        r.model() == ValueModel::Array(
            Some(
                reassembled(
                    num_keys as nat,
                    request_shards(subreqs@),
                    position_seqs(positions@),
                    replies_view(replies@),
                ),
            ),
        ),
{
    let ghost shards = request_shards(subreqs@);
    let ghost lists = position_seqs(positions@);
    let ghost view = replies_view(replies@);
    let mut out: Vec<Value> = Vec::new();
    for i in 0..num_keys
        invariant
            out@.len() == i,
            forall|k: int| 0 <= k < i ==> #[trigger] out@[k].model() == ValueModel::Null,
    {
        out.push(Value::Null);
    }
    proof {
        crate::value::lemma_values(out@);
        assert(values(out@) =~= reassembled(num_keys as nat, shards, lists, view.take(0)));
    }
    for i in 0..replies.len()
        invariant
            subreqs@.len() <= positions@.len(),
            shards == request_shards(subreqs@),
            lists == position_seqs(positions@),
            view == replies_view(replies@),
            values(out@) == reassembled(num_keys as nat, shards, lists, view.take(i as int)),
    {
        proof {
            assert(view.take(i as int + 1).drop_last() =~= view.take(i as int));
            assert(view.take(i as int + 1).last() == view[i as int]);
            assert(view[i as int].1 == replies@[i as int].1@);
        }
        let shard: usize = replies[i].0;
        let mut idx: usize = 0;
        while idx < subreqs.len() && subreqs[idx].0 != shard
            invariant
                idx <= subreqs@.len(),
                shards == request_shards(subreqs@),
                forall|k: int| 0 <= k < idx ==> #[trigger] shards[k] != shard,
            decreases subreqs@.len() - idx,
        {
            assert(shards[idx as int] != shard);
            idx += 1;
        }
        proof {
            if idx < subreqs@.len() {
                assert(shards[idx as int] == shard);
                lemma_first_at_is(shards, shard, idx as int);
            } else {
                lemma_first_at(shards, shard);
            }
        }
        if idx < subreqs.len() {
            match &replies[i].1.value {
                Value::Array(Some(items)) => {
                    place_values(&mut out, &positions[idx], items);
                },
                _ => {},
            }
        }
    }
    assert(view.take(view.len() as int) =~= view);
    Value::Array(Some(out))
}

/// Answers at positions.
pub open spec fn answers_at(answers: Seq<ValueModel>, at: Seq<usize>) -> Seq<ValueModel> {
    at.map_values(|p: usize| answers[p as int])
}

proof fn lemma_placed_answers(
    out: Seq<ValueModel>,
    at: Seq<usize>,
    answers: Seq<ValueModel>,
    k: int,
)
    requires
        out.len() == answers.len() <= usize::MAX,
        0 <= k <= at.len(),
        forall|j: int| 0 <= j < at.len() ==> #[trigger] at[j] < out.len(),
    ensures
        ({
            let r = placed(out, at, answers_at(answers, at).take(k));
            &&& r.len() == out.len()
            &&& forall|p: int|
                0 <= p < out.len() ==> #[trigger] r[p] == (if at.take(k).contains(p as usize) {
                    answers[p]
                } else {
                    out[p]
                })
        }),
    decreases k,
{
    let got = answers_at(answers, at).take(k);
    if k > 0 {
        lemma_placed_answers(out, at, answers, k - 1);
        assert(got.drop_last() =~= answers_at(answers, at).take(k - 1));
        let before = placed(out, at, got.drop_last());
        let r = placed(out, at, got);
        assert forall|p: int| 0 <= p < out.len() implies #[trigger] r[p] == (if at.take(
            k,
        ).contains(p as usize) {
            answers[p]
        } else {
            out[p]
        }) by {
            if at.take(k).contains(p as usize) {
                let part = at.take(k);
                let j = choose|j: int| 0 <= j < part.len() && part[j] == p as usize;
                if j < k - 1 {
                    assert(at.take(k - 1)[j] == p as usize);
                }
            } else {
                let front = at.take(k - 1);
                if front.contains(p as usize) {
                    let j = choose|j: int| 0 <= j < front.len() && front[j] == p as usize;
                    assert(at.take(k)[j] == p as usize);
                }
                assert(at.take(k)[k - 1] == at[k - 1]);
            }
        }
    }
}

/// Whether the owner of a position answered with an array.
pub open spec fn owner_answered(
    owners: Seq<usize>,
    replies: Seq<(usize, ReplyView)>,
    p: int,
) -> bool {
    exists|k: int|
        0 <= k < replies.len() && (#[trigger] replies[k]).0 == owners[p]
            && replies[k].1.value is Array
}

/// Whether each reply is the answers for the keys of its shard, or no array at all.
pub open spec fn answers_by_owner(
    owners: Seq<usize>,
    answers: Seq<ValueModel>,
    replies: Seq<(usize, ReplyView)>,
) -> bool {
    forall|k: int|
        0 <= k < replies.len() ==> {
            let shard = (#[trigger] replies[k]).0;
            replies[k].1.value is Array ==> replies[k].1.value == ValueModel::Array(
                Some(answers_at(answers, positions_of(owners, shard))),
            )
        }
}

proof fn lemma_positions_for(owners: Seq<usize>, positions: Seq<Seq<usize>>, shard: usize)
    requires
        owners.len() <= usize::MAX,
        positions.len() == shard_order(owners).len(),
        forall|i: int|
            0 <= i < positions.len() ==> #[trigger] positions[i] == positions_of(
                owners,
                shard_order(owners)[i],
            ),
    ensures
        positions_for(shard_order(owners), positions, shard) == (if owners.contains(shard) {
            Some(positions_of(owners, shard))
        } else {
            None
        }),
{
    let order = shard_order(owners);
    crate::coordinator::lemma_distinct(owners);
    lemma_first_at(order, shard);
    if owners.contains(shard) {
        assert(order.contains(shard));
        let i = first_at(order, shard);
        assert(order[i] == shard);
        assert(positions[i] == positions_of(owners, order[i]));
    } else {
        assert(!order.contains(shard));
    }
}

/// Splitting the keys by owner and putting the values back keeps the order of the
/// keys: whatever the order of the replies, each key gets the answer for it, and
/// null where its shard gave none.
pub proof fn law_mget_keeps_the_order_of_keys(
    owners: Seq<usize>,
    positions: Seq<Seq<usize>>,
    answers: Seq<ValueModel>,
    replies: Seq<(usize, ReplyView)>,
)
    requires
        owners.len() <= usize::MAX,
        answers.len() == owners.len(),
        positions.len() == shard_order(owners).len(),
        forall|i: int|
            0 <= i < positions.len() ==> #[trigger] positions[i] == positions_of(
                owners,
                shard_order(owners)[i],
            ),
        answers_by_owner(owners, answers, replies),
    ensures
        reassembled(owners.len(), shard_order(owners), positions, replies).len() == owners.len(),
        forall|p: int|
            0 <= p < owners.len() ==> #[trigger] reassembled(
                owners.len(),
                shard_order(owners),
                positions,
                replies,
            )[p] == (if owner_answered(owners, replies, p) {
                answers[p]
            } else {
                ValueModel::Null
            }),
    decreases replies.len(),
{
    let order = shard_order(owners);
    let all = reassembled(owners.len(), order, positions, replies);
    if replies.len() > 0 {
        let rest = replies.drop_last();
        assert forall|k: int| 0 <= k < rest.len() implies {
            let shard = (#[trigger] rest[k]).0;
            rest[k].1.value is Array ==> rest[k].1.value == ValueModel::Array(
                Some(answers_at(answers, positions_of(owners, shard))),
            )
        } by {
            assert(rest[k] == replies[k]);
        }
        law_mget_keeps_the_order_of_keys(owners, positions, answers, rest);
        let before = reassembled(owners.len(), order, positions, rest);
        let last = replies.last();
        assert(last == replies[replies.len() - 1]);
        let shard = last.0;
        lemma_positions_for(owners, positions, shard);
        lemma_positions(owners, shard);
        let at = positions_of(owners, shard);
        if last.1.value is Array && owners.contains(shard) {
            lemma_placed_answers(before, at, answers, at.len() as int);
            assert(answers_at(answers, at).take(at.len() as int) =~= answers_at(answers, at));
            assert(at.take(at.len() as int) =~= at);
        }
        assert forall|p: int| 0 <= p < owners.len() implies #[trigger] all[p] == (
        if owner_answered(owners, replies, p) {
            answers[p]
        } else {
            ValueModel::Null
        }) by {
            if owner_answered(owners, rest, p) {
                let k = choose|k: int|
                    0 <= k < rest.len() && (#[trigger] rest[k]).0 == owners[p]
                        && rest[k].1.value is Array;
                assert(replies[k].0 == owners[p] && replies[k].1.value is Array);
            }
            if owner_answered(owners, replies, p) {
                let k = choose|k: int|
                    0 <= k < replies.len() && (#[trigger] replies[k]).0 == owners[p]
                        && replies[k].1.value is Array;
                if k < rest.len() {
                    assert(rest[k].0 == owners[p] && rest[k].1.value is Array);
                    assert(owner_answered(owners, rest, p));
                } else {
                    assert(owners[p] == shard);
                    assert(owners.contains(shard));
                    assert(at.contains(p as usize));
                }
            }
            if last.1.value is Array && owners.contains(shard) && at.contains(p as usize) {
                let j = choose|j: int| 0 <= j < at.len() && at[j] == p as usize;
                assert(owners[p] == shard);
                assert(replies[replies.len() - 1].0 == owners[p]);
                assert(owner_answered(owners, replies, p));
            }
        }
    }
}

/// The text of a genuine error of a command.
pub open spec fn genuine_error(v: ValueModel) -> Option<Seq<char>> {
    match v {
        ValueModel::Error(m) => if m == SHARD_UNAVAILABLE_MSG@ {
            None
        } else {
            Some(m)
        },
        _ => None,
    }
}

/// The first genuine error among replies.
pub open spec fn first_genuine_error(replies: Seq<(usize, ReplyView)>) -> Option<Seq<char>>
    decreases replies.len(),
{
    if replies.len() == 0 {
        None
    } else {
        match first_genuine_error(replies.drop_last()) {
            Some(m) => Some(m),
            None => genuine_error(replies.last().1.value),
        }
    }
}

/// The integers of replies, summed in their order; anything else counts for nothing.
pub open spec fn summed(replies: Seq<(usize, ReplyView)>) -> i64
    decreases replies.len(),
{
    if replies.len() == 0 {
        0
    } else {
        saturated(
            summed(replies.drop_last()),
            publish_count_of(replies.last().1.value),
        )
    }
}

/// The reply that the integers of several shards make up: the first genuine error,
/// and otherwise their sum. A shard that cannot be reached counts for nothing.
pub open spec fn integer_reply(replies: Seq<(usize, ReplyView)>) -> ValueModel {
    match first_genuine_error(replies) {
        Some(m) => ValueModel::Error(m),
        None => ValueModel::Integer(summed(replies)),
    }
}

/// The reply of a counting command over several shards.
pub fn sum_integers(replies: &[(usize, ShardReply)]) -> (r: Value)
    ensures
        r.model() == integer_reply(replies_view(replies@)),
{
    let ghost view = replies_view(replies@);
    let mut total: i64 = 0;
    for i in 0..replies.len()
        invariant
            view == replies_view(replies@),
            first_genuine_error(view.take(i as int)) is None,
            total == summed(view.take(i as int)),
    {
        proof {
            assert(view.take(i as int + 1).drop_last() =~= view.take(i as int));
            assert(view.take(i as int + 1).last() == view[i as int]);
            assert(view[i as int].1 == replies@[i as int].1@);
        }
        match &replies[i].1.value {
            Value::Error(e) => {
                if !is_shard_unavailable(e) {
                    proof {
                        lemma_first_error_stays(view, i as int + 1);
                    }
                    return Value::error(ErrorReply { message: e.message.clone() });
                }
            },
            _ => {},
        }
        total = add_saturating(total, publish_count(&replies[i].1.value));
    }
    assert(view.take(view.len() as int) =~= view);
    Value::Integer(total)
}

proof fn lemma_first_error_stays(replies: Seq<(usize, ReplyView)>, k: int)
    requires
        0 <= k <= replies.len(),
        first_genuine_error(replies.take(k)) is Some,
    ensures
        first_genuine_error(replies) == first_genuine_error(replies.take(k)),
    decreases replies.len(),
{
    if k == replies.len() {
        assert(replies.take(k) =~= replies);
    } else {
        assert(replies.drop_last().take(k) =~= replies.take(k));
        lemma_first_error_stays(replies.drop_last(), k);
    }
}

/// The first error among replies.
pub open spec fn first_error(replies: Seq<(usize, ReplyView)>) -> Option<Seq<char>>
    decreases replies.len(),
{
    if replies.len() == 0 {
        None
    } else {
        match (first_error(replies.drop_last()), replies.last().1.value) {
            (Some(m), _) => Some(m),
            (None, ValueModel::Error(m)) => Some(m),
            _ => None,
        }
    }
}

/// The reply that the parts of an `MSET` make up: `OK` if and only if no shard
/// reported an error.
pub open spec fn mset_reply(replies: Seq<(usize, ReplyView)>) -> ValueModel {
    match first_error(replies) {
        Some(m) => ValueModel::Error(m),
        None => ValueModel::Simple("OK"@),
    }
}

proof fn lemma_any_error_stays(replies: Seq<(usize, ReplyView)>, k: int)
    requires
        0 <= k <= replies.len(),
        first_error(replies.take(k)) is Some,
    ensures
        first_error(replies) == first_error(replies.take(k)),
    decreases replies.len(),
{
    if k == replies.len() {
        assert(replies.take(k) =~= replies);
    } else {
        assert(replies.drop_last().take(k) =~= replies.take(k));
        lemma_any_error_stays(replies.drop_last(), k);
    }
}

/// The reply of an `MSET` over several shards.
pub fn merge_mset(replies: &[(usize, ShardReply)]) -> (r: Value)
    ensures
        r.model() == mset_reply(replies_view(replies@)),
{
    let ghost view = replies_view(replies@);
    for i in 0..replies.len()
        invariant
            view == replies_view(replies@),
            first_error(view.take(i as int)) is None,
    {
        proof {
            assert(view.take(i as int + 1).drop_last() =~= view.take(i as int));
            assert(view.take(i as int + 1).last() == view[i as int]);
            assert(view[i as int].1 == replies@[i as int].1@);
        }
        match &replies[i].1.value {
            Value::Error(e) => {
                proof {
                    lemma_any_error_stays(view, i as int + 1);
                }
                return Value::error(ErrorReply { message: e.message.clone() });
            },
            _ => {},
        }
    }
    assert(view.take(view.len() as int) =~= view);
    Value::ok()
}

/// A client is told `OK` only when every shard applied its pairs: no reply is an
/// error.
pub proof fn law_mset_ok_means_every_shard(replies: Seq<(usize, ReplyView)>)
    ensures
        mset_reply(replies) is Simple <==> forall|k: int|
            0 <= k < replies.len() ==> !((#[trigger] replies[k]).1.value is Error),
    decreases replies.len(),
{
    if replies.len() > 0 {
        let rest = replies.drop_last();
        law_mset_ok_means_every_shard(rest);
        assert(replies.last() == replies[replies.len() - 1]);
        if forall|k: int| 0 <= k < replies.len() ==> !((#[trigger] replies[k]).1.value is Error) {
            assert forall|k: int| 0 <= k < rest.len() implies !((
            #[trigger] rest[k]).1.value is Error) by {
                assert(rest[k] == replies[k]);
            }
        }
        if mset_reply(replies) is Simple {
            assert forall|k: int| 0 <= k < replies.len() implies !((
            #[trigger] replies[k]).1.value is Error) by {
                if k < rest.len() {
                    assert(rest[k] == replies[k]);
                }
            }
        }
    }
}

/// How a multi-key command is spread over the shards.
#[derive(Debug)]
pub enum MultikeyPlan {
    /// The values come back to the positions of their keys.
    Fetch {
        /// The number of keys.
        num_keys: usize,
        /// One request per owning shard.
        subreqs: Vec<(usize, Request)>,
        /// The positions of the keys of each request.
        positions: Vec<Vec<usize>>,
    },
    /// Every shard has to apply its pairs.
    Store {
        /// One request per owning shard.
        subreqs: Vec<(usize, Request)>,
    },
    /// The counts of the shards are summed.
    Count {
        /// One request per owning shard.
        subreqs: Vec<(usize, Request)>,
    },
    /// The command is not spread.
    Refused,
}

/// Whether a command counts keys.
pub open spec fn counts_keys(cmd: Seq<u8>) -> bool {
    cmd == encode_utf8("DEL"@) || cmd == encode_utf8("EXISTS"@) || cmd == encode_utf8("UNLINK"@)
        || cmd == encode_utf8("TOUCH"@)
}

/// Whether a command can be spread over the shards.
pub open spec fn spans_shards(cmd: Seq<u8>) -> bool {
    cmd == encode_utf8("MGET"@) || cmd == encode_utf8("MSET"@) || counts_keys(cmd)
}

/// The keys of a multi-key command.
pub open spec fn keys_wanted(cmd: Seq<u8>, args: Seq<Seq<u8>>) -> Seq<Seq<u8>> {
    if cmd == encode_utf8("MGET"@) {
        args.skip(1)
    } else if cmd == encode_utf8("MSET"@) {
        Seq::new(((args.len() - 1) / 2) as nat, |i: int| args[1 + 2 * i])
    } else if counts_keys(cmd) {
        args.skip(1)
    } else {
        Seq::empty()
    }
}

fn is_count(cmd: &[u8]) -> (r: bool)
    ensures
        r == counts_keys(cmd@),
{
    is_word(cmd, "DEL") || is_word(cmd, "EXISTS") || is_word(cmd, "UNLINK") || is_word(
        cmd,
        "TOUCH",
    )
}

/// The keys of a multi-key command, whose owners decide how it is spread.
pub fn multikey_keys(cmd_upper: &[u8], request: &Request) -> (keys: Vec<Vec<u8>>)
    requires
        spans_shards(cmd_upper@) ==> request.args@.len() >= 1,
    ensures
        byte_seqs(keys@) == keys_wanted(cmd_upper@, arguments(*request)),
{
    let ghost args = arguments(*request);
    let n: usize = request.args.len();
    let mut keys: Vec<Vec<u8>> = Vec::new();
    let get = is_word(cmd_upper, "MGET");
    let set = is_word(cmd_upper, "MSET");
    if !get && set {
        for i in 0..(n - 1) / 2
            invariant
                n == request.args@.len(),
                n >= 1,
                args == arguments(*request),
                keys@.len() == i,
                forall|k: int| 0 <= k < i ==> #[trigger] keys@[k]@ == args[1 + 2 * k],
        {
            keys.push(copy_bytes(request.args[1 + 2 * i].as_slice()));
        }
    } else if get || is_count(cmd_upper) {
        for i in 1..n
            invariant
                n == request.args@.len(),
                n >= 1,
                args == arguments(*request),
                keys@.len() == i - 1,
                forall|k: int| 0 <= k < i - 1 ==> #[trigger] keys@[k]@ == args[k + 1],
        {
            keys.push(copy_bytes(request.args[i].as_slice()));
        }
    }
    assert(byte_seqs(keys@) =~= keys_wanted(cmd_upper@, args));
    keys
}

/// Whether a plan spreads a command by the owners of its keys.
pub open spec fn plan_spreads(
    cmd: Seq<u8>,
    args: Seq<Seq<u8>>,
    owners: Seq<usize>,
    plan: MultikeyPlan,
) -> bool {
    if cmd == encode_utf8("MGET"@) {
        &&& plan matches MultikeyPlan::Fetch { num_keys, subreqs, positions }
        &&& num_keys == args.len() - 1
        &&& grouped(cmd, args.skip(1), owners, subreqs@, positions@)
    } else if cmd == encode_utf8("MSET"@) {
        &&& plan matches MultikeyPlan::Store { subreqs }
        &&& grouped_pairs(args.skip(1), owners, subreqs@)
    } else if counts_keys(cmd) {
        &&& plan matches MultikeyPlan::Count { subreqs }
        &&& grouped_keys(cmd, args.skip(1), owners, subreqs@)
    } else {
        plan is Refused
    }
}

/// How a multi-key command is spread over the shards. `owners` names the owner of
/// each of its keys.
pub fn fan_out_multikey(cmd_upper: &[u8], request: &Request, owners: &[usize]) -> (plan:
    MultikeyPlan)
    requires
        spans_shards(cmd_upper@) ==> request.args@.len() >= 1,
        owners@.len() == keys_wanted(cmd_upper@, arguments(*request)).len(),
    ensures
        plan_spreads(cmd_upper@, arguments(*request), owners@, plan),
{
    let ghost args = arguments(*request);
    let get = is_word(cmd_upper, "MGET");
    let set = is_word(cmd_upper, "MSET");
    if !get && !set && !is_count(cmd_upper) {
        return MultikeyPlan::Refused;
    }
    let rest = slice_subrange(request.args.as_slice(), 1, request.args.len());
    assert(byte_seqs(rest@) =~= args.skip(1));
    if get {
        let (subreqs, positions) = group_by_owner(cmd_upper, rest, owners);
        MultikeyPlan::Fetch { num_keys: rest.len(), subreqs, positions }
    } else if set {
        MultikeyPlan::Store { subreqs: group_pairs_by_owner(rest, owners) }
    } else {
        let (subreqs, _) = group_by_owner(cmd_upper, rest, owners);
        MultikeyPlan::Count { subreqs }
    }
}

/// The reply that the replies of the shards make up.
pub open spec fn merged_reply(plan: MultikeyPlan, replies: Seq<(usize, ReplyView)>) -> ValueModel {
    match plan {
        MultikeyPlan::Fetch { num_keys, subreqs, positions } => ValueModel::Array(
            Some(
                reassembled(
                    num_keys as nat,
                    request_shards(subreqs@),
                    position_seqs(positions@),
                    replies,
                ),
            ),
        ),
        MultikeyPlan::Store { .. } => mset_reply(replies),
        MultikeyPlan::Count { .. } => integer_reply(replies),
        MultikeyPlan::Refused => ValueModel::Error("non-fan-out multi-key command"@),
    }
}

/// The reply to a multi-key command out of the replies of the shards.
pub fn merge_multikey(plan: &MultikeyPlan, replies: &[(usize, ShardReply)]) -> (r: Value)
    requires
        plan matches MultikeyPlan::Fetch { subreqs, positions, .. } ==> subreqs@.len()
            <= positions@.len(),
    ensures
        r.model() == merged_reply(*plan, replies_view(replies@)),
{
    match plan {
        MultikeyPlan::Fetch { num_keys, subreqs, positions } => reassemble_mget(
            *num_keys,
            subreqs.as_slice(),
            positions.as_slice(),
            replies,
        ),
        MultikeyPlan::Store { .. } => merge_mset(replies),
        MultikeyPlan::Count { .. } => sum_integers(replies),
        MultikeyPlan::Refused => Value::error(ErrorReply::err("non-fan-out multi-key command")),
    }
}

/// A request for keys holds the verb and then the keys of the shard, each in its turn.
pub proof fn law_each_key_goes_to_its_owner(
    verb: Seq<u8>,
    keys: Seq<Seq<u8>>,
    owners: Seq<usize>,
    subreqs: Seq<(usize, Request)>,
    p: int,
)
    requires
        owners.len() == keys.len() <= usize::MAX,
        grouped_keys(verb, keys, owners, subreqs),
        0 <= p < keys.len(),
    ensures
        forall|i: int|
            0 <= i < subreqs.len() ==> {
                let args = arguments((#[trigger] subreqs[i]).1);
                let own = positions_of(owners, subreqs[i].0);
                &&& args.len() == 1 + own.len()
                &&& args[0] == verb
                &&& forall|j: int|
                    0 <= j < own.len() ==> args[1 + j] == keys[#[trigger] own[j] as int]
                        && owners[own[j] as int] == subreqs[i].0
            },
        exists|i: int, j: int|
            {
                &&& 0 <= i < subreqs.len()
                &&& (#[trigger] subreqs[i]).0 == owners[p]
                &&& 0 <= j < positions_of(owners, owners[p]).len()
                &&& #[trigger] positions_of(owners, owners[p])[j] == p
                &&& arguments(subreqs[i].1)[1 + j] == keys[p]
            },
        forall|i: int, j: int|
            0 <= i < j < subreqs.len() ==> (#[trigger] subreqs[i]).0 != (#[trigger] subreqs[j]).0,
{
    law_grouping_is_a_partition(owners);
    let order = shard_order(owners);
    assert forall|i: int, j: int| 0 <= i < j < subreqs.len() implies (#[trigger] subreqs[i]).0 != (
    #[trigger] subreqs[j]).0 by {
        assert(subreqs[i].0 == order[i] && subreqs[j].0 == order[j]);
    }
    assert(order.contains(owners[p]));
    let i = choose|i: int| 0 <= i < order.len() && order[i] == owners[p];
    let own = positions_of(owners, owners[p]);
    assert(own.contains(p as usize));
    let j = choose|j: int| 0 <= j < own.len() && own[j] == p as usize;
    assert(subreqs[i].0 == owners[p]);
    assert(positions_of(owners, owners[p])[j] == p);
}

/// A request for pairs holds the verb and then the pairs of the shard: each key that is
/// sent is followed by the value that stood behind it in the client's command.
pub proof fn law_each_value_follows_its_key(
    pairs: Seq<Seq<u8>>,
    owners: Seq<usize>,
    subreqs: Seq<(usize, Request)>,
    p: int,
)
    requires
        owners.len() == pairs.len() / 2,
        pairs.len() <= usize::MAX,
        grouped_pairs(pairs, owners, subreqs),
        0 <= p < owners.len(),
    ensures
        forall|i: int|
            0 <= i < subreqs.len() ==> {
                let args = arguments((#[trigger] subreqs[i]).1);
                let own = positions_of(owners, subreqs[i].0);
                &&& args.len() == 1 + 2 * own.len()
                &&& args[0] == encode_utf8("MSET"@)
                &&& forall|j: int|
                    0 <= j < own.len() ==> args[1 + 2 * j] == pairs[2 * (#[trigger] own[j])]
                        && args[2 + 2 * j] == pairs[2 * own[j] + 1] && owners[own[j] as int]
                        == subreqs[i].0
            },
        exists|i: int, j: int|
            {
                &&& 0 <= i < subreqs.len()
                &&& (#[trigger] subreqs[i]).0 == owners[p]
                &&& 0 <= j < positions_of(owners, owners[p]).len()
                &&& #[trigger] positions_of(owners, owners[p])[j] == p
                &&& arguments(subreqs[i].1)[1 + 2 * j] == pairs[2 * p]
                &&& arguments(subreqs[i].1)[2 + 2 * j] == pairs[2 * p + 1]
            },
        forall|i: int, j: int|
            0 <= i < j < subreqs.len() ==> (#[trigger] subreqs[i]).0 != (#[trigger] subreqs[j]).0,
{
    law_grouping_is_a_partition(owners);
    let order = shard_order(owners);
    let verb = encode_utf8("MSET"@);
    assert forall|i: int| 0 <= i < subreqs.len() implies {
        let args = arguments((#[trigger] subreqs[i]).1);
        let own = positions_of(owners, subreqs[i].0);
        &&& args.len() == 1 + 2 * own.len()
        &&& args[0] == verb
        &&& forall|j: int|
            0 <= j < own.len() ==> args[1 + 2 * j] == pairs[2 * (#[trigger] own[j])] && args[2 + 2
                * j] == pairs[2 * own[j] + 1] && owners[own[j] as int] == subreqs[i].0
    } by {
        lemma_pairs_request(verb, pairs, positions_of(owners, subreqs[i].0));
    }
    assert forall|i: int, j: int| 0 <= i < j < subreqs.len() implies (#[trigger] subreqs[i]).0 != (
    #[trigger] subreqs[j]).0 by {
        assert(subreqs[i].0 == order[i] && subreqs[j].0 == order[j]);
    }
    assert(order.contains(owners[p]));
    let i = choose|i: int| 0 <= i < order.len() && order[i] == owners[p];
    let own = positions_of(owners, owners[p]);
    assert(own.contains(p as usize));
    let j = choose|j: int| 0 <= j < own.len() && own[j] == p as usize;
    assert(subreqs[i].0 == owners[p]);
    assert(positions_of(owners, owners[p])[j] == p);
    assert(positions_of(owners, subreqs[i].0)[j] == p);
}

proof fn lemma_pairs_request(verb: Seq<u8>, pairs: Seq<Seq<u8>>, at: Seq<usize>)
    ensures
        pairs_request(verb, pairs, at).len() == 1 + 2 * at.len(),
        pairs_request(verb, pairs, at)[0] == verb,
        forall|j: int|
            0 <= j < at.len() ==> pairs_request(verb, pairs, at)[1 + 2 * j] == pairs[2 * (
            #[trigger] at[j])] && pairs_request(verb, pairs, at)[2 + 2 * j] == pairs[2 * at[j]
                + 1],
    decreases at.len(),
{
    if at.len() > 0 {
        let front = at.drop_last();
        lemma_pairs_request(verb, pairs, front);
        assert forall|j: int| 0 <= j < at.len() implies pairs_request(verb, pairs, at)[1 + 2 * j]
            == pairs[2 * (#[trigger] at[j])] && pairs_request(verb, pairs, at)[2 + 2 * j]
            == pairs[2 * at[j] + 1] by {
            if j < front.len() {
                assert(front[j] == at[j]);
            }
        }
    }
}

/// The sum of a counting command is the sum of what the shards counted. A genuine error
/// of any shard is the reply instead, the one that comes first; a shard that cannot be
/// reached counts for nothing.
pub proof fn law_counts_are_summed(replies: Seq<(usize, ReplyView)>)
    ensures
        (forall|k: int| 0 <= k < replies.len() ==> counted(#[trigger] replies[k].1.value))
            ==> ({
            let sum = replies.map_values(
                |r: (usize, ReplyView)|
                    match r.1.value {
                        ValueModel::Integer(n) => n as int,
                        _ => 0,
                    },
            ).fold_left(0int, |a: int, b: int| a + b);
            integer_reply(replies) == ValueModel::Integer(
                if sum <= i64::MAX {
                    sum as i64
                } else {
                    i64::MAX
                },
            )
        }),
        integer_reply(replies) is Error <==> exists|k: int|
            0 <= k < replies.len() && fails_for_real(#[trigger] replies[k].1.value),
        integer_reply(replies) matches ValueModel::Error(m) ==> exists|k: int|
            {
                &&& 0 <= k < replies.len()
                &&& #[trigger] replies[k].1.value == ValueModel::Error(m)
                &&& m != SHARD_UNAVAILABLE_MSG@
                &&& forall|j: int| 0 <= j < k ==> !fails_for_real(#[trigger] replies[j].1.value)
            },
    decreases replies.len(),
{
    lemma_first_genuine(replies);
    if forall|k: int| 0 <= k < replies.len() ==> counted(#[trigger] replies[k].1.value) {
        lemma_summed(replies);
        if first_genuine_error(replies) is Some {
            let k = choose|k: int|
                0 <= k < replies.len() && fails_for_real(#[trigger] replies[k].1.value);
            assert(counted(replies[k].1.value));
        }
    }
}

/// Whether a reply is a count, or says that the shard cannot be reached.
pub open spec fn counted(v: ValueModel) -> bool {
    match v {
        ValueModel::Integer(n) => n >= 0,
        ValueModel::Error(m) => m == SHARD_UNAVAILABLE_MSG@,
        _ => false,
    }
}

/// Whether a reply is an error that is not about reaching the shard.
pub open spec fn fails_for_real(v: ValueModel) -> bool {
    v matches ValueModel::Error(m) && m != SHARD_UNAVAILABLE_MSG@
}

proof fn lemma_first_genuine(replies: Seq<(usize, ReplyView)>)
    ensures
        first_genuine_error(replies) is Some <==> exists|k: int|
            0 <= k < replies.len() && fails_for_real(#[trigger] replies[k].1.value),
        first_genuine_error(replies) matches Some(m) ==> exists|k: int|
            {
                &&& 0 <= k < replies.len()
                &&& #[trigger] replies[k].1.value == ValueModel::Error(m)
                &&& m != SHARD_UNAVAILABLE_MSG@
                &&& forall|j: int| 0 <= j < k ==> !fails_for_real(#[trigger] replies[j].1.value)
            },
    decreases replies.len(),
{
    if replies.len() > 0 {
        let front = replies.drop_last();
        lemma_first_genuine(front);
        let n = replies.len() - 1;
        assert forall|j: int| 0 <= j < n implies #[trigger] replies[j] == front[j] by {}
        match first_genuine_error(front) {
            Some(m) => {
                let k = choose|k: int|
                    {
                        &&& 0 <= k < front.len()
                        &&& #[trigger] front[k].1.value == ValueModel::Error(m)
                        &&& m != SHARD_UNAVAILABLE_MSG@
                        &&& forall|j: int|
                            0 <= j < k ==> !fails_for_real(#[trigger] front[j].1.value)
                    };
                assert(replies[k].1.value == ValueModel::Error(m));
                assert forall|j: int| 0 <= j < k implies !fails_for_real(
                    #[trigger] replies[j].1.value,
                ) by {
                    assert(!fails_for_real(front[j].1.value));
                }
                assert(fails_for_real(replies[k].1.value));
            },
            None => {
                assert forall|j: int| 0 <= j < n implies !fails_for_real(
                    #[trigger] replies[j].1.value,
                ) by {
                    assert(!fails_for_real(front[j].1.value));
                }
                match genuine_error(replies[n].1.value) {
                    Some(m) => {
                        assert(replies[n].1.value == ValueModel::Error(m));
                        assert(fails_for_real(replies[n].1.value));
                    },
                    None => {},
                }
            },
        }
    }
}

proof fn lemma_summed(replies: Seq<(usize, ReplyView)>)
    requires
        forall|k: int| 0 <= k < replies.len() ==> counted(#[trigger] replies[k].1.value),
    ensures
        ({
            let sum = replies.map_values(
                |r: (usize, ReplyView)|
                    match r.1.value {
                        ValueModel::Integer(n) => n as int,
                        _ => 0,
                    },
            ).fold_left(0int, |a: int, b: int| a + b);
            &&& 0 <= sum
            &&& summed(replies) == (if sum <= i64::MAX {
                sum as i64
            } else {
                i64::MAX
            })
        }),
    decreases replies.len(),
{
    let f = |r: (usize, ReplyView)|
        match r.1.value {
            ValueModel::Integer(n) => n as int,
            _ => 0,
        };
    if replies.len() > 0 {
        let front = replies.drop_last();
        assert forall|k: int| 0 <= k < front.len() implies counted(
            #[trigger] front[k].1.value,
        ) by {
            assert(front[k] == replies[k]);
        }
        lemma_summed(front);
        assert(replies.map_values(f).drop_last() =~= front.map_values(f));
        assert(counted(replies[replies.len() - 1].1.value));
    }
}

/// An `MSET` fails with the first error that a shard reported, and it is `OK` where none
/// did.
pub proof fn law_mset_fails_with_the_first_error(replies: Seq<(usize, ReplyView)>, k: int)
    requires
        0 <= k < replies.len(),
        replies[k].1.value is Error,
        forall|j: int| 0 <= j < k ==> !((#[trigger] replies[j]).1.value is Error),
    ensures
        mset_reply(replies) == replies[k].1.value,
    decreases replies.len(),
{
    let front = replies.drop_last();
    if k < front.len() {
        assert forall|j: int| 0 <= j < k implies !((#[trigger] front[j]).1.value is Error) by {
            assert(front[j] == replies[j]);
        }
        law_mset_fails_with_the_first_error(front, k);
        assert(first_error(front) is Some);
    } else {
        assert forall|j: int| 0 <= j < front.len() implies !((
        #[trigger] front[j]).1.value is Error) by {
            assert(front[j] == replies[j]);
        }
        lemma_no_error(front);
    }
}

proof fn lemma_no_error(replies: Seq<(usize, ReplyView)>)
    requires
        forall|j: int| 0 <= j < replies.len() ==> !((#[trigger] replies[j]).1.value is Error),
    ensures
        first_error(replies) is None,
    decreases replies.len(),
{
    if replies.len() > 0 {
        let front = replies.drop_last();
        assert forall|j: int| 0 <= j < front.len() implies !((
        #[trigger] front[j]).1.value is Error) by {
            assert(front[j] == replies[j]);
        }
        lemma_no_error(front);
        assert(!(replies[replies.len() - 1].1.value is Error));
    }
}

/// The keys of a command: all words behind the verb, and for `MSET` every second of
/// them; another command has none.
pub proof fn law_keys_of_a_command(args: Seq<Seq<u8>>, cmd: Seq<u8>, i: int)
    requires
        args.len() >= 1,
    ensures
        keys_wanted(encode_utf8("MGET"@), args).len() == args.len() - 1,
        0 <= i < args.len() - 1 ==> keys_wanted(encode_utf8("MGET"@), args)[i] == args[i + 1],
        keys_wanted(encode_utf8("MSET"@), args).len() == (args.len() - 1) / 2,
        0 <= i < (args.len() - 1) / 2 ==> keys_wanted(encode_utf8("MSET"@), args)[i] == args[2 * i
            + 1],
        (cmd == encode_utf8("DEL"@) || cmd == encode_utf8("EXISTS"@) || cmd == encode_utf8(
            "UNLINK"@,
        ) || cmd == encode_utf8("TOUCH"@)) ==> keys_wanted(cmd, args).len() == args.len() - 1 && (
        0 <= i < args.len() - 1 ==> keys_wanted(cmd, args)[i] == args[i + 1]),
        !spans_shards(cmd) ==> keys_wanted(cmd, args).len() == 0,
{
    reveal_strlit("MGET");
    reveal_strlit("MSET");
    reveal_strlit("DEL");
    reveal_strlit("EXISTS");
    reveal_strlit("UNLINK");
    reveal_strlit("TOUCH");
    vstd::utf8::encode_utf8_decode_utf8("MGET"@);
    vstd::utf8::encode_utf8_decode_utf8("MSET"@);
    vstd::utf8::encode_utf8_decode_utf8("DEL"@);
    vstd::utf8::encode_utf8_decode_utf8("EXISTS"@);
    vstd::utf8::encode_utf8_decode_utf8("UNLINK"@);
    vstd::utf8::encode_utf8_decode_utf8("TOUCH"@);
    assert("MGET"@[1] != "MSET"@[1]);
    assert("DEL"@.len() != "MSET"@.len());
    assert("EXISTS"@.len() != "MSET"@.len());
    assert("UNLINK"@.len() != "MSET"@.len());
    assert("TOUCH"@.len() != "MSET"@.len());
}

/// How a command is spread: a fetch, a store or a count by the owners of its keys, and
/// nothing for any other command.
pub proof fn law_plan_goes_by_the_command(
    cmd: Seq<u8>,
    args: Seq<Seq<u8>>,
    owners: Seq<usize>,
    plan: MultikeyPlan,
)
    requires
        plan_spreads(cmd, args, owners, plan),
        args.len() >= 1,
    ensures
        cmd == encode_utf8("MGET"@) ==> (plan matches MultikeyPlan::Fetch {
            num_keys,
            subreqs,
            positions,
        } && num_keys == args.len() - 1 && grouped_keys(cmd, args.skip(1), owners, subreqs@)
            && positions@.len() == subreqs@.len() && forall|i: int|
            0 <= i < positions@.len() ==> (#[trigger] positions@[i])@ == positions_of(
                owners,
                subreqs@[i].0,
            )),
        cmd == encode_utf8("MSET"@) ==> (plan matches MultikeyPlan::Store { subreqs }
            && grouped_pairs(args.skip(1), owners, subreqs@)),
        cmd == encode_utf8("DEL"@) || cmd == encode_utf8("EXISTS"@) || cmd == encode_utf8(
            "UNLINK"@,
        ) || cmd == encode_utf8("TOUCH"@) ==> (plan matches MultikeyPlan::Count { subreqs }
            && grouped_keys(cmd, args.skip(1), owners, subreqs@)),
        !spans_shards(cmd) ==> plan is Refused,
{
    reveal_strlit("MGET");
    reveal_strlit("MSET");
    reveal_strlit("DEL");
    reveal_strlit("EXISTS");
    reveal_strlit("UNLINK");
    reveal_strlit("TOUCH");
    vstd::utf8::encode_utf8_decode_utf8("MGET"@);
    vstd::utf8::encode_utf8_decode_utf8("MSET"@);
    vstd::utf8::encode_utf8_decode_utf8("DEL"@);
    vstd::utf8::encode_utf8_decode_utf8("EXISTS"@);
    vstd::utf8::encode_utf8_decode_utf8("UNLINK"@);
    vstd::utf8::encode_utf8_decode_utf8("TOUCH"@);
    assert("MGET"@[1] != "MSET"@[1]);
    assert("DEL"@.len() == 3 && "EXISTS"@.len() == 6 && "UNLINK"@.len() == 6 && "TOUCH"@.len() == 5);
}

/// The commands that are spread over the shards are these six.
pub proof fn law_six_commands_span_shards(cmd: Seq<u8>)
    ensures
        spans_shards(cmd) <==> cmd == encode_utf8("MGET"@) || cmd == encode_utf8("MSET"@) || cmd
            == encode_utf8("DEL"@) || cmd == encode_utf8("EXISTS"@) || cmd == encode_utf8(
            "UNLINK"@,
        ) || cmd == encode_utf8("TOUCH"@),
{
}

/// A fetch over several shards gives each key the answer of its owner, at the place that
/// the key had in the command, and null where the owner gave none.
pub proof fn law_a_fetch_answers_each_key(
    args: Seq<Seq<u8>>,
    owners: Seq<usize>,
    plan: MultikeyPlan,
    answers: Seq<ValueModel>,
    replies: Seq<(usize, ReplyView)>,
    p: int,
)
    requires
        plan_spreads(encode_utf8("MGET"@), args, owners, plan),
        1 <= args.len() <= usize::MAX,
        owners.len() == args.len() - 1,
        answers.len() == owners.len(),
        answers_by_owner(owners, answers, replies),
        0 <= p < owners.len(),
    ensures
        merged_reply(plan, replies) matches ValueModel::Array(Some(items)) && items.len()
            == owners.len() && items[p] == (if owner_answered(owners, replies, p) {
            answers[p]
        } else {
            ValueModel::Null
        }),
{
    match plan {
        MultikeyPlan::Fetch { num_keys, subreqs, positions } => {
            let order = shard_order(owners);
            assert(request_shards(subreqs@) =~= order) by {
                assert forall|i: int| 0 <= i < order.len() implies request_shards(subreqs@)[i]
                    == order[i] by {
                    assert(subreqs@[i].0 == order[i]);
                }
            }
            let lists = position_seqs(positions@);
            assert forall|i: int| 0 <= i < lists.len() implies #[trigger] lists[i] == positions_of(
                owners,
                order[i],
            ) by {
                assert(positions@[i]@ == positions_of(owners, order[i]));
            }
            law_mget_keeps_the_order_of_keys(owners, lists, answers, replies);
        },
        _ => {},
    }
}

/// A store is answered as its parts were, a count by their sum, and a command that is not
/// spread by an error.
pub proof fn law_merged_replies_go_by_the_plan(
    plan: MultikeyPlan,
    replies: Seq<(usize, ReplyView)>,
)
    ensures
        plan is Store ==> merged_reply(plan, replies) == mset_reply(replies),
        plan is Count ==> merged_reply(plan, replies) == integer_reply(replies),
        plan is Refused ==> merged_reply(plan, replies) is Error,
{
}

/// The answers for the keys of a shard are those at their positions, and a key was
/// answered where its owner sent an array.
pub proof fn law_answers_of_a_shard(
    owners: Seq<usize>,
    answers: Seq<ValueModel>,
    at: Seq<usize>,
    replies: Seq<(usize, ReplyView)>,
    p: int,
    j: int,
)
    requires
        0 <= j < at.len(),
    ensures
        answers_at(answers, at).len() == at.len(),
        answers_at(answers, at)[j] == answers[at[j] as int],
        owner_answered(owners, replies, p) <==> exists|k: int|
            0 <= k < replies.len() && (#[trigger] replies[k]).0 == owners[p]
                && replies[k].1.value is Array,
{
}

} // verus!
