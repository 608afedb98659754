//! The connections of a shard that wait for a key to gain an element, by database
//! and key, the longest-waiting first.
use std::sync::Arc;
use tokio::sync::Notify;
use vstd::prelude::*;
use crate::bytes::{byte_seqs, copy_bytes, same_bytes};
use crate::history::History;
use crate::pubsub::{new_notify, notified, notify};
use crate::subscriptions::{keep_marked, kept, lemma_kept, lemma_kept_all, lemma_kept_filter};

verus! {

/// A connection that waits.
#[derive(Debug)]
pub struct Waiter {
    /// The connection.
    pub conn_id: u64,
    /// What wakes it.
    pub wake: Arc<Notify>,
}

/// The connections that wait on one key.
#[derive(Debug)]
pub struct Queue {
    /// The database.
    pub db: u32,
    /// The key.
    pub key: Vec<u8>,
    /// Who waits, the longest-waiting first.
    pub waiters: Vec<Waiter>,
}

/// The mathematical value of a queue.
pub struct QueueView {
    /// The database.
    pub db: u32,
    /// The key.
    pub key: Seq<u8>,
    /// Who waits, the longest-waiting first.
    pub waiters: Seq<Waiter>,
}

impl View for Queue {
    type V = QueueView;

    open spec fn view(&self) -> QueueView {
        QueueView { db: self.db, key: self.key@, waiters: self.waiters@ }
    }
}

/// The queues of a shard.
pub struct ShardBlocking {
    /// The queues that are not empty.
    pub queues: Vec<Queue>,
    /// The waiters that were woken so far.
    pub woken: History<Waiter>,
}

impl View for ShardBlocking {
    type V = Seq<QueueView>;

    open spec fn view(&self) -> Seq<QueueView> {
        self.queues@.map_values(|q: Queue| q@)
    }
}

/// Whether a queue is the one of a key.
pub open spec fn is_queue(q: QueueView, db: u32, key: Seq<u8>) -> bool {
    q.db == db && q.key == key
}

/// Where the queue of a key stands; the number of queues where there is none.
pub open spec fn queue_at(t: Seq<QueueView>, db: u32, key: Seq<u8>) -> int
    decreases t.len(),
{
    if t.len() == 0 {
        0
    } else {
        let i = queue_at(t.drop_last(), db, key);
        if i < t.len() - 1 {
            i
        } else if is_queue(t.last(), db, key) {
            t.len() - 1
        } else {
            t.len() as int
        }
    }
}

/// Who waits on a key, the longest-waiting first.
pub open spec fn waiting(t: Seq<QueueView>, db: u32, key: Seq<u8>) -> Seq<Waiter> {
    let i = queue_at(t, db, key);
    if i < t.len() {
        t[i].waiters
    } else {
        Seq::empty()
    }
}

/// What `queue_at` names: the first queue of the key.
pub proof fn lemma_queue_at(t: Seq<QueueView>, db: u32, key: Seq<u8>)
    ensures
        0 <= queue_at(t, db, key) <= t.len(),
        forall|k: int| 0 <= k < queue_at(t, db, key) ==> !is_queue(#[trigger] t[k], db, key),
        queue_at(t, db, key) < t.len() ==> is_queue(t[queue_at(t, db, key)], db, key),
    decreases t.len(),
{
    if t.len() > 0 {
        let front = t.drop_last();
        lemma_queue_at(front, db, key);
        let i = queue_at(front, db, key);
        assert forall|k: int| 0 <= k < queue_at(t, db, key) implies !is_queue(
            #[trigger] t[k],
            db,
            key,
        ) by {
            if k < front.len() {
                assert(front[k] == t[k]);
            }
        }
        if i < front.len() {
            assert(front[i] == t[i]);
        }
    }
}

proof fn lemma_queue_at_is(t: Seq<QueueView>, db: u32, key: Seq<u8>, i: int)
    requires
        0 <= i <= t.len(),
        forall|k: int| 0 <= k < i ==> !is_queue(#[trigger] t[k], db, key),
        i < t.len() ==> is_queue(t[i], db, key),
    ensures
        queue_at(t, db, key) == i,
{
    lemma_queue_at(t, db, key);
}

/// Whether every key has one queue, and no queue is empty.
pub open spec fn queues_ok(t: Seq<QueueView>) -> bool {
    &&& forall|i: int| 0 <= i < t.len() ==> (#[trigger] t[i]).waiters.len() > 0
    &&& forall|i: int, j: int|
        0 <= i < j < t.len() ==> !is_queue(#[trigger] t[j], (#[trigger] t[i]).db, t[i].key)
}

/// The queues after a connection has begun to wait on a key: it comes last.
pub open spec fn registered(t: Seq<QueueView>, db: u32, key: Seq<u8>, w: Waiter) -> Seq<
    QueueView,
> {
    let i = queue_at(t, db, key);
    if i < t.len() {
        t.update(i, QueueView { db, key, waiters: t[i].waiters.push(w) })
    } else {
        t.push(QueueView { db, key, waiters: seq![w] })
    }
}

/// Which waiters are not a connection's.
pub open spec fn others(ws: Seq<Waiter>, conn: u64) -> Seq<bool> {
    ws.map_values(|w: Waiter| w.conn_id != conn)
}

/// Waiters without a connection's.
pub open spec fn left_by(ws: Seq<Waiter>, conn: u64) -> Seq<Waiter> {
    kept(ws, others(ws, conn))
}

/// The queues after a connection has stopped waiting on a key.
pub open spec fn deregistered(t: Seq<QueueView>, db: u32, key: Seq<u8>, conn: u64) -> Seq<
    QueueView,
> {
    let i = queue_at(t, db, key);
    if i < t.len() {
        let ws = left_by(t[i].waiters, conn);
        if ws.len() == 0 {
            t.remove(i)
        } else {
            t.update(i, QueueView { db, key, waiters: ws })
        }
    } else {
        t
    }
}

/// The queues after a connection has begun to wait on several keys.
pub open spec fn parked(t: Seq<QueueView>, db: u32, keys: Seq<Seq<u8>>, w: Waiter) -> Seq<
    QueueView,
>
    decreases keys.len(),
{
    if keys.len() == 0 {
        t
    } else {
        registered(parked(t, db, keys.drop_last(), w), db, keys.last(), w)
    }
}

/// The queues after a connection has stopped waiting on several keys.
pub open spec fn released(t: Seq<QueueView>, db: u32, keys: Seq<Seq<u8>>, conn: u64) -> Seq<
    QueueView,
>
    decreases keys.len(),
{
    if keys.len() == 0 {
        t
    } else {
        deregistered(released(t, db, keys.drop_last(), conn), db, keys.last(), conn)
    }
}

/// How many waiters there are.
pub open spec fn waiter_count(t: Seq<QueueView>) -> nat
    decreases t.len(),
{
    if t.len() == 0 {
        0
    } else {
        waiter_count(t.drop_last()) + t.last().waiters.len()
    }
}

/// Beginning to wait keeps the queues in order.
pub proof fn lemma_registered(t: Seq<QueueView>, db: u32, key: Seq<u8>, w: Waiter)
    requires
        queues_ok(t),
    ensures
        queues_ok(registered(t, db, key, w)),
{
    lemma_queue_at(t, db, key);
    let i = queue_at(t, db, key);
    let r = registered(t, db, key, w);
    if i < t.len() {
        assert forall|a: int, b: int| 0 <= a < b < r.len() implies !is_queue(
            #[trigger] r[b],
            (#[trigger] r[a]).db,
            r[a].key,
        ) by {
            assert(!is_queue(t[b], t[a].db, t[a].key));
        }
    } else {
        assert forall|a: int, b: int| 0 <= a < b < r.len() implies !is_queue(
            #[trigger] r[b],
            (#[trigger] r[a]).db,
            r[a].key,
        ) by {
            if b < t.len() {
                assert(!is_queue(t[b], t[a].db, t[a].key));
            } else {
                assert(!is_queue(t[a], db, key));
            }
        }
    }
}

/// Ceasing to wait keeps the queues in order.
pub proof fn lemma_deregistered(t: Seq<QueueView>, db: u32, key: Seq<u8>, conn: u64)
    requires
        queues_ok(t),
    ensures
        queues_ok(deregistered(t, db, key, conn)),
{
    lemma_queue_at(t, db, key);
    let i = queue_at(t, db, key);
    let r = deregistered(t, db, key, conn);
    if i < t.len() {
        let gone = left_by(t[i].waiters, conn).len() == 0;
        assert forall|a: int| 0 <= a < r.len() implies (#[trigger] r[a]).waiters.len() > 0 by {
            if gone && a >= i {
                assert(r[a] == t[a + 1]);
            } else if a != i {
                assert(r[a] == t[a]);
            }
        }
        assert forall|a: int, b: int| 0 <= a < b < r.len() implies !is_queue(
            #[trigger] r[b],
            (#[trigger] r[a]).db,
            r[a].key,
        ) by {
            let a2 = if gone && a >= i {
                a + 1
            } else {
                a
            };
            let b2 = if gone && b >= i {
                b + 1
            } else {
                b
            };
            assert(!is_queue(t[b2], t[a2].db, t[a2].key));
        }
    }
}

/// The longest-waiting connection stays in front while others come.
pub proof fn law_the_longest_waiting_is_served_first(
    t: Seq<QueueView>,
    db: u32,
    key: Seq<u8>,
    other_db: u32,
    other_key: Seq<u8>,
    w: Waiter,
)
    ensures
        waiting(registered(t, other_db, other_key, w), db, key) == (if db == other_db && key
            == other_key {
            waiting(t, db, key).push(w)
        } else {
            waiting(t, db, key)
        }),
{
    lemma_queue_at(t, db, key);
    lemma_queue_at(t, other_db, other_key);
    let r = registered(t, other_db, other_key, w);
    let i = queue_at(t, db, key);
    let j = queue_at(t, other_db, other_key);
    if db == other_db && key == other_key {
        if i < t.len() {
            lemma_queue_at_is(r, db, key, i);
        } else {
            assert forall|k: int| 0 <= k < t.len() implies !is_queue(
                #[trigger] r[k],
                db,
                key,
            ) by {
                assert(r[k] == t[k]);
            }
            lemma_queue_at_is(r, db, key, t.len() as int);
            assert(seq![w] =~= Seq::<Waiter>::empty().push(w));
        }
    } else {
        assert forall|k: int| 0 <= k < i implies !is_queue(#[trigger] r[k], db, key) by {
            assert(!is_queue(t[k], db, key));
        }
        if i < t.len() {
            assert(i != j);
            assert(r[i] == t[i]);
            lemma_queue_at_is(r, db, key, i);
        } else {
            if j < t.len() {
                lemma_queue_at_is(r, db, key, t.len() as int);
            } else {
                assert(!is_queue(r[t.len() as int], db, key));
                lemma_queue_at_is(r, db, key, t.len() as int + 1);
            }
        }
    }
}

/// A connection that stops waiting leaves the queue as it was before it came, so
/// nobody can wake it any more.
pub proof fn law_release_undoes_park(t: Seq<QueueView>, db: u32, key: Seq<u8>, w: Waiter)
    requires
        queues_ok(t),
        forall|k: int|
            0 <= k < waiting(t, db, key).len() ==> (#[trigger] waiting(t, db, key)[k]).conn_id
                != w.conn_id,
    ensures
        deregistered(registered(t, db, key, w), db, key, w.conn_id) == t,
{
    lemma_queue_at(t, db, key);
    let i = queue_at(t, db, key);
    let r = registered(t, db, key, w);
    if i < t.len() {
        assert forall|k: int| 0 <= k < i implies !is_queue(#[trigger] r[k], db, key) by {
            assert(r[k] == t[k]);
        }
        lemma_queue_at_is(r, db, key, i);
        let ws = t[i].waiters;
        let more = ws.push(w);
        let keep = others(more, w.conn_id);
        assert(more.drop_last() =~= ws);
        assert forall|k: int| 0 <= k < ws.len() implies #[trigger] keep.drop_last()[k] by {
            assert(waiting(t, db, key)[k] == ws[k]);
        }
        lemma_kept_all(ws, keep.drop_last());
        assert(left_by(more, w.conn_id) == ws);
        assert(deregistered(r, db, key, w.conn_id) =~= t);
    } else {
        assert forall|k: int| 0 <= k < t.len() implies !is_queue(#[trigger] r[k], db, key) by {
            assert(r[k] == t[k]);
        }
        lemma_queue_at_is(r, db, key, t.len() as int);
        let one = seq![w];
        let keep = others(one, w.conn_id);
        assert(one.drop_last() =~= Seq::<Waiter>::empty());
        assert(kept(one.drop_last(), keep.drop_last()) =~= Seq::<Waiter>::empty());
        assert(left_by(one, w.conn_id).len() == 0);
        assert(r.remove(t.len() as int) =~= t);
    }
}

/// A connection that has stopped waiting on a key is not in its queue.
pub proof fn law_a_gone_connection_is_not_woken(
    t: Seq<QueueView>,
    db: u32,
    key: Seq<u8>,
    conn: u64,
)
    requires
        queues_ok(t),
    ensures
        forall|k: int|
            0 <= k < waiting(deregistered(t, db, key, conn), db, key).len() ==> (
            #[trigger] waiting(deregistered(t, db, key, conn), db, key)[k]).conn_id != conn,
{
    lemma_queue_at(t, db, key);
    let i = queue_at(t, db, key);
    let r = deregistered(t, db, key, conn);
    if i < t.len() {
        let ws = t[i].waiters;
        lemma_kept(ws, others(ws, conn));
        if left_by(ws, conn).len() == 0 {
            assert forall|k: int| 0 <= k < r.len() implies !is_queue(#[trigger] r[k], db, key) by {
                if k < i {
                    assert(!is_queue(t[k], db, key));
                } else {
                    assert(!is_queue(t[k + 1], t[i].db, t[i].key));
                }
            }
            lemma_queue_at_is(r, db, key, r.len() as int);
        } else {
            assert forall|k: int| 0 <= k < i implies !is_queue(#[trigger] r[k], db, key) by {
                assert(r[k] == t[k]);
            }
            lemma_queue_at_is(r, db, key, i);
            let now = left_by(ws, conn);
            assert forall|k: int| 0 <= k < now.len() implies (#[trigger] now[k]).conn_id
                != conn by {
                assert(now.contains(now[k]));
                let j = choose|j: int|
                    0 <= j < ws.len() && others(ws, conn)[j] && #[trigger] ws[j] == now[k];
                assert(ws[j].conn_id != conn);
            }
        }
    }
}

proof fn lemma_deregister_elsewhere(
    t: Seq<QueueView>,
    db: u32,
    key: Seq<u8>,
    other: Seq<u8>,
    conn: u64,
)
    requires
        queues_ok(t),
        key != other,
    ensures
        waiting(deregistered(t, db, other, conn), db, key) == waiting(t, db, key),
{
    lemma_queue_at(t, db, key);
    lemma_queue_at(t, db, other);
    let i = queue_at(t, db, key);
    let j = queue_at(t, db, other);
    let r = deregistered(t, db, other, conn);
    if j < t.len() {
        let gone = left_by(t[j].waiters, conn).len() == 0;
        let i2 = if gone && i > j {
            i - 1
        } else {
            i
        };
        assert forall|k: int| 0 <= k < i2 && k < r.len() implies !is_queue(
            #[trigger] r[k],
            db,
            key,
        ) by {
            if gone && k >= j {
                assert(r[k] == t[k + 1]);
            } else if k != j {
                assert(r[k] == t[k]);
            }
        }
        if i < t.len() {
            assert(i != j);
            assert(r[i2] == t[i]);
            lemma_queue_at_is(r, db, key, i2);
        } else {
            lemma_queue_at_is(r, db, key, r.len() as int);
        }
    }
}

/// A connection that stops waiting is taken from every key it waited on: none of
/// them keeps a stale waiter.
pub proof fn law_release_leaves_no_waiter_behind(
    t: Seq<QueueView>,
    db: u32,
    keys: Seq<Seq<u8>>,
    conn: u64,
    i: int,
    k: int,
)
    requires
        queues_ok(t),
        0 <= i < keys.len(),
        0 <= k < waiting(released(t, db, keys, conn), db, keys[i]).len(),
    ensures
        waiting(released(t, db, keys, conn), db, keys[i])[k].conn_id != conn,
    decreases keys.len(),
{
    let front = keys.drop_last();
    let mid = released(t, db, front, conn);
    lemma_released_ok(t, db, front, conn);
    if keys[i] == keys.last() {
        law_a_gone_connection_is_not_woken(mid, db, keys.last(), conn);
    } else {
        lemma_deregister_elsewhere(mid, db, keys[i], keys.last(), conn);
        assert(front[i] == keys[i]);
        law_release_leaves_no_waiter_behind(t, db, front, conn, i, k);
    }
}

proof fn lemma_released_ok(t: Seq<QueueView>, db: u32, keys: Seq<Seq<u8>>, conn: u64)
    requires
        queues_ok(t),
    ensures
        queues_ok(released(t, db, keys, conn)),
    decreases keys.len(),
{
    if keys.len() > 0 {
        lemma_released_ok(t, db, keys.drop_last(), conn);
        lemma_deregistered(released(t, db, keys.drop_last(), conn), db, keys.last(), conn);
    }
}

/// Who waits on a key is who stands in the queue of that key and that database; nobody
/// where it has no queue.
pub proof fn law_waiting_is_the_queue_of_the_key(t: Seq<QueueView>, db: u32, key: Seq<u8>)
    requires
        queues_ok(t),
    ensures
        forall|i: int|
            0 <= i < t.len() && (#[trigger] t[i]).db == db && t[i].key == key ==> waiting(
                t,
                db,
                key,
            ) == t[i].waiters,
        (forall|i: int| 0 <= i < t.len() ==> !((#[trigger] t[i]).db == db && t[i].key == key))
            ==> waiting(t, db, key).len() == 0,
{
    lemma_queue_at(t, db, key);
    let n = queue_at(t, db, key);
    assert forall|i: int|
        0 <= i < t.len() && (#[trigger] t[i]).db == db && t[i].key == key implies waiting(
        t,
        db,
        key,
    ) == t[i].waiters by {
        assert(is_queue(t[i], db, key));
        assert(n <= i);
        if n < i {
            assert(!is_queue(t[i], t[n].db, t[n].key));
        }
    }
}

/// A connection that waits on keys stands last in the queue of each of them, once for
/// each time the key was given, behind those who waited before; nothing changes for any
/// other key, nor for any other database.
pub proof fn law_parked_waits_last(
    t: Seq<QueueView>,
    db: u32,
    keys: Seq<Seq<u8>>,
    w: Waiter,
    at_db: u32,
    at_key: Seq<u8>,
)
    ensures
        waiting(parked(t, db, keys, w), at_db, at_key) == waiting(t, at_db, at_key) + Seq::new(
            if at_db == db {
                keys.filter(|k: Seq<u8>| k == at_key).len()
            } else {
                0
            },
            |i: int| w,
        ),
    decreases keys.len(),
{
    let pred = |k: Seq<u8>| k == at_key;
    reveal(Seq::filter);
    if keys.len() == 0 {
        assert(waiting(t, at_db, at_key) + Seq::new(0, |i: int| w) =~= waiting(t, at_db, at_key));
    } else {
        let front = keys.drop_last();
        let mid = parked(t, db, front, w);
        law_parked_waits_last(t, db, front, w, at_db, at_key);
        law_the_longest_waiting_is_served_first(mid, at_db, at_key, db, keys.last(), w);
        let n = if at_db == db {
            front.filter(pred).len()
        } else {
            0
        };
        let before = waiting(t, at_db, at_key);
        if at_db == db && keys.last() == at_key {
            assert(keys.filter(pred).len() == n + 1);
            assert((before + Seq::new(n, |i: int| w)).push(w) =~= before + Seq::new(
                n + 1,
                |i: int| w,
            ));
        }
    }
}

/// A connection that is parked on a key is the one that is woken next where nobody
/// waited on that key before.
pub proof fn law_parked_is_woken(
    t: Seq<QueueView>,
    db: u32,
    keys: Seq<Seq<u8>>,
    w: Waiter,
    i: int,
)
    requires
        0 <= i < keys.len(),
    ensures
        waiting(parked(t, db, keys, w), db, keys[i]).len() > waiting(t, db, keys[i]).len(),
        waiting(parked(t, db, keys, w), db, keys[i]).last() == w,
        waiting(t, db, keys[i]).len() == 0 ==> waiting(parked(t, db, keys, w), db, keys[i])[0]
            == w,
        waiting(t, db, keys[i]).len() > 0 ==> waiting(parked(t, db, keys, w), db, keys[i])[0]
            == waiting(t, db, keys[i])[0],
{
    let at_key = keys[i];
    let pred = |k: Seq<u8>| k == at_key;
    law_parked_waits_last(t, db, keys, w, db, at_key);
    keys.lemma_filter_contains(pred, i);
    assert(keys.filter(pred).contains(keys[i]));
    assert(keys.filter(pred).len() > 0);
}

/// A connection that stops waiting on a key is taken out of the queue of that key, and
/// the others keep their order; nothing changes for any other key or database.
pub proof fn law_leaving_one_key(
    t: Seq<QueueView>,
    db: u32,
    key: Seq<u8>,
    conn: u64,
    at_db: u32,
    at_key: Seq<u8>,
)
    requires
        queues_ok(t),
    ensures
        waiting(deregistered(t, db, key, conn), at_db, at_key) == (if at_db == db && at_key
            == key {
            waiting(t, db, key).filter(|w: Waiter| w.conn_id != conn)
        } else {
            waiting(t, at_db, at_key)
        }),
{
    let pred = |w: Waiter| w.conn_id != conn;
    let ws = waiting(t, db, key);
    reveal(Seq::filter);
    lemma_queue_at(t, db, key);
    lemma_queue_at(t, at_db, at_key);
    let i = queue_at(t, at_db, at_key);
    let j = queue_at(t, db, key);
    let r = deregistered(t, db, key, conn);
    if j < t.len() {
        lemma_kept_filter(ws, others(ws, conn), pred);
        let gone = left_by(ws, conn).len() == 0;
        if at_db == db && at_key == key {
            if gone {
                assert forall|k: int| 0 <= k < r.len() implies !is_queue(
                    #[trigger] r[k],
                    db,
                    key,
                ) by {
                    if k < j {
                        assert(r[k] == t[k]);
                    } else {
                        assert(!is_queue(t[k + 1], t[j].db, t[j].key));
                    }
                }
                lemma_queue_at_is(r, db, key, r.len() as int);
                assert(ws.filter(pred) =~= Seq::empty());
            } else {
                assert forall|k: int| 0 <= k < j implies !is_queue(#[trigger] r[k], db, key) by {
                    assert(r[k] == t[k]);
                }
                lemma_queue_at_is(r, db, key, j);
            }
        } else {
            let i2 = if gone && i > j {
                i - 1
            } else {
                i
            };
            assert forall|k: int| 0 <= k < i2 && k < r.len() implies !is_queue(
                #[trigger] r[k],
                at_db,
                at_key,
            ) by {
                if gone && k >= j {
                    assert(r[k] == t[k + 1]);
                } else if k != j {
                    assert(r[k] == t[k]);
                }
            }
            if i < t.len() {
                assert(i != j);
                assert(r[i2] == t[i]);
                lemma_queue_at_is(r, at_db, at_key, i2);
            } else {
                lemma_queue_at_is(r, at_db, at_key, r.len() as int);
            }
        }
    } else {
        assert(ws =~= Seq::empty());
        assert(ws.filter(pred) =~= ws);
    }
}

/// A connection that stops waiting on keys is in the queue of none of them any more,
/// and every other waiter stays where it was.
pub proof fn law_release_takes_only_the_connection(
    t: Seq<QueueView>,
    db: u32,
    keys: Seq<Seq<u8>>,
    conn: u64,
    at_db: u32,
    at_key: Seq<u8>,
)
    requires
        queues_ok(t),
    ensures
        waiting(released(t, db, keys, conn), at_db, at_key) == (if at_db == db && keys.contains(
            at_key,
        ) {
            waiting(t, db, at_key).filter(|w: Waiter| w.conn_id != conn)
        } else {
            waiting(t, at_db, at_key)
        }),
    decreases keys.len(),
{
    let pred = |w: Waiter| w.conn_id != conn;
    if keys.len() > 0 {
        let front = keys.drop_last();
        let mid = released(t, db, front, conn);
        lemma_released_ok(t, db, front, conn);
        law_release_takes_only_the_connection(t, db, front, conn, at_db, at_key);
        law_leaving_one_key(mid, db, keys.last(), conn, at_db, at_key);
        let ws = waiting(t, db, at_key);
        lemma_filter_twice(ws, pred);
        if at_key == keys.last() {
            assert(keys[keys.len() - 1] == at_key);
        } else if front.contains(at_key) {
            let k = choose|k: int| 0 <= k < front.len() && front[k] == at_key;
            assert(keys[k] == at_key);
        } else if keys.contains(at_key) {
            let k = choose|k: int| 0 <= k < keys.len() && keys[k] == at_key;
            assert(front[k] == at_key);
        }
    }
}

proof fn lemma_filter_twice(ws: Seq<Waiter>, pred: spec_fn(Waiter) -> bool)
    ensures
        ws.filter(pred).filter(pred) == ws.filter(pred),
{
    let once = ws.filter(pred);
    assert forall|i: int| 0 <= i < once.len() implies pred(#[trigger] once[i]) by {
        ws.lemma_filter_pred(pred, i);
    }
    lemma_filter_all(once, pred);
}

proof fn lemma_filter_all(ws: Seq<Waiter>, pred: spec_fn(Waiter) -> bool)
    requires
        forall|i: int| 0 <= i < ws.len() ==> pred(#[trigger] ws[i]),
    ensures
        ws.filter(pred) == ws,
    decreases ws.len(),
{
    reveal(Seq::filter);
    if ws.len() > 0 {
        assert forall|i: int| 0 <= i < ws.drop_last().len() implies pred(
            #[trigger] ws.drop_last()[i],
        ) by {
            assert(ws.drop_last()[i] == ws[i]);
        }
        lemma_filter_all(ws.drop_last(), pred);
        assert(pred(ws[ws.len() - 1]));
        assert(ws.drop_last().push(ws.last()) =~= ws);
    }
}

proof fn lemma_filter_none(ws: Seq<Waiter>, pred: spec_fn(Waiter) -> bool)
    requires
        forall|i: int| 0 <= i < ws.len() ==> !pred(#[trigger] ws[i]),
    ensures
        ws.filter(pred).len() == 0,
    decreases ws.len(),
{
    reveal(Seq::filter);
    if ws.len() > 0 {
        assert forall|i: int| 0 <= i < ws.drop_last().len() implies !pred(
            #[trigger] ws.drop_last()[i],
        ) by {
            assert(ws.drop_last()[i] == ws[i]);
        }
        lemma_filter_none(ws.drop_last(), pred);
        assert(!pred(ws[ws.len() - 1]));
    }
}

/// Parking and releasing a connection leaves every queue as it was.
pub proof fn law_release_restores_the_queues(
    t: Seq<QueueView>,
    db: u32,
    keys: Seq<Seq<u8>>,
    w: Waiter,
    at_db: u32,
    at_key: Seq<u8>,
)
    requires
        queues_ok(t),
        forall|k: int|
            0 <= k < waiting(t, db, at_key).len() ==> (#[trigger] waiting(t, db, at_key)[k]).conn_id
                != w.conn_id,
    ensures
        waiting(released(parked(t, db, keys, w), db, keys, w.conn_id), at_db, at_key) == waiting(
            t,
            at_db,
            at_key,
        ),
{
    let pred = |x: Waiter| x.conn_id != w.conn_id;
    let mid = parked(t, db, keys, w);
    lemma_parked_ok(t, db, keys, w);
    law_parked_waits_last(t, db, keys, w, at_db, at_key);
    law_release_takes_only_the_connection(mid, db, keys, w.conn_id, at_db, at_key);
    let n = keys.filter(|k: Seq<u8>| k == at_key).len();
    let before = waiting(t, db, at_key);
    let own = Seq::new(n, |i: int| w);
    if at_db == db {
        if keys.contains(at_key) {
            Seq::filter_distributes_over_add(before, own, pred);
            lemma_filter_all(before, pred);
            lemma_filter_none(own, pred);
            assert(before + own.filter(pred) =~= before);
        } else {
            lemma_absent_key(keys, at_key);
            assert(before + own =~= before);
        }
    } else {
        let none = Seq::new(0, |i: int| w);
        assert(waiting(t, at_db, at_key) + none =~= waiting(t, at_db, at_key));
    }
}

proof fn lemma_absent_key(keys: Seq<Seq<u8>>, key: Seq<u8>)
    requires
        !keys.contains(key),
    ensures
        keys.filter(|k: Seq<u8>| k == key).len() == 0,
{
    let pred = |k: Seq<u8>| k == key;
    let f = keys.filter(pred);
    if f.len() > 0 {
        keys.lemma_filter_pred(pred, 0);
        lemma_filtered_from(keys, pred, 0);
    }
}

proof fn lemma_filtered_from(keys: Seq<Seq<u8>>, pred: spec_fn(Seq<u8>) -> bool, i: int)
    requires
        0 <= i < keys.filter(pred).len(),
    ensures
        keys.contains(keys.filter(pred)[i]),
    decreases keys.len(),
{
    reveal(Seq::filter);
    let front = keys.drop_last();
    if i < front.filter(pred).len() {
        lemma_filtered_from(front, pred, i);
        let k = choose|k: int| 0 <= k < front.len() && front[k] == front.filter(pred)[i];
        assert(keys[k] == keys.filter(pred)[i]);
    } else {
        assert(keys[keys.len() - 1] == keys.filter(pred)[i]);
    }
}

proof fn lemma_parked_ok(t: Seq<QueueView>, db: u32, keys: Seq<Seq<u8>>, w: Waiter)
    requires
        queues_ok(t),
    ensures
        queues_ok(parked(t, db, keys, w)),
    decreases keys.len(),
{
    if keys.len() > 0 {
        lemma_parked_ok(t, db, keys.drop_last(), w);
        lemma_registered(parked(t, db, keys.drop_last(), w), db, keys.last(), w);
    }
}

/// Each key that a connection waits on counts as one waiter more, and nobody waits at
/// the start.
pub proof fn law_waiters_are_counted_per_key(
    t: Seq<QueueView>,
    db: u32,
    keys: Seq<Seq<u8>>,
    w: Waiter,
)
    ensures
        waiter_count(Seq::empty()) == 0,
        waiter_count(parked(t, db, keys, w)) == waiter_count(t) + keys.len(),
    decreases keys.len(),
{
    if keys.len() > 0 {
        let mid = parked(t, db, keys.drop_last(), w);
        law_waiters_are_counted_per_key(t, db, keys.drop_last(), w);
        let i = queue_at(mid, db, keys.last());
        lemma_queue_at(mid, db, keys.last());
        if i < mid.len() {
            lemma_count_at(
                mid,
                i,
                QueueView { db, key: keys.last(), waiters: mid[i].waiters.push(w) },
            );
        } else {
            let q = QueueView { db, key: keys.last(), waiters: seq![w] };
            assert(mid.push(q).drop_last() =~= mid);
        }
    }
}

proof fn lemma_count_at(t: Seq<QueueView>, i: int, q: QueueView)
    requires
        0 <= i < t.len(),
    ensures
        waiter_count(t.update(i, q)) == waiter_count(t) - t[i].waiters.len() + q.waiters.len(),
    decreases t.len(),
{
    let u = t.update(i, q);
    if i == t.len() - 1 {
        assert(u.drop_last() =~= t.drop_last());
    } else {
        assert(u.drop_last() =~= t.drop_last().update(i, q));
        lemma_count_at(t.drop_last(), i, q);
    }
}

/// `Arc::clone`: another handle on the same value.
#[verifier::external_body]
fn share(wake: &Arc<Notify>) -> (r: Arc<Notify>)
    ensures
        r == *wake,
{
    Arc::clone(wake)
}

impl Default for ShardBlocking {
    /// Nobody waits.
    fn default() -> (r: Self)
        ensures
            r@.len() == 0,
            r.woken@.len() == 0,
            queues_ok(r@),
    {
        ShardBlocking { queues: Vec::new(), woken: History::new() }
    }
}

impl ShardBlocking {
    fn find(&self, db: u32, key: &[u8]) -> (i: usize)
        ensures
            i == queue_at(self@, db, key@),
            i <= self@.len(),
            self@.len() == self.queues@.len(),
    {
        let mut i: usize = 0;
        while i < self.queues.len() && !(self.queues[i].db == db && same_bytes(
            self.queues[i].key.as_slice(),
            key,
        ))
            invariant
                i <= self.queues@.len(),
                forall|k: int| 0 <= k < i ==> !is_queue(#[trigger] self@[k], db, key@),
            decreases self.queues@.len() - i,
        {
            assert(!is_queue(self@[i as int], db, key@));
            i += 1;
        }
        proof {
            lemma_queue_at_is(self@, db, key@, i as int);
        }
        i
    }

    /// Puts a connection at the end of the queue of a key.
    pub fn register(&mut self, db: u32, key: &[u8], conn_id: u64, wake: Arc<Notify>)
        ensures
            final(self)@ == registered(old(self)@, db, key@, (Waiter { conn_id, wake })),
            final(self).woken == old(self).woken,
            queues_ok(old(self)@) ==> queues_ok(final(self)@),
    {
        let ghost start = self@;
        let w = Waiter { conn_id, wake };
        proof {
            lemma_queue_at(start, db, key@);
            if queues_ok(start) {
                lemma_registered(start, db, key@, w);
            }
        }
        let i = self.find(db, key);
        if i < self.queues.len() {
            assert(start[i as int] == self.queues@[i as int]@);
            self.queues[i].waiters.push(w);
        } else {
            let mut waiters: Vec<Waiter> = Vec::new();
            waiters.push(w);
            let q = Queue { db, key: copy_bytes(key), waiters };
            assert(q@.waiters =~= seq![w]);
            self.queues.push(q);
        }
        assert(self@ =~= registered(start, db, key@, w));
    }

    /// Takes a connection out of the queue of a key, and drops the queue where
    /// nobody is left in it.
    pub fn deregister(&mut self, db: u32, key: &[u8], conn_id: u64)
        ensures
            final(self)@ == deregistered(old(self)@, db, key@, conn_id),
            final(self).woken == old(self).woken,
            queues_ok(old(self)@) ==> queues_ok(final(self)@),
    {
        let ghost start = self@;
        proof {
            lemma_queue_at(start, db, key@);
            if queues_ok(start) {
                lemma_deregistered(start, db, key@, conn_id);
            }
        }
        let i = self.find(db, key);
        if i < self.queues.len() {
            let ghost ws = self.queues@[i as int].waiters@;
            assert(start[i as int].waiters == ws);
            let mut keep: Vec<bool> = Vec::new();
            let n: usize = self.queues[i].waiters.len();
            for k in 0..n
                invariant
                    i < self.queues@.len(),
                    ws == self.queues@[i as int].waiters@,
                    n == ws.len(),
                    keep@ =~= others(ws, conn_id).take(k as int),
            {
                keep.push(self.queues[i].waiters[k].conn_id != conn_id);
            }
            assert(keep@ =~= others(ws, conn_id));
            keep_marked(&mut self.queues[i].waiters, keep.as_slice());
            if self.queues[i].waiters.len() == 0 {
                let _ = self.queues.remove(i);
            }
        }
        assert(self@ =~= deregistered(start, db, key@, conn_id));
    }

    /// Wakes the longest-waiting connection of a key and says whether there was
    /// one. It stays in the queue until it leaves by itself.
    pub fn wake_one(&mut self, db: u32, key: &[u8]) -> (r: bool)
        ensures
            final(self).queues == old(self).queues,
            r == (waiting(old(self)@, db, key@).len() > 0),
            final(self).woken@ == (if r {
                old(self).woken@.push(waiting(old(self)@, db, key@)[0])
            } else {
                old(self).woken@
            }),
            r ==> notified(*waiting(old(self)@, db, key@)[0].wake),
    {
        proof {
            lemma_queue_at(self@, db, key@);
        }
        let i = self.find(db, key);
        if i < self.queues.len() && self.queues[i].waiters.len() > 0 {
            let ghost front = self.queues@[i as int].waiters@[0];
            assert(self@[i as int].waiters[0] == front);
            notify(&self.queues[i].waiters[0].wake);
            let ghost more = seq![front];
            self.woken.note(Ghost(more));
            assert(self.woken@ =~= old(self).woken@.push(front));
            return true;
        }
        assert(i < self@.len() ==> self@[i as int] == self.queues@[i as int]@);
        false
    }

    /// Whether anybody waits on a key.
    pub fn has_waiter(&self, db: u32, key: &[u8]) -> (r: bool)
        ensures
            r == (waiting(self@, db, key@).len() > 0),
    {
        let i = self.find(db, key);
        assert(i < self@.len() ==> self@[i as int] == self.queues@[i as int]@);
        i < self.queues.len() && self.queues[i].waiters.len() > 0
    }

    /// How many connections wait, counted once per key.
    pub fn total_waiters(&self) -> (n: usize)
        requires
            waiter_count(self@) <= usize::MAX,
        ensures
            n == waiter_count(self@),
    {
        let mut n: usize = 0;
        for i in 0..self.queues.len()
            invariant
                waiter_count(self@) <= usize::MAX,
                self@.len() == self.queues@.len(),
                n == waiter_count(self@.take(i as int)),
        {
            proof {
                assert(self@.take(i as int + 1).drop_last() =~= self@.take(i as int));
                lemma_count_grows(self@, i as int + 1);
            }
            n = n + self.queues[i].waiters.len();
        }
        assert(self@.take(self@.len() as int) =~= self@);
        n
    }
}

proof fn lemma_count_grows(t: Seq<QueueView>, k: int)
    requires
        0 <= k <= t.len(),
    ensures
        waiter_count(t.take(k)) <= waiter_count(t),
    decreases t.len(),
{
    if k == t.len() {
        assert(t.take(k) =~= t);
    } else {
        assert(t.drop_last().take(k) =~= t.take(k));
        lemma_count_grows(t.drop_last(), k);
    }
}

/// What a connection holds while it waits: the keys that it has to be taken from
/// when it stops.
#[derive(Debug)]
pub struct WaiterGuard {
    /// The database.
    pub db: u32,
    /// The keys.
    pub keys: Vec<Vec<u8>>,
    /// The connection.
    pub conn_id: u64,
}

impl WaiterGuard {
    /// Lets a connection wait on every key, with one handle to wake it by.
    pub fn park(registry: &mut ShardBlocking, db: u32, keys: &[Vec<u8>], conn_id: u64) -> (r: (
        WaiterGuard,
        Arc<Notify>,
    ))
        ensures
            r.0.db == db,
            r.0.conn_id == conn_id,
            byte_seqs(r.0.keys@) == byte_seqs(keys@),
            final(registry)@ == parked(
                old(registry)@,
                db,
                byte_seqs(keys@),
                (Waiter { conn_id, wake: r.1 }),
            ),
            final(registry).woken == old(registry).woken,
            queues_ok(old(registry)@) ==> queues_ok(final(registry)@),
    {
        let ghost start = registry@;
        let ghost all = byte_seqs(keys@);
        let wake = Arc::new(new_notify());
        let ghost w = Waiter { conn_id, wake };
        let mut copies: Vec<Vec<u8>> = Vec::new();
        for i in 0..keys.len()
            invariant
                all == byte_seqs(keys@),
                w == (Waiter { conn_id, wake }),
                copies@.len() == i,
                forall|k: int| 0 <= k < i ==> #[trigger] copies@[k]@ == keys@[k]@,
                registry@ == parked(start, db, all.take(i as int), w),
                registry.woken == old(registry).woken,
                queues_ok(start) ==> queues_ok(registry@),
        {
            assert(all.take(i as int + 1).drop_last() =~= all.take(i as int));
            registry.register(db, keys[i].as_slice(), conn_id, share(&wake));
            copies.push(copy_bytes(keys[i].as_slice()));
        }
        assert(all.take(all.len() as int) =~= all);
        let guard = WaiterGuard { db, keys: copies, conn_id };
        assert(byte_seqs(guard.keys@) =~= all);
        (guard, wake)
    }

    /// Ends the wait on every key.
    pub fn release(self, registry: &mut ShardBlocking)
        ensures
            final(registry)@ == released(
                old(registry)@,
                self.db,
                byte_seqs(self.keys@),
                self.conn_id,
            ),
            final(registry).woken == old(registry).woken,
            queues_ok(old(registry)@) ==> queues_ok(final(registry)@),
    {
        let ghost start = registry@;
        let ghost all = byte_seqs(self.keys@);
        for i in 0..self.keys.len()
            invariant
                all == byte_seqs(self.keys@),
                registry@ == released(start, self.db, all.take(i as int), self.conn_id),
                registry.woken == old(registry).woken,
                queues_ok(start) ==> queues_ok(registry@),
        {
            assert(all.take(i as int + 1).drop_last() =~= all.take(i as int));
            registry.deregister(self.db, self.keys[i].as_slice(), self.conn_id);
        }
        assert(all.take(all.len() as int) =~= all);
    }
}

/// A queue is its database, its key and those who wait, and the registry is its queues.
pub proof fn law_view_of_the_registry(r: ShardBlocking, i: int)
    requires
        0 <= i < r.queues@.len(),
    ensures
        r@.len() == r.queues@.len(),
        r@[i].db == r.queues@[i].db,
        r@[i].key == r.queues@[i].key@,
        r@[i].waiters == r.queues@[i].waiters@,
{
}

} // verus!
