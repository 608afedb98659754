//! Who has subscribed to what: names, and under each name the connections with
//! their handles, in the order in which they came.
use vstd::prelude::*;
use crate::bytes::{copy_bytes, same_bytes};
use crate::text::{first_at, lemma_first_at, lemma_first_at_is};

verus! {

/// The elements that are marked, in order.
pub open spec fn kept<T>(s: Seq<T>, keep: Seq<bool>) -> Seq<T>
    decreases s.len(),
{
    if s.len() == 0 {
        Seq::empty()
    } else {
        let rest = kept(s.drop_last(), keep.drop_last());
        if keep.last() {
            rest.push(s.last())
        } else {
            rest
        }
    }
}

/// What is kept stood in the sequence, and nothing is kept twice.
pub proof fn lemma_kept<T>(s: Seq<T>, keep: Seq<bool>)
    requires
        keep.len() == s.len(),
    ensures
        kept(s, keep).len() <= s.len(),
        forall|x: T| #[trigger]
            kept(s, keep).contains(x) ==> exists|i: int|
                0 <= i < s.len() && keep[i] && #[trigger] s[i] == x,
        forall|i: int| 0 <= i < s.len() && keep[i] ==> kept(s, keep).contains(#[trigger] s[i]),
        s.no_duplicates() ==> kept(s, keep).no_duplicates(),
    decreases s.len(),
{
    if s.len() > 0 {
        let front = s.drop_last();
        let marks = keep.drop_last();
        let rest = kept(front, marks);
        lemma_kept(front, marks);
        let all = kept(s, keep);
        assert forall|x: T| #[trigger] all.contains(x) implies exists|i: int|
            0 <= i < s.len() && keep[i] && #[trigger] s[i] == x by {
            let j = choose|j: int| 0 <= j < all.len() && all[j] == x;
            if j < rest.len() {
                assert(rest[j] == x);
                assert(rest.contains(x));
                let i = choose|i: int|
                    0 <= i < front.len() && marks[i] && #[trigger] front[i] == x;
                assert(s[i] == x && keep[i]);
            } else {
                assert(s[s.len() - 1] == x);
            }
        }
        assert forall|i: int| 0 <= i < s.len() && keep[i] implies all.contains(
            #[trigger] s[i],
        ) by {
            if i < front.len() {
                assert(front[i] == s[i] && marks[i]);
                assert(rest.contains(front[i]));
                let j = choose|j: int| 0 <= j < rest.len() && rest[j] == s[i];
                assert(all[j] == s[i]);
            } else {
                assert(all.last() == s[i]);
            }
        }
        if s.no_duplicates() {
            assert(front.no_duplicates());
            if keep.last() {
                assert forall|a: int, b: int| 0 <= a < b < all.len() implies all[a] != all[b] by {
                    if b == rest.len() {
                        assert(rest[a] == all[a]);
                        assert(rest.contains(rest[a]));
                        let i = choose|i: int|
                            0 <= i < front.len() && marks[i] && #[trigger] front[i] == rest[a];
                        assert(s[i] == rest[a]);
                        assert(s[s.len() - 1] == s.last());
                    } else {
                        assert(rest[a] == all[a] && rest[b] == all[b]);
                    }
                }
            }
        }
    }
}

/// Nothing is dropped where everything is marked.
pub proof fn lemma_kept_all<T>(s: Seq<T>, keep: Seq<bool>)
    requires
        keep.len() == s.len(),
        forall|i: int| 0 <= i < keep.len() ==> #[trigger] keep[i],
    ensures
        kept(s, keep) == s,
    decreases s.len(),
{
    if s.len() > 0 {
        assert forall|i: int| 0 <= i < keep.drop_last().len() implies
            #[trigger] keep.drop_last()[i] by {
            assert(keep[i]);
        }
        lemma_kept_all(s.drop_last(), keep.drop_last());
        assert(keep[keep.len() - 1]);
        assert(s.drop_last().push(s.last()) =~= s);
    }
}

/// Where the marks say which elements meet a condition, those are kept.
pub proof fn lemma_kept_filter<T>(s: Seq<T>, keep: Seq<bool>, pred: spec_fn(T) -> bool)
    requires
        keep.len() == s.len(),
        forall|i: int| 0 <= i < s.len() ==> keep[i] == pred(#[trigger] s[i]),
    ensures
        kept(s, keep) == s.filter(pred),
    decreases s.len(),
{
    reveal(Seq::filter);
    if s.len() > 0 {
        let front = s.drop_last();
        assert forall|i: int| 0 <= i < front.len() implies keep.drop_last()[i] == pred(
            #[trigger] front[i],
        ) by {
            assert(front[i] == s[i]);
        }
        lemma_kept_filter(front, keep.drop_last(), pred);
        assert(keep[s.len() - 1] == pred(s[s.len() - 1]));
    } else {
        assert(kept(s, keep) =~= s.filter(pred));
    }
}

/// Drops the elements that are not marked.
pub fn keep_marked<T>(v: &mut Vec<T>, keep: &[bool])
    requires
        keep@.len() == old(v)@.len(),
    ensures
        final(v)@ == kept(old(v)@, keep@),
{
    let ghost all = v@;
    let mut j: usize = 0;
    let mut at: usize = 0;
    assert(all.skip(0) =~= all);
    while j < keep.len()
        invariant
            keep@.len() == all.len(),
            at <= j <= keep@.len(),
            at == kept(all.take(j as int), keep@.take(j as int)).len(),
            v@ == kept(all.take(j as int), keep@.take(j as int)) + all.skip(j as int),
        decreases keep@.len() - j,
    {
        let ghost done = kept(all.take(j as int), keep@.take(j as int));
        proof {
            assert(all.take(j as int + 1).drop_last() =~= all.take(j as int));
            assert(keep@.take(j as int + 1).drop_last() =~= keep@.take(j as int));
            assert(v@[at as int] == all.skip(j as int)[0]);
        }
        if keep[j] {
            at += 1;
            assert(v@ =~= done.push(all[j as int]) + all.skip(j as int + 1));
        } else {
            let _ = v.remove(at);
            assert(v@ =~= done + all.skip(j as int + 1));
        }
        j += 1;
    }
    proof {
        assert(all.take(all.len() as int) =~= all);
        assert(keep@.take(keep@.len() as int) =~= keep@);
        assert(v@ =~= kept(all, keep@));
    }
}

/// A name and the connections under it.
pub struct Entry<H> {
    /// The name.
    pub name: Vec<u8>,
    /// The connections with their handles.
    pub subs: Vec<(u64, H)>,
}

/// The mathematical value of a name and its connections.
pub struct Row<H> {
    /// The name.
    pub name: Seq<u8>,
    /// The connections with their handles.
    pub subs: Seq<(u64, H)>,
}

impl<H> View for Entry<H> {
    type V = Row<H>;

    open spec fn view(&self) -> Row<H> {
        Row { name: self.name@, subs: self.subs@ }
    }
}

/// Subscriptions.
pub struct Table<H> {
    /// The names that have a subscriber.
    pub entries: Vec<Entry<H>>,
}

impl<H> View for Table<H> {
    type V = Seq<Row<H>>;

    open spec fn view(&self) -> Seq<Row<H>> {
        self.entries@.map_values(|e: Entry<H>| e@)
    }
}

/// The names of rows.
pub open spec fn names<H>(t: Seq<Row<H>>) -> Seq<Seq<u8>> {
    t.map_values(|r: Row<H>| r.name)
}

/// The connections of subscriptions.
pub open spec fn conns<H>(subs: Seq<(u64, H)>) -> Seq<u64> {
    subs.map_values(|p: (u64, H)| p.0)
}

/// Whether every name stands once and has a subscriber, and no connection stands
/// twice under one name.
pub open spec fn well_formed<H>(t: Seq<Row<H>>) -> bool {
    &&& names(t).no_duplicates()
    &&& forall|i: int| 0 <= i < t.len() ==> (#[trigger] t[i]).subs.len() > 0
    &&& forall|i: int| 0 <= i < t.len() ==> conns((#[trigger] t[i]).subs).no_duplicates()
}

/// Where a name stands; the number of rows where it does not.
pub open spec fn row_of<H>(t: Seq<Row<H>>, name: Seq<u8>) -> int {
    first_at(names(t), name)
}

/// The subscriptions under a name.
pub open spec fn subs_of<H>(t: Seq<Row<H>>, name: Seq<u8>) -> Seq<(u64, H)> {
    if row_of(t, name) < t.len() {
        t[row_of(t, name)].subs
    } else {
        Seq::empty()
    }
}

/// A connection's handle put among others: in the place of its former one, or at
/// the end.
pub open spec fn put<H>(subs: Seq<(u64, H)>, conn: u64, handle: H) -> Seq<(u64, H)> {
    let i = first_at(conns(subs), conn);
    if i < subs.len() {
        subs.update(i, (conn, handle))
    } else {
        subs.push((conn, handle))
    }
}

/// Which subscriptions are not those of a connection.
pub open spec fn not_of<H>(subs: Seq<(u64, H)>, conn: u64) -> Seq<bool> {
    subs.map_values(|p: (u64, H)| p.0 != conn)
}

/// Subscriptions without those of a connection.
pub open spec fn without<H>(subs: Seq<(u64, H)>, conn: u64) -> Seq<(u64, H)> {
    kept(subs, not_of(subs, conn))
}

/// A row with other subscriptions, dropped where there are none.
pub open spec fn with_subs<H>(t: Seq<Row<H>>, i: int, subs: Seq<(u64, H)>) -> Seq<Row<H>> {
    if subs.len() == 0 {
        t.remove(i)
    } else {
        t.update(i, Row { name: t[i].name, subs })
    }
}

/// The table after a subscription.
pub open spec fn subscribed<H>(t: Seq<Row<H>>, name: Seq<u8>, conn: u64, handle: H) -> Seq<
    Row<H>,
> {
    let i = row_of(t, name);
    if i < t.len() {
        t.update(i, Row { name, subs: put(t[i].subs, conn, handle) })
    } else {
        t.push(Row { name, subs: seq![(conn, handle)] })
    }
}

/// The table after the end of a subscription.
pub open spec fn unsubscribed<H>(t: Seq<Row<H>>, name: Seq<u8>, conn: u64) -> Seq<Row<H>> {
    let i = row_of(t, name);
    if i < t.len() {
        with_subs(t, i, without(t[i].subs, conn))
    } else {
        t
    }
}

/// The table after the end of every subscription of a connection.
pub open spec fn forgotten<H>(t: Seq<Row<H>>, conn: u64) -> Seq<Row<H>>
    decreases t.len(),
{
    if t.len() == 0 {
        Seq::empty()
    } else {
        let rest = forgotten(t.drop_last(), conn);
        let subs = without(t.last().subs, conn);
        if subs.len() == 0 {
            rest
        } else {
            rest.push(Row { name: t.last().name, subs })
        }
    }
}

/// Dropping subscriptions drops their connections.
pub proof fn lemma_conns_kept<H>(subs: Seq<(u64, H)>, keep: Seq<bool>)
    requires
        keep.len() == subs.len(),
    ensures
        conns(kept(subs, keep)) == kept(conns(subs), keep),
    decreases subs.len(),
{
    if subs.len() > 0 {
        lemma_conns_kept(subs.drop_last(), keep.drop_last());
        assert(conns(subs).drop_last() =~= conns(subs.drop_last()));
        assert(conns(kept(subs, keep)) =~= kept(conns(subs), keep));
    } else {
        assert(conns(kept(subs, keep)) =~= kept(conns(subs), keep));
    }
}

/// A connection that is dropped does not stand among the rest any more.
pub proof fn lemma_without<H>(subs: Seq<(u64, H)>, conn: u64)
    ensures
        !conns(without(subs, conn)).contains(conn),
        forall|c: u64| c != conn && conns(subs).contains(c) ==> #[trigger] conns(
            without(subs, conn),
        ).contains(c),
        conns(subs).no_duplicates() ==> conns(without(subs, conn)).no_duplicates(),
{
    let keep = not_of(subs, conn);
    lemma_conns_kept(subs, keep);
    lemma_kept(conns(subs), keep);
    if conns(without(subs, conn)).contains(conn) {
        let i = choose|i: int|
            0 <= i < conns(subs).len() && keep[i] && #[trigger] conns(subs)[i] == conn;
        assert(subs[i].0 == conn);
    }
    assert forall|c: u64| c != conn && conns(subs).contains(c) implies #[trigger] conns(
        without(subs, conn),
    ).contains(c) by {
        let i = choose|i: int| 0 <= i < conns(subs).len() && conns(subs)[i] == c;
        assert(keep[i]);
    }
}

/// Replacing the subscriptions of a row keeps a table well-formed.
pub proof fn lemma_with_subs<H>(t: Seq<Row<H>>, i: int, subs: Seq<(u64, H)>)
    requires
        well_formed(t),
        0 <= i < t.len(),
        conns(subs).no_duplicates(),
    ensures
        well_formed(with_subs(t, i, subs)),
{
    let r = with_subs(t, i, subs);
    if subs.len() == 0 {
        assert(names(r) =~= names(t).remove(i));
        assert forall|a: int, b: int| 0 <= a < b < names(r).len() implies names(r)[a] != names(
            r,
        )[b] by {
            let a2 = if a < i {
                a
            } else {
                a + 1
            };
            let b2 = if b < i {
                b
            } else {
                b + 1
            };
            assert(names(t)[a2] != names(t)[b2]);
        }
        assert forall|k: int| 0 <= k < r.len() implies (#[trigger] r[k]).subs.len() > 0 by {
            assert(r[k] == t[if k < i {
                k
            } else {
                k + 1
            }]);
        }
        assert forall|k: int| 0 <= k < r.len() implies conns(
            (#[trigger] r[k]).subs,
        ).no_duplicates() by {
            assert(r[k] == t[if k < i {
                k
            } else {
                k + 1
            }]);
        }
    } else {
        assert(names(r) =~= names(t));
    }
}

proof fn lemma_put<H>(subs: Seq<(u64, H)>, conn: u64, handle: H)
    ensures
        conns(subs).no_duplicates() ==> conns(put(subs, conn, handle)).no_duplicates(),
        put(subs, conn, handle).contains((conn, handle)),
{
    lemma_first_at(conns(subs), conn);
    let i = first_at(conns(subs), conn);
    let r = put(subs, conn, handle);
    if i < subs.len() {
        assert(conns(r) =~= conns(subs));
        assert(r[i] == (conn, handle));
    } else {
        assert(conns(r) =~= conns(subs).push(conn));
        assert(r.last() == (conn, handle));
    }
}

/// A subscription keeps a table well-formed.
pub proof fn lemma_subscribed<H>(t: Seq<Row<H>>, name: Seq<u8>, conn: u64, handle: H)
    requires
        well_formed(t),
    ensures
        well_formed(subscribed(t, name, conn, handle)),
{
    lemma_first_at(names(t), name);
    let i = row_of(t, name);
    let r = subscribed(t, name, conn, handle);
    if i < t.len() {
        lemma_put(t[i].subs, conn, handle);
        assert(names(t)[i] == name);
        assert(names(r) =~= names(t));
        assert(r[i].subs.len() > 0);
    } else {
        assert(names(r) =~= names(t).push(name));
        assert(conns(seq![(conn, handle)]) =~= seq![conn]);
        assert(r.last().subs == seq![(conn, handle)]);
    }
}

/// The end of a subscription keeps a table well-formed.
pub proof fn lemma_unsubscribed<H>(t: Seq<Row<H>>, name: Seq<u8>, conn: u64)
    requires
        well_formed(t),
    ensures
        well_formed(unsubscribed(t, name, conn)),
{
    lemma_first_at(names(t), name);
    let i = row_of(t, name);
    if i < t.len() {
        lemma_without(t[i].subs, conn);
        lemma_with_subs(t, i, without(t[i].subs, conn));
    }
}

/// Forgetting a connection keeps a table well-formed, and leaves no subscription of
/// it behind.
pub proof fn lemma_forgotten<H>(t: Seq<Row<H>>, conn: u64)
    ensures
        well_formed(t) ==> well_formed(forgotten(t, conn)),
        forall|k: int|
            0 <= k < forgotten(t, conn).len() ==> !conns(
                (#[trigger] forgotten(t, conn)[k]).subs,
            ).contains(conn),
        forall|n: Seq<u8>| #[trigger]
            names(forgotten(t, conn)).contains(n) ==> names(t).contains(n),
    decreases t.len(),
{
    if t.len() > 0 {
        let front = t.drop_last();
        let rest = forgotten(front, conn);
        let r = forgotten(t, conn);
        let subs = without(t.last().subs, conn);
        lemma_forgotten(front, conn);
        lemma_without(t.last().subs, conn);
        assert(names(front) =~= names(t).drop_last());
        if subs.len() > 0 {
            assert(names(r) =~= names(rest).push(t.last().name));
        }
        assert forall|n: Seq<u8>| #[trigger] names(r).contains(n) implies names(t).contains(n) by {
            let k = choose|k: int| 0 <= k < names(r).len() && names(r)[k] == n;
            if k < rest.len() {
                assert(names(rest)[k] == n);
                assert(names(rest).contains(n));
                assert(names(front).contains(n));
                let j = choose|j: int| 0 <= j < names(front).len() && names(front)[j] == n;
                assert(names(t)[j] == n);
            } else {
                assert(names(t)[t.len() - 1] == n);
            }
        }
        if well_formed(t) {
            assert(well_formed(front)) by {
                assert forall|k: int| 0 <= k < front.len() implies (
                #[trigger] front[k]).subs.len() > 0 by {
                    assert(front[k] == t[k]);
                }
                assert forall|k: int| 0 <= k < front.len() implies conns(
                    (#[trigger] front[k]).subs,
                ).no_duplicates() by {
                    assert(front[k] == t[k]);
                }
            }
            assert(t.last() == t[t.len() - 1]);
            if subs.len() > 0 {
                assert forall|a: int, b: int| 0 <= a < b < names(r).len() implies names(r)[a]
                    != names(r)[b] by {
                    if b == rest.len() {
                        assert(names(rest).contains(names(rest)[a]));
                        assert(names(front).contains(names(rest)[a]));
                        let j = choose|j: int|
                            0 <= j < names(front).len() && names(front)[j] == names(rest)[a];
                        assert(names(t)[j] == names(rest)[a]);
                        assert(names(t)[t.len() - 1] == t.last().name);
                    } else {
                        assert(names(rest)[a] == names(r)[a] && names(rest)[b] == names(r)[b]);
                    }
                }
            }
        }
    }
}

/// The end of a subscription undoes it: the table is as it was before the
/// connection subscribed.
pub proof fn law_unsubscribe_undoes_subscribe<H>(
    t: Seq<Row<H>>,
    name: Seq<u8>,
    conn: u64,
    handle: H,
)
    requires
        well_formed(t),
        !conns(subs_of(t, name)).contains(conn),
    ensures
        unsubscribed(subscribed(t, name, conn, handle), name, conn) == t,
{
    lemma_first_at(names(t), name);
    let i = row_of(t, name);
    let s = subscribed(t, name, conn, handle);
    if i < t.len() {
        assert(names(t)[i] == name);
        assert(names(s) =~= names(t));
        let subs = t[i].subs;
        lemma_first_at(conns(subs), conn);
        let added = subs.push((conn, handle));
        assert(put(subs, conn, handle) == added);
        let keep = not_of(added, conn);
        assert(added.drop_last() =~= subs);
        assert forall|k: int| 0 <= k < subs.len() implies #[trigger] keep.drop_last()[k] by {
            assert(conns(subs)[k] == subs[k].0);
            assert(conns(subs).contains(subs[k].0));
        }
        lemma_kept_all(subs, keep.drop_last());
        assert(without(added, conn) == subs);
        assert(s.update(i, Row { name: s[i].name, subs }) =~= t);
    } else {
        assert(names(s) =~= names(t).push(name));
        lemma_first_at_is(names(s), name, t.len() as int);
        let added = seq![(conn, handle)];
        let keep = not_of(added, conn);
        assert(added.drop_last() =~= Seq::<(u64, H)>::empty());
        assert(kept(added.drop_last(), keep.drop_last()) =~= Seq::<(u64, H)>::empty());
        assert(without(added, conn).len() == 0);
        assert(s.remove(t.len() as int) =~= t);
    }
}

/// A second subscription of the same connection only replaces its handle.
pub proof fn law_resubscribe_replaces_the_handle<H>(
    t: Seq<Row<H>>,
    name: Seq<u8>,
    conn: u64,
    first: H,
    second: H,
)
    ensures
        subscribed(subscribed(t, name, conn, first), name, conn, second) == subscribed(
            t,
            name,
            conn,
            second,
        ),
{
    lemma_first_at(names(t), name);
    let i = row_of(t, name);
    let s = subscribed(t, name, conn, first);
    if i < t.len() {
        assert(names(t)[i] == name);
        assert(names(s) =~= names(t));
        let subs = t[i].subs;
        lemma_first_at(conns(subs), conn);
        let k = first_at(conns(subs), conn);
        let once = put(subs, conn, first);
        if k < subs.len() {
            assert(conns(once) =~= conns(subs));
        } else {
            assert(conns(once) =~= conns(subs).push(conn));
            lemma_first_at_is(conns(once), conn, subs.len() as int);
        }
        assert(put(once, conn, second) =~= put(subs, conn, second));
        assert(subscribed(s, name, conn, second) =~= subscribed(t, name, conn, second));
    } else {
        assert(names(s) =~= names(t).push(name));
        lemma_first_at_is(names(s), name, t.len() as int);
        let once = seq![(conn, first)];
        assert(conns(once) =~= seq![conn]);
        lemma_first_at_is(conns(once), conn, 0);
        assert(put(once, conn, second) =~= seq![(conn, second)]);
        assert(subscribed(s, name, conn, second) =~= subscribed(t, name, conn, second));
    }
}

impl<H> Table<H> {
    /// No subscriptions.
    pub fn new() -> (t: Table<H>)
        ensures
            t@ == Seq::<Row<H>>::empty(),
            well_formed(t@),
    {
        let t = Table { entries: Vec::new() };
        assert(t@ =~= Seq::<Row<H>>::empty());
        t
    }

    /// Where a name stands; the number of rows where it does not.
    pub fn find(&self, name: &[u8]) -> (i: usize)
        ensures
            i == row_of(self@, name@),
            i <= self@.len(),
            self@.len() == self.entries@.len(),
            i < self@.len() ==> self@[i as int].name == name@,
    {
        let mut i: usize = 0;
        while i < self.entries.len() && !same_bytes(self.entries[i].name.as_slice(), name)
            invariant
                i <= self.entries@.len(),
                forall|k: int| 0 <= k < i ==> #[trigger] names(self@)[k] != name@,
            decreases self.entries@.len() - i,
        {
            assert(names(self@)[i as int] != name@);
            i += 1;
        }
        proof {
            if i < self.entries@.len() {
                assert(names(self@)[i as int] == name@);
            }
            lemma_first_at_is(names(self@), name@, i as int);
        }
        i
    }

    /// Whether a name has a subscriber.
    pub fn contains_key(&self, name: &[u8]) -> (r: bool)
        ensures
            r == (row_of(self@, name@) < self@.len()),
    {
        self.find(name) < self.entries.len()
    }

    /// Puts a connection under a name.
    pub fn subscribe(&mut self, name: Vec<u8>, conn: u64, handle: H)
        ensures
            final(self)@ == subscribed(old(self)@, name@, conn, handle),
            well_formed(old(self)@) ==> well_formed(final(self)@),
    {
        let ghost start = self@;
        proof {
            if well_formed(start) {
                lemma_subscribed(start, name@, conn, handle);
            }
        }
        let i = self.find(name.as_slice());
        if i < self.entries.len() {
            let mut k: usize = 0;
            let ghost subs = self.entries@[i as int].subs@;
            assert(start[i as int].subs == subs);
            while k < self.entries[i].subs.len() && self.entries[i].subs[k].0 != conn
                invariant
                    i < self.entries@.len(),
                    subs == self.entries@[i as int].subs@,
                    k <= subs.len(),
                    forall|j: int| 0 <= j < k ==> #[trigger] conns(subs)[j] != conn,
                decreases subs.len() - k,
            {
                assert(conns(subs)[k as int] != conn);
                k += 1;
            }
            proof {
                if k < subs.len() {
                    assert(conns(subs)[k as int] == conn);
                }
                lemma_first_at_is(conns(subs), conn, k as int);
            }
            if k < self.entries[i].subs.len() {
                self.entries[i].subs[k] = (conn, handle);
            } else {
                self.entries[i].subs.push((conn, handle));
            }
            assert(self@ =~= subscribed(start, name@, conn, handle));
        } else {
            let mut subs: Vec<(u64, H)> = Vec::new();
            subs.push((conn, handle));
            let e = Entry { name, subs };
            assert(e@.subs =~= seq![(conn, handle)]);
            self.entries.push(e);
            assert(self@ =~= subscribed(start, name@, conn, handle));
        }
    }

    /// Keeps the marked subscriptions of a row, and drops the row where none is
    /// left.
    pub fn keep_row(&mut self, i: usize, keep: &[bool])
        requires
            i < old(self)@.len(),
            keep@.len() == old(self)@[i as int].subs.len(),
        ensures
            final(self)@ == with_subs(
                old(self)@,
                i as int,
                kept(old(self)@[i as int].subs, keep@),
            ),
            well_formed(old(self)@) ==> well_formed(final(self)@),
    {
        let ghost start = self@;
        let ghost subs = start[i as int].subs;
        proof {
            lemma_conns_kept(subs, keep@);
            lemma_kept(conns(subs), keep@);
            if well_formed(start) {
                lemma_with_subs(start, i as int, kept(subs, keep@));
            }
        }
        keep_marked(&mut self.entries[i].subs, keep);
        if self.entries[i].subs.len() == 0 {
            let _ = self.entries.remove(i);
            assert(self@ =~= start.remove(i as int));
        } else {
            assert(self@ =~= with_subs(start, i as int, kept(subs, keep@)));
        }
    }

    fn others(&self, i: usize, conn: u64) -> (keep: Vec<bool>)
        requires
            i < self@.len(),
        ensures
            keep@ == not_of(self@[i as int].subs, conn),
    {
        let mut keep: Vec<bool> = Vec::new();
        let ghost subs = self@[i as int].subs;
        assert(subs == self.entries@[i as int].subs@);
        let n: usize = self.entries[i].subs.len();
        for k in 0..n
            invariant
                i < self.entries@.len(),
                n == subs.len(),
                subs == self.entries@[i as int].subs@,
                keep@ =~= not_of(subs, conn).take(k as int),
        {
            keep.push(self.entries[i].subs[k].0 != conn);
        }
        keep
    }

    /// Takes a connection from under a name.
    pub fn unsubscribe(&mut self, name: &[u8], conn: u64)
        ensures
            final(self)@ == unsubscribed(old(self)@, name@, conn),
            well_formed(old(self)@) ==> well_formed(final(self)@),
    {
        let i = self.find(name);
        if i < self.entries.len() {
            let keep = self.others(i, conn);
            self.keep_row(i, keep.as_slice());
        }
    }

    /// Takes a connection from under every name.
    pub fn forget(&mut self, conn: u64)
        ensures
            final(self)@ == forgotten(old(self)@, conn),
            well_formed(old(self)@) ==> well_formed(final(self)@),
    {
        let ghost start = self@;
        let n: usize = self.entries.len();
        let mut j: usize = 0;
        let mut at: usize = 0;
        proof {
            lemma_forgotten(start, conn);
            assert(start.skip(0) =~= start);
            assert(forgotten(start.take(0), conn) + start.skip(0) =~= start);
        }
        while j < n
            invariant
                n == start.len(),
                j <= n,
                at == forgotten(start.take(j as int), conn).len(),
                self@ == forgotten(start.take(j as int), conn) + start.skip(j as int),
            decreases n - j,
        {
            let ghost done = forgotten(start.take(j as int), conn);
            let ghost row = start[j as int];
            proof {
                assert(start.take(j as int + 1).drop_last() =~= start.take(j as int));
                assert(self@[at as int] == row);
                assert(self@.len() == self.entries@.len());
            }
            let before: usize = self.entries.len();
            let keep = self.others(at, conn);
            self.keep_row(at, keep.as_slice());
            let ghost left = without(row.subs, conn);
            assert(self@.len() == self.entries@.len());
            if self.entries.len() == before {
                assert(left.len() > 0);
                assert(self@ =~= done.push(Row { name: row.name, subs: left }) + start.skip(
                    j as int + 1,
                ));
                at += 1;
            } else {
                assert(left.len() == 0);
                assert(self@ =~= done + start.skip(j as int + 1));
            }
            j += 1;
        }
        assert(start.take(start.len() as int) =~= start);
        assert(self@ =~= forgotten(start, conn));
    }

    /// How many connections stand under a name.
    pub fn count(&self, name: &[u8]) -> (n: usize)
        ensures
            n == subs_of(self@, name@).len(),
    {
        let i = self.find(name);
        if i < self.entries.len() {
            self.entries[i].subs.len()
        } else {
            0
        }
    }

    /// The name of a row.
    pub fn name_at(&self, i: usize) -> (name: Vec<u8>)
        requires
            i < self@.len(),
        ensures
            name@ == self@[i as int].name,
    {
        copy_bytes(self.entries[i].name.as_slice())
    }
}

/// The subscriptions under a name are those of the row with that name; there are none
/// where no row has it.
pub proof fn law_subscriptions_of_a_name<H>(t: Seq<Row<H>>, name: Seq<u8>)
    requires
        well_formed(t),
    ensures
        forall|i: int|
            0 <= i < t.len() && (#[trigger] t[i]).name == name ==> subs_of(t, name) == t[i].subs,
        (forall|i: int| 0 <= i < t.len() ==> (#[trigger] t[i]).name != name) ==> subs_of(
            t,
            name,
        ).len() == 0,
{
    lemma_first_at(names(t), name);
    let k = row_of(t, name);
    if k < t.len() {
        assert(names(t)[k] == name);
        assert(t[k].name == name);
    }
    assert forall|i: int| 0 <= i < t.len() && (#[trigger] t[i]).name == name implies subs_of(
        t,
        name,
    ) == t[i].subs by {
        assert(names(t)[i] == name);
        if k < i {
            assert(names(t)[k] != names(t)[i]);
        }
    }
}

/// A connection that subscribes to a name has that handle under that name, and no other;
/// every other connection keeps what it had, and so does every other name.
pub proof fn law_subscribing_adds_one_subscription<H>(
    t: Seq<Row<H>>,
    name: Seq<u8>,
    conn: u64,
    handle: H,
    other: Seq<u8>,
)
    requires
        well_formed(t),
    ensures
        other != name ==> subs_of(subscribed(t, name, conn, handle), other) == subs_of(t, other),
        subs_of(subscribed(t, name, conn, handle), name).contains((conn, handle)),
        forall|h: H| #[trigger]
            subs_of(subscribed(t, name, conn, handle), name).contains((conn, h)) ==> h == handle,
        forall|c: u64, h: H|
            c != conn ==> (#[trigger] subs_of(subscribed(t, name, conn, handle), name).contains(
                (c, h),
            ) <==> subs_of(t, name).contains((c, h))),
        subs_of(subscribed(t, name, conn, handle), name).len() == subs_of(t, name).len() + (
        if conns(subs_of(t, name)).contains(conn) {
            0int
        } else {
            1int
        }),
{
    lemma_first_at(names(t), name);
    lemma_first_at(names(t), other);
    let i = row_of(t, name);
    let j = row_of(t, other);
    let s = subscribed(t, name, conn, handle);
    if i < t.len() {
        assert(names(t)[i] == name);
        assert(names(s) =~= names(t));
        if other != name && j < t.len() {
            assert(names(t)[j] == other);
            assert(s[j] == t[j]);
        }
        lemma_put_shows(t[i].subs, conn, handle);
    } else {
        assert(names(s) =~= names(t).push(name));
        lemma_first_at_is(names(s), name, t.len() as int);
        if other != name {
            if j < t.len() {
                lemma_first_at_is(names(s), other, j);
                assert(s[j] == t[j]);
            } else {
                lemma_first_at_is(names(s), other, t.len() as int + 1);
            }
        }
        let one = seq![(conn, handle)];
        assert(subs_of(s, name) == one);
        assert(one[0] == (conn, handle));
        assert(!conns(subs_of(t, name)).contains(conn));
    }
}

proof fn lemma_put_shows<H>(subs: Seq<(u64, H)>, conn: u64, handle: H)
    requires
        conns(subs).no_duplicates(),
    ensures
        put(subs, conn, handle).contains((conn, handle)),
        forall|h: H| #[trigger] put(subs, conn, handle).contains((conn, h)) ==> h == handle,
        forall|c: u64, h: H|
            c != conn ==> (#[trigger] put(subs, conn, handle).contains((c, h)) <==> subs.contains(
                (c, h),
            )),
        put(subs, conn, handle).len() == subs.len() + (if conns(subs).contains(conn) {
            0int
        } else {
            1int
        }),
{
    lemma_first_at(conns(subs), conn);
    let i = first_at(conns(subs), conn);
    let r = put(subs, conn, handle);
    let at = if i < subs.len() {
        i
    } else {
        subs.len() as int
    };
    if i < subs.len() {
        assert(conns(subs)[i] == conn);
        assert(subs[i].0 == conn);
    }
    assert(r[at] == (conn, handle));
    assert forall|h: H| #[trigger] r.contains((conn, h)) implies h == handle by {
        let k = choose|k: int| 0 <= k < r.len() && r[k] == (conn, h);
        if k != at {
            assert(conns(subs)[k] == conn);
            if i < subs.len() {
                assert(conns(subs)[k] != conns(subs)[i]);
            }
        }
    }
    assert forall|c: u64, h: H| c != conn implies (#[trigger] r.contains((c, h)) <==> subs.contains(
        (c, h),
    )) by {
        if r.contains((c, h)) {
            let k = choose|k: int| 0 <= k < r.len() && r[k] == (c, h);
            assert(subs[k] == (c, h));
        }
        if subs.contains((c, h)) {
            let k = choose|k: int| 0 <= k < subs.len() && subs[k] == (c, h);
            assert(r[k] == (c, h));
        }
    }
}

/// A connection that unsubscribes from a name loses its subscription to that name; every
/// other connection keeps its own, in order, and so does every other name.
pub proof fn law_unsubscribing_removes_one_subscription<H>(
    t: Seq<Row<H>>,
    name: Seq<u8>,
    conn: u64,
    other: Seq<u8>,
)
    requires
        well_formed(t),
    ensures
        subs_of(unsubscribed(t, name, conn), other) == (if other == name {
            subs_of(t, name).filter(|p: (u64, H)| p.0 != conn)
        } else {
            subs_of(t, other)
        }),
{
    let pred = |p: (u64, H)| p.0 != conn;
    let i = row_of(t, name);
    lemma_first_at(names(t), name);
    reveal(Seq::filter);
    if i < t.len() {
        assert(names(t)[i] == name);
        let subs = t[i].subs;
        lemma_kept_filter(subs, not_of(subs, conn), pred);
        lemma_with_subs_shows(t, i, without(subs, conn), other);
        if without(subs, conn).len() == 0 {
            assert(without(subs, conn) =~= Seq::empty());
        }
    } else {
        assert(subs_of(t, name).filter(pred) =~= subs_of(t, name));
    }
}

/// Other subscriptions in one row show under its name and nowhere else.
pub proof fn lemma_with_subs_shows<H>(t: Seq<Row<H>>, i: int, subs: Seq<(u64, H)>, other: Seq<u8>)
    requires
        well_formed(t),
        0 <= i < t.len(),
    ensures
        subs_of(with_subs(t, i, subs), other) == (if other == t[i].name {
            subs
        } else {
            subs_of(t, other)
        }),
{
    let s = with_subs(t, i, subs);
    let j = row_of(t, other);
    lemma_first_at(names(t), other);
    assert(names(t)[i] == t[i].name);
    if subs.len() == 0 {
        assert forall|k: int| 0 <= k < s.len() implies #[trigger] names(s)[k] == names(t)[if k < i {
            k
        } else {
            k + 1
        }] by {
            assert(s[k] == t[if k < i {
                k
            } else {
                k + 1
            }]);
        }
        if other == t[i].name {
            assert forall|k: int| 0 <= k < names(s).len() implies names(s)[k] != other by {
                let q = if k < i {
                    k
                } else {
                    k + 1
                };
                assert(names(s)[k] == names(t)[q]);
                assert(names(t)[q] != names(t)[i]);
            }
            lemma_first_at_is(names(s), other, s.len() as int);
            assert(subs =~= Seq::empty());
        } else {
            let j2 = if j > i {
                j - 1
            } else {
                j
            };
            assert forall|k: int| 0 <= k < j2 implies names(s)[k] != other by {
                assert(names(s)[k] == names(t)[if k < i {
                    k
                } else {
                    k + 1
                }]);
            }
            if j < t.len() {
                assert(names(t)[j] == other);
                assert(j != i);
                assert(names(s)[j2] == names(t)[j]);
                lemma_first_at_is(names(s), other, j2);
                assert(s[j2] == t[j]);
            } else {
                lemma_first_at_is(names(s), other, s.len() as int);
            }
        }
    } else {
        assert(names(s) =~= names(t));
        if other == t[i].name {
            if j < i {
                assert(names(t)[j] != names(t)[i]);
            }
            assert(j == i);
        } else if j < t.len() {
            assert(names(t)[j] == other);
        }
    }
}

/// A connection that goes away loses its subscriptions to every name; every other
/// connection keeps its own, in order.
pub proof fn law_forgetting_removes_every_subscription<H>(
    t: Seq<Row<H>>,
    conn: u64,
    name: Seq<u8>,
)
    requires
        well_formed(t),
    ensures
        subs_of(forgotten(t, conn), name) == subs_of(t, name).filter(|p: (u64, H)| p.0 != conn),
{
    let pred = |p: (u64, H)| p.0 != conn;
    lemma_forgotten_names(t, conn);
    lemma_forgotten_subs(t, conn, name);
}

proof fn lemma_forgotten_names<H>(t: Seq<Row<H>>, conn: u64)
    ensures
        forall|k: int|
            0 <= k < forgotten(t, conn).len() ==> exists|i: int|
                0 <= i < t.len() && t[i].name == (#[trigger] forgotten(t, conn)[k]).name,
    decreases t.len(),
{
    if t.len() > 0 {
        let front = t.drop_last();
        lemma_forgotten_names(front, conn);
        let f = forgotten(t, conn);
        assert forall|k: int| 0 <= k < f.len() implies exists|i: int|
            0 <= i < t.len() && t[i].name == (#[trigger] f[k]).name by {
            if k < forgotten(front, conn).len() {
                assert(f[k] == forgotten(front, conn)[k]);
                let i = choose|i: int|
                    0 <= i < front.len() && front[i].name == forgotten(front, conn)[k].name;
                assert(t[i] == front[i]);
            } else {
                assert(t[t.len() - 1].name == f[k].name);
            }
        }
    }
}

proof fn lemma_forgotten_subs<H>(t: Seq<Row<H>>, conn: u64, name: Seq<u8>)
    requires
        well_formed(t),
    ensures
        subs_of(forgotten(t, conn), name) == subs_of(t, name).filter(|p: (u64, H)| p.0 != conn),
    decreases t.len(),
{
    let pred = |p: (u64, H)| p.0 != conn;
    reveal(Seq::filter);
    let f = forgotten(t, conn);
    if t.len() == 0 {
        assert(f =~= Seq::empty());
        assert(names(f).len() == 0);
        assert(names(t).len() == 0);
        assert(subs_of(t, name) =~= Seq::empty());
        assert(subs_of(f, name) =~= Seq::empty());
        assert(subs_of(t, name).filter(pred) =~= Seq::empty());
    } else {
        let front = t.drop_last();
        let n = t.len() - 1;
        let last = t.last();
        assert(names(front) =~= names(t).drop_last());
        assert forall|i: int| 0 <= i < front.len() implies (#[trigger] front[i]).subs.len() > 0
            && conns(front[i].subs).no_duplicates() by {
            assert(front[i] == t[i]);
        }
        assert forall|i: int, j: int|
            0 <= i < names(front).len() && 0 <= j < names(front).len() && i != j implies names(
            front,
        )[i] != names(front)[j] by {
            assert(names(t)[i] != names(t)[j]);
        }
        lemma_forgotten_subs(front, conn, name);
        lemma_forgotten_names(front, conn);
        let rest = forgotten(front, conn);
        let subs = without(last.subs, conn);
        lemma_kept_filter(last.subs, not_of(last.subs, conn), pred);
        lemma_first_at(names(front), name);
        lemma_first_at(names(rest), name);
        assert(names(t)[n] == last.name);
        if name == last.name {
            assert forall|k: int| 0 <= k < names(front).len() implies names(front)[k] != name by {
                assert(names(t)[k] != names(t)[n]);
            }
            lemma_first_at_is(names(t), name, n);
            assert forall|k: int| 0 <= k < names(rest).len() implies names(rest)[k] != name by {
                let i = choose|i: int| 0 <= i < front.len() && front[i].name == rest[k].name;
                assert(names(front)[i] == front[i].name);
            }
            if subs.len() == 0 {
                lemma_first_at_is(names(f), name, f.len() as int);
                assert(subs_of(f, name) =~= subs);
            } else {
                assert(names(f) =~= names(rest).push(name));
                lemma_first_at_is(names(f), name, rest.len() as int);
            }
        } else {
            let i = row_of(front, name);
            if i < front.len() {
                assert(names(front)[i] == name);
                lemma_first_at_is(names(t), name, i);
                assert(t[i] == front[i]);
            } else {
                assert forall|k: int| 0 <= k < names(t).len() implies names(t)[k] != name by {
                    if k < n {
                        assert(names(front)[k] == names(t)[k]);
                    }
                }
                lemma_first_at_is(names(t), name, t.len() as int);
            }
            if subs.len() > 0 {
                assert(names(f) =~= names(rest).push(last.name));
                let k = row_of(rest, name);
                if k < rest.len() {
                    lemma_first_at_is(names(f), name, k);
                    assert(f[k] == rest[k]);
                } else {
                    lemma_first_at_is(names(f), name, f.len() as int);
                }
            }
        }
    }
}

/// A table is its rows, each with its name and its subscriptions.
pub proof fn law_view_of_a_table<H>(t: Table<H>, i: int)
    requires
        0 <= i < t.entries@.len(),
    ensures
        t@.len() == t.entries@.len(),
        t@[i].name == t.entries@[i].name@,
        t@[i].subs == t.entries@[i].subs@,
        names(t@)[i] == t.entries@[i].name@,
        names(t@).len() == t.entries@.len(),
{
}

} // verus!
