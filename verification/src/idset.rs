//! Sets of node ids: ordered, without repetition.
use vstd::prelude::*;
use crate::resp::string_views;
use crate::text::{chars_of, same_str};
use vstd::string::*;

verus! {

/// Whether `a` comes before `b`: by the first character in which they differ, and
/// a text before its continuations.
pub open spec fn text_lt(a: Seq<char>, b: Seq<char>) -> bool
    decreases a.len(),
{
    if b.len() == 0 {
        false
    } else if a.len() == 0 {
        true
    } else if a[0] != b[0] {
        a[0] < b[0]
    } else {
        text_lt(a.drop_first(), b.drop_first())
    }
}

/// The order of texts is total and strict.
pub proof fn lemma_text_lt_total(a: Seq<char>, b: Seq<char>)
    ensures
        !(text_lt(a, b) && text_lt(b, a)),
        a == b ==> !text_lt(a, b),
        text_lt(a, b) || text_lt(b, a) || a == b,
    decreases a.len(),
{
    if a.len() > 0 && b.len() > 0 {
        lemma_text_lt_total(a.drop_first(), b.drop_first());
        if a[0] == b[0] && a.drop_first() == b.drop_first() {
            assert(a =~= seq![a[0]] + a.drop_first());
            assert(b =~= seq![b[0]] + b.drop_first());
        }
    } else if a.len() == 0 && b.len() == 0 {
        assert(a =~= b);
    }
}

/// The order of texts is transitive.
pub proof fn lemma_text_lt_trans(a: Seq<char>, b: Seq<char>, c: Seq<char>)
    requires
        text_lt(a, b),
        text_lt(b, c),
    ensures
        text_lt(a, c),
    decreases a.len(),
{
    if a.len() > 0 && a[0] == b[0] && b[0] == c[0] {
        lemma_text_lt_trans(a.drop_first(), b.drop_first(), c.drop_first());
    }
}

/// Whether `a` comes before `b`.
pub fn before(a: &str, b: &str) -> (r: bool)
    ensures
        r == text_lt(a@, b@),
{
    let x = chars_of(a);
    let y = chars_of(b);
    let mut i: usize = 0;
    assert(x@.skip(0) =~= x@);
    assert(y@.skip(0) =~= y@);
    while i < x.len() && i < y.len() && x[i] == y[i]
        invariant
            i <= x@.len(),
            i <= y@.len(),
            text_lt(x@.skip(i as int), y@.skip(i as int)) == text_lt(x@, y@),
        decreases x@.len() - i,
    {
        assert(x@.skip(i as int).drop_first() =~= x@.skip(i as int + 1));
        assert(y@.skip(i as int).drop_first() =~= y@.skip(i as int + 1));
        i = i + 1;
    }
    if i >= y.len() {
        false
    } else if i >= x.len() {
        true
    } else {
        x[i] < y[i]
    }
}

/// An ordered list of ids with `x` in its place.
pub open spec fn with_id(s: Seq<Seq<char>>, x: Seq<char>) -> Seq<Seq<char>>
    decreases s.len(),
{
    if s.len() == 0 {
        seq![x]
    } else if s[0] == x {
        s
    } else if text_lt(x, s[0]) {
        seq![x] + s
    } else {
        seq![s[0]] + with_id(s.drop_first(), x)
    }
}

/// The ids of `v`, ordered and each once.
pub open spec fn id_list(v: Seq<Seq<char>>) -> Seq<Seq<char>>
    decreases v.len(),
{
    if v.len() == 0 {
        Seq::empty()
    } else {
        with_id(id_list(v.drop_last()), v.last())
    }
}

/// Whether the ids ascend strictly.
pub open spec fn ascending(s: Seq<Seq<char>>) -> bool {
    forall|i: int, j: int| 0 <= i < j < s.len() ==> text_lt(#[trigger] s[i], #[trigger] s[j])
}

proof fn lemma_with_id(s: Seq<Seq<char>>, x: Seq<char>)
    requires
        ascending(s),
    ensures
        ascending(with_id(s, x)),
        forall|y: Seq<char>| #[trigger] with_id(s, x).contains(y) <==> (s.contains(y) || y == x),
    decreases s.len(),
{
    if s.len() == 0 {
        assert(seq![x][0] == x);
        assert forall|y: Seq<char>| #[trigger] with_id(s, x).contains(y) <==> (s.contains(y) || y
            == x) by {
            if y == x {
                assert(with_id(s, x)[0] == y);
            }
        }
    } else if s[0] == x {
        assert(s.contains(x));
    } else if text_lt(x, s[0]) {
        let r = with_id(s, x);
        assert forall|i: int, j: int| 0 <= i < j < r.len() implies text_lt(
            #[trigger] r[i],
            #[trigger] r[j],
        ) by {
            if i == 0 {
                if j > 1 {
                    lemma_text_lt_trans(x, s[0], s[j - 1]);
                }
            } else {
                assert(r[i] == s[i - 1] && r[j] == s[j - 1]);
            }
        }
        assert forall|y: Seq<char>| #[trigger] r.contains(y) <==> (s.contains(y) || y == x) by {
            if s.contains(y) {
                let k = choose|k: int| 0 <= k < s.len() && s[k] == y;
                assert(r[k + 1] == y);
            }
            if y == x {
                assert(r[0] == y);
            }
            if r.contains(y) {
                let k = choose|k: int| 0 <= k < r.len() && r[k] == y;
                if k > 0 {
                    assert(s[k - 1] == y);
                }
            }
        }
    } else {
        let t = s.drop_first();
        let q = with_id(t, x);
        let r = with_id(s, x);
        assert forall|i: int, j: int| 0 <= i < j < t.len() implies text_lt(
            #[trigger] t[i],
            #[trigger] t[j],
        ) by {
            assert(t[i] == s[i + 1] && t[j] == s[j + 1]);
        }
        lemma_with_id(t, x);
        lemma_text_lt_total(x, s[0]);
        assert forall|i: int, j: int| 0 <= i < j < r.len() implies text_lt(
            #[trigger] r[i],
            #[trigger] r[j],
        ) by {
            if i == 0 {
                let y = q[j - 1];
                assert(q.contains(y));
                if t.contains(y) {
                    let k = choose|k: int| 0 <= k < t.len() && t[k] == y;
                    assert(s[k + 1] == y);
                    assert(text_lt(s[0], s[k + 1]));
                }
            } else {
                assert(r[i] == q[i - 1] && r[j] == q[j - 1]);
            }
        }
        assert forall|y: Seq<char>| #[trigger] r.contains(y) <==> (s.contains(y) || y == x) by {
            if s.contains(y) {
                let k = choose|k: int| 0 <= k < s.len() && s[k] == y;
                if k == 0 {
                    assert(r[0] == y);
                } else {
                    assert(t[k - 1] == y);
                    assert(q.contains(y));
                }
            }
            if q.contains(y) {
                let k = choose|k: int| 0 <= k < q.len() && q[k] == y;
                assert(r[k + 1] == y);
                if t.contains(y) {
                    let m = choose|m: int| 0 <= m < t.len() && t[m] == y;
                    assert(s[m + 1] == y);
                }
            }
            if y == x {
                assert(q.contains(y));
            }
            if r.contains(y) {
                let k = choose|k: int| 0 <= k < r.len() && r[k] == y;
                if k == 0 {
                    assert(s[0] == y);
                } else {
                    assert(q[k - 1] == y);
                    assert(q.contains(y));
                }
            }
        }
    }
}

/// The ordered list of ids ascends strictly and holds exactly the ids given.
pub proof fn lemma_id_list(v: Seq<Seq<char>>)
    ensures
        ascending(id_list(v)),
        forall|y: Seq<char>| #[trigger] id_list(v).contains(y) <==> v.contains(y),
    decreases v.len(),
{
    if v.len() > 0 {
        lemma_id_list(v.drop_last());
        lemma_with_id(id_list(v.drop_last()), v.last());
        assert forall|y: Seq<char>| #[trigger] id_list(v).contains(y) <==> v.contains(y) by {
            if v.contains(y) {
                let k = choose|k: int| 0 <= k < v.len() && v[k] == y;
                if k < v.len() - 1 {
                    assert(v.drop_last()[k] == y);
                    assert(v.drop_last().contains(y));
                    assert(id_list(v.drop_last()).contains(y));
                }
            }
            if v.drop_last().contains(y) {
                let k = choose|k: int| 0 <= k < v.drop_last().len() && v.drop_last()[k] == y;
                assert(v[k] == y);
            }
        }
    }
}

/// Two strictly ascending lists with the same ids are the same list.
pub proof fn lemma_ascending_unique(a: Seq<Seq<char>>, b: Seq<Seq<char>>)
    requires
        ascending(a),
        ascending(b),
        forall|y: Seq<char>| #[trigger] a.contains(y) <==> b.contains(y),
    ensures
        a == b,
    decreases a.len(),
{
    if a.len() == 0 {
        if b.len() > 0 {
            assert(b.contains(b[0]));
            assert(a.contains(b[0]));
        }
        assert(a =~= b);
    } else {
        assert(a.contains(a[0]));
        assert(b.contains(a[0]));
        let k = choose|k: int| 0 <= k < b.len() && b[k] == a[0];
        assert(b.contains(b[0]));
        assert(a.contains(b[0]));
        let m = choose|m: int| 0 <= m < a.len() && a[m] == b[0];
        if k > 0 && m > 0 {
            assert(text_lt(b[0], b[k]));
            assert(text_lt(a[0], a[m]));
            lemma_text_lt_total(a[0], b[0]);
        }
        assert(a[0] == b[0]);
        let x = a.drop_first();
        let y = b.drop_first();
        assert forall|i: int, j: int| 0 <= i < j < x.len() implies text_lt(
            #[trigger] x[i],
            #[trigger] x[j],
        ) by {
            assert(x[i] == a[i + 1] && x[j] == a[j + 1]);
        }
        assert forall|i: int, j: int| 0 <= i < j < y.len() implies text_lt(
            #[trigger] y[i],
            #[trigger] y[j],
        ) by {
            assert(y[i] == b[i + 1] && y[j] == b[j + 1]);
        }
        assert forall|z: Seq<char>| #[trigger] x.contains(z) <==> y.contains(z) by {
            if x.contains(z) {
                let i = choose|i: int| 0 <= i < x.len() && x[i] == z;
                assert(a[i + 1] == z);
                assert(a.contains(z));
                let j = choose|j: int| 0 <= j < b.len() && b[j] == z;
                assert(text_lt(a[0], a[i + 1]));
                lemma_text_lt_total(a[0], z);
                assert(y[j - 1] == z);
            }
            if y.contains(z) {
                let i = choose|i: int| 0 <= i < y.len() && y[i] == z;
                assert(b[i + 1] == z);
                assert(b.contains(z));
                assert(a.contains(z));
                let j = choose|j: int| 0 <= j < a.len() && a[j] == z;
                assert(text_lt(b[0], b[i + 1]));
                lemma_text_lt_total(b[0], z);
                assert(x[j - 1] == z);
            }
        }
        lemma_ascending_unique(x, y);
        assert(a =~= seq![a[0]] + x);
        assert(b =~= seq![b[0]] + y);
    }
}

/// Where `x` belongs in an ordered list, and whether it already stands there.
fn place_of(ids: &Vec<String>, x: &str) -> (r: (usize, bool))
    ensures
        r.0 <= ids@.len(),
        r.1 ==> r.0 < ids@.len() && with_id(string_views(ids@), x@) == string_views(ids@),
        !r.1 ==> with_id(string_views(ids@), x@) == string_views(ids@).insert(r.0 as int, x@),
{
    let ghost s = string_views(ids@);
    let mut i: usize = 0;
    assert(s.skip(0) =~= s);
    assert(s.take(0) + with_id(s, x@) =~= with_id(s, x@));
    while i < ids.len()
        invariant
            i <= ids@.len(),
            s == string_views(ids@),
            s.take(i as int) + with_id(s.skip(i as int), x@) == with_id(s, x@),
        decreases ids@.len() - i,
    {
        let ghost t = s.skip(i as int);
        assert(t[0] == ids@[i as int]@);
        if same_str(ids[i].as_str(), x) {
            assert(s.take(i as int) + t =~= s);
            return (i, true);
        }
        if before(x, ids[i].as_str()) {
            assert(s.take(i as int) + (seq![x@] + t) =~= s.insert(i as int, x@));
            return (i, false);
        }
        assert(t.drop_first() =~= s.skip(i as int + 1));
        assert(s.take(i as int) + (seq![t[0]] + with_id(t.drop_first(), x@)) =~= s.take(
            i as int + 1,
        ) + with_id(s.skip(i as int + 1), x@));
        i = i + 1;
    }
    assert(s.skip(i as int) =~= Seq::<Seq<char>>::empty());
    assert(s.take(i as int) + seq![x@] =~= s.insert(i as int, x@));
    (i, false)
}

/// Puts an id in its place.
pub fn insert_id(ids: &mut Vec<String>, x: &str)
    ensures
        string_views(final(ids)@) == with_id(string_views(old(ids)@), x@),
{
    let (i, present) = place_of(ids, x);
    if !present {
        let ghost start = ids@;
        ids.insert(i, x.to_owned());
        assert(string_views(ids@) =~= string_views(start).insert(i as int, x@));
    }
}

/// The ids of a list, ordered and each once.
pub fn id_set(v: &[String]) -> (ids: Vec<String>)
    ensures
        string_views(ids@) == id_list(string_views(v@)),
{
    let mut ids: Vec<String> = Vec::new();
    assert(string_views(ids@) =~= Seq::<Seq<char>>::empty());
    for i in 0..v.len()
        invariant
            string_views(ids@) == id_list(string_views(v@.take(i as int))),
    {
        insert_id(&mut ids, v[i].as_str());
        assert(string_views(v@.take(i as int + 1)).drop_last() =~= string_views(v@.take(i as int)));
        assert(string_views(v@.take(i as int + 1)).last() == v@[i as int]@);
    }
    assert(v@.take(v@.len() as int) =~= v@);
    ids
}

/// Whether two lists of strings are the same.
pub fn same_ids(a: &[String], b: &[String]) -> (r: bool)
    ensures
        r == (string_views(a@) == string_views(b@)),
{
    if a.len() != b.len() {
        assert(string_views(a@).len() != string_views(b@).len());
        return false;
    }
    for i in 0..a.len()
        invariant
            a@.len() == b@.len(),
            forall|j: int| 0 <= j < i ==> (#[trigger] a@[j])@ == b@[j]@,
    {
        if !same_str(a[i].as_str(), b[i].as_str()) {
            assert(string_views(a@)[i as int] != string_views(b@)[i as int]);
            return false;
        }
    }
    assert(string_views(a@) =~= string_views(b@));
    true
}

/// Texts with a comma between each two.
pub open spec fn joined(v: Seq<Seq<char>>) -> Seq<char>
    decreases v.len(),
{
    if v.len() == 0 {
        Seq::empty()
    } else if v.len() == 1 {
        v[0]
    } else {
        joined(v.drop_last()) + seq![','] + v.last()
    }
}

/// The ids with a comma between each two.
pub fn join_ids(ids: &[String]) -> (r: String)
    ensures
        r@ == joined(string_views(ids@)),
{
    let mut r: String = String::new();
    for i in 0..ids.len()
        invariant
            r@ == joined(string_views(ids@.take(i as int))),
    {
        let ghost before = r@;
        let ghost v = string_views(ids@.take(i as int + 1));
        assert(v.drop_last() =~= string_views(ids@.take(i as int)));
        assert(v.last() == ids@[i as int]@);
        if i > 0 {
            r.push(',');
        }
        r.append(ids[i].as_str());
        assert(i > 0 ==> r@ =~= before + seq![','] + ids@[i as int]@);
        assert(i == 0 ==> r@ =~= v[0]);
    }
    assert(ids@.take(ids@.len() as int) =~= ids@);
    r
}

/// Ids are ordered by the first character in which they differ, the smaller one first,
/// and an id comes before every continuation of it.
pub proof fn law_order_of_ids(p: Seq<char>, x: char, a: Seq<char>, y: char, b: Seq<char>)
    ensures
        x < y ==> text_lt(p + seq![x] + a, p + seq![y] + b),
        x > y ==> !text_lt(p + seq![x] + a, p + seq![y] + b),
        text_lt(p, p + seq![x] + a),
        !text_lt(p + seq![x] + a, p),
    decreases p.len(),
{
    let s = p + seq![x] + a;
    let t = p + seq![y] + b;
    if p.len() > 0 {
        let q = p.drop_first();
        law_order_of_ids(q, x, a, y, b);
        assert(s.drop_first() =~= q + seq![x] + a);
        assert(t.drop_first() =~= q + seq![y] + b);
    }
}

/// The list of ids that is shown has a comma between each two, and no other.
pub proof fn law_joined_ids(v: Seq<Seq<char>>, x: Seq<char>)
    ensures
        joined(Seq::empty()).len() == 0,
        joined(seq![x]) == x,
        v.len() > 0 ==> joined(v.push(x)) == joined(v) + seq![','] + x,
{
    assert(v.push(x).drop_last() =~= v);
}

} // verus!
