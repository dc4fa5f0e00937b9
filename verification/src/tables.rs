//! Tables: rows kept in ascending order of their ids, no id twice.

use vstd::prelude::*;

verus! {

/// A row that an id tells apart from the others of its table.
pub trait Keyed: Sized {
    spec fn key(self) -> i64;
}

/// Whether the ids of `s` ascend, so that none occurs twice.
pub open spec fn ids_ascend<R: Keyed>(s: Seq<R>) -> bool {
    forall|i: int, j: int| 0 <= i < j < s.len() ==> (#[trigger] s[i]).key() < (#[trigger] s[j]).key()
}

/// Whether a row of `s` has the id `id`.
pub open spec fn has_id<R: Keyed>(s: Seq<R>, id: i64) -> bool {
    exists|i: int| 0 <= i < s.len() && (#[trigger] s[i]).key() == id
}

/// The row of `s` with the id `id`, if there is one.
pub open spec fn row<R: Keyed>(s: Seq<R>, id: i64) -> Option<R> {
    if has_id(s, id) {
        Some(s[choose|i: int| 0 <= i < s.len() && (#[trigger] s[i]).key() == id])
    } else {
        None
    }
}

/// `s` with `r` in its place by id, instead of the row with that id if there was one.
pub open spec fn put<R: Keyed>(s: Seq<R>, r: R) -> Seq<R> {
    s.filter(|x: R| x.key() < r.key()).push(r) + s.filter(|x: R| x.key() > r.key())
}

/// The row at position `i` is the one its id finds.
pub proof fn row_at<R: Keyed>(s: Seq<R>, i: int)
    requires
        ids_ascend(s),
        0 <= i < s.len(),
    ensures
        row(s, s[i].key()) == Some(s[i]),
{
    let id = s[i].key();
    let j = choose|j: int| 0 <= j < s.len() && (#[trigger] s[j]).key() == id;
    assert(j == i) by {
        if j < i {
            assert(s[j].key() < s[i].key());
        } else if i < j {
            assert(s[i].key() < s[j].key());
        }
    }
}

/// A row that an id finds is in the table and has that id.
pub proof fn row_found<R: Keyed>(s: Seq<R>, id: i64)
    ensures
        row(s, id) matches Some(r) ==> s.contains(r) && r.key() == id,
        row(s, id) is None <==> !has_id(s, id),
{
}

/// Filtering keeps exactly the items that pass.
pub proof fn filter_holds<R>(s: Seq<R>, pass: spec_fn(R) -> bool)
    ensures
        forall|x: R| #[trigger] s.filter(pass).contains(x) <==> s.contains(x) && pass(x),
    decreases s.len(),
{
    reveal(Seq::filter);
    if s.len() > 0 {
        let rest = s.drop_last();
        filter_holds(rest, pass);
        let f = s.filter(pass);
        let g = rest.filter(pass);
        assert forall|x: R| #[trigger] f.contains(x) <==> s.contains(x) && pass(x) by {
            if f.contains(x) {
                let k = choose|k: int| 0 <= k < f.len() && f[k] == x;
                if k < g.len() {
                    assert(g[k] == x);
                    assert(g.contains(x));
                    let m = choose|m: int| 0 <= m < rest.len() && rest[m] == x;
                    assert(s[m] == x);
                } else {
                    assert(s[s.len() - 1] == x);
                }
            }
            if s.contains(x) && pass(x) {
                let m = choose|m: int| 0 <= m < s.len() && s[m] == x;
                if m < rest.len() {
                    assert(rest[m] == x);
                    assert(g.contains(x));
                    let k = choose|k: int| 0 <= k < g.len() && g[k] == x;
                    assert(f[k] == x);
                } else {
                    assert(f[f.len() - 1] == x);
                }
            }
        }
    }
}

/// Filtering keeps the order of ids, and keeps exactly the rows that pass.
pub proof fn filter_keeps<R: Keyed>(s: Seq<R>, pass: spec_fn(R) -> bool)
    ensures
        ids_ascend(s) ==> ids_ascend(s.filter(pass)),
        forall|x: R| #[trigger] s.filter(pass).contains(x) <==> s.contains(x) && pass(x),
    decreases s.len(),
{
    filter_holds(s, pass);
    if s.len() > 0 && ids_ascend(s) {
        let rest = s.drop_last();
        assert(ids_ascend(rest));
        filter_keeps(rest, pass);
        reveal(Seq::filter);
        let f = s.filter(pass);
        let g = rest.filter(pass);
        assert forall|i: int, j: int| 0 <= i < j < f.len() implies (#[trigger] f[i]).key() < (
        #[trigger] f[j]).key() by {
            if j == g.len() {
                assert(g.contains(g[i]));
                assert(rest.contains(g[i]));
                let k = choose|k: int| 0 <= k < rest.len() && rest[k] == g[i];
                assert(s[k].key() < s[s.len() - 1].key());
            } else {
                assert(f[i] == g[i] && f[j] == g[j]);
            }
        }
    }
}

/// A filter that passes the first `p` rows and no other leaves the first `p` rows.
pub proof fn filter_is_prefix<R>(s: Seq<R>, pass: spec_fn(R) -> bool, p: int)
    requires
        0 <= p <= s.len(),
        forall|i: int| 0 <= i < p ==> pass(#[trigger] s[i]),
        forall|i: int| p <= i < s.len() ==> !pass(#[trigger] s[i]),
    ensures
        s.filter(pass) == s.take(p),
    decreases s.len(),
{
    reveal(Seq::filter);
    if s.len() > 0 {
        let rest = s.drop_last();
        if p == s.len() {
            filter_is_prefix(rest, pass, p - 1);
            assert(s.take(p) =~= rest.take(p - 1).push(s.last()));
        } else {
            filter_is_prefix(rest, pass, p);
            assert(s.take(p) =~= rest.take(p));
        }
    } else {
        assert(s.filter(pass) =~= s.take(p));
    }
}

/// A filter that passes all rows but the first `p` leaves the rows after those.
pub proof fn filter_is_suffix<R>(s: Seq<R>, pass: spec_fn(R) -> bool, p: int)
    requires
        0 <= p <= s.len(),
        forall|i: int| 0 <= i < p ==> !pass(#[trigger] s[i]),
        forall|i: int| p <= i < s.len() ==> pass(#[trigger] s[i]),
    ensures
        s.filter(pass) == s.skip(p),
    decreases s.len(),
{
    reveal(Seq::filter);
    if s.len() > p {
        let rest = s.drop_last();
        filter_is_suffix(rest, pass, p);
        assert(s.skip(p) =~= rest.skip(p).push(s.last()));
    } else {
        filter_is_prefix(s, pass, 0);
        assert(s.take(0) =~= s.skip(p));
    }
}

/// What `put` does: the new row is there, the other rows stay, and the ids still ascend.
pub proof fn put_keeps<R: Keyed>(s: Seq<R>, r: R)
    requires
        ids_ascend(s),
    ensures
        ids_ascend(put(s, r)),
        forall|x: R| #[trigger]
            put(s, r).contains(x) <==> x == r || (s.contains(x) && x.key() != r.key()),
{
    let below = |x: R| x.key() < r.key();
    let above = |x: R| x.key() > r.key();
    filter_keeps(s, below);
    filter_keeps(s, above);
    let lo = s.filter(below);
    let hi = s.filter(above);
    let t = put(s, r);
    assert(t =~= lo.push(r) + hi);
    assert forall|i: int| 0 <= i < lo.len() implies (#[trigger] lo[i]).key() < r.key() by {
        assert(lo.contains(lo[i]));
    }
    assert forall|i: int| 0 <= i < hi.len() implies (#[trigger] hi[i]).key() > r.key() by {
        assert(hi.contains(hi[i]));
    }
    assert forall|i: int, j: int| 0 <= i < j < t.len() implies (#[trigger] t[i]).key() < (
    #[trigger] t[j]).key() by {
        let n = lo.len() as int;
        if j < n {
            assert(t[i] == lo[i] && t[j] == lo[j]);
        } else if i > n {
            assert(t[i] == hi[i - n - 1] && t[j] == hi[j - n - 1]);
        } else {
            if i < n {
                assert(t[i] == lo[i]);
            }
            if j > n {
                assert(t[j] == hi[j - n - 1]);
            }
        }
    }
    assert forall|x: R| #[trigger] t.contains(x) <==> x == r || (s.contains(x) && x.key()
        != r.key()) by {
        let n = lo.len() as int;
        if t.contains(x) {
            let k = choose|k: int| 0 <= k < t.len() && t[k] == x;
            if k < n {
                assert(lo[k] == x);
                assert(lo.contains(x));
            } else if k > n {
                assert(hi[k - n - 1] == x);
                assert(hi.contains(x));
            }
        }
        if x == r {
            assert(t[n] == r);
        } else if s.contains(x) && x.key() != r.key() {
            if x.key() < r.key() {
                assert(lo.contains(x));
                let k = choose|k: int| 0 <= k < lo.len() && lo[k] == x;
                assert(t[k] == x);
            } else {
                assert(hi.contains(x));
                let k = choose|k: int| 0 <= k < hi.len() && hi[k] == x;
                assert(t[n + 1 + k] == x);
            }
        }
    }
}

/// Two tables with the same rows are the same table.
pub proof fn same_rows_same_table<R: Keyed>(a: Seq<R>, b: Seq<R>)
    requires
        ids_ascend(a),
        ids_ascend(b),
        forall|x: R| a.contains(x) <==> b.contains(x),
    ensures
        a == b,
    decreases a.len(),
{
    if a.len() == 0 {
        if b.len() > 0 {
            assert(b.contains(b[0]));
            assert(a.contains(b[0]));
        }
        assert(a =~= b);
    } else {
        assert(a.contains(a.last()));
        assert(b.contains(a.last()));
        let k = choose|k: int| 0 <= k < b.len() && b[k] == a.last();
        assert(b.contains(b.last()));
        assert(a.contains(b.last()));
        let m = choose|m: int| 0 <= m < a.len() && a[m] == b.last();
        assert(a.last() == b.last()) by {
            if k < b.len() - 1 {
                assert(b[k].key() < b[b.len() - 1].key());
                if m < a.len() - 1 {
                    assert(a[m].key() < a[a.len() - 1].key());
                }
            }
        }
        let x0 = a.last();
        let a2 = a.drop_last();
        let b2 = b.drop_last();
        assert forall|x: R| a2.contains(x) <==> b2.contains(x) by {
            if a2.contains(x) {
                let i = choose|i: int| 0 <= i < a2.len() && a2[i] == x;
                assert(a[i].key() < a[a.len() - 1].key());
                assert(a.contains(x));
                assert(b.contains(x));
                let j = choose|j: int| 0 <= j < b.len() && b[j] == x;
                assert(b2[j] == x);
            }
            if b2.contains(x) {
                let j = choose|j: int| 0 <= j < b2.len() && b2[j] == x;
                assert(b[j].key() < b[b.len() - 1].key());
                assert(b.contains(x));
                assert(a.contains(x));
                let i = choose|i: int| 0 <= i < a.len() && a[i] == x;
                assert(a2[i] == x);
            }
        }
        same_rows_same_table(a2, b2);
        assert(a =~= a2.push(x0));
        assert(b =~= b2.push(x0));
    }
}

/// Looking a row up after `put`: the new row under its own id, the same row as
/// before under every other id.
pub proof fn row_after_put<R: Keyed>(s: Seq<R>, r: R, id: i64)
    requires
        ids_ascend(s),
    ensures
        row(put(s, r), id) == if id == r.key() {
            Some(r)
        } else {
            row(s, id)
        },
{
    let t = put(s, r);
    put_keeps(s, r);
    row_found(s, id);
    row_found(t, id);
    if id == r.key() {
        assert(t.contains(r));
        let k = choose|k: int| 0 <= k < t.len() && t[k] == r;
        row_at(t, k);
    } else if has_id(s, id) {
        let x = row(s, id)->0;
        assert(t.contains(x));
        let k = choose|k: int| 0 <= k < t.len() && t[k] == x;
        row_at(t, k);
    } else if has_id(t, id) {
        let x = row(t, id)->0;
        assert(s.contains(x));
        let k = choose|k: int| 0 <= k < s.len() && s[k] == x;
        assert(s[k].key() == id);
    }
}

/// Looking a row up after a filter: the same row as before if it passes.
pub proof fn row_after_filter<R: Keyed>(s: Seq<R>, pass: spec_fn(R) -> bool, id: i64)
    requires
        ids_ascend(s),
    ensures
        row(s.filter(pass), id) == (match row(s, id) {
            Some(r) => if pass(r) {
                Some(r)
            } else {
                None
            },
            None => None,
        }),
{
    let t = s.filter(pass);
    filter_keeps(s, pass);
    row_found(s, id);
    row_found(t, id);
    if has_id(t, id) {
        let x = row(t, id)->0;
        assert(s.contains(x));
        let k = choose|k: int| 0 <= k < s.len() && s[k] == x;
        row_at(s, k);
    } else if has_id(s, id) {
        let x = row(s, id)->0;
        if pass(x) {
            assert(t.contains(x));
            let k = choose|k: int| 0 <= k < t.len() && t[k] == x;
            assert(t[k].key() == id);
        }
    }
}

/// Whether `id` is the one that the next row without an id of its own gets: one
/// more than the largest id in use, or 1 in an empty table. Once the largest id of
/// all is in use, it is the largest positive id that is not.
pub open spec fn is_next_id<R: Keyed>(s: Seq<R>, id: i64) -> bool {
    if s.len() == 0 {
        id == 1
    } else if s.last().key() < i64::MAX {
        id == s.last().key() + 1
    } else {
        &&& 0 < id
        &&& !has_id(s, id)
        &&& forall|j: i64| id < j ==> #[trigger] has_id(s, j)
    }
}

/// The id that the next row without an id of its own gets, unless all are in use.
pub open spec fn next_id<R: Keyed>(s: Seq<R>) -> Option<i64> {
    if exists|id: i64| is_next_id(s, id) {
        Some(choose|id: i64| is_next_id(s, id))
    } else {
        None
    }
}

/// There is one next id at most, and it is not in use.
pub proof fn next_id_is_unused<R: Keyed>(s: Seq<R>, id: i64)
    requires
        ids_ascend(s),
        is_next_id(s, id),
    ensures
        next_id(s) == Some(id),
        !has_id(s, id),
{
    let other = choose|x: i64| is_next_id(s, x);
    assert(is_next_id(s, other));
    if s.len() > 0 && s.last().key() == i64::MAX {
        if other < id {
            assert(has_id(s, id));
        } else if id < other {
            assert(has_id(s, other));
        }
    }
    if has_id(s, id) && s.len() > 0 && s.last().key() < i64::MAX {
        let k = choose|k: int| 0 <= k < s.len() && (#[trigger] s[k]).key() == id;
        if k < s.len() - 1 {
            assert(s[k].key() < s[s.len() - 1].key());
        }
    }
}

/// What a vector of rows holds.
pub open spec fn rows<T: View>(v: Seq<T>) -> Seq<T::V> {
    Seq::new(v.len(), |i: int| v[i]@)
}

/// An exec row, whose view is a row with an id.
pub trait Record: Sized + View where <Self as View>::V: Keyed {
    fn record_id(&self) -> (r: i64)
        ensures
            r == self@.key(),
    ;
}

/// The position of the row with the id `id`, if there is one.
pub fn find<T: Record>(v: &Vec<T>, id: i64) -> (r: Option<usize>) where <T as View>::V: Keyed
    requires
        ids_ascend(rows(v@)),
    ensures
        match r {
            Some(k) => k < v@.len() && row(rows(v@), id) == Some(v@[k as int]@) && v@[k as int]@.key() == id,
            None => !has_id(rows(v@), id),
        },
{
    let ghost s = rows(v@);
    let mut k: usize = 0;
    while k < v.len()
        invariant
            s == rows(v@),
            ids_ascend(s),
            k <= v@.len(),
            forall|i: int| 0 <= i < k ==> (#[trigger] s[i]).key() != id,
        decreases v@.len() - k,
    {
        if v[k].record_id() == id {
            proof {
                row_at(s, k as int);
            }
            return Some(k);
        }
        k = k + 1;
    }
    None
}

/// Puts `x` in its place by id, instead of the row with that id if there was one.
pub fn put_row<T: Record>(v: &mut Vec<T>, x: T) where <T as View>::V: Keyed
    requires
        ids_ascend(rows(old(v)@)),
    ensures
        rows(final(v)@) == put(rows(old(v)@), x@),
{
    let ghost s = rows(v@);
    let id = x.record_id();
    let mut p: usize = 0;
    while p < v.len() && v[p].record_id() < id
        invariant
            s == rows(v@),
            v@ == old(v)@,
            p <= v@.len(),
            id == x@.key(),
            forall|i: int| 0 <= i < p ==> (#[trigger] s[i]).key() < id,
        decreases v@.len() - p,
    {
        p = p + 1;
    }
    let ghost below = |y: T::V| y.key() < x@.key();
    let ghost above = |y: T::V| y.key() > x@.key();
    proof {
        assert forall|i: int| p <= i < s.len() implies !below(#[trigger] s[i]) by {
            if i > p {
                assert(s[p as int].key() < s[i].key());
            }
        }
        filter_is_prefix(s, below, p as int);
    }
    if p < v.len() && v[p].record_id() == id {
        proof {
            assert forall|i: int| p + 1 <= i < s.len() implies above(#[trigger] s[i]) by {
                assert(s[p as int].key() < s[i].key());
            }
            filter_is_suffix(s, above, p + 1);
        }
        v.set(p, x);
        assert(rows(v@) =~= s.take(p as int).push(x@) + s.skip(p + 1));
    } else {
        proof {
            assert forall|i: int| p <= i < s.len() implies above(#[trigger] s[i]) by {
                if i > p {
                    assert(s[p as int].key() < s[i].key());
                }
            }
            filter_is_suffix(s, above, p as int);
        }
        v.insert(p, x);
        assert(rows(v@) =~= s.take(p as int).push(x@) + s.skip(p as int));
    }
    assert(put(s, x@) == s.filter(below).push(x@) + s.filter(above));
}

/// Drops the rows that `keep` does not pass.
pub(crate) fn retain<T: View>(
    v: &mut Vec<T>,
    keep: impl Fn(&T) -> bool,
    Ghost(pass): Ghost<spec_fn(T::V) -> bool>,
)
    requires
        forall|x: &T| #[trigger] call_requires(keep, (x,)),
        forall|x: &T, b: bool| #[trigger] call_ensures(keep, (x,), b) ==> b == pass(x@),
    ensures
        rows(final(v)@) == rows(old(v)@).filter(pass),
{
    let ghost s = rows(v@);
    let ghost mut seen: int = 0;
    let mut k: usize = 0;
    assert(rows(v@).take(0) =~= Seq::<T::V>::empty());
    assert(s.take(0).filter(pass) =~= Seq::<T::V>::empty()) by {
        reveal(Seq::filter);
    }
    while k < v.len()
        invariant
            forall|x: &T| #[trigger] call_requires(keep, (x,)),
            forall|x: &T, b: bool| #[trigger] call_ensures(keep, (x,), b) ==> b == pass(x@),
            k <= v@.len(),
            0 <= seen <= s.len(),
            v@.len() - k == s.len() - seen,
            rows(v@).take(k as int) == s.take(seen).filter(pass),
            rows(v@).skip(k as int) == s.skip(seen),
        decreases v@.len() - k,
    {
        let ghost cur = rows(v@);
        proof {
            assert(cur[k as int] == cur.skip(k as int)[0]);
            assert(cur[k as int] == s.skip(seen)[0]);
            reveal(Seq::filter);
            assert(s.take(seen + 1).drop_last() =~= s.take(seen));
            assert(s.take(seen + 1).last() == s[seen]);
        }
        if keep(&v[k]) {
            k = k + 1;
            assert(cur.take(k as int) =~= cur.take(k - 1).push(cur[k - 1]));
            assert(cur.skip(k as int) =~= cur.skip(k - 1).drop_first());
        } else {
            v.remove(k);
            assert(rows(v@).take(k as int) =~= cur.take(k as int));
            assert(rows(v@).skip(k as int) =~= cur.skip(k as int).drop_first());
        }
        assert(s.skip(seen + 1) =~= s.skip(seen).drop_first());
        proof {
            seen = seen + 1;
        }
    }
    assert(rows(v@).take(k as int) =~= rows(v@));
    assert(s.take(seen) =~= s);
}

/// The id that the next row without an id of its own gets, unless all are in use.
pub fn fresh_id<T: Record>(v: &Vec<T>) -> (r: Option<i64>) where <T as View>::V: Keyed
    requires
        ids_ascend(rows(v@)),
    ensures
        r == next_id(rows(v@)),
{
    let ghost s = rows(v@);
    if v.len() == 0 {
        proof {
            next_id_is_unused(s, 1);
        }
        return Some(1);
    }
    let last = v[v.len() - 1].record_id();
    assert(last == s.last().key());
    if last < i64::MAX {
        proof {
            next_id_is_unused(s, (last + 1) as i64);
        }
        return Some(last + 1);
    }
    let mut k: usize = v.len();
    let mut id: i64 = i64::MAX;
    while id > 0 && k > 0 && v[k - 1].record_id() == id
        invariant
            s == rows(v@),
            ids_ascend(s),
            s.len() > 0,
            s.last().key() == i64::MAX,
            0 <= k <= v@.len(),
            0 <= id,
            k > 0 ==> s[k - 1].key() <= id,
            forall|i: int| k <= i < s.len() ==> (#[trigger] s[i]).key() > id,
            forall|j: i64| id < j ==> #[trigger] has_id(s, j),
        decreases k,
    {
        assert(s[k - 1].key() == id);
        assert(has_id(s, id));
        assert(k > 1 ==> s[k - 2].key() < s[k - 1].key());
        id = id - 1;
        k = k - 1;
    }
    if id > 0 {
        proof {
            assert(!has_id(s, id)) by {
                if has_id(s, id) {
                    let m = choose|m: int| 0 <= m < s.len() && (#[trigger] s[m]).key() == id;
                    assert(m < k);
                    if m < k - 1 {
                        assert(s[m].key() < s[k - 1].key());
                    }
                }
            }
            next_id_is_unused(s, id);
        }
        Some(id)
    } else {
        proof {
            assert forall|j: i64| !is_next_id(s, j) by {
                if 0 < j {
                    assert(has_id(s, j));
                }
            }
        }
        None
    }
}

} // verus!
