//! Putting things in order, and the order itself: most senior first, then by name.

use crate::seniority::{self, Rank};
use crate::tables;
use crate::text::{self, le_text};
use vstd::prelude::*;

verus! {

/// `s` with `x` put in behind the last item that may stand before it.
pub open spec fn inserted<V>(s: Seq<V>, x: V, le: spec_fn(V, V) -> bool) -> Seq<V>
    decreases s.len(),
{
    if s.len() == 0 || le(s.last(), x) {
        s.push(x)
    } else {
        inserted(s.drop_last(), x, le).push(s.last())
    }
}

/// `s` put in order, items that compare equal in the order they had.
pub open spec fn in_order<V>(s: Seq<V>, le: spec_fn(V, V) -> bool) -> Seq<V>
    decreases s.len(),
{
    if s.len() == 0 {
        s
    } else {
        inserted(in_order(s.drop_last(), le), s.last(), le)
    }
}

/// Whether every item of `s` may stand before every later one.
pub open spec fn ordered<V>(s: Seq<V>, le: spec_fn(V, V) -> bool) -> bool {
    forall|i: int, j: int| 0 <= i < j < s.len() ==> le(#[trigger] s[i], #[trigger] s[j])
}

/// Whether `le` compares any two items and is transitive.
pub open spec fn is_preorder<V>(le: spec_fn(V, V) -> bool) -> bool {
    &&& forall|a: V, b: V| #[trigger] le(a, b) || le(b, a)
    &&& forall|a: V, b: V, c: V| #[trigger] le(a, b) && #[trigger] le(b, c) ==> le(a, c)
}

/// The items of `s` that compare equal to `x`, in the order they have.
pub open spec fn peers<V>(s: Seq<V>, x: V, le: spec_fn(V, V) -> bool) -> Seq<V> {
    s.filter(|y: V| le(x, y) && le(y, x))
}

proof fn inserted_facts<V>(s: Seq<V>, x: V, le: spec_fn(V, V) -> bool)
    requires
        is_preorder(le),
        ordered(s, le),
    ensures
        ordered(inserted(s, x, le), le),
        inserted(s, x, le).to_multiset() =~= s.to_multiset().insert(x),
        inserted(s, x, le).len() == s.len() + 1,
        forall|z: V| #[trigger] inserted(s, x, le).contains(z) <==> s.contains(z) || z == x,
    decreases s.len(),
{
    broadcast use vstd::seq_lib::group_to_multiset_ensures;

    if s.len() == 0 || le(s.last(), x) {
        let t = s.push(x);
        assert forall|i: int, j: int| 0 <= i < j < t.len() implies le(
            #[trigger] t[i],
            #[trigger] t[j],
        ) by {
            if j == t.len() - 1 && i < s.len() - 1 {
                assert(le(s[i], s[s.len() - 1]));
                assert(le(s[i], s.last()) && le(s.last(), x));
            }
        }
        assert(t[t.len() - 1] == x);
        assert forall|z: V| #[trigger] t.contains(z) <==> s.contains(z) || z == x by {
            if s.contains(z) {
                let k = choose|k: int| 0 <= k < s.len() && s[k] == z;
                assert(t[k] == z);
            }
        }
    } else {
        let r = s.drop_last();
        inserted_facts(r, x, le);
        let u = inserted(r, x, le);
        let t = u.push(s.last());
        assert forall|i: int, j: int| 0 <= i < j < t.len() implies le(
            #[trigger] t[i],
            #[trigger] t[j],
        ) by {
            if j == t.len() - 1 {
                assert(u.contains(u[i]));
                if r.contains(u[i]) {
                    let k = choose|k: int| 0 <= k < r.len() && r[k] == u[i];
                    assert(le(s[k], s[s.len() - 1]));
                } else {
                    assert(u[i] == x);
                    assert(le(s.last(), x) || le(x, s.last()));
                }
            } else {
                assert(t[i] == u[i] && t[j] == u[j]);
            }
        }
        assert(s =~= r.push(s.last()));
        assert forall|z: V| #[trigger] t.contains(z) <==> s.contains(z) || z == x by {
            if t.contains(z) {
                let k = choose|k: int| 0 <= k < t.len() && t[k] == z;
                if k < u.len() {
                    assert(u.contains(u[k]));
                    if r.contains(z) {
                        let m = choose|m: int| 0 <= m < r.len() && r[m] == z;
                        assert(s[m] == z);
                    }
                } else {
                    assert(s[s.len() - 1] == z);
                }
            }
            if s.contains(z) || z == x {
                if s.contains(z) && !r.contains(z) {
                    let k = choose|k: int| 0 <= k < s.len() && s[k] == z;
                    if k < s.len() - 1 {
                        assert(r[k] == z);
                    }
                    assert(z == s.last());
                    assert(t[t.len() - 1] == z);
                } else {
                    assert(u.contains(z));
                    let k = choose|k: int| 0 <= k < u.len() && u[k] == z;
                    assert(t[k] == z);
                }
            }
        }
    }
}

proof fn inserted_peers<V>(s: Seq<V>, x: V, w: V, le: spec_fn(V, V) -> bool)
    requires
        is_preorder(le),
        ordered(s, le),
    ensures
        peers(inserted(s, x, le), w, le) == peers(s.push(x), w, le),
    decreases s.len(),
{
    let alike = |y: V| le(w, y) && le(y, w);
    reveal(Seq::filter);
    if s.len() == 0 || le(s.last(), x) {
    } else {
        let r = s.drop_last();
        let l = s.last();
        assert(ordered(r, le));
        inserted_peers(r, x, w, le);
        let u = inserted(r, x, le);
        assert(u.push(l).drop_last() =~= u);
        assert(s.push(x).drop_last() =~= s);
        assert(r.push(x).drop_last() =~= r);
        // `l` and `x` differ in order, so at most one of them compares equal to `w`.
        assert(!(alike(l) && alike(x))) by {
            if alike(l) && alike(x) {
                assert(le(l, w) && le(w, x));
            }
        }
        assert(peers(u.push(l), w, le) == if alike(l) {
            peers(u, w, le).push(l)
        } else {
            peers(u, w, le)
        });
        assert(peers(r.push(x), w, le) == if alike(x) {
            peers(r, w, le).push(x)
        } else {
            peers(r, w, le)
        });
        assert(peers(s, w, le) == if alike(l) {
            peers(r, w, le).push(l)
        } else {
            peers(r, w, le)
        });
        assert(peers(s.push(x), w, le) == if alike(x) {
            peers(s, w, le).push(x)
        } else {
            peers(s, w, le)
        });
    }
}

/// `in_order` gives an ordered sequence of the same items.
pub proof fn in_order_sorts<V>(s: Seq<V>, le: spec_fn(V, V) -> bool)
    requires
        is_preorder(le),
    ensures
        ordered(in_order(s, le), le),
        in_order(s, le).to_multiset() =~= s.to_multiset(),
        in_order(s, le).len() == s.len(),
        forall|z: V| #[trigger] in_order(s, le).contains(z) <==> s.contains(z),
    decreases s.len(),
{
    broadcast use vstd::seq_lib::group_to_multiset_ensures;

    if s.len() > 0 {
        let r = s.drop_last();
        in_order_sorts(r, le);
        inserted_facts(in_order(r, le), s.last(), le);
        assert(s =~= r.push(s.last()));
        assert forall|z: V| #[trigger] in_order(s, le).contains(z) <==> s.contains(z) by {
            if s.contains(z) {
                let k = choose|k: int| 0 <= k < s.len() && s[k] == z;
                if k < r.len() {
                    assert(r[k] == z);
                }
            }
            if in_order(s, le).contains(z) {
                if z == s.last() {
                    assert(s[s.len() - 1] == z);
                } else {
                    assert(r.contains(z));
                    let k = choose|k: int| 0 <= k < r.len() && r[k] == z;
                    assert(s[k] == z);
                }
            }
        }
    }
}

/// `in_order` is stable: items that compare equal keep the order they had.
pub proof fn in_order_is_stable<V>(s: Seq<V>, x: V, le: spec_fn(V, V) -> bool)
    requires
        is_preorder(le),
    ensures
        peers(in_order(s, le), x, le) == peers(s, x, le),
    decreases s.len(),
{
    if s.len() > 0 {
        let r = s.drop_last();
        in_order_sorts(r, le);
        in_order_is_stable(r, x, le);
        inserted_peers(in_order(r, le), s.last(), x, le);
        reveal(Seq::filter);
        assert(in_order(r, le).push(s.last()).drop_last() =~= in_order(r, le));
        assert(s =~= r.push(s.last()));
    }
}

proof fn inserted_at<V>(s: Seq<V>, x: V, p: int, le: spec_fn(V, V) -> bool)
    requires
        0 <= p <= s.len(),
        p > 0 ==> le(s[p - 1], x),
        forall|i: int| p <= i < s.len() ==> !le(#[trigger] s[i], x),
    ensures
        inserted(s, x, le) == s.insert(p, x),
    decreases s.len(),
{
    if p == s.len() {
        assert(s.insert(p, x) =~= s.push(x));
    } else {
        inserted_at(s.drop_last(), x, p, le);
        assert(s.insert(p, x) =~= s.drop_last().insert(p, x).push(s.last()));
    }
}

/// Things that have a place in an order, which their views decide.
pub trait Ranked: Sized + View {
    spec fn before(a: Self::V, b: Self::V) -> bool;

    /// Whether `self` may stand before `other`.
    fn may_precede(&self, other: &Self) -> (r: bool)
        ensures
            r == Self::before(self@, other@),
    ;
}

/// Puts `v` in order, items that compare equal in the order they had.
pub fn sort<T: Ranked>(v: &mut Vec<T>)
    ensures
        tables::rows(final(v)@) == in_order(
            tables::rows(old(v)@),
            |a: T::V, b: T::V| T::before(a, b),
        ),
{
    let ghost le = |a: T::V, b: T::V| T::before(a, b);
    let ghost s = tables::rows(v@);
    let n: usize = v.len();
    let mut k: usize = 0;
    assert(s.take(0) =~= Seq::<T::V>::empty());
    assert(tables::rows(v@).take(0) =~= Seq::<T::V>::empty());
    while k < n
        invariant
            k <= n == v@.len(),
            s.len() == n,
            le == (|a: T::V, b: T::V| T::before(a, b)),
            tables::rows(v@).take(k as int) == in_order(s.take(k as int), le),
            tables::rows(v@).skip(k as int) == s.skip(k as int),
        decreases n - k,
    {
        let ghost cur = tables::rows(v@);
        let ghost head = cur.take(k as int);
        let ghost x = cur[k as int];
        assert(x == cur.skip(k as int)[0]);
        assert(x == s[k as int]);
        let mut p: usize = k;
        while p > 0 && !v[p - 1].may_precede(&v[k])
            invariant
                p <= k < n == v@.len(),
                cur == tables::rows(v@),
                head == cur.take(k as int),
                x == cur[k as int],
                le == (|a: T::V, b: T::V| T::before(a, b)),
                forall|i: int| p <= i < k ==> !le(#[trigger] head[i], x),
            decreases p,
        {
            p = p - 1;
        }
        proof {
            inserted_at(head, x, p as int, le);
            assert(s.take(k + 1).drop_last() =~= s.take(k as int));
            assert(s.take(k + 1).last() == x);
        }
        if p < k {
            let item = v.remove(k);
            v.insert(p, item);
        }
        assert(tables::rows(v@).take(k + 1) =~= head.insert(p as int, x));
        assert(tables::rows(v@).skip(k + 1) =~= s.skip(k + 1)) by {
            assert forall|i: int| k + 1 <= i < n implies tables::rows(v@)[i] == s[i] by {
                assert(cur.skip(k as int)[i - k] == s.skip(k as int)[i - k]);
            }
        }
        k = k + 1;
    }
    assert(tables::rows(v@).take(n as int) =~= tables::rows(v@));
    assert(s.take(n as int) =~= s);
}

/// How far up the ladder a title is known to be; an unknown title is at the bottom.
pub open spec fn height(title: Option<Seq<char>>) -> int {
    match seniority::opt_title_rank(title) {
        Some(r) => r.rung() + 1,
        None => 0,
    }
}

/// The order of siblings: higher rank first, unknown titles last, then by name.
pub open spec fn senior_first(
    title_a: Option<Seq<char>>,
    name_a: Seq<char>,
    title_b: Option<Seq<char>>,
    name_b: Seq<char>,
) -> bool {
    if height(title_a) != height(title_b) {
        height(title_a) > height(title_b)
    } else {
        text::text_le(name_a, name_b)
    }
}

/// What siblings are ordered by: seniority descending, unknowns last, then name.
#[derive(Debug, PartialEq)]
pub struct SiblingKey {
    pub rank: Option<Rank>,
    pub name: String,
}

impl SiblingKey {
    /// Whether the owner of this key may stand before the owner of `other`.
    pub open spec fn first(self, other: SiblingKey) -> bool {
        if self.rank == other.rank {
            text::text_le(self.name@, other.name@)
        } else {
            match (self.rank, other.rank) {
                (Some(a), Some(b)) => a.rung() > b.rung(),
                (a, _) => a is Some,
            }
        }
    }

    /// Whether the owner of this key may stand before the owner of `other`.
    pub fn may_precede(&self, other: &SiblingKey) -> (r: bool)
        ensures
            r == self.first(*other),
    {
        let a: u8 = match self.rank {
            Some(x) => x.level() + 1,
            None => 0,
        };
        let b: u8 = match other.rank {
            Some(x) => x.level() + 1,
            None => 0,
        };
        proof {
            if let (Some(x), Some(y)) = (self.rank, other.rank) {
                seniority::rung_tells_ranks_apart(x, y);
            }
        }
        if a != b {
            a > b
        } else {
            le_text(self.name.as_str(), other.name.as_str())
        }
    }
}

} // verus!
