//! What the laws need of sequences in general.

use crate::tables;
use vstd::prelude::*;

verus! {

/// Filtering keeps two items that pass in the order they have.
pub(crate) proof fn kept_order<V>(s: Seq<V>, pass: spec_fn(V) -> bool, i: int, j: int)
    requires
        0 <= i < j < s.len(),
        pass(s[i]),
        pass(s[j]),
    ensures
        exists|m: int, n: int|
            0 <= m < n < s.filter(pass).len() && #[trigger] s.filter(pass)[m] == s[i]
                && #[trigger] s.filter(pass)[n] == s[j],
    decreases s.len(),
{
    reveal(Seq::filter);
    let rest = s.drop_last();
    let f = s.filter(pass);
    let g = rest.filter(pass);
    if j < s.len() - 1 {
        kept_order(rest, pass, i, j);
        let (m, n) = choose|m: int, n: int|
            0 <= m < n < g.len() && #[trigger] g[m] == rest[i] && #[trigger] g[n] == rest[j];
        assert(f[m] == s[i] && f[n] == s[j]);
    } else {
        tables::filter_holds(rest, pass);
        assert(rest[i] == s[i]);
        assert(g.contains(s[i]));
        let m = choose|m: int| 0 <= m < g.len() && g[m] == s[i];
        assert(f[m] == s[i]);
        assert(f[f.len() - 1] == s[j]);
    }
}

/// Two items that filtering keeps stood in that order before.
pub(crate) proof fn kept_were_in_order<V>(s: Seq<V>, pass: spec_fn(V) -> bool, m: int, n: int)
    requires
        0 <= m < n < s.filter(pass).len(),
    ensures
        exists|i: int, j: int|
            0 <= i < j < s.len() && #[trigger] s[i] == s.filter(pass)[m] && #[trigger] s[j]
                == s.filter(pass)[n],
    decreases s.len(),
{
    reveal(Seq::filter);
    let rest = s.drop_last();
    let f = s.filter(pass);
    let g = rest.filter(pass);
    if n < g.len() {
        kept_were_in_order(rest, pass, m, n);
        let (i, j) = choose|i: int, j: int|
            0 <= i < j < rest.len() && #[trigger] rest[i] == g[m] && #[trigger] rest[j] == g[n];
        assert(s[i] == f[m] && s[j] == f[n]);
    } else {
        tables::filter_holds(rest, pass);
        assert(g.contains(g[m]));
        let i = choose|i: int| 0 <= i < rest.len() && rest[i] == g[m];
        assert(s[i] == f[m]);
        assert(s[s.len() - 1] == f[n]);
    }
}

/// Two tests that agree on every item keep the same items.
pub(crate) proof fn filter_alike<V>(s: Seq<V>, p: spec_fn(V) -> bool, q: spec_fn(V) -> bool)
    requires
        forall|x: V| #[trigger] s.contains(x) ==> p(x) == q(x),
    ensures
        s.filter(p) == s.filter(q),
    decreases s.len(),
{
    reveal(Seq::filter);
    if s.len() > 0 {
        let rest = s.drop_last();
        assert(s.contains(s[s.len() - 1]));
        assert forall|x: V| #[trigger] rest.contains(x) implies p(x) == q(x) by {
            let i = choose|i: int| 0 <= i < rest.len() && rest[i] == x;
            assert(s[i] == x);
            assert(s.contains(x));
        }
        filter_alike(rest, p, q);
    }
}

/// Filtering what a map gives is mapping what passes.
pub(crate) proof fn filter_of_map<V, W>(
    s: Seq<V>,
    p: spec_fn(V) -> bool,
    f: spec_fn(V) -> W,
    q: spec_fn(W) -> bool,
)
    ensures
        s.filter(p).map_values(f).filter(q) == s.filter(|x: V| p(x) && q(f(x))).map_values(f),
    decreases s.len(),
{
    reveal(Seq::filter);
    let both = |x: V| p(x) && q(f(x));
    if s.len() > 0 {
        let rest = s.drop_last();
        let x = s.last();
        filter_of_map(rest, p, f, q);
        if p(x) {
            let m = s.filter(p).map_values(f);
            assert(m.drop_last() =~= rest.filter(p).map_values(f));
            assert(m.last() == f(x));
            assert(m.filter(q) == if q(f(x)) {
                m.drop_last().filter(q).push(f(x))
            } else {
                m.drop_last().filter(q)
            });
        }
        assert(s.filter(both) == if both(x) {
            rest.filter(both).push(x)
        } else {
            rest.filter(both)
        });
        assert(s.filter(p).map_values(f).filter(q) =~= s.filter(both).map_values(f));
    } else {
        assert(s.filter(p).map_values(f).filter(q) =~= s.filter(both).map_values(f));
    }
}

/// What stands for all items is what stands for those before one, for it, and for those
/// after it.
pub(crate) proof fn flat_map_splits<V, W>(s: Seq<V>, f: spec_fn(V) -> Seq<W>, i: int)
    requires
        0 <= i < s.len(),
    ensures
        s.flat_map(f) == s.take(i).flat_map(f) + f(s[i]) + s.skip(i + 1).flat_map(f),
    decreases s.len(),
{
    let rest = s.drop_last();
    rest.lemma_flat_map_push(f, s.last());
    assert(rest.push(s.last()) =~= s);
    if i == s.len() - 1 {
        assert(s.take(i) =~= rest);
        assert(s.skip(i + 1).map_values(f) =~= Seq::<Seq<W>>::empty());
        assert(s.skip(i + 1).flat_map(f) =~= Seq::<W>::empty());
        assert(s.flat_map(f) =~= s.take(i).flat_map(f) + f(s[i]) + s.skip(i + 1).flat_map(f));
    } else {
        flat_map_splits(rest, f, i);
        assert(rest.take(i) =~= s.take(i));
        rest.skip(i + 1).lemma_flat_map_push(f, s.last());
        assert(rest.skip(i + 1).push(s.last()) =~= s.skip(i + 1));
        assert(s.flat_map(f) =~= s.take(i).flat_map(f) + f(s[i]) + s.skip(i + 1).flat_map(f));
    }
}

/// What stands for two lists together is what stands for each, one after the other.
pub(crate) proof fn flat_map_of_both<V, W>(a: Seq<V>, b: Seq<V>, f: spec_fn(V) -> Seq<W>)
    ensures
        (a + b).flat_map(f) == a.flat_map(f) + b.flat_map(f),
    decreases b.len(),
{
    if b.len() == 0 {
        assert(a + b =~= a);
        flat_map_of_none(b, f);
        assert(a.flat_map(f) + b.flat_map(f) =~= a.flat_map(f));
    } else {
        let rest = b.drop_last();
        flat_map_of_both(a, rest, f);
        (a + rest).lemma_flat_map_push(f, b.last());
        rest.lemma_flat_map_push(f, b.last());
        assert((a + rest).push(b.last()) =~= a + b);
        assert(rest.push(b.last()) =~= b);
        assert((a + b).flat_map(f) =~= a.flat_map(f) + b.flat_map(f));
    }
}

/// Nothing stands for no items.
pub(crate) proof fn flat_map_of_none<V, W>(s: Seq<V>, f: spec_fn(V) -> Seq<W>)
    requires
        s.len() == 0,
    ensures
        s.flat_map(f) == Seq::<W>::empty(),
{
    assert(s.map_values(f) =~= Seq::<Seq<W>>::empty());
    assert(s.flat_map(f) =~= Seq::<W>::empty());
}

/// A test that nothing fails keeps everything.
pub(crate) proof fn filter_of_all<V>(s: Seq<V>, pass: spec_fn(V) -> bool)
    requires
        forall|i: int| 0 <= i < s.len() ==> pass(#[trigger] s[i]),
    ensures
        s.filter(pass) == s,
{
    tables::filter_is_prefix(s, pass, s.len() as int);
    assert(s.take(s.len() as int) =~= s);
}

/// A test that everything fails keeps nothing.
pub(crate) proof fn filter_of_none<V>(s: Seq<V>, pass: spec_fn(V) -> bool)
    requires
        forall|i: int| 0 <= i < s.len() ==> !pass(#[trigger] s[i]),
    ensures
        s.filter(pass).len() == 0,
{
    tables::filter_is_prefix(s, pass, 0);
}

} // verus!
