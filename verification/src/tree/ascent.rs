//! What holds of the walk up from a person: it goes step by step, and ends.

use crate::db;
use crate::edges;
use crate::model;
use crate::tables;
use crate::tree;
use vstd::prelude::*;

verus! {

/// Whatever a flat map holds comes from one of its items.
proof fn flat_map_source<A, B>(s: Seq<A>, f: spec_fn(A) -> Seq<B>, x: B)
    requires
        s.flat_map(f).contains(x),
    ensures
        exists|i: int| 0 <= i < s.len() && f(#[trigger] s[i]).contains(x),
    decreases s.len(),
{
    if s.len() == 0 {
        assert(s.flat_map(f) =~= Seq::<B>::empty());
    } else {
        let rest = s.drop_last();
        rest.lemma_flat_map_push(f, s.last());
        assert(rest.push(s.last()) =~= s);
        let all = rest.flat_map(f) + f(s.last());
        let k = choose|k: int| 0 <= k < all.len() && all[k] == x;
        if k < rest.flat_map(f).len() {
            assert(rest.flat_map(f)[k] == x);
            flat_map_source(rest, f, x);
            let i = choose|i: int| 0 <= i < rest.len() && f(#[trigger] rest[i]).contains(x);
            assert(f(s[i]).contains(x));
        } else {
            assert(f(s.last())[k - rest.flat_map(f).len()] == x);
            assert(f(s[s.len() - 1]).contains(x));
        }
    }
}

/// Whoever is `d` steps up is the boss of someone one step nearer.
proof fn level_up_step(t: db::Tables, person: i64, d: nat, p: model::PersonRow)
    requires
        t.wf(),
        d > 0,
        tree::level_up(t, person, d).contains(p),
    ensures
        exists|i: int|
            0 <= i < tree::level_up(t, person, (d - 1) as nat).len() && tree::reports_to(
                t,
                (#[trigger] tree::level_up(t, person, (d - 1) as nat)[i]).id,
                p.id,
            ),
{
    let near = tree::level_up(t, person, (d - 1) as nat);
    let above = |q: model::PersonRow| tree::bosses(t, q.id);
    flat_map_source(near, above, p);
    let i = choose|i: int| 0 <= i < near.len() && above(#[trigger] near[i]).contains(p);
    let q = near[i].id;
    let j = choose|j: int| 0 <= j < tree::bosses(t, q).len() && tree::bosses(t, q)[j] == p;
    let mine = |e: model::EdgeRow| edges::is_line_of(e, q);
    let e = edges::lines_of(t.edges, q)[j];
    tables::filter_keeps(t.edges, mine);
    assert(edges::lines_of(t.edges, q).contains(e));
    assert(t.edges.contains(e));
    let k = choose|k: int| 0 <= k < t.edges.len() && t.edges[k] == e;
    assert(tables::has_id(t.people, t.edges[k].to_id));
    tables::row_found(t.people, e.to_id);
    assert(tree::reports_to(t, near[i].id, p.id));
}

/// Whether a node of a chain is the boss of `person`, at depth one, or of an earlier
/// node one step nearer.
pub open spec fn is_linked(t: db::Tables, person: i64, s: Seq<tree::NodeRow>, i: int) -> bool {
    if s[i].depth == 1 {
        tree::reports_to(t, person, s[i].id)
    } else {
        exists|j: int|
            0 <= j < i && (#[trigger] s[j]).depth == s[i].depth - 1 && tree::reports_to(
                t,
                s[j].id,
                s[i].id,
            )
    }
}

proof fn chain_to_links(t: db::Tables, person: i64, d: nat)
    requires
        t.wf(),
        d <= tree::MAX_DEPTH,
    ensures
        ({
            let s = tree::chain_to(t, person, d);
            &&& forall|i: int| 0 <= i < s.len() ==> 1 <= (#[trigger] s[i]).depth <= d
            &&& forall|i: int| 0 <= i < s.len() ==> #[trigger] is_linked(t, person, s, i)
            &&& forall|i: int, j: int|
                0 <= i < j < s.len() ==> (#[trigger] s[i]).depth <= (#[trigger] s[j]).depth
            &&& d > 0 ==> forall|k: int|
                0 <= k < tree::level_up(t, person, d).len() ==> s.contains(
                    tree::node(#[trigger] tree::level_up(t, person, d)[k], d as i64),
                )
        }),
    decreases d,
{
    if d > 0 {
        chain_to_links(t, person, (d - 1) as nat);
        let low = tree::chain_to(t, person, (d - 1) as nat);
        let here = tree::level_up(t, person, d);
        let near = tree::level_up(t, person, (d - 1) as nat);
        let top = here.map_values(|p: model::PersonRow| tree::node(p, d as i64));
        let s = tree::chain_to(t, person, d);
        assert(s =~= low + top);
        assert forall|i: int| 0 <= i < s.len() implies #[trigger] is_linked(t, person, s, i) by {
            if i < low.len() {
                assert(is_linked(t, person, low, i));
                if s[i].depth != 1 {
                    let j = choose|j: int|
                        0 <= j < i && (#[trigger] low[j]).depth == low[i].depth - 1 && tree::reports_to(
                            t,
                            low[j].id,
                            low[i].id,
                        );
                    assert(s[j] == low[j]);
                }
            } else {
                let p = here[i - low.len()];
                assert(here.contains(p));
                level_up_step(t, person, d, p);
                let k = choose|k: int|
                    0 <= k < near.len() && tree::reports_to(t, (#[trigger] near[k]).id, p.id);
                if d == 1 {
                    assert(near[k].id == person) by {
                        tables::row_found(t.people, person);
                    }
                } else {
                    let m = tree::node(near[k], (d - 1) as i64);
                    assert(low.contains(m));
                    let j = choose|j: int| 0 <= j < low.len() && low[j] == m;
                    assert(s[j] == m);
                }
            }
        }
        assert forall|k: int| 0 <= k < here.len() implies s.contains(
            tree::node(#[trigger] here[k], d as i64),
        ) by {
            assert(s[low.len() + k] == tree::node(here[k], d as i64));
        }
    }
}

/// The chain of command goes up step by step, nearest first: everyone on it is the
/// boss of `person` or of somebody one step nearer, at a depth of 1 to `tree::MAX_DEPTH`.
pub proof fn chain_goes_up_step_by_step(t: db::Tables, person: i64)
    requires
        t.wf(),
    ensures
        ({
            let s = tree::chain(t, person);
            &&& forall|i: int| 0 <= i < s.len() ==> 1 <= (#[trigger] s[i]).depth <= tree::MAX_DEPTH
            &&& forall|i: int| 0 <= i < s.len() ==> #[trigger] is_linked(t, person, s, i)
            &&& forall|i: int, j: int|
                0 <= i < j < s.len() ==> (#[trigger] s[i]).depth <= (#[trigger] s[j]).depth
        }),
{
    chain_to_links(t, person, tree::MAX_DEPTH as nat);
}

/// Whether nobody has more than one reporting line, as is so where every line was
/// set by [`edges::set_boss`] or inferred.
pub open spec fn one_boss_each(t: db::Tables) -> bool {
    forall|id: i64| #[trigger] edges::lines_of(t.edges, id).len() <= 1
}

proof fn chain_to_is_a_line(t: db::Tables, person: i64, d: nat)
    requires
        one_boss_each(t),
        d <= tree::MAX_DEPTH,
    ensures
        tree::level_up(t, person, d).len() <= 1,
        tree::chain_to(t, person, d).len() <= d,
        tree::level_up(t, person, d).len() == 1 ==> tree::chain_to(t, person, d).len() == d,
        forall|i: int|
            0 <= i < tree::chain_to(t, person, d).len() ==> (#[trigger] tree::chain_to(t, person, d)[i]).depth
                == i + 1,
    decreases d,
{
    if d > 0 {
        chain_to_is_a_line(t, person, (d - 1) as nat);
        let near = tree::level_up(t, person, (d - 1) as nat);
        let above = |q: model::PersonRow| tree::bosses(t, q.id);
        if near.len() == 0 {
            assert(near.flat_map(above) =~= Seq::<model::PersonRow>::empty());
        } else {
            near.lemma_flat_map_singleton(above);
            assert(edges::lines_of(t.edges, near[0].id).len() <= 1);
        }
    }
}

/// Where nobody has two bosses, the chain of command is one line: its nodes are at
/// depths 1, 2, 3 and so on, and it ends at `tree::MAX_DEPTH` even in a loop.
pub proof fn chain_is_a_line(t: db::Tables, person: i64)
    requires
        one_boss_each(t),
    ensures
        tree::chain(t, person).len() <= tree::MAX_DEPTH,
        forall|i: int|
            0 <= i < tree::chain(t, person).len() ==> (#[trigger] tree::chain(t, person)[i]).depth == i + 1,
{
    chain_to_is_a_line(t, person, tree::MAX_DEPTH as nat);
}

/// Setting a boss keeps everyone at one boss.
pub proof fn set_boss_keeps_one_boss_each(t: db::Tables, person: i64, boss: i64, ts: Seq<char>)
    requires
        t.wf(),
        one_boss_each(t),
        edges::boss_set(t, person, boss, ts).1 is Ok,
    ensures
        one_boss_each(edges::boss_set(t, person, boss, ts).0),
{
    edges::set_boss_leaves_one_line(t, person, boss, ts);
    let u = edges::boss_set(t, person, boss, ts).0;
    assert forall|id: i64| #[trigger] edges::lines_of(u.edges, id).len() <= 1 by {
        if id != person {
            assert(edges::lines_of(u.edges, id) == edges::lines_of(t.edges, id));
            assert(edges::lines_of(t.edges, id).len() <= 1);
        }
    }
}

/// Only someone who reports to nobody has an empty chain of command.
pub proof fn empty_chain_means_root(t: db::Tables, person: i64)
    requires
        t.wf(),
        tables::has_id(t.people, person),
    ensures
        tree::chain(t, person).len() == 0 <==> edges::lines_of(t.edges, person).len() == 0,
{
    let me = tables::row(t.people, person)->0;
    tables::row_found(t.people, person);
    let above = |q: model::PersonRow| tree::bosses(t, q.id);
    let start = seq![me];
    assert(tree::level_up(t, person, 0) == start);
    start.lemma_flat_map_singleton(above);
    assert(tree::level_up(t, person, 1) == tree::bosses(t, person)) by {
        reveal_with_fuel(tree::level_up, 2);
    }
    if edges::lines_of(t.edges, person).len() == 0 {
        no_level_above_none(t, person, tree::MAX_DEPTH as nat);
    } else {
        chain_to_grows(t, person, 1, tree::MAX_DEPTH as nat);
        assert(tree::chain_to(t, person, 1).len() > 0) by {
            reveal_with_fuel(tree::chain_to, 2);
        }
    }
}

proof fn chain_to_grows(t: db::Tables, person: i64, d: nat, e: nat)
    requires
        d <= e,
    ensures
        tree::chain_to(t, person, d).len() <= tree::chain_to(t, person, e).len(),
    decreases e,
{
    if d < e {
        chain_to_grows(t, person, d, (e - 1) as nat);
    }
}

proof fn no_level_above_none(t: db::Tables, person: i64, d: nat)
    requires
        tree::level_up(t, person, 1).len() == 0,
    ensures
        d > 0 ==> tree::level_up(t, person, d).len() == 0,
        tree::chain_to(t, person, d).len() == 0,
    decreases d,
{
    if d > 0 {
        no_level_above_none(t, person, (d - 1) as nat);
        if d > 1 {
            let above = |q: model::PersonRow| tree::bosses(t, q.id);
            let near = tree::level_up(t, person, (d - 1) as nat);
            assert(near.flat_map(above) =~= Seq::<model::PersonRow>::empty());
        }
    }
}

} // verus!
