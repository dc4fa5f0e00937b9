//! What holds of the walk down from a person: it meets everyone under them once, and
//! reads as a tree.

use crate::db;
use crate::edges;
use crate::order::Ranked;
use crate::tables;
use crate::tree;
use vstd::prelude::*;

verus! {

/// Whether someone is met on a walk.
pub open spec fn meets(s: Seq<tree::NodeRow>, id: i64) -> bool {
    exists|i: int| 0 <= i < s.len() && (#[trigger] s[i]).id == id
}

proof fn walk_meets_new(t: db::Tables, person: i64, agenda: Seq<tree::NodeRow>, visited: Set<i64>)
    requires
        t.wf(),
        forall|i: int| 0 <= i < agenda.len() ==> tree::realm(t, person).contains((#[trigger] agenda[i]).id),
    ensures
        forall|i: int|
            0 <= i < tree::walk(t, person, agenda, visited).len() ==> {
                let n = #[trigger] tree::walk(t, person, agenda, visited)[i];
                !visited.contains(n.id) && tree::realm(t, person).contains(n.id) && tables::has_id(
                    t.people,
                    n.id,
                )
            },
        forall|i: int, j: int|
            0 <= i < j < tree::walk(t, person, agenda, visited).len() ==> (#[trigger] tree::walk(
                t,
                person,
                agenda,
                visited,
            )[i]).id != (#[trigger] tree::walk(t, person, agenda, visited)[j]).id,
    decreases tree::all_ids(t).difference(visited).len(), agenda.len(),
{
    if agenda.len() > 0 {
        let n = agenda[0];
        let rest = agenda.drop_first();
        assert(forall|i: int| 0 <= i < rest.len() ==> rest[i] == agenda[i + 1]);
        assert forall|i: int| 0 <= i < rest.len() implies tree::realm(t, person).contains(
            (#[trigger] rest[i]).id,
        ) by {
            assert(rest[i] == agenda[i + 1]);
        }
        if visited.contains(n.id) || !tables::has_id(t.people, n.id) {
            walk_meets_new(t, person, rest, visited);
        } else {
            tree::fewer_left(t, visited, n.id);
            let depth = (n.depth + 1) as i64;
            let under = tree::kids(t, person, n.id, depth);
            let next = under + rest;
            tree::kids_facts(t, person, n.id, depth);
            assert forall|i: int| 0 <= i < next.len() implies tree::realm(t, person).contains(
                (#[trigger] next[i]).id,
            ) by {
                if i < under.len() {
                    assert(under.contains(under[i]));
                } else {
                    assert(next[i] == rest[i - under.len()]);
                }
            }
            walk_meets_new(t, person, next, visited.insert(n.id));
            let tail = tree::walk(t, person, next, visited.insert(n.id));
            let out = tree::walk(t, person, agenda, visited);
            assert(out == seq![n] + tail);
            assert(forall|i: int| 1 <= i < out.len() ==> out[i] == tail[i - 1]);
        }
    }
}

proof fn walk_is_closed(t: db::Tables, person: i64, agenda: Seq<tree::NodeRow>, visited: Set<i64>)
    requires
        t.wf(),
        forall|i: int|
            0 <= i < agenda.len() ==> tables::has_id(t.people, (#[trigger] agenda[i]).id),
        forall|k: int|
            0 <= k < t.edges.len() && edges::is_line(#[trigger] t.edges[k]) && visited.contains(
                t.edges[k].to_id,
            ) && tree::realm(t, person).contains(t.edges[k].from_id) ==> visited.contains(
                t.edges[k].from_id,
            ) || meets(agenda, t.edges[k].from_id),
    ensures
        ({
            let out = tree::walk(t, person, agenda, visited);
            &&& forall|id: i64| #[trigger] meets(agenda, id) ==> visited.contains(id) || meets(out, id)
            &&& forall|k: int|
                0 <= k < t.edges.len() && edges::is_line(#[trigger] t.edges[k]) && (
                visited.contains(t.edges[k].to_id) || meets(out, t.edges[k].to_id)) && tree::realm(
                    t,
                    person,
                ).contains(t.edges[k].from_id) ==> visited.contains(t.edges[k].from_id) || meets(
                    out,
                    t.edges[k].from_id,
                )
        }),
    decreases tree::all_ids(t).difference(visited).len(), agenda.len(),
{
    let out = tree::walk(t, person, agenda, visited);
    if agenda.len() > 0 {
        let n = agenda[0];
        let rest = agenda.drop_first();
        assert forall|i: int| 0 <= i < rest.len() implies tables::has_id(
            t.people,
            (#[trigger] rest[i]).id,
        ) by {
            assert(rest[i] == agenda[i + 1]);
        }
        assert forall|id: i64| #[trigger] meets(agenda, id) implies id == n.id || meets(rest, id) by {
            let i = choose|i: int| 0 <= i < agenda.len() && (#[trigger] agenda[i]).id == id;
            if i > 0 {
                assert(rest[i - 1].id == id);
            }
        }
        assert(tables::has_id(t.people, agenda[0].id));
        if visited.contains(n.id) {
            walk_is_closed(t, person, rest, visited);
        } else {
            tree::fewer_left(t, visited, n.id);
            let depth = (n.depth + 1) as i64;
            let under = tree::kids(t, person, n.id, depth);
            let next = under + rest;
            let seen = visited.insert(n.id);
            tree::kids_facts(t, person, n.id, depth);
            assert forall|i: int| 0 <= i < next.len() implies tables::has_id(
                t.people,
                (#[trigger] next[i]).id,
            ) by {
                if i < under.len() {
                    assert(under.contains(under[i]));
                } else {
                    assert(next[i] == rest[i - under.len()]);
                }
            }
            assert forall|id: i64| #[trigger] meets(rest, id) implies meets(next, id) by {
                let i = choose|i: int| 0 <= i < rest.len() && (#[trigger] rest[i]).id == id;
                assert(next[under.len() + i].id == id);
            }
            assert forall|k: int|
                0 <= k < t.edges.len() && edges::is_line(#[trigger] t.edges[k]) && seen.contains(
                    t.edges[k].to_id,
                ) && tree::realm(t, person).contains(t.edges[k].from_id) implies seen.contains(
                t.edges[k].from_id,
            ) || meets(next, t.edges[k].from_id) by {
                if t.edges[k].to_id == n.id {
                    tree::report_listed(t, n.id, depth, k);
                    let m = choose|m: tree::NodeRow| #[trigger]
                        tree::reports(t, n.id, depth).contains(m) && m.id == t.edges[k].from_id;
                    assert(under.contains(m));
                    let i = choose|i: int| 0 <= i < under.len() && under[i] == m;
                    assert(next[i].id == t.edges[k].from_id);
                } else {
                    assert(visited.contains(t.edges[k].from_id) || meets(
                        agenda,
                        t.edges[k].from_id,
                    ));
                }
            }
            walk_is_closed(t, person, next, seen);
            let tail = tree::walk(t, person, next, seen);
            assert(out == seq![n] + tail);
            assert(out[0] == n);
            assert(meets(out, n.id));
            assert forall|id: i64| #[trigger] meets(tail, id) implies meets(out, id) by {
                let i = choose|i: int| 0 <= i < tail.len() && (#[trigger] tail[i]).id == id;
                assert(out[i + 1].id == id);
            }
            assert forall|id: i64| #[trigger] meets(out, id) implies id == n.id || meets(tail, id) by {
                let i = choose|i: int| 0 <= i < out.len() && (#[trigger] out[i]).id == id;
                if i > 0 {
                    assert(tail[i - 1].id == id);
                }
            }
            assert forall|id: i64| #[trigger] meets(agenda, id) implies visited.contains(id) || meets(
                out,
                id,
            ) by {
                if id != n.id {
                    assert(meets(rest, id));
                    assert(meets(next, id));
                }
            }
        }
    }
}

/// A walk of fewer steps stays within one of more.
proof fn within_grows(t: db::Tables, person: i64, d: nat, e: nat)
    requires
        d <= e,
    ensures
        tree::within(t, person, d).subset_of(tree::within(t, person, e)),
    decreases e,
{
    if d < e {
        within_grows(t, person, d, (e - 1) as nat);
    }
}

/// The subtree meets everyone under `person` exactly once, and nobody else: not
/// `person`, and nobody twice, even where reporting lines form a loop.
pub proof fn subtree_meets_everyone_once(t: db::Tables, person: i64)
    requires
        t.wf(),
    ensures
        forall|id: i64| #[trigger]
            meets(tree::subtree_nodes(t, person), id) <==> tree::realm(t, person).contains(id) && id != person,
        forall|i: int, j: int|
            0 <= i < j < tree::subtree_nodes(t, person).len() ==> (#[trigger] tree::subtree_nodes(
                t,
                person,
            )[i]).id != (#[trigger] tree::subtree_nodes(t, person)[j]).id,
{
    let first = tree::kids(t, person, person, 1);
    let start = set![person];
    let out = tree::subtree_nodes(t, person);
    tree::kids_facts(t, person, person, 1);
    assert forall|i: int| 0 <= i < first.len() implies tree::realm(t, person).contains(
        (#[trigger] first[i]).id,
    ) && tables::has_id(t.people, first[i].id) by {
        assert(first.contains(first[i]));
    }
    walk_meets_new(t, person, first, start);
    assert forall|k: int|
        0 <= k < t.edges.len() && edges::is_line(#[trigger] t.edges[k]) && start.contains(
            t.edges[k].to_id,
        ) && tree::realm(t, person).contains(t.edges[k].from_id) implies start.contains(
        t.edges[k].from_id,
    ) || meets(first, t.edges[k].from_id) by {
        tree::report_listed(t, person, 1, k);
        let m = choose|m: tree::NodeRow| #[trigger]
            tree::reports(t, person, 1).contains(m) && m.id == t.edges[k].from_id;
        assert(first.contains(m));
        let i = choose|i: int| 0 <= i < first.len() && first[i] == m;
        assert(first[i].id == t.edges[k].from_id);
    }
    walk_is_closed(t, person, first, start);
    assert forall|id: i64| #[trigger] meets(out, id) <==> tree::realm(t, person).contains(id) && id
        != person by {
        if meets(out, id) {
            let i = choose|i: int| 0 <= i < out.len() && (#[trigger] out[i]).id == id;
            assert(!start.contains(out[i].id));
        }
        if tree::realm(t, person).contains(id) && id != person {
            closed_holds_realm(t, person, out, tree::MAX_DEPTH as nat, id);
        }
    }
}

/// A set of people that holds `person` and, with everyone, their reports, holds
/// everyone under `person`.
proof fn closed_holds_realm(t: db::Tables, person: i64, out: Seq<tree::NodeRow>, d: nat, id: i64)
    requires
        d <= tree::MAX_DEPTH,
        tree::within(t, person, d).contains(id),
        forall|k: int|
            0 <= k < t.edges.len() && edges::is_line(#[trigger] t.edges[k]) && (set![
                person,
            ].contains(t.edges[k].to_id) || meets(out, t.edges[k].to_id)) && tree::realm(
                t,
                person,
            ).contains(t.edges[k].from_id) ==> set![person].contains(t.edges[k].from_id) || meets(
                out,
                t.edges[k].from_id,
            ),
    ensures
        id == person || meets(out, id),
    decreases d,
{
    if d > 0 {
        let near = tree::within(t, person, (d - 1) as nat);
        if near.contains(id) {
            closed_holds_realm(t, person, out, (d - 1) as nat, id);
        } else {
            let k = choose|k: int|
                0 <= k < t.edges.len() && edges::is_line(#[trigger] t.edges[k])
                    && t.edges[k].from_id == id && near.contains(t.edges[k].to_id);
            closed_holds_realm(t, person, out, (d - 1) as nat, t.edges[k].to_id);
            within_grows(t, person, d, tree::MAX_DEPTH as nat);
        }
    }
}

/// Whether everyone from position `j + 1` up to `i` is at depth `d` or below.
pub open spec fn below(s: Seq<tree::NodeRow>, j: int, i: int, d: int) -> bool {
    forall|k: int| j < k < i ==> (#[trigger] s[k]).depth >= d
}

/// Whether position `j` holds the parent of a node that stands at position `i`: one
/// level up, with a line between the two, and nobody in between who is not below.
pub open spec fn is_parent_at(t: db::Tables, s: Seq<tree::NodeRow>, j: int, i: int, n: tree::NodeRow) -> bool {
    &&& 0 <= j < i <= s.len()
    &&& s[j].depth == n.depth - 1
    &&& tree::reports_to(t, n.id, s[j].id)
    &&& below(s, j, i, n.depth as int)
}

/// Whether a node at position `i` stands under its parent: under `person` at depth
/// one, and under the last node before it that is one level up otherwise.
pub open spec fn is_placed(
    t: db::Tables,
    person: i64,
    s: Seq<tree::NodeRow>,
    i: int,
    n: tree::NodeRow,
) -> bool {
    &&& 1 <= n.depth
    &&& n.depth == 1 ==> tree::reports_to(t, n.id, person)
    &&& n.depth > 1 ==> exists|j: int| #[trigger] is_parent_at(t, s, j, i, n)
}

/// Whether indenting each node by its depth reads as a tree: everyone stands under
/// their parent, and siblings stand most senior first.
pub open spec fn is_outline(t: db::Tables, person: i64, s: Seq<tree::NodeRow>) -> bool {
    &&& forall|i: int| 0 <= i < s.len() ==> is_placed(t, person, s, i, #[trigger] s[i])
    &&& forall|i: int, j: int|
        0 <= i < j < s.len() && (#[trigger] s[i]).depth == (#[trigger] s[j]).depth && below(
            s,
            i,
            j,
            s[j].depth as int,
        ) ==> tree::Node::before(s[i], s[j])
}

/// What holds of the agenda while the nodes of `done` have been met.
spec fn is_ready(t: db::Tables, person: i64, done: Seq<tree::NodeRow>, agenda: Seq<tree::NodeRow>) -> bool {
    let end = done.len() as int;
    &&& forall|q: int| 0 <= q < agenda.len() ==> is_placed(t, person, done, end, #[trigger] agenda[q])
    &&& forall|p: int, q: int|
        0 <= p < q < agenda.len() ==> (#[trigger] agenda[p]).depth >= (#[trigger] agenda[q]).depth
            && (agenda[p].depth == agenda[q].depth ==> tree::Node::before(agenda[p], agenda[q]))
    &&& forall|j: int, q: int|
        0 <= j < done.len() && 0 <= q < agenda.len() && (#[trigger] done[j]).depth == (
        #[trigger] agenda[q]).depth && below(done, j, end, agenda[q].depth as int) ==> tree::Node::before(
            done[j],
            agenda[q],
        )
}

/// Meeting the first of the agenda keeps the outline and readies the next agenda.
proof fn meeting_keeps_outline(
    t: db::Tables,
    person: i64,
    done: Seq<tree::NodeRow>,
    agenda: Seq<tree::NodeRow>,
)
    requires
        t.wf(),
        agenda.len() > 0,
        agenda[0].depth < i64::MAX,
        is_outline(t, person, done),
        is_ready(t, person, done, agenda),
    ensures
        is_outline(t, person, done.push(agenda[0])),
        is_ready(
            t,
            person,
            done.push(agenda[0]),
            tree::kids(t, person, agenda[0].id, (agenda[0].depth + 1) as i64) + agenda.drop_first(),
        ),
{
    let n = agenda[0];
    let rest = agenda.drop_first();
    let d = (n.depth + 1) as i64;
    let under = tree::kids(t, person, n.id, d);
    let next = under + rest;
    let more = done.push(n);
    let end = done.len() as int;
    tree::kids_facts(t, person, n.id, d);
    assert(forall|k: int| 0 <= k < end ==> more[k] == done[k]);
    assert(more[end] == n);
    assert(forall|q: int| 0 <= q < rest.len() ==> rest[q] == agenda[q + 1]);
    // The nodes met so far, with the new one.
    assert forall|i: int| 0 <= i < more.len() implies is_placed(t, person, more, i, #[trigger] more[i]) by {
        let m = more[i];
        if i < end {
            assert(is_placed(t, person, done, i, done[i]));
            if m.depth > 1 {
                let j = choose|j: int| #[trigger] is_parent_at(t, done, j, i, m);
                assert(is_parent_at(t, more, j, i, m));
            }
        } else {
            assert(is_placed(t, person, done, end, agenda[0]));
            if m.depth > 1 {
                let j = choose|j: int| #[trigger] is_parent_at(t, done, j, end, m);
                assert(is_parent_at(t, more, j, end, m));
            }
        }
    }
    assert forall|i: int, j: int|
        0 <= i < j < more.len() && (#[trigger] more[i]).depth == (#[trigger] more[j]).depth && below(
            more,
            i,
            j,
            more[j].depth as int,
        ) implies tree::Node::before(more[i], more[j]) by {
        assert(below(done, i, j, more[j].depth as int)) by {
            assert forall|k: int| i < k < j implies (#[trigger] done[k]).depth
                >= more[j].depth by {
                assert(more[k].depth >= more[j].depth);
            }
        }
        if j < end {
            assert(done[i].depth == done[j].depth);
        } else {
            assert(done[i].depth == agenda[0].depth);
        }
    }
    // The next agenda.
    assert forall|q: int| 0 <= q < next.len() implies is_placed(
        t,
        person,
        more,
        end + 1,
        #[trigger] next[q],
    ) by {
        let m = next[q];
        if q < under.len() {
            assert(under.contains(under[q]));
            assert(is_parent_at(t, more, end, end + 1, m));
        } else {
            let a = q - under.len() + 1;
            assert(m == agenda[a]);
            assert(is_placed(t, person, done, end, agenda[a]));
            assert(agenda[0].depth >= agenda[a].depth);
            if m.depth > 1 {
                let j = choose|j: int| #[trigger] is_parent_at(t, done, j, end, m);
                assert(is_parent_at(t, more, j, end + 1, m));
            }
        }
    }
    assert forall|p: int, q: int| 0 <= p < q < next.len() implies (#[trigger] next[p]).depth >= (
    #[trigger] next[q]).depth && (next[p].depth == next[q].depth ==> tree::Node::before(
        next[p],
        next[q],
    )) by {
        if q < under.len() {
            assert(under.contains(under[p]) && under.contains(under[q]));
            assert(tree::sibling_order()(under[p], under[q]));
        } else {
            let b = q - under.len() + 1;
            assert(next[q] == agenda[b]);
            assert(agenda[0].depth >= agenda[b].depth);
            if p < under.len() {
                assert(under.contains(under[p]));
            } else {
                let a = p - under.len() + 1;
                assert(next[p] == agenda[a]);
            }
        }
    }
    assert forall|j: int, q: int|
        0 <= j < more.len() && 0 <= q < next.len() && (#[trigger] more[j]).depth == (
        #[trigger] next[q]).depth && below(more, j, end + 1, next[q].depth as int) implies tree::Node::before(
        more[j],
        next[q],
    ) by {
        if q < under.len() {
            assert(under.contains(under[q]));
            if j < end {
                assert(more[end].depth >= next[q].depth);
            }
        } else {
            let a = q - under.len() + 1;
            assert(next[q] == agenda[a]);
            if j < end {
                assert(below(done, j, end, agenda[a].depth as int)) by {
                    assert forall|k: int| j < k < end implies (#[trigger] done[k]).depth
                        >= agenda[a].depth by {
                        assert(more[k].depth >= next[q].depth);
                    }
                }
                assert(done[j].depth == agenda[a].depth);
            } else {
                assert(agenda[0].depth == agenda[a].depth);
            }
        }
    }
}

proof fn walk_is_outline(
    t: db::Tables,
    person: i64,
    done: Seq<tree::NodeRow>,
    agenda: Seq<tree::NodeRow>,
    visited: Set<i64>,
)
    requires
        t.wf(),
        t.people.len() <= i64::MAX,
        visited.finite(),
        visited.subset_of(tree::all_ids(t)),
        forall|q: int| 0 <= q < agenda.len() ==> (#[trigger] agenda[q]).depth <= visited.len(),
        is_outline(t, person, done),
        is_ready(t, person, done, agenda),
    ensures
        is_outline(t, person, done + tree::walk(t, person, agenda, visited)),
    decreases tree::all_ids(t).difference(visited).len(), agenda.len(),
{
    let out = tree::walk(t, person, agenda, visited);
    if agenda.len() == 0 {
        assert(done + out =~= done);
    } else {
        let n = agenda[0];
        let rest = agenda.drop_first();
        assert(forall|q: int| 0 <= q < rest.len() ==> rest[q] == agenda[q + 1]);
        if visited.contains(n.id) || !tables::has_id(t.people, n.id) {
            assert(is_ready(t, person, done, rest)) by {
                assert forall|q: int| 0 <= q < rest.len() implies is_placed(
                    t,
                    person,
                    done,
                    done.len() as int,
                    #[trigger] rest[q],
                ) by {
                    assert(rest[q] == agenda[q + 1]);
                }
                assert forall|j: int, q: int|
                    0 <= j < done.len() && 0 <= q < rest.len() && (#[trigger] done[j]).depth == (
                    #[trigger] rest[q]).depth && below(
                        done,
                        j,
                        done.len() as int,
                        rest[q].depth as int,
                    ) implies tree::Node::before(done[j], rest[q]) by {
                    assert(rest[q] == agenda[q + 1]);
                }
            }
            walk_is_outline(t, person, done, rest, visited);
        } else {
            let seen = visited.insert(n.id);
            tree::fewer_left(t, visited, n.id);
            tree::ids_are_finite(t);
            vstd::set_lib::lemma_len_subset(seen, tree::all_ids(t));
            assert(agenda[0].depth <= visited.len());
            meeting_keeps_outline(t, person, done, agenda);
            let d = (n.depth + 1) as i64;
            let under = tree::kids(t, person, n.id, d);
            let next = under + rest;
            tree::kids_facts(t, person, n.id, d);
            assert forall|q: int| 0 <= q < next.len() implies (#[trigger] next[q]).depth
                <= seen.len() by {
                if q < under.len() {
                    assert(under.contains(under[q]));
                } else {
                    assert(next[q] == agenda[q - under.len() + 1]);
                }
            }
            walk_is_outline(t, person, done.push(n), next, seen);
            assert(done + out =~= done.push(n) + tree::walk(t, person, next, seen));
        }
    }
}

/// The subtree is in pre-order: indenting each node by its depth reads as a tree.
/// Everyone stands under someone they report to, with nobody of another branch in
/// between, and siblings stand most senior first.
pub proof fn subtree_reads_as_a_tree(t: db::Tables, person: i64)
    requires
        t.wf(),
        t.people.len() <= i64::MAX,
    ensures
        is_outline(t, person, tree::subtree_nodes(t, person)),
{
    let first = tree::kids(t, person, person, 1);
    tree::kids_facts(t, person, person, 1);
    assert forall|q: int| 0 <= q < first.len() implies (#[trigger] first[q]).depth == 1
        && tree::reports_to(t, first[q].id, person) by {
        assert(first.contains(first[q]));
    }
    let none = Seq::<tree::NodeRow>::empty();
    assert(is_ready(t, person, none, first)) by {
        assert forall|p: int, q: int| 0 <= p < q < first.len() implies (#[trigger] first[p]).depth >= (
        #[trigger] first[q]).depth && (first[p].depth == first[q].depth ==> tree::Node::before(
            first[p],
            first[q],
        )) by {
            assert(tree::sibling_order()(first[p], first[q]));
        }
    }
    if tables::has_id(t.people, person) {
        assert(set![person].subset_of(tree::all_ids(t)));
        walk_is_outline(t, person, none, first, set![person]);
        assert(none + tree::subtree_nodes(t, person) =~= tree::subtree_nodes(t, person));
    } else {
        tree::within_nobody(t, person, tree::MAX_DEPTH as nat);
        if first.len() > 0 {
            assert(first.contains(first[0]));
        }
    }
}

} // verus!
