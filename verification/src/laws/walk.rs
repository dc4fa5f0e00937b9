//! Laws of the order in which a subtree is walked: nobody is left for later who can be met
//! below somebody already met.

use crate::db;
use crate::edges;
use crate::laws::tree as laws_tree;
use crate::tables;
use crate::tree::{self, NodeRow};
use crate::tree::outline;
use vstd::prelude::*;

verus! {

/// The ids that a walk meets.
spec fn met(s: Seq<NodeRow>) -> Set<i64> {
    Set::new(|id: i64| outline::meets(s, id))
}

/// Whom a walk meets with one more in front.
proof fn met_with_one_more(n: NodeRow, s: Seq<NodeRow>, visited: Set<i64>)
    ensures
        visited.union(met(seq![n] + s)) == visited.insert(n.id).union(met(s)),
{
    let all = seq![n] + s;
    assert forall|id: i64| outline::meets(all, id) <==> id == n.id || outline::meets(s, id) by {
        if outline::meets(all, id) {
            let i = choose|i: int| 0 <= i < all.len() && (#[trigger] all[i]).id == id;
            if i > 0 {
                assert(s[i - 1].id == id);
            }
        }
        if outline::meets(s, id) {
            let i = choose|i: int| 0 <= i < s.len() && (#[trigger] s[i]).id == id;
            assert(all[i + 1].id == id);
        }
        if id == n.id {
            assert(all[0].id == id);
        }
    }
    assert(visited.union(met(all)) =~= visited.insert(n.id).union(met(s)));
}

/// Walking two agendas is walking the first, and then the second without those met.
proof fn walk_of_both(
    t: db::Tables,
    person: i64,
    a: Seq<NodeRow>,
    b: Seq<NodeRow>,
    visited: Set<i64>,
)
    ensures
        tree::walk(t, person, a + b, visited) == tree::walk(t, person, a, visited) + tree::walk(
            t,
            person,
            b,
            visited.union(met(tree::walk(t, person, a, visited))),
        ),
    decreases tree::all_ids(t).difference(visited).len(), a.len(),
{
    let first = tree::walk(t, person, a, visited);
    if a.len() == 0 {
        assert(a + b =~= b);
        assert(first =~= Seq::<NodeRow>::empty());
        assert(visited.union(met(first)) =~= visited);
        assert(first + tree::walk(t, person, b, visited) =~= tree::walk(t, person, b, visited));
    } else {
        let n = a[0];
        let rest = a.drop_first();
        assert((a + b)[0] == n);
        assert((a + b).drop_first() =~= rest + b);
        if visited.contains(n.id) || !tables::has_id(t.people, n.id) {
            walk_of_both(t, person, rest, b, visited);
            assert(first == tree::walk(t, person, rest, visited));
        } else {
            tree::fewer_left(t, visited, n.id);
            let kids = tree::kids(t, person, n.id, (n.depth + 1) as i64);
            let more = visited.insert(n.id);
            let tail = tree::walk(t, person, kids + rest, more);
            walk_of_both(t, person, kids + rest, b, more);
            assert(kids + (rest + b) =~= (kids + rest) + b);
            met_with_one_more(n, tail, visited);
            assert(first == seq![n] + tail);
            assert(tree::walk(t, person, a + b, visited) == seq![n] + tree::walk(
                t,
                person,
                kids + (rest + b),
                more,
            ));
            let second = tree::walk(t, person, b, more.union(met(tail)));
            assert(seq![n] + (tail + second) =~= (seq![n] + tail) + second);
        }
    }
}

/// A walk meets everybody on its agenda who was not met before.
proof fn walk_meets_its_agenda(
    t: db::Tables,
    person: i64,
    agenda: Seq<NodeRow>,
    visited: Set<i64>,
    q: int,
)
    requires
        0 <= q < agenda.len(),
        tables::has_id(t.people, agenda[q].id),
    ensures
        visited.contains(agenda[q].id) || outline::meets(
            tree::walk(t, person, agenda, visited),
            agenda[q].id,
        ),
    decreases tree::all_ids(t).difference(visited).len(), agenda.len(),
{
    let n = agenda[0];
    let rest = agenda.drop_first();
    let id = agenda[q].id;
    let out = tree::walk(t, person, agenda, visited);
    if visited.contains(n.id) || !tables::has_id(t.people, n.id) {
        if q > 0 {
            assert(rest[q - 1] == agenda[q]);
            walk_meets_its_agenda(t, person, rest, visited, q - 1);
            assert(out == tree::walk(t, person, rest, visited));
        }
    } else {
        tree::fewer_left(t, visited, n.id);
        let kids = tree::kids(t, person, n.id, (n.depth + 1) as i64);
        let next = kids + rest;
        let tail = tree::walk(t, person, next, visited.insert(n.id));
        assert(out == seq![n] + tail);
        assert(out[0].id == n.id);
        if id != n.id {
            let k = kids.len() + q - 1;
            assert(next[k] == rest[q - 1] && rest[q - 1] == agenda[q]);
            walk_meets_its_agenda(t, person, next, visited.insert(n.id), k);
            if outline::meets(tail, id) {
                let i = choose|i: int| 0 <= i < tail.len() && (#[trigger] tail[i]).id == id;
                assert(out[i + 1].id == id);
            }
        }
    }
}

/// Meeting somebody new leaves room for a level more.
proof fn room_for_a_level(t: db::Tables, visited: Set<i64>, id: i64)
    requires
        t.people.len() <= i64::MAX,
        visited.finite(),
        visited.subset_of(tree::all_ids(t)),
        !visited.contains(id),
        tables::has_id(t.people, id),
    ensures
        visited.insert(id).len() == visited.len() + 1,
        visited.len() < i64::MAX,
        visited.insert(id).subset_of(tree::all_ids(t)),
{
    tree::ids_are_finite(t);
    vstd::set_lib::lemma_len_subset(visited.insert(id), tree::all_ids(t));
}

/// A walk goes no higher than its agenda.
proof fn walk_stays_below(
    t: db::Tables,
    person: i64,
    agenda: Seq<NodeRow>,
    visited: Set<i64>,
    top: int,
)
    requires
        t.wf(),
        t.people.len() <= i64::MAX,
        visited.finite(),
        visited.subset_of(tree::all_ids(t)),
        forall|q: int|
            0 <= q < agenda.len() ==> top <= (#[trigger] agenda[q]).depth <= visited.len(),
    ensures
        forall|i: int|
            0 <= i < tree::walk(t, person, agenda, visited).len() ==> (#[trigger] tree::walk(
                t,
                person,
                agenda,
                visited,
            )[i]).depth >= top,
    decreases tree::all_ids(t).difference(visited).len(), agenda.len(),
{
    if agenda.len() > 0 {
        let n = agenda[0];
        let rest = agenda.drop_first();
        let out = tree::walk(t, person, agenda, visited);
        assert forall|q: int| 0 <= q < rest.len() implies top <= (#[trigger] rest[q]).depth
            <= visited.len() by {
            assert(rest[q] == agenda[q + 1]);
        }
        if visited.contains(n.id) || !tables::has_id(t.people, n.id) {
            walk_stays_below(t, person, rest, visited, top);
            assert(out == tree::walk(t, person, rest, visited));
        } else {
            tree::fewer_left(t, visited, n.id);
            room_for_a_level(t, visited, n.id);
            let kids = tree::kids(t, person, n.id, (n.depth + 1) as i64);
            let next = kids + rest;
            let more = visited.insert(n.id);
            let tail = tree::walk(t, person, next, more);
            tree::kids_facts(t, person, n.id, (n.depth + 1) as i64);
            assert forall|q: int| 0 <= q < next.len() implies top <= (#[trigger] next[q]).depth
                <= more.len() by {
                if q < kids.len() {
                    assert(kids.contains(kids[q]));
                    assert(next[q] == kids[q]);
                } else {
                    assert(next[q] == rest[q - kids.len()]);
                }
            }
            walk_stays_below(t, person, next, more, top);
            assert(out == seq![n] + tail);
            assert forall|i: int| 0 <= i < out.len() implies (#[trigger] out[i]).depth >= top by {
                if i > 0 {
                    assert(out[i] == tail[i - 1]);
                }
            }
        }
    }
}

/// Whoever reports to somebody on a walk and was not met before comes right below them.
proof fn walk_leaves_nobody_for_later(
    t: db::Tables,
    person: i64,
    agenda: Seq<NodeRow>,
    visited: Set<i64>,
    i: int,
    x: i64,
)
    requires
        t.wf(),
        t.people.len() <= i64::MAX,
        visited.finite(),
        visited.subset_of(tree::all_ids(t)),
        forall|q: int| 0 <= q < agenda.len() ==> (#[trigger] agenda[q]).depth <= visited.len(),
        0 <= i < tree::walk(t, person, agenda, visited).len(),
        tree::realm(t, person).contains(x),
        laws_tree::has_line(t, x, tree::walk(t, person, agenda, visited)[i].id),
        !visited.contains(x),
        forall|k: int|
            0 <= k <= i ==> (#[trigger] tree::walk(t, person, agenda, visited)[k]).id != x,
    ensures
        ({
            let out = tree::walk(t, person, agenda, visited);
            exists|j: int|
                i < j < out.len() && (#[trigger] out[j]).id == x && forall|k: int|
                    i < k <= j ==> (#[trigger] out[k]).depth > out[i].depth
        }),
    decreases tree::all_ids(t).difference(visited).len(), agenda.len(),
{
    let n = agenda[0];
    let rest = agenda.drop_first();
    let out = tree::walk(t, person, agenda, visited);
    if visited.contains(n.id) || !tables::has_id(t.people, n.id) {
        assert(out == tree::walk(t, person, rest, visited));
        assert forall|q: int| 0 <= q < rest.len() implies (#[trigger] rest[q]).depth
            <= visited.len() by {
            assert(rest[q] == agenda[q + 1]);
        }
        walk_leaves_nobody_for_later(t, person, rest, visited, i, x);
    } else {
        tree::fewer_left(t, visited, n.id);
        room_for_a_level(t, visited, n.id);
        let depth = (n.depth + 1) as i64;
        let kids = tree::kids(t, person, n.id, depth);
        let next = kids + rest;
        let more = visited.insert(n.id);
        let tail = tree::walk(t, person, next, more);
        tree::kids_facts(t, person, n.id, depth);
        assert(out == seq![n] + tail);
        assert(out[0].id != x);
        if i == 0 {
            let below = tree::walk(t, person, kids, more);
            walk_of_both(t, person, kids, rest, more);
            let k = choose|k: int|
                0 <= k < t.edges.len() && (#[trigger] t.edges[k]).kind == "reports_to"@
                    && t.edges[k].from_id == x && t.edges[k].to_id == n.id;
            assert(edges::is_line(t.edges[k]));
            tree::report_listed(t, n.id, depth, k);
            let m = choose|m: NodeRow| #[trigger]
                tree::reports(t, n.id, depth).contains(m) && m.id == x;
            assert(kids.contains(m));
            let q = choose|q: int| 0 <= q < kids.len() && kids[q] == m;
            walk_meets_its_agenda(t, person, kids, more, q);
            let j = choose|j: int| 0 <= j < below.len() && (#[trigger] below[j]).id == x;
            assert forall|q: int| 0 <= q < kids.len() implies n.depth + 1 <= (
            #[trigger] kids[q]).depth <= more.len() by {
                assert(kids.contains(kids[q]));
            }
            walk_stays_below(t, person, kids, more, n.depth + 1);
            assert(out[j + 1] == tail[j] && tail[j] == below[j]);
            assert forall|k: int| 0 < k <= j + 1 implies (#[trigger] out[k]).depth
                > out[0].depth by {
                assert(out[k] == tail[k - 1] && tail[k - 1] == below[k - 1]);
            }
            assert(out[j + 1].id == x);
        } else {
            assert forall|q: int| 0 <= q < next.len() implies (#[trigger] next[q]).depth
                <= more.len() by {
                if q < kids.len() {
                    assert(kids.contains(kids[q]));
                    assert(next[q] == kids[q]);
                } else {
                    assert(next[q] == rest[q - kids.len()]);
                    assert(rest[q - kids.len()] == agenda[q - kids.len() + 1]);
                }
            }
            assert(out[i] == tail[i - 1]);
            assert forall|k: int| 0 <= k <= i - 1 implies (#[trigger] tail[k]).id != x by {
                assert(out[k + 1] == tail[k]);
            }
            walk_leaves_nobody_for_later(t, person, next, more, i - 1, x);
            let j = choose|j: int|
                i - 1 < j < tail.len() && (#[trigger] tail[j]).id == x && forall|k: int|
                    i - 1 < k <= j ==> (#[trigger] tail[k]).depth > tail[i - 1].depth;
            assert(out[j + 1] == tail[j]);
            assert forall|k: int| i < k <= j + 1 implies (#[trigger] out[k]).depth
                > out[i].depth by {
                assert(out[k] == tail[k - 1]);
            }
        }
    }
}

/// A subtree is read top down: whoever reports to somebody in it stands before them, or right
/// below them, with nobody in between who is not below them too. So somebody with several
/// bosses stands below the first who is met.
pub proof fn reports_come_before_anybody_else(t: db::Tables, person: i64, i: int, j: int)
    requires
        t.wf(),
        t.people.len() <= i64::MAX,
        0 <= i < j < tree::subtree_nodes(t, person).len(),
        laws_tree::has_line(
            t,
            tree::subtree_nodes(t, person)[j].id,
            tree::subtree_nodes(t, person)[i].id,
        ),
    ensures
        forall|k: int|
            i < k <= j ==> (#[trigger] tree::subtree_nodes(t, person)[k]).depth
                > tree::subtree_nodes(t, person)[i].depth,
{
    let out = tree::subtree_nodes(t, person);
    let x = out[j].id;
    let kids = tree::kids(t, person, person, 1);
    let start = set![person];
    outline::subtree_meets_everyone_once(t, person);
    assert(outline::meets(out, x));
    assert(outline::meets(out, x) <==> tree::realm(t, person).contains(x) && x != person);
    tree::kids_facts(t, person, person, 1);
    assert(start.len() == 1);
    assert(tables::has_id(t.people, person)) by {
        laws_tree::subtree_is_everyone_below(t, person, x);
        let k = choose|k: int| 0 <= k < t.people.len() && (#[trigger] t.people[k]).id == person;
        assert(tables::Keyed::key(t.people[k]) == person);
    }
    assert forall|q: int| 0 <= q < kids.len() implies (#[trigger] kids[q]).depth
        <= start.len() by {
        assert(kids.contains(kids[q]));
    }
    assert forall|k: int| 0 <= k <= i implies (#[trigger] out[k]).id != x by {
        assert(out[k].id != out[j].id);
    }
    walk_leaves_nobody_for_later(t, person, kids, start, i, x);
    let m = choose|m: int|
        i < m < out.len() && (#[trigger] out[m]).id == x && forall|k: int|
            i < k <= m ==> (#[trigger] out[k]).depth > out[i].depth;
    assert(m == j) by {
        if m < j {
            assert(out[m].id != out[j].id);
        } else if j < m {
            assert(out[j].id != out[m].id);
        }
    }
}

} // verus!
