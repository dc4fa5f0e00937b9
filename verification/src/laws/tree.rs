//! Laws of the org tree: who is above and below somebody, in which order, and how a tree
//! reads.

use crate::db;
use crate::edges;
use crate::laws::lines;
use crate::laws::order as laws_order;
use crate::laws::sequences;
use crate::model;
use crate::order;
use crate::tables;
use crate::text;
use crate::tree::{self, NodeRow};
use crate::tree::outline;
use vstd::prelude::*;

verus! {

/// Whether an edge says that `person` reports to `boss`.
pub open spec fn has_line(t: db::Tables, person: i64, boss: i64) -> bool {
    exists|k: int|
        0 <= k < t.edges.len() && (#[trigger] t.edges[k]).kind == "reports_to"@
            && t.edges[k].from_id == person && t.edges[k].to_id == boss
}

/// Whether everybody on a path reports to the next one.
pub open spec fn goes_up(t: db::Tables, path: Seq<i64>) -> bool {
    forall|i: int, j: int|
        0 <= i && j == i + 1 && j < path.len() ==> has_line(
            t,
            #[trigger] path[i],
            #[trigger] path[j],
        )
}

/// Whether a node tells of the person with its id.
pub open spec fn tells_of_a_person(t: db::Tables, n: NodeRow) -> bool {
    exists|k: int|
        0 <= k < t.people.len() && (#[trigger] t.people[k]).id == n.id && t.people[k].name == n.name
            && t.people[k].title == n.title
}

/// A line of the directory is one that an edge says.
proof fn line_means(t: db::Tables, person: i64, boss: i64)
    ensures
        tree::reports_to(t, person, boss) <==> has_line(t, person, boss),
{
    if tree::reports_to(t, person, boss) {
        let k = choose|k: int|
            0 <= k < t.edges.len() && edges::is_line(#[trigger] t.edges[k]) && t.edges[k].from_id
                == person && t.edges[k].to_id == boss;
        assert(t.edges[k].kind == "reports_to"@);
    }
    if has_line(t, person, boss) {
        let k = choose|k: int|
            0 <= k < t.edges.len() && (#[trigger] t.edges[k]).kind == "reports_to"@
                && t.edges[k].from_id == person && t.edges[k].to_id == boss;
        assert(edges::is_line(t.edges[k]));
    }
}

/// Being within `d` steps is having a path of so many lines.
proof fn within_means_a_path(t: db::Tables, person: i64, d: nat, id: i64)
    ensures
        tree::within(t, person, d).contains(id) <==> tables::has_id(t.people, person)
            && exists|path: Seq<i64>| #[trigger]
            goes_up(t, path) && 1 <= path.len() <= d + 1 && path[0] == id && path.last() == person,
    decreases d,
{
    if tree::within(t, person, d).contains(id) {
        if d == 0 {
            let path = seq![person];
            assert(goes_up(t, path));
        } else {
            let near = tree::within(t, person, (d - 1) as nat);
            if near.contains(id) {
                within_means_a_path(t, person, (d - 1) as nat, id);
            } else {
                let k = choose|k: int|
                    0 <= k < t.edges.len() && edges::is_line(#[trigger] t.edges[k])
                        && t.edges[k].from_id == id && near.contains(t.edges[k].to_id);
                let next = t.edges[k].to_id;
                assert(t.edges[k].kind == "reports_to"@);
                assert(has_line(t, id, next));
                within_means_a_path(t, person, (d - 1) as nat, next);
                let rest = choose|path: Seq<i64>| #[trigger]
                    goes_up(t, path) && 1 <= path.len() <= d && path[0] == next && path.last()
                        == person;
                let path = seq![id] + rest;
                assert forall|i: int, j: int| 0 <= i && j == i + 1 && j < path.len() implies has_line(
                    t,
                    #[trigger] path[i],
                    #[trigger] path[j],
                ) by {
                    if i > 0 {
                        assert(path[i] == rest[i - 1] && path[j] == rest[j - 1]);
                    } else {
                        assert(path[j] == rest[0]);
                    }
                }
                assert(goes_up(t, path));
                assert(path.last() == rest.last());
            }
        }
    }
    if tables::has_id(t.people, person) && exists|path: Seq<i64>| #[trigger]
        goes_up(t, path) && 1 <= path.len() <= d + 1 && path[0] == id && path.last() == person {
        let path = choose|path: Seq<i64>| #[trigger]
            goes_up(t, path) && 1 <= path.len() <= d + 1 && path[0] == id && path.last() == person;
        if d > 0 {
            let near = tree::within(t, person, (d - 1) as nat);
            within_means_a_path(t, person, (d - 1) as nat, id);
            if path.len() > d {
                let rest = path.drop_first();
                let next = path[1];
                assert forall|i: int, j: int| 0 <= i && j == i + 1 && j < rest.len() implies has_line(
                    t,
                    #[trigger] rest[i],
                    #[trigger] rest[j],
                ) by {
                    assert(rest[i] == path[i + 1] && rest[j] == path[j + 1]);
                }
                assert(goes_up(t, rest));
                assert(rest.last() == path.last());
                assert(rest[0] == next);
                within_means_a_path(t, person, (d - 1) as nat, next);
                assert(has_line(t, path[0], path[1]));
                let k = choose|k: int|
                    0 <= k < t.edges.len() && (#[trigger] t.edges[k]).kind == "reports_to"@
                        && t.edges[k].from_id == id && t.edges[k].to_id == next;
                assert(edges::is_line(t.edges[k]));
                assert(near.contains(next));
                assert(tree::reports_into(t, id, near));
            }
        }
    }
}

/// The subtree holds exactly those other people from whom a path of at most a hundred
/// reporting lines goes up to the person, each once.
pub proof fn subtree_is_everyone_below(t: db::Tables, person: i64, id: i64)
    requires
        t.wf(),
    ensures
        (exists|i: int|
            0 <= i < tree::subtree_nodes(t, person).len() && (#[trigger] tree::subtree_nodes(
                t,
                person,
            )[i]).id == id) <==> id != person && (exists|k: int|
            0 <= k < t.people.len() && (#[trigger] t.people[k]).id == person)
            && exists|path: Seq<i64>| #[trigger]
            goes_up(t, path) && 1 <= path.len() <= 101 && path[0] == id && path.last() == person,
        forall|i: int, j: int|
            0 <= i < j < tree::subtree_nodes(t, person).len() ==> (#[trigger] tree::subtree_nodes(
                t,
                person,
            )[i]).id != (#[trigger] tree::subtree_nodes(t, person)[j]).id,
{
    let nodes = tree::subtree_nodes(t, person);
    outline::subtree_meets_everyone_once(t, person);
    within_means_a_path(t, person, 100, id);
    crate::laws::tables::people_are_found_by_id(t.people, person);
    assert(outline::meets(nodes, id) <==> tree::realm(t, person).contains(id) && id != person);
}

/// Reports tell of people.
proof fn reports_tell_of_people(t: db::Tables, boss: i64, depth: i64, n: NodeRow)
    requires
        t.wf(),
        tree::reports(t, boss, depth).contains(n),
    ensures
        tells_of_a_person(t, n),
{
    tree::report_facts(t, boss, depth, n);
    tables::row_found(t.people, n.id);
    let p = tables::row(t.people, n.id)->0;
    let k = choose|k: int| 0 <= k < t.people.len() && t.people[k] == p;
    assert(t.people[k].id == n.id);
}

/// A walk over nodes that tell of people meets such nodes alone.
proof fn walk_tells_of_people(
    t: db::Tables,
    person: i64,
    agenda: Seq<NodeRow>,
    visited: Set<i64>,
)
    requires
        t.wf(),
        forall|i: int| 0 <= i < agenda.len() ==> tells_of_a_person(t, #[trigger] agenda[i]),
    ensures
        forall|i: int|
            0 <= i < tree::walk(t, person, agenda, visited).len() ==> tells_of_a_person(
                t,
                #[trigger] tree::walk(t, person, agenda, visited)[i],
            ),
    decreases tree::all_ids(t).difference(visited).len(), agenda.len(),
{
    if agenda.len() > 0 {
        let n = agenda[0];
        let rest = agenda.drop_first();
        assert forall|i: int| 0 <= i < rest.len() implies tells_of_a_person(
            t,
            #[trigger] rest[i],
        ) by {
            assert(rest[i] == agenda[i + 1]);
        }
        if visited.contains(n.id) || !tables::has_id(t.people, n.id) {
            walk_tells_of_people(t, person, rest, visited);
            assert(tree::walk(t, person, agenda, visited) == tree::walk(t, person, rest, visited));
        } else {
            tree::fewer_left(t, visited, n.id);
            let kids = tree::kids(t, person, n.id, (n.depth + 1) as i64);
            let next = kids + rest;
            tree::kids_facts(t, person, n.id, (n.depth + 1) as i64);
            assert forall|i: int| 0 <= i < next.len() implies tells_of_a_person(
                t,
                #[trigger] next[i],
            ) by {
                if i < kids.len() {
                    assert(kids.contains(kids[i]));
                    reports_tell_of_people(t, n.id, (n.depth + 1) as i64, kids[i]);
                    assert(next[i] == kids[i]);
                } else {
                    assert(next[i] == rest[i - kids.len()]);
                }
            }
            walk_tells_of_people(t, person, next, visited.insert(n.id));
            let out = tree::walk(t, person, agenda, visited);
            let tail = tree::walk(t, person, next, visited.insert(n.id));
            assert(out == seq![n] + tail);
            assert forall|i: int| 0 <= i < out.len() implies tells_of_a_person(
                t,
                #[trigger] out[i],
            ) by {
                if i > 0 {
                    assert(out[i] == tail[i - 1]);
                }
            }
        }
    }
}

/// Every node of a subtree has the name and the title of the person with its id.
pub proof fn subtree_tells_of_people(t: db::Tables, person: i64, i: int)
    requires
        t.wf(),
        0 <= i < tree::subtree_nodes(t, person).len(),
    ensures
        tells_of_a_person(t, tree::subtree_nodes(t, person)[i]),
{
    let kids = tree::kids(t, person, person, 1);
    tree::kids_facts(t, person, person, 1);
    assert forall|k: int| 0 <= k < kids.len() implies tells_of_a_person(t, #[trigger] kids[k]) by {
        assert(kids.contains(kids[k]));
        reports_tell_of_people(t, person, 1, kids[k]);
    }
    walk_tells_of_people(t, person, kids, set![person]);
}

/// Everybody in a subtree stands one level below their boss there: below the person at
/// depth one, and otherwise below the last node before them that is one level up, to whom
/// they report. Siblings stand by rank, then by name.
pub proof fn subtree_stands_under_its_bosses(t: db::Tables, person: i64, i: int)
    requires
        t.wf(),
        t.people.len() <= i64::MAX,
        0 <= i < tree::subtree_nodes(t, person).len(),
    ensures
        ({
            let s = tree::subtree_nodes(t, person);
            &&& s[i].depth >= 1
            &&& s[i].depth == 1 ==> has_line(t, s[i].id, person)
            &&& s[i].depth > 1 ==> exists|j: int|
                0 <= j < i && (#[trigger] s[j]).depth == s[i].depth - 1 && has_line(
                    t,
                    s[i].id,
                    s[j].id,
                ) && forall|k: int| j < k < i ==> (#[trigger] s[k]).depth >= s[i].depth
            &&& forall|j: int|
                0 <= j < i && (#[trigger] s[j]).depth == s[i].depth && (forall|k: int|
                    j < k < i ==> (#[trigger] s[k]).depth >= s[i].depth)
                    ==> laws_order::may_stand_before(s[j].title, s[j].name, s[i].title, s[i].name)
        }),
{
    let s = tree::subtree_nodes(t, person);
    outline::subtree_reads_as_a_tree(t, person);
    assert(outline::is_placed(t, person, s, i, s[i]));
    line_means(t, s[i].id, person);
    if s[i].depth > 1 {
        let j = choose|j: int| #[trigger] outline::is_parent_at(t, s, j, i, s[i]);
        line_means(t, s[i].id, s[j].id);
        assert(s[j].depth == s[i].depth - 1);
        assert(forall|k: int| j < k < i ==> (#[trigger] s[k]).depth >= s[i].depth);
    }
    assert forall|j: int|
        0 <= j < i && (#[trigger] s[j]).depth == s[i].depth && (forall|k: int|
            j < k < i ==> (#[trigger] s[k]).depth
                >= s[i].depth) implies laws_order::may_stand_before(
        s[j].title,
        s[j].name,
        s[i].title,
        s[i].name,
    ) by {
        assert(outline::below(s, j, i, s[i].depth as int));
        assert(<tree::Node as order::Ranked>::before(s[j], s[i]));
        laws_order::seniors_come_first(s[j].title, s[j].name, s[i].title, s[i].name);
    }
}

/// A line of a tree tells the id, the name and the title, if there is one.
pub proof fn tree_lines_tell_who(id: i64, name: Seq<char>, title: Seq<char>)
    ensures
        tree::tree_line_text(id, name, None) == "#"@ + text::decimal(id as int) + "  "@ + name
            + "\n"@,
        tree::tree_line_text(id, name, Some(title)) == "#"@ + text::decimal(id as int) + "  "@
            + name + " — "@ + title + "\n"@,
        is_told(tree::tree_line_text(id, name, None)),
        is_told(tree::tree_line_text(id, name, Some(title))),
{
    reveal_strlit("\n");
    assert(tree::tree_line_text(id, name, None) =~= "#"@ + text::decimal(id as int) + "  "@ + name
        + "\n"@);
    assert(tree::tree_line_text(id, name, Some(title)) =~= "#"@ + text::decimal(id as int) + "  "@
        + name + " — "@ + title + "\n"@);
}

/// Whether there is a line to read.
pub open spec fn is_told(s: Seq<char>) -> bool {
    s.len() > 0 && s.last() == '\n'
}

/// Everybody in a list of nodes has a row of their own in its text, at any depth: two spaces
/// for each level, then the line that tells who they are. What comes before it is the text
/// of the nodes before, and what comes after it that of the nodes after.
pub proof fn every_node_has_its_row(nodes: Seq<NodeRow>, i: int)
    requires
        0 <= i < nodes.len(),
        nodes[i].depth >= 0,
    ensures
        tree::tree_body(nodes) == tree::tree_body(nodes.take(i)) + Seq::new(
            (2 * nodes[i].depth) as nat,
            |k: int| ' ',
        ) + tree::tree_line_text(nodes[i].id, nodes[i].name, nodes[i].title) + tree::tree_body(
            nodes.skip(i + 1),
        ),
        is_told(tree::tree_line_text(nodes[i].id, nodes[i].name, nodes[i].title)),
        tree::tree_body(Seq::empty()) == Seq::<char>::empty(),
{
    let f = |n: NodeRow| tree::tree_row(n);
    let n = nodes[i];
    sequences::flat_map_splits(nodes, f, i);
    let left = Seq::new((2 * n.depth) as nat, |k: int| ' ');
    assert(tree::indent(n.depth as int) =~= left);
    let line = tree::tree_line_text(n.id, n.name, n.title);
    reveal_strlit("\n");
    assert(tree::tree_body(nodes) =~= tree::tree_body(nodes.take(i)) + left + line
        + tree::tree_body(nodes.skip(i + 1)));
    sequences::flat_map_of_none(Seq::<NodeRow>::empty(), f);
}

/// The text of a tree has a row for everybody in it, whatever their depth.
pub proof fn everybody_below_has_a_row(t: db::Tables, person: i64, i: int)
    requires
        t.wf(),
        t.people.len() <= i64::MAX,
        0 <= i < tree::subtree_nodes(t, person).len(),
    ensures
        ({
            let nodes = tree::subtree_nodes(t, person);
            let n = nodes[i];
            &&& n.depth >= 1
            &&& tree::tree_body(nodes) == tree::tree_body(nodes.take(i)) + Seq::new(
                (2 * n.depth) as nat,
                |k: int| ' ',
            ) + tree::tree_line_text(n.id, n.name, n.title) + tree::tree_body(nodes.skip(i + 1))
            &&& is_told(tree::tree_line_text(n.id, n.name, n.title))
        }),
{
    subtree_stands_under_its_bosses(t, person, i);
    every_node_has_its_row(tree::subtree_nodes(t, person), i);
}

/// A line that tells who somebody is ends once.
pub proof fn tree_line_ends_once(id: i64, name: Seq<char>, title: Option<Seq<char>>)
    requires
        lines::is_one_line(name),
        title matches Some(s) ==> lines::is_one_line(s),
    ensures
        lines::line_ends(tree::tree_line_text(id, name, title)) == 1,
{
    reveal_strlit("#");
    reveal_strlit("  ");
    reveal_strlit(" — ");
    lines::number_is_one_line(id as int);
    let last = match title {
        Some(s) => " — "@ + s,
        None => Seq::<char>::empty(),
    };
    let head = "#"@ + text::decimal(id as int) + "  "@ + name + last;
    assert(lines::is_one_line(last)) by {
        if let Some(s) = title {
            assert forall|i: int| 0 <= i < last.len() implies #[trigger] last[i] != '\n' by {
                if i >= 3 {
                    assert(last[i] == s[i - 3]);
                }
            }
        }
    }
    two_on_one_line("#"@, text::decimal(id as int));
    two_on_one_line("#"@ + text::decimal(id as int), "  "@);
    two_on_one_line("#"@ + text::decimal(id as int) + "  "@, name);
    two_on_one_line("#"@ + text::decimal(id as int) + "  "@ + name, last);
    lines::line_ends_once(head);
    assert(tree::tree_line_text(id, name, title) =~= head + "\n"@);
}

/// Two texts on one line make one.
pub(crate) proof fn two_on_one_line(a: Seq<char>, b: Seq<char>)
    requires
        lines::is_one_line(a),
        lines::is_one_line(b),
    ensures
        lines::is_one_line(a + b),
{
    assert forall|i: int| 0 <= i < (a + b).len() implies #[trigger] (a + b)[i] != '\n' by {
        if i < a.len() {
            assert((a + b)[i] == a[i]);
        } else {
            assert((a + b)[i] == b[i - a.len()]);
        }
    }
}

/// The text of a tree has one line more than the subtree has nodes, if no name and no title
/// has a line break.
pub proof fn tree_has_a_line_for_everybody(t: db::Tables, person: i64, k: int)
    requires
        t.wf(),
        t.people.len() <= i64::MAX,
        0 <= k < t.people.len(),
        t.people[k].id == person,
        forall|i: int| 0 <= i < t.people.len() ==> lines::is_one_line((#[trigger] t.people[i]).name),
        forall|i: int|
            0 <= i < t.people.len() ==> ((#[trigger] t.people[i]).title matches Some(s)
                ==> lines::is_one_line(s)),
    ensures
        ({
            let p = t.people[k];
            lines::line_ends(
                tree::tree_line_text(p.id, p.name, p.title) + tree::tree_body(
                    tree::subtree_nodes(t, person),
                ),
            ) == tree::subtree_nodes(t, person).len() + 1
        }),
{
    let p = t.people[k];
    let nodes = tree::subtree_nodes(t, person);
    let f = |n: NodeRow| tree::tree_row(n);
    tree_line_ends_once(p.id, p.name, p.title);
    assert forall|i: int| 0 <= i < nodes.len() implies lines::line_ends(f(#[trigger] nodes[i]))
        == 1 by {
        let n = nodes[i];
        subtree_tells_of_people(t, person, i);
        let j = choose|j: int|
            0 <= j < t.people.len() && (#[trigger] t.people[j]).id == n.id && t.people[j].name
                == n.name && t.people[j].title == n.title;
        assert(lines::is_one_line(t.people[j].name));
        tree_line_ends_once(n.id, n.name, n.title);
        let left = tree::indent(n.depth as int);
        assert(lines::is_one_line(left));
        lines::one_line_ends_none(left);
        lines::line_ends_add_up(left, tree::tree_line_text(n.id, n.name, n.title));
    }
    lines::one_line_each(nodes, f);
    lines::line_ends_add_up(tree::tree_line_text(p.id, p.name, p.title), tree::tree_body(nodes));
}

/// The direct reports are exactly the people with a line to the person, one entry for each
/// line, by rank and name.
pub proof fn direct_reports_have_a_line(t: db::Tables, person: i64, n: NodeRow)
    requires
        t.wf(),
    ensures
        tree::direct(t, person).contains(n) <==> n.depth == 1 && has_line(t, n.id, person)
            && tells_of_a_person(t, n),
        tree::direct(t, person).len() == t.edges.filter(
            |e: model::EdgeRow| e.kind == "reports_to"@ && e.to_id == person,
        ).len(),
        forall|i: int, j: int|
            0 <= i < j < tree::direct(t, person).len() ==> laws_order::may_stand_before(
                (#[trigger] tree::direct(t, person)[i]).title,
                tree::direct(t, person)[i].name,
                (#[trigger] tree::direct(t, person)[j]).title,
                tree::direct(t, person)[j].name,
            ),
{
    let all = tree::reports(t, person, 1);
    let le = tree::sibling_order();
    let s = tree::direct(t, person);
    tree::sibling_order_is_preorder();
    order::in_order_sorts(all, le);
    let raw = |e: model::EdgeRow| e.kind == "reports_to"@ && e.to_id == person;
    let own = |e: model::EdgeRow| edges::is_line(e) && e.to_id == person;
    assert(raw =~= own);
    if all.contains(n) {
        tree::report_facts(t, person, 1, n);
        reports_tell_of_people(t, person, 1, n);
        line_means(t, n.id, person);
    }
    if n.depth == 1 && has_line(t, n.id, person) && tells_of_a_person(t, n) {
        let k = choose|k: int|
            0 <= k < t.edges.len() && (#[trigger] t.edges[k]).kind == "reports_to"@
                && t.edges[k].from_id == n.id && t.edges[k].to_id == person;
        tree::report_listed(t, person, 1, k);
        let m = choose|m: NodeRow| #[trigger] all.contains(m) && m.id == n.id;
        tree::report_facts(t, person, 1, m);
        same_person(t, n, m);
    }
    assert forall|i: int, j: int| 0 <= i < j < s.len() implies laws_order::may_stand_before(
        (#[trigger] s[i]).title,
        s[i].name,
        (#[trigger] s[j]).title,
        s[j].name,
    ) by {
        assert(le(s[i], s[j]));
        laws_order::seniors_come_first(s[i].title, s[i].name, s[j].title, s[j].name);
    }
}

/// Two nodes with one id and one depth that tell of a person are the same.
proof fn same_person(t: db::Tables, n: NodeRow, m: NodeRow)
    requires
        t.wf(),
        tells_of_a_person(t, n),
        m == tree::node(tables::row(t.people, m.id)->0, m.depth),
        n.id == m.id,
        n.depth == m.depth,
    ensures
        n == m,
{
    let k = choose|k: int|
        0 <= k < t.people.len() && (#[trigger] t.people[k]).id == n.id && t.people[k].name
            == n.name && t.people[k].title == n.title;
    crate::laws::tables::people_are_found_by_id(t.people, n.id);
    assert(tables::row(t.people, n.id) == Some(t.people[k]));
}

/// The roots are exactly the people who report to nobody, each once, by rank and name.
pub proof fn roots_report_to_nobody(t: db::Tables, n: NodeRow)
    requires
        t.wf(),
    ensures
        ({
            let s = order::in_order(tree::rootless(t), tree::sibling_order());
            &&& s.contains(n) <==> n.depth == 0 && tells_of_a_person(t, n)
                && crate::laws::infer::reports_to_nobody(t, n.id)
            &&& s.no_duplicates()
            &&& forall|i: int, j: int|
                0 <= i < j < s.len() ==> laws_order::may_stand_before(
                    (#[trigger] s[i]).title,
                    s[i].name,
                    (#[trigger] s[j]).title,
                    s[j].name,
                )
        }),
{
    let all = tree::rootless(t);
    let le = tree::sibling_order();
    let s = order::in_order(all, le);
    let top = |p: model::PersonRow| edges::lines_of(t.edges, p.id).len() == 0;
    let kept = t.people.filter(top);
    tree::sibling_order_is_preorder();
    order::in_order_sorts(all, le);
    tables::filter_keeps(t.people, top);
    assert forall|i: int| 0 <= i < kept.len() implies #[trigger] all[i] == tree::node(
        kept[i],
        0,
    ) by {}
    if all.contains(n) {
        let i = choose|i: int| 0 <= i < all.len() && all[i] == n;
        let p = kept[i];
        assert(kept.contains(p));
        let k = choose|k: int| 0 <= k < t.people.len() && t.people[k] == p;
        assert(t.people[k].id == n.id);
        crate::laws::infer::no_lines(t, n.id);
    }
    if n.depth == 0 && tells_of_a_person(t, n) && crate::laws::infer::reports_to_nobody(t, n.id) {
        let k = choose|k: int|
            0 <= k < t.people.len() && (#[trigger] t.people[k]).id == n.id && t.people[k].name
                == n.name && t.people[k].title == n.title;
        crate::laws::infer::no_lines(t, n.id);
        assert(t.people.contains(t.people[k]));
        assert(kept.contains(t.people[k]));
        let i = choose|i: int| 0 <= i < kept.len() && kept[i] == t.people[k];
        assert(all[i] == n);
    }
    assert(all.no_duplicates()) by {
        assert forall|i: int, j: int|
            0 <= i < all.len() && 0 <= j < all.len() && i != j implies all[i] != all[j] by {
            assert(all[i] == tree::node(kept[i], 0) && all[j] == tree::node(kept[j], 0));
            if i < j {
                assert(tables::Keyed::key(kept[i]) < tables::Keyed::key(kept[j]));
            } else {
                assert(tables::Keyed::key(kept[j]) < tables::Keyed::key(kept[i]));
            }
        }
    }
    all.lemma_multiset_has_no_duplicates();
    s.lemma_multiset_has_no_duplicates_conv();
    assert forall|i: int, j: int| 0 <= i < j < s.len() implies laws_order::may_stand_before(
        (#[trigger] s[i]).title,
        s[i].name,
        (#[trigger] s[j]).title,
        s[j].name,
    ) by {
        assert(le(s[i], s[j]));
        laws_order::seniors_come_first(s[i].title, s[i].name, s[j].title, s[j].name);
    }
}

/// Siblings stand by rank and name and by nothing else.
pub proof fn siblings_go_by_rank_and_name(a: NodeRow, b: NodeRow)
    ensures
        tree::sibling_order()(a, b) <==> laws_order::may_stand_before(
            a.title,
            a.name,
            b.title,
            b.name,
        ),
{
    laws_order::seniors_come_first(a.title, a.name, b.title, b.name);
}

/// Before they are sorted the direct reports stand in the order of the edges, and the roots
/// in the order of the people.
pub proof fn direct_reports_and_roots_are_sorted(t: db::Tables, person: i64)
    requires
        t.wf(),
    ensures
        ({
            let le = |a: NodeRow, b: NodeRow|
                laws_order::may_stand_before(a.title, a.name, b.title, b.name);
            &&& tree::direct(t, person) == order::in_order(
                t.edges.filter(
                    |e: model::EdgeRow| e.kind == "reports_to"@ && e.to_id == person,
                ).map_values(
                    |e: model::EdgeRow|
                        {
                            let p = tables::row(t.people, e.from_id)->0;
                            NodeRow { id: p.id, name: p.name, title: p.title, depth: 1 }
                        },
                ),
                le,
            )
            &&& order::in_order(tree::rootless(t), tree::sibling_order()) == order::in_order(
                t.people.filter(
                    |p: model::PersonRow| crate::laws::infer::reports_to_nobody(t, p.id),
                ).map_values(
                    |p: model::PersonRow|
                        NodeRow { id: p.id, name: p.name, title: p.title, depth: 0 },
                ),
                le,
            )
        }),
{
    let le = |a: NodeRow, b: NodeRow|
        laws_order::may_stand_before(a.title, a.name, b.title, b.name);
    assert forall|a: NodeRow, b: NodeRow| #[trigger]
        tree::sibling_order()(a, b) == le(a, b) by {
        siblings_go_by_rank_and_name(a, b);
    }
    assert(tree::sibling_order() =~= le);
    let raw = |e: model::EdgeRow| e.kind == "reports_to"@ && e.to_id == person;
    let own = |e: model::EdgeRow| edges::is_line(e) && e.to_id == person;
    assert(raw =~= own);
    let f = |e: model::EdgeRow|
        {
            let p = tables::row(t.people, e.from_id)->0;
            NodeRow { id: p.id, name: p.name, title: p.title, depth: 1 }
        };
    assert(tree::reports(t, person, 1) =~= t.edges.filter(raw).map_values(f));
    let top = |p: model::PersonRow| edges::lines_of(t.edges, p.id).len() == 0;
    let free = |p: model::PersonRow| crate::laws::infer::reports_to_nobody(t, p.id);
    assert forall|p: model::PersonRow| #[trigger] t.people.contains(p) implies top(p) == free(
        p,
    ) by {
        crate::laws::infer::no_lines(t, p.id);
    }
    sequences::filter_alike(t.people, top, free);
    let g = |p: model::PersonRow| NodeRow { id: p.id, name: p.name, title: p.title, depth: 0 };
    assert(tree::rootless(t) =~= t.people.filter(free).map_values(g));
}

/// The bosses of somebody as nodes at a depth, one for each reporting line, in the order of
/// the edges.
pub open spec fn bosses_at(t: db::Tables, person: i64, depth: i64) -> Seq<NodeRow> {
    t.edges.filter(
        |e: model::EdgeRow| e.from_id == person && e.kind == "reports_to"@,
    ).map_values(
        |e: model::EdgeRow|
            {
                let p = tables::row(t.people, e.to_id)->0;
                NodeRow { id: e.to_id, name: p.name, title: p.title, depth }
            },
    )
}

/// The nodes of a chain at a depth.
pub open spec fn at_depth(s: Seq<NodeRow>, depth: i64) -> Seq<NodeRow> {
    s.filter(|n: NodeRow| n.depth == depth)
}

/// What stands at one depth of a chain that goes up to `d`.
proof fn chain_levels(t: db::Tables, person: i64, d: nat, depth: i64)
    requires
        d <= 100,
    ensures
        at_depth(tree::chain_to(t, person, d), depth) == if 1 <= depth <= d {
            tree::level_up(t, person, depth as nat).map_values(
                |p: model::PersonRow| tree::node(p, depth),
            )
        } else {
            Seq::empty()
        },
    decreases d,
{
    let here = |n: NodeRow| n.depth == depth;
    if d == 0 {
        sequences::filter_of_none(tree::chain_to(t, person, d), here);
        assert(at_depth(tree::chain_to(t, person, d), depth) =~= Seq::<NodeRow>::empty());
    } else {
        let low = tree::chain_to(t, person, (d - 1) as nat);
        let f = |p: model::PersonRow| tree::node(p, d as i64);
        let top = tree::level_up(t, person, d).map_values(f);
        chain_levels(t, person, (d - 1) as nat, depth);
        Seq::filter_distributes_over_add(low, top, here);
        if depth == d {
            sequences::filter_of_all(top, here);
            let g = |p: model::PersonRow| tree::node(p, depth);
            assert(f =~= g);
            assert(at_depth(tree::chain_to(t, person, d), depth) =~= top);
        } else {
            sequences::filter_of_none(top, here);
            assert(at_depth(tree::chain_to(t, person, d), depth) =~= at_depth(low, depth));
        }
    }
}

/// Bosses as nodes are the people that the lines lead to.
proof fn bosses_as_nodes(t: db::Tables, person: i64, depth: i64)
    requires
        t.wf(),
    ensures
        tree::bosses(t, person).map_values(|p: model::PersonRow| tree::node(p, depth))
            == bosses_at(t, person, depth),
{
    let raw = |e: model::EdgeRow| e.from_id == person && e.kind == "reports_to"@;
    let own = |e: model::EdgeRow| edges::is_line_of(e, person);
    assert(raw =~= own);
    let lines = t.edges.filter(raw);
    let a = tree::bosses(t, person).map_values(|p: model::PersonRow| tree::node(p, depth));
    let b = bosses_at(t, person, depth);
    tables::filter_keeps(t.edges, raw);
    db::wf_by_rows(t);
    assert forall|i: int| 0 <= i < lines.len() implies a[i] == b[i] by {
        let e = lines[i];
        assert(lines.contains(e));
        assert(t.edges.contains(e));
        tables::row_found(t.people, e.to_id);
    }
    assert(a =~= b);
}

/// Mapping what stands for all items is mapping what stands for each.
proof fn map_of_flat_map<V, W, X>(s: Seq<V>, f: spec_fn(V) -> Seq<W>, g: spec_fn(W) -> X)
    ensures
        s.flat_map(f).map_values(g) == s.flat_map(|x: V| f(x).map_values(g)),
    decreases s.len(),
{
    let h = |x: V| f(x).map_values(g);
    if s.len() == 0 {
        sequences::flat_map_of_none(s, f);
        sequences::flat_map_of_none(s, h);
        assert(s.flat_map(f).map_values(g) =~= s.flat_map(h));
    } else {
        let rest = s.drop_last();
        map_of_flat_map(rest, f, g);
        rest.lemma_flat_map_push(f, s.last());
        rest.lemma_flat_map_push(h, s.last());
        assert(rest.push(s.last()) =~= s);
        assert(s.flat_map(f).map_values(g) =~= rest.flat_map(f).map_values(g) + h(s.last()));
        assert(s.flat_map(f).map_values(g) =~= s.flat_map(h));
    }
}

/// What stands for mapped items is what stands for the items.
proof fn flat_map_of_map<V, W, X>(s: Seq<V>, f: spec_fn(V) -> W, g: spec_fn(W) -> Seq<X>)
    ensures
        s.map_values(f).flat_map(g) == s.flat_map(|x: V| g(f(x))),
    decreases s.len(),
{
    let h = |x: V| g(f(x));
    if s.len() == 0 {
        sequences::flat_map_of_none(s, h);
        sequences::flat_map_of_none(s.map_values(f), g);
    } else {
        let rest = s.drop_last();
        flat_map_of_map(rest, f, g);
        rest.map_values(f).lemma_flat_map_push(g, f(s.last()));
        rest.lemma_flat_map_push(h, s.last());
        assert(rest.push(s.last()) =~= s);
        assert(rest.map_values(f).push(f(s.last())) =~= s.map_values(f));
    }
}

/// The chain of command goes up level by level, from depth 1 to at most 100: first the
/// bosses of the person, and on the next level the bosses of those on the one before, in
/// their order.
pub proof fn chain_goes_up_by_all_bosses(t: db::Tables, person: i64, d: i64, k: int)
    requires
        t.wf(),
        0 <= k < t.people.len(),
        t.people[k].id == person,
        1 <= d < 100,
    ensures
        ({
            let s = tree::chain(t, person);
            &&& at_depth(s, 1) == bosses_at(t, person, 1)
            &&& at_depth(s, (d + 1) as i64) == at_depth(s, d).flat_map(
                |n: NodeRow| bosses_at(t, n.id, (d + 1) as i64),
            )
            &&& forall|i: int| 0 <= i < s.len() ==> 1 <= (#[trigger] s[i]).depth <= 100
            &&& forall|i: int, j: int|
                0 <= i < j < s.len() ==> (#[trigger] s[i]).depth <= (#[trigger] s[j]).depth
        }),
{
    let s = tree::chain(t, person);
    crate::laws::tables::people_are_found_by_id(t.people, person);
    assert(tables::row(t.people, person) == Some(t.people[k]));
    tree::ascent::chain_goes_up_step_by_step(t, person);
    let above = |p: model::PersonRow| tree::bosses(t, p.id);
    // The first level.
    chain_levels(t, person, 100, 1);
    let start = seq![t.people[k]];
    start.lemma_flat_map_singleton(above);
    assert(tree::level_up(t, person, 0) == start);
    assert(tree::level_up(t, person, 1) == start.flat_map(above));
    assert(tree::level_up(t, person, 1) == tree::bosses(t, person));
    bosses_as_nodes(t, person, 1);
    // The next one.
    let e = (d + 1) as i64;
    chain_levels(t, person, 100, d);
    chain_levels(t, person, 100, e);
    let low = tree::level_up(t, person, d as nat);
    let f = |p: model::PersonRow| tree::node(p, d);
    let g = |p: model::PersonRow| tree::node(p, e);
    let h = |n: NodeRow| bosses_at(t, n.id, e);
    assert(tree::level_up(t, person, e as nat) == low.flat_map(above));
    map_of_flat_map(low, above, g);
    flat_map_of_map(low, f, h);
    let one = |p: model::PersonRow| above(p).map_values(g);
    let two = |p: model::PersonRow| h(f(p));
    assert forall|p: model::PersonRow| #[trigger] one(p) == two(p) by {
        bosses_as_nodes(t, p.id, e);
    }
    assert(one =~= two);
}

/// Nobody is above nobody.
pub proof fn nobody_has_no_chain(t: db::Tables, person: i64)
    requires
        forall|i: int| 0 <= i < t.people.len() ==> (#[trigger] t.people[i]).id != person,
    ensures
        tree::chain(t, person).len() == 0,
{
    assert(!tables::has_id(t.people, person)) by {
        if tables::has_id(t.people, person) {
            let k = choose|k: int|
                0 <= k < t.people.len() && tables::Keyed::key(#[trigger] t.people[k]) == person;
            assert(t.people[k].id == person);
        }
    }
    tables::row_found(t.people, person);
    no_levels(t, person, 100);
}

/// No level is above nobody.
proof fn no_levels(t: db::Tables, person: i64, d: nat)
    requires
        tables::row(t.people, person) is None,
    ensures
        tree::level_up(t, person, d).len() == 0,
        tree::chain_to(t, person, d).len() == 0,
    decreases d,
{
    if d > 0 {
        no_levels(t, person, (d - 1) as nat);
        sequences::flat_map_of_none(
            tree::level_up(t, person, (d - 1) as nat),
            |p: model::PersonRow| tree::bosses(t, p.id),
        );
    }
}

} // verus!
