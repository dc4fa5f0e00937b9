//! The hierarchy: walks along reporting lines.
//!
//! Nothing keeps reporting lines from forming a loop, so every walk that goes on is
//! cut off: the walk up after [`MAX_DEPTH`] steps, the walk down there too and at
//! everyone who was visited before.
//!
//! Siblings, that is people under the same boss, stand most senior first.

pub mod ascent;
pub mod headcounts;
pub mod outline;

pub use headcounts::team_headcounts;

use crate::db::{self, Db};
use crate::edges;
use crate::infer::has_boss;
use crate::model::{self, kind, OrgError, Person, Relationship};
use crate::order::{self, sort, Ranked, SiblingKey};
use crate::people::{get_person, title_of};
use crate::seniority::rank_of;
use crate::tables::{self, find, retain, Keyed};
use crate::text::{self, copy_text, push_int, push_spaces, same_text};
use std::collections::HashSet;
use vstd::prelude::*;
use vstd::string::*;

verus! {

/// How many steps a walk along reporting lines goes at most.
pub const MAX_DEPTH: i64 = 100;

/// A person met on a walk, and how far from its start.
#[derive(Debug, PartialEq)]
pub struct Node {
    pub id: i64,
    pub name: String,
    pub title: Option<String>,
    /// The distance from where the walk began, which is itself at 0.
    pub depth: i64,
}

/// What a [`Node`] holds.
#[verifier::ext_equal]
pub struct NodeRow {
    pub id: i64,
    pub name: Seq<char>,
    pub title: Option<Seq<char>>,
    pub depth: i64,
}

impl View for Node {
    type V = NodeRow;

    open spec fn view(&self) -> NodeRow {
        NodeRow {
            id: self.id,
            name: self.name@,
            title: self.title.deep_view(),
            depth: self.depth,
        }
    }
}

impl Clone for Node {
    fn clone(&self) -> (r: Node)
        ensures
            r == *self,
    {
        Node {
            id: self.id,
            name: self.name.clone(),
            title: copy_text(&self.title),
            depth: self.depth,
        }
    }
}

/// The node for a person met at a depth.
pub open spec fn node(p: model::PersonRow, depth: i64) -> NodeRow {
    NodeRow { id: p.id, name: p.name, title: p.title, depth }
}

/// The node for a person met at a depth.
fn node_for(p: &Person, depth: i64) -> (r: Node)
    ensures
        r@ == node(p@, depth),
{
    Node { id: p.id, name: p.name.clone(), title: copy_text(&p.title), depth }
}

impl Node {
    /// What siblings are ordered by: seniority descending, unknowns last, then name.
    pub fn sibling_key(&self) -> (r: SiblingKey)
        ensures
            r.rank == crate::seniority::opt_title_rank(self@.title),
            r.name@ == self@.name,
    {
        SiblingKey { rank: rank_of(title_of(&self.title)), name: self.name.clone() }
    }
}

impl Ranked for Node {
    open spec fn before(a: NodeRow, b: NodeRow) -> bool {
        order::senior_first(a.title, a.name, b.title, b.name)
    }

    fn may_precede(&self, other: &Node) -> (r: bool) {
        self.sibling_key().may_precede(&other.sibling_key())
    }
}

/// The order of siblings, as a function.
pub open spec fn sibling_order() -> spec_fn(NodeRow, NodeRow) -> bool {
    |a: NodeRow, b: NodeRow| Node::before(a, b)
}

/// The reporting lines that end at `boss`.
pub open spec fn lines_to(t: db::Tables, boss: i64) -> Seq<model::EdgeRow> {
    t.edges.filter(|e: model::EdgeRow| edges::is_line(e) && e.to_id == boss)
}

/// The people that `person` reports to, by the age of the line.
pub open spec fn bosses(t: db::Tables, person: i64) -> Seq<model::PersonRow> {
    edges::lines_of(t.edges, person).map_values(
        |e: model::EdgeRow| tables::row(t.people, e.to_id)->0,
    )
}

/// The people who report to `boss`, by the age of the line, as nodes at a depth.
pub open spec fn reports(t: db::Tables, boss: i64, depth: i64) -> Seq<NodeRow> {
    lines_to(t, boss).map_values(
        |e: model::EdgeRow| node(tables::row(t.people, e.from_id)->0, depth),
    )
}

/// Everyone at exactly `d` steps up from `person`, once for every way to get there.
pub open spec fn level_up(t: db::Tables, person: i64, d: nat) -> Seq<model::PersonRow>
    decreases d,
{
    if d == 0 {
        match tables::row(t.people, person) {
            Some(p) => seq![p],
            None => Seq::empty(),
        }
    } else {
        level_up(t, person, (d - 1) as nat).flat_map(|p: model::PersonRow| bosses(t, p.id))
    }
}

/// Everyone at 1 to `d` steps up from `person`, nearest first.
pub open spec fn chain_to(t: db::Tables, person: i64, d: nat) -> Seq<NodeRow>
    decreases d,
{
    if d == 0 {
        Seq::empty()
    } else {
        chain_to(t, person, (d - 1) as nat) + level_up(t, person, d).map_values(
            |p: model::PersonRow| node(p, d as i64),
        )
    }
}

/// The chain of command above `person`, nearest boss first.
pub open spec fn chain(t: db::Tables, person: i64) -> Seq<NodeRow> {
    chain_to(t, person, MAX_DEPTH as nat)
}

/// Appends the people that `people[at]` reports to, as positions in `people`.
fn push_bosses(
    people: &Vec<Person>,
    relationships: &Vec<Relationship>,
    at: usize,
    out: &mut Vec<usize>,
    Ghost(t): Ghost<db::Tables>,
)
    requires
        t.wf(),
        t.people == tables::rows(people@),
        t.edges == tables::rows(relationships@),
        at < people@.len(),
        forall|i: int| 0 <= i < old(out)@.len() ==> (#[trigger] old(out)@[i]) < people@.len(),
    ensures
        forall|i: int| 0 <= i < final(out)@.len() ==> (#[trigger] final(out)@[i]) < people@.len(),
        final(out)@.map_values(|i: usize| people@[i as int]@) == old(out)@.map_values(
            |i: usize| people@[i as int]@,
        ) + bosses(t, people@[at as int].id),
{
    let person = people[at].id;
    let ghost s = t.edges;
    let ghost mine = |e: model::EdgeRow| edges::is_line_of(e, person);
    let ghost to = |e: model::EdgeRow| tables::row(t.people, e.to_id)->0;
    let ghost who = |i: usize| people@[i as int]@;
    let ghost start = out@.map_values(who);
    let mut k: usize = 0;
    proof {
        reveal(Seq::filter);
        assert(start + s.take(0).filter(mine).map_values(to) =~= start);
    }
    while k < relationships.len()
        invariant
            t.wf(),
            t.people == tables::rows(people@),
            s == t.edges,
            s == tables::rows(relationships@),
            mine == (|e: model::EdgeRow| edges::is_line_of(e, person)),
            to == (|e: model::EdgeRow| tables::row(t.people, e.to_id)->0),
            who == (|i: usize| people@[i as int]@),
            k <= relationships@.len(),
            forall|i: int| 0 <= i < out@.len() ==> (#[trigger] out@[i]) < people@.len(),
            out@.map_values(who) == start + s.take(k as int).filter(mine).map_values(to),
        decreases relationships@.len() - k,
    {
        let e = &relationships[k];
        assert(s[k as int] == e@);
        proof {
            reveal(Seq::filter);
            assert(s.take(k + 1).drop_last() =~= s.take(k as int));
            assert(s.take(k + 1).last() == e@);
        }
        if e.from_id == person && same_text(e.kind.as_str(), kind::REPORTS_TO) {
            match find(people, e.to_id) {
                Some(b) => {
                    let ghost before = out@;
                    out.push(b);
                    assert(out@.map_values(who) =~= before.map_values(who).push(to(e@)));
                    assert(s.take(k + 1).filter(mine).map_values(to) =~= s.take(
                        k as int,
                    ).filter(mine).map_values(to).push(to(e@)));
                    assert(out@.map_values(who) =~= start + s.take(k + 1).filter(mine).map_values(
                        to,
                    ));
                },
                None => {
                    assert(false);
                },
            }
        }
        k = k + 1;
    }
    assert(s.take(k as int) =~= s);
}

/// The chain of command: the walk along reporting lines up from `person`, nearest
/// boss first. Empty if they report to nobody.
pub fn chain_of_command(db: &Db, person: i64) -> (r: Vec<Node>)
    ensures
        tables::rows(r@) == chain(db@, person),
{
    let people = db.people();
    let relationships = db.relationships();
    let ghost t = db@;
    let ghost who = |i: usize| people@[i as int]@;
    let mut out: Vec<Node> = Vec::new();
    let mut level: Vec<usize> = Vec::new();
    if let Some(k) = find(people, person) {
        level.push(k);
        assert(level@.map_values(who) =~= seq![people@[k as int]@]);
    } else {
        assert(level@.map_values(who) =~= Seq::<model::PersonRow>::empty());
    }
    let mut d: i64 = 0;
    assert(tables::rows(out@) =~= chain_to(t, person, 0));
    while d < MAX_DEPTH
        invariant
            0 <= d <= MAX_DEPTH,
            t.wf(),
            t.people == tables::rows(people@),
            t.edges == tables::rows(relationships@),
            who == (|i: usize| people@[i as int]@),
            forall|i: int| 0 <= i < level@.len() ==> (#[trigger] level@[i]) < people@.len(),
            level@.map_values(who) == level_up(t, person, d as nat),
            tables::rows(out@) == chain_to(t, person, d as nat),
        decreases MAX_DEPTH - d,
    {
        let ghost above = |p: model::PersonRow| bosses(t, p.id);
        let ghost here = level_up(t, person, d as nat);
        let mut next: Vec<usize> = Vec::new();
        let mut k: usize = 0;
        assert(here.take(0).flat_map(above) =~= Seq::<model::PersonRow>::empty());
        assert(next@.map_values(who) =~= Seq::<model::PersonRow>::empty());
        while k < level.len()
            invariant
                t.wf(),
                t.people == tables::rows(people@),
                t.edges == tables::rows(relationships@),
                who == (|i: usize| people@[i as int]@),
                above == (|p: model::PersonRow| bosses(t, p.id)),
                here == level@.map_values(who),
                k <= level@.len(),
                forall|i: int| 0 <= i < level@.len() ==> (#[trigger] level@[i]) < people@.len(),
                forall|i: int| 0 <= i < next@.len() ==> (#[trigger] next@[i]) < people@.len(),
                next@.map_values(who) == here.take(k as int).flat_map(above),
            decreases level@.len() - k,
        {
            push_bosses(people, relationships, level[k], &mut next, Ghost(t));
            proof {
                here.lemma_flat_map_take_append(above, k as int);
                assert(here[k as int] == people@[level@[k as int] as int]@);
            }
            k = k + 1;
        }
        assert(here.take(k as int) =~= here);
        level = next;
        d = d + 1;
        let ghost found = level_up(t, person, d as nat);
        let ghost before = tables::rows(out@);
        let ghost at_depth = |p: model::PersonRow| node(p, d);
        let mut j: usize = 0;
        assert(before + found.take(0).map_values(at_depth) =~= before);
        while j < level.len()
            invariant
                who == (|i: usize| people@[i as int]@),
                at_depth == (|p: model::PersonRow| node(p, d)),
                found == level@.map_values(who),
                j <= level@.len(),
                forall|i: int| 0 <= i < level@.len() ==> (#[trigger] level@[i]) < people@.len(),
                tables::rows(out@) == before + found.take(j as int).map_values(at_depth),
            decreases level@.len() - j,
        {
            let ghost prev = out@;
            out.push(node_for(&people[level[j]], d));
            assert(found[j as int] == people@[level@[j as int] as int]@);
            assert(tables::rows(out@) =~= tables::rows(prev).push(at_depth(found[j as int])));
            assert(before + found.take(j + 1).map_values(at_depth) =~= (before + found.take(
                j as int,
            ).map_values(at_depth)).push(at_depth(found[j as int])));
            j = j + 1;
        }
        assert(found.take(j as int) =~= found);
        assert(found.map_values(at_depth) =~= level_up(t, person, d as nat).map_values(
            |p: model::PersonRow| node(p, (d as nat) as i64),
        ));
    }
    out
}

/// The people who report to `boss`, as nodes at a depth, by the age of the line.
fn collect_reports(db: &Db, boss: i64, depth: i64) -> (r: Vec<Node>)
    ensures
        tables::rows(r@) == reports(db@, boss, depth),
        db@.wf(),
{
    let people = db.people();
    let relationships = db.relationships();
    let ghost t = db@;
    let ghost s = t.edges;
    let ghost pass = |e: model::EdgeRow| edges::is_line(e) && e.to_id == boss;
    let ghost from = |e: model::EdgeRow| node(tables::row(t.people, e.from_id)->0, depth);
    let mut out: Vec<Node> = Vec::new();
    let mut k: usize = 0;
    assert(tables::rows(out@) =~= s.take(0).filter(pass).map_values(from)) by {
        reveal(Seq::filter);
    }
    while k < relationships.len()
        invariant
            t.wf(),
            t.people == tables::rows(people@),
            s == t.edges,
            s == tables::rows(relationships@),
            pass == (|e: model::EdgeRow| edges::is_line(e) && e.to_id == boss),
            from == (|e: model::EdgeRow| node(tables::row(t.people, e.from_id)->0, depth)),
            k <= relationships@.len(),
            tables::rows(out@) == s.take(k as int).filter(pass).map_values(from),
        decreases relationships@.len() - k,
    {
        let e = &relationships[k];
        assert(s[k as int] == e@);
        proof {
            reveal(Seq::filter);
            assert(s.take(k + 1).drop_last() =~= s.take(k as int));
            assert(s.take(k + 1).last() == e@);
        }
        if e.to_id == boss && same_text(e.kind.as_str(), kind::REPORTS_TO) {
            match find(people, e.from_id) {
                Some(p) => {
                    let ghost before = out@;
                    out.push(node_for(&people[p], depth));
                    assert(tables::rows(out@) =~= tables::rows(before).push(from(e@)));
                    assert(s.take(k + 1).filter(pass).map_values(from) =~= s.take(
                        k as int,
                    ).filter(pass).map_values(from).push(from(e@)));
                },
                None => {
                    assert(false);
                },
            }
        }
        k = k + 1;
    }
    assert(s.take(k as int) =~= s);
    out
}

/// The people one step below `person`, most senior first.
pub open spec fn direct(t: db::Tables, person: i64) -> Seq<NodeRow> {
    order::in_order(reports(t, person, 1), sibling_order())
}

/// The people one step below `person`, most senior first.
pub fn direct_reports(db: &Db, person: i64) -> (r: Vec<Node>)
    ensures
        tables::rows(r@) == direct(db@, person),
{
    let mut nodes = collect_reports(db, person, 1);
    sort(&mut nodes);
    nodes
}

/// The people who report to nobody, by id.
pub open spec fn rootless(t: db::Tables) -> Seq<NodeRow> {
    t.people.filter(
        |p: model::PersonRow| edges::lines_of(t.edges, p.id).len() == 0,
    ).map_values(|p: model::PersonRow| node(p, 0))
}

/// The people who report to nobody, most senior first.
pub fn roots(db: &Db) -> (r: Vec<Node>)
    ensures
        tables::rows(r@) == order::in_order(rootless(db@), sibling_order()),
{
    let people = db.people();
    let ghost t = db@;
    let ghost s = t.people;
    let ghost pass = |p: model::PersonRow| edges::lines_of(t.edges, p.id).len() == 0;
    let ghost top = |p: model::PersonRow| node(p, 0);
    let mut out: Vec<Node> = Vec::new();
    let mut k: usize = 0;
    assert(tables::rows(out@) =~= s.take(0).filter(pass).map_values(top)) by {
        reveal(Seq::filter);
    }
    while k < people.len()
        invariant
            t == db@,
            s == t.people,
            s == tables::rows(people@),
            pass == (|p: model::PersonRow| edges::lines_of(t.edges, p.id).len() == 0),
            top == (|p: model::PersonRow| node(p, 0)),
            k <= people@.len(),
            tables::rows(out@) == s.take(k as int).filter(pass).map_values(top),
        decreases people@.len() - k,
    {
        let p = &people[k];
        assert(s[k as int] == p@);
        proof {
            reveal(Seq::filter);
            assert(s.take(k + 1).drop_last() =~= s.take(k as int));
            assert(s.take(k + 1).last() == p@);
        }
        if !has_boss(db, p.id) {
            let ghost before = out@;
            out.push(node_for(p, 0));
            assert(tables::rows(out@) =~= tables::rows(before).push(top(p@)));
            assert(s.take(k + 1).filter(pass).map_values(top) =~= s.take(k as int).filter(
                pass,
            ).map_values(top).push(top(p@)));
        }
        k = k + 1;
    }
    assert(s.take(k as int) =~= s);
    sort(&mut out);
    out
}

/// Everyone at most `d` steps down from `person`, who is among them.
pub open spec fn within(t: db::Tables, person: i64, d: nat) -> Set<i64>
    decreases d,
{
    if d == 0 {
        if tables::has_id(t.people, person) {
            set![person]
        } else {
            Set::empty()
        }
    } else {
        let near = within(t, person, (d - 1) as nat);
        Set::new(|id: i64| near.contains(id) || reports_into(t, id, near))
    }
}

/// Whether `id` reports to someone in the set.
pub open spec fn reports_into(t: db::Tables, id: i64, near: Set<i64>) -> bool {
    exists|k: int|
        0 <= k < t.edges.len() && edges::is_line(#[trigger] t.edges[k]) && t.edges[k].from_id == id
            && near.contains(t.edges[k].to_id)
}

/// Everyone under `person`, and `person` themselves.
pub open spec fn realm(t: db::Tables, person: i64) -> Set<i64> {
    within(t, person, MAX_DEPTH as nat)
}

/// The reports of `boss` that belong to the realm of `person`, most senior first.
pub open spec fn kids(t: db::Tables, person: i64, boss: i64, depth: i64) -> Seq<NodeRow> {
    order::in_order(
        reports(t, boss, depth).filter(|n: NodeRow| realm(t, person).contains(n.id)),
        sibling_order(),
    )
}

/// The ids in use.
pub open spec fn all_ids(t: db::Tables) -> Set<i64> {
    Set::new(|id: i64| tables::has_id(t.people, id))
}

/// The walk down: the first on the agenda is met, unless they were visited before,
/// and their reports go before the rest of the agenda.
pub open spec fn walk(
    t: db::Tables,
    person: i64,
    agenda: Seq<NodeRow>,
    visited: Set<i64>,
) -> Seq<NodeRow>
    decreases all_ids(t).difference(visited).len(), agenda.len(),
{
    if agenda.len() == 0 {
        Seq::empty()
    } else {
        let n = agenda[0];
        let rest = agenda.drop_first();
        if visited.contains(n.id) || !tables::has_id(t.people, n.id) {
            walk(t, person, rest, visited)
        } else {
            proof {
                fewer_left(t, visited, n.id);
            }
            seq![n] + walk(
                t,
                person,
                kids(t, person, n.id, (n.depth + 1) as i64) + rest,
                visited.insert(n.id),
            )
        }
    }
}

pub(crate) proof fn ids_are_finite(t: db::Tables)
    ensures
        all_ids(t).finite(),
        all_ids(t).len() <= t.people.len(),
{
    let ids = t.people.map_values(|p: model::PersonRow| p.id);
    ids.lemma_cardinality_of_set();
    assert(all_ids(t) =~= ids.to_set()) by {
        assert forall|id: i64| all_ids(t).contains(id) <==> ids.to_set().contains(id) by {
            if all_ids(t).contains(id) {
                let k = choose|k: int| 0 <= k < t.people.len() && (#[trigger] t.people[k]).key() == id;
                assert(ids[k] == id);
            }
            if ids.to_set().contains(id) {
                let k = choose|k: int| 0 <= k < ids.len() && ids[k] == id;
                assert(t.people[k].key() == id);
            }
        }
    }
}

/// Visiting someone for the first time leaves fewer people to visit.
pub proof fn fewer_left(t: db::Tables, visited: Set<i64>, id: i64)
    requires
        !visited.contains(id),
        tables::has_id(t.people, id),
    ensures
        all_ids(t).difference(visited.insert(id)).len() < all_ids(t).difference(visited).len(),
{
    ids_are_finite(t);
    assert(all_ids(t).difference(visited.insert(id)) =~= all_ids(t).difference(visited).remove(id));
    assert(all_ids(t).difference(visited).contains(id));
}

/// Once a step down finds nobody new, no further step does.
proof fn within_settles(t: db::Tables, person: i64, d: nat, e: nat)
    requires
        d <= e,
        within(t, person, d + 1) == within(t, person, d),
    ensures
        within(t, person, e) == within(t, person, d),
    decreases e,
{
    if e > d {
        within_settles(t, person, d, (e - 1) as nat);
        if e > d + 1 {
            assert(within(t, person, e) =~= within(t, person, d + 1));
        }
    }
}

/// Nobody is under nobody.
proof fn within_nobody(t: db::Tables, person: i64, d: nat)
    requires
        !tables::has_id(t.people, person),
    ensures
        within(t, person, d) == Set::<i64>::empty(),
    decreases d,
{
    if d > 0 {
        within_nobody(t, person, (d - 1) as nat);
        assert(within(t, person, d) =~= Set::<i64>::empty());
    }
}

/// Everyone under `person`, and `person` themselves.
fn realm_of(db: &Db, person: i64) -> (r: HashSet<i64>)
    ensures
        r@ == realm(db@, person),
{
    broadcast use vstd::std_specs::hash::group_hash_axioms;

    let relationships = db.relationships();
    let ghost t = db@;
    let mut inside: HashSet<i64> = HashSet::new();
    if find(db.people(), person).is_some() {
        inside.insert(person);
    }
    assert(inside@ =~= within(t, person, 0));
    let mut d: i64 = 0;
    while d < MAX_DEPTH
        invariant
            0 <= d <= MAX_DEPTH,
            t == db@,
            t.edges == tables::rows(relationships@),
            inside@ == within(t, person, d as nat),
        decreases MAX_DEPTH - d,
    {
        let ghost near = inside@;
        let mut found: Vec<i64> = Vec::new();
        let mut k: usize = 0;
        while k < relationships.len()
            invariant
                t.edges == tables::rows(relationships@),
                inside@ == near,
                k <= relationships@.len(),
                forall|i: int|
                    0 <= i < found@.len() ==> !near.contains(#[trigger] found@[i]) && reports_into(
                        t,
                        found@[i],
                        near,
                    ),
                forall|i: int|
                    0 <= i < k && edges::is_line(#[trigger] t.edges[i]) && near.contains(
                        t.edges[i].to_id,
                    ) && !near.contains(t.edges[i].from_id) ==> found@.contains(t.edges[i].from_id),
            decreases relationships@.len() - k,
        {
            broadcast use vstd::std_specs::hash::group_hash_axioms;

            let e = &relationships[k];
            assert(t.edges[k as int] == e@);
            let ghost before = found@;
            if inside.contains(&e.to_id) && !inside.contains(&e.from_id) && same_text(
                e.kind.as_str(),
                kind::REPORTS_TO,
            ) {
                found.push(e.from_id);
                assert(found@[found@.len() - 1] == e.from_id);
            }
            assert forall|x: i64| before.contains(x) implies found@.contains(x) by {
                let i = choose|i: int| 0 <= i < before.len() && before[i] == x;
                assert(found@[i] == x);
            }
            k = k + 1;
        }
        let ghost wider = within(t, person, (d + 1) as nat);
        if found.len() == 0 {
            proof {
                assert(wider =~= near);
                within_settles(t, person, d as nat, MAX_DEPTH as nat);
            }
            return inside;
        }
        let mut j: usize = 0;
        while j < found.len()
            invariant
                j <= found@.len(),
                forall|x: i64| #[trigger]
                    inside@.contains(x) <==> near.contains(x) || found@.take(j as int).contains(x),
            decreases found@.len() - j,
        {
            broadcast use vstd::std_specs::hash::group_hash_axioms;

            let x = found[j];
            let ghost before = inside@;
            inside.insert(x);
            proof {
                let a = found@.take(j as int);
                let b = found@.take(j + 1);
                assert(b =~= a.push(x));
                assert(b[j as int] == x);
                assert forall|y: i64| #[trigger]
                    inside@.contains(y) <==> near.contains(y) || b.contains(y) by {
                    if a.contains(y) {
                        let i = choose|i: int| 0 <= i < a.len() && a[i] == y;
                        assert(b[i] == y);
                    }
                    if b.contains(y) && y != x {
                        let i = choose|i: int| 0 <= i < b.len() && b[i] == y;
                        assert(a[i] == y);
                    }
                }
            }
            j = j + 1;
        }
        proof {
            assert(found@.take(j as int) =~= found@);
            assert forall|x: i64| inside@.contains(x) <==> wider.contains(x) by {
                if found@.contains(x) {
                    let i = choose|i: int| 0 <= i < found@.len() && found@[i] == x;
                    assert(reports_into(t, found@[i], near));
                }
            }
            assert(inside@ =~= wider);
        }
        d = d + 1;
    }
    inside
}

/// Who is among the kids: reports of `boss`, in the realm, at the depth asked for.
pub(crate) proof fn kids_facts(t: db::Tables, person: i64, boss: i64, depth: i64)
    requires
        t.wf(),
    ensures
        order::ordered(kids(t, person, boss, depth), sibling_order()),
        forall|n: NodeRow| #[trigger]
            kids(t, person, boss, depth).contains(n) <==> reports(t, boss, depth).contains(n)
                && realm(t, person).contains(n.id),
        forall|n: NodeRow| #[trigger]
            kids(t, person, boss, depth).contains(n) ==> n.depth == depth && tables::has_id(
                t.people,
                n.id,
            ) && reports_to(t, n.id, boss),
{
    let all = reports(t, boss, depth);
    let inside = |n: NodeRow| realm(t, person).contains(n.id);
    tables::filter_holds(all, inside);
    sibling_order_is_preorder();
    order::in_order_sorts(all.filter(inside), sibling_order());
    assert forall|n: NodeRow| #[trigger] kids(t, person, boss, depth).contains(n) implies n.depth
        == depth && tables::has_id(t.people, n.id) && reports_to(t, n.id, boss) by {
        assert(all.contains(n));
        report_facts(t, boss, depth, n);
    }
}

/// Whether `person` has a reporting line to `boss`.
pub open spec fn reports_to(t: db::Tables, person: i64, boss: i64) -> bool {
    exists|k: int|
        0 <= k < t.edges.len() && edges::is_line(#[trigger] t.edges[k]) && t.edges[k].from_id
            == person && t.edges[k].to_id == boss
}

/// A report is a person of the directory with a line to the boss.
pub(crate) proof fn report_facts(t: db::Tables, boss: i64, depth: i64, n: NodeRow)
    requires
        t.wf(),
        reports(t, boss, depth).contains(n),
    ensures
        n.depth == depth,
        tables::has_id(t.people, n.id),
        reports_to(t, n.id, boss),
        n == node(tables::row(t.people, n.id)->0, depth),
{
    let pass = |e: model::EdgeRow| edges::is_line(e) && e.to_id == boss;
    let i = choose|i: int| 0 <= i < reports(t, boss, depth).len() && reports(t, boss, depth)[i] == n;
    let e = lines_to(t, boss)[i];
    tables::filter_keeps(t.edges, pass);
    assert(lines_to(t, boss).contains(e));
    assert(t.edges.contains(e));
    let k = choose|k: int| 0 <= k < t.edges.len() && t.edges[k] == e;
    assert(tables::has_id(t.people, t.edges[k].from_id));
    tables::row_found(t.people, e.from_id);
}

/// Everyone with a line to the boss is a report.
pub(crate) proof fn report_listed(t: db::Tables, boss: i64, depth: i64, k: int)
    requires
        0 <= k < t.edges.len(),
        edges::is_line(t.edges[k]),
        t.edges[k].to_id == boss,
        t.wf(),
    ensures
        exists|n: NodeRow| #[trigger] reports(t, boss, depth).contains(n) && n.id == t.edges[k].from_id,
{
    let pass = |e: model::EdgeRow| edges::is_line(e) && e.to_id == boss;
    let e = t.edges[k];
    tables::filter_keeps(t.edges, pass);
    assert(t.edges.contains(e));
    assert(lines_to(t, boss).contains(e));
    let i = choose|i: int| 0 <= i < lines_to(t, boss).len() && lines_to(t, boss)[i] == e;
    let n = reports(t, boss, depth)[i];
    tables::row_found(t.people, e.from_id);
    assert(tables::has_id(t.people, t.edges[k].from_id));
    assert(reports(t, boss, depth).contains(n));
}

/// The order of siblings compares any two and is transitive.
pub proof fn sibling_order_is_preorder()
    ensures
        order::is_preorder(sibling_order()),
{
    let le = sibling_order();
    assert forall|a: NodeRow, b: NodeRow| #[trigger] le(a, b) || le(b, a) by {
        text::text_le_total(a.name, b.name);
    }
    assert forall|a: NodeRow, b: NodeRow, c: NodeRow|
        #[trigger] le(a, b) && #[trigger] le(b, c) implies le(a, c) by {
        if order::height(a.title) == order::height(b.title) && order::height(b.title)
            == order::height(c.title) {
            text::text_le_transitive(a.name, b.name, c.name);
        }
    }
}

/// Everyone under `person` in pre-order: each person is followed by their own
/// reports, and siblings stand most senior first.
pub open spec fn subtree_nodes(t: db::Tables, person: i64) -> Seq<NodeRow> {
    walk(t, person, kids(t, person, person, 1), set![person])
}

/// The reports of `boss` that are inside, most senior first.
fn collect_kids(db: &Db, person: i64, inside: &HashSet<i64>, boss: i64, depth: i64) -> (r: Vec<
    Node,
>)
    requires
        inside@ == realm(db@, person),
    ensures
        tables::rows(r@) == kids(db@, person, boss, depth),
{
    broadcast use vstd::std_specs::hash::group_hash_axioms;

    let mut nodes = collect_reports(db, boss, depth);
    let keep = |n: &Node| -> (b: bool)
        ensures
            b == inside@.contains(n@.id),
    {
        inside.contains(&n.id)
    };
    retain(&mut nodes, keep, Ghost(|n: NodeRow| realm(db@, person).contains(n.id)));
    sort(&mut nodes);
    nodes
}

/// Everyone under `person`, any depth, without `person`.
///
/// In pre-order: each person is immediately followed by their own reports, and
/// siblings run most senior first, so indenting each by their depth reads as a tree.
pub fn subtree(db: &Db, person: i64) -> (r: Vec<Node>)
    requires
        db@.people.len() <= i64::MAX,
    ensures
        tables::rows(r@) == subtree_nodes(db@, person),
{
    broadcast use vstd::std_specs::hash::group_hash_axioms;

    let ghost t = db@;
    let mut out: Vec<Node> = Vec::new();
    if find(db.people(), person).is_none() {
        proof {
            within_nobody(t, person, MAX_DEPTH as nat);
            kids_facts(t, person, person, 1);
            let first = kids(t, person, person, 1);
            if first.len() > 0 {
                assert(first.contains(first[0]));
            }
            assert(tables::rows(out@) =~= subtree_nodes(t, person));
        }
        return out;
    }
    let inside = realm_of(db, person);
    let mut visited: HashSet<i64> = HashSet::new();
    visited.insert(person);
    // The agenda is the stack from its top down.
    let mut stack: Vec<Node> = Vec::new();
    let mut first = collect_kids(db, person, &inside, person, 1);
    let ghost kids0 = kids(t, person, person, 1);
    proof {
        kids_facts(t, person, person, 1);
        ids_are_finite(t);
        assert(visited@ =~= set![person]);
        assert forall|i: int| 0 <= i < first@.len() implies on_agenda(
            t,
            (#[trigger] first@[i])@,
            1,
        ) by {
            assert(kids0[i] == first@[i]@);
            assert(kids0.contains(kids0[i]));
        }
    }
    push_reversed(&mut stack, &mut first, Ghost(t), Ghost(1));
    assert(tables::rows(stack@).reverse() =~= kids0);
    assert(tables::rows(out@) + subtree_nodes(t, person) =~= subtree_nodes(t, person));
    while stack.len() > 0
        invariant
            t == db@,
            t.wf(),
            t.people.len() <= i64::MAX,
            inside@ == realm(t, person),
            visited@.finite(),
            visited@.subset_of(all_ids(t)),
            forall|i: int|
                0 <= i < stack@.len() ==> on_agenda(
                    t,
                    (#[trigger] stack@[i])@,
                    visited@.len() as int,
                ),
            tables::rows(out@) + walk(t, person, tables::rows(stack@).reverse(), visited@)
                == subtree_nodes(t, person),
        decreases all_ids(t).difference(visited@).len(), stack@.len(),
    {
        broadcast use vstd::std_specs::hash::group_hash_axioms;

        let ghost full = stack@;
        let n = stack.pop().unwrap();
        let ghost rest = tables::rows(stack@).reverse();
        let ghost agenda = seq![n@] + rest;
        let ghost seen = visited@;
        proof {
            assert(on_agenda(t, full[full.len() - 1]@, seen.len() as int));
            assert(tables::rows(full).reverse() =~= agenda);
            assert(agenda.drop_first() =~= rest);
            assert forall|i: int| 0 <= i < stack@.len() implies on_agenda(
                t,
                (#[trigger] stack@[i])@,
                seen.len() as int,
            ) by {
                assert(full[i] == stack@[i]);
            }
        }
        if !visited.contains(&n.id) {
            proof {
                fewer_left(t, seen, n.id);
                ids_are_finite(t);
                vstd::set_lib::lemma_len_subset(seen.insert(n.id), all_ids(t));
            }
            visited.insert(n.id);
            let mut below = collect_kids(db, person, &inside, n.id, n.depth + 1);
            let ghost under = kids(t, person, n.id, (n.depth + 1) as i64);
            proof {
                kids_facts(t, person, n.id, (n.depth + 1) as i64);
                assert forall|i: int| 0 <= i < below@.len() implies on_agenda(
                    t,
                    (#[trigger] below@[i])@,
                    visited@.len() as int,
                ) by {
                    assert(under[i] == below@[i]@);
                    assert(under.contains(under[i]));
                }
            }
            let ghost before = stack@;
            push_reversed(&mut stack, &mut below, Ghost(t), Ghost(visited@.len() as int));
            proof {
                assert(tables::rows(stack@).reverse() =~= under + rest);
                assert(tables::rows(out@.push(n)) =~= tables::rows(out@).push(n@));
                assert(tables::rows(out@) + (seq![n@] + walk(t, person, under + rest, visited@))
                    =~= tables::rows(out@.push(n)) + walk(t, person, under + rest, visited@));
            }
            out.push(n);
        }
    }
    proof {
        assert(tables::rows(stack@).reverse() =~= Seq::<NodeRow>::empty());
        assert(tables::rows(out@) + Seq::<NodeRow>::empty() =~= tables::rows(out@));
    }
    out
}

/// Whether a node may be on the agenda: a person of the directory, no deeper than
/// the number of people visited.
spec fn on_agenda(t: db::Tables, n: NodeRow, deepest: int) -> bool {
    tables::has_id(t.people, n.id) && 1 <= n.depth <= deepest
}

/// Moves `from` onto the stack, its first item on top.
fn push_reversed(
    stack: &mut Vec<Node>,
    from: &mut Vec<Node>,
    Ghost(t): Ghost<db::Tables>,
    Ghost(deepest): Ghost<int>,
)
    requires
        forall|i: int|
            0 <= i < old(stack)@.len() ==> on_agenda(t, (#[trigger] old(stack)@[i])@, deepest),
        forall|i: int|
            0 <= i < old(from)@.len() ==> on_agenda(t, (#[trigger] old(from)@[i])@, deepest),
    ensures
        tables::rows(final(stack)@) == tables::rows(old(stack)@) + tables::rows(
            old(from)@,
        ).reverse(),
        forall|i: int|
            0 <= i < final(stack)@.len() ==> on_agenda(t, (#[trigger] final(stack)@[i])@, deepest),
{
    let ghost s = stack@;
    let ghost f = from@;
    assert(tables::rows(s) + tables::rows(f.skip(f.len() as int)).reverse() =~= tables::rows(s));
    while from.len() > 0
        invariant
            from@.len() <= f.len(),
            from@ == f.take(from@.len() as int),
            tables::rows(stack@) == tables::rows(s) + tables::rows(
                f.skip(from@.len() as int),
            ).reverse(),
            forall|i: int|
                0 <= i < f.len() ==> on_agenda(t, (#[trigger] f[i])@, deepest),
            forall|i: int|
                0 <= i < stack@.len() ==> on_agenda(t, (#[trigger] stack@[i])@, deepest),
        decreases from@.len(),
    {
        let n = from.pop().unwrap();
        let ghost k = from@.len() as int;
        let ghost before = stack@;
        assert(n == f[k]);
        stack.push(n);
        assert(tables::rows(stack@) =~= tables::rows(before).push(n@));
        assert(tables::rows(f.skip(k)).reverse() =~= tables::rows(f.skip(k + 1)).reverse().push(
            f[k]@,
        ));
        assert(tables::rows(stack@) =~= tables::rows(s) + tables::rows(f.skip(k)).reverse());
        assert(from@ =~= f.take(k));
    }
    assert(f.skip(0) =~= f);
}

/// One line of a tree: `#id  Name — Title`, the title only where there is one.
pub open spec fn tree_line_text(id: i64, name: Seq<char>, title: Option<Seq<char>>) -> Seq<char> {
    "#"@ + text::decimal(id as int) + "  "@ + name + (match title {
        Some(t) => " — "@ + t,
        None => Seq::empty(),
    }) + "\n"@
}

/// Two spaces for every level.
pub open spec fn indent(levels: int) -> Seq<char> {
    text::spaces(2 * levels)
}

/// A node's line in a tree, two spaces further in for every level.
pub open spec fn tree_row(n: NodeRow) -> Seq<char> {
    indent(n.depth as int) + tree_line_text(n.id, n.name, n.title)
}

/// Each node on a line of its own.
pub open spec fn tree_body(nodes: Seq<NodeRow>) -> Seq<char> {
    nodes.flat_map(|n: NodeRow| tree_row(n))
}

/// Appends two spaces for every level.
pub(crate) fn push_indent(out: &mut String, levels: i64)
    ensures
        final(out)@ == old(out)@ + indent(levels as int),
{
    let mut k: i64 = 0;
    assert(old(out)@ + text::spaces(0) =~= old(out)@);
    if levels <= 0 {
        assert(indent(levels as int) =~= text::spaces(0));
        return ;
    }
    while k < levels
        invariant
            0 <= k <= levels,
            out@ == old(out)@ + text::spaces(2 * k),
        decreases levels - k,
    {
        push_spaces(out, 2);
        assert(old(out)@ + text::spaces(2 * k) + text::spaces(2) =~= old(out)@ + text::spaces(
            2 * (k + 1),
        ));
        k = k + 1;
    }
}

/// One line of a tree: `#id  Name — Title`, the title only where there is one.
pub fn tree_line(id: i64, name: &str, title: Option<&str>) -> (r: String)
    ensures
        r@ == tree_line_text(
            id,
            name@,
            match title {
                Some(t) => Some(t@),
                None => None,
            },
        ),
{
    let mut out: String = String::new();
    out.append("#");
    push_int(&mut out, id);
    out.append("  ");
    out.append(name);
    if let Some(t) = title {
        out.append(" — ");
        out.append(t);
    }
    out.append("\n");
    assert(out@ =~= tree_line_text(
        id,
        name@,
        match title {
            Some(t) => Some(t@),
            None => None,
        },
    ));
    out
}

/// The tree under `person`, with `person` at its root, as indented text. Titles are
/// shown so that the order of siblings can be read off, and ids because names are
/// not unique.
pub fn render_tree(db: &Db, person: i64) -> (r: Result<String, OrgError>)
    requires
        db@.people.len() <= i64::MAX,
    ensures
        match tables::row(db@.people, person) {
            Some(p) => r matches Ok(s) && s@ == tree_line_text(p.id, p.name, p.title) + tree_body(
                subtree_nodes(db@, person),
            ),
            None => r matches Err(e) && e@ == model::ErrorView::PersonNotFound(person),
        },
{
    let anchor = match get_person(db, person) {
        Some(p) => p,
        None => {
            return Err(OrgError::PersonNotFound(person));
        },
    };
    let mut out = tree_line(anchor.id, anchor.name.as_str(), title_of(&anchor.title));
    let ghost head = out@;
    let nodes = subtree(db, person);
    let ghost s = tables::rows(nodes@);
    let ghost f = |n: NodeRow| tree_row(n);
    let mut k: usize = 0;
    proof {
        text::flat_map_none(s, f);
        assert(head + Seq::<char>::empty() =~= head);
    }
    while k < nodes.len()
        invariant
            s == tables::rows(nodes@),
            f == (|n: NodeRow| tree_row(n)),
            k <= nodes@.len(),
            out@ == head + s.take(k as int).flat_map(f),
        decreases nodes@.len() - k,
    {
        let n = &nodes[k];
        let ghost before = out@;
        push_indent(&mut out, n.depth);
        let line = tree_line(n.id, n.name.as_str(), title_of(&n.title));
        out.append(line.as_str());
        proof {
            text::flat_map_step(s, f, k as int);
            assert(s[k as int] == n@);
            assert(out@ =~= before + tree_row(n@));
            assert(out@ =~= head + s.take(k + 1).flat_map(f));
        }
        k = k + 1;
    }
    proof {
        text::flat_map_none(s, f);
    }
    Ok(out)
}

} // verus!
