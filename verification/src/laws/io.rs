//! Laws of importing: what a dump brings, what it replaces, and where it stops.

use crate::db;
use crate::io;
use crate::model::{self, Confidence};
use crate::tables;
use vstd::prelude::*;

verus! {

/// Whether two edges cannot both be there: they have one id, or say one thing of one pair.
pub open spec fn excludes(a: model::EdgeRow, b: model::EdgeRow) -> bool {
    a.id == b.id || (a.from_id == b.from_id && a.to_id == b.to_id && a.kind == b.kind)
}

/// Whether `x` is `e` as a directory holds it: the same in every field, but for a confidence
/// that is no number, in place of which it is certain.
pub open spec fn is_held_as(e: model::EdgeRow, x: model::EdgeRow) -> bool {
    let number = match e.confidence {
        Confidence::Share { votes, total } => votes > 0 || total > 0,
        Confidence::Double { bits } => bits <= 0x7ff0_0000_0000_0000 || 0x8000_0000_0000_0000
            <= bits <= 0xfff0_0000_0000_0000,
    };
    &&& x.id == e.id && x.from_id == e.from_id && x.to_id == e.to_id && x.kind == e.kind
    &&& x.notes == e.notes && x.source == e.source && x.created_at == e.created_at
    &&& number ==> x.confidence == e.confidence
    &&& !number ==> x.confidence == (Confidence::Double { bits: 0x3ff0_0000_0000_0000 })
}

/// Whether somebody among `people` has the id.
pub open spec fn is_among(people: Seq<model::PersonRow>, id: i64) -> bool {
    exists|k: int| 0 <= k < people.len() && (#[trigger] people[k]).id == id
}

/// The last with an id is the one after whom nobody has it.
proof fn last_has_none_after(people: Seq<model::PersonRow>, p: model::PersonRow)
    ensures
        io::last_with(people, p.id) == Some(p) <==> exists|i: int|
            0 <= i < people.len() && #[trigger] people[i] == p && forall|j: int|
                i < j < people.len() ==> (#[trigger] people[j]).id != p.id,
        io::last_with(people, p.id) is Some <==> is_among(people, p.id),
    decreases people.len(),
{
    if people.len() > 0 {
        let rest = people.drop_last();
        let last = people.len() - 1;
        last_has_none_after(rest, p);
        io::last_with_finds(people, p.id);
        if io::last_with(people, p.id) == Some(p) {
            if people.last().id == p.id {
                assert(people[last] == p);
            } else {
                let i = choose|i: int|
                    0 <= i < rest.len() && #[trigger] rest[i] == p && forall|j: int|
                        i < j < rest.len() ==> (#[trigger] rest[j]).id != p.id;
                assert(people[i] == p);
                assert forall|j: int| i < j < people.len() implies (#[trigger] people[j]).id
                    != p.id by {
                    if j < last {
                        assert(rest[j] == people[j]);
                    }
                }
            }
        }
        if exists|i: int|
            0 <= i < people.len() && #[trigger] people[i] == p && forall|j: int|
                i < j < people.len() ==> (#[trigger] people[j]).id != p.id {
            let i = choose|i: int|
                0 <= i < people.len() && #[trigger] people[i] == p && forall|j: int|
                    i < j < people.len() ==> (#[trigger] people[j]).id != p.id;
            if i < last {
                assert(people[last].id != p.id);
                assert(rest[i] == p);
                assert forall|j: int| i < j < rest.len() implies (#[trigger] rest[j]).id
                    != p.id by {
                    assert(people[j].id != p.id);
                }
            }
        }
        if io::last_with(people, p.id) is Some {
            let q = io::last_with(people, p.id)->0;
            let k = choose|k: int| 0 <= k < people.len() && people[k] == q;
            assert(people[k].id == p.id);
        }
        if is_among(people, p.id) {
            let k = choose|k: int| 0 <= k < people.len() && (#[trigger] people[k]).id == p.id;
            assert(people[k].id == p.id);
        }
    }
}

/// Somebody has an id exactly where the last with it is somebody.
proof fn last_with_means(people: Seq<model::PersonRow>, id: i64)
    ensures
        io::last_with(people, id) is Some <==> is_among(people, id),
{
    io::last_with_finds(people, id);
    if io::last_with(people, id) is Some {
        let q = io::last_with(people, id)->0;
        let k = choose|k: int| 0 <= k < people.len() && people[k] == q;
        assert(people[k].id == id);
    }
}

/// After an import everybody in the dump is there as the last entry with their id says, and
/// everybody else as they were.
pub proof fn import_brings_the_people(t: db::Tables, dump: db::Tables, p: model::PersonRow)
    requires
        t.wf(),
    ensures
        io::imported(t, dump).wf(),
        io::imported(t, dump).people.contains(p) <==> (exists|i: int|
            0 <= i < dump.people.len() && #[trigger] dump.people[i] == p && forall|j: int|
                i < j < dump.people.len() ==> (#[trigger] dump.people[j]).id != p.id) || (
        t.people.contains(p) && !is_among(dump.people, p.id)),
{
    let v = io::imported(t, dump);
    io::imported_facts(t, dump);
    last_has_none_after(dump.people, p);
    rows_by_id(v.people, p);
    rows_by_id(t.people, p);
    assert(tables::row(v.people, p.id) == match io::last_with(dump.people, p.id) {
        Some(q) => Some(q),
        None => tables::row(t.people, p.id),
    });
}

/// A person is there exactly where looking their id up finds them.
proof fn rows_by_id(people: Seq<model::PersonRow>, p: model::PersonRow)
    requires
        tables::ids_ascend(people),
    ensures
        people.contains(p) <==> tables::row(people, p.id) == Some(p),
{
    tables::row_found(people, p.id);
    if people.contains(p) {
        let i = choose|i: int| 0 <= i < people.len() && people[i] == p;
        assert(tables::Keyed::key(people[i]) == p.id);
        tables::row_at(people, i);
    }
}

/// The last edges are those that no later one excludes.
proof fn lasting_edges(edges: Seq<model::EdgeRow>, x: model::EdgeRow)
    ensures
        io::lasts(edges, x) <==> exists|i: int|
            0 <= i < edges.len() && is_held_as(#[trigger] edges[i], x) && forall|j: int|
                i < j < edges.len() ==> !excludes(x, #[trigger] edges[j]),
    decreases edges.len(),
{
    if edges.len() > 0 {
        let rest = edges.drop_last();
        let last = edges.len() - 1;
        lasting_edges(rest, x);
        assert(io::as_kept(edges[last]) == x <==> is_held_as(edges[last], x));
        if io::lasts(edges, x) {
            if io::as_kept(edges.last()) == x {
                assert(is_held_as(edges[last], x));
            } else {
                let i = choose|i: int|
                    0 <= i < rest.len() && is_held_as(#[trigger] rest[i], x) && forall|j: int|
                        i < j < rest.len() ==> !excludes(x, #[trigger] rest[j]);
                assert(is_held_as(edges[i], x));
                assert forall|j: int| i < j < edges.len() implies !excludes(
                    x,
                    #[trigger] edges[j],
                ) by {
                    if j < last {
                        assert(rest[j] == edges[j]);
                    }
                }
            }
        }
        if exists|i: int|
            0 <= i < edges.len() && is_held_as(#[trigger] edges[i], x) && forall|j: int|
                i < j < edges.len() ==> !excludes(x, #[trigger] edges[j]) {
            let i = choose|i: int|
                0 <= i < edges.len() && is_held_as(#[trigger] edges[i], x) && forall|j: int|
                    i < j < edges.len() ==> !excludes(x, #[trigger] edges[j]);
            if i < last {
                assert(!excludes(x, edges[last]));
                assert(is_held_as(rest[i], x));
                assert forall|j: int| i < j < rest.len() implies !excludes(
                    x,
                    #[trigger] rest[j],
                ) by {
                    assert(rest[j] == edges[j]);
                }
            }
        }
    }
}

/// Whether both ends of an edge are people of the directory or of the dump.
pub open spec fn ends_are_known(t: db::Tables, dump: db::Tables, e: model::EdgeRow) -> bool {
    &&& is_among(t.people, e.from_id) || is_among(dump.people, e.from_id)
    &&& is_among(t.people, e.to_id) || is_among(dump.people, e.to_id)
}

/// An import takes the edges of the dump up to the first with an end that nobody has, and
/// succeeds exactly where there is none. Of the edges it takes, those stay that no later one
/// excludes; of the edges that were there, those that none of them excludes and that touch
/// nobody in the dump.
pub proof fn import_brings_the_edges(t: db::Tables, dump: db::Tables, n: int, x: model::EdgeRow)
    requires
        t.wf(),
        0 <= n <= dump.edges.len(),
        forall|i: int| 0 <= i < n ==> ends_are_known(t, dump, #[trigger] dump.edges[i]),
        n < dump.edges.len() ==> !ends_are_known(t, dump, dump.edges[n]),
    ensures
        io::imports_whole(t, dump) <==> n == dump.edges.len(),
        io::imported(t, dump).edges.contains(x) <==> {
            ||| exists|i: int|
                0 <= i < n && is_held_as(#[trigger] dump.edges[i], x) && forall|j: int|
                    i < j < n ==> !excludes(x, #[trigger] dump.edges[j])
            ||| {
                &&& t.edges.contains(x)
                &&& !is_among(dump.people, x.from_id) && !is_among(dump.people, x.to_id)
                &&& forall|i: int| 0 <= i < n ==> !excludes(x, #[trigger] dump.edges[i])
            }
        },
{
    let u = io::people_loaded(t, dump.people);
    let m = io::loadable(u, dump.edges) as int;
    io::people_loaded_facts(t, dump.people);
    io::loadable_facts(u, dump.edges);
    io::imported_facts(t, dump);
    assert forall|e: model::EdgeRow| #[trigger] io::has_ends(u, e) <==> ends_are_known(
        t,
        dump,
        e,
    ) by {
        ids_after_loading(t, dump, e.from_id);
        ids_after_loading(t, dump, e.to_id);
    }
    assert(m == n) by {
        if m < n {
            assert(ends_are_known(t, dump, dump.edges[m]));
            assert(!io::has_ends(u, dump.edges[m]));
        } else if n < m {
            assert(io::has_ends(u, dump.edges[n]));
        }
    }
    let es = dump.edges.take(n);
    lasting_edges(es, x);
    last_with_means(dump.people, x.from_id);
    last_with_means(dump.people, x.to_id);
    if io::lasts(es, x) {
        let i = choose|i: int|
            0 <= i < es.len() && is_held_as(#[trigger] es[i], x) && forall|j: int|
                i < j < es.len() ==> !excludes(x, #[trigger] es[j]);
        assert(is_held_as(dump.edges[i], x));
        assert forall|j: int| i < j < n implies !excludes(x, #[trigger] dump.edges[j]) by {
            assert(es[j] == dump.edges[j]);
        }
    }
    if exists|i: int|
        0 <= i < n && is_held_as(#[trigger] dump.edges[i], x) && forall|j: int|
            i < j < n ==> !excludes(x, #[trigger] dump.edges[j]) {
        let i = choose|i: int|
            0 <= i < n && is_held_as(#[trigger] dump.edges[i], x) && forall|j: int|
                i < j < n ==> !excludes(x, #[trigger] dump.edges[j]);
        assert(is_held_as(es[i], x));
        assert forall|j: int| i < j < es.len() implies !excludes(x, #[trigger] es[j]) by {
            assert(es[j] == dump.edges[j]);
        }
    }
    if io::clear_of(x, es) {
        assert forall|i: int| 0 <= i < n implies !excludes(x, #[trigger] dump.edges[i]) by {
            assert(!io::clash(x, es[i]));
        }
    }
    if forall|i: int| 0 <= i < n ==> !excludes(x, #[trigger] dump.edges[i]) {
        assert forall|i: int| 0 <= i < es.len() implies !io::clash(x, #[trigger] es[i]) by {
            assert(!excludes(x, dump.edges[i]));
        }
    }
    assert(io::imported(t, dump).edges.contains(x) <==> (t.edges.contains(x) && !io::touches(
        dump.people,
        x,
    ) && io::clear_of(x, es)) || io::lasts(es, x));
}

/// Once the people of a dump are loaded, the ids are those of before and those of the dump.
proof fn ids_after_loading(t: db::Tables, dump: db::Tables, id: i64)
    requires
        t.wf(),
    ensures
        tables::has_id(io::people_loaded(t, dump.people).people, id) <==> is_among(t.people, id)
            || is_among(dump.people, id),
{
    let u = io::people_loaded(t, dump.people);
    io::people_loaded_facts(t, dump.people);
    last_with_means(dump.people, id);
    tables::row_found(u.people, id);
    crate::laws::tables::people_are_found_by_id(t.people, id);
    assert(tables::row(u.people, id) == match io::last_with(dump.people, id) {
        Some(q) => Some(q),
        None => tables::row(t.people, id),
    });
}

} // verus!
