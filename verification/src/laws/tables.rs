//! Laws of tables and of the directory they make up.

use crate::db;
use crate::model;
use crate::tables::{self, Keyed};
use vstd::prelude::*;

verus! {

/// The rows of a vector are what its items hold, one for one.
pub proof fn rows_are_the_items<T: View>(v: Seq<T>)
    ensures
        tables::rows(v).len() == v.len(),
        forall|i: int| 0 <= i < v.len() ==> #[trigger] tables::rows(v)[i] == v[i]@,
{
}

/// Looking an id up finds the person who has it, and nobody where none has.
pub proof fn people_are_found_by_id(people: Seq<model::PersonRow>, id: i64)
    requires
        forall|i: int, j: int|
            0 <= i < j < people.len() ==> (#[trigger] people[i]).id < (#[trigger] people[j]).id,
    ensures
        forall|i: int|
            0 <= i < people.len() && (#[trigger] people[i]).id == id ==> tables::row(people, id)
                == Some(people[i]),
        tables::row(people, id) is None <==> forall|i: int|
            0 <= i < people.len() ==> (#[trigger] people[i]).id != id,
        tables::has_id(people, id) <==> exists|i: int|
            0 <= i < people.len() && (#[trigger] people[i]).id == id,
{
    assert forall|i: int| 0 <= i < people.len() && (#[trigger] people[i]).id == id implies tables::row(
        people,
        id,
    ) == Some(people[i]) by {
        assert(people[i].key() == id);
        tables::row_at(people, i);
    }
    tables::row_found(people, id);
    if tables::has_id(people, id) {
        let k = choose|k: int| 0 <= k < people.len() && (#[trigger] people[k]).key() == id;
        assert(people[k].id == id);
    }
    if exists|i: int| 0 <= i < people.len() && (#[trigger] people[i]).id == id {
        let k = choose|k: int| 0 <= k < people.len() && (#[trigger] people[k]).id == id;
        assert(people[k].key() == id);
    }
}

/// A new row gets the number after the largest in use, or 1 where none is. Once the
/// largest number of all is in use, it gets a positive number that is free, and is
/// refused only where none is.
pub proof fn new_ids_are_free(edges: Seq<model::EdgeRow>)
    requires
        forall|i: int, j: int|
            0 <= i < j < edges.len() ==> (#[trigger] edges[i]).id < (#[trigger] edges[j]).id,
    ensures
        edges.len() == 0 ==> tables::next_id(edges) == Some(1i64),
        forall|k: int|
            0 <= k < edges.len() && (#[trigger] edges[k]).id < i64::MAX && (forall|i: int|
                0 <= i < edges.len() ==> (#[trigger] edges[i]).id <= edges[k].id)
                ==> tables::next_id(edges) == Some((edges[k].id + 1) as i64),
        tables::next_id(edges) matches Some(id) ==> forall|i: int|
            0 <= i < edges.len() ==> (#[trigger] edges[i]).id != id,
        tables::next_id(edges) is None ==> forall|id: i64|
            0 < id ==> #[trigger] tables::has_id(edges, id),
{
    next_id_facts(edges);
    if edges.len() > 0 {
        let last = edges.len() - 1;
        assert forall|k: int|
            0 <= k < edges.len() && (#[trigger] edges[k]).id < i64::MAX && (forall|i: int|
                0 <= i < edges.len() ==> (#[trigger] edges[i]).id <= edges[k].id) implies tables::next_id(
            edges,
        ) == Some((edges[k].id + 1) as i64) by {
            assert(edges[last].id <= edges[k].id);
            if k < last {
                assert(edges[k].id < edges[last].id);
            }
        }
    }
    if let Some(id) = tables::next_id(edges) {
        assert forall|i: int| 0 <= i < edges.len() implies (#[trigger] edges[i]).id != id by {
            if edges[i].id == id {
                assert(edges[i].key() == id);
            }
        }
    }
}

/// The same for people.
pub proof fn new_people_get_free_ids(people: Seq<model::PersonRow>)
    requires
        forall|i: int, j: int|
            0 <= i < j < people.len() ==> (#[trigger] people[i]).id < (#[trigger] people[j]).id,
    ensures
        people.len() == 0 ==> tables::next_id(people) == Some(1i64),
        forall|k: int|
            0 <= k < people.len() && (#[trigger] people[k]).id < i64::MAX && (forall|i: int|
                0 <= i < people.len() ==> (#[trigger] people[i]).id <= people[k].id)
                ==> tables::next_id(people) == Some((people[k].id + 1) as i64),
        tables::next_id(people) matches Some(id) ==> forall|i: int|
            0 <= i < people.len() ==> (#[trigger] people[i]).id != id,
        tables::next_id(people) is None ==> forall|id: i64|
            0 < id ==> #[trigger] tables::has_id(people, id),
{
    next_id_facts(people);
    if people.len() > 0 {
        let last = people.len() - 1;
        assert forall|k: int|
            0 <= k < people.len() && (#[trigger] people[k]).id < i64::MAX && (forall|i: int|
                0 <= i < people.len() ==> (#[trigger] people[i]).id <= people[k].id) implies tables::next_id(
            people,
        ) == Some((people[k].id + 1) as i64) by {
            assert(people[last].id <= people[k].id);
            if k < last {
                assert(people[k].id < people[last].id);
            }
        }
    }
    if let Some(id) = tables::next_id(people) {
        assert forall|i: int| 0 <= i < people.len() implies (#[trigger] people[i]).id != id by {
            if people[i].id == id {
                assert(people[i].key() == id);
            }
        }
    }
}

/// What the number of a new row is, whatever the rows are.
proof fn next_id_facts<R: Keyed>(s: Seq<R>)
    requires
        tables::ids_ascend(s),
    ensures
        s.len() == 0 ==> tables::next_id(s) == Some(1i64),
        s.len() > 0 && s.last().key() < i64::MAX ==> tables::next_id(s) == Some(
            (s.last().key() + 1) as i64,
        ),
        tables::next_id(s) matches Some(id) ==> !tables::has_id(s, id),
        tables::next_id(s) is None ==> forall|id: i64| 0 < id ==> #[trigger] tables::has_id(s, id),
{
    if s.len() == 0 {
        tables::next_id_is_unused(s, 1);
    } else if s.last().key() < i64::MAX {
        tables::next_id_is_unused(s, (s.last().key() + 1) as i64);
    } else if exists|id: i64| tables::is_next_id(s, id) {
        let id = choose|id: i64| tables::is_next_id(s, id);
        tables::next_id_is_unused(s, id);
    } else if !(forall|id: i64| 0 < id ==> #[trigger] tables::has_id(s, id)) {
        let free = choose|id: i64| 0 < id && !#[trigger] tables::has_id(s, id);
        largest_free(s, free, i64::MAX);
    }
}

/// Where a positive number is free and every number above `top` is in use, some number
/// is the largest that is free.
proof fn largest_free<R: Keyed>(s: Seq<R>, free: i64, top: i64)
    requires
        s.len() > 0,
        s.last().key() == i64::MAX,
        0 < free <= top,
        !tables::has_id(s, free),
        forall|id: i64| top < id ==> #[trigger] tables::has_id(s, id),
    ensures
        exists|id: i64| tables::is_next_id(s, id),
    decreases top,
{
    if tables::has_id(s, top) {
        largest_free(s, free, (top - 1) as i64);
    } else {
        assert(tables::is_next_id(s, top));
    }
}

/// What a directory is: ids ascend, both ends of every edge are there, no two edges say
/// the same of the same pair, and every confidence is a number. Nothing else is asked of
/// the rows.
pub proof fn any_fitting_rows_make_a_directory(t: db::Tables)
    ensures
        t.wf() <==> {
            &&& forall|i: int, j: int|
                0 <= i < j < t.people.len() ==> (#[trigger] t.people[i]).id < (
                #[trigger] t.people[j]).id
            &&& forall|i: int, j: int|
                0 <= i < j < t.edges.len() ==> (#[trigger] t.edges[i]).id < (
                #[trigger] t.edges[j]).id
            &&& forall|i: int|
                0 <= i < t.edges.len() ==> (exists|k: int|
                    0 <= k < t.people.len() && (#[trigger] t.people[k]).id == (
                    #[trigger] t.edges[i]).from_id) && (exists|k: int|
                    0 <= k < t.people.len() && (#[trigger] t.people[k]).id == t.edges[i].to_id)
            &&& forall|i: int, j: int|
                0 <= i < j < t.edges.len() ==> (#[trigger] t.edges[i]).from_id != (
                #[trigger] t.edges[j]).from_id || t.edges[i].to_id != t.edges[j].to_id
                    || t.edges[i].kind != t.edges[j].kind
            &&& forall|i: int|
                0 <= i < t.edges.len() ==> match (#[trigger] t.edges[i]).confidence {
                    model::Confidence::Share { votes, total } => votes > 0 || total > 0,
                    model::Confidence::Double { bits } => bits <= 0x7ff0_0000_0000_0000
                        || 0x8000_0000_0000_0000 <= bits <= 0xfff0_0000_0000_0000,
                }
        },
{
    assert forall|id: i64| #[trigger] tables::has_id(t.people, id) <==> exists|k: int|
        0 <= k < t.people.len() && (#[trigger] t.people[k]).id == id by {
        if tables::has_id(t.people, id) {
            let k = choose|k: int| 0 <= k < t.people.len() && (#[trigger] t.people[k]).key() == id;
            assert(t.people[k].id == id);
        }
        if exists|k: int| 0 <= k < t.people.len() && (#[trigger] t.people[k]).id == id {
            let k = choose|k: int| 0 <= k < t.people.len() && (#[trigger] t.people[k]).id == id;
            assert(t.people[k].key() == id);
        }
    }
    assert(tables::ids_ascend(t.people) <==> forall|i: int, j: int|
        0 <= i < j < t.people.len() ==> (#[trigger] t.people[i]).id < (#[trigger] t.people[j]).id)
        by {
        assert(forall|i: int| #![trigger t.people[i]] t.people[i].key() == t.people[i].id);
    }
    assert(tables::ids_ascend(t.edges) <==> forall|i: int, j: int|
        0 <= i < j < t.edges.len() ==> (#[trigger] t.edges[i]).id < (#[trigger] t.edges[j]).id) by {
        assert(forall|i: int| #![trigger t.edges[i]] t.edges[i].key() == t.edges[i].id);
    }
}

} // verus!
