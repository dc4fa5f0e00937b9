//! Export and import of the whole directory.
//!
//! An export is a full dump, people and relationships, for backup and transfer. An
//! import loads a dump into a directory and keeps the ids, so reporting lines stay
//! intact. Exporting and importing into an empty directory gives the same directory.

use crate::db::{self, Db};
use crate::edges::{self, missing_end};
use crate::model::{self, Confidence, OrgError, Person, Relationship, ONE_BITS};
use crate::tables::{self, find, put_row, retain, Keyed};
use crate::text::same_text;
use vstd::prelude::*;

verus! {

/// A whole directory as it is written down. `version` tells formats apart, should
/// there ever be another one.
#[derive(Debug)]
pub struct OrgDump {
    pub version: u32,
    pub people: Vec<Person>,
    pub relationships: Vec<Relationship>,
}

/// The version of the dump format.
pub const DUMP_VERSION: u32 = 1;

impl OrgDump {
    /// The rows of the dump, which need not make a directory.
    pub open spec fn rows(&self) -> db::Tables {
        db::Tables {
            people: tables::rows(self.people@),
            edges: tables::rows(self.relationships@),
        }
    }
}

impl Clone for OrgDump {
    fn clone(&self) -> (r: OrgDump)
        ensures
            r.version == self.version,
            r.people@ == self.people@,
            r.relationships@ == self.relationships@,
    {
        let r = OrgDump {
            version: self.version,
            people: self.people.clone(),
            relationships: self.relationships.clone(),
        };
        assert(r.people@ =~= self.people@);
        assert(r.relationships@ =~= self.relationships@);
        r
    }
}

/// Everyone and every edge of the directory, each by ascending id.
pub fn export(db: &Db) -> (r: OrgDump)
    ensures
        r.version == DUMP_VERSION,
        r.rows() == db@,
        db@.wf(),
{
    let r = OrgDump {
        version: DUMP_VERSION,
        people: db.people().clone(),
        relationships: db.relationships().clone(),
    };
    assert(r.rows().people =~= db@.people);
    assert(r.rows().edges =~= db@.edges);
    r
}

/// The directory after a person of a dump came in. Whoever had that id before is
/// gone, with every edge from or to them.
pub open spec fn person_loaded(t: db::Tables, p: model::PersonRow) -> db::Tables {
    t.without_person(p.id).with_person(p)
}

/// The directory after the people of a dump came in, in order.
pub open spec fn people_loaded(t: db::Tables, people: Seq<model::PersonRow>) -> db::Tables
    decreases people.len(),
{
    if people.len() == 0 {
        t
    } else {
        person_loaded(people_loaded(t, people.drop_last()), people.last())
    }
}

/// Whether two edges cannot both be in a directory: same id, or same pairing.
pub open spec fn clash(a: model::EdgeRow, b: model::EdgeRow) -> bool {
    a.id == b.id || db::same_pairing(a, b)
}

/// Whether both ends of an edge are people of the directory.
pub open spec fn has_ends(t: db::Tables, e: model::EdgeRow) -> bool {
    tables::has_id(t.people, e.from_id) && tables::has_id(t.people, e.to_id)
}

/// An edge of a dump as it is kept: a confidence that is not a number becomes 1.0,
/// which is the default of the storage layer.
pub open spec fn as_kept(e: model::EdgeRow) -> model::EdgeRow {
    if e.confidence.number() {
        e
    } else {
        model::EdgeRow { confidence: Confidence::Double { bits: ONE_BITS }, ..e }
    }
}

/// The directory after an edge of a dump came in, in place of every edge that it
/// clashes with.
pub open spec fn edge_loaded(t: db::Tables, e: model::EdgeRow) -> db::Tables {
    t.with_edges(|x: model::EdgeRow| !clash(x, e)).with_edge(as_kept(e))
}

/// The directory after edges of a dump came in, in order.
pub open spec fn edges_loaded(t: db::Tables, edges: Seq<model::EdgeRow>) -> db::Tables
    decreases edges.len(),
{
    if edges.len() == 0 {
        t
    } else {
        edge_loaded(edges_loaded(t, edges.drop_last()), edges.last())
    }
}

/// How many edges of a dump come in: all up to the first that has an end nobody is at.
pub open spec fn loadable(t: db::Tables, edges: Seq<model::EdgeRow>) -> nat
    decreases edges.len(),
{
    if edges.len() == 0 || !has_ends(t, edges[0]) {
        0
    } else {
        1 + loadable(t, edges.drop_first())
    }
}

/// The directory after a dump came in: everyone, and the edges up to the first that
/// has an end nobody is at.
pub open spec fn imported(t: db::Tables, dump: db::Tables) -> db::Tables {
    let u = people_loaded(t, dump.people);
    edges_loaded(u, dump.edges.take(loadable(u, dump.edges) as int))
}

/// Whether every edge of a dump has two ends once its people came in.
pub open spec fn imports_whole(t: db::Tables, dump: db::Tables) -> bool {
    loadable(people_loaded(t, dump.people), dump.edges) == dump.edges.len()
}

/// Puts a person in, in place of whoever had that id and of that person's edges.
fn replace_person(db: &mut Db, p: &Person)
    ensures
        final(db)@ == person_loaded(old(db)@, p@),
{
    let ghost t = db@;
    let id: i64 = p.id;
    let (mut people, mut relationships) = db.take_rows();
    let other = |x: &Person| -> (b: bool)
        ensures
            b == (x@.id != id),
    {
        x.id != id
    };
    let apart = |e: &Relationship| -> (b: bool)
        ensures
            b == (e@.from_id != id && e@.to_id != id),
    {
        e.from_id != id && e.to_id != id
    };
    retain(&mut people, other, Ghost(|x: model::PersonRow| x.id != id));
    retain(
        &mut relationships,
        apart,
        Ghost(|e: model::EdgeRow| e.from_id != id && e.to_id != id),
    );
    proof {
        db::without_person_wf(t, id);
        db::with_person_wf(t.without_person(id), p@);
    }
    put_row(&mut people, p.clone());
    *db = Db::assemble(people, relationships);
}

/// Puts an edge in, in place of every edge it clashes with, unless an end is missing.
fn replace_edge(db: &mut Db, e: &Relationship) -> (r: Result<(), OrgError>)
    ensures
        if has_ends(old(db)@, e@) {
            r is Ok && final(db)@ == edge_loaded(old(db)@, e@)
        } else {
            r matches Err(x) && x@ == edges::no_such_end() && final(db)@ == old(db)@
        },
{
    let ghost t = db@;
    if find(db.people(), e.from_id).is_none() || find(db.people(), e.to_id).is_none() {
        return Err(missing_end());
    }
    let (people, mut relationships) = db.take_rows();
    let clear = |x: &Relationship| -> (b: bool)
        ensures
            b == !clash(x@, e@),
    {
        !(x.id == e.id || (x.from_id == e.from_id && x.to_id == e.to_id && same_text(
            x.kind.as_str(),
            e.kind.as_str(),
        )))
    };
    retain(&mut relationships, clear, Ghost(|x: model::EdgeRow| !clash(x, e@)));
    proof {
        edge_loaded_facts(t, e@);
        db::with_edges_wf(t, |x: model::EdgeRow| !clash(x, e@));
    }
    let mut kept = e.clone();
    if !e.confidence.is_number() {
        kept.confidence = Confidence::Double { bits: ONE_BITS };
    }
    assert(kept@ =~= as_kept(e@));
    put_row(&mut relationships, kept);
    *db = Db::assemble(people, relationships);
    Ok(())
}

/// Loads a dump into the directory and keeps its ids. A row with the same id, or an
/// edge that says the same, is overwritten, so importing again changes nothing.
///
/// Overwriting a person drops every edge from or to them, so those that the dump does
/// not hold are gone. A confidence that is not a number comes in as 1.0. At the first
/// edge that has an end nobody is at, the import stops; what came in before stays.
pub fn import(db: &mut Db, dump: &OrgDump) -> (r: Result<(), OrgError>)
    ensures
        final(db)@ == imported(old(db)@, dump.rows()),
        if imports_whole(old(db)@, dump.rows()) {
            r is Ok
        } else {
            r matches Err(e) && e@ == edges::no_such_end()
        },
{
    let ghost t = db@;
    let ghost people = dump.rows().people;
    let ghost edges = dump.rows().edges;
    let mut k: usize = 0;
    assert(people.take(0) =~= Seq::<model::PersonRow>::empty());
    while k < dump.people.len()
        invariant
            people == tables::rows(dump.people@),
            k <= dump.people@.len(),
            db@ == people_loaded(t, people.take(k as int)),
        decreases dump.people@.len() - k,
    {
        replace_person(db, &dump.people[k]);
        assert(people.take(k + 1).drop_last() =~= people.take(k as int));
        assert(people.take(k + 1).last() == people[k as int]);
        k = k + 1;
    }
    assert(people.take(k as int) =~= people);
    let ghost u = db@;
    let mut m: usize = 0;
    assert(edges.take(0) =~= Seq::<model::EdgeRow>::empty());
    assert(edges.skip(0) =~= edges);
    while m < dump.relationships.len()
        invariant
            edges == tables::rows(dump.relationships@),
            people == dump.rows().people,
            edges == dump.rows().edges,
            u == people_loaded(t, people),
            t == old(db)@,
            m <= dump.relationships@.len(),
            db@ == edges_loaded(u, edges.take(m as int)),
            db@.people == u.people,
            loadable(u, edges) == m + loadable(u, edges.skip(m as int)),
        decreases dump.relationships@.len() - m,
    {
        assert(edges.skip(m as int)[0] == edges[m as int]);
        assert(edges.skip(m as int).drop_first() =~= edges.skip(m + 1));
        if let Err(e) = replace_edge(db, &dump.relationships[m]) {
            return Err(e);
        }
        assert(edges.take(m + 1).drop_last() =~= edges.take(m as int));
        assert(edges.take(m + 1).last() == edges[m as int]);
        m = m + 1;
    }
    assert(edges.take(m as int) =~= edges);
    Ok(())
}

/// What loading one edge does to the set of edges.
proof fn edge_loaded_facts(t: db::Tables, e: model::EdgeRow)
    requires
        t.wf(),
    ensures
        edge_loaded(t, e).people == t.people,
        tables::ids_ascend(edge_loaded(t, e).edges),
        forall|x: model::EdgeRow| #[trigger]
            edge_loaded(t, e).edges.contains(x) <==> x == as_kept(e) || (t.edges.contains(x)
                && !clash(x, e)),
        has_ends(t, e) ==> edge_loaded(t, e).wf(),
{
    let clear = |x: model::EdgeRow| !clash(x, e);
    let u = t.with_edges(clear);
    tables::filter_keeps(t.edges, clear);
    db::with_edges_wf(t, clear);
    tables::put_keeps(u.edges, as_kept(e));
    if has_ends(t, e) {
        db::with_edge_wf(u, as_kept(e));
    }
}

/// What loading one person does to the directory.
proof fn person_loaded_facts(t: db::Tables, p: model::PersonRow)
    requires
        t.wf(),
    ensures
        person_loaded(t, p).wf(),
        forall|id: i64| #[trigger]
            tables::row(person_loaded(t, p).people, id) == if id == p.id {
                Some(p)
            } else {
                tables::row(t.people, id)
            },
        forall|x: model::EdgeRow| #[trigger]
            person_loaded(t, p).edges.contains(x) <==> t.edges.contains(x) && x.from_id != p.id
                && x.to_id != p.id,
{
    let u = t.without_person(p.id);
    let other = |x: model::PersonRow| x.id != p.id;
    db::without_person_wf(t, p.id);
    db::with_person_wf(u, p);
    tables::filter_keeps(t.edges, |e: model::EdgeRow| e.from_id != p.id && e.to_id != p.id);
    assert forall|id: i64| #[trigger]
        tables::row(person_loaded(t, p).people, id) == if id == p.id {
            Some(p)
        } else {
            tables::row(t.people, id)
        } by {
        tables::row_after_put(u.people, p, id);
        tables::row_after_filter(t.people, other, id);
        tables::row_found(t.people, id);
    }
}

/// The last of the people that has the id `id`, if any has.
pub open spec fn last_with(people: Seq<model::PersonRow>, id: i64) -> Option<model::PersonRow>
    decreases people.len(),
{
    if people.len() == 0 {
        None
    } else if people.last().id == id {
        Some(people.last())
    } else {
        last_with(people.drop_last(), id)
    }
}

/// Whether an edge is from or to one of the people.
pub open spec fn touches(people: Seq<model::PersonRow>, e: model::EdgeRow) -> bool {
    last_with(people, e.from_id) is Some || last_with(people, e.to_id) is Some
}

pub(crate) proof fn people_loaded_facts(t: db::Tables, people: Seq<model::PersonRow>)
    requires
        t.wf(),
    ensures
        people_loaded(t, people).wf(),
        forall|id: i64| #[trigger]
            tables::row(people_loaded(t, people).people, id) == match last_with(people, id) {
                Some(p) => Some(p),
                None => tables::row(t.people, id),
            },
        forall|x: model::EdgeRow| #[trigger]
            people_loaded(t, people).edges.contains(x) <==> t.edges.contains(x) && !touches(
                people,
                x,
            ),
    decreases people.len(),
{
    if people.len() > 0 {
        let rest = people.drop_last();
        people_loaded_facts(t, rest);
        person_loaded_facts(people_loaded(t, rest), people.last());
    }
}

/// Whether an edge clashes with none of `edges`.
pub open spec fn clear_of(x: model::EdgeRow, edges: Seq<model::EdgeRow>) -> bool {
    forall|i: int| 0 <= i < edges.len() ==> !clash(x, #[trigger] edges[i])
}

/// Whether `x` is one of `edges` as it is kept, and no later one clashes with it.
pub open spec fn lasts(edges: Seq<model::EdgeRow>, x: model::EdgeRow) -> bool
    decreases edges.len(),
{
    edges.len() > 0 && (as_kept(edges.last()) == x || (lasts(edges.drop_last(), x) && !clash(
        x,
        edges.last(),
    )))
}

proof fn clear_of_step(x: model::EdgeRow, edges: Seq<model::EdgeRow>)
    requires
        edges.len() > 0,
    ensures
        clear_of(x, edges) <==> clear_of(x, edges.drop_last()) && !clash(x, edges.last()),
{
    let rest = edges.drop_last();
    assert(edges.last() == edges[edges.len() - 1]);
    if clear_of(x, edges) {
        assert forall|i: int| 0 <= i < rest.len() implies !clash(x, #[trigger] rest[i]) by {
            assert(rest[i] == edges[i]);
        }
    }
    if clear_of(x, rest) && !clash(x, edges.last()) {
        assert forall|i: int| 0 <= i < edges.len() implies !clash(x, #[trigger] edges[i]) by {
            if i < rest.len() {
                assert(rest[i] == edges[i]);
            }
        }
    }
}

proof fn edges_loaded_facts(t: db::Tables, edges: Seq<model::EdgeRow>)
    requires
        t.wf(),
        forall|i: int| 0 <= i < edges.len() ==> has_ends(t, #[trigger] edges[i]),
    ensures
        edges_loaded(t, edges).wf(),
        edges_loaded(t, edges).people == t.people,
        forall|x: model::EdgeRow| #[trigger]
            edges_loaded(t, edges).edges.contains(x) <==> (t.edges.contains(x) && clear_of(
                x,
                edges,
            )) || lasts(edges, x),
    decreases edges.len(),
{
    if edges.len() > 0 {
        let rest = edges.drop_last();
        assert forall|i: int| 0 <= i < rest.len() implies has_ends(t, #[trigger] rest[i]) by {
            assert(rest[i] == edges[i]);
        }
        assert(edges.last() == edges[edges.len() - 1]);
        edges_loaded_facts(t, rest);
        let mid = edges_loaded(t, rest);
        assert(has_ends(mid, edges.last()));
        edge_loaded_facts(mid, edges.last());
        assert forall|x: model::EdgeRow| #[trigger]
            edges_loaded(t, edges).edges.contains(x) <==> (t.edges.contains(x) && clear_of(
                x,
                edges,
            )) || lasts(edges, x) by {
            clear_of_step(x, edges);
            assert(mid.edges.contains(x) <==> (t.edges.contains(x) && clear_of(x, rest)) || lasts(
                rest,
                x,
            ));
        }
    }
}

pub(crate) proof fn loadable_facts(t: db::Tables, edges: Seq<model::EdgeRow>)
    ensures
        loadable(t, edges) <= edges.len(),
        forall|i: int| 0 <= i < loadable(t, edges) ==> has_ends(t, #[trigger] edges[i]),
        loadable(t, edges) < edges.len() ==> !has_ends(t, edges[loadable(t, edges) as int]),
    decreases edges.len(),
{
    if edges.len() > 0 && has_ends(t, edges[0]) {
        let rest = edges.drop_first();
        loadable_facts(t, rest);
        assert forall|i: int| 0 <= i < loadable(t, edges) implies has_ends(
            t,
            #[trigger] edges[i],
        ) by {
            if i > 0 {
                assert(rest[i - 1] == edges[i]);
            }
        }
        if loadable(t, edges) < edges.len() {
            assert(rest[loadable(t, rest) as int] == edges[loadable(t, edges) as int]);
        }
    }
}

proof fn loadable_by_ids(t: db::Tables, u: db::Tables, edges: Seq<model::EdgeRow>)
    requires
        forall|id: i64| #[trigger]
            tables::has_id(t.people, id) <==> tables::has_id(u.people, id),
    ensures
        loadable(t, edges) == loadable(u, edges),
    decreases edges.len(),
{
    if edges.len() > 0 {
        loadable_by_ids(t, u, edges.drop_first());
    }
}

proof fn same_lookups_same_table<R: Keyed>(a: Seq<R>, b: Seq<R>)
    requires
        tables::ids_ascend(a),
        tables::ids_ascend(b),
        forall|id: i64| #[trigger] tables::row(a, id) == tables::row(b, id),
    ensures
        a == b,
{
    assert forall|x: R| a.contains(x) <==> b.contains(x) by {
        tables::row_found(a, x.key());
        tables::row_found(b, x.key());
        assert(tables::row(a, x.key()) == tables::row(b, x.key()));
        if a.contains(x) {
            let i = choose|i: int| 0 <= i < a.len() && a[i] == x;
            tables::row_at(a, i);
        }
        if b.contains(x) {
            let i = choose|i: int| 0 <= i < b.len() && b[i] == x;
            tables::row_at(b, i);
        }
    }
    tables::same_rows_same_table(a, b);
}

/// What importing does to a directory, said of its rows.
pub(crate) proof fn imported_facts(t: db::Tables, dump: db::Tables)
    requires
        t.wf(),
    ensures
        ({
            let n = loadable(people_loaded(t, dump.people), dump.edges) as int;
            let es = dump.edges.take(n);
            let v = imported(t, dump);
            &&& 0 <= n <= dump.edges.len()
            &&& v.wf()
            &&& forall|id: i64| #[trigger]
                tables::row(v.people, id) == match last_with(dump.people, id) {
                    Some(p) => Some(p),
                    None => tables::row(t.people, id),
                }
            &&& forall|x: model::EdgeRow| #[trigger]
                v.edges.contains(x) <==> (t.edges.contains(x) && !touches(dump.people, x)
                    && clear_of(x, es)) || lasts(es, x)
        }),
{
    let u = people_loaded(t, dump.people);
    let n = loadable(u, dump.edges) as int;
    let es = dump.edges.take(n);
    people_loaded_facts(t, dump.people);
    loadable_facts(u, dump.edges);
    assert forall|i: int| 0 <= i < es.len() implies has_ends(u, #[trigger] es[i]) by {
        assert(es[i] == dump.edges[i]);
    }
    edges_loaded_facts(u, es);
}

/// Importing keeps what always holds of a directory.
pub proof fn import_keeps_wf(t: db::Tables, dump: db::Tables)
    requires
        t.wf(),
    ensures
        imported(t, dump).wf(),
{
    imported_facts(t, dump);
}

proof fn lasts_clashes(edges: Seq<model::EdgeRow>, x: model::EdgeRow)
    requires
        lasts(edges, x),
    ensures
        !clear_of(x, edges),
    decreases edges.len(),
{
    clear_of_step(x, edges);
    if as_kept(edges.last()) != x {
        lasts_clashes(edges.drop_last(), x);
    }
}

/// Importing is idempotent: importing the same dump a second time changes nothing,
/// and ends as the first time did.
pub proof fn import_is_idempotent(t: db::Tables, dump: db::Tables)
    requires
        t.wf(),
    ensures
        imported(imported(t, dump), dump) == imported(t, dump),
        imports_whole(imported(t, dump), dump) <==> imports_whole(t, dump),
{
    let u = people_loaded(t, dump.people);
    let v = imported(t, dump);
    let u2 = people_loaded(v, dump.people);
    let w = imported(v, dump);
    imported_facts(t, dump);
    imported_facts(v, dump);
    people_loaded_facts(t, dump.people);
    people_loaded_facts(v, dump.people);
    assert forall|id: i64| #[trigger] tables::row(u2.people, id) == tables::row(u.people, id) by {
        assert(tables::row(v.people, id) == match last_with(dump.people, id) {
            Some(p) => Some(p),
            None => tables::row(t.people, id),
        });
    }
    same_lookups_same_table(u2.people, u.people);
    loadable_by_ids(u2, u, dump.edges);
    let es = dump.edges.take(loadable(u, dump.edges) as int);
    assert forall|id: i64| #[trigger] tables::row(w.people, id) == tables::row(v.people, id) by {}
    same_lookups_same_table(w.people, v.people);
    assert forall|x: model::EdgeRow| w.edges.contains(x) <==> v.edges.contains(x) by {
        if lasts(es, x) {
            lasts_clashes(es, x);
        }
    }
    tables::same_rows_same_table(w.edges, v.edges);
}

proof fn last_with_is_row(people: Seq<model::PersonRow>, id: i64)
    requires
        tables::ids_ascend(people),
    ensures
        last_with(people, id) == tables::row(people, id),
    decreases people.len(),
{
    if people.len() == 0 {
        tables::row_found(people, id);
    } else {
        let rest = people.drop_last();
        assert(tables::ids_ascend(rest)) by {
            assert forall|i: int, j: int| 0 <= i < j < rest.len() implies (
            #[trigger] rest[i]).key() < (#[trigger] rest[j]).key() by {
                assert(people[i].key() < people[j].key());
            }
        }
        last_with_is_row(rest, id);
        if people.last().id == id {
            tables::row_at(people, people.len() - 1);
        } else {
            tables::row_found(rest, id);
            tables::row_found(people, id);
            if tables::has_id(rest, id) {
                let r = tables::row(rest, id)->0;
                let i = choose|i: int| 0 <= i < rest.len() && rest[i] == r;
                assert(people[i] == r);
                tables::row_at(people, i);
            } else if tables::has_id(people, id) {
                let i = choose|i: int| 0 <= i < people.len() && (#[trigger] people[i]).key() == id;
                assert(rest[i].key() == id);
            }
        }
    }
}

/// Whether no two people of a dump have the same id.
pub open spec fn people_differ(people: Seq<model::PersonRow>) -> bool {
    forall|i: int, j: int|
        0 <= i < j < people.len() ==> (#[trigger] people[i]).id != (#[trigger] people[j]).id
}

/// Whether no two edges of a dump have the same id or the same pairing.
pub open spec fn edges_differ(edges: Seq<model::EdgeRow>) -> bool {
    forall|i: int, j: int|
        0 <= i < j < edges.len() ==> !clash(#[trigger] edges[i], #[trigger] edges[j])
}

pub(crate) proof fn last_with_finds(people: Seq<model::PersonRow>, id: i64)
    ensures
        last_with(people, id) matches Some(p) ==> p.id == id && people.contains(p),
        last_with(people, id) is None ==> forall|i: int|
            0 <= i < people.len() ==> (#[trigger] people[i]).id != id,
    decreases people.len(),
{
    if people.len() > 0 {
        let rest = people.drop_last();
        last_with_finds(rest, id);
        assert(people.last() == people[people.len() - 1]);
        if people.last().id != id {
            if let Some(p) = last_with(rest, id) {
                let i = choose|i: int| 0 <= i < rest.len() && rest[i] == p;
                assert(people[i] == p);
            } else {
                assert forall|i: int| 0 <= i < people.len() implies (#[trigger] people[i]).id
                    != id by {
                    if i < rest.len() {
                        assert(rest[i] == people[i]);
                    }
                }
            }
        }
    }
}

proof fn lasts_is_any(edges: Seq<model::EdgeRow>, x: model::EdgeRow)
    requires
        edges_differ(edges),
    ensures
        lasts(edges, x) <==> exists|i: int| 0 <= i < edges.len() && as_kept(#[trigger] edges[i])
            == x,
    decreases edges.len(),
{
    if edges.len() > 0 {
        let rest = edges.drop_last();
        let n = edges.len() - 1;
        assert forall|i: int, j: int| 0 <= i < j < rest.len() implies !clash(
            #[trigger] rest[i],
            #[trigger] rest[j],
        ) by {
            assert(!clash(edges[i], edges[j]));
        }
        lasts_is_any(rest, x);
        assert(edges[n] == edges.last());
        if exists|i: int| 0 <= i < edges.len() && as_kept(#[trigger] edges[i]) == x {
            let i = choose|i: int| 0 <= i < edges.len() && as_kept(#[trigger] edges[i]) == x;
            if i < n {
                assert(as_kept(rest[i]) == x);
                assert(!clash(edges[i], edges[n]));
            }
        }
        if exists|i: int| 0 <= i < rest.len() && as_kept(#[trigger] rest[i]) == x {
            let i = choose|i: int| 0 <= i < rest.len() && as_kept(#[trigger] rest[i]) == x;
            assert(as_kept(edges[i]) == x);
        }
    }
}

proof fn lasts_is_contains(dump: db::Tables, x: model::EdgeRow)
    requires
        dump.wf(),
    ensures
        lasts(dump.edges, x) <==> dump.edges.contains(x),
{
    let edges = dump.edges;
    assert forall|i: int, j: int| 0 <= i < j < edges.len() implies !clash(
        #[trigger] edges[i],
        #[trigger] edges[j],
    ) by {
        assert(edges[i].key() < edges[j].key());
        assert(!db::same_pairing(edges[i], edges[j]));
    }
    lasts_is_any(edges, x);
    if edges.contains(x) {
        let i = choose|i: int| 0 <= i < edges.len() && edges[i] == x;
        assert(as_kept(edges[i]) == x);
    }
}

/// An import that succeeds keeps every row of the dump, wherever ids and pairings are
/// told apart: each person is found as given, each edge is there as given (but for a
/// confidence that is not a number), and the people of the dump have no other edges.
/// Everyone else is as before, and so is every edge between others that does not clash
/// with one of the dump.
pub proof fn import_keeps_every_row(t: db::Tables, dump: db::Tables)
    requires
        t.wf(),
        people_differ(dump.people),
        edges_differ(dump.edges),
        imports_whole(t, dump),
    ensures
        forall|i: int|
            0 <= i < dump.people.len() ==> tables::row(
                imported(t, dump).people,
                (#[trigger] dump.people[i]).id,
            ) == Some(dump.people[i]),
        forall|id: i64|
            !tables::has_id(dump.people, id) ==> #[trigger] tables::row(
                imported(t, dump).people,
                id,
            ) == tables::row(t.people, id),
        forall|i: int|
            0 <= i < dump.edges.len() ==> imported(t, dump).edges.contains(
                as_kept(#[trigger] dump.edges[i]),
            ),
        forall|x: model::EdgeRow| #[trigger]
            imported(t, dump).edges.contains(x) && (tables::has_id(dump.people, x.from_id)
                || tables::has_id(dump.people, x.to_id)) ==> exists|i: int|
                0 <= i < dump.edges.len() && as_kept(#[trigger] dump.edges[i]) == x,
        forall|x: model::EdgeRow|
            !tables::has_id(dump.people, x.from_id) && !tables::has_id(dump.people, x.to_id)
                && clear_of(x, dump.edges) ==> (#[trigger] imported(t, dump).edges.contains(x)
                <==> t.edges.contains(x)),
{
    let v = imported(t, dump);
    let n = loadable(people_loaded(t, dump.people), dump.edges) as int;
    imported_facts(t, dump);
    assert(dump.edges.take(n) =~= dump.edges);
    assert forall|id: i64| #[trigger] tables::has_id(dump.people, id) <==> last_with(
        dump.people,
        id,
    ) is Some by {
        last_with_finds(dump.people, id);
        if let Some(p) = last_with(dump.people, id) {
            let i = choose|i: int| 0 <= i < dump.people.len() && dump.people[i] == p;
            assert(dump.people[i].key() == id);
        }
    }
    assert forall|i: int| 0 <= i < dump.people.len() implies tables::row(
        v.people,
        (#[trigger] dump.people[i]).id,
    ) == Some(dump.people[i]) by {
        let id = dump.people[i].id;
        last_with_finds(dump.people, id);
        let p = last_with(dump.people, id)->0;
        let j = choose|j: int| 0 <= j < dump.people.len() && dump.people[j] == p;
        assert(dump.people[j].id == dump.people[i].id);
    }
    assert forall|x: model::EdgeRow| #[trigger] v.edges.contains(x) <==> (t.edges.contains(x)
        && !touches(dump.people, x) && clear_of(x, dump.edges)) || exists|i: int|
        0 <= i < dump.edges.len() && as_kept(#[trigger] dump.edges[i]) == x by {
        lasts_is_any(dump.edges, x);
    }
    assert forall|x: model::EdgeRow|
        !tables::has_id(dump.people, x.from_id) && !tables::has_id(dump.people, x.to_id)
            && clear_of(x, dump.edges) implies (#[trigger] v.edges.contains(x)
        <==> t.edges.contains(x)) by {
        if exists|i: int| 0 <= i < dump.edges.len() && as_kept(#[trigger] dump.edges[i]) == x {
            let i = choose|i: int| 0 <= i < dump.edges.len() && as_kept(#[trigger] dump.edges[i])
                == x;
            assert(!clash(x, dump.edges[i]));
        }
    }
}

/// What importing the dump of a directory does to another one, said of its rows.
proof fn import_of_directory(t: db::Tables, dump: db::Tables)
    requires
        t.wf(),
        dump.wf(),
    ensures
        imports_whole(t, dump),
        imported(t, dump).wf(),
        forall|id: i64| #[trigger]
            tables::row(imported(t, dump).people, id) == match tables::row(dump.people, id) {
                Some(p) => Some(p),
                None => tables::row(t.people, id),
            },
        forall|x: model::EdgeRow| #[trigger]
            imported(t, dump).edges.contains(x) <==> dump.edges.contains(x) || (t.edges.contains(x)
                && !tables::has_id(dump.people, x.from_id) && !tables::has_id(
                dump.people,
                x.to_id,
            ) && clear_of(x, dump.edges)),
{
    let u = people_loaded(t, dump.people);
    people_loaded_facts(t, dump.people);
    imported_facts(t, dump);
    loadable_facts(u, dump.edges);
    let n = loadable(u, dump.edges) as int;
    if n < dump.edges.len() {
        let e = dump.edges[n];
        last_with_is_row(dump.people, e.from_id);
        last_with_is_row(dump.people, e.to_id);
        tables::row_found(dump.people, e.from_id);
        tables::row_found(dump.people, e.to_id);
        tables::row_found(u.people, e.from_id);
        tables::row_found(u.people, e.to_id);
        assert(tables::row(u.people, e.from_id) is Some);
        assert(tables::row(u.people, e.to_id) is Some);
    }
    assert(dump.edges.take(n) =~= dump.edges);
    assert forall|id: i64| #[trigger]
        tables::row(imported(t, dump).people, id) == match tables::row(dump.people, id) {
            Some(p) => Some(p),
            None => tables::row(t.people, id),
        } by {
        last_with_is_row(dump.people, id);
    }
    assert forall|x: model::EdgeRow| #[trigger]
        imported(t, dump).edges.contains(x) <==> dump.edges.contains(x) || (t.edges.contains(x)
            && !tables::has_id(dump.people, x.from_id) && !tables::has_id(dump.people, x.to_id)
            && clear_of(x, dump.edges)) by {
        lasts_is_contains(dump, x);
        last_with_is_row(dump.people, x.from_id);
        last_with_is_row(dump.people, x.to_id);
        tables::row_found(dump.people, x.from_id);
        tables::row_found(dump.people, x.to_id);
    }
}

/// Exporting a directory and importing it into an empty one gives the same directory.
pub proof fn export_then_import_gives_it_back(t: db::Tables)
    requires
        t.wf(),
    ensures
        imports_whole(db::Tables::empty(), t),
        imported(db::Tables::empty(), t) == t,
{
    let none = db::Tables::empty();
    import_of_directory(none, t);
    let v = imported(none, t);
    assert forall|id: i64| #[trigger] tables::row(v.people, id) == tables::row(t.people, id) by {
        tables::row_found(none.people, id);
    }
    same_lookups_same_table(v.people, t.people);
    tables::same_rows_same_table(v.edges, t.edges);
}

/// Importing the dump of a directory into any other one succeeds and keeps ids and
/// reporting lines: everyone in the dump is there under their own id as they were,
/// everyone else is as before, and the reporting lines of those in the dump are
/// exactly those that the dump gives them.
pub proof fn import_preserves_ids_and_lines(t: db::Tables, dump: db::Tables, id: i64)
    requires
        t.wf(),
        dump.wf(),
    ensures
        imports_whole(t, dump),
        tables::row(imported(t, dump).people, id) == match tables::row(dump.people, id) {
            Some(p) => Some(p),
            None => tables::row(t.people, id),
        },
        tables::has_id(dump.people, id) ==> edges::lines_of(imported(t, dump).edges, id)
            == edges::lines_of(dump.edges, id),
{
    import_of_directory(t, dump);
    let v = imported(t, dump);
    if tables::has_id(dump.people, id) {
        let mine = |e: model::EdgeRow| edges::is_line_of(e, id);
        tables::filter_keeps(v.edges, mine);
        tables::filter_keeps(dump.edges, mine);
        tables::same_rows_same_table(
            edges::lines_of(v.edges, id),
            edges::lines_of(dump.edges, id),
        );
    }
}

} // verus!
