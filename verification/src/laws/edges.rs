//! Laws of edges: what is refused, what is written, and what stays.

use crate::db;
use crate::edges::{self, RelateInput};
use crate::model;
use crate::people;
use crate::tables::{self, Keyed};
use crate::text;
use vstd::prelude::*;

verus! {

/// Which confidences lie in 0..=1: a share of at least one vote that is no larger than the
/// whole, and the doubles from 0.0 to 1.0 and -0.0, by their bit patterns; and which are
/// numbers at all.
pub proof fn range_of_confidences(votes: usize, total: usize, bits: u64)
    ensures
        (model::Confidence::Share { votes, total }).in_range() <==> total >= 1 && votes <= total,
        (model::Confidence::Double { bits }).in_range() <==> bits <= 0x3ff0_0000_0000_0000 || bits
            == 0x8000_0000_0000_0000,
        (model::Confidence::Share { votes, total }).number() <==> votes > 0 || total > 0,
        (model::Confidence::Double { bits }).number() <==> bits <= 0x7ff0_0000_0000_0000
            || 0x8000_0000_0000_0000 <= bits <= 0xfff0_0000_0000_0000,
{
}

/// When setting a boss is refused, and why: it is only refused where the two are the same
/// person, where one of them is nobody, or where no id is left. Wherever it is not, the
/// person ends up with one reporting line, a certain one to the new boss that a human
/// entered, and every other edge stays.
pub proof fn boss_is_set_unless_it_cannot_be(
    t: db::Tables,
    person: i64,
    boss: i64,
    ts: Seq<char>,
    free: i64,
)
    requires
        t.wf(),
    ensures
        ({
            let (u, r) = edges::boss_set(t, person, boss, ts);
            let here = |id: i64|
                exists|k: int| 0 <= k < t.people.len() && (#[trigger] t.people[k]).id == id;
            let line = |e: model::EdgeRow| e.from_id == person && e.kind == "reports_to"@;
            &&& u.people == t.people
            &&& person == boss ==> u == t && r == Err::<(), _>(
                model::ErrorView::Invalid(
                    model::RefusalView::Told(
                        "person "@ + text::decimal(person as int)
                            + " cannot report to themselves"@,
                    ),
                ),
            )
            &&& person != boss && !here(person) ==> u == t && r == Err::<(), _>(
                model::ErrorView::PersonNotFound(person),
            )
            &&& person != boss && here(person) && !here(boss) ==> u == t && r == Err::<(), _>(
                model::ErrorView::PersonNotFound(boss),
            )
            &&& r matches Err(model::ErrorView::PersonNotFound(x)) ==> !here(x)
            &&& person != boss && here(person) && here(boss) ==> forall|e: model::EdgeRow|
                !line(e) ==> (#[trigger] u.edges.contains(e) <==> t.edges.contains(e))
            &&& person != boss && here(person) && here(boss) && 0 < free && (forall|i: int|
                0 <= i < t.edges.len() && (#[trigger] t.edges[i]).id == free ==> line(
                    t.edges[i],
                )) ==> r is Ok
            &&& r is Ok ==> exists|id: i64| #[trigger]
                u.edges.contains(
                    model::EdgeRow {
                        id,
                        from_id: person,
                        to_id: boss,
                        kind: "reports_to"@,
                        notes: None,
                        confidence: model::Confidence::Double { bits: 0x3ff0_0000_0000_0000 },
                        source: "manual"@,
                        created_at: ts,
                    },
                )
            &&& r is Ok ==> forall|x: model::EdgeRow, y: model::EdgeRow|
                #![trigger u.edges.contains(x), u.edges.contains(y)]
                u.edges.contains(x) && u.edges.contains(y) && line(x) && line(y) ==> x == y
        }),
{
    let (u, r) = edges::boss_set(t, person, boss, ts);
    let line = |e: model::EdgeRow| e.from_id == person && e.kind == "reports_to"@;
    let other = |e: model::EdgeRow| !edges::is_line_of(e, person);
    let v = edges::without_lines(t, person);
    crate::laws::tables::people_are_found_by_id(t.people, person);
    crate::laws::tables::people_are_found_by_id(t.people, boss);
    tables::filter_keeps(t.edges, other);
    assert(v.edges == t.edges.filter(other));
    assert forall|e: model::EdgeRow| edges::is_line_of(e, person) == #[trigger] line(e) by {}
    if person != boss && tables::has_id(t.people, person) && tables::has_id(t.people, boss) {
        crate::laws::tables::new_ids_are_free(v.edges);
        if let Some(id) = tables::next_id(v.edges) {
            let e = edges::manual_line(id, person, boss, ts);
            tables::put_keeps(v.edges, e);
            assert(u.edges.contains(e));
            assert forall|x: model::EdgeRow| !line(x) implies (#[trigger] u.edges.contains(x)
                <==> t.edges.contains(x)) by {
                if t.edges.contains(x) {
                    assert(v.edges.contains(x));
                    let k = choose|k: int| 0 <= k < v.edges.len() && v.edges[k] == x;
                    assert(v.edges[k].id != id);
                }
            }
        } else if 0 < free && forall|i: int|
            0 <= i < t.edges.len() && (#[trigger] t.edges[i]).id == free ==> line(t.edges[i]) {
            assert(tables::has_id(v.edges, free));
            let k = choose|k: int| 0 <= k < v.edges.len() && (#[trigger] v.edges[k]).key() == free;
            assert(v.edges.contains(v.edges[k]));
            let i = choose|i: int| 0 <= i < t.edges.len() && t.edges[i] == v.edges[k];
            assert(line(t.edges[i]));
        }
    }
}

/// When relating is refused, and why, and what it leaves where it is not: the one edge of
/// that kind between the pair says what was entered, keeps its id and its time if it was
/// there before, and every other edge stays.
pub proof fn edge_is_written_unless_it_cannot_be(
    t: db::Tables,
    input: RelateInput,
    ts: Seq<char>,
    free: i64,
)
    requires
        t.wf(),
    ensures
        ({
            let r = edges::related(t, input, ts);
            let here = |id: i64|
                exists|k: int| 0 <= k < t.people.len() && (#[trigger] t.people[k]).id == id;
            let same = |e: model::EdgeRow|
                e.from_id == input.from_id && e.to_id == input.to_id && e.kind == input.kind@;
            let fits = match input.confidence {
                model::Confidence::Share { votes, total } => total >= 1 && votes <= total,
                model::Confidence::Double { bits } => bits <= 0x3ff0_0000_0000_0000 || bits
                    == 0x8000_0000_0000_0000,
            };
            let room = 0 < free && forall|i: int|
                0 <= i < t.edges.len() ==> (#[trigger] t.edges[i]).id != free;
            &&& input.from_id == input.to_id ==> r == Err::<db::Tables, _>(
                model::ErrorView::Invalid(
                    model::RefusalView::Told(
                        "self-relationship not allowed (id "@ + text::decimal(
                            input.from_id as int,
                        ) + ")"@,
                    ),
                ),
            )
            &&& input.from_id != input.to_id && !fits ==> r == Err::<db::Tables, _>(
                model::ErrorView::Invalid(model::RefusalView::OutOfRange(input.confidence)),
            )
            &&& input.from_id != input.to_id && fits && room && here(input.from_id) && here(
                input.to_id,
            ) ==> r is Ok
            &&& input.from_id != input.to_id && fits && room && !(here(input.from_id) && here(
                input.to_id,
            )) ==> r == Err::<db::Tables, _>(
                model::ErrorView::Db("SQLite failure: `FOREIGN KEY constraint failed`"@),
            )
            &&& r matches Ok(u) ==> {
                &&& u.people == t.people
                &&& forall|e: model::EdgeRow|
                    !same(e) ==> (#[trigger] u.edges.contains(e) <==> t.edges.contains(e))
                &&& forall|x: model::EdgeRow, y: model::EdgeRow|
                    #![trigger u.edges.contains(x), u.edges.contains(y)]
                    u.edges.contains(x) && u.edges.contains(y) && same(x) && same(y) ==> x == y
                &&& exists|e: model::EdgeRow| #[trigger] u.edges.contains(e) && same(e)
                &&& forall|e: model::EdgeRow| #[trigger]
                    u.edges.contains(e) && same(e) ==> {
                        &&& input.notes matches Some(n) ==> e.notes == Some(n@)
                        &&& input.notes is None ==> e.notes is None
                        &&& e.confidence == input.confidence
                        &&& e.source == input.source@
                        &&& forall|x: model::EdgeRow| #[trigger]
                            t.edges.contains(x) && same(x) ==> e.id == x.id && e.created_at
                                == x.created_at
                        &&& (forall|x: model::EdgeRow| #[trigger]
                            t.edges.contains(x) ==> !same(x)) ==> e.created_at == ts
                    }
            }
        }),
{
    let r = edges::related(t, input, ts);
    let same = |e: model::EdgeRow|
        e.from_id == input.from_id && e.to_id == input.to_id && e.kind == input.kind@;
    crate::laws::tables::people_are_found_by_id(t.people, input.from_id);
    crate::laws::tables::people_are_found_by_id(t.people, input.to_id);
    crate::laws::tables::new_ids_are_free(t.edges);
    db::wf_by_rows(t);
    if tables::next_id(t.edges) is None {
        if 0 < free && forall|i: int|
            0 <= i < t.edges.len() ==> (#[trigger] t.edges[i]).id != free {
            assert(tables::has_id(t.edges, free));
            let k = choose|k: int| 0 <= k < t.edges.len() && (#[trigger] t.edges[k]).key() == free;
            assert(t.edges[k].id == free);
        }
    }
    let before = edges::pairing(t.edges, input.from_id, input.to_id, input.kind@);
    if let Some(b) = before {
        let k = choose|k: int|
            0 <= k < t.edges.len() && edges::is_pairing(
                #[trigger] t.edges[k],
                input.from_id,
                input.to_id,
                input.kind@,
            );
        assert(t.edges.contains(t.edges[k]));
        assert(b == t.edges[k]);
        assert(tables::has_id(t.people, b.from_id) && tables::has_id(t.people, b.to_id));
    } else {
        assert forall|e: model::EdgeRow| #[trigger] t.edges.contains(e) implies !same(e) by {
            let i = choose|i: int| 0 <= i < t.edges.len() && t.edges[i] == e;
            assert(!edges::is_pairing(
                t.edges[i],
                input.from_id,
                input.to_id,
                input.kind@,
            ));
        }
    }
    if let Ok(u) = r {
        let (id, at) = match before {
            Some(b) => (b.id, b.created_at),
            None => (tables::next_id(t.edges)->0, ts),
        };
        let e = edges::edge_row(input, id, at);
        assert(u == t.with_edge(e));
        tables::put_keeps(t.edges, e);
        assert(u.edges.contains(e));
        assert(same(e));
        assert forall|x: model::EdgeRow| #[trigger] t.edges.contains(x) && same(x) implies x.id
            == id && x.created_at == at by {
            assert(db::same_pairing(x, before->0));
        }
        assert forall|x: model::EdgeRow| !same(x) implies (#[trigger] u.edges.contains(x)
            <==> t.edges.contains(x)) by {
            if t.edges.contains(x) && x.id == id {
                let i = choose|i: int| 0 <= i < t.edges.len() && t.edges[i] == x;
                if let Some(b) = before {
                    let k = choose|k: int| 0 <= k < t.edges.len() && t.edges[k] == b;
                    if i < k {
                        assert(t.edges[i].key() < t.edges[k].key());
                    } else if k < i {
                        assert(t.edges[k].key() < t.edges[i].key());
                    }
                }
            }
        }
    }
}

/// Unrelating takes the one edge of that kind between the pair, if there is one, and no
/// other.
pub proof fn unrelating_takes_one_edge(
    t: db::Tables,
    from_id: i64,
    to_id: i64,
    kind: Seq<char>,
)
    requires
        t.wf(),
    ensures
        edges::unrelated(t, from_id, to_id, kind).people == t.people,
        forall|e: model::EdgeRow| #[trigger]
            edges::unrelated(t, from_id, to_id, kind).edges.contains(e) <==> t.edges.contains(e)
                && !(e.from_id == from_id && e.to_id == to_id && e.kind == kind),
        edges::pairing(t.edges, from_id, to_id, kind) is Some <==> exists|i: int|
            0 <= i < t.edges.len() && (#[trigger] t.edges[i]).from_id == from_id
                && t.edges[i].to_id == to_id && t.edges[i].kind == kind,
{
    tables::filter_keeps(
        t.edges,
        |e: model::EdgeRow| !edges::is_pairing(e, from_id, to_id, kind),
    );
    if exists|i: int|
        0 <= i < t.edges.len() && (#[trigger] t.edges[i]).from_id == from_id && t.edges[i].to_id
            == to_id && t.edges[i].kind == kind {
        let i = choose|i: int|
            0 <= i < t.edges.len() && (#[trigger] t.edges[i]).from_id == from_id
                && t.edges[i].to_id == to_id && t.edges[i].kind == kind;
        assert(edges::is_pairing(t.edges[i], from_id, to_id, kind));
    }
    if edges::pairing(t.edges, from_id, to_id, kind) is Some {
        let i = choose|i: int|
            0 <= i < t.edges.len() && edges::is_pairing(
                #[trigger] t.edges[i],
                from_id,
                to_id,
                kind,
            );
        assert(t.edges[i].from_id == from_id);
    }
}

} // verus!
