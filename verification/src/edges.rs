//! Edges between people. The hierarchy is the edges of one kind, `reports_to`, so
//! there is no special boss column: `set_boss` is `relate` with a fixed kind plus
//! the rule that the old line goes first.

use crate::clock::{self, now};
use crate::db::{self, Db};
use crate::model::{
    self, kind, source, Confidence, OrgError, Refusal, Relationship, ONE_BITS,
};
use crate::people::{self, no_id_left};
use crate::tables::{self, find, fresh_id, put_row, retain, Keyed};
use crate::text::{self, copy_text, push_int, same_text};
use vstd::prelude::*;
use vstd::string::*;

verus! {

/// What there is to say about an edge.
#[derive(Debug)]
pub struct RelateInput {
    pub from_id: i64,
    pub to_id: i64,
    pub kind: String,
    pub notes: Option<String>,
    pub confidence: Confidence,
    pub source: String,
}

impl Clone for RelateInput {
    fn clone(&self) -> (r: RelateInput)
        ensures
            r == *self,
    {
        RelateInput {
            from_id: self.from_id,
            to_id: self.to_id,
            kind: self.kind.clone(),
            notes: copy_text(&self.notes),
            confidence: self.confidence,
            source: self.source.clone(),
        }
    }
}

impl RelateInput {
    /// An edge that a human entered: certain, and without notes.
    pub fn manual(from_id: i64, to_id: i64, kind: &str) -> (r: RelateInput)
        ensures
            r.from_id == from_id,
            r.to_id == to_id,
            r.kind@ == kind@,
            r.notes is None,
            r.confidence == (Confidence::Double { bits: ONE_BITS }),
            r.source@ == source::MANUAL@,
    {
        RelateInput {
            from_id,
            to_id,
            kind: kind.to_owned(),
            notes: None,
            confidence: Confidence::Double { bits: ONE_BITS },
            source: source::MANUAL.to_owned(),
        }
    }
}

/// The row that an input makes, under a given id and time of creation.
pub open spec fn edge_row(input: RelateInput, id: i64, created_at: Seq<char>) -> model::EdgeRow {
    model::EdgeRow {
        id,
        from_id: input.from_id,
        to_id: input.to_id,
        kind: input.kind@,
        notes: input.notes.deep_view(),
        confidence: input.confidence,
        source: input.source@,
        created_at,
    }
}

/// The edge that says `kind` of the pair, if there is one.
pub open spec fn pairing(
    edges: Seq<model::EdgeRow>,
    from_id: i64,
    to_id: i64,
    kind: Seq<char>,
) -> Option<model::EdgeRow> {
    if exists|i: int|
        0 <= i < edges.len() && is_pairing(#[trigger] edges[i], from_id, to_id, kind) {
        Some(
            edges[choose|i: int|
                0 <= i < edges.len() && is_pairing(#[trigger] edges[i], from_id, to_id, kind)],
        )
    } else {
        None
    }
}

/// Whether an edge says `kind` of the pair.
pub open spec fn is_pairing(e: model::EdgeRow, from_id: i64, to_id: i64, kind: Seq<char>) -> bool {
    e.from_id == from_id && e.to_id == to_id && e.kind == kind
}

/// What the storage layer says of an edge to or from nobody.
pub open spec fn no_such_end() -> model::ErrorView {
    model::ErrorView::Db("SQLite failure: `FOREIGN KEY constraint failed`"@)
}

/// What the storage layer says of an edge to or from nobody.
pub(crate) fn missing_end() -> (r: OrgError)
    ensures
        r@ == no_such_end(),
{
    OrgError::Db("SQLite failure: `FOREIGN KEY constraint failed`".to_owned())
}

/// Why an edge from someone to themselves is refused.
pub open spec fn self_edge(id: i64) -> model::ErrorView {
    model::ErrorView::Invalid(
        model::RefusalView::Told(
            "self-relationship not allowed (id "@ + text::decimal(id as int) + ")"@,
        ),
    )
}

/// Why an edge is refused whatever the directory holds, if it is.
pub open spec fn pair_refusal(input: RelateInput) -> Option<model::ErrorView> {
    if input.from_id == input.to_id {
        Some(self_edge(input.from_id))
    } else if !input.confidence.in_range() {
        Some(model::ErrorView::Invalid(model::RefusalView::OutOfRange(input.confidence)))
    } else {
        None
    }
}

/// Refuses self-edges and confidences out of range.
fn validate_pair(input: &RelateInput) -> (r: Result<(), OrgError>)
    ensures
        match pair_refusal(*input) {
            Some(e) => r matches Err(x) && x@ == e,
            None => r is Ok,
        },
{
    if input.from_id == input.to_id {
        let mut m: String = String::new();
        m.append("self-relationship not allowed (id ");
        push_int(&mut m, input.from_id);
        m.append(")");
        assert(m@ =~= "self-relationship not allowed (id "@ + text::decimal(input.from_id as int)
            + ")"@);
        return Err(OrgError::Invalid(Refusal::Told(m)));
    }
    if !input.confidence.is_in_range() {
        return Err(OrgError::Invalid(Refusal::OutOfRange(input.confidence)));
    }
    Ok(())
}

/// What relating does to a directory at the time `ts`: the edge of that kind between
/// that pair gets the new notes, confidence and source, or a new edge says it for
/// the first time.
pub open spec fn related(t: db::Tables, input: RelateInput, ts: Seq<char>) -> Result<
    db::Tables,
    model::ErrorView,
> {
    match (pair_refusal(input), tables::next_id(t.edges)) {
        (Some(e), _) => Err(e),
        (None, None) => Err(people::out_of_ids()),
        (None, Some(id)) => match pairing(t.edges, input.from_id, input.to_id, input.kind@) {
            Some(e) => Ok(t.with_edge(edge_row(input, e.id, e.created_at))),
            None => if tables::has_id(t.people, input.from_id) && tables::has_id(
                t.people,
                input.to_id,
            ) {
                Ok(t.with_edge(edge_row(input, id, ts)))
            } else {
                Err(no_such_end())
            },
        },
    }
}

/// The position of the edge that says `kind` of the pair, if there is one.
fn find_pairing(edges: &Vec<Relationship>, from_id: i64, to_id: i64, kind: &str) -> (r: Option<
    usize,
>)
    requires
        forall|i: int, j: int|
            0 <= i < j < edges@.len() ==> !db::same_pairing(
                #[trigger] tables::rows(edges@)[i],
                #[trigger] tables::rows(edges@)[j],
            ),
    ensures
        match r {
            Some(k) => k < edges@.len() && pairing(
                tables::rows(edges@),
                from_id,
                to_id,
                kind@,
            ) == Some(edges@[k as int]@) && is_pairing(edges@[k as int]@, from_id, to_id, kind@),
            None => pairing(tables::rows(edges@), from_id, to_id, kind@) is None && forall|i: int|
                0 <= i < edges@.len() ==> !is_pairing(
                    #[trigger] tables::rows(edges@)[i],
                    from_id,
                    to_id,
                    kind@,
                ),
        },
{
    let ghost s = tables::rows(edges@);
    let mut k: usize = 0;
    while k < edges.len()
        invariant
            s == tables::rows(edges@),
            forall|i: int, j: int|
                0 <= i < j < edges@.len() ==> !db::same_pairing(#[trigger] s[i], #[trigger] s[j]),
            k <= edges@.len(),
            forall|i: int| 0 <= i < k ==> !is_pairing(#[trigger] s[i], from_id, to_id, kind@),
        decreases edges@.len() - k,
    {
        let e = &edges[k];
        assert(s[k as int] == e@);
        if e.from_id == from_id && e.to_id == to_id && same_text(e.kind.as_str(), kind) {
            proof {
                let c = choose|i: int|
                    0 <= i < s.len() && is_pairing(#[trigger] s[i], from_id, to_id, kind@);
                assert(is_pairing(s[c], from_id, to_id, kind@));
                if c < k {
                    assert(!db::same_pairing(s[c], s[k as int]));
                } else if k < c {
                    assert(!db::same_pairing(s[k as int], s[c]));
                }
            }
            return Some(k);
        }
        k = k + 1;
    }
    None
}

/// Sets or replaces an edge of a kind between two people at the time `ts`. Edges
/// of that kind to someone else stay, which is wrong for reporting lines; those
/// have [`set_boss_at`].
pub fn relate_at(db: &mut Db, input: RelateInput, ts: &str) -> (r: Result<(), OrgError>)
    ensures
        match related(old(db)@, input, ts@) {
            Ok(t) => r is Ok && final(db)@ == t,
            Err(e) => r matches Err(x) && x@ == e && final(db)@ == old(db)@,
        },
{
    validate_pair(&input)?;
    let ghost t = db@;
    let edges = db.relationships();
    let id: i64 = match fresh_id(edges) {
        Some(id) => id,
        None => {
            return Err(no_id_left());
        },
    };
    let at = find_pairing(edges, input.from_id, input.to_id, input.kind.as_str());
    let e = match at {
        Some(k) => Relationship {
            id: edges[k].id,
            from_id: input.from_id,
            to_id: input.to_id,
            kind: input.kind,
            notes: input.notes,
            confidence: input.confidence,
            source: input.source,
            created_at: edges[k].created_at.clone(),
        },
        None => {
            if find(db.people(), input.from_id).is_none() || find(
                db.people(),
                input.to_id,
            ).is_none() {
                return Err(missing_end());
            }
            Relationship {
                id,
                from_id: input.from_id,
                to_id: input.to_id,
                kind: input.kind,
                notes: input.notes,
                confidence: input.confidence,
                source: input.source,
                created_at: ts.to_owned(),
            }
        },
    };
    proof {
        if let Some(k) = at {
            assert(t.edges[k as int] == edges@[k as int]@);
        }
        assert forall|x: model::EdgeRow|
            #[trigger] t.edges.contains(x) && db::same_pairing(x, e@) implies x.id == e@.id by {
            let i = choose|i: int| 0 <= i < t.edges.len() && t.edges[i] == x;
            match at {
                Some(k) => {
                    if i < k {
                        assert(!db::same_pairing(t.edges[i], t.edges[k as int]));
                    } else if k < i {
                        assert(!db::same_pairing(t.edges[k as int], t.edges[i]));
                    }
                },
                None => {
                    assert(!is_pairing(t.edges[i], input.from_id, input.to_id, input.kind@));
                },
            }
        }
        db::with_edge_wf(t, e@);
    }
    let (people, mut relationships) = db.take_rows();
    put_row(&mut relationships, e);
    *db = Db::assemble(people, relationships);
    Ok(())
}

/// Sets or replaces an edge now; see [`relate_at`].
pub fn relate(db: &mut Db, input: RelateInput) -> (r: Result<(), OrgError>)
    ensures
        exists|ts: Seq<char>|
            clock::is_utc_time(ts) && match #[trigger] related(old(db)@, input, ts) {
                Ok(t) => r is Ok && final(db)@ == t,
                Err(e) => r matches Err(x) && x@ == e && final(db)@ == old(db)@,
            },
{
    let ts = now();
    relate_at(db, input, ts.as_str())
}

/// The directory without the edge that says `kind` of the pair.
pub open spec fn unrelated(t: db::Tables, from_id: i64, to_id: i64, kind: Seq<char>) -> db::Tables {
    t.with_edges(|e: model::EdgeRow| !is_pairing(e, from_id, to_id, kind))
}

/// Removes the edge of a kind between two people. Says whether there was one.
pub fn unrelate(db: &mut Db, from_id: i64, to_id: i64, kind: &str) -> (r: bool)
    ensures
        final(db)@ == unrelated(old(db)@, from_id, to_id, kind@),
        r == pairing(old(db)@.edges, from_id, to_id, kind@) is Some,
{
    let ghost t = db@;
    let found = find_pairing(db.relationships(), from_id, to_id, kind).is_some();
    let (people, mut relationships) = db.take_rows();
    let other = |e: &Relationship| -> (b: bool)
        ensures
            b == !is_pairing(e@, from_id, to_id, kind@),
    {
        !(e.from_id == from_id && e.to_id == to_id && same_text(e.kind.as_str(), kind))
    };
    retain(
        &mut relationships,
        other,
        Ghost(|e: model::EdgeRow| !is_pairing(e, from_id, to_id, kind@)),
    );
    proof {
        db::with_edges_wf(t, |e: model::EdgeRow| !is_pairing(e, from_id, to_id, kind@));
    }
    *db = Db::assemble(people, relationships);
    found
}

/// Whether an edge is a reporting line.
pub open spec fn is_line(e: model::EdgeRow) -> bool {
    e.kind == kind::REPORTS_TO@
}

/// Whether an edge is a reporting line of `person`.
pub open spec fn is_line_of(e: model::EdgeRow, person: i64) -> bool {
    e.from_id == person && is_line(e)
}

/// Why nobody reports to themselves.
pub open spec fn self_report(person: i64) -> model::ErrorView {
    model::ErrorView::Invalid(
        model::RefusalView::Told(
            "person "@ + text::decimal(person as int) + " cannot report to themselves"@,
        ),
    )
}

/// The reporting line that a human enters.
pub open spec fn manual_line(id: i64, person: i64, boss: i64, ts: Seq<char>) -> model::EdgeRow {
    model::EdgeRow {
        id,
        from_id: person,
        to_id: boss,
        kind: kind::REPORTS_TO@,
        notes: None,
        confidence: Confidence::Double { bits: ONE_BITS },
        source: source::MANUAL@,
        created_at: ts,
    }
}

/// The directory without the reporting lines of `person`.
pub open spec fn without_lines(t: db::Tables, person: i64) -> db::Tables {
    t.with_edges(|e: model::EdgeRow| !is_line_of(e, person))
}

/// What setting a boss leaves behind, and the answer to it. The old lines go before
/// the new one gets its id.
pub open spec fn boss_set(t: db::Tables, person: i64, boss: i64, ts: Seq<char>) -> (
    db::Tables,
    Result<(), model::ErrorView>,
) {
    let u = without_lines(t, person);
    if person == boss {
        (t, Err(self_report(person)))
    } else if !tables::has_id(t.people, person) {
        (t, Err(model::ErrorView::PersonNotFound(person)))
    } else if !tables::has_id(t.people, boss) {
        (t, Err(model::ErrorView::PersonNotFound(boss)))
    } else {
        match tables::next_id(u.edges) {
            None => (u, Err(people::out_of_ids())),
            Some(id) => (u.with_edge(manual_line(id, person, boss, ts)), Ok(())),
        }
    }
}

/// The answer of a call, by its view.
pub open spec fn answer<T>(r: Result<T, OrgError>) -> Result<T, model::ErrorView> {
    match r {
        Ok(x) => Ok(x),
        Err(e) => Err(e@),
    }
}

/// Fails where `id` is nobody's.
fn ensure_exists(db: &Db, id: i64) -> (r: Result<(), OrgError>)
    ensures
        answer(r) == if tables::has_id(db@.people, id) {
            Ok(())
        } else {
            Err(model::ErrorView::PersonNotFound(id))
        },
{
    match find(db.people(), id) {
        Some(_) => Ok(()),
        None => Err(OrgError::PersonNotFound(id)),
    }
}

/// Sets `person`'s boss to `boss` at the time `ts`, in place of every reporting
/// line they had, so that stale lines never accumulate.
pub fn set_boss_at(db: &mut Db, person: i64, boss: i64, ts: &str) -> (r: Result<(), OrgError>)
    ensures
        (final(db)@, answer(r)) == boss_set(old(db)@, person, boss, ts@),
{
    let ghost t = db@;
    if person == boss {
        let mut m: String = String::new();
        m.append("person ");
        push_int(&mut m, person);
        m.append(" cannot report to themselves");
        assert(m@ =~= "person "@ + text::decimal(person as int) + " cannot report to themselves"@);
        return Err(OrgError::Invalid(Refusal::Told(m)));
    }
    ensure_exists(db, person)?;
    ensure_exists(db, boss)?;
    let (people, mut relationships) = db.take_rows();
    let other = |e: &Relationship| -> (b: bool)
        ensures
            b == !is_line_of(e@, person),
    {
        !(e.from_id == person && same_text(e.kind.as_str(), kind::REPORTS_TO))
    };
    retain(&mut relationships, other, Ghost(|e: model::EdgeRow| !is_line_of(e, person)));
    let ghost u = without_lines(t, person);
    proof {
        db::with_edges_wf(t, |e: model::EdgeRow| !is_line_of(e, person));
    }
    let id: i64 = match fresh_id(&relationships) {
        Some(id) => id,
        None => {
            *db = Db::assemble(people, relationships);
            return Err(no_id_left());
        },
    };
    let e = Relationship {
        id,
        from_id: person,
        to_id: boss,
        kind: kind::REPORTS_TO.to_owned(),
        notes: None,
        confidence: Confidence::Double { bits: ONE_BITS },
        source: source::MANUAL.to_owned(),
        created_at: ts.to_owned(),
    };
    proof {
        tables::filter_keeps(t.edges, |e: model::EdgeRow| !is_line_of(e, person));
        db::with_edge_wf(u, e@);
    }
    put_row(&mut relationships, e);
    *db = Db::assemble(people, relationships);
    Ok(())
}

/// Sets `person`'s boss now; see [`set_boss_at`].
pub fn set_boss(db: &mut Db, person: i64, boss: i64) -> (r: Result<(), OrgError>)
    ensures
        exists|ts: Seq<char>|
            clock::is_utc_time(ts) && (final(db)@, answer(r)) == #[trigger] boss_set(
                old(db)@,
                person,
                boss,
                ts,
            ),
{
    let ts = now();
    set_boss_at(db, person, boss, ts.as_str())
}

/// The reporting lines of `person`.
pub open spec fn lines_of(edges: Seq<model::EdgeRow>, person: i64) -> Seq<model::EdgeRow> {
    edges.filter(|e: model::EdgeRow| is_line_of(e, person))
}

/// A boss that was set is the only one: one reporting line is left, to that boss
/// and entered by a human. People, the lines of everybody else and all other edges
/// stay as they were.
pub proof fn set_boss_leaves_one_line(t: db::Tables, person: i64, boss: i64, ts: Seq<char>)
    requires
        t.wf(),
        boss_set(t, person, boss, ts).1 is Ok,
    ensures
        ({
            let u = boss_set(t, person, boss, ts).0;
            let id = tables::next_id(without_lines(t, person).edges)->0;
            &&& u.wf()
            &&& u.people == t.people
            &&& lines_of(u.edges, person) == seq![manual_line(id, person, boss, ts)]
            &&& forall|q: i64| q != person ==> #[trigger] lines_of(u.edges, q) == lines_of(t.edges, q)
            &&& u.edges.filter(|e: model::EdgeRow| !is_line(e)) == t.edges.filter(
                |e: model::EdgeRow| !is_line(e),
            )
        }),
{
    let other = |e: model::EdgeRow| !is_line_of(e, person);
    let v = without_lines(t, person);
    let id = tables::next_id(v.edges)->0;
    let line = manual_line(id, person, boss, ts);
    let u = v.with_edge(line);
    db::with_edges_wf(t, other);
    tables::filter_keeps(t.edges, other);
    tables::next_id_is_unused(v.edges, id);
    db::with_edge_wf(v, line);
    tables::put_keeps(v.edges, line);
    assert forall|x: model::EdgeRow| v.edges.contains(x) implies x.id != id by {
        let k = choose|k: int| 0 <= k < v.edges.len() && v.edges[k] == x;
        assert(v.edges[k].key() == x.id);
    }
    let mine = |e: model::EdgeRow| is_line_of(e, person);
    tables::filter_keeps(u.edges, mine);
    let one = seq![line];
    assert(one[0] == line);
    assert forall|x: model::EdgeRow| u.edges.filter(mine).contains(x) <==> one.contains(x) by {
        if one.contains(x) {
            assert(u.edges.contains(line));
        }
    }
    tables::same_rows_same_table(u.edges.filter(mine), one);
    assert forall|q: i64| q != person implies #[trigger] lines_of(u.edges, q) == lines_of(
        t.edges,
        q,
    ) by {
        let theirs = |e: model::EdgeRow| is_line_of(e, q);
        tables::filter_keeps(u.edges, theirs);
        tables::filter_keeps(t.edges, theirs);
        tables::same_rows_same_table(u.edges.filter(theirs), t.edges.filter(theirs));
    }
    let rest = |e: model::EdgeRow| !is_line(e);
    tables::filter_keeps(u.edges, rest);
    tables::filter_keeps(t.edges, rest);
    tables::same_rows_same_table(u.edges.filter(rest), t.edges.filter(rest));
}

/// Relating again changes an edge and adds none: after `related`, the pair has one
/// edge of that kind, which says what the input says, and every other edge stays.
/// Relating the pair again succeeds and leaves the edge its id and time of creation
/// and the directory the same number of edges.
pub proof fn relate_replaces(
    t: db::Tables,
    input: RelateInput,
    ts: Seq<char>,
    again: RelateInput,
    later: Seq<char>,
)
    requires
        t.wf(),
        related(t, input, ts) is Ok,
        pair_refusal(again) is None,
        again.from_id == input.from_id,
        again.to_id == input.to_id,
        again.kind@ == input.kind@,
        tables::next_id(related(t, input, ts)->Ok_0.edges) is Some,
    ensures
        ({
            let u = related(t, input, ts)->Ok_0;
            let e = pairing(u.edges, input.from_id, input.to_id, input.kind@)->0;
            &&& u.wf()
            &&& u.people == t.people
            &&& pairing(u.edges, input.from_id, input.to_id, input.kind@) is Some
            &&& e == edge_row(input, e.id, e.created_at)
            &&& forall|x: model::EdgeRow|
                !is_pairing(x, input.from_id, input.to_id, input.kind@) ==> (
                #[trigger] u.edges.contains(x) <==> t.edges.contains(x))
            &&& related(u, again, later) is Ok
            &&& related(u, again, later)->Ok_0.edges.len() == u.edges.len()
            &&& pairing(
                related(u, again, later)->Ok_0.edges,
                input.from_id,
                input.to_id,
                input.kind@,
            ) == Some(edge_row(again, e.id, e.created_at))
        }),
{
    let u = related(t, input, ts)->Ok_0;
    related_edge(t, input, ts);
    let e = pairing(u.edges, input.from_id, input.to_id, input.kind@)->0;
    related_edge(u, again, later);
    let w = related(u, again, later)->Ok_0;
    other_edges_stay(t, input, ts);
    // The edge that is replaced is in `u`, so `put` keeps the number of edges.
    db::wf_by_rows(u);
    let k = choose|k: int|
        0 <= k < u.edges.len() && is_pairing(
            #[trigger] u.edges[k],
            input.from_id,
            input.to_id,
            input.kind@,
        );
    assert(u.edges[k] == e);
    put_over_keeps_len(u.edges, edge_row(again, e.id, e.created_at), k);
}

/// Putting a row in the place of another keeps the number of rows.
proof fn put_over_keeps_len(s: Seq<model::EdgeRow>, r: model::EdgeRow, k: int)
    requires
        tables::ids_ascend(s),
        0 <= k < s.len(),
        s[k].id == r.id,
    ensures
        tables::put(s, r).len() == s.len(),
{
    let below = |x: model::EdgeRow| x.key() < r.key();
    let above = |x: model::EdgeRow| x.key() > r.key();
    assert forall|i: int| 0 <= i < k implies below(#[trigger] s[i]) by {
        assert(s[i].key() < s[k].key());
    }
    assert forall|i: int| k <= i < s.len() implies !below(#[trigger] s[i]) by {
        if i > k {
            assert(s[k].key() < s[i].key());
        }
    }
    assert forall|i: int| 0 <= i < k + 1 implies !above(#[trigger] s[i]) by {
        if i < k {
            assert(s[i].key() < s[k].key());
        }
    }
    assert forall|i: int| k + 1 <= i < s.len() implies above(#[trigger] s[i]) by {
        assert(s[k].key() < s[i].key());
    }
    tables::filter_is_prefix(s, below, k);
    tables::filter_is_suffix(s, above, k + 1);
}

/// What a relate that succeeds leaves behind.
proof fn related_edge(t: db::Tables, input: RelateInput, ts: Seq<char>)
    requires
        t.wf(),
        related(t, input, ts) is Ok,
    ensures
        ({
            let u = related(t, input, ts)->Ok_0;
            let before = pairing(t.edges, input.from_id, input.to_id, input.kind@);
            let e = pairing(u.edges, input.from_id, input.to_id, input.kind@)->0;
            &&& u.wf()
            &&& u.people == t.people
            &&& pairing(u.edges, input.from_id, input.to_id, input.kind@) is Some
            &&& e == (match before {
                Some(b) => edge_row(input, b.id, b.created_at),
                None => edge_row(input, tables::next_id(t.edges)->0, ts),
            })
            &&& u == t.with_edge(e)
        }),
{
    let u = related(t, input, ts)->Ok_0;
    let before = pairing(t.edges, input.from_id, input.to_id, input.kind@);
    let row = match before {
        Some(b) => edge_row(input, b.id, b.created_at),
        None => edge_row(input, tables::next_id(t.edges)->0, ts),
    };
    db::wf_by_rows(t);
    if let Some(b) = before {
        assert(t.edges.contains(b));
    }
    assert forall|x: model::EdgeRow|
        #[trigger] t.edges.contains(x) && db::same_pairing(x, row) implies x.id == row.id by {
        let i = choose|i: int| 0 <= i < t.edges.len() && t.edges[i] == x;
        assert(is_pairing(t.edges[i], input.from_id, input.to_id, input.kind@));
        assert(t.edges.contains(before->0));
    }
    db::with_edge_wf(t, row);
    tables::put_keeps(t.edges, row);
    assert(u.edges.contains(row));
    let j = choose|j: int| 0 <= j < u.edges.len() && u.edges[j] == row;
    assert(is_pairing(u.edges[j], input.from_id, input.to_id, input.kind@));
    let e = pairing(u.edges, input.from_id, input.to_id, input.kind@)->0;
    db::wf_by_rows(u);
    assert(u.edges.contains(e));
    assert(db::same_pairing(e, row));
}

proof fn other_edges_stay(t: db::Tables, input: RelateInput, ts: Seq<char>)
    requires
        t.wf(),
        related(t, input, ts) is Ok,
    ensures
        forall|x: model::EdgeRow|
            !is_pairing(x, input.from_id, input.to_id, input.kind@) ==> (
            #[trigger] related(t, input, ts)->Ok_0.edges.contains(x) <==> t.edges.contains(x)),
{
    let u = related(t, input, ts)->Ok_0;
    let e = pairing(u.edges, input.from_id, input.to_id, input.kind@)->0;
    let before = pairing(t.edges, input.from_id, input.to_id, input.kind@);
    related_edge(t, input, ts);
    tables::put_keeps(t.edges, e);
    assert forall|x: model::EdgeRow|
        !is_pairing(x, input.from_id, input.to_id, input.kind@) implies (
    #[trigger] u.edges.contains(x) <==> t.edges.contains(x)) by {
        if t.edges.contains(x) && x.id == e.id {
            let i = choose|i: int| 0 <= i < t.edges.len() && t.edges[i] == x;
            assert(t.edges[i].key() == e.id);
            match before {
                Some(b) => {
                    let k = choose|k: int|
                        0 <= k < t.edges.len() && is_pairing(
                            #[trigger] t.edges[k],
                            input.from_id,
                            input.to_id,
                            input.kind@,
                        );
                    if i < k {
                        assert(t.edges[i].key() < t.edges[k].key());
                    } else if k < i {
                        assert(t.edges[k].key() < t.edges[i].key());
                    }
                },
                None => {
                    tables::next_id_is_unused(t.edges, e.id);
                },
            }
        }
    }
}

/// Taking back an edge that was new undoes it: the directory is what it was.
pub proof fn unrelate_undoes_relate(t: db::Tables, input: RelateInput, ts: Seq<char>)
    requires
        t.wf(),
        related(t, input, ts) is Ok,
        pairing(t.edges, input.from_id, input.to_id, input.kind@) is None,
    ensures
        unrelated(related(t, input, ts)->Ok_0, input.from_id, input.to_id, input.kind@) == t,
{
    let u = related(t, input, ts)->Ok_0;
    let other = |e: model::EdgeRow| !is_pairing(e, input.from_id, input.to_id, input.kind@);
    related_edge(t, input, ts);
    other_edges_stay(t, input, ts);
    tables::filter_keeps(u.edges, other);
    assert forall|x: model::EdgeRow| u.edges.filter(other).contains(x) <==> t.edges.contains(
        x,
    ) by {
        if t.edges.contains(x) {
            let i = choose|i: int| 0 <= i < t.edges.len() && t.edges[i] == x;
            assert(!is_pairing(t.edges[i], input.from_id, input.to_id, input.kind@));
        }
    }
    tables::same_rows_same_table(u.edges.filter(other), t.edges);
}

} // verus!
