//! Laws of the rows that contracts speak of: they hold all that the values hold.

use crate::db::{Config, ConfigView};
use crate::edges;
use crate::infer::{self, Inference, Verdict};
use crate::io::OrgDump;
use crate::model::{ErrorView, OrgError, Person, Refusal, RefusalView, Relationship};
use crate::search::{Fields, Resolution, ResolutionRow, SearchHit};
use crate::tree::Node;
use vstd::prelude::*;

verus! {

/// Whether a text that may be missing is told as it is.
pub open spec fn is_told_as(s: Option<String>, v: Option<Seq<char>>) -> bool {
    match s {
        Some(x) => v == Some(x@),
        None => v is None,
    }
}

/// A row of a person holds every field.
pub proof fn person_rows_hold_every_field(p: Person)
    ensures
        p@.id == p.id,
        p@.name == p.name@,
        is_told_as(p.team, p@.team),
        is_told_as(p.title, p@.title),
        is_told_as(p.notes, p@.notes),
        p@.created_at == p.created_at@,
        p@.updated_at == p.updated_at@,
{
}

/// A row of an edge holds every field.
pub proof fn edge_rows_hold_every_field(e: Relationship)
    ensures
        e@.id == e.id,
        e@.from_id == e.from_id,
        e@.to_id == e.to_id,
        e@.kind == e.kind@,
        is_told_as(e.notes, e@.notes),
        e@.confidence == e.confidence,
        e@.source == e.source@,
        e@.created_at == e.created_at@,
{
}

/// So do the rows of nodes, of hits and of the fields that a search looks at.
pub proof fn found_rows_hold_every_field(n: Node, h: SearchHit, f: Fields)
    ensures
        n@.id == n.id && n@.name == n.name@ && n@.depth == n.depth,
        is_told_as(n.title, n@.title),
        h@.person == h.person@ && h@.score == h.score,
        f@.name == f.name@,
        is_told_as(f.team, f@.team),
        is_told_as(f.title, f@.title),
        is_told_as(f.notes, f@.notes),
{
}

/// A dump holds the rows of its people and of its edges, one for one.
pub proof fn dumps_hold_every_row(d: OrgDump)
    ensures
        d.rows().people.len() == d.people@.len(),
        forall|i: int|
            0 <= i < d.people@.len() ==> #[trigger] d.rows().people[i] == d.people@[i]@,
        d.rows().edges.len() == d.relationships@.len(),
        forall|i: int|
            0 <= i < d.relationships@.len() ==> #[trigger] d.rows().edges[i]
                == d.relationships@[i]@,
{
}

/// An answer is told as it is, and an error by what it holds.
pub proof fn answers_are_told_as_they_are(r: Result<(), OrgError>, x: Result<Inference, OrgError>)
    ensures
        r is Ok <==> edges::answer(r) is Ok,
        r matches Err(e) ==> edges::answer(r) == Err::<(), ErrorView>(e@),
        x matches Ok(v) ==> infer::verdict_answer(x) == Ok::<Verdict, ErrorView>(v@),
        x matches Err(e) ==> infer::verdict_answer(x) == Err::<Verdict, ErrorView>(e@),
{
}

/// An error holds what it is about.
pub proof fn errors_hold_what_they_are_about(e: OrgError)
    ensures
        match e {
            OrgError::Db(m) => e@ == ErrorView::Db(m@),
            OrgError::Json(m) => e@ == ErrorView::Json(m@),
            OrgError::PersonNotFound(id) => e@ == ErrorView::PersonNotFound(id),
            OrgError::Invalid(Refusal::Told(m)) => e@ == ErrorView::Invalid(
                RefusalView::Told(m@),
            ),
            OrgError::Invalid(Refusal::OutOfRange(c)) => e@ == ErrorView::Invalid(
                RefusalView::OutOfRange(c),
            ),
        },
{
}

/// An inference, a resolution and a configuration are told with all that they hold.
pub proof fn outcomes_hold_what_they_say(x: Inference, r: Resolution, c: Config)
    ensures
        match x {
            Inference::Inferred { boss_id, votes, total, confidence } => x@ == (
            Verdict::Inferred { boss_id, votes, total, confidence }),
            Inference::NoGuess { reason } => x@ == (Verdict::NoGuess { reason: reason@ }),
        },
        match r {
            Resolution::One(p) => r@ == ResolutionRow::One(p@),
            Resolution::Ambiguous(ps) => r@ matches ResolutionRow::Ambiguous(s) && s.len()
                == ps@.len() && forall|i: int| 0 <= i < ps@.len() ==> #[trigger] s[i] == ps@[i]@,
            Resolution::NotFound => r@ == ResolutionRow::NotFound,
        },
        match c {
            Config::Local(path) => c@ == ConfigView::Local(path@),
            Config::Memory => c@ == ConfigView::Memory,
        },
{
}

} // verus!
