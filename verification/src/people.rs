//! People: add, look up, change, remove, list.

use crate::clock::{self, now};
use crate::db::{self, Db};
use crate::model::{self, OrgError, Person, Relationship};
use crate::order::{self, sort, Ranked, SiblingKey};
use crate::seniority::rank_of;
use crate::tables::{self, find, fresh_id, put_row, retain};
use crate::text::{self, copy_text, same_text};
use vstd::prelude::*;

verus! {

/// What there is to say about a person. `None` means "leave unset".
#[derive(Debug, Default)]
pub struct PersonInput {
    pub name: String,
    pub team: Option<String>,
    pub title: Option<String>,
    pub notes: Option<String>,
}

impl Clone for PersonInput {
    fn clone(&self) -> (r: PersonInput)
        ensures
            r == *self,
    {
        PersonInput {
            name: self.name.clone(),
            team: copy_text(&self.team),
            title: copy_text(&self.title),
            notes: copy_text(&self.notes),
        }
    }
}

/// The row that an input makes, under a given id and with given times.
pub open spec fn input_row(
    input: PersonInput,
    id: i64,
    created_at: Seq<char>,
    updated_at: Seq<char>,
) -> model::PersonRow {
    model::PersonRow {
        id,
        name: input.name@,
        team: input.team.deep_view(),
        title: input.title.deep_view(),
        notes: input.notes.deep_view(),
        created_at,
        updated_at,
    }
}

/// What the storage layer says when no id is left for a new row.
pub open spec fn out_of_ids() -> model::ErrorView {
    model::ErrorView::Db("SQLite failure: `database or disk is full`"@)
}

/// What the storage layer says when no id is left for a new row.
pub(crate) fn no_id_left() -> (r: OrgError)
    ensures
        r@ == out_of_ids(),
{
    OrgError::Db("SQLite failure: `database or disk is full`".to_owned())
}

/// Adds a person at the time `ts`: they get the next id, and both times are `ts`.
/// Gives back the row as stored.
pub fn add_person_at(db: &mut Db, input: PersonInput, ts: &str) -> (r: Result<Person, OrgError>)
    ensures
        match tables::next_id(old(db)@.people) {
            Some(id) => {
                &&& r matches Ok(p)
                &&& p@ == input_row(input, id, ts@, ts@)
                &&& final(db)@ == old(db)@.with_person(p@)
            },
            None => {
                &&& r matches Err(e)
                &&& e@ == out_of_ids()
                &&& final(db)@ == old(db)@
            },
        },
{
    let next = fresh_id(db.people());
    match next {
        None => Err(no_id_left()),
        Some(id) => {
            let p = Person {
                id,
                name: input.name,
                team: input.team,
                title: input.title,
                notes: input.notes,
                created_at: ts.to_owned(),
                updated_at: ts.to_owned(),
            };
            let (mut people, relationships) = db.take_rows();
            put_row(&mut people, p.clone());
            proof {
                db::with_person_wf(old(db)@, p@);
            }
            *db = Db::assemble(people, relationships);
            Ok(p)
        },
    }
}

/// Adds a person now; see [`add_person_at`].
pub fn add_person(db: &mut Db, input: PersonInput) -> (r: Result<Person, OrgError>)
    ensures
        match tables::next_id(old(db)@.people) {
            Some(id) => {
                &&& r matches Ok(p)
                &&& p@ == input_row(input, id, p.created_at@, p.created_at@)
                &&& clock::is_utc_time(p.created_at@)
                &&& final(db)@ == old(db)@.with_person(p@)
            },
            None => {
                &&& r matches Err(e)
                &&& e@ == out_of_ids()
                &&& final(db)@ == old(db)@
            },
        },
{
    let ts = now();
    add_person_at(db, input, ts.as_str())
}

/// The person with the id `id`, or `None` if there is none.
pub fn get_person(db: &Db, id: i64) -> (r: Option<Person>)
    ensures
        match r {
            Some(p) => tables::row(db@.people, id) == Some(p@),
            None => tables::row(db@.people, id) is None,
        },
{
    let people = db.people();
    match find(people, id) {
        Some(k) => Some(people[k].clone()),
        None => None,
    }
}

/// Replaces what is said about a person at the time `ts`. The id and the time of
/// creation stay. Gives back the row as stored.
pub fn update_person_at(db: &mut Db, id: i64, input: PersonInput, ts: &str) -> (r: Result<
    Person,
    OrgError,
>)
    ensures
        match tables::row(old(db)@.people, id) {
            Some(before) => {
                &&& r matches Ok(p)
                &&& p@ == input_row(input, id, before.created_at, ts@)
                &&& final(db)@ == old(db)@.with_person(p@)
            },
            None => {
                &&& r matches Err(e)
                &&& e@ == model::ErrorView::PersonNotFound(id)
                &&& final(db)@ == old(db)@
            },
        },
{
    let created = match get_person(db, id) {
        Some(p) => p.created_at,
        None => {
            return Err(OrgError::PersonNotFound(id));
        },
    };
    let p = Person {
        id,
        name: input.name,
        team: input.team,
        title: input.title,
        notes: input.notes,
        created_at: created,
        updated_at: ts.to_owned(),
    };
    let (mut people, relationships) = db.take_rows();
    put_row(&mut people, p.clone());
    proof {
        db::with_person_wf(old(db)@, p@);
    }
    *db = Db::assemble(people, relationships);
    Ok(p)
}

/// Replaces what is said about a person now; see [`update_person_at`].
pub fn update_person(db: &mut Db, id: i64, input: PersonInput) -> (r: Result<Person, OrgError>)
    ensures
        match tables::row(old(db)@.people, id) {
            Some(before) => {
                &&& r matches Ok(p)
                &&& p@ == input_row(input, id, before.created_at, p.updated_at@)
                &&& clock::is_utc_time(p.updated_at@)
                &&& final(db)@ == old(db)@.with_person(p@)
            },
            None => {
                &&& r matches Err(e)
                &&& e@ == model::ErrorView::PersonNotFound(id)
                &&& final(db)@ == old(db)@
            },
        },
{
    let ts = now();
    update_person_at(db, id, input, ts.as_str())
}

/// Removes a person, and with them every edge from or to them.
pub fn remove_person(db: &mut Db, id: i64) -> (r: Result<(), OrgError>)
    ensures
        if tables::has_id(old(db)@.people, id) {
            r is Ok && final(db)@ == old(db)@.without_person(id)
        } else {
            &&& r matches Err(e)
            &&& e@ == model::ErrorView::PersonNotFound(id)
            &&& final(db)@ == old(db)@
        },
{
    if find(db.people(), id).is_none() {
        return Err(OrgError::PersonNotFound(id));
    }
    let (mut people, mut relationships) = db.take_rows();
    let other = |p: &Person| -> (b: bool)
        ensures
            b == (p@.id != id),
    {
        p.id != id
    };
    let apart = |e: &Relationship| -> (b: bool)
        ensures
            b == (e@.from_id != id && e@.to_id != id),
    {
        e.from_id != id && e.to_id != id
    };
    retain(&mut people, other, Ghost(|p: model::PersonRow| p.id != id));
    retain(
        &mut relationships,
        apart,
        Ghost(|e: model::EdgeRow| e.from_id != id && e.to_id != id),
    );
    proof {
        db::without_person_wf(old(db)@, id);
    }
    *db = Db::assemble(people, relationships);
    Ok(())
}

impl Ranked for Person {
    open spec fn before(a: model::PersonRow, b: model::PersonRow) -> bool {
        order::senior_first(a.title, a.name, b.title, b.name)
    }

    fn may_precede(&self, other: &Person) -> (r: bool) {
        let a = SiblingKey { rank: rank_of(title_of(&self.title)), name: self.name.clone() };
        let b = SiblingKey { rank: rank_of(title_of(&other.title)), name: other.name.clone() };
        a.may_precede(&b)
    }
}

/// The title as a borrowed text.
pub(crate) fn title_of(title: &Option<String>) -> (r: Option<&str>)
    ensures
        match r {
            Some(t) => title.deep_view() == Some(t@),
            None => title.deep_view() is None,
        },
{
    match title {
        Some(t) => Some(t.as_str()),
        None => None,
    }
}

/// Whether a person is on the team, where one is asked for.
pub open spec fn on_team(p: model::PersonRow, team: Option<Seq<char>>) -> bool {
    team is Some ==> p.team == team
}

/// The order of a listing.
pub open spec fn listing_order() -> spec_fn(model::PersonRow, model::PersonRow) -> bool {
    |a: model::PersonRow, b: model::PersonRow| Person::before(a, b)
}

/// Everyone, or everyone on a team: most senior title first, unknown titles last,
/// then by name, then by id.
pub open spec fn listing(
    people: Seq<model::PersonRow>,
    team: Option<Seq<char>>,
) -> Seq<model::PersonRow> {
    order::in_order(people.filter(|p: model::PersonRow| on_team(p, team)), listing_order())
}

/// Everyone, or everyone on a team, most senior title first (unknown titles last),
/// then by name.
pub fn list_people(db: &Db, team: Option<&str>) -> (r: Vec<Person>)
    ensures
        tables::rows(r@) == listing(
            db@.people,
            match team {
                Some(t) => Some(t@),
                None => None,
            },
        ),
{
    let ghost want: Option<Seq<char>> = match team {
        Some(t) => Some(t@),
        None => None,
    };
    let ghost pass = |p: model::PersonRow| on_team(p, want);
    let people = db.people();
    let ghost s = db@.people;
    let mut out: Vec<Person> = Vec::new();
    let mut k: usize = 0;
    assert(s.take(0).filter(pass) =~= Seq::<model::PersonRow>::empty()) by {
        reveal(Seq::filter);
    }
    while k < people.len()
        invariant
            s == tables::rows(people@),
            k <= people@.len(),
            pass == (|p: model::PersonRow| on_team(p, want)),
            want == (match team {
                Some(t) => Some(t@),
                None => None::<Seq<char>>,
            }),
            tables::rows(out@) == s.take(k as int).filter(pass),
        decreases people@.len() - k,
    {
        let p = &people[k];
        let wanted: bool = match team {
            None => true,
            Some(t) => match &p.team {
                Some(own) => same_text(own.as_str(), t),
                None => false,
            },
        };
        proof {
            reveal(Seq::filter);
            assert(s.take(k + 1).drop_last() =~= s.take(k as int));
            assert(s.take(k + 1).last() == p@);
        }
        let ghost before = out@;
        if wanted {
            out.push(p.clone());
            assert(tables::rows(out@) =~= tables::rows(before).push(p@));
        }
        k = k + 1;
    }
    assert(s.take(s.len() as int) =~= s);
    sort(&mut out);
    out
}

/// Any two people can be ordered, and the order is transitive.
pub proof fn listing_order_is_preorder()
    ensures
        order::is_preorder(listing_order()),
{
    let le = listing_order();
    assert forall|a: model::PersonRow, b: model::PersonRow| #[trigger] le(a, b) || le(b, a) by {
        text::text_le_total(a.name, b.name);
    }
    assert forall|a: model::PersonRow, b: model::PersonRow, c: model::PersonRow|
        #[trigger] le(a, b) && #[trigger] le(b, c) implies le(a, c) by {
        if order::height(a.title) == order::height(b.title) && order::height(b.title)
            == order::height(c.title) {
            text::text_le_transitive(a.name, b.name, c.name);
        }
    }
}

/// A listing holds exactly those who are on the team, everyone once, and nobody
/// stands behind someone who is less senior or, among equals, later by name.
pub proof fn listing_is_the_team_in_order(
    people: Seq<model::PersonRow>,
    team: Option<Seq<char>>,
)
    requires
        tables::ids_ascend(people),
    ensures
        order::ordered(listing(people, team), listing_order()),
        forall|p: model::PersonRow| #[trigger]
            listing(people, team).contains(p) <==> people.contains(p) && on_team(p, team),
        listing(people, team).no_duplicates(),
{
    let pass = |p: model::PersonRow| on_team(p, team);
    let kept = people.filter(pass);
    listing_order_is_preorder();
    tables::filter_keeps(people, pass);
    order::in_order_sorts(kept, listing_order());
    assert(kept.no_duplicates()) by {
        assert forall|i: int, j: int| 0 <= i < kept.len() && 0 <= j < kept.len() && i
            != j implies kept[i] != kept[j] by {
            if i < j {
                assert(tables::Keyed::key(kept[i]) < tables::Keyed::key(kept[j]));
            } else {
                assert(tables::Keyed::key(kept[j]) < tables::Keyed::key(kept[i]));
            }
        }
    }
    kept.lemma_multiset_has_no_duplicates();
    listing(people, team).lemma_multiset_has_no_duplicates_conv();
}

/// A new person gets an id that nobody has, is found by it, and changes nothing
/// about anybody else.
pub proof fn added_person_is_found(t: db::Tables, p: model::PersonRow, id: i64)
    requires
        t.wf(),
        tables::next_id(t.people) == Some(p.id),
    ensures
        !tables::has_id(t.people, p.id),
        tables::row(t.with_person(p).people, id) == if id == p.id {
            Some(p)
        } else {
            tables::row(t.people, id)
        },
        t.with_person(p).people.len() == t.people.len() + 1,
        t.with_person(p).edges == t.edges,
{
    tables::next_id_is_unused(t.people, p.id);
    tables::row_after_put(t.people, p, id);
    split_lengths(t.people, p.id);
}

proof fn split_lengths(people: Seq<model::PersonRow>, id: i64)
    requires
        !tables::has_id(people, id),
    ensures
        people.filter(|x: model::PersonRow| tables::Keyed::key(x) < id).len() + people.filter(
            |x: model::PersonRow| tables::Keyed::key(x) > id,
        ).len() == people.len(),
    decreases people.len(),
{
    reveal(Seq::filter);
    if people.len() > 0 {
        let rest = people.drop_last();
        assert(tables::Keyed::key(people[people.len() - 1]) != id);
        assert(!tables::has_id(rest, id)) by {
            if tables::has_id(rest, id) {
                let i = choose|i: int|
                    0 <= i < rest.len() && tables::Keyed::key(#[trigger] rest[i]) == id;
                assert(tables::Keyed::key(people[i]) == id);
            }
        }
        split_lengths(rest, id);
    }
}

/// A changed person is found by the same id, and nothing about anybody else or about
/// any edge changes.
pub proof fn updated_person_is_found(t: db::Tables, p: model::PersonRow, id: i64)
    requires
        t.wf(),
        tables::has_id(t.people, p.id),
    ensures
        tables::row(t.with_person(p).people, id) == if id == p.id {
            Some(p)
        } else {
            tables::row(t.people, id)
        },
        t.with_person(p).edges == t.edges,
{
    tables::row_after_put(t.people, p, id);
}

/// A removed person is gone, with every edge from or to them; everybody else and
/// every other edge is as before.
pub proof fn removed_person_leaves_no_edge(t: db::Tables, gone: i64, id: i64)
    requires
        t.wf(),
    ensures
        tables::row(t.without_person(gone).people, id) == if id == gone {
            None
        } else {
            tables::row(t.people, id)
        },
        forall|e: model::EdgeRow| #[trigger]
            t.without_person(gone).edges.contains(e) <==> t.edges.contains(e) && e.from_id != gone
                && e.to_id != gone,
{
    tables::row_after_filter(t.people, |p: model::PersonRow| p.id != gone, id);
    tables::row_found(t.people, id);
    tables::filter_keeps(t.edges, |e: model::EdgeRow| e.from_id != gone && e.to_id != gone);
}

} // verus!
