//! Laws of people: what is entered is kept, and who is listed, in which order.

use crate::db;
use crate::model;
use crate::order;
use crate::people::{self, PersonInput};
use crate::seniority;
use crate::tables;
use crate::text;
use vstd::prelude::*;

verus! {

/// What was entered about a person is kept letter by letter.
pub proof fn entries_are_kept(input: PersonInput, id: i64, created: Seq<char>, updated: Seq<char>)
    ensures
        ({
            let p = people::input_row(input, id, created, updated);
            &&& p.id == id && p.name == input.name@
            &&& input.team matches Some(x) ==> p.team == Some(x@)
            &&& input.team is None ==> p.team is None
            &&& input.title matches Some(x) ==> p.title == Some(x@)
            &&& input.title is None ==> p.title is None
            &&& input.notes matches Some(x) ==> p.notes == Some(x@)
            &&& input.notes is None ==> p.notes is None
            &&& p.created_at == created && p.updated_at == updated
        }),
{
}

/// Putting a person in leaves everybody who has another id as they were, and all edges.
pub proof fn nobody_else_changes(t: db::Tables, p: model::PersonRow)
    requires
        t.wf(),
    ensures
        t.with_person(p).wf(),
        forall|x: model::PersonRow| #[trigger]
            t.with_person(p).people.contains(x) <==> x == p || (t.people.contains(x) && x.id
                != p.id),
        t.with_person(p).edges == t.edges,
{
    db::with_person_wf(t, p);
    tables::put_keeps(t.people, p);
}

/// Removing a person takes them and the edges from or to them, and nothing else.
pub proof fn nobody_else_goes(t: db::Tables, gone: i64)
    requires
        t.wf(),
    ensures
        t.without_person(gone).wf(),
        forall|x: model::PersonRow| #[trigger]
            t.without_person(gone).people.contains(x) <==> t.people.contains(x) && x.id != gone,
        forall|e: model::EdgeRow| #[trigger]
            t.without_person(gone).edges.contains(e) <==> t.edges.contains(e) && e.from_id != gone
                && e.to_id != gone,
{
    db::without_person_wf(t, gone);
    tables::filter_keeps(t.people, |p: model::PersonRow| p.id != gone);
    tables::filter_keeps(t.edges, |e: model::EdgeRow| e.from_id != gone && e.to_id != gone);
}

/// A listing without a team holds everyone, and one with a team exactly those whose team
/// has that very name; nobody stands in it twice.
pub proof fn listing_holds_the_team(
    people: Seq<model::PersonRow>,
    team: Seq<char>,
    p: model::PersonRow,
)
    requires
        forall|i: int, j: int|
            0 <= i < j < people.len() ==> (#[trigger] people[i]).id < (#[trigger] people[j]).id,
    ensures
        people::listing(people, None).contains(p) <==> people.contains(p),
        people::listing(people, None).len() == people.len(),
        people::listing(people, Some(team)).contains(p) <==> people.contains(p) && p.team == Some(
            team,
        ),
        people::listing(people, Some(team)).len() == people.filter(
            |x: model::PersonRow| x.team == Some(team),
        ).len(),
        people::listing(people, None).no_duplicates(),
        people::listing(people, Some(team)).no_duplicates(),
{
    assert(tables::ids_ascend(people));
    people::listing_is_the_team_in_order(people, None);
    people::listing_is_the_team_in_order(people, Some(team));
    people::listing_order_is_preorder();
    let none: Option<Seq<char>> = None;
    let all = |x: model::PersonRow| people::on_team(x, none);
    let some = |x: model::PersonRow| people::on_team(x, Some(team));
    let own = |x: model::PersonRow| x.team == Some(team);
    assert(some =~= own);
    tables::filter_is_prefix(people, all, people.len() as int);
    assert(people.take(people.len() as int) =~= people);
    order::in_order_sorts(people.filter(all), people::listing_order());
    order::in_order_sorts(people.filter(some), people::listing_order());
}

/// The listings of two teams have nobody in common.
pub proof fn teams_list_apart(people: Seq<model::PersonRow>, a: Seq<char>, b: Seq<char>)
    requires
        forall|i: int, j: int|
            0 <= i < j < people.len() ==> (#[trigger] people[i]).id < (#[trigger] people[j]).id,
        a != b,
    ensures
        forall|p: model::PersonRow| #[trigger]
            people::listing(people, Some(a)).contains(p) ==> !people::listing(
                people,
                Some(b),
            ).contains(p),
{
    assert forall|p: model::PersonRow| #[trigger]
        people::listing(people, Some(a)).contains(p) implies !people::listing(
        people,
        Some(b),
    ).contains(p) by {
        listing_holds_the_team(people, a, p);
        listing_holds_the_team(people, b, p);
    }
}

/// Whether `a` may stand before `b`: a known rank before an unknown one, a higher before a
/// lower, and within a rank the earlier name.
proof fn before_means(a: model::PersonRow, b: model::PersonRow)
    ensures
        people::listing_order()(a, b) <==> {
            let x = match a.title {
                Some(s) => seniority::title_rank(s),
                None => None,
            };
            let y = match b.title {
                Some(s) => seniority::title_rank(s),
                None => None,
            };
            ||| x == y && text::text_le(a.name, b.name)
            ||| x is Some && y is None
            ||| x is Some && y is Some && x->0.rung() > y->0.rung()
        },
{
    if let (Some(s), Some(r)) = (a.title, b.title) {
        if let (Some(x), Some(y)) = (seniority::title_rank(s), seniority::title_rank(r)) {
            seniority::rung_tells_ranks_apart(x, y);
        }
    }
}

/// Whoever stands earlier in a listing has a higher rank, or the same and an earlier name,
/// or the same of both and a smaller id. An unknown rank is below every known one.
pub proof fn listing_goes_by_rank_name_and_id(
    people: Seq<model::PersonRow>,
    team: Option<Seq<char>>,
    i: int,
    j: int,
)
    requires
        forall|m: int, n: int|
            0 <= m < n < people.len() ==> (#[trigger] people[m]).id < (#[trigger] people[n]).id,
        0 <= i < j < people::listing(people, team).len(),
    ensures
        ({
            let a = people::listing(people, team)[i];
            let b = people::listing(people, team)[j];
            let x = match a.title {
                Some(s) => seniority::title_rank(s),
                None => None,
            };
            let y = match b.title {
                Some(s) => seniority::title_rank(s),
                None => None,
            };
            ||| x is Some && y is None
            ||| x is Some && y is Some && x->0.rung() > y->0.rung()
            ||| x == y && a.name != b.name && text::text_le(a.name, b.name)
            ||| x == y && a.name == b.name && a.id < b.id
        }),
{
    let pass = |p: model::PersonRow| people::on_team(p, team);
    let kept = people.filter(pass);
    let all = people::listing(people, team);
    let le = people::listing_order();
    let a = all[i];
    let b = all[j];
    assert(tables::ids_ascend(people));
    tables::filter_keeps(people, pass);
    people::listing_order_is_preorder();
    order::in_order_sorts(kept, le);
    assert(le(all[i], all[j]));
    before_means(a, b);
    before_means(b, a);
    if a.name == b.name && le(a, b) && le(b, a) {
        let alike = |p: model::PersonRow| le(a, p) && le(p, a);
        order::in_order_is_stable(kept, a, le);
        assert(le(a, a));
        text::text_le_total(a.name, a.name);
        tables::filter_keeps(kept, alike);
        crate::laws::sequences::kept_order(all, alike, i, j);
        let (m, n) = choose|m: int, n: int|
            0 <= m < n < all.filter(alike).len() && #[trigger] all.filter(alike)[m] == a
                && #[trigger] all.filter(alike)[n] == b;
        assert(all.filter(alike) == kept.filter(alike));
        assert(tables::Keyed::key(kept.filter(alike)[m]) < tables::Keyed::key(
            kept.filter(alike)[n],
        ));
    } else {
        text::text_le_total(a.name, b.name);
    }
}

} // verus!
