//! Laws of headcounts.

use crate::model;
use crate::order::Ranked;
use crate::text;
use crate::tree::headcounts;
use vstd::prelude::*;

verus! {

/// Every team is listed once with the number of people whose team has that very name, and
/// those without a team are counted under a name of their own, together with whoever has it
/// as a team. Larger teams stand first, and those of the same size by name.
pub proof fn every_team_is_counted(people: Seq<model::PersonRow>, r: Seq<(Seq<char>, i64)>)
    requires
        headcounts::are_headcounts(people, r),
    ensures
        forall|k: int|
            0 <= k < r.len() && (#[trigger] r[k]).0 != "(no team)"@ ==> r[k].1 == people.filter(
                |p: model::PersonRow| p.team == Some(r[k].0),
            ).len(),
        forall|k: int|
            0 <= k < r.len() && (#[trigger] r[k]).0 == "(no team)"@ ==> r[k].1 == people.filter(
                |p: model::PersonRow| p.team is None || p.team == Some("(no team)"@),
            ).len(),
        forall|k: int| 0 <= k < r.len() ==> (#[trigger] r[k]).1 > 0,
        forall|i: int, name: Seq<char>|
            0 <= i < people.len() && (#[trigger] people[i]).team == Some(name)
                ==> #[trigger] is_listed(r, name),
        forall|i: int|
            0 <= i < people.len() && (#[trigger] people[i]).team is None ==> is_listed(
                r,
                "(no team)"@,
            ),
        forall|i: int, j: int|
            0 <= i < j < r.len() ==> (#[trigger] r[i]).0 != (#[trigger] r[j]).0 && (r[i].1 > r[j].1
                || (r[i].1 == r[j].1 && text::text_le(r[i].0, r[j].0))),
{
    assert forall|k: int| 0 <= k < r.len() && (#[trigger] r[k]).0 != "(no team)"@ implies r[k].1
        == people.filter(|p: model::PersonRow| p.team == Some(r[k].0)).len() by {
        let own = |p: model::PersonRow| headcounts::team_label(p) == r[k].0;
        let raw = |p: model::PersonRow| p.team == Some(r[k].0);
        assert(own =~= raw);
    }
    assert forall|k: int| 0 <= k < r.len() && (#[trigger] r[k]).0 == "(no team)"@ implies r[k].1
        == people.filter(
        |p: model::PersonRow| p.team is None || p.team == Some("(no team)"@),
    ).len() by {
        let own = |p: model::PersonRow| headcounts::team_label(p) == r[k].0;
        let raw = |p: model::PersonRow| p.team is None || p.team == Some("(no team)"@);
        assert(own =~= raw);
    }
    assert forall|i: int, name: Seq<char>|
        0 <= i < people.len() && (#[trigger] people[i]).team == Some(
            name,
        ) implies #[trigger] is_listed(r, name) by {
        assert(headcounts::is_counted(r, headcounts::team_label(people[i])));
    }
    assert forall|i: int|
        0 <= i < people.len() && (#[trigger] people[i]).team is None implies is_listed(
        r,
        "(no team)"@,
    ) by {
        assert(headcounts::is_counted(r, headcounts::team_label(people[i])));
    }
    assert forall|i: int, j: int| 0 <= i < j < r.len() implies (#[trigger] r[i]).0 != (
    #[trigger] r[j]).0 && (r[i].1 > r[j].1 || (r[i].1 == r[j].1 && text::text_le(
        r[i].0,
        r[j].0,
    ))) by {
        assert(<(String, i64) as Ranked>::before(r[i], r[j]));
    }
}

/// Whether a list of headcounts has an entry for a name.
pub open spec fn is_listed(r: Seq<(Seq<char>, i64)>, name: Seq<char>) -> bool {
    exists|k: int| 0 <= k < r.len() && (#[trigger] r[k]).0 == name
}

} // verus!
