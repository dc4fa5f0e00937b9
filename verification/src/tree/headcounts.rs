//! How many people each team has.

use crate::db::Db;
use crate::model::{self, Person};
use crate::order::{self, sort, Ranked};
use crate::tables;
use crate::text::{self, le_text, same_text};
use vstd::prelude::*;

verus! {

/// The name under which a person counts: their team, if they have one.
pub open spec fn team_label(p: model::PersonRow) -> Seq<char> {
    match p.team {
        Some(name) => name,
        None => "(no team)"@,
    }
}

/// How many people count under a name.
pub open spec fn headcount(people: Seq<model::PersonRow>, name: Seq<char>) -> int {
    people.filter(|p: model::PersonRow| team_label(p) == name).len() as int
}

impl Ranked for (String, i64) {
    open spec fn before(a: (Seq<char>, i64), b: (Seq<char>, i64)) -> bool {
        if a.1 != b.1 {
            a.1 > b.1
        } else {
            text::text_le(a.0, b.0)
        }
    }

    fn may_precede(&self, other: &(String, i64)) -> (r: bool) {
        if self.1 != other.1 {
            self.1 > other.1
        } else {
            le_text(self.0.as_str(), other.0.as_str())
        }
    }
}

/// Whether a name is in a list of headcounts.
pub open spec fn is_counted(r: Seq<(Seq<char>, i64)>, name: Seq<char>) -> bool {
    exists|k: int| 0 <= k < r.len() && (#[trigger] r[k]).0 == name
}

/// Whether `r` gives the headcount of every team once, larger ones first and those
/// of the same size by name.
pub open spec fn are_headcounts(
    people: Seq<model::PersonRow>,
    r: Seq<(Seq<char>, i64)>,
) -> bool {
    &&& forall|k: int|
        0 <= k < r.len() ==> (#[trigger] r[k]).1 == headcount(people, r[k].0) && r[k].1 > 0
    &&& forall|i: int|
        0 <= i < people.len() ==> is_counted(r, team_label(#[trigger] people[i]))
    &&& forall|i: int, j: int|
        0 <= i < j < r.len() ==> (#[trigger] r[i]).0 != (#[trigger] r[j]).0
            && <(String, i64) as Ranked>::before(r[i], r[j])
}

/// How many people count under a name.
fn count_label(people: &Vec<Person>, name: &str) -> (r: i64)
    requires
        people@.len() <= i64::MAX,
    ensures
        r == headcount(tables::rows(people@), name@),
{
    let ghost s = tables::rows(people@);
    let ghost pass = |p: model::PersonRow| team_label(p) == name@;
    let mut n: i64 = 0;
    let mut k: usize = 0;
    assert(s.take(0).filter(pass).len() == 0) by {
        reveal(Seq::filter);
    }
    while k < people.len()
        invariant
            people@.len() <= i64::MAX,
            s == tables::rows(people@),
            pass == (|p: model::PersonRow| team_label(p) == name@),
            k <= people@.len(),
            0 <= n <= k,
            n == s.take(k as int).filter(pass).len(),
        decreases people@.len() - k,
    {
        proof {
            reveal(Seq::filter);
            assert(s.take(k + 1).drop_last() =~= s.take(k as int));
            assert(s.take(k + 1).last() == people@[k as int]@);
        }
        if same_text(label_of(&people[k]), name) {
            n = n + 1;
        }
        k = k + 1;
    }
    assert(s.take(k as int) =~= s);
    n
}

/// The name under which a person counts.
fn label_of(p: &Person) -> (r: &str)
    ensures
        r@ == team_label(p@),
{
    match &p.team {
        Some(name) => name.as_str(),
        None => "(no team)",
    }
}

/// Headcounts per team, larger ones first and those of the same size by name. People
/// without a team count under "(no team)".
pub fn team_headcounts(db: &Db) -> (r: Vec<(String, i64)>)
    requires
        db@.people.len() <= i64::MAX,
    ensures
        are_headcounts(db@.people, tables::rows(r@)),
{
    let people = db.people();
    let ghost s = db@.people;
    let mut out: Vec<(String, i64)> = Vec::new();
    let mut k: usize = 0;
    while k < people.len()
        invariant
            s == tables::rows(people@),
            people@.len() <= i64::MAX,
            k <= people@.len(),
            forall|m: int|
                0 <= m < out@.len() ==> (#[trigger] out@[m]).1 == headcount(s, out@[m].0@)
                    && out@[m].1 > 0,
            forall|i: int|
                0 <= i < k ==> is_counted(tables::rows(out@), team_label(#[trigger] s[i])),
            forall|i: int, j: int|
                0 <= i < j < out@.len() ==> (#[trigger] out@[i]).0@ != (#[trigger] out@[j]).0@,
        decreases people@.len() - k,
    {
        let p = &people[k];
        assert(s[k as int] == p@);
        let name = label_of(p);
        let mut known: bool = false;
        let mut m: usize = 0;
        while m < out.len() && !known
            invariant
                m <= out@.len(),
                known ==> exists|q: int| 0 <= q < out@.len() && (#[trigger] out@[q]).0@ == name@,
                !known ==> forall|q: int| 0 <= q < m ==> (#[trigger] out@[q]).0@ != name@,
            decreases out@.len() - m + if known { 0int } else { 1int },
        {
            if same_text(out[m].0.as_str(), name) {
                assert(out@[m as int].0@ == name@);
                known = true;
            } else {
                m = m + 1;
            }
        }
        let ghost before = tables::rows(out@);
        if !known {
            let n = count_label(people, name);
            proof {
                let pass = |q: model::PersonRow| team_label(q) == name@;
                s.lemma_filter_contains(pass, k as int);
                assert(s.filter(pass).contains(s[k as int]));
            }
            out.push((name.to_owned(), n));
            assert(out@[out@.len() - 1].0@ == name@);
        }
        proof {
            let after = tables::rows(out@);
            assert forall|i: int| 0 <= i < k + 1 implies is_counted(
                after,
                team_label(#[trigger] s[i]),
            ) by {
                if i < k {
                    assert(is_counted(before, team_label(s[i])));
                    let q = choose|q: int|
                        0 <= q < before.len() && (#[trigger] before[q]).0 == team_label(s[i]);
                    assert(after[q].0 == team_label(s[i]));
                } else {
                    let q = choose|q: int| 0 <= q < out@.len() && (#[trigger] out@[q]).0@ == name@;
                    assert(after[q].0 == name@);
                }
            }
        }
        k = k + 1;
    }
    let ghost unsorted = tables::rows(out@);
    sort(&mut out);
    proof {
        let le = |a: (Seq<char>, i64), b: (Seq<char>, i64)| <(String, i64) as Ranked>::before(a, b);
        let r = tables::rows(out@);
        assert forall|a: (Seq<char>, i64), b: (Seq<char>, i64)| #[trigger] le(a, b) || le(b, a) by {
            text::text_le_total(a.0, b.0);
        }
        assert forall|a: (Seq<char>, i64), b: (Seq<char>, i64), c: (Seq<char>, i64)|
            #[trigger] le(a, b) && #[trigger] le(b, c) implies le(a, c) by {
            if a.1 == b.1 && b.1 == c.1 {
                text::text_le_transitive(a.0, b.0, c.0);
            }
        }
        order::in_order_sorts(unsorted, le);
        assert forall|m: int| 0 <= m < r.len() implies (#[trigger] r[m]).1 == headcount(s, r[m].0)
            && r[m].1 > 0 by {
            assert(r.contains(r[m]));
            assert(unsorted.contains(r[m]));
        }
        assert forall|i: int| 0 <= i < s.len() implies is_counted(
            r,
            team_label(#[trigger] s[i]),
        ) by {
            assert(is_counted(unsorted, team_label(s[i])));
            let q = choose|q: int|
                0 <= q < unsorted.len() && (#[trigger] unsorted[q]).0 == team_label(s[i]);
            assert(unsorted.contains(unsorted[q]));
            assert(r.contains(unsorted[q]));
        }
        assert(unsorted.no_duplicates());
        unsorted.lemma_multiset_has_no_duplicates();
        r.lemma_multiset_has_no_duplicates_conv();
        assert forall|i: int, j: int| 0 <= i < j < r.len() implies (#[trigger] r[i]).0 != (
        #[trigger] r[j]).0 && <(String, i64) as Ranked>::before(r[i], r[j]) by {
            assert(le(r[i], r[j]));
            assert(r.contains(r[i]) && r.contains(r[j]));
            assert(unsorted.contains(r[i]) && unsorted.contains(r[j]));
            let a = choose|a: int| 0 <= a < unsorted.len() && unsorted[a] == r[i];
            let b = choose|b: int| 0 <= b < unsorted.len() && unsorted[b] == r[j];
            assert(r[i] != r[j]);
        }
    }
    out
}

/// The sum of a list of headcounts.
pub open spec fn total(r: Seq<(Seq<char>, i64)>) -> int
    decreases r.len(),
{
    if r.len() == 0 {
        0
    } else {
        total(r.drop_last()) + r.last().1
    }
}

proof fn total_counts_listed(people: Seq<model::PersonRow>, r: Seq<(Seq<char>, i64)>)
    requires
        forall|k: int| 0 <= k < r.len() ==> (#[trigger] r[k]).1 == headcount(people, r[k].0),
        forall|i: int, j: int|
            0 <= i < j < r.len() ==> (#[trigger] r[i]).0 != (#[trigger] r[j]).0,
    ensures
        total(r) == people.filter(|p: model::PersonRow| is_counted(r, team_label(p))).len(),
    decreases r.len(),
{
    let here = |p: model::PersonRow| is_counted(r, team_label(p));
    if r.len() == 0 {
        tables::filter_is_prefix(people, here, 0);
    } else {
        let rest = r.drop_last();
        let name = r.last().0;
        assert forall|k: int| 0 <= k < rest.len() implies (#[trigger] rest[k]).1 == headcount(
            people,
            rest[k].0,
        ) by {
            assert(rest[k] == r[k]);
        }
        assert forall|i: int, j: int| 0 <= i < j < rest.len() implies (#[trigger] rest[i]).0 != (
        #[trigger] rest[j]).0 by {
            assert(r[i].0 != r[j].0);
        }
        total_counts_listed(people, rest);
        assert(r.last() == r[r.len() - 1]);
        assert(!is_counted(rest, name)) by {
            if is_counted(rest, name) {
                let k = choose|k: int| 0 <= k < rest.len() && (#[trigger] rest[k]).0 == name;
                assert(r[k].0 != r[r.len() - 1].0);
            }
        }
        parts_add_up(people, r);
    }
}

proof fn parts_add_up(people: Seq<model::PersonRow>, r: Seq<(Seq<char>, i64)>)
    requires
        r.len() > 0,
        !is_counted(r.drop_last(), r.last().0),
    ensures
        people.filter(|p: model::PersonRow| is_counted(r, team_label(p))).len() == people.filter(
            |p: model::PersonRow| is_counted(r.drop_last(), team_label(p)),
        ).len() + headcount(people, r.last().0),
    decreases people.len(),
{
    reveal(Seq::filter);
    if people.len() > 0 {
        parts_add_up(people.drop_last(), r);
        let label = team_label(people.last());
        let rest = r.drop_last();
        assert(is_counted(r, label) <==> is_counted(rest, label) || label == r.last().0) by {
            if is_counted(r, label) && label != r.last().0 {
                let k = choose|k: int| 0 <= k < r.len() && (#[trigger] r[k]).0 == label;
                assert(rest[k].0 == label);
            }
            if is_counted(rest, label) {
                let k = choose|k: int| 0 <= k < rest.len() && (#[trigger] rest[k]).0 == label;
                assert(r[k].0 == label);
            }
            if label == r.last().0 {
                assert(r[r.len() - 1].0 == label);
            }
        }
    }
}

/// Headcounts add up: everyone is counted once.
pub proof fn headcounts_add_up(people: Seq<model::PersonRow>, r: Seq<(Seq<char>, i64)>)
    requires
        are_headcounts(people, r),
    ensures
        total(r) == people.len(),
{
    total_counts_listed(people, r);
    let here = |p: model::PersonRow| is_counted(r, team_label(p));
    tables::filter_is_prefix(people, here, people.len() as int);
    assert(people.take(people.len() as int) =~= people);
}

} // verus!
