//! Laws of inference: who has a say in a guess, what a guess needs, and what each
//! refusal to guess says.

use crate::db;
use crate::edges;
use crate::infer::{self, BossVote, Verdict};
use crate::laws::sequences;
use crate::model::{self, Confidence};
use crate::seniority::{self, Rank};
use crate::tables;
use crate::text;
use vstd::prelude::*;

verus! {

/// The votes for `boss`.
pub open spec fn votes_for(votes: Seq<BossVote>, boss: i64) -> Seq<BossVote> {
    votes.filter(|v: BossVote| v.boss_id == boss)
}

/// Whether a rank is above another; an unknown one is above none.
pub open spec fn above(a: Option<Rank>, b: Option<Rank>) -> bool {
    a is Some && (b is None || a->0.rung() > b->0.rung())
}

/// Whether `boss` has more votes than anybody but the candidate, or as many as others whose
/// rank is lower.
pub open spec fn is_ahead(candidate: i64, votes: Seq<BossVote>, boss: i64) -> bool {
    &&& boss != candidate
    &&& votes_for(votes, boss).len() > 0
    &&& forall|other: i64|
        other != boss && other != candidate ==> {
            ||| (#[trigger] votes_for(votes, other)).len() < votes_for(votes, boss).len()
            ||| votes_for(votes, other).len() == votes_for(votes, boss).len() && above(
                votes_for(votes, boss).last().boss_rank,
                votes_for(votes, other).last().boss_rank,
            )
        }
}

/// The votes for somebody other than the candidate are as many where those for the
/// candidate are left out.
proof fn others_keep_their_votes(candidate: i64, votes: Seq<BossVote>, boss: i64)
    requires
        boss != candidate,
    ensures
        infer::ballots(infer::cast(candidate, votes), boss) == votes_for(votes, boss),
{
    let other = |v: BossVote| v.boss_id != candidate;
    let theirs = |v: BossVote| v.boss_id == boss;
    let same = |v: BossVote| v;
    sequences::filter_of_map(votes, other, same, theirs);
    assert(votes.filter(other).map_values(same) =~= votes.filter(other));
    let both = |v: BossVote| other(v) && theirs(same(v));
    assert(both =~= theirs);
    assert(votes.filter(theirs).map_values(same) =~= votes.filter(theirs));
}

/// Nobody votes for the candidate where those votes are left out.
proof fn candidate_has_none(candidate: i64, votes: Seq<BossVote>)
    ensures
        infer::ballots(infer::cast(candidate, votes), candidate).len() == 0,
{
    let counted = infer::cast(candidate, votes);
    if infer::ballots(counted, candidate).len() > 0 {
        let i = infer::ballot_at(counted, candidate);
        tables::filter_holds(votes, |v: BossVote| v.boss_id != candidate);
        assert(counted.contains(counted[i]));
    }
}

/// Being ahead is winning.
proof fn ahead_wins(candidate: i64, votes: Seq<BossVote>, boss: i64)
    ensures
        infer::wins(infer::cast(candidate, votes), boss) <==> is_ahead(candidate, votes, boss),
        is_ahead(candidate, votes, boss) ==> infer::most_votes(infer::cast(candidate, votes))
            == votes_for(votes, boss).len(),
{
    let counted = infer::cast(candidate, votes);
    candidate_has_none(candidate, votes);
    assert forall|b: i64| b != candidate implies #[trigger] infer::ballots(counted, b) == votes_for(
        votes,
        b,
    ) by {
        others_keep_their_votes(candidate, votes, b);
    }
    if counted.len() == 0 {
        assert forall|b: i64| infer::ballots(counted, b).len() == 0 by {
            counted.lemma_filter_len(|v: BossVote| v.boss_id == b);
        }
        if boss != candidate {
            assert(votes_for(votes, boss) == infer::ballots(counted, boss));
        }
    } else {
        infer::someone_leads(counted);
        let i = choose|i: int|
            0 <= i < counted.len() && infer::leads(counted, (#[trigger] counted[i]).boss_id);
        let top = counted[i].boss_id;
        assert(infer::ballots(counted, top).len() > 0);
        assert(top != candidate);
        assert(votes_for(votes, top) == infer::ballots(counted, top));
        if boss != candidate {
            assert(votes_for(votes, boss) == infer::ballots(counted, boss));
        }
        if infer::wins(counted, boss) {
            assert(boss != candidate);
            assert forall|other: i64| other != boss && other != candidate implies {
                ||| (#[trigger] votes_for(votes, other)).len() < votes_for(votes, boss).len()
                ||| votes_for(votes, other).len() == votes_for(votes, boss).len() && above(
                    votes_for(votes, boss).last().boss_rank,
                    votes_for(votes, other).last().boss_rank,
                )
            } by {
                assert(votes_for(votes, other) == infer::ballots(counted, other));
                if infer::leads(counted, other) {
                    assert(infer::outranks(
                        infer::rank_in(counted, boss),
                        infer::rank_in(counted, other),
                    ));
                }
            }
        }
        if is_ahead(candidate, votes, boss) {
            assert(infer::leads(counted, boss)) by {
                if top != boss {
                    assert(votes_for(votes, top).len() <= votes_for(votes, boss).len());
                }
            }
            assert forall|other: i64| other != boss && #[trigger] infer::leads(
                counted,
                other,
            ) implies infer::outranks(
                infer::rank_in(counted, boss),
                infer::rank_in(counted, other),
            ) by {
                assert(other != candidate);
                assert(votes_for(votes, other) == infer::ballots(counted, other));
            }
        }
    }
}

/// A guess names whoever is ahead, and needs two votes and half of all; where there are
/// fewer it says how many there are. Votes for the candidate count for nothing.
pub proof fn whoever_is_ahead_is_guessed(candidate: i64, votes: Seq<BossVote>, boss: i64)
    requires
        votes.len() <= usize::MAX,
        is_ahead(candidate, votes, boss),
    ensures
        ({
            let n = votes_for(votes, boss).len();
            let total = votes.filter(|v: BossVote| v.boss_id != candidate).len();
            infer::verdict(candidate, votes) == if n < 2 {
                Verdict::NoGuess {
                    reason: "only "@ + text::decimal(n as int) + " vote(s); need at least 2"@,
                }
            } else if n * 2 < total {
                Verdict::NoGuess {
                    reason: text::decimal(n as int) + "/"@ + text::decimal(total as int)
                        + " is below 50%"@,
                }
            } else {
                Verdict::Inferred {
                    boss_id: boss,
                    votes: n as usize,
                    total: total as usize,
                    confidence: Confidence::Share { votes: n as usize, total: total as usize },
                }
            }
        }),
{
    let counted = infer::cast(candidate, votes);
    ahead_wins(candidate, votes, boss);
    let w = choose|b: i64| infer::wins(counted, b);
    infer::one_winner(counted, w, boss);
    counted.lemma_filter_len(|v: BossVote| v.boss_id == boss);
    assert(infer::leads(counted, boss));
}

/// Whoever a guess names is ahead, has at least two votes and at least half of all.
pub proof fn guess_is_ahead(candidate: i64, votes: Seq<BossVote>)
    requires
        votes.len() <= usize::MAX,
    ensures
        infer::verdict(candidate, votes) matches Verdict::Inferred {
            boss_id,
            votes: n,
            total,
            confidence,
        } ==> {
            &&& is_ahead(candidate, votes, boss_id)
            &&& n == votes_for(votes, boss_id).len() && n >= 2 && n * 2 >= total
            &&& total == votes.filter(|v: BossVote| v.boss_id != candidate).len()
            &&& confidence == (Confidence::Share { votes: n, total })
        },
{
    let counted = infer::cast(candidate, votes);
    if let Verdict::Inferred { boss_id, votes: n, total, confidence } = infer::verdict(
        candidate,
        votes,
    ) {
        assert(infer::wins(counted, boss_id));
        ahead_wins(candidate, votes, boss_id);
        infer::guess_is_backed(candidate, votes);
    }
}

/// Without a vote for anybody but the candidate there is no guess, and the reason says so.
pub proof fn no_votes_no_guess(candidate: i64, votes: Seq<BossVote>)
    requires
        forall|i: int| 0 <= i < votes.len() ==> (#[trigger] votes[i]).boss_id == candidate,
    ensures
        infer::verdict(candidate, votes) == (Verdict::NoGuess {
            reason: "no teammates have a reporting line"@,
        }),
{
    let counted = infer::cast(candidate, votes);
    tables::filter_holds(votes, |v: BossVote| v.boss_id != candidate);
    if counted.len() > 0 {
        assert(counted.contains(counted[0]));
    }
}

/// Two with the most votes of all and no rank between them are a tie, unless a third with as
/// many is above them: no guess, and the reason says at how many votes.
pub proof fn tie_without_rank_is_no_guess(candidate: i64, votes: Seq<BossVote>, a: i64, b: i64)
    requires
        a != b,
        a != candidate,
        b != candidate,
        votes_for(votes, a).len() > 0,
        votes_for(votes, a).len() == votes_for(votes, b).len(),
        !above(votes_for(votes, a).last().boss_rank, votes_for(votes, b).last().boss_rank),
        !above(votes_for(votes, b).last().boss_rank, votes_for(votes, a).last().boss_rank),
        forall|c: i64|
            c != candidate ==> (#[trigger] votes_for(votes, c)).len() < votes_for(votes, a).len() || (
            votes_for(votes, c).len() == votes_for(votes, a).len() && !above(
                votes_for(votes, c).last().boss_rank,
                votes_for(votes, a).last().boss_rank,
            )),
    ensures
        infer::verdict(candidate, votes) == (Verdict::NoGuess {
            reason: "tie at "@ + text::decimal(votes_for(votes, a).len() as int)
                + " vote(s) — no plurality or seniority edge"@,
        }),
{
    let counted = infer::cast(candidate, votes);
    candidate_has_none(candidate, votes);
    others_keep_their_votes(candidate, votes, a);
    counted.lemma_filter_len(|v: BossVote| v.boss_id == a);
    infer::someone_leads(counted);
    let i = choose|i: int|
        0 <= i < counted.len() && infer::leads(counted, (#[trigger] counted[i]).boss_id);
    let top = counted[i].boss_id;
    assert(infer::ballots(counted, top).len() > 0);
    others_keep_their_votes(candidate, votes, top);
    assert(votes_for(votes, top).len() <= votes_for(votes, a).len());
    assert forall|w: i64| !infer::wins(counted, w) by {
        ahead_wins(candidate, votes, w);
        if is_ahead(candidate, votes, w) {
            assert(votes_for(votes, a).len() <= votes_for(votes, w).len());
            assert(votes_for(votes, b).len() <= votes_for(votes, w).len());
            assert(votes_for(votes, w).len() <= votes_for(votes, a).len());
        }
    }
}

/// The reporting lines that have a say in who the boss of `person` may be: those of other
/// people on exactly that team, to anybody but the person.
pub open spec fn teammates_lines(t: db::Tables, person: i64, team: Seq<char>) -> Seq<
    model::EdgeRow,
> {
    t.edges.filter(
        |e: model::EdgeRow|
            e.kind == "reports_to"@ && e.from_id != person && e.to_id != person && exists|k: int|
                0 <= k < t.people.len() && (#[trigger] t.people[k]).id == e.from_id
                    && t.people[k].team == Some(team),
    )
}

/// Those of them that lead to `boss`.
pub open spec fn teammates_lines_to(
    t: db::Tables,
    person: i64,
    team: Seq<char>,
    boss: i64,
) -> Seq<model::EdgeRow> {
    teammates_lines(t, person, team).filter(|e: model::EdgeRow| e.to_id == boss)
}

/// The rank of whoever has the id.
pub open spec fn rank_of_id(t: db::Tables, id: i64) -> Option<Rank> {
    match tables::row(t.people, id) {
        Some(p) => match p.title {
            Some(s) => seniority::title_rank(s),
            None => None,
        },
        None => None,
    }
}

/// Every line of a teammate to anybody but the person is one vote, and nothing else is.
proof fn votes_are_teammates_lines(t: db::Tables, person: i64, team: Seq<char>)
    requires
        t.wf(),
    ensures
        infer::cast(person, infer::team_votes(t, person, team)) == teammates_lines(
            t,
            person,
            team,
        ).map_values(|e: model::EdgeRow| infer::vote_of(t, e)),
        forall|e: model::EdgeRow| #[trigger]
            teammates_lines(t, person, team).contains(e) ==> tables::has_id(t.people, e.to_id)
                && e.to_id != person,
{
    let p = |e: model::EdgeRow| infer::is_teammate_line(t, person, team, e);
    let f = |e: model::EdgeRow| infer::vote_of(t, e);
    let q = |v: BossVote| v.boss_id != person;
    let raw = |e: model::EdgeRow|
        e.kind == "reports_to"@ && e.from_id != person && e.to_id != person && exists|k: int|
            0 <= k < t.people.len() && (#[trigger] t.people[k]).id == e.from_id
                && t.people[k].team == Some(team);
    let both = |e: model::EdgeRow| p(e) && q(f(e));
    sequences::filter_of_map(t.edges, p, f, q);
    db::wf_by_rows(t);
    assert forall|e: model::EdgeRow| #[trigger] t.edges.contains(e) implies both(e) == raw(e) by {
        crate::laws::tables::people_are_found_by_id(t.people, e.from_id);
        let k = choose|k: int|
            0 <= k < t.people.len() && (#[trigger] t.people[k]).id == e.from_id;
        assert(tables::row(t.people, e.from_id) == Some(t.people[k]));
        if raw(e) {
            let j = choose|j: int|
                0 <= j < t.people.len() && (#[trigger] t.people[j]).id == e.from_id
                    && t.people[j].team == Some(team);
            assert(tables::row(t.people, e.from_id) == Some(t.people[j]));
        }
    }
    sequences::filter_alike(t.edges, both, raw);
    tables::filter_holds(t.edges, raw);
}

/// The votes for somebody are the lines that lead to them, with their rank.
proof fn votes_for_are_lines_to(t: db::Tables, person: i64, team: Seq<char>, boss: i64)
    requires
        t.wf(),
        boss != person,
    ensures
        ({
            let votes = infer::team_votes(t, person, team);
            &&& votes_for(votes, boss).len() == teammates_lines_to(t, person, team, boss).len()
            &&& votes_for(votes, boss).len() > 0 ==> votes_for(votes, boss).last().boss_rank
                == rank_of_id(t, boss)
        }),
{
    let votes = infer::team_votes(t, person, team);
    let lines = teammates_lines(t, person, team);
    let f = |e: model::EdgeRow| infer::vote_of(t, e);
    let all = |e: model::EdgeRow| true;
    let q = |v: BossVote| v.boss_id == boss;
    let to = |e: model::EdgeRow| e.to_id == boss;
    votes_are_teammates_lines(t, person, team);
    others_keep_their_votes(person, votes, boss);
    sequences::filter_of_map(lines, all, f, q);
    tables::filter_is_prefix(lines, all, lines.len() as int);
    assert(lines.take(lines.len() as int) =~= lines);
    let both = |e: model::EdgeRow| all(e) && q(f(e));
    assert(both =~= to);
    let mine = teammates_lines_to(t, person, team, boss);
    assert(votes_for(votes, boss) == mine.map_values(f));
    if mine.len() > 0 {
        let e = mine[mine.len() - 1];
        tables::filter_holds(lines, to);
        assert(mine.contains(e));
        tables::row_found(t.people, boss);
    }
}

/// The number of votes is that of the lines.
proof fn vote_counts(t: db::Tables, person: i64, team: Seq<char>)
    requires
        t.wf(),
    ensures
        ({
            let votes = infer::team_votes(t, person, team);
            &&& votes.len() <= t.edges.len()
            &&& votes.filter(|v: BossVote| v.boss_id != person).len() == teammates_lines(
                t,
                person,
                team,
            ).len()
        }),
{
    votes_are_teammates_lines(t, person, team);
    t.edges.lemma_filter_len(|e: model::EdgeRow| infer::is_teammate_line(t, person, team, e));
}

/// Whether no reporting line of `person` is there.
pub open spec fn reports_to_nobody(t: db::Tables, person: i64) -> bool {
    forall|i: int|
        0 <= i < t.edges.len() && (#[trigger] t.edges[i]).from_id == person ==> t.edges[i].kind
            != "reports_to"@
}

/// Whoever reports to nobody has no lines.
pub(crate) proof fn no_lines(t: db::Tables, person: i64)
    ensures
        edges::lines_of(t.edges, person).len() == 0 <==> reports_to_nobody(t, person),
{
    let mine = |e: model::EdgeRow| edges::is_line_of(e, person);
    tables::filter_holds(t.edges, mine);
    if edges::lines_of(t.edges, person).len() > 0 {
        let e = t.edges.filter(mine)[0];
        assert(t.edges.filter(mine).contains(e));
        let i = choose|i: int| 0 <= i < t.edges.len() && t.edges[i] == e;
        assert(t.edges[i].from_id == person);
    } else {
        assert forall|i: int|
            0 <= i < t.edges.len() && (#[trigger] t.edges[i]).from_id
                == person implies t.edges[i].kind != "reports_to"@ by {
            if mine(t.edges[i]) {
                assert(t.edges.filter(mine).contains(t.edges[i]));
            }
        }
    }
}

/// Nothing is guessed for somebody who has a reporting line or no team, nor for nobody, and
/// nothing is written; the answer says which.
pub proof fn nothing_to_guess(t: db::Tables, person: i64, ts: Seq<char>, k: int)
    requires
        t.wf(),
    ensures
        !reports_to_nobody(t, person) ==> infer::boss_inferred(t, person, ts) == (
            t,
            Ok::<Verdict, model::ErrorView>(
                Verdict::NoGuess { reason: "person already has a reporting line"@ },
            ),
        ),
        (forall|i: int| 0 <= i < t.people.len() ==> (#[trigger] t.people[i]).id != person)
            ==> infer::boss_inferred(t, person, ts) == (
            t,
            Err::<Verdict, model::ErrorView>(model::ErrorView::PersonNotFound(person)),
        ),
        reports_to_nobody(t, person) && 0 <= k < t.people.len() && t.people[k].id == person
            && t.people[k].team is None ==> infer::boss_inferred(t, person, ts) == (
            t,
            Ok::<Verdict, model::ErrorView>(Verdict::NoGuess { reason: "person has no team"@ }),
        ),
{
    no_lines(t, person);
    crate::laws::tables::people_are_found_by_id(t.people, person);
    db::wf_by_rows(t);
    if forall|i: int| 0 <= i < t.people.len() ==> (#[trigger] t.people[i]).id != person {
        if !reports_to_nobody(t, person) {
            let i = choose|i: int|
                0 <= i < t.edges.len() && (#[trigger] t.edges[i]).from_id == person
                    && t.edges[i].kind == "reports_to"@;
            assert(t.edges.contains(t.edges[i]));
            assert(tables::has_id(t.people, t.edges[i].from_id));
        }
    }
}

/// Only teammates count: whoever is guessed has at least two of the reporting lines of other
/// people on exactly that team, at least half of those that lead to anybody but the person,
/// and as many as anybody; those with as many have a lower rank. The guess, and nothing
/// else, is written down as an edge.
pub proof fn only_teammates_count(
    t: db::Tables,
    person: i64,
    team: Seq<char>,
    ts: Seq<char>,
    k: int,
)
    requires
        t.wf(),
        t.edges.len() <= usize::MAX,
        0 <= k < t.people.len(),
        t.people[k].id == person,
        t.people[k].team == Some(team),
    ensures
        ({
            let (u, r) = infer::boss_inferred(t, person, ts);
            &&& u.people == t.people
            &&& !(r matches Ok(Verdict::Inferred { .. })) ==> u == t
            &&& r matches Ok(Verdict::Inferred { boss_id, votes, total, confidence }) ==> {
                &&& boss_id != person
                &&& votes == teammates_lines_to(t, person, team, boss_id).len()
                &&& total == teammates_lines(t, person, team).len()
                &&& votes >= 2 && votes * 2 >= total
                &&& forall|other: i64|
                    other != boss_id && other != person ==> {
                        ||| (#[trigger] teammates_lines_to(t, person, team, other)).len() < votes
                        ||| teammates_lines_to(t, person, team, other).len() == votes && above(
                            rank_of_id(t, boss_id),
                            rank_of_id(t, other),
                        )
                    }
                &&& confidence == (Confidence::Share { votes, total })
                &&& exists|id: i64|
                    {
                        let line = model::EdgeRow {
                            id,
                            from_id: person,
                            to_id: boss_id,
                            kind: "reports_to"@,
                            notes: None,
                            confidence,
                            source: "inferred"@,
                            created_at: ts,
                        };
                        &&& !(#[trigger] tables::has_id(t.edges, id))
                        &&& forall|e: model::EdgeRow| #[trigger]
                            u.edges.contains(e) <==> e == line || t.edges.contains(e)
                    }
            }
        }),
{
    let (u, r) = infer::boss_inferred(t, person, ts);
    let votes = infer::team_votes(t, person, team);
    crate::laws::tables::people_are_found_by_id(t.people, person);
    assert(tables::row(t.people, person) == Some(t.people[k]));
    vote_counts(t, person, team);
    if let Ok(Verdict::Inferred { boss_id, votes: n, total, confidence }) = r {
        guess_is_ahead(person, votes);
        votes_for_are_lines_to(t, person, team, boss_id);
        assert forall|other: i64| other != boss_id && other != person implies {
            ||| (#[trigger] teammates_lines_to(t, person, team, other)).len() < n
            ||| teammates_lines_to(t, person, team, other).len() == n && above(
                rank_of_id(t, boss_id),
                rank_of_id(t, other),
            )
        } by {
            votes_for_are_lines_to(t, person, team, other);
            assert(votes_for(votes, other).len() <= n);
        }
        let id = tables::next_id(t.edges)->0;
        let line = infer::inferred_line(id, person, boss_id, confidence, ts);
        tables::next_id_is_unused(t.edges, id);
        tables::put_keeps(t.edges, line);
        assert(!tables::has_id(t.edges, id));
        assert forall|e: model::EdgeRow| #[trigger] u.edges.contains(e) <==> e == line
            || t.edges.contains(e) by {
            if t.edges.contains(e) && e.id == id {
                let i = choose|i: int| 0 <= i < t.edges.len() && t.edges[i] == e;
                assert(tables::Keyed::key(t.edges[i]) == id);
            }
        }
    }
}

/// Whoever leads among the lines of the teammates is the answer, if two lines and half of
/// all lead to them; the answer says what is missing otherwise.
pub proof fn leading_teammates_boss_is_the_answer(
    t: db::Tables,
    person: i64,
    team: Seq<char>,
    ts: Seq<char>,
    k: int,
    boss: i64,
    free: i64,
)
    requires
        t.wf(),
        t.edges.len() <= usize::MAX,
        0 <= k < t.people.len(),
        t.people[k].id == person,
        t.people[k].team == Some(team),
        reports_to_nobody(t, person),
        0 < free,
        forall|i: int| 0 <= i < t.edges.len() ==> (#[trigger] t.edges[i]).id != free,
        boss != person,
        teammates_lines_to(t, person, team, boss).len() > 0,
        forall|other: i64|
            other != boss && other != person ==> {
                ||| (#[trigger] teammates_lines_to(t, person, team, other)).len()
                    < teammates_lines_to(t, person, team, boss).len()
                ||| teammates_lines_to(t, person, team, other).len() == teammates_lines_to(
                    t,
                    person,
                    team,
                    boss,
                ).len() && above(rank_of_id(t, boss), rank_of_id(t, other))
            },
    ensures
        ({
            let n = teammates_lines_to(t, person, team, boss).len();
            let total = teammates_lines(t, person, team).len();
            infer::boss_inferred(t, person, ts).1 == Ok::<Verdict, model::ErrorView>(
                if n < 2 {
                    Verdict::NoGuess {
                        reason: "only "@ + text::decimal(n as int) + " vote(s); need at least 2"@,
                    }
                } else if n * 2 < total {
                    Verdict::NoGuess {
                        reason: text::decimal(n as int) + "/"@ + text::decimal(total as int)
                            + " is below 50%"@,
                    }
                } else {
                    Verdict::Inferred {
                        boss_id: boss,
                        votes: n as usize,
                        total: total as usize,
                        confidence: Confidence::Share { votes: n as usize, total: total as usize },
                    }
                },
            )
        }),
{
    let votes = infer::team_votes(t, person, team);
    crate::laws::tables::people_are_found_by_id(t.people, person);
    assert(tables::row(t.people, person) == Some(t.people[k]));
    no_lines(t, person);
    vote_counts(t, person, team);
    votes_for_are_lines_to(t, person, team, boss);
    id_is_left(t, free);
    assert forall|other: i64| other != boss && other != person implies {
        ||| (#[trigger] votes_for(votes, other)).len() < votes_for(votes, boss).len()
        ||| votes_for(votes, other).len() == votes_for(votes, boss).len() && above(
            votes_for(votes, boss).last().boss_rank,
            votes_for(votes, other).last().boss_rank,
        )
    } by {
        votes_for_are_lines_to(t, person, team, other);
        assert(teammates_lines_to(t, person, team, other).len() <= teammates_lines_to(
            t,
            person,
            team,
            boss,
        ).len());
    }
    whoever_is_ahead_is_guessed(person, votes, boss);
}

/// An id that no edge has is left for a new one.
proof fn id_is_left(t: db::Tables, free: i64)
    requires
        t.wf(),
        0 < free,
        forall|i: int| 0 <= i < t.edges.len() ==> (#[trigger] t.edges[i]).id != free,
    ensures
        tables::next_id(t.edges) is Some,
{
    crate::laws::tables::new_ids_are_free(t.edges);
    if tables::next_id(t.edges) is None {
        assert(tables::has_id(t.edges, free));
        let i = choose|i: int|
            0 <= i < t.edges.len() && tables::Keyed::key(#[trigger] t.edges[i]) == free;
        assert(t.edges[i].id == free);
    }
}

/// Other teams have no say: two directories with the same people and the same lines of the
/// teammates give the same answer, whatever lines everybody else has.
pub proof fn other_teams_have_no_say(
    t: db::Tables,
    u: db::Tables,
    person: i64,
    team: Seq<char>,
    ts: Seq<char>,
    k: int,
    free: i64,
)
    requires
        t.wf(),
        u.wf(),
        t.people == u.people,
        0 <= k < t.people.len(),
        t.people[k].id == person,
        t.people[k].team == Some(team),
        reports_to_nobody(t, person),
        reports_to_nobody(u, person),
        teammates_lines(t, person, team) == teammates_lines(u, person, team),
        0 < free,
        forall|i: int| 0 <= i < t.edges.len() ==> (#[trigger] t.edges[i]).id != free,
        forall|i: int| 0 <= i < u.edges.len() ==> (#[trigger] u.edges[i]).id != free,
    ensures
        infer::boss_inferred(t, person, ts).1 == infer::boss_inferred(u, person, ts).1,
{
    crate::laws::tables::people_are_found_by_id(t.people, person);
    assert(tables::row(t.people, person) == Some(t.people[k]));
    no_lines(t, person);
    no_lines(u, person);
    id_is_left(t, free);
    id_is_left(u, free);
    votes_are_teammates_lines(t, person, team);
    votes_are_teammates_lines(u, person, team);
    let f = |e: model::EdgeRow| infer::vote_of(t, e);
    let g = |e: model::EdgeRow| infer::vote_of(u, e);
    assert(f =~= g);
}

/// Without a line of a teammate to anybody but the person there is no guess, and the answer
/// says so.
pub proof fn no_lines_no_guess(
    t: db::Tables,
    person: i64,
    team: Seq<char>,
    ts: Seq<char>,
    k: int,
)
    requires
        t.wf(),
        0 <= k < t.people.len(),
        t.people[k].id == person,
        t.people[k].team == Some(team),
        reports_to_nobody(t, person),
        teammates_lines(t, person, team).len() == 0,
    ensures
        infer::boss_inferred(t, person, ts) == (
            t,
            Ok::<Verdict, model::ErrorView>(
                Verdict::NoGuess { reason: "no teammates have a reporting line"@ },
            ),
        ),
{
    crate::laws::tables::people_are_found_by_id(t.people, person);
    assert(tables::row(t.people, person) == Some(t.people[k]));
    no_lines(t, person);
    vote_counts(t, person, team);
}

/// Two who lead among the lines of the teammates with no rank between them are a tie, unless
/// a third with as many is above them: no guess.
pub proof fn teammates_tie_is_no_guess(
    t: db::Tables,
    person: i64,
    team: Seq<char>,
    ts: Seq<char>,
    k: int,
    a: i64,
    b: i64,
)
    requires
        t.wf(),
        0 <= k < t.people.len(),
        t.people[k].id == person,
        t.people[k].team == Some(team),
        reports_to_nobody(t, person),
        a != b,
        a != person,
        b != person,
        teammates_lines_to(t, person, team, a).len() > 0,
        teammates_lines_to(t, person, team, a).len() == teammates_lines_to(
            t,
            person,
            team,
            b,
        ).len(),
        !above(rank_of_id(t, a), rank_of_id(t, b)),
        !above(rank_of_id(t, b), rank_of_id(t, a)),
        forall|c: i64|
            c != person ==> (#[trigger] teammates_lines_to(t, person, team, c)).len()
                < teammates_lines_to(t, person, team, a).len() || (teammates_lines_to(
                t,
                person,
                team,
                c,
            ).len() == teammates_lines_to(t, person, team, a).len() && !above(
                rank_of_id(t, c),
                rank_of_id(t, a),
            )),
    ensures
        infer::boss_inferred(t, person, ts) == (
            t,
            Ok::<Verdict, model::ErrorView>(
                Verdict::NoGuess {
                    reason: "tie at "@ + text::decimal(
                        teammates_lines_to(t, person, team, a).len() as int,
                    ) + " vote(s) — no plurality or seniority edge"@,
                },
            ),
        ),
{
    let votes = infer::team_votes(t, person, team);
    crate::laws::tables::people_are_found_by_id(t.people, person);
    assert(tables::row(t.people, person) == Some(t.people[k]));
    no_lines(t, person);
    votes_for_are_lines_to(t, person, team, a);
    votes_for_are_lines_to(t, person, team, b);
    assert forall|c: i64| c != person implies (#[trigger] votes_for(votes, c)).len() < votes_for(
        votes,
        a,
    ).len() || (votes_for(votes, c).len() == votes_for(votes, a).len() && !above(
        votes_for(votes, c).last().boss_rank,
        votes_for(votes, a).last().boss_rank,
    )) by {
        votes_for_are_lines_to(t, person, team, c);
        assert(teammates_lines_to(t, person, team, c).len() <= teammates_lines_to(
            t,
            person,
            team,
            a,
        ).len());
    }
    tie_without_rank_is_no_guess(person, votes, a, b);
}

} // verus!
