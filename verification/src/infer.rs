//! Boss inference: a guess at someone's boss from their teammates' reporting lines.
//!
//! The decision is a pure function, [`tally_boss_vote`], from the teammates' bosses
//! to a verdict. [`infer_boss`] gathers the votes, applies the rule and keeps the
//! line it guessed.

use crate::clock::{self, now};
use crate::db::{self, Db};
use crate::edges::{self, relate_at, RelateInput};
use crate::model::{self, kind, source, Confidence, OrgError};
use crate::people::{self, title_of};
use crate::seniority::{self, rank_of, Rank};
use crate::tables::{self, find};
use crate::text::{self, push_nat, same_text};
use vstd::prelude::*;
use vstd::string::*;

verus! {

/// What the inference decided, so that callers can say what was guessed and why.
#[derive(Debug, PartialEq)]
pub enum Inference {
    /// A boss was inferred. `confidence` is the winner's share of the votes.
    Inferred { boss_id: i64, votes: usize, total: usize, confidence: Confidence },
    /// Not enough signal: too few votes, no plurality, or a tie.
    NoGuess { reason: String },
}

/// What an [`Inference`] holds.
#[verifier::ext_equal]
pub enum Verdict {
    Inferred { boss_id: i64, votes: usize, total: usize, confidence: Confidence },
    NoGuess { reason: Seq<char> },
}

impl View for Inference {
    type V = Verdict;

    open spec fn view(&self) -> Verdict {
        match *self {
            Inference::Inferred { boss_id, votes, total, confidence } => Verdict::Inferred {
                boss_id,
                votes,
                total,
                confidence,
            },
            Inference::NoGuess { reason } => Verdict::NoGuess { reason: reason@ },
        }
    }
}

/// One teammate's vote: their boss, and how senior the boss's title is, which only
/// breaks ties.
#[derive(Debug, Clone, Copy, PartialEq, Structural)]
pub struct BossVote {
    pub boss_id: i64,
    pub boss_rank: Option<Rank>,
}

/// The votes that count: those for anyone but the candidate.
pub open spec fn cast(candidate: i64, votes: Seq<BossVote>) -> Seq<BossVote> {
    votes.filter(|v: BossVote| v.boss_id != candidate)
}

/// The votes for one boss.
pub open spec fn ballots(votes: Seq<BossVote>, boss: i64) -> Seq<BossVote> {
    votes.filter(|v: BossVote| v.boss_id == boss)
}

/// The most votes that one of the bosses of the first `k` votes got.
pub open spec fn most_among(votes: Seq<BossVote>, k: int) -> int
    decreases k,
{
    if k <= 0 {
        0
    } else {
        let n = ballots(votes, votes[k - 1].boss_id).len() as int;
        let m = most_among(votes, k - 1);
        if n > m {
            n
        } else {
            m
        }
    }
}

/// The most votes that any boss got.
pub open spec fn most_votes(votes: Seq<BossVote>) -> int {
    most_among(votes, votes.len() as int)
}

/// Whether `boss` is at the top of the count.
pub open spec fn leads(votes: Seq<BossVote>, boss: i64) -> bool {
    ballots(votes, boss).len() > 0 && ballots(votes, boss).len() == most_votes(votes)
}

/// The rank that the last vote for `boss` gives them.
pub open spec fn rank_in(votes: Seq<BossVote>, boss: i64) -> Option<Rank> {
    ballots(votes, boss).last().boss_rank
}

/// Whether one rank settles a tie against another: a known rank beats a lower one
/// and an unknown one.
pub open spec fn outranks(a: Option<Rank>, b: Option<Rank>) -> bool {
    match (a, b) {
        (Some(x), Some(y)) => x.rung() > y.rung(),
        (Some(_), None) => true,
        (None, _) => false,
    }
}

/// Whether `boss` leads, and outranks everyone else who does.
pub open spec fn wins(votes: Seq<BossVote>, boss: i64) -> bool {
    &&& leads(votes, boss)
    &&& forall|other: i64|
        other != boss && #[trigger] leads(votes, other) ==> outranks(
            rank_in(votes, boss),
            rank_in(votes, other),
        )
}

/// Why there is no guess where leaders are tied.
pub open spec fn tie_reason(n: int) -> Seq<char> {
    "tie at "@ + text::decimal(n) + " vote(s) — no plurality or seniority edge"@
}

/// Why there is no guess where the winner has too few votes.
pub open spec fn few_reason(n: int) -> Seq<char> {
    "only "@ + text::decimal(n) + " vote(s); need at least 2"@
}

/// Why there is no guess where the winner has less than half of the votes.
pub open spec fn below_half_reason(n: int, total: int) -> Seq<char> {
    text::decimal(n) + "/"@ + text::decimal(total) + " is below 50%"@
}

/// The voting rule. The boss with the most votes wins if they have at least two and
/// at least half of those cast; a tie at the top goes to the one who outranks the
/// others, if there is one. Votes for the candidate do not count.
pub open spec fn verdict(candidate: i64, votes: Seq<BossVote>) -> Verdict {
    let counted = cast(candidate, votes);
    let total = counted.len() as int;
    let best = most_votes(counted);
    if total == 0 {
        Verdict::NoGuess { reason: "no teammates have a reporting line"@ }
    } else if !exists|boss: i64| wins(counted, boss) {
        Verdict::NoGuess { reason: tie_reason(best) }
    } else if best < 2 {
        Verdict::NoGuess { reason: few_reason(best) }
    } else if best * 2 < total {
        Verdict::NoGuess { reason: below_half_reason(best, total) }
    } else {
        Verdict::Inferred {
            boss_id: choose|boss: i64| wins(counted, boss),
            votes: best as usize,
            total: total as usize,
            confidence: Confidence::Share { votes: best as usize, total: total as usize },
        }
    }
}

proof fn most_among_bounds(votes: Seq<BossVote>, k: int)
    requires
        0 <= k <= votes.len(),
    ensures
        0 <= most_among(votes, k) <= votes.len(),
        forall|i: int|
            0 <= i < k ==> ballots(votes, (#[trigger] votes[i]).boss_id).len() <= most_among(
                votes,
                k,
            ),
        k > 0 ==> exists|i: int|
            0 <= i < k && ballots(votes, (#[trigger] votes[i]).boss_id).len() == most_among(
                votes,
                k,
            ),
    decreases k,
{
    if k > 0 {
        most_among_bounds(votes, k - 1);
        let b = votes[k - 1].boss_id;
        votes.lemma_filter_len(|v: BossVote| v.boss_id == b);
        ballot_found(votes, k - 1);
        if ballots(votes, b).len() <= most_among(votes, k - 1) && k > 1 {
            let i = choose|i: int|
                0 <= i < k - 1 && ballots(votes, (#[trigger] votes[i]).boss_id).len() == most_among(
                    votes,
                    k - 1,
                );
            assert(ballots(votes, votes[i].boss_id).len() == most_among(votes, k));
        }
    }
}

/// The vote at position `i` is among those for its boss.
proof fn ballot_found(votes: Seq<BossVote>, i: int)
    requires
        0 <= i < votes.len(),
    ensures
        ballots(votes, votes[i].boss_id).contains(votes[i]),
        ballots(votes, votes[i].boss_id).len() > 0,
{
    let b = votes[i].boss_id;
    votes.lemma_filter_contains(|v: BossVote| v.boss_id == b, i);
}

/// A boss with a vote is the boss of one of the votes.
pub(crate) proof fn ballot_at(votes: Seq<BossVote>, boss: i64) -> (i: int)
    requires
        ballots(votes, boss).len() > 0,
    ensures
        0 <= i < votes.len(),
        votes[i].boss_id == boss,
{
    let pass = |v: BossVote| v.boss_id == boss;
    let v = ballots(votes, boss)[0];
    votes.lemma_filter_pred(pass, 0);
    tables::filter_holds(votes, pass);
    assert(votes.filter(pass).contains(v));
    choose|i: int| 0 <= i < votes.len() && votes[i] == v
}

/// Somebody leads wherever a vote was cast, and nobody has more votes.
pub(crate) proof fn someone_leads(votes: Seq<BossVote>)
    requires
        votes.len() > 0,
    ensures
        0 < most_votes(votes) <= votes.len(),
        exists|i: int| 0 <= i < votes.len() && leads(votes, (#[trigger] votes[i]).boss_id),
        forall|b: i64| #[trigger] ballots(votes, b).len() <= most_votes(votes),
{
    let n = votes.len() as int;
    most_among_bounds(votes, n);
    let i = choose|i: int|
        0 <= i < n && ballots(votes, (#[trigger] votes[i]).boss_id).len() == most_among(votes, n);
    ballot_found(votes, i);
    assert(leads(votes, votes[i].boss_id));
    assert forall|b: i64| #[trigger] ballots(votes, b).len() <= most_votes(votes) by {
        if ballots(votes, b).len() > 0 {
            let j = ballot_at(votes, b);
            assert(ballots(votes, votes[j].boss_id).len() <= most_votes(votes));
        }
    }
}

/// There is one winner at most.
pub(crate) proof fn one_winner(votes: Seq<BossVote>, a: i64, b: i64)
    requires
        wins(votes, a),
        wins(votes, b),
    ensures
        a == b,
{
    if a != b {
        assert(leads(votes, a) && leads(votes, b));
        assert(outranks(rank_in(votes, a), rank_in(votes, b)));
        assert(outranks(rank_in(votes, b), rank_in(votes, a)));
    }
}

/// Whether one rank settles a tie against another.
fn settles(a: Option<Rank>, b: Option<Rank>) -> (r: bool)
    ensures
        r == outranks(a, b),
{
    match (a, b) {
        (Some(x), Some(y)) => x.level() > y.level(),
        (Some(_), None) => true,
        (None, _) => false,
    }
}

/// How many votes `boss` got, and the rank that the last of them gives.
fn count(votes: &Vec<BossVote>, boss: i64) -> (r: (usize, Option<Rank>))
    ensures
        r.0 == ballots(votes@, boss).len(),
        r.0 > 0 ==> r.1 == rank_in(votes@, boss),
{
    let ghost pass = |v: BossVote| v.boss_id == boss;
    let mut n: usize = 0;
    let mut rank: Option<Rank> = None;
    let mut k: usize = 0;
    assert(votes@.take(0).filter(pass).len() == 0) by {
        reveal(Seq::filter);
    }
    while k < votes.len()
        invariant
            pass == (|v: BossVote| v.boss_id == boss),
            k <= votes@.len(),
            n <= k,
            n == votes@.take(k as int).filter(pass).len(),
            n > 0 ==> rank == votes@.take(k as int).filter(pass).last().boss_rank,
        decreases votes@.len() - k,
    {
        proof {
            reveal(Seq::filter);
            assert(votes@.take(k + 1).drop_last() =~= votes@.take(k as int));
            assert(votes@.take(k + 1).last() == votes@[k as int]);
        }
        let v = votes[k];
        if v.boss_id == boss {
            n = n + 1;
            rank = v.boss_rank;
        }
        k = k + 1;
    }
    assert(votes@.take(k as int) =~= votes@);
    (n, rank)
}

/// The votes for anyone but the candidate.
fn counted_votes(candidate: i64, votes: &[BossVote]) -> (r: Vec<BossVote>)
    ensures
        r@ == cast(candidate, votes@),
{
    let ghost pass = |v: BossVote| v.boss_id != candidate;
    let mut out: Vec<BossVote> = Vec::new();
    let mut k: usize = 0;
    assert(votes@.take(0).filter(pass) =~= Seq::<BossVote>::empty()) by {
        reveal(Seq::filter);
    }
    while k < votes.len()
        invariant
            pass == (|v: BossVote| v.boss_id != candidate),
            k <= votes@.len(),
            out@ == votes@.take(k as int).filter(pass),
        decreases votes@.len() - k,
    {
        proof {
            reveal(Seq::filter);
            assert(votes@.take(k + 1).drop_last() =~= votes@.take(k as int));
            assert(votes@.take(k + 1).last() == votes@[k as int]);
        }
        let v = votes[k];
        if v.boss_id != candidate {
            out.push(v);
        }
        k = k + 1;
    }
    assert(votes@.take(k as int) =~= votes@);
    out
}

/// The voting rule, on nothing but the votes.
///
/// `candidate` is the person a boss is inferred for, who never wins. `votes` holds
/// the boss of each teammate who has a reporting line.
pub fn tally_boss_vote(candidate: i64, votes: &[BossVote]) -> (r: Inference)
    ensures
        r@ == verdict(candidate, votes@),
{
    let counted = counted_votes(candidate, votes);
    let total: usize = counted.len();
    if total == 0 {
        return Inference::NoGuess { reason: "no teammates have a reporting line".to_owned() };
    }
    // The count and rank of the boss of each vote, and the highest count.
    let mut counts: Vec<usize> = Vec::new();
    let mut ranks: Vec<Option<Rank>> = Vec::new();
    let mut best: usize = 0;
    let mut k: usize = 0;
    while k < counted.len()
        invariant
            k <= counted@.len(),
            counts@.len() == k,
            ranks@.len() == k,
            best == most_among(counted@, k as int),
            forall|i: int|
                0 <= i < k ==> (#[trigger] counts@[i]) == ballots(
                    counted@,
                    counted@[i].boss_id,
                ).len(),
            forall|i: int|
                0 <= i < k ==> (#[trigger] ranks@[i]) == rank_in(counted@, counted@[i].boss_id),
        decreases counted@.len() - k,
    {
        let (n, rank) = count(&counted, counted[k].boss_id);
        proof {
            ballot_found(counted@, k as int);
        }
        counts.push(n);
        ranks.push(rank);
        if n > best {
            best = n;
        }
        k = k + 1;
    }
    proof {
        someone_leads(counted@);
    }
    // The leader whom no other leader ties in rank.
    let mut winner: Option<i64> = None;
    let mut i: usize = 0;
    while i < counted.len()
        invariant
            total == counted@.len(),
            counts@.len() == total,
            ranks@.len() == total,
            best == most_votes(counted@),
            best > 0,
            i <= total,
            forall|m: int|
                0 <= m < total ==> (#[trigger] counts@[m]) == ballots(
                    counted@,
                    counted@[m].boss_id,
                ).len(),
            forall|m: int|
                0 <= m < total ==> (#[trigger] ranks@[m]) == rank_in(
                    counted@,
                    counted@[m].boss_id,
                ),
            winner matches Some(w) ==> wins(counted@, w),
            winner is None ==> forall|m: int|
                0 <= m < i ==> !wins(counted@, (#[trigger] counted@[m]).boss_id),
        decreases total - i,
    {
        if winner.is_none() && counts[i] == best {
            let boss = counted[i].boss_id;
            let mut beaten: bool = false;
            let mut j: usize = 0;
            while j < counted.len()
                invariant
                    total == counted@.len(),
                    counts@.len() == total,
                    ranks@.len() == total,
                    best == most_votes(counted@),
                    i < total,
                    j <= total,
                    boss == counted@[i as int].boss_id,
                    forall|m: int|
                        0 <= m < total ==> (#[trigger] counts@[m]) == ballots(
                            counted@,
                            counted@[m].boss_id,
                        ).len(),
                    forall|m: int|
                        0 <= m < total ==> (#[trigger] ranks@[m]) == rank_in(
                            counted@,
                            counted@[m].boss_id,
                        ),
                    beaten ==> exists|m: int|
                        0 <= m < total && (#[trigger] counted@[m]).boss_id != boss && counts@[m]
                            == best && !outranks(
                            rank_in(counted@, boss),
                            rank_in(counted@, counted@[m].boss_id),
                        ),
                    !beaten ==> forall|m: int|
                        0 <= m < j && (#[trigger] counted@[m]).boss_id != boss && counts@[m] == best
                            ==> outranks(
                            rank_in(counted@, boss),
                            rank_in(counted@, counted@[m].boss_id),
                        ),
                decreases total - j,
            {
                if !beaten && counted[j].boss_id != boss && counts[j] == best && !settles(
                    ranks[i],
                    ranks[j],
                ) {
                    assert(counted@[j as int].boss_id != boss);
                    beaten = true;
                }
                j = j + 1;
            }
            proof {
                assert(counts@[i as int] == ballots(counted@, boss).len());
                if beaten {
                    let m = choose|m: int|
                        0 <= m < total && (#[trigger] counted@[m]).boss_id != boss && counts@[m]
                            == best && !outranks(
                            rank_in(counted@, boss),
                            rank_in(counted@, counted@[m].boss_id),
                        );
                    assert(leads(counted@, counted@[m].boss_id));
                    assert(!wins(counted@, boss));
                } else {
                    assert forall|other: i64|
                        other != boss && #[trigger] leads(counted@, other) implies outranks(
                        rank_in(counted@, boss),
                        rank_in(counted@, other),
                    ) by {
                        let m = ballot_at(counted@, other);
                        assert(counted@[m].boss_id == other);
                        assert(counts@[m] == best);
                    }
                    assert(wins(counted@, boss));
                }
            }
            if !beaten {
                winner = Some(boss);
            }
        } else {
            proof {
                if winner is None {
                    assert(counts@[i as int] == ballots(counted@, counted@[i as int].boss_id).len());
                    assert(!leads(counted@, counted@[i as int].boss_id));
                }
            }
        }
        i = i + 1;
    }
    let best_boss: i64 = match winner {
        Some(b) => b,
        None => {
            proof {
                assert forall|b: i64| !wins(counted@, b) by {
                    if wins(counted@, b) {
                        let m = ballot_at(counted@, b);
                        assert(counted@[m].boss_id == b);
                    }
                }
            }
            let mut reason: String = String::new();
            reason.append("tie at ");
            push_nat(&mut reason, best as u64);
            reason.append(" vote(s) — no plurality or seniority edge");
            assert(reason@ =~= tie_reason(best as int));
            return Inference::NoGuess { reason };
        },
    };
    proof {
        let w = choose|b: i64| wins(counted@, b);
        one_winner(counted@, w, best_boss);
    }
    if best < 2 {
        let mut reason: String = String::new();
        reason.append("only ");
        push_nat(&mut reason, best as u64);
        reason.append(" vote(s); need at least 2");
        assert(reason@ =~= few_reason(best as int));
        return Inference::NoGuess { reason };
    }
    // Less than half of the votes, said so that nothing can overflow.
    if best < total - best {
        let mut reason: String = String::new();
        push_nat(&mut reason, best as u64);
        reason.append("/");
        push_nat(&mut reason, total as u64);
        reason.append(" is below 50%");
        assert(reason@ =~= below_half_reason(best as int, total as int));
        return Inference::NoGuess { reason };
    }
    Inference::Inferred {
        boss_id: best_boss,
        votes: best,
        total,
        confidence: Confidence::Share { votes: best, total },
    }
}

/// The inference never guesses the candidate, and never on fewer than two votes or
/// less than half of those that count.
pub proof fn guess_is_backed(candidate: i64, votes: Seq<BossVote>)
    requires
        votes.len() <= usize::MAX,
    ensures
        verdict(candidate, votes) matches Verdict::Inferred {
            boss_id,
            votes: n,
            total,
            confidence,
        } ==> {
            &&& boss_id != candidate
            &&& n >= 2
            &&& n * 2 >= total
            &&& n <= total
            &&& n == ballots(cast(candidate, votes), boss_id).len()
            &&& total == cast(candidate, votes).len()
            &&& forall|other: i64| #[trigger]
                ballots(cast(candidate, votes), other).len() <= n
            &&& confidence == (Confidence::Share { votes: n, total })
            &&& confidence.in_range()
        },
{
    let counted = cast(candidate, votes);
    votes.lemma_filter_len(|v: BossVote| v.boss_id != candidate);
    if let Verdict::Inferred { boss_id, votes: n, total, confidence } = verdict(candidate, votes) {
        someone_leads(counted);
        assert(wins(counted, boss_id));
        let i = ballot_at(counted, boss_id);
        tables::filter_holds(votes, |v: BossVote| v.boss_id != candidate);
        assert(counted.contains(counted[i]));
    }
}

/// Seniority never overrides votes: a boss with more than half of the votes that
/// count, and at least two, is the guess whatever the ranks are.
pub proof fn majority_wins(candidate: i64, votes: Seq<BossVote>, boss: i64)
    requires
        votes.len() <= usize::MAX,
        ballots(cast(candidate, votes), boss).len() >= 2,
        ballots(cast(candidate, votes), boss).len() * 2 > cast(candidate, votes).len(),
    ensures
        verdict(candidate, votes) matches Verdict::Inferred { boss_id, .. } && boss_id == boss,
{
    let counted = cast(candidate, votes);
    votes.lemma_filter_len(|v: BossVote| v.boss_id != candidate);
    counted.lemma_filter_len(|v: BossVote| v.boss_id == boss);
    someone_leads(counted);
    assert forall|other: i64| other != boss implies #[trigger] ballots(counted, other).len()
        < ballots(counted, boss).len() by {
        two_shares(counted, boss, other);
    }
    let i = choose|i: int| 0 <= i < counted.len() && leads(counted, (#[trigger] counted[i]).boss_id);
    assert(leads(counted, boss));
    assert(wins(counted, boss));
    let w = choose|b: i64| wins(counted, b);
    one_winner(counted, w, boss);
}

/// Two bosses together have no more votes than were cast.
pub(crate) proof fn two_shares(votes: Seq<BossVote>, a: i64, b: i64)
    requires
        a != b,
    ensures
        ballots(votes, a).len() + ballots(votes, b).len() <= votes.len(),
    decreases votes.len(),
{
    reveal(Seq::filter);
    if votes.len() > 0 {
        two_shares(votes.drop_last(), a, b);
    }
}

/// A tie that seniority does not settle is no guess: where two bosses of the same
/// rank, or both of unknown rank, lead and nobody else who leads outranks them,
/// nobody is inferred.
pub proof fn unsettled_tie_is_no_guess(candidate: i64, votes: Seq<BossVote>, a: i64, b: i64)
    requires
        a != b,
        leads(cast(candidate, votes), a),
        leads(cast(candidate, votes), b),
        rank_in(cast(candidate, votes), a) == rank_in(cast(candidate, votes), b),
        forall|c: i64| #[trigger]
            leads(cast(candidate, votes), c) ==> !outranks(
                rank_in(cast(candidate, votes), c),
                rank_in(cast(candidate, votes), a),
            ),
    ensures
        verdict(candidate, votes) is NoGuess,
{
    let counted = cast(candidate, votes);
    assert forall|w: i64| !wins(counted, w) by {
        if wins(counted, w) {
            assert(leads(counted, w));
            if w == a {
                assert(outranks(rank_in(counted, a), rank_in(counted, b)));
            } else if w == b {
                assert(outranks(rank_in(counted, b), rank_in(counted, a)));
            } else {
                assert(outranks(rank_in(counted, w), rank_in(counted, a)));
            }
        }
    }
}

/// Whether an edge is the reporting line of a teammate of `person`.
pub open spec fn is_teammate_line(
    t: db::Tables,
    person: i64,
    team: Seq<char>,
    e: model::EdgeRow,
) -> bool {
    &&& edges::is_line(e)
    &&& e.from_id != person
    &&& tables::row(t.people, e.from_id)->0.team == Some(team)
}

/// The vote that a reporting line casts.
pub open spec fn vote_of(t: db::Tables, e: model::EdgeRow) -> BossVote {
    BossVote {
        boss_id: e.to_id,
        boss_rank: seniority::opt_title_rank(tables::row(t.people, e.to_id)->0.title),
    }
}

/// The votes of everyone on `team` but `person` who has a reporting line.
pub open spec fn team_votes(t: db::Tables, person: i64, team: Seq<char>) -> Seq<BossVote> {
    t.edges.filter(|e: model::EdgeRow| is_teammate_line(t, person, team, e)).map_values(
        |e: model::EdgeRow| vote_of(t, e),
    )
}

/// The reporting line that the inference writes.
pub open spec fn inferred_line(
    id: i64,
    person: i64,
    boss: i64,
    confidence: Confidence,
    ts: Seq<char>,
) -> model::EdgeRow {
    model::EdgeRow {
        id,
        from_id: person,
        to_id: boss,
        kind: kind::REPORTS_TO@,
        notes: None,
        confidence,
        source: source::INFERRED@,
        created_at: ts,
    }
}

/// What inferring a boss leaves behind, and the answer to it.
pub open spec fn boss_inferred(t: db::Tables, person: i64, ts: Seq<char>) -> (
    db::Tables,
    Result<Verdict, model::ErrorView>,
) {
    if edges::lines_of(t.edges, person).len() > 0 {
        (t, Ok(Verdict::NoGuess { reason: "person already has a reporting line"@ }))
    } else {
        match tables::row(t.people, person) {
            None => (t, Err(model::ErrorView::PersonNotFound(person))),
            Some(p) => match p.team {
                None => (t, Ok(Verdict::NoGuess { reason: "person has no team"@ })),
                Some(team) => {
                    let v = verdict(person, team_votes(t, person, team));
                    match v {
                        Verdict::NoGuess { reason } => (t, Ok(v)),
                        Verdict::Inferred { boss_id, votes, total, confidence } => match tables::next_id(
                            t.edges,
                        ) {
                            None => (t, Err(people::out_of_ids())),
                            Some(id) => (
                                t.with_edge(inferred_line(id, person, boss_id, confidence, ts)),
                                Ok(v),
                            ),
                        },
                    }
                },
            },
        }
    }
}

/// The answer of the inference, by its view.
pub open spec fn verdict_answer(r: Result<Inference, OrgError>) -> Result<
    Verdict,
    model::ErrorView,
> {
    match r {
        Ok(x) => Ok(x@),
        Err(e) => Err(e@),
    }
}

/// Whether `person` has a reporting line.
pub(crate) fn has_boss(db: &Db, person: i64) -> (r: bool)
    ensures
        r == (edges::lines_of(db@.edges, person).len() > 0),
{
    let edges = db.relationships();
    let ghost s = db@.edges;
    let ghost mine = |e: model::EdgeRow| edges::is_line_of(e, person);
    let mut k: usize = 0;
    while k < edges.len()
        invariant
            s == db@.edges,
            s == tables::rows(edges@),
            mine == (|e: model::EdgeRow| edges::is_line_of(e, person)),
            k <= edges@.len(),
            forall|i: int| 0 <= i < k ==> !edges::is_line_of(#[trigger] s[i], person),
        decreases edges@.len() - k,
    {
        let e = &edges[k];
        assert(s[k as int] == e@);
        if e.from_id == person && same_text(e.kind.as_str(), kind::REPORTS_TO) {
            proof {
                tables::filter_keeps(s, mine);
                assert(s.contains(s[k as int]));
                assert(s.filter(mine).contains(s[k as int]));
            }
            return true;
        }
        k = k + 1;
    }
    proof {
        s.lemma_all_neg_filter_empty(mine);
    }
    false
}

/// The votes of everyone on `team` but `person` who has a reporting line.
fn teammate_boss_votes(db: &Db, person: i64, team: &str) -> (r: Vec<BossVote>)
    ensures
        r@ == team_votes(db@, person, team@),
{
    let people = db.people();
    let edges = db.relationships();
    let ghost t = db@;
    let ghost s = t.edges;
    let ghost pass = |e: model::EdgeRow| is_teammate_line(t, person, team@, e);
    let ghost vote = |e: model::EdgeRow| vote_of(t, e);
    let mut out: Vec<BossVote> = Vec::new();
    let mut k: usize = 0;
    assert(s.take(0).filter(pass).map_values(vote) =~= Seq::<BossVote>::empty()) by {
        reveal(Seq::filter);
    }
    while k < edges.len()
        invariant
            t.wf(),
            t == db@,
            s == t.edges,
            s == tables::rows(edges@),
            t.people == tables::rows(people@),
            pass == (|e: model::EdgeRow| is_teammate_line(t, person, team@, e)),
            vote == (|e: model::EdgeRow| vote_of(t, e)),
            k <= edges@.len(),
            out@ == s.take(k as int).filter(pass).map_values(vote),
        decreases edges@.len() - k,
    {
        let e = &edges[k];
        assert(s[k as int] == e@);
        proof {
            reveal(Seq::filter);
            assert(s.take(k + 1).drop_last() =~= s.take(k as int));
            assert(s.take(k + 1).last() == e@);
        }
        let ghost before = out@;
        let mut wanted: bool = false;
        if e.from_id != person && same_text(e.kind.as_str(), kind::REPORTS_TO) {
            match find(people, e.from_id) {
                Some(i) => match &people[i].team {
                    Some(own) => {
                        wanted = same_text(own.as_str(), team);
                    },
                    None => {},
                },
                None => {},
            }
        }
        if wanted {
            let rank = match find(people, e.to_id) {
                Some(j) => rank_of(title_of(&people[j].title)),
                None => None,
            };
            out.push(BossVote { boss_id: e.to_id, boss_rank: rank });
            assert(s.take(k + 1).filter(pass).map_values(vote) =~= before.push(vote(e@)));
        }
        k = k + 1;
    }
    assert(s.take(k as int) =~= s);
    out
}

/// Infers and keeps a boss for `person` from their team at the time `ts`, if the
/// rule fires. Acts only where the person has no reporting line: an existing one is
/// never overwritten. The line it writes is marked as inferred, and its confidence
/// is the share of the votes.
pub fn infer_boss_at(db: &mut Db, person: i64, ts: &str) -> (r: Result<Inference, OrgError>)
    ensures
        (final(db)@, verdict_answer(r)) == boss_inferred(old(db)@, person, ts@),
{
    let ghost t = db@;
    if has_boss(db, person) {
        return Ok(
            Inference::NoGuess { reason: "person already has a reporting line".to_owned() },
        );
    }
    let people = db.people();
    let team: String = match find(people, person) {
        None => {
            return Err(OrgError::PersonNotFound(person));
        },
        Some(k) => match &people[k].team {
            None => {
                return Ok(Inference::NoGuess { reason: "person has no team".to_owned() });
            },
            Some(team) => team.clone(),
        },
    };
    let votes = teammate_boss_votes(db, person, team.as_str());
    let guess = tally_boss_vote(person, votes.as_slice());
    if let Inference::Inferred { boss_id, votes: n, total, confidence } = guess {
        let mut edge = RelateInput::manual(person, boss_id, kind::REPORTS_TO);
        edge.source = source::INFERRED.to_owned();
        edge.confidence = confidence;
        proof {
            assert(votes@.len() == votes.len());
            guess_is_backed(person, votes@);
            guess_is_a_person(t, person, team@);
            assert(edges::pairing(t.edges, person, boss_id, kind::REPORTS_TO@) is None) by {
                if edges::pairing(t.edges, person, boss_id, kind::REPORTS_TO@) is Some {
                    let i = choose|i: int|
                        0 <= i < t.edges.len() && edges::is_pairing(
                            #[trigger] t.edges[i],
                            person,
                            boss_id,
                            kind::REPORTS_TO@,
                        );
                    let mine = |e: model::EdgeRow| edges::is_line_of(e, person);
                    tables::filter_keeps(t.edges, mine);
                    assert(t.edges.contains(t.edges[i]));
                    assert(t.edges.filter(mine).contains(t.edges[i]));
                }
            }
        }
        relate_at(db, edge, ts)?;
    }
    Ok(guess)
}

/// Whoever is guessed is a person of the directory.
proof fn guess_is_a_person(t: db::Tables, person: i64, team: Seq<char>)
    requires
        t.wf(),
        team_votes(t, person, team).len() <= usize::MAX,
    ensures
        verdict(person, team_votes(t, person, team)) matches Verdict::Inferred { boss_id, .. }
            ==> tables::has_id(t.people, boss_id),
{
    let pass = |e: model::EdgeRow| is_teammate_line(t, person, team, e);
    let votes = team_votes(t, person, team);
    let counted = cast(person, votes);
    if let Verdict::Inferred { boss_id, votes: n, total, confidence } = verdict(person, votes) {
        assert(wins(counted, boss_id));
        let i = ballot_at(counted, boss_id);
        tables::filter_holds(votes, |v: BossVote| v.boss_id != person);
        assert(counted.contains(counted[i]));
        let k = choose|k: int| 0 <= k < votes.len() && votes[k] == counted[i];
        let e = t.edges.filter(pass)[k];
        tables::filter_keeps(t.edges, pass);
        assert(t.edges.filter(pass).contains(e));
        db::wf_by_rows(t);
        assert(t.edges.contains(e));
    }
}

/// Infers and keeps a boss for `person` now; see [`infer_boss_at`].
pub fn infer_boss(db: &mut Db, person: i64) -> (r: Result<Inference, OrgError>)
    ensures
        exists|ts: Seq<char>|
            clock::is_utc_time(ts) && (final(db)@, verdict_answer(r)) == #[trigger] boss_inferred(
                old(db)@,
                person,
                ts,
            ),
{
    let ts = now();
    infer_boss_at(db, person, ts.as_str())
}

/// Inference only ever adds: people and all edges that were there stay, an existing
/// reporting line keeps anything from being written, and what is written is one line
/// of `person`, marked as inferred, with a confidence in range.
pub proof fn inference_only_adds(t: db::Tables, person: i64, ts: Seq<char>)
    requires
        t.wf(),
        t.edges.len() <= usize::MAX,
    ensures
        ({
            let (u, answer) = boss_inferred(t, person, ts);
            &&& u.wf()
            &&& u.people == t.people
            &&& forall|e: model::EdgeRow| #[trigger] t.edges.contains(e) ==> u.edges.contains(e)
            &&& edges::lines_of(t.edges, person).len() > 0 ==> u == t
            &&& !(answer matches Ok(Verdict::Inferred { .. })) ==> u == t
            &&& answer matches Ok(Verdict::Inferred { boss_id, confidence, .. }) ==> {
                &&& boss_id != person
                &&& tables::has_id(t.people, boss_id)
                &&& confidence.in_range()
                &&& edges::lines_of(u.edges, person) == seq![
                    inferred_line(tables::next_id(t.edges)->0, person, boss_id, confidence, ts),
                ]
            }
        }),
{
    let (u, answer) = boss_inferred(t, person, ts);
    if let Ok(Verdict::Inferred { boss_id, votes, total, confidence }) = answer {
        if edges::lines_of(t.edges, person).len() == 0 {
            let team = tables::row(t.people, person)->0.team->0;
            let pass = |e: model::EdgeRow| is_teammate_line(t, person, team, e);
            t.edges.lemma_filter_len(pass);
            guess_is_backed(person, team_votes(t, person, team));
            guess_is_a_person(t, person, team);
            let id = tables::next_id(t.edges)->0;
            let line = inferred_line(id, person, boss_id, confidence, ts);
            let mine = |e: model::EdgeRow| edges::is_line_of(e, person);
            tables::next_id_is_unused(t.edges, id);
            tables::filter_keeps(t.edges, mine);
            assert forall|x: model::EdgeRow| #[trigger] t.edges.contains(x) implies x.id != id
                && !mine(x) by {
                let k = choose|k: int| 0 <= k < t.edges.len() && t.edges[k] == x;
                assert(tables::Keyed::key(t.edges[k]) == x.id);
                if mine(x) {
                    assert(t.edges.filter(mine).contains(x));
                }
            }
            db::with_edge_wf(t, line);
            tables::put_keeps(t.edges, line);
            tables::filter_keeps(u.edges, mine);
            let one = seq![line];
            assert(one[0] == line);
            assert forall|x: model::EdgeRow| u.edges.filter(mine).contains(x) <==> one.contains(
                x,
            ) by {
                if one.contains(x) {
                    assert(u.edges.contains(line));
                }
            }
            tables::same_rows_same_table(u.edges.filter(mine), one);
        }
    }
}

} // verus!
