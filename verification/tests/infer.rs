//! Boss inference: the voting rule, and what it writes.

use org_core::db::Db;
use org_core::edges::{set_boss, RelateInput};
use org_core::infer::{infer_boss, infer_boss_at, tally_boss_vote, BossVote, Inference};
use org_core::model::{Confidence, OrgError};
use org_core::people::{add_person, PersonInput};
use org_core::seniority::Rank;

fn v(boss_id: i64) -> BossVote {
    BossVote {
        boss_id,
        boss_rank: None,
    }
}

fn vr(boss_id: i64, rank: Rank) -> BossVote {
    BossVote {
        boss_id,
        boss_rank: Some(rank),
    }
}

fn number(c: Confidence) -> f64 {
    match c {
        Confidence::Share { votes, total } => votes as f64 / total as f64,
        Confidence::Double { bits } => f64::from_bits(bits),
    }
}

fn reason(inf: Inference) -> String {
    match inf {
        Inference::NoGuess { reason } => reason,
        other => panic!("expected no guess, got {other:?}"),
    }
}

#[test]
fn rule_needs_two_votes() {
    assert!(matches!(
        tally_boss_vote(1, &[v(9)]),
        Inference::NoGuess { .. }
    ));
}

#[test]
fn rule_clear_majority_wins() {
    match tally_boss_vote(1, &[v(9), v(9), v(9)]) {
        Inference::Inferred {
            boss_id,
            votes,
            total,
            confidence,
        } => {
            assert_eq!((boss_id, votes, total), (9, 3, 3));
            assert!((number(confidence) - 1.0).abs() < 1e-9);
        }
        other => panic!("expected inference, got {other:?}"),
    }
}

#[test]
fn rule_plurality_threshold() {
    assert!(matches!(
        tally_boss_vote(1, &[v(9), v(9), v(8), v(8)]),
        Inference::NoGuess { .. }
    ));
    match tally_boss_vote(1, &[v(9), v(9), v(9), v(8), v(7)]) {
        Inference::Inferred { boss_id, .. } => assert_eq!(boss_id, 9),
        other => panic!("expected inference, got {other:?}"),
    }
    match tally_boss_vote(1, &[v(9), v(9), v(8), v(7)]) {
        Inference::Inferred {
            boss_id,
            votes,
            total,
            ..
        } => {
            assert_eq!((boss_id, votes, total), (9, 2, 4));
        }
        other => panic!("expected inference, got {other:?}"),
    }
}

#[test]
fn rule_never_self() {
    assert!(matches!(
        tally_boss_vote(5, &[v(5), v(5), v(5)]),
        Inference::NoGuess { .. }
    ));
    match tally_boss_vote(5, &[v(9), v(9), v(5)]) {
        Inference::Inferred {
            boss_id,
            votes,
            total,
            ..
        } => {
            assert_eq!((boss_id, votes, total), (9, 2, 2));
        }
        other => panic!("expected inference, got {other:?}"),
    }
}

#[test]
fn rule_tie_breaks_on_seniority() {
    match tally_boss_vote(
        1,
        &[
            vr(9, Rank::Director),
            vr(9, Rank::Director),
            vr(8, Rank::Manager),
            vr(8, Rank::Manager),
        ],
    ) {
        Inference::Inferred {
            boss_id,
            votes,
            total,
            confidence,
        } => {
            assert_eq!((boss_id, votes, total), (9, 2, 4));
            assert!((number(confidence) - 0.5).abs() < 1e-9);
        }
        other => panic!("expected inference, got {other:?}"),
    }
    match tally_boss_vote(
        1,
        &[vr(9, Rank::Manager), vr(9, Rank::Manager), v(8), v(8)],
    ) {
        Inference::Inferred { boss_id, .. } => assert_eq!(boss_id, 9),
        other => panic!("expected inference, got {other:?}"),
    }
}

#[test]
fn rule_tie_with_equal_or_unknown_rank_stays_no_guess() {
    assert!(matches!(
        tally_boss_vote(
            1,
            &[
                vr(9, Rank::Manager),
                vr(9, Rank::Manager),
                vr(8, Rank::Manager),
                vr(8, Rank::Manager)
            ]
        ),
        Inference::NoGuess { .. }
    ));
    assert!(matches!(
        tally_boss_vote(1, &[v(9), v(9), v(8), v(8)]),
        Inference::NoGuess { .. }
    ));
    match tally_boss_vote(1, &[v(8), v(8), v(8), vr(9, Rank::Director)]) {
        Inference::Inferred { boss_id, .. } => assert_eq!(boss_id, 8),
        other => panic!("expected inference, got {other:?}"),
    }
}

fn person(db: &mut Db, name: &str, team: &str) -> i64 {
    add_person(
        db,
        PersonInput {
            name: name.to_string(),
            team: Some(team.to_string()),
            ..Default::default()
        },
    )
    .unwrap()
    .id
}

#[test]
fn infers_boss_from_teammates_and_persists_inferred_edge() {
    let mut db = Db::open_memory();
    let pat = person(&mut db, "Pat", "IDS");
    let trent = person(&mut db, "Trent", "IDS");
    let jane = person(&mut db, "Jane", "IDS");
    set_boss(&mut db, trent, pat).unwrap();
    set_boss(&mut db, jane, pat).unwrap();

    let mike = person(&mut db, "Mike", "IDS");
    let verdict = infer_boss(&mut db, mike).unwrap();

    match verdict {
        Inference::Inferred {
            boss_id,
            confidence,
            ..
        } => {
            assert_eq!(boss_id, pat);
            assert!((number(confidence) - 1.0).abs() < 1e-9);
        }
        other => panic!("expected inference, got {other:?}"),
    }

    let row = db
        .relationships()
        .iter()
        .find(|e| e.from_id == mike && e.kind == "reports_to")
        .unwrap();
    assert_eq!(row.to_id, pat);
    assert_eq!(row.source, "inferred");
}

#[test]
fn does_not_override_existing_boss() {
    let mut db = Db::open_memory();
    let pat = person(&mut db, "Pat", "IDS");
    let other = person(&mut db, "Other", "IDS");
    let trent = person(&mut db, "Trent", "IDS");
    let jane = person(&mut db, "Jane", "IDS");
    set_boss(&mut db, jane, pat).unwrap();
    set_boss(&mut db, other, pat).unwrap();
    set_boss(&mut db, trent, other).unwrap();

    let verdict = infer_boss(&mut db, trent).unwrap();
    assert!(matches!(verdict, Inference::NoGuess { .. }));
}

#[test]
fn every_refusal_gives_its_reason() {
    assert_eq!(
        reason(tally_boss_vote(1, &[])),
        "no teammates have a reporting line"
    );
    assert_eq!(
        reason(tally_boss_vote(1, &[v(9)])),
        "only 1 vote(s); need at least 2"
    );
    assert_eq!(
        reason(tally_boss_vote(1, &[v(9), v(9), v(8), v(8)])),
        "tie at 2 vote(s) — no plurality or seniority edge"
    );
    assert_eq!(
        reason(tally_boss_vote(1, &[v(9), v(9), v(8), v(7), v(6)])),
        "2/5 is below 50%"
    );
}

#[test]
fn a_single_vote_each_ties_before_it_counts_votes() {
    assert_eq!(
        reason(tally_boss_vote(1, &[v(9), v(8)])),
        "tie at 1 vote(s) — no plurality or seniority edge"
    );
    assert_eq!(
        reason(tally_boss_vote(1, &[vr(9, Rank::Manager), v(8)])),
        "only 1 vote(s); need at least 2"
    );
}

#[test]
fn three_way_tie_goes_to_the_one_on_top() {
    let votes = [
        vr(7, Rank::Manager),
        vr(8, Rank::Director),
        vr(9, Rank::Manager),
        vr(7, Rank::Manager),
        vr(8, Rank::Director),
        vr(9, Rank::Manager),
    ];
    assert_eq!(reason(tally_boss_vote(1, &votes)), "2/6 is below 50%");
    assert!(matches!(
        tally_boss_vote(9, &votes),
        Inference::Inferred {
            boss_id: 8,
            votes: 2,
            total: 4,
            ..
        }
    ));
}

#[test]
fn nobody_and_nobody_s_team_are_told_apart() {
    let mut db = Db::open_memory();
    assert_eq!(infer_boss(&mut db, 5), Err(OrgError::PersonNotFound(5)));
    let loner = add_person(
        &mut db,
        PersonInput {
            name: "Loner".into(),
            ..Default::default()
        },
    )
    .unwrap()
    .id;
    assert_eq!(
        reason(infer_boss(&mut db, loner).unwrap()),
        "person has no team"
    );
}

#[test]
fn an_existing_line_is_told_first() {
    let mut db = Db::open_memory();
    let a = person(&mut db, "A", "T");
    let b = person(&mut db, "B", "T");
    set_boss(&mut db, a, b).unwrap();
    assert_eq!(
        reason(infer_boss(&mut db, a).unwrap()),
        "person already has a reporting line"
    );
    assert_eq!(db.relationships().len(), 1);
}

#[test]
fn the_share_of_votes_is_kept_with_the_line() {
    let mut db = Db::open_memory();
    let pat = person(&mut db, "Pat", "T");
    let lou = person(&mut db, "Lou", "T");
    for name in ["A", "B"] {
        let p = person(&mut db, name, "T");
        set_boss(&mut db, p, pat).unwrap();
    }
    let c = person(&mut db, "C", "T");
    set_boss(&mut db, c, lou).unwrap();
    org_core::edges::relate(&mut db, RelateInput::manual(c, pat, "mentors")).unwrap();

    let new = person(&mut db, "New", "T");
    let verdict = infer_boss_at(&mut db, new, "2026-05-06").unwrap();
    let share = Confidence::Share { votes: 2, total: 3 };
    assert_eq!(
        verdict,
        Inference::Inferred {
            boss_id: pat,
            votes: 2,
            total: 3,
            confidence: share
        }
    );
    let line = db.relationships().last().unwrap();
    assert_eq!(
        (line.from_id, line.to_id, line.kind.as_str()),
        (new, pat, "reports_to")
    );
    assert_eq!(line.confidence, share);
    assert_eq!(line.source, "inferred");
    assert_eq!(line.created_at, "2026-05-06");
    assert_eq!(line.notes, None);
}
