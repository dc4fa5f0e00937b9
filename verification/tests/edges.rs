//! Edges: relating people, and the one reporting line of each.

use org_core::db::Db;
use org_core::edges::{relate, relate_at, set_boss, set_boss_at, unrelate, RelateInput};
use org_core::model::{Confidence, OrgError, Refusal, ONE_BITS};
use org_core::people::{add_person, PersonInput};

fn person(db: &mut Db, name: &str) -> i64 {
    add_person(
        db,
        PersonInput {
            name: name.to_string(),
            ..Default::default()
        },
    )
    .unwrap()
    .id
}

fn bosses_of(db: &Db, person: i64) -> Vec<i64> {
    db.relationships()
        .iter()
        .filter(|e| e.from_id == person && e.kind == "reports_to")
        .map(|e| e.to_id)
        .collect()
}

fn boss_of(db: &Db, person: i64) -> Option<i64> {
    bosses_of(db, person).first().copied()
}

fn double(x: f64) -> Confidence {
    Confidence::Double { bits: x.to_bits() }
}

#[test]
fn set_boss_replaces_not_accumulates() {
    let mut db = Db::open_memory();
    let emp = person(&mut db, "Emp");
    let boss1 = person(&mut db, "Boss1");
    let boss2 = person(&mut db, "Boss2");

    set_boss(&mut db, emp, boss1).unwrap();
    assert_eq!(boss_of(&db, emp), Some(boss1));

    set_boss(&mut db, emp, boss2).unwrap();
    assert_eq!(boss_of(&db, emp), Some(boss2));
    assert_eq!(bosses_of(&db, emp).len(), 1);
}

#[test]
fn set_boss_rejects_self() {
    let mut db = Db::open_memory();
    let p = person(&mut db, "Solo");
    assert!(matches!(
        set_boss(&mut db, p, p).unwrap_err(),
        OrgError::Invalid(_)
    ));
}

#[test]
fn set_boss_unknown_person_errors() {
    let mut db = Db::open_memory();
    let p = person(&mut db, "Real");
    assert!(matches!(
        set_boss(&mut db, p, 999).unwrap_err(),
        OrgError::PersonNotFound(999)
    ));
}

#[test]
fn relate_is_idempotent_replace() {
    let mut db = Db::open_memory();
    let a = person(&mut db, "A");
    let b = person(&mut db, "B");

    relate(&mut db, RelateInput::manual(a, b, "peer_review")).unwrap();
    let mut input = RelateInput::manual(a, b, "peer_review");
    input.notes = Some("pairing".into());
    relate(&mut db, input).unwrap();

    let found: Vec<_> = db
        .relationships()
        .iter()
        .filter(|e| e.from_id == a && e.to_id == b && e.kind == "peer_review")
        .collect();
    assert_eq!(found.len(), 1);
    assert_eq!(found[0].notes.as_deref(), Some("pairing"));
}

#[test]
fn relate_rejects_self_and_bad_confidence() {
    let mut db = Db::open_memory();
    let a = person(&mut db, "A");
    assert!(relate(&mut db, RelateInput::manual(a, a, "peer_review")).is_err());

    let b = person(&mut db, "B");
    let mut bad = RelateInput::manual(a, b, "peer_review");
    bad.confidence = double(1.5);
    assert!(relate(&mut db, bad).is_err());
}

#[test]
fn cascade_delete_removes_edges() {
    let mut db = Db::open_memory();
    let a = person(&mut db, "A");
    let b = person(&mut db, "B");
    set_boss(&mut db, a, b).unwrap();

    org_core::people::remove_person(&mut db, b).unwrap();
    assert_eq!(boss_of(&db, a), None);
}

#[test]
fn manual_edges_are_certain() {
    let e = RelateInput::manual(1, 2, "mentors");
    assert_eq!((e.from_id, e.to_id), (1, 2));
    assert_eq!(e.kind, "mentors");
    assert_eq!(e.notes, None);
    assert_eq!(e.confidence, double(1.0));
    assert_eq!(e.source, "manual");
    let copy = e.clone();
    assert_eq!(copy.kind, e.kind);
    assert_eq!(copy.confidence, e.confidence);
}

#[test]
fn confidences_are_told_in_and_out_of_range() {
    assert_eq!(ONE_BITS, 1.0f64.to_bits());
    for x in [0.0, -0.0, 0.5, 1.0, f64::MIN_POSITIVE, 5e-324] {
        assert!(double(x).is_in_range());
    }
    for x in [
        1.0000000000000002,
        1.5,
        -0.1,
        -5e-324,
        f64::INFINITY,
        f64::NEG_INFINITY,
        f64::NAN,
        f64::MAX,
    ] {
        assert!(!double(x).is_in_range());
    }
    assert!(Confidence::Share { votes: 2, total: 3 }.is_in_range());
    assert!(Confidence::Share { votes: 3, total: 3 }.is_in_range());
    assert!(!Confidence::Share { votes: 4, total: 3 }.is_in_range());
    assert!(!Confidence::Share { votes: 0, total: 0 }.is_in_range());
}

#[test]
fn refusals_say_what_was_wrong() {
    let mut db = Db::open_memory();
    let a = person(&mut db, "A");
    let b = person(&mut db, "B");
    assert_eq!(
        relate(&mut db, RelateInput::manual(a, a, "mentors")),
        Err(OrgError::Invalid(Refusal::Told(
            "self-relationship not allowed (id 1)".to_string()
        )))
    );
    let mut bad = RelateInput::manual(a, b, "mentors");
    bad.confidence = double(1.5);
    let e = relate(&mut db, bad).unwrap_err();
    assert!(matches!(e, OrgError::Invalid(_)));
    assert_eq!(e, OrgError::Invalid(Refusal::OutOfRange(double(1.5))));
    assert_eq!(
        e.message("1.5"),
        "invalid operation: confidence 1.5 out of range 0..1"
    );
    assert_eq!(
        set_boss(&mut db, b, b),
        Err(OrgError::Invalid(Refusal::Told(
            "person 2 cannot report to themselves".to_string()
        )))
    );
    assert_eq!(
        relate(&mut db, RelateInput::manual(a, 77, "mentors")),
        Err(OrgError::Db(
            "SQLite failure: `FOREIGN KEY constraint failed`".to_string()
        ))
    );
    assert_eq!(set_boss(&mut db, 77, a), Err(OrgError::PersonNotFound(77)));
    assert!(db.relationships().is_empty());
}

#[test]
fn relating_again_keeps_id_and_time() {
    let mut db = Db::open_memory();
    let a = person(&mut db, "A");
    let b = person(&mut db, "B");
    relate_at(&mut db, RelateInput::manual(a, b, "mentors"), "t1").unwrap();
    relate_at(&mut db, RelateInput::manual(b, a, "mentors"), "t2").unwrap();
    let mut again = RelateInput::manual(a, b, "mentors");
    again.confidence = double(0.25);
    again.source = "imported".to_string();
    relate_at(&mut db, again, "t3").unwrap();
    let e = &db.relationships()[0];
    assert_eq!((e.id, e.from_id, e.to_id), (1, a, b));
    assert_eq!(e.created_at, "t1");
    assert_eq!(e.confidence, double(0.25));
    assert_eq!(e.source, "imported");
    assert_eq!(db.relationships().len(), 2);
}

#[test]
fn set_boss_drops_stray_lines_and_leaves_other_kinds() {
    let mut db = Db::open_memory();
    let a = person(&mut db, "A");
    let b = person(&mut db, "B");
    let c = person(&mut db, "C");
    relate(&mut db, RelateInput::manual(a, b, "reports_to")).unwrap();
    relate(&mut db, RelateInput::manual(a, c, "reports_to")).unwrap();
    relate(&mut db, RelateInput::manual(a, b, "mentors")).unwrap();
    assert_eq!(bosses_of(&db, a), vec![b, c]);
    set_boss_at(&mut db, a, c, "now").unwrap();
    assert_eq!(bosses_of(&db, a), vec![c]);
    let line = db
        .relationships()
        .iter()
        .find(|e| e.kind == "reports_to")
        .unwrap();
    assert_eq!(line.source, "manual");
    assert_eq!(line.confidence, double(1.0));
    assert_eq!(line.created_at, "now");
    assert!(db.relationships().iter().any(|e| e.kind == "mentors"));
}

#[test]
fn unrelating_takes_back_one_edge() {
    let mut db = Db::open_memory();
    db.load_seed();
    let before = db.relationships().clone();
    relate(&mut db, RelateInput::manual(5, 6, "mentors")).unwrap();
    assert_eq!(db.relationships().len(), 6);
    assert!(!unrelate(&mut db, 6, 5, "mentors"));
    assert!(!unrelate(&mut db, 5, 6, "collaborates_with"));
    assert!(unrelate(&mut db, 5, 6, "mentors"));
    assert_eq!(*db.relationships(), before);
    assert!(!unrelate(&mut db, 5, 6, "mentors"));
}

#[test]
fn numbers_are_told_from_what_is_none() {
    for x in [0.0, -0.0, 1.5, -3.0, f64::INFINITY, f64::NEG_INFINITY, f64::MAX, f64::MIN] {
        assert!(double(x).is_number());
    }
    for bits in [
        f64::NAN.to_bits(),
        0x7ff0_0000_0000_0001,
        0x7fff_ffff_ffff_ffff,
        0xfff0_0000_0000_0001,
        u64::MAX,
    ] {
        assert!(f64::from_bits(bits).is_nan());
        assert!(!Confidence::Double { bits }.is_number());
    }
    assert!(Confidence::Share { votes: 0, total: 3 }.is_number());
    assert!(Confidence::Share { votes: 3, total: 0 }.is_number());
    assert!(!Confidence::Share { votes: 0, total: 0 }.is_number());
}
