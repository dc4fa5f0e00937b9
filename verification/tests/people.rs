//! People: add, look up, change, remove, list.

use org_core::db::Db;
use org_core::edges::set_boss;
use org_core::model::{OrgError, Person};
use org_core::people::{
    add_person, add_person_at, get_person, list_people, remove_person, update_person,
    update_person_at, PersonInput,
};

fn input(name: &str) -> PersonInput {
    PersonInput {
        name: name.to_string(),
        team: Some("IDS Fulfillment".to_string()),
        title: Some("SWE".to_string()),
        notes: None,
    }
}

fn row(id: i64, name: &str) -> Person {
    Person {
        id,
        name: name.to_string(),
        team: None,
        title: None,
        notes: None,
        created_at: "t".to_string(),
        updated_at: "t".to_string(),
    }
}

#[test]
fn add_then_get_roundtrips() {
    let mut db = Db::open_memory();
    let p = add_person(&mut db, input("Sam Park")).unwrap();
    assert!(p.id > 0);
    assert_eq!(p.name, "Sam Park");
    assert_eq!(p.team.as_deref(), Some("IDS Fulfillment"));
    assert_eq!(p.notes, None);
    assert_eq!(p.created_at, p.updated_at);

    let fetched = get_person(&db, p.id).unwrap();
    assert_eq!(fetched, p);
}

#[test]
fn get_missing_is_none() {
    let db = Db::open_memory();
    assert!(get_person(&db, 999).is_none());
}

#[test]
fn update_changes_fields_and_bumps_timestamp() {
    let mut db = Db::open_memory();
    let p = add_person(&mut db, input("Sam Park")).unwrap();

    let mut upd = input("Samuel Park");
    upd.title = Some("Sr SWE".to_string());
    upd.team = None;
    let after = update_person(&mut db, p.id, upd).unwrap();

    assert_eq!(after.name, "Samuel Park");
    assert_eq!(after.title.as_deref(), Some("Sr SWE"));
    assert_eq!(after.team, None);
    assert_eq!(after.created_at, p.created_at);
    assert!(after.updated_at >= p.updated_at);
}

#[test]
fn update_missing_errors() {
    let mut db = Db::open_memory();
    let err = update_person(&mut db, 42, input("Ghost")).unwrap_err();
    assert!(matches!(err, OrgError::PersonNotFound(42)));
}

#[test]
fn remove_missing_errors_present_succeeds() {
    let mut db = Db::open_memory();
    assert!(matches!(
        remove_person(&mut db, 7).unwrap_err(),
        OrgError::PersonNotFound(7)
    ));
    let p = add_person(&mut db, input("Sam Park")).unwrap();
    remove_person(&mut db, p.id).unwrap();
    assert!(get_person(&db, p.id).is_none());
}

#[test]
fn list_filters_by_team() {
    let mut db = Db::open_memory();
    add_person(&mut db, input("Bea")).unwrap();
    let mut other = input("Cy");
    other.team = Some("Marketing".to_string());
    add_person(&mut db, other).unwrap();

    let ids = list_people(&db, Some("IDS Fulfillment"));
    assert_eq!(ids.len(), 1);
    assert_eq!(ids[0].name, "Bea");
    assert_eq!(list_people(&db, None).len(), 2);
}

#[test]
fn list_orders_by_seniority_then_name() {
    let mut db = Db::open_memory();
    for (name, title) in [
        ("Zoe", Some("Director")),
        ("Al", Some("SWE II")),
        ("Bo", Some("Sr Engineer")),
        ("Cy", None),
        ("Ann", Some("SWE II")),
    ] {
        add_person(
            &mut db,
            PersonInput {
                name: name.to_string(),
                title: title.map(String::from),
                ..Default::default()
            },
        )
        .unwrap();
    }
    let names: Vec<_> = list_people(&db, None).into_iter().map(|p| p.name).collect();
    assert_eq!(names, vec!["Zoe", "Bo", "Al", "Ann", "Cy"]);
}

#[test]
fn ids_count_up_and_follow_the_largest() {
    let mut db = Db::from_rows(vec![row(3, "C"), row(10, "J")], vec![]).unwrap();
    assert_eq!(add_person(&mut db, input("K")).unwrap().id, 11);
    remove_person(&mut db, 11).unwrap();
    assert_eq!(add_person(&mut db, input("L")).unwrap().id, 11);

    let mut empty = Db::open_memory();
    assert_eq!(add_person(&mut empty, input("A")).unwrap().id, 1);
    assert_eq!(add_person(&mut empty, input("B")).unwrap().id, 2);
}

#[test]
fn ids_fall_back_below_the_largest_of_all() {
    let mut db = Db::from_rows(
        vec![row(i64::MAX - 1, "Y"), row(i64::MAX, "Z")],
        vec![],
    )
    .unwrap();
    assert_eq!(
        add_person(&mut db, input("X")).unwrap().id,
        i64::MAX - 2
    );
}

#[test]
fn times_are_the_ones_given() {
    let mut db = Db::open_memory();
    let p = add_person_at(&mut db, input("Sam"), "2026-02-03").unwrap();
    assert_eq!(p.created_at, "2026-02-03");
    assert_eq!(p.updated_at, "2026-02-03");
    let q = update_person_at(&mut db, p.id, input("Sam"), "2026-04-05").unwrap();
    assert_eq!(q.created_at, "2026-02-03");
    assert_eq!(q.updated_at, "2026-04-05");
    assert_eq!(get_person(&db, p.id), Some(q));
}

#[test]
fn the_clock_reads_as_rfc_3339_in_utc() {
    let mut db = Db::open_memory();
    let p = add_person(&mut db, input("Sam")).unwrap();
    let t = chrono::DateTime::parse_from_rfc3339(&p.created_at).unwrap();
    assert_eq!(t.offset().local_minus_utc(), 0);
    let body = p.created_at.strip_suffix("+00:00").unwrap();
    let (date_time, fraction) = match body.split_once('.') {
        Some((d, f)) => (d, f),
        None => (body, ""),
    };
    let shape: String = date_time
        .chars()
        .map(|c| if c.is_ascii_digit() { '0' } else { c })
        .collect();
    assert_eq!(shape, "0000-00-00T00:00:00");
    assert!([0, 3, 6, 9].contains(&fraction.len()));
    assert!(fraction.chars().all(|c| c.is_ascii_digit()));
    let age = chrono::Utc::now().signed_duration_since(t);
    assert!(age.num_seconds() >= 0 && age.num_seconds() < 60);
}

#[test]
fn changing_one_person_leaves_the_others() {
    let mut db = Db::open_memory();
    db.load_seed();
    let before = get_person(&db, 4);
    update_person(&mut db, 5, input("Trent Rush")).unwrap();
    assert_eq!(get_person(&db, 4), before);
    assert_eq!(db.relationships().len(), 5);
}

#[test]
fn removing_someone_takes_their_edges_only() {
    let mut db = Db::open_memory();
    db.load_seed();
    set_boss(&mut db, 4, 1).unwrap();
    remove_person(&mut db, 4).unwrap();
    let left: Vec<_> = db
        .relationships()
        .iter()
        .map(|e| (e.id, e.from_id, e.to_id))
        .collect();
    assert_eq!(left, vec![(1, 2, 1), (2, 3, 1)]);
    assert_eq!(db.people().len(), 6);
}

#[test]
fn namesakes_of_one_rank_list_by_id() {
    let mut db = Db::open_memory();
    let a = add_person(&mut db, input("Sam")).unwrap().id;
    let b = add_person(&mut db, input("Sam")).unwrap().id;
    let ids: Vec<_> = list_people(&db, None).into_iter().map(|p| p.id).collect();
    assert_eq!(ids, vec![a, b]);
}

#[test]
fn inputs_can_be_copied() {
    let a = input("Sam");
    let b = a.clone();
    assert_eq!(a.name, b.name);
    assert_eq!(a.team, b.team);
    assert_eq!(a.title, b.title);
    assert_eq!(a.notes, b.notes);
}
