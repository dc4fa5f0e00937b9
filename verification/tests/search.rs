//! Fuzzy search, and whom a selector means.

use org_core::db::Db;
use org_core::people::{add_person, get_person, list_people, PersonInput};
use org_core::search::{
    field_match, field_match_lowered, fuzzy_search, is_all_digits, rank_matches, resolve_person,
    score_fields, score_person, typo_budget, Fields, Resolution, W_NAME, W_NOTES, W_TEAM, W_TITLE,
};

fn seed(db: &mut Db) {
    let people = [
        (
            "Trent Rush",
            "IDS Fulfillment",
            "Sr Engineer",
            Some("rust and sql"),
        ),
        ("Dana Cruz", "Marketing Delivery Tracking", "Director", None),
        (
            "Jane Doe",
            "IDS Fulfillment",
            "SWE II",
            Some("mentored by trent"),
        ),
    ];
    for (name, team, title, notes) in people {
        add_person(
            db,
            PersonInput {
                name: name.to_string(),
                team: Some(team.to_string()),
                title: Some(title.to_string()),
                notes: notes.map(|n| n.to_string()),
            },
        )
        .unwrap();
    }
}

fn seeded() -> Db {
    let mut db = Db::open_memory();
    seed(&mut db);
    db
}

fn found(db: &Db, query: &str) -> Vec<(String, i32)> {
    fuzzy_search(db, query)
        .into_iter()
        .map(|h| (h.person.name, h.score))
        .collect()
}

#[test]
fn substring_case_insensitive() {
    let db = seeded();
    let hits = fuzzy_search(&db, "TRENT");
    assert_eq!(hits[0].person.name, "Trent Rush");
    assert!(hits.iter().any(|h| h.person.name == "Jane Doe"));
    assert!(hits[0].score > hits.last().unwrap().score);
}

#[test]
fn typo_tolerance_finds_name() {
    let db = seeded();
    let hits = fuzzy_search(&db, "treny");
    assert!(hits.iter().any(|h| h.person.name == "Trent Rush"));
}

#[test]
fn ranks_name_over_team() {
    let db = seeded();
    let hits = fuzzy_search(&db, "IDS");
    assert_eq!(hits.len(), 2);
    assert!(hits.iter().all(|h| h.score < W_NAME));
}

#[test]
fn empty_query_returns_all() {
    let db = seeded();
    assert_eq!(fuzzy_search(&db, "  ").len(), 3);
}

#[test]
fn no_match_returns_empty() {
    let db = seeded();
    assert!(fuzzy_search(&db, "zzzzqqqq").is_empty());
}

#[test]
fn empty_query_goes_by_name() {
    let db = seeded();
    assert_eq!(
        found(&db, ""),
        vec![
            ("Dana Cruz".to_string(), 0),
            ("Jane Doe".to_string(), 0),
            ("Trent Rush".to_string(), 0),
        ]
    );
    assert_eq!(found(&db, "\u{3000} \t\n"), found(&db, ""));
    let listed: Vec<_> = list_people(&db, None).into_iter().map(|p| p.name).collect();
    assert_eq!(listed, vec!["Dana Cruz", "Trent Rush", "Jane Doe"]);
}

#[test]
fn scores_say_where_the_match_landed() {
    let db = seeded();
    assert_eq!(
        found(&db, " Trent\t"),
        vec![
            ("Trent Rush".to_string(), W_NAME + 5),
            ("Jane Doe".to_string(), W_NOTES + 5),
        ]
    );
    assert_eq!(
        found(&db, "fulfillment"),
        vec![
            ("Jane Doe".to_string(), W_TEAM + 5),
            ("Trent Rush".to_string(), W_TEAM + 5),
        ]
    );
    assert_eq!(
        found(&db, "fulfilment"),
        vec![
            ("Jane Doe".to_string(), W_TEAM),
            ("Trent Rush".to_string(), W_TEAM),
        ]
    );
    assert_eq!(
        found(&db, "direktor"),
        vec![("Dana Cruz".to_string(), W_TITLE)]
    );
    assert_eq!(found(&db, "treny"), vec![("Trent Rush".to_string(), W_NAME)]);
}

#[test]
fn notes_tolerate_no_typo() {
    let db = seeded();
    assert_eq!(
        found(&db, "mentored"),
        vec![("Jane Doe".to_string(), W_NOTES + 5)]
    );
    assert!(found(&db, "mentorad").is_empty());
}

#[test]
fn short_queries_tolerate_no_typo() {
    let db = seeded();
    assert_eq!(found(&db, "do"), vec![("Jane Doe".to_string(), W_NAME + 5)]);
    assert!(found(&db, "dq").is_empty());
    assert_eq!(found(&db, "dqe"), vec![("Jane Doe".to_string(), W_NAME)]);
}

#[test]
fn budgets_grow_with_the_query() {
    let expected = [
        ("", 0),
        ("ab", 0),
        ("abc", 1),
        ("abcd", 1),
        ("abcde", 2),
        ("abcdefgh", 2),
        ("abcdefghi", 3),
        ("abcdefghijklmnopqrstuvwxyz", 3),
        ("äö", 0),
        ("äöü", 1),
    ];
    for (q, n) in expected {
        assert_eq!(typo_budget(q), n);
    }
}

#[test]
fn case_is_folded_beyond_ascii() {
    assert_eq!(field_match("ZOË ÅKESSON", "zoë", 0), Some(5));
    assert_eq!(field_match("ZOË ÅKESSON", "åkesson", 0), Some(5));
    assert_eq!(field_match("ZOË", "zoé", 1), Some(0));
    assert_eq!(field_match_lowered("ZOË", "zoë", 0), None);
}

#[test]
fn words_are_set_apart_by_any_white_space() {
    assert_eq!(field_match_lowered("ann\u{a0}lee", "anm", 1), Some(0));
    assert_eq!(field_match_lowered("ann\u{2003}lee", "loe", 1), Some(0));
    assert_eq!(field_match_lowered("ann-lee", "anm", 1), None);
    assert_eq!(field_match_lowered("", "abc", 3), None);
}

#[test]
fn the_strongest_field_counts_alone() {
    let f = Fields {
        name: "rust".into(),
        team: Some("rust".into()),
        title: Some("rust".into()),
        notes: Some("rust".into()),
    };
    assert_eq!(score_fields(&f, "rust", 1), Some(W_NAME + 5));
    assert_eq!(score_fields(&f, "rusk", 1), Some(W_NAME));
    let g = Fields {
        name: "x".into(),
        team: None,
        title: Some("rusk".into()),
        notes: Some("rust".into()),
    };
    assert_eq!(score_fields(&g, "rust", 1), Some(W_TITLE));
    assert_eq!(score_fields(&g, "rust", 0), Some(W_NOTES + 5));
    assert_eq!(score_fields(&g, "java", 0), None);
}

#[test]
fn people_score_by_their_lowercase_fields() {
    let db = seeded();
    let trent = get_person(&db, 1).unwrap();
    assert_eq!(Fields::of(&trent).name, "trent rush");
    assert_eq!(
        Fields::of(&trent).team.as_deref(),
        Some("ids fulfillment")
    );
    assert_eq!(score_person(&trent, "rush", 1), Some(W_NAME + 5));
    assert_eq!(score_person(&trent, "sql", 1), Some(W_NOTES + 5));
    assert_eq!(score_person(&trent, "RUSH", 0), None);
}

#[test]
fn matches_rank_by_score_then_name() {
    let db = seeded();
    let people = list_people(&db, None);
    let fields: Vec<Fields> = people.iter().map(Fields::of).collect();
    let names: Vec<_> = rank_matches(&people, &fields, "r")
        .into_iter()
        .map(|h| (h.person.name, h.score))
        .collect();
    assert_eq!(
        names,
        vec![
            ("Dana Cruz".to_string(), 1005),
            ("Trent Rush".to_string(), 1005),
            ("Jane Doe".to_string(), 6),
        ]
    );
    let hit = rank_matches(&people, &fields, "doe").remove(0);
    assert_eq!(hit.clone().person, hit.person);
}

#[test]
fn digits_select_by_id() {
    let db = seeded();
    match resolve_person(&db, "2") {
        Resolution::One(p) => assert_eq!(p.name, "Dana Cruz"),
        other => panic!("expected one, got {other:?}"),
    }
    assert!(matches!(resolve_person(&db, "002"), Resolution::One(p) if p.id == 2));
    for s in ["", "9", "9223372036854775807", "9223372036854775808", "99999999999999999999"] {
        assert!(matches!(resolve_person(&db, s), Resolution::NotFound));
    }
}

#[test]
fn names_select_exactly() {
    let mut db = seeded();
    assert!(matches!(resolve_person(&db, "Jane Doe"), Resolution::One(p) if p.id == 3));
    for s in ["jane doe", "Jane", "Jane Doe ", "-1", "Nobody"] {
        assert!(matches!(resolve_person(&db, s), Resolution::NotFound));
    }
    add_person(
        &mut db,
        PersonInput {
            name: "Jane Doe".into(),
            ..Default::default()
        },
    )
    .unwrap();
    match resolve_person(&db, "Jane Doe") {
        Resolution::Ambiguous(ps) => {
            assert_eq!(ps.iter().map(|p| p.id).collect::<Vec<_>>(), vec![3, 4]);
        }
        other => panic!("expected several, got {other:?}"),
    }
    assert!(matches!(resolve_person(&db, "4"), Resolution::One(p) if p.name == "Jane Doe"));
}

#[test]
fn the_largest_id_can_be_selected() {
    let mut people = list_people(&seeded(), None);
    people.truncate(1);
    people[0].id = i64::MAX;
    let db = Db::from_rows(people, vec![]).unwrap();
    assert!(matches!(
        resolve_person(&db, "9223372036854775807"),
        Resolution::One(_)
    ));
    assert!(matches!(
        resolve_person(&db, "9223372036854775806"),
        Resolution::NotFound
    ));
}

#[test]
fn only_ascii_digits_are_digits() {
    assert!(is_all_digits(""));
    assert!(is_all_digits("0123456789"));
    assert!(!is_all_digits("12a"));
    assert!(!is_all_digits("-1"));
    assert!(!is_all_digits("٣"));
}
