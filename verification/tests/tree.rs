//! The hierarchy: chains upward, reports and trees downward, roots, headcounts.

use org_core::db::Db;
use org_core::edges::{relate, set_boss, RelateInput};
use org_core::model::{Confidence, OrgError, Person, Relationship};
use org_core::people::{add_person, remove_person, PersonInput};
use org_core::tree::{
    chain_of_command, direct_reports, render_tree, roots, subtree, team_headcounts, tree_line,
};

fn seeded() -> Db {
    let mut db = Db::open_memory();
    db.load_seed();
    db
}

fn named(db: &mut Db, name: &str) -> i64 {
    add_person(
        db,
        PersonInput {
            name: name.into(),
            ..Default::default()
        },
    )
    .unwrap()
    .id
}

#[test]
fn chain_of_trent_is_just_pat() {
    let db = seeded();
    let chain = chain_of_command(&db, 5);
    assert_eq!(chain.len(), 1);
    assert_eq!(chain[0].name, "Pat Smith");
    assert_eq!(chain[0].depth, 1);
}

#[test]
fn direct_reports_ordered_by_seniority() {
    let db = seeded();
    let reports = direct_reports(&db, 4);
    let names: Vec<_> = reports.iter().map(|n| n.name.as_str()).collect();
    assert_eq!(names, vec!["Trent Rush", "Jane Doe", "Mike Chen"]);
}

#[test]
fn subtree_ignores_other_edge_kinds() {
    let mut db = seeded();
    relate(&mut db, RelateInput::manual(5, 6, "peer_review")).unwrap();

    let sub = subtree(&db, 4);
    let names: Vec<_> = sub.iter().map(|n| n.name.as_str()).collect();
    assert_eq!(names, vec!["Trent Rush", "Jane Doe", "Mike Chen"]);
    assert!(sub.iter().all(|n| n.depth == 1));
}

#[test]
fn subtree_is_preorder_children_under_their_parent() {
    let mut db = seeded();
    let intern = add_person(
        &mut db,
        PersonInput {
            name: "Aaron Ali".into(),
            title: Some("Engineering Intern".into()),
            ..Default::default()
        },
    )
    .unwrap()
    .id;
    set_boss(&mut db, intern, 5).unwrap();

    let sub = subtree(&db, 4);
    let got: Vec<_> = sub.iter().map(|n| (n.name.as_str(), n.depth)).collect();
    assert_eq!(
        got,
        vec![
            ("Trent Rush", 1),
            ("Aaron Ali", 2),
            ("Jane Doe", 1),
            ("Mike Chen", 1),
        ]
    );
}

#[test]
fn roots_are_pat_then_dana_by_seniority() {
    let db = seeded();
    let r = roots(&db);
    let names: Vec<_> = r.iter().map(|n| n.name.as_str()).collect();
    assert_eq!(names, vec!["Dana Cruz", "Pat Smith"]);
}

#[test]
fn headcounts_by_team() {
    let db = seeded();
    let counts = team_headcounts(&db);
    assert_eq!(counts[0], ("IDS Fulfillment".to_string(), 4));
    assert_eq!(counts[1], ("Marketing Delivery Tracking".to_string(), 3));
}

#[test]
fn render_tree_indents_and_shows_titles() {
    let db = seeded();
    let text = render_tree(&db, 4).unwrap();
    assert!(text.starts_with("#4  Pat Smith — Engineering Manager\n"));
    let trent = text.find("#5  Trent Rush — Sr Engineer").unwrap();
    let jane = text.find("#6  Jane Doe — SWE II").unwrap();
    let mike = text.find("#7  Mike Chen — SWE I").unwrap();
    assert!(trent < jane && jane < mike);
}

#[test]
fn cycle_guard_terminates() {
    let mut db = Db::open_memory();
    let a = named(&mut db, "A");
    let b = named(&mut db, "B");
    relate(&mut db, RelateInput::manual(a, b, "reports_to")).unwrap();
    relate(&mut db, RelateInput::manual(b, a, "reports_to")).unwrap();

    let chain = chain_of_command(&db, a);
    assert!(chain.len() <= 100);
    assert!(chain.len() >= 2);

    let sub = subtree(&db, a);
    assert_eq!(sub.len(), 1);
}

#[test]
fn chain_of_command_trent_is_just_pat() {
    let db = seeded();
    let got: Vec<_> = chain_of_command(&db, 5)
        .into_iter()
        .map(|n| (n.name, n.depth))
        .collect();
    assert_eq!(got, vec![("Pat Smith".to_string(), 1)]);
}

#[test]
fn direct_reports_of_pat() {
    let db = seeded();
    let mut nodes = direct_reports(&db, 4);
    nodes.sort_by_key(|n| n.id);
    let got: Vec<_> = nodes.into_iter().map(|n| n.name).collect();
    assert_eq!(
        got,
        vec![
            "Trent Rush".to_string(),
            "Jane Doe".to_string(),
            "Mike Chen".to_string()
        ]
    );
}

#[test]
fn roots_are_dana_and_pat() {
    let db = seeded();
    let mut nodes = roots(&db);
    nodes.sort_by_key(|n| n.id);
    let got: Vec<_> = nodes.into_iter().map(|n| n.name).collect();
    assert_eq!(got, vec!["Dana Cruz".to_string(), "Pat Smith".to_string()]);
}

#[test]
fn subtree_cte_walks_only_reports_to() {
    let mut db = seeded();
    relate(&mut db, RelateInput::manual(5, 6, "peer_review")).unwrap();
    let mut got: Vec<_> = subtree(&db, 4)
        .into_iter()
        .map(|n| (n.name, n.depth))
        .collect();
    got.sort();
    assert_eq!(
        got,
        vec![
            ("Jane Doe".to_string(), 1),
            ("Mike Chen".to_string(), 1),
            ("Trent Rush".to_string(), 1),
        ]
    );
}

#[test]
fn a_loop_is_walked_a_hundred_steps_up() {
    let mut db = Db::open_memory();
    let a = named(&mut db, "A");
    let b = named(&mut db, "B");
    set_boss(&mut db, a, b).unwrap();
    set_boss(&mut db, b, a).unwrap();
    let chain = chain_of_command(&db, a);
    assert_eq!(chain.len(), 100);
    for (k, n) in chain.iter().enumerate() {
        assert_eq!(n.depth, k as i64 + 1);
        assert_eq!(n.id, if k % 2 == 0 { b } else { a });
    }
}

#[test]
fn long_chains_end_at_a_hundred_and_trees_reach_a_hundred_down() {
    let mut db = Db::open_memory();
    let mut ids = vec![named(&mut db, "P0")];
    for k in 1..=101 {
        let p = named(&mut db, &format!("P{k}"));
        set_boss(&mut db, p, ids[k - 1]).unwrap();
        ids.push(p);
    }
    let chain = chain_of_command(&db, ids[101]);
    assert_eq!(chain.len(), 100);
    assert_eq!(chain[99].id, ids[1]);
    assert_eq!(chain_of_command(&db, ids[50]).len(), 50);

    let sub = subtree(&db, ids[0]);
    assert_eq!(sub.len(), 100);
    for (k, n) in sub.iter().enumerate() {
        assert_eq!((n.id, n.depth), (ids[k + 1], k as i64 + 1));
    }
}

#[test]
fn nobody_has_no_chain_and_no_reports() {
    let db = seeded();
    assert!(chain_of_command(&db, 99).is_empty());
    assert!(chain_of_command(&db, 4).is_empty());
    assert!(direct_reports(&db, 99).is_empty());
    assert!(subtree(&db, 99).is_empty());
    assert!(roots(&Db::open_memory()).is_empty());
    assert!(team_headcounts(&Db::open_memory()).is_empty());
}

#[test]
fn someone_with_two_bosses_has_both_in_their_chain() {
    let mut db = Db::open_memory();
    let a = named(&mut db, "A");
    let b = named(&mut db, "B");
    let c = named(&mut db, "C");
    let top = named(&mut db, "Top");
    relate(&mut db, RelateInput::manual(a, c, "reports_to")).unwrap();
    relate(&mut db, RelateInput::manual(a, b, "reports_to")).unwrap();
    set_boss(&mut db, b, top).unwrap();
    set_boss(&mut db, c, top).unwrap();
    let got: Vec<_> = chain_of_command(&db, a)
        .into_iter()
        .map(|n| (n.id, n.depth))
        .collect();
    assert_eq!(got, vec![(c, 1), (b, 1), (top, 2), (top, 2)]);
    let under: Vec<_> = subtree(&db, top)
        .into_iter()
        .map(|n| (n.id, n.depth))
        .collect();
    assert_eq!(under, vec![(b, 1), (a, 2), (c, 1)]);
}

#[test]
fn trees_read_line_by_line() {
    let mut db = seeded();
    let ann = named(&mut db, "Ann Lee");
    set_boss(&mut db, ann, 5).unwrap();
    set_boss(&mut db, 4, 1).unwrap();
    assert_eq!(
        render_tree(&db, 1).unwrap(),
        "#1  Dana Cruz — Director\n\
         \u{20} #4  Pat Smith — Engineering Manager\n\
         \u{20}   #5  Trent Rush — Sr Engineer\n\
         \u{20}     #8  Ann Lee\n\
         \u{20}   #6  Jane Doe — SWE II\n\
         \u{20}   #7  Mike Chen — SWE I\n\
         \u{20} #3  Ana Ruiz — Analyst II\n\
         \u{20} #2  Tom West — Analyst\n"
    );
    assert_eq!(render_tree(&db, 99), Err(OrgError::PersonNotFound(99)));
}

#[test]
fn lines_show_a_title_only_where_there_is_one() {
    assert_eq!(tree_line(-3, "Zoë", Some("CTO")), "#-3  Zoë — CTO\n");
    assert_eq!(tree_line(12, "Bo", None), "#12  Bo\n");
}

#[test]
fn headcounts_go_by_size_then_name() {
    let mut db = Db::open_memory();
    for (name, team) in [
        ("a", Some("Zeta")),
        ("b", None),
        ("c", Some("Alpha")),
        ("d", Some("Mid")),
        ("e", Some("Mid")),
        ("f", Some("(no team)")),
    ] {
        add_person(
            &mut db,
            PersonInput {
                name: name.into(),
                team: team.map(String::from),
                ..Default::default()
            },
        )
        .unwrap();
    }
    assert_eq!(
        team_headcounts(&db),
        vec![
            ("(no team)".to_string(), 2),
            ("Mid".to_string(), 2),
            ("Alpha".to_string(), 1),
            ("Zeta".to_string(), 1),
        ]
    );
    let total: i64 = team_headcounts(&db).iter().map(|c| c.1).sum();
    assert_eq!(total, 6);
}

#[test]
fn someone_who_reports_to_themselves_is_no_root_and_under_nobody() {
    let people = vec![Person {
        id: 1,
        name: "Ouro".into(),
        team: None,
        title: None,
        notes: None,
        created_at: "t".into(),
        updated_at: "t".into(),
    }];
    let edges = vec![Relationship {
        id: 1,
        from_id: 1,
        to_id: 1,
        kind: "reports_to".into(),
        notes: None,
        confidence: Confidence::Share { votes: 1, total: 1 },
        source: "imported".into(),
        created_at: "t".into(),
    }];
    let mut db = Db::from_rows(people, edges).unwrap();
    assert!(roots(&db).is_empty());
    assert!(subtree(&db, 1).is_empty());
    assert_eq!(chain_of_command(&db, 1).len(), 100);
    remove_person(&mut db, 1).unwrap();
    assert!(db.relationships().is_empty());
}

#[test]
fn the_seed_loads_once() {
    let mut db = seeded();
    db.load_seed();
    assert_eq!(db.people().len(), 7);
    assert_eq!(db.relationships().len(), 5);

    let mut other = Db::open_memory();
    named(&mut other, "Someone");
    other.load_seed();
    assert_eq!(other.people().len(), 1);
    assert!(other.relationships().is_empty());
}
