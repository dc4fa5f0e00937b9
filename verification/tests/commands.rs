//! The views of a graphical front end.

use org_core::commands::{err, search, tree, who};
use org_core::db::Db;
use org_core::model::OrgError;

fn seeded() -> Db {
    let mut db = Db::open_memory();
    db.load_seed();
    db
}

#[test]
fn searching_for_nothing_gives_everyone() {
    assert_eq!(search(&seeded(), "").len(), 7);
    assert_eq!(search(&seeded(), "pat")[0].person.id, 4);
}

#[test]
fn a_person_comes_with_bosses_and_reports() {
    let v = who(&seeded(), 4).unwrap();
    assert_eq!(v.person.name, "Pat Smith");
    assert!(v.chain.is_empty());
    assert_eq!(
        v.reports.iter().map(|n| n.id).collect::<Vec<_>>(),
        vec![5, 6, 7]
    );
    let w = who(&seeded(), 3).unwrap();
    assert_eq!(w.chain[0].name, "Dana Cruz");
    assert!(w.reports.is_empty());
}

#[test]
fn a_tree_comes_with_its_root() {
    let v = tree(&seeded(), 1).unwrap();
    assert_eq!(v.anchor.name, "Dana Cruz");
    assert_eq!(
        v.nodes
            .iter()
            .map(|n| (n.id, n.depth))
            .collect::<Vec<_>>(),
        vec![(3, 1), (2, 1)]
    );
}

#[test]
fn nobody_is_told_as_text() {
    assert_eq!(
        who(&seeded(), 99).unwrap_err(),
        "no person with id 99"
    );
    assert_eq!(
        tree(&seeded(), -1).unwrap_err(),
        "no person with id -1"
    );
    assert_eq!(err(OrgError::PersonNotFound(99), ""), "no person with id 99");
}
