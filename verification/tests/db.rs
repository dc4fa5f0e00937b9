//! Where a directory is stored, and which rows make one.

use org_core::db::{Config, Db};
use org_core::model::{Confidence, OrgError, Person, Refusal, Relationship};
use org_core::paths::{join, parent_of};

#[test]
fn the_flag_goes_before_the_variable_goes_before_home() {
    let s = |t: &str| Some(t.to_string());
    let local = |t: &str| Config::Local(t.to_string());
    assert_eq!(
        Config::resolve(s("/a.db"), s("/b.db"), s("/home/x")),
        local("/a.db")
    );
    assert_eq!(Config::resolve(None, s("/b.db"), s("/home/x")), local("/b.db"));
    assert_eq!(Config::resolve(None, s(""), s("/home/x")), local(""));
    assert_eq!(
        Config::resolve(None, None, s("/home/x")),
        local("/home/x/.org/org.db")
    );
    assert_eq!(Config::resolve(None, None, None), local("./.org/org.db"));
    assert_eq!(Config::resolve(None, None, None).clone(), local("./.org/org.db"));
    assert_eq!(Config::Memory.clone(), Config::Memory);
}

#[test]
fn paths_join_as_std_joins_them() {
    for base in ["", "/", "a", "a/", "/a/b", "/a/b/", "."] {
        for leaf in ["", "x", "x/y", "/x", "x/"] {
            let expected = std::path::Path::new(base).join(leaf);
            assert_eq!(join(base, leaf), expected.to_str().unwrap());
        }
    }
}

fn person(id: i64) -> Person {
    Person {
        id,
        name: format!("P{id}"),
        team: None,
        title: None,
        notes: None,
        created_at: "t".to_string(),
        updated_at: "t".to_string(),
    }
}

fn edge(id: i64, from_id: i64, to_id: i64, kind: &str) -> Relationship {
    Relationship {
        id,
        from_id,
        to_id,
        kind: kind.to_string(),
        notes: None,
        confidence: Confidence::Share { votes: 1, total: 1 },
        source: "manual".to_string(),
        created_at: "t".to_string(),
    }
}

#[test]
fn rows_that_fit_make_a_directory() {
    let people = vec![person(-5), person(0), person(7)];
    let edges = vec![
        edge(1, 7, 0, "reports_to"),
        edge(2, 7, 0, "mentors"),
        edge(3, 0, 7, "reports_to"),
    ];
    let db = Db::from_rows(people.clone(), edges.clone()).unwrap();
    assert_eq!(*db.people(), people);
    assert_eq!(*db.relationships(), edges);
}

#[test]
fn rows_that_do_not_fit_make_none() {
    assert!(Db::from_rows(vec![person(2), person(1)], vec![]).is_none());
    assert!(Db::from_rows(vec![person(1), person(1)], vec![]).is_none());
    let two = || vec![person(1), person(2)];
    assert!(Db::from_rows(two(), vec![edge(1, 1, 3, "k")]).is_none());
    assert!(Db::from_rows(two(), vec![edge(1, 3, 1, "k")]).is_none());
    assert!(Db::from_rows(two(), vec![edge(2, 1, 2, "k"), edge(1, 2, 1, "k")]).is_none());
    assert!(Db::from_rows(two(), vec![edge(1, 1, 2, "k"), edge(2, 1, 2, "k")]).is_none());
    assert!(Db::from_rows(two(), vec![edge(1, 1, 2, "k"), edge(2, 1, 2, "j")]).is_some());
    let mut none = edge(1, 1, 2, "k");
    none.confidence = Confidence::Double {
        bits: f64::NAN.to_bits(),
    };
    assert!(Db::from_rows(two(), vec![none]).is_none());
}

#[test]
fn errors_read_as_sentences() {
    let cases = [
        (
            OrgError::Db("locked".to_string()),
            "database error: locked",
        ),
        (
            OrgError::Json("EOF".to_string()),
            "serialization error: EOF",
        ),
        (OrgError::PersonNotFound(-7), "no person with id -7"),
        (
            OrgError::Invalid(Refusal::Told("no".to_string())),
            "invalid operation: no",
        ),
        (
            OrgError::Invalid(Refusal::OutOfRange(Confidence::Double {
                bits: 2.0f64.to_bits(),
            })),
            "invalid operation: confidence 2 out of range 0..1",
        ),
    ];
    for (e, text) in cases {
        assert_eq!(e.message("2"), text);
    }
}

#[test]
fn parents_are_those_that_std_gives() {
    for path in [
        "", "/", "//", "/.", ".", "./", "./.", "..", "../", "a", "a/", "a//", "a/.", "a/b", "a//b",
        "a/./b", "a/b/.", "a/b/./", "/a", "//a", "/a/b", "/a//b/", "/a/./b", "./a", "../a", "a/..",
        "a.b/c", "a/.b", "a/b.", "/./a", ".a", "a/ö/ü",
    ] {
        let expected = std::path::Path::new(path).parent().map(|p| p.to_str().unwrap());
        assert_eq!(parent_of(path).as_deref(), expected);
    }
}
