//! Terminal output, letter by letter.

use org_core::infer::Inference;
use org_core::model::{Confidence, Person};
use org_core::render;
use org_core::search::{Resolution, SearchHit};
use org_core::tree::Node;

fn person(id: i64, name: &str, team: Option<&str>, title: Option<&str>) -> Person {
    Person {
        id,
        name: name.to_string(),
        team: team.map(String::from),
        title: title.map(String::from),
        notes: None,
        created_at: "t".to_string(),
        updated_at: "t".to_string(),
    }
}

fn node(id: i64, name: &str, title: Option<&str>, depth: i64) -> Node {
    Node {
        id,
        name: name.to_string(),
        title: title.map(String::from),
        depth,
    }
}

#[test]
fn details_skip_what_is_missing() {
    let mut p = person(5, "Trent Rush", Some("IDS"), Some("Sr Engineer"));
    assert_eq!(
        render::person_detail(&p),
        "#5  Trent Rush\n  Team  : IDS\n  Title : Sr Engineer\n"
    );
    p.team = None;
    p.notes = Some("rust".to_string());
    assert_eq!(
        render::person_detail(&p),
        "#5  Trent Rush\n  Title : Sr Engineer\n  Notes : rust\n"
    );
}

#[test]
fn tables_line_up() {
    assert_eq!(render::person_table(&[]), "(no people)\n");
    let people = [
        person(4, "Pat Smith", Some("IDS Fulfillment"), Some("Manager")),
        person(12345, "Bo", None, None),
    ];
    let expected: String = people
        .iter()
        .map(|p| {
            format!(
                "  {:>4}  {:<9}  {:<28}  {}\n",
                p.id,
                p.name,
                p.team.as_deref().unwrap_or("-"),
                p.title.as_deref().unwrap_or("-"),
            )
        })
        .collect();
    assert_eq!(render::person_table(&people), expected);
    assert_eq!(
        render::person_table(&people[1..]),
        "  12345  Bo    -                             -\n"
    );
}

#[test]
fn columns_of_names_are_as_wide_as_the_longest_name_has_bytes() {
    let people = [person(1, "Zoë Öz", None, None)];
    assert_eq!(
        render::person_table(&people),
        format!("     1  {:<8}  {:<28}  -\n", "Zoë Öz", "-")
    );
}

#[test]
fn results_line_up() {
    assert_eq!(render::search_results(&[]), "(no matches)\n");
    let hits = [
        SearchHit {
            person: person(7, "Mike Chen", Some("IDS"), Some("SWE I")),
            score: 1005,
        },
        SearchHit {
            person: person(12345, "A very long name indeed", None, None),
            score: 5,
        },
    ];
    assert_eq!(
        render::search_results(&hits),
        "  #7    Mike Chen            IDS  SWE I  [1005]\n  #12345 A very long name indeed -    [5]\n"
    );
}

#[test]
fn headcounts_line_up() {
    assert_eq!(render::teams(&[]), "(no teams)\n");
    assert_eq!(
        render::teams(&[("IDS".to_string(), 4), ("(no team)".to_string(), 1234)]),
        "    4  IDS\n  1234  (no team)\n"
    );
}

#[test]
fn chains_step_in() {
    assert_eq!(
        render::chain(&[]),
        "  (reports to no one — this is a root)\n"
    );
    assert_eq!(
        render::chain(&[
            node(4, "Pat", None, 1),
            node(1, "Dana", None, 2),
            node(0, "Odd", None, 0)
        ]),
        "  → Pat\n    → Dana\n  → Odd\n"
    );
}

#[test]
fn inferences_read_as_sentences() {
    let yes = Inference::Inferred {
        boss_id: 4,
        votes: 2,
        total: 3,
        confidence: Confidence::Share { votes: 2, total: 3 },
    };
    assert_eq!(
        render::inference("Mike", &yes, "0.67"),
        "Inferred a boss for Mike (2/3 teammates agree, confidence 0.67).\n"
    );
    let no = Inference::NoGuess {
        reason: "person has no team".to_string(),
    };
    assert_eq!(
        render::inference("Mike", &no, ""),
        "No boss inferred for Mike: person has no team.\n"
    );
}

#[test]
fn everything_about_a_person_reads_in_order() {
    let p = person(5, "Trent", None, None);
    let bosses = [node(4, "Pat", None, 1)];
    let reports = [node(8, "Ann", Some("Intern"), 1), node(9, "Bo", None, 1)];
    assert_eq!(
        render::who(&p, &bosses, &reports),
        "#5  Trent\n\nChain of command:\n  → Pat\n\nDirect reports:\n  - #8  Ann — Intern\n  - #9  Bo\n"
    );
    assert_eq!(render::reports(&[]), "  (none)\n");
}

#[test]
fn changes_are_told() {
    let a = person(2, "Trent", None, None);
    let b = person(1, "Pat", None, None);
    assert_eq!(
        render::boss_set(&a, &b),
        "Set boss: #2  Trent now reports to #1  Pat.\n"
    );
    assert_eq!(
        render::removed(&a),
        "Removed #2  Trent (and any of their relationship edges).\n"
    );
}

#[test]
fn selectors_that_fail_are_explained() {
    let a = person(2, "Sam", None, None);
    let b = person(3, "Sam", None, None);
    assert_eq!(
        render::resolved("Sam", Resolution::One(a.clone())),
        Ok(a.clone())
    );
    assert_eq!(
        render::resolved("Sam", Resolution::Ambiguous(vec![a, b])),
        Err(
            "'Sam' matches more than one person:\n     2  Sam   -                             -\n     3  Sam   -                             -\nRerun with the id."
                .to_string()
        )
    );
    assert_eq!(
        render::resolved("42", Resolution::NotFound),
        Err("no person with id 42".to_string())
    );
    assert_eq!(
        render::resolved("Zed", Resolution::NotFound),
        Err("no person matching 'Zed' (try `org find Zed`)".to_string())
    );
}
