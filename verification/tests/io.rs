//! Export and import.

use org_core::db::Db;
use org_core::edges::{relate, set_boss, RelateInput};
use org_core::io::{export, import, OrgDump, DUMP_VERSION};
use org_core::model::{Confidence, OrgError, Person, Relationship};
use org_core::people::get_person;
use org_core::tree::chain_of_command;
use serde_json::Value;

fn seeded() -> Db {
    let mut db = Db::open_memory();
    db.load_seed();
    db
}

fn optional(s: &Option<String>) -> Value {
    match s {
        Some(t) => Value::from(t.as_str()),
        None => Value::Null,
    }
}

fn number(c: Confidence) -> f64 {
    match c {
        Confidence::Share { votes, total } => votes as f64 / total as f64,
        Confidence::Double { bits } => f64::from_bits(bits),
    }
}

/// The dump as JSON text.
fn write(dump: &OrgDump) -> String {
    let people: Vec<Value> = dump
        .people
        .iter()
        .map(|p| {
            let mut m = serde_json::Map::new();
            m.insert("id".into(), Value::from(p.id));
            m.insert("name".into(), Value::from(p.name.as_str()));
            m.insert("team".into(), optional(&p.team));
            m.insert("title".into(), optional(&p.title));
            m.insert("notes".into(), optional(&p.notes));
            m.insert("created_at".into(), Value::from(p.created_at.as_str()));
            m.insert("updated_at".into(), Value::from(p.updated_at.as_str()));
            Value::Object(m)
        })
        .collect();
    let relationships: Vec<Value> = dump
        .relationships
        .iter()
        .map(|e| {
            let mut m = serde_json::Map::new();
            m.insert("id".into(), Value::from(e.id));
            m.insert("from_id".into(), Value::from(e.from_id));
            m.insert("to_id".into(), Value::from(e.to_id));
            m.insert("kind".into(), Value::from(e.kind.as_str()));
            m.insert("notes".into(), optional(&e.notes));
            m.insert("confidence".into(), Value::from(number(e.confidence)));
            m.insert("source".into(), Value::from(e.source.as_str()));
            m.insert("created_at".into(), Value::from(e.created_at.as_str()));
            Value::Object(m)
        })
        .collect();
    let mut m = serde_json::Map::new();
    m.insert("version".into(), Value::from(dump.version));
    m.insert("people".into(), Value::Array(people));
    m.insert("relationships".into(), Value::Array(relationships));
    serde_json::to_string_pretty(&Value::Object(m)).unwrap()
}

fn text(v: &Value, key: &str) -> String {
    v[key].as_str().unwrap().to_string()
}

fn maybe(v: &Value, key: &str) -> Option<String> {
    v[key].as_str().map(String::from)
}

/// The dump that JSON text holds.
fn read(json: &str) -> OrgDump {
    let v: Value = serde_json::from_str(json).unwrap();
    OrgDump {
        version: v["version"].as_u64().unwrap() as u32,
        people: v["people"]
            .as_array()
            .unwrap()
            .iter()
            .map(|p| Person {
                id: p["id"].as_i64().unwrap(),
                name: text(p, "name"),
                team: maybe(p, "team"),
                title: maybe(p, "title"),
                notes: maybe(p, "notes"),
                created_at: text(p, "created_at"),
                updated_at: text(p, "updated_at"),
            })
            .collect(),
        relationships: v["relationships"]
            .as_array()
            .unwrap()
            .iter()
            .map(|e| Relationship {
                id: e["id"].as_i64().unwrap(),
                from_id: e["from_id"].as_i64().unwrap(),
                to_id: e["to_id"].as_i64().unwrap(),
                kind: text(e, "kind"),
                notes: maybe(e, "notes"),
                confidence: Confidence::Double {
                    bits: e["confidence"].as_f64().unwrap().to_bits(),
                },
                source: text(e, "source"),
                created_at: text(e, "created_at"),
            })
            .collect(),
    }
}

#[test]
fn export_then_import_roundtrips() {
    let src = seeded();
    let json = write(&export(&src));

    let mut dst = Db::open_memory();
    import(&mut dst, &read(&json)).unwrap();

    let a = export(&src);
    let b = export(&dst);
    assert_eq!(a.people, b.people);
    assert_eq!(a.relationships, b.relationships);
}

#[test]
fn import_preserves_ids_and_reporting_lines() {
    let src = seeded();
    let dump = export(&src);

    let mut dst = Db::open_memory();
    import(&mut dst, &dump).unwrap();

    let chain = chain_of_command(&dst, 5);
    assert_eq!(chain[0].name, "Pat Smith");
}

#[test]
fn import_is_idempotent() {
    let src = seeded();
    let dump = export(&src);

    let mut dst = Db::open_memory();
    import(&mut dst, &dump).unwrap();
    import(&mut dst, &dump).unwrap();

    let after = export(&dst);
    assert_eq!(after.people.len(), dump.people.len());
    assert_eq!(after.relationships.len(), dump.relationships.len());
}

#[test]
fn an_export_holds_everything() {
    let dump = export(&seeded());
    assert_eq!(dump.version, 1);
    assert_eq!(DUMP_VERSION, 1);
    assert_eq!(dump.people.len(), 7);
    assert_eq!(dump.people[0].name, "Dana Cruz");
    assert_eq!(dump.people[6].title.as_deref(), Some("SWE I"));
    let lines: Vec<_> = dump
        .relationships
        .iter()
        .map(|e| (e.id, e.from_id, e.to_id))
        .collect();
    assert_eq!(
        lines,
        vec![(1, 2, 1), (2, 3, 1), (3, 5, 4), (4, 6, 4), (5, 7, 4)]
    );
    let copy = dump.clone();
    assert_eq!(copy.version, dump.version);
    assert_eq!(copy.people, dump.people);
    assert_eq!(copy.relationships, dump.relationships);
}

fn edge(id: i64, from_id: i64, to_id: i64, kind: &str) -> Relationship {
    Relationship {
        id,
        from_id,
        to_id,
        kind: kind.to_string(),
        notes: None,
        confidence: Confidence::Double {
            bits: 0.5f64.to_bits(),
        },
        source: "imported".to_string(),
        created_at: "t".to_string(),
    }
}

#[test]
fn a_person_that_comes_in_replaces_row_and_edges() {
    let mut db = seeded();
    let mut pat = get_person(&db, 4).unwrap();
    pat.name = "Patricia Smith".to_string();
    let dump = OrgDump {
        version: 1,
        people: vec![pat.clone()],
        relationships: vec![],
    };
    import(&mut db, &dump).unwrap();
    assert_eq!(get_person(&db, 4), Some(pat));
    assert_eq!(db.people().len(), 7);
    let left: Vec<_> = db.relationships().iter().map(|e| e.id).collect();
    assert_eq!(left, vec![1, 2]);
}

#[test]
fn an_edge_that_comes_in_replaces_what_it_clashes_with() {
    let mut db = seeded();
    let dump = OrgDump {
        version: 1,
        people: vec![],
        relationships: vec![edge(1, 5, 4, "reports_to"), edge(9, 6, 6, "mentors")],
    };
    import(&mut db, &dump).unwrap();
    let left: Vec<_> = db
        .relationships()
        .iter()
        .map(|e| (e.id, e.from_id, e.to_id))
        .collect();
    assert_eq!(
        left,
        vec![(1, 5, 4), (2, 3, 1), (4, 6, 4), (5, 7, 4), (9, 6, 6)]
    );
    assert_eq!(db.relationships()[0].source, "imported");
}

#[test]
fn an_edge_to_nobody_stops_the_import_where_it_is() {
    let mut db = Db::open_memory();
    let mut dump = export(&seeded());
    dump.relationships
        .insert(2, edge(20, 5, 99, "reports_to"));
    assert_eq!(
        import(&mut db, &dump),
        Err(OrgError::Db(
            "SQLite failure: `FOREIGN KEY constraint failed`".to_string()
        ))
    );
    assert_eq!(db.people().len(), 7);
    let ids: Vec<_> = db.relationships().iter().map(|e| e.id).collect();
    assert_eq!(ids, vec![1, 2]);
    assert!(import(&mut db, &dump).is_err());
    assert_eq!(db.relationships().len(), 2);
}

#[test]
fn the_last_of_two_rows_with_one_id_stays() {
    let mut db = Db::open_memory();
    let mut dump = export(&seeded());
    let mut twin = dump.people[0].clone();
    twin.name = "Dana Second".to_string();
    dump.people.push(twin);
    import(&mut db, &dump).unwrap();
    assert_eq!(get_person(&db, 1).unwrap().name, "Dana Second");
    assert_eq!(db.people().len(), 7);
    assert_eq!(db.relationships().len(), 5);
}

#[test]
fn importing_into_another_directory_keeps_the_dump_s_lines() {
    let dump = export(&seeded());
    let mut db = seeded();
    set_boss(&mut db, 5, 1).unwrap();
    relate(&mut db, RelateInput::manual(2, 7, "mentors")).unwrap();
    import(&mut db, &dump).unwrap();
    assert_eq!(chain_of_command(&db, 5)[0].name, "Pat Smith");
    assert_eq!(export(&db).relationships, dump.relationships);
}

#[test]
fn a_confidence_that_is_no_number_comes_in_as_certain() {
    let mut db = seeded();
    let mut odd = edge(9, 5, 6, "mentors");
    odd.confidence = Confidence::Double {
        bits: f64::NAN.to_bits(),
    };
    let dump = OrgDump {
        version: 1,
        people: vec![],
        relationships: vec![odd, edge(10, 6, 5, "mentors")],
    };
    import(&mut db, &dump).unwrap();
    let got: Vec<_> = db.relationships()[5..]
        .iter()
        .map(|e| (e.id, number(e.confidence)))
        .collect();
    assert_eq!(got, vec![(9, 1.0), (10, 0.5)]);
}

#[test]
fn a_dump_in_any_order_is_kept_row_by_row() {
    let mut dump = export(&seeded());
    dump.people.reverse();
    dump.relationships.reverse();
    let mut db = Db::open_memory();
    import(&mut db, &dump).unwrap();
    for p in &dump.people {
        assert_eq!(get_person(&db, p.id).as_ref(), Some(p));
    }
    for e in &dump.relationships {
        assert!(db.relationships().contains(e));
    }
}
