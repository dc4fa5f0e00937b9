//! The directory itself: its two tables, what always holds of them, and where
//! they are stored.
//!
//! A [`Db`] is the content of a directory in memory. Reading it from storage and
//! writing changes back is the caller's part; every rule about the content is here.

use crate::model::{self, Confidence, Person, Relationship, ONE_BITS};
use crate::model::{kind, source};
use crate::paths::{self, join};
use crate::tables::{self, find, Keyed, Record};
use crate::text::same_text;
use vstd::prelude::*;

verus! {

/// Where the database lives.
#[derive(Debug, PartialEq)]
pub enum Config {
    /// A local file, by its path.
    Local(String),
    /// Nowhere but in memory.
    Memory,
}

/// What a [`Config`] holds.
#[verifier::ext_equal]
pub enum ConfigView {
    Local(Seq<char>),
    Memory,
}

impl Clone for Config {
    fn clone(&self) -> (r: Config)
        ensures
            r == *self,
    {
        match self {
            Config::Local(path) => Config::Local(path.clone()),
            Config::Memory => Config::Memory,
        }
    }
}

impl View for Config {
    type V = ConfigView;

    open spec fn view(&self) -> ConfigView {
        match *self {
            Config::Local(path) => ConfigView::Local(path@),
            Config::Memory => ConfigView::Memory,
        }
    }
}

/// `~/.org/org.db`, or the same under the current directory where no home is known.
pub open spec fn default_path(home: Option<Seq<char>>) -> Seq<char> {
    let base = match home {
        Some(h) => h,
        None => "."@,
    };
    paths::joined(paths::joined(base, ".org"@), "org.db"@)
}

impl Config {
    /// The location of the database: an explicit path, else the one that the
    /// environment names, else the default path under the home directory.
    pub fn resolve(flag: Option<String>, env_path: Option<String>, home: Option<String>) -> (r:
        Config)
        ensures
            r@ == ConfigView::Local(
                match (flag, env_path) {
                    (Some(path), _) => path@,
                    (None, Some(path)) => path@,
                    (None, None) => default_path(home.deep_view()),
                },
            ),
    {
        if let Some(path) = flag {
            return Config::Local(path);
        }
        if let Some(path) = env_path {
            return Config::Local(path);
        }
        Config::Local(Config::default_path(home))
    }

    /// `~/.org/org.db`, or the same under the current directory where no home is known.
    fn default_path(home: Option<String>) -> (r: String)
        ensures
            r@ == default_path(home.deep_view()),
    {
        match home {
            Some(h) => join(join(h.as_str(), ".org").as_str(), "org.db"),
            None => join(join(".", ".org").as_str(), "org.db"),
        }
    }
}

impl Keyed for model::PersonRow {
    open spec fn key(self) -> i64 {
        self.id
    }
}

impl Keyed for model::EdgeRow {
    open spec fn key(self) -> i64 {
        self.id
    }
}

impl Record for Person {
    fn record_id(&self) -> (r: i64) {
        self.id
    }
}

impl Record for Relationship {
    fn record_id(&self) -> (r: i64) {
        self.id
    }
}

/// What a directory holds: people and edges, each in ascending order of their ids.
#[verifier::ext_equal]
pub struct Tables {
    pub people: Seq<model::PersonRow>,
    pub edges: Seq<model::EdgeRow>,
}

/// Whether two edges say the same thing of the same pair of people.
pub open spec fn same_pairing(a: model::EdgeRow, b: model::EdgeRow) -> bool {
    a.from_id == b.from_id && a.to_id == b.to_id && a.kind == b.kind
}

impl Tables {
    /// A directory of nobody.
    pub open spec fn empty() -> Tables {
        Tables { people: Seq::empty(), edges: Seq::empty() }
    }

    /// Whether both ends of every edge are people of the directory.
    pub open spec fn ends_exist(self) -> bool {
        forall|i: int|
            0 <= i < self.edges.len() ==> tables::has_id(
                self.people,
                (#[trigger] self.edges[i]).from_id,
            ) && tables::has_id(self.people, self.edges[i].to_id)
    }

    /// Whether no two edges say the same thing of the same pair of people.
    pub open spec fn pairings_differ(self) -> bool {
        forall|i: int, j: int|
            0 <= i < j < self.edges.len() ==> !same_pairing(
                #[trigger] self.edges[i],
                #[trigger] self.edges[j],
            )
    }

    /// Whether every confidence is a number; the storage layer holds no other.
    pub open spec fn confidences_count(self) -> bool {
        forall|i: int| 0 <= i < self.edges.len() ==> (#[trigger] self.edges[i]).confidence.number()
    }

    /// What always holds of a directory.
    pub open spec fn wf(self) -> bool {
        &&& tables::ids_ascend(self.people)
        &&& tables::ids_ascend(self.edges)
        &&& self.ends_exist()
        &&& self.pairings_differ()
        &&& self.confidences_count()
    }
}

/// What always holds of a directory, said of its rows as sets.
pub open spec fn rows_agree(t: Tables) -> bool {
    &&& tables::ids_ascend(t.people)
    &&& tables::ids_ascend(t.edges)
    &&& forall|e: model::EdgeRow| #[trigger]
        t.edges.contains(e) ==> tables::has_id(t.people, e.from_id) && tables::has_id(
            t.people,
            e.to_id,
        ) && e.confidence.number()
    &&& forall|x: model::EdgeRow, y: model::EdgeRow|
        #![trigger t.edges.contains(x), t.edges.contains(y)]
        t.edges.contains(x) && t.edges.contains(y) && same_pairing(x, y) ==> x == y
}

/// The two ways to say what always holds of a directory are the same.
pub proof fn wf_by_rows(t: Tables)
    ensures
        t.wf() <==> rows_agree(t),
{
    let edges = t.edges;
    if t.wf() {
        assert forall|x: model::EdgeRow, y: model::EdgeRow|
            #![trigger edges.contains(x), edges.contains(y)]
            edges.contains(x) && edges.contains(y) && same_pairing(x, y) implies x == y by {
            let i = choose|i: int| 0 <= i < edges.len() && edges[i] == x;
            let j = choose|j: int| 0 <= j < edges.len() && edges[j] == y;
            if i < j {
                assert(!same_pairing(edges[i], edges[j]));
            } else if j < i {
                assert(!same_pairing(edges[j], edges[i]));
            }
        }
    }
    if rows_agree(t) {
        assert forall|i: int| 0 <= i < edges.len() implies tables::has_id(
            t.people,
            (#[trigger] edges[i]).from_id,
        ) && tables::has_id(t.people, edges[i].to_id) && edges[i].confidence.number() by {
            assert(edges.contains(edges[i]));
        }
        assert forall|i: int, j: int| 0 <= i < j < edges.len() implies !same_pairing(
            #[trigger] edges[i],
            #[trigger] edges[j],
        ) by {
            assert(edges[i].key() < edges[j].key());
            assert(edges.contains(edges[i]) && edges.contains(edges[j]));
        }
    }
}

impl Tables {
    /// The directory with a person in place by id.
    pub open spec fn with_person(self, p: model::PersonRow) -> Tables {
        Tables { people: tables::put(self.people, p), edges: self.edges }
    }

    /// The directory with only the edges that pass.
    pub open spec fn with_edges(self, pass: spec_fn(model::EdgeRow) -> bool) -> Tables {
        Tables { people: self.people, edges: self.edges.filter(pass) }
    }

    /// The directory with an edge in place by id.
    pub open spec fn with_edge(self, e: model::EdgeRow) -> Tables {
        Tables { people: self.people, edges: tables::put(self.edges, e) }
    }

    /// The directory without a person and without every edge from or to them.
    pub open spec fn without_person(self, id: i64) -> Tables {
        Tables {
            people: self.people.filter(|p: model::PersonRow| p.id != id),
            edges: self.edges.filter(|e: model::EdgeRow| e.from_id != id && e.to_id != id),
        }
    }
}

/// Putting a person in place keeps what always holds.
pub proof fn with_person_wf(t: Tables, p: model::PersonRow)
    requires
        t.wf(),
    ensures
        t.with_person(p).wf(),
        forall|id: i64| #[trigger]
            tables::has_id(t.with_person(p).people, id) <==> id == p.id || tables::has_id(
                t.people,
                id,
            ),
{
    wf_by_rows(t);
    let u = t.with_person(p);
    tables::put_keeps(t.people, p);
    assert forall|id: i64| #[trigger]
        tables::has_id(u.people, id) <==> id == p.id || tables::has_id(t.people, id) by {
        tables::row_after_put(t.people, p, id);
        tables::row_found(t.people, id);
        tables::row_found(u.people, id);
    }
    wf_by_rows(u);
}

/// Dropping edges keeps what always holds.
pub proof fn with_edges_wf(t: Tables, pass: spec_fn(model::EdgeRow) -> bool)
    requires
        t.wf(),
    ensures
        t.with_edges(pass).wf(),
{
    wf_by_rows(t);
    tables::filter_keeps(t.edges, pass);
    wf_by_rows(t.with_edges(pass));
}

/// Putting an edge in place keeps what always holds, if both ends exist, no other edge
/// says the same of that pair, and its confidence is a number.
pub proof fn with_edge_wf(t: Tables, e: model::EdgeRow)
    requires
        t.wf(),
        tables::has_id(t.people, e.from_id),
        tables::has_id(t.people, e.to_id),
        forall|x: model::EdgeRow|
            #[trigger] t.edges.contains(x) && same_pairing(x, e) ==> x.id == e.id,
        e.confidence.number(),
    ensures
        t.with_edge(e).wf(),
{
    wf_by_rows(t);
    tables::put_keeps(t.edges, e);
    wf_by_rows(t.with_edge(e));
}

/// Removing a person together with their edges keeps what always holds.
pub proof fn without_person_wf(t: Tables, id: i64)
    requires
        t.wf(),
    ensures
        t.without_person(id).wf(),
{
    wf_by_rows(t);
    let u = t.without_person(id);
    let other = |p: model::PersonRow| p.id != id;
    tables::filter_keeps(t.people, other);
    tables::filter_keeps(t.edges, |e: model::EdgeRow| e.from_id != id && e.to_id != id);
    assert forall|x: i64| tables::has_id(t.people, x) && x != id implies #[trigger] tables::has_id(
        u.people,
        x,
    ) by {
        tables::row_after_filter(t.people, other, x);
        tables::row_found(t.people, x);
        tables::row_found(u.people, x);
    }
    wf_by_rows(u);
}

/// A directory.
pub struct Db {
    people: Vec<Person>,
    relationships: Vec<Relationship>,
}

impl View for Db {
    type V = Tables;

    closed spec fn view(&self) -> Tables {
        Tables {
            people: tables::rows(self.people@),
            edges: tables::rows(self.relationships@),
        }
    }
}

impl Db {
    #[verifier::type_invariant]
    spec fn inv(self) -> bool {
        self@.wf()
    }

    /// A fresh directory, with nobody in it.
    pub fn open_memory() -> (r: Db)
        ensures
            r@ == Tables::empty(),
    {
        let r = Db { people: Vec::new(), relationships: Vec::new() };
        assert(r@.people =~= Tables::empty().people);
        assert(r@.edges =~= Tables::empty().edges);
        r
    }

    /// The directory with the given rows, if what always holds of one holds of them.
    pub fn from_rows(people: Vec<Person>, relationships: Vec<Relationship>) -> (r: Option<Db>)
        ensures
            ({
                let t = Tables {
                    people: tables::rows(people@),
                    edges: tables::rows(relationships@),
                };
                match r {
                    Some(db) => t.wf() && db@ == t,
                    None => !t.wf(),
                }
            }),
    {
        if rows_fit(&people, &relationships) {
            Some(Db { people, relationships })
        } else {
            None
        }
    }

    /// The people, by ascending id.
    pub fn people(&self) -> (r: &Vec<Person>)
        ensures
            tables::rows(r@) == self@.people,
            self@.wf(),
    {
        proof {
            use_type_invariant(self);
        }
        &self.people
    }

    /// The edges, by ascending id.
    pub fn relationships(&self) -> (r: &Vec<Relationship>)
        ensures
            tables::rows(r@) == self@.edges,
            self@.wf(),
    {
        proof {
            use_type_invariant(self);
        }
        &self.relationships
    }

    /// A directory of rows that are known to fit.
    pub(crate) fn assemble(people: Vec<Person>, relationships: Vec<Relationship>) -> (r: Db)
        requires
            (Tables {
                people: tables::rows(people@),
                edges: tables::rows(relationships@),
            }).wf(),
        ensures
            r@.people == tables::rows(people@),
            r@.edges == tables::rows(relationships@),
    {
        Db { people, relationships }
    }

    /// Takes the rows out, leaving an empty directory behind.
    pub(crate) fn take_rows(&mut self) -> (r: (Vec<Person>, Vec<Relationship>))
        ensures
            tables::rows(r.0@) == old(self)@.people,
            tables::rows(r.1@) == old(self)@.edges,
            old(self)@.wf(),
            final(self)@ == Tables::empty(),
    {
        proof {
            use_type_invariant(&*self);
        }
        let mut other = Db::open_memory();
        core::mem::swap(self, &mut other);
        let Db { people, relationships } = other;
        (people, relationships)
    }
}

/// A person of the seed data.
pub open spec fn seed_person(
    id: i64,
    name: Seq<char>,
    team: Seq<char>,
    title: Seq<char>,
) -> model::PersonRow {
    model::PersonRow {
        id,
        name,
        team: Some(team),
        title: Some(title),
        notes: None,
        created_at: "2026-01-01"@,
        updated_at: "2026-01-01"@,
    }
}

/// A reporting line of the seed data.
pub open spec fn seed_line(id: i64, from_id: i64, to_id: i64) -> model::EdgeRow {
    model::EdgeRow {
        id,
        from_id,
        to_id,
        kind: kind::REPORTS_TO@,
        notes: None,
        confidence: Confidence::Double { bits: ONE_BITS },
        source: source::MANUAL@,
        created_at: "2026-01-01"@,
    }
}

/// The seed data: two teams of seven people in all, and who reports to whom.
pub open spec fn seed() -> Tables {
    Tables {
        people: seq![
            seed_person(1, "Dana Cruz"@, "Marketing Delivery Tracking"@, "Director"@),
            seed_person(2, "Tom West"@, "Marketing Delivery Tracking"@, "Analyst"@),
            seed_person(3, "Ana Ruiz"@, "Marketing Delivery Tracking"@, "Analyst II"@),
            seed_person(4, "Pat Smith"@, "IDS Fulfillment"@, "Engineering Manager"@),
            seed_person(5, "Trent Rush"@, "IDS Fulfillment"@, "Sr Engineer"@),
            seed_person(6, "Jane Doe"@, "IDS Fulfillment"@, "SWE II"@),
            seed_person(7, "Mike Chen"@, "IDS Fulfillment"@, "SWE I"@),
        ],
        edges: seq![
            seed_line(1, 2, 1),
            seed_line(2, 3, 1),
            seed_line(3, 5, 4),
            seed_line(4, 6, 4),
            seed_line(5, 7, 4),
        ],
    }
}

/// The seed data makes a directory.
proof fn seed_wf()
    ensures
        seed().wf(),
{
    let people = seed().people;
    assert(people[0].key() == 1);
    assert(people[1].key() == 2);
    assert(people[2].key() == 3);
    assert(people[3].key() == 4);
    assert(people[4].key() == 5);
    assert(people[5].key() == 6);
    assert(people[6].key() == 7);
    assert(forall|id: i64| 1 <= id <= 7 ==> #[trigger] tables::has_id(people, id));
}

/// Adds a person of the seed data.
fn push_seed_person(people: &mut Vec<Person>, id: i64, name: &str, team: &str, title: &str)
    ensures
        tables::rows(final(people)@) == tables::rows(old(people)@).push(
            seed_person(id, name@, team@, title@),
        ),
{
    people.push(
        Person {
            id,
            name: name.to_owned(),
            team: Some(team.to_owned()),
            title: Some(title.to_owned()),
            notes: None,
            created_at: "2026-01-01".to_owned(),
            updated_at: "2026-01-01".to_owned(),
        },
    );
    assert(tables::rows(people@) =~= tables::rows(old(people)@).push(
        seed_person(id, name@, team@, title@),
    ));
}

/// Adds a reporting line of the seed data.
fn push_seed_line(edges: &mut Vec<Relationship>, id: i64, from_id: i64, to_id: i64)
    ensures
        tables::rows(final(edges)@) == tables::rows(old(edges)@).push(
            seed_line(id, from_id, to_id),
        ),
{
    edges.push(
        Relationship {
            id,
            from_id,
            to_id,
            kind: kind::REPORTS_TO.to_owned(),
            notes: None,
            confidence: Confidence::Double { bits: ONE_BITS },
            source: source::MANUAL.to_owned(),
            created_at: "2026-01-01".to_owned(),
        },
    );
    assert(tables::rows(edges@) =~= tables::rows(old(edges)@).push(
        seed_line(id, from_id, to_id),
    ));
}

impl Db {
    /// Loads the seed data, unless there is anybody in the directory already.
    pub fn load_seed(&mut self)
        ensures
            final(self)@ == if old(self)@.people.len() > 0 {
                old(self)@
            } else {
                seed()
            },
    {
        if self.people().len() > 0 {
            return ;
        }
        let mdt = "Marketing Delivery Tracking";
        let ids = "IDS Fulfillment";
        let mut people: Vec<Person> = Vec::new();
        push_seed_person(&mut people, 1, "Dana Cruz", mdt, "Director");
        push_seed_person(&mut people, 2, "Tom West", mdt, "Analyst");
        push_seed_person(&mut people, 3, "Ana Ruiz", mdt, "Analyst II");
        push_seed_person(&mut people, 4, "Pat Smith", ids, "Engineering Manager");
        push_seed_person(&mut people, 5, "Trent Rush", ids, "Sr Engineer");
        push_seed_person(&mut people, 6, "Jane Doe", ids, "SWE II");
        push_seed_person(&mut people, 7, "Mike Chen", ids, "SWE I");
        let mut lines: Vec<Relationship> = Vec::new();
        push_seed_line(&mut lines, 1, 2, 1);
        push_seed_line(&mut lines, 2, 3, 1);
        push_seed_line(&mut lines, 3, 5, 4);
        push_seed_line(&mut lines, 4, 6, 4);
        push_seed_line(&mut lines, 5, 7, 4);
        proof {
            assert(tables::rows(people@) =~= seed().people);
            assert(tables::rows(lines@) =~= seed().edges);
            seed_wf();
        }
        *self = Db::assemble(people, lines);
    }
}

/// Whether a directory may hold these rows.
fn rows_fit(people: &Vec<Person>, relationships: &Vec<Relationship>) -> (r: bool)
    ensures
        r == (Tables {
            people: tables::rows(people@),
            edges: tables::rows(relationships@),
        }).wf(),
{
    let ghost t = Tables { people: tables::rows(people@), edges: tables::rows(relationships@) };
    if !ascending(people) || !ascending(relationships) {
        return false;
    }
    let mut j: usize = 0;
    while j < relationships.len()
        invariant
            t.people == tables::rows(people@),
            t.edges == tables::rows(relationships@),
            tables::ids_ascend(t.people),
            j <= relationships@.len(),
            forall|i: int|
                0 <= i < j ==> tables::has_id(t.people, (#[trigger] t.edges[i]).from_id)
                    && tables::has_id(t.people, t.edges[i].to_id) && t.edges[i].confidence.number(),
            forall|a: int, b: int|
                0 <= a < b < j ==> !same_pairing(#[trigger] t.edges[a], #[trigger] t.edges[b]),
        decreases relationships@.len() - j,
    {
        let e = &relationships[j];
        assert(t.edges[j as int] == e@);
        if find(people, e.from_id).is_none() || find(people, e.to_id).is_none() {
            return false;
        }
        if !e.confidence.is_number() {
            return false;
        }
        let mut i: usize = 0;
        while i < j
            invariant
                t.edges == tables::rows(relationships@),
                i <= j < relationships@.len(),
                e@ == t.edges[j as int],
                forall|a: int| 0 <= a < i ==> !same_pairing(#[trigger] t.edges[a], e@),
            decreases j - i,
        {
            let d = &relationships[i];
            assert(t.edges[i as int] == d@);
            if d.from_id == e.from_id && d.to_id == e.to_id && same_text(
                d.kind.as_str(),
                e.kind.as_str(),
            ) {
                assert(same_pairing(t.edges[i as int], t.edges[j as int]));
                return false;
            }
            i = i + 1;
        }
        j = j + 1;
    }
    true
}

/// Whether the ids ascend.
fn ascending<T: Record>(v: &Vec<T>) -> (r: bool) where <T as View>::V: Keyed
    ensures
        r == tables::ids_ascend(tables::rows(v@)),
{
    let ghost s = tables::rows(v@);
    let mut k: usize = 1;
    while k < v.len()
        invariant
            s == tables::rows(v@),
            1 <= k,
            forall|i: int, j: int|
                0 <= i < j < k && j < s.len() ==> (#[trigger] s[i]).key() < (#[trigger] s[j]).key(),
        decreases v@.len() - k,
    {
        if v[k - 1].record_id() >= v[k].record_id() {
            assert(s[k - 1].key() >= s[k as int].key());
            return false;
        }
        assert(s[k - 1].key() < s[k as int].key());
        k = k + 1;
    }
    true
}

} // verus!
