//! Fuzzy search across people, and finding the one person a selector means.
//!
//! A person matches in one of two ways: the query stands somewhere in a field,
//! whatever its case, or it is a few typos away from a word of the name, the team or
//! the title. Results rank by where the match landed: name, then team, then title,
//! then notes.

use crate::db::Db;
use crate::distance;
use crate::model::{self, Person};
use crate::order::{self, sort, Ranked};
use crate::people::{self, get_person, list_people};
use crate::tables;
use crate::text::{
    self, chars_of, contains_text, le_text, same_text, string_of, trim, words_at, WordClass,
};
use vstd::prelude::*;
use vstd::string::*;

verus! {

/// The lowercase form of a text, by the Unicode rules that std follows.
pub uninterp spec fn lowercase(s: Seq<char>) -> Seq<char>;

/// `str::to_lowercase` of std. What Unicode says of each character, and of a final
/// sigma, is not written out; the result is only said to depend on the text alone.
pub assume_specification[ str::to_lowercase ](s: &str) -> (r: String)
    ensures
        r@ == lowercase(s@),
;

/// A person and how strongly they matched. A higher `score` ranks first.
#[derive(Debug)]
pub struct SearchHit {
    pub person: Person,
    /// Says in which field the match landed; only for ordering. Ties go by name.
    pub score: i32,
}

/// What a [`SearchHit`] holds.
#[verifier::ext_equal]
pub struct HitRow {
    pub person: model::PersonRow,
    pub score: i32,
}

impl View for SearchHit {
    type V = HitRow;

    open spec fn view(&self) -> HitRow {
        HitRow { person: self.person@, score: self.score }
    }
}

impl Clone for SearchHit {
    fn clone(&self) -> (r: SearchHit)
        ensures
            r == *self,
    {
        SearchHit { person: self.person.clone(), score: self.score }
    }
}

/// What a match in the name is worth. The weights lie so far apart that a bonus
/// never lets a weaker field overtake a stronger one.
pub const W_NAME: i32 = 1000;

/// What a match in the team is worth.
pub const W_TEAM: i32 = 100;

/// What a match in the title is worth.
pub const W_TITLE: i32 = 10;

/// What a match in the notes is worth.
pub const W_NOTES: i32 = 1;

/// What it adds that the query stands in the field as it is.
pub const SUBSTRING_BONUS: i32 = 5;

/// How many typos are tolerated in a query of `n` characters: none in a very short
/// one, which would match too much, then more with its length, at most three.
pub open spec fn typos_tolerated(n: nat) -> nat {
    if n <= 2 {
        0
    } else if n <= 4 {
        1
    } else if n <= 8 {
        2
    } else {
        3
    }
}

/// How many typos are tolerated in a query.
pub fn typo_budget(query: &str) -> (r: usize)
    ensures
        r == typos_tolerated(query@.len()),
{
    let n: usize = query.unicode_len();
    if n <= 2 {
        0
    } else if n <= 4 {
        1
    } else if n <= 8 {
        2
    } else {
        3
    }
}

/// Whether a word of the text is at most `budget` edits away from `q`. Words are
/// set apart by white space.
pub open spec fn near_word(text: Seq<char>, q: Seq<char>, budget: nat) -> bool {
    exists|i: int, j: int| #[trigger]
        text::is_word_at(text, WordClass::NonWhite, i, j) && distance::edit_distance(text.subrange(i, j), q)
            <= budget
}

/// What a lowercase field adds to its weight if `q` matches it: the bonus if `q`
/// stands in it, nothing if only a word of it is near.
pub open spec fn bonus(lower: Seq<char>, q: Seq<char>, budget: nat) -> Option<i32> {
    if text::occurs(q, lower) {
        Some(SUBSTRING_BONUS)
    } else if budget > 0 && near_word(lower, q, budget) {
        Some(0i32)
    } else {
        None
    }
}

/// What a lowercase field adds to its weight if `q` matches it; see [`field_match`].
pub fn field_match_lowered(lower: &str, q: &str, budget: usize) -> (r: Option<i32>)
    ensures
        r == bonus(lower@, q@, budget as nat),
{
    if contains_text(lower, q) {
        return Some(SUBSTRING_BONUS);
    }
    if budget > 0 {
        let cs = chars_of(lower);
        let words = words_at(&cs, WordClass::NonWhite);
        let mut k: usize = 0;
        while k < words.len()
            invariant
                cs@ == lower@,
                budget > 0,
                !text::occurs(q@, lower@),
                k <= words@.len(),
                forall|m: int|
                    0 <= m < words@.len() ==> text::is_word_at(
                        cs@,
                        WordClass::NonWhite,
                        (#[trigger] words@[m]).0 as int,
                        words@[m].1 as int,
                    ),
                forall|m: int|
                    0 <= m < k ==> distance::edit_distance(
                        lower@.subrange((#[trigger] words@[m]).0 as int, words@[m].1 as int),
                        q@,
                    ) > budget,
            decreases words@.len() - k,
        {
            let (from, to) = words[k];
            assert(text::is_word_at(
                cs@,
                WordClass::NonWhite,
                words@[k as int].0 as int,
                words@[k as int].1 as int,
            ));
            let word = string_of(&cs, from, to);
            if strsim::levenshtein(word.as_str(), q) <= budget {
                return Some(0);
            }
            k = k + 1;
        }
        proof {
            if near_word(lower@, q@, budget as nat) {
                let (i, j) = choose|i: int, j: int| #[trigger]
                    text::is_word_at(lower@, WordClass::NonWhite, i, j) && distance::edit_distance(
                        lower@.subrange(i, j),
                        q@,
                    ) <= budget;
                assert(text::is_word_at(
                    cs@,
                    WordClass::NonWhite,
                    (i as usize) as int,
                    (j as usize) as int,
                ));
                assert(words@.contains((i as usize, j as usize)));
                let m = choose|m: int|
                    0 <= m < words@.len() && words@[m] == (i as usize, j as usize);
                assert(words@[m].0 == i && words@[m].1 == j);
            }
        }
    }
    None
}

/// What a field adds to its weight if the lowercase query `q` matches it, whatever
/// the field's case: a bonus if `q` stands in it, nothing if only a word of it is at
/// most `budget` typos away.
pub fn field_match(text: &str, q: &str, budget: usize) -> (r: Option<i32>)
    ensures
        r == bonus(lowercase(text@), q@, budget as nat),
{
    let lower = text.to_lowercase();
    field_match_lowered(lower.as_str(), q, budget)
}

/// The texts of a person that a search looks at, in lowercase.
#[derive(Debug)]
pub struct Fields {
    pub name: String,
    pub team: Option<String>,
    pub title: Option<String>,
    pub notes: Option<String>,
}

/// What a [`Fields`] holds.
#[verifier::ext_equal]
pub struct FieldsRow {
    pub name: Seq<char>,
    pub team: Option<Seq<char>>,
    pub title: Option<Seq<char>>,
    pub notes: Option<Seq<char>>,
}

impl View for Fields {
    type V = FieldsRow;

    open spec fn view(&self) -> FieldsRow {
        FieldsRow {
            name: self.name@,
            team: self.team.deep_view(),
            title: self.title.deep_view(),
            notes: self.notes.deep_view(),
        }
    }
}

/// The lowercase form of a text, if there is one.
pub open spec fn opt_lowercase(s: Option<Seq<char>>) -> Option<Seq<char>> {
    match s {
        Some(t) => Some(lowercase(t)),
        None => None,
    }
}

/// The texts of a person that a search looks at.
pub open spec fn lowered(p: model::PersonRow) -> FieldsRow {
    FieldsRow {
        name: lowercase(p.name),
        team: opt_lowercase(p.team),
        title: opt_lowercase(p.title),
        notes: opt_lowercase(p.notes),
    }
}

/// The lowercase form of a text, if there is one.
fn lower_option(s: &Option<String>) -> (r: Option<String>)
    ensures
        r.deep_view() == opt_lowercase(s.deep_view()),
{
    match s {
        Some(t) => Some(t.as_str().to_lowercase()),
        None => None,
    }
}

impl Fields {
    /// The texts of a person that a search looks at.
    pub fn of(p: &Person) -> (r: Fields)
        ensures
            r@ == lowered(p@),
    {
        Fields {
            name: p.name.as_str().to_lowercase(),
            team: lower_option(&p.team),
            title: lower_option(&p.title),
            notes: lower_option(&p.notes),
        }
    }
}

/// What a field that may be missing adds to its weight if `q` matches it.
pub open spec fn opt_bonus(field: Option<Seq<char>>, q: Seq<char>, budget: nat) -> Option<i32> {
    match field {
        Some(t) => bonus(t, q, budget),
        None => None,
    }
}

/// The score of a person: the weight of the strongest field that matches, and its
/// bonus. No typo is tolerated in the notes, since something in a long text is
/// always near.
pub open spec fn score(f: FieldsRow, q: Seq<char>, budget: nat) -> Option<i32> {
    if let Some(b) = bonus(f.name, q, budget) {
        Some((W_NAME + b) as i32)
    } else if let Some(b) = opt_bonus(f.team, q, budget) {
        Some((W_TEAM + b) as i32)
    } else if let Some(b) = opt_bonus(f.title, q, budget) {
        Some((W_TITLE + b) as i32)
    } else if let Some(b) = opt_bonus(f.notes, q, 0) {
        Some((W_NOTES + b) as i32)
    } else {
        None
    }
}

/// What a field that may be missing adds to its weight if `q` matches it.
fn match_option(field: &Option<String>, q: &str, budget: usize) -> (r: Option<i32>)
    ensures
        r == opt_bonus(field.deep_view(), q@, budget as nat),
{
    match field {
        Some(t) => field_match_lowered(t.as_str(), q, budget),
        None => None,
    }
}

/// The better of a score so far and a field's weight and bonus.
fn better(best: Option<i32>, weight: i32, bonus: Option<i32>) -> (r: Option<i32>)
    requires
        0 <= weight <= W_NAME,
        bonus matches Some(b) ==> 0 <= b <= SUBSTRING_BONUS,
    ensures
        r == (match (best, bonus) {
            (_, None) => best,
            (None, Some(b)) => Some((weight + b) as i32),
            (Some(s), Some(b)) => Some(
                if s >= weight + b {
                    s
                } else {
                    (weight + b) as i32
                },
            ),
        }),
{
    match bonus {
        None => best,
        Some(b) => {
            let s: i32 = weight + b;
            match best {
                Some(t) => if t >= s {
                    Some(t)
                } else {
                    Some(s)
                },
                None => Some(s),
            }
        },
    }
}

/// The score of a person whose lowercase fields are given; see [`score_person`].
pub fn score_fields(f: &Fields, q: &str, budget: usize) -> (r: Option<i32>)
    ensures
        r == score(f@, q@, budget as nat),
{
    let best = better(None, W_NAME, field_match_lowered(f.name.as_str(), q, budget));
    let best = better(best, W_TEAM, match_option(&f.team, q, budget));
    let best = better(best, W_TITLE, match_option(&f.title, q, budget));
    better(best, W_NOTES, match_option(&f.notes, q, 0))
}

/// The score of a person for a lowercase query, or `None` if no field matches. Only
/// the strongest field counts, so the ranking says where the best match landed.
pub fn score_person(person: &Person, q: &str, budget: usize) -> (r: Option<i32>)
    ensures
        r == score(lowered(person@), q@, budget as nat),
{
    score_fields(&Fields::of(person), q, budget)
}

impl Ranked for SearchHit {
    open spec fn before(a: HitRow, b: HitRow) -> bool {
        if a.score != b.score {
            a.score > b.score
        } else {
            text::text_le(a.person.name, b.person.name)
        }
    }

    fn may_precede(&self, other: &SearchHit) -> (r: bool) {
        if self.score != other.score {
            self.score > other.score
        } else {
            le_text(self.person.name.as_str(), other.person.name.as_str())
        }
    }
}

/// The order of search results: higher score first, then by name.
pub open spec fn hit_order() -> spec_fn(HitRow, HitRow) -> bool {
    |a: HitRow, b: HitRow| SearchHit::before(a, b)
}

/// The score of a person in a search for the lowercase query `q`. Everyone matches
/// the empty query, with no score.
pub open spec fn hit_score(f: FieldsRow, q: Seq<char>) -> Option<i32> {
    if q.len() == 0 {
        Some(0i32)
    } else {
        score(f, q, typos_tolerated(q.len()))
    }
}

/// Those of the people who match, with their scores, in the order they have.
pub open spec fn matched(
    people: Seq<model::PersonRow>,
    fields: Seq<FieldsRow>,
    q: Seq<char>,
) -> Seq<HitRow>
    decreases people.len(),
{
    if people.len() == 0 {
        Seq::empty()
    } else {
        let rest = matched(people.drop_last(), fields.drop_last(), q);
        match hit_score(fields.last(), q) {
            Some(score) => rest.push(HitRow { person: people.last(), score }),
            None => rest,
        }
    }
}

/// Those of the people who match the lowercase query `q`, strongest first and then
/// by name. `fields` are the lowercase fields of the people, in the same order.
pub fn rank_matches(people: &Vec<Person>, fields: &Vec<Fields>, q: &str) -> (r: Vec<SearchHit>)
    requires
        people@.len() == fields@.len(),
    ensures
        tables::rows(r@) == order::in_order(
            matched(tables::rows(people@), tables::rows(fields@), q@),
            hit_order(),
        ),
{
    let ghost ps = tables::rows(people@);
    let ghost fs = tables::rows(fields@);
    let empty: bool = q.unicode_len() == 0;
    let budget = typo_budget(q);
    let mut hits: Vec<SearchHit> = Vec::new();
    let mut k: usize = 0;
    assert(tables::rows(hits@) =~= matched(ps.take(0), fs.take(0), q@));
    while k < people.len()
        invariant
            people@.len() == fields@.len(),
            ps == tables::rows(people@),
            fs == tables::rows(fields@),
            empty == (q@.len() == 0),
            budget == typos_tolerated(q@.len()),
            k <= people@.len(),
            tables::rows(hits@) == matched(ps.take(k as int), fs.take(k as int), q@),
        decreases people@.len() - k,
    {
        let found: Option<i32> = if empty {
            Some(0)
        } else {
            score_fields(&fields[k], q, budget)
        };
        proof {
            assert(ps.take(k + 1).drop_last() =~= ps.take(k as int));
            assert(fs.take(k + 1).drop_last() =~= fs.take(k as int));
            assert(ps.take(k + 1).last() == people@[k as int]@);
            assert(fs.take(k + 1).last() == fields@[k as int]@);
        }
        let ghost before = hits@;
        if let Some(score) = found {
            hits.push(SearchHit { person: people[k].clone(), score });
            assert(tables::rows(hits@) =~= tables::rows(before).push(
                HitRow { person: people@[k as int]@, score },
            ));
        }
        k = k + 1;
    }
    assert(ps.take(k as int) =~= ps);
    assert(fs.take(k as int) =~= fs);
    sort(&mut hits);
    hits
}

/// The results of a search for the lowercase query `q`.
pub open spec fn results(people: Seq<model::PersonRow>, q: Seq<char>) -> Seq<HitRow> {
    let listed = people::listing(people, None);
    order::in_order(
        matched(listed, listed.map_values(|p: model::PersonRow| lowered(p)), q),
        hit_order(),
    )
}

/// The query as it is searched for: in lowercase, without white space at its ends.
pub open spec fn search_query(query: Seq<char>) -> Seq<char> {
    if text::trimmed(query).len() == 0 {
        Seq::empty()
    } else {
        lowercase(text::trimmed(query))
    }
}

/// Fuzzy search, whatever the case of the query. An empty query, or one of nothing but
/// white space, gives everyone, by name.
pub fn fuzzy_search(db: &Db, query: &str) -> (r: Vec<SearchHit>)
    ensures
        tables::rows(r@) == results(db@.people, search_query(query@)),
{
    let people = list_people(db, None);
    let trimmed = trim(query);
    let q: String = if trimmed.as_str().unicode_len() == 0 {
        String::new()
    } else {
        trimmed.as_str().to_lowercase()
    };
    assert(q@ =~= search_query(query@));
    let ghost listed = people::listing(db@.people, None);
    let ghost lowers = listed.map_values(|p: model::PersonRow| lowered(p));
    let mut fields: Vec<Fields> = Vec::new();
    let mut k: usize = 0;
    while k < people.len()
        invariant
            listed == tables::rows(people@),
            lowers == listed.map_values(|p: model::PersonRow| lowered(p)),
            k <= people@.len(),
            fields@.len() == k,
            forall|i: int| 0 <= i < k ==> (#[trigger] fields@[i])@ == lowers[i],
        decreases people@.len() - k,
    {
        fields.push(Fields::of(&people[k]));
        k = k + 1;
    }
    assert(tables::rows(fields@) =~= lowers);
    rank_matches(&people, &fields, q.as_str())
}

/// Any two results can be ordered, and the order is transitive.
pub proof fn hit_order_is_preorder()
    ensures
        order::is_preorder(hit_order()),
{
    let le = hit_order();
    assert forall|a: HitRow, b: HitRow| #[trigger] le(a, b) || le(b, a) by {
        text::text_le_total(a.person.name, b.person.name);
    }
    assert forall|a: HitRow, b: HitRow, c: HitRow|
        #[trigger] le(a, b) && #[trigger] le(b, c) implies le(a, c) by {
        if a.score == b.score && b.score == c.score {
            text::text_le_transitive(a.person.name, b.person.name, c.person.name);
        }
    }
}

pub(crate) proof fn matched_facts(people: Seq<model::PersonRow>, q: Seq<char>)
    ensures
        ({
            let fields = people.map_values(|p: model::PersonRow| lowered(p));
            &&& forall|h: HitRow| #[trigger]
                matched(people, fields, q).contains(h) <==> people.contains(h.person) && hit_score(
                    lowered(h.person),
                    q,
                ) == Some(h.score)
            &&& people.no_duplicates() ==> matched(people, fields, q).no_duplicates()
            &&& q.len() == 0 ==> matched(people, fields, q).len() == people.len()
        }),
    decreases people.len(),
{
    let low = |p: model::PersonRow| lowered(p);
    let fields = people.map_values(low);
    let all = matched(people, fields, q);
    if people.len() > 0 {
        let last = people.last();
        let front = people.drop_last();
        let rest = matched(front, front.map_values(low), q);
        matched_facts(front, q);
        assert(fields.drop_last() =~= front.map_values(low));
        assert(fields.last() == lowered(last));
        assert forall|h: HitRow| #[trigger] all.contains(h) <==> people.contains(h.person)
            && hit_score(lowered(h.person), q) == Some(h.score) by {
            assert(rest.contains(h) <==> front.contains(h.person) && hit_score(
                lowered(h.person),
                q,
            ) == Some(h.score));
            if all.contains(h) {
                let k = choose|k: int| 0 <= k < all.len() && all[k] == h;
                if k < rest.len() {
                    assert(rest[k] == h);
                    let i = choose|i: int| 0 <= i < front.len() && front[i] == h.person;
                    assert(people[i] == h.person);
                } else {
                    assert(people[people.len() - 1] == h.person);
                }
            }
            if people.contains(h.person) && hit_score(lowered(h.person), q) == Some(h.score) {
                let i = choose|i: int| 0 <= i < people.len() && people[i] == h.person;
                if i < front.len() {
                    assert(front[i] == h.person);
                    let k = choose|k: int| 0 <= k < rest.len() && rest[k] == h;
                    assert(all[k] == h);
                } else {
                    assert(all[all.len() - 1] == h);
                }
            }
        }
        if people.no_duplicates() {
            assert(front.no_duplicates());
            if let Some(score) = hit_score(lowered(last), q) {
                let new = HitRow { person: last, score };
                assert(!rest.contains(new)) by {
                    if rest.contains(new) {
                        let i = choose|i: int| 0 <= i < front.len() && front[i] == last;
                        assert(people[i] == people[people.len() - 1]);
                    }
                }
                assert forall|i: int, j: int| 0 <= i < all.len() && 0 <= j < all.len() && i
                    != j implies all[i] != all[j] by {
                    if i == rest.len() {
                        assert(rest.contains(rest[j]));
                    } else if j == rest.len() {
                        assert(rest.contains(rest[i]));
                    }
                }
            }
        }
    }
}

/// A search finds exactly those who match, everyone once, and no result stands
/// behind one with a lower score or, with the same score, a later name.
pub proof fn search_finds_matches_in_order(people: Seq<model::PersonRow>, q: Seq<char>)
    requires
        tables::ids_ascend(people),
    ensures
        order::ordered(results(people, q), hit_order()),
        forall|h: HitRow| #[trigger]
            results(people, q).contains(h) <==> people.contains(h.person) && hit_score(
                lowered(h.person),
                q,
            ) == Some(h.score),
        results(people, q).no_duplicates(),
{
    let listed = people::listing(people, None);
    let found = matched(listed, listed.map_values(|p: model::PersonRow| lowered(p)), q);
    people::listing_is_the_team_in_order(people, None);
    matched_facts(listed, q);
    hit_order_is_preorder();
    order::in_order_sorts(found, hit_order());
    found.lemma_multiset_has_no_duplicates();
    results(people, q).lemma_multiset_has_no_duplicates_conv();
}

/// A query of nothing but white space, or of nothing at all, gives everyone, by name.
pub proof fn empty_query_gives_everyone_by_name(
    people: Seq<model::PersonRow>,
    query: Seq<char>,
)
    requires
        tables::ids_ascend(people),
        forall|i: int| 0 <= i < query.len() ==> text::is_white(#[trigger] query[i]),
    ensures
        ({
            let r = results(people, search_query(query));
            &&& r.len() == people.len()
            &&& forall|p: model::PersonRow| #[trigger]
                people.contains(p) <==> r.contains(HitRow { person: p, score: 0 })
            &&& forall|i: int, j: int|
                0 <= i < j < r.len() ==> text::text_le(
                    (#[trigger] r[i]).person.name,
                    (#[trigger] r[j]).person.name,
                )
        }),
{
    let none = Seq::<char>::empty();
    text::blank_trims_to_nothing(query);
    let r = results(people, none);
    search_finds_matches_in_order(people, none);
    let listed = people::listing(people, None);
    matched_facts(listed, none);
    hit_order_is_preorder();
    people::listing_order_is_preorder();
    order::in_order_sorts(
        matched(listed, listed.map_values(|p: model::PersonRow| lowered(p)), none),
        hit_order(),
    );
    let everyone = |p: model::PersonRow| people::on_team(p, None);
    tables::filter_is_prefix(people, everyone, people.len() as int);
    assert(people.take(people.len() as int) =~= people);
    order::in_order_sorts(people, people::listing_order());
    assert forall|p: model::PersonRow| #[trigger]
        people.contains(p) <==> r.contains(HitRow { person: p, score: 0 }) by {
        assert(hit_score(lowered(p), none) == Some(0i32));
    }
    assert forall|i: int, j: int| 0 <= i < j < r.len() implies text::text_le(
        (#[trigger] r[i]).person.name,
        (#[trigger] r[j]).person.name,
    ) by {
        assert(r.contains(r[i]) && r.contains(r[j]));
        assert(hit_order()(r[i], r[j]));
    }
}

/// A search does not tell queries apart that have the same lowercase form, nor
/// queries that differ in white space at their ends.
pub proof fn search_ignores_case_and_outer_space(
    people: Seq<model::PersonRow>,
    a: Seq<char>,
    b: Seq<char>,
)
    requires
        lowercase(text::trimmed(a)) == lowercase(text::trimmed(b)),
        text::trimmed(a).len() == 0 <==> text::trimmed(b).len() == 0,
    ensures
        results(people, search_query(a)) == results(people, search_query(b)),
{
}

/// The field in which a match landed: 4 for the name, 3 for the team, 2 for the
/// title, 1 for the notes, 0 for nowhere.
pub open spec fn landed(f: FieldsRow, q: Seq<char>, budget: nat) -> int {
    if bonus(f.name, q, budget) is Some {
        4
    } else if opt_bonus(f.team, q, budget) is Some {
        3
    } else if opt_bonus(f.title, q, budget) is Some {
        2
    } else if opt_bonus(f.notes, q, 0) is Some {
        1
    } else {
        0
    }
}

/// Where a match landed decides: one in a stronger field scores higher than any in a
/// weaker field, whether or not the query stands there as it is.
pub proof fn stronger_field_scores_higher(
    f: FieldsRow,
    g: FieldsRow,
    q: Seq<char>,
    budget: nat,
)
    requires
        landed(f, q, budget) > landed(g, q, budget),
    ensures
        score(f, q, budget) is Some,
        score(g, q, budget) matches Some(weaker) ==> weaker < score(f, q, budget)->0,
        score(g, q, budget) is None <==> landed(g, q, budget) == 0,
{
}

/// A query within the budget of a word of the name finds the person, as strongly as
/// any match in a name.
pub proof fn near_name_is_found(f: FieldsRow, q: Seq<char>, i: int, j: int)
    requires
        q.len() > 2,
        text::is_word_at(f.name, WordClass::NonWhite, i, j),
        distance::edit_distance(f.name.subrange(i, j), q) <= typos_tolerated(q.len()),
    ensures
        hit_score(f, q) matches Some(s) && s >= W_NAME,
{
    assert(near_word(f.name, q, typos_tolerated(q.len())));
}

/// Whom a selector means.
#[derive(Debug)]
pub enum Resolution {
    /// Exactly one person.
    One(Person),
    /// More than one person of that name, by ascending id.
    Ambiguous(Vec<Person>),
    /// Nobody.
    NotFound,
}

/// What a [`Resolution`] holds.
#[verifier::ext_equal]
pub enum ResolutionRow {
    One(model::PersonRow),
    Ambiguous(Seq<model::PersonRow>),
    NotFound,
}

impl View for Resolution {
    type V = ResolutionRow;

    open spec fn view(&self) -> ResolutionRow {
        match *self {
            Resolution::One(p) => ResolutionRow::One(p@),
            Resolution::Ambiguous(ps) => ResolutionRow::Ambiguous(tables::rows(ps@)),
            Resolution::NotFound => ResolutionRow::NotFound,
        }
    }
}

/// Whether a text is nothing but ASCII digits.
pub open spec fn all_digits(s: Seq<char>) -> bool {
    forall|i: int| 0 <= i < s.len() ==> '0' <= #[trigger] s[i] <= '9'
}

/// Whether a text is nothing but ASCII digits.
pub fn is_all_digits(s: &str) -> (r: bool)
    ensures
        r == all_digits(s@),
{
    let cs = chars_of(s);
    let mut k: usize = 0;
    while k < cs.len()
        invariant
            cs@ == s@,
            k <= cs@.len(),
            forall|i: int| 0 <= i < k ==> '0' <= #[trigger] s@[i] <= '9',
        decreases cs@.len() - k,
    {
        if cs[k] < '0' || '9' < cs[k] {
            assert(!('0' <= s@[k as int] <= '9'));
            return false;
        }
        k = k + 1;
    }
    true
}

/// The number that digits spell out.
pub open spec fn digits_value(s: Seq<char>) -> nat
    decreases s.len(),
{
    if s.len() == 0 {
        0
    } else {
        (10 * digits_value(s.drop_last()) + (s.last() as int - '0' as int)) as nat
    }
}

proof fn digits_value_grows(s: Seq<char>, k: int)
    requires
        all_digits(s),
        0 <= k <= s.len(),
    ensures
        digits_value(s.take(k)) <= digits_value(s),
    decreases s.len() - k,
{
    if k < s.len() {
        digits_value_grows(s, k + 1);
        assert(s.take(k + 1).drop_last() =~= s.take(k));
        assert('0' <= s[k]);
    } else {
        assert(s.take(k) =~= s);
    }
}

/// The id that a selector spells out, if it spells one out.
pub open spec fn selected_id(selector: Seq<char>) -> Option<i64> {
    if selector.len() > 0 && all_digits(selector) && digits_value(selector) <= i64::MAX {
        Some(digits_value(selector) as i64)
    } else {
        None
    }
}

/// The id that a selector spells out, if it spells one out.
fn parse_id(selector: &str) -> (r: Option<i64>)
    ensures
        r == selected_id(selector@),
{
    if !is_all_digits(selector) {
        return None;
    }
    let cs = chars_of(selector);
    if cs.len() == 0 {
        return None;
    }
    let mut n: i64 = 0;
    let mut k: usize = 0;
    assert(digits_value(selector@.take(0)) == 0);
    while k < cs.len()
        invariant
            cs@ == selector@,
            all_digits(selector@),
            k <= cs@.len(),
            0 <= n,
            n == digits_value(selector@.take(k as int)),
        decreases cs@.len() - k,
    {
        assert('0' <= selector@[k as int] <= '9');
        let d: i64 = (cs[k] as u32 - 48) as i64;
        proof {
            assert(selector@.take(k + 1).drop_last() =~= selector@.take(k as int));
            assert(selector@.take(k + 1).last() == selector@[k as int]);
            digits_value_grows(selector@, k + 1);
        }
        if n > (i64::MAX - d) / 10 {
            return None;
        }
        n = 10 * n + d;
        k = k + 1;
    }
    assert(selector@.take(k as int) =~= selector@);
    Some(n)
}

/// The people with exactly that name.
pub open spec fn namesakes(people: Seq<model::PersonRow>, name: Seq<char>) -> Seq<
    model::PersonRow,
> {
    people.filter(|p: model::PersonRow| p.name == name)
}

/// Whom a selector means: the person with that id if it is all digits, else whoever
/// has exactly that name.
pub open spec fn resolution(people: Seq<model::PersonRow>, selector: Seq<char>) -> ResolutionRow {
    if all_digits(selector) {
        match selected_id(selector) {
            Some(id) => match tables::row(people, id) {
                Some(p) => ResolutionRow::One(p),
                None => ResolutionRow::NotFound,
            },
            None => ResolutionRow::NotFound,
        }
    } else {
        let found = namesakes(people, selector);
        if found.len() == 0 {
            ResolutionRow::NotFound
        } else if found.len() == 1 {
            ResolutionRow::One(found[0])
        } else {
            ResolutionRow::Ambiguous(found)
        }
    }
}

/// Whom a selector means: the person with that id if it is all digits, else whoever
/// has exactly that name.
pub fn resolve_person(db: &Db, selector: &str) -> (r: Resolution)
    ensures
        r@ == resolution(db@.people, selector@),
{
    if is_all_digits(selector) {
        return match parse_id(selector) {
            Some(id) => match get_person(db, id) {
                Some(p) => Resolution::One(p),
                None => Resolution::NotFound,
            },
            None => Resolution::NotFound,
        };
    }
    let people = db.people();
    let ghost s = db@.people;
    let ghost named = |p: model::PersonRow| p.name == selector@;
    let mut found: Vec<Person> = Vec::new();
    let mut k: usize = 0;
    assert(tables::rows(found@) =~= s.take(0).filter(named)) by {
        reveal(Seq::filter);
    }
    while k < people.len()
        invariant
            s == tables::rows(people@),
            named == (|p: model::PersonRow| p.name == selector@),
            k <= people@.len(),
            tables::rows(found@) == s.take(k as int).filter(named),
        decreases people@.len() - k,
    {
        let p = &people[k];
        proof {
            reveal(Seq::filter);
            assert(s.take(k + 1).drop_last() =~= s.take(k as int));
            assert(s.take(k + 1).last() == p@);
        }
        let ghost before = found@;
        if same_text(p.name.as_str(), selector) {
            found.push(p.clone());
            assert(tables::rows(found@) =~= tables::rows(before).push(p@));
        }
        k = k + 1;
    }
    assert(s.take(k as int) =~= s);
    assert(tables::rows(found@) == namesakes(s, selector@));
    if found.len() == 0 {
        Resolution::NotFound
    } else if found.len() == 1 {
        let p = found.pop().unwrap();
        assert(p@ == namesakes(s, selector@)[0]);
        Resolution::One(p)
    } else {
        Resolution::Ambiguous(found)
    }
}

pub(crate) proof fn decimal_is_digits(n: nat)
    ensures
        text::decimal_nat(n).len() > 0,
        all_digits(text::decimal_nat(n)),
        digits_value(text::decimal_nat(n)) == n,
    decreases n,
{
    let s = text::decimal_nat(n);
    if n < 10 {
        assert(s.drop_last() =~= Seq::<char>::empty());
        assert(digits_value(s.drop_last()) == 0);
    } else {
        decimal_is_digits(n / 10);
        assert(s.drop_last() =~= text::decimal_nat(n / 10));
        assert forall|i: int| 0 <= i < s.len() implies '0' <= #[trigger] s[i] <= '9' by {
            if i < s.len() - 1 {
                assert(s[i] == text::decimal_nat(n / 10)[i]);
            }
        }
    }
}

/// An id in decimal notation, as every listing shows it, selects whoever has it, even
/// where several people have the same name.
pub proof fn shown_id_selects_its_person(people: Seq<model::PersonRow>, id: i64)
    requires
        id >= 0,
        tables::has_id(people, id),
    ensures
        resolution(people, text::decimal(id as int)) == ResolutionRow::One(
            tables::row(people, id)->0,
        ),
{
    decimal_is_digits(id as nat);
}

} // verus!
