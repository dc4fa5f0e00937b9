//! Laws of search: what a query finds, with which score, in which order, and whom a
//! selector names.

use crate::distance;
use crate::laws::sequences;
use crate::model;
use crate::order;
use crate::people;
use crate::search::{self, FieldsRow, HitRow, ResolutionRow};
use crate::seniority;
use crate::tables;
use crate::text::{self, WordClass};
use vstd::prelude::*;

verus! {

/// Whether `q` stands in a text as it is: something comes before it and something after it.
pub open spec fn stands_in(q: Seq<char>, whole: Seq<char>) -> bool {
    exists|before: Seq<char>, after: Seq<char>| whole == #[trigger] (before + q + after)
}

/// Whether a whole word of a text, with white space or an end on either side, is at most
/// `budget` edits away from `q`.
pub open spec fn is_near(q: Seq<char>, whole: Seq<char>, budget: nat) -> bool {
    exists|before: Seq<char>, word: Seq<char>, after: Seq<char>|
        {
            &&& whole == #[trigger] (before + word + after)
            &&& word.len() > 0
            &&& forall|i: int| 0 <= i < word.len() ==> !text::is_white(#[trigger] word[i])
            &&& before.len() > 0 ==> text::is_white(before.last())
            &&& after.len() > 0 ==> text::is_white(after[0])
            &&& distance::edit_distance(word, q) <= budget
        }
}

/// Whether a search for `q` finds something in a text.
pub open spec fn finds(q: Seq<char>, whole: Seq<char>, budget: nat) -> bool {
    stands_in(q, whole) || (budget > 0 && is_near(q, whole, budget))
}

/// Standing in a text is occurring there.
proof fn standing_is_occurring(q: Seq<char>, whole: Seq<char>)
    ensures
        stands_in(q, whole) <==> text::occurs(q, whole),
{
    if stands_in(q, whole) {
        let (before, after) = choose|before: Seq<char>, after: Seq<char>|
            whole == #[trigger] (before + q + after);
        crate::laws::text::part_occurs(before, q, after);
    }
    if text::occurs(q, whole) {
        crate::laws::text::occurrence_splits(q, whole);
    }
}

/// Being near a text is being near a word of it.
proof fn near_is_near_word(q: Seq<char>, whole: Seq<char>, budget: nat)
    ensures
        is_near(q, whole, budget) <==> search::near_word(whole, q, budget),
{
    let class = WordClass::NonWhite;
    if is_near(q, whole, budget) {
        let (before, word, after) = choose|before: Seq<char>, word: Seq<char>, after: Seq<char>|
            {
                &&& whole == #[trigger] (before + word + after)
                &&& word.len() > 0
                &&& forall|i: int| 0 <= i < word.len() ==> !text::is_white(#[trigger] word[i])
                &&& before.len() > 0 ==> text::is_white(before.last())
                &&& after.len() > 0 ==> text::is_white(after[0])
                &&& distance::edit_distance(word, q) <= budget
            };
        assert forall|k: int| 0 <= k < word.len() implies class.admits(#[trigger] word[k]) by {}
        crate::laws::text::words_stand_alone(before, word, after, class);
        let i = before.len() as int;
        let j = i + word.len();
        assert(text::is_word_at(whole, class, i, j));
        assert(whole.subrange(i, j) =~= word);
    }
    if search::near_word(whole, q, budget) {
        let (i, j) = choose|i: int, j: int| #[trigger]
            text::is_word_at(whole, class, i, j) && distance::edit_distance(
                whole.subrange(i, j),
                q,
            ) <= budget;
        let before = whole.take(i);
        let word = whole.subrange(i, j);
        let after = whole.skip(j);
        assert(whole =~= before + word + after);
        crate::laws::text::words_stand_alone(before, word, after, class);
        assert forall|k: int| 0 <= k < word.len() implies !text::is_white(#[trigger] word[k]) by {
            assert(class.admits(word[k]));
        }
        assert(before.len() > 0 ==> !class.admits(before.last()));
        assert(after.len() > 0 ==> !class.admits(after[0]));
    }
}

/// A field that holds the query as it is earns 5, whatever the query is made of; one with a
/// near word earns nothing but counts as a match; no other field matches.
pub proof fn field_matches_what_it_holds(lower: Seq<char>, q: Seq<char>, budget: nat)
    ensures
        stands_in(q, lower) ==> search::bonus(lower, q, budget) == Some(5i32),
        !stands_in(q, lower) && finds(q, lower, budget) ==> search::bonus(lower, q, budget) == Some(
            0i32,
        ),
        !finds(q, lower, budget) ==> search::bonus(lower, q, budget) is None,
{
    standing_is_occurring(q, lower);
    near_is_near_word(q, lower, budget);
}

/// How many typos a query may have: none up to two characters, one up to four, two up to
/// eight, three in a longer one.
pub proof fn longer_queries_may_have_more_typos(n: nat)
    ensures
        n <= 2 ==> search::typos_tolerated(n) == 0,
        3 <= n <= 4 ==> search::typos_tolerated(n) == 1,
        5 <= n <= 8 ==> search::typos_tolerated(n) == 2,
        n >= 9 ==> search::typos_tolerated(n) == 3,
{
}

/// Whether a field that may be missing holds something that a search for `q` finds.
pub open spec fn finds_in(q: Seq<char>, field: Option<Seq<char>>, budget: nat) -> bool {
    field matches Some(whole) && finds(q, whole, budget)
}

/// Whether a field that may be missing holds `q` as it is.
pub open spec fn holds(q: Seq<char>, field: Option<Seq<char>>) -> bool {
    field matches Some(whole) && stands_in(q, whole)
}

/// The strongest field in which a search finds something decides: 1000 for the name, 100 for
/// the team, 10 for the title, 1 for the notes, and 5 more where the field holds the query
/// as it is. Notes forgive no typos. Where nothing is found there is no score.
pub proof fn strongest_field_decides(f: FieldsRow, q: Seq<char>, budget: nat)
    ensures
        ({
            let r = search::score(f, q, budget);
            let name = finds(q, f.name, budget);
            let team = finds_in(q, f.team, budget);
            let title = finds_in(q, f.title, budget);
            &&& stands_in(q, f.name) ==> r == Some(1005i32)
            &&& name && !stands_in(q, f.name) ==> r == Some(1000i32)
            &&& !name && holds(q, f.team) ==> r == Some(105i32)
            &&& !name && team && !holds(q, f.team) ==> r == Some(100i32)
            &&& !name && !team && holds(q, f.title) ==> r == Some(15i32)
            &&& !name && !team && title && !holds(q, f.title) ==> r == Some(10i32)
            &&& !name && !team && !title && holds(q, f.notes) ==> r == Some(6i32)
            &&& !name && !team && !title && !holds(q, f.notes) ==> r is None
        }),
{
    field_matches_what_it_holds(f.name, q, budget);
    if let Some(x) = f.team {
        field_matches_what_it_holds(x, q, budget);
    }
    if let Some(x) = f.title {
        field_matches_what_it_holds(x, q, budget);
    }
    if let Some(x) = f.notes {
        field_matches_what_it_holds(x, q, 0);
    }
}

/// What somebody scores in a search for `q`: 0 where nothing is searched for, otherwise what
/// the strongest field earns with as many typos as the length of the query allows.
pub proof fn query_length_sets_the_typos(f: FieldsRow, q: Seq<char>)
    ensures
        q.len() == 0 ==> search::hit_score(f, q) == Some(0i32),
        q.len() > 0 ==> search::hit_score(f, q) == search::score(
            f,
            q,
            if q.len() <= 2 {
                0
            } else if q.len() <= 4 {
                1
            } else if q.len() <= 8 {
                2
            } else {
                3
            },
        ),
{
}

/// Every query that stands in the lowercase name scores 1005, and one that stands in the
/// team, the title or the notes where no stronger field matches scores 105, 15 or 6.
pub proof fn contiguous_text_is_found(f: FieldsRow, before: Seq<char>, q: Seq<char>, after: Seq<char>)
    requires
        q.len() > 0,
    ensures
        f.name == before + q + after ==> search::hit_score(f, q) == Some(1005i32),
        f.team == Some(before + q + after) && search::bonus(
            f.name,
            q,
            search::typos_tolerated(q.len()),
        ) is None ==> search::hit_score(f, q) == Some(105i32),
        f.title == Some(before + q + after) && search::bonus(
            f.name,
            q,
            search::typos_tolerated(q.len()),
        ) is None && search::opt_bonus(f.team, q, search::typos_tolerated(q.len())) is None
            ==> search::hit_score(f, q) == Some(15i32),
        f.notes == Some(before + q + after) && search::bonus(
            f.name,
            q,
            search::typos_tolerated(q.len()),
        ) is None && search::opt_bonus(f.team, q, search::typos_tolerated(q.len())) is None
            && search::opt_bonus(f.title, q, search::typos_tolerated(q.len())) is None
            ==> search::hit_score(f, q) == Some(6i32),
{
    crate::laws::text::part_occurs(before, q, after);
}

/// What a search looks at is the lowercase of each field, and nothing where there is none.
pub proof fn fields_are_lowered_one_by_one(p: model::PersonRow)
    ensures
        search::lowered(p).name == search::lowercase(p.name),
        p.team matches Some(x) ==> search::lowered(p).team == Some(search::lowercase(x)),
        p.team is None ==> search::lowered(p).team is None,
        p.title matches Some(x) ==> search::lowered(p).title == Some(search::lowercase(x)),
        p.title is None ==> search::lowered(p).title is None,
        p.notes matches Some(x) ==> search::lowered(p).notes == Some(search::lowercase(x)),
        p.notes is None ==> search::lowered(p).notes is None,
{
}

/// What is searched for is the lowercase of what was typed, without the white space around
/// it; nothing, if there is no more than that.
pub proof fn outer_space_is_not_searched_for(
    before: Seq<char>,
    inner: Seq<char>,
    after: Seq<char>,
)
    requires
        forall|i: int| 0 <= i < before.len() ==> text::is_white(#[trigger] before[i]),
        forall|i: int| 0 <= i < after.len() ==> text::is_white(#[trigger] after[i]),
        inner.len() > 0,
        !text::is_white(inner[0]),
        !text::is_white(inner.last()),
    ensures
        search::search_query(before + inner + after) == search::lowercase(inner),
        search::search_query(before).len() == 0,
{
    crate::laws::text::trimming_takes_white_space_alone(before, inner, after);
    text::blank_trims_to_nothing(before);
}

/// A search finds exactly the people who score, each once and with that score.
pub proof fn everyone_who_scores_is_found(people: Seq<model::PersonRow>, q: Seq<char>, h: HitRow)
    requires
        forall|i: int, j: int|
            0 <= i < j < people.len() ==> (#[trigger] people[i]).id < (#[trigger] people[j]).id,
    ensures
        search::results(people, q).contains(h) <==> people.contains(h.person) && search::hit_score(
            search::lowered(h.person),
            q,
        ) == Some(h.score),
        search::results(people, q).no_duplicates(),
{
    assert(tables::ids_ascend(people));
    search::search_finds_matches_in_order(people, q);
}

/// Whoever has in their name what was typed is found with the score for that, in whatever
/// case it was typed and with whatever white space around it. Typing the whole name is
/// one way.
pub proof fn name_finds_its_person(
    people: Seq<model::PersonRow>,
    p: model::PersonRow,
    query: Seq<char>,
    before: Seq<char>,
    after: Seq<char>,
)
    requires
        forall|i: int, j: int|
            0 <= i < j < people.len() ==> (#[trigger] people[i]).id < (#[trigger] people[j]).id,
        people.contains(p),
        text::trimmed(query).len() > 0,
        search::lowercase(text::trimmed(query)).len() > 0,
    ensures
        search::lowercase(p.name) == before + search::lowercase(text::trimmed(query)) + after
            ==> search::results(people, search::search_query(query)).contains(
            HitRow { person: p, score: 1005 },
        ),
        text::trimmed(query) == p.name ==> search::results(
            people,
            search::search_query(query),
        ).contains(HitRow { person: p, score: 1005 }),
{
    let q = search::lowercase(text::trimmed(query));
    let none = Seq::<char>::empty();
    everyone_who_scores_is_found(people, q, HitRow { person: p, score: 1005 });
    contiguous_text_is_found(search::lowered(p), before, q, after);
    contiguous_text_is_found(search::lowered(p), none, q, none);
    assert(none + q + none =~= q);
}

/// Two hits stand in the order of the two people.
proof fn hits_keep_the_order(people: Seq<model::PersonRow>, fields: Seq<FieldsRow>, q: Seq<char>)
    requires
        people.len() == fields.len(),
    ensures
        ({
            let found = search::matched(people, fields, q);
            &&& forall|m: int, n: int|
                0 <= m < n < found.len() ==> exists|i: int, j: int|
                    0 <= i < j < people.len() && #[trigger] people[i] == (
                    #[trigger] found[m]).person && #[trigger] people[j] == (
                    #[trigger] found[n]).person
            &&& forall|m: int|
                0 <= m < found.len() ==> exists|i: int|
                    0 <= i < people.len() && #[trigger] people[i] == (
                    #[trigger] found[m]).person && search::hit_score(fields[i], q) == Some(
                        found[m].score,
                    )
            &&& forall|i: int|
                0 <= i < people.len() && search::hit_score(#[trigger] fields[i], q) is Some
                    ==> found.contains(
                    HitRow { person: people[i], score: search::hit_score(fields[i], q)->0 },
                )
            &&& found.len() == fields.filter(
                |f: FieldsRow| search::hit_score(f, q) is Some,
            ).len()
        }),
    decreases people.len(),
{
    reveal(Seq::filter);
    let found = search::matched(people, fields, q);
    if people.len() > 0 {
        let front = people.drop_last();
        let ff = fields.drop_last();
        let rest = search::matched(front, ff, q);
        hits_keep_the_order(front, ff, q);
        assert forall|m: int| 0 <= m < found.len() implies exists|i: int|
            0 <= i < people.len() && #[trigger] people[i] == (#[trigger] found[m]).person
                && search::hit_score(fields[i], q) == Some(found[m].score) by {
            if m < rest.len() {
                let i = choose|i: int|
                    0 <= i < front.len() && #[trigger] front[i] == (#[trigger] rest[m]).person
                        && search::hit_score(ff[i], q) == Some(rest[m].score);
                assert(people[i] == found[m].person);
            } else {
                assert(people[people.len() - 1] == found[m].person);
            }
        }
        assert forall|m: int, n: int| 0 <= m < n < found.len() implies exists|i: int, j: int|
            0 <= i < j < people.len() && #[trigger] people[i] == (#[trigger] found[m]).person
                && #[trigger] people[j] == (#[trigger] found[n]).person by {
            if n < rest.len() {
                assert(rest[m] == found[m] && rest[n] == found[n]);
                let (i, j) = choose|i: int, j: int|
                    0 <= i < j < front.len() && #[trigger] front[i] == (#[trigger] rest[m]).person
                        && #[trigger] front[j] == (#[trigger] rest[n]).person;
                assert(people[i] == found[m].person && people[j] == found[n].person);
            } else {
                let i = choose|i: int|
                    0 <= i < front.len() && #[trigger] front[i] == (#[trigger] rest[m]).person
                        && search::hit_score(ff[i], q) == Some(rest[m].score);
                assert(people[i] == found[m].person);
                assert(people[people.len() - 1] == found[n].person);
            }
        }
        assert forall|i: int|
            0 <= i < people.len() && search::hit_score(
                #[trigger] fields[i],
                q,
            ) is Some implies found.contains(
            HitRow { person: people[i], score: search::hit_score(fields[i], q)->0 },
        ) by {
            let h = HitRow { person: people[i], score: search::hit_score(fields[i], q)->0 };
            if i < front.len() {
                assert(ff[i] == fields[i] && front[i] == people[i]);
                assert(rest.contains(h));
                let k = choose|k: int| 0 <= k < rest.len() && rest[k] == h;
                assert(found[k] == h);
            } else {
                assert(found[found.len() - 1] == h);
            }
        }
    }
}

/// Ranking by fields finds exactly the people whose fields score, each once per place, the
/// higher score first and the earlier name where scores are equal.
pub proof fn ranking_finds_every_match(
    people: Seq<model::PersonRow>,
    fields: Seq<FieldsRow>,
    q: Seq<char>,
)
    requires
        people.len() == fields.len(),
    ensures
        ({
            let r = order::in_order(search::matched(people, fields, q), search::hit_order());
            &&& r.len() == fields.filter(|f: FieldsRow| search::hit_score(f, q) is Some).len()
            &&& forall|h: HitRow| #[trigger]
                r.contains(h) <==> exists|i: int|
                    0 <= i < people.len() && #[trigger] people[i] == h.person && search::hit_score(
                        fields[i],
                        q,
                    ) == Some(h.score)
            &&& forall|i: int, j: int|
                0 <= i < j < r.len() ==> (#[trigger] r[i]).score > (#[trigger] r[j]).score || (
                r[i].score == r[j].score && text::text_le(r[i].person.name, r[j].person.name))
        }),
{
    let found = search::matched(people, fields, q);
    let r = order::in_order(found, search::hit_order());
    hits_keep_the_order(people, fields, q);
    search::hit_order_is_preorder();
    order::in_order_sorts(found, search::hit_order());
    assert forall|h: HitRow| #[trigger] r.contains(h) <==> exists|i: int|
        0 <= i < people.len() && #[trigger] people[i] == h.person && search::hit_score(
            fields[i],
            q,
        ) == Some(h.score) by {
        if found.contains(h) {
            let m = choose|m: int| 0 <= m < found.len() && found[m] == h;
            assert(found[m].person == h.person);
        }
        if exists|i: int|
            0 <= i < people.len() && #[trigger] people[i] == h.person && search::hit_score(
                fields[i],
                q,
            ) == Some(h.score) {
            let i = choose|i: int|
                0 <= i < people.len() && #[trigger] people[i] == h.person && search::hit_score(
                    fields[i],
                    q,
                ) == Some(h.score);
            assert(search::hit_score(fields[i], q) is Some);
        }
    }
    assert forall|i: int, j: int| 0 <= i < j < r.len() implies (#[trigger] r[i]).score > (
    #[trigger] r[j]).score || (r[i].score == r[j].score && text::text_le(
        r[i].person.name,
        r[j].person.name,
    )) by {
        assert(search::hit_order()(r[i], r[j]));
    }
}

/// The better hit stands first; of equal scores the earlier name, of namesakes the one of
/// higher rank, and at the end the smaller id.
pub proof fn better_hits_come_first(people: Seq<model::PersonRow>, q: Seq<char>, i: int, j: int)
    requires
        forall|m: int, n: int|
            0 <= m < n < people.len() ==> (#[trigger] people[m]).id < (#[trigger] people[n]).id,
        0 <= i < j < search::results(people, q).len(),
    ensures
        ({
            let a = search::results(people, q)[i];
            let b = search::results(people, q)[j];
            let x = match a.person.title {
                Some(s) => seniority::title_rank(s),
                None => None,
            };
            let y = match b.person.title {
                Some(s) => seniority::title_rank(s),
                None => None,
            };
            let namesakes = a.score == b.score && a.person.name == b.person.name;
            ||| a.score > b.score
            ||| a.score == b.score && a.person.name != b.person.name && text::text_le(
                a.person.name,
                b.person.name,
            )
            ||| namesakes && x is Some && y is None
            ||| namesakes && x is Some && y is Some && x->0.rung() > y->0.rung()
            ||| namesakes && x == y && a.person.id < b.person.id
        }),
{
    let listed = people::listing(people, None);
    let fields = listed.map_values(|p: model::PersonRow| search::lowered(p));
    let found = search::matched(listed, fields, q);
    let le = search::hit_order();
    let r = search::results(people, q);
    let a = r[i];
    let b = r[j];
    search::hit_order_is_preorder();
    order::in_order_sorts(found, le);
    assert(le(r[i], r[j]));
    if a.score == b.score && a.person.name == b.person.name {
        let alike = |h: HitRow| le(a, h) && le(h, a);
        order::in_order_is_stable(found, a, le);
        text::text_le_total(a.person.name, a.person.name);
        sequences::kept_order(r, alike, i, j);
        let (m, n) = choose|m: int, n: int|
            0 <= m < n < r.filter(alike).len() && #[trigger] r.filter(alike)[m] == a
                && #[trigger] r.filter(alike)[n] == b;
        assert(r.filter(alike) == found.filter(alike));
        sequences::kept_were_in_order(found, alike, m, n);
        let (k, l) = choose|k: int, l: int|
            0 <= k < l < found.len() && #[trigger] found[k] == found.filter(alike)[m]
                && #[trigger] found[l] == found.filter(alike)[n];
        hits_keep_the_order(listed, fields, q);
        let (c, d) = choose|c: int, d: int|
            0 <= c < d < listed.len() && #[trigger] listed[c] == (#[trigger] found[k]).person
                && #[trigger] listed[d] == (#[trigger] found[l]).person;
        crate::laws::people::listing_goes_by_rank_name_and_id(people, None, c, d);
    }
}

/// A selector that is not a number names everybody of exactly that name: nobody, the one
/// there is, or all of them in the order of their ids.
pub proof fn name_selects_its_namesakes(people: Seq<model::PersonRow>, selector: Seq<char>, i: int)
    requires
        0 <= i < selector.len(),
        !('0' <= selector[i] <= '9'),
        forall|m: int, n: int|
            0 <= m < n < people.len() ==> (#[trigger] people[m]).id < (#[trigger] people[n]).id,
    ensures
        match search::resolution(people, selector) {
            ResolutionRow::NotFound => forall|k: int|
                0 <= k < people.len() ==> (#[trigger] people[k]).name != selector,
            ResolutionRow::One(p) => forall|x: model::PersonRow| #[trigger]
                people.contains(x) && x.name == selector <==> x == p,
            ResolutionRow::Ambiguous(ps) => {
                &&& ps.len() >= 2
                &&& forall|x: model::PersonRow| #[trigger]
                    ps.contains(x) <==> people.contains(x) && x.name == selector
                &&& forall|m: int, n: int|
                    0 <= m < n < ps.len() ==> (#[trigger] ps[m]).id < (#[trigger] ps[n]).id
            },
        },
{
    let same = |p: model::PersonRow| p.name == selector;
    let found = search::namesakes(people, selector);
    assert(tables::ids_ascend(people));
    tables::filter_keeps(people, same);
    assert(found == people.filter(same));
    assert(!search::all_digits(selector));
    if found.len() == 0 {
        assert forall|k: int| 0 <= k < people.len() implies (#[trigger] people[k]).name
            != selector by {
            assert(people.contains(people[k]));
            if same(people[k]) {
                assert(found.contains(people[k]));
            }
        }
    } else if found.len() == 1 {
        assert forall|x: model::PersonRow| #[trigger]
            people.contains(x) && x.name == selector <==> x == found[0] by {
            assert(found.contains(found[0]));
            if people.contains(x) && x.name == selector {
                assert(found.contains(x));
            }
        }
    } else {
        assert forall|m: int, n: int| 0 <= m < n < found.len() implies (#[trigger] found[m]).id < (
        #[trigger] found[n]).id by {
            assert(tables::Keyed::key(found[m]) < tables::Keyed::key(found[n]));
        }
    }
}

/// A number names whoever has it as their id, and nobody where none has; how it is written
/// is told by its decimal notation, and zeros in front change nothing.
pub proof fn number_selects_an_id(people: Seq<model::PersonRow>, n: nat, k: int, digits: Seq<char>)
    requires
        forall|i: int, j: int|
            0 <= i < j < people.len() ==> (#[trigger] people[i]).id < (#[trigger] people[j]).id,
        digits.len() > 0,
        forall|i: int| 0 <= i < digits.len() ==> '0' <= #[trigger] digits[i] <= '9',
    ensures
        0 <= k < people.len() && people[k].id == n ==> search::resolution(
            people,
            text::decimal(n as int),
        ) == ResolutionRow::One(people[k]),
        (forall|i: int| 0 <= i < people.len() ==> (#[trigger] people[i]).id != n)
            ==> search::resolution(people, text::decimal(n as int)) == ResolutionRow::NotFound,
        search::resolution(people, seq!['0'] + digits) == search::resolution(people, digits),
        search::resolution(people, Seq::empty()) == ResolutionRow::NotFound,
{
    search::decimal_is_digits(n);
    if n <= i64::MAX {
        crate::laws::tables::people_are_found_by_id(people, n as i64);
    }
    zero_in_front(digits);
    let longer = seq!['0'] + digits;
    assert forall|i: int| 0 <= i < longer.len() implies '0' <= #[trigger] longer[i] <= '9' by {
        if i > 0 {
            assert(longer[i] == digits[i - 1]);
        }
    }
    assert(search::all_digits(longer) && search::all_digits(digits));
}

/// A zero in front leaves a number as it is.
proof fn zero_in_front(digits: Seq<char>)
    ensures
        search::digits_value(seq!['0'] + digits) == search::digits_value(digits),
    decreases digits.len(),
{
    let longer = seq!['0'] + digits;
    if digits.len() > 0 {
        zero_in_front(digits.drop_last());
        assert(longer.drop_last() =~= seq!['0'] + digits.drop_last());
        assert(longer.last() == digits.last());
    } else {
        assert(longer =~= seq!['0']);
        assert(longer.drop_last() =~= Seq::<char>::empty());
        assert(search::digits_value(longer.drop_last()) == 0);
        assert(digits =~= Seq::<char>::empty());
    }
}

/// Only digits make a number; a letter or a sign anywhere, and it is none.
pub proof fn numbers_are_digits_alone(s: Seq<char>)
    ensures
        search::all_digits(s) <==> forall|i: int|
            0 <= i < s.len() ==> 0x30 <= (#[trigger] s[i]) as int <= 0x39,
{
}

} // verus!
