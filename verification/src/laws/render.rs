//! Laws of what is shown: a line for everybody, and what each line says.

use crate::infer::Verdict;
use crate::laws::sequences;
use crate::model::{self, Confidence};
use crate::render;
use crate::search::{self, HitRow};
use crate::text;
use crate::tree::{self, NodeRow};
use vstd::prelude::*;
use vstd::utf8;

verus! {

/// A list of hits is shown hit by hit: each has a line of its own, whatever stands around it,
/// with the id, the name, the team, the title and the score in brackets.
pub proof fn hits_are_shown_one_by_one(a: Seq<HitRow>, b: Seq<HitRow>, h: HitRow)
    ensures
        render::hits_text(Seq::empty()) == "(no matches)\n"@,
        a.len() > 0 && b.len() > 0 ==> render::hits_text(a + b) == render::hits_text(a)
            + render::hits_text(b),
        render::hits_text(seq![h]) == "  #"@ + text::left_aligned(
            text::decimal(h.person.id as int),
            4,
        ) + " "@ + text::left_aligned(h.person.name, 20) + " "@ + (match h.person.team {
            Some(x) => x,
            None => "-"@,
        }) + "  "@ + (match h.person.title {
            Some(x) => x,
            None => Seq::<char>::empty(),
        }) + "  ["@ + text::decimal(h.score as int) + "]\n"@,
{
    let f = |x: HitRow| render::hit_row(x);
    sequences::flat_map_of_both(a, b, f);
    one_is_itself(h, f);
    reveal_strlit("");
    assert(""@ =~= Seq::<char>::empty());
}

/// What stands for one item is what the item gives.
proof fn one_is_itself<V>(x: V, f: spec_fn(V) -> Seq<char>)
    ensures
        seq![x].flat_map(f) == f(x),
{
    seq![x].lemma_flat_map_singleton(f);
}

/// Headcounts are shown team by team: each has a line of its own, with the number and the
/// name.
pub proof fn teams_are_shown_one_by_one(
    a: Seq<(Seq<char>, i64)>,
    b: Seq<(Seq<char>, i64)>,
    name: Seq<char>,
    n: i64,
)
    ensures
        render::teams_text(Seq::empty()) == "(no teams)\n"@,
        a.len() > 0 && b.len() > 0 ==> render::teams_text(a + b) == render::teams_text(a)
            + render::teams_text(b),
        render::teams_text(seq![(name, n)]) == "  "@ + text::right_aligned(
            text::decimal(n as int),
            3,
        ) + "  "@ + name + "\n"@,
{
    let f = |x: (Seq<char>, i64)| render::team_row(x);
    sequences::flat_map_of_both(a, b, f);
    one_is_itself((name, n), f);
}

/// A chain of command is shown boss by boss: each has a line of its own, two spaces further
/// in than the one before them in command. Without a boss it says that this is a root.
pub proof fn chain_is_shown_one_by_one(a: Seq<NodeRow>, b: Seq<NodeRow>, n: NodeRow)
    requires
        n.depth >= 1,
    ensures
        render::chain_text(Seq::empty()) == "  (reports to no one — this is a root)\n"@,
        a.len() > 0 && b.len() > 0 ==> render::chain_text(a + b) == render::chain_text(a)
            + render::chain_text(b),
        render::chain_text(seq![n]) == Seq::new((2 * (n.depth - 1)) as nat, |i: int| ' ')
            + "  → "@ + n.name + "\n"@,
{
    let f = |x: NodeRow| render::chain_row(x);
    sequences::flat_map_of_both(a, b, f);
    one_is_itself(n, f);
    assert(tree::indent(n.depth - 1) =~= Seq::new((2 * (n.depth - 1)) as nat, |i: int| ' '));
}

/// Direct reports are shown one by one, each on a line of their own.
pub proof fn reports_are_shown_one_by_one(a: Seq<NodeRow>, b: Seq<NodeRow>, n: NodeRow)
    ensures
        render::reports_text(Seq::empty()) == "  (none)\n"@,
        a.len() > 0 && b.len() > 0 ==> render::reports_text(a + b) == render::reports_text(a)
            + render::reports_text(b),
        render::reports_text(seq![n]) == "  - "@ + tree::tree_line_text(n.id, n.name, n.title),
{
    let f = |x: NodeRow| "  - "@ + tree::tree_line_text(x.id, x.name, x.title);
    sequences::flat_map_of_both(a, b, f);
    one_is_itself(n, f);
}

/// A person is shown with the id and the name, and with a line for each of team, title and
/// notes that is known, in that order.
pub proof fn details_are_shown_line_by_line(p: model::PersonRow)
    ensures
        ({
            let team = match p.team {
                Some(x) => "  Team  : "@ + x + "\n"@,
                None => Seq::<char>::empty(),
            };
            let title = match p.title {
                Some(x) => "  Title : "@ + x + "\n"@,
                None => Seq::<char>::empty(),
            };
            let notes = match p.notes {
                Some(x) => "  Notes : "@ + x + "\n"@,
                None => Seq::<char>::empty(),
            };
            render::detail_text(p) == "#"@ + text::decimal(p.id as int) + "  "@ + p.name + "\n"@
                + team + title + notes
        }),
{
    reveal_strlit("  ");
    reveal_strlit(": ");
    reveal_strlit("Team");
    reveal_strlit("Title");
    reveal_strlit("Notes");
    reveal_strlit("  Team  : ");
    reveal_strlit("  Title : ");
    reveal_strlit("  Notes : ");
    assert("  "@ + text::left_aligned("Team"@, 6) + ": "@ =~= "  Team  : "@);
    assert("  "@ + text::left_aligned("Title"@, 6) + ": "@ =~= "  Title : "@);
    assert("  "@ + text::left_aligned("Notes"@, 6) + ": "@ =~= "  Notes : "@);
    let all = render::detail_text(p);
    if let Some(x) = p.team {
        assert(render::field_text("Team"@, p.team) =~= "  Team  : "@ + x + "\n"@);
    }
    if let Some(x) = p.title {
        assert(render::field_text("Title"@, p.title) =~= "  Title : "@ + x + "\n"@);
    }
    if let Some(x) = p.notes {
        assert(render::field_text("Notes"@, p.notes) =~= "  Notes : "@ + x + "\n"@);
    }
}

/// The column of names is four wide, or as wide as the longest name takes bytes.
pub proof fn column_fits_the_longest_name(people: Seq<model::PersonRow>)
    requires
        forall|i: int|
            0 <= i < people.len() ==> utf8::encode_utf8((#[trigger] people[i]).name).len()
                <= usize::MAX,
    ensures
        render::name_width(people) >= 4,
        forall|i: int|
            0 <= i < people.len() ==> utf8::encode_utf8((#[trigger] people[i]).name).len()
                <= render::name_width(people),
        render::name_width(people) > 4 ==> exists|i: int|
            0 <= i < people.len() && utf8::encode_utf8((#[trigger] people[i]).name).len()
                == render::name_width(people),
    decreases people.len(),
{
    if people.len() > 0 {
        let rest = people.drop_last();
        assert forall|i: int| 0 <= i < rest.len() implies utf8::encode_utf8(
            (#[trigger] rest[i]).name,
        ).len() <= usize::MAX by {
            assert(rest[i] == people[i]);
        }
        column_fits_the_longest_name(rest);
        let last = people.len() - 1;
        assert(utf8::encode_utf8(people[last].name).len() <= usize::MAX);
        assert forall|i: int| 0 <= i < people.len() implies utf8::encode_utf8(
            (#[trigger] people[i]).name,
        ).len() <= render::name_width(people) by {
            if i < last {
                assert(rest[i] == people[i]);
            }
        }
        if render::name_width(people) > 4 {
            if render::name_width(people) == render::name_width(rest) {
                let i = choose|i: int|
                    0 <= i < rest.len() && utf8::encode_utf8((#[trigger] rest[i]).name).len()
                        == render::name_width(rest);
                assert(people[i] == rest[i]);
            } else {
                assert(utf8::encode_utf8(people[last].name).len() == render::name_width(people));
            }
        }
    }
}

/// The part of a table that shows some of the people.
pub open spec fn rows_of(some: Seq<model::PersonRow>, width: usize) -> Seq<char> {
    some.flat_map(|p: model::PersonRow| render::table_row(p, width))
}

/// Everybody in a table has a row of their own, between those of the people before them and
/// those of the people after them: the id, the name up to the width of the column, the team
/// and the title, with dashes for what is unknown.
pub proof fn everybody_has_a_row(people: Seq<model::PersonRow>, i: int)
    requires
        0 <= i < people.len(),
    ensures
        ({
            let w = render::name_width(people);
            let p = people[i];
            &&& render::table_text(people) == rows_of(people.take(i), w) + ("  "@
                + text::right_aligned(text::decimal(p.id as int), 4) + "  "@ + text::left_aligned(
                p.name,
                w as int,
            ) + "  "@ + text::left_aligned(
                match p.team {
                    Some(x) => x,
                    None => "-"@,
                },
                28,
            ) + "  "@ + (match p.title {
                Some(x) => x,
                None => "-"@,
            }) + "\n"@) + rows_of(people.skip(i + 1), w)
            &&& rows_of(Seq::empty(), w) == Seq::<char>::empty()
        }),
        render::table_text(Seq::empty()) == "(no people)\n"@,
{
    let w = render::name_width(people);
    let f = |p: model::PersonRow| render::table_row(p, w);
    sequences::flat_map_splits(people, f, i);
    sequences::flat_map_of_none(Seq::<model::PersonRow>::empty(), f);
}

/// What an inference is told as.
pub proof fn inference_tells_its_votes(
    name: Seq<char>,
    boss_id: i64,
    votes: usize,
    total: usize,
    share: Confidence,
    reason: Seq<char>,
    confidence: Seq<char>,
)
    ensures
        render::inference_text(
            name,
            Verdict::Inferred { boss_id, votes, total, confidence: share },
            confidence,
        ) == "Inferred a boss for "@ + name + " ("@ + text::decimal(votes as int) + "/"@
            + text::decimal(total as int) + " teammates agree, confidence "@ + confidence
            + ").\n"@,
        render::inference_text(name, Verdict::NoGuess { reason }, confidence)
            == "No boss inferred for "@ + name + ": "@ + reason + ".\n"@,
{
}

/// What is told of a selector: everybody it may mean, or that there is nobody; a number is
/// told as an id.
pub proof fn selectors_are_told_back(selector: Seq<char>, candidates: Seq<model::PersonRow>, i: int)
    ensures
        render::ambiguous_text(selector, candidates) == "'"@ + selector
            + "' matches more than one person:\n"@ + render::table_text(candidates)
            + "Rerun with the id."@,
        (forall|k: int| 0 <= k < selector.len() ==> '0' <= #[trigger] selector[k] <= '9')
            ==> render::not_found_text(selector) == "no person with id "@ + selector,
        0 <= i < selector.len() && !('0' <= selector[i] <= '9') ==> render::not_found_text(selector)
            == "no person matching '"@ + selector + "' (try `org find "@ + selector + "`)"@,
{
    if 0 <= i < selector.len() && !('0' <= selector[i] <= '9') {
        assert(!search::all_digits(selector));
    }
}

/// Who somebody is, is told by their details, the chain above them and those below them.
pub proof fn who_tells_above_and_below(
    p: model::PersonRow,
    bosses: Seq<NodeRow>,
    direct: Seq<NodeRow>,
)
    ensures
        render::who_text(p, bosses, direct) == render::detail_text(p) + "\nChain of command:\n"@
            + render::chain_text(bosses) + "\nDirect reports:\n"@ + render::reports_text(direct),
        render::mention(p) == "#"@ + text::decimal(p.id as int) + "  "@ + p.name,
{
}

/// What each error is told as.
pub proof fn errors_say_what_is_wrong(
    m: Seq<char>,
    id: i64,
    c: Confidence,
    number: Seq<char>,
)
    ensures
        model::error_text(model::ErrorView::Db(m), number) == "database error: "@ + m,
        model::error_text(model::ErrorView::Json(m), number) == "serialization error: "@ + m,
        model::error_text(model::ErrorView::PersonNotFound(id), number) == "no person with id "@
            + text::decimal(id as int),
        model::error_text(model::ErrorView::Invalid(model::RefusalView::Told(m)), number)
            == "invalid operation: "@ + m,
        model::error_text(model::ErrorView::Invalid(model::RefusalView::OutOfRange(c)), number)
            == "invalid operation: confidence "@ + number + " out of range 0..1"@,
        crate::commands::nobody(id) == "no person with id "@ + text::decimal(id as int),
{
}

} // verus!
