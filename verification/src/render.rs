//! Terminal output. Pure formatting: takes what the library computes, gives text.

use crate::infer::{self, Inference};
use crate::model::{self, Person};
use crate::search::{self, is_all_digits, Resolution, SearchHit};
use crate::tables;
use crate::text::{self, int_text, push_int, push_left_aligned, push_nat, push_right_aligned};
use crate::tree::{self, push_indent, tree_line, Node};
use vstd::prelude::*;
use vstd::string::*;
use vstd::utf8;

verus! {

/// A labelled line, the label filled up to six characters so that the colons line up;
/// nothing where the value is missing.
pub open spec fn field_text(label: Seq<char>, value: Option<Seq<char>>) -> Seq<char> {
    match value {
        Some(v) => "  "@ + text::left_aligned(label, 6) + ": "@ + v + "\n"@,
        None => Seq::empty(),
    }
}

/// One person as a block of lines.
pub open spec fn detail_text(p: model::PersonRow) -> Seq<char> {
    "#"@ + text::decimal(p.id as int) + "  "@ + p.name + "\n"@ + field_text("Team"@, p.team)
        + field_text("Title"@, p.title) + field_text("Notes"@, p.notes)
}

/// Appends a labelled line, or nothing where the value is missing.
fn push_field(out: &mut String, label: &str, value: &Option<String>)
    ensures
        final(out)@ == old(out)@ + field_text(label@, value.deep_view()),
{
    if let Some(v) = value {
        out.append("  ");
        push_left_aligned(out, label, 6);
        out.append(": ");
        out.append(v.as_str());
        out.append("\n");
    }
    assert(out@ =~= old(out)@ + field_text(label@, value.deep_view()));
}

/// One person as a block of lines: id and name, then team, title and notes as far as
/// there are any.
pub fn person_detail(p: &Person) -> (r: String)
    ensures
        r@ == detail_text(p@),
{
    let mut out: String = String::new();
    out.append("#");
    push_int(&mut out, p.id);
    out.append("  ");
    out.append(p.name.as_str());
    out.append("\n");
    push_field(&mut out, "Team", &p.team);
    push_field(&mut out, "Title", &p.title);
    push_field(&mut out, "Notes", &p.notes);
    assert(out@ =~= detail_text(p@));
    out
}

/// A text, or a stand-in where it is missing.
pub open spec fn text_or(s: Option<Seq<char>>, other: Seq<char>) -> Seq<char> {
    match s {
        Some(t) => t,
        None => other,
    }
}

/// A text, or a stand-in where it is missing.
fn or_else<'a>(s: &'a Option<String>, other: &'a str) -> (r: &'a str)
    ensures
        r@ == text_or(s.deep_view(), other@),
{
    match s {
        Some(t) => t.as_str(),
        None => other,
    }
}

/// How wide the column of names is: as many characters as the longest name has bytes,
/// at least four.
pub open spec fn name_width(people: Seq<model::PersonRow>) -> usize
    decreases people.len(),
{
    if people.len() == 0 {
        4
    } else {
        let w = name_width(people.drop_last());
        let n = utf8::encode_utf8(people.last().name).len() as usize;
        if n > w {
            n
        } else {
            w
        }
    }
}

/// One line of a table of people: id, name, team, title.
pub open spec fn table_row(p: model::PersonRow, width: usize) -> Seq<char> {
    "  "@ + text::right_aligned(text::decimal(p.id as int), 4) + "  "@ + text::left_aligned(
        p.name,
        width as int,
    ) + "  "@ + text::left_aligned(text_or(p.team, "-"@), 28) + "  "@ + text_or(p.title, "-"@)
        + "\n"@
}

/// People as a table, a line for each.
pub open spec fn table_text(people: Seq<model::PersonRow>) -> Seq<char> {
    if people.len() == 0 {
        "(no people)\n"@
    } else {
        people.flat_map(|p: model::PersonRow| table_row(p, name_width(people)))
    }
}

/// How wide the column of names is.
fn widest_name(people: &[Person]) -> (r: usize)
    ensures
        r == name_width(tables::rows(people@)),
{
    let ghost s = tables::rows(people@);
    let mut w: usize = 4;
    let mut k: usize = 0;
    while k < people.len()
        invariant
            s == tables::rows(people@),
            k <= people@.len(),
            w == name_width(s.take(k as int)),
        decreases people@.len() - k,
    {
        let n: usize = people[k].name.as_str().len();
        assert(s.take(k + 1).drop_last() =~= s.take(k as int));
        assert(s.take(k + 1).last() == people@[k as int]@);
        if n > w {
            w = n;
        }
        k = k + 1;
    }
    assert(s.take(k as int) =~= s);
    w
}

/// People as an aligned table: id, name, team, title.
pub fn person_table(people: &[Person]) -> (r: String)
    ensures
        r@ == table_text(tables::rows(people@)),
{
    if people.len() == 0 {
        return "(no people)\n".to_owned();
    }
    let width = widest_name(people);
    let ghost s = tables::rows(people@);
    let ghost f = |p: model::PersonRow| table_row(p, name_width(s));
    let mut out: String = String::new();
    let mut k: usize = 0;
    proof {
        text::flat_map_none(s, f);
    }
    while k < people.len()
        invariant
            s == tables::rows(people@),
            f == (|p: model::PersonRow| table_row(p, name_width(s))),
            width == name_width(s),
            k <= people@.len(),
            out@ == s.take(k as int).flat_map(f),
        decreases people@.len() - k,
    {
        let p = &people[k];
        let ghost before = out@;
        out.append("  ");
        push_right_aligned(&mut out, int_text(p.id).as_str(), 4);
        out.append("  ");
        push_left_aligned(&mut out, p.name.as_str(), width);
        out.append("  ");
        push_left_aligned(&mut out, or_else(&p.team, "-"), 28);
        out.append("  ");
        out.append(or_else(&p.title, "-"));
        out.append("\n");
        proof {
            text::flat_map_step(s, f, k as int);
            assert(s[k as int] == p@);
            assert(out@ =~= before + table_row(p@, width));
        }
        k = k + 1;
    }
    proof {
        text::flat_map_none(s, f);
    }
    out
}

/// One line of search results: id, name, team, title, and the score in brackets.
pub open spec fn hit_row(h: search::HitRow) -> Seq<char> {
    "  #"@ + text::left_aligned(text::decimal(h.person.id as int), 4) + " "@ + text::left_aligned(
        h.person.name,
        20,
    ) + " "@ + text_or(h.person.team, "-"@) + "  "@ + text_or(h.person.title, ""@) + "  ["@
        + text::decimal(h.score as int) + "]\n"@
}

/// Search results, a line for each.
pub open spec fn hits_text(hits: Seq<search::HitRow>) -> Seq<char> {
    if hits.len() == 0 {
        "(no matches)\n"@
    } else {
        hits.flat_map(|h: search::HitRow| hit_row(h))
    }
}

/// Search results, in the order given. The score of each stands in brackets, so that
/// the user can see why they come in that order.
pub fn search_results(hits: &[SearchHit]) -> (r: String)
    ensures
        r@ == hits_text(tables::rows(hits@)),
{
    if hits.len() == 0 {
        return "(no matches)\n".to_owned();
    }
    let ghost s = tables::rows(hits@);
    let ghost f = |h: search::HitRow| hit_row(h);
    let mut out: String = String::new();
    let mut k: usize = 0;
    proof {
        text::flat_map_none(s, f);
    }
    while k < hits.len()
        invariant
            s == tables::rows(hits@),
            f == (|h: search::HitRow| hit_row(h)),
            k <= hits@.len(),
            out@ == s.take(k as int).flat_map(f),
        decreases hits@.len() - k,
    {
        let p = &hits[k].person;
        let ghost before = out@;
        out.append("  #");
        push_left_aligned(&mut out, int_text(p.id).as_str(), 4);
        out.append(" ");
        push_left_aligned(&mut out, p.name.as_str(), 20);
        out.append(" ");
        out.append(or_else(&p.team, "-"));
        out.append("  ");
        out.append(or_else(&p.title, ""));
        out.append("  [");
        push_int(&mut out, hits[k].score as i64);
        out.append("]\n");
        proof {
            text::flat_map_step(s, f, k as int);
            assert(s[k as int] == hits@[k as int]@);
            assert(out@ =~= before + hit_row(s[k as int]));
        }
        k = k + 1;
    }
    proof {
        text::flat_map_none(s, f);
    }
    out
}

/// One line of headcounts: how many, and of which team.
pub open spec fn team_row(c: (Seq<char>, i64)) -> Seq<char> {
    "  "@ + text::right_aligned(text::decimal(c.1 as int), 3) + "  "@ + c.0 + "\n"@
}

/// Headcounts, a line for each team.
pub open spec fn teams_text(counts: Seq<(Seq<char>, i64)>) -> Seq<char> {
    if counts.len() == 0 {
        "(no teams)\n"@
    } else {
        counts.flat_map(|c: (Seq<char>, i64)| team_row(c))
    }
}

/// Headcounts as aligned lines of count and team.
pub fn teams(counts: &[(String, i64)]) -> (r: String)
    ensures
        r@ == teams_text(tables::rows(counts@)),
{
    if counts.len() == 0 {
        return "(no teams)\n".to_owned();
    }
    let ghost s = tables::rows(counts@);
    let ghost f = |c: (Seq<char>, i64)| team_row(c);
    let mut out: String = String::new();
    let mut k: usize = 0;
    proof {
        text::flat_map_none(s, f);
    }
    while k < counts.len()
        invariant
            s == tables::rows(counts@),
            f == (|c: (Seq<char>, i64)| team_row(c)),
            k <= counts@.len(),
            out@ == s.take(k as int).flat_map(f),
        decreases counts@.len() - k,
    {
        let ghost before = out@;
        out.append("  ");
        push_right_aligned(&mut out, int_text(counts[k].1).as_str(), 3);
        out.append("  ");
        out.append(counts[k].0.as_str());
        out.append("\n");
        proof {
            text::flat_map_step(s, f, k as int);
            assert(s[k as int] == counts@[k as int]@);
            assert(out@ =~= before + team_row(s[k as int]));
        }
        k = k + 1;
    }
    proof {
        text::flat_map_none(s, f);
    }
    out
}

/// One line of a chain of command, further in with every step up.
pub open spec fn chain_row(n: tree::NodeRow) -> Seq<char> {
    tree::indent(n.depth - 1) + "  → "@ + n.name + "\n"@
}

/// A chain of command, a line for each boss.
pub open spec fn chain_text(nodes: Seq<tree::NodeRow>) -> Seq<char> {
    if nodes.len() == 0 {
        "  (reports to no one — this is a root)\n"@
    } else {
        nodes.flat_map(|n: tree::NodeRow| chain_row(n))
    }
}

/// A chain of command, nearest boss first, further in with every step up.
pub fn chain(nodes: &[Node]) -> (r: String)
    ensures
        r@ == chain_text(tables::rows(nodes@)),
{
    if nodes.len() == 0 {
        return "  (reports to no one — this is a root)\n".to_owned();
    }
    let ghost s = tables::rows(nodes@);
    let ghost f = |n: tree::NodeRow| chain_row(n);
    let mut out: String = String::new();
    let mut k: usize = 0;
    proof {
        text::flat_map_none(s, f);
    }
    while k < nodes.len()
        invariant
            s == tables::rows(nodes@),
            f == (|n: tree::NodeRow| chain_row(n)),
            k <= nodes@.len(),
            out@ == s.take(k as int).flat_map(f),
        decreases nodes@.len() - k,
    {
        let n = &nodes[k];
        let ghost before = out@;
        if n.depth > 1 {
            push_indent(&mut out, n.depth - 1);
        }
        out.append("  → ");
        out.append(n.name.as_str());
        out.append("\n");
        proof {
            text::flat_map_step(s, f, k as int);
            assert(s[k as int] == n@);
            assert(out@ =~= before + chain_row(n@));
        }
        k = k + 1;
    }
    proof {
        text::flat_map_none(s, f);
    }
    out
}

/// What an inference decided, in words. `confidence` is how the confidence reads as
/// a decimal number.
pub open spec fn inference_text(
    name: Seq<char>,
    verdict: infer::Verdict,
    confidence: Seq<char>,
) -> Seq<char> {
    match verdict {
        infer::Verdict::Inferred { boss_id, votes, total, confidence: share } => {
            "Inferred a boss for "@ + name + " ("@ + text::decimal(votes as int) + "/"@
                + text::decimal(total as int) + " teammates agree, confidence "@ + confidence
                + ").\n"@
        },
        infer::Verdict::NoGuess { reason } => "No boss inferred for "@ + name + ": "@ + reason
            + ".\n"@,
    }
}

/// What an inference decided, in words. `confidence` is how the confidence of
/// [`Inference::Inferred`] reads as a decimal number with two places; the other
/// variant does not use it.
pub fn inference(person_name: &str, inf: &Inference, confidence: &str) -> (r: String)
    ensures
        r@ == inference_text(person_name@, inf@, confidence@),
{
    let mut out: String = String::new();
    match inf {
        Inference::Inferred { votes, total, .. } => {
            out.append("Inferred a boss for ");
            out.append(person_name);
            out.append(" (");
            push_nat(&mut out, *votes as u64);
            out.append("/");
            push_nat(&mut out, *total as u64);
            out.append(" teammates agree, confidence ");
            out.append(confidence);
            out.append(").\n");
        },
        Inference::NoGuess { reason } => {
            out.append("No boss inferred for ");
            out.append(person_name);
            out.append(": ");
            out.append(reason.as_str());
            out.append(".\n");
        },
    }
    assert(out@ =~= inference_text(person_name@, inf@, confidence@));
    out
}

/// Direct reports, a line for each.
pub open spec fn reports_text(nodes: Seq<tree::NodeRow>) -> Seq<char> {
    if nodes.len() == 0 {
        "  (none)\n"@
    } else {
        nodes.flat_map(
            |n: tree::NodeRow| "  - "@ + tree::tree_line_text(n.id, n.name, n.title),
        )
    }
}

/// Direct reports, in the order given.
pub fn reports(nodes: &[Node]) -> (r: String)
    ensures
        r@ == reports_text(tables::rows(nodes@)),
{
    if nodes.len() == 0 {
        return "  (none)\n".to_owned();
    }
    let ghost s = tables::rows(nodes@);
    let ghost f = |n: tree::NodeRow| "  - "@ + tree::tree_line_text(n.id, n.name, n.title);
    let mut out: String = String::new();
    let mut k: usize = 0;
    proof {
        text::flat_map_none(s, f);
    }
    while k < nodes.len()
        invariant
            s == tables::rows(nodes@),
            f == (|n: tree::NodeRow| "  - "@ + tree::tree_line_text(n.id, n.name, n.title)),
            k <= nodes@.len(),
            out@ == s.take(k as int).flat_map(f),
        decreases nodes@.len() - k,
    {
        let n = &nodes[k];
        let ghost before = out@;
        out.append("  - ");
        let title: Option<&str> = match &n.title {
            Some(t) => Some(t.as_str()),
            None => None,
        };
        let line = tree_line(n.id, n.name.as_str(), title);
        out.append(line.as_str());
        proof {
            text::flat_map_step(s, f, k as int);
            assert(s[k as int] == n@);
            assert(out@ =~= before + f(n@));
        }
        k = k + 1;
    }
    proof {
        text::flat_map_none(s, f);
    }
    out
}

/// Everything about a person: details, chain of command, direct reports.
pub open spec fn who_text(
    p: model::PersonRow,
    bosses: Seq<tree::NodeRow>,
    direct: Seq<tree::NodeRow>,
) -> Seq<char> {
    detail_text(p) + "\nChain of command:\n"@ + chain_text(bosses) + "\nDirect reports:\n"@
        + reports_text(direct)
}

/// Everything about a person: details, chain of command, direct reports.
pub fn who(person: &Person, bosses: &[Node], direct: &[Node]) -> (r: String)
    ensures
        r@ == who_text(person@, tables::rows(bosses@), tables::rows(direct@)),
{
    let mut out = person_detail(person);
    out.append("\nChain of command:\n");
    out.append(chain(bosses).as_str());
    out.append("\nDirect reports:\n");
    out.append(reports(direct).as_str());
    assert(out@ =~= who_text(person@, tables::rows(bosses@), tables::rows(direct@)));
    out
}

/// A person by id and name.
pub open spec fn mention(p: model::PersonRow) -> Seq<char> {
    "#"@ + text::decimal(p.id as int) + "  "@ + p.name
}

/// Appends a person by id and name.
fn push_mention(out: &mut String, p: &Person)
    ensures
        final(out)@ == old(out)@ + mention(p@),
{
    out.append("#");
    push_int(out, p.id);
    out.append("  ");
    out.append(p.name.as_str());
    assert(out@ =~= old(out)@ + mention(p@));
}

/// Says who now reports to whom.
pub fn boss_set(report: &Person, boss: &Person) -> (r: String)
    ensures
        r@ == "Set boss: "@ + mention(report@) + " now reports to "@ + mention(boss@) + ".\n"@,
{
    let mut out: String = String::new();
    out.append("Set boss: ");
    push_mention(&mut out, report);
    out.append(" now reports to ");
    push_mention(&mut out, boss);
    out.append(".\n");
    assert(out@ =~= "Set boss: "@ + mention(report@) + " now reports to "@ + mention(boss@)
        + ".\n"@);
    out
}

/// Says who was removed.
pub fn removed(person: &Person) -> (r: String)
    ensures
        r@ == "Removed "@ + mention(person@) + " (and any of their relationship edges).\n"@,
{
    let mut out: String = String::new();
    out.append("Removed ");
    push_mention(&mut out, person);
    out.append(" (and any of their relationship edges).\n");
    assert(out@ =~= "Removed "@ + mention(person@)
        + " (and any of their relationship edges).\n"@);
    out
}

/// Says that a selector means more than one person, and which.
pub open spec fn ambiguous_text(selector: Seq<char>, candidates: Seq<model::PersonRow>) -> Seq<
    char,
> {
    "'"@ + selector + "' matches more than one person:\n"@ + table_text(candidates)
        + "Rerun with the id."@
}

/// Says that a selector means nobody.
pub open spec fn not_found_text(selector: Seq<char>) -> Seq<char> {
    if search::all_digits(selector) {
        "no person with id "@ + selector
    } else {
        "no person matching '"@ + selector + "' (try `org find "@ + selector + "`)"@
    }
}

/// The one person that a selector means, or what to tell the user if it means nobody
/// or more than one; then the candidates are listed, so that the user can take an id.
pub fn resolved(selector: &str, found: Resolution) -> (r: Result<Person, String>)
    ensures
        match found@ {
            search::ResolutionRow::One(p) => r matches Ok(x) && x@ == p,
            search::ResolutionRow::Ambiguous(ps) => r matches Err(m) && m@ == ambiguous_text(
                selector@,
                ps,
            ),
            search::ResolutionRow::NotFound => r matches Err(m) && m@ == not_found_text(selector@),
        },
{
    let mut m: String = String::new();
    match found {
        Resolution::One(p) => {
            return Ok(p);
        },
        Resolution::Ambiguous(candidates) => {
            m.append("'");
            m.append(selector);
            m.append("' matches more than one person:\n");
            m.append(person_table(candidates.as_slice()).as_str());
            m.append("Rerun with the id.");
            assert(m@ =~= ambiguous_text(selector@, tables::rows(candidates@)));
        },
        Resolution::NotFound => {
            if is_all_digits(selector) {
                m.append("no person with id ");
                m.append(selector);
            } else {
                m.append("no person matching '");
                m.append(selector);
                m.append("' (try `org find ");
                m.append(selector);
                m.append("`)");
            }
            assert(m@ =~= not_found_text(selector@));
        },
    }
    Err(m)
}

} // verus!
