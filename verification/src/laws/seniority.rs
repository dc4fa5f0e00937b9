//! Laws of job titles.

use crate::seniority::{self, Rank};
use crate::text::{self, WordClass};
use vstd::prelude::*;

verus! {

/// A run of letters and digits is a word of a title, in lowercase, if nothing of the kind
/// comes right before or after it.
pub proof fn title_has_its_words(before: Seq<char>, word: Seq<char>, after: Seq<char>)
    requires
        word.len() > 0,
        forall|i: int| 0 <= i < word.len() ==> text::is_alphanumeric(#[trigger] word[i]),
        before.len() > 0 ==> !text::is_alphanumeric(before.last()),
        after.len() > 0 ==> !text::is_alphanumeric(after[0]),
        before.len() + word.len() + after.len() <= usize::MAX,
    ensures
        seniority::has_word(before + word + after, text::ascii_lowered(word)),
{
    let class = WordClass::Alphanumeric;
    let title = before + word + after;
    let i = before.len() as usize;
    let j = (before.len() + word.len()) as usize;
    assert forall|k: int| 0 <= k < word.len() implies class.admits(#[trigger] word[k]) by {}
    crate::laws::text::words_stand_alone(before, word, after, class);
    assert(text::is_word_at(title, class, i as int, j as int));
    assert(title.subrange(i as int, j as int) =~= word);
}

/// A title has no other words than those.
pub proof fn title_has_no_other_words(title: Seq<char>, w: Seq<char>)
    requires
        seniority::has_word(title, w),
    ensures
        exists|before: Seq<char>, word: Seq<char>, after: Seq<char>|
            {
                &&& title == #[trigger] (before + word + after)
                &&& text::ascii_lowered(word) == w
                &&& word.len() > 0
                &&& forall|i: int| 0 <= i < word.len() ==> text::is_alphanumeric(#[trigger] word[i])
                &&& before.len() > 0 ==> !text::is_alphanumeric(before.last())
                &&& after.len() > 0 ==> !text::is_alphanumeric(after[0])
            },
{
    let class = WordClass::Alphanumeric;
    let (i, j) = choose|i: usize, j: usize| #[trigger]
        text::is_word_at(title, class, i as int, j as int) && text::ascii_lowered(
            title.subrange(i as int, j as int),
        ) == w;
    let before = title.take(i as int);
    let word = title.subrange(i as int, j as int);
    let after = title.skip(j as int);
    assert(title =~= before + word + after);
    crate::laws::text::words_stand_alone(before, word, after, class);
    assert forall|k: int| 0 <= k < word.len() implies text::is_alphanumeric(
        #[trigger] word[k],
    ) by {
        assert(class.admits(word[k]));
    }
    assert(before.len() > 0 ==> !class.admits(before.last()));
    assert(after.len() > 0 ==> !class.admits(after[0]));
}

/// Which words name which rank: a title has the highest rank that a word of it names,
/// ladder levels count only where there is no such word, and there is no rank where
/// there is neither.
pub proof fn ranks_go_by_words(title: Seq<char>)
    ensures
        ({
            let has = |w: Seq<char>| seniority::has_word(title, w);
            let chief = has("ceo"@) || has("cto"@) || has("cfo"@) || has("coo"@) || has("chief"@);
            let vice = has("vp"@) || has("vice"@);
            let director = has("director"@);
            let manager = has("manager"@) || has("mgr"@);
            let lead = has("lead"@);
            let principal = has("principal"@);
            let staff = has("staff"@);
            let senior = has("senior"@) || has("sr"@);
            let junior = has("junior"@) || has("jr"@);
            let intern = has("intern"@);
            let above_lead = chief || vice || director || manager;
            let above_senior = above_lead || lead || principal || staff;
            let word = above_senior || senior || junior || intern;
            let five = has("v"@) || has("5"@);
            let four = has("iv"@) || has("4"@);
            let three = has("iii"@) || has("3"@);
            let two = has("ii"@) || has("2"@);
            let one = has("i"@) || has("1"@);
            let r = seniority::title_rank(title);
            &&& r == Some(Rank::CLevel) <==> chief
            &&& r == Some(Rank::Vp) <==> vice && !chief
            &&& r == Some(Rank::Director) <==> director && !vice && !chief
            &&& r == Some(Rank::Manager) <==> manager && !director && !vice && !chief
            &&& r == Some(Rank::Lead) <==> lead && !above_lead
            &&& r == Some(Rank::Principal) <==> (principal && !lead && !above_lead) || (!word
                && five)
            &&& r == Some(Rank::Staff) <==> (staff && !principal && !lead && !above_lead) || (!word
                && four && !five)
            &&& r == Some(Rank::Senior) <==> (senior && !above_senior) || (!word && three && !four
                && !five)
            &&& r == Some(Rank::Mid) <==> !word && two && !three && !four && !five
            &&& r == Some(Rank::Junior) <==> (junior && !senior && !above_senior) || (!word && one
                && !two && !three && !four && !five)
            &&& r == Some(Rank::Intern) <==> intern && !junior && !senior && !above_senior
            &&& r is None <==> !word && !one && !two && !three && !four && !five
        }),
{
}

/// The ladder, from the bottom up: an intern below everyone, a chief above everyone, and
/// every individual contributor below every manager.
pub proof fn ladder_goes_up()
    ensures
        Rank::Intern.rung() < Rank::Junior.rung() < Rank::Mid.rung() < Rank::Senior.rung()
            < Rank::Staff.rung() < Rank::Principal.rung() < Rank::Lead.rung()
            < Rank::Manager.rung() < Rank::Director.rung() < Rank::Vp.rung()
            < Rank::CLevel.rung(),
{
}

/// Someone without a title has no rank, and someone with one has that of the title.
pub proof fn no_title_no_rank(title: Seq<char>)
    ensures
        seniority::opt_title_rank(None) is None,
        seniority::opt_title_rank(Some(title)) == seniority::title_rank(title),
{
}

} // verus!
