//! Title to seniority rank. Pure string heuristics.
//!
//! Titles are free text, so this can only ever be a best-effort keyword parse.
//! What keeps it honest: anything unrecognized is `None` rather than a guess, and
//! callers sort unknowns last. A wrong rank misleads, a missing one just does not
//! help.

use crate::text::{self, chars_of, lower_ascii, same_text, words_at, WordClass};
use std::cmp::Ordering;
use vstd::prelude::*;

verus! {

/// Seniority on one linear scale, individual contributors below management.
#[derive(Debug, Clone, Copy, PartialEq, Eq, Ord, Structural)]
pub enum Rank {
    Intern,
    Junior,
    Mid,
    Senior,
    Staff,
    Principal,
    Lead,
    Manager,
    Director,
    Vp,
    CLevel,
}

impl Rank {
    /// The rung of the ladder, counted from the bottom.
    pub open spec fn rung(self) -> int {
        match self {
            Rank::Intern => 0,
            Rank::Junior => 1,
            Rank::Mid => 2,
            Rank::Senior => 3,
            Rank::Staff => 4,
            Rank::Principal => 5,
            Rank::Lead => 6,
            Rank::Manager => 7,
            Rank::Director => 8,
            Rank::Vp => 9,
            Rank::CLevel => 10,
        }
    }

    /// The rung of the ladder, counted from the bottom.
    pub fn level(self) -> (r: u8)
        ensures
            r == self.rung(),
    {
        match self {
            Rank::Intern => 0,
            Rank::Junior => 1,
            Rank::Mid => 2,
            Rank::Senior => 3,
            Rank::Staff => 4,
            Rank::Principal => 5,
            Rank::Lead => 6,
            Rank::Manager => 7,
            Rank::Director => 8,
            Rank::Vp => 9,
            Rank::CLevel => 10,
        }
    }
}

impl PartialOrd for Rank {
    fn partial_cmp(&self, other: &Rank) -> (r: Option<Ordering>) {
        let a: u8 = self.level();
        let b: u8 = other.level();
        if a < b {
            Some(Ordering::Less)
        } else if a == b {
            Some(Ordering::Equal)
        } else {
            Some(Ordering::Greater)
        }
    }
}

impl vstd::std_specs::cmp::PartialOrdSpecImpl for Rank {
    open spec fn obeys_partial_cmp_spec() -> bool {
        true
    }

    open spec fn partial_cmp_spec(&self, other: &Rank) -> Option<Ordering> {
        if self.rung() < other.rung() {
            Some(Ordering::Less)
        } else if self.rung() == other.rung() {
            Some(Ordering::Equal)
        } else {
            Some(Ordering::Greater)
        }
    }
}

/// Two ranks on the same rung are the same rank.
pub proof fn rung_tells_ranks_apart(a: Rank, b: Rank)
    ensures
        a.rung() == b.rung() ==> a == b,
{
}

/// Whether `w` is one of the whole words of `title`, taken in lowercase.
pub open spec fn has_word(title: Seq<char>, w: Seq<char>) -> bool {
    exists|i: usize, j: usize|
        #[trigger] text::is_word_at(title, WordClass::Alphanumeric, i as int, j as int) && text::ascii_lowered(
            title.subrange(i as int, j as int),
        ) == w
}

/// The rank that a title names, read from the top of the ladder down. Ladder
/// levels ("SWE II", "Engineer 3") count only where no word form does.
pub open spec fn title_rank(title: Seq<char>) -> Option<Rank> {
    if has_word(title, "ceo"@) || has_word(title, "cto"@) || has_word(title, "cfo"@) || has_word(
        title,
        "coo"@,
    ) || has_word(title, "chief"@) {
        Some(Rank::CLevel)
    } else if has_word(title, "vp"@) || has_word(title, "vice"@) {
        Some(Rank::Vp)
    } else if has_word(title, "director"@) {
        Some(Rank::Director)
    } else if has_word(title, "manager"@) || has_word(title, "mgr"@) {
        Some(Rank::Manager)
    } else if has_word(title, "lead"@) {
        Some(Rank::Lead)
    } else if has_word(title, "principal"@) {
        Some(Rank::Principal)
    } else if has_word(title, "staff"@) {
        Some(Rank::Staff)
    } else if has_word(title, "senior"@) || has_word(title, "sr"@) {
        Some(Rank::Senior)
    } else if has_word(title, "junior"@) || has_word(title, "jr"@) {
        Some(Rank::Junior)
    } else if has_word(title, "intern"@) {
        Some(Rank::Intern)
    } else if has_word(title, "v"@) || has_word(title, "5"@) {
        Some(Rank::Principal)
    } else if has_word(title, "iv"@) || has_word(title, "4"@) {
        Some(Rank::Staff)
    } else if has_word(title, "iii"@) || has_word(title, "3"@) {
        Some(Rank::Senior)
    } else if has_word(title, "ii"@) || has_word(title, "2"@) {
        Some(Rank::Mid)
    } else if has_word(title, "i"@) || has_word(title, "1"@) {
        Some(Rank::Junior)
    } else {
        None
    }
}

/// Whether `w` is among `words`.
spec fn listed(words: Seq<String>, w: Seq<char>) -> bool {
    exists|k: int| 0 <= k < words.len() && #[trigger] words[k]@ == w
}

/// The whole words of `title` in lowercase.
fn title_words(title: &str) -> (r: Vec<String>)
    ensures
        forall|w: Seq<char>| #[trigger] has_word(title@, w) <==> listed(r@, w),
{
    let cs = chars_of(title);
    let at = words_at(&cs, WordClass::Alphanumeric);
    let mut out: Vec<String> = Vec::new();
    let mut n: usize = 0;
    while n < at.len()
        invariant
            cs@ == title@,
            n <= at@.len(),
            out@.len() == n,
            forall|k: int|
                0 <= k < at@.len() ==> text::is_word_at(
                    cs@,
                    WordClass::Alphanumeric,
                    (#[trigger] at@[k]).0 as int,
                    at@[k].1 as int,
                ),
            forall|k: int|
                0 <= k < n ==> (#[trigger] out@[k])@ == text::ascii_lowered(
                    title@.subrange(at@[k].0 as int, at@[k].1 as int),
                ),
        decreases at@.len() - n,
    {
        let (i, j) = at[n];
        assert(text::is_word_at(cs@, WordClass::Alphanumeric, i as int, j as int)) by {
            assert(at@[n as int] == (i, j));
        }
        let mut word: String = String::new();
        let mut k: usize = i;
        assert(text::ascii_lowered(cs@.subrange(i as int, i as int)) =~= Seq::<char>::empty());
        while k < j
            invariant
                i <= k <= j <= cs@.len(),
                word@ == text::ascii_lowered(cs@.subrange(i as int, k as int)),
            decreases j - k,
        {
            word.push(lower_ascii(cs[k]));
            assert(text::ascii_lowered(cs@.subrange(i as int, k + 1)) =~= text::ascii_lowered(
                cs@.subrange(i as int, k as int),
            ).push(text::ascii_lower(cs@[k as int])));
            k = k + 1;
        }
        out.push(word);
        n = n + 1;
    }
    proof {
        assert forall|w: Seq<char>| #[trigger] has_word(title@, w) <==> listed(out@, w) by {
            if has_word(title@, w) {
                let (i, j) = choose|i: usize, j: usize|
                    #[trigger] text::is_word_at(title@, WordClass::Alphanumeric, i as int, j as int)
                        && text::ascii_lowered(title@.subrange(i as int, j as int)) == w;
                assert(at@.contains((i, j)));
                let k = choose|k: int| 0 <= k < at@.len() && at@[k] == (i, j);
                assert(out@[k]@ == w);
            }
            if listed(out@, w) {
                let k = choose|k: int| 0 <= k < out@.len() && #[trigger] out@[k]@ == w;
                let (i, j) = at@[k];
                assert(text::is_word_at(title@, WordClass::Alphanumeric, i as int, j as int));
            }
        }
    }
    out
}

/// Whether `w` is among `words`.
fn has(words: &Vec<String>, w: &str) -> (r: bool)
    ensures
        r == listed(words@, w@),
{
    let mut k: usize = 0;
    while k < words.len()
        invariant
            k <= words@.len(),
            forall|i: int| 0 <= i < k ==> (#[trigger] words@[i])@ != w@,
        decreases words@.len() - k,
    {
        if same_text(words[k].as_str(), w) {
            return true;
        }
        k = k + 1;
    }
    false
}

/// Parses a job title into a [`Rank`], or `None` if nothing is recognizable.
///
/// Matching is on whole lowercased words, so "senior" cannot match inside another
/// word, and goes from the top of the ladder down, so that "Senior Engineering
/// Manager" is a manager.
pub fn rank_title(title: &str) -> (r: Option<Rank>)
    ensures
        r == title_rank(title@),
{
    let words = title_words(title);
    if has(&words, "ceo") || has(&words, "cto") || has(&words, "cfo") || has(&words, "coo") || has(
        &words,
        "chief",
    ) {
        return Some(Rank::CLevel);
    }
    if has(&words, "vp") || has(&words, "vice") {
        return Some(Rank::Vp);
    }
    if has(&words, "director") {
        return Some(Rank::Director);
    }
    if has(&words, "manager") || has(&words, "mgr") {
        return Some(Rank::Manager);
    }
    if has(&words, "lead") {
        return Some(Rank::Lead);
    }
    if has(&words, "principal") {
        return Some(Rank::Principal);
    }
    if has(&words, "staff") {
        return Some(Rank::Staff);
    }
    if has(&words, "senior") || has(&words, "sr") {
        return Some(Rank::Senior);
    }
    if has(&words, "junior") || has(&words, "jr") {
        return Some(Rank::Junior);
    }
    if has(&words, "intern") {
        return Some(Rank::Intern);
    }
    if has(&words, "v") || has(&words, "5") {
        return Some(Rank::Principal);
    }
    if has(&words, "iv") || has(&words, "4") {
        return Some(Rank::Staff);
    }
    if has(&words, "iii") || has(&words, "3") {
        return Some(Rank::Senior);
    }
    if has(&words, "ii") || has(&words, "2") {
        return Some(Rank::Mid);
    }
    if has(&words, "i") || has(&words, "1") {
        return Some(Rank::Junior);
    }
    None
}

/// The rank of an optional title: people may have no title at all.
pub open spec fn opt_title_rank(title: Option<Seq<char>>) -> Option<Rank> {
    match title {
        Some(t) => title_rank(t),
        None => None,
    }
}

/// The rank for an optional title.
pub fn rank_of(title: Option<&str>) -> (r: Option<Rank>)
    ensures
        r == (match title {
            Some(t) => title_rank(t@),
            None => None,
        }),
{
    match title {
        Some(t) => rank_title(t),
        None => None,
    }
}

/// Titles that differ only in the case of ASCII letters name the same rank.
pub proof fn title_case_is_ignored(a: Seq<char>, b: Seq<char>)
    requires
        text::ascii_lowered(a) == text::ascii_lowered(b),
    ensures
        title_rank(a) == title_rank(b),
{
    assert forall|w: Seq<char>| #[trigger] has_word(a, w) == has_word(b, w) by {
        if has_word(a, w) {
            same_words(a, b, w);
        }
        if has_word(b, w) {
            same_words(b, a, w);
        }
    }
}

proof fn same_words(a: Seq<char>, b: Seq<char>, w: Seq<char>)
    requires
        text::ascii_lowered(a) == text::ascii_lowered(b),
        has_word(a, w),
    ensures
        has_word(b, w),
{
    let class = WordClass::Alphanumeric;
    let (i, j) = choose|i: usize, j: usize| #[trigger]
        text::is_word_at(a, class, i as int, j as int) && text::ascii_lowered(
            a.subrange(i as int, j as int),
        ) == w;
    assert(text::ascii_lowered(a).len() == a.len() && text::ascii_lowered(b).len() == b.len());
    assert forall|k: int| 0 <= k < a.len() implies text::ascii_lower(#[trigger] a[k])
        == text::ascii_lower(b[k]) && class.admits(a[k]) == class.admits(b[k]) by {
        assert(text::ascii_lowered(a)[k] == text::ascii_lower(a[k]));
        assert(text::ascii_lowered(b)[k] == text::ascii_lower(b[k]));
    }
    assert forall|k: int| i <= k < j implies class.admits(#[trigger] b[k]) by {
        assert(class.admits(a[k]));
    }
    if i > 0 {
        assert(!class.admits(a[i - 1]));
    }
    if j < a.len() {
        assert(!class.admits(a[j as int]));
    }
    assert(text::is_word_at(b, class, i as int, j as int));
    assert(text::ascii_lowered(b.subrange(i as int, j as int)) =~= w) by {
        assert forall|k: int| 0 <= k < j - i implies #[trigger] text::ascii_lower(
            b.subrange(i as int, j as int)[k],
        ) == w[k] by {
            assert(text::ascii_lower(a[i + k]) == text::ascii_lower(b[i + k]));
            assert(w[k] == text::ascii_lower(a.subrange(i as int, j as int)[k]));
        }
    }
}

/// The rank that a word names by itself.
pub open spec fn word_rank(w: Seq<char>) -> Option<Rank> {
    if w == "ceo"@ || w == "cto"@ || w == "cfo"@ || w == "coo"@ || w == "chief"@ {
        Some(Rank::CLevel)
    } else if w == "vp"@ || w == "vice"@ {
        Some(Rank::Vp)
    } else if w == "director"@ {
        Some(Rank::Director)
    } else if w == "manager"@ || w == "mgr"@ {
        Some(Rank::Manager)
    } else if w == "lead"@ {
        Some(Rank::Lead)
    } else if w == "principal"@ {
        Some(Rank::Principal)
    } else if w == "staff"@ {
        Some(Rank::Staff)
    } else if w == "senior"@ || w == "sr"@ {
        Some(Rank::Senior)
    } else if w == "junior"@ || w == "jr"@ {
        Some(Rank::Junior)
    } else if w == "intern"@ {
        Some(Rank::Intern)
    } else {
        None
    }
}

/// The rank that a ladder level names where no word does.
pub open spec fn level_rank(w: Seq<char>) -> Option<Rank> {
    if w == "v"@ || w == "5"@ {
        Some(Rank::Principal)
    } else if w == "iv"@ || w == "4"@ {
        Some(Rank::Staff)
    } else if w == "iii"@ || w == "3"@ {
        Some(Rank::Senior)
    } else if w == "ii"@ || w == "2"@ {
        Some(Rank::Mid)
    } else if w == "i"@ || w == "1"@ {
        Some(Rank::Junior)
    } else {
        None
    }
}

/// A compound title takes the higher track: no word of a title names a higher rank
/// than the title has, and where some word names one, a word names the title's.
pub proof fn highest_word_decides(title: Seq<char>, w: Seq<char>)
    requires
        has_word(title, w),
        word_rank(w) is Some,
    ensures
        title_rank(title) matches Some(r) && r.rung() >= word_rank(w)->0.rung(),
        exists|x: Seq<char>| #[trigger]
            has_word(title, x) && word_rank(x) == title_rank(title),
{
    let r = title_rank(title);
    if r == Some(Rank::CLevel) {
        if has_word(title, "ceo"@) {
            assert(word_rank("ceo"@) == r);
        } else if has_word(title, "cto"@) {
            assert(word_rank("cto"@) == r);
        } else if has_word(title, "cfo"@) {
            assert(word_rank("cfo"@) == r);
        } else if has_word(title, "coo"@) {
            assert(word_rank("coo"@) == r);
        } else {
            assert(word_rank("chief"@) == r);
        }
    }
}

/// A ladder level decides only where no word names a rank, and then the highest does:
/// no level of the title is higher than the title's rank, and one names it.
pub proof fn highest_level_decides(title: Seq<char>, w: Seq<char>)
    requires
        has_word(title, w),
        level_rank(w) is Some,
        forall|x: Seq<char>| #[trigger] has_word(title, x) ==> word_rank(x) is None,
    ensures
        title_rank(title) matches Some(r) && r.rung() >= level_rank(w)->0.rung(),
        exists|x: Seq<char>| #[trigger]
            has_word(title, x) && level_rank(x) == title_rank(title),
{
}

/// No keyword counts inside another word: a title of letters and digits alone, of
/// whatever script, has no word but the whole of it.
pub proof fn single_word_is_whole(title: Seq<char>, w: Seq<char>)
    requires
        forall|k: int| 0 <= k < title.len() ==> text::is_alphanumeric(#[trigger] title[k]),
        has_word(title, w),
    ensures
        w == text::ascii_lowered(title),
{
    let class = WordClass::Alphanumeric;
    let (i, j) = choose|i: usize, j: usize| #[trigger]
        text::is_word_at(title, class, i as int, j as int) && text::ascii_lowered(
            title.subrange(i as int, j as int),
        ) == w;
    if i > 0 {
        assert(class.admits(title[i - 1]));
    }
    if j < title.len() {
        assert(class.admits(title[j as int]));
    }
    assert(title.subrange(0, title.len() as int) =~= title);
}

/// A title without a word that is known has no rank, rather than a guess.
pub proof fn unknown_title_has_no_rank(title: Seq<char>)
    requires
        forall|x: Seq<char>| #[trigger]
            has_word(title, x) ==> word_rank(x) is None && level_rank(x) is None,
    ensures
        title_rank(title) is None,
{
}

} // verus!
