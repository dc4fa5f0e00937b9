//! Laws of texts that are made of lines.

use crate::text;
use vstd::prelude::*;

verus! {

/// How many lines a text ends.
pub open spec fn line_ends(s: Seq<char>) -> nat {
    s.filter(|c: char| c == '\n').len()
}

/// Whether a text stays on one line.
pub open spec fn is_one_line(s: Seq<char>) -> bool {
    forall|i: int| 0 <= i < s.len() ==> #[trigger] s[i] != '\n'
}

/// Two texts end as many lines together as apart.
pub proof fn line_ends_add_up(a: Seq<char>, b: Seq<char>)
    ensures
        line_ends(a + b) == line_ends(a) + line_ends(b),
{
    Seq::filter_distributes_over_add(a, b, |c: char| c == '\n');
}

/// A text that stays on one line ends none.
pub proof fn one_line_ends_none(s: Seq<char>)
    requires
        is_one_line(s),
    ensures
        line_ends(s) == 0,
{
    crate::laws::sequences::filter_of_none(s, |c: char| c == '\n');
}

/// A text on one line, followed by a line break, ends one line.
pub proof fn line_ends_once(s: Seq<char>)
    requires
        is_one_line(s),
    ensures
        line_ends(s + "\n"@) == 1,
{
    reveal_strlit("\n");
    line_ends_add_up(s, "\n"@);
    one_line_ends_none(s);
    crate::laws::sequences::filter_of_all("\n"@, |c: char| c == '\n');
}

/// Numbers stay on one line.
pub proof fn number_is_one_line(n: int)
    ensures
        is_one_line(text::decimal(n)),
{
    let s = text::decimal(n);
    if n < 0 {
        crate::search::decimal_is_digits((-n) as nat);
        let d = text::decimal_nat((-n) as nat);
        assert forall|i: int| 0 <= i < s.len() implies #[trigger] s[i] != '\n' by {
            if i > 0 {
                assert(s[i] == d[i - 1]);
                assert('0' <= d[i - 1]);
            }
        }
    } else {
        crate::search::decimal_is_digits(n as nat);
        let d = text::decimal_nat(n as nat);
        assert forall|i: int| 0 <= i < s.len() implies #[trigger] s[i] != '\n' by {
            assert('0' <= d[i]);
        }
    }
}

/// Where each item is told on a line, there are as many lines as items.
pub proof fn one_line_each<V>(s: Seq<V>, f: spec_fn(V) -> Seq<char>)
    requires
        forall|i: int| 0 <= i < s.len() ==> line_ends(f(#[trigger] s[i])) == 1,
    ensures
        line_ends(s.flat_map(f)) == s.len(),
    decreases s.len(),
{
    if s.len() == 0 {
        crate::laws::sequences::flat_map_of_none(s, f);
        one_line_ends_none(s.flat_map(f));
    } else {
        let rest = s.drop_last();
        assert forall|i: int| 0 <= i < rest.len() implies line_ends(f(#[trigger] rest[i])) == 1 by {
            assert(rest[i] == s[i]);
        }
        one_line_each(rest, f);
        rest.lemma_flat_map_push(f, s.last());
        assert(rest.push(s.last()) =~= s);
        assert(s[s.len() - 1] == s.last());
        line_ends_add_up(rest.flat_map(f), f(s.last()));
    }
}

} // verus!
