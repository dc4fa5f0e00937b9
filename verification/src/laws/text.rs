//! Laws of texts.

use crate::text::{self, WordClass};
use vstd::prelude::*;

verus! {

/// One text comes no later than another if it is the beginning of it, or if it has the
/// smaller character where the two first differ.
pub proof fn order_goes_by_the_first_difference(a: Seq<char>, b: Seq<char>)
    ensures
        text::text_le(a, b) <==> {
            ||| a.len() <= b.len() && forall|i: int| 0 <= i < a.len() ==> #[trigger] a[i] == b[i]
            ||| exists|k: int|
                0 <= k < a.len() && k < b.len() && #[trigger] a[k] < b[k] && forall|i: int|
                    0 <= i < k ==> a[i] == b[i]
        },
    decreases a.len(),
{
    if a.len() > 0 && b.len() > 0 && a[0] == b[0] {
        let x = a.drop_first();
        let y = b.drop_first();
        order_goes_by_the_first_difference(x, y);
        if text::text_le(a, b) {
            if x.len() <= y.len() && forall|i: int| 0 <= i < x.len() ==> #[trigger] x[i] == y[i] {
                assert forall|i: int| 0 <= i < a.len() implies #[trigger] a[i] == b[i] by {
                    if i > 0 {
                        assert(x[i - 1] == y[i - 1]);
                    }
                }
            } else {
                let k = choose|k: int|
                    0 <= k < x.len() && k < y.len() && #[trigger] x[k] < y[k] && forall|i: int|
                        0 <= i < k ==> x[i] == y[i];
                assert(a[k + 1] < b[k + 1]);
                assert forall|i: int| 0 <= i < k + 1 implies a[i] == b[i] by {
                    if i > 0 {
                        assert(x[i - 1] == y[i - 1]);
                    }
                }
            }
        }
        if a.len() <= b.len() && forall|i: int| 0 <= i < a.len() ==> #[trigger] a[i] == b[i] {
            assert forall|i: int| 0 <= i < x.len() implies #[trigger] x[i] == y[i] by {
                assert(a[i + 1] == b[i + 1]);
            }
        }
        if exists|k: int|
            0 <= k < a.len() && k < b.len() && #[trigger] a[k] < b[k] && forall|i: int|
                0 <= i < k ==> a[i] == b[i] {
            let k = choose|k: int|
                0 <= k < a.len() && k < b.len() && #[trigger] a[k] < b[k] && forall|i: int|
                    0 <= i < k ==> a[i] == b[i];
            assert(x[k - 1] < y[k - 1]);
            assert forall|i: int| 0 <= i < k - 1 implies x[i] == y[i] by {
                assert(a[i + 1] == b[i + 1]);
            }
        }
    } else if a.len() > 0 && b.len() > 0 {
        assert(a[0] != b[0]);
    }
}

/// A text stands in every text that goes on before and after it.
pub proof fn part_occurs(before: Seq<char>, part: Seq<char>, after: Seq<char>)
    ensures
        text::occurs(part, before + part + after),
{
    let whole = before + part + after;
    let i = before.len() as int;
    assert(whole.subrange(i, i + part.len()) =~= part);
}

/// A text that stands in another one is what comes before it, itself, and what comes
/// after it.
pub proof fn occurrence_splits(part: Seq<char>, whole: Seq<char>)
    requires
        text::occurs(part, whole),
    ensures
        exists|before: Seq<char>, after: Seq<char>|
            whole == #[trigger] (before + part + after),
{
    let i = choose|i: int|
        0 <= i && i + part.len() <= whole.len() && #[trigger] whole.subrange(i, i + part.len())
            == part;
    let before = whole.take(i);
    let after = whole.skip(i + part.len());
    assert(whole =~= before + part + after);
}

/// Trimming takes away the white space at both ends and nothing else.
pub proof fn trimming_takes_white_space_alone(
    before: Seq<char>,
    inner: Seq<char>,
    after: Seq<char>,
)
    requires
        forall|i: int| 0 <= i < before.len() ==> text::is_white(#[trigger] before[i]),
        forall|i: int| 0 <= i < after.len() ==> text::is_white(#[trigger] after[i]),
        inner.len() > 0,
        !text::is_white(inner[0]),
        !text::is_white(inner.last()),
    ensures
        text::trimmed(before + inner + after) == inner,
    decreases before.len() + after.len(),
{
    let whole = before + inner + after;
    if before.len() > 0 {
        let rest = before.drop_first();
        assert(whole[0] == before[0]);
        assert(whole.drop_first() =~= rest + inner + after);
        assert forall|i: int| 0 <= i < rest.len() implies text::is_white(#[trigger] rest[i]) by {
            assert(rest[i] == before[i + 1]);
        }
        trimming_takes_white_space_alone(rest, inner, after);
    } else if after.len() > 0 {
        let rest = after.drop_last();
        assert(whole[0] == inner[0]);
        assert(whole.last() == after[after.len() - 1]);
        assert(whole.drop_last() =~= before + inner + rest);
        assert forall|i: int| 0 <= i < rest.len() implies text::is_white(#[trigger] rest[i]) by {
            assert(rest[i] == after[i]);
        }
        trimming_takes_white_space_alone(before, inner, rest);
    } else {
        assert(whole =~= inner);
    }
}

/// A word stands alone: it is all of its class, and what comes right before or after
/// it is not.
pub proof fn words_stand_alone(
    before: Seq<char>,
    word: Seq<char>,
    after: Seq<char>,
    class: WordClass,
)
    ensures
        text::is_word_at(
            before + word + after,
            class,
            before.len() as int,
            (before.len() + word.len()) as int,
        ) <==> {
            &&& word.len() > 0
            &&& forall|i: int| 0 <= i < word.len() ==> class.admits(#[trigger] word[i])
            &&& before.len() > 0 ==> !class.admits(before.last())
            &&& after.len() > 0 ==> !class.admits(after[0])
        },
{
    let s = before + word + after;
    let i = before.len() as int;
    let j = i + word.len();
    if text::is_word_at(s, class, i, j) {
        assert forall|k: int| 0 <= k < word.len() implies class.admits(#[trigger] word[k]) by {
            assert(s[i + k] == word[k]);
        }
        if before.len() > 0 {
            assert(s[i - 1] == before.last());
        }
        if after.len() > 0 {
            assert(s[j] == after[0]);
        }
    }
    if word.len() > 0 && (forall|k: int|
        0 <= k < word.len() ==> class.admits(#[trigger] word[k])) && (before.len() > 0
        ==> !class.admits(before.last())) && (after.len() > 0 ==> !class.admits(after[0])) {
        assert forall|k: int| i <= k < j implies class.admits(#[trigger] s[k]) by {
            assert(s[k] == word[k - i]);
        }
        if i > 0 {
            assert(s[i - 1] == before.last());
        }
        if j < s.len() {
            assert(s[j] == after[0]);
        }
    }
}

/// A number is written digit by digit: a further digit stands at the end, and a minus
/// sign in front of what is below zero.
pub proof fn numbers_are_written_digit_by_digit(n: int, d: int)
    requires
        n >= 0,
        0 <= d < 10,
    ensures
        text::decimal(d) == seq!["0123456789"@[d]],
        n > 0 ==> text::decimal(10 * n + d) == text::decimal(n).push("0123456789"@[d]),
        n > 0 ==> text::decimal(-n) == seq!['-'] + text::decimal(n),
{
    reveal_strlit("0123456789");
    assert(text::digit(d as nat) == "0123456789"@[d]);
    assert(text::decimal(d) =~= seq!["0123456789"@[d]]);
    if n > 0 {
        let m = (10 * n + d) as nat;
        assert(m / 10 == n && m % 10 == d) by (nonlinear_arith)
            requires
                m == 10 * n + d,
                0 <= d < 10,
                n > 0,
        ;
    }
}

/// Filling up adds spaces up to the width asked for, on the one side or the other, and
/// never cuts anything off.
pub proof fn filling_up_only_adds_spaces(s: Seq<char>, width: int)
    ensures
        ({
            let l = text::left_aligned(s, width);
            let r = text::right_aligned(s, width);
            let n = if s.len() < width {
                width
            } else {
                s.len() as int
            };
            &&& l.len() == n && r.len() == n
            &&& l.take(s.len() as int) == s && r.skip(n - s.len()) == s
            &&& forall|i: int| s.len() <= i < n ==> #[trigger] l[i] == ' '
            &&& forall|i: int| 0 <= i < n - s.len() ==> #[trigger] r[i] == ' '
        }),
{
    let l = text::left_aligned(s, width);
    let r = text::right_aligned(s, width);
    assert(l.take(s.len() as int) =~= s);
    assert(r.skip(r.len() - s.len()) =~= s);
}

/// Only the 26 capital letters of ASCII have another lowercase form there, 32 further on.
pub proof fn lowering_moves_capitals_alone(s: Seq<char>, i: int)
    requires
        0 <= i < s.len(),
    ensures
        text::ascii_lowered(s).len() == s.len(),
        'A' <= s[i] <= 'Z' ==> text::ascii_lowered(s)[i] as u32 == s[i] as u32 + 32,
        !('A' <= s[i] <= 'Z') ==> text::ascii_lowered(s)[i] == s[i],
{
}

/// Which characters are white space, by their code points.
pub proof fn white_space_is_these(c: char)
    ensures
        text::is_white(c) <==> {
            let n = c as int;
            ||| 0x9 <= n <= 0xd
            ||| n == 0x20
            ||| n == 0x85
            ||| n == 0xa0
            ||| n == 0x1680
            ||| 0x2000 <= n <= 0x200a
            ||| 0x2028 <= n <= 0x2029
            ||| n == 0x202f
            ||| n == 0x205f
            ||| n == 0x3000
        },
{
    reveal(text::is_white);
}

/// Which characters of ASCII are letters and digits, by their code points, and that all
/// Latin letters with accents are letters; beyond them Unicode decides.
pub proof fn letters_and_digits_are_these(c: char)
    ensures
        ({
            let n = c as int;
            let latin = 0xc0 <= n <= 0x24f && n != 0xd7 && n != 0xf7;
            &&& n < 0x80 ==> (text::is_alphanumeric(c) <==> 0x30 <= n <= 0x39 || 0x41 <= n <= 0x5a
                || 0x61 <= n <= 0x7a)
            &&& latin ==> text::is_alphanumeric(c)
            &&& n >= 0x80 && !latin ==> text::is_alphanumeric(c) == text::alphanumeric(c)
        }),
{
}

} // verus!
