//! How many typos lie between two texts.

use vstd::prelude::*;

verus! {

/// The least number of single characters to insert, delete or replace to make one
/// text into the other, found from the ends of the two texts.
pub open spec fn edit_distance(a: Seq<char>, b: Seq<char>) -> nat
    decreases a.len() + b.len(),
{
    if a.len() == 0 {
        b.len()
    } else if b.len() == 0 {
        a.len()
    } else {
        let delete = edit_distance(a.drop_last(), b) + 1;
        let insert = edit_distance(a, b.drop_last()) + 1;
        let replace = edit_distance(a.drop_last(), b.drop_last()) + if a.last() == b.last() {
            0nat
        } else {
            1nat
        };
        if delete <= insert && delete <= replace {
            delete
        } else if insert <= replace {
            insert
        } else {
            replace
        }
    }
}

/// `strsim::levenshtein` counts the least number of insertions, deletions and
/// replacements of characters (Unicode scalar values) between two texts.
pub assume_specification[ strsim::levenshtein ](a: &str, b: &str) -> (d: usize)
    ensures
        d == edit_distance(a@, b@),
;

/// Whether one character inserted, deleted or replaced makes `a` into `c`.
pub open spec fn is_edit(a: Seq<char>, c: Seq<char>) -> bool {
    ||| exists|i: int, x: char| 0 <= i <= a.len() && c == #[trigger] a.insert(i, x)
    ||| exists|i: int| 0 <= i < a.len() && c == #[trigger] a.remove(i)
    ||| exists|i: int, x: char| 0 <= i < a.len() && c == #[trigger] a.update(i, x)
}

/// Whether at most `n` edits make `a` into `b`.
pub open spec fn within_edits(a: Seq<char>, b: Seq<char>, n: nat) -> bool
    decreases n,
{
    a == b || (n > 0 && exists|c: Seq<char>| #[trigger]
        is_edit(a, c) && within_edits(c, b, (n - 1) as nat))
}

proof fn push_drop(a: Seq<char>, x: char)
    ensures
        a.push(x).drop_last() == a,
        a.push(x).last() == x,
{
    assert(a.push(x).drop_last() =~= a);
}

/// One character more at the end of either text is one edit more at most.
proof fn longer_by_one(a: Seq<char>, b: Seq<char>, x: char)
    ensures
        edit_distance(a.push(x), b) <= edit_distance(a, b) + 1,
        edit_distance(a, b.push(x)) <= edit_distance(a, b) + 1,
{
    push_drop(a, x);
    push_drop(b, x);
}

/// One character less at the end of the first text is one edit more at most.
proof fn shorter_by_one(a: Seq<char>, b: Seq<char>, x: char)
    ensures
        edit_distance(a, b) <= edit_distance(a.push(x), b) + 1,
    decreases b.len(),
{
    push_drop(a, x);
    if b.len() > 0 {
        shorter_by_one(a, b.drop_last(), x);
        longer_by_one(a, b.drop_last(), b.last());
        assert(b.drop_last().push(b.last()) =~= b);
    }
}

/// Another last character in the first text is one edit more at most.
proof fn other_last(a: Seq<char>, b: Seq<char>, x: char, y: char)
    ensures
        edit_distance(a.push(x), b) <= edit_distance(a.push(y), b) + 1,
    decreases b.len(),
{
    push_drop(a, x);
    push_drop(a, y);
    if b.len() > 0 {
        other_last(a, b.drop_last(), x, y);
    }
}

/// Where the distances from two texts differ by one at most, they still do once both
/// texts go on with the same character.
proof fn same_last(a: Seq<char>, c: Seq<char>, b: Seq<char>, x: char)
    requires
        forall|d: Seq<char>| edit_distance(a, d) <= #[trigger] edit_distance(c, d) + 1,
    ensures
        edit_distance(a.push(x), b) <= edit_distance(c.push(x), b) + 1,
    decreases b.len(),
{
    push_drop(a, x);
    push_drop(c, x);
    if b.len() > 0 {
        same_last(a, c, b.drop_last(), x);
        assert(edit_distance(a, b) <= edit_distance(c, b) + 1);
        assert(edit_distance(a, b.drop_last()) <= edit_distance(c, b.drop_last()) + 1);
    } else {
        let none = Seq::<char>::empty();
        assert(edit_distance(a, none) <= edit_distance(c, none) + 1);
        assert(edit_distance(a, none) == a.len());
        assert(edit_distance(c, none) == c.len());
        assert(edit_distance(a.push(x), b) == a.len() + 1);
        assert(edit_distance(c.push(x), b) == c.len() + 1);
    }
}

/// One edit takes a text one step closer to any other text, and no more.
proof fn edit_costs_one(a: Seq<char>, c: Seq<char>)
    requires
        is_edit(a, c),
    ensures
        forall|b: Seq<char>| edit_distance(a, b) <= #[trigger] edit_distance(c, b) + 1,
    decreases a.len() + c.len(),
{
    assert forall|b: Seq<char>| edit_distance(a, b) <= #[trigger] edit_distance(c, b) + 1 by {
        if exists|i: int, x: char| 0 <= i <= a.len() && c == #[trigger] a.insert(i, x) {
            let (i, x) = choose|i: int, x: char| 0 <= i <= a.len() && c == #[trigger] a.insert(i, x);
            if i == a.len() {
                assert(c =~= a.push(x));
                shorter_by_one(a, b, x);
            } else {
                let a1 = a.drop_last();
                assert(a1.insert(i, x) =~= c.drop_last());
                assert(c.last() == a.last());
                edit_costs_one(a1, c.drop_last());
                same_last(a1, c.drop_last(), b, a.last());
                assert(a1.push(a.last()) =~= a);
                assert(c.drop_last().push(a.last()) =~= c);
            }
        } else if exists|i: int| 0 <= i < a.len() && c == #[trigger] a.remove(i) {
            let i = choose|i: int| 0 <= i < a.len() && c == #[trigger] a.remove(i);
            if i == a.len() - 1 {
                assert(a =~= c.push(a.last()));
                longer_by_one(c, b, a.last());
            } else {
                let a1 = a.drop_last();
                assert(a1.remove(i) =~= c.drop_last());
                assert(c.last() == a.last());
                edit_costs_one(a1, c.drop_last());
                same_last(a1, c.drop_last(), b, a.last());
                assert(a1.push(a.last()) =~= a);
                assert(c.drop_last().push(a.last()) =~= c);
            }
        } else {
            let (i, x) = choose|i: int, x: char| 0 <= i < a.len() && c == #[trigger] a.update(i, x);
            let a1 = a.drop_last();
            assert(a1.push(a.last()) =~= a);
            if i == a.len() - 1 {
                assert(c =~= a1.push(x));
                other_last(a1, b, a.last(), x);
            } else {
                assert(a1.update(i, x) =~= c.drop_last());
                assert(c.last() == a.last());
                edit_costs_one(a1, c.drop_last());
                same_last(a1, c.drop_last(), b, a.last());
                assert(c.drop_last().push(a.last()) =~= c);
            }
        }
    }
}

proof fn same_text_no_edit(a: Seq<char>)
    ensures
        edit_distance(a, a) == 0,
    decreases a.len(),
{
    if a.len() > 0 {
        same_text_no_edit(a.drop_last());
    }
}

/// The same edits work on texts that both go on with one more character.
proof fn edits_before_last(a: Seq<char>, b: Seq<char>, n: nat, x: char)
    requires
        within_edits(a, b, n),
    ensures
        within_edits(a.push(x), b.push(x), n),
    decreases n,
{
    if a != b {
        let c = choose|c: Seq<char>| #[trigger]
            is_edit(a, c) && within_edits(c, b, (n - 1) as nat);
        edits_before_last(c, b, (n - 1) as nat, x);
        assert(is_edit(a.push(x), c.push(x))) by {
            if exists|i: int, y: char| 0 <= i <= a.len() && c == #[trigger] a.insert(i, y) {
                let (i, y) = choose|i: int, y: char|
                    0 <= i <= a.len() && c == #[trigger] a.insert(i, y);
                assert(c.push(x) =~= a.push(x).insert(i, y));
            } else if exists|i: int| 0 <= i < a.len() && c == #[trigger] a.remove(i) {
                let i = choose|i: int| 0 <= i < a.len() && c == #[trigger] a.remove(i);
                assert(c.push(x) =~= a.push(x).remove(i));
            } else {
                let (i, y) = choose|i: int, y: char|
                    0 <= i < a.len() && c == #[trigger] a.update(i, y);
                assert(c.push(x) =~= a.push(x).update(i, y));
            }
        }
    }
}

proof fn more_edits_allowed(a: Seq<char>, b: Seq<char>, n: nat, m: nat)
    requires
        within_edits(a, b, n),
        n <= m,
    ensures
        within_edits(a, b, m),
    decreases n,
{
    if a != b {
        let c = choose|c: Seq<char>| #[trigger]
            is_edit(a, c) && within_edits(c, b, (n - 1) as nat);
        more_edits_allowed(c, b, (n - 1) as nat, (m - 1) as nat);
    }
}

proof fn distance_is_enough(a: Seq<char>, b: Seq<char>)
    ensures
        within_edits(a, b, edit_distance(a, b)),
    decreases a.len() + b.len(),
{
    let d = edit_distance(a, b);
    if a.len() == 0 && b.len() == 0 {
        assert(a =~= b);
    } else if b.len() == 0 || (a.len() > 0 && d == edit_distance(a.drop_last(), b) + 1) {
        let c = a.drop_last();
        distance_is_enough(c, b);
        assert(c =~= a.remove(a.len() - 1));
        assert(is_edit(a, c));
    } else if a.len() == 0 || d == edit_distance(a, b.drop_last()) + 1 {
        let c = a.push(b.last());
        distance_is_enough(a, b.drop_last());
        edits_before_last(a, b.drop_last(), (d - 1) as nat, b.last());
        assert(b.drop_last().push(b.last()) =~= b);
        assert(c =~= a.insert(a.len() as int, b.last()));
        assert(is_edit(a, c));
    } else {
        let rest = edit_distance(a.drop_last(), b.drop_last());
        let c = a.drop_last().push(b.last());
        distance_is_enough(a.drop_last(), b.drop_last());
        edits_before_last(a.drop_last(), b.drop_last(), rest, b.last());
        assert(b.drop_last().push(b.last()) =~= b);
        if a.last() == b.last() {
            assert(c =~= a);
        } else {
            assert(c =~= a.update(a.len() - 1, b.last()));
            assert(is_edit(a, c));
        }
    }
}

/// The distance is the least number of edits: `n` edits are enough to make `a` into
/// `b` if and only if the distance is at most `n`.
pub proof fn edit_distance_is_least(a: Seq<char>, b: Seq<char>, n: nat)
    ensures
        within_edits(a, b, n) <==> edit_distance(a, b) <= n,
    decreases n,
{
    if within_edits(a, b, n) {
        if a == b {
            same_text_no_edit(a);
        } else {
            let c = choose|c: Seq<char>| #[trigger]
                is_edit(a, c) && within_edits(c, b, (n - 1) as nat);
            edit_distance_is_least(c, b, (n - 1) as nat);
            edit_costs_one(a, c);
            assert(edit_distance(a, b) <= edit_distance(c, b) + 1);
        }
    }
    if edit_distance(a, b) <= n {
        distance_is_enough(a, b);
        more_edits_allowed(a, b, edit_distance(a, b), n);
    }
}

} // verus!
