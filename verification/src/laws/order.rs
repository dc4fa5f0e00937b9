//! Laws of sorting.

use crate::order::{self, SiblingKey};
use crate::seniority;
use crate::text;
use vstd::prelude::*;

verus! {

/// Sorting by an order that compares any two items keeps the items, puts each before every
/// later one by that order, and leaves those that compare equal as they stood.
pub proof fn sorting_moves_items_alone<V>(s: Seq<V>, le: spec_fn(V, V) -> bool, x: V)
    requires
        forall|a: V, b: V| #[trigger] le(a, b) || le(b, a),
        forall|a: V, b: V, c: V| #[trigger] le(a, b) && #[trigger] le(b, c) ==> le(a, c),
    ensures
        order::in_order(s, le).to_multiset() == s.to_multiset(),
        order::in_order(s, le).len() == s.len(),
        forall|i: int, j: int|
            0 <= i < j < s.len() ==> le(
                #[trigger] order::in_order(s, le)[i],
                #[trigger] order::in_order(s, le)[j],
            ),
        order::in_order(s, le).filter(|y: V| le(x, y) && le(y, x)) == s.filter(
            |y: V| le(x, y) && le(y, x),
        ),
{
    order::in_order_sorts(s, le);
    order::in_order_is_stable(s, x, le);
}

/// Whether somebody may stand before somebody else: of a known rank before an unknown one,
/// of a higher before a lower, and with the earlier name where the ranks are the same.
pub open spec fn may_stand_before(
    title_a: Option<Seq<char>>,
    name_a: Seq<char>,
    title_b: Option<Seq<char>>,
    name_b: Seq<char>,
) -> bool {
    let x = match title_a {
        Some(s) => seniority::title_rank(s),
        None => None,
    };
    let y = match title_b {
        Some(s) => seniority::title_rank(s),
        None => None,
    };
    ||| x == y && text::text_le(name_a, name_b)
    ||| x is Some && y is None
    ||| x is Some && y is Some && x->0.rung() > y->0.rung()
}

/// That is the order of siblings and of listings.
pub proof fn seniors_come_first(
    title_a: Option<Seq<char>>,
    name_a: Seq<char>,
    title_b: Option<Seq<char>>,
    name_b: Seq<char>,
)
    ensures
        order::senior_first(title_a, name_a, title_b, name_b) <==> may_stand_before(
            title_a,
            name_a,
            title_b,
            name_b,
        ),
{
    if let (Some(s), Some(r)) = (title_a, title_b) {
        if let (Some(x), Some(y)) = (seniority::title_rank(s), seniority::title_rank(r)) {
            seniority::rung_tells_ranks_apart(x, y);
        }
    }
}

/// Among siblings a known rank stands before an unknown one and a higher before a lower;
/// the name decides between equal ranks.
pub proof fn siblings_go_by_rank_then_name(a: SiblingKey, b: SiblingKey)
    ensures
        a.rank is Some && b.rank is None ==> a.first(b) && !b.first(a),
        a.rank is Some && b.rank is Some && a.rank->0.rung() > b.rank->0.rung() ==> a.first(b)
            && !b.first(a),
        a.rank == b.rank ==> a.first(b) == text::text_le(a.name@, b.name@),
{
}

} // verus!
