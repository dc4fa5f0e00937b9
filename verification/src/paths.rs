//! File paths as text, with `/` between their parts.

use crate::text::{chars_of, string_of};
use vstd::prelude::*;
use vstd::string::*;

verus! {

/// The path that leads from `base` to `leaf`: an absolute `leaf` stands alone, and
/// a separator goes between the two unless `base` is empty or ends in one.
pub open spec fn joined(base: Seq<char>, leaf: Seq<char>) -> Seq<char> {
    if base.len() == 0 || (leaf.len() > 0 && leaf[0] == '/') {
        leaf
    } else if base.last() == '/' {
        base + leaf
    } else {
        base.push('/') + leaf
    }
}

/// The path that leads from `base` to `leaf`.
pub fn join(base: &str, leaf: &str) -> (r: String)
    ensures
        r@ == joined(base@, leaf@),
{
    let b = chars_of(base);
    let l = chars_of(leaf);
    let mut out: String = String::new();
    if b.len() == 0 || (l.len() > 0 && l[0] == '/') {
        out.append(leaf);
        assert(out@ =~= joined(base@, leaf@));
        return out;
    }
    out.append(base);
    if b[b.len() - 1] != '/' {
        out.push('/');
    }
    out.append(leaf);
    assert(out@ =~= joined(base@, leaf@));
    out
}

/// `path` without what does not count at its end: separators, and parts that are `.`.
/// The root, and a `.` that a path begins with, stay.
pub open spec fn tidy(path: Seq<char>) -> Seq<char>
    decreases path.len(),
{
    if path.len() > 1 && (path.last() == '/' || (path.last() == '.' && path[path.len() - 2]
        == '/')) {
        tidy(path.drop_last())
    } else {
        path
    }
}

/// `path` up to its last separator, that one included.
pub open spec fn through_separator(path: Seq<char>) -> Seq<char>
    decreases path.len(),
{
    if path.len() == 0 || path.last() == '/' {
        path
    } else {
        through_separator(path.drop_last())
    }
}

/// The path without its last part; none where there is no part to leave out.
pub open spec fn parent(path: Seq<char>) -> Option<Seq<char>> {
    let t = tidy(path);
    if t.len() == 0 || t == seq!['/'] {
        None
    } else {
        Some(tidy(through_separator(t)))
    }
}

/// The end of the first `n` characters of `cs` without what does not count there.
fn tidy_end(cs: &Vec<char>, n: usize) -> (r: usize)
    requires
        n <= cs@.len(),
    ensures
        r <= n,
        cs@.take(r as int) == tidy(cs@.take(n as int)),
{
    let mut k: usize = n;
    while k > 1 && (cs[k - 1] == '/' || (cs[k - 1] == '.' && cs[k - 2] == '/'))
        invariant
            k <= n <= cs@.len(),
            tidy(cs@.take(k as int)) == tidy(cs@.take(n as int)),
        decreases k,
    {
        assert(cs@.take(k as int).drop_last() =~= cs@.take(k - 1));
        k = k - 1;
    }
    k
}

/// The path without its last part; none where there is no part to leave out.
pub fn parent_of(path: &str) -> (r: Option<String>)
    ensures
        match r {
            Some(p) => parent(path@) == Some(p@),
            None => parent(path@) is None,
        },
{
    let cs = chars_of(path);
    assert(cs@.take(cs@.len() as int) =~= path@);
    let end: usize = tidy_end(&cs, cs.len());
    let ghost t = tidy(path@);
    if end == 0 || (end == 1 && cs[0] == '/') {
        assert(end == 1 ==> t =~= seq!['/']);
        return None;
    }
    assert(t != seq!['/']) by {
        let root = seq!['/'];
        assert(t == cs@.take(end as int));
        assert(root.len() == 1 && root[0] == '/');
        if t == root {
            assert(t[0] == cs@[0]);
        }
    }
    let mut k: usize = end;
    while k > 0 && cs[k - 1] != '/'
        invariant
            k <= end <= cs@.len(),
            through_separator(cs@.take(k as int)) == through_separator(cs@.take(end as int)),
        decreases k,
    {
        assert(cs@.take(k as int).drop_last() =~= cs@.take(k - 1));
        k = k - 1;
    }
    let top: usize = tidy_end(&cs, k);
    let r = string_of(&cs, 0, top);
    assert(r@ =~= cs@.take(top as int));
    Some(r)
}

} // verus!
