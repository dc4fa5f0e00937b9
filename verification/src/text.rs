//! Text as sequences of characters: comparing, searching, splitting, padding.
//!
//! Every function works on Unicode scalar values, so its contract speaks of the
//! `Seq<char>` view of a string.

use vstd::prelude::*;
use vstd::string::*;

verus! {

/// `String::push` of std appends one character to the end of the string.
pub assume_specification[ String::push ](s: &mut String, ch: char)
    ensures
        final(s)@ == old(s)@.push(ch),
;

/// The characters of `s`, in order.
pub fn chars_of(s: &str) -> (r: Vec<char>)
    ensures
        r@ == s@,
{
    let mut out: Vec<char> = Vec::new();
    for c in it: s.chars()
        invariant
            it.seq() == s@,
            out@ == s@.take(it.index()),
    {
        out.push(c);
        proof {
            assert(s@.take(it.index() + 1) =~= s@.take(it.index()).push(c));
        }
    }
    assert(s@.take(s@.len() as int) =~= s@);
    out
}

/// The string made of the characters of `cs` from `from` up to `to`.
pub fn string_of(cs: &Vec<char>, from: usize, to: usize) -> (r: String)
    requires
        from <= to <= cs@.len(),
    ensures
        r@ == cs@.subrange(from as int, to as int),
{
    let mut out: String = String::new();
    let mut k: usize = from;
    assert(cs@.subrange(from as int, from as int) =~= Seq::<char>::empty());
    while k < to
        invariant
            from <= k <= to <= cs@.len(),
            out@ == cs@.subrange(from as int, k as int),
        decreases to - k,
    {
        out.push(cs[k]);
        assert(cs@.subrange(from as int, k + 1) =~= cs@.subrange(from as int, k as int).push(
            cs@[k as int],
        ));
        k = k + 1;
    }
    out
}

/// Whether two texts are the same characters.
pub fn same_text(a: &str, b: &str) -> (r: bool)
    ensures
        r == (a@ == b@),
{
    let x = chars_of(a);
    let y = chars_of(b);
    if x.len() != y.len() {
        return false;
    }
    let mut k: usize = 0;
    while k < x.len()
        invariant
            x@ == a@,
            y@ == b@,
            x@.len() == y@.len(),
            k <= x@.len(),
            forall|i: int| 0 <= i < k ==> x@[i] == y@[i],
        decreases x@.len() - k,
    {
        if x[k] != y[k] {
            return false;
        }
        k = k + 1;
    }
    assert(a@ =~= b@);
    true
}

/// Lexicographic order by code point, which is how std orders `str` and how
/// SQLite's binary collation orders text.
pub open spec fn text_le(a: Seq<char>, b: Seq<char>) -> bool
    decreases a.len(),
{
    if a.len() == 0 {
        true
    } else if b.len() == 0 {
        false
    } else if a[0] != b[0] {
        a[0] < b[0]
    } else {
        text_le(a.drop_first(), b.drop_first())
    }
}

/// `text_le` compares any two texts, one way or the other.
pub proof fn text_le_total(a: Seq<char>, b: Seq<char>)
    ensures
        text_le(a, b) || text_le(b, a),
        text_le(a, a),
    decreases a.len(),
{
    if a.len() > 0 {
        text_le_total(a.drop_first(), b.drop_first());
    }
}

/// Texts that each come no later than the other are the same text.
pub proof fn text_le_antisymmetric(a: Seq<char>, b: Seq<char>)
    requires
        text_le(a, b),
        text_le(b, a),
    ensures
        a == b,
    decreases a.len(),
{
    if a.len() > 0 {
        text_le_antisymmetric(a.drop_first(), b.drop_first());
        assert(a =~= seq![a[0]] + a.drop_first());
        assert(b =~= seq![b[0]] + b.drop_first());
    } else {
        assert(a =~= b);
    }
}

/// `text_le` is transitive.
pub proof fn text_le_transitive(a: Seq<char>, b: Seq<char>, c: Seq<char>)
    requires
        text_le(a, b),
        text_le(b, c),
    ensures
        text_le(a, c),
    decreases a.len(),
{
    if a.len() > 0 && a[0] == b[0] && b[0] == c[0] {
        text_le_transitive(a.drop_first(), b.drop_first(), c.drop_first());
    }
}

/// Whether `a` comes no later than `b` in `text_le` order.
pub fn le_text(a: &str, b: &str) -> (r: bool)
    ensures
        r == text_le(a@, b@),
{
    let x = chars_of(a);
    let y = chars_of(b);
    let mut k: usize = 0;
    assert(a@.skip(0) =~= a@);
    assert(b@.skip(0) =~= b@);
    while k < x.len() && k < y.len()
        invariant
            x@ == a@,
            y@ == b@,
            k <= x@.len(),
            k <= y@.len(),
            text_le(a@, b@) == text_le(a@.skip(k as int), b@.skip(k as int)),
        decreases x@.len() - k,
    {
        if x[k] != y[k] {
            return x[k] < y[k];
        }
        assert(a@.skip(k as int).drop_first() =~= a@.skip(k + 1));
        assert(b@.skip(k as int).drop_first() =~= b@.skip(k + 1));
        k = k + 1;
    }
    x.len() <= k
}

/// Whether `needle` stands somewhere in `hay` as consecutive characters.
pub open spec fn occurs(needle: Seq<char>, hay: Seq<char>) -> bool {
    exists|i: int|
        0 <= i && i + needle.len() <= hay.len() && #[trigger] hay.subrange(i, i + needle.len())
            == needle
}

/// Whether `needle` stands somewhere in `hay`.
pub fn contains_text(hay: &str, needle: &str) -> (r: bool)
    ensures
        r == occurs(needle@, hay@),
{
    let h = chars_of(hay);
    let n = chars_of(needle);
    if n.len() > h.len() {
        return false;
    }
    let total: usize = h.len();
    let last: usize = total - n.len();
    let mut start: usize = 0;
    loop
        invariant
            h@ == hay@,
            n@ == needle@,
            last == h@.len() - n@.len(),
            total == h@.len(),
            start <= last,
            forall|i: int| 0 <= i < start ==> #[trigger] hay@.subrange(i, i + n@.len()) != needle@,
        decreases last - start,
    {
        let mut k: usize = 0;
        while k < n.len() && h[start + k] == n[k]
            invariant
                h@ == hay@,
                n@ == needle@,
                total == h@.len(),
                last == h@.len() - n@.len(),
                start <= last,
                k <= n@.len(),
                forall|i: int| 0 <= i < k ==> h@[start + i] == n@[i],
            decreases n@.len() - k,
        {
            k = k + 1;
        }
        if k == n.len() {
            assert(hay@.subrange(start as int, start + n@.len()) =~= needle@);
            return true;
        }
        assert(hay@.subrange(start as int, start + n@.len())[k as int] != needle@[k as int]);
        if start == last {
            return false;
        }
        start = start + 1;
    }
}

/// The Unicode property White_Space.
#[verifier::opaque]
pub open spec fn is_white(c: char) -> bool {
    ||| '\u{9}' <= c <= '\u{d}'
    ||| c == ' '
    ||| c == '\u{85}'
    ||| c == '\u{a0}'
    ||| c == '\u{1680}'
    ||| '\u{2000}' <= c <= '\u{200a}'
    ||| c == '\u{2028}'
    ||| c == '\u{2029}'
    ||| c == '\u{202f}'
    ||| c == '\u{205f}'
    ||| c == '\u{3000}'
}

/// Whether `c` is white space.
pub fn white(c: char) -> (r: bool)
    ensures
        r == is_white(c),
{
    reveal(is_white);
    ('\u{9}' <= c && c <= '\u{d}') || c == ' ' || c == '\u{85}' || c == '\u{a0}' || c
        == '\u{1680}' || ('\u{2000}' <= c && c <= '\u{200a}') || c == '\u{2028}' || c == '\u{2029}'
        || c == '\u{202f}' || c == '\u{205f}' || c == '\u{3000}'
}

/// `s` without the white space at its two ends.
pub open spec fn trimmed(s: Seq<char>) -> Seq<char>
    decreases s.len(),
{
    if s.len() == 0 {
        s
    } else if is_white(s[0]) {
        trimmed(s.drop_first())
    } else if is_white(s.last()) {
        trimmed(s.drop_last())
    } else {
        s
    }
}

/// Nothing is left of a text that is white space alone.
pub proof fn blank_trims_to_nothing(s: Seq<char>)
    requires
        forall|i: int| 0 <= i < s.len() ==> is_white(#[trigger] s[i]),
    ensures
        trimmed(s).len() == 0,
    decreases s.len(),
{
    if s.len() > 0 {
        let rest = s.drop_first();
        assert forall|i: int| 0 <= i < rest.len() implies is_white(#[trigger] rest[i]) by {
            assert(rest[i] == s[i + 1]);
        }
        blank_trims_to_nothing(rest);
    }
}

/// What is left of a text begins with something other than white space.
pub proof fn trimmed_begins(s: Seq<char>)
    ensures
        trimmed(s).len() > 0 ==> !is_white(trimmed(s)[0]),
    decreases s.len(),
{
    if s.len() > 0 {
        trimmed_begins(s.drop_first());
        trimmed_begins(s.drop_last());
    }
}

/// `s` without the white space at its two ends.
pub fn trim(s: &str) -> (r: String)
    ensures
        r@ == trimmed(s@),
{
    let cs = chars_of(s);
    let mut from: usize = 0;
    let mut to: usize = cs.len();
    assert(cs@.subrange(0, cs@.len() as int) =~= s@);
    while from < to && white(cs[from])
        invariant
            cs@ == s@,
            from <= to <= cs@.len(),
            trimmed(s@) == trimmed(cs@.subrange(from as int, to as int)),
        decreases to - from,
    {
        assert(cs@.subrange(from as int, to as int).drop_first() =~= cs@.subrange(
            from + 1,
            to as int,
        ));
        from = from + 1;
    }
    while from < to && white(cs[to - 1])
        invariant
            cs@ == s@,
            from <= to <= cs@.len(),
            from < to ==> !is_white(cs@[from as int]),
            trimmed(s@) == trimmed(cs@.subrange(from as int, to as int)),
        decreases to - from,
    {
        assert(cs@.subrange(from as int, to as int).drop_last() =~= cs@.subrange(
            from as int,
            to - 1,
        ));
        to = to - 1;
    }
    string_of(&cs, from, to)
}

/// Which characters make up a word.
#[derive(Clone, Copy)]
pub enum WordClass {
    /// Letters and digits of any script.
    Alphanumeric,
    /// Anything but white space.
    NonWhite,
}

/// An ASCII letter or digit.
pub open spec fn is_ascii_alphanumeric(c: char) -> bool {
    'a' <= c <= 'z' || 'A' <= c <= 'Z' || '0' <= c <= '9'
}

/// A letter of the Unicode blocks that follow ASCII: the letters of Latin-1 Supplement
/// from U+00C0 on, Latin Extended-A and Latin Extended-B.
pub open spec fn is_latin_letter(c: char) -> bool {
    '\u{c0}' <= c <= '\u{24f}' && c != '\u{d7}' && c != '\u{f7}'
}

/// Whether Unicode counts a character as a letter or a number.
pub uninterp spec fn alphanumeric(c: char) -> bool;

/// `char::is_alphanumeric` of std, which goes by the Unicode properties Alphabetic and
/// Numeric. In ASCII these are the letters and digits, and every Latin letter with an
/// accent has the first. Which other characters have one is not written out; the
/// result is only said to depend on the character alone.
pub assume_specification[ char::is_alphanumeric ](c: char) -> (r: bool)
    ensures
        r == alphanumeric(c),
        c <= '\u{7f}' ==> r == is_ascii_alphanumeric(c),
        is_latin_letter(c) ==> r,
;

/// A letter or digit of any script.
pub open spec fn is_alphanumeric(c: char) -> bool {
    if c <= '\u{7f}' {
        is_ascii_alphanumeric(c)
    } else {
        is_latin_letter(c) || alphanumeric(c)
    }
}

impl WordClass {
    /// Whether `c` can stand in a word.
    pub open spec fn admits(self, c: char) -> bool {
        match self {
            WordClass::Alphanumeric => is_alphanumeric(c),
            WordClass::NonWhite => !is_white(c),
        }
    }

    /// Whether `c` can stand in a word.
    pub fn test(self, c: char) -> (r: bool)
        ensures
            r == self.admits(c),
    {
        match self {
            WordClass::Alphanumeric => c.is_alphanumeric(),
            WordClass::NonWhite => !white(c),
        }
    }
}

/// Whether the characters of `s` from `i` up to `j` are a whole word: a non-empty
/// run of characters of the class that cannot be extended to either side.
pub open spec fn is_word_at(s: Seq<char>, class: WordClass, i: int, j: int) -> bool {
    &&& 0 <= i < j <= s.len()
    &&& forall|k: int| i <= k < j ==> class.admits(#[trigger] s[k])
    &&& i > 0 ==> !class.admits(s[i - 1])
    &&& j < s.len() ==> !class.admits(s[j])
}

/// Where the words of `s` begin and end, in order.
pub fn words_at(s: &Vec<char>, class: WordClass) -> (r: Vec<(usize, usize)>)
    ensures
        forall|k: int|
            0 <= k < r@.len() ==> is_word_at(
                s@,
                class,
                (#[trigger] r@[k]).0 as int,
                r@[k].1 as int,
            ),
        forall|i: usize, j: usize|
            #[trigger] is_word_at(s@, class, i as int, j as int) ==> r@.contains((i, j)),
{
    let mut out: Vec<(usize, usize)> = Vec::new();
    let mut pos: usize = 0;
    while pos < s.len()
        invariant
            pos <= s@.len(),
            0 < pos < s@.len() ==> !class.admits(s@[pos - 1]) || !class.admits(s@[pos as int]),
            forall|k: int|
                0 <= k < out@.len() ==> is_word_at(
                    s@,
                    class,
                    (#[trigger] out@[k]).0 as int,
                    out@[k].1 as int,
                ),
            forall|i: usize, j: usize|
                i < pos && #[trigger] is_word_at(s@, class, i as int, j as int)
                    ==> out@.contains((i, j)),
        decreases s@.len() - pos,
    {
        if !class.test(s[pos]) {
            pos = pos + 1;
        } else {
            let start: usize = pos;
            let mut end: usize = pos;
            while end < s.len() && class.test(s[end])
                invariant
                    start <= end <= s@.len(),
                    forall|k: int| start <= k < end ==> class.admits(#[trigger] s@[k]),
                decreases s@.len() - end,
            {
                end = end + 1;
            }
            let ghost before = out@;
            out.push((start, end));
            proof {
                assert(is_word_at(s@, class, start as int, end as int));
                assert forall|i: usize, j: usize|
                    i < end && #[trigger] is_word_at(
                        s@,
                        class,
                        i as int,
                        j as int,
                    ) implies out@.contains((i, j)) by {
                    if i < start {
                        assert(before.contains((i, j)));
                        let k = choose|k: int| 0 <= k < before.len() && before[k] == (i, j);
                        assert(out@[k] == (i, j));
                    } else if i > start {
                        assert(class.admits(s@[i - 1]));
                    } else {
                        if j < end {
                            assert(class.admits(s@[j as int]));
                        } else if j > end {
                            assert(class.admits(s@[end as int]));
                        }
                        assert(out@[out@.len() - 1] == (i, j));
                    }
                }
            }
            pos = end;
        }
    }
    out
}

/// The lowercase form of an ASCII letter; any other character stays.
pub open spec fn ascii_lower(c: char) -> char {
    if 'A' <= c <= 'Z' {
        (c as u32 + 32) as char
    } else {
        c
    }
}

/// `s` with its ASCII letters in lowercase.
pub open spec fn ascii_lowered(s: Seq<char>) -> Seq<char> {
    s.map_values(|c: char| ascii_lower(c))
}

/// The lowercase form of an ASCII letter; any other character stays.
pub fn lower_ascii(c: char) -> (r: char)
    ensures
        r == ascii_lower(c),
{
    if 'A' <= c && c <= 'Z' {
        (c as u8 + 32) as char
    } else {
        c
    }
}

/// `n` spaces.
pub open spec fn spaces(n: int) -> Seq<char> {
    Seq::new(
        if n > 0 {
            n as nat
        } else {
            0
        },
        |i: int| ' ',
    )
}

/// `s` followed by spaces up to a width of `width` characters.
pub open spec fn left_aligned(s: Seq<char>, width: int) -> Seq<char> {
    s + spaces(width - s.len())
}

/// `s` preceded by spaces up to a width of `width` characters.
pub open spec fn right_aligned(s: Seq<char>, width: int) -> Seq<char> {
    spaces(width - s.len()) + s
}

/// Appends `n` spaces.
pub fn push_spaces(out: &mut String, n: usize)
    ensures
        final(out)@ == old(out)@ + spaces(n as int),
{
    let mut k: usize = 0;
    assert(old(out)@ + spaces(0) =~= old(out)@);
    while k < n
        invariant
            k <= n,
            out@ == old(out)@ + spaces(k as int),
        decreases n - k,
    {
        out.push(' ');
        assert(old(out)@ + spaces(k + 1) =~= (old(out)@ + spaces(k as int)).push(' '));
        k = k + 1;
    }
}

/// Appends `s`, then spaces up to a width of `width` characters.
pub fn push_left_aligned(out: &mut String, s: &str, width: usize)
    ensures
        final(out)@ == old(out)@ + left_aligned(s@, width as int),
{
    let len = s.unicode_len();
    out.append(s);
    if len < width {
        push_spaces(out, width - len);
    }
    assert(out@ =~= old(out)@ + left_aligned(s@, width as int));
}

/// Appends spaces up to a width of `width` characters, then `s`.
pub fn push_right_aligned(out: &mut String, s: &str, width: usize)
    ensures
        final(out)@ == old(out)@ + right_aligned(s@, width as int),
{
    let len = s.unicode_len();
    if len < width {
        push_spaces(out, width - len);
    }
    out.append(s);
    assert(out@ =~= old(out)@ + right_aligned(s@, width as int));
}

/// The decimal digit for `d`.
pub open spec fn digit(d: nat) -> char {
    ('0' as u32 + d) as char
}

/// A natural number in decimal notation.
pub open spec fn decimal_nat(n: nat) -> Seq<char>
    decreases n,
{
    if n < 10 {
        seq![digit(n)]
    } else {
        decimal_nat(n / 10).push(digit(n % 10))
    }
}

/// An integer in decimal notation, with a minus sign where it is negative.
pub open spec fn decimal(n: int) -> Seq<char> {
    if n < 0 {
        seq!['-'] + decimal_nat((-n) as nat)
    } else {
        decimal_nat(n as nat)
    }
}

/// Appends `n` in decimal notation.
pub fn push_nat(out: &mut String, n: u64)
    ensures
        final(out)@ == old(out)@ + decimal_nat(n as nat),
    decreases n,
{
    let d: u8 = (n % 10) as u8;
    if n >= 10 {
        push_nat(out, n / 10);
    }
    out.push((48 + d) as char);
    assert(out@ =~= old(out)@ + decimal_nat(n as nat));
}

/// Appends `n` in decimal notation.
pub fn push_int(out: &mut String, n: i64)
    ensures
        final(out)@ == old(out)@ + decimal(n as int),
{
    if n < 0 {
        out.push('-');
        let m: u64 = (-(n + 1)) as u64 + 1;
        push_nat(out, m);
        assert(out@ =~= old(out)@ + decimal(n as int));
    } else {
        push_nat(out, n as u64);
    }
}

/// `n` in decimal notation.
pub fn int_text(n: i64) -> (r: String)
    ensures
        r@ == decimal(n as int),
{
    let mut out: String = String::new();
    push_int(&mut out, n);
    assert(out@ =~= decimal(n as int));
    out
}

/// A copy of `s`, if there is one.
pub fn copy_text(s: &Option<String>) -> (r: Option<String>)
    ensures
        r == *s,
{
    match s {
        Some(t) => Some(t.clone()),
        None => None,
    }
}

/// Concatenating what stands for the first items grows by what stands for the next.
pub proof fn flat_map_step<V>(s: Seq<V>, f: spec_fn(V) -> Seq<char>, k: int)
    requires
        0 <= k < s.len(),
    ensures
        s.take(k + 1).flat_map(f) == s.take(k).flat_map(f) + f(s[k]),
{
    s.take(k).lemma_flat_map_push(f, s[k]);
    assert(s.take(k).push(s[k]) =~= s.take(k + 1));
}

/// Nothing stands for no items.
pub proof fn flat_map_none<V>(s: Seq<V>, f: spec_fn(V) -> Seq<char>)
    ensures
        s.take(0).flat_map(f) == Seq::<char>::empty(),
        s.take(s.len() as int) == s,
{
    assert(s.take(0).map_values(f) =~= Seq::<Seq<char>>::empty());
    assert(s.take(0).flat_map(f) =~= Seq::<char>::empty());
    assert(s.take(s.len() as int) =~= s);
}

} // verus!
