//! Text as sequences of characters.
//!
//! The exposition is cut into pieces again and again, so everything here works on slices of
//! characters and hands slices back; a `String` is made only for what is kept.
use vstd::prelude::*;
use vstd::string::*;

verus! {

broadcast use vstd::string::group_string_axioms;

// ── Models ───────────────────────────────────────────────────────────────────

/// Characters with Unicode's `White_Space` property.
pub open spec fn is_white(c: char) -> bool {
    ||| '\u{9}' <= c <= '\u{d}'
    ||| c == ' '
    ||| c == '\u{85}'
    ||| c == '\u{a0}'
    ||| c == '\u{1680}'
    ||| '\u{2000}' <= c <= '\u{200a}'
    ||| c == '\u{2028}'
    ||| c == '\u{2029}'
    ||| c == '\u{202f}'
    ||| c == '\u{205f}'
    ||| c == '\u{3000}'
}

/// `s` without the leading characters that satisfy `drop`.
pub open spec fn trim_start(s: Seq<char>, drop: spec_fn(char) -> bool) -> Seq<char>
    decreases s.len(),
{
    if s.len() > 0 && drop(s.first()) {
        trim_start(s.drop_first(), drop)
    } else {
        s
    }
}

/// `s` without the trailing characters that satisfy `drop`.
pub open spec fn trim_end(s: Seq<char>, drop: spec_fn(char) -> bool) -> Seq<char>
    decreases s.len(),
{
    if s.len() > 0 && drop(s.last()) {
        trim_end(s.drop_last(), drop)
    } else {
        s
    }
}

/// `s` without the characters around it that satisfy `drop`.
pub open spec fn trim_both(s: Seq<char>, drop: spec_fn(char) -> bool) -> Seq<char> {
    trim_end(trim_start(s, drop), drop)
}

/// `s` without the white space around it.
pub open spec fn trimmed(s: Seq<char>) -> Seq<char> {
    trim_both(s, |c: char| is_white(c))
}

/// `s` without the double quotes around it.
pub open spec fn unquoted(s: Seq<char>) -> Seq<char> {
    trim_both(s, |c: char| c == '"')
}

/// Where `c` occurs first in `s`; the length of `s` where it does not occur.
pub open spec fn first_index(s: Seq<char>, c: char) -> int
    decreases s.len(),
{
    if s.len() == 0 || s.first() == c {
        0
    } else {
        1 + first_index(s.drop_first(), c)
    }
}

/// Where `c` occurs last in `s`; `-1` where it does not occur.
pub open spec fn last_index(s: Seq<char>, c: char) -> int
    decreases s.len(),
{
    if s.len() == 0 {
        -1
    } else if s.last() == c {
        s.len() - 1
    } else {
        last_index(s.drop_last(), c)
    }
}

/// `s` before and after the first `c`, where there is one.
pub open spec fn split_once(s: Seq<char>, c: char) -> Option<(Seq<char>, Seq<char>)> {
    let i = first_index(s, c);
    if i < s.len() {
        Some((s.take(i), s.skip(i + 1)))
    } else {
        None
    }
}

/// What follows the last `c` of `s`, where there is one.
pub open spec fn after_last(s: Seq<char>, c: char) -> Option<Seq<char>> {
    let i = last_index(s, c);
    if i >= 0 {
        Some(s.skip(i + 1))
    } else {
        None
    }
}

/// The pieces of `s` between the occurrences of `c`: one more piece than there are occurrences.
pub open spec fn pieces(s: Seq<char>, c: char) -> Seq<Seq<char>>
    decreases s.len(),
    via pieces_shrink
{
    let i = first_index(s, c);
    if i < s.len() {
        seq![s.take(i)] + pieces(s.skip(i + 1), c)
    } else {
        seq![s]
    }
}

#[via_fn]
proof fn pieces_shrink(s: Seq<char>, c: char) {
    lemma_first_index(s, c);
}

/// The lines of `s`, each without its line feed and without one carriage return before that.
///
/// A last line need not be terminated, and keeps a carriage return it ends in if it is not.
pub open spec fn lines(s: Seq<char>) -> Seq<Seq<char>>
    decreases s.len(),
    via lines_shrink
{
    let i = first_index(s, '\n');
    if s.len() == 0 {
        seq![]
    } else if i < s.len() {
        seq![without_return(s.take(i))] + lines(s.skip(i + 1))
    } else {
        seq![s]
    }
}

#[via_fn]
proof fn lines_shrink(s: Seq<char>) {
    lemma_first_index(s, '\n');
}

/// `s` without a carriage return at its end.
pub open spec fn without_return(s: Seq<char>) -> Seq<char> {
    if s.len() > 0 && s.last() == '\r' {
        s.drop_last()
    } else {
        s
    }
}

/// Whether `s` comes strictly before `t` in the order of `str`: by the first character in which
/// they differ, a proper prefix first.
pub open spec fn precedes(s: Seq<char>, t: Seq<char>) -> bool
    decreases s.len(),
{
    if t.len() == 0 {
        false
    } else if s.len() == 0 {
        true
    } else if s.first() == t.first() {
        precedes(s.drop_first(), t.drop_first())
    } else {
        s.first() < t.first()
    }
}

/// `s` before `t`, or equal to it.
pub open spec fn at_most(s: Seq<char>, t: Seq<char>) -> bool {
    !precedes(t, s)
}

/// The pieces of `list` with `separator` between each two.
pub open spec fn joined(list: Seq<Seq<char>>, separator: Seq<char>) -> Seq<char>
    decreases list.len(),
{
    if list.len() == 0 {
        seq![]
    } else if list.len() == 1 {
        list[0]
    } else {
        joined(list.drop_last(), separator) + separator + list.last()
    }
}

// ── Facts about the models ───────────────────────────────────────────────────

/// `first_index` is the first occurrence, or the length.
pub proof fn lemma_first_index(s: Seq<char>, c: char)
    ensures
        0 <= first_index(s, c) <= s.len(),
        forall|j: int| 0 <= j < first_index(s, c) ==> s[j] != c,
        first_index(s, c) < s.len() ==> s[first_index(s, c)] == c,
    decreases s.len(),
{
    if s.len() > 0 && s.first() != c {
        let rest = s.drop_first();
        lemma_first_index(rest, c);
        assert forall|j: int| 0 <= j < first_index(s, c) implies s[j] != c by {
            if j > 0 {
                assert(s[j] == rest[j - 1]);
            }
        }
    }
}

/// An index before which `c` does not occur, and at which it does or `s` ends, is `first_index`.
pub proof fn lemma_first_index_is(s: Seq<char>, c: char, i: int)
    requires
        0 <= i <= s.len(),
        forall|j: int| 0 <= j < i ==> s[j] != c,
        i < s.len() ==> s[i] == c,
    ensures
        first_index(s, c) == i,
{
    lemma_first_index(s, c);
    let k = first_index(s, c);
    if k < i {
        assert(s[k] != c);
    }
    if i < k {
        assert(s[i] != c);
    }
}

/// `last_index` is the last occurrence, or `-1`.
pub proof fn lemma_last_index(s: Seq<char>, c: char)
    ensures
        -1 <= last_index(s, c) < s.len(),
        forall|j: int| last_index(s, c) < j < s.len() ==> s[j] != c,
        last_index(s, c) >= 0 ==> s[last_index(s, c)] == c,
    decreases s.len(),
{
    if s.len() > 0 && s.last() != c {
        let rest = s.drop_last();
        lemma_last_index(rest, c);
        assert forall|j: int| last_index(s, c) < j < s.len() implies s[j] != c by {
            if j < s.len() - 1 {
                assert(s[j] == rest[j]);
            }
        }
    }
}

/// The order is irreflexive, transitive and total.
pub proof fn lemma_precedes_orders(s: Seq<char>, t: Seq<char>, u: Seq<char>)
    ensures
        !precedes(s, s),
        precedes(s, t) && precedes(t, u) ==> precedes(s, u),
        precedes(s, t) || s == t || precedes(t, s),
        !(precedes(s, t) && precedes(t, s)),
    decreases s.len(),
{
    if s.len() > 0 {
        let (s1, t1, u1) = (s.drop_first(), t.drop_first(), u.drop_first());
        if t.len() > 0 && u.len() > 0 {
            lemma_precedes_orders(s1, t1, u1);
        } else if t.len() > 0 {
            lemma_precedes_orders(s1, t1, s1);
        } else {
            lemma_precedes_orders(s1, s1, s1);
        }
        if t.len() > 0 && s.first() == t.first() && s1 == t1 {
            assert(s =~= seq![s.first()] + s1);
            assert(t =~= seq![t.first()] + t1);
        }
    } else if t.len() == 0 {
        assert(s =~= t);
    }
}

/// Eight pieces with a separator between each two, written out.
pub proof fn lemma_joined_eight(list: Seq<Seq<char>>, separator: Seq<char>)
    requires
        list.len() == 8,
    ensures
        joined(list, separator) == list[0] + separator + list[1] + separator + list[2] + separator
            + list[3] + separator + list[4] + separator + list[5] + separator + list[6] + separator
            + list[7],
{
    assert(joined(list.take(1), separator) == list[0]);
    lemma_joined_grows(list, separator, 2);
    lemma_joined_grows(list, separator, 3);
    lemma_joined_grows(list, separator, 4);
    lemma_joined_grows(list, separator, 5);
    lemma_joined_grows(list, separator, 6);
    lemma_joined_grows(list, separator, 7);
    lemma_joined_grows(list, separator, 8);
    assert(list.take(8) =~= list);
}

/// One piece more.
pub proof fn lemma_joined_grows(list: Seq<Seq<char>>, separator: Seq<char>, n: int)
    requires
        2 <= n <= list.len(),
    ensures
        joined(list.take(n), separator) == joined(list.take(n - 1), separator) + separator + list[n
            - 1],
{
    assert(list.take(n).drop_last() =~= list.take(n - 1));
}

// ── Reading ──────────────────────────────────────────────────────────────────

/// The characters of `s`.
pub fn chars_of(s: &str) -> (out: Vec<char>)
    ensures
        out@ == s@,
{
    let mut out: Vec<char> = Vec::new();
    for c in it: s.chars()
        invariant
            out@ == it.seq().take(it.index() as int),
            it.seq() == s@,
    {
        out.push(c);
        assert(out@ =~= it.seq().take(it.index() as int + 1));
    }
    assert(out@ =~= s@);
    out
}

/// Whether two stretches of text are the same.
pub fn same_text(s: &[char], t: &[char]) -> (same: bool)
    ensures
        same == (s@ == t@),
{
    if s.len() != t.len() {
        return false;
    }
    let mut i: usize = 0;
    while i < s.len()
        invariant
            i <= s.len(),
            s.len() == t.len(),
            s@.take(i as int) =~= t@.take(i as int),
        decreases s.len() - i,
    {
        if s[i] != t[i] {
            assert(s@[i as int] != t@[i as int]);
            return false;
        }
        assert(s@.take(i + 1) =~= s@.take(i as int).push(s@[i as int]));
        assert(t@.take(i + 1) =~= t@.take(i as int).push(t@[i as int]));
        i = i + 1;
    }
    assert(s@ =~= s@.take(i as int));
    assert(t@ =~= t@.take(i as int));
    true
}

/// Whether `s` is `literal`.
pub fn is_text(s: &[char], literal: &str) -> (same: bool)
    ensures
        same == (s@ == literal@),
{
    let other = chars_of(literal);
    same_text(s, other.as_slice())
}

/// Whether `s` starts with `prefix`.
pub fn starts_with(s: &[char], prefix: &str) -> (yes: bool)
    ensures
        yes == prefix@.is_prefix_of(s@),
{
    let p = chars_of(prefix);
    if p.len() > s.len() {
        return false;
    }
    let yes = same_text(&s[0..p.len()], p.as_slice());
    assert(yes == prefix@.is_prefix_of(s@));
    yes
}

/// What stands before `suffix` in `s`, where `s` ends in it.
pub fn strip_suffix<'a>(s: &'a [char], suffix: &str) -> (rest: Option<&'a [char]>)
    ensures
        suffix@.is_suffix_of(s@) ==> rest is Some && rest->0@ == s@.take(
            s@.len() - suffix@.len(),
        ),
        !suffix@.is_suffix_of(s@) ==> rest is None,
{
    let p = chars_of(suffix);
    if p.len() > s.len() {
        return None;
    }
    let cut: usize = s.len() - p.len();
    if same_text(&s[cut..s.len()], p.as_slice()) {
        Some(&s[0..cut])
    } else {
        None
    }
}

/// Dropping from the front is skipping a stretch of dropped characters.
proof fn lemma_trim_start(s: Seq<char>, drop: spec_fn(char) -> bool, i: int)
    requires
        0 <= i <= s.len(),
        forall|j: int| 0 <= j < i ==> drop(#[trigger] s[j]),
        i < s.len() ==> !drop(s[i]),
    ensures
        trim_start(s, drop) == s.skip(i),
    decreases i,
{
    if i > 0 {
        let rest = s.drop_first();
        assert(drop(s[0]));
        assert forall|j: int| 0 <= j < i - 1 implies drop(#[trigger] rest[j]) by {
            assert(rest[j] == s[j + 1]);
        }
        lemma_trim_start(rest, drop, i - 1);
        assert(rest.skip(i - 1) =~= s.skip(i));
    } else {
        assert(s.skip(0) =~= s);
    }
}

/// Dropping from the back is keeping what stands before a stretch of dropped characters.
proof fn lemma_trim_end(s: Seq<char>, drop: spec_fn(char) -> bool, i: int)
    requires
        0 <= i <= s.len(),
        forall|j: int| i <= j < s.len() ==> drop(#[trigger] s[j]),
        i > 0 ==> !drop(s[i - 1]),
    ensures
        trim_end(s, drop) == s.take(i),
    decreases s.len() - i,
{
    if i < s.len() {
        let rest = s.drop_last();
        assert(drop(s[s.len() - 1]));
        assert forall|j: int| i <= j < rest.len() implies drop(#[trigger] rest[j]) by {
            assert(rest[j] == s[j]);
        }
        lemma_trim_end(rest, drop, i);
        assert(rest.take(i) =~= s.take(i));
    } else {
        assert(s.take(i) =~= s);
    }
}

/// What stands between two stretches of dropped characters is what trimming leaves.
proof fn lemma_trim_both(s: Seq<char>, drop: spec_fn(char) -> bool, from: int, to: int)
    requires
        0 <= from <= to <= s.len(),
        forall|j: int| 0 <= j < from || to <= j < s.len() ==> drop(#[trigger] s[j]),
        from < to ==> !drop(s[from]) && !drop(s[to - 1]),
        from == to ==> from == s.len(),
    ensures
        trim_both(s, drop) == s.subrange(from, to),
{
    lemma_trim_start(s, drop, from);
    let rest = s.skip(from);
    assert forall|j: int| to - from <= j < rest.len() implies drop(#[trigger] rest[j]) by {
        assert(rest[j] == s[from + j]);
    }
    lemma_trim_end(rest, drop, to - from);
    assert(rest.take(to - from) =~= s.subrange(from, to));
}

// ── Laws ─────────────────────────────────────────────────────────────────────

/// What is cut at a character falls into what stands before it and what stands after it.
pub proof fn law_pieces_of_two(x: Seq<char>, y: Seq<char>, c: char)
    ensures
        pieces(x + seq![c] + y, c) == pieces(x, c) + pieces(y, c),
    decreases x.len(),
{
    let whole = x + seq![c] + y;
    lemma_first_index(x, c);
    let i = first_index(x, c);
    if i == x.len() {
        lemma_first_index_is(whole, c, i);
        assert(whole.take(i) =~= x);
        assert(whole.skip(i + 1) =~= y);
    } else {
        lemma_first_index_is(whole, c, i);
        let rest = x.skip(i + 1);
        law_pieces_of_two(rest, y, c);
        assert(whole.take(i) =~= x.take(i));
        assert(whole.skip(i + 1) =~= rest + seq![c] + y);
        assert(seq![x.take(i)] + (pieces(rest, c) + pieces(y, c)) =~= seq![x.take(i)] + pieces(
            rest,
            c,
        ) + pieces(y, c));
    }
}

/// Pieces that were joined are cut apart again.
pub proof fn law_joined_pieces_are_cut_apart(list: Seq<Seq<char>>, c: char)
    requires
        list.len() > 0,
        forall|i: int| 0 <= i < list.len() ==> !(#[trigger] list[i]).contains(c),
    ensures
        pieces(joined(list, seq![c]), c) == list,
    decreases list.len(),
{
    let last = list.last();
    assert(!list[list.len() - 1].contains(c));
    lemma_first_index(last, c);
    if first_index(last, c) < last.len() {
        assert(last.contains(last[first_index(last, c)]));
    }
    assert(pieces(last, c) == seq![last]);
    if list.len() == 1 {
        assert(list =~= seq![last]);
    } else {
        let rest = list.drop_last();
        assert forall|i: int| 0 <= i < rest.len() implies !(#[trigger] rest[i]).contains(c) by {
            assert(!list[i].contains(c));
        }
        law_joined_pieces_are_cut_apart(rest, c);
        law_pieces_of_two(joined(rest, seq![c]), last, c);
        assert(list =~= rest + seq![last]);
    }
}

/// What is cut at the first of a character is what stands before it and what stands after it; what
/// does not hold it is not cut.
pub proof fn law_cut_once(x: Seq<char>, y: Seq<char>, c: char)
    requires
        !x.contains(c),
    ensures
        split_once(x + seq![c] + y, c) == Some((x, y)),
        split_once(x, c) is None,
{
    let whole = x + seq![c] + y;
    assert forall|j: int| 0 <= j < x.len() implies x[j] != c by {
        assert(x.contains(x[j]));
    }
    lemma_first_index_is(whole, c, x.len() as int);
    lemma_first_index_is(x, c, x.len() as int);
    assert(whole.take(x.len() as int) =~= x);
    assert(whole.skip(x.len() as int + 1) =~= y);
}

/// What follows the last of a character is what stands behind it; nothing follows it where it does
/// not stand.
pub proof fn law_cut_after_last(x: Seq<char>, y: Seq<char>, c: char)
    requires
        !y.contains(c),
    ensures
        after_last(x + seq![c] + y, c) == Some(y),
        after_last(y, c) is None,
{
    let whole = x + seq![c] + y;
    assert forall|j: int| 0 <= j < y.len() implies y[j] != c by {
        assert(y.contains(y[j]));
    }
    lemma_last_index(whole, c);
    lemma_last_index(y, c);
    let n = x.len() as int;
    assert(whole[n] == c);
    let k = last_index(whole, c);
    if k > n {
        assert(whole[k] == y[k - n - 1]);
    }
    assert(whole.skip(n + 1) =~= y);
}

/// Whether every character of `s` satisfies `drop`.
pub open spec fn all_of(s: Seq<char>, drop: spec_fn(char) -> bool) -> bool {
    forall|i: int| 0 <= i < s.len() ==> drop(#[trigger] s[i])
}

/// Whether neither end of `s` satisfies `drop`.
pub open spec fn ends_clear(s: Seq<char>, drop: spec_fn(char) -> bool) -> bool {
    s.len() > 0 ==> !drop(s.first()) && !drop(s.last())
}

/// Trimming takes off what is to be dropped around a text, and nothing of the text.
pub proof fn law_trimming(
    a: Seq<char>,
    s: Seq<char>,
    b: Seq<char>,
    drop: spec_fn(char) -> bool,
)
    requires
        all_of(a, drop),
        all_of(b, drop),
        ends_clear(s, drop),
    ensures
        trim_both(a + s + b, drop) == s,
{
    let whole = a + s + b;
    assert forall|j: int| 0 <= j < a.len() || a.len() + s.len() <= j < whole.len() implies drop(
        #[trigger] whole[j],
    ) by {
        if j < a.len() {
            assert(whole[j] == a[j]);
        } else {
            assert(whole[j] == b[j - a.len() - s.len()]);
        }
    }
    if s.len() > 0 {
        assert(whole[a.len() as int] == s.first());
        assert(whole[a.len() + s.len() - 1] == s.last());
        lemma_trim_both(whole, drop, a.len() as int, (a.len() + s.len()) as int);
        assert(whole.subrange(a.len() as int, (a.len() + s.len()) as int) =~= s);
    } else {
        let n = whole.len() as int;
        assert forall|j: int| 0 <= j < n || n <= j < whole.len() implies drop(
            #[trigger] whole[j],
        ) by {}
        lemma_trim_both(whole, drop, n, n);
        assert(whole.subrange(n, n) =~= s);
    }
}

/// Lines, each with a line feed behind it.
pub open spec fn terminated(list: Seq<Seq<char>>) -> Seq<char>
    decreases list.len(),
{
    if list.len() == 0 {
        seq![]
    } else {
        list.first() + seq!['\n'] + terminated(list.drop_first())
    }
}

/// Whether `s` is one line: it holds no line feed, and ends in no carriage return.
pub open spec fn one_line(s: Seq<char>) -> bool {
    !s.contains('\n') && (s.len() > 0 ==> s.last() != '\r')
}

/// The lines of a text are the lines it was written with, whether the last of them is terminated or
/// not.
pub proof fn law_lines_read_back(list: Seq<Seq<char>>, last: Seq<char>)
    requires
        forall|i: int| 0 <= i < list.len() ==> one_line(#[trigger] list[i]),
        !last.contains('\n'),
    ensures
        lines(terminated(list) + last) == (if last.len() == 0 {
            list
        } else {
            list.push(last)
        }),
    decreases list.len(),
{
    let whole = terminated(list) + last;
    if list.len() == 0 {
        assert(whole =~= last);
        lemma_first_index(last, '\n');
        if first_index(last, '\n') < last.len() {
            assert(last.contains(last[first_index(last, '\n')]));
        }
        if last.len() == 0 {
            assert(lines(whole) =~= list);
        } else {
            assert(lines(whole) =~= list.push(last));
        }
    } else {
        let rest = list.drop_first();
        let first = list.first();
        assert(one_line(list[0]));
        assert forall|i: int| 0 <= i < rest.len() implies one_line(#[trigger] rest[i]) by {
            assert(one_line(list[i + 1]));
        }
        law_lines_read_back(rest, last);
        assert forall|j: int| 0 <= j < first.len() implies whole[j] != '\n' by {
            assert(whole[j] == first[j]);
            assert(first.contains(first[j]));
        }
        lemma_first_index_is(whole, '\n', first.len() as int);
        assert(whole.take(first.len() as int) =~= first);
        assert(whole.skip(first.len() as int + 1) =~= terminated(rest) + last);
        assert(lines(whole) == seq![first] + lines(terminated(rest) + last));
        assert(list =~= seq![first] + rest);
        assert(list.push(last) =~= seq![first] + rest.push(last));
    }
}

/// A carriage return before a line feed is not part of the line.
pub proof fn law_a_carriage_return_is_dropped(line: Seq<char>, rest: Seq<char>)
    requires
        !line.contains('\n'),
    ensures
        lines(line + seq!['\r', '\n'] + rest) == seq![line] + lines(rest),
{
    let whole = line + seq!['\r', '\n'] + rest;
    let n = line.len() as int;
    assert forall|j: int| 0 <= j < n + 1 implies whole[j] != '\n' by {
        if j < n {
            assert(line.contains(line[j]));
        }
    }
    lemma_first_index_is(whole, '\n', n + 1);
    assert(whole.take(n + 1) =~= line.push('\r'));
    assert(line.push('\r').drop_last() =~= line);
    assert(whole.skip(n + 2) =~= rest);
}

/// One text comes before another by the first character in which they differ, or where the other
/// goes on behind it.
pub proof fn law_the_order_is_lexicographic(
    common: Seq<char>,
    a: char,
    b: char,
    s: Seq<char>,
    t: Seq<char>,
)
    ensures
        precedes(common + seq![a] + s, common + seq![b] + t) <==> (a < b || (a == b && precedes(
            s,
            t,
        ))),
        precedes(common, common + seq![b] + t),
        !precedes(common + seq![b] + t, common),
        !precedes(common, common),
    decreases common.len(),
{
    let (x, y) = (common + seq![a] + s, common + seq![b] + t);
    if common.len() > 0 {
        let rest = common.drop_first();
        law_the_order_is_lexicographic(rest, a, b, s, t);
        assert(x.drop_first() =~= rest + seq![a] + s);
        assert(y.drop_first() =~= rest + seq![b] + t);
    } else {
        assert(x.drop_first() =~= s);
        assert(y.drop_first() =~= t);
    }
}

/// Whether `c` is white space.
pub fn white(c: char) -> (yes: bool)
    ensures
        yes == is_white(c),
{
    ('\u{9}' <= c && c <= '\u{d}') || c == ' ' || c == '\u{85}' || c == '\u{a0}' || c == '\u{1680}'
        || ('\u{2000}' <= c && c <= '\u{200a}') || c == '\u{2028}' || c == '\u{2029}' || c
        == '\u{202f}' || c == '\u{205f}' || c == '\u{3000}'
}

/// `s` without the white space around it.
pub fn trim<'a>(s: &'a [char]) -> (rest: &'a [char])
    ensures
        rest@ == trimmed(s@),
{
    let ghost drop = |c: char| is_white(c);
    let mut from: usize = 0;
    while from < s.len() && white(s[from])
        invariant
            from <= s.len(),
            forall|j: int| 0 <= j < from ==> is_white(#[trigger] s@[j]),
        decreases s.len() - from,
    {
        from = from + 1;
    }
    let mut to: usize = s.len();
    while to > from && white(s[to - 1])
        invariant
            from <= to <= s.len(),
            from < s.len() ==> !is_white(s@[from as int]),
            forall|j: int| to <= j < s@.len() ==> is_white(#[trigger] s@[j]),
        decreases to,
    {
        to = to - 1;
    }
    proof {
        lemma_trim_both(s@, drop, from as int, to as int);
    }
    &s[from..to]
}

/// `s` without the double quotes around it.
pub fn unquote<'a>(s: &'a [char]) -> (rest: &'a [char])
    ensures
        rest@ == unquoted(s@),
{
    let ghost drop = |c: char| c == '"';
    let mut from: usize = 0;
    while from < s.len() && s[from] == '"'
        invariant
            from <= s.len(),
            forall|j: int| 0 <= j < from ==> #[trigger] s@[j] == '"',
        decreases s.len() - from,
    {
        from = from + 1;
    }
    let mut to: usize = s.len();
    while to > from && s[to - 1] == '"'
        invariant
            from <= to <= s.len(),
            from < s.len() ==> s@[from as int] != '"',
            forall|j: int| to <= j < s@.len() ==> #[trigger] s@[j] == '"',
        decreases to,
    {
        to = to - 1;
    }
    proof {
        lemma_trim_both(s@, drop, from as int, to as int);
    }
    &s[from..to]
}

/// Where `c` occurs first in `s`; the length of `s` where it does not occur.
pub fn find(s: &[char], c: char) -> (i: usize)
    ensures
        i == first_index(s@, c),
        i <= s@.len(),
{
    let mut i: usize = 0;
    while i < s.len()
        invariant
            i <= s.len(),
            forall|j: int| 0 <= j < i ==> s@[j] != c,
        decreases s.len() - i,
    {
        if s[i] == c {
            proof {
                lemma_first_index_is(s@, c, i as int);
            }
            return i;
        }
        i = i + 1;
    }
    proof {
        lemma_first_index_is(s@, c, i as int);
    }
    i
}

/// `s` before and after the first `c`, where there is one.
pub fn cut_once<'a>(s: &'a [char], c: char) -> (halves: Option<(&'a [char], &'a [char])>)
    ensures
        halves is Some == split_once(s@, c) is Some,
        halves is Some ==> (halves->0).0@ == (split_once(s@, c)->0).0,
        halves is Some ==> (halves->0).1@ == (split_once(s@, c)->0).1,
{
    let i = find(s, c);
    if i < s.len() {
        Some((&s[0..i], &s[i + 1..s.len()]))
    } else {
        None
    }
}

/// What follows the last `c` of `s`, where there is one.
pub fn cut_after_last<'a>(s: &'a [char], c: char) -> (rest: Option<&'a [char]>)
    ensures
        rest is Some == after_last(s@, c) is Some,
        rest is Some ==> rest->0@ == after_last(s@, c)->0,
{
    let mut i: usize = s.len();
    while i > 0
        invariant
            i <= s.len(),
            forall|j: int| i <= j < s@.len() ==> s@[j] != c,
        decreases i,
    {
        if s[i - 1] == c {
            proof {
                lemma_last_index(s@, c);
                assert(last_index(s@, c) == i - 1);
            }
            return Some(&s[i..s.len()]);
        }
        i = i - 1;
    }
    proof {
        lemma_last_index(s@, c);
    }
    None
}

/// The slices' own text, slice by slice.
pub open spec fn texts(list: Seq<&[char]>) -> Seq<Seq<char>> {
    list.map_values(|s: &[char]| s@)
}

/// The pieces of `s` between the occurrences of `c`.
pub fn split<'a>(s: &'a [char], c: char) -> (list: Vec<&'a [char]>)
    ensures
        texts(list@) == pieces(s@, c),
{
    let mut list: Vec<&'a [char]> = Vec::new();
    let mut rest: &'a [char] = s;
    loop
        invariant
            pieces(s@, c) == texts(list@) + pieces(rest@, c),
        decreases rest@.len(),
    {
        let ghost before = texts(list@);
        let i = find(rest, c);
        proof {
            lemma_first_index(rest@, c);
        }
        list.push(&rest[0..i]);
        assert(texts(list@) =~= before.push(rest@.take(i as int)));
        if i == rest.len() {
            assert(rest@.take(i as int) =~= rest@);
            assert(texts(list@) =~= pieces(s@, c));
            return list;
        }
        rest = &rest[i + 1..rest.len()];
        assert(pieces(s@, c) =~= texts(list@) + pieces(rest@, c));
    }
}

/// The lines of `s`.
pub fn split_lines<'a>(s: &'a [char]) -> (list: Vec<&'a [char]>)
    ensures
        texts(list@) == lines(s@),
{
    let mut list: Vec<&'a [char]> = Vec::new();
    let mut rest: &'a [char] = s;
    assert(texts(list@) + lines(rest@) =~= lines(s@));
    while rest.len() > 0
        invariant
            lines(s@) == texts(list@) + lines(rest@),
        decreases rest@.len(),
    {
        let ghost before = texts(list@);
        let i = find(rest, '\n');
        proof {
            lemma_first_index(rest@, '\n');
        }
        if i == rest.len() {
            list.push(rest);
            rest = &rest[i..rest.len()];
            assert(texts(list@) =~= lines(s@));
        } else {
            let end: usize = if i > 0 && rest[i - 1] == '\r' {
                i - 1
            } else {
                i
            };
            let line = &rest[0..end];
            assert(line@ =~= without_return(rest@.take(i as int)));
            list.push(line);
            assert(texts(list@) =~= before.push(line@));
            rest = &rest[i + 1..rest.len()];
        }
        assert(lines(s@) =~= texts(list@) + lines(rest@));
    }
    assert(texts(list@) =~= lines(s@));
    list
}

/// Whether `s` comes strictly before `t`.
pub fn comes_before(s: &str, t: &str) -> (yes: bool)
    ensures
        yes == precedes(s@, t@),
{
    let mut a = s.chars();
    let mut b = t.chars();
    loop
        invariant
            vstd::std_specs::iter::IteratorSpec::obeys_prophetic_iter_laws(&a),
            vstd::std_specs::iter::IteratorSpec::obeys_prophetic_iter_laws(&b),
            vstd::std_specs::iter::IteratorSpec::decrease(&a) is Some,
            precedes(s@, t@) == precedes(
                vstd::std_specs::iter::IteratorSpec::remaining(&a),
                vstd::std_specs::iter::IteratorSpec::remaining(&b),
            ),
        decreases vstd::std_specs::iter::IteratorSpec::decrease(&a)->0,
    {
        match (a.next(), b.next()) {
            (_, None) => {
                return false;
            },
            (None, Some(_)) => {
                return true;
            },
            (Some(x), Some(y)) => {
                if x != y {
                    return x < y;
                }
            },
        }
    }
}

/// Whether `s` comes strictly before `t`, on characters.
pub fn sorts_before(s: &[char], t: &[char]) -> (yes: bool)
    ensures
        yes == precedes(s@, t@),
{
    let mut i: usize = 0;
    assert(s@.skip(0) =~= s@);
    assert(t@.skip(0) =~= t@);
    while i < s.len() && i < t.len()
        invariant
            i <= s.len(),
            i <= t.len(),
            precedes(s@, t@) == precedes(s@.skip(i as int), t@.skip(i as int)),
        decreases s.len() - i,
    {
        assert(s@.skip(i as int).drop_first() =~= s@.skip(i + 1));
        assert(t@.skip(i as int).drop_first() =~= t@.skip(i + 1));
        if s[i] != t[i] {
            return s[i] < t[i];
        }
        i = i + 1;
    }
    i < t.len()
}

// ── Writing ──────────────────────────────────────────────────────────────────

/// `String::push` appends the character.
pub assume_specification[ String::push ](s: &mut String, ch: char)
    ensures
        final(s)@ == old(s)@.push(ch),
;

/// Append `s` to `out`.
pub fn push_all(out: &mut String, s: &[char])
    ensures
        final(out)@ == old(out)@ + s@,
{
    let mut i: usize = 0;
    assert(out@ + s@.take(0) =~= out@);
    while i < s.len()
        invariant
            i <= s.len(),
            out@ == old(out)@ + s@.take(i as int),
        decreases s.len() - i,
    {
        out.push(s[i]);
        i = i + 1;
        assert(s@.take(i as int) =~= s@.take(i - 1).push(s@[i - 1]));
        assert(out@ =~= old(out)@ + s@.take(i as int));
    }
    assert(s@.take(i as int) =~= s@);
}

/// The strings' own text, string by string.
pub open spec fn string_texts(list: Seq<String>) -> Seq<Seq<char>> {
    list.map_values(|s: String| s@)
}

/// The strings of `list` with `separator` between each two.
pub fn join(list: &Vec<String>, separator: &str) -> (out: String)
    ensures
        out@ == joined(string_texts(list@), separator@),
{
    let ghost all = string_texts(list@);
    let mut out = String::new();
    let mut i: usize = 0;
    assert(out@ =~= joined(all.take(0), separator@));
    while i < list.len()
        invariant
            i <= list.len(),
            all == string_texts(list@),
            out@ == joined(all.take(i as int), separator@),
        decreases list.len() - i,
    {
        if i > 0 {
            out.append(separator);
        }
        out.append(list[i].as_str());
        assert(all.take(i + 1).drop_last() =~= all.take(i as int));
        assert(out@ =~= joined(all.take(i + 1), separator@));
        i = i + 1;
    }
    assert(all.take(i as int) =~= all);
    out
}

} // verus!
