//! Lines as an exporter writes them, and what is read of them.
use vstd::arithmetic::power2::*;
use vstd::prelude::*;
use vstd::seq_lib::*;
use vstd::string::*;

use crate::double::Double;
use crate::exposition;
use crate::labels;
use crate::text;

verus! {

broadcast use vstd::string::group_string_axioms;

// ── Labels ───────────────────────────────────────────────────────────────────

/// A name or a value that is not cut: it holds no comma and no closing brace.
pub open spec fn uncut(s: Seq<char>) -> bool {
    !s.contains(',') && !s.contains('}')
}

/// A label that an exporter writes: a name without `=` and without white space around it, and a
/// value without quotes around it.
pub open spec fn plain(label: labels::LabelModel) -> bool {
    &&& uncut(label.0)
    &&& uncut(label.1)
    &&& !label.0.contains('=')
    &&& text::ends_clear(label.0, |c: char| text::is_white(c))
    &&& text::ends_clear(label.1, |c: char| c == '"')
}

/// Whether all labels are plain.
pub open spec fn all_plain(list: Seq<labels::LabelModel>) -> bool {
    forall|i: int| 0 <= i < list.len() ==> plain(#[trigger] list[i])
}

/// White space around the name, around the sign and around the value of a label is not read, nor
/// are the quotes around the value.
pub proof fn law_a_label_reads_back(
    a: Seq<char>,
    name: Seq<char>,
    b: Seq<char>,
    c: Seq<char>,
    q: Seq<char>,
    value: Seq<char>,
    r: Seq<char>,
    d: Seq<char>,
)
    requires
        text::all_of(a, |c: char| text::is_white(c)),
        text::all_of(b, |c: char| text::is_white(c)),
        text::all_of(c, |c: char| text::is_white(c)),
        text::all_of(d, |c: char| text::is_white(c)),
        text::all_of(q, |c: char| c == '"'),
        text::all_of(r, |c: char| c == '"'),
        text::ends_clear(name, |c: char| text::is_white(c)),
        text::ends_clear(q + value + r, |c: char| text::is_white(c)),
        text::ends_clear(value, |c: char| c == '"'),
        !name.contains('='),
    ensures
        labels::label_in(a + name + b + seq!['='] + (c + (q + value + r) + d)) == Some(
            (name, value),
        ),
{
    let left = a + name + b;
    assert(!left.contains('=')) by {
        if left.contains('=') {
            let i = left.index_of('=');
            if i < a.len() {
                assert(text::is_white(a[i]));
            } else if i < a.len() + name.len() {
                assert(name[i - a.len()] == '=');
                assert(name.contains(name[i - a.len()]));
            } else {
                assert(text::is_white(b[i - a.len() - name.len()]));
            }
        }
    }
    text::law_cut_once(left, c + (q + value + r) + d, '=');
    text::law_trimming(a, name, b, |c: char| text::is_white(c));
    text::law_trimming(c, q + value + r, d, |c: char| text::is_white(c));
    text::law_trimming(q, value, r, |c: char| c == '"');
}

/// A label as it stands in a key reads back.
proof fn lemma_rendered_reads_back(label: labels::LabelModel)
    requires
        plain(label),
    ensures
        labels::label_in(labels::rendered(label)) == Some(label),
        uncut(labels::rendered(label)),
{
    let none = Seq::<char>::empty();
    let quote = seq!['"'];
    let (name, value) = label;
    assert((quote + value + quote).first() == '"');
    assert((quote + value + quote).last() == '"');
    law_a_label_reads_back(none, name, none, none, quote, value, quote, none);
    assert(none + name + none + seq!['='] + (none + (quote + value + quote) + none)
        =~= labels::rendered(label));
    let s = labels::rendered(label);
    assert forall|c: char| (c == ',' || c == '}') implies !s.contains(c) by {
        if s.contains(c) {
            let i = s.index_of(c);
            if i < name.len() {
                assert(name.contains(name[i]));
            } else if i >= name.len() + 2 && i < name.len() + 2 + value.len() {
                assert(value[i - name.len() - 2] == c);
                assert(value.contains(value[i - name.len() - 2]));
            }
        }
    }
}

/// A label set, written.
pub open spec fn set_of(list: Seq<labels::LabelModel>) -> Seq<char> {
    text::joined(labels::renderings(list), seq![','])
}

/// A label set falls into its labels, each as it was written.
proof fn lemma_set(list: Seq<labels::LabelModel>)
    requires
        list.len() > 0,
        all_plain(list),
    ensures
        text::pieces(set_of(list), ',') == labels::renderings(list),
        !set_of(list).contains('}'),
{
    let all = labels::renderings(list);
    assert forall|i: int| 0 <= i < all.len() implies !(#[trigger] all[i]).contains(',')
        && !all[i].contains('}') by {
        assert(plain(list[i]));
        lemma_rendered_reads_back(list[i]);
    }
    text::law_joined_pieces_are_cut_apart(all, ',');
    lemma_joined_holds(all, ',', '}');
}

/// What no piece holds, and the separator is not, the whole does not hold.
proof fn lemma_joined_holds(list: Seq<Seq<char>>, separator: char, c: char)
    requires
        c != separator,
        forall|i: int| 0 <= i < list.len() ==> !(#[trigger] list[i]).contains(c),
    ensures
        !text::joined(list, seq![separator]).contains(c),
    decreases list.len(),
{
    let whole = text::joined(list, seq![separator]);
    if list.len() == 1 {
        assert(!list[0].contains(c));
    } else if list.len() > 1 {
        let rest = list.drop_last();
        let front = text::joined(rest, seq![separator]);
        assert forall|i: int| 0 <= i < rest.len() implies !(#[trigger] rest[i]).contains(c) by {
            assert(!list[i].contains(c));
        }
        lemma_joined_holds(rest, separator, c);
        assert(!list[list.len() - 1].contains(c));
        if whole.contains(c) {
            let i = whole.index_of(c);
            if i < front.len() {
                assert(front.contains(front[i]));
            } else if i > front.len() {
                let k = i - front.len() - 1;
                assert(list.last()[k] == c);
                assert(list.last().contains(list.last()[k]));
            }
        }
    }
}

/// Every label of a written set but `le` is kept, in the order they were written.
pub proof fn law_a_written_set_reads_back(list: Seq<labels::LabelModel>)
    requires
        list.len() > 0,
        all_plain(list),
    ensures
        labels::labels_without_le(set_of(list)) == list.filter(
            |label: labels::LabelModel| label.0 != "le"@,
        ),
{
    lemma_set(list);
    lemma_kept(list);
}

proof fn lemma_kept(list: Seq<labels::LabelModel>)
    requires
        all_plain(list),
    ensures
        labels::renderings(list).filter_map(|piece: Seq<char>| labels::kept_label(piece))
            == list.filter(|label: labels::LabelModel| label.0 != "le"@),
    decreases list.len(),
{
    reveal(Seq::filter);
    let f = |piece: Seq<char>| labels::kept_label(piece);
    let g = |label: labels::LabelModel| label.0 != "le"@;
    let all = labels::renderings(list);
    if list.len() > 0 {
        let rest = list.drop_last();
        assert forall|i: int| 0 <= i < rest.len() implies plain(#[trigger] rest[i]) by {
            assert(plain(list[i]));
        }
        lemma_kept(rest);
        assert(plain(list[list.len() - 1]));
        lemma_rendered_reads_back(list.last());
        assert(all.drop_last() =~= labels::renderings(rest));
        assert(all.last() == labels::rendered(list.last()));
        if g(list.last()) {
            assert(rest.filter(g) + seq![list.last()] =~= rest.filter(g).push(list.last()));
        }
    } else {
        assert(all.filter_map(f) =~= list.filter(g));
    }
}

/// A label set says what its pieces say, one after the other: the labels of what stands before a
/// comma, then those of what stands after it, and of a value the one that is named first. A piece
/// without `=` is no label.
pub proof fn law_a_set_is_its_pieces(x: Seq<char>, y: Seq<char>, name: Seq<char>)
    ensures
        labels::labels_without_le(x + seq![','] + y) == labels::labels_without_le(x)
            + labels::labels_without_le(y),
        labels::value_in(x + seq![','] + y, name) == (match labels::value_in(x, name) {
            Some(value) => Some(value),
            None => labels::value_in(y, name),
        }),
        !x.contains(',') && !x.contains('=') ==> labels::labels_without_le(x).len() == 0
            && labels::value_in(x, name) is None,
        !x.contains(',') ==> (labels::label_in(x) matches Some(label) ==> {
            &&& label.0 != "le"@ ==> labels::labels_without_le(x) == seq![label]
            &&& label.0 == "le"@ ==> labels::labels_without_le(x).len() == 0
            &&& labels::value_in(x, label.0) == Some(label.1)
            &&& label.0 != name ==> labels::value_in(x, name) is None
        }),
{
    let f = |piece: Seq<char>| labels::kept_label(piece);
    text::law_pieces_of_two(x, y, ',');
    lemma_filter_map_of_two(text::pieces(x, ','), text::pieces(y, ','), f);
    lemma_value_of_two(text::pieces(x, ','), text::pieces(y, ','), name);
    if !x.contains(',') {
        let one = seq![x];
        assert(text::joined(one, seq![',']) =~= x);
        text::law_joined_pieces_are_cut_apart(one, ',');
        Seq::lemma_filter_map_singleton(x, f);
        reveal_with_fuel(labels::value_among, 2);
        if !x.contains('=') {
            text::law_cut_once(x, x, '=');
        }
    }
}

proof fn lemma_filter_map_of_two(
    a: Seq<Seq<char>>,
    b: Seq<Seq<char>>,
    f: spec_fn(Seq<char>) -> Option<labels::LabelModel>,
)
    ensures
        (a + b).filter_map(f) == a.filter_map(f) + b.filter_map(f),
    decreases b.len(),
{
    if b.len() == 0 {
        assert(a + b =~= a);
    } else {
        lemma_filter_map_of_two(a, b.drop_last(), f);
        assert((a + b).drop_last() =~= a + b.drop_last());
        assert((a + b).last() == b.last());
    }
    assert((a + b).filter_map(f) =~= a.filter_map(f) + b.filter_map(f));
}

proof fn lemma_value_of_two(a: Seq<Seq<char>>, b: Seq<Seq<char>>, name: Seq<char>)
    ensures
        labels::value_among(a + b, name) == (match labels::value_among(a, name) {
            Some(value) => Some(value),
            None => labels::value_among(b, name),
        }),
    decreases a.len(),
{
    if a.len() == 0 {
        assert(a + b =~= b);
    } else {
        lemma_value_of_two(a.drop_first(), b, name);
        assert((a + b).drop_first() =~= a.drop_first() + b);
        assert((a + b).first() == a.first());
    }
}

/// The value of a label of a written set is that of the first label with the name.
pub proof fn law_a_written_value_reads_back(list: Seq<labels::LabelModel>, i: int)
    requires
        all_plain(list),
        0 <= i < list.len(),
        forall|j: int| 0 <= j < i ==> (#[trigger] list[j]).0 != list[i].0,
    ensures
        labels::value_in(set_of(list), list[i].0) == Some(list[i].1),
{
    lemma_set(list);
    lemma_value_among(list, i);
}

proof fn lemma_no_value(list: Seq<labels::LabelModel>, name: Seq<char>)
    requires
        all_plain(list),
        forall|j: int| 0 <= j < list.len() ==> (#[trigger] list[j]).0 != name,
    ensures
        labels::value_among(labels::renderings(list), name) is None,
    decreases list.len(),
{
    if list.len() > 0 {
        let all = labels::renderings(list);
        let rest = list.drop_first();
        assert(plain(list[0]));
        assert(list[0].0 != name);
        lemma_rendered_reads_back(list[0]);
        assert(all.first() == labels::rendered(list[0]));
        assert forall|j: int| 0 <= j < rest.len() implies plain(#[trigger] rest[j]) && rest[j].0
            != name by {
            assert(plain(list[j + 1]));
            assert(list[j + 1].0 != name);
        }
        lemma_no_value(rest, name);
        assert(all.drop_first() =~= labels::renderings(rest));
    }
}

proof fn lemma_value_among(list: Seq<labels::LabelModel>, i: int)
    requires
        all_plain(list),
        0 <= i < list.len(),
        forall|j: int| 0 <= j < i ==> (#[trigger] list[j]).0 != list[i].0,
    ensures
        labels::value_among(labels::renderings(list), list[i].0) == Some(list[i].1),
    decreases list.len(),
{
    let all = labels::renderings(list);
    assert(plain(list[0]));
    lemma_rendered_reads_back(list[0]);
    assert(all.first() == labels::rendered(list[0]));
    if i > 0 {
        let rest = list.drop_first();
        assert(list[0].0 != list[i].0);
        assert forall|j: int| 0 <= j < rest.len() implies plain(#[trigger] rest[j]) by {
            assert(plain(list[j + 1]));
        }
        assert forall|j: int| 0 <= j < i - 1 implies (#[trigger] rest[j]).0 != rest[i - 1].0 by {
            assert(list[j + 1].0 != list[i].0);
        }
        lemma_value_among(rest, i - 1);
        assert(all.drop_first() =~= labels::renderings(rest));
    }
}

// ── Keys ─────────────────────────────────────────────────────────────────────

/// The labels of a key, in the order they stand in it.
proof fn lemma_sorted(list: Seq<labels::LabelModel>) -> (sorted: Seq<labels::LabelModel>)
    requires
        all_plain(list),
    ensures
        sorted == list.sort_by(labels::label_order()),
        sorted.to_multiset() == list.to_multiset(),
        sorted.len() == list.len(),
        all_plain(sorted),
{
    labels::lemma_label_order();
    let sorted = list.sort_by(labels::label_order());
    list.lemma_sort_by_ensures(labels::label_order());
    to_multiset_len(list);
    to_multiset_len(sorted);
    assert forall|i: int| 0 <= i < sorted.len() implies plain(#[trigger] sorted[i]) by {
        broadcast use group_to_multiset_ensures;

        assert(sorted.contains(sorted[i]));
        assert(sorted.to_multiset().count(sorted[i]) > 0);
        assert(list.contains(sorted[i]));
        let j = list.index_of(sorted[i]);
        assert(plain(list[j]));
    }
    sorted
}

/// Behind what is the same, the order is that of the rest.
proof fn lemma_same_front(front: Seq<char>, a: Seq<char>, b: Seq<char>)
    requires
        text::precedes(a, b),
    ensures
        text::precedes(front + a, front + b),
    decreases front.len(),
{
    if front.len() == 0 {
        assert(front + a =~= a);
        assert(front + b =~= b);
    } else {
        let (c, rest) = (front.first(), front.drop_first());
        let none = Seq::<char>::empty();
        lemma_same_front(rest, a, b);
        text::law_the_order_is_lexicographic(none, c, c, rest + a, rest + b);
        assert(front + a =~= none + seq![c] + (rest + a));
        assert(front + b =~= none + seq![c] + (rest + b));
    }
}

/// The key of a series is its family and, in braces, its labels with a comma between each two: each
/// as often as it is there, by the order of their names, and of one name by the order of what is
/// written.
pub proof fn law_a_key_holds_its_labels(family: Seq<char>, list: Seq<labels::LabelModel>) -> (sorted:
    Seq<labels::LabelModel>)
    ensures
        sorted.to_multiset() == list.to_multiset(),
        forall|i: int, j: int|
            0 <= i < j < sorted.len() ==> !text::precedes(
                (#[trigger] sorted[j]).0,
                (#[trigger] sorted[i]).0,
            ),
        forall|i: int, j: int|
            0 <= i < j < sorted.len() && (#[trigger] sorted[i]).0 == (#[trigger] sorted[j]).0
                ==> !text::precedes(sorted[j].1 + "\""@, sorted[i].1 + "\""@),
        list.len() > 0 ==> labels::key_of(family, list) == family + "{"@ + set_of(sorted) + "}"@,
        list.len() == 0 ==> labels::key_of(family, list) == family,
{
    let sorted = list.sort_by(labels::label_order());
    labels::lemma_label_order();
    list.lemma_sort_by_ensures(labels::label_order());
    reveal_strlit("{");
    reveal_strlit("}");
    assert("{"@ =~= seq!['{']);
    assert("}"@ =~= seq!['}']);
    assert forall|i: int, j: int| 0 <= i < j < sorted.len() implies !text::precedes(
        (#[trigger] sorted[j]).0,
        (#[trigger] sorted[i]).0,
    ) by {
        let order = labels::label_order();
        assert(order(sorted[i], sorted[j]));
        text::lemma_precedes_orders(sorted[i].0, sorted[j].0, sorted[i].0);
    }
    assert forall|i: int, j: int|
        0 <= i < j < sorted.len() && (#[trigger] sorted[i]).0 == (
        #[trigger] sorted[j]).0 implies !text::precedes(
        sorted[j].1 + "\""@,
        sorted[i].1 + "\""@,
    ) by {
        let order = labels::label_order();
        assert(order(sorted[i], sorted[j]));
        text::lemma_precedes_orders(sorted[i].0, sorted[j].0, sorted[i].0);
        let front = sorted[i].0 + seq!['=', '"'];
        reveal_strlit("\"");
        assert(labels::rendered(sorted[i]) =~= front + (sorted[i].1 + "\""@));
        assert(labels::rendered(sorted[j]) =~= front + (sorted[j].1 + "\""@));
        if text::precedes(sorted[j].1 + "\""@, sorted[i].1 + "\""@) {
            lemma_same_front(front, sorted[j].1 + "\""@, sorted[i].1 + "\""@);
        }
    }
    sorted
}

/// A written label set is its labels, each as `name="value"`, with a comma between each two.
pub proof fn law_a_set_as_written(list: Seq<labels::LabelModel>, label: labels::LabelModel)
    ensures
        set_of(seq![label]) == label.0 + "=\""@ + label.1 + "\""@,
        list.len() > 0 ==> set_of(list.push(label)) == set_of(list) + ","@ + (label.0 + "=\""@
            + label.1 + "\""@),
{
    reveal_strlit("=\"");
    reveal_strlit("\"");
    reveal_strlit(",");
    assert(labels::rendered(label) =~= label.0 + "=\""@ + label.1 + "\""@);
    assert(labels::renderings(seq![label]) =~= seq![labels::rendered(label)]);
    let all = labels::renderings(list.push(label));
    assert(all =~= labels::renderings(list).push(labels::rendered(label)));
    assert(all.drop_last() =~= labels::renderings(list));
    assert(","@ =~= seq![',']);
}

/// Series have one key only where they are one: the families are the same, and so are the labels,
/// each as often as it is there.
pub proof fn law_different_series_have_different_keys(
    f: Seq<char>,
    a: Seq<labels::LabelModel>,
    g: Seq<char>,
    b: Seq<labels::LabelModel>,
)
    requires
        !f.contains('{'),
        !g.contains('{'),
        all_plain(a),
        all_plain(b),
    ensures
        labels::key_of(f, a) == labels::key_of(g, b) <==> f == g && a.to_multiset()
            == b.to_multiset(),
{
    if f == g && a.to_multiset() == b.to_multiset() {
        labels::law_label_order_makes_one_key(f, a, b);
    }
    if labels::key_of(f, a) == labels::key_of(g, b) {
        let x = law_a_key_holds_its_labels(f, a);
        let y = law_a_key_holds_its_labels(g, b);
        to_multiset_len(a);
        to_multiset_len(b);
        to_multiset_len(x);
        to_multiset_len(y);
        let s = lemma_sorted(a);
        let t = lemma_sorted(b);
        lemma_key_cut(f, a, s);
        lemma_key_cut(g, b, t);
        if a.len() > 0 && b.len() > 0 {
            let (p, q) = (set_of(s), set_of(t));
            assert((p + seq!['}']).drop_last() =~= p);
            assert((q + seq!['}']).drop_last() =~= q);
            lemma_set(s);
            lemma_set(t);
            assert(labels::renderings(s) == labels::renderings(t));
            assert forall|i: int| 0 <= i < s.len() implies s[i] == t[i] by {
                assert(labels::renderings(s)[i] == labels::rendered(s[i]));
                assert(labels::renderings(t)[i] == labels::rendered(t[i]));
                assert(plain(s[i]));
                assert(plain(t[i]));
                lemma_rendered_reads_back(s[i]);
                lemma_rendered_reads_back(t[i]);
            }
            assert(labels::renderings(s).len() == s.len());
            assert(labels::renderings(t).len() == t.len());
            assert(s =~= t);
        } else {
            assert(a =~= b);
        }
    }
}

/// A key, cut at its brace.
proof fn lemma_key_cut(f: Seq<char>, a: Seq<labels::LabelModel>, s: Seq<labels::LabelModel>)
    requires
        !f.contains('{'),
        s == a.sort_by(labels::label_order()),
    ensures
        a.len() == 0 ==> text::split_once(labels::key_of(f, a), '{') is None,
        a.len() > 0 ==> text::split_once(labels::key_of(f, a), '{') == Some(
            (f, set_of(s) + seq!['}']),
        ),
{
    text::law_cut_once(f, set_of(s) + seq!['}'], '{');
    assert(f + seq!['{'] + (set_of(s) + seq!['}']) =~= f + seq!['{'] + set_of(s) + seq!['}']);
}

// ── Lines ────────────────────────────────────────────────────────────────────

/// A line with labels.
pub open spec fn line_of(
    name: Seq<char>,
    list: Seq<labels::LabelModel>,
    value: Seq<char>,
) -> Seq<char> {
    name + "{"@ + set_of(list) + "} "@ + value
}

/// A name that is not cut: it holds no brace and no space.
pub open spec fn is_name(s: Seq<char>) -> bool {
    !s.contains('{') && !s.contains(' ')
}

/// A numeral that is not cut: no space stands in it, and no white space around it.
pub open spec fn is_numeral(s: Seq<char>) -> bool {
    !s.contains(' ') && text::ends_clear(s, |c: char| text::is_white(c))
}

proof fn lemma_braces()
    ensures
        "{"@ == seq!['{'],
        "} "@ == seq!['}', ' '],
        " "@ == seq![' '],
{
    reveal_strlit("{");
    reveal_strlit("} ");
    reveal_strlit(" ");
    assert("{"@ =~= seq!['{']);
    assert("} "@ =~= seq!['}', ' ']);
    assert(" "@ =~= seq![' ']);
}

/// Where a character stands first.
proof fn lemma_stands_first(x: Seq<char>, c: char, y: Seq<char>)
    requires
        !x.contains(c),
    ensures
        text::first_index(x + seq![c] + y, c) == x.len(),
{
    let whole = x + seq![c] + y;
    assert forall|j: int| 0 <= j < x.len() implies whole[j] != c by {
        assert(whole[j] == x[j]);
        assert(x.contains(x[j]));
    }
    text::lemma_first_index_is(whole, c, x.len() as int);
}

/// The parts of a line with labels.
proof fn lemma_line_parts(name: Seq<char>, list: Seq<labels::LabelModel>, value: Seq<char>)
    requires
        is_name(name),
        is_numeral(value),
        list.len() > 0,
        all_plain(list),
    ensures
        exposition::name_of(line_of(name, list, value)) == name,
        exposition::labels_of(line_of(name, list, value)) == set_of(list),
        text::after_last(line_of(name, list, value), ' ') == Some(value),
        text::trimmed(value) == value,
{
    lemma_braces();
    let set = set_of(list);
    let line = line_of(name, list, value);
    lemma_set(list);
    let tail = set + seq!['}', ' '] + value;
    assert(line =~= name + seq!['{'] + tail);
    lemma_stands_first(name, '{', tail);
    text::lemma_first_index(line, ' ');
    let k = text::first_index(line, ' ');
    if k < name.len() {
        assert(line[k] == name[k]);
        assert(name.contains(name[k]));
    } else if k == name.len() {
        assert(line[k] == '{');
    }
    assert(line.take(name.len() as int) =~= name);
    text::law_cut_once(name, tail, '{');
    let after = seq![' '] + value;
    assert(tail =~= set + seq!['}'] + after);
    text::law_cut_once(set, after, '}');
    let before = name + seq!['{'] + set + seq!['}'];
    assert(line =~= before + seq![' '] + value);
    text::law_cut_after_last(before, value, ' ');
    lemma_trimmed_already(value);
}

proof fn lemma_trimmed_already(value: Seq<char>)
    requires
        text::ends_clear(value, |c: char| text::is_white(c)),
    ensures
        text::trimmed(value) == value,
{
    let none = Seq::<char>::empty();
    text::law_trimming(none, value, none, |c: char| text::is_white(c));
    assert(none + value + none =~= value);
}

/// A line is named by all before its first brace or space.
pub proof fn law_a_line_is_named_by_its_start(name: Seq<char>, c: char, rest: Seq<char>)
    requires
        is_name(name),
        c == '{' || c == ' ',
    ensures
        exposition::name_of(name + seq![c] + rest) == name,
        exposition::name_of(name) == name,
{
    let line = name + seq![c] + rest;
    lemma_stands_first(name, c, rest);
    let other = if c == '{' {
        ' '
    } else {
        '{'
    };
    text::lemma_first_index(line, other);
    let k = text::first_index(line, other);
    if k < name.len() {
        assert(line[k] == name[k]);
        assert(name.contains(name[k]));
    }
    assert(line.take(name.len() as int) =~= name);
    lemma_stands_nowhere(name, '{');
    lemma_stands_nowhere(name, ' ');
    assert(name.take(name.len() as int) =~= name);
}

proof fn lemma_stands_nowhere(s: Seq<char>, c: char)
    requires
        !s.contains(c),
    ensures
        text::first_index(s, c) == s.len(),
{
    assert forall|j: int| 0 <= j < s.len() implies s[j] != c by {
        assert(s.contains(s[j]));
    }
    text::lemma_first_index_is(s, c, s.len() as int);
}

/// The label set of a line is what stands between its first brace and the next closing one,
/// whatever follows that; a line that does not close it, or has no brace, has none.
pub proof fn law_a_label_set_stands_between_braces(
    before: Seq<char>,
    set: Seq<char>,
    rest: Seq<char>,
)
    requires
        !before.contains('{'),
        !set.contains('}'),
    ensures
        exposition::labels_of(before + seq!['{'] + (set + seq!['}'] + rest)) == set,
        exposition::labels_of(before + seq!['{'] + set) == Seq::<char>::empty(),
        exposition::labels_of(before) == Seq::<char>::empty(),
{
    text::law_cut_once(before, set + seq!['}'] + rest, '{');
    text::law_cut_once(before, set, '{');
    text::law_cut_once(set, rest, '}');
}

/// The value of a line is the numeral behind its last space, without white space around it, where
/// that is a finite number.
pub proof fn law_a_value_stands_behind_the_last_space(
    before: Seq<char>,
    a: Seq<char>,
    numeral: Seq<char>,
    b: Seq<char>,
)
    requires
        !(a + numeral + b).contains(' '),
        text::all_of(a, |c: char| text::is_white(c)),
        text::all_of(b, |c: char| text::is_white(c)),
        text::ends_clear(numeral, |c: char| text::is_white(c)),
    ensures
        exposition::value_of(before + seq![' '] + (a + numeral + b)) == (
        match crate::numeral::parsed_double(numeral) {
            Some(x) => if x.finite() {
                Some(x)
            } else {
                None
            },
            None => None,
        }),
{
    text::law_cut_after_last(before, a + numeral + b, ' ');
    text::law_trimming(a, numeral, b, |c: char| text::is_white(c));
}

/// Whether a line of that name is of the family depends on the prefix alone.
proof fn lemma_in_family(line: Seq<char>, name: Seq<char>)
    requires
        exposition::name_of(line) == name,
        name.is_prefix_of(line),
    ensures
        exposition::in_family(line) <==> "hopr_pix_"@.is_prefix_of(name),
{
    reveal_strlit("hopr_pix_");
    if "hopr_pix_"@.is_prefix_of(name) {
        assert(name[0] == "hopr_pix_"@[0]);
        assert(line[0] == name[0]);
    }
}

/// The kind of a name is how it ends: a histogram's names end in `_bucket`, `_sum` and `_count`
/// behind its family, a counter's in `_total`, which is part of it, and every other is a gauge's.
pub proof fn law_the_ending_is_the_kind(name: Seq<char>, stem: Seq<char>)
    ensures
        exposition::kind_of(stem + "_bucket"@) == exposition::KindModel::Bucket(stem),
        exposition::kind_of(stem + "_sum"@) == exposition::KindModel::Sum(stem),
        exposition::kind_of(stem + "_count"@) == exposition::KindModel::Count(stem),
        exposition::kind_of(stem + "_total"@) == exposition::KindModel::Counter(stem + "_total"@),
        !("_bucket"@.is_suffix_of(name) || "_sum"@.is_suffix_of(name) || "_count"@.is_suffix_of(
            name,
        ) || "_total"@.is_suffix_of(name)) ==> exposition::kind_of(name)
            == exposition::KindModel::Gauge(name),
{
    reveal_strlit("_bucket");
    reveal_strlit("_sum");
    reveal_strlit("_count");
    reveal_strlit("_total");
    let (b, s, c, t) = (
        stem + "_bucket"@,
        stem + "_sum"@,
        stem + "_count"@,
        stem + "_total"@,
    );
    lemma_ends(stem, "_bucket"@);
    lemma_ends(stem, "_sum"@);
    lemma_ends(stem, "_count"@);
    lemma_ends(stem, "_total"@);
    assert(s.last() == 'm');
    assert(c.last() == 't' && c[c.len() - 2] == 'n');
    assert(t.last() == 'l');
    assert forall|x: Seq<char>| #[trigger] "_bucket"@.is_suffix_of(x) implies x.last() == 't' && x[x.len()
        - 2] == 'e' by {
        assert(x.last() == "_bucket"@.last());
        assert(x[x.len() - 2] == "_bucket"@[5]);
    }
    assert forall|x: Seq<char>| #[trigger] "_sum"@.is_suffix_of(x) implies x.last() == 'm' by {
        assert(x.last() == "_sum"@.last());
    }
    assert forall|x: Seq<char>| #[trigger] "_count"@.is_suffix_of(x) implies x.last() == 't' by {
        assert(x.last() == "_count"@.last());
    }
}

proof fn lemma_ends(stem: Seq<char>, ending: Seq<char>)
    ensures
        ending.is_suffix_of(stem + ending),
        exposition::before_suffix(stem + ending, ending) == stem,
{
    assert((stem + ending).subrange(stem.len() as int, (stem + ending).len() as int) =~= ending);
    assert((stem + ending).take(stem.len() as int) =~= stem);
}

/// The labels of a written line but `le`.
pub open spec fn but_le(list: Seq<labels::LabelModel>) -> Seq<labels::LabelModel> {
    list.filter(|label: labels::LabelModel| label.0 != "le"@)
}

/// A line of the family that ends in a finite number says that of its series, which is the family
/// of its name with every label of the line but `le`, whatever its kind: a counter, a sum, a count
/// and a gauge each their own.
pub proof fn law_a_line_tells_of_its_series(
    stem: Seq<char>,
    list: Seq<labels::LabelModel>,
    value: Seq<char>,
    x: Double,
)
    requires
        "hopr_pix_"@.is_prefix_of(stem),
        is_name(stem),
        list.len() > 0,
        all_plain(list),
        is_numeral(value),
        crate::numeral::parsed_double(value) == Some(x),
        x.finite(),
    ensures
        exposition::record_of(line_of(stem + "_total"@, list, value)) == Some(
            exposition::RecordModel::Counter(
                labels::key_of(stem + "_total"@, but_le(list)),
                x.counted(),
            ),
        ),
        exposition::record_of(line_of(stem + "_sum"@, list, value)) == Some(
            exposition::RecordModel::Sum(labels::key_of(stem, but_le(list)), x),
        ),
        exposition::record_of(line_of(stem + "_count"@, list, value)) == Some(
            exposition::RecordModel::Count(labels::key_of(stem, but_le(list)), x.counted()),
        ),
        !("_bucket"@.is_suffix_of(stem) || "_sum"@.is_suffix_of(stem) || "_count"@.is_suffix_of(
            stem,
        ) || "_total"@.is_suffix_of(stem)) ==> exposition::record_of(line_of(stem, list, value))
            == Some(exposition::RecordModel::Gauge(labels::key_of(stem, but_le(list)), x)),
{
    law_the_ending_is_the_kind(stem, stem);
    law_a_written_set_reads_back(list);
    lemma_name_grows(stem, "_total"@);
    lemma_name_grows(stem, "_sum"@);
    lemma_name_grows(stem, "_count"@);
    lemma_plain_endings();
    lemma_line_is_read(stem + "_total"@, list, value, x);
    lemma_line_is_read(stem + "_sum"@, list, value, x);
    lemma_line_is_read(stem + "_count"@, list, value, x);
    lemma_line_is_read(stem, list, value, x);
}

/// A bucket line says of its series the bound that its `le` names, and how many observations are
/// not above it.
pub proof fn law_a_bucket_line_tells_of_its_bound(
    stem: Seq<char>,
    list: Seq<labels::LabelModel>,
    i: int,
    value: Seq<char>,
    x: Double,
    le: Double,
)
    requires
        "hopr_pix_"@.is_prefix_of(stem),
        is_name(stem),
        all_plain(list),
        0 <= i < list.len(),
        list[i].0 == "le"@,
        forall|j: int| 0 <= j < i ==> (#[trigger] list[j]).0 != "le"@,
        crate::numeral::parsed_double(list[i].1) == Some(le),
        is_numeral(value),
        crate::numeral::parsed_double(value) == Some(x),
        x.finite(),
    ensures
        exposition::record_of(line_of(stem + "_bucket"@, list, value)) == Some(
            exposition::RecordModel::Bucket(labels::key_of(stem, but_le(list)), le, x.counted()),
        ),
{
    law_the_ending_is_the_kind(stem, stem);
    law_a_written_set_reads_back(list);
    law_a_written_value_reads_back(list, i);
    lemma_name_grows(stem, "_bucket"@);
    lemma_plain_endings();
    lemma_line_is_read(stem + "_bucket"@, list, value, x);
    law_a_bound_is_a_numeral(list[i].1);
}

/// A bucket line is not read where no label of it is `le`, nor where its `le` names no number.
pub proof fn law_a_bucket_without_a_bound_is_not_read(
    stem: Seq<char>,
    list: Seq<labels::LabelModel>,
    value: Seq<char>,
    x: Double,
)
    requires
        "hopr_pix_"@.is_prefix_of(stem),
        is_name(stem),
        list.len() > 0,
        all_plain(list),
        forall|j: int|
            0 <= j < list.len() && (#[trigger] list[j]).0 == "le"@
                ==> crate::numeral::parsed_double(list[j].1) is None,
        is_numeral(value),
        crate::numeral::parsed_double(value) == Some(x),
        x.finite(),
    ensures
        exposition::record_of(line_of(stem + "_bucket"@, list, value)) is None,
{
    law_the_ending_is_the_kind(stem, stem);
    lemma_name_grows(stem, "_bucket"@);
    lemma_plain_endings();
    lemma_line_is_read(stem + "_bucket"@, list, value, x);
    lemma_set(list);
    if exists|j: int| 0 <= j < list.len() && (#[trigger] list[j]).0 == "le"@ {
        let i = lemma_first_of(list, "le"@);
        law_a_written_value_reads_back(list, i);
        law_a_bound_is_a_numeral(list[i].1);
    } else {
        lemma_no_value(list, "le"@);
    }
}

/// Where the first label of a name stands.
proof fn lemma_first_of(list: Seq<labels::LabelModel>, name: Seq<char>) -> (i: int)
    requires
        exists|j: int| 0 <= j < list.len() && (#[trigger] list[j]).0 == name,
    ensures
        0 <= i < list.len(),
        list[i].0 == name,
        forall|j: int| 0 <= j < i ==> (#[trigger] list[j]).0 != name,
    decreases list.len(),
{
    if list[0].0 == name {
        0
    } else {
        let rest = list.drop_first();
        let j = choose|j: int| 0 <= j < list.len() && (#[trigger] list[j]).0 == name;
        assert(rest[j - 1].0 == name);
        let i = lemma_first_of(rest, name) + 1;
        assert forall|j: int| 0 <= j < i implies (#[trigger] list[j]).0 != name by {
            if j > 0 {
                assert(rest[j - 1].0 != name);
            }
        }
        i
    }
}

/// A bound is the number that its numeral names, `+Inf` among them.
pub proof fn law_a_bound_is_a_numeral(raw: Seq<char>)
    ensures
        exposition::bound_of(raw) == crate::numeral::parsed_double(raw),
{
    if raw == "+Inf"@ || raw == "+inf"@ {
        reveal_strlit("+Inf");
        reveal_strlit("+inf");
        reveal_strlit("inf");
        let rest = raw.drop_first();
        assert(rest.map_values(|c: char| crate::numeral::lowered(c)) =~= "inf"@);
        assert(crate::numeral::magnitude_of(rest) == Some(crate::double::INFINITY as nat));
    }
}

proof fn lemma_line_is_read(
    name: Seq<char>,
    list: Seq<labels::LabelModel>,
    value: Seq<char>,
    x: Double,
)
    requires
        "hopr_pix_"@.is_prefix_of(name),
        is_name(name),
        list.len() > 0,
        all_plain(list),
        is_numeral(value),
        crate::numeral::parsed_double(value) == Some(x),
        x.finite(),
    ensures
        exposition::record_of(line_of(name, list, value)) == exposition::record_from(
            name,
            set_of(list),
            x,
        ),
{
    let line = line_of(name, list, value);
    lemma_line_parts(name, list, value);
    assert(name.is_prefix_of(line)) by {
        assert(line.take(name.len() as int) =~= name);
    }
    lemma_in_family(line, name);
}

proof fn lemma_plain_endings()
    ensures
        is_name("_total"@),
        is_name("_sum"@),
        is_name("_count"@),
        is_name("_bucket"@),
{
    reveal_strlit("_bucket");
    reveal_strlit("_sum");
    reveal_strlit("_count");
    reveal_strlit("_total");
}

proof fn lemma_name_grows(stem: Seq<char>, ending: Seq<char>)
    requires
        is_name(stem),
        "hopr_pix_"@.is_prefix_of(stem),
    ensures
        is_name(ending) ==> is_name(stem + ending),
        "hopr_pix_"@.is_prefix_of(stem + ending),
{
    let whole = stem + ending;
    assert forall|c: char| whole.contains(c) implies stem.contains(c) || ending.contains(c) by {
        let i = whole.index_of(c);
        if i < stem.len() {
            assert(stem.contains(stem[i]));
        } else {
            assert(ending[i - stem.len()] == c);
            assert(ending.contains(ending[i - stem.len()]));
        }
    }
    assert(whole.take("hopr_pix_"@.len() as int) =~= stem.take("hopr_pix_"@.len() as int));
}

/// A line without labels tells of the series that has none, by its name alone; a bucket without
/// labels has no bound, and tells nothing.
pub proof fn law_a_line_without_labels_is_read(name: Seq<char>, value: Seq<char>, x: Double)
    requires
        "hopr_pix_"@.is_prefix_of(name),
        is_name(name),
        is_numeral(value),
        !value.contains('{'),
        crate::numeral::parsed_double(value) == Some(x),
        x.finite(),
    ensures
        exposition::record_of(name + " "@ + value) == (match exposition::kind_of(name) {
            exposition::KindModel::Counter(family) => Some(
                exposition::RecordModel::Counter(family, x.counted()),
            ),
            exposition::KindModel::Gauge(family) => Some(
                exposition::RecordModel::Gauge(family, x),
            ),
            exposition::KindModel::Sum(family) => Some(exposition::RecordModel::Sum(family, x)),
            exposition::KindModel::Count(family) => Some(
                exposition::RecordModel::Count(family, x.counted()),
            ),
            exposition::KindModel::Bucket(_) => None,
        }),
{
    lemma_braces();
    let line = name + seq![' '] + value;
    lemma_stands_first(name, ' ', value);
    assert(!line.contains('{')) by {
        if line.contains('{') {
            let i = line.index_of('{');
            if i < name.len() {
                assert(name.contains(name[i]));
            } else if i > name.len() {
                assert(value[i - name.len() - 1] == '{');
                assert(value.contains(value[i - name.len() - 1]));
            }
        }
    }
    text::lemma_first_index(line, '{');
    if text::first_index(line, '{') < line.len() {
        assert(line.contains(line[text::first_index(line, '{')]));
    }
    text::law_cut_once(line, seq![], '{');
    text::law_cut_after_last(name, value, ' ');
    assert(line.take(name.len() as int) =~= name);
    lemma_trimmed_already(value);
    assert(name.is_prefix_of(line));
    lemma_in_family(line, name);
    let none = Seq::<char>::empty();
    assert(exposition::labels_of(line) =~= none);
    text::law_cut_once(none, none, '=');
    text::lemma_first_index(none, ',');
    assert(text::pieces(none, ',') =~= seq![none]);
    let f = |piece: Seq<char>| labels::kept_label(piece);
    assert(seq![none].drop_last() =~= Seq::<Seq<char>>::empty());
    assert(Seq::<Seq<char>>::empty().filter_map(f) =~= Seq::<labels::LabelModel>::empty());
    assert(labels::labels_without_le(none) =~= Seq::<labels::LabelModel>::empty());
    assert(seq![none].drop_first() =~= Seq::<Seq<char>>::empty());
    assert(labels::value_among(Seq::<Seq<char>>::empty(), "le"@) is None);
    assert(labels::value_in(none, "le"@) is None);
}

/// Nothing is read of a line that does not start with the family's prefix, nor of one that ends in
/// no finite number.
pub proof fn law_other_lines_are_not_read(line: Seq<char>)
    ensures
        !"hopr_pix_"@.is_prefix_of(line) ==> exposition::record_of(line) is None,
        !line.contains(' ') ==> exposition::record_of(line) is None,
        (forall|x: Seq<char>, y: Seq<char>|
            line == #[trigger] (x + seq![' '] + y) && !y.contains(' ')
                ==> match crate::numeral::parsed_double(text::trimmed(y)) {
                Some(z) => !z.finite(),
                None => true,
            }) ==> exposition::record_of(line) is None,
{
    let name = exposition::name_of(line);
    text::lemma_first_index(line, '{');
    text::lemma_first_index(line, ' ');
    if exposition::PREFIX@.is_prefix_of(name) {
        assert(line.take(exposition::PREFIX@.len() as int) =~= name.take(
            exposition::PREFIX@.len() as int,
        ));
    }
    text::lemma_last_index(line, ' ');
    let k = text::last_index(line, ' ');
    if k >= 0 {
        assert(line.contains(line[k]));
        let (x, y) = (line.take(k), line.skip(k + 1));
        assert(line =~= x + seq![' '] + y);
        assert(!y.contains(' ')) by {
            if y.contains(' ') {
                let j = y.index_of(' ');
                assert(line[k + 1 + j] == ' ');
            }
        }
    }
}

// ── Whole lines ──────────────────────────────────────────────────────────────

/// Digits are not cut.
proof fn lemma_digits_are_a_numeral(n: u64)
    ensures
        is_numeral(crate::decimal::decimal(n as nat)),
        !crate::decimal::decimal(n as nat).contains('{'),
{
    let s = crate::decimal::decimal(n as nat);
    crate::decimal::law_decimal_spells(n as nat);
    assert forall|c: char| #[trigger] s.contains(c) implies crate::decimal::is_digit(c) by {
        assert(crate::decimal::is_digit(s[s.index_of(c)]));
    }
    assert(crate::decimal::is_digit(s[0]));
    assert(crate::decimal::is_digit(s[s.len() - 1]));
}

/// A written counter is read as it was written: the series by its name and its labels, and the
/// number, where a double is just that number.
pub proof fn law_a_written_counter_reads_back(
    stem: Seq<char>,
    list: Seq<labels::LabelModel>,
    n: u64,
)
    requires
        "hopr_pix_"@.is_prefix_of(stem),
        is_name(stem),
        list.len() > 0,
        all_plain(list),
        n < 0x20_0000_0000_0000,
    ensures
        exposition::record_of(line_of(stem + "_total"@, list, crate::decimal::decimal(n as nat)))
            == Some(
            exposition::RecordModel::Counter(labels::key_of(stem + "_total"@, but_le(list)), n),
        ),
{
    lemma_digits_are_a_numeral(n);
    crate::numeral::law_whole_numerals_are_exact(n);
    let s = crate::decimal::decimal(n as nat);
    law_a_line_tells_of_its_series(stem, list, s, crate::numeral::parsed_double(s)->0);
}

/// One label that is not `le` is kept.
proof fn lemma_one_label(label: labels::LabelModel)
    requires
        plain(label),
        label.0 != "le"@,
    ensures
        all_plain(seq![label]),
        but_le(seq![label]) == seq![label],
        set_of(seq![label]) == labels::rendered(label),
{
    reveal(Seq::filter);
    let f = |label: labels::LabelModel| label.0 != "le"@;
    let one = seq![label];
    assert(one.drop_last() =~= Seq::<labels::LabelModel>::empty());
    assert(Seq::<labels::LabelModel>::empty().filter(f) =~= Seq::<labels::LabelModel>::empty());
    assert(but_le(one) =~= one);
    assert(labels::renderings(one) =~= seq![labels::rendered(label)]);
}

/// A line with one label, as it is written.
pub open spec fn line_with(
    name: Seq<char>,
    label: labels::LabelModel,
    value: Seq<char>,
) -> Seq<char> {
    name + "{"@ + label.0 + "=\""@ + label.1 + "\"} "@ + value
}

proof fn lemma_line_with(name: Seq<char>, label: labels::LabelModel, value: Seq<char>)
    requires
        plain(label),
        label.0 != "le"@,
    ensures
        line_with(name, label, value) == line_of(name, seq![label], value),
{
    lemma_one_label(label);
    reveal_strlit("{");
    reveal_strlit("=\"");
    reveal_strlit("\"} ");
    reveal_strlit("} ");
    assert(line_with(name, label, value) =~= line_of(name, seq![label], value));
}

/// The gauge of a name and a label holds the number of the last line with that name and that label,
/// whatever the lines with other labels say.
pub proof fn law_a_labelled_gauge_is_its_last_line(
    lines: Seq<Seq<char>>,
    i: int,
    name: Seq<char>,
    label: labels::LabelModel,
    value: Seq<char>,
    x: Double,
)
    requires
        0 <= i < lines.len(),
        lines[i] == line_with(name, label, value),
        "hopr_pix_"@.is_prefix_of(name),
        is_name(name),
        !("_bucket"@.is_suffix_of(name) || "_sum"@.is_suffix_of(name) || "_count"@.is_suffix_of(
            name,
        ) || "_total"@.is_suffix_of(name)),
        plain(label),
        label.0 != "le"@,
        is_numeral(value),
        crate::numeral::parsed_double(value) == Some(x),
        x.finite(),
        forall|j: int|
            i < j < lines.len() ==> !crate::laws::sets_gauge(
                #[trigger] lines[j],
                name + "{"@ + label.0 + "=\""@ + label.1 + "\"}"@,
            ),
    ensures
        crate::pix_exit::reading(lines).gauges.get(
            name + "{"@ + label.0 + "=\""@ + label.1 + "\"}"@,
        ) == Some(x),
{
    lemma_one_label(label);
    lemma_line_with(name, label, value);
    law_a_line_tells_of_its_series(name, seq![label], value, x);
    labels::law_keys_as_written(name, label.0, label.1);
    let key = name + "{"@ + label.0 + "=\""@ + label.1 + "\"}"@;
    crate::laws::law_a_gauge_is_its_last_line(lines, i, key);
    lemma_line_parts(name, seq![label], value);
}

/// A line with a label sets no gauge but that of its name and its label: not that of the name
/// alone, nor that of another label.
pub proof fn law_a_labelled_line_sets_one_gauge(
    name: Seq<char>,
    label: labels::LabelModel,
    value: Seq<char>,
    other: labels::LabelModel,
)
    requires
        "hopr_pix_"@.is_prefix_of(name),
        is_name(name),
        plain(label),
        plain(other),
        label.0 != "le"@,
        label != other,
        is_numeral(value),
    ensures
        !crate::laws::sets_gauge(line_with(name, label, value), name),
        !crate::laws::sets_gauge(
            line_with(name, label, value),
            name + "{"@ + other.0 + "=\""@ + other.1 + "\"}"@,
        ),
{
    lemma_one_label(label);
    lemma_line_with(name, label, value);
    lemma_line_parts(name, seq![label], value);
    law_a_written_set_reads_back(seq![label]);
    let none = Seq::<labels::LabelModel>::empty();
    let line = line_with(name, label, value);
    labels::law_keys_as_written(name, other.0, other.1);
    assert(all_plain(none));
    assert(all_plain(seq![other])) by {
        assert forall|i: int| 0 <= i < 1 implies plain(#[trigger] seq![other][i]) by {}
    }
    to_multiset_len(none);
    to_multiset_len(seq![label]);
    law_different_series_have_different_keys(name, seq![label], name, none);
    if seq![label].to_multiset() == seq![other].to_multiset() {
        broadcast use group_to_multiset_ensures;

        assert(seq![label].contains(seq![label][0]));
        assert(seq![label].to_multiset().count(label) > 0);
        assert(seq![other].contains(label));
    }
    law_different_series_have_different_keys(name, seq![label], name, seq![other]);
    match exposition::record_of(line) {
        Some(exposition::RecordModel::Gauge(key, _)) => {
            assert(key == labels::key_of(name, seq![label]));
        },
        _ => {},
    }
}

/// The line of the `share_lag` episodes, as it is written.
pub open spec fn share_lag_line(n: u64) -> Seq<char> {
    "hopr_pix_gate_blocks_total{reason=\"share_lag\"} "@ + crate::decimal::decimal(n as nat)
}

/// The line of the `share_lag` episodes counts them, of the series by its key as it is written.
pub proof fn law_the_share_lag_line_reads_back(n: u64)
    requires
        n < 0x20_0000_0000_0000,
    ensures
        exposition::record_of(share_lag_line(n)) == Some(
            exposition::RecordModel::Counter(
                "hopr_pix_gate_blocks_total{reason=\"share_lag\"}"@,
                n,
            ),
        ),
{
    let label = ("reason"@, "share_lag"@);
    let stem = "hopr_pix_gate_blocks"@;
    reveal_strlit("hopr_pix_");
    reveal_strlit("hopr_pix_gate_blocks");
    reveal_strlit("hopr_pix_gate_blocks_total");
    reveal_strlit("hopr_pix_gate_blocks_total{reason=\"share_lag\"} ");
    reveal_strlit("_total");
    reveal_strlit("reason");
    reveal_strlit("share_lag");
    reveal_strlit("le");
    reveal_strlit("{");
    reveal_strlit("=\"");
    reveal_strlit("\"} ");
    assert(label.0.len() != "le"@.len());
    let line = line_with(stem + "_total"@, label, crate::decimal::decimal(n as nat));
    assert(stem + "_total"@ =~= "hopr_pix_gate_blocks_total"@);
    assert(line =~= share_lag_line(n));
    assert(plain(label));
    lemma_one_label(label);
    lemma_line_with(stem + "_total"@, label, crate::decimal::decimal(n as nat));
    law_a_written_counter_reads_back(stem, seq![label], n);
    crate::pix_exit::lemma_written_keys();
}

/// Two scrapes between which the lines of the `share_lag` episodes rise make a block that the trace
/// saw.
pub proof fn law_rising_share_lag_lines_are_a_block(
    samples: Seq<crate::trace::Sample>,
    i: int,
    j: int,
    earlier: Seq<Seq<char>>,
    later: Seq<Seq<char>>,
)
    requires
        0 <= i < j < samples.len(),
        crate::pix_exit::reading(earlier).fits(),
        crate::pix_exit::reading(later).fits(),
        samples[i] == crate::trace::sample_of(samples[i].at, crate::pix_exit::reading(earlier)),
        samples[j] == crate::trace::sample_of(samples[j].at, crate::pix_exit::reading(later)),
        crate::laws::counted_by_all(
            earlier,
            "hopr_pix_gate_blocks_total{reason=\"share_lag\"}"@,
        ) < crate::laws::counted_by_all(
            later,
            "hopr_pix_gate_blocks_total{reason=\"share_lag\"}"@,
        ),
    ensures
        crate::trace::saw_block(samples),
{
    let key = "hopr_pix_gate_blocks_total{reason=\"share_lag\"}"@;
    crate::laws::law_absent_is_not_zero(earlier, key);
    crate::laws::law_absent_is_not_zero(later, key);
    crate::trace::law_a_rising_reading_is_a_block(
        samples,
        i,
        j,
        crate::pix_exit::reading(earlier),
        crate::pix_exit::reading(later),
    );
}

/// A scrape whose one line has fewer `share_lag` episodes than that of a later scrape makes a block,
/// from the text on.
pub proof fn law_a_rising_share_lag_line_is_a_block(
    samples: Seq<crate::trace::Sample>,
    i: int,
    j: int,
    m: u64,
    n: u64,
)
    requires
        0 <= i < j < samples.len(),
        m < n < 0x20_0000_0000_0000,
        samples[i] == crate::trace::sample_of(
            samples[i].at,
            crate::pix_exit::reading(seq![share_lag_line(m)]),
        ),
        samples[j] == crate::trace::sample_of(
            samples[j].at,
            crate::pix_exit::reading(seq![share_lag_line(n)]),
        ),
    ensures
        samples[i].share_lag_blocks == m,
        samples[j].share_lag_blocks == n,
        crate::trace::saw_block(samples),
{
    lemma_one_share_lag_line(samples[i].at, m);
    lemma_one_share_lag_line(samples[j].at, n);
    crate::trace::law_any_rise_is_seen(samples, i, j);
}

proof fn lemma_one_share_lag_line(at: crate::trace::Elapsed, n: u64)
    requires
        n < 0x20_0000_0000_0000,
    ensures
        crate::trace::sample_of(
            at,
            crate::pix_exit::reading(seq![share_lag_line(n)]),
        ).share_lag_blocks == n,
{
    law_the_share_lag_line_reads_back(n);
    let lines = seq![share_lag_line(n)];
    let none = crate::pix_exit::no_telemetry();
    assert(lines.drop_last() =~= Seq::<Seq<char>>::empty());
    assert(crate::pix_exit::reading(lines.drop_last()) == none);
    assert(crate::pix_exit::reading(lines) == none.with_line(share_lag_line(n)));
    crate::trace::law_a_sample_holds_its_series(at, crate::pix_exit::reading(lines));
}

} // verus!
