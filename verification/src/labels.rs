//! The labels of a series, and the key they make.
use vstd::prelude::*;
use vstd::relations::*;
use vstd::seq_lib::*;
use vstd::string::*;

use crate::text::{
    self, comes_before, cut_once, is_text, join, push_all, sorts_before, split, trim, unquote,
};

verus! {

broadcast use vstd::string::group_string_axioms;

// ── Models ───────────────────────────────────────────────────────────────────

/// A label's name and its value.
pub type LabelModel = (Seq<char>, Seq<char>);

/// A label as it stands in a key: `name="value"`.
pub open spec fn rendered(label: LabelModel) -> Seq<char> {
    label.0 + seq!['=', '"'] + label.1 + seq!['"']
}

/// `a` before `b` in a key, or in its place: by name, and by what is rendered where the names are
/// the same.
pub open spec fn label_at_most(a: LabelModel, b: LabelModel) -> bool {
    text::precedes(a.0, b.0) || (a.0 == b.0 && text::at_most(rendered(a), rendered(b)))
}

/// `label_at_most`, as an order to sort by.
pub open spec fn label_order() -> spec_fn(LabelModel, LabelModel) -> bool {
    |a: LabelModel, b: LabelModel| label_at_most(a, b)
}

/// The labels as they stand in a key, sorted by name.
pub open spec fn arranged(labels: Seq<LabelModel>) -> Seq<Seq<char>> {
    renderings(labels.sort_by(label_order()))
}

/// Each label as it stands in a key.
pub open spec fn renderings(labels: Seq<LabelModel>) -> Seq<Seq<char>> {
    labels.map_values(|label: LabelModel| rendered(label))
}

/// The canonical key of one series: `family{label="value",…}` with the labels in order, or the
/// bare family where there are none.
pub open spec fn key_of(family: Seq<char>, labels: Seq<LabelModel>) -> Seq<char> {
    if labels.len() == 0 {
        family
    } else {
        family + seq!['{'] + text::joined(arranged(labels), seq![',']) + seq!['}']
    }
}

/// The name and the value of one label of an exposition line, both without white space around
/// them, and the value without quotes.
pub open spec fn label_in(piece: Seq<char>) -> Option<LabelModel> {
    match text::split_once(piece, '=') {
        Some((name, value)) => Some(
            (text::trimmed(name), text::unquoted(text::trimmed(value))),
        ),
        None => None,
    }
}

/// The label of `piece`, unless that is `le`.
pub open spec fn kept_label(piece: Seq<char>) -> Option<LabelModel> {
    match label_in(piece) {
        Some(label) => if label.0 == "le"@ {
            None
        } else {
            Some(label)
        },
        None => None,
    }
}

/// Every label of a label set except `le`.
pub open spec fn labels_without_le(labels: Seq<char>) -> Seq<LabelModel> {
    text::pieces(labels, ',').filter_map(|piece: Seq<char>| kept_label(piece))
}

/// The value of the first label that has `name`.
pub open spec fn value_among(list: Seq<Seq<char>>, name: Seq<char>) -> Option<Seq<char>>
    decreases list.len(),
{
    if list.len() == 0 {
        None
    } else {
        match label_in(list.first()) {
            Some(label) => if label.0 == name {
                Some(label.1)
            } else {
                value_among(list.drop_first(), name)
            },
            None => value_among(list.drop_first(), name),
        }
    }
}

/// The value that label `name` has in a label set.
pub open spec fn value_in(labels: Seq<char>, name: Seq<char>) -> Option<Seq<char>> {
    value_among(text::pieces(labels, ','), name)
}

/// Labels as they are handed over, as a model.
pub open spec fn label_models(labels: Seq<(&str, &str)>) -> Seq<LabelModel> {
    labels.map_values(|label: (&str, &str)| (label.0@, label.1@))
}

/// Labels cut out of a line, as a model.
pub open spec fn slice_models(labels: Seq<(&[char], &[char])>) -> Seq<LabelModel> {
    labels.map_values(|label: (&[char], &[char])| (label.0@, label.1@))
}

// ── Laws ─────────────────────────────────────────────────────────────────────

/// Keeping and changing each element by itself does not mind their order.
proof fn lemma_filter_map_permuted<A, B>(a: Seq<A>, b: Seq<A>, f: spec_fn(A) -> Option<B>)
    requires
        a.to_multiset() == b.to_multiset(),
    ensures
        a.filter_map(f).to_multiset() == b.filter_map(f).to_multiset(),
    decreases a.len(),
{
    broadcast use vstd::multiset::group_multiset_axioms;
    broadcast use group_to_multiset_ensures;

    to_multiset_len(a);
    to_multiset_len(b);
    if a.len() > 0 {
        let x = a.last();
        assert(a.to_multiset().count(x) > 0);
        assert(b.contains(x));
        let i = b.index_of(x);
        let (c, d) = (a.drop_last(), b.remove(i));
        assert(a =~= c.push(x));
        assert(c =~= a.remove(a.len() - 1));
        assert(c.to_multiset() =~= d.to_multiset());
        lemma_filter_map_permuted(c, d, f);
        lemma_filter_map_removed(b, i, f);
        match f(x) {
            Some(y) => {
                assert(c.filter_map(f) + seq![y] =~= c.filter_map(f).push(y));
                assert(a.filter_map(f).to_multiset() =~= c.filter_map(f).to_multiset().insert(y));
            },
            None => {},
        }
        assert(a.filter_map(f).to_multiset() =~= b.filter_map(f).to_multiset());
    }
}

/// What one element adds to what is kept.
proof fn lemma_filter_map_removed<A, B>(b: Seq<A>, i: int, f: spec_fn(A) -> Option<B>)
    requires
        0 <= i < b.len(),
    ensures
        f(b[i]) is Some ==> b.filter_map(f).to_multiset() == b.remove(i).filter_map(
            f,
        ).to_multiset().insert(f(b[i])->0),
        f(b[i]) is None ==> b.filter_map(f).to_multiset() == b.remove(i).filter_map(
            f,
        ).to_multiset(),
    decreases b.len(),
{
    broadcast use vstd::multiset::group_multiset_axioms;
    broadcast use group_to_multiset_ensures;

    let rest = b.drop_last();
    if i == b.len() - 1 {
        assert(b.remove(i) =~= rest);
        match f(b[i]) {
            Some(y) => {
                assert(rest.filter_map(f) + seq![y] =~= rest.filter_map(f).push(y));
            },
            None => {},
        }
    } else {
        lemma_filter_map_removed(rest, i, f);
        let less = b.remove(i);
        assert(less.drop_last() =~= rest.remove(i));
        assert(less.last() == b.last());
        assert(rest[i] == b[i]);
        match f(b.last()) {
            Some(y) => {
                assert(rest.filter_map(f) + seq![y] =~= rest.filter_map(f).push(y));
                assert(rest.remove(i).filter_map(f) + seq![y] =~= rest.remove(i).filter_map(
                    f,
                ).push(y));
                assert(b.filter_map(f).to_multiset() =~= rest.filter_map(f).to_multiset().insert(y));
                assert(less.filter_map(f).to_multiset() =~= rest.remove(i).filter_map(
                    f,
                ).to_multiset().insert(y));
                match f(b[i]) {
                    Some(z) => {
                        let m = rest.remove(i).filter_map(f).to_multiset();
                        assert(m.insert(z).insert(y) =~= m.insert(y).insert(z));
                    },
                    None => {},
                }
            },
            None => {},
        }
    }
}

/// `label_at_most` is a total order, so labels have one arrangement.
pub proof fn lemma_label_order()
    ensures
        vstd::relations::total_ordering(label_order()),
{
    let order = label_order();
    assert forall|a: LabelModel, b: LabelModel, c: LabelModel| #[trigger]
        order(a, b) && #[trigger] order(b, c) implies order(a, c) by {
        lemma_label_order_of(a, b, c);
    }
    assert forall|a: LabelModel| #[trigger] order(a, a) by {
        lemma_label_order_of(a, a, a);
    }
    assert forall|a: LabelModel, b: LabelModel| #[trigger] order(a, b) || #[trigger] order(b, a) by {
        lemma_label_order_of(a, b, a);
    }
    assert forall|a: LabelModel, b: LabelModel| #[trigger]
        order(a, b) && #[trigger] order(b, a) implies a == b by {
        lemma_label_order_of(a, b, a);
    }
}

/// What makes `label_at_most` a total order, for three labels.
proof fn lemma_label_order_of(a: LabelModel, b: LabelModel, c: LabelModel)
    ensures
        label_at_most(a, a),
        label_at_most(a, b) && label_at_most(b, c) ==> label_at_most(a, c),
        label_at_most(a, b) || label_at_most(b, a),
        label_at_most(a, b) && label_at_most(b, a) ==> a == b,
{
    let (x, y, z) = (rendered(a), rendered(b), rendered(c));
    text::lemma_precedes_orders(a.0, b.0, c.0);
    text::lemma_precedes_orders(b.0, c.0, a.0);
    text::lemma_precedes_orders(x, y, z);
    text::lemma_precedes_orders(z, x, y);
    text::lemma_precedes_orders(z, y, x);
    text::lemma_precedes_orders(y, z, x);
    if a.0 == b.0 && x == y {
        assert(x.len() == a.0.len() + a.1.len() + 3);
        assert(y.len() == b.0.len() + b.1.len() + 3);
        let n = a.0.len() as int + 2;
        assert(a.1 =~= x.subrange(n, n + a.1.len()));
        assert(b.1 =~= y.subrange(n, n + b.1.len()));
    }
}

/// However the labels of a series are ordered, they make the same key.
pub proof fn law_label_order_makes_one_key(
    family: Seq<char>,
    a: Seq<LabelModel>,
    b: Seq<LabelModel>,
)
    requires
        a.to_multiset() == b.to_multiset(),
    ensures
        key_of(family, a) == key_of(family, b),
{
    let order = label_order();
    lemma_label_order();
    a.lemma_sort_by_ensures(order);
    b.lemma_sort_by_ensures(order);
    lemma_sorted_unique(a.sort_by(order), b.sort_by(order), order);
    to_multiset_len(a);
    to_multiset_len(b);
}

/// The key of a series without labels is its family, and of one with one label, the family with
/// the label in braces and its value in quotes.
pub proof fn law_keys_as_written(family: Seq<char>, name: Seq<char>, value: Seq<char>)
    ensures
        key_of(family, seq![]) == family,
        key_of(family, seq![(name, value)]) == family + "{"@ + name + "=\""@ + value + "\"}"@,
{
    let one: Seq<LabelModel> = seq![(name, value)];
    let order = label_order();
    lemma_label_order();
    one.lemma_sort_by_ensures(order);
    lemma_sorted_unique(one, one.sort_by(order), order);
    assert(renderings(one) =~= seq![rendered((name, value))]);
    assert(text::joined(renderings(one), seq![',']) == rendered((name, value)));
    reveal_strlit("{");
    reveal_strlit("=\"");
    reveal_strlit("\"}");
    assert(key_of(family, one) =~= family + "{"@ + name + "=\""@ + value + "\"}"@);
}

/// However an exporter orders the labels of a line, and wherever it puts `le` among them, the line
/// belongs to the same series.
pub proof fn law_line_label_order_makes_one_key(family: Seq<char>, a: Seq<char>, b: Seq<char>)
    requires
        text::pieces(a, ',').to_multiset() == text::pieces(b, ',').to_multiset(),
    ensures
        key_of(family, labels_without_le(a)) == key_of(family, labels_without_le(b)),
{
    lemma_filter_map_permuted(
        text::pieces(a, ','),
        text::pieces(b, ','),
        |piece: Seq<char>| kept_label(piece),
    );
    law_label_order_makes_one_key(family, labels_without_le(a), labels_without_le(b));
}

// ── Reading ──────────────────────────────────────────────────────────────────

/// The name and the value of one label of an exposition line.
fn read_label<'a>(piece: &'a [char]) -> (label: Option<(&'a [char], &'a [char])>)
    ensures
        label is Some == label_in(piece@) is Some,
        label is Some ==> ((label->0).0@, (label->0).1@) == label_in(piece@)->0,
{
    match cut_once(piece, '=') {
        Some((name, value)) => Some((trim(name), unquote(trim(value)))),
        None => None,
    }
}

/// Every label except `le`, as `series_key` wants them.
///
/// `le` is dropped because it distinguishes buckets *within* one histogram series rather than one
/// series from another: keeping it would make each bound its own series and no histogram would
/// ever be assembled.
pub fn without_le<'a>(labels: &'a [char]) -> (list: Vec<(&'a [char], &'a [char])>)
    ensures
        slice_models(list@) == labels_without_le(labels@),
{
    let parts = split(labels, ',');
    let ghost list_of = text::pieces(labels@, ',');
    let ghost f = |piece: Seq<char>| kept_label(piece);
    let mut list: Vec<(&'a [char], &'a [char])> = Vec::new();
    let mut i: usize = 0;
    assert(slice_models(list@) =~= list_of.take(0).filter_map(f));
    while i < parts.len()
        invariant
            i <= parts.len(),
            text::texts(parts@) == list_of,
            f == (|piece: Seq<char>| kept_label(piece)),
            slice_models(list@) == list_of.take(i as int).filter_map(f),
        decreases parts.len() - i,
    {
        let ghost before = list@;
        let piece = parts[i];
        proof {
            assert(list_of[i as int] == piece@);
            list_of.lemma_filter_map_take_succ(f, i as int);
        }
        if let Some((name, value)) = read_label(piece) {
            if !is_text(name, "le") {
                list.push((name, value));
                assert(slice_models(list@) =~= slice_models(before) + seq![(name@, value@)]);
            }
        }
        assert(slice_models(list@) =~= list_of.take(i + 1).filter_map(f));
        i = i + 1;
    }
    assert(list_of.take(i as int) =~= list_of);
    list
}

/// The value that label `name` has in a label set.
pub fn label_value<'a>(labels: &'a [char], name: &str) -> (value: Option<&'a [char]>)
    ensures
        value is Some == value_in(labels@, name@) is Some,
        value is Some ==> value->0@ == value_in(labels@, name@)->0,
{
    let parts = split(labels, ',');
    let ghost list_of = text::pieces(labels@, ',');
    let mut i: usize = 0;
    assert(list_of.skip(0) =~= list_of);
    while i < parts.len()
        invariant
            i <= parts.len(),
            text::texts(parts@) == list_of,
            list_of == text::pieces(labels@, ','),
            value_in(labels@, name@) == value_among(list_of.skip(i as int), name@),
        decreases parts.len() - i,
    {
        let piece = parts[i];
        assert(list_of.skip(i as int).first() == piece@);
        assert(list_of.skip(i as int).drop_first() =~= list_of.skip(i + 1));
        if let Some((found, value)) = read_label(piece) {
            if is_text(found, name) {
                return Some(value);
            }
        }
        i = i + 1;
    }
    None
}

// ── Keys ─────────────────────────────────────────────────────────────────────

/// A label as it stands in a key.
fn render(name: &[char], value: &[char]) -> (out: String)
    ensures
        out@ == rendered((name@, value@)),
{
    let mut out = String::new();
    push_all(&mut out, name);
    out.push('=');
    out.push('"');
    push_all(&mut out, value);
    out.push('"');
    assert(out@ =~= rendered((name@, value@)));
    out
}

/// Whether label `a` stands strictly before label `b` in a key.
fn stands_before(a: (&[char], &[char]), b: (&[char], &[char])) -> (yes: bool)
    ensures
        yes == !label_at_most((b.0@, b.1@), (a.0@, a.1@)),
{
    proof {
        text::lemma_precedes_orders(a.0@, b.0@, a.0@);
    }
    if sorts_before(a.0, b.0) {
        true
    } else if sorts_before(b.0, a.0) {
        false
    } else {
        comes_before(render(a.0, a.1).as_str(), render(b.0, b.1).as_str())
    }
}

/// Put `label` where it belongs in a sorted list.
fn insert_sorted<'a>(sorted: &mut Vec<(&'a [char], &'a [char])>, label: (&'a [char], &'a [char]))
    requires
        sorted_by(slice_models(old(sorted)@), label_order()),
    ensures
        sorted_by(slice_models(final(sorted)@), label_order()),
        slice_models(final(sorted)@).to_multiset() == slice_models(
            old(sorted)@,
        ).to_multiset().insert((label.0@, label.1@)),
{
    let mut i: usize = 0;
    let ghost order = label_order();
    let ghost added: LabelModel = (label.0@, label.1@);
    let ghost before = slice_models(sorted@);
    while i < sorted.len() && !stands_before(label, sorted[i])
        invariant
            i <= sorted.len(),
            sorted@ == old(sorted)@,
            before == slice_models(sorted@),
            added == (label.0@, label.1@),
            forall|j: int| 0 <= j < i ==> label_at_most(#[trigger] before[j], added),
        decreases sorted.len() - i,
    {
        assert(before[i as int] == (sorted@[i as int].0@, sorted@[i as int].1@));
        i = i + 1;
    }
    assert(i < before.len() ==> before[i as int] == (sorted@[i as int].0@, sorted@[i as int].1@));
    sorted.insert(i, label);
    proof {
        let after = slice_models(sorted@);
        assert(after =~= before.insert(i as int, added));
        to_multiset_insert(before, i as int, added);
        assert forall|p: int, q: int| 0 <= p < q < after.len() implies #[trigger] order(
            after[p],
            after[q],
        ) by {
            if p < i && q < i {
                assert(order(before[p], before[q]));
            } else if p < i && q > i {
                assert(order(before[p], before[q - 1]));
            } else if p == i {
                if q - 1 > i {
                    assert(order(before[i as int], before[q - 1]));
                }
                lemma_label_order_of(added, before[i as int], before[q - 1]);
            } else if p > i {
                assert(order(before[p - 1], before[q - 1]));
            }
        }
    }
}

/// The canonical key of one series, from characters.
pub fn key_from(family: &[char], labels: &Vec<(&[char], &[char])>) -> (key: String)
    ensures
        key@ == key_of(family@, slice_models(labels@)),
{
    let mut key = String::new();
    push_all(&mut key, family);
    assert(key@ =~= family@);
    if labels.len() == 0 {
        return key;
    }
    let ghost all = slice_models(labels@);
    let ghost order = label_order();
    let mut sorted: Vec<(&[char], &[char])> = Vec::new();
    let mut i: usize = 0;
    assert(slice_models(sorted@) =~= all.take(0));
    while i < labels.len()
        invariant
            i <= labels.len(),
            all == slice_models(labels@),
            sorted_by(slice_models(sorted@), label_order()),
            slice_models(sorted@).to_multiset() == all.take(i as int).to_multiset(),
        decreases labels.len() - i,
    {
        insert_sorted(&mut sorted, labels[i]);
        proof {
            assert(all.take(i + 1) =~= all.take(i as int).push(all[i as int]));
            to_multiset_build(all.take(i as int), all[i as int]);
        }
        i = i + 1;
    }
    proof {
        assert(all.take(i as int) =~= all);
        lemma_label_order();
        all.lemma_sort_by_ensures(order);
        lemma_sorted_unique(slice_models(sorted@), all.sort_by(order), order);
    }
    key.push('{');
    key.append(join(&render_all(&sorted), ",").as_str());
    key.push('}');
    proof {
        reveal_strlit(",");
        assert(","@ =~= seq![',']);
    }
    assert(key@ =~= key_of(family@, all));
    key
}

/// Each label as it stands in a key.
fn render_all(list: &Vec<(&[char], &[char])>) -> (out: Vec<String>)
    ensures
        text::string_texts(out@) == renderings(slice_models(list@)),
{
    let mut out: Vec<String> = Vec::new();
    let mut i: usize = 0;
    while i < list.len()
        invariant
            i <= list.len(),
            out.len() == i,
            forall|j: int|
                0 <= j < i ==> (#[trigger] out@[j])@ == rendered((list@[j].0@, list@[j].1@)),
        decreases list.len() - i,
    {
        let (name, value) = list[i];
        out.push(render(name, value));
        i = i + 1;
    }
    assert(text::string_texts(out@) =~= renderings(slice_models(list@)));
    out
}

/// The canonical key for one series: `family{label="value",…}`, labels sorted by name.
///
/// Sorted because the exporter emits attributes in the order the SDK hands them over, with no
/// ordering guarantee, and `le` appended after them. Keying on the raw label substring would let
/// one series produce two keys across two scrapes; normalising costs an allocation per series and
/// removes the possibility.
pub fn series_key(family: &str, labels: &[(&str, &str)]) -> (key: String)
    ensures
        key@ == key_of(family@, label_models(labels@)),
{
    let chars = text::chars_of(family);
    let mut names: Vec<Vec<char>> = Vec::new();
    let mut values: Vec<Vec<char>> = Vec::new();
    let mut i: usize = 0;
    while i < labels.len()
        invariant
            i <= labels.len(),
            names.len() == i,
            values.len() == i,
            forall|j: int| 0 <= j < i ==> (#[trigger] names@[j])@ == labels@[j].0@,
            forall|j: int| 0 <= j < i ==> (#[trigger] values@[j])@ == labels@[j].1@,
        decreases labels.len() - i,
    {
        let (name, value) = labels[i];
        names.push(text::chars_of(name));
        values.push(text::chars_of(value));
        i = i + 1;
    }
    let mut list: Vec<(&[char], &[char])> = Vec::new();
    let mut k: usize = 0;
    while k < names.len()
        invariant
            k <= names.len() == values.len() == labels@.len(),
            list.len() == k,
            forall|j: int| 0 <= j < names@.len() ==> (#[trigger] names@[j])@ == labels@[j].0@,
            forall|j: int| 0 <= j < names@.len() ==> (#[trigger] values@[j])@ == labels@[j].1@,
            forall|j: int|
                0 <= j < k ==> slice_models(list@)[j] == #[trigger] label_models(labels@)[j],
        decreases names.len() - k,
    {
        let ghost before = list@;
        list.push((names[k].as_slice(), values[k].as_slice()));
        assert(slice_models(list@) =~= slice_models(before).push((names@[k as int]@, values@[k as int]@)));
        k = k + 1;
    }
    assert(slice_models(list@) =~= label_models(labels@));
    key_from(chars.as_slice(), &list)
}

} // verus!
