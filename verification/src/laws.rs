use vstd::prelude::*;

use crate::builder::apply_pair_spec;
use crate::builder::decode_from;
use crate::builder::decode_spec;
use crate::builder::find_key;
use crate::builder::lemma_find_key_at;
use crate::builder::lemma_find_key_none;
use crate::builder::set_in_obj;
use crate::builder::set_path_spec;
use crate::flatten::arr_prefix;
use crate::flatten::flatten_arr;
use crate::flatten::flatten_obj;
use crate::flatten::flatten_spec;
use crate::flatten::obj_prefix;
use crate::parse::SegView;
use crate::parse::lemma_index_of_first_at;
use crate::parse::lemma_index_of_first_none;
use crate::parse::parse_inside;
use crate::parse::parse_outside;
use crate::value::Tree;

verus! {

/// A key that decodes back to itself as one named segment: non-empty text
/// with no `[` in it.
pub open spec fn plain_key(k: Seq<char>) -> bool {
    k.len() > 0 && forall|j: int| 0 <= j < k.len() ==> k[j] != '['
}

/// A flat object of string leaves: every entry holds a plain key and a
/// `Text` leaf, and no key repeats.
pub open spec fn flat_entries(es: Seq<(Seq<char>, Tree)>) -> bool {
    &&& forall|i: int| 0 <= i < es.len() ==> plain_key((#[trigger] es[i]).0) && es[i].1 is Text
    &&& forall|i: int, j: int|
        #![trigger es[i].0, es[j].0]
        0 <= i < j < es.len() ==> es[i].0 != es[j].0
}

/// A plain key is one terminal named segment.
pub proof fn lemma_parse_plain_key(k: Seq<char>)
    requires
        plain_key(k),
    ensures
        parse_outside(k) == Some(seq![SegView::Name(k)]),
{
    lemma_index_of_first_none(k, '[');
}

/// A plain key followed by the literal `[]` is that named segment and then
/// an array append.
pub proof fn lemma_parse_append_key(k: Seq<char>)
    requires
        plain_key(k),
    ensures
        parse_outside(k + seq!['[', ']']) == Some(seq![SegView::Name(k), SegView::Append]),
{
    let full = k + seq!['[', ']'];
    let n = k.len() as int;
    assert(full[n] == '[');
    assert(forall|j: int| 0 <= j < n ==> full[j] == k[j]);
    lemma_index_of_first_at(full, '[', n);
    let inner = full.subrange(n + 1, full.len() as int);
    assert(inner =~= seq![']']);
    assert(inner[0] == ']');
    lemma_index_of_first_at(inner, ']', 0);
    assert(inner.drop_first() =~= Seq::<char>::empty());
    assert(parse_inside(inner) == Some(seq![SegView::Append] + Seq::<SegView>::empty()));
    assert(full.subrange(0, n) =~= k);
    assert(seq![SegView::Name(k)] + (seq![SegView::Append] + Seq::<SegView>::empty())
        =~= seq![SegView::Name(k), SegView::Append]);
}

/// The pairs a flat object flattens to: one per entry, the bare key and
/// the leaf's text, in entry order.
pub open spec fn flat_pairs(es: Seq<(Seq<char>, Tree)>) -> Seq<(Seq<char>, Seq<char>)> {
    Seq::new(es.len(), |i: int| (es[i].0, es[i].1->Text_0))
}

proof fn lemma_flatten_flat_obj(es: Seq<(Seq<char>, Tree)>)
    requires
        forall|i: int| 0 <= i < es.len() ==> (#[trigger] es[i]).1 is Text,
    ensures
        flatten_obj(es, Seq::empty()) == flat_pairs(es),
    decreases es.len(),
{
    if es.len() == 0 {
        assert(flatten_obj(es, Seq::empty()) =~= flat_pairs(es));
    } else {
        assert(obj_prefix(Seq::empty(), es[0].0) == es[0].0);
        lemma_flatten_flat_obj(es.drop_first());
        assert(es[0].1 is Text);
        assert(flatten_spec(es[0].1, obj_prefix(Seq::empty(), es[0].0)) =~~= seq![
            (es[0].0, es[0].1->Text_0),
        ]);
        assert(flat_pairs(es.drop_first()) =~~= flat_pairs(es).drop_first());
        assert(flatten_obj(es, Seq::empty()) =~~= flat_pairs(es));
    }
}

proof fn lemma_decode_flat_obj(done: Seq<(Seq<char>, Tree)>, rem: Seq<(Seq<char>, Tree)>)
    requires
        flat_entries(done + rem),
    ensures
        decode_from(Tree::Obj(done), flat_pairs(rem)) == Some(Tree::Obj(done + rem)),
    decreases rem.len(),
{
    let all = done + rem;
    if rem.len() == 0 {
        assert(done + rem =~= done);
        assert(flat_pairs(rem) =~= Seq::<(Seq<char>, Seq<char>)>::empty());
    } else {
        let k0 = rem[0].0;
        let v0 = rem[0].1->Text_0;
        let nd = done.len() as int;
        assert(all[nd] == rem[0]);
        assert(plain_key(k0));
        lemma_parse_plain_key(k0);
        assert(flat_pairs(rem)[0] == (k0, v0));
        let path = seq![SegView::Name(k0)];
        assert(path[0] == SegView::Name(k0));
        assert(path.drop_first() =~= Seq::<SegView>::empty());
        assert(forall|i: int| 0 <= i < done.len() ==> #[trigger] done[i].0 == all[i].0);
        assert(forall|i: int| 0 <= i < done.len() ==> #[trigger] done[i].0 != k0);
        lemma_find_key_none(done, k0);
        assert(set_path_spec(Tree::Null, path.drop_first(), v0) == Some(Tree::Text(v0)));
        assert(rem[0].1 == Tree::Text(v0));
        assert(set_in_obj(done, k0, path.drop_first(), v0) == Some(
            Tree::Obj(done.push(rem[0])),
        ));
        assert(set_path_spec(Tree::Obj(done), path, v0) == Some(Tree::Obj(done.push(rem[0]))));
        let done2 = done.push(rem[0]);
        assert(done2 + rem.drop_first() =~= done + rem);
        lemma_decode_flat_obj(done2, rem.drop_first());
        assert(flat_pairs(rem).drop_first() =~= flat_pairs(rem.drop_first()));
    }
}

/// Round trip for a flat object of string leaves: flattening it emits one
/// pair per entry, the bare key and the leaf text in entry order, and
/// decoding that pair list rebuilds exactly the same tree.
pub proof fn lemma_round_trip_flat_object(es: Seq<(Seq<char>, Tree)>)
    requires
        flat_entries(es),
    ensures
        flatten_spec(Tree::Obj(es), Seq::empty()) == flat_pairs(es),
        decode_spec(flat_pairs(es)) == Some(Tree::Obj(es)),
{
    lemma_flatten_flat_obj(es);
    assert(Seq::<(Seq<char>, Tree)>::empty() + es =~= es);
    assert(flat_entries(Seq::<(Seq<char>, Tree)>::empty() + es));
    lemma_decode_flat_obj(Seq::empty(), es);
}

/// A key that decodes back to itself as one bracketed segment: non-empty
/// text with no `]` in it (inside a bracket only `]` is special).
pub open spec fn inner_key(k: Seq<char>) -> bool {
    k.len() > 0 && forall|j: int| 0 <= j < k.len() ==> k[j] != ']'
}

/// A flat object fit to stand one level down: every entry holds an inner
/// key and a `Text` leaf, and no key repeats.
pub open spec fn nested_entries(es: Seq<(Seq<char>, Tree)>) -> bool {
    &&& forall|i: int| 0 <= i < es.len() ==> inner_key((#[trigger] es[i]).0) && es[i].1 is Text
    &&& forall|i: int, j: int|
        #![trigger es[i].0, es[j].0]
        0 <= i < j < es.len() ==> es[i].0 != es[j].0
}

/// A plain key, then an inner key in brackets, is those two named segments.
pub proof fn lemma_parse_nested_key(k1: Seq<char>, k2: Seq<char>)
    requires
        plain_key(k1),
        inner_key(k2),
    ensures
        parse_outside(k1 + seq!['['] + k2 + seq![']']) == Some(
            seq![SegView::Name(k1), SegView::Name(k2)],
        ),
{
    let full = k1 + seq!['['] + k2 + seq![']'];
    let n1 = k1.len() as int;
    let n2 = k2.len() as int;
    assert(full[n1] == '[');
    assert(forall|j: int| 0 <= j < n1 ==> full[j] == k1[j]);
    lemma_index_of_first_at(full, '[', n1);
    let inner = full.subrange(n1 + 1, full.len() as int);
    assert(inner =~= k2 + seq![']']);
    assert(inner[n2] == ']');
    assert(forall|j: int| 0 <= j < n2 ==> inner[j] == k2[j]);
    lemma_index_of_first_at(inner, ']', n2);
    assert(inner.subrange(0, n2) =~= k2);
    assert(inner.subrange(n2 + 1, inner.len() as int) =~= Seq::<char>::empty());
    assert(parse_inside(inner) == Some(seq![SegView::Name(k2)] + Seq::<SegView>::empty()));
    assert(full.subrange(0, n1) =~= k1);
    assert(seq![SegView::Name(k1)] + (seq![SegView::Name(k2)] + Seq::<SegView>::empty())
        =~= seq![SegView::Name(k1), SegView::Name(k2)]);
}

/// The pairs a nested flat object flattens to under the outer key `k`: one
/// per entry, `k[name]` and the leaf text, in entry order.
pub open spec fn nested_pairs(k: Seq<char>, es: Seq<(Seq<char>, Tree)>) -> Seq<
    (Seq<char>, Seq<char>),
> {
    Seq::new(es.len(), |i: int| (k + seq!['['] + es[i].0 + seq![']'], es[i].1->Text_0))
}

proof fn lemma_flatten_nested_obj(k: Seq<char>, es: Seq<(Seq<char>, Tree)>)
    requires
        k.len() > 0,
        forall|i: int| 0 <= i < es.len() ==> (#[trigger] es[i]).1 is Text,
    ensures
        flatten_obj(es, k) == nested_pairs(k, es),
    decreases es.len(),
{
    if es.len() == 0 {
        assert(flatten_obj(es, k) =~= nested_pairs(k, es));
    } else {
        assert(obj_prefix(k, es[0].0) == k + seq!['['] + es[0].0 + seq![']']);
        lemma_flatten_nested_obj(k, es.drop_first());
        assert(es[0].1 is Text);
        assert(flatten_spec(es[0].1, obj_prefix(k, es[0].0)) =~~= seq![
            (k + seq!['['] + es[0].0 + seq![']'], es[0].1->Text_0),
        ]);
        assert(nested_pairs(k, es.drop_first()) =~~= nested_pairs(k, es).drop_first());
        assert(flatten_obj(es, k) =~~= nested_pairs(k, es));
    }
}

proof fn lemma_decode_nested_obj(
    outer: Seq<(Seq<char>, Tree)>,
    k: Seq<char>,
    done: Seq<(Seq<char>, Tree)>,
    rem: Seq<(Seq<char>, Tree)>,
)
    requires
        plain_key(k),
        forall|i: int| 0 <= i < outer.len() ==> (#[trigger] outer[i]).0 != k,
        nested_entries(done + rem),
    ensures
        decode_from(Tree::Obj(outer.push((k, Tree::Obj(done)))), nested_pairs(k, rem)) == Some(
            Tree::Obj(outer.push((k, Tree::Obj(done + rem)))),
        ),
    decreases rem.len(),
{
    let all = done + rem;
    let es = outer.push((k, Tree::Obj(done)));
    let no = outer.len() as int;
    if rem.len() == 0 {
        assert(done + rem =~= done);
        assert(nested_pairs(k, rem) =~= Seq::<(Seq<char>, Seq<char>)>::empty());
    } else {
        let k0 = rem[0].0;
        let v0 = rem[0].1->Text_0;
        let nd = done.len() as int;
        assert(all[nd] == rem[0]);
        assert(inner_key(k0));
        lemma_parse_nested_key(k, k0);
        assert(nested_pairs(k, rem)[0] == (k + seq!['['] + k0 + seq![']'], v0));
        let path = seq![SegView::Name(k), SegView::Name(k0)];
        assert(path[0] == SegView::Name(k));
        let rest = path.drop_first();
        assert(rest =~= seq![SegView::Name(k0)]);
        assert(rest[0] == SegView::Name(k0));
        assert(rest.drop_first() =~= Seq::<SegView>::empty());
        assert(es[no] == (k, Tree::Obj(done)));
        assert(forall|i: int| 0 <= i < no ==> es[i] == outer[i]);
        lemma_find_key_at(es, k, no);
        assert(forall|i: int| 0 <= i < done.len() ==> #[trigger] done[i].0 == all[i].0);
        assert(forall|i: int| 0 <= i < done.len() ==> #[trigger] done[i].0 != k0);
        lemma_find_key_none(done, k0);
        assert(set_path_spec(Tree::Null, rest.drop_first(), v0) == Some(Tree::Text(v0)));
        assert(rem[0].1 == Tree::Text(v0));
        assert(set_in_obj(done, k0, rest.drop_first(), v0) == Some(
            Tree::Obj(done.push(rem[0])),
        ));
        assert(set_path_spec(Tree::Obj(done), rest, v0) == Some(Tree::Obj(done.push(rem[0]))));
        let done2 = done.push(rem[0]);
        assert(set_in_obj(es, k, rest, v0) == Some(
            Tree::Obj(es.update(no, (k, Tree::Obj(done2)))),
        ));
        assert(es.update(no, (k, Tree::Obj(done2))) =~= outer.push((k, Tree::Obj(done2))));
        assert(set_path_spec(Tree::Obj(es), path, v0) == Some(
            Tree::Obj(outer.push((k, Tree::Obj(done2)))),
        ));
        assert(done2 + rem.drop_first() =~= done + rem);
        lemma_decode_nested_obj(outer, k, done2, rem.drop_first());
        assert(nested_pairs(k, rem).drop_first() =~= nested_pairs(k, rem.drop_first()));
    }
}

/// Nesting round trips: an object entry `k` holding a flat object of
/// string leaves flattens to one pair per inner entry under the keys
/// `k[name]`, and decoding that pair list rebuilds exactly the same tree.
pub proof fn lemma_round_trip_nested_object(k: Seq<char>, es: Seq<(Seq<char>, Tree)>)
    requires
        plain_key(k),
        nested_entries(es),
        es.len() > 0,
    ensures
        flatten_spec(Tree::Obj(seq![(k, Tree::Obj(es))]), Seq::empty()) == nested_pairs(k, es),
        decode_spec(nested_pairs(k, es)) == Some(Tree::Obj(seq![(k, Tree::Obj(es))])),
{
    let outer = seq![(k, Tree::Obj(es))];
    // The flattening half.
    assert(obj_prefix(Seq::empty(), k) == k);
    lemma_flatten_nested_obj(k, es);
    assert(outer[0] == (k, Tree::Obj(es)));
    assert(outer.drop_first() =~= Seq::<(Seq<char>, Tree)>::empty());
    assert(flatten_obj(outer.drop_first(), Seq::empty()) =~= Seq::<
        (Seq<char>, Seq<char>),
    >::empty());
    assert(flatten_obj(outer, Seq::empty()) == flatten_spec(
        outer[0].1,
        obj_prefix(Seq::empty(), outer[0].0),
    ) + flatten_obj(outer.drop_first(), Seq::empty()));
    assert(flatten_spec(Tree::Obj(outer), Seq::empty()) =~~= nested_pairs(k, es));
    // The decoding half: the first pair creates the outer entry around a
    // fresh inner object, the rest merge into it.
    let k0 = es[0].0;
    let v0 = es[0].1->Text_0;
    lemma_parse_nested_key(k, k0);
    assert(nested_pairs(k, es)[0] == (k + seq!['['] + k0 + seq![']'], v0));
    let path = seq![SegView::Name(k), SegView::Name(k0)];
    assert(path[0] == SegView::Name(k));
    let rest = path.drop_first();
    assert(rest =~= seq![SegView::Name(k0)]);
    assert(rest[0] == SegView::Name(k0));
    assert(rest.drop_first() =~= Seq::<SegView>::empty());
    let root = Seq::<(Seq<char>, Tree)>::empty();
    lemma_find_key_none(root, k);
    lemma_find_key_none(root, k0);
    assert(set_path_spec(Tree::Null, rest.drop_first(), v0) == Some(Tree::Text(v0)));
    assert(es[0].1 == Tree::Text(v0));
    assert(set_in_obj(root, k0, rest.drop_first(), v0) == Some(
        Tree::Obj(root.push(es[0])),
    ));
    assert(set_path_spec(Tree::Null, rest, v0) == Some(Tree::Obj(root.push(es[0]))));
    let one = root.push(es[0]);
    assert(set_in_obj(root, k, rest, v0) == Some(Tree::Obj(root.push((k, Tree::Obj(one))))));
    assert(set_path_spec(Tree::Obj(root), path, v0) == Some(
        Tree::Obj(root.push((k, Tree::Obj(one)))),
    ));
    assert(one + es.drop_first() =~= es);
    assert(nested_entries(one + es.drop_first()));
    lemma_decode_nested_obj(root, k, one, es.drop_first());
    assert(nested_pairs(k, es).drop_first() =~= nested_pairs(k, es.drop_first()));
    assert(root.push((k, Tree::Obj(es))) =~= outer);
}

/// The pairs an array of string leaves flattens to under key `k`: all with
/// the one key `k[]`, the values in array order.
pub open spec fn append_pairs(k: Seq<char>, vals: Seq<Seq<char>>) -> Seq<
    (Seq<char>, Seq<char>),
> {
    Seq::new(vals.len(), |i: int| (k + seq!['[', ']'], vals[i]))
}

/// The tree those values build: one object entry holding the array of
/// `Text` leaves.
pub open spec fn text_arr(vals: Seq<Seq<char>>) -> Seq<Tree> {
    Seq::new(vals.len(), |i: int| Tree::Text(vals[i]))
}

proof fn lemma_flatten_texts(ts: Seq<Tree>, prefix: Seq<char>)
    requires
        forall|i: int| 0 <= i < ts.len() ==> (#[trigger] ts[i]) is Text,
    ensures
        flatten_arr(ts, prefix) == Seq::new(ts.len(), |i: int| (prefix, ts[i]->Text_0)),
    decreases ts.len(),
{
    if ts.len() == 0 {
        assert(flatten_arr(ts, prefix) =~= Seq::new(
            ts.len(),
            |i: int| (prefix, ts[i]->Text_0),
        ));
    } else {
        lemma_flatten_texts(ts.drop_first(), prefix);
        assert(ts[0] is Text);
        assert(flatten_spec(ts[0], prefix) =~~= seq![(prefix, ts[0]->Text_0)]);
        assert(flatten_arr(ts, prefix) =~~= Seq::new(
            ts.len(),
            |i: int| (prefix, ts[i]->Text_0),
        ));
    }
}

proof fn lemma_decode_appends(
    done: Seq<(Seq<char>, Tree)>,
    k: Seq<char>,
    cur: Seq<Tree>,
    rem: Seq<Seq<char>>,
)
    requires
        plain_key(k),
        forall|i: int| 0 <= i < done.len() ==> (#[trigger] done[i]).0 != k,
    ensures
        decode_from(Tree::Obj(done.push((k, Tree::Arr(cur)))), append_pairs(k, rem)) == Some(
            Tree::Obj(done.push((k, Tree::Arr(cur + text_arr(rem))))),
        ),
    decreases rem.len(),
{
    let es = done.push((k, Tree::Arr(cur)));
    let nd = done.len() as int;
    if rem.len() == 0 {
        assert(append_pairs(k, rem) =~= Seq::<(Seq<char>, Seq<char>)>::empty());
        assert(cur + text_arr(rem) =~= cur);
    } else {
        lemma_parse_append_key(k);
        let v0 = rem[0];
        assert(append_pairs(k, rem)[0] == (k + seq!['[', ']'], v0));
        let path = seq![SegView::Name(k), SegView::Append];
        assert(path[0] == SegView::Name(k));
        let rest = path.drop_first();
        assert(rest =~= seq![SegView::Append]);
        assert(rest[0] == SegView::Append);
        assert(rest.drop_first() =~= Seq::<SegView>::empty());
        assert(es[nd] == (k, Tree::Arr(cur)));
        assert(forall|i: int| 0 <= i < nd ==> es[i] == done[i]);
        lemma_find_key_at(es, k, nd);
        assert(set_path_spec(Tree::Null, rest.drop_first(), v0) == Some(Tree::Text(v0)));
        assert(set_path_spec(Tree::Arr(cur), rest, v0) == Some(
            Tree::Arr(cur.push(Tree::Text(v0))),
        ));
        let cur2 = cur.push(Tree::Text(v0));
        assert(set_in_obj(es, k, rest, v0) == Some(
            Tree::Obj(es.update(nd, (k, Tree::Arr(cur2)))),
        ));
        assert(es.update(nd, (k, Tree::Arr(cur2))) =~= done.push((k, Tree::Arr(cur2))));
        assert(set_path_spec(Tree::Obj(es), path, v0) == Some(
            Tree::Obj(done.push((k, Tree::Arr(cur2)))),
        ));
        lemma_decode_appends(done, k, cur2, rem.drop_first());
        assert(append_pairs(k, rem).drop_first() =~= append_pairs(k, rem.drop_first()));
        assert(cur2 + text_arr(rem.drop_first()) =~= cur + text_arr(rem));
    }
}

/// Array append order is preserved: an object entry `k` holding an array
/// of string leaves flattens to one pair per element, every pair under the
/// same key `k[]`, the values in array order; and decoding that exact pair
/// sequence rebuilds the array in the same order.
pub proof fn lemma_round_trip_array_append(k: Seq<char>, vals: Seq<Seq<char>>)
    requires
        plain_key(k),
        vals.len() > 0,
    ensures
        flatten_spec(Tree::Obj(seq![(k, Tree::Arr(text_arr(vals)))]), Seq::empty())
            == append_pairs(k, vals),
        decode_spec(append_pairs(k, vals)) == Some(
            Tree::Obj(seq![(k, Tree::Arr(text_arr(vals)))]),
        ),
{
    let es = seq![(k, Tree::Arr(text_arr(vals)))];
    // The flattening half.
    assert(obj_prefix(Seq::empty(), k) == k);
    assert(forall|i: int| 0 <= i < text_arr(vals).len() ==> (#[trigger] text_arr(vals)[i]) is Text);
    lemma_flatten_texts(text_arr(vals), arr_prefix(k));
    assert(es.drop_first() =~= Seq::<(Seq<char>, Tree)>::empty());
    assert(arr_prefix(k) == k + seq!['[', ']']);
    assert(Seq::new(text_arr(vals).len(), |i: int| (arr_prefix(k), text_arr(vals)[i]->Text_0))
        =~~= append_pairs(k, vals));
    assert(flatten_obj(es.drop_first(), Seq::empty()) =~~= Seq::<(Seq<char>, Seq<char>)>::empty());
    assert(es[0] == (k, Tree::Arr(text_arr(vals))));
    assert(flatten_obj(es, Seq::empty()) == flatten_spec(es[0].1, obj_prefix(Seq::empty(), es[0].0))
        + flatten_obj(es.drop_first(), Seq::empty()));
    assert(flatten_spec(es[0].1, k) == flatten_arr(text_arr(vals), arr_prefix(k)));
    assert(flatten_spec(Tree::Obj(es), Seq::empty()) =~~= append_pairs(k, vals));
    // The decoding half: the first pair promotes the root entry to an
    // array of one element, the rest append in order.
    lemma_parse_append_key(k);
    let v0 = vals[0];
    assert(append_pairs(k, vals)[0] == (k + seq!['[', ']'], v0));
    let path = seq![SegView::Name(k), SegView::Append];
    assert(path[0] == SegView::Name(k));
    let rest = path.drop_first();
    assert(rest =~= seq![SegView::Append]);
    assert(rest[0] == SegView::Append);
    assert(rest.drop_first() =~= Seq::<SegView>::empty());
    let root = Seq::<(Seq<char>, Tree)>::empty();
    lemma_find_key_none(root, k);
    assert(set_path_spec(Tree::Null, rest.drop_first(), v0) == Some(Tree::Text(v0)));
    assert(set_path_spec(Tree::Null, rest, v0) == Some(
        Tree::Arr(Seq::<Tree>::empty().push(Tree::Text(v0))),
    ));
    let one = Seq::<Tree>::empty().push(Tree::Text(v0));
    assert(set_path_spec(Tree::Null, rest, v0) == Some(Tree::Arr(one)));
    assert(set_in_obj(root, k, rest, v0) == Some(Tree::Obj(root.push((k, Tree::Arr(one))))));
    assert(set_path_spec(Tree::Obj(root), path, v0) == Some(
        Tree::Obj(root.push((k, Tree::Arr(one)))),
    ));
    lemma_decode_appends(root, k, one, vals.drop_first());
    assert(append_pairs(k, vals).drop_first() =~= append_pairs(k, vals.drop_first()));
    assert(one + text_arr(vals.drop_first()) =~= text_arr(vals));
    assert(root.push((k, Tree::Arr(text_arr(vals)))) =~= es);
}

/// Folding a concatenated pair list is folding the halves in turn.
proof fn lemma_decode_from_app(
    t: Tree,
    a: Seq<(Seq<char>, Seq<char>)>,
    b: Seq<(Seq<char>, Seq<char>)>,
)
    ensures
        decode_from(t, a + b) == match decode_from(t, a) {
            None => None::<Tree>,
            Some(t2) => decode_from(t2, b),
        },
    decreases a.len(),
{
    if a.len() == 0 {
        assert(a + b =~= b);
    } else {
        assert((a + b)[0] == a[0]);
        assert((a + b).drop_first() =~= a.drop_first() + b);
        match apply_pair_spec(t, a[0].0, a[0].1) {
            None => {
            },
            Some(t2) => {
                lemma_decode_from_app(t2, a.drop_first(), b);
            },
        }
    }
}

/// The texts of an array of string leaves, in array order.
pub open spec fn texts_of(ts: Seq<Tree>) -> Seq<Seq<char>> {
    Seq::new(ts.len(), |i: int| ts[i]->Text_0)
}

/// What one record field may hold: a string leaf, a non-empty array of
/// string leaves, or a non-empty flat object of string leaves.
pub open spec fn field_tree(t: Tree) -> bool {
    match t {
        Tree::Text(_) => true,
        Tree::Arr(ts) => ts.len() > 0 && forall|i: int|
            0 <= i < ts.len() ==> (#[trigger] ts[i]) is Text,
        Tree::Obj(es) => es.len() > 0 && nested_entries(es),
        _ => false,
    }
}

/// A record: a top-level object whose entries hold plain keys, distinct
/// from one another, each with a field as `field_tree` allows.
pub open spec fn record_entries(es: Seq<(Seq<char>, Tree)>) -> bool {
    &&& forall|i: int|
        0 <= i < es.len() ==> plain_key((#[trigger] es[i]).0) && field_tree(es[i].1)
    &&& forall|i: int, j: int|
        #![trigger es[i].0, es[j].0]
        0 <= i < j < es.len() ==> es[i].0 != es[j].0
}

/// The pairs one record field flattens to under its key.
pub open spec fn block_pairs(k: Seq<char>, t: Tree) -> Seq<(Seq<char>, Seq<char>)> {
    match t {
        Tree::Text(s) => seq![(k, s)],
        Tree::Arr(ts) => append_pairs(k, texts_of(ts)),
        Tree::Obj(es) => nested_pairs(k, es),
        _ => Seq::empty(),
    }
}

/// The pairs a whole record flattens to: its fields' blocks, in entry order.
pub open spec fn record_pairs(es: Seq<(Seq<char>, Tree)>) -> Seq<(Seq<char>, Seq<char>)>
    decreases es.len(),
{
    if es.len() == 0 {
        Seq::empty()
    } else {
        block_pairs(es[0].0, es[0].1) + record_pairs(es.drop_first())
    }
}

proof fn lemma_flatten_record(es: Seq<(Seq<char>, Tree)>)
    requires
        forall|i: int|
            0 <= i < es.len() ==> plain_key((#[trigger] es[i]).0) && field_tree(es[i].1),
    ensures
        flatten_obj(es, Seq::empty()) == record_pairs(es),
    decreases es.len(),
{
    if es.len() == 0 {
        assert(flatten_obj(es, Seq::empty()) =~= record_pairs(es));
    } else {
        let k = es[0].0;
        let t = es[0].1;
        assert(plain_key(k) && field_tree(t));
        assert(obj_prefix(Seq::empty(), k) == k);
        match t {
            Tree::Text(s) => {
                assert(flatten_spec(t, k) =~~= block_pairs(k, t));
            },
            Tree::Arr(ts) => {
                lemma_flatten_texts(ts, arr_prefix(k));
                assert(Seq::new(ts.len(), |i: int| (arr_prefix(k), ts[i]->Text_0)) =~~= append_pairs(
                    k,
                    texts_of(ts),
                ));
                assert(flatten_spec(t, k) =~~= block_pairs(k, t));
            },
            Tree::Obj(inner) => {
                lemma_flatten_nested_obj(k, inner);
                assert(flatten_spec(t, k) =~~= block_pairs(k, t));
            },
            _ => {
                assert(false);
            },
        }
        lemma_flatten_record(es.drop_first());
        assert(flatten_obj(es, Seq::empty()) =~~= record_pairs(es));
    }
}

proof fn lemma_decode_record(done: Seq<(Seq<char>, Tree)>, rem: Seq<(Seq<char>, Tree)>)
    requires
        record_entries(done + rem),
    ensures
        decode_from(Tree::Obj(done), record_pairs(rem)) == Some(Tree::Obj(done + rem)),
    decreases rem.len(),
{
    let all = done + rem;
    if rem.len() == 0 {
        assert(done + rem =~= done);
        assert(record_pairs(rem) =~= Seq::<(Seq<char>, Seq<char>)>::empty());
    } else {
        let k0 = rem[0].0;
        let t0 = rem[0].1;
        let nd = done.len() as int;
        assert(all[nd] == rem[0]);
        assert(rem[0] == (k0, t0));
        assert(plain_key(k0) && field_tree(t0));
        assert(forall|i: int| 0 <= i < done.len() ==> #[trigger] done[i].0 == all[i].0);
        assert(forall|i: int| 0 <= i < done.len() ==> (#[trigger] done[i]).0 != k0);
        lemma_find_key_none(done, k0);
        let block = block_pairs(k0, t0);
        lemma_decode_from_app(Tree::Obj(done), block, record_pairs(rem.drop_first()));
        // One field's block lands entirely in the fresh entry `k0`.
        assert(decode_from(Tree::Obj(done), block) == Some(Tree::Obj(done.push(rem[0])))) by {
            match t0 {
                Tree::Text(s) => {
                    lemma_parse_plain_key(k0);
                    let path = seq![SegView::Name(k0)];
                    assert(path[0] == SegView::Name(k0));
                    assert(path.drop_first() =~= Seq::<SegView>::empty());
                    assert(set_path_spec(Tree::Null, path.drop_first(), s) == Some(
                        Tree::Text(s),
                    ));
                    assert(set_in_obj(done, k0, path.drop_first(), s) == Some(
                        Tree::Obj(done.push((k0, Tree::Text(s)))),
                    ));
                    assert(set_path_spec(Tree::Obj(done), path, s) == Some(
                        Tree::Obj(done.push((k0, Tree::Text(s)))),
                    ));
                    assert(block[0] == (k0, s));
                    assert(block.drop_first() =~= Seq::<(Seq<char>, Seq<char>)>::empty());
                    assert(apply_pair_spec(Tree::Obj(done), k0, s) == Some(
                        Tree::Obj(done.push((k0, Tree::Text(s)))),
                    ));
                    assert(block.len() == 1);
                    assert(decode_from(Tree::Obj(done.push((k0, Tree::Text(s)))), block.drop_first())
                        == Some(Tree::Obj(done.push((k0, Tree::Text(s))))));
                    assert(decode_from(Tree::Obj(done), block) == Some(
                        Tree::Obj(done.push((k0, Tree::Text(s)))),
                    ));
                    assert(done.push((k0, Tree::Text(s))) == done.push(rem[0]));
                    assert(decode_from(Tree::Obj(done), block) == Some(
                        Tree::Obj(done.push(rem[0])),
                    ));
                },
                Tree::Arr(ts) => {
                    lemma_parse_append_key(k0);
                    let vals = texts_of(ts);
                    let v0 = vals[0];
                    assert(block[0] == (k0 + seq!['[', ']'], v0));
                    let path = seq![SegView::Name(k0), SegView::Append];
                    assert(path[0] == SegView::Name(k0));
                    let rest = path.drop_first();
                    assert(rest =~= seq![SegView::Append]);
                    assert(rest[0] == SegView::Append);
                    assert(rest.drop_first() =~= Seq::<SegView>::empty());
                    assert(set_path_spec(Tree::Null, rest.drop_first(), v0) == Some(
                        Tree::Text(v0),
                    ));
                    let one = Seq::<Tree>::empty().push(Tree::Text(v0));
                    assert(set_path_spec(Tree::Null, rest, v0) == Some(Tree::Arr(one)));
                    assert(set_in_obj(done, k0, rest, v0) == Some(
                        Tree::Obj(done.push((k0, Tree::Arr(one)))),
                    ));
                    assert(set_path_spec(Tree::Obj(done), path, v0) == Some(
                        Tree::Obj(done.push((k0, Tree::Arr(one)))),
                    ));
                    lemma_decode_appends(done, k0, one, vals.drop_first());
                    assert(block.drop_first() =~= append_pairs(k0, vals.drop_first()));
                    assert(one + text_arr(vals.drop_first()) =~= ts);
                    assert(decode_from(Tree::Obj(done), block) == Some(
                        Tree::Obj(done.push(rem[0])),
                    ));
                },
                Tree::Obj(inner) => {
                    let k1 = inner[0].0;
                    let v0 = inner[0].1->Text_0;
                    assert(inner_key(k1));
                    lemma_parse_nested_key(k0, k1);
                    assert(block[0] == (k0 + seq!['['] + k1 + seq![']'], v0));
                    let path = seq![SegView::Name(k0), SegView::Name(k1)];
                    assert(path[0] == SegView::Name(k0));
                    let rest = path.drop_first();
                    assert(rest =~= seq![SegView::Name(k1)]);
                    assert(rest[0] == SegView::Name(k1));
                    assert(rest.drop_first() =~= Seq::<SegView>::empty());
                    let root = Seq::<(Seq<char>, Tree)>::empty();
                    lemma_find_key_none(root, k1);
                    assert(set_path_spec(Tree::Null, rest.drop_first(), v0) == Some(
                        Tree::Text(v0),
                    ));
                    assert(inner[0].1 == Tree::Text(v0));
                    assert(set_in_obj(root, k1, rest.drop_first(), v0) == Some(
                        Tree::Obj(root.push(inner[0])),
                    ));
                    let one = root.push(inner[0]);
                    assert(set_path_spec(Tree::Null, rest, v0) == Some(Tree::Obj(one)));
                    assert(set_in_obj(done, k0, rest, v0) == Some(
                        Tree::Obj(done.push((k0, Tree::Obj(one)))),
                    ));
                    assert(set_path_spec(Tree::Obj(done), path, v0) == Some(
                        Tree::Obj(done.push((k0, Tree::Obj(one)))),
                    ));
                    assert(one + inner.drop_first() =~= inner);
                    assert(nested_entries(one + inner.drop_first()));
                    lemma_decode_nested_obj(done, k0, one, inner.drop_first());
                    assert(block.drop_first() =~= nested_pairs(k0, inner.drop_first()));
                    assert(decode_from(Tree::Obj(done), block) == Some(
                        Tree::Obj(done.push(rem[0])),
                    ));
                },
                _ => {
                    assert(false);
                },
            }
        }
        let done2 = done.push(rem[0]);
        assert(done2 + rem.drop_first() =~= done + rem);
        lemma_decode_record(done2, rem.drop_first());
    }
}

/// Round trip for a record: a top-level object whose fields each hold a
/// string leaf, a non-empty array of string leaves, or a non-empty flat
/// object of string leaves flattens to its fields' pair blocks in entry
/// order, and decoding that pair list rebuilds exactly the same tree.
pub proof fn lemma_round_trip_record(es: Seq<(Seq<char>, Tree)>)
    requires
        record_entries(es),
    ensures
        flatten_spec(Tree::Obj(es), Seq::empty()) == record_pairs(es),
        decode_spec(record_pairs(es)) == Some(Tree::Obj(es)),
{
    lemma_flatten_record(es);
    assert(Seq::<(Seq<char>, Tree)>::empty() + es =~= es);
    assert(record_entries(Seq::<(Seq<char>, Tree)>::empty() + es));
    lemma_decode_record(Seq::empty(), es);
}

} // verus!
