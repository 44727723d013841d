use vstd::prelude::*;

use crate::value::QsValue;
use crate::value::Tree;
use crate::value::arr_tree;
use crate::value::lemma_arr_tree;
use crate::value::lemma_obj_tree;
use crate::value::obj_tree;
use crate::value::pairs_view;

verus! {

/// The canonical text of a boolean leaf.
pub open spec fn bool_chars(b: bool) -> Seq<char> {
    if b {
        seq!['t', 'r', 'u', 'e']
    } else {
        seq!['f', 'a', 'l', 's', 'e']
    }
}

/// The prefix under which every element of an array is emitted: every
/// element is an anonymous append, so all share one `prefix[]`.
pub open spec fn arr_prefix(prefix: Seq<char>) -> Seq<char> {
    prefix + seq!['[', ']']
}

/// The prefix under which an object entry named `k` is emitted: the bare
/// name at the top level, `prefix[k]` below it.
pub open spec fn obj_prefix(prefix: Seq<char>, k: Seq<char>) -> Seq<char> {
    if prefix.len() == 0 {
        k
    } else {
        prefix + seq!['['] + k + seq![']']
    }
}

/// The ordered (bracket-noted key, string value) pairs that a depth-first
/// walk of `t` under `prefix` emits: nothing for `Null`, one pair for a
/// leaf, and the concatenation of the children's pairs for a container.
pub open spec fn flatten_spec(t: Tree, prefix: Seq<char>) -> Seq<(Seq<char>, Seq<char>)>
    decreases t,
{
    match t {
        Tree::Null => Seq::empty(),
        Tree::Bool(b) => seq![(prefix, bool_chars(b))],
        Tree::Num(s) => seq![(prefix, s)],
        Tree::Text(s) => seq![(prefix, s)],
        Tree::Arr(es) => flatten_arr(es, arr_prefix(prefix)),
        Tree::Obj(es) => flatten_obj(es, prefix),
    }
}

/// The pairs of the elements of an array, in array order, all under the one
/// append prefix.
pub open spec fn flatten_arr(es: Seq<Tree>, prefix: Seq<char>) -> Seq<(Seq<char>, Seq<char>)>
    decreases es,
{
    if es.len() == 0 {
        Seq::empty()
    } else {
        flatten_spec(es[0], prefix) + flatten_arr(es.drop_first(), prefix)
    }
}

/// The pairs of the entries of an object, in entry order, each under its
/// own named prefix.
pub open spec fn flatten_obj(es: Seq<(Seq<char>, Tree)>, prefix: Seq<char>) -> Seq<
    (Seq<char>, Seq<char>),
>
    decreases es,
{
    if es.len() == 0 {
        Seq::empty()
    } else {
        flatten_spec(es[0].1, obj_prefix(prefix, es[0].0)) + flatten_obj(es.drop_first(), prefix)
    }
}

pub proof fn lemma_flatten_arr_app(a: Seq<Tree>, b: Seq<Tree>, prefix: Seq<char>)
    ensures
        flatten_arr(a + b, prefix) == flatten_arr(a, prefix) + flatten_arr(b, prefix),
    decreases a.len(),
{
    if a.len() == 0 {
        assert(a + b =~= b);
        assert(flatten_arr(a, prefix) + flatten_arr(b, prefix) =~= flatten_arr(b, prefix));
    } else {
        assert((a + b)[0] == a[0]);
        assert((a + b).drop_first() =~= a.drop_first() + b);
        lemma_flatten_arr_app(a.drop_first(), b, prefix);
        assert(flatten_spec(a[0], prefix) + (flatten_arr(a.drop_first(), prefix) + flatten_arr(
            b,
            prefix,
        )) =~= (flatten_spec(a[0], prefix) + flatten_arr(a.drop_first(), prefix)) + flatten_arr(
            b,
            prefix,
        ));
    }
}

pub proof fn lemma_flatten_obj_app(
    a: Seq<(Seq<char>, Tree)>,
    b: Seq<(Seq<char>, Tree)>,
    prefix: Seq<char>,
)
    ensures
        flatten_obj(a + b, prefix) == flatten_obj(a, prefix) + flatten_obj(b, prefix),
    decreases a.len(),
{
    if a.len() == 0 {
        assert(a + b =~= b);
        assert(flatten_obj(a, prefix) + flatten_obj(b, prefix) =~= flatten_obj(b, prefix));
    } else {
        assert((a + b)[0] == a[0]);
        assert((a + b).drop_first() =~= a.drop_first() + b);
        lemma_flatten_obj_app(a.drop_first(), b, prefix);
        assert(flatten_spec(a[0].1, obj_prefix(prefix, a[0].0)) + (flatten_obj(
            a.drop_first(),
            prefix,
        ) + flatten_obj(b, prefix)) =~= (flatten_spec(a[0].1, obj_prefix(prefix, a[0].0))
            + flatten_obj(a.drop_first(), prefix)) + flatten_obj(b, prefix));
    }
}

proof fn lemma_flatten_arr_one(t: Tree, prefix: Seq<char>)
    ensures
        flatten_arr(seq![t], prefix) == flatten_spec(t, prefix),
{
    let s = seq![t];
    assert(s[0] == t);
    assert(s.drop_first() =~= Seq::<Tree>::empty());
    assert(flatten_arr(Seq::<Tree>::empty(), prefix) =~= Seq::<(Seq<char>, Seq<char>)>::empty());
    assert(flatten_arr(s, prefix) =~= flatten_spec(t, prefix));
}

proof fn lemma_flatten_obj_one(e: (Seq<char>, Tree), prefix: Seq<char>)
    ensures
        flatten_obj(seq![e], prefix) == flatten_spec(e.1, obj_prefix(prefix, e.0)),
{
    let s = seq![e];
    assert(s[0] == e);
    assert(s.drop_first() =~= Seq::<(Seq<char>, Tree)>::empty());
    assert(flatten_obj(Seq::<(Seq<char>, Tree)>::empty(), prefix) =~= Seq::<
        (Seq<char>, Seq<char>),
    >::empty());
    assert(flatten_obj(s, prefix) =~= flatten_spec(e.1, obj_prefix(prefix, e.0)));
}

/// Walk `node` depth first under `prefix` and append to `pairs` the ordered
/// (bracket-noted key, string value) pairs that reconstruct it: nothing for
/// `Null`, one pair per leaf, `prefix[]` for every array element and
/// `prefix[name]` (or the bare name at the top level) for object entries.
#[verifier::loop_isolation(false)]
pub fn collect_keys(node: &QsValue, pairs: &mut Vec<(String, String)>, prefix: &str)
    ensures
        pairs_view(final(pairs)@) == pairs_view(old(pairs)@) + flatten_spec(node@, prefix@),
    decreases node,
{
    match node {
        QsValue::Null => {
            proof {
                assert(pairs_view(pairs@) =~= pairs_view(pairs@) + flatten_spec(
                    node@,
                    prefix@,
                ));
            }
        },
        QsValue::Bool(b) => {
            let txt = if *b {
                "true"
            } else {
                "false"
            };
            proof {
                reveal_strlit("true");
                reveal_strlit("false");
                assert(txt@ =~= bool_chars(*b));
            }
            pairs.push((prefix.to_owned(), txt.to_owned()));
            proof {
                assert(pairs_view(pairs@) =~= pairs_view(old(pairs)@) + flatten_spec(
                    node@,
                    prefix@,
                ));
            }
        },
        QsValue::Num(s) => {
            pairs.push((prefix.to_owned(), s.clone()));
            proof {
                assert(pairs_view(pairs@) =~= pairs_view(old(pairs)@) + flatten_spec(
                    node@,
                    prefix@,
                ));
            }
        },
        QsValue::Text(s) => {
            pairs.push((prefix.to_owned(), s.clone()));
            proof {
                assert(pairs_view(pairs@) =~= pairs_view(old(pairs)@) + flatten_spec(
                    node@,
                    prefix@,
                ));
            }
        },
        QsValue::Arr(elems) => {
            let child_prefix = prefix.to_owned().concat("[]");
            proof {
                reveal_strlit("[]");
                assert(child_prefix@ =~= arr_prefix(prefix@));
                lemma_arr_tree(elems@);
            }
            let ghost ts = arr_tree(elems@);
            let n = elems.len();
            let mut i: usize = 0;
            while i < n
                invariant
                    n == elems@.len(),
                    i <= n,
                    ts == arr_tree(elems@),
                    ts.len() == n,
                    forall|j: int| 0 <= j < n ==> ts[j] == elems@[j].to_tree(),
                    child_prefix@ == arr_prefix(prefix@),
                    pairs_view(pairs@) == pairs_view(old(pairs)@) + flatten_arr(
                        ts.subrange(0, i as int),
                        arr_prefix(prefix@),
                    ),
                decreases n - i,
            {
                proof {
                    assert(*elems == node->Arr_0);
                    assert(decreases_to!(*node => node->Arr_0));
                    assert(decreases_to!(node->Arr_0 => node->Arr_0[i as int]));
                }
                collect_keys(&elems[i], pairs, child_prefix.as_str());
                proof {
                    assert(ts.subrange(0, i + 1) =~= ts.subrange(0, i as int) + seq![
                        ts[i as int],
                    ]);
                    lemma_flatten_arr_app(
                        ts.subrange(0, i as int),
                        seq![ts[i as int]],
                        arr_prefix(prefix@),
                    );
                    lemma_flatten_arr_one(ts[i as int], arr_prefix(prefix@));
                }
                i = i + 1;
            }
            proof {
                assert(ts.subrange(0, n as int) =~= ts);
            }
        },
        QsValue::Obj(entries) => {
            proof {
                lemma_obj_tree(entries@);
            }
            let ghost ts = obj_tree(entries@);
            let n = entries.len();
            let mut i: usize = 0;
            while i < n
                invariant
                    n == entries@.len(),
                    i <= n,
                    ts == obj_tree(entries@),
                    ts.len() == n,
                    forall|j: int| 0 <= j < n ==> ts[j] == (
                        entries@[j].0@,
                        entries@[j].1.to_tree(),
                    ),
                    pairs_view(pairs@) == pairs_view(old(pairs)@) + flatten_obj(
                        ts.subrange(0, i as int),
                        prefix@,
                    ),
                decreases n - i,
            {
                let key = &entries[i].0;
                let child_prefix = if prefix.is_empty() {
                    key.clone()
                } else {
                    prefix.to_owned().concat("[").concat(key.as_str()).concat("]")
                };
                proof {
                    reveal_strlit("[");
                    reveal_strlit("]");
                    assert(child_prefix@ =~= obj_prefix(prefix@, key@));
                }
                proof {
                    assert(*entries == node->Obj_0);
                    assert(decreases_to!(*node => node->Obj_0));
                    assert(decreases_to!(node->Obj_0 => node->Obj_0[i as int]));
                    assert(decreases_to!(node->Obj_0[i as int] => node->Obj_0[i as int].1));
                }
                collect_keys(&entries[i].1, pairs, child_prefix.as_str());
                proof {
                    assert(ts.subrange(0, i + 1) =~= ts.subrange(0, i as int) + seq![
                        ts[i as int],
                    ]);
                    lemma_flatten_obj_app(
                        ts.subrange(0, i as int),
                        seq![ts[i as int]],
                        prefix@,
                    );
                    lemma_flatten_obj_one(ts[i as int], prefix@);
                }
                i = i + 1;
            }
            proof {
                assert(ts.subrange(0, n as int) =~= ts);
            }
        },
    }
}

/// The full flattening of a tree: the ordered pair list that the walk emits
/// from the root with an empty prefix.
pub fn encode_pairs(v: &QsValue) -> (r: Vec<(String, String)>)
    ensures
        pairs_view(r@) == flatten_spec(v@, Seq::empty()),
{
    let mut pairs: Vec<(String, String)> = Vec::new();
    proof {
        reveal_strlit("");
        assert(pairs_view(pairs@) =~= Seq::<(Seq<char>, Seq<char>)>::empty());
    }
    collect_keys(v, &mut pairs, "");
    proof {
        assert(""@ =~= Seq::<char>::empty());
        assert(pairs_view(pairs@) =~= flatten_spec(v@, Seq::empty()));
    }
    pairs
}

} // verus!
