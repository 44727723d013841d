use vstd::prelude::*;

use crate::parse::SegView;
use crate::parse::Segment;
use crate::parse::parse_key;
use crate::parse::parse_outside;
use crate::parse::path_view;
use crate::value::QsError;
use crate::value::QsValue;
use crate::value::Tree;
use crate::value::arr_tree;
use crate::value::lemma_arr_tree_push;
use crate::value::lemma_obj_tree;
use crate::value::lemma_obj_tree_push;
use crate::value::lemma_obj_tree_update;
use crate::value::obj_tree;
use crate::value::pairs_view;

verus! {

/// The entries a node offers to a named segment: an object's own entries, an
/// empty list for a `Null` node (promoted on first structural access), and
/// nothing for any other shape — writing through a name there is a shape
/// conflict.
pub open spec fn obj_entries_of(t: Tree) -> Option<Seq<(Seq<char>, Tree)>> {
    match t {
        Tree::Obj(es) => Some(es),
        Tree::Null => Some(Seq::empty()),
        _ => None,
    }
}

/// The elements a node offers to an array append, by the same promotion rule.
pub open spec fn arr_elems_of(t: Tree) -> Option<Seq<Tree>> {
    match t {
        Tree::Arr(es) => Some(es),
        Tree::Null => Some(Seq::empty()),
        _ => None,
    }
}

/// The index of the first entry of `es` whose key is `k`.
pub open spec fn find_key(es: Seq<(Seq<char>, Tree)>, k: Seq<char>) -> Option<int>
    decreases es.len(),
{
    if es.len() == 0 {
        None
    } else if es[0].0 == k {
        Some(0int)
    } else {
        match find_key(es.drop_first(), k) {
            None => None,
            Some(i) => Some(i + 1),
        }
    }
}

/// Writing `val` into the slot that `path` addresses under `t`: the new tree,
/// or nothing if some step of the path meets an incompatible shape.
pub open spec fn set_path_spec(t: Tree, path: Seq<SegView>, val: Seq<char>) -> Option<Tree>
    decreases path.len(), 1nat,
{
    if path.len() == 0 {
        Some(Tree::Text(val))
    } else {
        match path[0] {
            SegView::Name(k) => match obj_entries_of(t) {
                None => None,
                Some(es) => set_in_obj(es, k, path.drop_first(), val),
            },
            SegView::Append => match arr_elems_of(t) {
                None => None,
                Some(es) => match set_path_spec(Tree::Null, path.drop_first(), val) {
                    None => None,
                    Some(c) => Some(Tree::Arr(es.push(c))),
                },
            },
        }
    }
}

/// Writing through the named entry `k` of an object with entries `es`:
/// merge into the existing entry if the key is present, else append a new
/// entry built from a fresh `Null` slot.
pub open spec fn set_in_obj(
    es: Seq<(Seq<char>, Tree)>,
    k: Seq<char>,
    rest: Seq<SegView>,
    val: Seq<char>,
) -> Option<Tree>
    decreases rest.len(), 2nat,
{
    match find_key(es, k) {
        Some(j) => match set_path_spec(es[j].1, rest, val) {
            None => None,
            Some(c) => Some(Tree::Obj(es.update(j, (k, c)))),
        },
        None => match set_path_spec(Tree::Null, rest, val) {
            None => None,
            Some(c) => Some(Tree::Obj(es.push((k, c)))),
        },
    }
}

/// One decoded (key, value) pair applied to `t`: parse the key, then write
/// the value into the slot it addresses.
pub open spec fn apply_pair_spec(t: Tree, k: Seq<char>, v: Seq<char>) -> Option<Tree> {
    match parse_outside(k) {
        None => None,
        Some(p) => set_path_spec(t, p, v),
    }
}

/// Folding a pair list into `t`, strictly in input order.
pub open spec fn decode_from(t: Tree, pairs: Seq<(Seq<char>, Seq<char>)>) -> Option<Tree>
    decreases pairs.len(),
{
    if pairs.len() == 0 {
        Some(t)
    } else {
        match apply_pair_spec(t, pairs[0].0, pairs[0].1) {
            None => None,
            Some(t2) => decode_from(t2, pairs.drop_first()),
        }
    }
}

/// Decoding a pair list: fold it into a fresh empty object root.
pub open spec fn decode_spec(pairs: Seq<(Seq<char>, Seq<char>)>) -> Option<Tree> {
    decode_from(Tree::Obj(Seq::empty()), pairs)
}

pub proof fn lemma_find_key_at(es: Seq<(Seq<char>, Tree)>, k: Seq<char>, j: int)
    requires
        0 <= j < es.len(),
        es[j].0 == k,
        forall|i: int| 0 <= i < j ==> es[i].0 != k,
    ensures
        find_key(es, k) == Some(j),
    decreases j,
{
    if j > 0 {
        assert(es[0].0 != k);
        lemma_find_key_at(es.drop_first(), k, j - 1);
    }
}

pub proof fn lemma_find_key_none(es: Seq<(Seq<char>, Tree)>, k: Seq<char>)
    requires
        forall|i: int| 0 <= i < es.len() ==> es[i].0 != k,
    ensures
        find_key(es, k) == None::<int>,
    decreases es.len(),
{
    if es.len() > 0 {
        lemma_find_key_none(es.drop_first(), k);
    }
}

/// The first entry of `es` whose key equals `k`, scanning in entry order.
fn find_entry(es: &Vec<(String, QsValue)>, k: &String) -> (r: Option<usize>)
    ensures
        match r {
            Some(j) => j < es@.len() && es@[j as int].0@ == k@ && find_key(obj_tree(es@), k@)
                == Some(j as int),
            None => find_key(obj_tree(es@), k@) == None::<int>,
        },
{
    proof {
        lemma_obj_tree(es@);
    }
    let n = es.len();
    let mut i: usize = 0;
    while i < n
        invariant
            n == es@.len(),
            i <= n,
            obj_tree(es@).len() == n,
            forall|j: int| 0 <= j < n ==> obj_tree(es@)[j] == (es@[j].0@, es@[j].1.to_tree()),
            forall|j: int| 0 <= j < i ==> es@[j].0@ != k@,
        decreases n - i,
    {
        if es[i].0.eq(k) {
            proof {
                lemma_find_key_at(obj_tree(es@), k@, i as int);
            }
            return Some(i);
        }
        i = i + 1;
    }
    proof {
        lemma_find_key_none(obj_tree(es@), k@);
    }
    None
}

/// Promote-or-fail for a named segment: an object's entries, a fresh list
/// for `Null`, and a shape-conflict error for every other shape.
fn promote_object(node: QsValue) -> (r: Result<Vec<(String, QsValue)>, QsError>)
    ensures
        match r {
            Ok(es) => obj_entries_of(node@) == Some(obj_tree(es@)),
            Err(e) => obj_entries_of(node@) is None && e == QsError::Parse,
        },
{
    match node {
        QsValue::Obj(es) => Ok(es),
        QsValue::Null => {
            let es: Vec<(String, QsValue)> = Vec::new();
            proof {
                assert(obj_tree(es@) =~= Seq::<(Seq<char>, Tree)>::empty());
            }
            Ok(es)
        },
        _ => Err(QsError::Parse),
    }
}

/// Promote-or-fail for an array append: an array's elements, a fresh list
/// for `Null`, and a shape-conflict error for every other shape.
fn promote_array(node: QsValue) -> (r: Result<Vec<QsValue>, QsError>)
    ensures
        match r {
            Ok(es) => arr_elems_of(node@) == Some(arr_tree(es@)),
            Err(e) => arr_elems_of(node@) is None && e == QsError::Parse,
        },
{
    match node {
        QsValue::Arr(es) => Ok(es),
        QsValue::Null => {
            let es: Vec<QsValue> = Vec::new();
            proof {
                assert(arr_tree(es@) =~= Seq::<Tree>::empty());
            }
            Ok(es)
        },
        _ => Err(QsError::Parse),
    }
}

/// Write `val` into the slot addressed by `path[i..]` under `node`, building
/// or merging structure on the way down exactly as `set_path_spec` says.
fn set_at(node: QsValue, path: &Vec<Segment>, i: usize, val: &str) -> (r: Result<
    QsValue,
    QsError,
>)
    requires
        i <= path@.len(),
    ensures
        match r {
            Ok(t) => set_path_spec(node@, path_view(path@).skip(i as int), val@) == Some(t@),
            Err(e) => set_path_spec(node@, path_view(path@).skip(i as int), val@) is None && e
                == QsError::Parse,
        },
    decreases path@.len() - i,
{
    let ghost rest = path_view(path@).skip(i as int);
    if i == path.len() {
        proof {
            assert(rest =~= Seq::<SegView>::empty());
        }
        return Ok(QsValue::Text(val.to_owned()));
    }
    proof {
        assert(rest[0] == path@[i as int].to_seg());
        assert(rest.drop_first() =~= path_view(path@).skip(i as int + 1));
    }
    match &path[i] {
        Segment::Name(k) => {
            let mut entries = match promote_object(node) {
                Ok(es) => es,
                Err(e) => {
                    return Err(e);
                },
            };
            let ghost before = entries@;
            let ghost es0 = obj_tree(entries@);
            match find_entry(&entries, k) {
                Some(j) => {
                    let (ek, child) = entries.remove(j);
                    proof {
                        lemma_obj_tree(before);
                        assert(es0[j as int].1 == child@);
                    }
                    let nc = match set_at(child, path, i + 1, val) {
                        Ok(t) => t,
                        Err(e) => {
                            proof {
                                assert(set_in_obj(es0, k@, rest.drop_first(), val@) is None);
                            }
                            return Err(e);
                        },
                    };
                    let ghost p = (ek, nc);
                    entries.insert(j, (ek, nc));
                    proof {
                        assert(entries@ =~= before.update(j as int, p));
                        lemma_obj_tree_update(before, j as int, p);
                        lemma_obj_tree(before);
                    }
                    Ok(QsValue::Obj(entries))
                },
                None => {
                    let nc = match set_at(QsValue::Null, path, i + 1, val) {
                        Ok(t) => t,
                        Err(e) => {
                            return Err(e);
                        },
                    };
                    let kk = k.clone();
                    let ghost p = (kk, nc);
                    entries.push((kk, nc));
                    proof {
                        assert(entries@ == before.push(p));
                        lemma_obj_tree_push(before, p);
                    }
                    Ok(QsValue::Obj(entries))
                },
            }
        },
        Segment::Append => {
            let mut elems = match promote_array(node) {
                Ok(es) => es,
                Err(e) => {
                    return Err(e);
                },
            };
            let nc = match set_at(QsValue::Null, path, i + 1, val) {
                Ok(t) => t,
                Err(e) => {
                    return Err(e);
                },
            };
            proof {
                lemma_arr_tree_push(elems@, nc);
            }
            elems.push(nc);
            Ok(QsValue::Arr(elems))
        },
    }
}

/// Apply one decoded (key, value) pair to `root`: parse the bracket-noted
/// key, then write the value as a string leaf into the slot it addresses.
/// Fails with the parse error exactly when the key is malformed or some step
/// of its path meets an incompatible shape.
pub fn apply_pair(root: QsValue, key: &str, value: &str) -> (r: Result<QsValue, QsError>)
    ensures
        match r {
            Ok(t) => apply_pair_spec(root@, key@, value@) == Some(t@),
            Err(e) => apply_pair_spec(root@, key@, value@) is None && e == QsError::Parse,
        },
{
    let path = match parse_key(key) {
        Ok(p) => p,
        Err(e) => {
            return Err(e);
        },
    };
    proof {
        assert(path_view(path@).skip(0) =~= path_view(path@));
    }
    set_at(root, &path, 0, value)
}

/// Decode an ordered list of (key, value) string pairs into a tree, starting
/// from an empty object root and folding the pairs in strictly in input
/// order. Fails with the parse error exactly when some pair does.
pub fn decode_pairs(pairs: &Vec<(String, String)>) -> (r: Result<QsValue, QsError>)
    ensures
        match r {
            Ok(t) => decode_spec(pairs_view(pairs@)) == Some(t@),
            Err(e) => decode_spec(pairs_view(pairs@)) is None && e == QsError::Parse,
        },
{
    let ghost all = pairs_view(pairs@);
    let mut root = QsValue::Obj(Vec::new());
    proof {
        assert(obj_tree(Seq::<(String, QsValue)>::empty()) =~= Seq::<(Seq<char>, Tree)>::empty());
        assert(all.skip(0) =~= all);
    }
    let n = pairs.len();
    let mut idx: usize = 0;
    while idx < n
        invariant
            n == pairs@.len(),
            idx <= n,
            all == pairs_view(pairs@),
            decode_from(root@, all.skip(idx as int)) == decode_spec(all),
        decreases n - idx,
    {
        proof {
            assert(all.skip(idx as int)[0] == all[idx as int]);
            assert(all.skip(idx as int).drop_first() =~= all.skip(idx as int + 1));
        }
        let next = match apply_pair(root, pairs[idx].0.as_str(), pairs[idx].1.as_str()) {
            Ok(t) => t,
            Err(e) => {
                return Err(e);
            },
        };
        root = next;
        idx = idx + 1;
    }
    proof {
        assert(all.skip(n as int) =~= Seq::<(Seq<char>, Seq<char>)>::empty());
    }
    Ok(root)
}

} // verus!
