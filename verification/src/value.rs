use vstd::prelude::*;

verus! {

/// A structured tree value: the intermediate representation that bracket-noted
/// key/value pairs are decoded into, and encoded from.
///
/// `Num` holds the canonical decimal text of a number rather than a numeric
/// type: the tree only ever reads a number through its textual form when it
/// is flattened into pairs, so the text is all the logic needs of it.
#[derive(Debug, PartialEq)]
pub enum QsValue {
    Null,
    Bool(bool),
    Num(String),
    Text(String),
    Arr(Vec<QsValue>),
    Obj(Vec<(String, QsValue)>),
}

/// The mathematical model of a `QsValue`: the same tree over `Seq<char>`
/// and `Seq`, which the contracts speak of.
pub enum Tree {
    Null,
    Bool(bool),
    Num(Seq<char>),
    Text(Seq<char>),
    Arr(Seq<Tree>),
    Obj(Seq<(Seq<char>, Tree)>),
}

/// The error of this library: every failure of decoding is a parse failure
/// (unterminated bracket, dangling bracket, or a key path reused with an
/// incompatible shape).
#[derive(Debug, Clone, Copy, PartialEq, Eq, Structural)]
pub enum QsError {
    Parse,
}

impl QsValue {
    /// The model of this value.
    pub open spec fn to_tree(self) -> Tree
        decreases self,
    {
        match self {
            QsValue::Null => Tree::Null,
            QsValue::Bool(b) => Tree::Bool(b),
            QsValue::Num(s) => Tree::Num(s@),
            QsValue::Text(s) => Tree::Text(s@),
            QsValue::Arr(v) => Tree::Arr(arr_tree(v@)),
            QsValue::Obj(v) => Tree::Obj(obj_tree(v@)),
        }
    }
}

impl View for QsValue {
    type V = Tree;

    open spec fn view(&self) -> Tree {
        self.to_tree()
    }
}

/// The models of the elements of an array node.
pub open spec fn arr_tree(s: Seq<QsValue>) -> Seq<Tree>
    decreases s,
{
    if s.len() == 0 {
        Seq::empty()
    } else {
        seq![s[0].to_tree()] + arr_tree(s.drop_first())
    }
}

/// The models of the entries of an object node.
pub open spec fn obj_tree(s: Seq<(String, QsValue)>) -> Seq<(Seq<char>, Tree)>
    decreases s,
{
    if s.len() == 0 {
        Seq::empty()
    } else {
        seq![(s[0].0@, s[0].1.to_tree())] + obj_tree(s.drop_first())
    }
}

pub proof fn lemma_arr_tree(s: Seq<QsValue>)
    ensures
        arr_tree(s).len() == s.len(),
        forall|i: int| 0 <= i < s.len() ==> arr_tree(s)[i] == s[i].to_tree(),
    decreases s.len(),
{
    if s.len() > 0 {
        lemma_arr_tree(s.drop_first());
    }
}

pub proof fn lemma_obj_tree(s: Seq<(String, QsValue)>)
    ensures
        obj_tree(s).len() == s.len(),
        forall|i: int| 0 <= i < s.len() ==> obj_tree(s)[i] == (s[i].0@, s[i].1.to_tree()),
    decreases s.len(),
{
    if s.len() > 0 {
        lemma_obj_tree(s.drop_first());
    }
}

pub proof fn lemma_arr_tree_push(s: Seq<QsValue>, v: QsValue)
    ensures
        arr_tree(s.push(v)) == arr_tree(s).push(v.to_tree()),
{
    lemma_arr_tree(s);
    lemma_arr_tree(s.push(v));
    assert(arr_tree(s.push(v)) =~= arr_tree(s).push(v.to_tree()));
}

pub proof fn lemma_obj_tree_push(s: Seq<(String, QsValue)>, p: (String, QsValue))
    ensures
        obj_tree(s.push(p)) == obj_tree(s).push((p.0@, p.1.to_tree())),
{
    lemma_obj_tree(s);
    lemma_obj_tree(s.push(p));
    assert(obj_tree(s.push(p)) =~= obj_tree(s).push((p.0@, p.1.to_tree())));
}

pub proof fn lemma_obj_tree_update(s: Seq<(String, QsValue)>, j: int, p: (String, QsValue))
    requires
        0 <= j < s.len(),
    ensures
        obj_tree(s.update(j, p)) == obj_tree(s).update(j, (p.0@, p.1.to_tree())),
{
    lemma_obj_tree(s);
    lemma_obj_tree(s.update(j, p));
    assert(obj_tree(s.update(j, p)) =~= obj_tree(s).update(j, (p.0@, p.1.to_tree())));
}

/// The models of a list of raw (key, value) string pairs.
pub open spec fn pairs_view(s: Seq<(String, String)>) -> Seq<(Seq<char>, Seq<char>)> {
    Seq::new(s.len(), |i: int| (s[i].0@, s[i].1@))
}

} // verus!
