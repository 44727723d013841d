use vstd::prelude::*;

use crate::value::QsError;

verus! {

/// One segment of a bracket-noted key path: a named object field, or an
/// anonymous array append written `[]`.
#[derive(Debug, PartialEq)]
pub enum Segment {
    Name(String),
    Append,
}

/// The model of a `Segment`.
pub enum SegView {
    Name(Seq<char>),
    Append,
}

impl Segment {
    pub open spec fn to_seg(self) -> SegView {
        match self {
            Segment::Name(s) => SegView::Name(s@),
            Segment::Append => SegView::Append,
        }
    }
}

impl View for Segment {
    type V = SegView;

    open spec fn view(&self) -> SegView {
        self.to_seg()
    }
}

/// The models of a parsed path.
pub open spec fn path_view(s: Seq<Segment>) -> Seq<SegView> {
    Seq::new(s.len(), |i: int| s[i].to_seg())
}

/// What a key means outside brackets (the state at the start of a key and
/// after a `]`): scan for the next `[`; the text before it is a named
/// segment, except that a `[` at the very start opens a bracket with no
/// preceding name, and a key with no `[` at all is one terminal named
/// segment. The empty key addresses the current node itself.
pub open spec fn parse_outside(k: Seq<char>) -> Option<Seq<SegView>>
    decreases k.len(),
{
    if k.len() == 0 {
        Some(Seq::empty())
    } else {
        match k.index_of_first('[') {
            None => Some(seq![SegView::Name(k)]),
            Some(i) => {
                if i == 0 {
                    parse_inside(k.drop_first())
                } else if 0 < i < k.len() {
                    match parse_inside(k.subrange(i + 1, k.len() as int)) {
                        None => None,
                        Some(rest) => Some(seq![SegView::Name(k.subrange(0, i))] + rest),
                    }
                } else {
                    None
                }
            },
        }
    }
}

/// What a key means just after a `[`: scan for the next `]`; empty bracket
/// content is an array append, non-empty content is a named segment, and a
/// missing `]` (including a dangling `[` at the end of the key) is a parse
/// error.
pub open spec fn parse_inside(k: Seq<char>) -> Option<Seq<SegView>>
    decreases k.len(),
{
    if k.len() == 0 {
        None
    } else {
        match k.index_of_first(']') {
            None => None,
            Some(i) => {
                if i == 0 {
                    match parse_outside(k.drop_first()) {
                        None => None,
                        Some(rest) => Some(seq![SegView::Append] + rest),
                    }
                } else if 0 < i < k.len() {
                    match parse_outside(k.subrange(i + 1, k.len() as int)) {
                        None => None,
                        Some(rest) => Some(seq![SegView::Name(k.subrange(0, i))] + rest),
                    }
                } else {
                    None
                }
            },
        }
    }
}

/// The first occurrence of `c` in `k` is at `i`.
pub proof fn lemma_index_of_first_at(k: Seq<char>, c: char, i: int)
    requires
        0 <= i < k.len(),
        k[i] == c,
        forall|j: int| 0 <= j < i ==> k[j] != c,
    ensures
        k.index_of_first(c) == Some(i),
{
    k.index_of_first_ensures(c);
    assert(k.contains(c)) by {
        assert(k[i] == c);
    }
    let w = k.index_of_first(c)->0;
    assert(k[w] == c);
    if w < i {
        assert(false);
    }
    if w > i {
        assert(false);
    }
}

/// `c` does not occur in `k` at all.
pub proof fn lemma_index_of_first_none(k: Seq<char>, c: char)
    requires
        forall|j: int| 0 <= j < k.len() ==> k[j] != c,
    ensures
        k.index_of_first(c) == None::<int>,
{
    k.index_of_first_ensures(c);
    if k.index_of_first(c) is Some {
        let w = k.index_of_first(c)->0;
        assert(k[w] == c);
        assert(false);
    }
}

/// The index of the first occurrence of `c` in `s`, scanning left to right.
fn find_char(s: &str, c: char) -> (r: Option<usize>)
    ensures
        match r {
            Some(i) => i < s@.len() && s@[i as int] == c && forall|j: int|
                0 <= j < i ==> s@[j] != c,
            None => forall|j: int| 0 <= j < s@.len() ==> s@[j] != c,
        },
{
    let n = s.unicode_len();
    let mut i: usize = 0;
    while i < n
        invariant
            n == s@.len(),
            i <= n,
            forall|j: int| 0 <= j < i ==> s@[j] != c,
        decreases n - i,
    {
        if s.get_char(i) == c {
            return Some(i);
        }
        i = i + 1;
    }
    None
}

/// Parse one bracket-noted key into its path of segments, starting outside
/// brackets. Returns the parse error exactly when the key is malformed:
/// a bracket that is never closed, or a `[` dangling at the end of the key.
pub fn parse_key(key: &str) -> (r: Result<Vec<Segment>, QsError>)
    ensures
        match r {
            Ok(p) => parse_outside(key@) == Some(path_view(p@)),
            Err(e) => parse_outside(key@) is None && e == QsError::Parse,
        },
{
    let mut segs: Vec<Segment> = Vec::new();
    match parse_into(key, true, &mut segs) {
        Ok(()) => {
            proof {
                assert(path_view(segs@) =~= Seq::<SegView>::empty() + path_view(segs@));
            }
            Ok(segs)
        },
        Err(e) => Err(e),
    }
}

/// The worker behind `parse_key`: parses `key` in the given mode and pushes
/// the segments it finds onto `segs`.
fn parse_into(key: &str, outside: bool, segs: &mut Vec<Segment>) -> (r: Result<(), QsError>)
    ensures
        match r {
            Ok(_) => (if outside {
                parse_outside(key@)
            } else {
                parse_inside(key@)
            }) matches Some(rest) && path_view(final(segs)@) == path_view(old(segs)@) + rest,
            Err(e) => (if outside {
                parse_outside(key@)
            } else {
                parse_inside(key@)
            }) is None && e == QsError::Parse,
        },
    decreases key@.len(),
{
    let n = key.unicode_len();
    if outside {
        if key.is_empty() {
            proof {
                assert(path_view(segs@) =~= path_view(segs@) + Seq::<SegView>::empty());
            }
            return Ok(());
        }
        match find_char(key, '[') {
            None => {
                proof {
                    lemma_index_of_first_none(key@, '[');
                }
                segs.push(Segment::Name(key.to_owned()));
                proof {
                    assert(path_view(segs@) =~= path_view(old(segs)@) + seq![
                        SegView::Name(key@),
                    ]);
                }
                Ok(())
            },
            Some(i) => {
                proof {
                    lemma_index_of_first_at(key@, '[', i as int);
                }
                if i == 0 {
                    let rest = key.substring_char(1, n);
                    proof {
                        assert(rest@ == key@.drop_first());
                    }
                    parse_into(rest, false, segs)
                } else {
                    let name = key.substring_char(0, i);
                    segs.push(Segment::Name(name.to_owned()));
                    let ghost mid = segs@;
                    let rest = key.substring_char(i + 1, n);
                    let res = parse_into(rest, false, segs);
                    proof {
                        if res is Ok {
                            let tail = parse_inside(key@.subrange(i + 1, key@.len() as int))->0;
                            assert(path_view(mid) =~= path_view(old(segs)@) + seq![
                                SegView::Name(key@.subrange(0, i as int)),
                            ]);
                            assert(path_view(segs@) =~= path_view(old(segs)@) + (seq![
                                SegView::Name(key@.subrange(0, i as int)),
                            ] + tail));
                        }
                    }
                    res
                }
            },
        }
    } else {
        if key.is_empty() {
            return Err(QsError::Parse);
        }
        match find_char(key, ']') {
            None => {
                proof {
                    lemma_index_of_first_none(key@, ']');
                }
                Err(QsError::Parse)
            },
            Some(i) => {
                proof {
                    lemma_index_of_first_at(key@, ']', i as int);
                }
                if i == 0 {
                    segs.push(Segment::Append);
                    let ghost mid = segs@;
                    let rest = key.substring_char(1, n);
                    proof {
                        assert(rest@ == key@.drop_first());
                    }
                    let res = parse_into(rest, true, segs);
                    proof {
                        if res is Ok {
                            let tail = parse_outside(key@.drop_first())->0;
                            assert(path_view(mid) =~= path_view(old(segs)@) + seq![
                                SegView::Append,
                            ]);
                            assert(path_view(segs@) =~= path_view(old(segs)@) + (seq![
                                SegView::Append,
                            ] + tail));
                        }
                    }
                    res
                } else {
                    let name = key.substring_char(0, i);
                    segs.push(Segment::Name(name.to_owned()));
                    let ghost mid = segs@;
                    let rest = key.substring_char(i + 1, n);
                    let res = parse_into(rest, true, segs);
                    proof {
                        if res is Ok {
                            let tail = parse_outside(key@.subrange(i + 1, key@.len() as int))->0;
                            assert(path_view(mid) =~= path_view(old(segs)@) + seq![
                                SegView::Name(key@.subrange(0, i as int)),
                            ]);
                            assert(path_view(segs@) =~= path_view(old(segs)@) + (seq![
                                SegView::Name(key@.subrange(0, i as int)),
                            ] + tail));
                        }
                    }
                    res
                }
            },
        }
    }
}

} // verus!
