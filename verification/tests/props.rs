use nested_qs::QsError;
use nested_qs::QsValue;
use nested_qs::Segment;
use nested_qs::apply_pair;
use nested_qs::decode_pairs;
use nested_qs::encode_pairs;
use nested_qs::from_bytes;
use nested_qs::from_slice;
use nested_qs::from_str;
use nested_qs::parse_key;
use nested_qs::to_string;

fn s(x: &str) -> String {
    x.to_string()
}

fn pair(k: &str, v: &str) -> (String, String) {
    (s(k), s(v))
}

#[test]
fn array_append_order_pairs() {
    let tree = QsValue::Obj(vec![(
        s("user_ids"),
        QsValue::Arr(vec![
            QsValue::Num(s("1")),
            QsValue::Num(s("2")),
            QsValue::Num(s("3")),
            QsValue::Num(s("4")),
        ]),
    )]);
    let pairs = encode_pairs(&tree);
    assert_eq!(
        pairs,
        vec![
            pair("user_ids[]", "1"),
            pair("user_ids[]", "2"),
            pair("user_ids[]", "3"),
            pair("user_ids[]", "4"),
        ]
    );
    let rebuilt = decode_pairs(&pairs).unwrap();
    assert_eq!(
        rebuilt,
        QsValue::Obj(vec![(
            s("user_ids"),
            QsValue::Arr(vec![
                QsValue::Text(s("1")),
                QsValue::Text(s("2")),
                QsValue::Text(s("3")),
                QsValue::Text(s("4")),
            ]),
        )])
    );
}

#[test]
fn nested_object_pairs() {
    let tree = QsValue::Obj(vec![(
        s("address"),
        QsValue::Obj(vec![
            (s("city"), QsValue::Text(s("Carrot City"))),
            (s("postcode"), QsValue::Text(s("12345"))),
        ]),
    )]);
    let pairs = encode_pairs(&tree);
    assert_eq!(
        pairs,
        vec![
            pair("address[city]", "Carrot City"),
            pair("address[postcode]", "12345"),
        ]
    );
    // Decoding rebuilds the same nesting whichever order the two pairs
    // arrive in; only the entry order inside the object follows the input.
    let forward = decode_pairs(&pairs).unwrap();
    assert_eq!(forward, tree);
    let swapped = vec![
        pair("address[postcode]", "12345"),
        pair("address[city]", "Carrot City"),
    ];
    let backward = decode_pairs(&swapped).unwrap();
    assert_eq!(
        backward,
        QsValue::Obj(vec![(
            s("address"),
            QsValue::Obj(vec![
                (s("postcode"), QsValue::Text(s("12345"))),
                (s("city"), QsValue::Text(s("Carrot City"))),
            ]),
        )])
    );
}

#[test]
fn shape_conflict_fails() {
    assert_eq!(from_str("foo=1&foo[bar]=2").unwrap_err(), QsError::Parse);
    let pairs = vec![pair("foo", "1"), pair("foo[bar]", "2")];
    assert_eq!(decode_pairs(&pairs).unwrap_err(), QsError::Parse);
    // The other direction conflicts too: structure first, then a scalar
    // write through the same name's array form.
    let pairs = vec![pair("foo[bar]", "2"), pair("foo[]", "1")];
    assert_eq!(decode_pairs(&pairs).unwrap_err(), QsError::Parse);
}

#[test]
fn unterminated_bracket_fails() {
    assert_eq!(from_str("foo[bar=1").unwrap_err(), QsError::Parse);
    assert_eq!(parse_key("foo[bar").unwrap_err(), QsError::Parse);
    // A dangling `[` at the end of the key fails the same way.
    assert_eq!(parse_key("foo[").unwrap_err(), QsError::Parse);
}

#[test]
fn top_level_empty_bracket_append() {
    let got = from_str("ids[]=1&ids[]=2").unwrap();
    assert_eq!(
        got,
        QsValue::Obj(vec![(
            s("ids"),
            QsValue::Arr(vec![QsValue::Text(s("1")), QsValue::Text(s("2"))]),
        )])
    );
}

#[test]
fn idempotent_re_decode() {
    let tree = QsValue::Obj(vec![
        (s("a"), QsValue::Text(s("x y"))),
        (s("b"), QsValue::Arr(vec![QsValue::Num(s("1")), QsValue::Bool(true)])),
    ]);
    let encoded = to_string(&tree).unwrap();
    let first = from_str(&encoded).unwrap();
    let second = from_str(&encoded).unwrap();
    assert_eq!(first, second);
}

#[test]
fn parse_key_segments() {
    assert_eq!(
        parse_key("a[b][]").unwrap(),
        vec![
            Segment::Name(s("a")),
            Segment::Name(s("b")),
            Segment::Append,
        ]
    );
    // Text after a closing bracket is a named segment of its own.
    assert_eq!(
        parse_key("a[b]c").unwrap(),
        vec![
            Segment::Name(s("a")),
            Segment::Name(s("b")),
            Segment::Name(s("c")),
        ]
    );
    // Inside a bracket only `]` ends the segment, so `[` is ordinary text.
    assert_eq!(
        parse_key("a[b[c]").unwrap(),
        vec![Segment::Name(s("a")), Segment::Name(s("b[c"))]
    );
    assert_eq!(parse_key("").unwrap(), vec![]);
}

#[test]
fn leading_bracket_applies_to_current_node() {
    // A key that starts with `[` opens a bracket with no preceding name,
    // so `[foo]` addresses the same slot as `foo`.
    let got = decode_pairs(&vec![pair("[foo]", "1")]).unwrap();
    assert_eq!(got, QsValue::Obj(vec![(s("foo"), QsValue::Text(s("1")))]));
    // A bare `[]` tries to append to the object root and conflicts.
    assert_eq!(decode_pairs(&vec![pair("[]", "1")]).unwrap_err(), QsError::Parse);
}

#[test]
fn empty_key_overwrites_root() {
    let got = decode_pairs(&vec![pair("", "x")]).unwrap();
    assert_eq!(got, QsValue::Text(s("x")));
}

#[test]
fn repeated_scalar_key_last_write_wins() {
    let got = decode_pairs(&vec![pair("a", "1"), pair("a", "2")]).unwrap();
    assert_eq!(got, QsValue::Obj(vec![(s("a"), QsValue::Text(s("2")))]));
}

#[test]
fn repeated_path_merges_into_one_subtree() {
    let got = decode_pairs(&vec![pair("o[a]", "1"), pair("o[b]", "2")]).unwrap();
    assert_eq!(
        got,
        QsValue::Obj(vec![(
            s("o"),
            QsValue::Obj(vec![
                (s("a"), QsValue::Text(s("1"))),
                (s("b"), QsValue::Text(s("2"))),
            ]),
        )])
    );
}

#[test]
fn apply_pair_builds_structure() {
    let root = QsValue::Obj(vec![]);
    let root = apply_pair(root, "a[]", "1").unwrap();
    let root = apply_pair(root, "a[]", "2").unwrap();
    assert_eq!(
        root,
        QsValue::Obj(vec![(
            s("a"),
            QsValue::Arr(vec![QsValue::Text(s("1")), QsValue::Text(s("2"))]),
        )])
    );
}

#[test]
fn percent_and_plus_encoding_round_trip() {
    // Exercises the URL codec on both sides: the space, `&`, `=` and the
    // brackets must come back intact, so an encoder or decoder that handed
    // its input through unchanged would fail here.
    let tree = QsValue::Obj(vec![(s("a b"), QsValue::Text(s("1&2=3")))]);
    let encoded = to_string(&tree).unwrap();
    assert_eq!(encoded, "a+b=1%262%3D3");
    let back = from_str(&encoded).unwrap();
    assert_eq!(back, tree);
    let spaced = from_str("a=1+2%203").unwrap();
    assert_eq!(spaced, QsValue::Obj(vec![(s("a"), QsValue::Text(s("1 2 3")))]));
}

#[test]
fn from_bytes_and_from_slice_agree() {
    let got = from_bytes(b"x[y]=z").unwrap();
    assert_eq!(got, from_slice(b"x[y]=z").unwrap());
    assert_eq!(
        got,
        QsValue::Obj(vec![(
            s("x"),
            QsValue::Obj(vec![(s("y"), QsValue::Text(s("z")))]),
        )])
    );
}

#[test]
fn encode_skips_null_and_formats_leaves() {
    let tree = QsValue::Obj(vec![
        (s("gone"), QsValue::Null),
        (s("n"), QsValue::Num(s("7"))),
        (s("t"), QsValue::Bool(true)),
        (s("f"), QsValue::Bool(false)),
    ]);
    assert_eq!(
        encode_pairs(&tree),
        vec![pair("n", "7"), pair("t", "true"), pair("f", "false")]
    );
    assert_eq!(to_string(&tree).unwrap(), "n=7&t=true&f=false");
}
