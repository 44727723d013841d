use nested_qs::QsValue;
use nested_qs::from_str;
use nested_qs::to_string;

fn s(x: &str) -> String {
    x.to_string()
}

#[test]
fn serde_struct() {
    let params = QsValue::Obj(vec![
        (s("id"), QsValue::Num(s("42"))),
        (s("name"), QsValue::Text(s("Acme"))),
        (s("phone"), QsValue::Num(s("12345"))),
        (
            s("address"),
            QsValue::Obj(vec![
                (s("city"), QsValue::Text(s("Carrot City"))),
                (s("postcode"), QsValue::Text(s("12345"))),
            ]),
        ),
        (
            s("user_ids"),
            QsValue::Arr(vec![
                QsValue::Num(s("1")),
                QsValue::Num(s("2")),
                QsValue::Num(s("3")),
                QsValue::Num(s("4")),
            ]),
        ),
        (s("is_admin"), QsValue::Bool(false)),
    ]);

    let encoded = to_string(&params).unwrap();
    let decoded: QsValue = from_str(&encoded).unwrap();

    // On the wire every scalar is text, so the round trip hands back the
    // same structure with each leaf in its canonical string form; turning
    // "42" back into a number is the typed adapter's business, not this
    // library's.
    let expected = QsValue::Obj(vec![
        (s("id"), QsValue::Text(s("42"))),
        (s("name"), QsValue::Text(s("Acme"))),
        (s("phone"), QsValue::Text(s("12345"))),
        (
            s("address"),
            QsValue::Obj(vec![
                (s("city"), QsValue::Text(s("Carrot City"))),
                (s("postcode"), QsValue::Text(s("12345"))),
            ]),
        ),
        (
            s("user_ids"),
            QsValue::Arr(vec![
                QsValue::Text(s("1")),
                QsValue::Text(s("2")),
                QsValue::Text(s("3")),
                QsValue::Text(s("4")),
            ]),
        ),
        (s("is_admin"), QsValue::Text(s("false"))),
    ]);
    assert_eq!(decoded, expected);
}
