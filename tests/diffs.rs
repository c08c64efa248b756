use divergent::diff::{Diff, DiffKind};
use divergent::engine::compare;
use divergent::path::JsonPath;
use divergent::value::{JsonNumber, JsonValue, Member};

fn num(i: i64) -> JsonValue {
    JsonValue::Number(JsonNumber::Int(i))
}

fn text(s: &str) -> JsonValue {
    JsonValue::String(s.to_string())
}

fn obj(members: Vec<(&str, JsonValue)>) -> JsonValue {
    JsonValue::Object(
        members
            .into_iter()
            .map(|(k, v)| Member { key: k.to_string(), value: v })
            .collect(),
    )
}

fn at(steps: &[&str]) -> JsonPath {
    let mut path = JsonPath::new();
    for s in steps {
        path.obj(s);
    }
    path
}

fn same_set(got: &[Diff], want: &[Diff]) -> bool {
    got.len() == want.len() && want.iter().all(|d| got.contains(d))
}

#[test]
fn test_json_1_2() {
    let left = obj(vec![
        ("foo", num(1)),
        ("bar", text("C")),
        ("blah", num(5)),
        ("bool2", JsonValue::Bool(true)),
        ("weird", JsonValue::Null),
        ("array", JsonValue::Array(vec![num(0), num(1), num(2), num(4)])),
        ("baz", obj(vec![("zed", text("bleh"))])),
    ]);
    let right = obj(vec![
        ("foo", num(1)),
        ("bar", text("B")),
        ("bool2", JsonValue::Bool(false)),
        ("weird", obj(vec![])),
        ("array", JsonValue::Array(vec![num(0), num(1), num(3)])),
        ("baz", obj(vec![("zed", text("pie"))])),
        ("bleh", num(2)),
    ]);
    let mut array2 = at(&["array"]);
    array2.array(2);
    let want = vec![
        Diff { path: at(&["bar"]), kind: DiffKind::DiffValue(text("C"), text("B")) },
        Diff { path: at(&["blah"]), kind: DiffKind::RvalueDNE },
        Diff {
            path: at(&["bool2"]),
            kind: DiffKind::DiffValue(JsonValue::Bool(true), JsonValue::Bool(false)),
        },
        Diff { path: at(&["weird"]), kind: DiffKind::DiffValue(JsonValue::Null, obj(vec![])) },
        Diff { path: array2, kind: DiffKind::DiffValue(num(2), num(3)) },
        Diff { path: at(&["baz", "zed"]), kind: DiffKind::DiffValue(text("bleh"), text("pie")) },
        Diff { path: at(&["array"]), kind: DiffKind::LMoreElements(1) },
        Diff { path: at(&["bleh"]), kind: DiffKind::LvalueDNE },
    ];
    let got = compare(&left, &right);
    for d in got.iter() {
        assert!(want.contains(d));
    }
    assert!(same_set(&got, &want));
}

#[test]
fn scenario_scalars_nested_and_missing() {
    let left = obj(vec![("a", num(1)), ("b", obj(vec![("x", JsonValue::Bool(true))]))]);
    let right = obj(vec![
        ("a", num(2)),
        ("b", obj(vec![("x", JsonValue::Bool(false))])),
        ("c", num(3)),
    ]);
    let want = vec![
        Diff { path: at(&["a"]), kind: DiffKind::DiffValue(num(1), num(2)) },
        Diff {
            path: at(&["b", "x"]),
            kind: DiffKind::DiffValue(JsonValue::Bool(true), JsonValue::Bool(false)),
        },
        Diff { path: at(&["c"]), kind: DiffKind::LvalueDNE },
    ];
    assert!(same_set(&compare(&left, &right), &want));
}

#[test]
fn scenario_longer_left_array() {
    let left = obj(vec![("arr", JsonValue::Array(vec![num(1), num(2), num(3)]))]);
    let right = obj(vec![("arr", JsonValue::Array(vec![num(1), num(2)]))]);
    let want = vec![Diff { path: at(&["arr"]), kind: DiffKind::LMoreElements(1) }];
    assert!(same_set(&compare(&left, &right), &want));
}

#[test]
fn scenario_null_against_empty_object() {
    let left = obj(vec![("n", JsonValue::Null)]);
    let right = obj(vec![("n", obj(vec![]))]);
    let want = vec![Diff { path: at(&["n"]), kind: DiffKind::DiffValue(JsonValue::Null, obj(vec![])) }];
    assert!(same_set(&compare(&left, &right), &want));
}
