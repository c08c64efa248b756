use divergent::diff::{Diff, DiffKind};
use divergent::path::JsonPath;
use divergent::render::{report_table, table_rows};
use divergent::value::{JsonNumber, JsonValue, Member};

fn num(i: i64) -> JsonValue {
    JsonValue::Number(JsonNumber::Int(i))
}

fn path_of(fields: &[&str], index: Option<usize>) -> JsonPath {
    let mut p = JsonPath::new();
    for f in fields {
        p.obj(f);
    }
    if let Some(i) = index {
        p.array(i);
    }
    p
}

#[test]
fn path_text_joins_steps() {
    assert_eq!(path_of(&["bar"], None).to_text(), "bar");
    assert_eq!(path_of(&["baz", "zed"], None).to_text(), "baz.zed");
    assert_eq!(path_of(&["array"], Some(2)).to_text(), "array[2]");
    assert_eq!(path_of(&[], Some(12)).to_text(), "[12]");
    assert_eq!(JsonPath::new().to_text(), "");
    let p = path_of(&["a"], None);
    assert_eq!(p.with_obj("b").to_text(), "a.b");
    assert_eq!(p.with_array(3).to_text(), "a[3]");
    assert_eq!(p.to_text(), "a");
}

#[test]
fn value_text_is_compact_json() {
    let v = JsonValue::Object(vec![
        Member { key: "k".to_string(), value: JsonValue::Array(vec![num(-3), JsonValue::Null, JsonValue::Bool(false)]) },
        Member { key: "q\"t".to_string(), value: JsonValue::String("a\nb".to_string()) },
        Member { key: "d".to_string(), value: JsonValue::Number(JsonNumber::Decimal("1.5".to_string())) },
        Member { key: "u".to_string(), value: JsonValue::Number(JsonNumber::UInt(18446744073709551615)) },
    ]);
    assert_eq!(v.to_text(), "{\"k\":[-3,null,false],\"q\\\"t\":\"a\\nb\",\"d\":1.5,\"u\":18446744073709551615}");
    assert_eq!(JsonValue::Object(vec![]).to_text(), "{}");
    assert_eq!(JsonValue::Array(vec![]).to_text(), "[]");
}

#[test]
fn lines_describe_each_kind() {
    let d = Diff { path: path_of(&["c"], None), kind: DiffKind::LvalueDNE };
    assert_eq!(d.to_line(), "c is not in the lvalue");
    let d = Diff { path: path_of(&["blah"], None), kind: DiffKind::RvalueDNE };
    assert_eq!(d.to_line(), "blah is not in the rvalue");
    let d = Diff {
        path: path_of(&["bar"], None),
        kind: DiffKind::DiffValue(JsonValue::String("C".to_string()), JsonValue::String("B".to_string())),
    };
    assert_eq!(d.to_line(), "bar => \"C\" <> \"B\"");
    let d = Diff { path: path_of(&["array"], None), kind: DiffKind::LMoreElements(1) };
    assert_eq!(d.to_line(), "The lvalue array has 1 more elements than the rvalue");
    let d = Diff { path: path_of(&["arr"], None), kind: DiffKind::RMoreElements(12) };
    assert_eq!(d.to_line(), "The rvalue arr has 12 more elements than the lvalue");
}

#[test]
fn rows_have_four_cells() {
    let diffs = vec![
        Diff { path: path_of(&["x"], None), kind: DiffKind::LvalueDNE },
        Diff { path: path_of(&["y"], None), kind: DiffKind::RMoreElements(2) },
        Diff { path: path_of(&["z"], None), kind: DiffKind::DiffValue(num(1), JsonValue::Null) },
    ];
    let rows = table_rows(&diffs, "one.json", "two.json");
    assert_eq!(rows[0], vec!["JSON Path", "one.json", "two.json", "Diff Kind"]);
    assert_eq!(rows[1], vec!["x", "DNE", "", "Left Value DNE"]);
    assert_eq!(rows[2], vec!["y", "", "2", "Right More Elements"]);
    assert_eq!(rows[3], vec!["z", "1", "null", "Value Diff"]);
}

#[test]
fn report_lists_rows_in_path_order() {
    let diffs = vec![
        Diff { path: path_of(&["zed"], None), kind: DiffKind::RvalueDNE },
        Diff { path: path_of(&["alpha"], None), kind: DiffKind::LMoreElements(3) },
    ];
    let table = report_table(diffs, "left.json", "right.json");
    assert!(table.contains("JSON Path"));
    assert!(table.contains("left.json"));
    assert!(table.contains("Right Value DNE"));
    let a = table.find("alpha").unwrap();
    let z = table.find("zed").unwrap();
    assert!(a < z);
    assert!(table.lines().count() > 3);
}
