use divergent::diff::{Diff, DiffKind};
use divergent::engine::compare;
use divergent::order::sort_diffs;
use divergent::path::JsonPath;
use divergent::value::{JsonNumber, JsonValue, Member};

fn num(i: i64) -> JsonValue {
    JsonValue::Number(JsonNumber::Int(i))
}

fn obj(members: Vec<(&str, JsonValue)>) -> JsonValue {
    JsonValue::Object(
        members
            .into_iter()
            .map(|(k, v)| Member { key: k.to_string(), value: v })
            .collect(),
    )
}

fn arr(items: Vec<JsonValue>) -> JsonValue {
    JsonValue::Array(items)
}

fn sample_left() -> JsonValue {
    obj(vec![
        ("a", num(1)),
        ("only_left", obj(vec![("deep", num(9))])),
        ("list", arr(vec![num(1), num(5), num(3)])),
        ("s", JsonValue::String("x".to_string())),
    ])
}

fn sample_right() -> JsonValue {
    obj(vec![
        ("list", arr(vec![num(1), num(2)])),
        ("a", JsonValue::Null),
        ("only_right", arr(vec![num(4)])),
        ("s", JsonValue::String("y".to_string())),
    ])
}

fn swap(d: &Diff) -> Diff {
    let kind = match &d.kind {
        DiffKind::LvalueDNE => DiffKind::RvalueDNE,
        DiffKind::RvalueDNE => DiffKind::LvalueDNE,
        DiffKind::DiffValue(l, r) => DiffKind::DiffValue(r.deep_copy(), l.deep_copy()),
        DiffKind::LMoreElements(n) => DiffKind::RMoreElements(*n),
        DiffKind::RMoreElements(n) => DiffKind::LMoreElements(*n),
    };
    Diff { path: d.path.duplicate(), kind }
}

#[test]
fn comparing_a_document_with_itself_is_empty() {
    let t = sample_left();
    assert!(compare(&t, &t).is_empty());
    let u = sample_right();
    assert!(compare(&u, &u).is_empty());
    assert!(compare(&JsonValue::Null, &JsonValue::Null).is_empty());
}

#[test]
fn exchanging_the_documents_swaps_the_records() {
    let forward = compare(&sample_left(), &sample_right());
    let backward = compare(&sample_right(), &sample_left());
    assert_eq!(forward.len(), backward.len());
    for d in forward.iter() {
        assert!(backward.contains(&swap(d)));
    }
}

#[test]
fn a_missing_key_gives_one_mark_and_nothing_beneath() {
    let got = compare(&sample_left(), &sample_right());
    let mut only_left = JsonPath::new();
    only_left.obj("only_left");
    let under: Vec<&Diff> = got
        .iter()
        .filter(|d| d.path.len() >= 1 && d.path.step(0) == only_left.step(0))
        .collect();
    assert_eq!(under.len(), 1);
    assert_eq!(under[0].kind, DiffKind::RvalueDNE);
    let mut only_right = JsonPath::new();
    only_right.obj("only_right");
    let marks: Vec<&Diff> = got.iter().filter(|d| d.path == only_right).collect();
    assert_eq!(marks.len(), 1);
    assert_eq!(marks[0].kind, DiffKind::LvalueDNE);
}

#[test]
fn arrays_of_different_lengths_give_one_summary() {
    let got = compare(&sample_left(), &sample_right());
    let mut list = JsonPath::new();
    list.obj("list");
    let at_list: Vec<&Diff> = got.iter().filter(|d| d.path == list).collect();
    assert_eq!(at_list.len(), 1);
    assert_eq!(at_list[0].kind, DiffKind::LMoreElements(1));
    let mut second = JsonPath::new();
    second.obj("list");
    second.array(1);
    assert!(got.contains(&Diff { path: second, kind: DiffKind::DiffValue(num(5), num(2)) }));
    let mut third = JsonPath::new();
    third.obj("list");
    third.array(2);
    assert!(!got.iter().any(|d| d.path == third));
}

#[test]
fn a_longer_right_array_is_counted() {
    let got = compare(&arr(vec![num(1)]), &arr(vec![num(1), num(2), num(3)]));
    assert_eq!(got, vec![Diff { path: JsonPath::new(), kind: DiffKind::RMoreElements(2) }]);
}

#[test]
fn numbers_compare_by_value() {
    let big = JsonValue::Number(JsonNumber::UInt(7));
    assert!(compare(&num(7), &big).is_empty());
    let half = JsonValue::Number(JsonNumber::Decimal("0.5".to_string()));
    let other = JsonValue::Number(JsonNumber::Decimal("0.25".to_string()));
    assert!(compare(&half, &half.deep_copy()).is_empty());
    assert_eq!(compare(&half, &other).len(), 1);
    assert_eq!(compare(&num(-1), &JsonValue::Number(JsonNumber::UInt(18446744073709551615))).len(), 1);
}

#[test]
fn kinds_that_differ_are_a_mismatch() {
    let got = compare(&obj(vec![]), &arr(vec![]));
    assert_eq!(got, vec![Diff { path: JsonPath::new(), kind: DiffKind::DiffValue(obj(vec![]), arr(vec![])) }]);
    let got = compare(&JsonValue::Bool(true), &JsonValue::String("true".to_string()));
    assert_eq!(got.len(), 1);
}

#[test]
fn sorting_orders_by_path_and_is_idempotent() {
    let got = compare(&sample_left(), &sample_right());
    let once = sort_diffs(got);
    for w in once.windows(2) {
        assert!(w[0].path.precedes(&w[1].path));
    }
    let texts: Vec<String> = once.iter().map(|d| d.path.to_text()).collect();
    assert_eq!(texts, vec!["a", "list", "list[1]", "only_left", "only_right", "s"]);
    let copy: Vec<Diff> = once.iter().map(swap).map(|d| swap(&d)).collect();
    let twice = sort_diffs(copy);
    assert_eq!(once, twice);
}

#[test]
fn paths_order_fields_before_indices() {
    let mut f = JsonPath::new();
    f.obj("z");
    let mut i = JsonPath::new();
    i.array(0);
    assert!(f.precedes(&i));
    assert!(!i.precedes(&f));
    let mut i10 = JsonPath::new();
    i10.array(10);
    let mut i9 = JsonPath::new();
    i9.array(9);
    assert!(i9.precedes(&i10));
    assert!(!i10.precedes(&i9));
    assert!(JsonPath::new().precedes(&f));
}

#[test]
fn repeated_keys_are_not_well_formed() {
    assert!(sample_left().well_formed());
    assert!(!obj(vec![("k", num(1)), ("k", num(2))]).well_formed());
    assert!(!arr(vec![num(0), obj(vec![("a", num(1)), ("b", num(1)), ("a", num(1))])]).well_formed());
    assert!(obj(vec![("k", obj(vec![("k", num(1))]))]).well_formed());
}
