//! Text forms of values, differences and the report table.
use crate::diff::{records, Diff, DiffKind, Kind, Record};
use crate::order::{sort_diffs, sorted_by_path};
use crate::path::{decimal_of, decimal_text, path_text};
use crate::engine::{items_view, lemma_views, members_view};
use crate::value::{Json, JsonNumber, JsonValue};
use vstd::prelude::*;

verus! {

/// The JSON text of a string: quoted, with the characters that JSON
/// requires escaped.
pub uninterp spec fn quoted_of(s: Seq<char>) -> Seq<char>;

/// Relies on serde_json's `Display` for `Value::String`: the compact JSON
/// text of the string.
#[verifier::external_body]
fn quoted(s: &str) -> (r: String)
    ensures
        r@ == quoted_of(s@),
{
    serde_json::Value::String(s.to_owned()).to_string()
}

/// The compact JSON text of a value: no spaces, members in their order.
pub open spec fn json_text(j: Json) -> Seq<char>
    decreases j, 0int,
{
    match j {
        Json::Null => "null"@,
        Json::Bool(b) => if b {
            "true"@
        } else {
            "false"@
        },
        Json::Int(i) => decimal_of(i),
        Json::Decimal(d) => d,
        Json::Str(s) => quoted_of(s),
        Json::Arr(items) => seq!['['] + items_text(items, items.len() as int) + seq![']'],
        Json::Obj(ms) => seq!['{'] + members_text(ms, ms.len() as int) + seq!['}'],
    }
}

/// The comma before the element at position `n - 1`, none before the first.
pub open spec fn separator(n: int) -> Seq<char> {
    if n > 1 {
        seq![',']
    } else {
        Seq::empty()
    }
}

/// The text of the first `n` elements, separated by commas.
pub open spec fn items_text(items: Seq<Json>, n: int) -> Seq<char>
    decreases items, n,
{
    if n <= 0 || n > items.len() {
        Seq::empty()
    } else {
        items_text(items, n - 1) + separator(n) + json_text(items[n - 1])
    }
}

/// The text of the first `n` members, `"key":value`, separated by commas.
pub open spec fn members_text(ms: Seq<(Seq<char>, Json)>, n: int) -> Seq<char>
    decreases ms, n,
{
    if n <= 0 || n > ms.len() {
        Seq::empty()
    } else {
        members_text(ms, n - 1) + separator(n) + quoted_of(ms[n - 1].0) + seq![':'] + json_text(
            ms[n - 1].1,
        )
    }
}

impl JsonValue {
    /// The compact JSON text of the value.
    #[verifier::loop_isolation(false)]
    pub fn to_text(&self) -> (r: String)
        ensures
            r@ == json_text(self@),
        decreases self,
    {
        proof {
            lemma_views(self);
        }
        match self {
            JsonValue::Null => "null".to_owned(),
            JsonValue::Bool(b) => if *b {
                "true".to_owned()
            } else {
                "false".to_owned()
            },
            JsonValue::Number(JsonNumber::Int(i)) => decimal_text(*i as i128),
            JsonValue::Number(JsonNumber::UInt(u)) => decimal_text(*u as i128),
            JsonValue::Number(JsonNumber::Decimal(d)) => d.clone(),
            JsonValue::String(s) => quoted(s.as_str()),
            JsonValue::Array(items) => {
                let ghost iv = items_view(items@);
                let mut out = String::new();
                out.append("[");
                proof {
                    reveal_strlit("[");
                    assert(out@ =~= seq!['['] + items_text(iv, 0));
                }
                let mut i: usize = 0;
                while i < items.len()
                    invariant
                        i <= items@.len(),
                        out@ == seq!['['] + items_text(iv, i as int),
                    decreases items@.len() - i,
                {
                    if i > 0 {
                        out.append(",");
                    }
                    proof {
                        assert(decreases_to!(items => items@[i as int]));
                    }
                    let t = items[i].to_text();
                    out.append(t.as_str());
                    proof {
                        reveal_strlit(",");
                        assert(items_text(iv, i + 1) == items_text(iv, i as int) + separator(
                            i + 1,
                        ) + json_text(iv[i as int]));
                        assert(out@ =~= seq!['['] + items_text(iv, i + 1));
                    }
                    i = i + 1;
                }
                out.append("]");
                proof {
                    reveal_strlit("[");
                    reveal_strlit("]");
                    assert(out@ =~= json_text(self@));
                }
                out
            },
            JsonValue::Object(ms) => {
                let ghost mv = members_view(ms@);
                let mut out = String::new();
                out.append("{");
                proof {
                    reveal_strlit("{");
                    assert(out@ =~= seq!['{'] + members_text(mv, 0));
                }
                let mut i: usize = 0;
                while i < ms.len()
                    invariant
                        i <= ms@.len(),
                        out@ == seq!['{'] + members_text(mv, i as int),
                    decreases ms@.len() - i,
                {
                    if i > 0 {
                        out.append(",");
                    }
                    proof {
                        assert(decreases_to!(ms => ms@[i as int]));
                    }
                    let k = quoted(ms[i].key.as_str());
                    out.append(k.as_str());
                    out.append(":");
                    let t = ms[i].value.to_text();
                    out.append(t.as_str());
                    proof {
                        reveal_strlit(",");
                        reveal_strlit(":");
                        assert(members_text(mv, i + 1) == members_text(mv, i as int) + separator(
                            i + 1,
                        ) + quoted_of(mv[i as int].0) + seq![':'] + json_text(mv[i as int].1));
                        assert(out@ =~= seq!['{'] + members_text(mv, i + 1));
                    }
                    i = i + 1;
                }
                out.append("}");
                proof {
                    reveal_strlit("{");
                    reveal_strlit("}");
                    assert(out@ =~= json_text(self@));
                }
                out
            },
        }
    }
}

/// The one-line description of a difference.
pub open spec fn line_text(d: Record) -> Seq<char> {
    let p = path_text(d.path);
    match d.kind {
        Kind::LeftMissing => p + " is not in the lvalue"@,
        Kind::RightMissing => p + " is not in the rvalue"@,
        Kind::Mismatch(l, r) => p + " => "@ + json_text(l) + " <> "@ + json_text(r),
        Kind::LeftMore(n) => "The lvalue "@ + p + " has "@ + decimal_of(n as int)
            + " more elements than the rvalue"@,
        Kind::RightMore(n) => "The rvalue "@ + p + " has "@ + decimal_of(n as int)
            + " more elements than the lvalue"@,
    }
}

/// The cells of a difference's row: path, left cell, right cell, kind tag.
pub open spec fn row_of(d: Record) -> Seq<Seq<char>> {
    let p = path_text(d.path);
    match d.kind {
        Kind::LeftMissing => seq![p, "DNE"@, Seq::empty(), "Left Value DNE"@],
        Kind::RightMissing => seq![p, Seq::empty(), "DNE"@, "Right Value DNE"@],
        Kind::Mismatch(l, r) => seq![p, json_text(l), json_text(r), "Value Diff"@],
        Kind::LeftMore(n) => seq![p, decimal_of(n as int), Seq::empty(), "Left More Elements"@],
        Kind::RightMore(n) => seq![p, Seq::empty(), decimal_of(n as int), "Right More Elements"@],
    }
}

/// The rows of the report: a header naming the two documents, then one row
/// per difference in the given order.
pub open spec fn table_of(s: Seq<Record>, left: Seq<char>, right: Seq<char>) -> Seq<Seq<Seq<char>>> {
    seq![seq!["JSON Path"@, left, right, "Diff Kind"@]] + s.map_values(|d: Record| row_of(d))
}

/// The texts that rows of cells hold.
pub open spec fn rows_view(rows: Seq<Vec<String>>) -> Seq<Seq<Seq<char>>> {
    rows.map_values(|row: Vec<String>| row@.map_values(|c: String| c@))
}

/// The text of a table with these rows, the first row as the header, in
/// the default format of the table renderer.
pub uninterp spec fn table_text(rows: Seq<Seq<Seq<char>>>) -> Seq<char>;

/// Relies on prettytable's `Table::from` (one row per inner vector, one cell
/// per string) and on its `Display`: the rendered table.
#[verifier::external_body]
fn render_table(rows: &Vec<Vec<String>>) -> (r: String)
    ensures
        r@ == table_text(rows_view(rows@)),
{
    prettytable::Table::from(rows.clone()).to_string()
}

fn text_of(s: &str) -> (r: String)
    ensures
        r@ == s@,
{
    s.to_owned()
}

impl Diff {
    /// The one-line description of this difference.
    pub fn to_line(&self) -> (r: String)
        ensures
            r@ == line_text(self@),
    {
        let p = self.path.to_text();
        let mut out = String::new();
        match &self.kind {
            DiffKind::LvalueDNE => {
                out.append(p.as_str());
                out.append(" is not in the lvalue");
            },
            DiffKind::RvalueDNE => {
                out.append(p.as_str());
                out.append(" is not in the rvalue");
            },
            DiffKind::DiffValue(l, r) => {
                let lt = l.to_text();
                let rt = r.to_text();
                out.append(p.as_str());
                out.append(" => ");
                out.append(lt.as_str());
                out.append(" <> ");
                out.append(rt.as_str());
            },
            DiffKind::LMoreElements(n) => {
                let nt = decimal_text(*n as i128);
                out.append("The lvalue ");
                out.append(p.as_str());
                out.append(" has ");
                out.append(nt.as_str());
                out.append(" more elements than the rvalue");
            },
            DiffKind::RMoreElements(n) => {
                let nt = decimal_text(*n as i128);
                out.append("The rvalue ");
                out.append(p.as_str());
                out.append(" has ");
                out.append(nt.as_str());
                out.append(" more elements than the lvalue");
            },
        }
        assert(out@ =~= line_text(self@));
        out
    }

    /// The cells of this difference's row in the report table.
    pub fn row(&self) -> (r: Vec<String>)
        ensures
            r@.map_values(|c: String| c@) == row_of(self@),
    {
        let p = self.path.to_text();
        let r = match &self.kind {
            DiffKind::LvalueDNE => vec![p, text_of("DNE"), String::new(), text_of("Left Value DNE")],
            DiffKind::RvalueDNE => vec![p, String::new(), text_of("DNE"), text_of("Right Value DNE")],
            DiffKind::DiffValue(l, r) => vec![p, l.to_text(), r.to_text(), text_of("Value Diff")],
            DiffKind::LMoreElements(n) => vec![
                p,
                decimal_text(*n as i128),
                String::new(),
                text_of("Left More Elements"),
            ],
            DiffKind::RMoreElements(n) => vec![
                p,
                String::new(),
                decimal_text(*n as i128),
                text_of("Right More Elements"),
            ],
        };
        assert(r@.map_values(|c: String| c@) =~= row_of(self@));
        r
    }
}

/// The rows of the report for the differences in the order given.
pub fn table_rows(diffs: &Vec<Diff>, left: &str, right: &str) -> (r: Vec<Vec<String>>)
    ensures
        rows_view(r@) == table_of(records(diffs@), left@, right@),
{
    let mut rows: Vec<Vec<String>> = Vec::new();
    let header = vec![text_of("JSON Path"), text_of(left), text_of(right), text_of("Diff Kind")];
    assert(header@.map_values(|c: String| c@) =~= seq!["JSON Path"@, left@, right@, "Diff Kind"@]);
    rows.push(header);
    let mut i: usize = 0;
    while i < diffs.len()
        invariant
            i <= diffs@.len(),
            rows_view(rows@) == table_of(records(diffs@.subrange(0, i as int)), left@, right@),
        decreases diffs@.len() - i,
    {
        let ghost before = rows@;
        let ghost prev = records(diffs@.subrange(0, i as int));
        let row = diffs[i].row();
        let ghost rv = row@.map_values(|c: String| c@);
        rows.push(row);
        assert(rows_view(rows@) =~= rows_view(before).push(rv));
        assert(records(diffs@.subrange(0, i + 1)) =~= prev.push(diffs@[i as int]@));
        assert(table_of(prev.push(diffs@[i as int]@), left@, right@) =~= table_of(prev, left@, right@).push(
            row_of(diffs@[i as int]@),
        ));
        assert(rows_view(rows@) =~= table_of(records(diffs@.subrange(0, i + 1)), left@, right@));
        i = i + 1;
    }
    assert(diffs@.subrange(0, diffs@.len() as int) =~= diffs@);
    rows
}

/// The report table: the differences sorted by path, one row each, under a
/// header that names the two documents.
pub fn report_table(diffs: Vec<Diff>, left: &str, right: &str) -> (r: String)
    ensures
        exists|s: Seq<Record>|
            sorted_by_path(s) && s.to_multiset() == records(diffs@).to_multiset() && r@
                == table_text(#[trigger] table_of(s, left@, right@)),
{
    let sorted = sort_diffs(diffs);
    let rows = table_rows(&sorted, left, right);
    let r = render_table(&rows);
    assert(table_of(records(sorted@), left@, right@) == rows_view(rows@));
    r
}

} // verus!
