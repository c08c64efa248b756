//! The diff engine: walks two documents in step and records where they differ.
use crate::diff::{records, Diff, DiffKind, Kind, Record};
use crate::path::{JsonPath, Step};
use crate::value::{has_key, key_pos, lemma_key_pos, lemma_wf_arr, lemma_wf_obj, wf, Json, JsonValue, Member};
use vstd::prelude::*;

verus! {

/// The records of comparing `l` with `r` at path `p`, in the order the
/// engine produces them.
pub open spec fn diffs(l: Json, r: Json, p: Seq<Step>) -> Seq<Record>
    decreases l, 0int,
{
    match (l, r) {
        (Json::Obj(lm), Json::Obj(rm)) => left_pass(lm, rm, p, lm.len() as int) + right_pass(
            lm,
            rm,
            p,
            rm.len() as int,
        ),
        (Json::Arr(la), Json::Arr(ra)) => pair_pass(
            la,
            ra,
            p,
            if la.len() <= ra.len() { la.len() as int } else { ra.len() as int },
        ) + length_summary(la.len(), ra.len(), p),
        _ => if l == r {
            Seq::empty()
        } else {
            seq![Record { path: p, kind: Kind::Mismatch(l, r) }]
        },
    }
}

/// The records of the first `n` keys of the left object.
pub open spec fn left_pass(
    lm: Seq<(Seq<char>, Json)>,
    rm: Seq<(Seq<char>, Json)>,
    p: Seq<Step>,
    n: int,
) -> Seq<Record>
    decreases lm, n,
{
    if n <= 0 || n > lm.len() {
        Seq::empty()
    } else {
        left_pass(lm, rm, p, n - 1) + left_entry(lm, rm, p, n - 1)
    }
}

/// The records of key `i` of the left object: its value compared with the
/// right object's value for the same key, or a mark that the right lacks it.
pub open spec fn left_entry(
    lm: Seq<(Seq<char>, Json)>,
    rm: Seq<(Seq<char>, Json)>,
    p: Seq<Step>,
    i: int,
) -> Seq<Record>
    decreases lm, i,
{
    if 0 <= i < lm.len() {
        let k = lm[i].0;
        let q = p.push(Step::Field(k));
        if has_key(rm, k) {
            diffs(lm[i].1, rm[key_pos(rm, k)].1, q)
        } else {
            seq![Record { path: q, kind: Kind::RightMissing }]
        }
    } else {
        Seq::empty()
    }
}

/// The records of the first `n` keys of the right object.
pub open spec fn right_pass(
    lm: Seq<(Seq<char>, Json)>,
    rm: Seq<(Seq<char>, Json)>,
    p: Seq<Step>,
    n: int,
) -> Seq<Record>
    decreases n,
{
    if n <= 0 || n > rm.len() {
        Seq::empty()
    } else {
        right_pass(lm, rm, p, n - 1) + right_entry(lm, rm, p, n - 1)
    }
}

/// The record of key `i` of the right object: a mark if the left lacks it.
pub open spec fn right_entry(
    lm: Seq<(Seq<char>, Json)>,
    rm: Seq<(Seq<char>, Json)>,
    p: Seq<Step>,
    i: int,
) -> Seq<Record> {
    if 0 <= i < rm.len() && !has_key(lm, rm[i].0) {
        seq![Record { path: p.push(Step::Field(rm[i].0)), kind: Kind::LeftMissing }]
    } else {
        Seq::empty()
    }
}

/// The records of comparing the first `n` pairs of elements.
pub open spec fn pair_pass(la: Seq<Json>, ra: Seq<Json>, p: Seq<Step>, n: int) -> Seq<Record>
    decreases la, n,
{
    if n <= 0 || n > la.len() || n > ra.len() {
        Seq::empty()
    } else {
        pair_pass(la, ra, p, n - 1) + diffs(la[n - 1], ra[n - 1], p.push(Step::Index((n - 1) as nat)))
    }
}

/// The one record that summarises arrays of different lengths.
pub open spec fn length_summary(a: nat, b: nat, p: Seq<Step>) -> Seq<Record> {
    if a > b {
        seq![Record { path: p, kind: Kind::LeftMore((a - b) as nat) }]
    } else if a < b {
        seq![Record { path: p, kind: Kind::RightMore((b - a) as nat) }]
    } else {
        Seq::empty()
    }
}

/// The position of `key` among the members of an object.
fn find_key(ms: &Vec<Member>, key: &String) -> (r: Option<usize>)
    ensures
        r matches Some(j) ==> j < ms@.len() && ms@[j as int].key@ == key@,
        r is None ==> forall|j: int| 0 <= j < ms@.len() ==> #[trigger] ms@[j].key@ != key@,
{
    let mut j: usize = 0;
    while j < ms.len()
        invariant
            j <= ms@.len(),
            forall|i: int| 0 <= i < j ==> #[trigger] ms@[i].key@ != key@,
        decreases ms@.len() - j,
    {
        if ms[j].key == *key {
            return Some(j);
        }
        j = j + 1;
    }
    None
}

/// The members of an object, in their mathematical form.
pub open spec fn members_view(ms: Seq<Member>) -> Seq<(Seq<char>, Json)> {
    Seq::new(ms.len(), |i: int| (ms[i].key@, ms[i].value@))
}

/// The elements of an array, in their mathematical form.
pub open spec fn items_view(items: Seq<JsonValue>) -> Seq<Json> {
    Seq::new(items.len(), |i: int| items[i]@)
}

pub(crate) proof fn lemma_views(v: &JsonValue)
    ensures
        v matches JsonValue::Object(ms) ==> v@ == Json::Obj(members_view(ms@)),
        v matches JsonValue::Array(items) ==> v@ == Json::Arr(items_view(items@)),
{
    match v {
        JsonValue::Object(ms) => assert(v@->Obj_0 =~= members_view(ms@)),
        JsonValue::Array(items) => assert(v@->Arr_0 =~= items_view(items@)),
        _ => {},
    }
}

proof fn lemma_push_record(s: Seq<Diff>, d: Diff)
    ensures
        records(s.push(d)) == records(s) + seq![d@],
{
    assert(records(s.push(d)) =~= records(s) + seq![d@]);
}

/// Compares `left` with `right` at `path`, appending each difference to `out`.
#[verifier::loop_isolation(false)]
pub fn json(left: &JsonValue, right: &JsonValue, path: &JsonPath, out: &mut Vec<Diff>)
    requires
        wf(left@),
        wf(right@),
    ensures
        records(final(out)@) == records(old(out)@) + diffs(left@, right@, path@),
    decreases left,
{
    let ghost start = records(out@);
    let ghost p = path@;
    proof {
        lemma_views(left);
        lemma_views(right);
    }
    match (left, right) {
        (JsonValue::Object(lm), JsonValue::Object(rm)) => {
            let ghost lv = members_view(lm@);
            let ghost rv = members_view(rm@);
            assert(left@ == Json::Obj(lv));
            proof {
                lemma_wf_obj(lv);
                lemma_wf_obj(rv);
            }
            let mut i: usize = 0;
            while i < lm.len()
                invariant
                    i <= lm@.len(),
                    records(out@) == start + left_pass(lv, rv, p, i as int),
                decreases lm@.len() - i,
            {
                let child = path.with_obj(lm[i].key.as_str());
                assert(lv[i as int].1 == lm@[i as int].value@);
                assert(wf(lv[i as int].1));
                match find_key(rm, &lm[i].key) {
                    Some(j) => {
                        proof {
                            lemma_key_pos(rv, j as int);
                            assert(decreases_to!(lm => lm@[i as int]));
                            assert(wf(rv[j as int].1));
                        }
                        json(&lm[i].value, &rm[j].value, &child, out);
                    },
                    None => {
                        assert(!has_key(rv, lv[i as int].0));
                        let d = Diff { path: child, kind: DiffKind::RvalueDNE };
                        proof {
                            lemma_push_record(out@, d);
                        }
                        out.push(d);
                    },
                }
                assert(left_pass(lv, rv, p, i as int + 1) == left_pass(lv, rv, p, i as int)
                    + left_entry(lv, rv, p, i as int));
                i = i + 1;
            }
            let ghost mid = records(out@);
            let mut j: usize = 0;
            while j < rm.len()
                invariant
                    j <= rm@.len(),
                    records(out@) == mid + right_pass(lv, rv, p, j as int),
                decreases rm@.len() - j,
            {
                match find_key(lm, &rm[j].key) {
                    Some(i) => {
                        assert(lv[i as int].0 == rv[j as int].0);
                        assert(has_key(lv, rv[j as int].0));
                    },
                    None => {
                        assert(!has_key(lv, rv[j as int].0));
                        let child = path.with_obj(rm[j].key.as_str());
                        let d = Diff { path: child, kind: DiffKind::LvalueDNE };
                        proof {
                            lemma_push_record(out@, d);
                        }
                        out.push(d);
                    },
                }
                j = j + 1;
            }
            assert(records(out@) =~= start + diffs(left@, right@, p));
        },
        (JsonValue::Array(la), JsonValue::Array(ra)) => {
            let ghost lv = items_view(la@);
            let ghost rv = items_view(ra@);
            assert(left@ == Json::Arr(lv));
            proof {
                lemma_wf_arr(lv);
                lemma_wf_arr(rv);
            }
            let llen = la.len();
            let rlen = ra.len();
            let n = if llen <= rlen { llen } else { rlen };
            let mut i: usize = 0;
            while i < n
                invariant
                    i <= n,
                    records(out@) == start + pair_pass(lv, rv, p, i as int),
                decreases n - i,
            {
                let child = path.with_array(i);
                proof {
                    assert(decreases_to!(la => la@[i as int]));
                    assert(wf(lv[i as int]));
                    assert(wf(rv[i as int]));
                }
                json(&la[i], &ra[i], &child, out);
                i = i + 1;
            }
            if llen > rlen {
                let d = Diff { path: path.duplicate(), kind: DiffKind::LMoreElements(llen - rlen) };
                proof {
                    lemma_push_record(out@, d);
                }
                out.push(d);
            } else if llen < rlen {
                let d = Diff { path: path.duplicate(), kind: DiffKind::RMoreElements(rlen - llen) };
                proof {
                    lemma_push_record(out@, d);
                }
                out.push(d);
            }
            assert(records(out@) =~= start + diffs(left@, right@, p));
        },
        _ => {
            if !left.scalar_eq(right) {
                let d = Diff {
                    path: path.duplicate(),
                    kind: DiffKind::DiffValue(left.deep_copy(), right.deep_copy()),
                };
                proof {
                    lemma_push_record(out@, d);
                }
                out.push(d);
            }
            assert(records(out@) =~= start + diffs(left@, right@, p));
        },
    }
}

/// The differences between two documents, each addressed from the root.
pub fn compare(left: &JsonValue, right: &JsonValue) -> (r: Vec<Diff>)
    requires
        wf(left@),
        wf(right@),
    ensures
        records(r@) == diffs(left@, right@, Seq::empty()),
{
    let mut out: Vec<Diff> = Vec::new();
    let root = JsonPath::new();
    json(left, right, &root, &mut out);
    assert(records(out@) =~= diffs(left@, right@, Seq::empty()));
    out
}

} // verus!
