//! Properties of the comparison that hold for all documents.
use crate::diff::{Kind, Record};
use crate::engine::{
    diffs, left_entry, left_pass, length_summary, pair_pass, right_entry, right_pass,
};
use crate::path::Step;
use crate::value::{has_key, key_pos, lemma_key_pos, lemma_wf_arr, lemma_wf_obj, unique_keys, wf, Json};
use vstd::prelude::*;

verus! {

proof fn lemma_concat_contains(a: Seq<Record>, b: Seq<Record>, d: Record)
    ensures
        (a + b).contains(d) <==> a.contains(d) || b.contains(d),
{
    if (a + b).contains(d) {
        let k = choose|k: int| 0 <= k < (a + b).len() && (a + b)[k] == d;
        if k < a.len() {
            assert(a[k] == d);
        } else {
            assert(b[k - a.len()] == d);
        }
    }
    if a.contains(d) {
        let k = choose|k: int| 0 <= k < a.len() && a[k] == d;
        assert((a + b)[k] == d);
    }
    if b.contains(d) {
        let k = choose|k: int| 0 <= k < b.len() && b[k] == d;
        assert((a + b)[k + a.len()] == d);
    }
}

proof fn lemma_left_pass_contains(
    lm: Seq<(Seq<char>, Json)>,
    rm: Seq<(Seq<char>, Json)>,
    p: Seq<Step>,
    n: int,
    d: Record,
)
    requires
        0 <= n <= lm.len(),
    ensures
        left_pass(lm, rm, p, n).contains(d) <==> exists|i: int|
            0 <= i < n && #[trigger] left_entry(lm, rm, p, i).contains(d),
    decreases n,
{
    if n > 0 {
        lemma_left_pass_contains(lm, rm, p, n - 1, d);
        lemma_concat_contains(left_pass(lm, rm, p, n - 1), left_entry(lm, rm, p, n - 1), d);
    }
}

proof fn lemma_right_pass_contains(
    lm: Seq<(Seq<char>, Json)>,
    rm: Seq<(Seq<char>, Json)>,
    p: Seq<Step>,
    n: int,
    d: Record,
)
    requires
        0 <= n <= rm.len(),
    ensures
        right_pass(lm, rm, p, n).contains(d) <==> exists|i: int|
            0 <= i < n && #[trigger] right_entry(lm, rm, p, i).contains(d),
    decreases n,
{
    if n > 0 {
        lemma_right_pass_contains(lm, rm, p, n - 1, d);
        lemma_concat_contains(right_pass(lm, rm, p, n - 1), right_entry(lm, rm, p, n - 1), d);
    }
}

proof fn lemma_pair_pass_contains(la: Seq<Json>, ra: Seq<Json>, p: Seq<Step>, n: int, d: Record)
    requires
        0 <= n <= la.len(),
        n <= ra.len(),
    ensures
        pair_pass(la, ra, p, n).contains(d) <==> exists|i: int|
            0 <= i < n && #[trigger] diffs(la[i], ra[i], p.push(Step::Index(i as nat))).contains(
                d,
            ),
    decreases n,
{
    if n > 0 {
        lemma_pair_pass_contains(la, ra, p, n - 1, d);
        lemma_concat_contains(
            pair_pass(la, ra, p, n - 1),
            diffs(la[n - 1], ra[n - 1], p.push(Step::Index((n - 1) as nat))),
            d,
        );
    }
}

/// Comparing a well-formed document with itself finds no difference.
pub proof fn lemma_compare_reflexive(t: Json, p: Seq<Step>)
    requires
        wf(t),
    ensures
        diffs(t, t, p) == Seq::<Record>::empty(),
    decreases t, 0int,
{
    match t {
        Json::Obj(ms) => {
            lemma_wf_obj(ms);
            lemma_left_pass_reflexive(ms, p, ms.len() as int);
            lemma_right_pass_reflexive(ms, p, ms.len() as int);
            assert(diffs(t, t, p) =~= Seq::<Record>::empty());
        },
        Json::Arr(items) => {
            lemma_wf_arr(items);
            lemma_pair_pass_reflexive(items, p, items.len() as int);
            assert(diffs(t, t, p) =~= Seq::<Record>::empty());
        },
        _ => {},
    }
}

proof fn lemma_left_pass_reflexive(ms: Seq<(Seq<char>, Json)>, p: Seq<Step>, n: int)
    requires
        unique_keys(ms),
        forall|i: int| 0 <= i < ms.len() ==> #[trigger] wf(ms[i].1),
        0 <= n <= ms.len(),
    ensures
        left_pass(ms, ms, p, n) == Seq::<Record>::empty(),
    decreases ms, n,
{
    if n > 0 {
        lemma_left_pass_reflexive(ms, p, n - 1);
        lemma_key_pos(ms, n - 1);
        assert(decreases_to!(ms => ms[n - 1]));
        lemma_compare_reflexive(ms[n - 1].1, p.push(Step::Field(ms[n - 1].0)));
        assert(left_entry(ms, ms, p, n - 1) == diffs(
            ms[n - 1].1,
            ms[n - 1].1,
            p.push(Step::Field(ms[n - 1].0)),
        ));
        assert(left_pass(ms, ms, p, n) == left_pass(ms, ms, p, n - 1) + left_entry(
            ms,
            ms,
            p,
            n - 1,
        ));
        assert(left_pass(ms, ms, p, n) =~= Seq::<Record>::empty());
    }
}

proof fn lemma_right_pass_reflexive(ms: Seq<(Seq<char>, Json)>, p: Seq<Step>, n: int)
    requires
        unique_keys(ms),
        0 <= n <= ms.len(),
    ensures
        right_pass(ms, ms, p, n) == Seq::<Record>::empty(),
    decreases n,
{
    if n > 0 {
        lemma_right_pass_reflexive(ms, p, n - 1);
        lemma_key_pos(ms, n - 1);
        assert(right_pass(ms, ms, p, n) =~= Seq::<Record>::empty());
    }
}

proof fn lemma_pair_pass_reflexive(items: Seq<Json>, p: Seq<Step>, n: int)
    requires
        forall|i: int| 0 <= i < items.len() ==> #[trigger] wf(items[i]),
        0 <= n <= items.len(),
    ensures
        pair_pass(items, items, p, n) == Seq::<Record>::empty(),
    decreases items, n,
{
    if n > 0 {
        lemma_pair_pass_reflexive(items, p, n - 1);
        assert(decreases_to!(items => items[n - 1]));
        lemma_compare_reflexive(items[n - 1], p.push(Step::Index((n - 1) as nat)));
        assert(pair_pass(items, items, p, n) =~= Seq::<Record>::empty());
    }
}

/// Whether `path` begins with the steps of `q`.
pub open spec fn extends(q: Seq<Step>, path: Seq<Step>) -> bool {
    q.len() <= path.len() && path.subrange(0, q.len() as int) == q
}

proof fn lemma_extends_push(q: Seq<Step>, s: Step, path: Seq<Step>)
    requires
        extends(q.push(s), path),
    ensures
        extends(q, path),
        path[q.len() as int] == s,
{
    assert(path.subrange(0, q.len() as int) =~= q.push(s).subrange(0, q.len() as int));
    assert(q.push(s).subrange(0, q.len() as int) =~= q);
    assert(path.subrange(0, q.len() + 1 as int)[q.len() as int] == s);
}

/// Every record of a comparison at `q` lies at `q` or beneath it.
pub proof fn lemma_paths_extend(l: Json, r: Json, q: Seq<Step>, d: Record)
    requires
        diffs(l, r, q).contains(d),
    ensures
        extends(q, d.path),
    decreases l,
{
    match (l, r) {
        (Json::Obj(lm), Json::Obj(rm)) => {
            lemma_concat_contains(
                left_pass(lm, rm, q, lm.len() as int),
                right_pass(lm, rm, q, rm.len() as int),
                d,
            );
            lemma_left_pass_contains(lm, rm, q, lm.len() as int, d);
            lemma_right_pass_contains(lm, rm, q, rm.len() as int, d);
            if left_pass(lm, rm, q, lm.len() as int).contains(d) {
                let i = choose|i: int|
                    0 <= i < lm.len() && #[trigger] left_entry(lm, rm, q, i).contains(d);
                let qk = q.push(Step::Field(lm[i].0));
                if has_key(rm, lm[i].0) {
                    assert(decreases_to!(lm => lm[i]));
                    lemma_paths_extend(lm[i].1, rm[key_pos(rm, lm[i].0)].1, qk, d);
                } else {
                    assert(d.path == qk);
                    assert(d.path.subrange(0, qk.len() as int) =~= qk);
                }
                lemma_extends_push(q, Step::Field(lm[i].0), d.path);
            } else {
                let i = choose|i: int|
                    0 <= i < rm.len() && #[trigger] right_entry(lm, rm, q, i).contains(d);
                let qk = q.push(Step::Field(rm[i].0));
                assert(d.path == qk);
                assert(d.path.subrange(0, qk.len() as int) =~= qk);
                lemma_extends_push(q, Step::Field(rm[i].0), d.path);
            }
        },
        (Json::Arr(la), Json::Arr(ra)) => {
            let n = if la.len() <= ra.len() { la.len() as int } else { ra.len() as int };
            lemma_concat_contains(pair_pass(la, ra, q, n), length_summary(la.len(), ra.len(), q), d);
            lemma_pair_pass_contains(la, ra, q, n, d);
            if pair_pass(la, ra, q, n).contains(d) {
                let i = choose|i: int|
                    0 <= i < n && #[trigger] diffs(la[i], ra[i], q.push(Step::Index(i as nat))).contains(d);
                assert(decreases_to!(la => la[i]));
                lemma_paths_extend(la[i], ra[i], q.push(Step::Index(i as nat)), d);
                lemma_extends_push(q, Step::Index(i as nat), d.path);
            } else {
                assert(d.path == q);
                assert(d.path.subrange(0, q.len() as int) =~= q);
            }
        },
        _ => {
            assert(d.path == q);
            assert(d.path.subrange(0, q.len() as int) =~= q);
        },
    }
}

/// The record that marks a key held by only one of two objects.
pub open spec fn missing_mark(lm: Seq<(Seq<char>, Json)>, p: Seq<Step>, k: Seq<char>) -> Record {
    Record {
        path: p.push(Step::Field(k)),
        kind: if has_key(lm, k) {
            Kind::RightMissing
        } else {
            Kind::LeftMissing
        },
    }
}

/// For a key that exactly one of two compared objects holds, the comparison
/// has the mark of its absence at the key's path once, and no other record at
/// or beneath that path: nothing is compared under a missing key.
pub proof fn lemma_missing_key(
    lm: Seq<(Seq<char>, Json)>,
    rm: Seq<(Seq<char>, Json)>,
    p: Seq<Step>,
    k: Seq<char>,
)
    requires
        wf(Json::Obj(lm)),
        wf(Json::Obj(rm)),
        has_key(lm, k) != has_key(rm, k),
    ensures
        diffs(Json::Obj(lm), Json::Obj(rm), p).no_duplicates(),
        diffs(Json::Obj(lm), Json::Obj(rm), p).contains(missing_mark(lm, p, k)),
        forall|d: Record|
            #[trigger] diffs(Json::Obj(lm), Json::Obj(rm), p).contains(d) && extends(
                p.push(Step::Field(k)),
                d.path,
            ) ==> d == missing_mark(lm, p, k),
{
    lemma_compare_distinct(Json::Obj(lm), Json::Obj(rm), p);
    let q = p.push(Step::Field(k));
    let mark = missing_mark(lm, p, k);
    let lp = left_pass(lm, rm, p, lm.len() as int);
    let rp = right_pass(lm, rm, p, rm.len() as int);
    assert(diffs(Json::Obj(lm), Json::Obj(rm), p) == lp + rp);
    lemma_concat_contains(lp, rp, mark);
    lemma_left_pass_contains(lm, rm, p, lm.len() as int, mark);
    lemma_right_pass_contains(lm, rm, p, rm.len() as int, mark);
    if has_key(lm, k) {
        let i = key_pos(lm, k);
        assert(left_entry(lm, rm, p, i) == seq![mark]);
        assert(left_entry(lm, rm, p, i)[0] == mark);
        assert(left_entry(lm, rm, p, i).contains(mark));
    } else {
        let j = key_pos(rm, k);
        assert(right_entry(lm, rm, p, j) == seq![mark]);
        assert(right_entry(lm, rm, p, j)[0] == mark);
        assert(right_entry(lm, rm, p, j).contains(mark));
    }
    assert forall|d: Record|
        #[trigger] diffs(Json::Obj(lm), Json::Obj(rm), p).contains(d) && extends(q, d.path)
        implies d == mark by {
        lemma_concat_contains(lp, rp, d);
        lemma_left_pass_contains(lm, rm, p, lm.len() as int, d);
        lemma_right_pass_contains(lm, rm, p, rm.len() as int, d);
        lemma_extends_push(p, Step::Field(k), d.path);
        if lp.contains(d) {
            let i = choose|i: int|
                0 <= i < lm.len() && #[trigger] left_entry(lm, rm, p, i).contains(d);
            let qi = p.push(Step::Field(lm[i].0));
            if has_key(rm, lm[i].0) {
                lemma_paths_extend(lm[i].1, rm[key_pos(rm, lm[i].0)].1, qi, d);
            } else {
                assert(d.path == qi);
                assert(d.path.subrange(0, qi.len() as int) =~= qi);
            }
            lemma_extends_push(p, Step::Field(lm[i].0), d.path);
            assert(lm[i].0 == k);
        } else {
            let j = choose|j: int|
                0 <= j < rm.len() && #[trigger] right_entry(lm, rm, p, j).contains(d);
            let qj = p.push(Step::Field(rm[j].0));
            assert(d.path == qj);
            assert(d.path.subrange(0, qj.len() as int) =~= qj);
            lemma_extends_push(p, Step::Field(rm[j].0), d.path);
            assert(rm[j].0 == k);
        }
    }
}

/// The record that sums up arrays of lengths `a` and `b` at `p`.
pub open spec fn length_mark(a: nat, b: nat, p: Seq<Step>) -> Record {
    Record {
        path: p,
        kind: if a > b {
            Kind::LeftMore((a - b) as nat)
        } else {
            Kind::RightMore((b - a) as nat)
        },
    }
}

/// Arrays of different lengths give exactly one record at their own path:
/// the difference of the lengths, whatever their elements hold.
pub proof fn lemma_length_summary(la: Seq<Json>, ra: Seq<Json>, p: Seq<Step>)
    requires
        wf(Json::Arr(la)),
        wf(Json::Arr(ra)),
        la.len() != ra.len(),
    ensures
        diffs(Json::Arr(la), Json::Arr(ra), p).no_duplicates(),
        diffs(Json::Arr(la), Json::Arr(ra), p).contains(length_mark(la.len(), ra.len(), p)),
        forall|d: Record|
            #[trigger] diffs(Json::Arr(la), Json::Arr(ra), p).contains(d) && d.path == p
                ==> d == length_mark(la.len(), ra.len(), p),
{
    lemma_compare_distinct(Json::Arr(la), Json::Arr(ra), p);
    let n = if la.len() <= ra.len() { la.len() as int } else { ra.len() as int };
    let pp = pair_pass(la, ra, p, n);
    let ls = length_summary(la.len(), ra.len(), p);
    let mark = length_mark(la.len(), ra.len(), p);
    assert(diffs(Json::Arr(la), Json::Arr(ra), p) == pp + ls);
    assert(ls == seq![mark]);
    assert(ls[0] == mark);
    lemma_concat_contains(pp, ls, mark);
    assert forall|d: Record|
        #[trigger] diffs(Json::Arr(la), Json::Arr(ra), p).contains(d) && d.path == p
        implies d == mark by {
        lemma_concat_contains(pp, ls, d);
        lemma_pair_pass_contains(la, ra, p, n, d);
        if pp.contains(d) {
            let i = choose|i: int|
                0 <= i < n && #[trigger] diffs(la[i], ra[i], p.push(Step::Index(i as nat))).contains(d);
            lemma_paths_extend(la[i], ra[i], p.push(Step::Index(i as nat)), d);
        }
    }
}

/// A record as seen with the two documents exchanged.
pub open spec fn swapped(d: Record) -> Record {
    Record {
        path: d.path,
        kind: match d.kind {
            Kind::LeftMissing => Kind::RightMissing,
            Kind::RightMissing => Kind::LeftMissing,
            Kind::Mismatch(l, r) => Kind::Mismatch(r, l),
            Kind::LeftMore(n) => Kind::RightMore(n),
            Kind::RightMore(n) => Kind::LeftMore(n),
        },
    }
}

proof fn lemma_swap_one_way(l: Json, r: Json, p: Seq<Step>, d: Record)
    requires
        wf(l),
        wf(r),
        diffs(l, r, p).contains(d),
    ensures
        diffs(r, l, p).contains(swapped(d)),
    decreases l,
{
    let e = swapped(d);
    match (l, r) {
        (Json::Obj(lm), Json::Obj(rm)) => {
            lemma_wf_obj(lm);
            lemma_wf_obj(rm);
            let lp = left_pass(lm, rm, p, lm.len() as int);
            let rp = right_pass(lm, rm, p, rm.len() as int);
            let lp2 = left_pass(rm, lm, p, rm.len() as int);
            let rp2 = right_pass(rm, lm, p, lm.len() as int);
            assert(diffs(l, r, p) == lp + rp);
            assert(diffs(r, l, p) == lp2 + rp2);
            lemma_concat_contains(lp, rp, d);
            lemma_concat_contains(lp2, rp2, e);
            lemma_left_pass_contains(lm, rm, p, lm.len() as int, d);
            lemma_right_pass_contains(lm, rm, p, rm.len() as int, d);
            lemma_left_pass_contains(rm, lm, p, rm.len() as int, e);
            lemma_right_pass_contains(rm, lm, p, lm.len() as int, e);
            if lp.contains(d) {
                let i = choose|i: int|
                    0 <= i < lm.len() && #[trigger] left_entry(lm, rm, p, i).contains(d);
                let k = lm[i].0;
                let q = p.push(Step::Field(k));
                lemma_key_pos(lm, i);
                if has_key(rm, k) {
                    let j = key_pos(rm, k);
                    assert(decreases_to!(lm => lm[i]));
                    lemma_swap_one_way(lm[i].1, rm[j].1, q, d);
                    assert(left_entry(rm, lm, p, j) == diffs(rm[j].1, lm[i].1, q));
                    assert(left_entry(rm, lm, p, j).contains(e));
                } else {
                    assert(d == Record { path: q, kind: Kind::RightMissing });
                    assert(right_entry(rm, lm, p, i) == seq![e]);
                    assert(right_entry(rm, lm, p, i)[0] == e);
                    assert(right_entry(rm, lm, p, i).contains(e));
                }
            } else {
                let j = choose|j: int|
                    0 <= j < rm.len() && #[trigger] right_entry(lm, rm, p, j).contains(d);
                let k = rm[j].0;
                assert(d == Record { path: p.push(Step::Field(k)), kind: Kind::LeftMissing });
                assert(left_entry(rm, lm, p, j) == seq![e]);
                assert(left_entry(rm, lm, p, j)[0] == e);
                assert(left_entry(rm, lm, p, j).contains(e));
            }
        },
        (Json::Arr(la), Json::Arr(ra)) => {
            lemma_wf_arr(la);
            lemma_wf_arr(ra);
            let n = if la.len() <= ra.len() { la.len() as int } else { ra.len() as int };
            let pp = pair_pass(la, ra, p, n);
            let ls = length_summary(la.len(), ra.len(), p);
            let pp2 = pair_pass(ra, la, p, n);
            let ls2 = length_summary(ra.len(), la.len(), p);
            assert(diffs(l, r, p) == pp + ls);
            assert(diffs(r, l, p) == pp2 + ls2);
            lemma_concat_contains(pp, ls, d);
            lemma_concat_contains(pp2, ls2, e);
            lemma_pair_pass_contains(la, ra, p, n, d);
            lemma_pair_pass_contains(ra, la, p, n, e);
            if pp.contains(d) {
                let i = choose|i: int|
                    0 <= i < n && #[trigger] diffs(la[i], ra[i], p.push(Step::Index(i as nat))).contains(d);
                assert(decreases_to!(la => la[i]));
                lemma_swap_one_way(la[i], ra[i], p.push(Step::Index(i as nat)), d);
            } else {
                assert(ls[0] == d);
                assert(ls2[0] == e);
            }
        },
        _ => {
            assert(diffs(l, r, p)[0] == d);
            assert(diffs(r, l, p)[0] == e);
        },
    }
}

/// Exchanging the two documents exchanges the two kinds of missing keys,
/// the two kinds of longer arrays and the two values of each mismatch, at the
/// same paths, and changes nothing else.
pub proof fn lemma_compare_symmetric(l: Json, r: Json, p: Seq<Step>, d: Record)
    requires
        wf(l),
        wf(r),
    ensures
        diffs(l, r, p).contains(d) <==> diffs(r, l, p).contains(swapped(d)),
{
    if diffs(l, r, p).contains(d) {
        lemma_swap_one_way(l, r, p, d);
    }
    if diffs(r, l, p).contains(swapped(d)) {
        lemma_swap_one_way(r, l, p, swapped(d));
        assert(swapped(swapped(d)) == d);
    }
}

proof fn lemma_concat_no_duplicates(a: Seq<Record>, b: Seq<Record>)
    requires
        a.no_duplicates(),
        b.no_duplicates(),
        forall|d: Record| a.contains(d) ==> !b.contains(d),
    ensures
        (a + b).no_duplicates(),
{
    let c = a + b;
    assert forall|i: int, j: int| 0 <= i < c.len() && 0 <= j < c.len() && i != j implies c[i]
        != c[j] by {
        if i < a.len() && j >= a.len() {
            assert(a.contains(c[i]));
            assert(b[j - a.len()] == c[j]);
        } else if j < a.len() && i >= a.len() {
            assert(a.contains(c[j]));
            assert(b[i - a.len()] == c[i]);
        } else if i >= a.len() && j >= a.len() {
            assert(b[i - a.len()] == c[i] && b[j - a.len()] == c[j]);
        }
    }
}

proof fn lemma_left_entry_extends(
    lm: Seq<(Seq<char>, Json)>,
    rm: Seq<(Seq<char>, Json)>,
    p: Seq<Step>,
    i: int,
    d: Record,
)
    requires
        0 <= i < lm.len(),
        left_entry(lm, rm, p, i).contains(d),
    ensures
        extends(p.push(Step::Field(lm[i].0)), d.path),
        d.path[p.len() as int] == Step::Field(lm[i].0),
{
    let q = p.push(Step::Field(lm[i].0));
    if has_key(rm, lm[i].0) {
        lemma_paths_extend(lm[i].1, rm[key_pos(rm, lm[i].0)].1, q, d);
    } else {
        assert(d.path == q);
        assert(d.path.subrange(0, q.len() as int) =~= q);
    }
    lemma_extends_push(p, Step::Field(lm[i].0), d.path);
}

proof fn lemma_right_entry_path(
    lm: Seq<(Seq<char>, Json)>,
    rm: Seq<(Seq<char>, Json)>,
    p: Seq<Step>,
    j: int,
    d: Record,
)
    requires
        right_entry(lm, rm, p, j).contains(d),
    ensures
        0 <= j < rm.len(),
        !has_key(lm, rm[j].0),
        d.path == p.push(Step::Field(rm[j].0)),
        d.path[p.len() as int] == Step::Field(rm[j].0),
{
}

proof fn lemma_left_pass_distinct(
    lm: Seq<(Seq<char>, Json)>,
    rm: Seq<(Seq<char>, Json)>,
    p: Seq<Step>,
    n: int,
)
    requires
        unique_keys(lm),
        unique_keys(rm),
        forall|i: int| 0 <= i < lm.len() ==> #[trigger] wf(lm[i].1),
        forall|i: int| 0 <= i < rm.len() ==> #[trigger] wf(rm[i].1),
        0 <= n <= lm.len(),
    ensures
        left_pass(lm, rm, p, n).no_duplicates(),
    decreases lm, n,
{
    if n > 0 {
        lemma_left_pass_distinct(lm, rm, p, n - 1);
        let a = left_pass(lm, rm, p, n - 1);
        let b = left_entry(lm, rm, p, n - 1);
        let k = lm[n - 1].0;
        if has_key(rm, k) {
            assert(decreases_to!(lm => lm[n - 1]));
            lemma_compare_distinct(lm[n - 1].1, rm[key_pos(rm, k)].1, p.push(Step::Field(k)));
        }
        assert forall|d: Record| a.contains(d) implies !b.contains(d) by {
            lemma_left_pass_contains(lm, rm, p, n - 1, d);
            let i = choose|i: int| 0 <= i < n - 1 && #[trigger] left_entry(lm, rm, p, i).contains(d);
            lemma_left_entry_extends(lm, rm, p, i, d);
            if b.contains(d) {
                lemma_left_entry_extends(lm, rm, p, n - 1, d);
                assert(lm[i].0 == lm[n - 1].0);
            }
        }
        lemma_concat_no_duplicates(a, b);
    }
}

proof fn lemma_right_pass_distinct(
    lm: Seq<(Seq<char>, Json)>,
    rm: Seq<(Seq<char>, Json)>,
    p: Seq<Step>,
    n: int,
)
    requires
        unique_keys(rm),
        0 <= n <= rm.len(),
    ensures
        right_pass(lm, rm, p, n).no_duplicates(),
    decreases n,
{
    if n > 0 {
        lemma_right_pass_distinct(lm, rm, p, n - 1);
        let a = right_pass(lm, rm, p, n - 1);
        let b = right_entry(lm, rm, p, n - 1);
        assert forall|d: Record| a.contains(d) implies !b.contains(d) by {
            lemma_right_pass_contains(lm, rm, p, n - 1, d);
            let j = choose|j: int| 0 <= j < n - 1 && #[trigger] right_entry(lm, rm, p, j).contains(d);
            lemma_right_entry_path(lm, rm, p, j, d);
            if b.contains(d) {
                lemma_right_entry_path(lm, rm, p, n - 1, d);
                assert(rm[j].0 == rm[n - 1].0);
            }
        }
        lemma_concat_no_duplicates(a, b);
    }
}

proof fn lemma_pair_pass_distinct(la: Seq<Json>, ra: Seq<Json>, p: Seq<Step>, n: int)
    requires
        forall|i: int| 0 <= i < la.len() ==> #[trigger] wf(la[i]),
        forall|i: int| 0 <= i < ra.len() ==> #[trigger] wf(ra[i]),
        0 <= n <= la.len(),
        n <= ra.len(),
    ensures
        pair_pass(la, ra, p, n).no_duplicates(),
        forall|d: Record| #[trigger] pair_pass(la, ra, p, n).contains(d) ==> d.path.len() > p.len(),
    decreases la, n,
{
    if n > 0 {
        lemma_pair_pass_distinct(la, ra, p, n - 1);
        let a = pair_pass(la, ra, p, n - 1);
        let q = p.push(Step::Index((n - 1) as nat));
        let b = diffs(la[n - 1], ra[n - 1], q);
        assert(decreases_to!(la => la[n - 1]));
        lemma_compare_distinct(la[n - 1], ra[n - 1], q);
        assert forall|d: Record| a.contains(d) implies !b.contains(d) by {
            lemma_pair_pass_contains(la, ra, p, n - 1, d);
            let i = choose|i: int|
                0 <= i < n - 1 && #[trigger] diffs(la[i], ra[i], p.push(Step::Index(i as nat))).contains(d);
            lemma_paths_extend(la[i], ra[i], p.push(Step::Index(i as nat)), d);
            lemma_extends_push(p, Step::Index(i as nat), d.path);
            if b.contains(d) {
                lemma_paths_extend(la[n - 1], ra[n - 1], q, d);
                lemma_extends_push(p, Step::Index((n - 1) as nat), d.path);
            }
        }
        lemma_concat_no_duplicates(a, b);
        assert forall|d: Record| #[trigger] pair_pass(la, ra, p, n).contains(d) implies d.path.len()
            > p.len() by {
            lemma_concat_contains(a, b, d);
            if b.contains(d) {
                lemma_paths_extend(la[n - 1], ra[n - 1], q, d);
            }
        }
    }
}

/// A comparison of well-formed documents never gives the same record twice:
/// each difference is reported exactly once.
pub proof fn lemma_compare_distinct(l: Json, r: Json, p: Seq<Step>)
    requires
        wf(l),
        wf(r),
    ensures
        diffs(l, r, p).no_duplicates(),
    decreases l, 0int,
{
    match (l, r) {
        (Json::Obj(lm), Json::Obj(rm)) => {
            lemma_wf_obj(lm);
            lemma_wf_obj(rm);
            let a = left_pass(lm, rm, p, lm.len() as int);
            let b = right_pass(lm, rm, p, rm.len() as int);
            lemma_left_pass_distinct(lm, rm, p, lm.len() as int);
            lemma_right_pass_distinct(lm, rm, p, rm.len() as int);
            assert forall|d: Record| a.contains(d) implies !b.contains(d) by {
                lemma_left_pass_contains(lm, rm, p, lm.len() as int, d);
                let i = choose|i: int|
                    0 <= i < lm.len() && #[trigger] left_entry(lm, rm, p, i).contains(d);
                lemma_left_entry_extends(lm, rm, p, i, d);
                if b.contains(d) {
                    lemma_right_pass_contains(lm, rm, p, rm.len() as int, d);
                    let j = choose|j: int|
                        0 <= j < rm.len() && #[trigger] right_entry(lm, rm, p, j).contains(d);
                    lemma_right_entry_path(lm, rm, p, j, d);
                    assert(lm[i].0 == rm[j].0);
                    assert(has_key(lm, rm[j].0));
                }
            }
            lemma_concat_no_duplicates(a, b);
            assert(diffs(l, r, p) == a + b);
        },
        (Json::Arr(la), Json::Arr(ra)) => {
            lemma_wf_arr(la);
            lemma_wf_arr(ra);
            let n = if la.len() <= ra.len() { la.len() as int } else { ra.len() as int };
            let a = pair_pass(la, ra, p, n);
            let b = length_summary(la.len(), ra.len(), p);
            lemma_pair_pass_distinct(la, ra, p, n);
            assert forall|d: Record| a.contains(d) implies !b.contains(d) by {
                if b.contains(d) {
                    assert(b[0] == d);
                }
            }
            lemma_concat_no_duplicates(a, b);
            assert(diffs(l, r, p) == a + b);
        },
        _ => {},
    }
}

} // verus!
