//! The order of paths, and sorting differences by path.
use crate::diff::{records, Diff, Record};
use crate::path::{JsonPath, JsonType, Step};
use vstd::prelude::*;
use vstd::seq_lib::{
    group_to_multiset_ensures, to_multiset_contains, to_multiset_insert, to_multiset_remove,
};

verus! {

/// `a` comes strictly before `b` in lexicographic order of character codes.
pub open spec fn str_lt(a: Seq<char>, b: Seq<char>) -> bool
    decreases a.len(),
{
    if b.len() == 0 {
        false
    } else if a.len() == 0 {
        true
    } else if (a[0] as u32) < (b[0] as u32) {
        true
    } else if (b[0] as u32) < (a[0] as u32) {
        false
    } else {
        str_lt(a.drop_first(), b.drop_first())
    }
}

/// `a` comes strictly before `b`: fields before indices, fields by name,
/// indices by value.
pub open spec fn step_lt(a: Step, b: Step) -> bool {
    match (a, b) {
        (Step::Field(x), Step::Field(y)) => str_lt(x, y),
        (Step::Field(_), Step::Index(_)) => true,
        (Step::Index(_), Step::Field(_)) => false,
        (Step::Index(i), Step::Index(j)) => i < j,
    }
}

/// `a` comes no later than `b`: paths compare step by step, and a path
/// comes before the paths it is a prefix of.
pub open spec fn path_le(a: Seq<Step>, b: Seq<Step>) -> bool
    decreases a.len(),
{
    if a.len() == 0 {
        true
    } else if b.len() == 0 {
        false
    } else if step_lt(a[0], b[0]) {
        true
    } else if step_lt(b[0], a[0]) {
        false
    } else {
        path_le(a.drop_first(), b.drop_first())
    }
}

/// Any two paths are ordered one way or the other.
pub proof fn lemma_path_le_total(a: Seq<Step>, b: Seq<Step>)
    ensures
        path_le(a, b) || path_le(b, a),
    decreases a.len(),
{
    if a.len() > 0 && b.len() > 0 && !step_lt(a[0], b[0]) && !step_lt(b[0], a[0]) {
        lemma_path_le_total(a.drop_first(), b.drop_first());
    }
}

/// Whether `a` comes strictly before `b`.
fn str_less(a: &str, b: &str) -> (r: bool)
    ensures
        r == str_lt(a@, b@),
{
    let n = a.unicode_len();
    let m = b.unicode_len();
    let mut i: usize = 0;
    assert(a@.subrange(0, n as int) =~= a@ && b@.subrange(0, m as int) =~= b@);
    while i < n && i < m
        invariant
            n == a@.len(),
            m == b@.len(),
            i <= n,
            i <= m,
            str_lt(a@, b@) == str_lt(a@.subrange(i as int, n as int), b@.subrange(i as int, m as int)),
        decreases n - i,
    {
        let x = a.get_char(i);
        let y = b.get_char(i);
        let ghost sa = a@.subrange(i as int, n as int);
        let ghost sb = b@.subrange(i as int, m as int);
        assert(sa[0] == x && sb[0] == y);
        if (x as u32) < (y as u32) {
            return true;
        }
        if (y as u32) < (x as u32) {
            return false;
        }
        assert(sa.drop_first() =~= a@.subrange(i + 1, n as int));
        assert(sb.drop_first() =~= b@.subrange(i + 1, m as int));
        i = i + 1;
    }
    i < m
}

/// Whether step `a` comes strictly before step `b`.
fn step_less(a: &JsonType, b: &JsonType) -> (r: bool)
    ensures
        r == step_lt(a@, b@),
{
    match (a, b) {
        (JsonType::Object(x), JsonType::Object(y)) => str_less(x.as_str(), y.as_str()),
        (JsonType::Object(_), JsonType::Array(_)) => true,
        (JsonType::Array(_), JsonType::Object(_)) => false,
        (JsonType::Array(i), JsonType::Array(j)) => *i < *j,
    }
}

impl JsonPath {
    /// Whether this path comes no later than `other`.
    pub fn precedes(&self, other: &JsonPath) -> (r: bool)
        ensures
            r == path_le(self@, other@),
    {
        let n = self.len();
        let m = other.len();
        let mut i: usize = 0;
        assert(self@.subrange(0, n as int) =~= self@ && other@.subrange(0, m as int) =~= other@);
        while i < n && i < m
            invariant
                n == self@.len(),
                m == other@.len(),
                i <= n,
                i <= m,
                path_le(self@, other@) == path_le(
                    self@.subrange(i as int, n as int),
                    other@.subrange(i as int, m as int),
                ),
            decreases n - i,
        {
            let x = self.step(i);
            let y = other.step(i);
            let ghost sa = self@.subrange(i as int, n as int);
            let ghost sb = other@.subrange(i as int, m as int);
            assert(sa[0] == x@ && sb[0] == y@);
            if step_less(x, y) {
                return true;
            }
            if step_less(y, x) {
                return false;
            }
            assert(sa.drop_first() =~= self@.subrange(i + 1, n as int));
            assert(sb.drop_first() =~= other@.subrange(i + 1, m as int));
            i = i + 1;
        }
        i == n
    }
}

/// Each record's path comes no later than the next record's.
pub open spec fn sorted_by_path(s: Seq<Record>) -> bool {
    forall|i: int| 0 <= i < s.len() - 1 ==> #[trigger] path_le(s[i].path, s[i + 1].path)
}

proof fn lemma_records_insert(s: Seq<Diff>, j: int, x: Diff)
    requires
        0 <= j <= s.len(),
    ensures
        records(s.insert(j, x)) == records(s).insert(j, x@),
{
    assert(records(s.insert(j, x)) =~= records(s).insert(j, x@));
}

proof fn lemma_records_remove_first(s: Seq<Diff>)
    requires
        s.len() > 0,
    ensures
        records(s.remove(0)) == records(s).remove(0),
{
    assert(records(s.remove(0)) =~= records(s).remove(0));
}

/// The differences ordered by path. Records at equal paths keep their
/// order, so a sequence that is already ordered comes back as it was: sorting
/// twice gives what sorting once gave.
pub fn sort_diffs(diffs: Vec<Diff>) -> (r: Vec<Diff>)
    ensures
        sorted_by_path(records(r@)),
        records(r@).to_multiset() == records(diffs@).to_multiset(),
        sorted_by_path(records(diffs@)) ==> records(r@) == records(diffs@),
{
    broadcast use group_to_multiset_ensures, vstd::multiset::group_multiset_axioms;

    let ghost orig = records(diffs@);
    let mut rest = diffs;
    let mut out: Vec<Diff> = Vec::new();
    assert(records(out@) =~= Seq::<Record>::empty());
    assert(records(out@) + records(rest@) =~= orig);
    while rest.len() > 0
        invariant
            sorted_by_path(records(out@)),
            records(out@).to_multiset().add(records(rest@).to_multiset()) == orig.to_multiset(),
            sorted_by_path(orig) ==> records(out@) + records(rest@) == orig,
        decreases rest@.len(),
    {
        let ghost before = records(out@);
        let ghost pending = records(rest@);
        proof {
            lemma_records_remove_first(rest@);
            to_multiset_remove(pending, 0);
        }
        let x = rest.remove(0);
        assert(pending[0] == x@);
        proof {
            if sorted_by_path(orig) && before.len() > 0 {
                let b = before.len() as int;
                assert((before + pending)[b - 1] == before[b - 1]);
                assert((before + pending)[b] == x@);
                assert(path_le(orig[b - 1].path, orig[b - 1 + 1].path));
            }
        }
        let mut j = out.len();
        while j > 0 && !out[j - 1].path.precedes(&x.path)
            invariant
                j <= out@.len(),
                records(out@) == before,
                forall|k: int| j <= k < out@.len() ==> !path_le(#[trigger] before[k].path, x@.path),
                sorted_by_path(orig) && before.len() > 0 ==> path_le(
                    before[before.len() - 1].path,
                    x@.path,
                ),
                sorted_by_path(orig) ==> j == out@.len(),
            decreases j,
        {
            assert(before[j - 1] == out@[j - 1]@);
            j = j - 1;
        }
        proof {
            lemma_records_insert(out@, j as int, x);
            to_multiset_insert(before, j as int, x@);
        }
        let ghost xv = x@;
        out.insert(j, x);
        let ghost after = records(out@);
        assert(after == before.insert(j as int, xv));
        assert forall|k: int| 0 <= k < after.len() - 1 implies #[trigger] path_le(
            after[k].path,
            after[k + 1].path,
        ) by {
            if k + 1 < j {
                assert(after[k] == before[k] && after[k + 1] == before[k + 1]);
            } else if k + 1 == j {
                assert(after[k] == before[k] && after[k + 1] == xv);
                assert(before[k] == out@[k]@);
            } else if k == j {
                assert(after[k] == xv && after[k + 1] == before[k]);
                assert(!path_le(before[k].path, xv.path));
                lemma_path_le_total(before[k].path, xv.path);
            } else {
                assert(after[k] == before[k - 1] && after[k + 1] == before[k]);
                assert(path_le(before[k - 1].path, before[k - 1 + 1].path));
            }
        }
        assert(records(rest@) == pending.remove(0));
        assert(pending.contains(xv));
        proof {
            to_multiset_contains(pending, xv);
        }
        assert(records(rest@).to_multiset() == pending.to_multiset().remove(xv));
        assert(after.to_multiset() == before.to_multiset().insert(xv));
        assert(after.to_multiset().add(records(rest@).to_multiset()) =~= before.to_multiset().add(
            pending.to_multiset(),
        ));
        proof {
            if sorted_by_path(orig) {
                assert(after + records(rest@) =~= orig);
            }
        }
    }
    assert(records(rest@) =~= Seq::<Record>::empty());
    assert(records(out@) + records(rest@) =~= records(out@));
    assert(records(out@).to_multiset().add(records(rest@).to_multiset()) =~= records(out@).to_multiset());
    out
}

} // verus!
