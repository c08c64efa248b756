//! The document tree that the diff engine walks.
use vstd::prelude::*;

verus! {

/// A JSON number, held so that numerically equal numbers have one form:
/// integers as `Int` (or `UInt` above the range of `i64`), any other number
/// as its shortest decimal text.
#[derive(Debug, PartialEq, Eq, Hash)]
pub enum JsonNumber {
    Int(i64),
    UInt(u64),
    Decimal(String),
}

/// A parsed JSON document: a tree of objects, arrays and scalar leaves.
#[derive(Debug, PartialEq, Eq, Hash)]
pub enum JsonValue {
    Null,
    Bool(bool),
    Number(JsonNumber),
    String(String),
    Array(Vec<JsonValue>),
    Object(Vec<Member>),
}

/// One `key: value` entry of an object.
#[derive(Debug, PartialEq, Eq, Hash)]
pub struct Member {
    pub key: String,
    pub value: JsonValue,
}

/// The mathematical value of a document.
pub enum Json {
    Null,
    Bool(bool),
    Int(int),
    Decimal(Seq<char>),
    Str(Seq<char>),
    Arr(Seq<Json>),
    Obj(Seq<(Seq<char>, Json)>),
}

impl JsonValue {
    pub open spec fn view(&self) -> Json
        decreases self,
    {
        match self {
            JsonValue::Null => Json::Null,
            JsonValue::Bool(b) => Json::Bool(*b),
            JsonValue::Number(JsonNumber::Int(i)) => Json::Int(*i as int),
            JsonValue::Number(JsonNumber::UInt(u)) => Json::Int(*u as int),
            JsonValue::Number(JsonNumber::Decimal(d)) => Json::Decimal(d@),
            JsonValue::String(s) => Json::Str(s@),
            JsonValue::Array(items) => Json::Arr(
                Seq::new(items@.len(), |i: int|
                    if 0 <= i < items@.len() { items@[i].view() } else { Json::Null },),
            ),
            JsonValue::Object(members) => Json::Obj(
                Seq::new(members@.len(), |i: int|
                    if 0 <= i < members@.len() {
                        (members@[i].key@, members@[i].value.view())
                    } else {
                        (Seq::empty(), Json::Null)
                    },),
            ),
        }
    }
}

} // verus!

verus! {

/// Whether no two members of an object share a key.
pub open spec fn unique_keys(ms: Seq<(Seq<char>, Json)>) -> bool {
    forall|i: int, j: int|
        0 <= i < ms.len() && 0 <= j < ms.len() && i != j ==> #[trigger] ms[i].0 != #[trigger] ms[j].0
}

/// Whether an object holds `k` as a key.
pub open spec fn has_key(ms: Seq<(Seq<char>, Json)>, k: Seq<char>) -> bool {
    exists|i: int| 0 <= i < ms.len() && #[trigger] ms[i].0 == k
}

/// The position of key `k` in an object that holds it.
pub open spec fn key_pos(ms: Seq<(Seq<char>, Json)>, k: Seq<char>) -> int {
    choose|i: int| 0 <= i < ms.len() && #[trigger] ms[i].0 == k
}

/// A well-formed document: in every object, each key occurs once.
pub open spec fn wf(j: Json) -> bool
    decreases j, 0int,
{
    match j {
        Json::Arr(items) => items_wf(items, items.len() as int),
        Json::Obj(ms) => unique_keys(ms) && members_wf(ms, ms.len() as int),
        _ => true,
    }
}

/// Whether the first `n` elements are well formed.
pub open spec fn items_wf(items: Seq<Json>, n: int) -> bool
    decreases items, n,
{
    if n <= 0 || n > items.len() {
        true
    } else {
        items_wf(items, n - 1) && wf(items[n - 1])
    }
}

/// Whether the values of the first `n` members are well formed.
pub open spec fn members_wf(ms: Seq<(Seq<char>, Json)>, n: int) -> bool
    decreases ms, n,
{
    if n <= 0 || n > ms.len() {
        true
    } else {
        members_wf(ms, n - 1) && wf(ms[n - 1].1)
    }
}

proof fn lemma_items_wf(items: Seq<Json>, n: int)
    requires
        0 <= n <= items.len(),
    ensures
        items_wf(items, n) <==> forall|i: int| 0 <= i < n ==> #[trigger] wf(items[i]),
    decreases n,
{
    if n > 0 {
        lemma_items_wf(items, n - 1);
        assert(items_wf(items, n) == (items_wf(items, n - 1) && wf(items[n - 1])));
    }
}

proof fn lemma_members_wf(ms: Seq<(Seq<char>, Json)>, n: int)
    requires
        0 <= n <= ms.len(),
    ensures
        members_wf(ms, n) <==> forall|i: int| 0 <= i < n ==> #[trigger] wf(ms[i].1),
    decreases n,
{
    if n > 0 {
        lemma_members_wf(ms, n - 1);
        assert(members_wf(ms, n) == (members_wf(ms, n - 1) && wf(ms[n - 1].1)));
    }
}

/// In a well-formed object, the position of a key is the one that holds it.
pub proof fn lemma_key_pos(ms: Seq<(Seq<char>, Json)>, i: int)
    requires
        unique_keys(ms),
        0 <= i < ms.len(),
    ensures
        has_key(ms, ms[i].0),
        key_pos(ms, ms[i].0) == i,
{
    let k = ms[i].0;
    assert(ms[i].0 == k);
    let j = key_pos(ms, k);
    assert(ms[j].0 == k);
}

impl JsonValue {
    /// A copy of the whole tree.
    #[verifier::loop_isolation(false)]
    pub fn deep_copy(&self) -> (r: JsonValue)
        ensures
            r@ == self@,
        decreases self,
    {
        match self {
            JsonValue::Null => JsonValue::Null,
            JsonValue::Bool(b) => JsonValue::Bool(*b),
            JsonValue::Number(JsonNumber::Int(i)) => JsonValue::Number(JsonNumber::Int(*i)),
            JsonValue::Number(JsonNumber::UInt(u)) => JsonValue::Number(JsonNumber::UInt(*u)),
            JsonValue::Number(JsonNumber::Decimal(d)) => JsonValue::Number(
                JsonNumber::Decimal(d.clone()),
            ),
            JsonValue::String(s) => JsonValue::String(s.clone()),
            JsonValue::Array(items) => {
                let mut copy: Vec<JsonValue> = Vec::new();
                let mut i: usize = 0;
                while i < items.len()
                    invariant
                        i <= items@.len(),
                        copy@.len() == i,
                        forall|k: int| 0 <= k < i ==> #[trigger] copy@[k]@ == items@[k]@,
                    decreases items@.len() - i,
                {
                    proof {
                        assert(decreases_to!(items => items@[i as int]));
                    }
                    let c = items[i].deep_copy();
                    copy.push(c);
                    i = i + 1;
                }
                let r = JsonValue::Array(copy);
                assert(r@ == self@) by {
                    if let Json::Arr(a) = r@ {
                        if let Json::Arr(b) = self@ {
                            assert(a.len() == b.len());
                            assert forall|k: int| 0 <= k < a.len() implies a[k] == b[k] by {
                                assert(copy@[k]@ == items@[k]@);
                            }
                            assert(a =~= b);
                        }
                    }
                }
                r
            },
            JsonValue::Object(members) => {
                let mut copy: Vec<Member> = Vec::new();
                let mut i: usize = 0;
                while i < members.len()
                    invariant
                        i <= members@.len(),
                        copy@.len() == i,
                        forall|k: int|
                            0 <= k < i ==> (#[trigger] copy@[k]).key@ == members@[k].key@
                                && copy@[k].value@ == members@[k].value@,
                    decreases members@.len() - i,
                {
                    proof {
                        assert(decreases_to!(members => members@[i as int]));
                    }
                    let m = Member {
                        key: members[i].key.clone(),
                        value: members[i].value.deep_copy(),
                    };
                    copy.push(m);
                    i = i + 1;
                }
                let r = JsonValue::Object(copy);
                assert(r@ == self@) by {
                    if let Json::Obj(a) = r@ {
                        if let Json::Obj(b) = self@ {
                            assert(a.len() == b.len());
                            assert forall|k: int| 0 <= k < a.len() implies a[k] == b[k] by {
                                assert(copy@[k].key@ == members@[k].key@);
                            }
                            assert(a =~= b);
                        }
                    }
                }
                r
            },
        }
    }

    /// Equality by value of two documents that are not both objects and not
    /// both arrays: integers compare by numeric value, strings exactly.
    pub fn scalar_eq(&self, other: &JsonValue) -> (r: bool)
        requires
            !(self@ is Obj && other@ is Obj),
            !(self@ is Arr && other@ is Arr),
        ensures
            r == (self@ == other@),
    {
        match (self, other) {
            (JsonValue::Null, JsonValue::Null) => true,
            (JsonValue::Bool(a), JsonValue::Bool(b)) => *a == *b,
            (JsonValue::String(a), JsonValue::String(b)) => *a == *b,
            (JsonValue::Number(a), JsonValue::Number(b)) => match (a, b) {
                (JsonNumber::Int(x), JsonNumber::Int(y)) => *x == *y,
                (JsonNumber::UInt(x), JsonNumber::UInt(y)) => *x == *y,
                (JsonNumber::Int(x), JsonNumber::UInt(y)) => *x >= 0 && *x as u64 == *y,
                (JsonNumber::UInt(x), JsonNumber::Int(y)) => *y >= 0 && *y as u64 == *x,
                (JsonNumber::Decimal(x), JsonNumber::Decimal(y)) => *x == *y,
                _ => false,
            },
            _ => false,
        }
    }
}

} // verus!

verus! {

/// An object is well formed when its keys are unique and its values are well formed.
pub proof fn lemma_wf_obj(ms: Seq<(Seq<char>, Json)>)
    ensures
        wf(Json::Obj(ms)) <==> (unique_keys(ms) && forall|i: int|
            0 <= i < ms.len() ==> #[trigger] wf(ms[i].1)),
{
    lemma_members_wf(ms, ms.len() as int);
}

/// An array is well formed when its elements are.
pub proof fn lemma_wf_arr(items: Seq<Json>)
    ensures
        wf(Json::Arr(items)) <==> forall|i: int| 0 <= i < items.len() ==> #[trigger] wf(items[i]),
{
    lemma_items_wf(items, items.len() as int);
}

} // verus!

verus! {

/// Whether a key occurs among the members before position `n`.
fn key_among(ms: &Vec<Member>, n: usize, key: &String) -> (r: bool)
    requires
        n <= ms@.len(),
    ensures
        r == exists|j: int| 0 <= j < n && #[trigger] ms@[j].key@ == key@,
{
    let mut j: usize = 0;
    while j < n
        invariant
            n <= ms@.len(),
            j <= n,
            forall|i: int| 0 <= i < j ==> #[trigger] ms@[i].key@ != key@,
        decreases n - j,
    {
        if ms[j].key == *key {
            return true;
        }
        j = j + 1;
    }
    false
}

impl JsonValue {
    /// Whether the document is well formed: no object repeats a key.
    #[verifier::loop_isolation(false)]
    pub fn well_formed(&self) -> (r: bool)
        ensures
            r == wf(self@),
        decreases self,
    {
        match self {
            JsonValue::Array(items) => {
                let ghost iv = Seq::new(items@.len(), |k: int| items@[k]@);
                assert(self@ == Json::Arr(iv)) by {
                    assert(self@->Arr_0 =~= iv);
                }
                proof {
                    lemma_wf_arr(iv);
                }
                let mut i: usize = 0;
                while i < items.len()
                    invariant
                        i <= items@.len(),
                        forall|k: int| 0 <= k < i ==> #[trigger] wf(iv[k]),
                    decreases items@.len() - i,
                {
                    proof {
                        assert(decreases_to!(items => items@[i as int]));
                    }
                    if !items[i].well_formed() {
                        assert(!wf(iv[i as int]));
                        return false;
                    }
                    i = i + 1;
                }
                true
            },
            JsonValue::Object(ms) => {
                let ghost mv = Seq::new(ms@.len(), |k: int| (ms@[k].key@, ms@[k].value@));
                assert(self@ == Json::Obj(mv)) by {
                    assert(self@->Obj_0 =~= mv);
                }
                proof {
                    lemma_wf_obj(mv);
                }
                let mut i: usize = 0;
                while i < ms.len()
                    invariant
                        i <= ms@.len(),
                        forall|k: int| 0 <= k < i ==> #[trigger] wf(mv[k].1),
                        forall|a: int, b: int|
                            0 <= a < i && 0 <= b < i && a != b ==> #[trigger] mv[a].0 != #[trigger] mv[b].0,
                    decreases ms@.len() - i,
                {
                    proof {
                        assert(decreases_to!(ms => ms@[i as int]));
                    }
                    if key_among(ms, i, &ms[i].key) {
                        let ghost j = choose|j: int| 0 <= j < i && #[trigger] ms@[j].key@ == ms@[i as int].key@;
                        assert(mv[j].0 == mv[i as int].0);
                        return false;
                    }
                    if !ms[i].value.well_formed() {
                        assert(!wf(mv[i as int].1));
                        return false;
                    }
                    i = i + 1;
                }
                true
            },
            _ => true,
        }
    }
}

} // verus!
