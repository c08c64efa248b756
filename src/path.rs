//! Addresses of locations inside a document.
use im::Vector;
use vstd::prelude::*;

verus! {

/// One step of a path: a field of an object or an index into an array.
#[derive(Clone, Debug, PartialEq, Eq, Hash)]
pub enum JsonType {
    Object(String),
    Array(usize),
}

/// The mathematical form of a step.
pub enum Step {
    Field(Seq<char>),
    Index(nat),
}

impl JsonType {
    pub open spec fn view(&self) -> Step {
        match self {
            JsonType::Object(s) => Step::Field(s@),
            JsonType::Array(i) => Step::Index(*i as nat),
        }
    }
}

/// im's persistent vector, which holds the steps of a path and shares them
/// between copies.
#[verifier::external_type_specification]
#[verifier::external_body]
#[verifier::reject_recursive_types(A)]
pub struct ExVector<A>(Vector<A>);

/// The steps that a persistent vector of steps holds, in order.
pub uninterp spec fn vector_steps(v: Vector<JsonType>) -> Seq<JsonType>;

/// Relies on `im::Vector::new`: a new vector is empty.
#[verifier::external_body]
fn steps_new() -> (r: Vector<JsonType>)
    ensures
        vector_steps(r) == Seq::<JsonType>::empty(),
{
    Vector::new()
}

/// Relies on `im::Vector::push_back`: the value is appended at the back.
#[verifier::external_body]
fn steps_push(v: &mut Vector<JsonType>, s: JsonType)
    ensures
        vector_steps(*final(v)) == vector_steps(*old(v)).push(s),
{
    v.push_back(s)
}

/// Relies on `im::Vector::clone`: the copy holds clones of the same steps
/// (the derived clone of a step copies its field name or index).
#[verifier::external_body]
fn steps_clone(v: &Vector<JsonType>) -> (r: Vector<JsonType>)
    ensures
        vector_steps(r) == vector_steps(*v),
{
    v.clone()
}

/// Relies on `im::Vector::len`: the number of steps held.
#[verifier::external_body]
fn steps_len(v: &Vector<JsonType>) -> (r: usize)
    ensures
        r == vector_steps(*v).len(),
{
    v.len()
}

/// Relies on `im::Vector::get`: the step at an index, or `None` past the end.
#[verifier::external_body]
fn steps_get(v: &Vector<JsonType>, i: usize) -> (r: Option<&JsonType>)
    ensures
        i < vector_steps(*v).len() ==> r == Some(&vector_steps(*v)[i as int]),
        i >= vector_steps(*v).len() ==> r is None,
{
    v.get(i)
}

/// The decimal text of an integer.
pub uninterp spec fn decimal_of(n: int) -> Seq<char>;

/// Relies on `i128`'s `to_string`: the decimal text of the integer.
#[verifier::external_body]
pub(crate) fn decimal_text(n: i128) -> (r: String)
    ensures
        r@ == decimal_of(n as int),
{
    n.to_string()
}

/// A location inside a document, as the sequence of steps from the root.
#[derive(Debug, PartialEq, Eq, Hash)]
pub struct JsonPath {
    path: Vector<JsonType>,
}

/// The text of one step, given whether it is the first of its path.
pub open spec fn step_text(s: Step, first: bool) -> Seq<char> {
    match s {
        Step::Field(name) => if first { name } else { seq!['.'] + name },
        Step::Index(i) => seq!['['] + decimal_of(i as int) + seq![']'],
    }
}

/// The text of a path: the first field bare, later fields after a dot,
/// indices in brackets (`baz.zed`, `array[2]`).
pub open spec fn path_text(p: Seq<Step>) -> Seq<char>
    decreases p.len(),
{
    if p.len() == 0 {
        Seq::empty()
    } else {
        path_text(p.drop_last()) + step_text(p.last(), p.len() == 1)
    }
}

impl JsonPath {
    pub closed spec fn view(&self) -> Seq<Step> {
        vector_steps(self.path).map_values(|s: JsonType| s@)
    }

    /// The root path, with no steps.
    pub fn new() -> (r: JsonPath)
        ensures
            r@ == Seq::<Step>::empty(),
    {
        let r = JsonPath { path: steps_new() };
        assert(r@ =~= Seq::<Step>::empty());
        r
    }

    /// Appends a field step.
    pub fn obj(&mut self, input: &str)
        ensures
            final(self)@ == old(self)@.push(Step::Field(input@)),
    {
        let s = JsonType::Object(input.to_owned());
        steps_push(&mut self.path, s);
        assert(self@ =~= old(self)@.push(Step::Field(input@)));
    }

    /// Appends an index step.
    pub fn array(&mut self, input: usize)
        ensures
            final(self)@ == old(self)@.push(Step::Index(input as nat)),
    {
        steps_push(&mut self.path, JsonType::Array(input));
        assert(self@ =~= old(self)@.push(Step::Index(input as nat)));
    }

    /// A copy of this path, sharing its steps.
    pub fn duplicate(&self) -> (r: JsonPath)
        ensures
            r@ == self@,
    {
        JsonPath { path: steps_clone(&self.path) }
    }

    /// The path with one more field step; `self` is left as it is.
    pub fn with_obj(&self, key: &str) -> (r: JsonPath)
        ensures
            r@ == self@.push(Step::Field(key@)),
    {
        let mut r = self.duplicate();
        r.obj(key);
        r
    }

    /// The path with one more index step; `self` is left as it is.
    pub fn with_array(&self, index: usize) -> (r: JsonPath)
        ensures
            r@ == self@.push(Step::Index(index as nat)),
    {
        let mut r = self.duplicate();
        r.array(index);
        r
    }

    /// The number of steps.
    pub fn len(&self) -> (r: usize)
        ensures
            r == self@.len(),
    {
        steps_len(&self.path)
    }

    /// The step at `i`.
    pub fn step(&self, i: usize) -> (r: &JsonType)
        requires
            i < self@.len(),
        ensures
            r@ == self@[i as int],
    {
        let r = steps_get(&self.path, i);
        r.unwrap()
    }

    /// The display text of the path.
    pub fn to_text(&self) -> (r: String)
        ensures
            r@ == path_text(self@),
    {
        let n = self.len();
        let mut out = String::new();
        let mut i: usize = 0;
        while i < n
            invariant
                n == self@.len(),
                i <= n,
                out@ == path_text(self@.subrange(0, i as int)),
            decreases n - i,
        {
            let ghost sub = self@.subrange(0, i as int + 1);
            assert(sub.drop_last() =~= self@.subrange(0, i as int));
            match self.step(i) {
                JsonType::Array(index) => {
                    let t = decimal_text(*index as i128);
                    out.append("[");
                    out.append(t.as_str());
                    out.append("]");
                },
                JsonType::Object(field) => {
                    if i > 0 {
                        out.append(".");
                    }
                    out.append(field.as_str());
                },
            }
            proof {
                reveal_strlit("[");
                reveal_strlit("]");
                reveal_strlit(".");
            }
            assert(out@ =~= path_text(sub));
            i = i + 1;
        }
        assert(self@.subrange(0, n as int) =~= self@);
        out
    }
}

} // verus!
