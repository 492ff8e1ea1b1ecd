//! A JSON path: an ordered sequence of steps, where each step is either a
//! key name or an array index.
//!
//! Appending must be cheap and non-mutating (the traversal appends one step
//! per token and every recursive call keeps its own copy), so the step
//! sequence is held in a persistent vector with structural sharing.

use vstd::prelude::*;

verus! {

/// One step in a JSON path: an object key or an array index.
#[derive(Debug, Clone, PartialEq, Eq)]
pub enum Step {
    Key(String),
    Index(u64),
}

/// The mathematical value of a step: the key's characters, or the index.
pub enum StepView {
    Key(Seq<char>),
    Index(u64),
}

impl View for Step {
    type V = StepView;

    open spec fn view(&self) -> StepView {
        match self {
            Step::Key(s) => StepView::Key(s@),
            Step::Index(n) => StepView::Index(*n),
        }
    }
}

impl DeepView for Step {
    type V = StepView;

    open spec fn deep_view(&self) -> StepView {
        self.view()
    }
}

impl Step {
    /// An equal copy of this step.
    pub fn duplicate(&self) -> (r: Step)
        ensures
            r == *self,
    {
        match self {
            Step::Key(s) => Step::Key(s.clone()),
            Step::Index(n) => Step::Index(*n),
        }
    }

    /// The step after this one in the same array.
    pub fn plusone(&self) -> (r: Step)
        requires
            self is Index,
            self->Index_0 < u64::MAX,
        ensures
            r == Step::Index((self->Index_0 + 1) as u64),
    {
        match self {
            Step::Key(_) => unreached(),
            Step::Index(v) => Step::Index(*v + 1),
        }
    }

    /// The index step displaced by `offset`, in either direction.
    pub fn offset(&self, offset: i64) -> (r: Step)
        requires
            self is Index,
            0 <= self->Index_0 + offset <= u64::MAX,
        ensures
            r == Step::Index((self->Index_0 + offset) as u64),
    {
        match self {
            Step::Key(_) => unreached(),
            Step::Index(v) => {
                if offset >= 0 {
                    Step::Index(*v + (offset as u64))
                } else {
                    let mag: u64 = (-(offset as i128)) as u64;
                    Step::Index(*v - mag)
                }
            },
        }
    }
}

/// An immutable sequence of steps with O(1)-amortized, non-mutating append.
///
/// The steps live in an `rpds::Vector`, a persistent vector: `append`
/// returns a new path that shares structure with the old one, which stays
/// untouched.
#[verifier::external_body]
pub struct JsonPath {
    inner: rpds::Vector<Step>,
}

/// The sequence of steps a path holds, front to back.
pub uninterp spec fn path_steps(p: JsonPath) -> Seq<Step>;

impl JsonPath {
    /// The empty path.
    ///
    /// Relies on `rpds::Vector::new`: the new vector holds no elements.
    #[verifier::external_body]
    pub fn new() -> (p: JsonPath)
        ensures
            path_steps(p) == Seq::<Step>::empty(),
    {
        JsonPath { inner: rpds::Vector::new() }
    }

    /// A new path with `step` appended; `self` is unchanged.
    ///
    /// Relies on `rpds::Vector::push_back`: the returned vector holds the
    /// old elements in order followed by the new one, and the receiver is
    /// not mutated.
    #[verifier::external_body]
    pub fn append(&self, step: Step) -> (q: JsonPath)
        ensures
            path_steps(q) == path_steps(*self).push(step),
    {
        JsonPath { inner: self.inner.push_back(step) }
    }

    /// How many steps the path holds.
    ///
    /// Relies on `rpds::Vector::len`.
    #[verifier::external_body]
    pub fn len(&self) -> (n: usize)
        ensures
            n == path_steps(*self).len(),
    {
        self.inner.len()
    }

    /// An equal copy of this path, sharing structure with it.
    ///
    /// Relies on `rpds::Vector`'s `Clone`: the clone holds the same
    /// elements.
    #[verifier::external_body]
    pub fn duplicate(&self) -> (q: JsonPath)
        ensures
            path_steps(q) == path_steps(*self),
    {
        JsonPath { inner: self.inner.clone() }
    }

    /// The steps as a plain vector, front to back.
    ///
    /// Relies on `rpds::Vector::iter`: elements come out in insertion
    /// order; each is cloned into the result.
    #[verifier::external_body]
    pub fn to_steps(&self) -> (v: Vec<Step>)
        ensures
            v@ == path_steps(*self),
    {
        self.inner.iter().cloned().collect()
    }
}

/// A copy of `steps` with `last` appended at the back.
pub fn append_step(steps: &Vec<Step>, last: Step) -> (r: Vec<Step>)
    ensures
        r@ == steps@.push(last),
{
    let mut more_steps: Vec<Step> = Vec::new();
    let mut i: usize = 0;
    while i < steps.len()
        invariant
            i <= steps@.len(),
            more_steps@ == steps@.subrange(0, i as int),
        decreases steps@.len() - i,
    {
        more_steps.push(steps[i].duplicate());
        i = i + 1;
        proof {
            assert(more_steps@ =~= steps@.subrange(0, i as int));
        }
    }
    proof {
        assert(steps@.subrange(0, steps@.len() as int) =~= steps@);
    }
    more_steps.push(last);
    more_steps
}

} // verus!
