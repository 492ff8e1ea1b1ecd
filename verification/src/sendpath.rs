//! A plain, owned copy of a path, suitable for moving into an event and
//! across a channel, and the canonical form used to group schema rows.

use vstd::prelude::*;
use crate::jsonpath::JsonPath;
use crate::jsonpath::Step;
use crate::jsonpath::StepView;
use crate::jsonpath::path_steps;

verus! {

/// A tree path optimised for sending: a plain vector of steps with no
/// structural sharing, so it can be moved to another thread.
#[derive(Debug, Clone, PartialEq, Eq)]
pub struct SendPath(pub Vec<Step>);

impl View for SendPath {
    type V = Seq<StepView>;

    open spec fn view(&self) -> Seq<StepView> {
        self.0.deep_view()
    }
}

impl SendPath {
    /// An owned copy of a shared path.
    pub fn from_json_path(p: &JsonPath) -> (r: SendPath)
        ensures
            r.0@ == path_steps(*p),
    {
        SendPath(p.to_steps())
    }

    /// An equal copy of this path.
    pub fn duplicate(&self) -> (r: SendPath)
        ensures
            r.0@ == self.0@,
            r@ == self@,
    {
        let mut steps: Vec<Step> = Vec::new();
        let mut i: usize = 0;
        while i < self.0.len()
            invariant
                i <= self.0@.len(),
                steps@ == self.0@.subrange(0, i as int),
            decreases self.0@.len() - i,
        {
            steps.push(self.0[i].duplicate());
            i = i + 1;
            proof {
                assert(steps@ =~= self.0@.subrange(0, i as int));
            }
        }
        proof {
            assert(self.0@.subrange(0, self.0@.len() as int) =~= self.0@);
        }
        SendPath(steps)
    }
}

/// The step-by-step mathematical value of a vector of steps.
pub open spec fn views_of(s: Seq<Step>) -> Seq<StepView> {
    s.map_values(|x: Step| x@)
}

/// The subsequence of `s` made of its `Key` steps, in order.
pub open spec fn keys_of(s: Seq<StepView>) -> Seq<StepView>
    decreases s.len(),
{
    if s.len() == 0 {
        Seq::<StepView>::empty()
    } else if s.last() is Key {
        keys_of(s.drop_last()).push(s.last())
    } else {
        keys_of(s.drop_last())
    }
}

/// Every step of `keys_of(s)` is a `Key` step.
pub proof fn lemma_keys_of_all_keys(s: Seq<StepView>)
    ensures
        forall|i: int| 0 <= i < keys_of(s).len() ==> keys_of(s)[i] is Key,
    decreases s.len(),
{
    if s.len() > 0 {
        lemma_keys_of_all_keys(s.drop_last());
    }
}

/// The canonical form of a path: every `Index` step is removed, and the
/// `Key` steps are kept in their original order.
pub fn canonicalize(p: &SendPath) -> (r: SendPath)
    ensures
        r@ == keys_of(p@),
{
    let mut steps: Vec<Step> = Vec::new();
    let mut i: usize = 0;
    while i < p.0.len()
        invariant
            i <= p.0@.len(),
            steps.deep_view() == keys_of(views_of(p.0@.subrange(0, i as int))),
        decreases p.0@.len() - i,
    {
        let ghost pre = views_of(p.0@.subrange(0, i as int));
        match &p.0[i] {
            Step::Key(k) => {
                steps.push(Step::Key(k.clone()));
            },
            Step::Index(_) => {},
        }
        i = i + 1;
        proof {
            let cur = views_of(p.0@.subrange(0, i as int));
            assert(cur.drop_last() =~= pre);
            assert(cur.last() == p.0@[i - 1]@);
            assert(steps.deep_view() =~= keys_of(cur));
        }
    }
    proof {
        assert(p.0@.subrange(0, p.0@.len() as int) =~= p.0@);
        assert(views_of(p.0@) =~= p@);
    }
    SendPath(steps)
}

/// Canonicalizing is idempotent: a canonical path is unchanged by a second
/// pass, because it holds `Key` steps only.
pub proof fn lemma_canonicalize_idempotent(s: Seq<StepView>)
    ensures
        keys_of(keys_of(s)) == keys_of(s),
    decreases s.len(),
{
    if s.len() > 0 {
        lemma_canonicalize_idempotent(s.drop_last());
        if s.last() is Key {
            assert(keys_of(s).drop_last() =~= keys_of(s.drop_last()));
        }
        assert(keys_of(keys_of(s)) =~= keys_of(s));
    } else {
        assert(keys_of(keys_of(s)) =~= keys_of(s));
    }
}

} // verus!
