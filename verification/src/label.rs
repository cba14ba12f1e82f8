//! Labels: jump-target identities, and the generator of fresh ones.

use vstd::prelude::*;

verus! {

/// Numeric identity of a label.
pub type Id = usize;

/// Mathematical view of a label.
#[verifier::ext_equal]
pub enum LabelV {
    Regular(Id),
    Named(Seq<char>),
}

impl LabelV {
    /// The numeric identity carried by a `Regular` label.
    pub open spec fn id(self) -> Id
        recommends
            self is Regular,
    {
        match self {
            LabelV::Regular(id) => id,
            LabelV::Named(_) => 0,
        }
    }
}

/// A jump-target identity.  The two flavors occupy disjoint namespaces:
/// `Regular` carries a numeric identity assigned by an earlier phase, `Named`
/// a textual identity used transiently before numbering.
#[derive(Debug, Clone, PartialEq, Eq)]
pub enum Label {
    Regular(Id),
    Named(String),
}

impl DeepView for Label {
    type V = LabelV;

    open spec fn deep_view(&self) -> LabelV {
        match self {
            Label::Regular(id) => LabelV::Regular(*id),
            Label::Named(s) => LabelV::Named(s.view()),
        }
    }
}

/// Monotonic generator of fresh `Regular` label identities, scoped to one
/// compilation unit.  `next_regular` is its sole mutator.
#[derive(Debug, Clone, PartialEq, Eq)]
pub struct LabelGen {
    pub next: Id,
}

impl LabelGen {
    /// A generator whose first issued identity will be `start`.
    pub fn new(start: Id) -> (g: LabelGen)
        ensures
            g.next == start,
    {
        LabelGen { next: start }
    }

    /// Issues a fresh `Regular` label and advances the counter.
    pub fn next_regular(&mut self) -> (r: Label)
        requires
            old(self).next < usize::MAX,
        ensures
            final(self).next == old(self).next + 1,
            r == (Label::Regular(old(self).next)),
    {
        let id = self.next;
        self.next = self.next + 1;
        Label::Regular(id)
    }
}

} // verus!
