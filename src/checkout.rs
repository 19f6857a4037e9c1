//! Choosing the ref a working copy is checked out at: candidates are tried in
//! order, and the first that resolves and checks out becomes HEAD. The git
//! operations are the caller's part; this module decides what comes next.

use vstd::prelude::*;
use vstd::string::*;

verus! {

/// The HEAD reference for a checked-out ref: under `refs/tags/` for a tag,
/// under `refs/remotes/` otherwise.
pub open spec fn head_ref_spec(name: Seq<char>, is_tag: bool) -> Seq<char> {
    if is_tag {
        "refs/tags/"@ + name
    } else {
        "refs/remotes/"@ + name
    }
}

/// The HEAD reference for the checked-out ref `name`.
pub fn head_ref_for(name: &str, is_tag: bool) -> (r: String)
    ensures
        r@ == head_ref_spec(name@, is_tag),
{
    if is_tag {
        String::from_str("refs/tags/").concat(name)
    } else {
        String::from_str("refs/remotes/").concat(name)
    }
}

/// What became of trying one candidate ref.
pub enum Probe {
    /// The ref does not resolve to an object in the repository.
    Unresolved,
    /// The ref resolved but its tree could not be checked out.
    CheckoutFailed,
    /// The tree was checked out; `is_tag` tells whether the object is a tag.
    CheckedOut { is_tag: bool },
}

/// What the caller does next.
pub enum CheckoutAction {
    /// Resolve this ref and check out its tree, then report with `record`.
    Try(String),
    /// Point HEAD at `head`; a failure here is fatal.
    SetHead { git_ref: String, head: String },
    /// No candidate could be checked out; HEAD stays as it was.
    NoMatchingRef,
}

/// The progress of one checkout.
pub struct Checkout {
    candidates: Vec<String>,
    next: usize,
}

impl Checkout {
    /// The refs to try, in order.
    pub closed spec fn candidates_view(&self) -> Seq<Seq<char>> {
        crate::source::names_of(self.candidates@)
    }

    /// The index of the candidate being tried.
    pub closed spec fn current(&self) -> nat {
        self.next as nat
    }

    /// The action to take for the candidate at index `i`.
    pub open spec fn try_at(&self, i: nat, a: CheckoutAction) -> bool {
        if i < self.candidates_view().len() {
            a matches CheckoutAction::Try(t) && t@ == self.candidates_view()[i as int]
        } else {
            a is NoMatchingRef
        }
    }

    /// Starts a checkout over `candidates`, and says what to do first.
    pub fn new(candidates: Vec<String>) -> (r: (Checkout, CheckoutAction))
        ensures
            r.0.candidates_view() == crate::source::names_of(candidates@),
            r.0.current() == 0,
            r.0.try_at(0, r.1),
    {
        let c = Checkout { candidates, next: 0 };
        let a = c.action_at_current();
        (c, a)
    }

    fn action_at_current(&self) -> (r: CheckoutAction)
        ensures
            self.try_at(self.current(), r),
    {
        if self.next < self.candidates.len() {
            CheckoutAction::Try(self.candidates[self.next].clone())
        } else {
            CheckoutAction::NoMatchingRef
        }
    }

    /// Records what became of the current candidate and says what to do next:
    /// after a checkout, point HEAD at it; after a failure, try the next one.
    pub fn record(&mut self, probe: Probe) -> (r: CheckoutAction)
        ensures
            final(self).candidates_view() == old(self).candidates_view(),
            match probe {
                Probe::CheckedOut { is_tag } => if old(self).current() < old(
                    self,
                ).candidates_view().len() {
                    &&& final(self).current() == old(self).current()
                    &&& r matches CheckoutAction::SetHead { git_ref, head }
                    &&& git_ref@ == old(self).candidates_view()[old(self).current() as int]
                    &&& head@ == head_ref_spec(git_ref@, is_tag)
                } else {
                    final(self).current() == old(self).current() && r is NoMatchingRef
                },
                _ => if old(self).current() < old(self).candidates_view().len() {
                    final(self).current() == old(self).current() + 1 && final(self).try_at(
                        final(self).current(),
                        r,
                    )
                } else {
                    final(self).current() == old(self).current() && r is NoMatchingRef
                },
            },
    {
        if self.next >= self.candidates.len() {
            return CheckoutAction::NoMatchingRef;
        }
        match probe {
            Probe::CheckedOut { is_tag } => {
                let git_ref = self.candidates[self.next].clone();
                let head = head_ref_for(git_ref.as_str(), is_tag);
                CheckoutAction::SetHead { git_ref, head }
            },
            _ => {
                self.next = self.next + 1;
                self.action_at_current()
            },
        }
    }
}

} // verus!
