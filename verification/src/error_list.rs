//! A list of errors collected while the application works.
//!
//! Each error is filed under a caller-chosen category together with its
//! message. The list only grows until it is cleared; presentation (grouping
//! by category, rendering) is the caller's business.

use vstd::prelude::*;

verus! {

/// Errors filed so far, each under a category of type `C`.
pub struct ErrorList<C> {
    errors: Vec<(C, String)>,
}

impl<C> View for ErrorList<C> {
    type V = Seq<(C, String)>;

    closed spec fn view(&self) -> Seq<(C, String)> {
        self.errors@
    }
}

impl<C> ErrorList<C> {
    /// Files `error` under `category`.
    pub fn add(&mut self, category: C, error: String)
        ensures
            final(self)@ == old(self)@.push((category, error)),
    {
        self.errors.push((category, error));
    }

    /// True iff any error was filed since the last clear.
    pub fn has_errors(&self) -> (r: bool)
        ensures
            r == (self@.len() > 0),
    {
        self.errors.len() > 0
    }

    /// Drops every filed error.
    pub fn clear(&mut self)
        ensures
            final(self)@ == Seq::<(C, String)>::empty(),
    {
        self.errors.clear();
        proof {
            assert(self.errors@ =~= Seq::<(C, String)>::empty());
        }
    }

    /// The filed errors, in the order they were added.
    pub fn entries(&self) -> (r: &Vec<(C, String)>)
        ensures
            r@ == self@,
    {
        &self.errors
    }
}

impl<C> Default for ErrorList<C> {
    /// An empty error list.
    fn default() -> (r: Self)
        ensures
            r@ == Seq::<(C, String)>::empty(),
    {
        let v: Vec<(C, String)> = Vec::new();
        proof {
            assert(v@ =~= Seq::<(C, String)>::empty());
        }
        ErrorList { errors: v }
    }
}

} // verus!
