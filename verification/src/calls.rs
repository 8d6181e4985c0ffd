//! A function, and a record of what it has been called with.

use vstd::prelude::*;

verus! {

/// A function whose calls are recorded, by a path and what comes with it.
///
/// The function can only be reached through [`Recorded::call`].
pub struct Recorded<F, P, E> {
    f: F,
    calls: Ghost<Seq<(P, E)>>,
}

impl<F, P, E> Recorded<F, P, E> {
    /// The function.
    pub closed spec fn function(&self) -> F {
        self.f
    }

    /// What it has been called with so far.
    pub closed spec fn calls(&self) -> Seq<(P, E)> {
        self.calls@
    }

    /// A function that has not been called.
    pub fn new(f: F) -> (r: Recorded<F, P, E>)
        ensures
            r.function() == f,
            r.calls() == Seq::<(P, E)>::empty(),
    {
        Recorded { f, calls: Ghost(Seq::empty()) }
    }

    /// Calls the function once.
    ///
    /// The arguments are handed over as they are. Nothing is known of their types, so that they
    /// cannot be copied for a second call.
    pub fn call<A: DeepView<V = P>, B: DeepView<V = E>, C, R>(&mut self, a: A, b: B, c: C) -> (r: R)
        where F: FnMut(A, B, C) -> R
        requires
            call_requires(old(self).function(), (a, b, c)),
        ensures
            final(self).function() == old(self).function(),
            final(self).calls() == old(self).calls().push((a.deep_view(), b.deep_view())),
            call_ensures(old(self).function(), (a, b, c), r),
    {
        self.calls = Ghost(self.calls@.push((a.deep_view(), b.deep_view())));
        (self.f)(a, b, c)
    }
}

} // verus!
