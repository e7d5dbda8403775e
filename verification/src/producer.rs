//! One-shot deferred computations.

use vstd::prelude::*;

verus! {

/// A computation that can be run once, by value, from inside a box.
///
/// Every closure that takes no argument is one: it is ready where its own
/// precondition holds, and it may yield whatever its own postcondition allows.
pub trait Invoke<T> {
    /// Whether the computation may be run.  Unless an implementation says
    /// otherwise, it may.
    open spec fn ready(&self) -> bool {
        true
    }

    /// Whether running the computation may produce `r`.  Unless an
    /// implementation says otherwise, it may produce anything.
    open spec fn yields(&self, r: T) -> bool {
        true
    }

    /// Runs the computation, consuming it.
    fn invoke(self: Box<Self>) -> (r: T)
        requires
            self.ready(),
        ensures
            self.yields(r),
    ;
}

impl<T, F: FnOnce() -> T> Invoke<T> for F {
    open spec fn ready(&self) -> bool {
        self.requires(())
    }

    open spec fn yields(&self, r: T) -> bool {
        self.ensures((), r)
    }

    fn invoke(self: Box<F>) -> (r: T) {
        let f = *self;
        f()
    }
}

/// An owned computation of a `T` whose concrete type has been forgotten.
///
/// It is consumed by the single call of [`Producer::invoke`], so it cannot run
/// twice.
#[verifier::reject_recursive_types(T)]
pub struct Producer<T> {
    inner: Box<dyn Invoke<T>>,
}

impl<T> Producer<T> {
    /// Whether the computation may be run.
    pub closed spec fn ready(&self) -> bool {
        self.inner.ready()
    }

    /// Whether running the computation may produce `r`.
    pub closed spec fn yields(&self, r: T) -> bool {
        self.inner.yields(r)
    }

    /// Wraps a closure, keeping its precondition and its postcondition.
    pub fn new<F: FnOnce() -> T + 'static>(f: F) -> (p: Producer<T>)
        ensures
            p.ready() <==> f.requires(()),
            forall|r: T| #[trigger] p.yields(r) <==> f.ensures((), r),
    {
        Producer { inner: Box::new(f) }
    }

    /// Runs the computation and hands out what it produced.
    pub fn invoke(self) -> (r: T)
        requires
            self.ready(),
        ensures
            self.yields(r),
    {
        self.inner.invoke()
    }
}

} // verus!
