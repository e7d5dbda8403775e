//! Lazy, memoizing, shareable values.
//!
//! A [`Lazy`] is a handle to a cell that holds a deferred computation until it
//! is first observed and the computed value from then on.  Cells live in an
//! [`Arena`]; handles are indices into it, so any number of handles may share
//! one cell, and a handle can be rebound to another cell when the computation
//! turns out to defer to another thunk.
//!
//! The module [`model`] says what forcing does to the cells, and [`laws`]
//! proves what follows from it: that nothing is computed twice, that
//! redirects are followed and collapsed, and that a computation which asks
//! for its own value is found out.

pub mod laws;
pub mod lazy;
pub mod model;
pub mod producer;

pub use lazy::redirect;
pub use lazy::strict;
pub use lazy::value;
pub use lazy::Arena;
pub use lazy::ForceError;
pub use lazy::Inner;
pub use lazy::Lazy;
pub use lazy::LazyResult;
pub use producer::Invoke;
pub use producer::Producer;
