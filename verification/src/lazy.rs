//! Thunks, the cells they share and the arena that owns the cells.

use crate::model::forces;
use crate::model::lemma_forces_advances;
use crate::model::lemma_pending_update;
use crate::model::lemma_update_sound;
use crate::model::links;
use crate::model::owns;
use crate::model::pending;
use crate::model::settles;
use crate::model::well_formed;
use crate::producer::Producer;
use core::marker::PhantomData;
use vstd::prelude::*;

verus! {

/// A handle to a lazily computed value of type `T`.
///
/// A handle names one cell of an [`Arena`].  Clones of a handle name the same
/// cell, so whatever one of them forces is there for all of them.
#[derive(Debug)]
pub struct Lazy<T> {
    cell: usize,
    marker: PhantomData<T>,
}

/// What a deferred computation hands back: the value itself, or another thunk
/// whose value is to be taken in its place.
#[derive(Debug)]
pub enum LazyResult<T> {
    Value(T),
    Redirect(Lazy<T>),
}

/// The state of one cell.
///
/// A cell starts as `Evaluated` or `Unevaluated`.  An unevaluated cell is
/// `EvaluationInProgress` while its computation runs and becomes `Evaluated` or
/// `Redirect` when it has run; it never goes back.
#[verifier::reject_recursive_types(T)]
pub enum Inner<T> {
    /// The value is there.
    Evaluated(T),
    /// The computation has been taken out and has not come back with a result.
    EvaluationInProgress,
    /// Nothing has run yet; the cell owns its computation.
    Unevaluated(Producer<LazyResult<T>>),
    /// The value is the one of another, evaluated, cell.
    Redirect(Lazy<T>),
}

/// Why a thunk could not be forced.
#[derive(Clone, Copy, Debug, PartialEq, Eq, Structural)]
pub enum ForceError {
    /// The cell is being evaluated: its own computation asked for its value, or
    /// an earlier evaluation of it failed.
    Recursive,
    /// The handle, or the thunk a computation redirected to, names no cell of
    /// this arena.
    Dangling,
}

/// The cells that a family of thunks share.
#[verifier::reject_recursive_types(T)]
pub struct Arena<T> {
    cells: Vec<Inner<T>>,
}

impl<T> View for Lazy<T> {
    type V = int;

    /// The index of the cell that the handle names.
    closed spec fn view(&self) -> int {
        self.cell as int
    }
}

impl<T> View for Arena<T> {
    type V = Seq<Inner<T>>;

    /// The cells, in the order in which they were made.
    closed spec fn view(&self) -> Seq<Inner<T>> {
        self.cells@
    }
}

impl<T> Clone for Lazy<T> {
    /// A second handle to the same cell.  Nothing is evaluated.
    fn clone(&self) -> (t: Lazy<T>)
        ensures
            t == *self,
    {
        Lazy { cell: self.cell, marker: PhantomData }
    }
}

impl<T> Arena<T> {
    /// The invariant that every operation keeps.
    pub open spec fn wf(&self) -> bool {
        well_formed(self@)
    }

    /// An arena without cells.
    pub fn new() -> (arena: Arena<T>)
        ensures
            arena@ == Seq::<Inner<T>>::empty(),
            arena.wf(),
    {
        Arena { cells: Vec::new() }
    }

    /// The number of cells.
    pub fn len(&self) -> (n: usize)
        ensures
            n == self@.len(),
    {
        self.cells.len()
    }

    /// Takes the computation out of the waiting cell `i`, which is marked as
    /// being evaluated from then on.
    fn take(&mut self, i: usize) -> (p: Producer<LazyResult<T>>)
        requires
            i < old(self)@.len(),
            old(self)@[i as int] is Unevaluated,
        ensures
            old(self)@[i as int] == Inner::Unevaluated(p),
            final(self)@ == old(self)@.update(i as int, Inner::EvaluationInProgress),
    {
        let mut cell = Inner::EvaluationInProgress;
        core::mem::swap(&mut self.cells[i], &mut cell);
        match cell {
            Inner::Unevaluated(p) => p,
            _ => unreached(),
        }
    }

    /// Appends a cell and hands out the handle that names it.
    fn insert(&mut self, cell: Inner<T>) -> (t: Lazy<T>)
        ensures
            final(self)@ == old(self)@.push(cell),
            t@ == old(self)@.len(),
    {
        let t = Lazy { cell: self.cells.len(), marker: PhantomData };
        self.cells.push(cell);
        t
    }
}

impl<T> Lazy<T> {
    /// A thunk that will run `producer` when it is first forced.
    ///
    /// Nothing runs now: the arena gains one waiting cell, which owns the
    /// computation, and the other cells stay as they are.
    pub fn new<F>(arena: &mut Arena<T>, producer: F) -> (t: Lazy<T>) where
        F: FnOnce() -> LazyResult<T> + 'static,

        requires
            old(arena).wf(),
            producer.requires(()),
        ensures
            final(arena).wf(),
            t@ == old(arena)@.len(),
            final(arena)@ == old(arena)@.push(final(arena)@[t@]),
            final(arena)@[t@] matches Inner::Unevaluated(p) && p.ready() && forall|
                r: LazyResult<T>,
            | #[trigger] p.yields(r) <==> producer.ensures((), r),
    {
        arena.insert(Inner::Unevaluated(Producer::new(producer)))
    }

    /// A thunk that already holds `val`.  Forcing it runs nothing.
    pub fn evaluated(arena: &mut Arena<T>, val: T) -> (t: Lazy<T>)
        requires
            old(arena).wf(),
        ensures
            final(arena).wf(),
            t@ == old(arena)@.len(),
            final(arena)@ == old(arena)@.push(Inner::Evaluated(val)),
    {
        arena.insert(Inner::Evaluated(val))
    }

    /// The index of the cell that the handle names.
    pub fn cell(&self) -> (i: usize)
        ensures
            i == self@,
    {
        self.cell
    }

    /// The state of the cell that the handle names, if the arena has it.
    pub fn inner<'a>(&self, arena: &'a Arena<T>) -> (c: Option<&'a Inner<T>>)
        ensures
            owns(arena@, *self) ==> c == Some(&arena@[self@]),
            !owns(arena@, *self) ==> c is None,
    {
        if self.cell < arena.cells.len() {
            Some(&arena.cells[self.cell])
        } else {
            None
        }
    }

    /// Makes sure that the value is there, running what has to run.
    ///
    /// On success the handle is bound to a cell that holds the value, so that
    /// the next access is direct.  On failure the handle is left as it was, and
    /// every cell whose computation had started stays marked as being
    /// evaluated: a computation runs at most once, so there is nothing to try
    /// again, and forcing such a cell fails from then on.  The same holds of a
    /// cell whose computation panicked, since the computation is taken out of
    /// the cell before it runs.
    pub fn force(&mut self, arena: &mut Arena<T>) -> (r: Result<(), ForceError>)
        requires
            old(arena).wf(),
        ensures
            final(arena).wf(),
            forces(
                old(arena)@,
                *old(self),
                final(arena)@,
                match r {
                    Ok(_) => Ok(*final(self)),
                    Err(e) => Err(e),
                },
            ),
            final(arena)@.len() == old(arena)@.len(),
            r is Ok ==> owns(final(arena)@, *final(self))
                && final(arena)@[final(self)@] is Evaluated,
            r is Err ==> *final(self) == *old(self),
        decreases pending(old(arena)@), 0int,
    {
        let i: usize = self.cell;
        if i >= arena.cells.len() {
            return Err(ForceError::Dangling);
        }
        match &arena.cells[i] {
            Inner::Evaluated(_) => {
                return Ok(());
            },
            Inner::EvaluationInProgress => {
                return Err(ForceError::Recursive);
            },
            Inner::Redirect(t) => {
                let t = t.clone();
                self.redirect(t);
                return Ok(());
            },
            Inner::Unevaluated(_) => {},
        }
        let producer = arena.take(i);
        let result = producer.invoke();
        proof {
            lemma_pending_update(old(arena)@, i as int, Inner::EvaluationInProgress);
            lemma_update_sound(old(arena)@, i as int, Inner::EvaluationInProgress);
        }
        self.settle(arena, result)
    }

    /// Forces the thunk and hands out its value.
    ///
    /// The first call runs what has to run; every later call, through this
    /// handle or a clone of it, reads the same cell again.
    pub fn deref<'a>(&mut self, arena: &'a mut Arena<T>) -> (r: Result<&'a T, ForceError>)
        requires
            old(arena).wf(),
        ensures
            final(arena).wf(),
            forces(
                old(arena)@,
                *old(self),
                final(arena)@,
                match r {
                    Ok(_) => Ok(*final(self)),
                    Err(e) => Err(e),
                },
            ),
            final(arena)@.len() == old(arena)@.len(),
            r matches Ok(v) ==> owns(final(arena)@, *final(self)) && final(arena)@[final(self)@]
                == Inner::Evaluated(*v),
            r is Err ==> *final(self) == *old(self),
    {
        match self.force(arena) {
            Ok(()) => match &arena.cells[self.cell] {
                Inner::Evaluated(val) => Ok(val),
                _ => unreached(),
            },
            Err(e) => Err(e),
        }
    }

    /// Installs what the computation of the marked cell has yielded.
    ///
    /// A value is stored.  A redirect has its target forced first; then the
    /// cell is made to redirect to the cell that holds the value, and the
    /// handle is bound to that cell.
    fn settle(&mut self, arena: &mut Arena<T>, result: LazyResult<T>) -> (r: Result<
        (),
        ForceError,
    >)
        requires
            old(arena).wf(),
            owns(old(arena)@, *old(self)),
            old(arena)@[old(self)@] is EvaluationInProgress,
        ensures
            final(arena).wf(),
            settles(
                old(arena)@,
                *old(self),
                result,
                final(arena)@,
                match r {
                    Ok(_) => Ok(*final(self)),
                    Err(e) => Err(e),
                },
            ),
            final(arena)@.len() == old(arena)@.len(),
            r is Ok ==> owns(final(arena)@, *final(self))
                && final(arena)@[final(self)@] is Evaluated,
            r is Err ==> *final(self) == *old(self),
        decreases pending(old(arena)@), 1int,
    {
        let i: usize = self.cell;
        match result {
            LazyResult::Value(x) => {
                arena.cells.set(i, Inner::Evaluated(x));
                proof {
                    lemma_update_sound(old(arena)@, i as int, Inner::Evaluated(x));
                }
                Ok(())
            },
            LazyResult::Redirect(t) => {
                let mut t = t;
                let ghost u = t;
                match t.force(arena) {
                    Ok(()) => {
                        proof {
                            let m = arena@;
                            lemma_forces_advances(old(arena)@, u, m, Ok(t));
                            lemma_update_sound(m, i as int, Inner::Redirect(t));
                            assert(links(
                                m,
                                *old(self),
                                Ok(t),
                                m.update(i as int, Inner::Redirect(t)),
                                Ok(t),
                            ));
                        }
                        arena.cells.set(i, Inner::Redirect(t.clone()));
                        self.redirect(t);
                        Ok(())
                    },
                    Err(e) => {
                        proof {
                            assert(links(arena@, *old(self), Err(e), arena@, Err(e)));
                        }
                        Err(e)
                    },
                }
            },
        }
    }

    /// Binds the handle to the cell of `t`.
    pub fn redirect(&mut self, t: Lazy<T>)
        ensures
            *final(self) == t,
    {
        self.cell = t.cell;
    }
}

/// A thunk that holds `v` from the start.
pub fn strict<T>(arena: &mut Arena<T>, v: T) -> (t: Lazy<T>)
    requires
        old(arena).wf(),
    ensures
        final(arena).wf(),
        t@ == old(arena)@.len(),
        final(arena)@ == old(arena)@.push(Inner::Evaluated(v)),
{
    Lazy::evaluated(arena, v)
}

/// The result of a computation that defers to the thunk `t`.
pub fn redirect<T>(t: Lazy<T>) -> (r: LazyResult<T>)
    ensures
        r == LazyResult::Redirect(t),
{
    LazyResult::Redirect(t)
}

/// The result of a computation that has the value `v`.
pub fn value<T>(v: T) -> (r: LazyResult<T>)
    ensures
        r == LazyResult::Value(v),
{
    LazyResult::Value(v)
}

} // verus!
