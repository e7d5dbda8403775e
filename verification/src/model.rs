//! What forcing means, stated over the sequence of cells.
//!
//! The cells of an arena are seen as a `Seq<Inner<T>>` and a handle as the
//! index of its cell.  A computation is seen through what it may yield, so
//! forcing is a relation between the cells before and the cells after, not a
//! function: [`forces`] holds of every outcome that running the computations
//! of the cells may have.

use crate::lazy::ForceError;
use crate::lazy::Inner;
use crate::lazy::Lazy;
use crate::lazy::LazyResult;
use vstd::prelude::*;

verus! {

/// Whether `t` names a cell of `a`.
pub open spec fn owns<T>(a: Seq<Inner<T>>, t: Lazy<T>) -> bool {
    0 <= t@ < a.len()
}

/// How many cells still own a computation that has not run.
pub open spec fn pending<T>(a: Seq<Inner<T>>) -> nat
    decreases a.len(),
{
    if a.len() == 0 {
        0
    } else {
        pending(a.drop_last()) + if a.last() is Unevaluated {
            1nat
        } else {
            0nat
        }
    }
}

/// What the invariant asks of one cell `c` among the cells `a`: a computation
/// that waits may be run, and a redirect leads in one step to a cell that
/// holds its value.
pub open spec fn sound<T>(a: Seq<Inner<T>>, c: Inner<T>) -> bool {
    match c {
        Inner::Unevaluated(p) => p.ready(),
        Inner::Redirect(t) => owns(a, t) && a[t@] is Evaluated,
        _ => true,
    }
}

/// The invariant of an arena: every cell is sound.
pub open spec fn well_formed<T>(a: Seq<Inner<T>>) -> bool {
    forall|i: int| 0 <= i < a.len() ==> sound(a, #[trigger] a[i])
}

/// The value that can be read through `t` without running anything, if there
/// is one.
pub open spec fn cached<T>(a: Seq<Inner<T>>, t: Lazy<T>) -> Option<T> {
    if !owns(a, t) {
        None
    } else {
        match a[t@] {
            Inner::Evaluated(v) => Some(v),
            Inner::Redirect(u) => if owns(a, u) {
                match a[u@] {
                    Inner::Evaluated(v) => Some(v),
                    _ => None,
                }
            } else {
                None
            },
            _ => None,
        }
    }
}

/// Forcing `t` in the cells `a` may leave the cells `b` and the outcome `res`:
/// the handle as it is bound afterwards, or the error.
///
/// A handle that names no cell fails.  A cell that holds its value, or
/// redirects, is left alone.  A cell that is being evaluated fails.  A cell
/// that waits is first marked as being evaluated; then its computation runs,
/// once, and what it yields is settled.
pub open spec fn forces<T>(
    a: Seq<Inner<T>>,
    t: Lazy<T>,
    b: Seq<Inner<T>>,
    res: Result<Lazy<T>, ForceError>,
) -> bool
    decreases pending(a), 0int,
    via forces_decreases::<T>
{
    if !owns(a, t) {
        b == a && res == Err::<Lazy<T>, ForceError>(ForceError::Dangling)
    } else {
        match a[t@] {
            Inner::Evaluated(_) => b == a && res == Ok::<Lazy<T>, ForceError>(t),
            Inner::EvaluationInProgress => b == a && res == Err::<Lazy<T>, ForceError>(
                ForceError::Recursive,
            ),
            Inner::Redirect(u) => b == a && res == Ok::<Lazy<T>, ForceError>(u),
            Inner::Unevaluated(p) => exists|r: LazyResult<T>| #[trigger]
                p.yields(r) && settles(a.update(t@, Inner::EvaluationInProgress), t, r, b, res),
        }
    }
}

/// The computation of the marked cell `t` has yielded `r` in the cells `a`;
/// settling it may leave the cells `b` and the outcome `res`.
///
/// A value is stored in the cell.  A redirect has its target forced in turn,
/// and then the cell is linked to what came of it.
pub open spec fn settles<T>(
    a: Seq<Inner<T>>,
    t: Lazy<T>,
    r: LazyResult<T>,
    b: Seq<Inner<T>>,
    res: Result<Lazy<T>, ForceError>,
) -> bool
    decreases pending(a), 1int,
{
    match r {
        LazyResult::Value(v) => b == a.update(t@, Inner::Evaluated(v)) && res == Ok::<
            Lazy<T>,
            ForceError,
        >(t),
        LazyResult::Redirect(u) => exists|m: Seq<Inner<T>>, ru: Result<Lazy<T>, ForceError>|
            forces(a, u, m, ru) && #[trigger] links(m, t, ru, b, res),
    }
}

/// Forcing the target of the marked cell `t` has left the cells `m` and the
/// outcome `ru`.  Where it succeeded, the cell is made to redirect to the cell
/// that holds the value; where it failed, the cell stays marked.
pub open spec fn links<T>(
    m: Seq<Inner<T>>,
    t: Lazy<T>,
    ru: Result<Lazy<T>, ForceError>,
    b: Seq<Inner<T>>,
    res: Result<Lazy<T>, ForceError>,
) -> bool {
    res == ru && match ru {
        Ok(k) => b == m.update(t@, Inner::Redirect(k)),
        Err(_) => b == m,
    }
}

#[via_fn]
proof fn forces_decreases<T>(
    a: Seq<Inner<T>>,
    t: Lazy<T>,
    b: Seq<Inner<T>>,
    res: Result<Lazy<T>, ForceError>,
) {
    if owns(a, t) && a[t@] is Unevaluated {
        lemma_pending_update(a, t@, Inner::EvaluationInProgress);
    }
}

/// How one cell may move from `c` to `d`: a cell that holds a value, redirects
/// or is being evaluated stays as it is; a cell that waits still waits, is
/// being evaluated, or holds what its computation yielded.
pub open spec fn steps<T>(c: Inner<T>, d: Inner<T>) -> bool {
    match c {
        Inner::Unevaluated(p) => {
            ||| d == c
            ||| d is EvaluationInProgress
            ||| d matches Inner::Evaluated(v) && p.yields(LazyResult::Value(v))
            ||| d is Redirect && exists|u: Lazy<T>| p.yields(LazyResult::Redirect(u))
        },
        _ => d == c,
    }
}

/// The cells `b` came from the cells `a`: there are as many, and each has
/// moved as a cell may.
pub open spec fn advances<T>(a: Seq<Inner<T>>, b: Seq<Inner<T>>) -> bool {
    &&& a.len() == b.len()
    &&& forall|i: int| 0 <= i < a.len() ==> steps(#[trigger] a[i], b[i])
}

/// After a successful force of `t` the handle `k` names a cell that holds the
/// value, and the cell of `t` is that cell or redirects to it.
pub open spec fn resolved<T>(b: Seq<Inner<T>>, t: Lazy<T>, k: Lazy<T>) -> bool {
    &&& owns(b, t)
    &&& owns(b, k)
    &&& b[k@] is Evaluated
    &&& k == t || b[t@] == Inner::Redirect(k)
}

/// Replacing one cell changes the count of waiting cells by what the old and
/// the new cell contribute.
pub proof fn lemma_pending_update<T>(a: Seq<Inner<T>>, i: int, c: Inner<T>)
    requires
        0 <= i < a.len(),
    ensures
        pending(a.update(i, c)) + (if a[i] is Unevaluated {
            1nat
        } else {
            0nat
        }) == pending(a) + (if c is Unevaluated {
            1nat
        } else {
            0nat
        }),
    decreases a.len(),
{
    let b = a.update(i, c);
    if i == a.len() - 1 {
        assert(b.drop_last() =~= a.drop_last());
    } else {
        assert(b.drop_last() =~= a.drop_last().update(i, c));
        lemma_pending_update(a.drop_last(), i, c);
    }
}

/// Replacing a cell that holds no value by a cell that is sound itself keeps
/// the invariant: no redirect led to the old cell.
pub proof fn lemma_update_sound<T>(a: Seq<Inner<T>>, i: int, c: Inner<T>)
    requires
        well_formed(a),
        0 <= i < a.len(),
        a[i] !is Evaluated || c is Evaluated,
        sound(a, c),
        c matches Inner::Redirect(k) ==> k@ != i,
    ensures
        well_formed(a.update(i, c)),
{
    let b = a.update(i, c);
    assert forall|j: int| 0 <= j < b.len() implies sound(b, #[trigger] b[j]) by {
        if j != i {
            assert(sound(a, a[j]));
        }
    }
}

/// Forcing only ever moves cells forward: what is settled stays as it is, and
/// what is being evaluated is left to the evaluation that marked it.
pub proof fn lemma_forces_advances<T>(
    a: Seq<Inner<T>>,
    t: Lazy<T>,
    b: Seq<Inner<T>>,
    res: Result<Lazy<T>, ForceError>,
)
    requires
        forces(a, t, b, res),
    ensures
        advances(a, b),
    decreases pending(a), 0int,
{
    if owns(a, t) {
        if let Inner::Unevaluated(p) = a[t@] {
            let a1 = a.update(t@, Inner::EvaluationInProgress);
            let r = choose|r: LazyResult<T>| #[trigger] p.yields(r) && settles(a1, t, r, b, res);
            lemma_pending_update(a, t@, Inner::EvaluationInProgress);
            lemma_settles_advances(a1, t, r, b, res);
            assert forall|i: int| 0 <= i < a.len() implies steps(#[trigger] a[i], b[i]) by {
                if i != t@ {
                    assert(steps(a1[i], b[i]));
                }
            }
        }
    }
}

/// Settling moves the marked cell to what was yielded, or leaves it marked,
/// and moves every other cell forward.
pub proof fn lemma_settles_advances<T>(
    a: Seq<Inner<T>>,
    t: Lazy<T>,
    r: LazyResult<T>,
    b: Seq<Inner<T>>,
    res: Result<Lazy<T>, ForceError>,
)
    requires
        owns(a, t),
        a[t@] is EvaluationInProgress,
        settles(a, t, r, b, res),
    ensures
        a.len() == b.len(),
        forall|i: int| 0 <= i < a.len() && i != t@ ==> steps(#[trigger] a[i], b[i]),
        match r {
            LazyResult::Value(v) => b[t@] == Inner::Evaluated(v),
            LazyResult::Redirect(_) => b[t@] is EvaluationInProgress || b[t@] is Redirect,
        },
    decreases pending(a), 1int,
{
    match r {
        LazyResult::Value(v) => {},
        LazyResult::Redirect(u) => {
            let (m, ru) = choose|m: Seq<Inner<T>>, ru: Result<Lazy<T>, ForceError>|
                forces(a, u, m, ru) && #[trigger] links(m, t, ru, b, res);
            lemma_forces_advances(a, u, m, ru);
            assert(steps(a[t@], m[t@]));
            assert forall|i: int| 0 <= i < a.len() && i != t@ implies steps(
                #[trigger] a[i],
                b[i],
            ) by {
                assert(b[i] == m[i]);
            }
        },
    }
}

/// Forcing keeps the invariant, and where it succeeds the thunk is resolved.
pub proof fn lemma_forces_resolves<T>(
    a: Seq<Inner<T>>,
    t: Lazy<T>,
    b: Seq<Inner<T>>,
    res: Result<Lazy<T>, ForceError>,
)
    requires
        well_formed(a),
        forces(a, t, b, res),
    ensures
        well_formed(b),
        res matches Ok(k) ==> resolved(b, t, k),
    decreases pending(a), 0int,
{
    if owns(a, t) {
        assert(sound(a, a[t@]));
        if let Inner::Unevaluated(p) = a[t@] {
            let a1 = a.update(t@, Inner::EvaluationInProgress);
            let r = choose|r: LazyResult<T>| #[trigger] p.yields(r) && settles(a1, t, r, b, res);
            lemma_pending_update(a, t@, Inner::EvaluationInProgress);
            lemma_update_sound(a, t@, Inner::EvaluationInProgress);
            lemma_settles_resolves(a1, t, r, b, res);
        }
    }
}

/// Settling keeps the invariant, and where it succeeds the thunk is resolved.
pub proof fn lemma_settles_resolves<T>(
    a: Seq<Inner<T>>,
    t: Lazy<T>,
    r: LazyResult<T>,
    b: Seq<Inner<T>>,
    res: Result<Lazy<T>, ForceError>,
)
    requires
        well_formed(a),
        owns(a, t),
        a[t@] is EvaluationInProgress,
        settles(a, t, r, b, res),
    ensures
        well_formed(b),
        res matches Ok(k) ==> resolved(b, t, k),
    decreases pending(a), 1int,
{
    match r {
        LazyResult::Value(v) => {
            lemma_update_sound(a, t@, Inner::Evaluated(v));
        },
        LazyResult::Redirect(u) => {
            let (m, ru) = choose|m: Seq<Inner<T>>, ru: Result<Lazy<T>, ForceError>|
                forces(a, u, m, ru) && #[trigger] links(m, t, ru, b, res);
            lemma_forces_resolves(a, u, m, ru);
            lemma_forces_advances(a, u, m, ru);
            assert(steps(a[t@], m[t@]));
            if let Ok(k) = ru {
                lemma_update_sound(m, t@, Inner::Redirect(k));
            }
        },
    }
}

} // verus!
