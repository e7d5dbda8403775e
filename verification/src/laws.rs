//! What holds of forcing, whatever the thunks compute.

use crate::lazy::ForceError;
use crate::lazy::Inner;
use crate::lazy::Lazy;
use crate::lazy::LazyResult;
use crate::model::cached;
use crate::model::forces;
use crate::model::lemma_forces_advances;
use crate::model::lemma_forces_resolves;
use crate::model::lemma_pending_update;
use crate::model::lemma_update_sound;
use crate::model::links;
use crate::model::owns;
use crate::model::pending;
use crate::model::settles;
use crate::model::well_formed;
use vstd::prelude::*;

verus! {

/// A thunk that has been forced is never computed again: forcing it once
/// more, through the handle as it was or as it is bound now, runs nothing,
/// changes no cell and arrives at the same cell.
pub proof fn law_memoization<T>(
    a: Seq<Inner<T>>,
    t: Lazy<T>,
    b: Seq<Inner<T>>,
    k: Lazy<T>,
    h: Lazy<T>,
    c: Seq<Inner<T>>,
    res: Result<Lazy<T>, ForceError>,
)
    requires
        well_formed(a),
        forces(a, t, b, Ok(k)),
        h == t || h == k,
        forces(b, h, c, res),
    ensures
        b[t@] !is Unevaluated,
        c == b,
        pending(c) == pending(b),
        res == Ok::<Lazy<T>, ForceError>(k),
{
    lemma_forces_resolves(a, t, b, Ok(k));
}

/// A thunk made from a value holds that value from the start: forcing it runs
/// nothing and reads the value back.
pub proof fn law_eager_equivalence<T>(
    a: Seq<Inner<T>>,
    v: T,
    t: Lazy<T>,
    b: Seq<Inner<T>>,
    res: Result<Lazy<T>, ForceError>,
)
    requires
        t@ == a.len(),
        forces(a.push(Inner::Evaluated(v)), t, b, res),
    ensures
        b == a.push(Inner::Evaluated(v)),
        pending(b) == pending(a),
        res == Ok::<Lazy<T>, ForceError>(t),
        cached(b, t) == Some(v),
{
    assert(a.push(Inner::Evaluated(v)).drop_last() =~= a);
}

/// Every observation after the first arrives at the cell that the first one
/// arrived at and reads the value that the first one read.
pub proof fn law_idempotent_observation<T>(
    a: Seq<Inner<T>>,
    t: Lazy<T>,
    b: Seq<Inner<T>>,
    k: Lazy<T>,
    h: Lazy<T>,
    c: Seq<Inner<T>>,
    k2: Lazy<T>,
)
    requires
        well_formed(a),
        forces(a, t, b, Ok(k)),
        h == t || h == k,
        forces(b, h, c, Ok(k2)),
    ensures
        k2 == k,
        cached(b, k) is Some,
        cached(c, k2) == cached(b, k),
        cached(c, t) == cached(b, k),
{
    lemma_forces_resolves(a, t, b, Ok(k));
}

/// Handles that name the same cell share what is computed: once one of them
/// has been forced, forcing the other runs nothing and reads the same value.
pub proof fn law_clone_sharing<T>(
    a: Seq<Inner<T>>,
    t: Lazy<T>,
    t2: Lazy<T>,
    b: Seq<Inner<T>>,
    k: Lazy<T>,
    c: Seq<Inner<T>>,
    res: Result<Lazy<T>, ForceError>,
)
    requires
        well_formed(a),
        t2@ == t@,
        forces(a, t, b, Ok(k)),
        forces(b, t2, c, res),
    ensures
        c == b,
        res matches Ok(k2) && cached(c, k2) == cached(b, k) && cached(b, k) is Some,
        cached(b, t2) == cached(b, k),
{
    lemma_forces_resolves(a, t, b, Ok(k));
}

/// The cell of `t` waits, and its computation can yield nothing but `r`.
pub open spec fn only_yields<T>(a: Seq<Inner<T>>, t: Lazy<T>, r: LazyResult<T>) -> bool {
    &&& owns(a, t)
    &&& a[t@] matches Inner::Unevaluated(p) && forall|x: LazyResult<T>| #[trigger]
        p.yields(x) ==> x == r
}

/// The first observation of a thunk whose computation has the value `v` runs
/// that one computation, stores `v` in the cell and reads it; no other cell
/// changes.
pub proof fn law_first_observation<T>(
    a: Seq<Inner<T>>,
    t: Lazy<T>,
    v: T,
    b: Seq<Inner<T>>,
    res: Result<Lazy<T>, ForceError>,
)
    requires
        only_yields(a, t, LazyResult::Value(v)),
        forces(a, t, b, res),
    ensures
        res == Ok::<Lazy<T>, ForceError>(t),
        b == a.update(t@, Inner::Evaluated(v)),
        cached(b, t) == Some(v),
        pending(b) + 1 == pending(a),
{
    lemma_pending_update(a, t@, Inner::Evaluated(v));
}

/// A thunk whose computation redirects to `u` takes the value of `u`: forcing
/// it forces `u` and links the cell to the cell that holds the value.  From
/// then on, forcing either of them runs nothing.
pub proof fn law_redirect<T>(
    a: Seq<Inner<T>>,
    t: Lazy<T>,
    u: Lazy<T>,
    b: Seq<Inner<T>>,
    k: Lazy<T>,
    h: Lazy<T>,
    c: Seq<Inner<T>>,
    res: Result<Lazy<T>, ForceError>,
)
    requires
        well_formed(a),
        only_yields(a, t, LazyResult::Redirect(u)),
        forces(a, t, b, Ok(k)),
        h == t || h == u || h == k,
        forces(b, h, c, res),
    ensures
        b[t@] == Inner::Redirect(k),
        cached(b, t) is Some,
        cached(b, t) == cached(b, u),
        c == b,
        res == Ok::<Lazy<T>, ForceError>(k),
{
    let p = a[t@]->Unevaluated_0;
    let a1 = a.update(t@, Inner::EvaluationInProgress);
    let r = choose|r: LazyResult<T>| #[trigger] p.yields(r) && settles(a1, t, r, b, Ok(k));
    let (m, ru) = choose|m: Seq<Inner<T>>, ru: Result<Lazy<T>, ForceError>|
        forces(a1, u, m, ru) && #[trigger] links(m, t, ru, b, Ok(k));
    lemma_update_sound(a, t@, Inner::EvaluationInProgress);
    lemma_forces_resolves(a1, u, m, ru);
    lemma_forces_advances(a1, u, m, ru);
    assert(m[t@] == a1[t@]);
}

/// Whether one of the handles `ts` names the cell `i`.
pub open spec fn on_path<T>(ts: Seq<Lazy<T>>, i: int) -> bool {
    exists|j: int| 0 <= j < ts.len() && #[trigger] ts[j]@ == i
}

/// The handles `ts` form a path in the cells `a`: there is at least one,
/// their cells differ, and each one but the last waits and can only redirect
/// to the next.
pub open spec fn path<T>(a: Seq<Inner<T>>, ts: Seq<Lazy<T>>) -> bool {
    &&& ts.len() > 0
    &&& forall|i: int, j: int| 0 <= i < j < ts.len() ==> ts[i]@ != ts[j]@
    &&& forall|j: int|
        0 <= j < ts.len() - 1 ==> only_yields(a, #[trigger] ts[j], LazyResult::Redirect(ts[j + 1]))
}

/// A path that ends in a thunk whose computation can only yield the value
/// `v`.
pub open spec fn chain<T>(a: Seq<Inner<T>>, ts: Seq<Lazy<T>>, v: T) -> bool {
    &&& path(a, ts)
    &&& only_yields(a, ts.last(), LazyResult::Value(v))
}

/// A path that leads back into an evaluation that is under way: its last
/// thunk can only redirect to `u`, whose cell is on the path or is being
/// evaluated already.
pub open spec fn cycle<T>(a: Seq<Inner<T>>, ts: Seq<Lazy<T>>, u: Lazy<T>) -> bool {
    &&& path(a, ts)
    &&& only_yields(a, ts.last(), LazyResult::Redirect(u))
    &&& on_path(ts, u@) || (owns(a, u) && a[u@] is EvaluationInProgress)
}

/// The cells `a` with every cell on the path `ts` marked as being evaluated.
pub open spec fn marked<T>(a: Seq<Inner<T>>, ts: Seq<Lazy<T>>) -> Seq<Inner<T>> {
    Seq::new(
        a.len(),
        |i: int|
            if on_path(ts, i) {
                Inner::EvaluationInProgress
            } else {
                a[i]
            },
    )
}

/// Once the head of a path of several thunks is marked, the rest is a path
/// that does not touch the head, and the last thunk waits as before.
proof fn lemma_path_tail<T>(a: Seq<Inner<T>>, ts: Seq<Lazy<T>>)
    requires
        path(a, ts),
        ts.len() > 1,
    ensures
        path(a.update(ts[0]@, Inner::EvaluationInProgress), ts.drop_first()),
        ts.drop_first()[0] == ts[1],
        ts.drop_first().last() == ts.last(),
        owns(a, ts.last()) ==> a.update(ts[0]@, Inner::EvaluationInProgress)[ts.last()@]
            == a[ts.last()@],
        forall|i: int| on_path(ts, i) <==> i == ts[0]@ || on_path(ts.drop_first(), i),
        !on_path(ts.drop_first(), ts[0]@),
{
    let a1 = a.update(ts[0]@, Inner::EvaluationInProgress);
    let rest = ts.drop_first();
    assert forall|j: int| 0 <= j < rest.len() implies #[trigger] rest[j] == ts[j + 1] by {}
    assert forall|j: int| 0 <= j < rest.len() - 1 implies only_yields(
        a1,
        #[trigger] rest[j],
        LazyResult::Redirect(rest[j + 1]),
    ) by {
        assert(only_yields(a, ts[j + 1], LazyResult::Redirect(ts[j + 2])));
    }
    assert forall|i: int| on_path(ts, i) implies i == ts[0]@ || on_path(rest, i) by {
        let j = choose|j: int| 0 <= j < ts.len() && #[trigger] ts[j]@ == i;
        if j > 0 {
            assert(rest[j - 1]@ == i);
        }
    }
    assert forall|i: int| i == ts[0]@ || on_path(rest, i) implies on_path(ts, i) by {
        if i == ts[0]@ {
            assert(ts[0]@ == i);
        } else {
            let j = choose|j: int| 0 <= j < rest.len() && #[trigger] rest[j]@ == i;
            assert(ts[j + 1]@ == i);
        }
    }
    if on_path(rest, ts[0]@) {
        let j = choose|j: int| 0 <= j < rest.len() && #[trigger] rest[j]@ == ts[0]@;
        assert(ts[j + 1]@ == ts[0]@);
    }
}

/// Forcing the head of a chain runs each computation of the chain once, stores
/// the value in the last cell and links every other cell of the chain directly
/// to it; no other cell changes.  From then on every thunk of the chain is
/// read without running anything, in one step.
pub proof fn law_chain_collapsing<T>(
    a: Seq<Inner<T>>,
    ts: Seq<Lazy<T>>,
    v: T,
    b: Seq<Inner<T>>,
    res: Result<Lazy<T>, ForceError>,
)
    requires
        chain(a, ts, v),
        forces(a, ts[0], b, res),
    ensures
        res == Ok::<Lazy<T>, ForceError>(ts.last()),
        b.len() == a.len(),
        b[ts.last()@] == Inner::Evaluated(v),
        forall|j: int| 0 <= j < ts.len() - 1 ==> b[#[trigger] ts[j]@] == Inner::Redirect(ts.last()),
        forall|i: int| 0 <= i < a.len() && !on_path(ts, i) ==> #[trigger] b[i] == a[i],
        pending(b) + ts.len() == pending(a),
        forall|j: int, c: Seq<Inner<T>>, r: Result<Lazy<T>, ForceError>|
            0 <= j < ts.len() && #[trigger] forces(b, ts[j], c, r) ==> c == b && r == Ok::<
                Lazy<T>,
                ForceError,
            >(ts.last()),
    decreases ts.len(),
{
    let t = ts[0];
    let p = a[t@]->Unevaluated_0;
    let a1 = a.update(t@, Inner::EvaluationInProgress);
    let r = choose|r: LazyResult<T>| #[trigger] p.yields(r) && settles(a1, t, r, b, res);
    lemma_pending_update(a, t@, Inner::EvaluationInProgress);
    assert(on_path(ts, ts[0]@));
    if ts.len() == 1 {
        lemma_pending_update(a1, t@, Inner::Evaluated(v));
    } else {
        let rest = ts.drop_first();
        let (m, ru) = choose|m: Seq<Inner<T>>, ru: Result<Lazy<T>, ForceError>|
            forces(a1, ts[1], m, ru) && #[trigger] links(m, t, ru, b, res);
        lemma_path_tail(a, ts);
        law_chain_collapsing(a1, rest, v, m, ru);
        assert(m[t@] == a1[t@]);
        lemma_pending_update(m, t@, Inner::Redirect(ts.last()));
        assert forall|j: int| 0 <= j < ts.len() - 1 implies b[#[trigger] ts[j]@] == Inner::Redirect(
            ts.last(),
        ) by {
            if j > 0 {
                assert(ts[j] == rest[j - 1]);
            }
        }
    }
}

/// A computation that asks for the value of its own thunk, directly or
/// through other thunks, is found out: forcing fails as recursive, no value
/// is made up, and every cell on the way stays marked.  Forcing any of them
/// again fails in the same way.
pub proof fn law_reentrant_forcing<T>(
    a: Seq<Inner<T>>,
    ts: Seq<Lazy<T>>,
    u: Lazy<T>,
    b: Seq<Inner<T>>,
    res: Result<Lazy<T>, ForceError>,
)
    requires
        cycle(a, ts, u),
        forces(a, ts[0], b, res),
    ensures
        res == Err::<Lazy<T>, ForceError>(ForceError::Recursive),
        b == marked(a, ts),
        forall|j: int, c: Seq<Inner<T>>, r: Result<Lazy<T>, ForceError>|
            0 <= j < ts.len() && #[trigger] forces(b, ts[j], c, r) ==> c == b && r == Err::<
                Lazy<T>,
                ForceError,
            >(ForceError::Recursive),
    decreases ts.len(),
{
    let t = ts[0];
    let p = a[t@]->Unevaluated_0;
    let a1 = a.update(t@, Inner::EvaluationInProgress);
    let r = choose|r: LazyResult<T>| #[trigger] p.yields(r) && settles(a1, t, r, b, res);
    assert(on_path(ts, ts[0]@));
    if ts.len() == 1 {
        let (m, ru) = choose|m: Seq<Inner<T>>, ru: Result<Lazy<T>, ForceError>|
            forces(a1, u, m, ru) && #[trigger] links(m, t, ru, b, res);
        assert forall|i: int| on_path(ts, i) implies i == t@ by {}
        assert(marked(a, ts) =~= a1);
    } else {
        let rest = ts.drop_first();
        let (m, ru) = choose|m: Seq<Inner<T>>, ru: Result<Lazy<T>, ForceError>|
            forces(a1, ts[1], m, ru) && #[trigger] links(m, t, ru, b, res);
        lemma_path_tail(a, ts);
        law_reentrant_forcing(a1, rest, u, m, ru);
        assert(marked(a1, rest) =~= marked(a, ts));
    }
    assert forall|j: int, c: Seq<Inner<T>>, r: Result<Lazy<T>, ForceError>|
        0 <= j < ts.len() && #[trigger] forces(b, ts[j], c, r) implies c == b && r == Err::<
            Lazy<T>,
            ForceError,
        >(ForceError::Recursive) by {
        assert(on_path(ts, ts[j]@));
    }
}

} // verus!
