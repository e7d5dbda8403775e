use lazy_ref::redirect;
use lazy_ref::strict;
use lazy_ref::value;
use lazy_ref::Arena;
use lazy_ref::ForceError;
use lazy_ref::Inner;
use lazy_ref::Lazy;
use std::cell::Cell;
use std::cell::RefCell;
use std::rc::Rc;

type Knot = Rc<RefCell<Option<Lazy<u32>>>>;

fn tied(arena: &mut Arena<u32>, hits: &Rc<Cell<u32>>, knot: &Knot) -> Lazy<u32> {
    let hits = hits.clone();
    let knot = knot.clone();
    Lazy::new(arena, move || {
        hits.set(hits.get() + 1);
        redirect(knot.borrow().clone().unwrap())
    })
}

#[test]
fn thunk_that_redirects_to_itself_is_recursive() {
    let c = Rc::new(Cell::new(0u32));
    let knot: Knot = Rc::new(RefCell::new(None));
    let mut arena: Arena<u32> = Arena::new();
    let mut t = tied(&mut arena, &c, &knot);
    *knot.borrow_mut() = Some(t.clone());
    assert_eq!(t.deref(&mut arena), Err(ForceError::Recursive));
    assert_eq!(c.get(), 1);
    assert_eq!(t.cell(), 0);
    assert!(matches!(t.inner(&arena), Some(Inner::EvaluationInProgress)));
}

#[test]
fn failed_thunk_keeps_failing_without_running_again() {
    let c = Rc::new(Cell::new(0u32));
    let knot: Knot = Rc::new(RefCell::new(None));
    let mut arena: Arena<u32> = Arena::new();
    let mut t = tied(&mut arena, &c, &knot);
    *knot.borrow_mut() = Some(t.clone());
    let mut other = t.clone();
    assert_eq!(t.force(&mut arena), Err(ForceError::Recursive));
    assert_eq!(t.force(&mut arena), Err(ForceError::Recursive));
    assert_eq!(other.deref(&mut arena), Err(ForceError::Recursive));
    assert_eq!(c.get(), 1);
}

#[test]
fn cycle_of_two_is_recursive() {
    let c = Rc::new(Cell::new(0u32));
    let knot: Knot = Rc::new(RefCell::new(None));
    let mut arena: Arena<u32> = Arena::new();
    let mut a = tied(&mut arena, &c, &knot);
    let back = a.clone();
    let mut b = Lazy::new(&mut arena, move || redirect(back));
    *knot.borrow_mut() = Some(b.clone());
    assert_eq!(a.deref(&mut arena), Err(ForceError::Recursive));
    assert_eq!(c.get(), 1);
    assert!(matches!(a.inner(&arena), Some(Inner::EvaluationInProgress)));
    assert!(matches!(b.inner(&arena), Some(Inner::EvaluationInProgress)));
    assert_eq!(b.deref(&mut arena), Err(ForceError::Recursive));
    assert_eq!((a.cell(), b.cell()), (0, 1));
}

#[test]
fn failure_of_the_target_reaches_the_redirecting_thunk() {
    let c = Rc::new(Cell::new(0u32));
    let knot: Knot = Rc::new(RefCell::new(None));
    let mut arena: Arena<u32> = Arena::new();
    let looped = tied(&mut arena, &c, &knot);
    *knot.borrow_mut() = Some(looped.clone());
    let target = looped.clone();
    let mut outer = Lazy::new(&mut arena, move || redirect(target));
    assert_eq!(outer.deref(&mut arena), Err(ForceError::Recursive));
    assert!(matches!(outer.inner(&arena), Some(Inner::EvaluationInProgress)));
    assert!(matches!(looped.inner(&arena), Some(Inner::EvaluationInProgress)));
    assert_eq!(outer.deref(&mut arena), Err(ForceError::Recursive));
    assert_eq!(c.get(), 1);
}

#[test]
fn handle_of_a_larger_arena_dangles() {
    let mut big: Arena<u32> = Arena::new();
    let _first = strict(&mut big, 1);
    let second = strict(&mut big, 2);
    let mut small: Arena<u32> = Arena::new();
    let _only = strict(&mut small, 3);
    let mut stray = second.clone();
    assert!(stray.inner(&small).is_none());
    assert_eq!(stray.force(&mut small), Err(ForceError::Dangling));
    assert_eq!(stray.deref(&mut small), Err(ForceError::Dangling));
    assert_eq!(stray.cell(), 1);
    assert_eq!(small.len(), 1);
}

#[test]
fn handle_into_an_empty_arena_dangles() {
    let mut full: Arena<u32> = Arena::new();
    let mut t = strict(&mut full, 1);
    let mut empty: Arena<u32> = Arena::new();
    assert_eq!(empty.len(), 0);
    assert_eq!(t.deref(&mut empty), Err(ForceError::Dangling));
}

#[test]
fn redirect_to_a_dangling_handle_fails_and_marks_the_cell() {
    let mut other: Arena<u32> = Arena::new();
    let _a = strict(&mut other, 1);
    let _b = strict(&mut other, 2);
    let stray = strict(&mut other, 3);
    let c = Rc::new(Cell::new(0u32));
    let hits = c.clone();
    let mut arena: Arena<u32> = Arena::new();
    let mut t = Lazy::new(&mut arena, move || {
        hits.set(hits.get() + 1);
        redirect(stray)
    });
    assert_eq!(t.deref(&mut arena), Err(ForceError::Dangling));
    assert!(matches!(t.inner(&arena), Some(Inner::EvaluationInProgress)));
    assert_eq!(t.cell(), 0);
    assert_eq!(t.deref(&mut arena), Err(ForceError::Recursive));
    assert_eq!(c.get(), 1);
}

#[test]
fn failure_leaves_other_thunks_usable() {
    let c = Rc::new(Cell::new(0u32));
    let knot: Knot = Rc::new(RefCell::new(None));
    let mut arena: Arena<u32> = Arena::new();
    let mut good = Lazy::new(&mut arena, || value(4));
    let mut bad = tied(&mut arena, &c, &knot);
    *knot.borrow_mut() = Some(bad.clone());
    assert_eq!(bad.deref(&mut arena), Err(ForceError::Recursive));
    assert!(matches!(good.inner(&arena), Some(Inner::Unevaluated(_))));
    assert_eq!(good.deref(&mut arena), Ok(&4));
}
