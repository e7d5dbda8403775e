use lazy_ref::Invoke;
use lazy_ref::Producer;
use std::cell::Cell;
use std::rc::Rc;

#[test]
fn producer_hands_out_what_the_closure_returns() {
    let p = Producer::new(|| 6 * 7);
    assert_eq!(p.invoke(), 42);
}

#[test]
fn producer_runs_nothing_until_invoked() {
    let c = Rc::new(Cell::new(0u32));
    let hits = c.clone();
    let p = Producer::new(move || {
        hits.set(hits.get() + 1);
        String::from("done")
    });
    assert_eq!(c.get(), 0);
    assert_eq!(p.invoke(), "done");
    assert_eq!(c.get(), 1);
}

#[test]
fn producer_moves_its_captures_out() {
    let owned = vec![1u8, 2, 3];
    let p = Producer::new(move || owned);
    assert_eq!(p.invoke(), vec![1u8, 2, 3]);
}

#[test]
fn boxed_closure_is_invoked_by_value() {
    let c = Rc::new(Cell::new(0u32));
    let hits = c.clone();
    let f = Box::new(move || {
        hits.set(hits.get() + 1);
        5u32
    });
    assert_eq!(Invoke::invoke(f), 5);
    assert_eq!(c.get(), 1);
}

#[test]
fn trait_object_is_invoked_by_value() {
    let f: Box<dyn Invoke<u32>> = Box::new(|| 11u32);
    assert_eq!(f.invoke(), 11);
}

struct Fixed(u32);

impl Invoke<u32> for Fixed {
    fn invoke(self: Box<Self>) -> u32 {
        self.0
    }
}

#[test]
fn hand_written_computation_is_invoked_by_value() {
    let f: Box<dyn Invoke<u32>> = Box::new(Fixed(3));
    assert_eq!(f.invoke(), 3);
}
