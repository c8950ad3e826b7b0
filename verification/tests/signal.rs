use std::cell::RefCell;
use std::rc::Rc;

use signalkit::signal::{Observer, Signal, SignalCtx};

struct Recorder(Rc<RefCell<Vec<i32>>>);

impl Observer<i32> for Recorder {
    fn notify(&self, value: &i32, _ctx: &mut SignalCtx<i32>) {
        self.0.borrow_mut().push(*value);
    }
}

#[test]
fn observers_fire_on_change_not_on_register() {
    let mut s: Signal<i32, Recorder> = Signal::new(1);
    let seen = Rc::new(RefCell::new(Vec::new()));
    let _d = s.observe(Recorder(seen.clone()));
    assert!(seen.borrow().is_empty(), "observe must not fire immediately");
    s.set(2);
    s.set(3);
    assert_eq!(*seen.borrow(), vec![2, 3]);
}

#[test]
fn disposing_stops_delivery_and_removes_observer() {
    let mut s: Signal<i32, Recorder> = Signal::new(0);
    let seen = Rc::new(RefCell::new(Vec::new()));
    let d = s.observe(Recorder(seen.clone()));
    s.set(1);
    s.dispose(d);
    s.set(2);
    assert_eq!(*seen.borrow(), vec![1]);
    assert!(!s.is_observing(d));
}

struct WritesBack(Rc<RefCell<Vec<i32>>>);

impl Observer<i32> for WritesBack {
    fn notify(&self, value: &i32, ctx: &mut SignalCtx<i32>) {
        self.0.borrow_mut().push(*value);
        if *value < 3 {
            ctx.set(*value + 10);
            ctx.set(3);
        }
    }
}

#[test]
fn nested_writes_coalesce_to_one_followup() {
    let mut s: Signal<i32, WritesBack> = Signal::new(0);
    let seen = Rc::new(RefCell::new(Vec::new()));
    let _d = s.observe(WritesBack(seen.clone()));
    s.set(1);
    assert_eq!(*seen.borrow(), vec![1, 3]);
    assert_eq!(s.get(), 3);
}

struct DisposesSelf(Rc<RefCell<Vec<i32>>>);

impl Observer<i32> for DisposesSelf {
    fn notify(&self, value: &i32, ctx: &mut SignalCtx<i32>) {
        self.0.borrow_mut().push(*value);
        ctx.dispose_self();
    }
}

#[test]
fn observer_can_dispose_itself_during_delivery() {
    let mut s: Signal<i32, DisposesSelf> = Signal::new(0);
    let seen = Rc::new(RefCell::new(Vec::new()));
    let d = s.observe(DisposesSelf(seen.clone()));
    s.set(1);
    s.set(2);
    assert_eq!(*seen.borrow(), vec![1], "self-disposed after first fire");
    assert!(!s.is_observing(d));
}

struct Counter(Rc<RefCell<i32>>);

impl Observer<i32> for Counter {
    fn notify(&self, _value: &i32, _ctx: &mut SignalCtx<i32>) {
        *self.0.borrow_mut() += 1;
    }
}

#[test]
fn set_if_changed_suppresses_equal_writes() {
    let mut s: Signal<i32, Counter> = Signal::new(5);
    let count = Rc::new(RefCell::new(0));
    let _d = s.observe(Counter(count.clone()));
    s.set_if_changed(5);
    s.set_if_changed(6);
    s.set_if_changed(6);
    assert_eq!(*count.borrow(), 1);
}

#[test]
fn observers_are_notified_in_registration_order() {
    let mut s: Signal<i32, Recorder> = Signal::new(0);
    let seen = Rc::new(RefCell::new(Vec::new()));
    let first = Rc::new(RefCell::new(Vec::new()));
    let a = s.observe(Recorder(first.clone()));
    let b = s.observe(Recorder(seen.clone()));
    assert!(a < b);
    s.update(|v| v + 4);
    assert_eq!(*first.borrow(), vec![4]);
    assert_eq!(*seen.borrow(), vec![4]);
    assert_eq!(s.with(|v| *v * 2), 8);
    s.update_if_changed(|v| *v);
    assert_eq!(*seen.borrow(), vec![4]);
}

#[test]
fn set_without_observers_just_stores() {
    let mut s: Signal<i32, Counter> = Signal::new(1);
    s.set(9);
    assert_eq!(s.get(), 9);
}

/// Records what it sees under its name; when `victim` is set, disposes that
/// observer during its own callback.
struct Tagged {
    name: &'static str,
    log: Rc<RefCell<Vec<(&'static str, i32)>>>,
    victim: Option<u64>,
}

impl Observer<i32> for Tagged {
    fn notify(&self, value: &i32, ctx: &mut SignalCtx<i32>) {
        self.log.borrow_mut().push((self.name, *value));
        if let Some(v) = self.victim {
            ctx.dispose(v);
        }
    }
}

#[test]
fn an_observer_disposed_before_its_turn_is_skipped() {
    let mut s: Signal<i32, Tagged> = Signal::new(0);
    let log = Rc::new(RefCell::new(Vec::new()));
    let a = s.observe(Tagged { name: "a", log: log.clone(), victim: Some(1) });
    let b = s.observe(Tagged { name: "b", log: log.clone(), victim: None });
    let c = s.observe(Tagged { name: "c", log: log.clone(), victim: None });
    assert_eq!((a, b, c), (0, 1, 2));
    s.set(5);
    assert_eq!(*log.borrow(), vec![("a", 5), ("c", 5)]);
    assert!(s.is_observing(a) && !s.is_observing(b) && s.is_observing(c));
    assert_eq!(s.get(), 5);
}
