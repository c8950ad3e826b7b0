use std::cell::Cell;
use std::rc::Rc;

use signalkit::Disposable;

#[test]
fn runs_on_explicit_dispose() {
    let hit = Rc::new(Cell::new(0));
    let h = hit.clone();
    let mut d = Disposable::new(move || h.set(h.get() + 1));
    d.dispose();
    assert_eq!(hit.get(), 1);
}

#[test]
fn runs_at_most_once() {
    let hit = Rc::new(Cell::new(0));
    let h = hit.clone();
    let mut d = Disposable::new(move || h.set(h.get() + 1));
    assert!(d.dispose());
    assert!(!d.dispose());
    drop(d);
    assert_eq!(hit.get(), 1);
}

#[test]
fn forget_skips_action() {
    let hit = Rc::new(Cell::new(0));
    let h = hit.clone();
    let _ = Disposable::new(move || h.set(h.get() + 1)).forget();
    assert_eq!(hit.get(), 0);
}

#[test]
fn noop_does_nothing() {
    let mut d: Disposable<fn()> = Disposable::noop();
    assert!(!d.is_armed());
    assert!(!d.dispose());
}
