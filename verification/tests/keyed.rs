use std::cell::Cell;

use signalkit::keyed::{all_distinct, sync_keyed_children, ForEach};
use signalkit::widget::WidgetId;
use signalkit::{Align, AnyWidget, Label, Stack};

fn child_texts(f: &ForEach<AnyWidget>) -> Vec<String> {
    f.entries
        .iter()
        .map(|(_, c)| match c {
            AnyWidget::Label(l) => l.text(),
            _ => panic!("expected label"),
        })
        .collect()
}

#[test]
fn mounts_reorders_and_removes_by_key() {
    let make = |n: u64| AnyWidget::Label(Label::new(&format!("#{n}")));
    let mut children: ForEach<AnyWidget> = ForEach::new();
    children.apply(&[1, 2, 3], &make);
    assert_eq!(child_texts(&children), vec!["#1", "#2", "#3"]);

    let removed = children.apply(&[3, 1, 4], &make);
    assert_eq!(child_texts(&children), vec!["#3", "#1", "#4"]);
    assert_eq!(removed.len(), 1);
    assert_eq!(removed[0].0, 2);
}

#[test]
fn reused_children_keep_identity_across_reorder() {
    let next = Cell::new(1u64);
    let make = |n: u64| {
        let mut l = Label::new(&format!("#{n}"));
        l.common.id = WidgetId(next.get());
        next.set(next.get() + 1);
        AnyWidget::Label(l)
    };
    let mut children: ForEach<AnyWidget> = ForEach::new();
    children.apply(&[1, 2], &make);
    let id_of_1 = children.entries[0].1.id();

    children.apply(&[2, 1], &make);
    let id_of_1_after = children.entries[1].1.id();
    assert_eq!(id_of_1, id_of_1_after);
    assert_eq!(next.get(), 3);
}

#[test]
fn duplicate_keys_are_detected() {
    assert!(!all_distinct(&[1, 1]));
    assert!(all_distinct(&[1, 2, 3]));
    assert!(all_distinct(&[]));
}

#[test]
fn live_list_keeps_widgets_of_kept_keys() {
    let make = |n: u64| AnyWidget::Label(Label::new(&format!("#{n}")));
    let mut list = Stack::vertical(0, Align::Fill);
    let mut keys: Vec<u64> = Vec::new();
    let removed = sync_keyed_children(&mut list, &mut keys, &[1, 2, 3], &make);
    assert!(removed.is_empty());
    assert_eq!(keys, vec![1, 2, 3]);
    if let AnyWidget::Label(l) = &mut list.children[0] {
        l.common.id = WidgetId(41);
    }
    list.common.dirty = false;
    let removed = sync_keyed_children(&mut list, &mut keys, &[3, 1, 4], &make);
    assert_eq!(keys, vec![3, 1, 4]);
    assert_eq!(removed.len(), 1);
    assert_eq!(removed[0].0, 2);
    assert!(list.common.dirty);
    let texts: Vec<String> = list
        .children
        .iter()
        .map(|c| match c {
            AnyWidget::Label(l) => l.text(),
            _ => panic!("expected label"),
        })
        .collect();
    assert_eq!(texts, vec!["#3", "#1", "#4"]);
    assert_eq!(list.children[1].id(), WidgetId(41));
}
