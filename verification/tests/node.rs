use std::cell::RefCell;
use std::rc::Rc;

use signalkit::node::{container, group, hstack, mount_into, mount_node, mountable_check, vstack, IntoNode, Node};
use signalkit::signal::{Observer, Signal, SignalCtx};
use signalkit::{Align, AnyWidget, Axis, Color, Label, Spacer, Stack};

fn text_of(w: &AnyWidget) -> String {
    match w {
        AnyWidget::Label(l) => l.text(),
        _ => panic!("expected a label"),
    }
}

#[test]
fn groups_are_spliced_into_the_enclosing_stack() {
    let inner = group(vec![Label::new("b").into_node(), group(vec![Label::new("c").into_node()])]);
    let node = vstack(4, Align::Center, vec![Label::new("a").into_node(), inner, Spacer::new().into_node()]);
    match &node {
        Node::Stack { axis, spacing, padding, align, bg, children } => {
            assert_eq!(*axis, Axis::Vertical);
            assert_eq!(*spacing, 4);
            assert_eq!(*padding, 0);
            assert_eq!(*align, Align::Center);
            assert!(bg.is_none());
            assert_eq!(children.len(), 4);
            assert!(children.iter().all(|c| !matches!(c, Node::Group(_))));
        }
        _ => panic!("expected a stack node"),
    }
    let root = mount_node(node);
    let kids = root.children();
    assert_eq!(kids.len(), 4);
    assert_eq!(text_of(&kids[0]), "a");
    assert_eq!(text_of(&kids[1]), "b");
    assert_eq!(text_of(&kids[2]), "c");
    assert!(matches!(kids[3], AnyWidget::Spacer(_)));
}

#[test]
fn mounting_a_stack_node_applies_padding_and_background() {
    let node = Node::Stack {
        axis: Axis::Horizontal,
        spacing: 2,
        padding: 6,
        align: Align::Fill,
        bg: Some(Color(8)),
        children: vec![hstack(0, Align::Leading, vec![Label::new("x").into_node()])],
    };
    let root = mount_node(node);
    match &root {
        AnyWidget::Stack(s) => {
            assert_eq!(s.axis, Axis::Horizontal);
            assert_eq!(s.spacing, 2);
            assert_eq!(s.padding, 6);
            assert_eq!(s.bg, Some(Color(8)));
            assert!(s.common.dirty);
            assert_eq!(s.children.len(), 1);
            assert_eq!(text_of(&s.children[0].children()[0]), "x");
        }
        _ => panic!("expected a stack"),
    }
}

#[test]
fn negative_padding_mounts_as_none_and_widgets_mount_as_themselves() {
    let node = Node::Stack {
        axis: Axis::Vertical,
        spacing: 0,
        padding: -3,
        align: Align::Fill,
        bg: None,
        children: Vec::new(),
    };
    match mount_node(node) {
        AnyWidget::Stack(s) => {
            assert_eq!(s.padding, 0);
            assert!(s.bg.is_none());
        }
        _ => panic!("expected a stack"),
    }
    let w = mount_node(Stack::vertical(1, Align::Fill).into_node());
    assert!(matches!(w, AnyWidget::Stack(_)));
    assert_eq!(text_of(&mount_node(Label::new("solo").into_node())), "solo");
}

fn content(v: &i32) -> Node {
    Label::new(&format!("v{v}")).into_node()
}

struct SlotObserver(Rc<RefCell<Stack>>);

impl Observer<i32> for SlotObserver {
    fn notify(&self, value: &i32, _ctx: &mut SignalCtx<i32>) {
        mount_into(&mut self.0.borrow_mut(), content(value));
    }
}

fn root_text(root: &Stack) -> String {
    text_of(&root.children[0])
}

#[test]
fn swaps_child_on_signal_change() {
    let mut which: Signal<i32, SlotObserver> = Signal::new(0);
    let slot = Rc::new(RefCell::new(container(Axis::Vertical)));
    let initial = which.with(|v| content(v));
    mount_into(&mut slot.borrow_mut(), initial);
    let _id = which.observe(SlotObserver(slot.clone()));
    assert_eq!(root_text(&slot.borrow()), "v0");
    which.set(5);
    assert_eq!(root_text(&slot.borrow()), "v5");
    assert_eq!(slot.borrow().children.len(), 1);
}

#[test]
fn only_group_free_nodes_are_mountable() {
    assert!(mountable_check(&vstack(0, Align::Fill, vec![Label::new("a").into_node(), group(vec![])])));
    assert!(!mountable_check(&group(vec![Label::new("a").into_node()])));
    let nested = Node::Stack {
        axis: Axis::Vertical,
        spacing: 0,
        padding: 0,
        align: Align::Fill,
        bg: None,
        children: vec![Node::Group(vec![])],
    };
    assert!(!mountable_check(&nested));
}

fn texts(node: Node) -> Vec<String> {
    mount_node(node).children().iter().map(text_of).collect()
}

#[test]
fn a_group_gives_the_stack_the_same_children_as_its_nodes() {
    let v = || vec![Label::new("b").into_node(), group(vec![Label::new("c").into_node()]), Label::new("d").into_node()];
    let with_group = vstack(2, Align::Fill, vec![Label::new("a").into_node(), group(v()), Label::new("e").into_node()]);
    let mut spliced = vec![Label::new("a").into_node()];
    spliced.extend(v());
    spliced.push(Label::new("e").into_node());
    let without = vstack(2, Align::Fill, spliced);
    assert_eq!(texts(with_group), vec!["a", "b", "c", "d", "e"]);
    assert_eq!(texts(without), vec!["a", "b", "c", "d", "e"]);
}
