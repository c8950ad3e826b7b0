use std::cell::Cell;
use std::rc::Rc;

use signalkit::demo::{demo_screen, row_keys, row_label, DemoModel, COUNTER, LIST};
use signalkit::render::MockRenderer;
use signalkit::widget::TapHandler;
use signalkit::{Align, AnyWidget, Axis, Color, ExitHandle, Point, Size};
use signalkit::app::App;

struct Bump(Rc<Cell<i32>>, i32);

impl TapHandler for Bump {
    fn tapped(&self) -> bool {
        true
    }

    fn on_tap(&self) {
        self.0.set(self.0.get() + self.1);
    }
}

fn handler(count: &Rc<Cell<i32>>, step: i32) -> Option<Rc<dyn TapHandler>> {
    Some(Rc::new(Bump(count.clone(), step)))
}

#[test]
fn demo_screen_has_the_documented_shape() {
    let count = Rc::new(Cell::new(0));
    let w = demo_screen(handler(&count, -1), handler(&count, 1), None, None);
    let AnyWidget::Stack(root) = &w else { panic!("root is not a stack") };
    assert_eq!(root.axis, Axis::Vertical);
    assert_eq!((root.spacing, root.padding), (20, 24));
    assert_eq!(root.align, Align::Center);
    assert_eq!(root.bg, Some(Color(15)));
    assert_eq!(root.children.len(), 8);
    let AnyWidget::Label(title) = &root.children[0] else { panic!("no title") };
    assert_eq!((title.text.as_str(), title.size), ("SignalKit Demo", 4));
    let AnyWidget::Label(counter) = &root.children[COUNTER] else { panic!("no counter") };
    assert_eq!((counter.text.as_str(), counter.size), ("", 3));
    let AnyWidget::Stack(buttons) = &root.children[2] else { panic!("no button row") };
    assert_eq!(buttons.axis, Axis::Horizontal);
    assert_eq!(buttons.children.len(), 2);
    let AnyWidget::Stack(list) = &root.children[LIST] else { panic!("no list") };
    assert!(list.children.is_empty());
    assert!(matches!(root.children[6], AnyWidget::Spacer(_)));
    let AnyWidget::Button(exit) = &root.children[7] else { panic!("no exit button") };
    assert_eq!(exit.title, "Exit");
}

#[test]
fn demo_plus_button_counts_up_after_layout() {
    let count = Rc::new(Cell::new(0));
    let w = demo_screen(handler(&count, -1), handler(&count, 1), None, None);
    let mut app = App::new(w, MockRenderer::new(Size::new(600, 800)), ExitHandle::new());
    app.render_frame().unwrap();
    let AnyWidget::Stack(root) = &app.root else { panic!("root is not a stack") };
    let AnyWidget::Stack(buttons) = &root.children[2] else { panic!("no button row") };
    let plus = buttons.children[1].frame();
    let p = Point::new(plus.x + plus.w / 2, plus.y + plus.h / 2);
    assert!(app.tap_at(p));
    assert_eq!(count.get(), 1);
}

#[test]
fn rows_give_their_keys_and_labels() {
    let rows = vec![(7, "seven".to_string()), (3, "three".to_string()), (7, "again".to_string())];
    assert_eq!(row_keys(&rows), vec![7, 3, 7]);
    let AnyWidget::Label(l) = row_label(&rows, 7) else { panic!("not a label") };
    assert_eq!((l.text.as_str(), l.size), ("seven", 2));
    let AnyWidget::Label(l) = row_label(&rows, 3) else { panic!("not a label") };
    assert_eq!(l.text, "three");
    let AnyWidget::Label(l) = row_label(&rows, 9) else { panic!("not a label") };
    assert_eq!(l.text, "");
}

#[test]
fn the_demo_model_counts_and_adds_rows() {
    let mut m = DemoModel::new();
    assert_eq!(m.counter_text(), "Count: 0");
    assert_eq!(m.rows, vec![(1, "First row".to_string()), (2, "Second row".to_string())]);
    m.step(-1);
    m.step(-1);
    assert_eq!(m.counter_text(), "Count: -2");
    m.step(15);
    assert_eq!(m.counter_text(), "Count: 13");
    m.add_row();
    m.add_row();
    assert_eq!(m.rows[2], (3, "Row 3".to_string()));
    assert_eq!(m.rows[3], (4, "Row 4".to_string()));
    assert_eq!(m.next_id, 5);
    m.count = i32::MIN;
    assert_eq!(m.counter_text(), "Count: -2147483648");
    m.count = i32::MAX;
    assert_eq!(m.counter_text(), "Count: 2147483647");
}
