use signalkit::layout::layout;
use signalkit::widget::CELL_H;
use signalkit::{Align, AnyWidget, Label, Rect, Spacer, Stack};
use signalkit::layout::{child_rects_opt, place_ok_check};
use signalkit::widget::{text_size_opt, tree_fits_check};

fn label(text: &str) -> AnyWidget {
    AnyWidget::Label(Label::new(text))
}

#[test]
fn vertical_stack_stacks_children_top_down_with_spacing() {
    let mut stack = Stack::vertical(10, Align::Fill);
    stack.push(label("aa"));
    stack.push(label("bbbb"));
    let mut root = AnyWidget::Stack(stack);
    layout(&mut root, Rect::new(0, 0, 100, 200));

    let children = root.children();
    assert_eq!(children[0].frame(), Rect::new(0, 0, 100, CELL_H));
    assert_eq!(children[1].frame(), Rect::new(0, CELL_H + 10, 100, CELL_H));
}

#[test]
fn spacer_pushes_trailing_child_to_the_end() {
    let mut stack = Stack::vertical(0, Align::Fill);
    stack.push(label("top"));
    stack.push(AnyWidget::Spacer(Spacer::new()));
    stack.push(label("bot"));
    let mut root = AnyWidget::Stack(stack);
    layout(&mut root, Rect::new(0, 0, 80, 300));

    let children = root.children();
    assert_eq!(children[0].frame().y, 0);
    assert_eq!(children[2].frame().y, 300 - CELL_H);
}

#[test]
fn horizontal_center_alignment_centers_cross_axis() {
    let mut stack = Stack::horizontal(0, Align::Center);
    stack.push(label("x"));
    let mut root = AnyWidget::Stack(stack);
    layout(&mut root, Rect::new(0, 0, 200, 100));
    assert_eq!(root.children()[0].frame().y, (100 - CELL_H) / 2);
}

#[test]
fn padding_insets_children() {
    let mut stack = Stack::vertical(0, Align::Fill).padding(5);
    stack.push(label("hi"));
    let mut root = AnyWidget::Stack(stack);
    layout(&mut root, Rect::new(0, 0, 100, 100));
    let f = root.children()[0].frame();
    assert_eq!((f.x, f.y, f.w), (5, 5, 90));
}

#[test]
fn trailing_alignment_and_root_frame() {
    let mut stack = Stack::horizontal(0, Align::Trailing);
    stack.push(label("x"));
    let mut root = AnyWidget::Stack(stack);
    layout(&mut root, Rect::new(0, 0, 200, 100));
    assert_eq!(root.frame(), Rect::new(0, 0, 200, 100));
    assert_eq!(root.children()[0].frame(), Rect::new(0, 100 - CELL_H, 8, CELL_H));
}

#[test]
fn layout_checks_report_overflow() {
    let mut ok = Stack::vertical(10, Align::Fill);
    ok.push(label("aa"));
    ok.push(label("bbbb"));
    let rects = child_rects_opt(&ok, Rect::new(0, 0, 100, 200)).expect("fits");
    assert_eq!(rects, vec![Rect::new(0, 0, 100, CELL_H), Rect::new(0, CELL_H + 10, 100, CELL_H)]);
    let root = AnyWidget::Stack(ok);
    assert!(place_ok_check(&root, Rect::new(0, 0, 100, 200)));
    assert_eq!(root.measure_opt(signalkit::Size::new(100, 200)), Some(signalkit::Size::new(32, 2 * CELL_H + 10)));

    let mut wide = Stack::horizontal(i32::MAX, Align::Fill);
    wide.push(label("x"));
    wide.push(label("y"));
    assert!(child_rects_opt(&wide, Rect::new(0, 0, 100, 200)).is_none());
    let wide = AnyWidget::Stack(wide);
    assert!(!place_ok_check(&wide, Rect::new(0, 0, 100, 200)));
    assert_eq!(wide.measure_opt(signalkit::Size::new(100, 200)), None);

    assert_eq!(text_size_opt("abc", 2), Some(signalkit::Size::new(48, 32)));
    let mut far = Label::new("far");
    far.common.frame = Rect::new(i32::MAX - 1, 0, 10, 10);
    assert!(!tree_fits_check(&AnyWidget::Label(far)));
}

#[test]
fn horizontal_children_follow_each_other_with_padding_and_center_alignment() {
    let mut stack = Stack::horizontal(5, Align::Center);
    stack.padding = 3;
    stack.push(label("ab"));
    stack.push(label("cde"));
    let rects = child_rects_opt(&stack, Rect::new(10, 20, 200, 60)).unwrap();
    assert_eq!(rects.len(), 2);
    // Padded origin (13, 23); inner height 54; natural label height 16.
    assert_eq!(rects[0], Rect::new(13, 23 + (54 - 16) / 2, 16, 16));
    assert_eq!(rects[1].x, rects[0].x + rects[0].w + 5);
    assert_eq!(rects[1], Rect::new(13 + 16 + 5, 23 + (54 - 16) / 2, 24, 16));
}

#[test]
fn spacers_share_the_leftover_and_the_first_takes_the_odd_pixel() {
    let mut stack = Stack::vertical(0, Align::Fill);
    stack.push(label("a"));
    stack.push(AnyWidget::Spacer(Spacer::new()));
    stack.push(AnyWidget::Spacer(Spacer::new()));
    stack.push(label("b"));
    let rects = child_rects_opt(&stack, Rect::new(0, 0, 100, 101)).unwrap();
    // Leftover 101 - 2 * 16 = 69: 34 each, the first spacer one more.
    assert_eq!(rects[0], Rect::new(0, 0, 100, 16));
    assert_eq!(rects[1], Rect::new(0, 16, 100, 35));
    assert_eq!(rects[2], Rect::new(0, 51, 100, 34));
    assert_eq!(rects[3], Rect::new(0, 85, 100, 16));
}
