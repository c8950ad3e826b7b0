use std::cell::Cell;
use std::rc::Rc;

use signalkit::app::{App, DAMAGE_TILE_COUNT, FULL_REFRESH_DIRTY_TILE_PCT, MAX_PARTIAL_REFRESHES};
use signalkit::render::MockRenderer;
use signalkit::widget::TapHandler;
use signalkit::{Align, AnyWidget, Button, Color, DrawCmd, ExitHandle, Label, Point, Rect, RefreshMode, Size, Stack};
use signalkit::input::{Calibration, TouchEvent, TouchKind};
use signalkit::node::{mount_node, vstack, IntoNode};
use signalkit::tree::assign_next_opt;
use signalkit::widget::{hit_fits_check, tree_fits_check};

struct Increment(Rc<Cell<i32>>);

impl TapHandler for Increment {
    fn tapped(&self) -> bool {
        self.0.get() > 0
    }

    fn on_tap(&self) {
        self.0.set(self.0.get() + 1);
    }
}

/// A label showing the count above a "+" button that increments it.
fn screen(count: &Rc<Cell<i32>>, bg: Option<Color>) -> AnyWidget {
    let mut stack = Stack::vertical(4, Align::Fill);
    if let Some(c) = bg {
        stack = stack.background(c);
    }
    stack.push(AnyWidget::Label(Label::new(&count.get().to_string())));
    if bg.is_none() {
        let handler: Rc<dyn TapHandler> = Rc::new(Increment(count.clone()));
        stack.push(AnyWidget::Button(Button::new("+").on_tap(Some(handler))));
    }
    AnyWidget::Stack(stack)
}

fn app_with(count: &Rc<Cell<i32>>) -> App<MockRenderer> {
    App::new(screen(count, None), MockRenderer::new(Size::new(600, 800)), ExitHandle::new())
}

/// What the label binding does when the count changes.
fn show(app: &mut App<MockRenderer>, value: i32) {
    if let AnyWidget::Stack(s) = &mut app.root {
        if let AnyWidget::Label(l) = &mut s.children[0] {
            l.set_text(&value.to_string());
        }
    }
}

#[test]
fn first_frame_is_a_full_refresh() {
    let count = Rc::new(Cell::new(0));
    let mut app = app_with(&count);
    app.render_frame().unwrap();
    assert_eq!(app.renderer.refreshes.len(), 1);
    assert_eq!(app.renderer.refreshes[0].1, RefreshMode::Full);
    assert_eq!(app.renderer.refreshes[0].0, app.bounds());
}

#[test]
fn small_change_does_a_partial_refresh_of_the_damage() {
    let count = Rc::new(Cell::new(0));
    let mut app = app_with(&count);
    app.render_frame().unwrap();
    app.renderer.clear_log();

    show(&mut app, 1);
    app.render_frame().unwrap();
    assert_eq!(app.renderer.refreshes.len(), 1);
    assert_eq!(app.renderer.refreshes[0].1, RefreshMode::Partial);
    assert!(app.renderer.refreshes[0].0.area() < app.bounds().area());
}

#[test]
fn repeated_partial_damage_in_same_area_stays_partial_until_ceiling() {
    let count = Rc::new(Cell::new(0));
    let mut app = app_with(&count);
    app.render_frame().unwrap();

    for i in 1..MAX_PARTIAL_REFRESHES {
        app.renderer.clear_log();
        show(&mut app, i as i32);
        app.render_frame().unwrap();
        assert_eq!(app.renderer.refreshes[0].1, RefreshMode::Partial);
    }
}

#[test]
fn distributed_partial_damage_forces_full_refresh() {
    let count = Rc::new(Cell::new(0));
    let mut app = app_with(&count);
    app.render_frame().unwrap();

    let needed = (DAMAGE_TILE_COUNT as i64 * FULL_REFRESH_DIRTY_TILE_PCT + 99) / 100;
    for tile in 1..needed as usize {
        app.dirty_tiles[tile] = true;
        app.dirty_tile_count += 1;
    }

    assert!(!app.dirty_tiles[0]);
    app.renderer.clear_log();
    show(&mut app, 1);
    app.render_frame().unwrap();
    assert_eq!(app.renderer.refreshes[0].1, RefreshMode::Full);
    assert_eq!(app.dirty_tile_count, 0);
}

#[test]
fn partial_frame_fills_are_clipped_to_the_damage() {
    let count = Rc::new(Cell::new(0));
    let mut app = App::new(screen(&count, Some(Color(15))), MockRenderer::new(Size::new(600, 800)), ExitHandle::new());
    app.render_frame().unwrap();
    app.renderer.clear_log();

    show(&mut app, 1);
    app.render_frame().unwrap();
    let (damage, mode) = app.renderer.refreshes[0];
    assert_eq!(mode, RefreshMode::Partial);
    for cmd in &app.renderer.commands {
        if let DrawCmd::FillRect { rect, .. } = cmd {
            assert!(damage.contains_rect(*rect), "fill {rect:?} escapes damage {damage:?}");
        }
    }
}

#[test]
fn tap_dispatch_updates_state() {
    let count = Rc::new(Cell::new(0));
    let mut app = app_with(&count);
    app.render_frame().unwrap();
    let button_frame = app.root.children()[1].frame();
    let hit = Point::new(button_frame.x + button_frame.w / 2, button_frame.y + button_frame.h / 2);
    assert!(app.tap_at(hit));
    assert_eq!(count.get(), 1);
}

#[test]
fn tap_on_empty_space_is_ignored() {
    let count = Rc::new(Cell::new(0));
    let mut app = app_with(&count);
    app.render_frame().unwrap();
    assert!(!app.tap_at(Point::new(599, 799)));
}

#[test]
fn unchanged_frame_refreshes_nothing_new() {
    let count = Rc::new(Cell::new(0));
    let mut app = app_with(&count);
    app.render_frame().unwrap();
    app.renderer.clear_log();
    app.render_frame().unwrap();
    assert!(app.renderer.refreshes.is_empty());
}

#[test]
fn exit_handle_is_shared() {
    let a = ExitHandle::new();
    let b = a.share();
    assert!(!b.is_set());
    a.request_exit();
    assert!(b.is_set());
}

#[test]
fn checked_frame_renders_what_render_frame_would() {
    let count = Rc::new(Cell::new(0));
    let mut app = app_with(&count);
    assert!(matches!(app.render_frame_checked(), Some(Ok(()))));
    assert_eq!(app.renderer.refreshes.len(), 1);
    assert_eq!(app.renderer.refreshes[0].1, RefreshMode::Full);
    assert!(tree_fits_check(&app.root));
    assert!(app.tap_at(Point::new(10, 20 + 16)));
    assert!(matches!(app.render_frame_checked(), Some(Ok(()))));
}

#[test]
fn checked_frame_refuses_a_layout_that_overflows() {
    let mut stack = Stack::vertical(i32::MAX, Align::Fill);
    stack.push(AnyWidget::Label(Label::new("a")));
    stack.push(AnyWidget::Label(Label::new("b")));
    let mut app = App::new(AnyWidget::Stack(stack), MockRenderer::new(Size::new(600, 800)), ExitHandle::new());
    assert!(app.render_frame_checked().is_none());
    assert!(app.renderer.refreshes.is_empty());
    assert!(app.renderer.commands.is_empty());
}

#[test]
fn identity_assignment_reports_exhaustion() {
    let count = Rc::new(Cell::new(0));
    let tree = screen(&count, None);
    assert_eq!(assign_next_opt(&tree, 1), Some(4));
    assert_eq!(assign_next_opt(&tree, u64::MAX - 1), None);
}

#[test]
fn a_released_touch_taps_the_button_under_it() {
    let count = Rc::new(Cell::new(0));
    let mut app = app_with(&count);
    app.render_frame().unwrap();
    let calib = Calibration::identity(Size::new(600, 800));
    let down = TouchEvent { kind: TouchKind::Down, x: 10, y: 36 };
    assert_eq!(app.handle_touch(down, &calib), Some(false));
    assert_eq!(count.get(), 0);
    let up = TouchEvent { kind: TouchKind::Up, x: 10, y: 36 };
    assert_eq!(app.handle_touch(up, &calib), Some(true));
    assert_eq!(count.get(), 1);
    let miss = TouchEvent { kind: TouchKind::Up, x: 10, y: 700 };
    assert_eq!(app.handle_touch(miss, &calib), Some(false));
    let empty = Calibration::identity(Size::new(0, 0));
    assert_eq!(app.handle_touch(up, &empty), None);
}

#[test]
fn button_tap_runs_handler() {
    let count = Rc::new(Cell::new(0));
    let handler: Rc<dyn TapHandler> = Rc::new(Increment(count.clone()));
    let node = vstack(
        8,
        Align::Fill,
        vec![Label::new("Count: 0").into_node(), Button::new("+").on_tap(Some(handler)).into_node()],
    );
    let root = mount_node(node);
    let tapped = root.children()[1].dispatch_tap();
    assert!(tapped);
    assert_eq!(count.get(), 1);
    assert!(!root.children()[0].dispatch_tap());
    assert_eq!(count.get(), 1);
}

#[test]
fn a_binding_step_sets_the_label_at_a_path() {
    let count = Rc::new(Cell::new(0));
    let mut app = app_with(&count);
    app.render_frame().unwrap();
    assert!(app.set_label_text(&[0], "Count: 7"));
    assert!(app.root.children()[0].is_dirty());
    if let AnyWidget::Label(l) = &app.root.children()[0] {
        assert_eq!(l.text(), "Count: 7");
    }
    assert!(!app.set_label_text(&[1], "no"));
    assert!(!app.set_label_text(&[5], "no"));
    assert!(!app.set_label_text(&[], "no"));
    app.renderer.clear_log();
    app.render_frame().unwrap();
    assert_eq!(app.renderer.refreshes.len(), 1);
}

#[test]
fn a_tap_needs_only_the_frames_on_its_search_to_fit() {
    let count = Rc::new(Cell::new(0));
    let mut stack = Stack::vertical(0, Align::Fill);
    stack.common.frame = Rect::new(0, 0, 600, 800);
    let mut far = Label::new("far");
    far.common.frame = Rect::new(i32::MAX - 5, 0, 100, 16);
    stack.push(AnyWidget::Label(far));
    let handler: Rc<dyn TapHandler> = Rc::new(Increment(count.clone()));
    let mut plus = Button::new("+").on_tap(Some(handler));
    plus.common.frame = Rect::new(0, 0, 100, 50);
    stack.push(AnyWidget::Button(plus));
    let app = App::new(AnyWidget::Stack(stack), MockRenderer::new(Size::new(600, 800)), ExitHandle::new());
    assert!(!tree_fits_check(&app.root));
    assert!(hit_fits_check(&app.root, Point::new(10, 10)));
    let calib = Calibration::identity(Size::new(600, 800));
    let up = TouchEvent { kind: TouchKind::Up, x: 10, y: 10 };
    assert_eq!(app.handle_touch(up, &calib), Some(true));
    assert_eq!(count.get(), 1);
    assert!(!hit_fits_check(&app.root, Point::new(300, 300)));
    let miss = TouchEvent { kind: TouchKind::Up, x: 300, y: 300 };
    assert_eq!(app.handle_touch(miss, &calib), None);
    assert_eq!(count.get(), 1);
}
