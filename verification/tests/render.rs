use signalkit::render::MockRenderer;
use signalkit::{Color, DrawCmd, Size};

#[test]
fn gray_scaling_spans_full_range() {
    assert_eq!(Color(0).to_gray8(), 0);
    assert_eq!(Color(15).to_gray8(), 255);
    assert_eq!(Color(8).to_gray8(), 136);
}

#[test]
fn levels_clamp_to_sixteen_grays() {
    assert_eq!(Color(200).level(), 15);
    assert_eq!(Color(200).to_gray8(), 255);
    assert_eq!(Color(3).level(), 3);
}

#[test]
fn mock_renderer_lists_drawn_texts() {
    let mut m = MockRenderer::new(Size::new(10, 10));
    m.commands.push(DrawCmd::Text { x: 0, y: 0, text: "a".to_string(), size: 1, fg: Color(0), bg: Color(15), inverse: false });
    m.commands.push(DrawCmd::FillRect { rect: signalkit::Rect::new(0, 0, 1, 1), color: Color(0) });
    m.commands.push(DrawCmd::Text { x: 0, y: 0, text: "b".to_string(), size: 1, fg: Color(0), bg: Color(15), inverse: false });
    assert_eq!(m.texts(), vec!["a".to_string(), "b".to_string()]);
    m.clear_log();
    assert!(m.texts().is_empty());
}
