use signalkit::input::{
    event_size, type_offset, Calibration, CalibrationEnv, TouchDecoder, TouchEvent, TouchKind, ABS_MT_POSITION_X,
    ABS_MT_POSITION_Y, ABS_MT_TRACKING_ID, ABS_X, ABS_Y, BTN_TOUCH, EV_ABS, EV_KEY, EV_SYN, SYN_REPORT,
};
use signalkit::Size;

/// Builds a raw event record for the host's layout.
fn ev(etype: u16, code: u16, value: i32) -> Vec<u8> {
    let o = type_offset();
    let mut buf = vec![0u8; event_size()];
    buf[o..o + 2].copy_from_slice(&etype.to_le_bytes());
    buf[o + 2..o + 4].copy_from_slice(&code.to_le_bytes());
    buf[o + 4..o + 8].copy_from_slice(&value.to_le_bytes());
    buf
}

#[test]
fn protocol_b_tap_yields_down_then_up() {
    let mut d = TouchDecoder::new();
    assert_eq!(d.feed(&ev(EV_ABS, ABS_MT_TRACKING_ID, 5)), None);
    assert_eq!(d.feed(&ev(EV_ABS, ABS_MT_POSITION_X, 100)), None);
    assert_eq!(d.feed(&ev(EV_ABS, ABS_MT_POSITION_Y, 200)), None);
    assert_eq!(
        d.feed(&ev(EV_SYN, SYN_REPORT, 0)),
        Some(TouchEvent { kind: TouchKind::Down, x: 100, y: 200 })
    );
    assert_eq!(d.feed(&ev(EV_ABS, ABS_MT_TRACKING_ID, -1)), None);
    assert_eq!(
        d.feed(&ev(EV_SYN, SYN_REPORT, 0)),
        Some(TouchEvent { kind: TouchKind::Up, x: 100, y: 200 })
    );
}

#[test]
fn protocol_a_btn_touch_and_move() {
    let mut d = TouchDecoder::new();
    d.feed(&ev(EV_KEY, BTN_TOUCH, 1));
    d.feed(&ev(EV_ABS, ABS_X, 10));
    d.feed(&ev(EV_ABS, ABS_Y, 20));
    assert_eq!(d.feed(&ev(EV_SYN, SYN_REPORT, 0)).unwrap().kind, TouchKind::Down);

    d.feed(&ev(EV_ABS, ABS_X, 30));
    let mv = d.feed(&ev(EV_SYN, SYN_REPORT, 0)).unwrap();
    assert_eq!(mv.kind, TouchKind::Move);
    assert_eq!((mv.x, mv.y), (30, 20));
}

#[test]
fn empty_frame_emits_nothing() {
    let mut d = TouchDecoder::new();
    assert_eq!(d.feed(&ev(EV_SYN, SYN_REPORT, 0)), None);
}

#[test]
fn short_record_is_ignored() {
    let mut d = TouchDecoder::new();
    let rec = ev(EV_KEY, BTN_TOUCH, 1);
    assert_eq!(d.feed(&rec[..rec.len() - 1]), None);
    assert_eq!(d, TouchDecoder::new());
}

#[test]
fn calibration_maps_and_inverts() {
    let c = Calibration {
        raw: Size::new(1000, 2000),
        screen: Size::new(100, 200),
        swap_xy: false,
        invert_x: false,
        invert_y: true,
    };
    let p = c.map(500, 0);
    assert_eq!(p.x, 50);
    assert_eq!(p.y, 199);
}

fn no_env() -> CalibrationEnv {
    CalibrationEnv { swap: None, invert_x: None, invert_y: None, raw: None }
}

#[test]
fn calibration_swaps_and_clamps_negative_points() {
    let c = Calibration {
        raw: Size::new(2000, 1000),
        screen: Size::new(100, 200),
        swap_xy: true,
        invert_x: false,
        invert_y: false,
    };
    let p = c.map(-30, 500);
    assert_eq!((p.x, p.y), (50, 0));
}

#[test]
fn calibration_env_overrides() {
    let env = CalibrationEnv {
        swap: Some("1".to_string()),
        invert_x: Some("yes".to_string()),
        invert_y: None,
        raw: Some("758x1024".to_string()),
    };
    let c = Calibration::from_env(Size::new(600, 800), &env);
    assert!(c.swap_xy && !c.invert_x && !c.invert_y);
    assert_eq!(c.raw, Size::new(758, 1024));

    let bad = CalibrationEnv { raw: Some("12by34".to_string()), ..no_env() };
    assert_eq!(Calibration::from_env(Size::new(600, 800), &bad).raw, Size::new(600, 800));

    let dev = Calibration::from_device(Size::new(600, 800), (4095, 4095), &no_env());
    assert_eq!(dev.raw, Size::new(4095, 4095));
    let failed = Calibration::from_device(Size::new(600, 800), (0, 0), &no_env());
    assert_eq!(failed, Calibration::identity(Size::new(600, 800)));
}

#[test]
fn parse_picks_abs_device_event_node() {
    let text = "\
I: Bus=0019 Vendor=0000 Product=0000
N: Name=\"gpio-keys\"
H: Handlers=kbd event0
B: EV=3

I: Bus=0018 Vendor=0000 Product=0000
N: Name=\"cyttsp5_mt\"
H: Handlers=event1
B: EV=b
";
    assert_eq!(signalkit::input::parse_touch_device(text), Some("event1".to_string()));
}

#[test]
fn parse_touch_device_needs_abs_and_handler() {
    assert_eq!(signalkit::input::parse_touch_device("H: Handlers=event4\nB: EV=zz\n"), None);
    assert_eq!(signalkit::input::parse_touch_device("B: EV=8\n"), None);
    assert_eq!(
        signalkit::input::parse_touch_device("H: Handlers=event2 mouse0 event3\nB: EV= 1f \n"),
        Some("event3".to_string())
    );
}

#[test]
fn can_map_guards_the_scaling_arithmetic() {
    let c = Calibration {
        raw: Size::new(1000, 2000),
        screen: Size::new(100, 200),
        swap_xy: false,
        invert_x: false,
        invert_y: true,
    };
    assert!(c.can_map(500, 0));
    assert!(!c.can_map(i32::MAX, 0));
    let empty = Calibration::identity(Size::new(0, 10));
    assert!(!empty.can_map(1, 1));
}
