//! Touch input: decoding of raw Linux evdev `input_event` records into touch
//! gestures (multitouch protocol B and protocol A / `BTN_TOUCH`), and the
//! calibration that maps raw digitizer coordinates to screen pixels.

use vstd::prelude::*;

use crate::geometry::{Point, Size};
use vstd::string::StrSliceExecFns;

use crate::text::{
    after, chars_of, find, find_char, has_prefix, lines, lines_of, parse_u64_radix, parse_u64_spec, split_str, split_str_from, starts_with,
    string_of, strip_prefix, trim, trim_chars, vec_views, words, words_from,
};

verus! {

broadcast use vstd::layout::layout_of_primitives;

pub const EV_SYN: u16 = 0x00;
pub const EV_KEY: u16 = 0x01;
pub const EV_ABS: u16 = 0x03;

pub const SYN_REPORT: u16 = 0x00;
pub const BTN_TOUCH: u16 = 0x14a;
pub const ABS_X: u16 = 0x00;
pub const ABS_Y: u16 = 0x01;
pub const ABS_MT_POSITION_X: u16 = 0x35;
pub const ABS_MT_POSITION_Y: u16 = 0x36;
pub const ABS_MT_TRACKING_ID: u16 = 0x39;

/// Byte offset of the `type` field in a `struct input_event`: it follows a
/// `struct timeval` of two C `long`s, which are as wide as a pointer on Linux.
pub open spec fn type_offset_spec() -> int {
    2 * (vstd::layout::size_of::<isize>() as int)
}

/// Byte size of one `struct input_event`: the `timeval`, then `u16 type`,
/// `u16 code` and `i32 value` (16 bytes on 32-bit targets, 24 on 64-bit).
pub open spec fn event_size_spec() -> int {
    type_offset_spec() + 8
}

pub fn type_offset() -> (n: usize)
    ensures
        n == type_offset_spec(),
{
    2 * core::mem::size_of::<isize>()
}

pub fn event_size() -> (n: usize)
    ensures
        n == event_size_spec(),
{
    type_offset() + 8
}

#[derive(Clone, Copy, Debug, PartialEq, Eq, Structural)]
pub enum TouchKind {
    Down,
    Move,
    Up,
}

/// A decoded touch gesture point, in raw device coordinates.
#[derive(Clone, Copy, Debug, PartialEq, Eq, Structural)]
pub struct TouchEvent {
    pub kind: TouchKind,
    pub x: i32,
    pub y: i32,
}

/// Accumulates raw records into gestures, emitting one `TouchEvent` per
/// completed `SYN_REPORT` frame that changed state.
#[derive(Clone, Copy, Debug, PartialEq, Eq, Structural)]
pub struct TouchDecoder {
    pub x: i32,
    pub y: i32,
    pub down: bool,
    /// A coordinate changed in the current frame.
    pub pending_pos: bool,
    /// The contact state reported in the current frame, if any.
    pub pending_down: Option<bool>,
}

/// Little-endian `u16` from two bytes.
pub open spec fn le_u16(b0: u8, b1: u8) -> u16 {
    (b0 + 256 * b1) as u16
}

/// Little-endian `i32` from four bytes (two's complement).
pub open spec fn le_i32(b0: u8, b1: u8, b2: u8, b3: u8) -> i32 {
    (b0 + 256 * b1 + 65536 * b2 + 16777216 * b3) as u32 as i32
}

/// The decoder after one frame ends, and the gesture it emits.
pub open spec fn flush_spec(d: TouchDecoder) -> (TouchDecoder, Option<TouchEvent>) {
    let cleared = TouchDecoder { pending_pos: false, pending_down: None, ..d };
    if d.pending_down == Some(true) && !d.down {
        (TouchDecoder { down: true, ..cleared }, Some(TouchEvent { kind: TouchKind::Down, x: d.x, y: d.y }))
    } else if d.pending_down == Some(false) && d.down {
        (TouchDecoder { down: false, ..cleared }, Some(TouchEvent { kind: TouchKind::Up, x: d.x, y: d.y }))
    } else if d.down && d.pending_pos {
        (cleared, Some(TouchEvent { kind: TouchKind::Move, x: d.x, y: d.y }))
    } else {
        (cleared, None)
    }
}

/// The decoder after one event `(etype, code, value)`, and what it emits.
pub open spec fn feed_spec(d: TouchDecoder, etype: u16, code: u16, value: i32) -> (TouchDecoder, Option<TouchEvent>) {
    if etype == EV_ABS && (code == ABS_X || code == ABS_MT_POSITION_X) {
        (TouchDecoder { x: value, pending_pos: true, ..d }, None)
    } else if etype == EV_ABS && (code == ABS_Y || code == ABS_MT_POSITION_Y) {
        (TouchDecoder { y: value, pending_pos: true, ..d }, None)
    } else if etype == EV_ABS && code == ABS_MT_TRACKING_ID {
        (TouchDecoder { pending_down: Some(value >= 0), ..d }, None)
    } else if etype == EV_KEY && code == BTN_TOUCH {
        (TouchDecoder { pending_down: Some(value != 0), ..d }, None)
    } else if etype == EV_SYN && code == SYN_REPORT {
        flush_spec(d)
    } else {
        (d, None)
    }
}

/// The `(type, code, value)` fields of a record long enough to hold them.
pub open spec fn record_fields(r: Seq<u8>) -> (u16, u16, i32) {
    let o = type_offset_spec();
    (le_u16(r[o], r[o + 1]), le_u16(r[o + 2], r[o + 3]), le_i32(r[o + 4], r[o + 5], r[o + 6], r[o + 7]))
}

impl TouchDecoder {
    pub fn new() -> (d: TouchDecoder)
        ensures
            d == (TouchDecoder { x: 0, y: 0, down: false, pending_pos: false, pending_down: None }),
    {
        TouchDecoder { x: 0, y: 0, down: false, pending_pos: false, pending_down: None }
    }

    /// Feeds one raw record. A record shorter than `event_size()` is ignored;
    /// otherwise the event is applied and, when it completes a frame with a
    /// meaningful change, the gesture is returned.
    pub fn feed(&mut self, record: &[u8]) -> (ev: Option<TouchEvent>)
        ensures
            record@.len() < event_size_spec() ==> *final(self) == *old(self) && ev is None,
            record@.len() >= event_size_spec() ==> ({
                let (t, c, v) = record_fields(record@);
                (*final(self), ev) == feed_spec(*old(self), t, c, v)
            }),
    {
        let n = event_size();
        if record.len() < n {
            return None;
        }
        let o = type_offset();
        let etype = record[o] as u16 + 256 * (record[o + 1] as u16);
        let code = record[o + 2] as u16 + 256 * (record[o + 3] as u16);
        let raw: u32 = record[o + 4] as u32 + 256 * (record[o + 5] as u32) + 65536 * (record[o + 6] as u32)
            + 16777216 * (record[o + 7] as u32);
        let value = raw as i32;
        if etype == EV_ABS {
            if code == ABS_X || code == ABS_MT_POSITION_X {
                self.x = value;
                self.pending_pos = true;
            } else if code == ABS_Y || code == ABS_MT_POSITION_Y {
                self.y = value;
                self.pending_pos = true;
            } else if code == ABS_MT_TRACKING_ID {
                self.pending_down = Some(value >= 0);
            }
            None
        } else if etype == EV_KEY && code == BTN_TOUCH {
            self.pending_down = Some(value != 0);
            None
        } else if etype == EV_SYN && code == SYN_REPORT {
            self.flush_frame()
        } else {
            None
        }
    }

    /// Ends the current frame: applies the pending contact change and returns
    /// `Down` on a new contact, `Up` on a release, `Move` when a held contact
    /// moved, and nothing otherwise.
    pub fn flush_frame(&mut self) -> (ev: Option<TouchEvent>)
        ensures
            (*final(self), ev) == flush_spec(*old(self)),
    {
        let was_down = self.down;
        let pos_changed = self.pending_pos;
        let (set_down, clear_down) = match self.pending_down {
            Some(b) => (b, !b),
            None => (false, false),
        };
        self.pending_down = None;
        self.pending_pos = false;
        if set_down && !was_down {
            self.down = true;
            Some(TouchEvent { kind: TouchKind::Down, x: self.x, y: self.y })
        } else if clear_down && was_down {
            self.down = false;
            Some(TouchEvent { kind: TouchKind::Up, x: self.x, y: self.y })
        } else if was_down && pos_changed {
            Some(TouchEvent { kind: TouchKind::Move, x: self.x, y: self.y })
        } else {
            None
        }
    }
}

/// A held contact that moves is reported: while the contact is down (and no
/// release is pending), a new Y coordinate (`ABS_Y` or `ABS_MT_POSITION_Y`)
/// followed by `SYN_REPORT` emits a `Move` at the old X and the new Y, and the
/// contact stays down. Likewise for X.
pub proof fn law_held_contact_reports_moves(d: TouchDecoder, code: u16, value: i32)
    requires
        d.down,
        d.pending_down != Some(false),
    ensures
        code == ABS_Y || code == ABS_MT_POSITION_Y ==> {
            let (d1, e1) = feed_spec(d, EV_ABS, code, value);
            let (d2, e2) = feed_spec(d1, EV_SYN, SYN_REPORT, 0);
            &&& e1 is None
            &&& e2 == Some(TouchEvent { kind: TouchKind::Move, x: d.x, y: value })
            &&& d2.down
            &&& d2.x == d.x && d2.y == value
        },
        code == ABS_X || code == ABS_MT_POSITION_X ==> {
            let (d1, e1) = feed_spec(d, EV_ABS, code, value);
            let (d2, e2) = feed_spec(d1, EV_SYN, SYN_REPORT, 0);
            &&& e1 is None
            &&& e2 == Some(TouchEvent { kind: TouchKind::Move, x: value, y: d.y })
            &&& d2.down
            &&& d2.x == value && d2.y == d.y
        },
{
}

/// A contact starts and ends where the decoder's coordinates are: with no
/// contact held, a tracking id `>= 0` (or `BTN_TOUCH` pressed) then
/// `SYN_REPORT` emits `Down` at the current point; with a contact held, a
/// tracking id `< 0` (or `BTN_TOUCH` released) then `SYN_REPORT` emits `Up`.
pub proof fn law_contact_edges(d: TouchDecoder, value: i32)
    ensures
        !d.down && value >= 0 ==> {
            let (d1, e1) = feed_spec(d, EV_ABS, ABS_MT_TRACKING_ID, value);
            let (d2, e2) = feed_spec(d1, EV_SYN, SYN_REPORT, 0);
            &&& e1 is None
            &&& e2 == Some(TouchEvent { kind: TouchKind::Down, x: d.x, y: d.y })
            &&& d2.down
        },
        d.down && value < 0 ==> {
            let (d1, e1) = feed_spec(d, EV_ABS, ABS_MT_TRACKING_ID, value);
            let (d2, e2) = feed_spec(d1, EV_SYN, SYN_REPORT, 0);
            &&& e1 is None
            &&& e2 == Some(TouchEvent { kind: TouchKind::Up, x: d.x, y: d.y })
            &&& !d2.down
        },
        !d.down && value != 0 ==> {
            let (d1, e1) = feed_spec(d, EV_KEY, BTN_TOUCH, value);
            let (d2, e2) = feed_spec(d1, EV_SYN, SYN_REPORT, 0);
            &&& e1 is None
            &&& e2 == Some(TouchEvent { kind: TouchKind::Down, x: d.x, y: d.y })
            &&& d2.down
        },
        d.down && value == 0 ==> {
            let (d1, e1) = feed_spec(d, EV_KEY, BTN_TOUCH, value);
            let (d2, e2) = feed_spec(d1, EV_SYN, SYN_REPORT, 0);
            &&& e1 is None
            &&& e2 == Some(TouchEvent { kind: TouchKind::Up, x: d.x, y: d.y })
            &&& !d2.down
        },
{
}

/// A frame emits `Down` only for a new contact and `Up` only for a release;
/// after it, nothing of the frame stays pending.
pub proof fn law_frame_edges(d: TouchDecoder)
    ensures
        flush_spec(d).1 matches Some(e) && e.kind == TouchKind::Down ==> !d.down && flush_spec(d).0.down,
        flush_spec(d).1 matches Some(e) && e.kind == TouchKind::Up ==> d.down && !flush_spec(d).0.down,
        flush_spec(d).1 matches Some(e) && e.kind == TouchKind::Move ==> d.down && flush_spec(d).0.down,
        !flush_spec(d).0.pending_pos && flush_spec(d).0.pending_down is None,
        flush_spec(d).1 matches Some(e) ==> e.x == d.x && e.y == d.y,
{
}

/// Maps raw device coordinates to screen pixels.
#[derive(Clone, Copy, Debug, PartialEq, Eq, Structural)]
pub struct Calibration {
    /// Raw coordinate range reported by the digitizer.
    pub raw: Size,
    /// Target screen size in pixels.
    pub screen: Size,
    /// Swap X and Y (portrait/landscape digitizer mismatch).
    pub swap_xy: bool,
    /// Invert the (post-swap) X axis.
    pub invert_x: bool,
    /// Invert the (post-swap) Y axis.
    pub invert_y: bool,
}

/// Calibration overrides, as read from the environment by the caller:
/// `SIGNALKIT_TOUCH_SWAP`, `SIGNALKIT_TOUCH_INVERT_X`,
/// `SIGNALKIT_TOUCH_INVERT_Y` (each the variable's value, if set) and
/// `SIGNALKIT_TOUCH_RAW` (`WxH`).
pub struct CalibrationEnv {
    pub swap: Option<String>,
    pub invert_x: Option<String>,
    pub invert_y: Option<String>,
    pub raw: Option<String>,
}

/// A flag variable is on when its value is exactly `1`.
pub open spec fn flag_on(v: Option<String>) -> bool {
    v matches Some(s) && s@ == seq!['1']
}

/// `i32::saturating_sub`.
pub open spec fn sat_sub(a: i32, b: i32) -> i32 {
    if a - b > i32::MAX { i32::MAX } else if a - b < i32::MIN { i32::MIN } else { (a - b) as i32 }
}

pub open spec fn clamp_spec(v: int, lo: int, hi: int) -> int {
    if v < lo { lo } else if v > hi { hi } else { v }
}

/// Rust's `/` by a positive divisor, rounding toward zero.
pub open spec fn div_trunc(a: int, b: int) -> int {
    if a >= 0 { a / b } else { -((-a) / b) }
}

/// The post-swap, post-inversion raw coordinates and ranges.
pub open spec fn oriented(c: Calibration, raw_x: i32, raw_y: i32) -> (i32, i32, i32, i32) {
    let (rx, ry) = if c.swap_xy { (raw_y, raw_x) } else { (raw_x, raw_y) };
    let (rw, rh) = if c.swap_xy { (c.raw.h, c.raw.w) } else { (c.raw.w, c.raw.h) };
    let rx2 = if c.invert_x { sat_sub(rw, rx) } else { rx };
    let ry2 = if c.invert_y { sat_sub(rh, ry) } else { ry };
    (rx2, ry2, rw, rh)
}

/// One axis: scale `r` from the raw range `range` to `screen` pixels.
pub open spec fn scale_axis(r: i32, range: i32, screen: i32) -> int {
    if range > 0 { div_trunc(r * screen, range as int) } else { r as int }
}

/// `map` computes the calibrated point in `i32` arithmetic: the screen must
/// not be empty and scaling must not overflow.
pub open spec fn map_fits(c: Calibration, raw_x: i32, raw_y: i32) -> bool {
    let (rx, ry, rw, rh) = oriented(c, raw_x, raw_y);
    &&& c.screen.w >= 1 && c.screen.h >= 1
    &&& rw > 0 ==> i32::MIN <= rx * c.screen.w <= i32::MAX
    &&& rh > 0 ==> i32::MIN <= ry * c.screen.h <= i32::MAX
}

pub open spec fn map_spec(c: Calibration, raw_x: i32, raw_y: i32) -> (int, int) {
    let (rx, ry, rw, rh) = oriented(c, raw_x, raw_y);
    (
        clamp_spec(scale_axis(rx, rw, c.screen.w), 0, c.screen.w - 1),
        clamp_spec(scale_axis(ry, rh, c.screen.h), 0, c.screen.h - 1),
    )
}

fn saturating_sub_i32(a: i32, b: i32) -> (r: i32)
    ensures
        r == sat_sub(a, b),
{
    let d: i64 = a as i64 - b as i64;
    if d > i32::MAX as i64 {
        i32::MAX
    } else if d < i32::MIN as i64 {
        i32::MIN
    } else {
        d as i32
    }
}

fn clamp_i32(v: i32, lo: i32, hi: i32) -> (r: i32)
    requires
        lo <= hi,
    ensures
        r == clamp_spec(v as int, lo as int, hi as int),
{
    if v < lo {
        lo
    } else if v > hi {
        hi
    } else {
        v
    }
}

fn scale(r: i32, range: i32, screen: i32) -> (s: i32)
    requires
        range > 0 ==> i32::MIN <= r * screen <= i32::MAX,
    ensures
        s == scale_axis(r, range, screen),
{
    if range > 0 {
        let p: i64 = r as i64 * screen as i64;
        let b: i64 = range as i64;
        let q: i64 = if p >= 0 { p / b } else { -((-p) / b) };
        proof {
            if p >= 0 {
                assert(p / b <= p) by (nonlinear_arith)
                    requires p >= 0, b > 0;
            } else {
                let m: int = -(p as int);
                let bb: int = b as int;
                assert(m / bb <= m && m / bb >= 0) by (nonlinear_arith)
                    requires m > 0, bb > 0;
            }
        }
        q as i32
    } else {
        r
    }
}

/// Parses a decimal `i32` as `str::parse` does: an optional sign, then one
/// or more digits, within range.
pub open spec fn parse_i32_digits(s: Seq<char>) -> Option<int>
    decreases s.len(),
{
    if s.len() == 0 {
        Some(0)
    } else if '0' <= s.last() <= '9' {
        match parse_i32_digits(s.drop_last()) {
            Some(v) => Some(v * 10 + (s.last() as int - '0' as int)),
            None => None,
        }
    } else {
        None
    }
}

pub open spec fn parse_i32_spec(s: Seq<char>) -> Option<i32> {
    let (neg, digits) = if s.len() > 0 && (s[0] == '-' || s[0] == '+') {
        (s[0] == '-', s.drop_first())
    } else {
        (false, s)
    };
    if digits.len() == 0 {
        None
    } else {
        match parse_i32_digits(digits) {
            Some(v) => {
                let n = if neg { -v } else { v };
                if i32::MIN <= n <= i32::MAX { Some(n as i32) } else { None }
            },
            None => None,
        }
    }
}

/// `WxH`, split at the first `x`, both halves parsed as `i32`.
pub open spec fn parse_raw_size(s: Seq<char>) -> Option<(i32, i32)> {
    match find_char(s, 'x') {
        Some(i) => match (parse_i32_spec(s.subrange(0, i)), parse_i32_spec(s.subrange(i + 1, s.len() as int))) {
            (Some(w), Some(h)) => Some((w, h)),
            _ => None,
        },
        None => None,
    }
}

/// `c` with the environment overrides applied: the three flags are always
/// set from the environment; the raw range only when `SIGNALKIT_TOUCH_RAW`
/// parses.
pub open spec fn with_overrides(c: Calibration, env: CalibrationEnv) -> Calibration {
    let raw = match env.raw {
        Some(s) => match parse_raw_size(s@) {
            Some((w, h)) => Size { w, h },
            None => c.raw,
        },
        None => c.raw,
    };
    Calibration {
        raw,
        swap_xy: flag_on(env.swap),
        invert_x: flag_on(env.invert_x),
        invert_y: flag_on(env.invert_y),
        ..c
    }
}

/// Parses a decimal `i32` (`str::parse::<i32>`).
pub fn parse_i32(s: &str) -> (r: Option<i32>)
    ensures
        r == parse_i32_spec(s@),
{
    let n = s.unicode_len();
    let mut start: usize = 0;
    let mut neg = false;
    if n > 0 {
        let c0 = s.get_char(0);
        if c0 == '-' || c0 == '+' {
            neg = c0 == '-';
            start = 1;
        }
    }
    let ghost digits = s@.subrange(start as int, n as int);
    proof {
        if start == 1 {
            assert(digits == s@.drop_first());
        } else {
            assert(digits == s@);
        }
    }
    if start == n {
        return None;
    }
    // Accumulate the magnitude in i64; stop once it cannot fit any i32.
    let mut acc: i64 = 0;
    let mut i: usize = start;
    while i < n
        invariant
            start <= i <= n,
            n == s@.len(),
            digits == s@.subrange(start as int, n as int),
            parse_i32_digits(s@.subrange(start as int, i as int)) == Some(acc as int),
            0 <= acc <= 0x8000_0000,
            start < n,
            start <= 1,
            start == 1 ==> digits == s@.drop_first() && s@.len() > 0 && (s@[0] == '-' || s@[0] == '+'),
            start == 0 ==> digits == s@ && !(s@.len() > 0 && (s@[0] == '-' || s@[0] == '+')),
            neg == (start == 1 && s@[0] == '-'),
        decreases n - i,
    {
        let c = s.get_char(i);
        assert(s@.subrange(start as int, i + 1).drop_last() == s@.subrange(start as int, i as int));
        if !('0' <= c && c <= '9') {
            proof {
                assert(digits[i - start] == c);
                lemma_digits_invalid_suffix(digits, i - start);
                lemma_parse_none(s@, digits);
            }
            return None;
        }
        let d = (c as u32 - '0' as u32) as i64;
        acc = acc * 10 + d;
        assert(parse_i32_digits(s@.subrange(start as int, i + 1)) == Some(acc as int));
        if acc > 0x8000_0000 {
            proof {
                assert(digits.subrange(0, i + 1 - start) =~= s@.subrange(start as int, i + 1));
                lemma_digits_large_suffix(digits, i + 1 - start, acc as int);
                lemma_parse_none(s@, digits);
            }
            return None;
        }
        i += 1;
    }
    assert(s@.subrange(start as int, n as int) == digits);
    let v: i64 = if neg { -acc } else { acc };
    if v > i32::MAX as i64 {
        None
    } else {
        Some(v as i32)
    }
}

proof fn lemma_parse_none(s: Seq<char>, digits: Seq<char>)
    requires
        digits.len() > 0,
        (s.len() > 0 && (s[0] == '-' || s[0] == '+')) ==> digits == s.drop_first(),
        !(s.len() > 0 && (s[0] == '-' || s[0] == '+')) ==> digits == s,
        parse_i32_digits(digits) is None || parse_i32_digits(digits).unwrap() > 0x8000_0000,
    ensures
        parse_i32_spec(s) is None,
{
}

proof fn lemma_digits_invalid_suffix(d: Seq<char>, k: int)
    requires
        0 <= k < d.len(),
        !('0' <= d[k] <= '9'),
    ensures
        parse_i32_digits(d) is None,
    decreases d.len(),
{
    if k < d.len() - 1 {
        assert(d.drop_last()[k] == d[k]);
        lemma_digits_invalid_suffix(d.drop_last(), k);
    }
}

proof fn lemma_digits_large_suffix(d: Seq<char>, k: int, v: int)
    requires
        0 < k <= d.len(),
        parse_i32_digits(d.subrange(0, k)) == Some(v),
        v > 0x8000_0000,
    ensures
        parse_i32_digits(d) is None || parse_i32_digits(d).unwrap() > 0x8000_0000,
    decreases d.len() - k,
{
    if k == d.len() {
        assert(d.subrange(0, k) == d);
    } else {
        let p = d.subrange(0, k + 1);
        assert(p.drop_last() == d.subrange(0, k));
        if '0' <= p.last() <= '9' {
            assert(parse_i32_digits(p).unwrap() >= v * 10);
            lemma_digits_large_suffix(d, k + 1, parse_i32_digits(p).unwrap());
        } else {
            lemma_digits_invalid_suffix(d, k);
        }
    }
}

/// `WxH` as `(w, h)`.
pub fn parse_raw(s: &str) -> (r: Option<(i32, i32)>)
    ensures
        r == parse_raw_size(s@),
{
    let chars = chars_of(s);
    match find(chars.as_slice(), 'x') {
        Some(i) => {
            let n = s.unicode_len();
            let w = parse_i32(s.substring_char(0, i));
            let h = parse_i32(s.substring_char(i + 1, n));
            match (w, h) {
                (Some(w), Some(h)) => Some((w, h)),
                _ => None,
            }
        },
        None => None,
    }
}

fn is_flag_on(v: &Option<String>) -> (b: bool)
    ensures
        b == flag_on(*v),
{
    match v {
        Some(s) => {
            let t = s.as_str();
            let r = t.unicode_len() == 1 && t.get_char(0) == '1';
            proof {
                if t@ == seq!['1'] {
                    assert(t@.len() == 1 && t@[0] == '1');
                }
                if r {
                    assert(t@ =~= seq!['1']);
                }
            }
            r
        },
        None => false,
    }
}

impl Calibration {
    /// Identity mapping: raw coordinates already match screen pixels.
    pub fn identity(screen: Size) -> (c: Calibration)
        ensures
            c == (Calibration { raw: screen, screen, swap_xy: false, invert_x: false, invert_y: false }),
    {
        Calibration { raw: screen, screen, swap_xy: false, invert_x: false, invert_y: false }
    }

    /// Applies the environment overrides.
    pub fn apply_env_overrides(&mut self, env: &CalibrationEnv)
        ensures
            *final(self) == with_overrides(*old(self), *env),
    {
        self.swap_xy = is_flag_on(&env.swap);
        self.invert_x = is_flag_on(&env.invert_x);
        self.invert_y = is_flag_on(&env.invert_y);
        match &env.raw {
            Some(s) => {
                match parse_raw(s.as_str()) {
                    Some((w, h)) => {
                        self.raw = Size::new(w, h);
                    },
                    None => {},
                }
            },
            None => {},
        }
    }

    /// From the digitizer's axis maxima, or identity when either is not
    /// positive (the query failed); then the environment overrides.
    pub fn from_device(screen: Size, raw_max: (i32, i32), env: &CalibrationEnv) -> (c: Calibration)
        ensures
            c == with_overrides(
                if raw_max.0 > 0 && raw_max.1 > 0 {
                    Calibration { raw: Size { w: raw_max.0, h: raw_max.1 }, screen, swap_xy: false, invert_x: false, invert_y: false }
                } else {
                    Calibration { raw: screen, screen, swap_xy: false, invert_x: false, invert_y: false }
                },
                *env,
            ),
    {
        let mut c = if raw_max.0 > 0 && raw_max.1 > 0 {
            Calibration { raw: Size::new(raw_max.0, raw_max.1), screen, swap_xy: false, invert_x: false, invert_y: false }
        } else {
            Calibration::identity(screen)
        };
        c.apply_env_overrides(env);
        c
    }

    /// Identity, then the environment overrides.
    pub fn from_env(screen: Size, env: &CalibrationEnv) -> (c: Calibration)
        ensures
            c == with_overrides(Calibration { raw: screen, screen, swap_xy: false, invert_x: false, invert_y: false }, *env),
    {
        let mut c = Calibration::identity(screen);
        c.apply_env_overrides(env);
        c
    }

    /// Whether `map` can take this raw point: the screen is not empty and
    /// scaling stays within `i32`.
    pub fn can_map(&self, raw_x: i32, raw_y: i32) -> (b: bool)
        ensures
            b == map_fits(*self, raw_x, raw_y),
    {
        let (mut rx, mut ry) = if self.swap_xy { (raw_y, raw_x) } else { (raw_x, raw_y) };
        let (rw, rh) = if self.swap_xy { (self.raw.h, self.raw.w) } else { (self.raw.w, self.raw.h) };
        if self.invert_x {
            rx = saturating_sub_i32(rw, rx);
        }
        if self.invert_y {
            ry = saturating_sub_i32(rh, ry);
        }
        if self.screen.w < 1 || self.screen.h < 1 {
            return false;
        }
        assert(-0x4000_0000_0000_0000 <= (rx as int) * (self.screen.w as int) <= 0x4000_0000_0000_0000) by (nonlinear_arith)
            requires
                i32::MIN <= rx <= i32::MAX,
                i32::MIN <= self.screen.w <= i32::MAX,
        ;
        assert(-0x4000_0000_0000_0000 <= (ry as int) * (self.screen.h as int) <= 0x4000_0000_0000_0000) by (nonlinear_arith)
            requires
                i32::MIN <= ry <= i32::MAX,
                i32::MIN <= self.screen.h <= i32::MAX,
        ;
        let px = (rx as i64) * (self.screen.w as i64);
        let py = (ry as i64) * (self.screen.h as i64);
        assert(px == rx * self.screen.w) by (nonlinear_arith)
            requires
                px == (rx as i64) * (self.screen.w as i64),
                i32::MIN <= rx <= i32::MAX,
                i32::MIN <= self.screen.w <= i32::MAX,
        ;
        assert(py == ry * self.screen.h) by (nonlinear_arith)
            requires
                py == (ry as i64) * (self.screen.h as i64),
                i32::MIN <= ry <= i32::MAX,
                i32::MIN <= self.screen.h <= i32::MAX,
        ;
        let x_ok = rw <= 0 || (i32::MIN as i64 <= px && px <= i32::MAX as i64);
        let y_ok = rh <= 0 || (i32::MIN as i64 <= py && py <= i32::MAX as i64);
        x_ok && y_ok
    }

    /// Applies the calibration to a raw touch point: swap, invert within the
    /// raw range, scale to the screen, clamp onto it.
    pub fn map(&self, raw_x: i32, raw_y: i32) -> (p: Point)
        requires
            map_fits(*self, raw_x, raw_y),
        ensures
            (p.x as int, p.y as int) == map_spec(*self, raw_x, raw_y),
    {
        let (mut rx, mut ry) = if self.swap_xy { (raw_y, raw_x) } else { (raw_x, raw_y) };
        let (rw, rh) = if self.swap_xy { (self.raw.h, self.raw.w) } else { (self.raw.w, self.raw.h) };
        if self.invert_x {
            rx = saturating_sub_i32(rw, rx);
        }
        if self.invert_y {
            ry = saturating_sub_i32(rh, ry);
        }
        let sx = scale(rx, rw, self.screen.w);
        let sy = scale(ry, rh, self.screen.h);
        Point::new(clamp_i32(sx, 0, self.screen.w - 1), clamp_i32(sy, 0, self.screen.h - 1))
    }
}

/// Every calibrated point lies on the screen.
pub proof fn law_map_on_screen(c: Calibration, raw_x: i32, raw_y: i32)
    requires
        map_fits(c, raw_x, raw_y),
    ensures
        0 <= map_spec(c, raw_x, raw_y).0 < c.screen.w,
        0 <= map_spec(c, raw_x, raw_y).1 < c.screen.h,
{
}

/// The handler after a `H: Handlers=` line's tokens: the last `event*`
/// token, or the previous handler when there is none.
pub open spec fn handler_after(handler: Option<Seq<char>>, toks: Seq<Seq<char>>) -> Option<Seq<char>>
    decreases toks.len(),
{
    if toks.len() == 0 {
        handler
    } else if starts_with(toks.last(), "event"@) {
        Some(toks.last())
    } else {
        handler_after(handler, toks.drop_last())
    }
}

/// A device block of `/proc/bus/input/devices`, line by line: its event
/// handler, and whether its `B: EV=` bitmask advertises absolute axes
/// (`EV_ABS`, bit 3).
pub open spec fn block_scan(ls: Seq<Seq<char>>) -> (Option<Seq<char>>, bool)
    decreases ls.len(),
{
    if ls.len() == 0 {
        (None, false)
    } else {
        let (h, abs) = block_scan(ls.drop_last());
        let line = ls.last();
        if starts_with(line, "H: Handlers="@) {
            (handler_after(h, words_from(after(line, "H: Handlers="@), 0)), abs)
        } else if starts_with(line, "B: EV="@) {
            match parse_u64_spec(trim(after(line, "B: EV="@)), 16) {
                Ok(bits) => (h, (bits / 8) % 2 == 1),
                Err(_) => (h, abs),
            }
        } else {
            (h, abs)
        }
    }
}

/// The handler of the first block with absolute axes and a handler.
pub open spec fn first_touch(blocks: Seq<Seq<char>>) -> Option<Seq<char>>
    decreases blocks.len(),
{
    if blocks.len() == 0 {
        None
    } else {
        let (h, abs) = block_scan(lines(blocks[0]));
        if abs && h is Some {
            h
        } else {
            first_touch(blocks.drop_first())
        }
    }
}

/// The `eventN` node of the touchscreen described in `text` (the content of
/// `/proc/bus/input/devices`, blocks separated by blank lines).
pub open spec fn touch_device_spec(text: Seq<char>) -> Option<Seq<char>> {
    first_touch(split_str_from(text, "\n\n"@, 0))
}

pub open spec fn opt_view(o: Option<Vec<char>>) -> Option<Seq<char>> {
    match o {
        Some(v) => Some(v@),
        None => None,
    }
}

fn scan_block(block: &[char]) -> (r: (Option<Vec<char>>, bool))
    ensures
        (opt_view(r.0), r.1) == block_scan(lines(block@)),
{
    let ls = lines_of(block);
    let ghost lv = vec_views(ls@);
    assert(lv == lines(block@)) by {
        assert(lv =~= ls@.map_values(|l: Vec<char>| l@));
    }
    let mut handler: Option<Vec<char>> = None;
    let mut has_abs = false;
    let mut i: usize = 0;
    assert(lv.subrange(0, 0) =~= Seq::<Seq<char>>::empty());
    while i < ls.len()
        invariant
            i <= ls@.len(),
            lv == vec_views(ls@),
            (opt_view(handler), has_abs) == block_scan(lv.subrange(0, i as int)),
        decreases ls@.len() - i,
    {
        let line = ls[i].as_slice();
        assert(lv.subrange(0, i + 1).drop_last() =~= lv.subrange(0, i as int));
        assert(lv.subrange(0, i + 1).last() == line@);
        if has_prefix(line, "H: Handlers=") {
            let rest = strip_prefix(line, "H: Handlers=");
            let toks = words(rest.as_slice());
            let ghost tv = vec_views(toks@);
            let ghost h0 = opt_view(handler);
            let mut k: usize = 0;
            assert(tv.subrange(0, 0) =~= Seq::<Seq<char>>::empty());
            while k < toks.len()
                invariant
                    k <= toks@.len(),
                    tv == vec_views(toks@),
                    opt_view(handler) == handler_after(h0, tv.subrange(0, k as int)),
                decreases toks@.len() - k,
            {
                assert(tv.subrange(0, k + 1).drop_last() =~= tv.subrange(0, k as int));
                assert(tv.subrange(0, k + 1).last() == toks@[k as int]@);
                if has_prefix(toks[k].as_slice(), "event") {
                    handler = Some(toks[k].clone());
                    proof {
                        assert(handler->0@ == toks@[k as int]@);
                    }
                }
                k += 1;
            }
            assert(tv.subrange(0, tv.len() as int) =~= tv);
        } else if has_prefix(line, "B: EV=") {
            let rest = strip_prefix(line, "B: EV=");
            let t = trim_chars(rest.as_slice());
            match parse_u64_radix(t.as_slice(), 16) {
                Ok(bits) => {
                    has_abs = bits & 8 != 0;
                    assert((bits & 8 != 0) == ((bits / 8) % 2 == 1)) by (bit_vector);
                },
                Err(_) => {},
            }
        }
        i += 1;
    }
    assert(lv.subrange(0, lv.len() as int) =~= lv);
    (handler, has_abs)
}

/// Finds the touchscreen's `eventN` node in the content of
/// `/proc/bus/input/devices`: the handler of the first device block whose
/// event-type bitmask has `EV_ABS`.
pub fn parse_touch_device(text: &str) -> (r: Option<String>)
    ensures
        match touch_device_spec(text@) {
            Some(h) => r matches Some(n) && n@ == h,
            None => r is None,
        },
{
    let s = chars_of(text);
    let sep = chars_of("\n\n");
    proof {
        reveal_strlit("\n\n");
    }
    let blocks = split_str(s.as_slice(), sep.as_slice());
    let ghost bv = vec_views(blocks@);
    let mut i: usize = 0;
    assert(bv.subrange(0, bv.len() as int) =~= bv);
    while i < blocks.len()
        invariant
            i <= blocks@.len(),
            bv == vec_views(blocks@),
            bv == split_str_from(text@, "\n\n"@, 0),
            first_touch(bv) == first_touch(bv.subrange(i as int, bv.len() as int)),
        decreases blocks@.len() - i,
    {
        let ghost rest = bv.subrange(i as int, bv.len() as int);
        assert(rest[0] == blocks@[i as int]@);
        assert(rest.drop_first() =~= bv.subrange(i + 1, bv.len() as int));
        let (h, abs) = scan_block(blocks[i].as_slice());
        if abs {
            match h {
                Some(node) => {
                    assert(block_scan(lines(rest[0])) == (Some(node@), true));
                    assert(first_touch(rest) == Some(node@));
                    assert(bv == split_str_from(text@, "\n\n"@, 0));
                    return Some(string_of(node.as_slice()));
                },
                None => {},
            }
        }
        i += 1;
    }
    None
}

} // verus!
