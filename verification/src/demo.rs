//! The SignalKit demo screen: a title, a counter label with -/+ buttons, a
//! keyed list of rows with an "Add row" button, and an "Exit" button. The
//! program supplies the tap handlers; the counter and the rows are written
//! into the tree by `App::set_label_text` and `keyed::sync_keyed_children`.

use std::rc::Rc;

use vstd::prelude::*;

use crate::render::Color;
use crate::text::push_chars;
use crate::widget::{Align, AnyWidget, Axis, Button, Common, Label, Spacer, Stack, TapHandler};

verus! {

/// Index of the counter label among the root's children.
pub const COUNTER: usize = 1;

/// Index of the row list among the root's children.
pub const LIST: usize = 4;

/// `w` is a label as `Label::new(text).size(size)` makes it.
pub open spec fn is_label(w: AnyWidget, text: Seq<char>, size: u8) -> bool {
    &&& w matches AnyWidget::Label(l)
    &&& l.common == Common::fresh()
    &&& l.text@ == text
    &&& l.size == size
    &&& l.fg == Color(0)
    &&& l.bg == Color(15)
}

/// `w` is a button as `Button::new(title).size(size).on_tap(handler)` makes it.
pub open spec fn is_button(w: AnyWidget, title: Seq<char>, size: u8, handler: Option<Rc<dyn TapHandler>>) -> bool {
    &&& w matches AnyWidget::Button(b)
    &&& b.common == Common::fresh()
    &&& b.title@ == title
    &&& b.size == size
    &&& b.fg == Color(0)
    &&& b.bg == Color(15)
    &&& b.on_tap == handler
}

/// `w` is a fresh stack with these properties and `n` children.
pub open spec fn is_stack(
    w: AnyWidget,
    axis: Axis,
    spacing: i32,
    padding: i32,
    align: Align,
    bg: Option<Color>,
    n: nat,
) -> bool {
    &&& w matches AnyWidget::Stack(s)
    &&& s.common == Common::fresh()
    &&& s.axis == axis
    &&& s.spacing == spacing
    &&& s.padding == padding
    &&& s.align == align
    &&& s.bg == bg
    &&& s.children@.len() == n
}

/// The demo screen: a white vertical stack (spacing 20, padding 24, centered)
/// holding the title, the counter label (empty until the first sync), the
/// -/+ buttons side by side, the "Rows:" caption, the empty row list, the
/// "Add row" button, a spacer and the "Exit" button.
pub open spec fn demo_screen_spec(
    w: AnyWidget,
    dec: Option<Rc<dyn TapHandler>>,
    inc: Option<Rc<dyn TapHandler>>,
    add: Option<Rc<dyn TapHandler>>,
    exit: Option<Rc<dyn TapHandler>>,
) -> bool {
    &&& is_stack(w, Axis::Vertical, 20, 24, Align::Center, Some(Color(15)), 8)
    &&& w matches AnyWidget::Stack(root) && {
        let ch = root.children@;
        &&& is_label(ch[0], "SignalKit Demo"@, 4)
        &&& is_label(ch[COUNTER as int], ""@, 3)
        &&& is_stack(ch[2], Axis::Horizontal, 24, 0, Align::Center, None, 2)
        &&& ch[2] matches AnyWidget::Stack(buttons) && is_button(buttons.children@[0], " - "@, 3, dec) && is_button(
            buttons.children@[1],
            " + "@,
            3,
            inc,
        )
        &&& is_label(ch[3], "Rows:"@, 2)
        &&& is_stack(ch[LIST as int], Axis::Vertical, 0, 0, Align::Fill, None, 0)
        &&& is_button(ch[5], "Add row"@, 2, add)
        &&& ch[6] == AnyWidget::Spacer(Spacer { common: Common::fresh(), min: 0 })
        &&& is_button(ch[7], "Exit"@, 2, exit)
    }
}

/// Builds the demo screen around the given tap handlers.
pub fn demo_screen(
    dec: Option<Rc<dyn TapHandler>>,
    inc: Option<Rc<dyn TapHandler>>,
    add: Option<Rc<dyn TapHandler>>,
    exit: Option<Rc<dyn TapHandler>>,
) -> (w: AnyWidget)
    ensures
        demo_screen_spec(w, dec, inc, add, exit),
{
    let mut buttons = Stack::horizontal(24, Align::Center);
    buttons.push(AnyWidget::Button(Button::new(" - ").size(3).on_tap(dec)));
    buttons.push(AnyWidget::Button(Button::new(" + ").size(3).on_tap(inc)));
    let list = Stack::vertical(0, Align::Fill);
    let mut root = Stack::vertical(20, Align::Center).background(Color(15));
    root.padding = 24;
    root.push(AnyWidget::Label(Label::new("SignalKit Demo").size(4)));
    root.push(AnyWidget::Label(Label::new("").size(3)));
    root.push(AnyWidget::Stack(buttons));
    root.push(AnyWidget::Label(Label::new("Rows:").size(2)));
    root.push(AnyWidget::Stack(list));
    root.push(AnyWidget::Button(Button::new("Add row").size(2).on_tap(add)));
    root.push(AnyWidget::Spacer(Spacer::new()));
    root.push(AnyWidget::Button(Button::new("Exit").size(2).on_tap(exit)));
    AnyWidget::Stack(root)
}

/// The keys of the demo's rows, in order.
pub open spec fn row_keys_spec(rows: Seq<(u64, String)>) -> Seq<u64> {
    Seq::new(rows.len(), |i: int| rows[i].0)
}

/// Index of the first row with key `key` among the first `k`, if any.
pub open spec fn find_row(rows: Seq<(u64, String)>, key: u64, k: nat) -> Option<int>
    decreases k,
{
    if k == 0 || k > rows.len() {
        None
    } else {
        match find_row(rows, key, (k - 1) as nat) {
            Some(i) => Some(i),
            None => if rows[k - 1].0 == key { Some(k - 1) } else { None },
        }
    }
}

/// The text shown for the row with key `key`: that of the first such row,
/// or nothing.
pub open spec fn row_text(rows: Seq<(u64, String)>, key: u64) -> Seq<char> {
    match find_row(rows, key, rows.len()) {
        Some(i) => rows[i].1@,
        None => Seq::empty(),
    }
}

/// The keys of `rows`, in order.
pub fn row_keys(rows: &Vec<(u64, String)>) -> (keys: Vec<u64>)
    ensures
        keys@ == row_keys_spec(rows@),
{
    let mut keys: Vec<u64> = Vec::new();
    let mut i: usize = 0;
    while i < rows.len()
        invariant
            i <= rows@.len(),
            keys@ == row_keys_spec(rows@).subrange(0, i as int),
        decreases rows@.len() - i,
    {
        keys.push(rows[i].0);
        i += 1;
        assert(keys@ =~= row_keys_spec(rows@).subrange(0, i as int));
    }
    assert(keys@ =~= row_keys_spec(rows@));
    keys
}

/// The widget of the row with key `key`: a label of its text at size 2.
pub fn row_label(rows: &Vec<(u64, String)>, key: u64) -> (w: AnyWidget)
    ensures
        is_label(w, row_text(rows@, key), 2),
{
    let mut i: usize = 0;
    while i < rows.len()
        invariant
            i <= rows@.len(),
            find_row(rows@, key, i as nat) is None,
        decreases rows@.len() - i,
    {
        if rows[i].0 == key {
            proof {
                lemma_find_row_stays(rows@, key, (i + 1) as nat, rows@.len());
            }
            return AnyWidget::Label(Label::new(rows[i].1.as_str()).size(2));
        }
        i += 1;
    }
    proof {
        reveal_strlit("");
        assert(""@ =~= Seq::<char>::empty());
    }
    AnyWidget::Label(Label::new("").size(2))
}

proof fn lemma_find_row_stays(rows: Seq<(u64, String)>, key: u64, j: nat, k: nat)
    requires
        j <= k <= rows.len(),
        find_row(rows, key, j) is Some,
    ensures
        find_row(rows, key, k) == find_row(rows, key, j),
    decreases k - j,
{
    if j < k {
        lemma_find_row_stays(rows, key, j, (k - 1) as nat);
    }
}

/// The decimal digits of `n`.
pub open spec fn decimal(n: nat) -> Seq<char>
    decreases n,
{
    if n < 10 {
        seq![digit_char_spec(n)]
    } else {
        decimal(n / 10).push(digit_char_spec(n % 10))
    }
}

pub open spec fn digit_char_spec(d: nat) -> char {
    if d == 0 { '0' } else if d == 1 { '1' } else if d == 2 { '2' } else if d == 3 { '3' } else if d == 4 {
        '4'
    } else if d == 5 { '5' } else if d == 6 { '6' } else if d == 7 { '7' } else if d == 8 { '8' } else { '9' }
}

/// `n` written in decimal, with a leading `-` when negative.
pub open spec fn decimal_i32(n: i32) -> Seq<char> {
    if n < 0 {
        seq!['-'] + decimal((-(n as int)) as nat)
    } else {
        decimal(n as nat)
    }
}

fn digit_char(d: u64) -> (c: char)
    requires
        d < 10,
    ensures
        c == digit_char_spec(d as nat),
{
    match d {
        0 => '0',
        1 => '1',
        2 => '2',
        3 => '3',
        4 => '4',
        5 => '5',
        6 => '6',
        7 => '7',
        8 => '8',
        _ => '9',
    }
}

/// Appends the decimal digits of `n` to `s`.
fn push_decimal(s: &mut String, n: u64)
    ensures
        final(s)@ == old(s)@ + decimal(n as nat),
    decreases n,
{
    if n >= 10 {
        push_decimal(s, n / 10);
    }
    push_chars(s, &[digit_char(n % 10)]);
    proof {
        if n >= 10 {
            assert(decimal(n as nat) == decimal((n / 10) as nat).push(digit_char_spec((n % 10) as nat)));
        }
    }
}

/// The demo's state: the counter, the rows (key and text) and the next row
/// key to hand out.
pub struct DemoModel {
    pub count: i32,
    pub rows: Vec<(u64, String)>,
    pub next_id: u64,
}

impl DemoModel {
    /// The starting state: count 0, rows 1 "First row" and 2 "Second row".
    pub fn new() -> (m: DemoModel)
        ensures
            m.count == 0,
            m.next_id == 3,
            m.rows@.len() == 2,
            m.rows@[0].0 == 1 && m.rows@[0].1@ == "First row"@,
            m.rows@[1].0 == 2 && m.rows@[1].1@ == "Second row"@,
    {
        let mut rows: Vec<(u64, String)> = Vec::new();
        rows.push((1, String::from_str("First row")));
        rows.push((2, String::from_str("Second row")));
        DemoModel { count: 0, rows, next_id: 3 }
    }

    /// What the -/+ buttons do: the count moves by `delta`.
    pub fn step(&mut self, delta: i32)
        requires
            i32::MIN <= old(self).count + delta <= i32::MAX,
        ensures
            final(self).count == old(self).count + delta,
            final(self).rows == old(self).rows,
            final(self).next_id == old(self).next_id,
    {
        self.count = self.count + delta;
    }

    /// What "Add row" does: a row with the next key and the text `Row <key>`.
    pub fn add_row(&mut self)
        requires
            old(self).next_id < u64::MAX,
        ensures
            final(self).rows@.len() == old(self).rows@.len() + 1,
            final(self).rows@.subrange(0, old(self).rows@.len() as int) == old(self).rows@,
            final(self).rows@.last().0 == old(self).next_id,
            final(self).rows@.last().1@ == "Row "@ + decimal(old(self).next_id as nat),
            final(self).next_id == old(self).next_id + 1,
            final(self).count == old(self).count,
    {
        let id = self.next_id;
        self.next_id = id + 1;
        let mut text = String::from_str("Row ");
        push_decimal(&mut text, id);
        self.rows.push((id, text));
        assert(self.rows@.subrange(0, self.rows@.len() - 1) =~= old(self).rows@);
    }

    /// The counter label's text: `Count: <count>`.
    pub fn counter_text(&self) -> (t: String)
        ensures
            t@ == "Count: "@ + decimal_i32(self.count),
    {
        let mut t = String::from_str("Count: ");
        if self.count < 0 {
            push_chars(&mut t, &['-']);
            let m: u64 = if self.count == i32::MIN { 2147483648u64 } else { (-self.count) as u64 };
            push_decimal(&mut t, m);
            assert(t@ =~= "Count: "@ + decimal_i32(self.count));
        } else {
            push_decimal(&mut t, self.count as u64);
        }
        t
    }
}

} // verus!
