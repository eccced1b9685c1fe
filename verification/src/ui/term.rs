//! Terminal geometry and key input as plain values, for the decisions the
//! dialogs and the browser make.
use vstd::prelude::*;

verus! {

/// A screen rectangle in cells.
#[derive(Debug, Clone, Copy, PartialEq, Eq, Structural, Default)]
pub struct Rect {
    pub x: u16,
    pub y: u16,
    pub width: u16,
    pub height: u16,
}

/// A rectangle that lies on the u16 screen grid.
pub open spec fn rect_on_grid(r: Rect) -> bool {
    r.x + r.width <= u16::MAX && r.y + r.height <= u16::MAX
}

/// A key press, with Ctrl noted for characters.
#[derive(Debug, Clone, Copy, PartialEq, Eq, Structural)]
pub enum KeyInput {
    Char(char, bool),
    Enter,
    Esc,
    Tab,
    BackTab,
    Up,
    Down,
    Left,
    Right,
    Home,
    End,
    PageUp,
    PageDown,
    Backspace,
    Delete,
    F(u8),
    Other,
}

/// A plain (no Ctrl) press of `c`.
pub open spec fn is_plain_char(k: KeyInput, c: char) -> bool {
    k matches KeyInput::Char(x, ctrl) && x == c && !ctrl
}

impl KeyInput {
    pub fn is_char(&self, c: char) -> (b: bool)
        ensures
            b == is_plain_char(*self, c),
    {
        match self {
            KeyInput::Char(x, ctrl) => *x == c && !*ctrl,
            _ => false,
        }
    }
}

/// A second left click on the same cell within this many milliseconds is a
/// double click.
pub const DOUBLE_CLICK_MS: u64 = 400;

/// Whether a left click on (`x`, `y`) makes a double click: the previous
/// click (`last`, taken `elapsed_ms` ago) was on the same cell, and recent.
pub fn is_double_click(last: Option<(u16, u16)>, x: u16, y: u16, elapsed_ms: u64) -> (b: bool)
    ensures
        b == (last == Some((x, y)) && elapsed_ms < DOUBLE_CLICK_MS),
{
    match last {
        Some((lx, ly)) => lx == x && ly == y && elapsed_ms < DOUBLE_CLICK_MS,
        None => false,
    }
}

pub open spec fn sat_sub(a: u16, b: u16) -> u16 {
    if a >= b { (a - b) as u16 } else { 0 }
}

pub open spec fn min_u16(a: u16, b: u16) -> u16 {
    if a <= b { a } else { b }
}

/// A centered popup no larger than `w` x `h` and than the area minus a
/// one-cell margin on each side.
pub open spec fn popup_spec(area: Rect, w: u16, h: u16) -> Rect {
    let w2 = min_u16(w, sat_sub(area.width, 2));
    let h2 = min_u16(h, sat_sub(area.height, 2));
    Rect {
        x: (area.x + sat_sub(area.width, w2) / 2) as u16,
        y: (area.y + sat_sub(area.height, h2) / 2) as u16,
        width: w2,
        height: h2,
    }
}

/// A centered popup rect no larger than the frame allows.
pub fn popup_rect(area: Rect, w: u16, h: u16) -> (r: Rect)
    requires
        rect_on_grid(area),
    ensures
        r == popup_spec(area, w, h),
        rect_on_grid(r),
        area.x <= r.x && r.x + r.width <= area.x + area.width,
        area.y <= r.y && r.y + r.height <= area.y + area.height,
{
    let w: u16 = if w < area.width.saturating_sub(2) { w } else { area.width.saturating_sub(2) };
    let h: u16 = if h < area.height.saturating_sub(2) { h } else { area.height.saturating_sub(2) };
    Rect {
        x: area.x + (area.width.saturating_sub(w)) / 2,
        y: area.y + (area.height.saturating_sub(h)) / 2,
        width: w,
        height: h,
    }
}

/// Whether the cell (`x`, `y`) lies inside `r`.
pub fn rect_contains(r: Rect, x: u16, y: u16) -> (b: bool)
    requires
        rect_on_grid(r),
    ensures
        b == (r.x <= x < r.x + r.width && r.y <= y < r.y + r.height),
{
    x >= r.x && x < r.x + r.width && y >= r.y && y < r.y + r.height
}

} // verus!
