//! The lyric overlay inside the taskbar: its text state, the wide strings and
//! colours handed to the window system, and where the overlay is placed.
use vstd::prelude::*;
use crate::text::chars_of;

verus! {

/// The two texts the overlay draws (the second one under the first, when
/// there is one).
pub struct OverlayState {
    pub text: String,
    pub subtext: String,
}

impl Default for OverlayState {
    fn default() -> (r: OverlayState)
        ensures
            r.text@.len() == 0,
            r.subtext@.len() == 0,
    {
        OverlayState { text: String::new(), subtext: String::new() }
    }
}

impl OverlayState {
    /// Replaces both texts.
    pub fn set_text(&mut self, text: &str, subtext: &str)
        ensures
            final(self).text@ == text@,
            final(self).subtext@ == subtext@,
    {
        self.text = text.to_owned();
        self.subtext = subtext.to_owned();
    }
}

/// How the overlay lays out its texts in a window `height` pixels tall.
pub enum TextLayout {
    /// Nothing to draw but the background.
    Blank,
    /// The text alone, centred.
    OneLine,
    /// The text above `mid`, the subtext below it.
    TwoLines { mid: i32 },
}

/// The layout for `state`: blank when both texts are empty, one line when
/// there is no subtext, else two lines split at half the height.
pub fn text_layout(state: &OverlayState, height: i32) -> (r: TextLayout)
    ensures
        (state.text@.len() == 0 && state.subtext@.len() == 0) ==> r is Blank,
        !(state.text@.len() == 0 && state.subtext@.len() == 0) && state.subtext@.len() == 0
            ==> r is OneLine,
        state.subtext@.len() > 0 ==> (r matches TextLayout::TwoLines { mid } && mid == quot(
            height as int,
            2,
        )),
{
    if state.text.as_str().is_empty() && state.subtext.as_str().is_empty() {
        TextLayout::Blank
    } else if state.subtext.as_str().is_empty() {
        TextLayout::OneLine
    } else {
        TextLayout::TwoLines { mid: half(height) }
    }
}

/// The UTF-16 code units of one character.
pub open spec fn utf16_of_char(c: char) -> Seq<u16> {
    let v = c as int;
    if v < 0x10000 {
        seq![v as u16]
    } else {
        let w = v - 0x10000;
        seq![(0xD800 + w / 1024) as u16, (0xDC00 + w % 1024) as u16]
    }
}

/// `str::encode_utf16`.
pub open spec fn utf16_of(s: Seq<char>) -> Seq<u16>
    decreases s.len(),
{
    if s.len() == 0 {
        seq![]
    } else {
        utf16_of(s.drop_last()) + utf16_of_char(s.last())
    }
}

fn push_utf16(out: &mut Vec<u16>, c: char)
    ensures
        final(out)@ == old(out)@ + utf16_of_char(c),
{
    let v = c as u32;
    if v < 0x10000 {
        out.push(v as u16);
    } else {
        let w = v - 0x10000;
        out.push((0xD800 + w / 1024) as u16);
        out.push((0xDC00 + w % 1024) as u16);
    }
    assert(final(out)@ =~= old(out)@ + utf16_of_char(c));
}

/// `s` in UTF-16, terminated by a zero unit, as the window system takes strings.
pub fn to_wide(s: &str) -> (r: Vec<u16>)
    ensures
        r@ == utf16_of(s@).push(0),
{
    let cs = chars_of(s);
    let mut out: Vec<u16> = Vec::new();
    let mut i: usize = 0;
    while i < cs.len()
        invariant
            cs@ == s@,
            0 <= i <= cs@.len(),
            out@ == utf16_of(cs@.take(i as int)),
        decreases cs@.len() - i,
    {
        assert(cs@.take(i + 1).drop_last() =~= cs@.take(i as int));
        push_utf16(&mut out, cs[i]);
        i = i + 1;
    }
    assert(cs@.take(i as int) =~= cs@);
    out.push(0);
    out
}

/// A GDI colour (`COLORREF`): red in the low byte, then green, then blue.
pub fn rgb(r: u8, g: u8, b: u8) -> (c: u32)
    ensures
        c == r + g * 256 + b * 65536,
{
    let c = (r as u32) | ((g as u32) << 8) | ((b as u32) << 16);
    assert((r as u32) | ((g as u32) << 8) | ((b as u32) << 16) == (r as u32) + (g as u32) * 256
        + (b as u32) * 65536) by (bit_vector);
    c
}

/// Rust's `/` on integers, which rounds toward zero (`b > 0`).
pub open spec fn quot(a: int, b: int) -> int {
    if a >= 0 {
        a / b
    } else {
        -((-a) / b)
    }
}

fn half(a: i32) -> (r: i32)
    ensures
        r == quot(a as int, 2),
{
    a / 2
}

/// Whether the taskbar with this rectangle lies along the screen (wider than tall).
pub fn taskbar_is_horizontal(left: i32, top: i32, right: i32, bottom: i32) -> (r: bool)
    requires
        i32::MIN <= right - left <= i32::MAX,
        i32::MIN <= bottom - top <= i32::MAX,
    ensures
        r == (right - left > bottom - top),
{
    (right - left) > (bottom - top)
}

/// The notification area's origin and height in taskbar coordinates: those
/// of its own rectangle (`left, top, right, bottom`) when it was found, else
/// the taskbar's top-right corner and the taskbar's height.
pub fn tray_anchor(
    area: Option<(i32, i32, i32, i32)>,
    corner_x: i32,
    corner_y: i32,
    taskbar_top: i32,
    taskbar_bottom: i32,
) -> (r: (i32, i32, i32))
    requires
        area matches Some(a) ==> i32::MIN <= a.3 - a.1 <= i32::MAX,
        area is None ==> i32::MIN <= taskbar_bottom - taskbar_top <= i32::MAX,
    ensures
        match area {
            Some(a) => r.0 == a.0 && r.1 == a.1 && r.2 == a.3 - a.1,
            None => r.0 == corner_x && r.1 == corner_y && r.2 == taskbar_bottom - taskbar_top,
        },
{
    match area {
        Some((left, top, _right, bottom)) => (left, top, bottom - top),
        None => (corner_x, corner_y, taskbar_bottom - taskbar_top),
    }
}

/// Where the overlay goes in the taskbar: left of the notification area,
/// vertically centred on it, on a horizontal taskbar; centred across and just
/// above the notification area on a vertical one.
pub open spec fn spec_overlay_origin(
    horizontal: bool,
    tray_x: int,
    tray_y: int,
    tray_h: int,
    bottom_x: int,
    width: int,
    height: int,
) -> (int, int) {
    if horizontal {
        (tray_x - width, tray_y + quot(tray_h - height, 2))
    } else {
        (quot(bottom_x, 2) - quot(width, 2), tray_y - height)
    }
}

/// The overlay's origin in taskbar coordinates; `tray_*` is the notification
/// area, `bottom_x` the taskbar's right edge, `width`/`height` the overlay's size.
pub fn overlay_origin(
    horizontal: bool,
    tray_x: i32,
    tray_y: i32,
    tray_h: i32,
    bottom_x: i32,
    width: i32,
    height: i32,
) -> (r: (i32, i32))
    requires
        horizontal ==> i32::MIN <= tray_x - width <= i32::MAX,
        horizontal ==> i32::MIN <= tray_h - height <= i32::MAX,
        horizontal ==> i32::MIN <= tray_y + quot(tray_h - height, 2) <= i32::MAX,
        !horizontal ==> i32::MIN <= quot(bottom_x as int, 2) - quot(width as int, 2) <= i32::MAX,
        !horizontal ==> i32::MIN <= tray_y - height <= i32::MAX,
    ensures
        r.0 == spec_overlay_origin(horizontal, tray_x as int, tray_y as int, tray_h as int, bottom_x as int, width as int, height as int).0,
        r.1 == spec_overlay_origin(horizontal, tray_x as int, tray_y as int, tray_h as int, bottom_x as int, width as int, height as int).1,
{
    if horizontal {
        (tray_x - width, tray_y + half(tray_h - height))
    } else {
        (half(bottom_x) - half(width), tray_y - height)
    }
}

} // verus!
