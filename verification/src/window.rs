//! The window: which window a second start brings to the front, and where the
//! window is placed on its monitor.
use vstd::prelude::*;
use crate::text::chars_of;

verus! {

/// The UTF-16 code units of one character.
pub open spec fn utf16_units(c: char) -> Seq<u16> {
    let v = c as u32;
    if v < 0x10000 {
        seq![v as u16]
    } else {
        let u = v - 0x10000int;
        seq![(0xD800 + u / 0x400) as u16, (0xDC00 + u % 0x400) as u16]
    }
}

/// `s` in UTF-16 (`str::encode_utf16`).
pub open spec fn utf16(s: Seq<char>) -> Seq<u16>
    decreases s.len(),
{
    if s.len() == 0 {
        Seq::empty()
    } else {
        utf16(s.drop_last()) + utf16_units(s.last())
    }
}

/// `s` in UTF-16 with a terminating zero, as Windows functions take it.
pub open spec fn wide_text(s: Seq<char>) -> Seq<u16> {
    utf16(s).push(0u16)
}

/// `s` in UTF-16 with a terminating zero.
pub fn wide(s: &str) -> (w: Vec<u16>)
    ensures
        w@ == wide_text(s@),
{
    let cs = chars_of(s);
    let mut w: Vec<u16> = Vec::new();
    for i in 0..cs.len()
        invariant
            w@ == utf16(cs@.take(i as int)),
    {
        let ghost before = w@;
        let c = cs[i];
        proof {
            vstd::utf8::char_is_scalar(c);
        }
        let v = c as u32;
        if v < 0x10000 {
            w.push(v as u16);
        } else {
            let u = v - 0x10000;
            assert(u < 0x100000);
            w.push((0xD800 + u / 0x400) as u16);
            w.push((0xDC00 + u % 0x400) as u16);
        }
        assert(cs@.take(i + 1).drop_last() =~= cs@.take(i as int));
        assert(cs@.take(i + 1).last() == c);
        assert(w@ =~= before + utf16_units(c));
    }
    assert(cs@.take(cs.len() as int) =~= cs@);
    w.push(0u16);
    w
}

/// The window that a second start of the program brings to the front: its
/// window class and its title, each in UTF-16 with a terminating zero.
pub struct WindowQuery {
    pub class: Vec<u16>,
    pub title: Vec<u16>,
}

/// What identifies the already running window: the class of the windows the
/// toolkit creates ("Window Class") together with the title "rbackup", so
/// that an Explorer window of a folder named "rbackup" is not taken for it.
pub fn focus_existing() -> (q: WindowQuery)
    ensures
        q.class@ == wide_text("Window Class"@),
        q.title@ == wide_text("rbackup"@),
{
    WindowQuery { class: wide("Window Class"), title: wide("rbackup") }
}

/// Half of `v`, rounded toward zero (integer division in Rust).
pub open spec fn half_toward_zero(v: int) -> int {
    if v >= 0 {
        v / 2
    } else {
        -((-v) / 2)
    }
}

/// The offset from the monitor's edge along one axis: half the room left
/// by the window (sizes taken as `i32`), plus the monitor's position.
pub open spec fn centered_raw(origin: i32, monitor: u32, window: u32) -> int {
    origin + half_toward_zero((monitor as i32) - (window as i32))
}

/// The window's position along one axis: centered, but never before the
/// monitor's own edge.
pub open spec fn centered(origin: i32, monitor: u32, window: u32) -> int {
    let x = centered_raw(origin, monitor, window);
    if x >= origin {
        x
    } else {
        origin as int
    }
}

pub open spec fn centering_fits(origin: i32, monitor: u32, window: u32) -> bool {
    i32::MIN <= (monitor as i32) - (window as i32) <= i32::MAX && i32::MIN <= centered_raw(
        origin,
        monitor,
        window,
    ) <= i32::MAX
}

fn center_axis(origin: i32, monitor: u32, window: u32) -> (x: i32)
    requires
        centering_fits(origin, monitor, window),
    ensures
        x == centered(origin, monitor, window),
{
    let diff: i32 = #[verifier::truncate] (monitor as i32) - #[verifier::truncate] (window as i32);
    let wide_diff: i64 = diff as i64;
    let half: i32 = if wide_diff >= 0 {
        (wide_diff / 2) as i32
    } else {
        (-((-wide_diff) / 2)) as i32
    };
    let x = origin + half;
    if x >= origin {
        x
    } else {
        origin
    }
}

/// Where the window goes to be centered on its monitor (at `mx`, `my`, of
/// size `mw` by `mh`) given its own size `ww` by `wh`; a window larger than
/// the monitor is kept at the monitor's top left edge.
pub fn center_window(mx: i32, my: i32, mw: u32, mh: u32, ww: u32, wh: u32) -> (p: (i32, i32))
    requires
        centering_fits(mx, mw, ww),
        centering_fits(my, mh, wh),
    ensures
        p.0 == centered(mx, mw, ww),
        p.1 == centered(my, mh, wh),
{
    (center_axis(mx, mw, ww), center_axis(my, mh, wh))
}

} // verus!
