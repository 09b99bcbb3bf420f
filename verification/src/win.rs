//! Window placement rules and the clock texts used in logs and file names.
use vstd::prelude::*;
use crate::text::{dec_nat, push_char, push_dec};

verus! {

/// Height (pixels) of the strip near the title bar that must be on screen.
pub const TITLE_STRIP: i32 = 30;

/// The title bar counts as grabbable when this much of it is visible horizontally.
pub const MIN_VISIBLE_WIDTH: i32 = 100;

/// Windows smaller than this (broken values) are not used.
pub const MIN_WINDOW_SIZE: i32 = 100;

pub open spec fn min_int(a: int, b: int) -> int {
    if a < b {
        a
    } else {
        b
    }
}

pub open spec fn max_int(a: int, b: int) -> int {
    if a > b {
        a
    } else {
        b
    }
}

/// The window `r` is large enough, and the strip under its top edge lies enough inside
/// the work area `work`, with the top edge not above it (both `[left, top, right,
/// bottom]`).
pub open spec fn visible_enough_spec(r: [i32; 4], work: [i32; 4]) -> bool {
    if r[2] - r[0] < MIN_WINDOW_SIZE || r[3] - r[1] < MIN_WINDOW_SIZE {
        false
    } else {
        let w = min_int(r[2] as int, work[2] as int) - max_int(r[0] as int, work[0] as int);
        let h = min_int(r[1] + TITLE_STRIP, work[3] as int) - max_int(r[1] as int, work[1] as int);
        w >= MIN_VISIBLE_WIDTH && h >= TITLE_STRIP / 2 && r[1] >= work[1]
    }
}

fn min64(a: i64, b: i64) -> (r: i64)
    ensures
        r == min_int(a as int, b as int),
{
    if a < b {
        a
    } else {
        b
    }
}

fn max64(a: i64, b: i64) -> (r: i64)
    ensures
        r == max_int(a as int, b as int),
{
    if a > b {
        a
    } else {
        b
    }
}

/// Whether the title bar area of the window `r` shows enough of itself in the work area
/// `work` to be grabbed (both `[left, top, right, bottom]`).
pub fn visible_enough(r: [i32; 4], work: [i32; 4]) -> (b: bool)
    ensures
        b == visible_enough_spec(r, work),
{
    let (l, t, rr, bt) = (r[0] as i64, r[1] as i64, r[2] as i64, r[3] as i64);
    if rr - l < MIN_WINDOW_SIZE as i64 || bt - t < MIN_WINDOW_SIZE as i64 {
        return false;
    }
    let w = min64(rr, work[2] as i64) - max64(l, work[0] as i64);
    let h = min64(t + TITLE_STRIP as i64, work[3] as i64) - max64(t, work[1] as i64);
    w >= MIN_VISIBLE_WIDTH as i64 && h >= (TITLE_STRIP / 2) as i64 && t >= work[1] as i64
}

/// A window of at least the least size that lies wholly inside the work area counts
/// as visible.
pub proof fn law_inside_is_visible(r: [i32; 4], work: [i32; 4])
    requires
        work[0] <= r[0],
        work[1] <= r[1],
        r[2] <= work[2],
        r[3] <= work[3],
        r[2] - r[0] >= MIN_WINDOW_SIZE,
        r[3] - r[1] >= MIN_WINDOW_SIZE,
    ensures
        visible_enough_spec(r, work),
{
}

/// A window whose top edge is above the work area never counts as visible.
pub proof fn law_title_above_is_hidden(r: [i32; 4], work: [i32; 4])
    requires
        r[1] < work[1],
    ensures
        !visible_enough_spec(r, work),
{
}

// ------------------------------------------------------------------ clock

/// `n` in decimal, with zeros in front up to `width` digits (`{:0width}`).
pub open spec fn padded(n: nat, width: nat) -> Seq<char> {
    let d = dec_nat(n);
    if d.len() < width {
        Seq::new((width - d.len()) as nat, |i: int| '0') + d
    } else {
        d
    }
}

/// Appends `n` with zeros in front up to `width` digits.
pub fn push_padded(s: &mut String, n: u64, width: u64)
    requires
        width <= 20,
    ensures
        final(s)@ == old(s)@ + padded(n as nat, width as nat),
{
    let mut digits: u64 = 1;
    let mut m = n;
    while m >= 10
        invariant
            1 <= digits,
            m <= n,
            digits + m <= n + 1,
            dec_nat(n as nat).len() == digits - 1 + dec_nat(m as nat).len(),
        decreases m,
    {
        m = m / 10;
        digits = digits + 1;
    }
    assert(dec_nat(m as nat).len() == 1);
    let ghost s0 = s@;
    let mut k: u64 = digits;
    assert(s@ =~= s0 + Seq::new((k - digits) as nat, |i: int| '0'));
    while k < width
        invariant
            digits <= k,
            k <= width || k == digits,
            digits == dec_nat(n as nat).len(),
            s@ == s0 + Seq::new((k - digits) as nat, |i: int| '0'),
        decreases width - k,
    {
        push_char(s, '0');
        assert(s@ =~= s0 + Seq::new((k + 1 - digits) as nat, |i: int| '0'));
        k = k + 1;
    }
    push_dec(s, n);
    proof {
        let d = dec_nat(n as nat);
        if d.len() < width {
            assert(k == width);
            assert(s@ =~= s0 + padded(n as nat, width as nat));
        } else {
            assert(k == digits);
            assert(Seq::new((k - digits) as nat, |i: int| '0') =~= Seq::<char>::empty());
            assert(s@ =~= s0 + padded(n as nat, width as nat));
        }
    }
}

/// The clock fields used where no calendar clock of the system is read: the time of
/// day in UTC from seconds since the Unix epoch, the year and month fixed at 1970-01,
/// and the number of days since 1970-01-01 (modulo 65536) in the "day" place.
pub open spec fn time_fields(secs: u64) -> [u16; 6] {
    [
        1970u16,
        1u16,
        ((secs / 86400) % 65536) as u16,
        ((secs / 3600) % 24) as u16,
        ((secs / 60) % 60) as u16,
        (secs % 60) as u16,
    ]
}

/// The clock fields for `secs` seconds since the Unix epoch.
pub fn local_time_from(secs: u64) -> (r: [u16; 6])
    ensures
        r == time_fields(secs),
{
    [
        1970,
        1,
        ((secs / 86400) % 65536) as u16,
        ((secs / 3600) % 24) as u16,
        ((secs / 60) % 60) as u16,
        (secs % 60) as u16,
    ]
}

/// `hh:mm:ss`.
pub open spec fn hms_text(t: [u16; 6]) -> Seq<char> {
    padded(t[3] as nat, 2) + seq![':'] + padded(t[4] as nat, 2) + seq![':'] + padded(
        t[5] as nat,
        2,
    )
}

/// `yyyymmdd-hhmmss`.
pub open spec fn stamp_text(t: [u16; 6]) -> Seq<char> {
    padded(t[0] as nat, 4) + padded(t[1] as nat, 2) + padded(t[2] as nat, 2) + seq!['-'] + padded(
        t[3] as nat,
        2,
    ) + padded(t[4] as nat, 2) + padded(t[5] as nat, 2)
}

/// The time of day of `t` as `hh:mm:ss`.
pub fn hms_of(t: [u16; 6]) -> (r: String)
    ensures
        r@ == hms_text(t),
{
    let mut s = String::new();
    push_padded(&mut s, t[3] as u64, 2);
    push_char(&mut s, ':');
    push_padded(&mut s, t[4] as u64, 2);
    push_char(&mut s, ':');
    push_padded(&mut s, t[5] as u64, 2);
    assert(s@ =~= hms_text(t));
    s
}

/// The date and time of `t` as `yyyymmdd-hhmmss`, for file names.
pub fn stamp_of(t: [u16; 6]) -> (r: String)
    ensures
        r@ == stamp_text(t),
{
    let mut s = String::new();
    push_padded(&mut s, t[0] as u64, 4);
    push_padded(&mut s, t[1] as u64, 2);
    push_padded(&mut s, t[2] as u64, 2);
    push_char(&mut s, '-');
    push_padded(&mut s, t[3] as u64, 2);
    push_padded(&mut s, t[4] as u64, 2);
    push_padded(&mut s, t[5] as u64, 2);
    assert(s@ =~= stamp_text(t));
    s
}

} // verus!
