//! Plain data of the Windows API that the widget exchanges with the system,
//! and the bit packing of colours and message parameters.
#![allow(non_snake_case)]
use vstd::prelude::*;

verus! {

/// A point in pixels.
#[derive(Clone, Copy, Default, Debug, PartialEq, Eq, Structural)]
pub struct POINT {
    pub x: i32,
    pub y: i32,
}

/// A rectangle in pixels.
#[derive(Clone, Copy, Default, Debug, PartialEq, Eq, Structural)]
pub struct RECT {
    pub left: i32,
    pub top: i32,
    pub right: i32,
    pub bottom: i32,
}

/// A window message.
#[derive(Clone, Copy, Default)]
pub struct MSG {
    pub hwnd: isize,
    pub message: u32,
    pub wParam: usize,
    pub lParam: isize,
    pub time: u32,
    pub pt: POINT,
}

/// Painting state of a window.
#[derive(Clone, Copy, Default)]
pub struct PAINTSTRUCT {
    pub hdc: isize,
    pub fErase: i32,
    pub rcPaint: RECT,
    pub fRestore: i32,
    pub fIncUpdate: i32,
    pub rgbReserved: [u8; 32],
}

/// A calendar date and time of day as the system reports it.
#[derive(Clone, Copy, Default, Debug, PartialEq, Eq, Structural)]
pub struct SYSTEMTIME {
    pub wYear: u16,
    pub wMonth: u16,
    pub wDayOfWeek: u16,
    pub wDay: u16,
    pub wHour: u16,
    pub wMinute: u16,
    pub wSecond: u16,
    pub wMilliseconds: u16,
}

/// Size limits of a window.
#[derive(Clone, Copy, Default)]
pub struct MINMAXINFO {
    pub ptReserved: POINT,
    pub ptMaxSize: POINT,
    pub ptMaxPosition: POINT,
    pub ptMinTrackSize: POINT,
    pub ptMaxTrackSize: POINT,
}

/// Which common-control classes to load.
#[derive(Clone, Copy, Default)]
pub struct INITCOMMONCONTROLSEX {
    pub dwSize: u32,
    pub dwICC: u32,
}

/// A colour `0x00BBGGRR` from its red, green and blue parts.
pub open spec fn rgb_spec(r: u8, g: u8, b: u8) -> u32 {
    (r as u32 + g as u32 * 256 + b as u32 * 65536) as u32
}

/// Packs red, green and blue into a colour value.
pub fn rgb(r: u8, g: u8, b: u8) -> (c: u32)
    ensures
        c == rgb_spec(r, g, b),
        c & 0xff == r,
        (c >> 8) & 0xff == g,
        (c >> 16) & 0xff == b,
        c < 0x100_0000,
{
    let c = (r as u32) | ((g as u32) << 8) | ((b as u32) << 16);
    assert(c == (r as u32 + g as u32 * 256 + b as u32 * 65536) && c & 0xff == r && (c >> 8) & 0xff
        == g && (c >> 16) & 0xff == b && c < 0x100_0000) by (bit_vector)
        requires
            c == (r as u32) | ((g as u32) << 8) | ((b as u32) << 16),
    ;
    c
}

/// A rectangle from its edges.
pub fn rect(left: i32, top: i32, right: i32, bottom: i32) -> (r: RECT)
    ensures
        r == (RECT { left, top, right, bottom }),
{
    RECT { left, top, right, bottom }
}

/// The low 16 bits of a message parameter.
pub fn loword(value: usize) -> (r: u16)
    ensures
        r == value % 65536,
{
    let r = (value & 0xffff) as u16;
    assert((value & 0xffff) == value % 65536) by (bit_vector);
    r
}

/// A 16-bit pattern `u` read as a signed number.
pub open spec fn signed16(u: int) -> int {
    if u >= 32768 {
        u - 65536
    } else {
        u
    }
}

/// The x coordinate packed in the low 16 bits of a message parameter, sign-extended.
pub fn get_x_lparam(value: isize) -> (r: i32)
    ensures
        r == signed16(value as int % 65536),
{
    let low = value as u16;
    let r = (low as i16) as i32;
    assert(low == value % 65536) by (bit_vector)
        requires
            low == value as u16,
    ;
    assert(r == if low >= 32768 { low - 65536 } else { low as int }) by (bit_vector)
        requires
            r == (low as i16) as i32,
    ;
    r
}

/// The y coordinate packed in bits 16..32 of a message parameter, sign-extended.
pub fn get_y_lparam(value: isize) -> (r: i32)
    ensures
        r == signed16((value as int / 65536) % 65536),
{
    let high = (value >> 16) as u16;
    let r = (high as i16) as i32;
    assert(high == (value / 65536) % 65536) by (bit_vector)
        requires
            high == (value >> 16) as u16,
    ;
    assert(r == if high >= 32768 { high - 65536 } else { high as int }) by (bit_vector)
        requires
            r == (high as i16) as i32,
    ;
    r
}

/// The wheel rotation packed in bits 16..32 of a message parameter, as a signed value.
pub fn wheel_delta(value: usize) -> (r: i16)
    ensures
        r == signed16((value as int / 65536) % 65536),
{
    let high = ((value >> 16) & 0xffff) as u16;
    let r = high as i16;
    assert(high == (value / 65536) % 65536) by (bit_vector)
        requires
            high == ((value >> 16) & 0xffff) as u16,
    ;
    assert(r == if high >= 32768 { high - 65536 } else { high as int }) by (bit_vector)
        requires
            r == high as i16,
    ;
    r
}

/// The UTF-16 code units of one character: one unit below U+10000,
/// otherwise a surrogate pair.
pub open spec fn utf16_units(c: char) -> Seq<u16> {
    let u = c as u32 as int;
    if u < 0x10000 {
        seq![u as u16]
    } else {
        let v = u - 0x10000;
        seq![(0xD800 + v / 1024) as u16, (0xDC00 + v % 1024) as u16]
    }
}

/// The UTF-16 encoding of a text.
pub open spec fn utf16(s: Seq<char>) -> Seq<u16>
    decreases s.len(),
{
    if s.len() == 0 {
        Seq::empty()
    } else {
        utf16(s.drop_last()) + utf16_units(s.last())
    }
}

/// A text as a NUL-terminated UTF-16 string for the system's wide-character calls.
pub fn to_wide(value: &str) -> (r: Vec<u16>)
    ensures
        r@ == utf16(value@).push(0u16),
{
    let mut out: Vec<u16> = Vec::new();
    let ghost cs = value@;
    for c in it: value.chars()
        invariant
            it.seq() == cs,
            out@ == utf16(cs.take(it.index() as int)),
    {
        proof {
            assert(cs.take(it.index() + 1).drop_last() =~= cs.take(it.index() as int));
        }
        let u = c as u32;
        if u < 0x10000 {
            out.push(u as u16);
        } else {
            let v = u - 0x10000;
            out.push((0xD800 + v / 1024) as u16);
            out.push((0xDC00 + v % 1024) as u16);
        }
        assert(out@ =~= utf16(cs.take(it.index() as int)) + utf16_units(c));
    }
    assert(cs.take(cs.len() as int) =~= cs);
    out.push(0);
    out
}

/// The command that starts the program at log-in: its path in double quotes.
pub fn startup_command(exe: &str) -> (r: String)
    ensures
        r@ == "\""@ + exe@ + "\""@,
{
    let mut out = String::from_str("\"");
    out.append(exe);
    out.append("\"");
    out
}

/// The error when the program's path cannot be read: `读取程序路径失败：{err}`.
pub fn exe_path_failure(err: &str) -> (r: String)
    ensures
        r@ == "读取程序路径失败："@ + err@,
{
    let mut out = String::from_str("读取程序路径失败：");
    out.append(err);
    out
}

/// The error when the registry key of programs run at log-in cannot be
/// opened, with the system's status code.
pub fn run_key_open_failure(status: i32) -> (r: String)
    ensures
        r@ == "无法打开开机启动注册表项，错误码 "@ + crate::text::fmt_signed(status as int, 0),
{
    let mut out = String::from_str("无法打开开机启动注册表项，错误码 ");
    crate::text::push_signed_padded(&mut out, status as i64, 0);
    out
}

/// How setting (or, when `removing`, deleting) the log-in entry went, from
/// the system's status code: success is 0, and a missing entry (2) is no
/// failure when deleting.
pub fn run_key_update_result(result: i32, removing: bool) -> (r: Result<(), String>)
    ensures
        (result == 0 || (removing && result == 2)) ==> r is Ok,
        !(result == 0 || (removing && result == 2)) ==> (r matches Err(e)
            && e@ == "更新开机启动失败，错误码 "@ + crate::text::fmt_signed(result as int, 0)),
{
    if result == 0 || (removing && result == 2) {
        Ok(())
    } else {
        let mut out = String::from_str("更新开机启动失败，错误码 ");
        crate::text::push_signed_padded(&mut out, result as i64, 0);
        Err(out)
    }
}

} // verus!
