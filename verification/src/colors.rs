//! Colours as `#RRGGBB` text, the window's colour theme and its opacity.
use vstd::prelude::*;
use crate::board::{mix_channel_spec, mix_rgb};
use crate::store::Settings;
use crate::text::{chars_of, parse_unsigned, parse_unsigned_chars, push_char, trim, trim_chars, unsigned_body};
use crate::win32::{rgb, rgb_spec};

verus! {

/// Bytes that `c` takes in UTF-8.
pub open spec fn utf8_len(c: char) -> int {
    let u = c as u32;
    if u < 0x80 {
        1
    } else if u < 0x800 {
        2
    } else if u < 0x10000 {
        3
    } else {
        4
    }
}

/// Bytes that `s` takes in UTF-8 (what `str::len` counts).
pub open spec fn byte_len(s: Seq<char>) -> int
    decreases s.len(),
{
    if s.len() == 0 {
        0
    } else {
        byte_len(s.drop_last()) + utf8_len(s.last())
    }
}

/// Byte offset `k` of `s` falls between two characters.
pub open spec fn is_char_boundary(s: Seq<char>, k: int) -> bool {
    exists|j: int| 0 <= j <= s.len() && byte_len(#[trigger] s.take(j)) == k
}

/// `s` without leading `c` characters (as `str::trim_start_matches` with a char).
pub open spec fn strip_leading(s: Seq<char>, c: char) -> Seq<char>
    decreases s.len(),
{
    if s.len() > 0 && s[0] == c {
        strip_leading(s.drop_first(), c)
    } else {
        s
    }
}

/// The hexadecimal digits of a colour text: trimmed, without leading `#`.
pub open spec fn hex_body(value: Seq<char>) -> Seq<char> {
    strip_leading(trim(value), '#')
}

/// The character index at byte offset `k` of `s` (when `k` is a boundary).
pub open spec fn char_index_at(s: Seq<char>, k: int) -> int {
    choose|j: int| 0 <= j <= s.len() && byte_len(#[trigger] s.take(j)) == k
}

/// An ASCII hexadecimal digit.
pub open spec fn is_hex(c: char) -> bool {
    let u = c as u32;
    (48 <= u <= 57) || (65 <= u <= 70) || (97 <= u <= 102)
}

/// Value of a hexadecimal digit.
pub open spec fn hex_val(c: char) -> int {
    let u = c as u32;
    if u <= 57 {
        u - 48
    } else if u <= 70 {
        u - 55
    } else {
        u - 87
    }
}

/// Value of the hexadecimal numeral `s`.
pub open spec fn hex_value(s: Seq<char>) -> int
    decreases s.len(),
{
    if s.len() == 0 {
        0
    } else {
        hex_value(s.drop_last()) * 16 + hex_val(s.last())
    }
}

/// Every character of `s` is a hexadecimal digit.
pub open spec fn all_hex(s: Seq<char>) -> bool {
    forall|i: int| 0 <= i < s.len() ==> is_hex(#[trigger] s[i])
}

/// What `u8::from_str_radix(s, 16)` accepts: an optional `+` and one or more
/// hexadecimal digits whose value is at most 255.
pub open spec fn parse_hex_byte(s: Seq<char>) -> Option<int> {
    let b = unsigned_body(s);
    if b.len() > 0 && all_hex(b) && hex_value(b) <= 255 {
        Some(hex_value(b))
    } else {
        None
    }
}

/// `背景色请使用 6 位十六进制格式，例如 #F5F7FA`
pub open spec fn msg_bad_color() -> Seq<char> {
    "背景色请使用 6 位十六进制格式，例如 #F5F7FA"@
}

/// The colour a text names, or the error: its digits must take six bytes,
/// read as three two-byte hexadecimal parts (red, green, blue).
pub open spec fn color_of_text(value: Seq<char>) -> Result<(u8, u8, u8), Seq<char>> {
    let t = hex_body(value);
    if byte_len(t) != 6 {
        Err(msg_bad_color())
    } else {
        let j2 = char_index_at(t, 2);
        let j4 = char_index_at(t, 4);
        match (
            parse_hex_byte(t.subrange(0, j2)),
            parse_hex_byte(t.subrange(j2, j4)),
            parse_hex_byte(t.subrange(j4, t.len() as int)),
        ) {
            (Some(r), Some(g), Some(b)) => Ok((r as u8, g as u8, b as u8)),
            _ => Err(msg_bad_color()),
        }
    }
}

/// Whether reading `value` as a colour can proceed: when its digits take six
/// bytes, byte offsets 2 and 4 fall between characters (otherwise slicing
/// the text there would panic).
pub open spec fn color_text_sliceable(value: Seq<char>) -> bool {
    byte_len(hex_body(value)) == 6 ==> is_char_boundary(hex_body(value), 2) && is_char_boundary(
        hex_body(value),
        4,
    )
}

fn utf8_len_of(c: char) -> (r: usize)
    ensures
        r == utf8_len(c),
{
    let u = c as u32;
    if u < 0x80 {
        1
    } else if u < 0x800 {
        2
    } else if u < 0x10000 {
        3
    } else {
        4
    }
}

proof fn lemma_byte_len_mono(s: Seq<char>, i: int, j: int)
    requires
        0 <= i <= j <= s.len(),
    ensures
        byte_len(s.take(i)) + (j - i) <= byte_len(s.take(j)),
    decreases j - i,
{
    if i < j {
        lemma_byte_len_mono(s, i, j - 1);
        assert(s.take(j).drop_last() =~= s.take(j - 1));
    }
}

fn hex_digit(c: char) -> (r: Option<u64>)
    ensures
        match r {
            Some(v) => is_hex(c) && v == hex_val(c),
            None => !is_hex(c),
        },
{
    let u = c as u32;
    if 48 <= u && u <= 57 {
        Some((u - 48) as u64)
    } else if 65 <= u && u <= 70 {
        Some((u - 55) as u64)
    } else if 97 <= u && u <= 102 {
        Some((u - 87) as u64)
    } else {
        None
    }
}

fn parse_hex_byte_chars(s: &Vec<char>, from: usize, to: usize) -> (r: Option<u8>)
    requires
        from <= to <= s.len(),
    ensures
        match r {
            Some(v) => parse_hex_byte(s@.subrange(from as int, to as int)) == Some(v as int),
            None => parse_hex_byte(s@.subrange(from as int, to as int)) is None,
        },
{
    let ghost seg = s@.subrange(from as int, to as int);
    let start = if from < to && s[from] == '+' { from + 1 } else { from };
    let ghost b = s@.subrange(start as int, to as int);
    assert(b == unsigned_body(seg));
    if start == to {
        return None;
    }
    let mut acc: u64 = 0;
    let mut i = start;
    assert(b.take(0) =~= Seq::<char>::empty());
    while i < to
        invariant
            from <= start <= i <= to <= s.len(),
            seg == s@.subrange(from as int, to as int),
            b == unsigned_body(seg),
            b.len() > 0,
            b == s@.subrange(start as int, to as int),
            forall|k: int| 0 <= k < i - start ==> is_hex(#[trigger] b[k]),
            acc == hex_value(b.take(i - start)),
            acc <= 255,
        decreases to - i,
    {
        assert(b[i - start] == s@[i as int]);
        let d = match hex_digit(s[i]) {
            Some(d) => d,
            None => {
                proof {
                    let k = i - start;
                    assert(!is_hex(b[k]));
                    assert(!all_hex(b));
                    assert(parse_hex_byte(seg) is None);
                }
                return None;
            },
        };
        assert(b.take(i - start + 1).drop_last() =~= b.take(i - start));
        let next = acc * 16 + d;
        if next > 255 {
            proof {
                assert(hex_value(b.take(i - start + 1)) == next);
                assert forall|k: int| 0 <= k < i - start + 1 implies is_hex(#[trigger] b[k]) by {}
                lemma_hex_value_grows(b, i - start + 1);
                assert(parse_hex_byte(seg) is None);
            }
            return None;
        }
        acc = next;
        i += 1;
    }
    assert(b.take(to - start) =~= b);
    Some(acc as u8)
}

proof fn lemma_hex_value_grows(b: Seq<char>, k: int)
    requires
        0 < k <= b.len(),
        forall|i: int| 0 <= i < k ==> is_hex(#[trigger] b[i]),
        hex_value(b.take(k)) > 255,
    ensures
        (forall|i: int| 0 <= i < b.len() ==> is_hex(#[trigger] b[i])) ==> hex_value(b) > 255,
    decreases b.len() - k,
{
    if k < b.len() {
        assert(b.take(k + 1).drop_last() =~= b.take(k));
        if forall|i: int| 0 <= i < b.len() ==> is_hex(#[trigger] b[i]) {
            assert(is_hex(b[k]));
            assert(hex_val(b[k]) >= 0);
        }
        if forall|i: int| 0 <= i < k + 1 ==> is_hex(#[trigger] b[i]) {
            lemma_hex_value_grows(b, k + 1);
        }
    } else {
        assert(b.take(k) =~= b);
    }
}

fn hex_body_chars(value: &str) -> (t: Vec<char>)
    ensures
        t@ == hex_body(value@),
{
    let v = chars_of(value);
    let t0 = trim_chars(&v);
    let mut k: usize = 0;
    assert(t0@.skip(0) =~= t0@);
    while k < t0.len() && t0[k] == '#'
        invariant
            k <= t0.len(),
            strip_leading(t0@, '#') == strip_leading(t0@.skip(k as int), '#'),
        decreases t0.len() - k,
    {
        assert(t0@.skip(k + 1) =~= t0@.skip(k as int).drop_first());
        k += 1;
    }
    let mut t: Vec<char> = Vec::new();
    let mut i = k;
    while i < t0.len()
        invariant
            k <= i <= t0.len(),
            t@ =~= t0@.subrange(k as int, i as int),
        decreases t0.len() - i,
    {
        t.push(t0[i]);
        i += 1;
    }
    assert(t@ =~= t0@.skip(k as int));
    t
}

/// A boundary at byte offset `k` lies at the first character index whose
/// prefix reaches `k` bytes; if that prefix passes `k`, there is none.
proof fn lemma_first_reaching(s: Seq<char>, k: int, j: int)
    requires
        1 <= j <= s.len(),
        byte_len(s.take(j)) >= k,
        byte_len(s.take(j - 1)) < k,
    ensures
        is_char_boundary(s, k) <==> byte_len(s.take(j)) == k,
        is_char_boundary(s, k) ==> char_index_at(s, k) == j,
{
    assert forall|w: int| 0 <= w <= s.len() && #[trigger] byte_len(s.take(w)) == k implies w == j by {
        if w < j {
            lemma_byte_len_mono(s, w, j - 1);
        }
        if w > j {
            lemma_byte_len_mono(s, j, w);
        }
    }
}

/// Whether `t` takes six bytes, and when it does and byte offsets 2 and 4
/// fall between characters, the character indices there.
fn six_byte_split(t: &Vec<char>) -> (r: (bool, Option<(usize, usize)>))
    ensures
        r.0 == (byte_len(t@) == 6),
        r.1 is Some <==> (r.0 && is_char_boundary(t@, 2) && is_char_boundary(t@, 4)),
        match r.1 {
            Some((j2, j4)) => j2 == char_index_at(t@, 2) && j4 == char_index_at(t@, 4) && 0 <= j2
                <= j4 <= t.len(),
            None => true,
        },
{
    let mut bytes: usize = 0;
    let mut over = false;
    let mut j2: usize = 0;
    let mut j4: usize = 0;
    let mut at2: usize = 0;
    let mut at4: usize = 0;
    let mut n: usize = 0;
    assert(t@.take(0) =~= Seq::<char>::empty());
    while n < t.len()
        invariant
            n <= t.len(),
            !over ==> bytes == byte_len(t@.take(n as int)),
            over ==> byte_len(t@.take(n as int)) > 6,
            bytes <= 6,
            j2 <= n && j4 <= n,
            !over && bytes >= 2 ==> at2 == byte_len(t@.take(j2 as int)) && at2 >= 2 && j2 >= 1
                && byte_len(t@.take(j2 - 1)) < 2,
            !over && bytes >= 4 ==> at4 == byte_len(t@.take(j4 as int)) && at4 >= 4 && j4 >= 1
                && byte_len(t@.take(j4 - 1)) < 4,
        decreases t.len() - n,
    {
        assert(t@.take(n + 1).drop_last() =~= t@.take(n as int));
        let b = utf8_len_of(t[n]);
        if !over {
            if bytes + b > 6 {
                over = true;
            } else {
                if bytes < 2 && bytes + b >= 2 {
                    j2 = n + 1;
                    at2 = bytes + b;
                }
                if bytes < 4 && bytes + b >= 4 {
                    j4 = n + 1;
                    at4 = bytes + b;
                }
                bytes += b;
            }
        } else {
            proof {
                lemma_byte_len_mono(t@, n as int, n + 1);
            }
        }
        n += 1;
    }
    assert(t@.take(t.len() as int) =~= t@);
    if over || bytes != 6 {
        return (false, None);
    }
    proof {
        lemma_first_reaching(t@, 2, j2 as int);
        lemma_first_reaching(t@, 4, j4 as int);
        if j4 < j2 {
            lemma_byte_len_mono(t@, j4 as int, j2 - 1);
        }
    }
    if at2 == 2 && at4 == 4 {
        (true, Some((j2, j4)))
    } else {
        (true, None)
    }
}

/// Whether `parse_hex_color` can read `value` (see `color_text_sliceable`).
pub fn color_text_readable(value: &str) -> (r: bool)
    ensures
        r == color_text_sliceable(value@),
{
    let t = hex_body_chars(value);
    let (six, split) = six_byte_split(&t);
    !six || split.is_some()
}

/// Reads `#RRGGBB` (the `#` optional, surrounding white space ignored).
pub fn parse_hex_color(value: &str) -> (r: Result<(u8, u8, u8), String>)
    requires
        color_text_sliceable(value@),
    ensures
        match r {
            Ok(c) => color_of_text(value@) == Ok::<(u8, u8, u8), Seq<char>>(c),
            Err(e) => color_of_text(value@) == Err::<(u8, u8, u8), Seq<char>>(e@),
        },
{
    let t = hex_body_chars(value);
    let (j2, j4) = match six_byte_split(&t).1 {
        Some(p) => p,
        None => return Err(String::from_str("背景色请使用 6 位十六进制格式，例如 #F5F7FA")),
    };
    let r = parse_hex_byte_chars(&t, 0, j2);
    let g = parse_hex_byte_chars(&t, j2, j4);
    let b = parse_hex_byte_chars(&t, j4, t.len());
    match (r, g, b) {
        (Some(r), Some(g), Some(b)) => Ok((r, g, b)),
        _ => Err(String::from_str("背景色请使用 6 位十六进制格式，例如 #F5F7FA")),
    }
}


/// Upper-case hexadecimal digit of `d` (`0 <= d < 16`).
pub open spec fn hex_upper(d: int) -> char {
    if d < 10 {
        (d + 48) as char
    } else {
        (d + 55) as char
    }
}

/// A byte as two upper-case hexadecimal digits (`{:02X}`).
pub open spec fn hex2(v: u8) -> Seq<char> {
    seq![hex_upper(v as int / 16), hex_upper(v as int % 16)]
}

/// A colour as `#RRGGBB` in upper-case hexadecimal.
pub open spec fn color_text(c: (u8, u8, u8)) -> Seq<char> {
    seq!['#'] + hex2(c.0) + hex2(c.1) + hex2(c.2)
}

/// The canonical text of the colour a text names, or the error.
pub open spec fn normalized_color(value: Seq<char>) -> Result<Seq<char>, Seq<char>> {
    match color_of_text(value) {
        Ok(c) => Ok(color_text(c)),
        Err(e) => Err(e),
    }
}

/// The red, green and blue parts of a colour value `0x00BBGGRR`.
pub open spec fn colorref_parts(color: u32) -> (u8, u8, u8) {
    ((color % 256) as u8, ((color / 256) % 256) as u8, ((color / 65536) % 256) as u8)
}

fn hex_upper_char(d: u8) -> (c: char)
    requires
        d < 16,
    ensures
        c == hex_upper(d as int),
{
    if d < 10 {
        (d + 48) as char
    } else {
        (d + 55) as char
    }
}

fn push_hex2(out: &mut String, v: u8)
    ensures
        final(out)@ == old(out)@ + hex2(v),
{
    push_char(out, hex_upper_char(v / 16));
    push_char(out, hex_upper_char(v % 16));
    assert(out@ =~= old(out)@ + hex2(v));
}

fn color_string(c: (u8, u8, u8)) -> (r: String)
    ensures
        r@ == color_text(c),
{
    let mut out = String::new();
    push_char(&mut out, '#');
    push_hex2(&mut out, c.0);
    push_hex2(&mut out, c.1);
    push_hex2(&mut out, c.2);
    assert(out@ =~= color_text(c));
    out
}

/// Rewrites a colour text as `#RRGGBB` in upper case, or gives the error of
/// `parse_hex_color`.
pub fn normalize_color_text(value: &str) -> (r: Result<String, String>)
    requires
        color_text_sliceable(value@),
    ensures
        match r {
            Ok(t) => normalized_color(value@) == Ok::<Seq<char>, Seq<char>>(t@),
            Err(e) => normalized_color(value@) == Err::<Seq<char>, Seq<char>>(e@),
        },
{
    match parse_hex_color(value) {
        Ok(c) => Ok(color_string(c)),
        Err(e) => Err(e),
    }
}

/// A colour value `0x00BBGGRR` as `#RRGGBB`.
pub fn colorref_to_hex(color: u32) -> (r: String)
    ensures
        r@ == color_text(colorref_parts(color)),
{
    let r = (color & 0xff) as u8;
    let g = ((color >> 8) & 0xff) as u8;
    let b = ((color >> 16) & 0xff) as u8;
    assert(color & 0xff == color % 256 && (color >> 8) & 0xff == (color / 256) % 256 && (color
        >> 16) & 0xff == (color / 65536) % 256) by (bit_vector);
    color_string((r, g, b))
}

/// `透明度请输入 30 到 255 之间的数字`
pub open spec fn msg_bad_alpha() -> Seq<char> {
    "透明度请输入 30 到 255 之间的数字"@
}

/// The opacity a text names: a whole number from 30 to 255, white space
/// around it ignored; anything else gives the error.
pub open spec fn alpha_of_text(value: Seq<char>) -> Result<u8, Seq<char>> {
    match parse_unsigned(trim(value), 65535) {
        Some(a) => if 30 <= a <= 255 {
            Ok(a as u8)
        } else {
            Err(msg_bad_alpha())
        },
        None => Err(msg_bad_alpha()),
    }
}

/// Reads the window opacity.
pub fn parse_alpha_text(value: &str) -> (r: Result<u8, String>)
    ensures
        match r {
            Ok(a) => alpha_of_text(value@) == Ok::<u8, Seq<char>>(a),
            Err(e) => alpha_of_text(value@) == Err::<u8, Seq<char>>(e@),
        },
{
    let t = trim_chars(&chars_of(value));
    match parse_unsigned_chars(&t, 65535) {
        Some(a) => {
            if 30 <= a && a <= 255 {
                Ok(a as u8)
            } else {
                Err(String::from_str("透明度请输入 30 到 255 之间的数字"))
            }
        },
        None => Err(String::from_str("透明度请输入 30 到 255 之间的数字")),
    }
}

/// The window's colours, derived from the background colour setting.
#[derive(Clone, Copy, Debug, PartialEq, Eq, Structural)]
pub struct Theme {
    pub window_bg: u32,
    pub header_bg: u32,
    pub card_bg: u32,
    pub selected_bg: u32,
    pub text_primary: u32,
    pub text_secondary: u32,
    pub footer_bg: u32,
    pub button_bg: u32,
}

/// The background colour that a setting names, or the light grey default
/// `(245, 247, 250)` when it names none.
pub open spec fn background_of(value: Seq<char>) -> (u8, u8, u8) {
    match color_of_text(value) {
        Ok(c) => c,
        Err(_) => (245u8, 247u8, 250u8),
    }
}

/// `base` blended `percent` percent toward `target`, as a colour value.
pub open spec fn mix_spec(base: (u8, u8, u8), target: (u8, u8, u8), percent: u8) -> u32 {
    rgb_spec(
        mix_channel_spec(base.0, target.0, percent),
        mix_channel_spec(base.1, target.1, percent),
        mix_channel_spec(base.2, target.2, percent),
    )
}

/// The theme built on a background colour: panels are the background moved
/// toward white (header 78%, cards 88%, footer 70%, buttons 82%), the
/// selection toward light blue (72%), and the text colours are fixed.
pub open spec fn theme_of(base: (u8, u8, u8)) -> Theme {
    Theme {
        window_bg: rgb_spec(base.0, base.1, base.2),
        header_bg: mix_spec(base, (255u8, 255u8, 255u8), 78),
        card_bg: mix_spec(base, (255u8, 255u8, 255u8), 88),
        selected_bg: mix_spec(base, (217u8, 234u8, 255u8), 72),
        text_primary: rgb_spec(26, 33, 44),
        text_secondary: rgb_spec(95, 107, 124),
        footer_bg: mix_spec(base, (255u8, 255u8, 255u8), 70),
        button_bg: mix_spec(base, (255u8, 255u8, 255u8), 82),
    }
}

impl Theme {
    /// The theme for the background colour in `settings`.
    pub fn from_settings(settings: &Settings) -> (r: Theme)
        requires
            color_text_sliceable(settings.background_color@),
        ensures
            r == theme_of(background_of(settings.background_color@)),
            colorref_parts(r.window_bg) == background_of(settings.background_color@),
            blends_between(r.header_bg, background_of(settings.background_color@), (255u8, 255u8, 255u8)),
            blends_between(r.card_bg, background_of(settings.background_color@), (255u8, 255u8, 255u8)),
            blends_between(r.selected_bg, background_of(settings.background_color@), (217u8, 234u8, 255u8)),
            blends_between(r.footer_bg, background_of(settings.background_color@), (255u8, 255u8, 255u8)),
            blends_between(r.button_bg, background_of(settings.background_color@), (255u8, 255u8, 255u8)),
    {
        proof {
            lemma_theme_follows_background(background_of(settings.background_color@));
        }
        let base = match parse_hex_color(settings.background_color.as_str()) {
            Ok(c) => c,
            Err(_) => (245u8, 247u8, 250u8),
        };
        Theme {
            window_bg: rgb(base.0, base.1, base.2),
            header_bg: mix_rgb(base, (255, 255, 255), 78),
            card_bg: mix_rgb(base, (255, 255, 255), 88),
            selected_bg: mix_rgb(base, (217, 234, 255), 72),
            text_primary: rgb(26, 33, 44),
            text_secondary: rgb(95, 107, 124),
            footer_bg: mix_rgb(base, (255, 255, 255), 70),
            button_bg: mix_rgb(base, (255, 255, 255), 82),
        }
    }
}

proof fn lemma_hex_upper(d: int)
    requires
        0 <= d < 16,
    ensures
        is_hex(hex_upper(d)),
        hex_val(hex_upper(d)) == d,
        utf8_len(hex_upper(d)) == 1,
        hex_upper(d) != '#',
        hex_upper(d) != '+',
        !crate::text::is_ws(hex_upper(d)),
{
}

proof fn lemma_hex2_reads_back(v: u8)
    ensures
        parse_hex_byte(hex2(v)) == Some(v as int),
{
    let h = hex2(v);
    lemma_hex_upper(v as int / 16);
    lemma_hex_upper(v as int % 16);
    assert(unsigned_body(h) == h);
    assert(all_hex(h));
    assert(h.drop_last() =~= seq![h[0]]);
    assert(seq![h[0]].drop_last() =~= Seq::<char>::empty());
    assert(hex_value(Seq::<char>::empty()) == 0);
    assert(hex_value(seq![h[0]]) == hex_val(h[0]));
    assert(hex_value(h) == hex_val(h[0]) * 16 + hex_val(h[1]));
    assert(hex_value(h) == (v as int / 16) * 16 + v as int % 16);
}

/// A colour written as text reads back as the same colour.
pub proof fn lemma_color_text_round_trip(c: (u8, u8, u8))
    ensures
        color_text_sliceable(color_text(c)),
        color_of_text(color_text(c)) == Ok::<(u8, u8, u8), Seq<char>>(c),
{
    let t = color_text(c);
    let h = hex2(c.0) + hex2(c.1) + hex2(c.2);
    lemma_hex_upper(c.0 as int / 16);
    lemma_hex_upper(c.0 as int % 16);
    lemma_hex_upper(c.1 as int / 16);
    lemma_hex_upper(c.1 as int % 16);
    lemma_hex_upper(c.2 as int / 16);
    lemma_hex_upper(c.2 as int % 16);
    assert(t =~= seq!['#'] + h);
    assert(t.last() == h[5]);
    crate::text::lemma_trim_unchanged(t);
    assert(t.drop_first() =~= h);
    assert(strip_leading(h, '#') == h);
    assert(hex_body(t) == h);
    assert forall|j: int| 0 <= j <= 6 implies byte_len(#[trigger] h.take(j)) == j by {
        lemma_prefix_bytes(h, j);
    }
    lemma_first_reaching(h, 2, 2);
    lemma_first_reaching(h, 4, 4);
    assert(h.subrange(0, 2) =~= hex2(c.0));
    assert(h.subrange(2, 4) =~= hex2(c.1));
    assert(h.subrange(4, 6) =~= hex2(c.2));
    lemma_hex2_reads_back(c.0);
    lemma_hex2_reads_back(c.1);
    lemma_hex2_reads_back(c.2);
    assert(h.take(6) =~= h);
}

proof fn lemma_prefix_bytes(h: Seq<char>, j: int)
    requires
        0 <= j <= h.len(),
        forall|i: int| 0 <= i < h.len() ==> utf8_len(#[trigger] h[i]) == 1,
    ensures
        byte_len(h.take(j)) == j,
    decreases j,
{
    if j > 0 {
        lemma_prefix_bytes(h, j - 1);
        assert(h.take(j).drop_last() =~= h.take(j - 1));
    }
}

/// Rewriting a colour text is idempotent: the rewritten text reads as the
/// same colour and rewrites to itself.
pub proof fn lemma_normalize_idempotent(value: Seq<char>)
    requires
        normalized_color(value) is Ok,
    ensures
        color_text_sliceable(normalized_color(value)->Ok_0),
        color_of_text(normalized_color(value)->Ok_0) == color_of_text(value),
        normalized_color(normalized_color(value)->Ok_0) == normalized_color(value),
{
    let c = color_of_text(value)->Ok_0;
    lemma_color_text_round_trip(c);
}

/// A colour value written by `colorref_to_hex` reads back as its parts.
pub proof fn lemma_colorref_round_trip(r: u8, g: u8, b: u8)
    ensures
        colorref_parts(rgb_spec(r, g, b)) == (r, g, b),
        color_of_text(color_text(colorref_parts(rgb_spec(r, g, b)))) == Ok::<(u8, u8, u8), Seq<char>>((r, g, b)),
{
    let v = rgb_spec(r, g, b);
    assert(v == r as int + g as int * 256 + b as int * 65536);
    assert(colorref_parts(v) == (r, g, b)) by (nonlinear_arith)
        requires
            v == r as int + g as int * 256 + b as int * 65536,
            0 <= r < 256,
            0 <= g < 256,
            0 <= b < 256,
    ;
    lemma_color_text_round_trip((r, g, b));
}

/// `x` lies between `a` and `b`, both included.
pub open spec fn between(x: int, a: int, b: int) -> bool {
    (a <= x <= b) || (b <= x <= a)
}

/// Each channel of colour value `c` lies between that channel of `base` and
/// of `target`.
pub open spec fn blends_between(c: u32, base: (u8, u8, u8), target: (u8, u8, u8)) -> bool {
    let p = colorref_parts(c);
    &&& between(p.0 as int, base.0 as int, target.0 as int)
    &&& between(p.1 as int, base.1 as int, target.1 as int)
    &&& between(p.2 as int, base.2 as int, target.2 as int)
}

proof fn lemma_mix_channel_between(base: u8, target: u8, percent: u8)
    requires
        percent <= 100,
    ensures
        between(mix_channel_spec(base, target, percent) as int, base as int, target as int),
{
    let b = base as int;
    let t = target as int;
    let p = percent as int;
    if t >= b {
        assert(0 <= (t - b) * p <= (t - b) * 100) by (nonlinear_arith)
            requires
                t >= b,
                0 <= p <= 100,
        ;
        let q = ((t - b) * p) / 100;
        assert(0 <= q <= t - b) by (nonlinear_arith)
            requires
                0 <= (t - b) * p <= (t - b) * 100,
                q == ((t - b) * p) / 100,
        ;
        assert(crate::board::div_toward_zero((t - b) * p, 100) == q);
    } else {
        assert(0 <= (b - t) * p <= (b - t) * 100) by (nonlinear_arith)
            requires
                b > t,
                0 <= p <= 100,
        ;
        let q = ((b - t) * p) / 100;
        assert(0 <= q <= b - t) by (nonlinear_arith)
            requires
                0 <= (b - t) * p <= (b - t) * 100,
                q == ((b - t) * p) / 100,
        ;
        assert((t - b) * p == -((b - t) * p)) by (nonlinear_arith);
        if (t - b) * p < 0 {
            assert(crate::board::div_toward_zero((t - b) * p, 100) == -q);
        } else {
            assert((b - t) * p == 0);
            assert(q == 0);
        }
    }
}

proof fn lemma_mix_blends(base: (u8, u8, u8), target: (u8, u8, u8), percent: u8)
    requires
        percent <= 100,
    ensures
        blends_between(mix_spec(base, target, percent), base, target),
{
    lemma_mix_channel_between(base.0, target.0, percent);
    lemma_mix_channel_between(base.1, target.1, percent);
    lemma_mix_channel_between(base.2, target.2, percent);
    lemma_colorref_round_trip(
        mix_channel_spec(base.0, target.0, percent),
        mix_channel_spec(base.1, target.1, percent),
        mix_channel_spec(base.2, target.2, percent),
    );
}

/// The theme follows the background it is built on: the window is that
/// colour itself, and each panel colour, channel by channel, lies between
/// the background and the colour it is blended toward (white for header,
/// cards, footer and buttons, light blue `(217, 234, 255)` for the
/// selection); so a change of background moves every derived colour.
pub proof fn lemma_theme_follows_background(base: (u8, u8, u8))
    ensures
        colorref_parts(theme_of(base).window_bg) == base,
        blends_between(theme_of(base).header_bg, base, (255u8, 255u8, 255u8)),
        blends_between(theme_of(base).card_bg, base, (255u8, 255u8, 255u8)),
        blends_between(theme_of(base).selected_bg, base, (217u8, 234u8, 255u8)),
        blends_between(theme_of(base).footer_bg, base, (255u8, 255u8, 255u8)),
        blends_between(theme_of(base).button_bg, base, (255u8, 255u8, 255u8)),
{
    lemma_colorref_round_trip(base.0, base.1, base.2);
    lemma_mix_blends(base, (255u8, 255u8, 255u8), 78);
    lemma_mix_blends(base, (255u8, 255u8, 255u8), 88);
    lemma_mix_blends(base, (217u8, 234u8, 255u8), 72);
    lemma_mix_blends(base, (255u8, 255u8, 255u8), 70);
    lemma_mix_blends(base, (255u8, 255u8, 255u8), 82);
}

} // verus!
