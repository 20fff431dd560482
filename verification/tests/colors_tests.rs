use todo_widget::board::{mix_channel, mix_rgb};
use todo_widget::colors::{
    color_text_readable, colorref_to_hex, normalize_color_text, parse_alpha_text, parse_hex_color, Theme,
};
use todo_widget::store::Settings;
use todo_widget::win32::rgb;

const BAD_COLOR: &str = "背景色请使用 6 位十六进制格式，例如 #F5F7FA";
const BAD_ALPHA: &str = "透明度请输入 30 到 255 之间的数字";

#[test]
fn reads_hex_colors() {
    assert_eq!(parse_hex_color("#F5F7FA"), Ok((245, 247, 250)));
    assert_eq!(parse_hex_color("  f5f7fa "), Ok((245, 247, 250)));
    assert_eq!(parse_hex_color("##00ff7F"), Ok((0, 255, 127)));
    assert_eq!(parse_hex_color("+1+2+3"), Ok((1, 2, 3)));
}

#[test]
fn rejects_other_color_texts() {
    assert_eq!(parse_hex_color("#FFF").unwrap_err(), BAD_COLOR);
    assert_eq!(parse_hex_color("#F5F7FAA").unwrap_err(), BAD_COLOR);
    assert_eq!(parse_hex_color("#GGGGGG").unwrap_err(), BAD_COLOR);
    assert_eq!(parse_hex_color("").unwrap_err(), BAD_COLOR);
    assert_eq!(parse_hex_color("-1-2-3").unwrap_err(), BAD_COLOR);
}

#[test]
fn readability_of_multibyte_texts() {
    assert!(color_text_readable("#F5F7FA"));
    assert!(!color_text_readable("颜色"));
    assert!(!color_text_readable("a颜xx"));
    assert!(!color_text_readable("ab颜x"));
    assert!(color_text_readable("ab颜色"));
    assert!(color_text_readable("ééé"));
    assert_eq!(parse_hex_color("ab颜色").unwrap_err(), BAD_COLOR);
    assert_eq!(parse_hex_color("ééé").unwrap_err(), BAD_COLOR);
}

#[test]
fn normalizes_to_upper_case() {
    assert_eq!(normalize_color_text(" #0a0b0c "), Ok("#0A0B0C".to_string()));
    assert_eq!(normalize_color_text("ffffff"), Ok("#FFFFFF".to_string()));
    assert_eq!(normalize_color_text("#12").unwrap_err(), BAD_COLOR);
    let once = normalize_color_text("abcdef").unwrap();
    assert_eq!(normalize_color_text(&once), Ok(once.clone()));
}

#[test]
fn colorref_text() {
    assert_eq!(colorref_to_hex(rgb(245, 247, 250)), "#F5F7FA");
    assert_eq!(colorref_to_hex(0x00FF_0000), "#0000FF");
    assert_eq!(colorref_to_hex(0xAB00_0001), "#010000");
    for (r, g, b) in [(0u8, 0u8, 0u8), (1, 2, 3), (255, 128, 9)] {
        assert_eq!(parse_hex_color(&colorref_to_hex(rgb(r, g, b))), Ok((r, g, b)));
    }
}

#[test]
fn alpha_texts() {
    assert_eq!(parse_alpha_text(" 200 "), Ok(200));
    assert_eq!(parse_alpha_text("30"), Ok(30));
    assert_eq!(parse_alpha_text("255"), Ok(255));
    assert_eq!(parse_alpha_text("+99"), Ok(99));
    assert_eq!(parse_alpha_text("29").unwrap_err(), BAD_ALPHA);
    assert_eq!(parse_alpha_text("256").unwrap_err(), BAD_ALPHA);
    assert_eq!(parse_alpha_text("70000").unwrap_err(), BAD_ALPHA);
    assert_eq!(parse_alpha_text("abc").unwrap_err(), BAD_ALPHA);
    assert_eq!(parse_alpha_text("").unwrap_err(), BAD_ALPHA);
}

#[test]
fn channel_mixing() {
    assert_eq!(mix_channel(0, 255, 50), 127);
    assert_eq!(mix_channel(255, 0, 50), 128);
    assert_eq!(mix_channel(200, 100, 0), 200);
    assert_eq!(mix_channel(10, 250, 100), 250);
    assert_eq!(mix_rgb((245, 247, 250), (255, 255, 255), 78), rgb(252, 253, 253));
}

#[test]
fn theme_from_settings() {
    let mut s = Settings::default();
    let t = Theme::from_settings(&s);
    assert_eq!(t.window_bg, rgb(245, 247, 250));
    assert_eq!(t.text_primary, rgb(26, 33, 44));
    assert_eq!(t.text_secondary, rgb(95, 107, 124));
    assert_eq!(t.header_bg, mix_rgb((245, 247, 250), (255, 255, 255), 78));
    assert_eq!(t.card_bg, mix_rgb((245, 247, 250), (255, 255, 255), 88));
    assert_eq!(t.selected_bg, mix_rgb((245, 247, 250), (217, 234, 255), 72));
    assert_eq!(t.footer_bg, mix_rgb((245, 247, 250), (255, 255, 255), 70));
    assert_eq!(t.button_bg, mix_rgb((245, 247, 250), (255, 255, 255), 82));
    s.background_color = "#000000".to_string();
    let dark = Theme::from_settings(&s);
    assert_eq!(dark.window_bg, rgb(0, 0, 0));
    assert_eq!(dark.header_bg, rgb(198, 198, 198));
    s.background_color = "not a colour".to_string();
    assert_eq!(Theme::from_settings(&s), t);
}
