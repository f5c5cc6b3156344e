use spriteforge::{darken_color, parse_color_text, parse_hex_color, Color, ColorError};

fn rgba(r: u8, g: u8, b: u8, a: u8) -> Color {
    Color { r, g, b, a }
}

#[test]
fn parses_hex_colors() {
    assert_eq!(parse_hex_color("#ff8800"), Ok(rgba(255, 136, 0, 255)));
    assert_eq!(parse_hex_color("  #0A0b0C \n"), Ok(rgba(10, 11, 12, 255)));
    assert_eq!(parse_hex_color("##00ff00"), Ok(rgba(0, 255, 0, 255)));
    assert_eq!(parse_hex_color("+f+f+f"), Ok(rgba(15, 15, 15, 255)));
}

#[test]
fn transparent_in_any_case() {
    assert_eq!(parse_hex_color("transparent"), Ok(rgba(0, 0, 0, 0)));
    assert_eq!(parse_hex_color(" #TransParent "), Ok(rgba(0, 0, 0, 0)));
    assert_eq!(parse_hex_color("transparen"), Err(ColorError::Format));
}

#[test]
fn color_errors() {
    assert_eq!(parse_hex_color("#12345"), Err(ColorError::Format));
    assert_eq!(parse_hex_color(""), Err(ColorError::Format));
    assert_eq!(parse_hex_color("#gg0000"), Err(ColorError::InvalidRed));
    assert_eq!(parse_hex_color("#00-100"), Err(ColorError::InvalidGreen));
    assert_eq!(parse_hex_color("#0000zz"), Err(ColorError::InvalidBlue));
    assert_eq!(parse_hex_color("#aé123"), Err(ColorError::InvalidRed));
}

#[test]
fn untrimmed_text_is_not_trimmed_again() {
    assert_eq!(parse_color_text(" #ff8800"), Err(ColorError::Format));
    assert_eq!(parse_color_text("#ff8800"), Ok(rgba(255, 136, 0, 255)));
}

#[test]
fn darkening_saturates() {
    assert_eq!(darken_color(rgba(10, 200, 30, 77), 20), rgba(0, 180, 10, 77));
}

#[test]
fn trims_unicode_white_space() {
    assert_eq!(parse_hex_color("\u{a0}\t#ff0000\u{3000}\n"), Ok(rgba(255, 0, 0, 255)));
    assert_eq!(parse_hex_color("\u{200b}#ff0000"), Err(ColorError::Format));
}
