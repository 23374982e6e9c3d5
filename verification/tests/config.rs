use wmfocus::config::parse_font_spec;
use wmfocus::config::ConfigError;
use wmfocus::config::FontSpec;

fn font(family: &str, size: &str) -> FontSpec {
    FontSpec { family: family.to_string(), size: size.to_string() }
}

#[test]
fn a_font_is_its_family_and_its_size() {
    assert_eq!(parse_font_spec("Mono:72"), Ok(font("Mono", "72")));
    assert_eq!(parse_font_spec("DejaVu Sans Mono:12.5"), Ok(font("DejaVu Sans Mono", "12.5")));
}

#[test]
fn a_font_without_a_colon_is_an_error() {
    assert_eq!(parse_font_spec("Mono"), Err(ConfigError::WrongFontFormat));
    assert_eq!(parse_font_spec(""), Err(ConfigError::WrongFontFormat));
    assert_eq!(parse_font_spec("Mono 72"), Err(ConfigError::WrongFontFormat));
}

#[test]
fn what_follows_a_second_colon_is_not_read() {
    assert_eq!(parse_font_spec("Mono:72:bold"), Ok(font("Mono", "72")));
    assert_eq!(parse_font_spec(":"), Ok(font("", "")));
    assert_eq!(parse_font_spec(":72"), Ok(font("", "72")));
    assert_eq!(parse_font_spec("Mono:"), Ok(font("Mono", "")));
    assert_eq!(parse_font_spec("Mono::72"), Ok(font("Mono", "")));
}
