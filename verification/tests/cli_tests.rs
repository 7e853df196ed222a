use bezy::cli::CliArgs;

fn args(unicode: Option<&str>) -> CliArgs {
    CliArgs {
        ufo_path: None,
        test_unicode: unicode.map(|s| s.to_string()),
        debug: false,
        codepoint_found: true,
    }
}

#[test]
fn cli_test_glyph_default_is_h() {
    assert_eq!(args(None).get_test_glyph(), "H");
    assert_eq!(args(Some("zz")).get_test_glyph(), "H");
    assert_eq!(args(Some("")).get_test_glyph(), "H");
    assert_eq!(args(Some("0x")).get_test_glyph(), "H");
    assert_eq!(args(Some("110000000")).get_test_glyph(), "H");
}

#[test]
fn cli_test_glyph_letters_and_digits() {
    assert_eq!(args(Some("0041")).get_test_glyph(), "A");
    assert_eq!(args(Some("0061")).get_test_glyph(), "a");
    assert_eq!(args(Some("0x61")).get_test_glyph(), "a");
    assert_eq!(args(Some("7A")).get_test_glyph(), "z");
    assert_eq!(args(Some("0030")).get_test_glyph(), "0");
    assert_eq!(args(Some("+39")).get_test_glyph(), "9");
}

#[test]
fn cli_test_glyph_special_names() {
    assert_eq!(args(Some("0020")).get_test_glyph(), "space");
    assert_eq!(args(Some("0x0x20")).get_test_glyph(), "space");
    assert_eq!(args(Some("2E")).get_test_glyph(), "period");
    assert_eq!(args(Some("2c")).get_test_glyph(), "comma");
    assert_eq!(args(Some("27")).get_test_glyph(), "quotesingle");
}

#[test]
fn cli_test_glyph_uni_names() {
    assert_eq!(args(Some("21")).get_test_glyph(), "!|uni0021");
    assert_eq!(args(Some("7E")).get_test_glyph(), "~|uni007E");
    assert_eq!(args(Some("00E9")).get_test_glyph(), "uni00E9");
    assert_eq!(args(Some("1F600")).get_test_glyph(), "uni1F600");
    assert_eq!(args(Some("7F")).get_test_glyph(), "uni007F");
    assert_eq!(args(Some("D800")).get_test_glyph(), "uniD800");
}

#[test]
fn cli_codepoint_string_and_set() {
    let mut a = args(None);
    assert_eq!(a.get_codepoint_string(), "");
    a.set_codepoint("0042".to_string());
    assert_eq!(a.get_codepoint_string(), "0042");
    assert!(!a.codepoint_found);
    assert_eq!(a.get_test_glyph(), "B");
}
