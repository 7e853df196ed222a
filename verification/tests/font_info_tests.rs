use bezy::font_info::{extract_string_field, get_display_name};

#[test]
fn display_name_joins_non_empty_parts() {
    assert_eq!(get_display_name("Bezy Grotesk", "Regular"), "Bezy Grotesk Regular");
    assert_eq!(get_display_name("Bezy", ""), "Bezy");
    assert_eq!(get_display_name("", "Bold"), "Bold");
    assert_eq!(get_display_name("", ""), "Untitled Font");
}

#[test]
fn string_field_with_default() {
    assert_eq!(extract_string_field(&Some("Fam".to_string()), "Untitled"), "Fam");
    assert_eq!(extract_string_field(&None, "Untitled"), "Untitled");
    assert_eq!(extract_string_field(&Some(String::new()), "Regular"), "");
}
