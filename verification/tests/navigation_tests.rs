use bezy::navigation::{
    cycle_codepoint_in_list, find_glyph_by_unicode_codepoint, get_all_codepoints, CycleDirection,
    GlyphNavigation,
};
use bezy::ufo::GlyphCodepoints;

fn glyph(name: &str, cps: &[char]) -> GlyphCodepoints {
    GlyphCodepoints { name: name.to_string(), codepoints: cps.to_vec() }
}

fn font() -> Vec<GlyphCodepoints> {
    vec![glyph("b", &['b']), glyph("a", &['a']), glyph("A", &['A']), glyph("alpha", &['α'])]
}

#[test]
fn navigation_default_state() {
    let nav = GlyphNavigation::default();
    assert_eq!(nav.current_codepoint, None);
    assert!(!nav.codepoint_found);
    assert_eq!(nav.current_glyph, Some("a".to_string()));
    assert_eq!(nav.get_codepoint_string(), "");
}

#[test]
fn navigation_set_codepoint_resets_found() {
    let mut nav = GlyphNavigation::default();
    nav.codepoint_found = true;
    nav.set_codepoint("0041".to_string());
    assert_eq!(nav.get_codepoint_string(), "0041");
    assert!(!nav.codepoint_found);
    assert_eq!(nav.find_glyph(&font()), Some("A".to_string()));
}

#[test]
fn navigation_find_glyph_by_codepoint() {
    let f = font();
    assert_eq!(find_glyph_by_unicode_codepoint(&f, "61"), Some("a".to_string()));
    assert_eq!(find_glyph_by_unicode_codepoint(&f, "03B1"), Some("alpha".to_string()));
    assert_eq!(find_glyph_by_unicode_codepoint(&f, "0063"), None);
    assert_eq!(find_glyph_by_unicode_codepoint(&f, "zz"), None);
    assert_eq!(find_glyph_by_unicode_codepoint(&f, "D800"), None);
    assert_eq!(find_glyph_by_unicode_codepoint(&f, "110000"), None);
    assert_eq!(GlyphNavigation::default().find_glyph(&f), None);
}

#[test]
fn navigation_all_codepoints_sorted() {
    assert_eq!(get_all_codepoints(&font()), vec!["0041", "0061", "0062", "03B1"]);
}

#[test]
fn navigation_cycle_codepoints() {
    let f = font();
    assert_eq!(cycle_codepoint_in_list(None, &f, CycleDirection::Next), Some("0041".to_string()));
    assert_eq!(cycle_codepoint_in_list(None, &f, CycleDirection::Previous), Some("0041".to_string()));
    assert_eq!(
        cycle_codepoint_in_list(Some("0041".to_string()), &f, CycleDirection::Next),
        Some("0061".to_string())
    );
    assert_eq!(
        cycle_codepoint_in_list(Some("03B1".to_string()), &f, CycleDirection::Next),
        Some("0041".to_string())
    );
    assert_eq!(
        cycle_codepoint_in_list(Some("0041".to_string()), &f, CycleDirection::Previous),
        Some("03B1".to_string())
    );
    assert_eq!(
        cycle_codepoint_in_list(Some("9999".to_string()), &f, CycleDirection::Previous),
        Some("0041".to_string())
    );
    assert_eq!(cycle_codepoint_in_list(Some("0041".to_string()), &Vec::new(), CycleDirection::Next), None);
}
