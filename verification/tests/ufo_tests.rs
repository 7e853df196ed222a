use bezy::ufo::{
    cycle_codepoint_in_list, find_glyph_by_unicode, find_next_codepoint_in_list,
    find_previous_codepoint_in_list, get_all_codepoints, CycleDirection, GlyphCodepoints,
};

fn glyph(name: &str, cps: &[char]) -> GlyphCodepoints {
    GlyphCodepoints { name: name.to_string(), codepoints: cps.to_vec() }
}

fn strings(v: &[&str]) -> Vec<String> {
    v.iter().map(|s| s.to_string()).collect()
}

fn sample_font() -> Vec<GlyphCodepoints> {
    vec![
        glyph("B", &['B']),
        glyph("A", &['A', 'a']),
        glyph("space", &[' ']),
        glyph("notdef", &[]),
        glyph("eacute", &['é']),
    ]
}

#[test]
fn ufo_all_codepoints_sorted_unique() {
    let mut font = sample_font();
    font.push(glyph("A.alt", &['A']));
    assert_eq!(get_all_codepoints(&font), strings(&["0020", "0041", "0042", "0061", "00E9"]));
    assert!(get_all_codepoints(&Vec::new()).is_empty());
}

#[test]
fn ufo_find_glyph_by_unicode() {
    let font = sample_font();
    assert_eq!(find_glyph_by_unicode(&font, "0041"), Some("A".to_string()));
    assert_eq!(find_glyph_by_unicode(&font, "0061"), Some("A".to_string()));
    assert_eq!(find_glyph_by_unicode(&font, "00E9"), Some("eacute".to_string()));
    assert_eq!(find_glyph_by_unicode(&font, "0043"), None);
    assert_eq!(find_glyph_by_unicode(&font, "41"), None);
}

#[test]
fn ufo_find_glyph_later_glyph_wins() {
    let mut font = sample_font();
    font.push(glyph("A.alt", &['A']));
    assert_eq!(find_glyph_by_unicode(&font, "0041"), Some("A.alt".to_string()));
}

#[test]
fn ufo_cycle_next_and_previous_wrap() {
    let list = strings(&["0041", "0042", "0043"]);
    assert_eq!(find_next_codepoint_in_list(&list, "0041"), Some("0042".to_string()));
    assert_eq!(find_next_codepoint_in_list(&list, "0043"), Some("0041".to_string()));
    assert_eq!(find_previous_codepoint_in_list(&list, "0041"), Some("0043".to_string()));
    assert_eq!(find_previous_codepoint_in_list(&list, "0042"), Some("0041".to_string()));
}

#[test]
fn ufo_cycle_defaults_and_empty() {
    let list = strings(&["0041", "0042", "0043"]);
    assert_eq!(find_next_codepoint_in_list(&list, ""), Some("0041".to_string()));
    assert_eq!(find_previous_codepoint_in_list(&list, ""), Some("0043".to_string()));
    assert_eq!(find_next_codepoint_in_list(&list, "9999"), Some("0041".to_string()));
    assert_eq!(find_previous_codepoint_in_list(&list, "9999"), Some("0043".to_string()));
    assert_eq!(cycle_codepoint_in_list(&[], "0041", CycleDirection::Next), None);
}

#[test]
fn ufo_next_then_previous_returns() {
    let list = strings(&["0020", "0041", "00E9"]);
    for cp in &list {
        let n = find_next_codepoint_in_list(&list, cp).unwrap();
        assert_eq!(&find_previous_codepoint_in_list(&list, &n).unwrap(), cp);
        let p = find_previous_codepoint_in_list(&list, cp).unwrap();
        assert_eq!(&find_next_codepoint_in_list(&list, &p).unwrap(), cp);
    }
}
