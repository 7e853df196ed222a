use bezy::kerning::get_glyph_kerning_groups;

fn group(name: &str, members: &[&str]) -> (String, Vec<String>) {
    (name.to_string(), members.iter().map(|m| m.to_string()).collect())
}

#[test]
fn kerning_groups_of_a_glyph() {
    let groups = vec![
        group("public.kern1.O", &["O", "D", "Q"]),
        group("public.kern2.O", &["O", "C", "G"]),
        group("public.kern1.H", &["H", "I"]),
        group("other", &["O"]),
    ];
    assert_eq!(
        get_glyph_kerning_groups(&groups, "O"),
        (Some("O".to_string()), Some("O".to_string()))
    );
    assert_eq!(get_glyph_kerning_groups(&groups, "D"), (Some("O".to_string()), None));
    assert_eq!(get_glyph_kerning_groups(&groups, "C"), (None, Some("O".to_string())));
    assert_eq!(get_glyph_kerning_groups(&groups, "Z"), (None, None));
    assert_eq!(get_glyph_kerning_groups(&Vec::new(), "O"), (None, None));
}

#[test]
fn kerning_last_group_wins_and_prefix_must_match() {
    let groups = vec![
        group("public.kern1.round", &["o"]),
        group("public.kern1.", &["x"]),
        group("public.kern1.o_alt", &["o"]),
        group("kern1.public.kern1.bad", &["z"]),
    ];
    assert_eq!(get_glyph_kerning_groups(&groups, "o").0, Some("o_alt".to_string()));
    assert_eq!(get_glyph_kerning_groups(&groups, "x").0, Some("".to_string()));
    assert_eq!(get_glyph_kerning_groups(&groups, "z"), (None, None));
}
