use bezy::debug_hud::{
    codepoint_char_display, codepoint_warning_action, font_info_text, font_info_to_print,
    WarningAction,
};

fn some(s: &str) -> Option<String> {
    Some(s.to_string())
}

#[test]
fn hud_char_display() {
    assert_eq!(codepoint_char_display("0041"), "'A'");
    assert_eq!(codepoint_char_display("0x0x61"), "'a'");
    assert_eq!(codepoint_char_display("00E9"), "'é'");
    assert_eq!(codepoint_char_display("0A"), "<control>");
    assert_eq!(codepoint_char_display("9F"), "<control>");
    assert_eq!(codepoint_char_display("A0"), "'\u{a0}'");
    assert_eq!(codepoint_char_display("zz"), "<control>");
    assert_eq!(codepoint_char_display("D800"), "<none>");
    assert_eq!(codepoint_char_display("110000"), "<none>");
    for v in [0u32, 0x1f, 0x20, 0x7e, 0x7f, 0x85, 0x9f, 0xa0, 0x41] {
        let c = char::from_u32(v).unwrap();
        let expected = if c.is_control() { "<control>".to_string() } else { format!("'{}'", c) };
        assert_eq!(codepoint_char_display(&format!("{:X}", v)), expected);
    }
}

#[test]
fn hud_font_info_text() {
    assert_eq!(font_info_text("Bezy", &some("0041")), "Bezy | Codepoint: U+0041 'A'");
    assert_eq!(font_info_text("Bezy", &some("")), "Bezy");
    assert_eq!(font_info_text("Bezy", &None), "Bezy");
    assert_eq!(font_info_text("", &some("D800")), " | Codepoint: U+D800 <none>");
}

#[test]
fn hud_prints_only_on_change() {
    let mut last = None;
    assert_eq!(
        font_info_to_print("F", &some("0042"), &mut last),
        Some("F | Codepoint: U+0042 'B'".to_string())
    );
    assert_eq!(last, some("0042"));
    assert_eq!(font_info_to_print("F", &some("0042"), &mut last), None);
    assert_eq!(font_info_to_print("F", &None, &mut last), Some("F".to_string()));
    assert_eq!(last, None);
    assert_eq!(font_info_to_print("F", &None, &mut last), None);
}

#[test]
fn hud_warning_decisions() {
    match codepoint_warning_action(&some("0041"), false, false, false) {
        WarningAction::Show(m) => assert_eq!(m, "Codepoint 0041 not found in UFO source"),
        _ => panic!("warning expected"),
    }
    assert!(matches!(codepoint_warning_action(&some("0041"), false, true, false), WarningAction::Keep));
    assert!(matches!(codepoint_warning_action(&some("0041"), false, false, true), WarningAction::Keep));
    assert!(matches!(codepoint_warning_action(&some("0041"), true, true, true), WarningAction::Clear));
    assert!(matches!(codepoint_warning_action(&some(""), false, false, false), WarningAction::Clear));
    assert!(matches!(codepoint_warning_action(&None, false, true, true), WarningAction::Clear));
    assert!(matches!(codepoint_warning_action(&None, false, true, false), WarningAction::Keep));
}
