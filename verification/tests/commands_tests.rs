use bezy::cli::CliArgs;
use bezy::commands::{
    codepoint_cycle_requests, codepoint_sample, cycle_test_codepoint, save_shortcut_pressed,
    CodepointDirection,
};

fn strings(v: &[&str]) -> Vec<String> {
    v.iter().map(|s| s.to_string()).collect()
}

#[test]
fn codepoint_sample_short_list() {
    let cps = strings(&["0041", "0042"]);
    assert_eq!(codepoint_sample(&cps), "U+0041 U+0042 ");
    assert_eq!(codepoint_sample(&Vec::new()), "");
}

#[test]
fn codepoint_sample_breaks_lines_and_truncates() {
    let cps: Vec<String> = (0..23u32).map(|i| format!("{:04X}", 0x41 + i)).collect();
    let mut expected = String::new();
    for i in 0..20 {
        expected.push_str(&format!("U+{} ", cps[i]));
        if i % 5 == 4 {
            expected.push('\n');
        }
    }
    expected.push_str("\n...");
    assert_eq!(codepoint_sample(&cps), expected);
    let five = strings(&["A", "B", "C", "D", "E"]);
    assert_eq!(codepoint_sample(&five), "U+A U+B U+C U+D U+E \n");
}

#[test]
fn cycle_test_codepoint_moves_and_resets_found() {
    let list = strings(&["0041", "0042", "0043"]);
    let mut args = CliArgs { ufo_path: None, test_unicode: Some("0042".into()), debug: true, codepoint_found: true };
    assert!(cycle_test_codepoint(&mut args, &list, CodepointDirection::Next));
    assert_eq!(args.test_unicode.as_deref(), Some("0043"));
    assert!(!args.codepoint_found);
    assert!(args.debug);
    assert!(cycle_test_codepoint(&mut args, &list, CodepointDirection::Next));
    assert_eq!(args.test_unicode.as_deref(), Some("0041"));
    assert!(cycle_test_codepoint(&mut args, &list, CodepointDirection::Previous));
    assert_eq!(args.test_unicode.as_deref(), Some("0043"));
}

#[test]
fn cycle_test_codepoint_without_codepoints_changes_nothing() {
    let mut args = CliArgs { ufo_path: None, test_unicode: None, debug: false, codepoint_found: true };
    assert!(!cycle_test_codepoint(&mut args, &Vec::new(), CodepointDirection::Next));
    assert_eq!(args.test_unicode, None);
    assert!(args.codepoint_found);
    let list = strings(&["0041", "0042"]);
    assert!(cycle_test_codepoint(&mut args, &list, CodepointDirection::Previous));
    assert_eq!(args.test_unicode.as_deref(), Some("0042"));
}

#[test]
fn shortcut_decisions() {
    assert_eq!(codepoint_cycle_requests(true, true, false), vec![CodepointDirection::Next]);
    assert_eq!(codepoint_cycle_requests(true, false, true), vec![CodepointDirection::Previous]);
    assert_eq!(
        codepoint_cycle_requests(true, true, true),
        vec![CodepointDirection::Next, CodepointDirection::Previous]
    );
    assert!(codepoint_cycle_requests(false, true, true).is_empty());
    assert!(save_shortcut_pressed(true, false, false, false, true));
    assert!(save_shortcut_pressed(false, false, false, true, true));
    assert!(!save_shortcut_pressed(false, false, false, false, true));
    assert!(!save_shortcut_pressed(true, true, true, true, false));
}
