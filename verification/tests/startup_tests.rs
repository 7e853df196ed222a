use bezy::startup::{CliArgs, FontPathProbe, DEFAULT_UFO_PATH};

fn probe(display: &str, exists: bool, ext: Option<&str>, is_dir: bool, meta: bool) -> FontPathProbe {
    FontPathProbe {
        display: display.to_string(),
        exists,
        extension: ext.map(|e| e.to_string()),
        is_dir,
        has_metainfo: meta,
    }
}

fn args(theme: Option<&str>) -> CliArgs {
    CliArgs {
        ufo_path: Some(std::path::PathBuf::from("x")),
        theme: theme.map(|t| t.to_string()),
        no_default_buffer: false,
    }
}

#[test]
fn startup_accepts_designspace_and_ufo_directories() {
    let a = args(None);
    assert_eq!(a.validate(&Some(probe("f.designspace", true, Some("designspace"), false, false)), true, ""), Ok(()));
    assert_eq!(a.validate(&Some(probe("f.ufo", true, Some("ufo"), true, true)), true, ""), Ok(()));
    assert_eq!(a.validate(&Some(probe("fontdir", true, None, true, true)), true, ""), Ok(()));
}

#[test]
fn startup_path_errors() {
    let a = args(None);
    assert_eq!(
        a.validate(&None, true, ""),
        Err("Please provide a UFO file path as an argument.\nExample: bezy assets/fonts/bezy-grotesk-regular.ufo".to_string())
    );
    assert_eq!(
        a.validate(&Some(probe("nope.ufo", false, Some("ufo"), false, false)), true, ""),
        Err("UFO file does not exist: nope.ufo\nMake sure the path is correct and the file exists.".to_string())
    );
    assert_eq!(
        a.validate(&Some(probe("f.ttf", true, Some("ttf"), false, false)), true, ""),
        Err("Unsupported file type: f.ttf\nSupported formats: .ufo directories and .designspace files.".to_string())
    );
    assert_eq!(
        a.validate(&Some(probe("dir", true, None, true, false)), true, ""),
        Err("Not a valid UFO file: missing metainfo.plist in dir\nMake sure this is a valid UFO directory.".to_string())
    );
    assert_eq!(
        a.validate(&Some(probe("file", true, None, false, false)), true, ""),
        Err("Invalid path: file\nPath must be either a .ufo directory or a .designspace file.".to_string())
    );
    assert_eq!(
        a.validate(&Some(probe("x.ufo", true, Some("ufo"), false, false)), true, ""),
        Err("Invalid path: x.ufo\nPath must be either a .ufo directory or a .designspace file.".to_string())
    );
}

#[test]
fn startup_theme_errors() {
    let ok_path = Some(probe("f.designspace", true, Some("designspace"), false, false));
    assert_eq!(args(Some("lightmode")).validate(&ok_path, true, "darkmode, lightmode"), Ok(()));
    assert_eq!(
        args(Some("neon")).validate(&ok_path, false, "darkmode, lightmode"),
        Err("Unknown theme: 'neon'\nAvailable themes: darkmode, lightmode".to_string())
    );
    // The path is checked before the theme.
    assert_eq!(
        args(Some("neon")).validate(&None, false, "darkmode"),
        Err("Please provide a UFO file path as an argument.\nExample: bezy assets/fonts/bezy-grotesk-regular.ufo".to_string())
    );
}

#[test]
fn startup_web_defaults() {
    let a = CliArgs::default_for_web();
    assert_eq!(a.get_ufo_path(), &std::path::PathBuf::from(DEFAULT_UFO_PATH));
    assert_eq!(a.theme, None);
    assert!(!a.no_default_buffer);
}
