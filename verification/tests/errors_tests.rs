use bezy::errors::{
    check_point_update,
    contour_out_of_bounds_message, file_context_message, glyph_context_message,
    glyph_not_found_message, point_context_message, point_out_of_bounds_message,
    validate_ufo_path, BezyContext, UfoPathError,
};

fn io_error() -> std::io::Error {
    std::io::Error::new(std::io::ErrorKind::NotFound, "gone")
}

#[test]
fn validate_ufo_path_checks_in_order() {
    assert!(validate_ufo_path("a.ufo", true, true, true).is_ok());
    match validate_ufo_path("a.ufo", false, false, false) {
        Err(e) => assert_eq!(e.message(), "UFO path does not exist: a.ufo"),
        Ok(()) => panic!("missing path accepted"),
    }
    match validate_ufo_path("a.ufo", true, false, true) {
        Err(e @ UfoPathError::NotDirectory(_)) => {
            assert_eq!(e.message(), "UFO path must be a directory: a.ufo")
        }
        _ => panic!("file accepted"),
    }
    match validate_ufo_path("fonts/b.ufo", true, true, false) {
        Err(e @ UfoPathError::MissingMetainfo(_)) => {
            assert_eq!(e.message(), "Invalid UFO: missing metainfo.plist in fonts/b.ufo")
        }
        _ => panic!("directory without metainfo accepted"),
    }
}

#[test]
fn context_messages() {
    assert_eq!(file_context_message("load", "x.ufo"), "Failed to load file: x.ufo");
    assert_eq!(
        glyph_context_message("move", "A"),
        "Failed to move glyph 'A': Operation failed"
    );
    assert_eq!(
        point_context_message("update", "B", 2, 17),
        "Failed to update point 2.17 in glyph 'B': Operation failed"
    );
    assert_eq!(
        glyph_not_found_message("Q", 120),
        "Glyph 'Q' not found in font (available glyphs: 120)"
    );
    assert_eq!(
        point_out_of_bounds_message("a", 1, 9, 8),
        "Point index 9 out of bounds in contour 1 of glyph 'a' (max: 8)"
    );
    assert_eq!(
        contour_out_of_bounds_message("a", 3, 2),
        "Contour index 3 out of bounds in glyph 'a' (max: 2)"
    );
}

#[test]
fn bezy_context_passes_ok_through() {
    let r: Result<u32, std::io::Error> = Ok(7);
    assert_eq!(r.with_file_context("load", "x.ufo").unwrap(), 7);
    let r: Result<u32, std::io::Error> = Ok(8);
    assert_eq!(r.with_glyph_context("edit", "A").unwrap(), 8);
    let r: Result<u32, std::io::Error> = Ok(9);
    assert_eq!(r.with_point_context("edit", "A", 0, 1).unwrap(), 9);
}

#[test]
fn bezy_context_attaches_messages() {
    let r: Result<(), std::io::Error> = Err(io_error());
    let e = r.with_file_context("save", "out.ufo").unwrap_err();
    assert_eq!(e.to_string(), "Failed to save file: out.ufo");
    assert_eq!(format!("{:#}", e), "Failed to save file: out.ufo: gone");

    let r: Result<(), std::io::Error> = Err(io_error());
    let e = r.with_glyph_context("load", "g").unwrap_err();
    assert_eq!(e.to_string(), "Failed to load glyph 'g': Operation failed");

    let r: Result<(), std::io::Error> = Err(io_error());
    let e = r.with_point_context("move", "g", 4, 5).unwrap_err();
    assert_eq!(e.to_string(), "Failed to move point 4.5 in glyph 'g': Operation failed");
}

#[test]
fn point_update_checks() {
    let shape = Some(Some(vec![3usize, 5]));
    assert_eq!(check_point_update("a", 10, &shape, 1, 4), Ok(()));
    assert_eq!(
        check_point_update("a", 10, &None, 0, 0),
        Err("Glyph 'a' not found in font (available glyphs: 10)".to_string())
    );
    assert_eq!(
        check_point_update("a", 10, &Some(None), 0, 0),
        Err("Glyph 'a' has no outline data".to_string())
    );
    assert_eq!(
        check_point_update("a", 10, &shape, 2, 0),
        Err("Contour index 2 out of bounds in glyph 'a' (max: 2)".to_string())
    );
    assert_eq!(
        check_point_update("a", 10, &shape, 0, 3),
        Err("Point index 3 out of bounds in contour 0 of glyph 'a' (max: 3)".to_string())
    );
}
