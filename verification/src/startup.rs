//! The arguments the editor is started with, and their validation.
//!
//! A font is given either as a `.designspace` file or as a UFO directory
//! (a directory with a `metainfo.plist`, named `*.ufo` or without an
//! extension).  What the file system holds at the path is found by the
//! caller and handed in as a `FontPathProbe`.
use vstd::prelude::*;
use vstd::string::*;

verus! {

/// Default font to load if none is specified
pub const DEFAULT_UFO_PATH: &'static str = "assets/fonts/bezy-grotesk.designspace";

/// What was found at the path given for the font.
pub struct FontPathProbe {
    /// The path as shown to the user
    pub display: String,
    /// Something exists at the path
    pub exists: bool,
    /// The path's extension, if it has one
    pub extension: Option<String>,
    /// The path is a directory
    pub is_dir: bool,
    /// The directory holds a `metainfo.plist`
    pub has_metainfo: bool,
}

/// Start-up arguments: the font to load, the interface theme, and whether
/// to start without the default text buffer.
pub struct CliArgs {
    /// Path to a UFO file or designspace to load on startup
    pub ufo_path: Option<std::path::PathBuf>,
    /// Theme to use for the interface
    pub theme: Option<String>,
    /// Disable creation of default buffer on startup
    pub no_default_buffer: bool,
}

/// The message for a font path given without any path.
pub open spec fn missing_path_message() -> Seq<char> {
    "Please provide a UFO file path as an argument.\nExample: bezy assets/fonts/bezy-grotesk-regular.ufo"@
}

/// Why the font path found as `p` cannot be loaded, if it cannot.
pub open spec fn font_path_error(p: FontPathProbe) -> Option<Seq<char>> {
    if !p.exists {
        Some(
            "UFO file does not exist: "@ + p.display@
                + "\nMake sure the path is correct and the file exists."@,
        )
    } else {
        match p.extension {
            Some(e) => if e@ == "designspace"@ {
                None
            } else if e@ == "ufo"@ {
                ufo_directory_error(p)
            } else {
                Some(
                    "Unsupported file type: "@ + p.display@
                        + "\nSupported formats: .ufo directories and .designspace files."@,
                )
            },
            None => ufo_directory_error(p),
        }
    }
}

/// Why the path found as `p`, taken as a UFO directory, is not one.
pub open spec fn ufo_directory_error(p: FontPathProbe) -> Option<Seq<char>> {
    if !p.is_dir {
        Some(
            "Invalid path: "@ + p.display@
                + "\nPath must be either a .ufo directory or a .designspace file."@,
        )
    } else if !p.has_metainfo {
        Some(
            "Not a valid UFO file: missing metainfo.plist in "@ + p.display@
                + "\nMake sure this is a valid UFO directory."@,
        )
    } else {
        None
    }
}

/// Why the arguments are refused, if they are: first the font path
/// (`found`, absent when no path was given), then the theme, which must be
/// one of those named in `available_themes` (`theme_known` says whether it
/// is).
pub open spec fn validation_error(
    found: Option<FontPathProbe>,
    theme: Option<String>,
    theme_known: bool,
    available_themes: Seq<char>,
) -> Option<Seq<char>> {
    match found {
        None => Some(missing_path_message()),
        Some(p) => match font_path_error(p) {
            Some(m) => Some(m),
            None => match theme {
                Some(t) => if theme_known {
                    None
                } else {
                    Some("Unknown theme: '"@ + t@ + "'\nAvailable themes: "@ + available_themes)
                },
                None => None,
            },
        },
    }
}

fn string_of(s: &str) -> (r: String)
    ensures
        r@ == s@,
{
    String::from_str(s)
}

/// `a`, then `b`, then `c`.
fn concat3(a: &str, b: &str, c: &str) -> (r: String)
    ensures
        r@ == a@ + b@ + c@,
{
    let mut s = String::from_str(a);
    s.append(b);
    s.append(c);
    s
}

fn ufo_directory_check(p: &FontPathProbe) -> (r: Option<String>)
    ensures
        match r {
            Some(m) => ufo_directory_error(*p) == Some(m@),
            None => ufo_directory_error(*p) is None,
        },
{
    if !p.is_dir {
        Some(
            concat3(
                "Invalid path: ",
                p.display.as_str(),
                "\nPath must be either a .ufo directory or a .designspace file.",
            ),
        )
    } else if !p.has_metainfo {
        Some(
            concat3(
                "Not a valid UFO file: missing metainfo.plist in ",
                p.display.as_str(),
                "\nMake sure this is a valid UFO directory.",
            ),
        )
    } else {
        None
    }
}

fn font_path_check(p: &FontPathProbe) -> (r: Option<String>)
    ensures
        match r {
            Some(m) => font_path_error(*p) == Some(m@),
            None => font_path_error(*p) is None,
        },
{
    if !p.exists {
        return Some(
            concat3(
                "UFO file does not exist: ",
                p.display.as_str(),
                "\nMake sure the path is correct and the file exists.",
            ),
        );
    }
    match &p.extension {
        Some(e) => {
            if *e == string_of("designspace") {
                None
            } else if *e == string_of("ufo") {
                ufo_directory_check(p)
            } else {
                Some(
                    concat3(
                        "Unsupported file type: ",
                        p.display.as_str(),
                        "\nSupported formats: .ufo directories and .designspace files.",
                    ),
                )
            }
        },
        None => ufo_directory_check(p),
    }
}

/// The path `PathBuf::from(s)`.  A path is opaque here: nothing is stated
/// of what it holds.
#[verifier::external_body]
fn path_buf_from(s: &str) -> std::path::PathBuf {
    std::path::PathBuf::from(s)
}

impl CliArgs {
    /// The arguments used where there is no command line (in a browser):
    /// the default font, the default theme, and the default text buffer.
    pub fn default_for_web() -> (r: CliArgs)
        ensures
            r.ufo_path is Some,
            r.theme is None,
            !r.no_default_buffer,
    {
        CliArgs { ufo_path: Some(path_buf_from(DEFAULT_UFO_PATH)), theme: None, no_default_buffer: false }
    }

    /// Validate the arguments: `found` is what the file system holds at
    /// `ufo_path` (absent when no path was given), `theme_known` whether
    /// the theme names a known theme, and `available_themes` the list of
    /// theme names shown when it does not.
    pub fn validate(&self, found: &Option<FontPathProbe>, theme_known: bool, available_themes: &str) -> (r:
        Result<(), String>)
        ensures
            match r {
                Ok(()) => validation_error(*found, self.theme, theme_known, available_themes@) is None,
                Err(m) => validation_error(*found, self.theme, theme_known, available_themes@) == Some(
                    m@,
                ),
            },
    {
        let p = match found {
            None => {
                return Err(
                    string_of(
                        "Please provide a UFO file path as an argument.\nExample: bezy assets/fonts/bezy-grotesk-regular.ufo",
                    ),
                );
            },
            Some(p) => p,
        };
        match font_path_check(p) {
            Some(m) => {
                return Err(m);
            },
            None => {},
        }
        match &self.theme {
            Some(t) => {
                if theme_known {
                    Ok(())
                } else {
                    let mut m = concat3("Unknown theme: '", t.as_str(), "'\nAvailable themes: ");
                    m.append(available_themes);
                    Err(m)
                }
            },
            None => Ok(()),
        }
    }

    /// The font path; it is present once the arguments have been validated.
    pub fn get_ufo_path(&self) -> (r: &std::path::PathBuf)
        requires
            self.ufo_path is Some,
        ensures
            Some(*r) == self.ufo_path,
    {
        self.ufo_path.as_ref().unwrap()
    }
}

} // verus!
