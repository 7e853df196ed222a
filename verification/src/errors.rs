//! Error handling: validation of font paths and the wording of the error
//! messages the editor reports.
use vstd::prelude::*;
use vstd::string::*;
use crate::unicode::{decimal_string, dec_of};

verus! {

#[verifier::external_type_specification]
#[verifier::external_body]
pub struct ExAnyhowError(anyhow::Error);

/// The text an error displays (`Display`): for an error with an attached
/// context, that context.
pub uninterp spec fn context_message(e: anyhow::Error) -> Seq<char>;

/// Converts the error of `result` into an `anyhow::Error` and attaches
/// `message` as its context, by `anyhow::Context::with_context`.  Its source
/// passes an `Ok` value through unchanged and turns an `Err` into an `Err`
/// whose display is the attached context, `message`.
#[verifier::external_body]
fn result_with_context<T, E: Into<anyhow::Error>>(result: Result<T, E>, message: String) -> (r:
    Result<T, anyhow::Error>)
    ensures
        r is Ok <==> result is Ok,
        r matches Ok(w) ==> result matches Ok(v) && w == v,
        r matches Err(e) ==> context_message(e) == message@,
{
    anyhow::Context::with_context(result.map_err(|e| e.into()), || message)
}

/// Context for the errors of file, glyph and point operations.
pub trait BezyContext<T>: Sized {
    /// Add file operation context to an error
    fn with_file_context(self, operation: &str, path_display: &str) -> Result<T, anyhow::Error>;

    /// Add glyph operation context to an error
    fn with_glyph_context(self, operation: &str, glyph_name: &str) -> Result<T, anyhow::Error>;

    /// Add point operation context to an error
    fn with_point_context(
        self,
        operation: &str,
        glyph_name: &str,
        contour_idx: usize,
        point_idx: usize,
    ) -> Result<T, anyhow::Error>;
}

impl<T, E: Into<anyhow::Error>> BezyContext<T> for Result<T, E> {
    /// An `Ok` value passes through; an error gets the context
    /// `file_context_message(operation, path_display)`.
    fn with_file_context(self, operation: &str, path_display: &str) -> (r: Result<T, anyhow::Error>)
        ensures
            self is Ok <==> r is Ok,
            self matches Ok(v) ==> r matches Ok(w) && w == v,
            r matches Err(e) ==> context_message(e) == file_context_text(operation@, path_display@),
    {
        let message = file_context_message(operation, path_display);
        result_with_context(self, message)
    }

    /// An `Ok` value passes through; an error gets the context
    /// `glyph_context_message(operation, glyph_name)`.
    fn with_glyph_context(self, operation: &str, glyph_name: &str) -> (r: Result<T, anyhow::Error>)
        ensures
            self is Ok <==> r is Ok,
            self matches Ok(v) ==> r matches Ok(w) && w == v,
            r matches Err(e) ==> context_message(e) == glyph_context_text(operation@, glyph_name@),
    {
        let message = glyph_context_message(operation, glyph_name);
        result_with_context(self, message)
    }

    /// An `Ok` value passes through; an error gets the context
    /// `point_context_message(operation, glyph_name, contour_idx, point_idx)`.
    fn with_point_context(
        self,
        operation: &str,
        glyph_name: &str,
        contour_idx: usize,
        point_idx: usize,
    ) -> (r: Result<T, anyhow::Error>)
        ensures
            self is Ok <==> r is Ok,
            self matches Ok(v) ==> r matches Ok(w) && w == v,
            r matches Err(e) ==> context_message(e) == point_context_text(
                operation@,
                glyph_name@,
                contour_idx as nat,
                point_idx as nat,
            ),
    {
        let message = point_context_message(operation, glyph_name, contour_idx, point_idx);
        result_with_context(self, message)
    }
}

/// Why a path cannot be loaded as a UFO font.  Each variant carries the
/// path as displayed.
#[derive(Debug)]
pub enum UfoPathError {
    /// Nothing exists at the path
    Missing(String),
    /// The path exists but is not a directory
    NotDirectory(String),
    /// The directory has no `metainfo.plist`
    MissingMetainfo(String),
}

/// `a` followed by `b`.
fn concat(a: &str, b: &str) -> (r: String)
    ensures
        r@ == a@ + b@,
{
    let mut s = String::from_str(a);
    s.append(b);
    s
}

impl UfoPathError {
    /// The message this error is reported with.
    pub open spec fn spec_message(&self) -> Seq<char> {
        match self {
            UfoPathError::Missing(p) => "UFO path does not exist: "@ + p@,
            UfoPathError::NotDirectory(p) => "UFO path must be a directory: "@ + p@,
            UfoPathError::MissingMetainfo(p) => "Invalid UFO: missing metainfo.plist in "@ + p@,
        }
    }

    /// The message this error is reported with.
    pub fn message(&self) -> (r: String)
        ensures
            r@ == self.spec_message(),
    {
        match self {
            UfoPathError::Missing(p) => concat("UFO path does not exist: ", p.as_str()),
            UfoPathError::NotDirectory(p) => concat("UFO path must be a directory: ", p.as_str()),
            UfoPathError::MissingMetainfo(p) => concat(
                "Invalid UFO: missing metainfo.plist in ",
                p.as_str(),
            ),
        }
    }
}

/// Check what was found at a UFO path: it must exist, be a directory, and
/// hold `metainfo.plist`; the first failing check gives the error.
/// `path_display` is the path as shown to the user.
pub fn validate_ufo_path(path_display: &str, exists: bool, is_dir: bool, has_metainfo: bool) -> (r:
    Result<(), UfoPathError>)
    ensures
        !exists ==> (r matches Err(UfoPathError::Missing(p)) && p@ == path_display@),
        exists && !is_dir ==> (r matches Err(UfoPathError::NotDirectory(p)) && p@ == path_display@),
        exists && is_dir && !has_metainfo ==> (r matches Err(UfoPathError::MissingMetainfo(p))
            && p@ == path_display@),
        exists && is_dir && has_metainfo ==> r is Ok,
{
    if !exists {
        return Err(UfoPathError::Missing(String::from_str(path_display)));
    }
    if !is_dir {
        return Err(UfoPathError::NotDirectory(String::from_str(path_display)));
    }
    if !has_metainfo {
        return Err(UfoPathError::MissingMetainfo(String::from_str(path_display)));
    }
    Ok(())
}

/// "Failed to {operation} file: {path}".
pub open spec fn file_context_text(operation: Seq<char>, path: Seq<char>) -> Seq<char> {
    "Failed to "@ + operation + " file: "@ + path
}

/// "Failed to {operation} glyph '{glyph_name}': Operation failed".
pub open spec fn glyph_context_text(operation: Seq<char>, glyph_name: Seq<char>) -> Seq<char> {
    "Failed to "@ + operation + " glyph '"@ + glyph_name + "': Operation failed"@
}

/// "Failed to {operation} point {contour}.{point} in glyph '{glyph_name}':
/// Operation failed".
pub open spec fn point_context_text(operation: Seq<char>, glyph_name: Seq<char>, contour: nat, point: nat) -> Seq<
    char,
> {
    "Failed to "@ + operation + " point "@ + dec_of(contour) + "."@ + dec_of(point) + " in glyph '"@
        + glyph_name + "': Operation failed"@
}

/// "Failed to {operation} file: {path}".
pub fn file_context_message(operation: &str, path_display: &str) -> (r: String)
    ensures
        r@ == file_context_text(operation@, path_display@),
{
    let mut s = String::from_str("Failed to ");
    s.append(operation);
    s.append(" file: ");
    s.append(path_display);
    s
}

/// "Failed to {operation} glyph '{glyph_name}': Operation failed".
pub fn glyph_context_message(operation: &str, glyph_name: &str) -> (r: String)
    ensures
        r@ == glyph_context_text(operation@, glyph_name@),
{
    let mut s = String::from_str("Failed to ");
    s.append(operation);
    s.append(" glyph '");
    s.append(glyph_name);
    s.append("': Operation failed");
    s
}

/// "Failed to {operation} point {contour}.{point} in glyph '{glyph_name}':
/// Operation failed".
pub fn point_context_message(operation: &str, glyph_name: &str, contour_idx: usize, point_idx: usize) -> (r:
    String)
    ensures
        r@ == point_context_text(operation@, glyph_name@, contour_idx as nat, point_idx as nat),
{
    let mut s = String::from_str("Failed to ");
    s.append(operation);
    s.append(" point ");
    let c = decimal_string(contour_idx);
    s.append(c.as_str());
    s.append(".");
    let p = decimal_string(point_idx);
    s.append(p.as_str());
    s.append(" in glyph '");
    s.append(glyph_name);
    s.append("': Operation failed");
    s
}

/// "Glyph '{name}' not found in font (available glyphs: {available})".
pub fn glyph_not_found_message(name: &str, available: usize) -> (r: String)
    ensures
        r@ == glyph_not_found_text(name@, available as nat),
{
    let mut s = String::from_str("Glyph '");
    s.append(name);
    s.append("' not found in font (available glyphs: ");
    let a = decimal_string(available);
    s.append(a.as_str());
    s.append(")");
    s
}

/// "Point index {point} out of bounds in contour {contour} of glyph
/// '{glyph}' (max: {max})".
pub fn point_out_of_bounds_message(glyph: &str, contour: usize, point: usize, max: usize) -> (r: String)
    ensures
        r@ == point_out_of_bounds_text(glyph@, contour as nat, point as nat, max as nat),
{
    let mut s = String::from_str("Point index ");
    let p = decimal_string(point);
    s.append(p.as_str());
    s.append(" out of bounds in contour ");
    let c = decimal_string(contour);
    s.append(c.as_str());
    s.append(" of glyph '");
    s.append(glyph);
    s.append("' (max: ");
    let m = decimal_string(max);
    s.append(m.as_str());
    s.append(")");
    s
}

/// "Contour index {contour} out of bounds in glyph '{glyph}' (max: {max})".
pub fn contour_out_of_bounds_message(glyph: &str, contour: usize, max: usize) -> (r: String)
    ensures
        r@ == contour_out_of_bounds_text(glyph@, contour as nat, max as nat),
{
    let mut s = String::from_str("Contour index ");
    let c = decimal_string(contour);
    s.append(c.as_str());
    s.append(" out of bounds in glyph '");
    s.append(glyph);
    s.append("' (max: ");
    let m = decimal_string(max);
    s.append(m.as_str());
    s.append(")");
    s
}

/// "Glyph '{name}' not found in font (available glyphs: {available})".
pub open spec fn glyph_not_found_text(name: Seq<char>, available: nat) -> Seq<char> {
    "Glyph '"@ + name + "' not found in font (available glyphs: "@ + dec_of(available) + ")"@
}

/// "Glyph '{name}' has no outline data".
pub open spec fn no_outline_text(name: Seq<char>) -> Seq<char> {
    "Glyph '"@ + name + "' has no outline data"@
}

/// "Contour index {contour} out of bounds in glyph '{glyph}' (max: {max})".
pub open spec fn contour_out_of_bounds_text(glyph: Seq<char>, contour: nat, max: nat) -> Seq<char> {
    "Contour index "@ + dec_of(contour) + " out of bounds in glyph '"@ + glyph + "' (max: "@
        + dec_of(max) + ")"@
}

/// "Point index {point} out of bounds in contour {contour} of glyph
/// '{glyph}' (max: {max})".
pub open spec fn point_out_of_bounds_text(glyph: Seq<char>, contour: nat, point: nat, max: nat) -> Seq<
    char,
> {
    "Point index "@ + dec_of(point) + " out of bounds in contour "@ + dec_of(contour)
        + " of glyph '"@ + glyph + "' (max: "@ + dec_of(max) + ")"@
}

/// Why the point `point_idx` of contour `contour_idx` of the glyph `name`
/// cannot be updated, if it cannot: the glyph is missing (`shape` is
/// `None`; the font has `glyph_count` glyphs), it has no outline
/// (`Some(None)`), or an index is out of range of the outline's contours
/// and their point counts.
pub open spec fn point_update_error(
    name: Seq<char>,
    glyph_count: nat,
    shape: Option<Option<Seq<usize>>>,
    contour_idx: nat,
    point_idx: nat,
) -> Option<Seq<char>> {
    match shape {
        None => Some(glyph_not_found_text(name, glyph_count)),
        Some(None) => Some(no_outline_text(name)),
        Some(Some(counts)) => if contour_idx >= counts.len() {
            Some(contour_out_of_bounds_text(name, contour_idx, counts.len()))
        } else if point_idx >= counts[contour_idx as int] {
            Some(
                point_out_of_bounds_text(
                    name,
                    contour_idx,
                    point_idx,
                    counts[contour_idx as int] as nat,
                ),
            )
        } else {
            None
        },
    }
}

pub open spec fn shape_view(shape: Option<Option<Vec<usize>>>) -> Option<Option<Seq<usize>>> {
    match shape {
        None => None,
        Some(None) => Some(None),
        Some(Some(v)) => Some(Some(v@)),
    }
}

/// Check that a point can be updated: the glyph `glyph_name` exists
/// (`shape` is `Some`), has an outline (`Some(Some(counts))`, the number of
/// points of each contour), and both indices are in range; the error names
/// the first check that fails.
pub fn check_point_update(
    glyph_name: &str,
    glyph_count: usize,
    shape: &Option<Option<Vec<usize>>>,
    contour_idx: usize,
    point_idx: usize,
) -> (r: Result<(), String>)
    ensures
        match r {
            Ok(()) => point_update_error(
                glyph_name@,
                glyph_count as nat,
                shape_view(*shape),
                contour_idx as nat,
                point_idx as nat,
            ) is None,
            Err(m) => point_update_error(
                glyph_name@,
                glyph_count as nat,
                shape_view(*shape),
                contour_idx as nat,
                point_idx as nat,
            ) == Some(m@),
        },
{
    match shape {
        None => Err(glyph_not_found_message(glyph_name, glyph_count)),
        Some(None) => {
            let mut s = String::from_str("Glyph '");
            s.append(glyph_name);
            s.append("' has no outline data");
            Err(s)
        },
        Some(Some(counts)) => {
            if contour_idx >= counts.len() {
                Err(contour_out_of_bounds_message(glyph_name, contour_idx, counts.len()))
            } else if point_idx >= counts[contour_idx] {
                Err(
                    point_out_of_bounds_message(
                        glyph_name,
                        contour_idx,
                        point_idx,
                        counts[contour_idx],
                    ),
                )
            } else {
                Ok(())
            }
        },
    }
}

} // verus!
