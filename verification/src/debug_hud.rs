//! The texts of the debug display: the font line with the test codepoint,
//! and the warning shown while the test codepoint has no glyph.
use vstd::prelude::*;
use vstd::string::*;
use vstd::utf8::encode_utf8;
use crate::cli::{skip_hex_prefixes, strip_hex_prefixes};
use crate::navigation::char_from_u32;
use crate::unicode::{parse_hex_bytes, spec_parse_hex, string_push};

verus! {

/// Control characters (Unicode general category Cc): U+0000 to U+001F and
/// U+007F to U+009F.
pub open spec fn is_control_value(v: u32) -> bool {
    v <= 0x1f || (0x7f <= v && v <= 0x9f)
}

/// Whether `c` is a control character (general category Cc), as
/// `char::is_control` tells.
fn char_is_control(c: char) -> (r: bool)
    ensures
        r == is_control_value(c as u32),
{
    let v = c as u32;
    v <= 0x1f || (0x7f <= v && v <= 0x9f)
}

/// The value of the hexadecimal codepoint string `b` (its bytes, leading
/// `0x` prefixes skipped), zero when it does not parse.
pub open spec fn codepoint_value(b: Seq<u8>) -> u32 {
    match spec_parse_hex(strip_hex_prefixes(b)) {
        Some(v) => v,
        None => 0,
    }
}

/// How a codepoint value is shown: the character in single quotes,
/// `<control>` for a control character, `<none>` when the value is no
/// character.
pub open spec fn char_display(v: u32) -> Seq<char> {
    if v <= 0x10ffff && !(0xd800 <= v <= 0xdfff) {
        if is_control_value(v) {
            "<control>"@
        } else {
            seq!['\'', v as char, '\'']
        }
    } else {
        "<none>"@
    }
}

/// The font line with the test codepoint `codepoint` appended.
pub open spec fn with_codepoint_info(base: Seq<char>, codepoint: Seq<char>) -> Seq<char> {
    base + " | Codepoint: U+"@ + codepoint + " "@ + char_display(codepoint_value(encode_utf8(codepoint)))
}

/// The font line shown: `base`, with the codepoint information when a
/// non-empty test codepoint is given.
pub open spec fn font_info_line(base: Seq<char>, test_unicode: Option<Seq<char>>) -> Seq<char> {
    match test_unicode {
        Some(cp) => if cp.len() > 0 {
            with_codepoint_info(base, cp)
        } else {
            base
        },
        None => base,
    }
}

pub open spec fn opt_str_view(s: Option<String>) -> Option<Seq<char>> {
    match s {
        Some(v) => Some(v@),
        None => None,
    }
}

/// How the test codepoint string `codepoint` is shown.
pub fn codepoint_char_display(codepoint: &str) -> (r: String)
    ensures
        r@ == char_display(codepoint_value(encode_utf8(codepoint@))),
{
    let bytes = codepoint.as_bytes();
    let first = skip_hex_prefixes(bytes);
    let value = match parse_hex_bytes(bytes, first) {
        Some(v) => v,
        None => 0,
    };
    match char_from_u32(value) {
        Some(c) => {
            if char_is_control(c) {
                String::from_str("<control>")
            } else {
                let mut s = String::new();
                string_push(&mut s, '\'');
                string_push(&mut s, c);
                string_push(&mut s, '\'');
                s
            }
        },
        None => String::from_str("<none>"),
    }
}

/// The font line: `base`, followed by ` | Codepoint: U+{cp} {char}` when
/// a non-empty test codepoint is given.
pub fn font_info_text(base: &str, test_unicode: &Option<String>) -> (r: String)
    ensures
        r@ == font_info_line(base@, opt_str_view(*test_unicode)),
{
    let mut text = String::from_str(base);
    match test_unicode {
        Some(codepoint) => {
            if codepoint.as_str().unicode_len() > 0 {
                text.append(" | Codepoint: U+");
                text.append(codepoint.as_str());
                text.append(" ");
                let shown = codepoint_char_display(codepoint.as_str());
                text.append(shown.as_str());
            }
        },
        None => {},
    }
    text
}

/// The font line to print when the test codepoint differs from the one
/// printed last (`last_printed`, which then becomes the current one);
/// `None`, and no change, when it is the same.
pub fn font_info_to_print(base: &str, test_unicode: &Option<String>, last_printed: &mut Option<String>) -> (r:
    Option<String>)
    ensures
        opt_str_view(*old(last_printed)) == opt_str_view(*test_unicode) ==> r is None
            && *final(last_printed) == *old(last_printed),
        opt_str_view(*old(last_printed)) != opt_str_view(*test_unicode) ==> (r matches Some(t) && t@
            == font_info_line(base@, opt_str_view(*test_unicode)) && opt_str_view(*final(last_printed))
            == opt_str_view(*test_unicode)),
{
    let same = match (&*last_printed, test_unicode) {
        (Some(a), Some(b)) => *a == *b,
        (None, None) => true,
        _ => false,
    };
    if same {
        return None;
    }
    let text = font_info_text(base, test_unicode);
    *last_printed = test_unicode.clone();
    Some(text)
}

/// What to do with the warning that the test codepoint has no glyph.
pub enum WarningAction {
    /// Show the warning with this text
    Show(String),
    /// Remove any warning shown
    Clear,
    /// Leave things as they are
    Keep,
}

/// The warning decision: while a non-empty test codepoint is not found, the
/// warning `Codepoint {cp} not found in UFO source` is shown once (when it
/// was not created and no warning text exists); once the codepoint is found
/// (or is empty) any warning is removed; without a test codepoint an
/// existing warning text is removed.
pub fn codepoint_warning_action(
    test_unicode: &Option<String>,
    codepoint_found: bool,
    warning_created: bool,
    warning_exists: bool,
) -> (r: WarningAction)
    ensures
        match test_unicode {
            Some(u) => if u@.len() > 0 && !codepoint_found {
                if !warning_created && !warning_exists {
                    r matches WarningAction::Show(m) && m@ == "Codepoint "@ + u@
                        + " not found in UFO source"@
                } else {
                    r is Keep
                }
            } else {
                r is Clear
            },
            None => if warning_exists {
                r is Clear
            } else {
                r is Keep
            },
        },
{
    match test_unicode {
        Some(u) => {
            if u.as_str().unicode_len() > 0 && !codepoint_found {
                if !warning_created && !warning_exists {
                    let mut m = String::from_str("Codepoint ");
                    m.append(u.as_str());
                    m.append(" not found in UFO source");
                    WarningAction::Show(m)
                } else {
                    WarningAction::Keep
                }
            } else {
                WarningAction::Clear
            }
        },
        None => {
            if warning_exists {
                WarningAction::Clear
            } else {
                WarningAction::Keep
            }
        },
    }
}

} // verus!
