//! The names a font's info gives it, and the name it is shown under.
use vstd::prelude::*;
use vstd::string::*;

verus! {

/// The name a font is shown under: its family and style names, the empty
/// ones left out, joined by a space; "Untitled Font" when both are empty.
pub open spec fn display_name(family: Seq<char>, style: Seq<char>) -> Seq<char> {
    if family.len() == 0 && style.len() == 0 {
        "Untitled Font"@
    } else if family.len() == 0 {
        style
    } else if style.len() == 0 {
        family
    } else {
        family + " "@ + style
    }
}

/// The display name combining the family and style names.
pub fn get_display_name(family_name: &str, style_name: &str) -> (r: String)
    ensures
        r@ == display_name(family_name@, style_name@),
{
    let family_empty = family_name.unicode_len() == 0;
    let style_empty = style_name.unicode_len() == 0;
    if family_empty && style_empty {
        String::from_str("Untitled Font")
    } else if family_empty {
        String::from_str(style_name)
    } else if style_empty {
        String::from_str(family_name)
    } else {
        let mut s = String::from_str(family_name);
        s.append(" ");
        s.append(style_name);
        s
    }
}

/// The value of a string field of a font's info, or `default` when it has
/// none.
pub fn extract_string_field(field: &Option<String>, default: &str) -> (r: String)
    ensures
        r@ == (match field {
            Some(v) => v@,
            None => default@,
        }),
{
    match field {
        Some(v) => v.clone(),
        None => String::from_str(default),
    }
}

} // verus!
