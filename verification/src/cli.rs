//! Command line arguments of the font editor and the glyph they ask for.
use vstd::prelude::*;
use vstd::string::*;
use vstd::utf8::encode_utf8;
use crate::unicode::{hex4, hex_codepoint_string, parse_hex_bytes, spec_parse_hex, string_push};

verus! {

#[verifier::external_type_specification]
#[verifier::external_body]
pub struct ExPathBuf(std::path::PathBuf);

/// Font editor command line arguments.
pub struct CliArgs {
    /// Path to a UFO font file to load
    pub ufo_path: Option<std::path::PathBuf>,
    /// Unicode codepoint to display for testing (in hexadecimal, e.g., 0048 for 'H')
    pub test_unicode: Option<String>,
    /// Display debug information
    pub debug: bool,
    /// Whether the requested codepoint was found
    pub codepoint_found: bool,
}

/// `b` with every leading `"0x"` removed (as `str::trim_start_matches("0x")`).
pub open spec fn strip_hex_prefixes(b: Seq<u8>) -> Seq<u8>
    decreases b.len(),
{
    if b.len() >= 2 && b[0] == 48 && b[1] == 120 {
        strip_hex_prefixes(b.skip(2))
    } else {
        b
    }
}

/// Glyph names used for a few punctuation codepoints.
pub open spec fn special_glyph_name(cp: u32) -> Option<Seq<char>> {
    if cp == 0x20 {
        Some(seq!['s', 'p', 'a', 'c', 'e'])
    } else if cp == 0x2e {
        Some(seq!['p', 'e', 'r', 'i', 'o', 'd'])
    } else if cp == 0x2c {
        Some(seq!['c', 'o', 'm', 'm', 'a'])
    } else if cp == 0x27 {
        Some(seq!['q', 'u', 'o', 't', 'e', 's', 'i', 'n', 'g', 'l', 'e'])
    } else {
        None
    }
}

/// Basic Latin letters and digits, which name their own glyph.
pub open spec fn is_basic_alnum(cp: u32) -> bool {
    (0x61 <= cp <= 0x7a) || (0x41 <= cp <= 0x5a) || (0x30 <= cp <= 0x39)
}

/// The glyph name asked for by the test codepoint string `u` (its bytes):
/// `H` when absent or not hexadecimal; a fixed name for space, period, comma
/// and single quote; the character itself for a Latin letter or digit;
/// `c|uniXXXX` for another printable ASCII character `c`; `uniXXXX` otherwise.
pub open spec fn spec_test_glyph(u: Option<Seq<u8>>) -> Seq<char> {
    match u {
        None => seq!['H'],
        Some(b) => match spec_parse_hex(strip_hex_prefixes(b)) {
            None => seq!['H'],
            Some(cp) => match special_glyph_name(cp) {
                Some(name) => name,
                None => if is_basic_alnum(cp) {
                    seq![cp as char]
                } else if 0x21 <= cp <= 0x7e {
                    seq![cp as char, '|', 'u', 'n', 'i'] + hex4(cp as nat)
                } else {
                    seq!['u', 'n', 'i'] + hex4(cp as nat)
                },
            },
        },
    }
}

/// Position after the leading `"0x"` prefixes of `b`, from `i` on.
pub(crate) fn skip_hex_prefixes(b: &[u8]) -> (r: usize)
    ensures
        r <= b@.len(),
        b@.skip(r as int) == strip_hex_prefixes(b@),
{
    let n = b.len();
    let mut i: usize = 0;
    proof {
        assert(b@.skip(0) =~= b@);
    }
    while n - i >= 2 && b[i] == 48 && b[i + 1] == 120
        invariant
            n == b@.len(),
            i <= n,
            strip_hex_prefixes(b@.skip(i as int)) == strip_hex_prefixes(b@),
        decreases n - i,
    {
        proof {
            assert(b@.skip(i as int).skip(2) =~= b@.skip(i + 2));
        }
        i = i + 2;
    }
    i
}

fn string_of(s: &str) -> (r: String)
    ensures
        r@ == s@,
{
    String::from_str(s)
}

impl CliArgs {
    /// The glyph name for the test codepoint, or `H` by default.
    pub fn get_test_glyph(&self) -> (r: String)
        ensures
            r@ == spec_test_glyph(
                match self.test_unicode {
                    Some(u) => Some(encode_utf8(u@)),
                    None => None,
                },
            ),
    {
        proof {
            reveal_strlit("H");
            reveal_strlit("space");
            reveal_strlit("period");
            reveal_strlit("comma");
            reveal_strlit("quotesingle");
            reveal_strlit("uni");
        }
        let unicode_str = match &self.test_unicode {
            Some(u) => u,
            None => return string_of("H"),
        };
        let bytes = unicode_str.as_str().as_bytes();
        let first = skip_hex_prefixes(bytes);
        let codepoint = match parse_hex_bytes(bytes, first) {
            Some(cp) => cp,
            None => return string_of("H"),
        };
        if codepoint == 0x20 {
            return string_of("space");
        }
        if codepoint == 0x2e {
            return string_of("period");
        }
        if codepoint == 0x2c {
            return string_of("comma");
        }
        if codepoint == 0x27 {
            return string_of("quotesingle");
        }
        if (0x61 <= codepoint && codepoint <= 0x7a) || (0x41 <= codepoint && codepoint <= 0x5a) || (
        0x30 <= codepoint && codepoint <= 0x39) {
            let c = (codepoint as u8) as char;
            let mut out = String::new();
            string_push(&mut out, c);
            return out;
        }
        let mut out = String::new();
        if 0x21 <= codepoint && codepoint <= 0x7e {
            let c = (codepoint as u8) as char;
            string_push(&mut out, c);
            string_push(&mut out, '|');
        }
        out.append("uni");
        let hex = hex_codepoint_string(codepoint);
        out.append(hex.as_str());
        out
    }

    /// The codepoint string as given, or the empty string.
    pub fn get_codepoint_string(&self) -> (r: String)
        ensures
            r@ == (match self.test_unicode {
                Some(u) => u@,
                None => Seq::<char>::empty(),
            }),
    {
        match &self.test_unicode {
            Some(unicode_str) => unicode_str.clone(),
            None => String::new(),
        }
    }

    /// Set the codepoint to show; it is not yet known to be in the font.
    pub fn set_codepoint(&mut self, new_codepoint: String)
        ensures
            final(self).test_unicode == Some(new_codepoint),
            !final(self).codepoint_found,
            final(self).debug == old(self).debug,
            final(self).ufo_path == old(self).ufo_path,
    {
        self.test_unicode = Some(new_codepoint);
        self.codepoint_found = false;
    }
}

} // verus!
