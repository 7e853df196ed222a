//! Navigation between glyphs by Unicode codepoint.
//!
//! The font's glyphs are given as a list in the order the font's glyph map
//! is walked; every result below is stated for whatever order that is.
use vstd::prelude::*;
use vstd::string::*;
use vstd::utf8::encode_utf8;
use crate::ufo::{
    GlyphCodepoints, first_position, follows_in, font_has_hex, lemma_first_position_of_entry,
    lemma_sorted_neighbours, opt_view, precedes_in,
};
use crate::unicode::{compare_strs, lemma_strictly_sorted_unique, parse_hex_u32, spec_parse_hex, strictly_sorted, views};

verus! {

/// Calls `char::from_u32`, which returns the char with the given value, or
/// `None` when the value is not a Unicode scalar value (above 0x10FFFF or a
/// surrogate).
#[verifier::external_body]
pub(crate) fn char_from_u32(v: u32) -> (r: Option<char>)
    ensures
        r is Some <==> (v <= 0x10ffff && !(0xd800 <= v <= 0xdfff)),
        r matches Some(c) ==> c == v as char,
{
    char::from_u32(v)
}

/// Glyph navigation state: the codepoint being shown.
pub struct GlyphNavigation {
    pub current_codepoint: Option<String>,
    pub codepoint_found: bool,
    pub current_glyph: Option<String>,
}

/// Direction for cycling through codepoints.
#[derive(Clone, Copy, Debug, PartialEq, Eq, Structural)]
pub enum CycleDirection {
    Next,
    Previous,
}

/// The char whose hexadecimal notation is `codepoint`, if it parses and
/// is a Unicode scalar value.
pub open spec fn spec_codepoint_char(codepoint: Seq<u8>) -> Option<char> {
    match spec_parse_hex(codepoint) {
        Some(v) => if v <= 0x10ffff && !(0xd800 <= v <= 0xdfff) {
            Some(v as char)
        } else {
            None
        },
        None => None,
    }
}

/// Glyph `g` maps the character `c`.
pub open spec fn glyph_maps(g: GlyphCodepoints, c: char) -> bool {
    exists|k: int| 0 <= k < g.codepoints@.len() && #[trigger] g.codepoints@[k] == c
}

/// Index of the first glyph, at or after `i`, that maps `c`.
pub open spec fn first_glyph_mapping(glyphs: Seq<GlyphCodepoints>, c: char, i: int) -> Option<int>
    decreases glyphs.len() - i,
{
    if i < 0 || i >= glyphs.len() {
        None
    } else if glyph_maps(glyphs[i], c) {
        Some(i)
    } else {
        first_glyph_mapping(glyphs, c, i + 1)
    }
}

/// The glyph `find_glyph_by_unicode_codepoint` gives for the hex string
/// `codepoint`: the first glyph, in walk order, that maps the character.
pub open spec fn spec_find_glyph(glyphs: Seq<GlyphCodepoints>, codepoint: Seq<u8>) -> Option<Seq<char>> {
    match spec_codepoint_char(codepoint) {
        Some(c) => match first_glyph_mapping(glyphs, c, 0) {
            Some(i) => Some(glyphs[i].name@),
            None => None,
        },
        None => None,
    }
}

fn glyph_has_char(g: &GlyphCodepoints, ch: char) -> (r: bool)
    ensures
        r == glyph_maps(*g, ch),
{
    let n = g.codepoints.len();
    let mut k: usize = 0;
    while k < n
        invariant
            n == g.codepoints@.len(),
            0 <= k <= n,
            forall|j: int| 0 <= j < k ==> #[trigger] g.codepoints@[j] != ch,
        decreases n - k,
    {
        if g.codepoints[k] == ch {
            return true;
        }
        k = k + 1;
    }
    false
}

/// Find the glyph for a hexadecimal codepoint string: the first glyph (in
/// the given order) whose codepoints include that character; `None` when the
/// string is not a hexadecimal scalar value or no glyph maps it.
pub fn find_glyph_by_unicode_codepoint(glyphs: &Vec<GlyphCodepoints>, codepoint: &str) -> (r: Option<String>)
    ensures
        opt_view(r) == spec_find_glyph(glyphs@, encode_utf8(codepoint@)),
{
    let value = match parse_hex_u32(codepoint) {
        Some(v) => v,
        None => return None,
    };
    let ch = match char_from_u32(value) {
        Some(c) => c,
        None => return None,
    };
    let n = glyphs.len();
    let mut i: usize = 0;
    while i < n
        invariant
            n == glyphs@.len(),
            0 <= i <= n,
            spec_codepoint_char(encode_utf8(codepoint@)) == Some(ch),
            first_glyph_mapping(glyphs@, ch, 0) == first_glyph_mapping(
                glyphs@,
                ch,
                i as int,
            ),
        decreases n - i,
    {
        if glyph_has_char(&glyphs[i], ch) {
            return Some(glyphs[i].name.clone());
        }
        i = i + 1;
    }
    None
}

/// All codepoints that have glyphs, as sorted distinct hex strings.
pub fn get_all_codepoints(glyphs: &Vec<GlyphCodepoints>) -> (r: Vec<String>)
    ensures
        strictly_sorted(views(r@)),
        forall|x: Seq<char>| views(r@).contains(x) <==> font_has_hex(glyphs@, x),
{
    crate::ufo::get_all_codepoints(glyphs)
}

/// The codepoint cycling moves to in a list: the first one when there is no
/// current codepoint or it is not in the list, else the next (or previous)
/// one, wrapping around.
pub open spec fn spec_nav_cycle(list: Seq<Seq<char>>, current: Option<Seq<char>>, direction: CycleDirection) -> Option<Seq<char>> {
    if list.len() == 0 {
        None
    } else {
        match current {
            None => Some(list[0]),
            Some(cur) => match first_position(list, cur, 0) {
                None => Some(list[0]),
                Some(p) => match direction {
                    CycleDirection::Next => Some(list[(p + 1) % (list.len() as int)]),
                    CycleDirection::Previous => if p == 0 {
                        Some(list[list.len() - 1])
                    } else {
                        Some(list[p - 1])
                    },
                },
            },
        }
    }
}

fn position_of(list: &Vec<String>, target: &String) -> (r: Option<usize>)
    ensures
        r is None <==> first_position(views(list@), target@, 0) is None,
        r matches Some(p) ==> first_position(views(list@), target@, 0) == Some(p as int) && p
            < list@.len(),
{
    let n = list.len();
    let mut i: usize = 0;
    while i < n
        invariant
            n == list@.len(),
            0 <= i <= n,
            first_position(views(list@), target@, 0) == first_position(
                views(list@),
                target@,
                i as int,
            ),
        decreases n - i,
    {
        if compare_strs(list[i].as_str(), target.as_str()) == 0 {
            return Some(i);
        }
        i = i + 1;
    }
    None
}

/// Find the next or previous codepoint among the font's codepoints.
pub fn cycle_codepoint_in_list(
    current_codepoint: Option<String>,
    glyphs: &Vec<GlyphCodepoints>,
    direction: CycleDirection,
) -> (r: Option<String>)
    ensures
        exists|list: Seq<Seq<char>>|
            strictly_sorted(list) && (forall|x: Seq<char>|
                list.contains(x) <==> font_has_hex(glyphs@, x)) && opt_view(r) == spec_nav_cycle(
                list,
                opt_view(current_codepoint),
                direction,
            ),
        forall|list: Seq<Seq<char>>|
            strictly_sorted(list) && (forall|x: Seq<char>|
                list.contains(x) <==> font_has_hex(glyphs@, x)) ==> opt_view(r) == spec_nav_cycle(
                list,
                opt_view(current_codepoint),
                direction,
            ),
{
    let codepoints = get_all_codepoints(glyphs);
    let ghost list = views(codepoints@);
    proof {
        assert forall|l: Seq<Seq<char>>|
            strictly_sorted(l) && (forall|x: Seq<char>| l.contains(x) <==> font_has_hex(glyphs@, x))
            implies l == list by {
            lemma_strictly_sorted_unique(l, list);
        }
    }
    let n = codepoints.len();
    if n == 0 {
        return None;
    }
    proof {
        assert(list[0] == codepoints@[0]@);
        assert(list[n - 1] == codepoints@[n - 1]@);
    }
    let current = match current_codepoint {
        Some(cp) => cp,
        None => return Some(codepoints[0].clone()),
    };
    match position_of(&codepoints, &current) {
        Some(current_index) => {
            match direction {
                CycleDirection::Next => {
                    let next_index = (current_index + 1) % n;
                    proof {
                        assert(list[next_index as int] == codepoints@[next_index as int]@);
                    }
                    Some(codepoints[next_index].clone())
                },
                CycleDirection::Previous => {
                    let prev_index = if current_index == 0 {
                        n - 1
                    } else {
                        current_index - 1
                    };
                    proof {
                        assert(list[prev_index as int] == codepoints@[prev_index as int]@);
                    }
                    Some(codepoints[prev_index].clone())
                },
            }
        },
        None => Some(codepoints[0].clone()),
    }
}

impl Default for GlyphNavigation {
    /// No codepoint yet; the glyph `a` is current.
    fn default() -> (r: Self)
        ensures
            r.current_codepoint is None,
            !r.codepoint_found,
            r.current_glyph matches Some(g) && g@ == seq!['a'],
    {
        let a = String::from_str("a");
        proof {
            reveal_strlit("a");
        }
        GlyphNavigation { current_codepoint: None, codepoint_found: false, current_glyph: Some(a) }
    }
}

impl GlyphNavigation {
    /// Switch to `new_codepoint`, not yet known to be in the font.
    pub fn set_codepoint(&mut self, new_codepoint: String)
        ensures
            final(self).current_codepoint == Some(new_codepoint),
            !final(self).codepoint_found,
            final(self).current_glyph == old(self).current_glyph,
    {
        self.current_codepoint = Some(new_codepoint);
        self.codepoint_found = false;
    }

    /// The current codepoint, or the empty string.
    pub fn get_codepoint_string(&self) -> (r: String)
        ensures
            r@ == (match self.current_codepoint {
                Some(c) => c@,
                None => Seq::<char>::empty(),
            }),
    {
        match &self.current_codepoint {
            Some(c) => c.clone(),
            None => String::new(),
        }
    }

    /// The glyph for the current codepoint, if any.
    pub fn find_glyph(&self, glyphs: &Vec<GlyphCodepoints>) -> (r: Option<String>)
        ensures
            opt_view(r) == (match self.current_codepoint {
                Some(c) => spec_find_glyph(glyphs@, encode_utf8(c@)),
                None => None,
            }),
    {
        match &self.current_codepoint {
            Some(codepoint) => find_glyph_by_unicode_codepoint(glyphs, codepoint.as_str()),
            None => None,
        }
    }
}

/// Among the font's codepoints in sorted order, cycling forward from one of
/// them moves to the next one and backward to the previous one, wrapping
/// round; and going forward and then back returns to where it started.
pub proof fn lemma_nav_cycle_sorted_neighbour(list: Seq<Seq<char>>, current: Seq<char>)
    requires
        strictly_sorted(list),
        list.contains(current),
    ensures
        spec_nav_cycle(list, Some(current), CycleDirection::Next) matches Some(y) && follows_in(
            list,
            current,
            y,
        ),
        spec_nav_cycle(list, Some(current), CycleDirection::Previous) matches Some(y)
            && precedes_in(list, current, y),
        spec_nav_cycle(list, Some(current), CycleDirection::Next) matches Some(y)
            && spec_nav_cycle(list, Some(y), CycleDirection::Previous) == Some(current),
        spec_nav_cycle(list, Some(current), CycleDirection::Previous) matches Some(y)
            && spec_nav_cycle(list, Some(y), CycleDirection::Next) == Some(current),
{
    let n = list.len() as int;
    let p = choose|i: int| 0 <= i < n && list[i] == current;
    lemma_first_position_of_entry(list, p);
    lemma_sorted_neighbours(list, p);
    let q = (p + 1) % n;
    let b = if p == 0 { n - 1 } else { p - 1 };
    assert(0 <= q < n && (q == 0 <==> p == n - 1) && (q != 0 ==> q == p + 1)) by (nonlinear_arith)
        requires
            q == (p + 1) % n,
            0 <= p < n,
    ;
    lemma_first_position_of_entry(list, q);
    lemma_first_position_of_entry(list, b);
    assert((b + 1) % n == p) by (nonlinear_arith)
        requires
            b == (if p == 0 { n - 1 } else { p - 1 }),
            0 <= p < n,
    ;
}

} // verus!
