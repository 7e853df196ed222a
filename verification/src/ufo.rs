//! Codepoint lookups and codepoint navigation over the glyphs of a UFO font.
//!
//! The font's default layer is given as the list of its glyphs, in the
//! layer's iteration order, each with its name and codepoints.
use vstd::prelude::*;
use crate::unicode::{
    char_to_hex_codepoint, compare_strs, hex4, key, lemma_lex_asymmetric, lemma_lex_irreflexive,
    sort_and_deduplicate_codepoints, str_lt, strictly_sorted, views,
};

verus! {

/// A glyph of the default layer: its name and its Unicode codepoints.
pub struct GlyphCodepoints {
    pub name: String,
    pub codepoints: Vec<char>,
}

/// Glyph `g` maps some codepoint to the hex string `hex`.
pub open spec fn glyph_has_hex(g: GlyphCodepoints, hex: Seq<char>) -> bool {
    exists|k: int| 0 <= k < g.codepoints@.len() && hex4(#[trigger] g.codepoints@[k] as nat) == hex
}

/// Index of the last glyph, among the first `n`, that has a codepoint
/// written `hex`.
pub open spec fn last_glyph_with_hex(glyphs: Seq<GlyphCodepoints>, hex: Seq<char>, n: int) -> Option<int>
    decreases n,
{
    if n <= 0 || n > glyphs.len() {
        None
    } else if glyph_has_hex(glyphs[n - 1], hex) {
        Some(n - 1)
    } else {
        last_glyph_with_hex(glyphs, hex, n - 1)
    }
}

/// Whether glyph `g` has a codepoint written `hex`.
fn glyph_has_codepoint(g: &GlyphCodepoints, hex: &str) -> (r: bool)
    ensures
        r == glyph_has_hex(*g, hex@),
{
    let n = g.codepoints.len();
    let mut k: usize = 0;
    while k < n
        invariant
            n == g.codepoints@.len(),
            0 <= k <= n,
            forall|j: int| 0 <= j < k ==> hex4(#[trigger] g.codepoints@[j] as nat) != hex@,
        decreases n - k,
    {
        let code = char_to_hex_codepoint(g.codepoints[k]);
        if compare_strs(code.as_str(), hex) == 0 {
            return true;
        }
        k = k + 1;
    }
    false
}

/// Find a glyph by its Unicode codepoint (like "0041" for letter A).  When
/// several glyphs map the codepoint, the one met last in the layer wins, as
/// it does in a codepoint-to-glyph map filled in layer order.
pub fn find_glyph_by_unicode(glyphs: &Vec<GlyphCodepoints>, codepoint_hex: &str) -> (r: Option<String>)
    ensures
        match last_glyph_with_hex(glyphs@, codepoint_hex@, glyphs@.len() as int) {
            Some(i) => r matches Some(name) && name@ == glyphs@[i].name@,
            None => r is None,
        },
{
    let mut i: usize = glyphs.len();
    while i > 0
        invariant
            i <= glyphs@.len(),
            last_glyph_with_hex(glyphs@, codepoint_hex@, glyphs@.len() as int) == last_glyph_with_hex(
                glyphs@,
                codepoint_hex@,
                i as int,
            ),
        decreases i,
    {
        if glyph_has_codepoint(&glyphs[i - 1], codepoint_hex) {
            return Some(glyphs[i - 1].name.clone());
        }
        i = i - 1;
    }
    None
}

/// Some glyph has a codepoint written `hex`.
pub open spec fn font_has_hex(glyphs: Seq<GlyphCodepoints>, hex: Seq<char>) -> bool {
    exists|i: int| 0 <= i < glyphs.len() && glyph_has_hex(#[trigger] glyphs[i], hex)
}

/// All codepoints that have glyphs in the font, as hex strings, sorted and
/// without duplicates.
pub fn get_all_codepoints(glyphs: &Vec<GlyphCodepoints>) -> (r: Vec<String>)
    ensures
        strictly_sorted(views(r@)),
        forall|x: Seq<char>| views(r@).contains(x) <==> font_has_hex(glyphs@, x),
{
    let mut codepoints: Vec<String> = Vec::new();
    let n = glyphs.len();
    let mut i: usize = 0;
    while i < n
        invariant
            n == glyphs@.len(),
            0 <= i <= n,
            forall|x: Seq<char>|
                views(codepoints@).contains(x) <==> exists|g: int|
                    0 <= g < i && glyph_has_hex(#[trigger] glyphs@[g], x),
        decreases n - i,
    {
        let g = &glyphs[i];
        let m = g.codepoints.len();
        let mut k: usize = 0;
        while k < m
            invariant
                n == glyphs@.len(),
                0 <= i < n,
                g == glyphs@[i as int],
                m == g.codepoints@.len(),
                0 <= k <= m,
                forall|x: Seq<char>|
                    views(codepoints@).contains(x) <==> (exists|h: int|
                        0 <= h < i && glyph_has_hex(#[trigger] glyphs@[h], x)) || (exists|j: int|
                        0 <= j < k && hex4(#[trigger] g.codepoints@[j] as nat) == x),
            decreases m - k,
        {
            let ghost before = views(codepoints@);
            let code = char_to_hex_codepoint(g.codepoints[k]);
            codepoints.push(code);
            proof {
                assert(views(codepoints@) =~= before.push(hex4(g.codepoints@[k as int] as nat)));
                assert forall|x: Seq<char>|
                    views(codepoints@).contains(x) <==> (exists|h: int|
                        0 <= h < i && glyph_has_hex(#[trigger] glyphs@[h], x)) || (exists|j: int|
                        0 <= j < k + 1 && hex4(#[trigger] g.codepoints@[j] as nat) == x) by {
                    if views(codepoints@).contains(x) {
                        let t = choose|t: int|
                            0 <= t < views(codepoints@).len() && views(codepoints@)[t] == x;
                        if t < before.len() {
                            assert(before[t] == x);
                        }
                    }
                    if exists|j: int| 0 <= j < k + 1 && hex4(#[trigger] g.codepoints@[j] as nat) == x {
                        let j = choose|j: int| 0 <= j < k + 1 && hex4(g.codepoints@[j] as nat) == x;
                        if j == k {
                            assert(views(codepoints@)[before.len() as int] == x);
                        } else {
                            assert(before.contains(x));
                            let t = choose|t: int| 0 <= t < before.len() && before[t] == x;
                            assert(views(codepoints@)[t] == x);
                        }
                    }
                    if before.contains(x) {
                        let t = choose|t: int| 0 <= t < before.len() && before[t] == x;
                        assert(views(codepoints@)[t] == x);
                    }
                }
            }
            k = k + 1;
        }
        proof {
            assert forall|x: Seq<char>|
                views(codepoints@).contains(x) <==> exists|h: int|
                    0 <= h < i + 1 && glyph_has_hex(#[trigger] glyphs@[h], x) by {
                if exists|j: int| 0 <= j < m && hex4(#[trigger] g.codepoints@[j] as nat) == x {
                    assert(glyph_has_hex(glyphs@[i as int], x));
                }
                if glyph_has_hex(glyphs@[i as int], x) {
                    let j = choose|j: int|
                        0 <= j < g.codepoints@.len() && hex4(#[trigger] g.codepoints@[j] as nat) == x;
                    assert(0 <= j < m && hex4(g.codepoints@[j] as nat) == x);
                }
            }
        }
        i = i + 1;
    }
    sort_and_deduplicate_codepoints(&mut codepoints);
    codepoints
}

/// Direction for cycling through codepoints.
#[derive(Clone, Copy, Debug, PartialEq, Eq, Structural)]
pub enum CycleDirection {
    Next,
    Previous,
}

/// Index of the first entry, at or after `i`, that equals `target`.
pub open spec fn first_position(list: Seq<Seq<char>>, target: Seq<char>, i: int) -> Option<int>
    decreases list.len() - i,
{
    if i < 0 || i >= list.len() {
        None
    } else if list[i] == target {
        Some(i)
    } else {
        first_position(list, target, i + 1)
    }
}

/// Where cycling starts when there is no usable current codepoint: the
/// first entry going forward, the last going backward.
pub open spec fn spec_direction_default(list: Seq<Seq<char>>, direction: CycleDirection) -> Option<Seq<char>> {
    if list.len() == 0 {
        None
    } else {
        match direction {
            CycleDirection::Next => Some(list[0]),
            CycleDirection::Previous => Some(list[list.len() - 1]),
        }
    }
}

/// The codepoint cycling moves to, wrapping around at both ends.
pub open spec fn spec_cycle(list: Seq<Seq<char>>, current: Seq<char>, direction: CycleDirection) -> Option<Seq<char>> {
    if list.len() == 0 {
        None
    } else if current.len() == 0 {
        spec_direction_default(list, direction)
    } else {
        match first_position(list, current, 0) {
            None => spec_direction_default(list, direction),
            Some(p) => match direction {
                CycleDirection::Next => if p + 1 < list.len() {
                    Some(list[p + 1])
                } else {
                    Some(list[0])
                },
                CycleDirection::Previous => if p > 0 {
                    Some(list[p - 1])
                } else {
                    Some(list[list.len() - 1])
                },
            },
        }
    }
}

/// The view of an optional string.
pub open spec fn opt_view(r: Option<String>) -> Option<Seq<char>> {
    match r {
        Some(s) => Some(s@),
        None => None,
    }
}

fn get_direction_default(codepoints: &[String], direction: CycleDirection) -> (r: Option<String>)
    ensures
        opt_view(r) == spec_direction_default(codepoints@.map_values(|s: String| s@), direction),
{
    let n = codepoints.len();
    if n == 0 {
        return None;
    }
    match direction {
        CycleDirection::Next => Some(codepoints[0].clone()),
        CycleDirection::Previous => Some(codepoints[n - 1].clone()),
    }
}

fn find_codepoint_position(codepoints: &[String], target: &str) -> (r: Option<usize>)
    ensures
        r is None <==> first_position(codepoints@.map_values(|s: String| s@), target@, 0) is None,
        r matches Some(p) ==> first_position(codepoints@.map_values(|s: String| s@), target@, 0)
            == Some(p as int) && p < codepoints@.len(),
{
    let ghost list = codepoints@.map_values(|s: String| s@);
    let n = codepoints.len();
    let mut i: usize = 0;
    while i < n
        invariant
            n == codepoints@.len(),
            list == codepoints@.map_values(|s: String| s@),
            0 <= i <= n,
            first_position(list, target@, 0) == first_position(list, target@, i as int),
        decreases n - i,
    {
        if compare_strs(codepoints[i].as_str(), target) == 0 {
            return Some(i);
        }
        i = i + 1;
    }
    None
}

/// Cycle to the next or previous codepoint of `available_codepoints`,
/// wrapping around; an empty or unknown current codepoint starts at the end
/// the direction points from.
pub fn cycle_codepoint_in_list(
    available_codepoints: &[String],
    current_codepoint: &str,
    direction: CycleDirection,
) -> (r: Option<String>)
    ensures
        opt_view(r) == spec_cycle(
            available_codepoints@.map_values(|s: String| s@),
            current_codepoint@,
            direction,
        ),
{
    let n = available_codepoints.len();
    if n == 0 {
        return None;
    }
    if current_codepoint.is_empty() {
        return get_direction_default(available_codepoints, direction);
    }
    let current_position = match find_codepoint_position(available_codepoints, current_codepoint) {
        Some(p) => p,
        None => return get_direction_default(available_codepoints, direction),
    };
    let ghost list = available_codepoints@.map_values(|s: String| s@);
    proof {
        assert(list[0] == available_codepoints@[0]@);
        assert(list[n - 1] == available_codepoints@[n - 1]@);
        if current_position + 1 < n {
            assert(list[current_position + 1] == available_codepoints@[current_position + 1]@);
        }
        if current_position > 0 {
            assert(list[current_position - 1] == available_codepoints@[current_position - 1]@);
        }
    }
    match direction {
        CycleDirection::Next => {
            if current_position + 1 < n {
                Some(available_codepoints[current_position + 1].clone())
            } else {
                Some(available_codepoints[0].clone())
            }
        },
        CycleDirection::Previous => {
            if current_position > 0 {
                Some(available_codepoints[current_position - 1].clone())
            } else {
                Some(available_codepoints[n - 1].clone())
            }
        },
    }
}

/// Move to the next codepoint in the list.
pub fn find_next_codepoint_in_list(available_codepoints: &[String], current_codepoint: &str) -> (r: Option<String>)
    ensures
        opt_view(r) == spec_cycle(
            available_codepoints@.map_values(|s: String| s@),
            current_codepoint@,
            CycleDirection::Next,
        ),
{
    cycle_codepoint_in_list(available_codepoints, current_codepoint, CycleDirection::Next)
}

/// Move to the previous codepoint in the list.
pub fn find_previous_codepoint_in_list(available_codepoints: &[String], current_codepoint: &str) -> (r: Option<String>)
    ensures
        opt_view(r) == spec_cycle(
            available_codepoints@.map_values(|s: String| s@),
            current_codepoint@,
            CycleDirection::Previous,
        ),
{
    cycle_codepoint_in_list(available_codepoints, current_codepoint, CycleDirection::Previous)
}

/// Where `first_position` stops: at the first entry equal to the target,
/// or nowhere when none from `i` on is.
proof fn lemma_first_position(list: Seq<Seq<char>>, target: Seq<char>, i: int)
    requires
        0 <= i,
    ensures
        first_position(list, target, i) matches Some(p) ==> i <= p < list.len() && list[p] == target
            && forall|k: int| i <= k < p ==> list[k] != target,
        first_position(list, target, i) is None ==> forall|k: int|
            i <= k < list.len() ==> list[k] != target,
    decreases list.len() - i,
{
    if i < list.len() && list[i] != target {
        lemma_first_position(list, target, i + 1);
    }
}

/// In a list without repeats, the entry at `q` is first found at `q`.
pub proof fn lemma_first_position_of_entry(list: Seq<Seq<char>>, q: int)
    requires
        strictly_sorted(list),
        0 <= q < list.len(),
    ensures
        first_position(list, list[q], 0) == Some(q),
{
    lemma_first_position(list, list[q], 0);
    if first_position(list, list[q], 0) != Some(q) {
        match first_position(list, list[q], 0) {
            Some(p) => {
                if p < q {
                    assert(str_lt(list[p], list[q]));
                    lemma_lex_irreflexive(key(list[q]));
                }
            },
            None => {},
        }
    }
}

/// Cycling forward and then backward from a codepoint of the list comes
/// back to it, and so does cycling backward and then forward (codepoint
/// strings are never empty).
pub proof fn lemma_cycle_next_then_previous(list: Seq<Seq<char>>, current: Seq<char>)
    requires
        strictly_sorted(list),
        list.contains(current),
        forall|k: int| 0 <= k < list.len() ==> (#[trigger] list[k]).len() > 0,
    ensures
        spec_cycle(list, current, CycleDirection::Next) matches Some(n) && spec_cycle(
            list,
            n,
            CycleDirection::Previous,
        ) == Some(current),
        spec_cycle(list, current, CycleDirection::Previous) matches Some(p) && spec_cycle(
            list,
            p,
            CycleDirection::Next,
        ) == Some(current),
{
    let i = choose|i: int| 0 <= i < list.len() && list[i] == current;
    lemma_first_position_of_entry(list, i);
    assert(current.len() > 0);
    let q = if i + 1 < list.len() {
        i + 1
    } else {
        0
    };
    lemma_first_position_of_entry(list, q);
    assert(list[q].len() > 0);
    let b = if i > 0 {
        i - 1
    } else {
        list.len() - 1
    };
    lemma_first_position_of_entry(list, b);
    assert(list[b].len() > 0);
}

/// `y` comes right after `c` among the strings of `list`, wrapping round:
/// the least one above `c`, or, when none is above `c`, the least of all.
pub open spec fn follows_in(list: Seq<Seq<char>>, c: Seq<char>, y: Seq<char>) -> bool {
    &&& list.contains(y)
    &&& {
        ||| str_lt(c, y) && forall|x: Seq<char>|
            list.contains(x) ==> !(str_lt(c, x) && str_lt(x, y))
        ||| (forall|x: Seq<char>| list.contains(x) ==> !str_lt(c, x)) && (forall|x: Seq<char>|
            list.contains(x) ==> !str_lt(x, y))
    }
}

/// `y` comes right before `c` among the strings of `list`, wrapping round:
/// the greatest one below `c`, or, when none is below `c`, the greatest of
/// all.
pub open spec fn precedes_in(list: Seq<Seq<char>>, c: Seq<char>, y: Seq<char>) -> bool {
    &&& list.contains(y)
    &&& {
        ||| str_lt(y, c) && forall|x: Seq<char>|
            list.contains(x) ==> !(str_lt(y, x) && str_lt(x, c))
        ||| (forall|x: Seq<char>| list.contains(x) ==> !str_lt(x, c)) && (forall|x: Seq<char>|
            list.contains(x) ==> !str_lt(y, x))
    }
}

/// In a strictly sorted list, the entry after position `p` (the first after
/// the last) follows it, and the entry before it (the last before the
/// first) precedes it.
pub proof fn lemma_sorted_neighbours(list: Seq<Seq<char>>, p: int)
    requires
        strictly_sorted(list),
        0 <= p < list.len(),
    ensures
        follows_in(list, list[p], list[(p + 1) % (list.len() as int)]),
        precedes_in(list, list[p], list[if p == 0 { list.len() - 1 } else { p - 1 }]),
{
    let n = list.len() as int;
    let c = list[p];
    let q = (p + 1) % n;
    let b = if p == 0 { n - 1 } else { p - 1 };
    assert(list.contains(list[q]));
    assert(list.contains(list[b]));
    // Entries before a position sort below it, entries after it above.
    assert forall|k: int, m: int| 0 <= k < n && 0 <= m < n && k <= m implies !str_lt(
        #[trigger] list[m],
        #[trigger] list[k],
    ) by {
        if k < m {
            lemma_lex_asymmetric(key(list[k]), key(list[m]));
        } else {
            lemma_lex_irreflexive(key(list[k]));
        }
    }
    if p + 1 < n {
        assert(q == p + 1) by (nonlinear_arith)
            requires
                q == (p + 1) % n,
                0 <= p + 1 < n,
        ;
        assert forall|x: Seq<char>| list.contains(x) implies !(str_lt(c, x) && str_lt(
            x,
            list[q],
        )) by {
            let k = choose|k: int| 0 <= k < n && list[k] == x;
            if k <= p {
                assert(!str_lt(list[p], list[k]));
            } else {
                assert(!str_lt(list[k], list[p + 1]));
            }
        }
    } else {
        assert(q == 0) by (nonlinear_arith)
            requires
                q == (p + 1) % n,
                p + 1 == n,
                n > 0,
        ;
        assert forall|x: Seq<char>| list.contains(x) implies !str_lt(c, x) by {
            let k = choose|k: int| 0 <= k < n && list[k] == x;
            assert(!str_lt(list[p], list[k]));
        }
        assert forall|x: Seq<char>| list.contains(x) implies !str_lt(x, list[q]) by {
            let k = choose|k: int| 0 <= k < n && list[k] == x;
            assert(!str_lt(list[k], list[0]));
        }
    }
    if p > 0 {
        assert forall|x: Seq<char>| list.contains(x) implies !(str_lt(list[b], x) && str_lt(
            x,
            c,
        )) by {
            let k = choose|k: int| 0 <= k < n && list[k] == x;
            if k <= p - 1 {
                assert(!str_lt(list[p - 1], list[k]));
            } else {
                assert(!str_lt(list[k], list[p]));
            }
        }
    } else {
        assert forall|x: Seq<char>| list.contains(x) implies !str_lt(x, c) by {
            let k = choose|k: int| 0 <= k < n && list[k] == x;
            assert(!str_lt(list[k], list[0]));
        }
        assert forall|x: Seq<char>| list.contains(x) implies !str_lt(list[b], x) by {
            let k = choose|k: int| 0 <= k < n && list[k] == x;
            assert(!str_lt(list[n - 1], list[k]));
        }
    }
}

/// Cycling from the entry at position `p` of a list (its first occurrence)
/// gives the entry at position `p + 1` going forward and `p - 1` going
/// backward, wrapping round at both ends, whatever the length of the list.
pub proof fn lemma_cycle_by_position(list: Seq<Seq<char>>, p: int)
    requires
        0 <= p < list.len(),
        list[p].len() > 0,
        forall|k: int| 0 <= k < p ==> list[k] != list[p],
    ensures
        spec_cycle(list, list[p], CycleDirection::Next) == Some(
            list[(p + 1) % (list.len() as int)],
        ),
        spec_cycle(list, list[p], CycleDirection::Previous) == Some(
            list[(p + list.len() - 1) % (list.len() as int)],
        ),
{
    let n = list.len() as int;
    lemma_first_position(list, list[p], 0);
    assert(first_position(list, list[p], 0) == Some(p)) by {
        match first_position(list, list[p], 0) {
            Some(q) => {
                if q > p {
                    assert(list[p] != list[p]);
                }
            },
            None => {
                assert(list[p] != list[p]);
            },
        }
    }
    if p + 1 < n {
        assert((p + 1) % n == p + 1) by (nonlinear_arith)
            requires
                0 <= p + 1 < n,
        ;
    } else {
        assert((p + 1) % n == 0) by (nonlinear_arith)
            requires
                p + 1 == n,
                n > 0,
        ;
    }
    if p > 0 {
        assert((p + n - 1) % n == p - 1) by (nonlinear_arith)
            requires
                0 < p < n,
        ;
    } else {
        assert((p + n - 1) % n == n - 1) by (nonlinear_arith)
            requires
                p == 0,
                n > 0,
        ;
    }
}

/// In a strictly sorted list of codepoints, cycling forward from one of
/// them moves to the next in sorted order and backward to the previous one,
/// wrapping round.
pub proof fn lemma_cycle_sorted_neighbour(list: Seq<Seq<char>>, current: Seq<char>)
    requires
        strictly_sorted(list),
        list.contains(current),
        current.len() > 0,
    ensures
        spec_cycle(list, current, CycleDirection::Next) matches Some(y) && follows_in(
            list,
            current,
            y,
        ),
        spec_cycle(list, current, CycleDirection::Previous) matches Some(y) && precedes_in(
            list,
            current,
            y,
        ),
{
    let p = choose|i: int| 0 <= i < list.len() && list[i] == current;
    lemma_first_position_of_entry(list, p);
    lemma_first_position(list, current, 0);
    lemma_cycle_by_position(list, p);
    lemma_sorted_neighbours(list, p);
    let n = list.len() as int;
    if p > 0 {
        assert((p + n - 1) % n == p - 1) by (nonlinear_arith)
            requires
                0 < p < n,
        ;
    } else {
        assert((p + n - 1) % n == n - 1) by (nonlinear_arith)
            requires
                p == 0,
                n > 0,
        ;
    }
}

} // verus!
